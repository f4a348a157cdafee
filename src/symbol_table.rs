use vstd::prelude::*;

use crate::cairo_type::{Type, TypeView};
use crate::ident_generator::{IdentGenerator, NameKind, name_of};

verus! {

/// What the generator may still do with an identifier.
#[derive(Clone, Copy, Debug, PartialEq, Eq, Structural)]
pub enum OwnershipState {
    Valid,
    Moved,
    /// Under this many outstanding immutable borrows (at least one).
    Borrowed(u64),
    MutablyBorrowed,
}

/// A use of an identifier that may change its ownership state.
#[derive(Clone, Copy, Debug, PartialEq, Eq, Structural)]
pub enum OwnershipEvent {
    /// A read of a copyable value; the state is kept.
    Read,
    /// A move-semantics use that consumes the value.
    Move,
    Borrow,
    ReleaseBorrow,
    BorrowMut,
    ReleaseMut,
}

/// The errors of generation.
#[derive(Clone, Copy, Debug, PartialEq, Eq, Structural)]
pub enum GenerationError {
    /// A name bound twice in one scope.
    DuplicateBinding,
    /// A use, move or borrow that the ownership state forbids.
    InvalidOwnershipTransition,
    /// No candidate production survived the depth and ownership filters.
    NoViableProduction,
    /// A name bound in no enclosing scope.
    UnboundIdentifier,
    /// A name category has used up its counter: every name it can form was
    /// allocated.
    NamesExhausted,
}

/// The state after `e` in state `s`, or `None` where `e` is illegal there.
pub open spec fn step(s: OwnershipState, e: OwnershipEvent) -> Option<OwnershipState> {
    match (s, e) {
        (OwnershipState::Valid, OwnershipEvent::Read) => Some(OwnershipState::Valid),
        (OwnershipState::Borrowed(n), OwnershipEvent::Read) => Some(OwnershipState::Borrowed(n)),
        (OwnershipState::Valid, OwnershipEvent::Move) => Some(OwnershipState::Moved),
        (OwnershipState::Valid, OwnershipEvent::Borrow) => Some(OwnershipState::Borrowed(1)),
        (OwnershipState::Borrowed(n), OwnershipEvent::Borrow) => if n < u64::MAX {
            Some(OwnershipState::Borrowed((n + 1) as u64))
        } else {
            None
        },
        (OwnershipState::Borrowed(n), OwnershipEvent::ReleaseBorrow) => if n <= 1 {
            Some(OwnershipState::Valid)
        } else {
            Some(OwnershipState::Borrowed((n - 1) as u64))
        },
        (OwnershipState::Valid, OwnershipEvent::BorrowMut) => Some(OwnershipState::MutablyBorrowed),
        (OwnershipState::MutablyBorrowed, OwnershipEvent::ReleaseMut) => Some(OwnershipState::Valid),
        _ => None,
    }
}

/// A state is well formed when a borrowed state counts at least one borrow.
pub open spec fn state_wf(s: OwnershipState) -> bool {
    match s {
        OwnershipState::Borrowed(n) => n >= 1,
        _ => true,
    }
}

/// The ownership state machine: the next state after `event`, or `None`
/// where the event is illegal in `state`.
pub fn transition(state: OwnershipState, event: OwnershipEvent) -> (r: Option<OwnershipState>)
    ensures
        r == step(state, event),
{
    match (state, event) {
        (OwnershipState::Valid, OwnershipEvent::Read) => Some(OwnershipState::Valid),
        (OwnershipState::Borrowed(n), OwnershipEvent::Read) => Some(OwnershipState::Borrowed(n)),
        (OwnershipState::Valid, OwnershipEvent::Move) => Some(OwnershipState::Moved),
        (OwnershipState::Valid, OwnershipEvent::Borrow) => Some(OwnershipState::Borrowed(1)),
        (OwnershipState::Borrowed(n), OwnershipEvent::Borrow) => if n < u64::MAX {
            Some(OwnershipState::Borrowed(n + 1))
        } else {
            None
        },
        (OwnershipState::Borrowed(n), OwnershipEvent::ReleaseBorrow) => if n <= 1 {
            Some(OwnershipState::Valid)
        } else {
            Some(OwnershipState::Borrowed(n - 1))
        },
        (OwnershipState::Valid, OwnershipEvent::BorrowMut) => Some(OwnershipState::MutablyBorrowed),
        (OwnershipState::MutablyBorrowed, OwnershipEvent::ReleaseMut) => Some(OwnershipState::Valid),
        _ => None,
    }
}

/// No legal event observes or consumes a moved value, a mutable borrow needs
/// a state without any borrow, and every step keeps a state well formed.
pub proof fn lemma_ownership_safety(s: OwnershipState, e: OwnershipEvent)
    ensures
        s == OwnershipState::Moved ==> step(s, e) is None,
        e == OwnershipEvent::BorrowMut && step(s, e) is Some ==> s == OwnershipState::Valid,
        e == OwnershipEvent::Borrow && step(s, e) is Some ==> s != OwnershipState::MutablyBorrowed,
        state_wf(s) && step(s, e) is Some ==> state_wf(step(s, e)->0),
{
}

/// What is bound to a name.
pub struct IdentifierData {
    pub identifier_type: Type,
    pub mutable: bool,
    pub depth: usize,
    pub constant: bool,
    pub ownership: OwnershipState,
}

/// One lexical scope: its parent's index in the arena and its bindings.
pub struct Scope {
    pub parent: Option<usize>,
    pub symbol_map: Vec<(String, IdentifierData)>,
}

/// The bindings of a scope as the contracts see them.
pub open spec fn frame_of(m: Seq<(String, IdentifierData)>) -> Seq<(Seq<char>, IdentifierData)> {
    Seq::new(m.len(), |j: int| (m[j].0@, m[j].1))
}

/// `name` is bound in frame `f`.
pub open spec fn frame_has(f: Seq<(Seq<char>, IdentifierData)>, name: Seq<char>) -> bool {
    exists|j: int| 0 <= j < f.len() && #[trigger] f[j].0 == name
}

/// No name is bound twice in frame `f`.
pub open spec fn frame_unique(f: Seq<(Seq<char>, IdentifierData)>) -> bool {
    forall|a: int, b: int| 0 <= a < b < f.len() ==> #[trigger] f[a].0 != #[trigger] f[b].0
}

/// The position of `name` in frame `f`.
pub open spec fn frame_pos(f: Seq<(Seq<char>, IdentifierData)>, name: Seq<char>) -> int {
    choose|j: int| 0 <= j < f.len() && #[trigger] f[j].0 == name
}

/// The nearest binding of `name` at or below scope `i`: its scope and position.
pub open spec fn locate(fs: Seq<Seq<(Seq<char>, IdentifierData)>>, i: int, name: Seq<char>) -> Option<
    (int, int),
>
    decreases i + 1,
{
    if 0 <= i < fs.len() {
        if frame_has(fs[i], name) {
            Some((i, frame_pos(fs[i], name)))
        } else {
            locate(fs, i - 1, name)
        }
    } else {
        None
    }
}

/// What `name` resolves to from the innermost scope outward.
pub open spec fn lookup(fs: Seq<Seq<(Seq<char>, IdentifierData)>>, name: Seq<char>) -> Option<
    IdentifierData,
> {
    match locate(fs, fs.len() - 1, name) {
        Some((i, j)) => Some(fs[i][j].1),
        None => None,
    }
}

/// The same data with another ownership state.
pub open spec fn with_state(d: IdentifierData, s: OwnershipState) -> IdentifierData {
    IdentifierData {
        identifier_type: d.identifier_type,
        mutable: d.mutable,
        depth: d.depth,
        constant: d.constant,
        ownership: s,
    }
}

/// The registry of function signatures generated so far.
pub struct FunctionSymbolTable {
    pub symbol_map: Vec<(String, IdentifierData)>,
}

impl FunctionSymbolTable {
    pub fn new() -> (r: Self)
        ensures
            r.symbol_map@.len() == 0,
    {
        FunctionSymbolTable { symbol_map: Vec::new() }
    }
}

/// Module-level constants and the composite-type declarations emitted so far,
/// at most one per structural shape.
pub struct GlobalSymbolTable {
    symbol_map: Vec<(String, IdentifierData)>,
    declarations: Vec<(String, Type)>,
}

/// The declarations as the contracts see them: name and shape.
pub open spec fn decls_of(d: Seq<(String, Type)>) -> Seq<(Seq<char>, TypeView)> {
    Seq::new(d.len(), |i: int| (d[i].0@, d[i].1@))
}

/// No two declarations share a shape.
pub open spec fn shapes_unique(d: Seq<(Seq<char>, TypeView)>) -> bool {
    forall|a: int, b: int| 0 <= a < b < d.len() ==> #[trigger] d[a].1 != #[trigger] d[b].1
}

/// Some declaration has shape `t`.
pub open spec fn has_shape(d: Seq<(Seq<char>, TypeView)>, t: TypeView) -> bool {
    exists|i: int| 0 <= i < d.len() && #[trigger] d[i].1 == t
}

/// The name declared for shape `t`.
pub open spec fn name_for_shape(d: Seq<(Seq<char>, TypeView)>, t: TypeView) -> Seq<char> {
    d[choose|i: int| 0 <= i < d.len() && #[trigger] d[i].1 == t].0
}

/// Registering shape `t` when `fresh` is the next free name: the declarations
/// afterwards and the name handed back.
pub open spec fn register_model(d: Seq<(Seq<char>, TypeView)>, t: TypeView, fresh: Seq<char>) -> (
    Seq<(Seq<char>, TypeView)>,
    Seq<char>,
) {
    if has_shape(d, t) {
        (d, name_for_shape(d, t))
    } else {
        (d.push((fresh, t)), fresh)
    }
}

/// Registering two structurally equal types one after the other declares
/// one type, and both registrations hand back the same name.
pub proof fn lemma_structural_dedup(
    d: Seq<(Seq<char>, TypeView)>,
    t1: TypeView,
    t2: TypeView,
    fresh1: Seq<char>,
    fresh2: Seq<char>,
)
    requires
        shapes_unique(d),
        t1 == t2,
    ensures
        register_model(register_model(d, t1, fresh1).0, t2, fresh2).0 == register_model(
            d,
            t1,
            fresh1,
        ).0,
        register_model(register_model(d, t1, fresh1).0, t2, fresh2).1 == register_model(
            d,
            t1,
            fresh1,
        ).1,
        register_model(d, t1, fresh1).0.len() <= d.len() + 1,
        shapes_unique(register_model(d, t1, fresh1).0),
{
    let (d1, n1) = register_model(d, t1, fresh1);
    if has_shape(d, t1) {
        assert(d1 == d);
    } else {
        assert(d1[d.len() as int].1 == t2);
        assert(has_shape(d1, t2));
        let i = choose|i: int| 0 <= i < d1.len() && #[trigger] d1[i].1 == t2;
        assert(i == d.len());
    }
}

/// After registering shape `t`, the registry declares `t` under the name
/// that the registration handed back.
pub proof fn lemma_registered_name(d: Seq<(Seq<char>, TypeView)>, t: TypeView, fresh: Seq<char>)
    requires
        shapes_unique(d),
    ensures
        has_shape(register_model(d, t, fresh).0, t),
        name_for_shape(register_model(d, t, fresh).0, t) == register_model(d, t, fresh).1,
        shapes_unique(register_model(d, t, fresh).0),
{
    if !has_shape(d, t) {
        let d1 = d.push((fresh, t));
        assert(d1[d.len() as int].1 == t);
        assert(has_shape(d1, t));
        let i = choose|i: int| 0 <= i < d1.len() && #[trigger] d1[i].1 == t;
        if i < d.len() {
            assert(d[i].1 == t);
        }
        assert forall|a: int, b: int| 0 <= a < b < d1.len() implies #[trigger] d1[a].1
            != #[trigger] d1[b].1 by {
            if b == d.len() {
                if d[a].1 == t {
                    assert(has_shape(d, t));
                }
            } else {
                assert(d[a].1 != d[b].1);
            }
        }
    }
}

/// Registering any shape keeps every registered shape declared under the
/// same name: a name handed out for a shape stays that shape's name.
pub proof fn lemma_register_keeps_names(
    d: Seq<(Seq<char>, TypeView)>,
    t: TypeView,
    u: TypeView,
    fresh: Seq<char>,
)
    requires
        shapes_unique(d),
        has_shape(d, u),
    ensures
        has_shape(register_model(d, t, fresh).0, u),
        name_for_shape(register_model(d, t, fresh).0, u) == name_for_shape(d, u),
{
    lemma_registered_name(d, t, fresh);
    if !has_shape(d, t) {
        let d1 = d.push((fresh, t));
        let i = choose|i: int| 0 <= i < d.len() && #[trigger] d[i].1 == u;
        assert(d1[i].1 == u);
        assert(has_shape(d1, u));
        let j = choose|j: int| 0 <= j < d1.len() && #[trigger] d1[j].1 == u;
        if j == d.len() {
            assert(d1[j].1 == t);
        }
        if i != j {
            if i < j {
                assert(d1[i].1 != d1[j].1);
            } else {
                assert(d1[j].1 != d1[i].1);
            }
        }
    }
}

/// A shape declared in a registry keeps its name in any registry that
/// extends it and still declares each shape once.
pub proof fn lemma_prefix_keeps_names(
    d0: Seq<(Seq<char>, TypeView)>,
    d1: Seq<(Seq<char>, TypeView)>,
    t: TypeView,
)
    requires
        d0.is_prefix_of(d1),
        shapes_unique(d1),
        has_shape(d0, t),
    ensures
        has_shape(d1, t),
        name_for_shape(d1, t) == name_for_shape(d0, t),
{
    let i = choose|i: int| 0 <= i < d0.len() && #[trigger] d0[i].1 == t;
    assert(d1[i] == d0[i]);
    assert(has_shape(d1, t));
    let j = choose|j: int| 0 <= j < d1.len() && #[trigger] d1[j].1 == t;
    if i != j {
        if i < j {
            assert(d1[i].1 != d1[j].1);
        } else {
            assert(d1[j].1 != d1[i].1);
        }
    }
}

impl GlobalSymbolTable {
    pub fn new() -> (r: Self)
        ensures
            r.wf(),
            r.decls().len() == 0,
            r.constants().len() == 0,
    {
        let r = GlobalSymbolTable { symbol_map: Vec::new(), declarations: Vec::new() };
        assert(r.decls() =~= Seq::empty());
        r
    }

    pub closed spec fn wf(&self) -> bool {
        shapes_unique(self.decls()) && frame_unique(self.constants())
    }

    /// A well-formed registry declares each shape once and binds each
    /// constant once.
    pub proof fn lemma_wf(&self)
        requires
            self.wf(),
        ensures
            shapes_unique(self.decls()),
            frame_unique(self.constants()),
    {
    }

    /// The registered declarations, in registration order.
    pub closed spec fn decls(&self) -> Seq<(Seq<char>, TypeView)> {
        decls_of(self.declarations@)
    }

    /// The module-level constants.
    pub closed spec fn constants(&self) -> Seq<(Seq<char>, IdentifierData)> {
        frame_of(self.symbol_map@)
    }

    /// Returns the name declared for `shape`'s structure, declaring it under
    /// a fresh struct name first if no structurally equal type has one.
    pub fn register_type(&mut self, shape: Type, names: &mut IdentGenerator) -> (r: String)
        requires
            old(self).wf(),
            old(names).count(NameKind::Struct) < u64::MAX,
        ensures
            final(self).wf(),
            (final(self).decls(), r@) == register_model(
                old(self).decls(),
                shape@,
                name_of(NameKind::Struct, old(names).count(NameKind::Struct) + 1),
            ),
            final(self).constants() == old(self).constants(),
            has_shape(final(self).decls(), shape@),
            name_for_shape(final(self).decls(), shape@) == r@,
            has_shape(old(self).decls(), shape@) ==> *final(names) == *old(names),
            !has_shape(old(self).decls(), shape@) ==> !old(names).issued().contains(r@),
            !has_shape(old(self).decls(), shape@) ==> final(names).count(NameKind::Struct)
                == old(names).count(NameKind::Struct) + 1,
            forall|k: NameKind|
                k != NameKind::Struct ==> final(names).count(k) == old(names).count(k),
            final(names).issued().subset_of(old(names).issued().insert(r@)),
            old(names).issued().subset_of(final(names).issued()),
    {
        let mut i: usize = 0;
        while i < self.declarations.len()
            invariant
                0 <= i <= self.declarations@.len(),
                self.wf(),
                *self == *old(self),
                *names == *old(names),
                forall|k: int| 0 <= k < i ==> #[trigger] self.declarations@[k].1@ != shape@,
            decreases self.declarations@.len() - i,
        {
            if self.declarations[i].1.same_type(&shape) {
                let r = self.declarations[i].0.clone();
                proof {
                    let d = self.decls();
                    assert(d[i as int].1 == shape@);
                    assert(has_shape(d, shape@));
                    let c = choose|c: int| 0 <= c < d.len() && #[trigger] d[c].1 == shape@;
                    if c != i {
                        assert(d[c].1 == d[i as int].1);
                    }
                    assert(d[i as int].0 == r@);
                }
                return r;
            }
            i = i + 1;
        }
        let ghost before = self.decls();
        proof {
            assert(!has_shape(before, shape@)) by {
                if has_shape(before, shape@) {
                    let c = choose|c: int| 0 <= c < before.len() && #[trigger] before[c].1 == shape@;
                    assert(self.declarations@[c].1@ == shape@);
                }
            }
        }
        let ghost sv = shape@;
        let name = names.generate(NameKind::Struct);
        self.declarations.push((name.clone(), shape));
        proof {
            assert(self.decls() =~= before.push((name@, sv)));
            assert forall|a: int, b: int| 0 <= a < b < self.decls().len() implies #[trigger] self.decls()[a].1
                != #[trigger] self.decls()[b].1 by {
                if b == before.len() {
                    assert(before[a].1 != sv);
                } else {
                    assert(before[a].1 != before[b].1);
                }
            }
            assert(self.constants() == old(self).constants());
            lemma_registered_name(before, sv, name@);
        }
        name
    }
}

impl GlobalSymbolTable {
    /// Binds a module-level constant; a name bound twice is refused.
    pub fn bind_constant(&mut self, name: String, data: IdentifierData) -> (r: Result<
        (),
        GenerationError,
    >)
        requires
            old(self).wf(),
        ensures
            final(self).wf(),
            final(self).decls() == old(self).decls(),
            frame_has(old(self).constants(), name@) ==> r == Err::<(), GenerationError>(
                GenerationError::DuplicateBinding,
            ) && final(self).constants() == old(self).constants(),
            !frame_has(old(self).constants(), name@) ==> r is Ok && final(self).constants()
                == old(self).constants().push((name@, data)),
    {
        match find(&self.symbol_map, &name) {
            Some(j) => {
                assert(self.constants()[j as int].0 == name@);
                Err(GenerationError::DuplicateBinding)
            },
            None => {
                let ghost before = self.constants();
                let ghost entry = (name@, data);
                self.symbol_map.push((name, data));
                proof {
                    assert(self.constants() =~= before.push(entry));
                    assert(self.decls() == old(self).decls());
                    assert forall|a: int, b: int| 0 <= a < b < self.constants().len() implies #[trigger] self.constants()[a].0
                        != #[trigger] self.constants()[b].0 by {
                        if b == before.len() {
                            assert(before[a].0 != entry.0);
                        } else {
                            assert(before[a].0 != before[b].0);
                        }
                    }
                }
                Ok(())
            },
        }
    }

    /// The declarations registered so far: `(name, type)` in registration order.
    pub fn declarations(&self) -> (r: &Vec<(String, Type)>)
        ensures
            decls_of(r@) == self.decls(),
    {
        &self.declarations
    }

    /// The module-level constants.
    pub fn constant_bindings(&self) -> (r: &Vec<(String, IdentifierData)>)
        ensures
            frame_of(r@) == self.constants(),
    {
        &self.symbol_map
    }
}

/// The position of `name` in `m`, if it is bound there.
fn find(m: &Vec<(String, IdentifierData)>, name: &String) -> (r: Option<usize>)
    ensures
        match r {
            Some(j) => j < m@.len() && m@[j as int].0@ == name@,
            None => !frame_has(frame_of(m@), name@),
        },
{
    let mut j: usize = 0;
    while j < m.len()
        invariant
            0 <= j <= m@.len(),
            forall|k: int| 0 <= k < j ==> #[trigger] m@[k].0@ != name@,
        decreases m@.len() - j,
    {
        if m[j].0 == *name {
            return Some(j);
        }
        j = j + 1;
    }
    assert(!frame_has(frame_of(m@), name@)) by {
        if frame_has(frame_of(m@), name@) {
            let k = choose|k: int| 0 <= k < m@.len() && #[trigger] frame_of(m@)[k].0 == name@;
            assert(m@[k].0@ == name@);
        }
    }
    None
}

/// Hierarchical name bindings: an arena of scopes addressed by index, each
/// holding its parent's index, the innermost scope last; beside them the
/// function registry and the global registry.
pub struct SymbolTable {
    scopes: Vec<Scope>,
    function_symbol_table: FunctionSymbolTable,
    global_symbol_table: GlobalSymbolTable,
}

impl SymbolTable {
    /// The bindings of each scope, outermost first.
    pub closed spec fn frames(&self) -> Seq<Seq<(Seq<char>, IdentifierData)>> {
        Seq::new(self.scopes@.len(), |i: int| frame_of(self.scopes@[i].symbol_map@))
    }

    /// The function registry.
    pub closed spec fn functions(&self) -> FunctionSymbolTable {
        self.function_symbol_table
    }

    /// The global registry.
    pub closed spec fn globals(&self) -> GlobalSymbolTable {
        self.global_symbol_table
    }

    pub closed spec fn wf(&self) -> bool {
        &&& self.scopes@.len() >= 1
        &&& forall|i: int|
            0 <= i < self.scopes@.len() ==> (#[trigger] self.scopes@[i]).parent == (if i == 0 {
                None
            } else {
                Some((i - 1) as usize)
            })
        &&& forall|i: int| 0 <= i < self.scopes@.len() ==> frame_unique(#[trigger] self.frames()[i])
        &&& self.global_symbol_table.wf()
    }

    /// A well-formed table has a well-formed global registry.
    pub proof fn lemma_globals_wf(&self)
        requires
            self.wf(),
        ensures
            self.globals().wf(),
    {
    }

    /// A table with one empty root scope.
    pub fn new(
        function_symbol_table: FunctionSymbolTable,
        global_symbol_table: GlobalSymbolTable,
    ) -> (r: Self)
        requires
            global_symbol_table.wf(),
        ensures
            r.wf(),
            r.frames() == seq![Seq::<(Seq<char>, IdentifierData)>::empty()],
            r.globals() == global_symbol_table,
            r.functions() == function_symbol_table,
    {
        let root = Scope { parent: None, symbol_map: Vec::new() };
        let mut scopes: Vec<Scope> = Vec::new();
        scopes.push(root);
        let r = SymbolTable { scopes, function_symbol_table, global_symbol_table };
        assert(r.frames() =~~= seq![Seq::<(Seq<char>, IdentifierData)>::empty()]);
        r
    }

    /// How many scopes enclose the innermost one.
    pub fn scope_depth(&self) -> (r: usize)
        requires
            self.wf(),
        ensures
            r == self.frames().len() - 1,
    {
        self.scopes.len() - 1
    }

    /// Enters a block: a new empty scope whose parent is the current one.
    pub fn push_scope(&mut self)
        requires
            old(self).wf(),
            old(self).frames().len() < usize::MAX,
        ensures
            final(self).wf(),
            final(self).frames() == old(self).frames().push(Seq::empty()),
            final(self).globals() == old(self).globals(),
            forall|n: Seq<char>| #[trigger] lookup(final(self).frames(), n) == lookup(
                old(self).frames(),
                n,
            ),
    {
        proof {
            lemma_lookup_push_scope(old(self).frames());
        }
        let parent = self.scopes.len() - 1;
        self.scopes.push(Scope { parent: Some(parent), symbol_map: Vec::new() });
        assert(self.frames() =~~= old(self).frames().push(Seq::empty()));
        assert forall|i: int| 0 <= i < self.scopes@.len() implies frame_unique(#[trigger] self.frames()[i]) by {
            if i < old(self).scopes@.len() {
                assert(self.frames()[i] == old(self).frames()[i]);
            }
        }
    }

    /// Leaves a block: its scope and every binding in it go out of lookup.
    pub fn pop_scope(&mut self)
        requires
            old(self).wf(),
            old(self).frames().len() > 1,
        ensures
            final(self).wf(),
            final(self).frames() == old(self).frames().drop_last(),
            final(self).globals() == old(self).globals(),
    {
        self.scopes.pop();
        assert(self.frames() =~= old(self).frames().drop_last());
        assert forall|i: int| 0 <= i < self.scopes@.len() implies frame_unique(#[trigger] self.frames()[i]) by {
            assert(self.frames()[i] == old(self).frames()[i]);
        }
    }

    /// Binds `name` in the current scope. A name already bound in the current
    /// scope is refused; one bound in an outer scope is shadowed.
    pub fn bind(&mut self, name: String, data: IdentifierData) -> (r: Result<(), GenerationError>)
        requires
            old(self).wf(),
        ensures
            final(self).wf(),
            final(self).globals() == old(self).globals(),
            frame_has(old(self).frames().last(), name@) ==> r == Err::<(), GenerationError>(
                GenerationError::DuplicateBinding,
            ) && final(self).frames() == old(self).frames(),
            !frame_has(old(self).frames().last(), name@) ==> r is Ok && final(self).frames()
                == old(self).frames().update(
                old(self).frames().len() - 1,
                old(self).frames().last().push((name@, data)),
            ) && lookup(final(self).frames(), name@) == Some(data) && forall|n: Seq<char>|
                n != name@ ==> #[trigger] lookup(final(self).frames(), n) == lookup(
                    old(self).frames(),
                    n,
                ),
    {
        let last = self.scopes.len() - 1;
        match find(&self.scopes[last].symbol_map, &name) {
            Some(j) => {
                assert(old(self).frames().last() == frame_of(self.scopes@[last as int].symbol_map@));
                assert(old(self).frames().last()[j as int].0 == name@);
                Err(GenerationError::DuplicateBinding)
            },
            None => {
                let ghost fs = self.frames();
                let ghost entry = (name@, data);
                let mut top = self.scopes.pop().unwrap();
                top.symbol_map.push((name, data));
                self.scopes.push(top);
                proof {
                    assert(frame_of(self.scopes@[last as int].symbol_map@) =~= fs.last().push(entry));
                    assert(self.frames() =~~= fs.update(fs.len() - 1, fs.last().push(entry)));
                    assert forall|i: int| 0 <= i < self.scopes@.len() implies (#[trigger] self.scopes@[i]).parent == (if i == 0 {
                        None
                    } else {
                        Some((i - 1) as usize)
                    }) by {
                        assert(self.scopes@[i].parent == old(self).scopes@[i].parent);
                    }
                    let top = self.frames()[last as int];
                    assert(top[fs.last().len() as int].0 == name@);
                    assert(frame_has(top, name@));
                    let p = frame_pos(top, name@);
                    if p != fs.last().len() {
                        assert(fs.last()[p].0 == name@);
                        assert(frame_has(fs.last(), name@));
                    }
                    assert(locate(self.frames(), self.frames().len() - 1, name@) == Some(
                        (last as int, p),
                    ));
                    assert(!frame_has(fs.last(), name@));
                    lemma_lookup_push(fs, name@, data);
                    assert forall|i: int| 0 <= i < self.scopes@.len() implies frame_unique(#[trigger] self.frames()[i]) by {
                        if i == last {
                            let f = self.frames()[i];
                            assert forall|a: int, b: int| 0 <= a < b < f.len() implies #[trigger] f[a].0
                                != #[trigger] f[b].0 by {
                                if b == fs.last().len() {
                                    assert(fs.last()[a].0 != entry.0);
                                } else {
                                    assert(fs.last()[a].0 != fs.last()[b].0);
                                }
                            }
                        } else {
                            assert(self.frames()[i] == fs[i]);
                        }
                    }
                }
                Ok(())
            },
        }
    }

    /// The scope and position of the nearest binding of `name`.
    fn locate_binding(&self, name: &String) -> (r: Option<(usize, usize)>)
        requires
            self.wf(),
        ensures
            match r {
                Some((i, j)) => locate(self.frames(), self.frames().len() - 1, name@) == Some(
                    (i as int, j as int),
                ) && i < self.frames().len() && j < self.frames()[i as int].len()
                    && self.frames()[i as int][j as int].0 == name@,
                None => locate(self.frames(), self.frames().len() - 1, name@) is None,
            },
    {
        let ghost fs = self.frames();
        let mut cur: Option<usize> = Some(self.scopes.len() - 1);
        loop
            invariant
                self.wf(),
                fs == self.frames(),
                match cur {
                    Some(i) => i < fs.len() && locate(fs, fs.len() - 1, name@) == locate(fs, i as int, name@),
                    None => locate(fs, fs.len() - 1, name@) == locate(fs, -1, name@),
                },
            decreases match cur {
                Some(i) => i + 1,
                None => 0,
            },
        {
            match cur {
                None => {
                    return None;
                },
                Some(i) => {
                    match find(&self.scopes[i].symbol_map, name) {
                        Some(j) => {
                            proof {
                                let f = fs[i as int];
                                assert(f == frame_of(self.scopes@[i as int].symbol_map@));
                                assert(f[j as int].0 == name@);
                                assert(frame_has(f, name@));
                                let p = frame_pos(f, name@);
                                if p != j {
                                    assert(frame_unique(f));
                                    if p < j {
                                        assert(f[p].0 != f[j as int].0);
                                    } else {
                                        assert(f[j as int].0 != f[p].0);
                                    }
                                }
                            }
                            return Some((i, j));
                        },
                        None => {
                            assert(fs[i as int] == frame_of(self.scopes@[i as int].symbol_map@));
                            cur = self.scopes[i].parent;
                        },
                    }
                },
            }
        }
    }

    /// The nearest binding of `name`, walking the scope chain outward.
    pub fn resolve(&self, name: &String) -> (r: Option<&IdentifierData>)
        requires
            self.wf(),
        ensures
            match r {
                Some(d) => lookup(self.frames(), name@) == Some(*d),
                None => lookup(self.frames(), name@) is None,
            },
    {
        match self.locate_binding(name) {
            Some((i, j)) => {
                assert(self.frames()[i as int][j as int].1 == self.scopes@[i as int].symbol_map@[j as int].1);
                Some(&self.scopes[i].symbol_map[j].1)
            },
            None => None,
        }
    }

    /// Applies `event` to the ownership state of the nearest binding of
    /// `name`. An unbound name and an event that the state forbids are
    /// refused and change nothing.
    pub fn transition_ownership(&mut self, name: &String, event: OwnershipEvent) -> (r: Result<
        (),
        GenerationError,
    >)
        requires
            old(self).wf(),
        ensures
            final(self).wf(),
            final(self).globals() == old(self).globals(),
            final(self).frames().len() == old(self).frames().len(),
            bindings_kept(old(self).frames(), final(self).frames()),
            forall|k: int|
                0 <= k < old(self).frames().len() ==> #[trigger] final(self).frames()[k].len()
                    == old(self).frames()[k].len(),
            forall|k: int, j: int|
                0 <= k < old(self).frames().len() && 0 <= j < old(self).frames()[k].len()
                    ==> #[trigger] final(self).frames()[k][j].0 == old(self).frames()[k][j].0,
            match lookup(old(self).frames(), name@) {
                None => r == Err::<(), GenerationError>(GenerationError::UnboundIdentifier)
                    && final(self).frames() == old(self).frames(),
                Some(d) => match step(d.ownership, event) {
                    None => r == Err::<(), GenerationError>(
                        GenerationError::InvalidOwnershipTransition,
                    ) && final(self).frames() == old(self).frames(),
                    Some(s) => r is Ok && lookup(final(self).frames(), name@) == Some(
                        with_state(d, s),
                    ) && forall|n: Seq<char>|
                        n != name@ ==> #[trigger] lookup(final(self).frames(), n) == lookup(
                            old(self).frames(),
                            n,
                        ),
                },
            },
    {
        match self.locate_binding(name) {
            None => Err(GenerationError::UnboundIdentifier),
            Some((i, j)) => {
                let ghost fs = self.frames();
                assert(fs[i as int][j as int].1 == self.scopes@[i as int].symbol_map@[j as int].1);
                let current = self.scopes[i].symbol_map[j].1.ownership;
                match transition(current, event) {
                    None => Err(GenerationError::InvalidOwnershipTransition),
                    Some(s) => {
                        let ghost d = fs[i as int][j as int].1;
                        self.scopes[i].symbol_map[j].1.ownership = s;
                        proof {
                            let e = (name@, with_state(d, s));
                            assert(fs[i as int][j as int].0 == name@);
                            assert(frame_of(self.scopes@[i as int].symbol_map@) =~= fs[i as int].update(j as int, e));
                            assert(self.frames() =~= fs.update(i as int, fs[i as int].update(j as int, e)));
                            lemma_lookup_update(fs, i as int, j as int, name@, with_state(d, s));
                            assert forall|k: int| 0 <= k < self.scopes@.len() implies (#[trigger] self.scopes@[k]).parent == (if k == 0 {
                                None
                            } else {
                                Some((k - 1) as usize)
                            }) by {
                                assert(self.scopes@[k].parent == old(self).scopes@[k].parent);
                            }
                        }
                        Ok(())
                    },
                }
            },
        }
    }

    /// Records the signature of a generated function under its name; a name
    /// registered twice is refused.
    pub fn register_function(&mut self, name: String, data: IdentifierData) -> (r: Result<
        (),
        GenerationError,
    >)
        requires
            old(self).wf(),
        ensures
            final(self).wf(),
            final(self).frames() == old(self).frames(),
            final(self).globals() == old(self).globals(),
            frame_has(frame_of(old(self).functions().symbol_map@), name@) ==> r == Err::<
                (),
                GenerationError,
            >(GenerationError::DuplicateBinding) && final(self).functions() == old(
                self,
            ).functions(),
            !frame_has(frame_of(old(self).functions().symbol_map@), name@) ==> r is Ok
                && frame_of(final(self).functions().symbol_map@) == frame_of(
                old(self).functions().symbol_map@,
            ).push((name@, data)),
    {
        match find(&self.function_symbol_table.symbol_map, &name) {
            Some(j) => {
                assert(frame_of(self.function_symbol_table.symbol_map@)[j as int].0 == name@);
                Err(GenerationError::DuplicateBinding)
            },
            None => {
                let ghost before = frame_of(self.function_symbol_table.symbol_map@);
                let ghost entry = (name@, data);
                self.function_symbol_table.symbol_map.push((name, data));
                assert(frame_of(self.function_symbol_table.symbol_map@) =~= before.push(entry));
                assert(self.frames() =~= old(self).frames());
                Ok(())
            },
        }
    }

    /// The function registry.
    pub fn function_symbol_table(&self) -> (r: &FunctionSymbolTable)
        ensures
            *r == self.functions(),
    {
        &self.function_symbol_table
    }

    /// The global registry.
    pub fn global_symbol_table(&self) -> (r: &GlobalSymbolTable)
        ensures
            *r == self.globals(),
    {
        &self.global_symbol_table
    }

    /// Registers a composite type in the global registry (see
    /// [`GlobalSymbolTable::register_type`]).
    pub fn register_type(&mut self, shape: Type, names: &mut IdentGenerator) -> (r: String)
        requires
            old(self).wf(),
            old(names).count(NameKind::Struct) < u64::MAX,
        ensures
            final(self).wf(),
            final(self).frames() == old(self).frames(),
            (final(self).globals().decls(), r@) == register_model(
                old(self).globals().decls(),
                shape@,
                name_of(NameKind::Struct, old(names).count(NameKind::Struct) + 1),
            ),
            final(self).globals().constants() == old(self).globals().constants(),
            has_shape(final(self).globals().decls(), shape@),
            name_for_shape(final(self).globals().decls(), shape@) == r@,
            !has_shape(old(self).globals().decls(), shape@) ==> !old(names).issued().contains(r@),
            forall|k: NameKind|
                k != NameKind::Struct ==> final(names).count(k) == old(names).count(k),
            final(names).count(NameKind::Struct) <= old(names).count(NameKind::Struct) + 1,
            final(names).issued().subset_of(old(names).issued().insert(r@)),
            old(names).issued().subset_of(final(names).issued()),
    {
        let r = self.global_symbol_table.register_type(shape, names);
        assert(self.frames() =~~= old(self).frames());
        r
    }

    /// Binds a module-level constant (see [`GlobalSymbolTable::bind_constant`]).
    pub fn bind_constant(&mut self, name: String, data: IdentifierData) -> (r: Result<
        (),
        GenerationError,
    >)
        requires
            old(self).wf(),
        ensures
            final(self).wf(),
            final(self).frames() == old(self).frames(),
            final(self).globals().decls() == old(self).globals().decls(),
            frame_has(old(self).globals().constants(), name@) ==> r == Err::<(), GenerationError>(
                GenerationError::DuplicateBinding,
            ) && final(self).globals().constants() == old(self).globals().constants(),
            !frame_has(old(self).globals().constants(), name@) ==> r is Ok
                && final(self).globals().constants() == old(self).globals().constants().push(
                (name@, data),
            ),
    {
        let r = self.global_symbol_table.bind_constant(name, data);
        assert(self.frames() =~~= old(self).frames());
        r
    }
}

/// Changing the data at the nearest binding of `name` changes what `name`
/// resolves to and nothing else.
proof fn lemma_lookup_update(
    fs: Seq<Seq<(Seq<char>, IdentifierData)>>,
    i: int,
    j: int,
    name: Seq<char>,
    d: IdentifierData,
)
    requires
        locate(fs, fs.len() - 1, name) == Some((i, j)),
        0 <= i < fs.len(),
        0 <= j < fs[i].len(),
        fs[i][j].0 == name,
        forall|k: int| 0 <= k < fs.len() ==> frame_unique(#[trigger] fs[k]),
    ensures
        lookup(fs.update(i, fs[i].update(j, (name, d))), name) == Some(d),
        forall|n: Seq<char>|
            n != name ==> #[trigger] lookup(fs.update(i, fs[i].update(j, (name, d))), n) == lookup(
                fs,
                n,
            ),
{
    let gs = fs.update(i, fs[i].update(j, (name, d)));
    assert forall|k: int| 0 <= k < fs.len() implies #[trigger] same_keys(fs[k], gs[k]) by {
        assert forall|n: Seq<char>| #[trigger]
            frame_has(gs[k], n) == frame_has(fs[k], n) && (frame_has(fs[k], n) ==> frame_pos(gs[k], n)
            == frame_pos(fs[k], n)) by {
            if frame_has(fs[k], n) {
                let p = frame_pos(fs[k], n);
                assert(gs[k][p].0 == n);
                let q = frame_pos(gs[k], n);
                assert(fs[k][q].0 == n);
                if p != q {
                    if p < q {
                        assert(fs[k][p].0 != fs[k][q].0);
                    } else {
                        assert(fs[k][q].0 != fs[k][p].0);
                    }
                }
            }
            if frame_has(gs[k], n) {
                let q = choose|q: int| 0 <= q < gs[k].len() && #[trigger] gs[k][q].0 == n;
                assert(fs[k][q].0 == n);
            }
        }
    }
    lemma_locate_same(fs, gs, fs.len() - 1);
    assert(locate(gs, gs.len() - 1, name) == Some((i, j)));
    assert(gs[i][j] == (name, d));
    assert forall|n: Seq<char>| n != name implies #[trigger] lookup(gs, n) == lookup(fs, n) by {
        assert(locate(gs, gs.len() - 1, n) == locate(fs, fs.len() - 1, n));
        lemma_locate_sound(fs, fs.len() - 1, n);
        if let Some((a, b)) = locate(fs, fs.len() - 1, n) {
            if a == i && b == j {
                assert(fs[a][b].0 == n);
            } else if a == i {
                assert(gs[a][b] == fs[a][b]);
            } else {
                assert(gs[a] == fs[a]);
            }
        }
    }
}

/// The nearest binding found is a binding of `name`.
pub proof fn lemma_locate_sound(fs: Seq<Seq<(Seq<char>, IdentifierData)>>, top: int, name: Seq<char>)
    requires
        top < fs.len(),
    ensures
        locate(fs, top, name) matches Some((i, j)) ==> 0 <= i <= top && 0 <= j < fs[i].len()
            && fs[i][j].0 == name,
    decreases top + 1,
{
    if top >= 0 {
        lemma_locate_sound(fs, top - 1, name);
        assert(locate(fs, top, name) == if frame_has(fs[top], name) {
            Some((top, frame_pos(fs[top], name)))
        } else {
            locate(fs, top - 1, name)
        });
    }
}

/// Every name `f0` resolves still resolves in `f1`, to a binding of the
/// same type, mutability and constness (its ownership state may differ).
pub open spec fn bindings_kept(
    f0: Seq<Seq<(Seq<char>, IdentifierData)>>,
    f1: Seq<Seq<(Seq<char>, IdentifierData)>>,
) -> bool {
    forall|n: Seq<char>| #[trigger]
        lookup(f0, n) is Some ==> lookup(f1, n) is Some && lookup(f1, n)->0.identifier_type
            == lookup(f0, n)->0.identifier_type && lookup(f1, n)->0.mutable == lookup(
            f0,
            n,
        )->0.mutable && lookup(f1, n)->0.constant == lookup(f0, n)->0.constant
}

/// Frames `f` and `g` bind every name but `name` alike, at the same positions.
pub open spec fn same_keys_except(
    f: Seq<(Seq<char>, IdentifierData)>,
    g: Seq<(Seq<char>, IdentifierData)>,
    name: Seq<char>,
) -> bool {
    forall|n: Seq<char>| #[trigger]
        frame_has(g, n) && n != name ==> frame_has(f, n) && frame_pos(g, n) == frame_pos(f, n)
            && g[frame_pos(g, n)] == f[frame_pos(f, n)]
}

proof fn lemma_locate_except(
    fs: Seq<Seq<(Seq<char>, IdentifierData)>>,
    gs: Seq<Seq<(Seq<char>, IdentifierData)>>,
    top: int,
    name: Seq<char>,
)
    requires
        fs.len() == gs.len(),
        top < fs.len(),
        forall|k: int| 0 <= k < fs.len() ==> #[trigger] same_keys_except(fs[k], gs[k], name),
        forall|k: int, n: Seq<char>|
            0 <= k < fs.len() && n != name ==> #[trigger] frame_has(fs[k], n) == frame_has(gs[k], n),
    ensures
        forall|n: Seq<char>|
            n != name ==> #[trigger] locate(gs, top, n) == locate(fs, top, n),
    decreases top + 1,
{
    if top >= 0 {
        lemma_locate_except(fs, gs, top - 1, name);
        assert forall|n: Seq<char>| n != name implies #[trigger] locate(gs, top, n) == locate(fs, top, n) by {
            assert(same_keys_except(fs[top], gs[top], name));
            assert(frame_has(fs[top], n) == frame_has(gs[top], n));
            assert(locate(gs, top, n) == if frame_has(gs[top], n) {
                Some((top, frame_pos(gs[top], n)))
            } else {
                locate(gs, top - 1, n)
            });
            assert(locate(fs, top, n) == if frame_has(fs[top], n) {
                Some((top, frame_pos(fs[top], n)))
            } else {
                locate(fs, top - 1, n)
            });
        }
    }
}

/// Pushing a binding of a name the innermost frame lacks leaves what every
/// other name resolves to unchanged.
proof fn lemma_lookup_push(
    fs: Seq<Seq<(Seq<char>, IdentifierData)>>,
    name: Seq<char>,
    d: IdentifierData,
)
    requires
        fs.len() >= 1,
        !frame_has(fs.last(), name),
        forall|k: int| 0 <= k < fs.len() ==> frame_unique(#[trigger] fs[k]),
    ensures
        forall|n: Seq<char>|
            n != name ==> #[trigger] lookup(fs.update(fs.len() - 1, fs.last().push((name, d))), n)
                == lookup(fs, n),
{
    let last = fs.len() - 1;
    let gs = fs.update(last, fs.last().push((name, d)));
    let f = fs.last();
    let g = gs[last];
    assert forall|n: Seq<char>| n != name implies #[trigger] frame_has(f, n) == frame_has(g, n) by {
        if frame_has(g, n) {
            let j = choose|j: int| 0 <= j < g.len() && #[trigger] g[j].0 == n;
            assert(j < f.len());
            assert(f[j].0 == n);
        }
        if frame_has(f, n) {
            let j = choose|j: int| 0 <= j < f.len() && #[trigger] f[j].0 == n;
            assert(g[j].0 == n);
        }
    }
    assert forall|n: Seq<char>| #[trigger] frame_has(g, n) && n != name implies frame_has(f, n)
        && frame_pos(g, n) == frame_pos(f, n) && g[frame_pos(g, n)] == f[frame_pos(f, n)] by {
        assert(frame_has(f, n));
        let p = frame_pos(f, n);
        let q = frame_pos(g, n);
        assert(q < f.len());
        assert(f[q].0 == n);
        assert(g[p] == f[p]);
        if p != q {
            assert(frame_unique(f));
            if p < q {
                assert(f[p].0 != f[q].0);
            } else {
                assert(f[q].0 != f[p].0);
            }
        }
    }
    assert forall|k: int| 0 <= k < fs.len() implies #[trigger] same_keys_except(fs[k], gs[k], name) by {
        if k != last {
            assert(gs[k] == fs[k]);
            assert forall|n: Seq<char>| #[trigger] frame_has(gs[k], n) && n != name implies frame_has(fs[k], n)
                && frame_pos(gs[k], n) == frame_pos(fs[k], n) && gs[k][frame_pos(gs[k], n)]
                == fs[k][frame_pos(fs[k], n)] by {}
        }
    }
    assert forall|k: int, n: Seq<char>| 0 <= k < fs.len() && n != name implies #[trigger] frame_has(
        fs[k],
        n,
    ) == frame_has(gs[k], n) by {
        if k == last {
            assert(frame_has(f, n) == frame_has(g, n));
        } else {
            assert(gs[k] == fs[k]);
        }
    }
    lemma_locate_except(fs, gs, last, name);
    assert forall|n: Seq<char>| n != name implies #[trigger] lookup(gs, n) == lookup(fs, n) by {
        assert(locate(gs, last, n) == locate(fs, last, n));
        lemma_locate_sound(fs, last, n);
        lemma_locate_sound(gs, last, n);
        if let Some((i, j)) = locate(fs, last, n) {
            if i == last {
                assert(frame_has(f, n));
                assert(gs[i][j] == fs[i][j]);
            } else {
                assert(gs[i] == fs[i]);
            }
        }
    }
}

/// Pushing an empty scope leaves every lookup unchanged.
proof fn lemma_lookup_push_scope(fs: Seq<Seq<(Seq<char>, IdentifierData)>>)
    ensures
        forall|n: Seq<char>| #[trigger] lookup(fs.push(Seq::empty()), n) == lookup(fs, n),
{
    let gs = fs.push(Seq::empty());
    assert forall|n: Seq<char>| #[trigger] lookup(gs, n) == lookup(fs, n) by {
        lemma_locate_prefix(fs, Seq::empty(), fs.len() - 1, n);
        assert(!frame_has(gs[fs.len() as int], n));
        assert(locate(gs, fs.len() as int, n) == locate(gs, fs.len() - 1, n));
        lemma_locate_sound(fs, fs.len() - 1, n);
        if let Some((i, j)) = locate(fs, fs.len() - 1, n) {
            assert(gs[i] == fs[i]);
        }
    }
}

proof fn lemma_locate_prefix(
    fs: Seq<Seq<(Seq<char>, IdentifierData)>>,
    e: Seq<(Seq<char>, IdentifierData)>,
    top: int,
    n: Seq<char>,
)
    requires
        top < fs.len(),
    ensures
        locate(fs.push(e), top, n) == locate(fs, top, n),
    decreases top + 1,
{
    if top >= 0 {
        lemma_locate_prefix(fs, e, top - 1, n);
        assert(fs.push(e)[top] == fs[top]);
        assert(locate(fs.push(e), top, n) == if frame_has(fs.push(e)[top], n) {
            Some((top, frame_pos(fs.push(e)[top], n)))
        } else {
            locate(fs.push(e), top - 1, n)
        });
        assert(locate(fs, top, n) == if frame_has(fs[top], n) {
            Some((top, frame_pos(fs[top], n)))
        } else {
            locate(fs, top - 1, n)
        });
    }
}

/// Frames `f` and `g` bind the same names at the same positions.
pub open spec fn same_keys(
    f: Seq<(Seq<char>, IdentifierData)>,
    g: Seq<(Seq<char>, IdentifierData)>,
) -> bool {
    forall|n: Seq<char>| #[trigger]
        frame_has(g, n) == frame_has(f, n) && (frame_has(f, n) ==> frame_pos(g, n) == frame_pos(
            f,
            n,
        ))
}

/// Two scope chains whose frames bind the same names at the same positions
/// locate every name alike.
proof fn lemma_locate_same(
    fs: Seq<Seq<(Seq<char>, IdentifierData)>>,
    gs: Seq<Seq<(Seq<char>, IdentifierData)>>,
    top: int,
)
    requires
        fs.len() == gs.len(),
        top < fs.len(),
        forall|k: int| 0 <= k < fs.len() ==> #[trigger] same_keys(fs[k], gs[k]),
    ensures
        forall|n: Seq<char>| #[trigger] locate(gs, top, n) == locate(fs, top, n),
    decreases top + 1,
{
    if top >= 0 {
        lemma_locate_same(fs, gs, top - 1);
        assert forall|n: Seq<char>| #[trigger] locate(gs, top, n) == locate(fs, top, n) by {
            assert(same_keys(fs[top], gs[top]));
            assert(frame_has(gs[top], n) == frame_has(fs[top], n));
            assert(locate(gs, top, n) == if frame_has(gs[top], n) {
                Some((top, frame_pos(gs[top], n)))
            } else {
                locate(gs, top - 1, n)
            });
            assert(locate(fs, top, n) == if frame_has(fs[top], n) {
                Some((top, frame_pos(fs[top], n)))
            } else {
                locate(fs, top - 1, n)
            });
        }
    }
}

} // verus!
