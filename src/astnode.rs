use vstd::prelude::*;

use rand::rngs::StdRng;

use crate::ast::{
    ConstDeclaration, Declaration, Expression, ExpressionStatement, FunctionDefinition, Literal,
    Program, Statement, StatementBlock, StructDefinition, StructLiteral, Variable, field_types_of,
    block_refs, lemma_block_refs_push, lemma_refs_fields_push, lemma_refs_list_push, literal_type,
    refs, refs_fields, refs_list, statement_refs, type_of, types_of,
};
use crate::cairo_type::{
    FunctionType, StructType, TupleType, Type, TypeView, clone_fields, fields_of, lemma_all_fields_literal_ok,
    lemma_all_literal_ok, lemma_fields_of, lemma_max_field_tuple_depth_le, lemma_max_tuple_depth_le,
    lemma_max_field_struct_depth_le, lemma_max_struct_depth_le, lemma_views_of, literal_ok,
    struct_depth, tuple_depth, views_of,
};
use crate::context::{Context, DepthBounds, DepthKind, NodeDepthState, NodeKind};
use crate::decimal::decimal;
use crate::ident_generator::{IdentGenerator, NameKind, name_of};
use crate::random::{draw_below, seeded_rng};
use crate::selection_manager::{
    SelectionManager, SelectionProfile, TypeProduction, allowed, lemma_filtered_allowed,
    lemma_filtered_const_total, lemma_filtered_total, lemma_filtered_weights, all_productions,
    base_weight, const_eligible, table_total, table_weight, total,
};
use crate::symbol_table::{
    FunctionSymbolTable, GenerationError, GlobalSymbolTable, IdentifierData, OwnershipEvent,
    OwnershipState, SymbolTable, bindings_kept, frame_has, frame_of, has_shape, lemma_locate_sound, locate, lookup, name_for_shape, step, transition,
};

verus! {

/// Every bound name, local or global, was issued by the allocator.
pub open spec fn names_issued(
    frames: Seq<Seq<(Seq<char>, IdentifierData)>>,
    consts: Seq<(Seq<char>, IdentifierData)>,
    issued: Set<Seq<char>>,
) -> bool {
    &&& forall|k: int, j: int|
        0 <= k < frames.len() && 0 <= j < frames[k].len() ==> issued.contains(
            #[trigger] frames[k][j].0,
        )
    &&& forall|j: int| 0 <= j < consts.len() ==> issued.contains(#[trigger] consts[j].0)
}

/// Every struct shape in the registry `d` is recorded without a name: the
/// registry keys structs by their fields alone.
pub open spec fn nameless_structs(d: Seq<(Seq<char>, TypeView)>) -> bool {
    forall|i: int|
        0 <= i < d.len() ==> (#[trigger] d[i].1 matches TypeView::Struct(n, _) ==> n
            == Seq::<char>::empty())
}

/// Every shape in the registry `d` nests tuples at most `bound` deep.
pub open spec fn registry_fits(d: Seq<(Seq<char>, TypeView)>, bound: nat) -> bool {
    forall|i: int| 0 <= i < d.len() ==> tuple_depth(#[trigger] d[i].1) <= bound
}

/// The struct declarations of the registry `d` among its first `n` entries:
/// each struct shape's name and fields, in registration order.
pub open spec fn struct_decls(d: Seq<(Seq<char>, TypeView)>, n: int) -> Seq<
    (Seq<char>, Seq<(Seq<char>, TypeView)>),
>
    decreases n,
{
    if 0 < n <= d.len() {
        match d[n - 1].1 {
            TypeView::Struct(_, fs) => struct_decls(d, n - 1).push((d[n - 1].0, fs)),
            _ => struct_decls(d, n - 1),
        }
    } else {
        Seq::empty()
    }
}

/// A struct declaration as the contracts see it: its name and fields.
pub open spec fn definition_view(s: StructDefinition) -> (Seq<char>, Seq<(Seq<char>, TypeView)>) {
    (s.struct_type.struct_name@, fields_of(s.struct_type.types@, s.struct_type.types@.len() as int))
}

/// Views of a sequence of struct declarations.
pub open spec fn definitions_view(defs: Seq<StructDefinition>) -> Seq<
    (Seq<char>, Seq<(Seq<char>, TypeView)>),
> {
    defs.map_values(|s: StructDefinition| definition_view(s))
}

/// No two declarations have the same fields.
pub open spec fn distinct_fields(v: Seq<(Seq<char>, Seq<(Seq<char>, TypeView)>)>) -> bool {
    forall|a: int, b: int| 0 <= a < b < v.len() ==> #[trigger] v[a].1 != #[trigger] v[b].1
}

/// The type a primitive production stands for.
pub open spec fn primitive_view(p: TypeProduction) -> TypeView {
    match p {
        TypeProduction::U8 => TypeView::U8,
        TypeProduction::U16 => TypeView::U16,
        TypeProduction::U32 => TypeView::U32,
        TypeProduction::U64 => TypeView::U64,
        TypeProduction::U128 => TypeView::U128,
        TypeProduction::U256 => TypeView::U256,
        TypeProduction::Felt252 => TypeView::Felt252,
        TypeProduction::USize => TypeView::USize,
        TypeProduction::Str => TypeView::Str,
        TypeProduction::Bool => TypeView::Bool,
        _ => TypeView::Void,
    }
}

/// A generated type fits `ctx`: it can be written as a literal, and its
/// tuple and struct nesting, counted from the current depths, stay within
/// their bounds.
pub open spec fn fits(t: TypeView, ctx: &Context) -> bool {
    &&& literal_ok(t)
    &&& tuple_depth(t) + ctx.depth(DepthKind::Tuple) <= ctx.limits().bound(DepthKind::Tuple)
    &&& struct_depth(t) + ctx.depth(DepthKind::Struct) <= ctx.limits().bound(DepthKind::Struct)
}

/// `t` is a struct type declared in the registry `d` under its own name, for
/// its shape (its fields under an empty name).
pub open spec fn registered_struct(t: TypeView, d: Seq<(Seq<char>, TypeView)>) -> bool {
    match t {
        TypeView::Struct(name, fs) => has_shape(d, TypeView::Struct(Seq::empty(), fs)) && name
            == name_for_shape(d, TypeView::Struct(Seq::empty(), fs)),
        _ => false,
    }
}

/// The names in a log of variable uses.
pub open spec fn log_names(log: Seq<(Seq<char>, OwnershipState, OwnershipEvent)>) -> Seq<Seq<char>> {
    log.map_values(|u: (Seq<char>, OwnershipState, OwnershipEvent)| u.0)
}

/// Every logged use was legal: the variable was not moved (nor mutably
/// borrowed) before it, and the ownership state machine allowed the event.
pub open spec fn uses_legal(log: Seq<(Seq<char>, OwnershipState, OwnershipEvent)>) -> bool {
    forall|i: int|
        0 <= i < log.len() ==> (#[trigger] log[i]).1 != OwnershipState::Moved && log[i].1
            != OwnershipState::MutablyBorrowed && step(log[i].1, log[i].2) is Some
}

/// The declarations that `d1` adds after its prefix `d0` carry names not in
/// `issued`.
pub open spec fn fresh_tail(
    d0: Seq<(Seq<char>, TypeView)>,
    d1: Seq<(Seq<char>, TypeView)>,
    issued: Set<Seq<char>>,
) -> bool {
    forall|k: int| d0.len() <= k < d1.len() ==> !issued.contains(#[trigger] d1[k].0)
}

proof fn lemma_fresh_tail_trans(
    d0: Seq<(Seq<char>, TypeView)>,
    d1: Seq<(Seq<char>, TypeView)>,
    d2: Seq<(Seq<char>, TypeView)>,
    issued0: Set<Seq<char>>,
    issued1: Set<Seq<char>>,
)
    requires
        d0.is_prefix_of(d1),
        d1.is_prefix_of(d2),
        fresh_tail(d0, d1, issued0),
        fresh_tail(d1, d2, issued1),
        issued0.subset_of(issued1),
    ensures
        fresh_tail(d0, d2, issued0),
        d0.is_prefix_of(d2),
{
    assert forall|k: int| d0.len() <= k < d2.len() implies !issued0.contains(#[trigger] d2[k].0) by {
        if k < d1.len() {
            assert(d2[k] == d1[k]);
        }
    }
    assert forall|k: int| 0 <= k < d0.len() implies d2[k] == d0[k] by {
        assert(d1[k] == d0[k]);
        assert(d2[k] == d1[k]);
    }
    assert(d0 =~= d2.subrange(0, d0.len() as int));
}

/// The ownership state of `n` after the uses of `n` among the first `k`
/// entries of `log`, starting from `Valid`.
pub open spec fn replayed(
    log: Seq<(Seq<char>, OwnershipState, OwnershipEvent)>,
    n: Seq<char>,
    k: int,
) -> OwnershipState
    decreases k,
{
    if 0 < k <= log.len() {
        let prev = replayed(log, n, k - 1);
        if log[k - 1].0 == n {
            match step(prev, log[k - 1].2) {
                Some(s) => s,
                None => prev,
            }
        } else {
            prev
        }
    } else {
        OwnershipState::Valid
    }
}

/// Each logged use reads or moves, and the state it saw is the one the
/// earlier uses of the same name left (`Valid` for the first use).
pub open spec fn uses_threaded(log: Seq<(Seq<char>, OwnershipState, OwnershipEvent)>) -> bool {
    forall|i: int|
        0 <= i < log.len() ==> (#[trigger] log[i]).1 == replayed(log, log[i].0, i) && (log[i].2
            == OwnershipEvent::Read || log[i].2 == OwnershipEvent::Move)
}

/// Every bound name is in the state its logged uses left.
pub open spec fn states_replayed(
    frames: Seq<Seq<(Seq<char>, IdentifierData)>>,
    log: Seq<(Seq<char>, OwnershipState, OwnershipEvent)>,
) -> bool {
    forall|n: Seq<char>| #[trigger]
        lookup(frames, n) is Some ==> lookup(frames, n)->0.ownership == replayed(
            log,
            n,
            log.len() as int,
        )
}

proof fn lemma_replayed_push(
    log: Seq<(Seq<char>, OwnershipState, OwnershipEvent)>,
    x: (Seq<char>, OwnershipState, OwnershipEvent),
    n: Seq<char>,
    k: int,
)
    requires
        0 <= k <= log.len(),
    ensures
        replayed(log.push(x), n, k) == replayed(log, n, k),
    decreases k,
{
    if k > 0 {
        lemma_replayed_push(log, x, n, k - 1);
        assert(log.push(x)[k - 1] == log[k - 1]);
    }
}

/// A name absent from the log is replayed as `Valid`.
proof fn lemma_replayed_absent(
    log: Seq<(Seq<char>, OwnershipState, OwnershipEvent)>,
    n: Seq<char>,
    k: int,
)
    requires
        0 <= k <= log.len(),
        forall|i: int| 0 <= i < log.len() ==> (#[trigger] log[i]).0 != n,
    ensures
        replayed(log, n, k) == OwnershipState::Valid,
    decreases k,
{
    if k > 0 {
        lemma_replayed_absent(log, n, k - 1);
    }
}

/// The registry key of a struct type: its fields under an empty name.
pub open spec fn struct_shape(t: TypeView) -> TypeView {
    match t {
        TypeView::Struct(_, fs) => TypeView::Struct(Seq::empty(), fs),
        _ => t,
    }
}

/// A struct type whose shape `d` already declared carries the name `d`
/// declared it under.
pub open spec fn reuses_declared_name(t: TypeView, d: Seq<(Seq<char>, TypeView)>) -> bool {
    match t {
        TypeView::Struct(name, _) => has_shape(d, struct_shape(t)) ==> name == name_for_shape(
            d,
            struct_shape(t),
        ),
        _ => true,
    }
}

/// A struct type whose shape `d` did not declare carries a name outside
/// `issued`: a fresh name, never handed out before.
pub open spec fn fresh_if_new(t: TypeView, d: Seq<(Seq<char>, TypeView)>, issued: Set<Seq<char>>) -> bool {
    match t {
        TypeView::Struct(name, _) => !has_shape(d, struct_shape(t)) ==> !issued.contains(name),
        _ => true,
    }
}

proof fn lemma_new_shape_fresh(
    d0: Seq<(Seq<char>, TypeView)>,
    d1: Seq<(Seq<char>, TypeView)>,
    issued: Set<Seq<char>>,
    t: TypeView,
)
    requires
        d0.is_prefix_of(d1),
        fresh_tail(d0, d1, issued),
        registered_struct(t, d1),
    ensures
        fresh_if_new(t, d0, issued),
{
    let sh = struct_shape(t);
    if !has_shape(d0, sh) {
        assert forall|j: int| 0 <= j < d1.len() && #[trigger] d1[j].1 == sh implies !issued.contains(
            d1[j].0,
        ) by {
            if j < d0.len() {
                assert(d1[j] == d0[j]);
                assert(has_shape(d0, sh));
            }
        }
        assert(t->Struct_0 == name_for_shape(d1, sh));
    }
}

/// The production a primitive type comes from.
pub open spec fn production_of(t: TypeView) -> Option<TypeProduction> {
    match t {
        TypeView::U8 => Some(TypeProduction::U8),
        TypeView::U16 => Some(TypeProduction::U16),
        TypeView::U32 => Some(TypeProduction::U32),
        TypeView::U64 => Some(TypeProduction::U64),
        TypeView::U128 => Some(TypeProduction::U128),
        TypeView::U256 => Some(TypeProduction::U256),
        TypeView::Felt252 => Some(TypeProduction::Felt252),
        TypeView::USize => Some(TypeProduction::USize),
        TypeView::Str => Some(TypeProduction::Str),
        TypeView::Bool => Some(TypeProduction::Bool),
        _ => None,
    }
}

/// `t` is built only from productions that `m` gives positive weight: its
/// own production and, for a tuple or struct, every member.
pub open spec fn weighted(t: TypeView, m: SelectionManager) -> bool
    decreases t, 0int,
{
    match t {
        TypeView::Tuple(s) => m.weight_of(TypeProduction::Tuple) > 0 && all_weighted(
            s,
            s.len() as int,
            m,
        ),
        TypeView::Struct(_, f) => m.weight_of(TypeProduction::Struct) > 0 && all_fields_weighted(
            f,
            f.len() as int,
            m,
        ),
        _ => production_of(t) matches Some(p) && m.weight_of(p) > 0,
    }
}

/// Each of the first `n` types of `s` is weighted.
pub open spec fn all_weighted(s: Seq<TypeView>, n: int, m: SelectionManager) -> bool
    decreases s, n,
{
    if 0 < n <= s.len() {
        all_weighted(s, n - 1, m) && weighted(s[n - 1], m)
    } else {
        true
    }
}

/// The type of each of the first `n` fields of `f` is weighted.
pub open spec fn all_fields_weighted(
    f: Seq<(Seq<char>, TypeView)>,
    n: int,
    m: SelectionManager,
) -> bool
    decreases f, n,
{
    if 0 < n <= f.len() {
        all_fields_weighted(f, n - 1, m) && weighted(f[n - 1].1, m)
    } else {
        true
    }
}

proof fn lemma_all_weighted(s: Seq<TypeView>, n: int, m: SelectionManager)
    requires
        0 <= n <= s.len(),
        forall|i: int| 0 <= i < n ==> #[trigger] weighted(s[i], m),
    ensures
        all_weighted(s, n, m),
    decreases n,
{
    if n > 0 {
        lemma_all_weighted(s, n - 1, m);
        assert(weighted(s[n - 1], m));
        assert(all_weighted(s, n, m) == (all_weighted(s, n - 1, m) && weighted(s[n - 1], m)));
    } else {
        assert(all_weighted(s, n, m));
    }
}

proof fn lemma_all_fields_weighted(f: Seq<(Seq<char>, TypeView)>, n: int, m: SelectionManager)
    requires
        0 <= n <= f.len(),
        forall|i: int| 0 <= i < n ==> #[trigger] weighted(f[i].1, m),
    ensures
        all_fields_weighted(f, n, m),
    decreases n,
{
    if n > 0 {
        lemma_all_fields_weighted(f, n - 1, m);
        assert(weighted(f[n - 1].1, m));
        assert(all_fields_weighted(f, n, m) == (all_fields_weighted(f, n - 1, m) && weighted(
            f[n - 1].1,
            m,
        )));
    } else {
        assert(all_fields_weighted(f, n, m));
    }
}

/// The members of `t` are weighted (trivially so for a primitive).
pub open spec fn members_weighted(t: TypeView, m: SelectionManager) -> bool {
    match t {
        TypeView::Tuple(s) => all_weighted(s, s.len() as int, m),
        TypeView::Struct(_, f) => all_fields_weighted(f, f.len() as int, m),
        _ => true,
    }
}

/// A failure list that grew by nothing over a call grew by nothing over any
/// part of it.
proof fn lemma_unchanged_between(a: Seq<NodeKind>, b: Seq<NodeKind>, c: Seq<NodeKind>)
    requires
        a.is_prefix_of(b),
        b.is_prefix_of(c),
        c == a,
    ensures
        b == a,
{
    assert(b.len() == a.len());
    assert(b =~= a);
}

/// `t` is what production `p` expands to: the primitive itself, a tuple of
/// two or three members, or a struct declared in `d` under its name.
pub open spec fn expands(p: TypeProduction, t: TypeView, d: Seq<(Seq<char>, TypeView)>) -> bool {
    match p {
        TypeProduction::Tuple => small_tuple(t),
        TypeProduction::Struct => registered_struct(t, d),
        _ => t == primitive_view(p),
    }
}

/// `t` is the `felt252` fallback of a failed type node: failing fast is off,
/// and the failure list grew and ends with that node.
pub open spec fn type_fallback(
    t: TypeView,
    fail_fast: bool,
    before: Seq<NodeKind>,
    after: Seq<NodeKind>,
) -> bool {
    &&& t == TypeView::Felt252
    &&& !fail_fast
    &&& after.len() > before.len()
    &&& after.last() == NodeKind::TypeNode
}

/// `t` is a tuple of two or three members.
pub open spec fn small_tuple(t: TypeView) -> bool {
    match t {
        TypeView::Tuple(s) => 2 <= s.len() <= 3,
        _ => false,
    }
}

/// The failures type generation admits: with fail-fast on, either no
/// non-recursive production has weight, or the struct names ran out.
pub open spec fn type_error(before: ASTGenerator, after: ASTGenerator, e: GenerationError) -> bool {
    &&& before.spec_fail_fast()
    &&& ((e == GenerationError::NoViableProduction && !before.manager().primitive_weighted()) || (e
        == GenerationError::NamesExhausted && after.name_count(NameKind::Struct) == u64::MAX))
}

/// The failures statement generation admits: those of type generation, or
/// the variable names ran out.
pub open spec fn statement_error(before: ASTGenerator, after: ASTGenerator, e: GenerationError) -> bool {
    ||| type_error(before, after, e)
    ||| (before.spec_fail_fast() && e == GenerationError::NamesExhausted && after.name_count(
        NameKind::Variable,
    ) == u64::MAX)
}

/// The recursive-descent driver: picks productions, recurses, binds the
/// results and falls back (or fails fast) on dead ends.
pub struct ASTGenerator {
    symbol_table: SymbolTable,
    fail_fast: bool,
    ident_generator: IdentGenerator,
    selection_manager: SelectionManager,
    rng: StdRng,
    declared: Vec<String>,
    uses: Ghost<Seq<(Seq<char>, OwnershipState, OwnershipEvent)>>,
}

impl ASTGenerator {
    /// The symbol table and the selection manager are well formed, and every
    /// bound name came from the allocator, so a fresh name never collides.
    pub closed spec fn wf(&self) -> bool {
        &&& self.symbol_table.wf()
        &&& self.manager().wf()
        &&& nameless_structs(self.symbol_table.globals().decls())
        &&& uses_legal(self.uses@)
        &&& uses_threaded(self.uses@)
        &&& states_replayed(self.symbol_table.frames(), self.uses@)
        &&& forall|i: int|
            0 <= i < self.uses@.len() ==> self.ident_generator.issued().contains(
                #[trigger] self.uses@[i].0,
            )
        &&& names_issued(
            self.symbol_table.frames(),
            self.symbol_table.globals().constants(),
            self.ident_generator.issued(),
        )
    }

    /// Whether the first failure aborts the whole generation.
    pub closed spec fn spec_fail_fast(&self) -> bool {
        self.fail_fast
    }

    /// The symbol table's scopes.
    pub closed spec fn frames(&self) -> Seq<Seq<(Seq<char>, IdentifierData)>> {
        self.symbol_table.frames()
    }

    /// The global registry.
    pub closed spec fn globals(&self) -> GlobalSymbolTable {
        self.symbol_table.globals()
    }

    /// Every use of a variable so far, in order: its name, its ownership
    /// state just before the use, and the event the use applied.
    pub closed spec fn use_log(&self) -> Seq<(Seq<char>, OwnershipState, OwnershipEvent)> {
        self.uses@
    }

    /// Every use recorded by a well-formed generator was legal.
    pub proof fn lemma_uses_legal(&self)
        requires
            self.wf(),
        ensures
            uses_legal(self.use_log()),
            uses_threaded(self.use_log()),
    {
    }

    /// The function registry.
    pub closed spec fn functions(&self) -> FunctionSymbolTable {
        self.symbol_table.functions()
    }

    /// The selection manager that weighs the productions.
    pub closed spec fn manager(&self) -> SelectionManager {
        self.selection_manager
    }

    /// The identifier allocator.
    pub closed spec fn names(&self) -> IdentGenerator {
        self.ident_generator
    }

    /// The names allocated so far.
    pub closed spec fn issued(&self) -> Set<Seq<char>> {
        self.ident_generator.issued()
    }

    /// A generator over `symbol_table` whose choices are drawn from a
    /// generator seeded with `seed`, weighted by `profile` (the optimal
    /// profile reads `optimal_weights`).
    pub fn new(
        symbol_table: SymbolTable,
        fail_fast: bool,
        ident_generator: IdentGenerator,
        profile: SelectionProfile,
        optimal_weights: Vec<(TypeProduction, u64)>,
        seed: u64,
    ) -> (r: Self)
        requires
            symbol_table.wf(),
            names_issued(
                symbol_table.frames(),
                symbol_table.globals().constants(),
                ident_generator.issued(),
            ),
            nameless_structs(symbol_table.globals().decls()),
            forall|n: Seq<char>| #[trigger]
                lookup(symbol_table.frames(), n) is Some ==> lookup(symbol_table.frames(), n)->0.ownership
                    == OwnershipState::Valid,
            profile == SelectionProfile::Optimal ==> table_total(
                optimal_weights@,
                all_productions().len() as int,
            ) <= u64::MAX,
        ensures
            r.wf(),
            r.spec_fail_fast() == fail_fast,
            r.frames() == symbol_table.frames(),
            r.globals() == symbol_table.globals(),
            r.functions() == symbol_table.functions(),
            r.names() == ident_generator,
            r.use_log().len() == 0,
            r.manager().spec_profile() == profile,
            profile != SelectionProfile::Swarm ==> r.manager().spec_table() == optimal_weights@
                && forall|i: int|
                0 <= i < r.manager().spec_multipliers().len() ==> #[trigger] r.manager().spec_multipliers()[i] == 1,
            profile == SelectionProfile::Swarm ==> r.manager().spec_table().len() == 0,
    {
        let mut rng = seeded_rng(seed);
        let selection_manager = match profile {
            SelectionProfile::Swarm => SelectionManager::swarm(&mut rng),
            _ => SelectionManager::new(profile, optimal_weights),
        };
        ASTGenerator {
            symbol_table,
            fail_fast,
            ident_generator,
            selection_manager,
            rng,
            declared: Vec::new(),
            uses: Ghost(Seq::empty()),
        }
    }

    /// Whether the first failure aborts the whole generation.
    pub fn fail_fast(&self) -> (r: bool)
        ensures
            r == self.spec_fail_fast(),
    {
        self.fail_fast
    }

    /// The symbol table.
    pub fn symbol_table(&self) -> (r: &SymbolTable)
        ensures
            r.frames() == self.frames(),
    {
        &self.symbol_table
    }

    /// A value in `[0, bound)` from this generator's random source.
    pub fn draw(&mut self, bound: u64) -> (r: u64)
        requires
            old(self).wf(),
            bound > 0,
        ensures
            r < bound,
            final(self).wf(),
            final(self).frames() == old(self).frames(),
            final(self).spec_fail_fast() == old(self).spec_fail_fast(),
            final(self).manager() == old(self).manager(),
            final(self).use_log() == old(self).use_log(),
            final(self).names() == old(self).names(),
            final(self).issued() == old(self).issued(),
            final(self).globals() == old(self).globals(),
    {
        draw_below(&mut self.rng, bound)
    }

    /// Draws a type production among those the depth bounds of `ctx` allow;
    /// `None` when no production has weight.
    pub fn select_random_type(&mut self, ctx: &Context) -> (r: Option<TypeProduction>)
        requires
            old(self).wf(),
        ensures
            final(self).wf(),
            final(self).frames() == old(self).frames(),
            final(self).spec_fail_fast() == old(self).spec_fail_fast(),
            final(self).manager() == old(self).manager(),
            final(self).use_log() == old(self).use_log(),
            final(self).names() == old(self).names(),
            final(self).issued() == old(self).issued(),
            final(self).globals() == old(self).globals(),
            r is None <==> total(
                old(self).manager().filtered(ctx, all_productions().len() as int),
                old(self).manager().filtered(ctx, all_productions().len() as int).len() as int,
            ) == 0,
            r matches Some(p) ==> allowed(p, ctx) && old(self).manager().weight_of(p) > 0,
    {
        let weights = self.selection_manager.available_types_weightings(ctx);
        let r = weights.select(&mut self.rng);
        proof {
            lemma_filtered_allowed(self.selection_manager, ctx, all_productions().len() as int);
            if let Some(p) = r {
                let i = choose|i: int|
                    0 <= i < weights.weightings@.len() && weights.weightings@[i].0 == p
                        && weights.weightings@[i].1 > 0;
                assert(allowed(weights.weightings@[i].0, ctx));
                lemma_filtered_weights(self.selection_manager, ctx, all_productions().len() as int);
            }
        }
        r
    }

    /// Generates a type: draws a production and expands it. With no viable
    /// production it fails when failing fast, else records the failure and
    /// falls back to `felt252`. It terminates for every bound: each tuple or
    /// struct nested in the result uses up one unit of `ctx.remaining()`, and
    /// the depth filter leaves out those productions once it is spent.
    pub fn generate_type(&mut self, ctx: &mut Context) -> (r: Result<Type, GenerationError>)
        requires
            old(self).wf(),
            old(ctx).wf(),
        ensures
            final(self).wf(),
            final(ctx).wf(),
            forall|k: DepthKind| #[trigger] final(ctx).depth(k) == old(ctx).depth(k),
            final(ctx).limits() == old(ctx).limits(),
            final(ctx).statement_scopes() == old(ctx).statement_scopes(),
            final(ctx).required_stack() == old(ctx).required_stack(),
            old(ctx).failures().is_prefix_of(final(ctx).failures()),
            old(self).globals().decls().is_prefix_of(final(self).globals().decls()),
            fresh_tail(old(self).globals().decls(), final(self).globals().decls(), old(self).issued()),
            registry_fits(old(self).globals().decls(), old(ctx).limits().bound(DepthKind::Tuple))
                ==> registry_fits(
                final(self).globals().decls(),
                old(ctx).limits().bound(DepthKind::Tuple),
            ),
            old(self).spec_fail_fast() ==> final(ctx).failures() == old(ctx).failures(),
            final(self).frames() == old(self).frames(),
            final(self).spec_fail_fast() == old(self).spec_fail_fast(),
            final(self).manager() == old(self).manager(),
            final(self).use_log() == old(self).use_log(),
            final(self).name_count(NameKind::Variable) == old(self).name_count(NameKind::Variable),
            final(self).name_count(NameKind::Const) == old(self).name_count(NameKind::Const),
            old(self).issued().subset_of(final(self).issued()),
            final(self).globals().constants() == old(self).globals().constants(),
            match r {
                Ok(t) => fits(t@, old(ctx)) && ((exists|p: TypeProduction|
                    allowed(p, old(ctx)) && #[trigger] old(self).manager().weight_of(p) > 0
                        && expands(p, t@, final(self).globals().decls()) && (p
                        != TypeProduction::Tuple && p != TypeProduction::Struct ==> final(ctx).failures() == old(ctx).failures())) || type_fallback(
                    t@,
                    old(self).spec_fail_fast(),
                    old(ctx).failures(),
                    final(ctx).failures(),
                )) && (t@ is Struct ==> registered_struct(t@, final(self).globals().decls()))
                    && (final(ctx).failures() == old(ctx).failures() ==> weighted(
                    t@,
                    old(self).manager(),
                )),
                Err(e) => type_error(*old(self), *final(self), e),
            },
        decreases old(ctx).remaining(), 3int,
    {
        match self.select_random_type(ctx) {
            Some(p) => self.generate_specific_type(p, ctx),
            None => {
                proof {
                    let m = self.manager();
                    assert forall|p: TypeProduction|
                        p != TypeProduction::Tuple && p != TypeProduction::Struct implies #[trigger] m.weight_of(p) == 0 by {
                        lemma_filtered_total(m, ctx, p, all_productions().len() as int);
                    }
                }
                self.no_viable_type(ctx, GenerationError::NoViableProduction)
            },
        }
    }

    /// The failure `e`, when failing fast, or else the fallback type
    /// `felt252`, with the failure recorded.
    fn no_viable_type(&mut self, ctx: &mut Context, e: GenerationError) -> (r: Result<Type, GenerationError>)
        requires
            old(ctx).wf(),
        ensures
            *final(self) == *old(self),
            final(ctx).wf(),
            forall|k: DepthKind| #[trigger] final(ctx).depth(k) == old(ctx).depth(k),
            final(ctx).limits() == old(ctx).limits(),
            final(ctx).statement_scopes() == old(ctx).statement_scopes(),
            final(ctx).required_stack() == old(ctx).required_stack(),
            old(ctx).failures().is_prefix_of(final(ctx).failures()),
            old(self).globals().decls().is_prefix_of(final(self).globals().decls()),
            registry_fits(old(self).globals().decls(), old(ctx).limits().bound(DepthKind::Tuple))
                ==> registry_fits(
                final(self).globals().decls(),
                old(ctx).limits().bound(DepthKind::Tuple),
            ),
            old(self).spec_fail_fast() ==> final(ctx).failures() == old(ctx).failures(),
            !old(self).spec_fail_fast() ==> final(ctx).failures() == old(ctx).failures().push(
                NodeKind::TypeNode,
            ),
            match r {
                Ok(t) => t@ == TypeView::Felt252 && !old(self).spec_fail_fast(),
                Err(x) => x == e && old(self).spec_fail_fast(),
            },
    {
        if self.fail_fast {
            Err(e)
        } else {
            ctx.record_failure(NodeKind::TypeNode);
            Ok(Type::Felt252Type)
        }
    }

    /// Expands type production `p`, which the depth bounds of `ctx` allow.
    /// A tuple or struct enters its depth counter before generating its
    /// members and leaves it afterwards, on success and on failure alike.
    pub fn generate_specific_type(&mut self, p: TypeProduction, ctx: &mut Context) -> (r: Result<
        Type,
        GenerationError,
    >)
        requires
            old(self).wf(),
            old(ctx).wf(),
            allowed(p, old(ctx)),
        ensures
            final(self).wf(),
            final(ctx).wf(),
            forall|k: DepthKind| #[trigger] final(ctx).depth(k) == old(ctx).depth(k),
            final(ctx).limits() == old(ctx).limits(),
            final(ctx).statement_scopes() == old(ctx).statement_scopes(),
            final(ctx).required_stack() == old(ctx).required_stack(),
            old(ctx).failures().is_prefix_of(final(ctx).failures()),
            old(self).globals().decls().is_prefix_of(final(self).globals().decls()),
            fresh_tail(old(self).globals().decls(), final(self).globals().decls(), old(self).issued()),
            registry_fits(old(self).globals().decls(), old(ctx).limits().bound(DepthKind::Tuple))
                ==> registry_fits(
                final(self).globals().decls(),
                old(ctx).limits().bound(DepthKind::Tuple),
            ),
            old(self).spec_fail_fast() ==> final(ctx).failures() == old(ctx).failures(),
            final(self).frames() == old(self).frames(),
            final(self).spec_fail_fast() == old(self).spec_fail_fast(),
            final(self).manager() == old(self).manager(),
            final(self).use_log() == old(self).use_log(),
            final(self).name_count(NameKind::Variable) == old(self).name_count(NameKind::Variable),
            final(self).name_count(NameKind::Const) == old(self).name_count(NameKind::Const),
            old(self).issued().subset_of(final(self).issued()),
            final(self).globals().constants() == old(self).globals().constants(),
            match r {
                Ok(t) => fits(t@, old(ctx)) && (expands(p, t@, final(self).globals().decls()) || (p
                    == TypeProduction::Struct && final(self).name_count(NameKind::Struct) == u64::MAX
                    && type_fallback(
                    t@,
                    old(self).spec_fail_fast(),
                    old(ctx).failures(),
                    final(ctx).failures(),
                ))) && (p != TypeProduction::Tuple && p != TypeProduction::Struct ==> final(ctx).failures() == old(ctx).failures()) && reuses_declared_name(
                    t@,
                    old(self).globals().decls(),
                ) && fresh_if_new(t@, old(self).globals().decls(), old(self).issued())
                    && (final(ctx).failures() == old(ctx).failures() ==> members_weighted(
                    t@,
                    old(self).manager(),
                )),
                Err(e) => type_error(*old(self), *final(self), e),
            },
        decreases old(ctx).remaining(), 2int,
    {
        match p {
            TypeProduction::Tuple => self.generate_tuple_type(ctx),
            TypeProduction::Struct => self.generate_struct_type(ctx),
            _ => Ok(primitive_type(p)),
        }
    }

    /// Generates the member types of a composite, inside the depth scope of
    /// `kind`.
    fn generate_members(&mut self, ctx: &mut Context, kind: DepthKind, count: u64) -> (r: Result<
        Vec<Type>,
        GenerationError,
    >)
        requires
            old(self).wf(),
            old(ctx).wf(),
            old(ctx).depth(kind) + 1 <= old(ctx).limits().bound(kind),
        ensures
            final(self).wf(),
            final(ctx).wf(),
            forall|k: DepthKind| #[trigger] final(ctx).depth(k) == old(ctx).depth(k),
            final(ctx).limits() == old(ctx).limits(),
            final(ctx).statement_scopes() == old(ctx).statement_scopes(),
            final(ctx).required_stack() == old(ctx).required_stack(),
            old(ctx).failures().is_prefix_of(final(ctx).failures()),
            old(self).globals().decls().is_prefix_of(final(self).globals().decls()),
            fresh_tail(old(self).globals().decls(), final(self).globals().decls(), old(self).issued()),
            registry_fits(old(self).globals().decls(), old(ctx).limits().bound(DepthKind::Tuple))
                ==> registry_fits(
                final(self).globals().decls(),
                old(ctx).limits().bound(DepthKind::Tuple),
            ),
            old(self).spec_fail_fast() ==> final(ctx).failures() == old(ctx).failures(),
            final(self).frames() == old(self).frames(),
            final(self).spec_fail_fast() == old(self).spec_fail_fast(),
            final(self).manager() == old(self).manager(),
            final(self).use_log() == old(self).use_log(),
            final(self).name_count(NameKind::Variable) == old(self).name_count(NameKind::Variable),
            final(self).name_count(NameKind::Const) == old(self).name_count(NameKind::Const),
            old(self).issued().subset_of(final(self).issued()),
            final(self).globals().constants() == old(self).globals().constants(),
            match r {
                Ok(ts) => ts@.len() == count && (forall|i: int|
                    0 <= i < ts@.len() ==> literal_ok(#[trigger] ts@[i]@) && tuple_depth(ts@[i]@)
                        + old(ctx).depth(DepthKind::Tuple) + (if kind == DepthKind::Tuple {
                        1int
                    } else {
                        0int
                    }) <= old(ctx).limits().bound(DepthKind::Tuple) && struct_depth(ts@[i]@)
                        + old(ctx).depth(DepthKind::Struct) + (if kind == DepthKind::Struct {
                        1int
                    } else {
                        0int
                    }) <= old(ctx).limits().bound(DepthKind::Struct)) && (final(ctx).failures()
                    == old(ctx).failures() ==> forall|i: int|
                    0 <= i < ts@.len() ==> weighted(#[trigger] ts@[i]@, old(self).manager())),
                Err(e) => type_error(*old(self), *final(self), e),
            },
        decreases old(ctx).remaining(), 0int,
    {
        ctx.enter(kind);
        let ghost inner = *ctx;
        let mut types: Vec<Type> = Vec::new();
        let mut i: u64 = 0;
        while i < count
            invariant
                self.wf(),
                ctx.wf(),
                0 <= i <= count,
                types@.len() == i,
                forall|k: DepthKind| #[trigger] ctx.depth(k) == inner.depth(k),
                ctx.limits() == inner.limits(),
                ctx.statement_scopes() == old(ctx).statement_scopes(),
                ctx.required_stack() == old(ctx).required_stack(),
                old(ctx).failures().is_prefix_of(ctx.failures()),
                old(self).globals().decls().is_prefix_of(self.globals().decls()),
                fresh_tail(old(self).globals().decls(), self.globals().decls(), old(self).issued()),
                ctx.failures() == old(ctx).failures() ==> forall|j: int|
                    0 <= j < types@.len() ==> weighted(#[trigger] types@[j]@, old(self).manager()),
                registry_fits(old(self).globals().decls(), old(ctx).limits().bound(DepthKind::Tuple))
                    ==> registry_fits(self.globals().decls(), old(ctx).limits().bound(DepthKind::Tuple)),
                old(self).spec_fail_fast() ==> ctx.failures() == old(ctx).failures(),
                inner.limits() == old(ctx).limits(),
                inner.depth(kind) == old(ctx).depth(kind) + 1,
                forall|k: DepthKind| k != kind ==> #[trigger] inner.depth(k) == old(ctx).depth(k),
                inner.remaining() + 1 == old(ctx).remaining(),
                self.frames() == old(self).frames(),
                self.spec_fail_fast() == old(self).spec_fail_fast(),
                self.manager() == old(self).manager(),
                self.use_log() == old(self).use_log(),
                self.name_count(NameKind::Variable) == old(self).name_count(NameKind::Variable),
                self.name_count(NameKind::Const) == old(self).name_count(NameKind::Const),
                old(self).issued().subset_of(self.issued()),
                self.globals().constants() == old(self).globals().constants(),
                forall|j: int|
                    0 <= j < types@.len() ==> literal_ok(#[trigger] types@[j]@) && tuple_depth(
                        types@[j]@,
                    ) + inner.depth(DepthKind::Tuple) <= inner.limits().bound(DepthKind::Tuple)
                        && struct_depth(types@[j]@) + inner.depth(DepthKind::Struct)
                        <= inner.limits().bound(DepthKind::Struct),
            decreases count - i,
        {
            let ghost mid = self.globals().decls();
            let ghost mid_issued = self.issued();
            let ghost mid_failures = ctx.failures();
            let generated = self.generate_type(ctx);
            proof {
                if ctx.failures() == old(ctx).failures() {
                    lemma_unchanged_between(old(ctx).failures(), mid_failures, ctx.failures());
                }
            }
            proof {
                lemma_fresh_tail_trans(
                    old(self).globals().decls(),
                    mid,
                    self.globals().decls(),
                    old(self).issued(),
                    mid_issued,
                );
            }
            match generated {
                Ok(t) => {
                    types.push(t);
                },
                Err(e) => {
                    ctx.exit(kind);
                    return Err(e);
                },
            }
            i = i + 1;
        }
        ctx.exit(kind);
        Ok(types)
    }

    fn generate_tuple_type(&mut self, ctx: &mut Context) -> (r: Result<Type, GenerationError>)
        requires
            old(self).wf(),
            old(ctx).wf(),
            allowed(TypeProduction::Tuple, old(ctx)),
        ensures
            final(self).wf(),
            final(ctx).wf(),
            forall|k: DepthKind| #[trigger] final(ctx).depth(k) == old(ctx).depth(k),
            final(ctx).limits() == old(ctx).limits(),
            final(ctx).statement_scopes() == old(ctx).statement_scopes(),
            final(ctx).required_stack() == old(ctx).required_stack(),
            old(ctx).failures().is_prefix_of(final(ctx).failures()),
            old(self).globals().decls().is_prefix_of(final(self).globals().decls()),
            fresh_tail(old(self).globals().decls(), final(self).globals().decls(), old(self).issued()),
            registry_fits(old(self).globals().decls(), old(ctx).limits().bound(DepthKind::Tuple))
                ==> registry_fits(
                final(self).globals().decls(),
                old(ctx).limits().bound(DepthKind::Tuple),
            ),
            old(self).spec_fail_fast() ==> final(ctx).failures() == old(ctx).failures(),
            final(self).frames() == old(self).frames(),
            final(self).spec_fail_fast() == old(self).spec_fail_fast(),
            final(self).manager() == old(self).manager(),
            final(self).use_log() == old(self).use_log(),
            final(self).name_count(NameKind::Variable) == old(self).name_count(NameKind::Variable),
            final(self).name_count(NameKind::Const) == old(self).name_count(NameKind::Const),
            old(self).issued().subset_of(final(self).issued()),
            final(self).globals().constants() == old(self).globals().constants(),
            match r {
                Ok(t) => fits(t@, old(ctx)) && small_tuple(t@)
                    && (final(ctx).failures() == old(ctx).failures() ==> members_weighted(
                    t@,
                    old(self).manager(),
                )),
                Err(e) => type_error(*old(self), *final(self), e),
            },
        decreases old(ctx).remaining(), 1int,
    {
        let extra = self.draw(2);
        let types = self.generate_members(ctx, DepthKind::Tuple, 2 + extra)?;
        let t = Type::TupleType(TupleType { types });
        proof {
            let ts = t->TupleType_0.types@;
            let vs = views_of(ts, ts.len() as int);
            lemma_views_of(ts, ts.len() as int);
            let b = (old(ctx).limits().bound(DepthKind::Tuple) - old(ctx).depth(DepthKind::Tuple) - 1) as nat;
            assert forall|i: int| 0 <= i < vs.len() implies #[trigger] tuple_depth(vs[i]) <= b by {
                assert(vs[i] == ts[i]@);
            }
            lemma_max_tuple_depth_le(vs, vs.len() as int, b);
            let bs = (old(ctx).limits().bound(DepthKind::Struct) - old(ctx).depth(DepthKind::Struct)) as nat;
            assert forall|i: int| 0 <= i < vs.len() implies #[trigger] struct_depth(vs[i]) <= bs by {
                assert(vs[i] == ts[i]@);
            }
            lemma_max_struct_depth_le(vs, vs.len() as int, bs);
            assert forall|i: int| 0 <= i < vs.len() implies #[trigger] literal_ok(vs[i]) by {
                assert(vs[i] == ts[i]@);
            }
            lemma_all_literal_ok(vs, vs.len() as int);
            assert(t@ == TypeView::Tuple(vs));
            if ctx.failures() == old(ctx).failures() {
                assert forall|i: int| 0 <= i < vs.len() implies #[trigger] weighted(
                    vs[i],
                    old(self).manager(),
                ) by {
                    assert(vs[i] == ts[i]@);
                }
                lemma_all_weighted(vs, vs.len() as int, old(self).manager());
            }
            assert(small_tuple(t@));
        }
        Ok(t)
    }

    fn generate_struct_type(&mut self, ctx: &mut Context) -> (r: Result<Type, GenerationError>)
        requires
            old(self).wf(),
            old(ctx).wf(),
            allowed(TypeProduction::Struct, old(ctx)),
        ensures
            final(self).wf(),
            final(ctx).wf(),
            forall|k: DepthKind| #[trigger] final(ctx).depth(k) == old(ctx).depth(k),
            final(ctx).limits() == old(ctx).limits(),
            final(ctx).statement_scopes() == old(ctx).statement_scopes(),
            final(ctx).required_stack() == old(ctx).required_stack(),
            old(ctx).failures().is_prefix_of(final(ctx).failures()),
            old(self).globals().decls().is_prefix_of(final(self).globals().decls()),
            fresh_tail(old(self).globals().decls(), final(self).globals().decls(), old(self).issued()),
            registry_fits(old(self).globals().decls(), old(ctx).limits().bound(DepthKind::Tuple))
                ==> registry_fits(
                final(self).globals().decls(),
                old(ctx).limits().bound(DepthKind::Tuple),
            ),
            old(self).spec_fail_fast() ==> final(ctx).failures() == old(ctx).failures(),
            final(self).frames() == old(self).frames(),
            final(self).spec_fail_fast() == old(self).spec_fail_fast(),
            final(self).manager() == old(self).manager(),
            final(self).use_log() == old(self).use_log(),
            final(self).name_count(NameKind::Variable) == old(self).name_count(NameKind::Variable),
            final(self).name_count(NameKind::Const) == old(self).name_count(NameKind::Const),
            old(self).issued().subset_of(final(self).issued()),
            final(self).globals().constants() == old(self).globals().constants(),
            match r {
                Ok(t) => fits(t@, old(ctx)) && reuses_declared_name(t@, old(self).globals().decls())
                    && fresh_if_new(t@, old(self).globals().decls(), old(self).issued())
                    && (final(ctx).failures() == old(ctx).failures() ==> members_weighted(
                    t@,
                    old(self).manager(),
                ))
                    && (registered_struct(t@, final(self).globals().decls()) || (final(self).name_count(NameKind::Struct) == u64::MAX && type_fallback(
                    t@,
                    old(self).spec_fail_fast(),
                    old(ctx).failures(),
                    final(ctx).failures(),
                ))),
                Err(e) => type_error(*old(self), *final(self), e),
            },
        decreases old(ctx).remaining(), 1int,
    {
        let extra = self.draw(3);
        let types = self.generate_members(ctx, DepthKind::Struct, 1 + extra)?;
        if self.ident_generator.allocated(NameKind::Struct) == u64::MAX {
            return self.no_viable_type(ctx, GenerationError::NamesExhausted);
        }
        let mut fields: Vec<(String, Type)> = Vec::new();
        let mut i: usize = 0;
        let n = types.len();
        let mut rest = types;
        let ghost all = rest@;
        while i < n
            invariant
                0 <= i <= n,
                n == all.len(),
                rest@ == all.subrange(i as int, n as int),
                fields@.len() == i,
                forall|j: int| 0 <= j < i ==> #[trigger] fields@[j].1 == all[j],
            decreases n - i,
        {
            let t = rest.remove(0);
            let mut name = String::from_str("f");
            let number = decimal(i as u128);
            name.append(number.as_str());
            fields.push((name, t));
            assert(rest@ =~= all.subrange(i + 1, n as int));
            i = i + 1;
        }
        let shape = Type::StructType(StructType { struct_name: String::new(), types: clone_fields(&fields) });
        let ghost shape_view = shape@;
        let ghost before_reg = self.globals().decls();
        let ghost issued_reg = self.issued();
        let name = self.symbol_table.register_type(shape, &mut self.ident_generator);
        let t = Type::StructType(StructType { struct_name: name, types: fields });
        proof {
            let fs = t->StructType_0.types@;
            let vs = fields_of(fs, fs.len() as int);
            lemma_fields_of(fs, fs.len() as int);
            let b = old(ctx).limits().bound(DepthKind::Tuple) - old(ctx).depth(DepthKind::Tuple);
            assert forall|j: int| 0 <= j < vs.len() implies #[trigger] tuple_depth(vs[j].1) <= b by {
                assert(vs[j].1 == fs[j].1@);
                assert(fs[j].1 == all[j]);
            }
            lemma_max_field_tuple_depth_le(vs, vs.len() as int, b as nat);
            let bs = (old(ctx).limits().bound(DepthKind::Struct) - old(ctx).depth(DepthKind::Struct) - 1) as nat;
            assert forall|j: int| 0 <= j < vs.len() implies #[trigger] struct_depth(vs[j].1) <= bs by {
                assert(vs[j].1 == fs[j].1@);
                assert(fs[j].1 == all[j]);
            }
            lemma_max_field_struct_depth_le(vs, vs.len() as int, bs);
            assert forall|j: int| 0 <= j < vs.len() implies #[trigger] literal_ok(vs[j].1) by {
                assert(vs[j].1 == fs[j].1@);
                assert(fs[j].1 == all[j]);
            }
            lemma_all_fields_literal_ok(vs, vs.len() as int);
            assert(t@ == TypeView::Struct(t->StructType_0.struct_name@, vs));
            if ctx.failures() == old(ctx).failures() {
                assert forall|j: int| 0 <= j < vs.len() implies #[trigger] weighted(
                    vs[j].1,
                    old(self).manager(),
                ) by {
                    assert(vs[j].1 == fs[j].1@);
                    assert(fs[j].1 == all[j]);
                }
                lemma_all_fields_weighted(vs, vs.len() as int, old(self).manager());
            }
            assert(shape_view == TypeView::Struct(Seq::empty(), vs));
            assert(registered_struct(t@, self.globals().decls()));
            let d0 = before_reg;
            let d1 = self.globals().decls();
            assert forall|i: int| 0 <= i < d1.len() implies (#[trigger] d1[i].1 matches TypeView::Struct(
                n,
                _,
            ) ==> n == Seq::<char>::empty()) by {
                if has_shape(d0, shape_view) {
                    assert(d1 == d0);
                } else if i < d0.len() {
                    assert(d1[i] == d0[i]);
                } else {
                    assert(d1[i].1 == shape_view);
                }
            }
            self.symbol_table.lemma_globals_wf();
            self.globals().lemma_wf();
            assert(fresh_tail(before_reg, d1, issued_reg)) by {
                if !has_shape(before_reg, shape_view) {
                    assert(d1 == before_reg.push((name@, shape_view)));
                } else {
                    assert(d1 == before_reg);
                }
            }
            assert(before_reg.is_prefix_of(d1)) by {
                if !has_shape(before_reg, shape_view) {
                    assert(d1 == before_reg.push((name@, shape_view)));
                    assert(before_reg =~= d1.subrange(0, before_reg.len() as int));
                } else {
                    assert(before_reg =~= d1.subrange(0, before_reg.len() as int));
                }
            }
            lemma_fresh_tail_trans(old(self).globals().decls(), before_reg, d1, old(self).issued(), issued_reg);
            lemma_new_shape_fresh(old(self).globals().decls(), d1, old(self).issued(), t@);
            if has_shape(old(self).globals().decls(), shape_view) {
                crate::symbol_table::lemma_prefix_keeps_names(old(self).globals().decls(), d1, shape_view);
            }
            assert(struct_shape(t@) == shape_view);
            let bound = old(ctx).limits().bound(DepthKind::Tuple);
            assert(tuple_depth(shape_view) <= bound);
            if registry_fits(old(self).globals().decls(), bound) {
                assert forall|i: int| 0 <= i < d1.len() implies tuple_depth(#[trigger] d1[i].1) <= bound by {
                    if has_shape(d0, shape_view) {
                        assert(d1 == d0);
                    } else if i < d0.len() {
                        assert(d1[i] == d0[i]);
                    } else {
                        assert(d1[i].1 == shape_view);
                    }
                }
            }
        }
        Ok(t)
    }
}

impl ASTGenerator {
    /// How many names of a category have been allocated.
    pub closed spec fn name_count(&self, kind: NameKind) -> nat {
        self.ident_generator.count(kind)
    }

    /// The names bound in the function being generated whose nearest binding
    /// has type `required` and whose ownership state allows `event`.
    fn usable_variables(&self, required: &Type, event: OwnershipEvent) -> (r: Vec<String>)
        requires
            self.wf(),
        ensures
            forall|i: int|
                0 <= i < r@.len() ==> match lookup(self.frames(), #[trigger] r@[i]@) {
                    Some(d) => d.identifier_type@ == required@ && step(d.ownership, event) is Some,
                    None => false,
                },
    {
        let mut out: Vec<String> = Vec::new();
        let mut i: usize = 0;
        while i < self.declared.len()
            invariant
                self.wf(),
                0 <= i <= self.declared@.len(),
                forall|k: int|
                    0 <= k < out@.len() ==> match lookup(self.frames(), #[trigger] out@[k]@) {
                        Some(d) => d.identifier_type@ == required@ && step(d.ownership, event) is Some,
                        None => false,
                    },
            decreases self.declared@.len() - i,
        {
            let name = &self.declared[i];
            match self.symbol_table.resolve(name) {
                Some(d) => {
                    if d.identifier_type.same_type(required) && transition(d.ownership, event).is_some() {
                        out.push(name.clone());
                    }
                },
                None => {},
            }
            i = i + 1;
        }
        out
    }

    /// Records a use of the variable `name` and returns the expression
    /// referring to it. The use passes through the ownership state machine:
    /// a value that was moved is never read or moved again.
    fn use_variable(&mut self, name: &String, event: OwnershipEvent, required: &Type) -> (r: Expression)
        requires
            old(self).wf(),
            lookup(old(self).frames(), name@) matches Some(d) && d.identifier_type@ == required@
                && step(d.ownership, event) is Some,
            event == OwnershipEvent::Read || event == OwnershipEvent::Move,
        ensures
            final(self).wf(),
            type_of(r) == required@,
            r == Expression::Variable(r->Variable_0) && r->Variable_0.value@ == name@,
            lookup(final(self).frames(), name@) == Some(
                crate::symbol_table::with_state(
                    lookup(old(self).frames(), name@)->0,
                    step(lookup(old(self).frames(), name@)->0.ownership, event)->0,
                ),
            ),
            final(self).frames().len() == old(self).frames().len(),
            bindings_kept(old(self).frames(), final(self).frames()),
            final(self).spec_fail_fast() == old(self).spec_fail_fast(),
            final(self).manager() == old(self).manager(),
            final(self).use_log() == old(self).use_log().push(
                (name@, lookup(old(self).frames(), name@)->0.ownership, event),
            ),
            final(self).names() == old(self).names(),
            final(self).issued() == old(self).issued(),
            final(self).globals() == old(self).globals(),
    {
        let ghost before = self.frames();
        let ghost state = lookup(before, name@)->0.ownership;
        let _ = self.symbol_table.transition_ownership(name, event);
        self.uses = Ghost(self.uses@.push((name@, state, event)));
        proof {
            let log = self.uses@;
            let log0 = old(self).uses@;
            let x = (name@, state, event);
            assert(state == replayed(log0, name@, log0.len() as int));
            assert forall|i: int| 0 <= i < log.len() implies (#[trigger] log[i]).1 == replayed(
                log,
                log[i].0,
                i,
            ) && (log[i].2 == OwnershipEvent::Read || log[i].2 == OwnershipEvent::Move) by {
                lemma_replayed_push(log0, x, log[i].0, i);
                if i < log0.len() {
                    assert(log[i] == log0[i]);
                }
            }
            assert forall|n: Seq<char>| #[trigger] lookup(self.frames(), n) is Some implies lookup(
                self.frames(),
                n,
            )->0.ownership == replayed(log, n, log.len() as int) by {
                lemma_replayed_push(log0, x, n, log0.len() as int);
                assert(replayed(log, n, log.len() as int) == if n == name@ {
                    match step(replayed(log, n, log0.len() as int), event) {
                        Some(s) => s,
                        None => replayed(log, n, log0.len() as int),
                    }
                } else {
                    replayed(log, n, log0.len() as int)
                });
            }
            assert forall|i: int| 0 <= i < log.len() implies self.ident_generator.issued().contains(
                #[trigger] log[i].0,
            ) by {
                if i < log0.len() {
                    assert(log[i] == log0[i]);
                } else {
                    lemma_locate_sound(before, before.len() - 1, name@);
                    let (a, b) = locate(before, before.len() - 1, name@)->0;
                    assert(before[a][b].0 == name@);
                }
            }
            assert forall|i: int| 0 <= i < log.len() implies (#[trigger] log[i]).1
                != OwnershipState::Moved && log[i].1 != OwnershipState::MutablyBorrowed && step(
                log[i].1,
                log[i].2,
            ) is Some by {
                if i < old(self).uses@.len() {
                    assert(log[i] == old(self).uses@[i]);
                }
            }
        }
        proof {
            let after = self.frames();
            assert forall|k: int, j: int|
                0 <= k < after.len() && 0 <= j < after[k].len() implies self.issued().contains(
                #[trigger] after[k][j].0,
            ) by {
                assert(after[k][j].0 == before[k][j].0);
            }
        }
        Expression::Variable(Variable { value: name.clone(), variable_type: required.clone_type() })
    }

    /// A `u128` whose high and low halves are drawn separately.
    fn draw_wide(&mut self) -> (r: u128)
        requires
            old(self).wf(),
        ensures
            final(self).wf(),
            final(self).frames() == old(self).frames(),
            final(self).spec_fail_fast() == old(self).spec_fail_fast(),
            final(self).manager() == old(self).manager(),
            final(self).use_log() == old(self).use_log(),
            final(self).names() == old(self).names(),
            final(self).issued() == old(self).issued(),
            final(self).globals() == old(self).globals(),
    {
        let high = self.draw(u64::MAX) as u128;
        let low = self.draw(u64::MAX) as u128;
        (high << 64u32) | low
    }

    /// A random literal of primitive (or void) type `required`; under the
    /// aggressive profile one draw in four gives a boundary literal instead.
    fn literal_for(&mut self, required: &Type) -> (r: Literal)
        requires
            old(self).wf(),
            is_primitive(required@) || required@ == TypeView::Void,
        ensures
            final(self).wf(),
            literal_type(r) == required@,
            final(self).frames() == old(self).frames(),
            final(self).spec_fail_fast() == old(self).spec_fail_fast(),
            final(self).manager() == old(self).manager(),
            final(self).use_log() == old(self).use_log(),
            final(self).names() == old(self).names(),
            final(self).issued() == old(self).issued(),
            final(self).globals() == old(self).globals(),
    {
        if self.selection_manager.profile() == SelectionProfile::Aggressive && self.draw(4) == 0 {
            let high = self.draw(2) == 1;
            return boundary_literal(required, high);
        }
        match required {
            Type::U8Type => Literal::UInt8(self.draw(256) as u8),
            Type::U16Type => Literal::UInt16(self.draw(65536) as u16),
            Type::U32Type => Literal::UInt32(self.draw(4294967296) as u32),
            Type::U64Type => Literal::UInt64(self.draw(u64::MAX)),
            Type::U128Type => Literal::UInt128(self.draw_wide()),
            Type::U256Type => Literal::UInt256(self.draw_wide()),
            Type::Felt252Type => Literal::Felt252(self.draw_wide()),
            Type::USizeType => Literal::USize(self.draw(4294967296) as u32),
            Type::StringType => {
                let mut text = String::from_str("str");
                let number = decimal(self.draw(1000) as u128);
                text.append(number.as_str());
                Literal::Str(text)
            },
            Type::BooleanType => Literal::Boolean(self.draw(2) == 1),
            _ => Literal::Void,
        }
    }

    /// Generates an expression whose static type is `required`: a reference
    /// to a usable variable of that type when `allow_variables` holds and the
    /// draw picks one, else a literal built along the type's structure. A
    /// referenced variable was neither moved nor mutably borrowed; a use of a
    /// copyable type reads it and keeps its state, any other use moves it.
    pub fn generate_expression(&mut self, required: &Type, allow_variables: bool) -> (r: Expression)
        requires
            old(self).wf(),
            literal_ok(required@),
        ensures
            final(self).wf(),
            type_of(r) == required@,
            r matches Expression::Variable(v) ==> lookup(old(self).frames(), v.value@) matches Some(
                d,
            ) && d.identifier_type@ == required@ && d.ownership != OwnershipState::Moved
                && d.ownership != OwnershipState::MutablyBorrowed && lookup(
                final(self).frames(),
                v.value@,
            ) == Some(
                crate::symbol_table::with_state(
                    d,
                    if copyable(required@) {
                        d.ownership
                    } else {
                        OwnershipState::Moved
                    },
                ),
            ),
            final(self).frames().len() == old(self).frames().len(),
            bindings_kept(old(self).frames(), final(self).frames()),
            final(self).spec_fail_fast() == old(self).spec_fail_fast(),
            final(self).manager() == old(self).manager(),
            log_names(final(self).use_log()) == log_names(old(self).use_log()) + refs(r),
            old(self).use_log().is_prefix_of(final(self).use_log()),
            final(self).names() == old(self).names(),
            final(self).issued() == old(self).issued(),
            final(self).globals() == old(self).globals(),
        decreases required, 1int,
    {
        if allow_variables {
            let event = if is_copyable(required) {
                OwnershipEvent::Read
            } else {
                OwnershipEvent::Move
            };
            let candidates = self.usable_variables(required, event);
            if candidates.len() > 0 && self.draw(2) == 0 {
                let k = self.draw(candidates.len() as u64) as usize;
                assert(lookup(self.frames(), candidates@[k as int]@) is Some);
                let ghost log0 = self.use_log();
                let e = self.use_variable(&candidates[k], event, required);
                proof {
                    assert(log_names(self.use_log()) =~= log_names(log0) + refs(e));
                }
                return e;
            }
        }
        match required {
            Type::TupleType(tt) => {
                let ghost vs = views_of(tt.types@, tt.types@.len() as int);
                proof {
                    lemma_views_of(tt.types@, tt.types@.len() as int);
                    assert(required@ == TypeView::Tuple(vs));
                    lemma_all_literal_ok(vs, vs.len() as int);
                    assert forall|i: int| 0 <= i < tt.types@.len() implies literal_ok(
                        #[trigger] tt.types@[i]@,
                    ) by {
                        assert(vs[i] == tt.types@[i]@);
                    }
                }
                let es = self.generate_values(&tt.types, allow_variables);
                let e = Expression::TupleLiteral(es);
                proof {
                    lemma_types_of_views(e->TupleLiteral_0@, tt.types@, tt.types@.len() as int);
                }
                e
            },
            Type::StructType(st) => {
                let ghost fs = fields_of(st.types@, st.types@.len() as int);
                proof {
                    lemma_fields_of(st.types@, st.types@.len() as int);
                    assert(required@ == TypeView::Struct(st.struct_name@, fs));
                    lemma_all_fields_literal_ok(fs, fs.len() as int);
                    assert forall|i: int| 0 <= i < st.types@.len() implies literal_ok(
                        #[trigger] st.types@[i].1@,
                    ) by {
                        assert(fs[i].1 == st.types@[i].1@);
                    }
                }
                let inits = self.generate_field_values(&st.types, allow_variables);
                let e = Expression::StructLiteral(
                    StructLiteral { struct_name: st.struct_name.clone(), fields: inits },
                );
                proof {
                    lemma_field_types_of_fields(
                        e->StructLiteral_0.fields@,
                        st.types@,
                        st.types@.len() as int,
                    );
                }
                e
            },
            _ => Expression::Literal(self.literal_for(required)),
        }
    }

    fn generate_values(&mut self, ts: &Vec<Type>, allow_variables: bool) -> (r: Vec<Expression>)
        requires
            old(self).wf(),
            forall|i: int| 0 <= i < ts@.len() ==> literal_ok(#[trigger] ts@[i]@),
        ensures
            final(self).wf(),
            r@.len() == ts@.len(),
            forall|i: int| 0 <= i < ts@.len() ==> type_of(#[trigger] r@[i]) == ts@[i]@,
            final(self).frames().len() == old(self).frames().len(),
            bindings_kept(old(self).frames(), final(self).frames()),
            final(self).spec_fail_fast() == old(self).spec_fail_fast(),
            final(self).manager() == old(self).manager(),
            log_names(final(self).use_log()) == log_names(old(self).use_log()) + refs_list(
                r@,
                r@.len() as int,
            ),
            old(self).use_log().is_prefix_of(final(self).use_log()),
            final(self).names() == old(self).names(),
            final(self).issued() == old(self).issued(),
            final(self).globals() == old(self).globals(),
        decreases ts, 0int,
    {
        let mut out: Vec<Expression> = Vec::new();
        let mut i: usize = 0;
        while i < ts.len()
            invariant
                self.wf(),
                0 <= i <= ts@.len(),
                forall|k: int| 0 <= k < ts@.len() ==> literal_ok(#[trigger] ts@[k]@),
                out@.len() == i,
                forall|k: int| 0 <= k < i ==> type_of(#[trigger] out@[k]) == ts@[k]@,
                self.frames().len() == old(self).frames().len(),
                bindings_kept(old(self).frames(), self.frames()),
                self.spec_fail_fast() == old(self).spec_fail_fast(),
                self.manager() == old(self).manager(),
                log_names(self.use_log()) == log_names(old(self).use_log()) + refs_list(
                    out@,
                    i as int,
                ),
                old(self).use_log().is_prefix_of(self.use_log()),
                self.names() == old(self).names(),
                self.issued() == old(self).issued(),
                self.globals() == old(self).globals(),
            decreases ts@.len() - i,
        {
            let e = self.generate_expression(&ts[i], allow_variables);
            let ghost prev = out@;
            out.push(e);
            proof {
                lemma_refs_list_push(prev, e, i as int);
                assert(refs_list(out@, i + 1) == refs_list(out@, i as int) + refs(out@[i as int]));
                assert(out@[i as int] == e);
            }
            i = i + 1;
        }
        out
    }

    fn generate_field_values(&mut self, fs: &Vec<(String, Type)>, allow_variables: bool) -> (r: Vec<
        (String, Expression),
    >)
        requires
            old(self).wf(),
            forall|i: int| 0 <= i < fs@.len() ==> literal_ok(#[trigger] fs@[i].1@),
        ensures
            final(self).wf(),
            r@.len() == fs@.len(),
            forall|i: int|
                0 <= i < fs@.len() ==> (#[trigger] r@[i]).0@ == fs@[i].0@ && type_of(r@[i].1)
                    == fs@[i].1@,
            final(self).frames().len() == old(self).frames().len(),
            bindings_kept(old(self).frames(), final(self).frames()),
            final(self).spec_fail_fast() == old(self).spec_fail_fast(),
            final(self).manager() == old(self).manager(),
            log_names(final(self).use_log()) == log_names(old(self).use_log()) + refs_fields(
                r@,
                r@.len() as int,
            ),
            old(self).use_log().is_prefix_of(final(self).use_log()),
            final(self).names() == old(self).names(),
            final(self).issued() == old(self).issued(),
            final(self).globals() == old(self).globals(),
        decreases fs, 0int,
    {
        let mut out: Vec<(String, Expression)> = Vec::new();
        let mut i: usize = 0;
        while i < fs.len()
            invariant
                self.wf(),
                0 <= i <= fs@.len(),
                forall|k: int| 0 <= k < fs@.len() ==> literal_ok(#[trigger] fs@[k].1@),
                out@.len() == i,
                forall|k: int|
                    0 <= k < i ==> (#[trigger] out@[k]).0@ == fs@[k].0@ && type_of(out@[k].1)
                        == fs@[k].1@,
                self.frames().len() == old(self).frames().len(),
                bindings_kept(old(self).frames(), self.frames()),
                self.spec_fail_fast() == old(self).spec_fail_fast(),
                self.manager() == old(self).manager(),
                log_names(self.use_log()) == log_names(old(self).use_log()) + refs_fields(
                    out@,
                    i as int,
                ),
                old(self).use_log().is_prefix_of(self.use_log()),
                self.names() == old(self).names(),
                self.issued() == old(self).issued(),
                self.globals() == old(self).globals(),
            decreases fs@.len() - i,
        {
            let field = &fs[i];
            assert(decreases_to!(fs => fs@[i as int]));
            let e = self.generate_expression(&field.1, allow_variables);
            let ghost prev = out@;
            let entry = (field.0.clone(), e);
            let ghost ge = entry;
            out.push(entry);
            proof {
                lemma_refs_fields_push(prev, ge, i as int);
                assert(refs_fields(out@, i + 1) == refs_fields(out@, i as int) + refs(
                    out@[i as int].1,
                ));
                assert(out@[i as int] == ge);
            }
            i = i + 1;
        }
        out
    }
}

/// A statement is well typed and its declared type nests tuples at most
/// `bound` deep.
pub open spec fn statement_ok(s: Statement, bound: nat) -> bool {
    match s {
        Statement::Declaration(d) => type_of(d.value) == d.variable_type@ && literal_ok(
            d.variable_type@,
        ) && tuple_depth(d.variable_type@) <= bound,
        Statement::ExpressionStatement(e) => true,
    }
}

/// A declaration introduces a name not allocated before and binds it, valid
/// and not constant, with the declared type and mutability.
pub open spec fn declaration_bound(
    s: Statement,
    issued_before: Set<Seq<char>>,
    frames: Seq<Seq<(Seq<char>, IdentifierData)>>,
) -> bool {
    match s {
        Statement::Declaration(d) => {
            &&& !issued_before.contains(d.variable_name@)
            &&& lookup(frames, d.variable_name@) matches Some(b)
            &&& b.identifier_type@ == d.variable_type@
            &&& b.mutable == d.mutable
            &&& !b.constant
            &&& b.ownership == OwnershipState::Valid
        },
        Statement::ExpressionStatement(_) => true,
    }
}

/// The declarations among `ss` introduce names outside `before` and inside
/// `after`, and no two of them share a name.
pub open spec fn declared_names_fresh(
    ss: Seq<Statement>,
    before: Set<Seq<char>>,
    after: Set<Seq<char>>,
) -> bool {
    &&& forall|i: int|
        0 <= i < ss.len() && (#[trigger] ss[i]) is Declaration ==> !before.contains(
            ss[i]->Declaration_0.variable_name@,
        ) && after.contains(ss[i]->Declaration_0.variable_name@)
    &&& distinct_declarations(ss)
}

/// No two declarations among `ss` share a name.
pub open spec fn distinct_declarations(ss: Seq<Statement>) -> bool {
    forall|i: int, j: int|
        0 <= i < j < ss.len() && (#[trigger] ss[i]) is Declaration && (#[trigger] ss[j]) is Declaration
            ==> ss[i]->Declaration_0.variable_name@ != ss[j]->Declaration_0.variable_name@
}

/// Every declaration among `ss` has its name bound in `frames` with the
/// declared type and mutability, not as a constant.
pub open spec fn declarations_bound(
    ss: Seq<Statement>,
    frames: Seq<Seq<(Seq<char>, IdentifierData)>>,
) -> bool {
    forall|i: int|
        0 <= i < ss.len() && (#[trigger] ss[i]) is Declaration ==> lookup(
            frames,
            ss[i]->Declaration_0.variable_name@,
        ) is Some && lookup(frames, ss[i]->Declaration_0.variable_name@)->0.identifier_type@
            == ss[i]->Declaration_0.variable_type@ && lookup(
            frames,
            ss[i]->Declaration_0.variable_name@,
        )->0.mutable == ss[i]->Declaration_0.mutable && !lookup(
            frames,
            ss[i]->Declaration_0.variable_name@,
        )->0.constant
}

/// Every statement among `ss` is a declaration whose type is weighted.
pub open spec fn all_declarations_weighted(ss: Seq<Statement>, m: SelectionManager) -> bool {
    forall|i: int|
        0 <= i < ss.len() ==> (#[trigger] ss[i]) is Declaration && weighted(
            ss[i]->Declaration_0.variable_type@,
            m,
        )
}

/// Every declaration among `ss` of a struct type names a struct that the
/// registry `d` declares for its shape.
pub open spec fn declared_structs_registered(ss: Seq<Statement>, d: Seq<(Seq<char>, TypeView)>) -> bool {
    forall|i: int|
        0 <= i < ss.len() && (#[trigger] ss[i]) is Declaration
            && ss[i]->Declaration_0.variable_type@ is Struct ==> registered_struct(
            ss[i]->Declaration_0.variable_type@,
            d,
        )
}

proof fn lemma_struct_decls_contains(
    d: Seq<(Seq<char>, TypeView)>,
    n: int,
    c: int,
    fs: Seq<(Seq<char>, TypeView)>,
)
    requires
        0 <= c < n <= d.len(),
        d[c].1 == TypeView::Struct(Seq::empty(), fs),
    ensures
        struct_decls(d, n).contains((d[c].0, fs)),
    decreases n,
{
    let prev = struct_decls(d, n - 1);
    if c == n - 1 {
        assert(struct_decls(d, n) == prev.push((d[c].0, fs)));
        assert(struct_decls(d, n)[prev.len() as int] == (d[c].0, fs));
    } else {
        lemma_struct_decls_contains(d, n - 1, c, fs);
        let k = choose|k: int| 0 <= k < prev.len() && prev[k] == (d[c].0, fs);
        match d[n - 1].1 {
            TypeView::Struct(_, f2) => {
                assert(struct_decls(d, n) == prev.push((d[n - 1].0, f2)));
                assert(struct_decls(d, n)[k] == prev[k]);
            },
            _ => {
                assert(struct_decls(d, n) == prev);
            },
        }
    }
}

/// A type a constant may have: an integer, `felt252` or `bool`; never a
/// string.
pub open spec fn const_type(t: TypeView) -> bool {
    is_primitive(t) && t != TypeView::Str
}

impl ASTGenerator {
    /// Generates one statement: a declaration of a fresh variable of a
    /// generated type, initialised by an expression of that type and bound
    /// in the current scope as valid, not constant, with the declaration's
    /// mutability. When no variable name is left it fails with
    /// `NamesExhausted` when failing fast, else records the failure and
    /// keeps the expression as an expression statement.
    pub fn generate_statement(&mut self, ctx: &mut Context) -> (r: Result<Statement, GenerationError>)
        requires
            old(self).wf(),
            old(ctx).wf(),
        ensures
            final(self).wf(),
            final(ctx).wf(),
            forall|k: DepthKind| #[trigger] final(ctx).depth(k) == old(ctx).depth(k),
            final(ctx).limits() == old(ctx).limits(),
            final(ctx).statement_scopes() == old(ctx).statement_scopes(),
            final(ctx).required_stack() == old(ctx).required_stack(),
            old(ctx).failures().is_prefix_of(final(ctx).failures()),
            old(self).globals().decls().is_prefix_of(final(self).globals().decls()),
            registry_fits(old(self).globals().decls(), old(ctx).limits().bound(DepthKind::Tuple))
                ==> registry_fits(
                final(self).globals().decls(),
                old(ctx).limits().bound(DepthKind::Tuple),
            ),
            old(self).spec_fail_fast() ==> final(ctx).failures() == old(ctx).failures(),
            final(self).frames().len() == old(self).frames().len(),
            bindings_kept(old(self).frames(), final(self).frames()),
            final(self).spec_fail_fast() == old(self).spec_fail_fast(),
            final(self).manager() == old(self).manager(),
            old(self).issued().subset_of(final(self).issued()),
            old(self).use_log().is_prefix_of(final(self).use_log()),
            final(self).name_count(NameKind::Variable) >= old(self).name_count(NameKind::Variable),
            final(self).name_count(NameKind::Const) == old(self).name_count(NameKind::Const),
            final(self).globals().constants() == old(self).globals().constants(),
            match r {
                Ok(s) => statement_ok(s, old(ctx).limits().bound(DepthKind::Tuple))
                    && declaration_bound(s, old(self).issued(), final(self).frames()) && (
                s is Declaration || final(self).name_count(NameKind::Variable) == u64::MAX)
                    && log_names(final(self).use_log()) == log_names(old(self).use_log())
                    + statement_refs(s) && (s is Declaration ==> final(self).issued().contains(
                    s->Declaration_0.variable_name@,
                )) && (final(ctx).failures() == old(ctx).failures() ==> s is Declaration
                    && weighted(s->Declaration_0.variable_type@, old(self).manager()))
                    && declared_structs_registered(seq![s], final(self).globals().decls()),
                Err(e) => statement_error(*old(self), *final(self), e),
            },
    {
        let t = self.generate_type(ctx)?;
        let ghost stack = ctx.required_stack();
        ctx.push_required(t.clone_type());
        let value = self.generate_expression(&t, true);
        let _ = ctx.pop_required();
        assert(ctx.required_stack() =~= stack);
        if self.ident_generator.allocated(NameKind::Variable) == u64::MAX {
            if self.fail_fast {
                return Err(GenerationError::NamesExhausted);
            }
            ctx.record_failure(NodeKind::Statement);
            return Ok(
                Statement::ExpressionStatement(
                    ExpressionStatement { expression: value, add_semicolon: true },
                ),
            );
        }
        let ghost issued_before = self.issued();
        let ghost frames_before = self.frames();
        let name = self.ident_generator.generate_variable();
        let mutable = self.draw(2) == 1;
        let depth = self.symbol_table.scope_depth();
        let data = IdentifierData {
            identifier_type: t.clone_type(),
            mutable,
            depth,
            constant: false,
            ownership: OwnershipState::Valid,
        };
        let ghost entry = (name@, data);
        proof {
            let last = frames_before.last();
            assert(!frame_has(last, name@)) by {
                if frame_has(last, name@) {
                    let j = choose|j: int| 0 <= j < last.len() && #[trigger] last[j].0 == name@;
                    assert(frames_before[frames_before.len() - 1][j].0 == name@);
                }
            }
        }
        let _ = self.symbol_table.bind(name.clone(), data);
        proof {
            let fb = frames_before;
            let log = self.uses@;
            assert forall|i: int| 0 <= i < log.len() implies (#[trigger] log[i]).0 != name@ by {
                assert(issued_before.contains(log[i].0));
            }
            lemma_replayed_absent(log, name@, log.len() as int);
            assert forall|n: Seq<char>| #[trigger] lookup(self.frames(), n) is Some implies lookup(
                self.frames(),
                n,
            )->0.ownership == replayed(log, n, log.len() as int) by {
                if n != name@ {
                    assert(lookup(self.frames(), n) == lookup(fb, n));
                }
            }
            assert forall|i: int| 0 <= i < log.len() implies self.ident_generator.issued().contains(
                #[trigger] log[i].0,
            ) by {
                assert(issued_before.contains(log[i].0));
            }
            assert forall|n: Seq<char>| #[trigger] lookup(old(self).frames(), n) is Some implies lookup(
                self.frames(),
                n,
            ) is Some && lookup(self.frames(), n)->0.identifier_type == lookup(
                old(self).frames(),
                n,
            )->0.identifier_type && lookup(self.frames(), n)->0.mutable == lookup(
                old(self).frames(),
                n,
            )->0.mutable && lookup(self.frames(), n)->0.constant == lookup(
                old(self).frames(),
                n,
            )->0.constant by {
                assert(lookup(fb, n) is Some);
                if n == name@ {
                    lemma_locate_sound(fb, fb.len() - 1, n);
                    let (i, j) = locate(fb, fb.len() - 1, n)->0;
                    assert(fb[i][j].0 == n);
                    assert(issued_before.contains(n));
                }
            }
        }
        proof {
            let after = self.frames();
            assert forall|k: int, j: int|
                0 <= k < after.len() && 0 <= j < after[k].len() implies self.issued().contains(
                #[trigger] after[k][j].0,
            ) by {
                if k == after.len() - 1 && j == frames_before.last().len() {
                    assert(after[k][j] == entry);
                } else {
                    assert(after[k][j].0 == frames_before[k][j].0);
                }
            }
        }
        self.declared.push(name.clone());
        Ok(
            Statement::Declaration(
                Declaration { mutable, variable_name: name, variable_type: t, value },
            ),
        )
    }

    /// Generates `count` statements in the current scope, accumulating them
    /// in a statement scope of `ctx` that is closed again on return.
    pub fn generate(&mut self, ctx: &mut Context, count: u64) -> (r: Result<
        StatementBlock,
        GenerationError,
    >)
        requires
            old(self).wf(),
            old(ctx).wf(),
        ensures
            final(self).wf(),
            final(ctx).wf(),
            forall|k: DepthKind| #[trigger] final(ctx).depth(k) == old(ctx).depth(k),
            final(ctx).limits() == old(ctx).limits(),
            final(ctx).statement_scopes() == old(ctx).statement_scopes(),
            final(ctx).required_stack() == old(ctx).required_stack(),
            old(ctx).failures().is_prefix_of(final(ctx).failures()),
            old(self).globals().decls().is_prefix_of(final(self).globals().decls()),
            registry_fits(old(self).globals().decls(), old(ctx).limits().bound(DepthKind::Tuple))
                ==> registry_fits(
                final(self).globals().decls(),
                old(ctx).limits().bound(DepthKind::Tuple),
            ),
            old(self).spec_fail_fast() ==> final(ctx).failures() == old(ctx).failures(),
            final(self).frames().len() == old(self).frames().len(),
            bindings_kept(old(self).frames(), final(self).frames()),
            final(self).spec_fail_fast() == old(self).spec_fail_fast(),
            final(self).manager() == old(self).manager(),
            old(self).use_log().is_prefix_of(final(self).use_log()),
            final(self).name_count(NameKind::Variable) >= old(self).name_count(NameKind::Variable),
            final(self).name_count(NameKind::Const) == old(self).name_count(NameKind::Const),
            final(self).globals().constants() == old(self).globals().constants(),
            match r {
                Ok(b) => b.statements@.len() == count && forall|i: int|
                    0 <= i < b.statements@.len() ==> statement_ok(
                        #[trigger] b.statements@[i],
                        old(ctx).limits().bound(DepthKind::Tuple),
                    ) && (b.statements@[i] is Declaration || final(self).name_count(
                        NameKind::Variable,
                    ) == u64::MAX) && log_names(final(self).use_log()) == log_names(
                        old(self).use_log(),
                    ) + block_refs(b.statements@, b.statements@.len() as int)
                    && declared_names_fresh(b.statements@, old(self).issued(), final(self).issued())
                    && declarations_bound(b.statements@, final(self).frames())
                    && declared_structs_registered(b.statements@, final(self).globals().decls()) && (final(ctx).failures() == old(ctx).failures() ==> all_declarations_weighted(
                    b.statements@,
                    old(self).manager(),
                )) && uses_legal(
                    final(self).use_log(),
                ) && uses_threaded(final(self).use_log()),
                Err(e) => statement_error(*old(self), *final(self), e),
            },
    {
        ctx.open_statement_scope();
        let mut i: u64 = 0;
        while i < count
            invariant
                self.wf(),
                ctx.wf(),
                0 <= i <= count,
                ctx.statement_scopes().len() == old(ctx).statement_scopes().len() + 1,
                ctx.statement_scopes().drop_last() == old(ctx).statement_scopes(),
                ctx.statement_scopes().last().len() == i,
                forall|k: DepthKind| #[trigger] ctx.depth(k) == old(ctx).depth(k),
                ctx.limits() == old(ctx).limits(),
                self.frames().len() == old(self).frames().len(),
                bindings_kept(old(self).frames(), self.frames()),
                declarations_bound(ctx.statement_scopes().last(), self.frames()),
                declared_structs_registered(ctx.statement_scopes().last(), self.globals().decls()),
                ctx.failures() == old(ctx).failures() ==> all_declarations_weighted(
                    ctx.statement_scopes().last(),
                    old(self).manager(),
                ),
                self.spec_fail_fast() == old(self).spec_fail_fast(),
                self.manager() == old(self).manager(),
                old(self).issued().subset_of(self.issued()),
                declared_names_fresh(ctx.statement_scopes().last(), old(self).issued(), self.issued()),
                old(self).use_log().is_prefix_of(self.use_log()),
                log_names(self.use_log()) == log_names(old(self).use_log()) + block_refs(
                    ctx.statement_scopes().last(),
                    i as int,
                ),
                self.globals().constants() == old(self).globals().constants(),
                ctx.required_stack() == old(ctx).required_stack(),
                old(ctx).failures().is_prefix_of(ctx.failures()),
                old(self).globals().decls().is_prefix_of(self.globals().decls()),
                registry_fits(old(self).globals().decls(), old(ctx).limits().bound(DepthKind::Tuple))
                    ==> registry_fits(self.globals().decls(), old(ctx).limits().bound(DepthKind::Tuple)),
                old(self).spec_fail_fast() ==> ctx.failures() == old(ctx).failures(),
                self.name_count(NameKind::Variable) >= old(self).name_count(NameKind::Variable),
                self.name_count(NameKind::Const) == old(self).name_count(NameKind::Const),
                forall|k: int|
                    0 <= k < ctx.statement_scopes().last().len() ==> statement_ok(
                        #[trigger] ctx.statement_scopes().last()[k],
                        old(ctx).limits().bound(DepthKind::Tuple),
                    ) && (ctx.statement_scopes().last()[k] is Declaration || self.name_count(
                        NameKind::Variable,
                    ) == u64::MAX),
            decreases count - i,
        {
            let ghost issued_step = self.issued();
            let ghost failures_step = ctx.failures();
            let ghost decls_step = self.globals().decls();
            let s = match self.generate_statement(ctx) {
                Ok(s) => s,
                Err(e) => {
                    let _ = ctx.close_statement_scope();
                    return Err(e);
                },
            };
            proof {
                self.ident_generator.lemma_count_bounded(NameKind::Variable);
            }
            proof {
                let ss = ctx.statement_scopes().last();
                assert(declared_names_fresh(ss, old(self).issued(), self.issued())) by {
                    assert forall|a: int|
                        0 <= a < ss.len() && (#[trigger] ss[a]) is Declaration implies self.issued().contains(
                        ss[a]->Declaration_0.variable_name@,
                    ) by {
                        assert(issued_step.contains(ss[a]->Declaration_0.variable_name@));
                    }
                }
            }
            let ghost before = ctx.statement_scopes();
            let ghost gs = s;
            ctx.add_statement(s);
            proof {
                let ss = ctx.statement_scopes().last();
                assert(ss == before.last().push(gs));
                assert forall|a: int, b: int|
                    0 <= a < b < ss.len() && (#[trigger] ss[a]) is Declaration && (#[trigger] ss[b]) is Declaration
                    implies ss[a]->Declaration_0.variable_name@ != ss[b]->Declaration_0.variable_name@ by {
                    if b == i {
                        assert(issued_step.contains(ss[a]->Declaration_0.variable_name@));
                    } else {
                        assert(ss[a] == before.last()[a] && ss[b] == before.last()[b]);
                    }
                }
                self.symbol_table.lemma_globals_wf();
                self.globals().lemma_wf();
                assert forall|a: int|
                    0 <= a < ss.len() && (#[trigger] ss[a]) is Declaration
                        && ss[a]->Declaration_0.variable_type@ is Struct implies registered_struct(
                    ss[a]->Declaration_0.variable_type@,
                    self.globals().decls(),
                ) by {
                    if a < i {
                        assert(ss[a] == before.last()[a]);
                        let t = ss[a]->Declaration_0.variable_type@;
                        assert(registered_struct(t, decls_step));
                        crate::symbol_table::lemma_prefix_keeps_names(
                            decls_step,
                            self.globals().decls(),
                            struct_shape(t),
                        );
                    } else {
                        assert(seq![gs][0] == gs);
                    }
                }
                if ctx.failures() == old(ctx).failures() {
                    lemma_unchanged_between(old(ctx).failures(), failures_step, ctx.failures());
                    assert forall|a: int| 0 <= a < ss.len() implies (#[trigger] ss[a]) is Declaration
                        && weighted(ss[a]->Declaration_0.variable_type@, old(self).manager()) by {
                        if a < i {
                            assert(ss[a] == before.last()[a]);
                        }
                    }
                }
                assert forall|a: int|
                    0 <= a < ss.len() && (#[trigger] ss[a]) is Declaration implies !old(self).issued().contains(
                    ss[a]->Declaration_0.variable_name@,
                ) && self.issued().contains(ss[a]->Declaration_0.variable_name@) by {
                    if a < i {
                        assert(ss[a] == before.last()[a]);
                    }
                }
            }
            assert(ctx.statement_scopes().drop_last() =~= before.drop_last());
            proof {
                let last = ctx.statement_scopes().last();
                assert(last == before.last().push(gs));
                lemma_block_refs_push(before.last(), gs, i as int);
                assert(block_refs(last, i + 1) == block_refs(last, i as int) + statement_refs(
                    last[i as int],
                ));
            }
            i = i + 1;
        }
        let statements = ctx.close_statement_scope();
        proof {
            self.lemma_uses_legal();
        }
        Ok(StatementBlock { statements })
    }

    /// Draws a type production for a constant: redraws until a production
    /// that a constant may have comes up, at most `MAX_CONST_ATTEMPTS` times,
    /// then draws among the eligible productions alone.
    fn select_constant_type(&mut self, ctx: &Context) -> (r: Option<TypeProduction>)
        requires
            old(self).wf(),
        ensures
            final(self).wf(),
            final(self).frames() == old(self).frames(),
            final(self).spec_fail_fast() == old(self).spec_fail_fast(),
            final(self).manager() == old(self).manager(),
            final(self).use_log() == old(self).use_log(),
            final(self).names() == old(self).names(),
            final(self).issued() == old(self).issued(),
            final(self).globals() == old(self).globals(),
            r is None ==> !old(self).manager().constant_weighted(),
            r matches Some(p) ==> const_eligible(p) && old(self).manager().weight_of(p) > 0,
    {
        let mut attempts: u64 = 0;
        while attempts < MAX_CONST_ATTEMPTS
            invariant
                self.wf(),
                self.frames() == old(self).frames(),
                self.spec_fail_fast() == old(self).spec_fail_fast(),
                self.manager() == old(self).manager(),
                self.use_log() == old(self).use_log(),
                self.issued() == old(self).issued(),
                self.globals() == old(self).globals(),
                self.names() == old(self).names(),
            decreases MAX_CONST_ATTEMPTS - attempts,
        {
            let drawn = self.select_random_type(ctx);
            if let Some(p) = constant_candidate(drawn) {
                return Some(p);
            }
            attempts = attempts + 1;
        }
        let weights = self.selection_manager.constant_types_weightings(ctx);
        let r = weights.select(&mut self.rng);
        proof {
            let m = self.selection_manager;
            lemma_filtered_weights(m, ctx, all_productions().len() as int);
            if let Some(p) = r {
                let i = choose|i: int|
                    0 <= i < weights.weightings@.len() && weights.weightings@[i].0 == p
                        && weights.weightings@[i].1 > 0;
                assert(const_eligible(weights.weightings@[i].0));
            } else {
                assert forall|p: TypeProduction| const_eligible(p) implies #[trigger] m.weight_of(p)
                    == 0 by {
                    lemma_filtered_const_total(m, p, all_productions().len() as int);
                }
            }
        }
        r
    }

    /// Generates a module-level constant: a type that a constant may have
    /// (never a string), a fresh constant name and a literal of that type,
    /// bound at global scope as constant, immutable and valid at depth 0.
    /// It fails with `NoViableProduction` exactly when failing fast and no
    /// eligible production has weight (without fail-fast it records the
    /// failure and uses `felt252`), and with `NamesExhausted` when no
    /// constant name is left.
    #[allow(non_snake_case)]
    pub fn generateConstantDeclaration(&mut self, ctx: &mut Context) -> (r: Result<
        ConstDeclaration,
        GenerationError,
    >)
        requires
            old(self).wf(),
            old(ctx).wf(),
        ensures
            final(self).wf(),
            final(ctx).wf(),
            forall|k: DepthKind| #[trigger] final(ctx).depth(k) == old(ctx).depth(k),
            final(ctx).limits() == old(ctx).limits(),
            final(ctx).statement_scopes() == old(ctx).statement_scopes(),
            final(ctx).required_stack() == old(ctx).required_stack(),
            old(ctx).failures().is_prefix_of(final(ctx).failures()),
            old(self).globals().decls().is_prefix_of(final(self).globals().decls()),
            registry_fits(old(self).globals().decls(), old(ctx).limits().bound(DepthKind::Tuple))
                ==> registry_fits(
                final(self).globals().decls(),
                old(ctx).limits().bound(DepthKind::Tuple),
            ),
            old(self).spec_fail_fast() ==> final(ctx).failures() == old(ctx).failures(),
            final(self).frames() == old(self).frames(),
            final(self).spec_fail_fast() == old(self).spec_fail_fast(),
            final(self).manager() == old(self).manager(),
            final(self).use_log() == old(self).use_log(),
            final(self).name_count(NameKind::Variable) == old(self).name_count(NameKind::Variable),
            final(self).name_count(NameKind::Struct) == old(self).name_count(NameKind::Struct),
            final(ctx).failures() == old(ctx).failures() || final(ctx).failures() == old(
                ctx,
            ).failures().push(NodeKind::ConstDeclaration),
            match r {
                Ok(c) => {
                    &&& const_type(c.variable_type@)
                    &&& type_of(c.value) == c.variable_type@
                    &&& c.value is Literal
                    &&& c.variable_name@ == name_of(
                        NameKind::Const,
                        old(self).name_count(NameKind::Const) + 1,
                    )
                    &&& final(self).name_count(NameKind::Const) == old(self).name_count(
                        NameKind::Const,
                    ) + 1
                    &&& !old(self).issued().contains(c.variable_name@)
                    &&& !frame_has(old(self).globals().constants(), c.variable_name@)
                    &&& final(self).globals().constants() == old(self).globals().constants().push(
                        (c.variable_name@, final(self).globals().constants().last().1),
                    )
                    &&& final(self).globals().constants().last().1.identifier_type@
                        == c.variable_type@
                    &&& final(self).globals().constants().last().1.constant
                    &&& !final(self).globals().constants().last().1.mutable
                    &&& final(self).globals().constants().last().1.depth == 0
                    &&& final(self).globals().constants().last().1.ownership
                        == OwnershipState::Valid
                    &&& final(ctx).failures() == old(ctx).failures() ==> weighted(
                        c.variable_type@,
                        old(self).manager(),
                    )
                },
                Err(e) => (e == GenerationError::NamesExhausted && old(self).name_count(
                    NameKind::Const,
                ) == u64::MAX) || (e == GenerationError::NoViableProduction && old(
                    self,
                ).spec_fail_fast() && !old(self).manager().constant_weighted()),
            },
    {
        let p = match self.select_constant_type(ctx) {
            Some(p) => p,
            None => {
                if self.fail_fast {
                    return Err(GenerationError::NoViableProduction);
                }
                ctx.record_failure(NodeKind::ConstDeclaration);
                TypeProduction::Felt252
            },
        };
        let t = primitive_type(p);
        let value = Expression::Literal(self.literal_for(&t));
        if self.ident_generator.allocated(NameKind::Const) == u64::MAX {
            return Err(GenerationError::NamesExhausted);
        }
        let ghost consts_before = self.globals().constants();
        let name = self.ident_generator.generate_const();
        let data = IdentifierData {
            identifier_type: t.clone_type(),
            mutable: false,
            depth: 0,
            constant: true,
            ownership: OwnershipState::Valid,
        };
        let ghost entry = (name@, data);
        proof {
            assert(!frame_has(consts_before, name@)) by {
                if frame_has(consts_before, name@) {
                    let j = choose|j: int|
                        0 <= j < consts_before.len() && #[trigger] consts_before[j].0 == name@;
                }
            }
        }
        let _ = self.symbol_table.bind_constant(name.clone(), data);
        proof {
            let after = self.globals().constants();
            assert forall|j: int| 0 <= j < after.len() implies self.issued().contains(
                #[trigger] after[j].0,
            ) by {
                if j < consts_before.len() {
                    assert(after[j].0 == consts_before[j].0);
                } else {
                    assert(after[j] == entry);
                }
            }
            assert forall|k: int, j: int|
                0 <= k < self.frames().len() && 0 <= j < self.frames()[k].len() implies self.issued().contains(
                #[trigger] self.frames()[k][j].0,
            ) by {
                assert(old(self).issued().contains(self.frames()[k][j].0));
            }
        }
        Ok(ConstDeclaration { variable_name: name, variable_type: t, value })
    }

    /// Generates `count` module-level constants (see
    /// [`ASTGenerator::generateConstantDeclaration`]). Without fail-fast a
    /// constant that cannot be named is skipped and recorded; each skipped
    /// or fallen-back constant adds one `ConstDeclaration` failure, and when
    /// no failure is added every constant is built from weighted productions.
    pub fn generate_constants(&mut self, ctx: &mut Context, count: u64) -> (r: Result<
        Vec<ConstDeclaration>,
        GenerationError,
    >)
        requires
            old(self).wf(),
            old(ctx).wf(),
        ensures
            final(self).wf(),
            final(ctx).wf(),
            forall|k: DepthKind| #[trigger] final(ctx).depth(k) == old(ctx).depth(k),
            final(ctx).limits() == old(ctx).limits(),
            final(ctx).statement_scopes() == old(ctx).statement_scopes(),
            final(ctx).required_stack() == old(ctx).required_stack(),
            registry_fits(old(self).globals().decls(), old(ctx).limits().bound(DepthKind::Tuple))
                ==> registry_fits(
                final(self).globals().decls(),
                old(ctx).limits().bound(DepthKind::Tuple),
            ),
            old(self).spec_fail_fast() ==> final(ctx).failures() == old(ctx).failures(),
            old(ctx).failures().is_prefix_of(final(ctx).failures()),
            forall|k: int|
                old(ctx).failures().len() <= k < final(ctx).failures().len() ==> #[trigger] final(ctx).failures()[k] == NodeKind::ConstDeclaration,
            final(self).frames() == old(self).frames(),
            final(self).spec_fail_fast() == old(self).spec_fail_fast(),
            final(self).manager() == old(self).manager(),
            final(self).use_log() == old(self).use_log(),
            match r {
                Ok(cs) => {
                    &&& cs@.len() <= count
                    &&& count - cs@.len() <= final(ctx).failures().len() - old(ctx).failures().len()
                    &&& forall|j: int|
                        0 <= j < cs@.len() ==> const_type((#[trigger] cs@[j]).variable_type@)
                            && type_of(cs@[j].value) == cs@[j].variable_type@
                    &&& final(ctx).failures() == old(ctx).failures() ==> cs@.len() == count
                        && forall|j: int|
                        0 <= j < cs@.len() ==> weighted(
                            (#[trigger] cs@[j]).variable_type@,
                            old(self).manager(),
                        )
                },
                Err(e) => old(self).spec_fail_fast() && (e == GenerationError::NamesExhausted || (e
                    == GenerationError::NoViableProduction && !old(self).manager().constant_weighted())),
            },
    {
        let mut constants: Vec<ConstDeclaration> = Vec::new();
        let mut k: u64 = 0;
        while k < count
            invariant
                self.wf(),
                ctx.wf(),
                forall|d: DepthKind| #[trigger] ctx.depth(d) == old(ctx).depth(d),
                ctx.limits() == old(ctx).limits(),
                ctx.statement_scopes() == old(ctx).statement_scopes(),
                ctx.required_stack() == old(ctx).required_stack(),
                registry_fits(old(self).globals().decls(), old(ctx).limits().bound(DepthKind::Tuple))
                    ==> registry_fits(self.globals().decls(), old(ctx).limits().bound(DepthKind::Tuple)),
                old(self).spec_fail_fast() ==> ctx.failures() == old(ctx).failures(),
                old(ctx).failures().is_prefix_of(ctx.failures()),
                forall|j: int|
                    old(ctx).failures().len() <= j < ctx.failures().len() ==> #[trigger] ctx.failures()[j]
                        == NodeKind::ConstDeclaration,
                self.frames() == old(self).frames(),
                self.spec_fail_fast() == old(self).spec_fail_fast(),
                self.manager() == old(self).manager(),
                self.use_log() == old(self).use_log(),
                k <= count,
                constants@.len() <= k,
                k - constants@.len() <= ctx.failures().len() - old(ctx).failures().len(),
                forall|j: int|
                    0 <= j < constants@.len() ==> const_type((#[trigger] constants@[j]).variable_type@)
                        && type_of(constants@[j].value) == constants@[j].variable_type@,
                ctx.failures() == old(ctx).failures() ==> constants@.len() == k && forall|j: int|
                    0 <= j < constants@.len() ==> weighted(
                        (#[trigger] constants@[j]).variable_type@,
                        old(self).manager(),
                    ),
            decreases count - k,
        {
            let ghost failures_step = ctx.failures();
            let ghost before_cs = constants@;
            match self.generateConstantDeclaration(ctx) {
                Ok(c) => {
                    constants.push(c);
                },
                Err(e) => {
                    if self.fail_fast {
                        return Err(e);
                    }
                    ctx.record_failure(NodeKind::ConstDeclaration);
                },
            }
            proof {
                let f = ctx.failures();
                assert(old(ctx).failures().is_prefix_of(f)) by {
                    assert(f.subrange(0, failures_step.len() as int) =~= failures_step);
                    assert(f.subrange(0, old(ctx).failures().len() as int) =~= failures_step.subrange(
                        0,
                        old(ctx).failures().len() as int,
                    ));
                }
                assert forall|j: int| old(ctx).failures().len() <= j < f.len() implies #[trigger] f[j]
                    == NodeKind::ConstDeclaration by {
                    if j < failures_step.len() {
                        assert(f[j] == failures_step[j]);
                    }
                }
                if f == old(ctx).failures() {
                    assert(failures_step.len() <= f.len());
                    assert(failures_step == old(ctx).failures()) by {
                        assert(failures_step =~= old(ctx).failures());
                    }
                    assert forall|j: int| 0 <= j < constants@.len() implies weighted(
                        (#[trigger] constants@[j]).variable_type@,
                        old(self).manager(),
                    ) by {
                        if j < before_cs.len() {
                            assert(constants@[j] == before_cs[j]);
                        }
                    }
                }
            }
            k = k + 1;
        }
        Ok(constants)
    }

    /// Enters the scope of a function body.
    pub fn enter_scope(&mut self)
        requires
            old(self).wf(),
            old(self).frames().len() < usize::MAX,
        ensures
            final(self).wf(),
            final(self).frames().len() == old(self).frames().len() + 1,
            final(self).spec_fail_fast() == old(self).spec_fail_fast(),
            final(self).manager() == old(self).manager(),
            final(self).use_log() == old(self).use_log(),
            final(self).globals() == old(self).globals(),
    {
        self.symbol_table.push_scope();
        proof {
            let after = self.frames();
            assert forall|k: int, j: int|
                0 <= k < after.len() && 0 <= j < after[k].len() implies self.issued().contains(
                #[trigger] after[k][j].0,
            ) by {
                assert(after[k] == old(self).frames()[k]);
            }
        }
    }

    /// Records the signature of a generated function under its name, as a
    /// constant, immutable, valid binding at depth 0; a name registered twice
    /// is refused.
    pub fn register_function(&mut self, name: String, signature: Type) -> (r: Result<
        (),
        GenerationError,
    >)
        requires
            old(self).wf(),
        ensures
            final(self).wf(),
            final(self).frames() == old(self).frames(),
            final(self).globals() == old(self).globals(),
            final(self).spec_fail_fast() == old(self).spec_fail_fast(),
            final(self).manager() == old(self).manager(),
            final(self).use_log() == old(self).use_log(),
            final(self).names() == old(self).names(),
            frame_has(frame_of(old(self).functions().symbol_map@), name@) ==> r == Err::<
                (),
                GenerationError,
            >(GenerationError::DuplicateBinding) && final(self).functions() == old(
                self,
            ).functions(),
            !frame_has(frame_of(old(self).functions().symbol_map@), name@) ==> {
                let after = frame_of(final(self).functions().symbol_map@);
                &&& r is Ok
                &&& after == frame_of(old(self).functions().symbol_map@).push(
                    (name@, after.last().1),
                )
                &&& after.last().1.identifier_type@ == signature@
                &&& after.last().1.constant
                &&& !after.last().1.mutable
                &&& after.last().1.depth == 0
                &&& after.last().1.ownership == OwnershipState::Valid
            },
    {
        let data = IdentifierData {
            identifier_type: signature,
            mutable: false,
            depth: 0,
            constant: true,
            ownership: OwnershipState::Valid,
        };
        self.symbol_table.register_function(name, data)
    }

    /// The struct declarations registered so far, in registration order:
    /// one per distinct struct shape, with its registered name and fields.
    pub fn struct_definitions(&self) -> (r: Vec<StructDefinition>)
        requires
            self.wf(),
        ensures
            definitions_view(r@) == struct_decls(
                self.globals().decls(),
                self.globals().decls().len() as int,
            ),
            distinct_fields(definitions_view(r@)),
            forall|a: int| #![trigger definitions_view(r@)[a]]
                0 <= a < r@.len() ==> exists|k: int|
                    0 <= k < self.globals().decls().len() && #[trigger] self.globals().decls()[k].1
                        == TypeView::Struct(Seq::empty(), definitions_view(r@)[a].1),
    {
        let decls = self.symbol_table.global_symbol_table().declarations();
        let ghost d = self.globals().decls();
        proof {
            self.symbol_table.lemma_globals_wf();
            self.globals().lemma_wf();
        }
        let mut out: Vec<StructDefinition> = Vec::new();
        let mut i: usize = 0;
        while i < decls.len()
            invariant
                0 <= i <= decls@.len(),
                crate::symbol_table::decls_of(decls@) == d,
                d == self.globals().decls(),
                crate::symbol_table::shapes_unique(d),
                nameless_structs(d),
                definitions_view(out@) == struct_decls(d, i as int),
                distinct_fields(definitions_view(out@)),
                forall|a: int| #![trigger definitions_view(out@)[a]]
                    0 <= a < out@.len() ==> exists|k: int|
                        0 <= k < i && #[trigger] d[k].1 == TypeView::Struct(
                            Seq::empty(),
                            definitions_view(out@)[a].1,
                        ),
            decreases decls@.len() - i,
        {
            let ghost before = out@;
            assert(d[i as int] == (decls@[i as int].0@, decls@[i as int].1@));
            match &decls[i].1 {
                Type::StructType(st) => {
                    let def = StructDefinition {
                        struct_type: StructType {
                            struct_name: decls[i].0.clone(),
                            types: clone_fields(&st.types),
                        },
                    };
                    out.push(def);
                    proof {
                        let fs = fields_of(st.types@, st.types@.len() as int);
                        assert(decls@[i as int].1@ == TypeView::Struct(st.struct_name@, fs));
                        assert(d[i as int].1 == TypeView::Struct(Seq::empty(), fs));
                        let v = definitions_view(out@);
                        assert(v =~= definitions_view(before).push((d[i as int].0, fs)));
                        assert forall|a: int, b: int| 0 <= a < b < v.len() implies #[trigger] v[a].1
                            != #[trigger] v[b].1 by {
                            if b == before.len() {
                                if v[a].1 == fs {
                                    let k = choose|k: int|
                                        0 <= k < i && #[trigger] d[k].1 == TypeView::Struct(
                                            Seq::empty(),
                                            definitions_view(before)[a].1,
                                        );
                                    assert(d[k].1 != d[i as int].1);
                                }
                            } else {
                                assert(definitions_view(before)[a].1 != definitions_view(before)[b].1);
                            }
                        }
                        assert forall|a: int| #![trigger definitions_view(out@)[a]]
                            0 <= a < out@.len() implies exists|k: int|
                            0 <= k < i + 1 && #[trigger] d[k].1 == TypeView::Struct(
                                Seq::empty(),
                                definitions_view(out@)[a].1,
                            ) by {
                            if a < before.len() {
                                let k = choose|k: int|
                                    0 <= k < i && #[trigger] d[k].1 == TypeView::Struct(
                                        Seq::empty(),
                                        definitions_view(before)[a].1,
                                    );
                                assert(v[a] == definitions_view(before)[a]);
                            } else {
                                assert(d[i as int].1 == TypeView::Struct(Seq::empty(), v[a].1));
                            }
                        }
                    }
                },
                _ => {
                    assert(!(d[i as int].1 is Struct));
                },
            }
            i = i + 1;
        }
        out
    }
}

/// The boundary value of a literal: the type's largest value when `high`,
/// else its smallest (for a string, the empty or a long text).
pub open spec fn is_boundary(l: Literal, high: bool) -> bool {
    match l {
        Literal::UInt8(v) => v == if high { u8::MAX } else { 0 },
        Literal::UInt16(v) => v == if high { u16::MAX } else { 0 },
        Literal::UInt32(v) => v == if high { u32::MAX } else { 0 },
        Literal::UInt64(v) => v == if high { u64::MAX } else { 0 },
        Literal::UInt128(v) => v == if high { u128::MAX } else { 0 },
        Literal::UInt256(v) => v == if high { u128::MAX } else { 0 },
        Literal::Felt252(v) => v == if high { u128::MAX } else { 0 },
        Literal::USize(v) => v == if high { u32::MAX } else { 0 },
        Literal::Boolean(b) => b == high,
        _ => true,
    }
}

/// The boundary literal of primitive (or void) type `t`: its largest value
/// when `high`, else its smallest.
pub fn boundary_literal(t: &Type, high: bool) -> (r: Literal)
    requires
        is_primitive(t@) || t@ == TypeView::Void,
    ensures
        literal_type(r) == t@,
        is_boundary(r, high),
{
    match t {
        Type::U8Type => Literal::UInt8(if high { u8::MAX } else { 0 }),
        Type::U16Type => Literal::UInt16(if high { u16::MAX } else { 0 }),
        Type::U32Type => Literal::UInt32(if high { u32::MAX } else { 0 }),
        Type::U64Type => Literal::UInt64(if high { u64::MAX } else { 0 }),
        Type::U128Type => Literal::UInt128(if high { u128::MAX } else { 0 }),
        Type::U256Type => Literal::UInt256(if high { u128::MAX } else { 0 }),
        Type::Felt252Type => Literal::Felt252(if high { u128::MAX } else { 0 }),
        Type::USizeType => Literal::USize(if high { u32::MAX } else { 0 }),
        Type::StringType => Literal::Str(if high {
            String::from_str("boundary_text_of_some_length_to_stress_the_byte_array_layout")
        } else {
            String::new()
        }),
        Type::BooleanType => Literal::Boolean(high),
        _ => Literal::Void,
    }
}

/// The drawn production, when a constant may have it; `None` otherwise, so
/// that the caller draws again.
pub fn constant_candidate(drawn: Option<TypeProduction>) -> (r: Option<TypeProduction>)
    ensures
        r == (if drawn matches Some(p) && const_eligible(p) {
            drawn
        } else {
            None
        }),
{
    match drawn {
        Some(p) => if is_const_eligible(p) {
            Some(p)
        } else {
            None
        },
        None => None,
    }
}

fn is_const_eligible(p: TypeProduction) -> (r: bool)
    ensures
        r == const_eligible(p),
{
    match p {
        TypeProduction::Str | TypeProduction::Tuple | TypeProduction::Struct => false,
        _ => true,
    }
}

/// How often constant generation redraws before it narrows the candidates.
pub const MAX_CONST_ATTEMPTS: u64 = 16;

/// A primitive type: neither composite nor void.
pub open spec fn is_primitive(t: TypeView) -> bool {
    match t {
        TypeView::Tuple(_) | TypeView::Struct(_, _) | TypeView::Array(_, _) | TypeView::Function(
            _,
            _,
        ) | TypeView::Void => false,
        _ => true,
    }
}

/// A type whose values are copied, not moved, when used: the integers,
/// `felt252` and `bool`.
pub open spec fn copyable(t: TypeView) -> bool {
    is_primitive(t) && t != TypeView::Str
}

fn is_copyable(t: &Type) -> (r: bool)
    ensures
        r == copyable(t@),
{
    match t {
        Type::U8Type | Type::U16Type | Type::U32Type | Type::U64Type | Type::U128Type
        | Type::U256Type | Type::Felt252Type | Type::USizeType | Type::BooleanType => true,
        _ => false,
    }
}

proof fn lemma_types_of_views(es: Seq<Expression>, ts: Seq<Type>, n: int)
    requires
        0 <= n <= es.len(),
        es.len() == ts.len(),
        forall|i: int| 0 <= i < ts.len() ==> type_of(#[trigger] es[i]) == ts[i]@,
    ensures
        types_of(es, n) == views_of(ts, n),
    decreases n,
{
    if n > 0 {
        lemma_types_of_views(es, ts, n - 1);
        assert(types_of(es, n) == types_of(es, n - 1).push(type_of(es[n - 1])));
        assert(views_of(ts, n) == views_of(ts, n - 1).push(ts[n - 1]@));
    } else {
        assert(types_of(es, n) == Seq::<TypeView>::empty());
        assert(views_of(ts, n) == Seq::<TypeView>::empty());
    }
}

proof fn lemma_field_types_of_fields(fs: Seq<(String, Expression)>, ts: Seq<(String, Type)>, n: int)
    requires
        0 <= n <= fs.len(),
        fs.len() == ts.len(),
        forall|i: int|
            0 <= i < ts.len() ==> (#[trigger] fs[i]).0@ == ts[i].0@ && type_of(fs[i].1) == ts[i].1@,
    ensures
        field_types_of(fs, n) == fields_of(ts, n),
    decreases n,
{
    if n > 0 {
        lemma_field_types_of_fields(fs, ts, n - 1);
        assert(fs[n - 1].0@ == ts[n - 1].0@);
        assert(field_types_of(fs, n) == field_types_of(fs, n - 1).push(
            (fs[n - 1].0@, type_of(fs[n - 1].1)),
        ));
        assert(fields_of(ts, n) == fields_of(ts, n - 1).push((ts[n - 1].0@, ts[n - 1].1@)));
    } else {
        assert(field_types_of(fs, n) == Seq::<(Seq<char>, TypeView)>::empty());
        assert(fields_of(ts, n) == Seq::<(Seq<char>, TypeView)>::empty());
    }
}

/// What a generation run reports besides the program.
pub struct Diagnostics {
    /// The node kinds that failed and were replaced by fallbacks, in order.
    pub failed_nodes: Vec<NodeKind>,
    /// The deepest tuple nesting reached.
    pub peak_tuple_depth: u64,
    /// The deepest struct nesting reached.
    pub peak_struct_depth: u64,
    /// The selection manager that weighed the productions.
    pub selection: Ghost<SelectionManager>,
    /// Every use of a variable in the program, in order: its name, its
    /// ownership state just before the use, and the event the use applied.
    pub variable_uses: Ghost<Seq<(Seq<char>, OwnershipState, OwnershipEvent)>>,
}

/// The most constants a program declares.
pub const MAX_CONSTANTS: u64 = 9;

/// The most statements in the entry point's body.
pub const MAX_STATEMENTS: u64 = 8;

/// Every constant has a constant type and a literal of it, every statement
/// of the entry point is well typed within the tuple bound, and the entry
/// point is `main`.
pub open spec fn program_ok(p: Program, tuple_bound: nat) -> bool {
    &&& forall|i: int|
        0 <= i < p.constants@.len() ==> const_type((#[trigger] p.constants@[i]).variable_type@)
            && type_of(p.constants@[i].value) == p.constants@[i].variable_type@
    &&& forall|i: int|
        0 <= i < p.main_function.body.statements@.len() ==> statement_ok(
            #[trigger] p.main_function.body.statements@[i],
            tuple_bound,
        )
    &&& p.main_function.function_name@ == "main"@
    &&& p.main_function.return_type@ == TypeView::Void
}

/// Every struct declaration nests tuples in its fields at most `bound` deep.
pub open spec fn structs_fit(defs: Seq<StructDefinition>, bound: nat) -> bool {
    forall|a: int|
        0 <= a < defs.len() ==> tuple_depth(
            TypeView::Struct(Seq::empty(), #[trigger] definitions_view(defs)[a].1),
        ) <= bound
}

/// Under `profile` with outside table `table`, no production that a
/// constant may have can carry weight: the swarm profile (whose multipliers
/// are drawn) or an optimal table that weighs each of them 0.
pub open spec fn constant_weight_may_vanish(
    profile: SelectionProfile,
    table: Seq<(TypeProduction, u64)>,
) -> bool {
    ||| profile == SelectionProfile::Swarm
    ||| (profile == SelectionProfile::Optimal && forall|p: TypeProduction|
        #![trigger const_eligible(p)]
        const_eligible(p) ==> table_weight(table, p, table.len() as int) == Some(0u64))
}

/// Generates one program from `seed`: up to [`MAX_CONSTANTS`] constants,
/// then a `main` function whose body holds one to [`MAX_STATEMENTS`]
/// declarations, with the struct declarations that the generated types
/// registered, one per distinct shape. Under the optimal profile the
/// table's weights for the twelve productions must sum to at most
/// `u64::MAX`, the range of a draw.
///
/// When failing fast the first failure aborts the run, and a program that
/// comes back lists no failure; otherwise every failure is replaced by a
/// fallback and recorded in the diagnostics. It fails with
/// `NoViableProduction` only when failing fast and no production a constant
/// may have can carry weight, and with `NamesExhausted` only when failing
/// fast and a name counter ran out: under the base and aggressive profiles
/// nothing else can stop it.
///
/// The diagnostics log every use of a variable in `main`, in the order the
/// program refers to them; each use reads or moves, sees the state the
/// earlier uses of that variable left (valid at first), and was legal there:
/// no variable is used after it was moved, and none is borrowed. Every
/// declared struct type is among the program's struct declarations under
/// its name, and when no failure was recorded every constant and declared
/// type is built from productions of positive weight under the manager
/// recorded in the diagnostics.
pub fn generate_program(
    seed: u64,
    fail_fast: bool,
    max_depth: DepthBounds,
    selection_profile: SelectionProfile,
    optimal_weights: Vec<(TypeProduction, u64)>,
) -> (r: Result<(Program, Diagnostics), GenerationError>)
    requires
        selection_profile == SelectionProfile::Optimal ==> table_total(
            optimal_weights@,
            all_productions().len() as int,
        ) <= u64::MAX,
    ensures
        match r {
            Ok((p, d)) => {
                &&& program_ok(p, max_depth.tuple as nat)
                &&& 1 <= p.main_function.body.statements@.len() <= MAX_STATEMENTS
                &&& p.constants@.len() <= MAX_CONSTANTS
                &&& distinct_fields(definitions_view(p.structs@))
                &&& structs_fit(p.structs@, max_depth.tuple as nat)
                &&& fail_fast ==> d.failed_nodes@.len() == 0
                &&& log_names(d.variable_uses@) == block_refs(
                    p.main_function.body.statements@,
                    p.main_function.body.statements@.len() as int,
                )
                &&& uses_legal(d.variable_uses@)
                &&& uses_threaded(d.variable_uses@)
                &&& distinct_declarations(p.main_function.body.statements@)
                &&& forall|i: int|
                    0 <= i < p.main_function.body.statements@.len() && (
                    #[trigger] p.main_function.body.statements@[i]) is Declaration
                        && p.main_function.body.statements@[i]->Declaration_0.variable_type@ is Struct
                        ==> definitions_view(p.structs@).contains(
                        (
                            p.main_function.body.statements@[i]->Declaration_0.variable_type@->Struct_0,
                            p.main_function.body.statements@[i]->Declaration_0.variable_type@->Struct_1,
                        ),
                    )
                &&& d.selection@.spec_profile() == selection_profile
                &&& selection_profile != SelectionProfile::Swarm ==> d.selection@.spec_table()
                    == optimal_weights@
                &&& d.failed_nodes@.len() == 0 ==> {
                    &&& forall|j: int|
                        0 <= j < p.constants@.len() ==> weighted(
                            (#[trigger] p.constants@[j]).variable_type@,
                            d.selection@,
                        )
                    &&& all_declarations_weighted(p.main_function.body.statements@, d.selection@)
                }
            },
            Err(e) => fail_fast && (e == GenerationError::NamesExhausted || (e
                == GenerationError::NoViableProduction && constant_weight_may_vanish(
                selection_profile,
                optimal_weights@,
            ))),
        },
        (selection_profile == SelectionProfile::Base || selection_profile
            == SelectionProfile::Aggressive) ==> (r is Ok || r == Err::<
            (Program, Diagnostics),
            GenerationError,
        >(GenerationError::NamesExhausted)),
{
    let ghost table_view = optimal_weights@;
    let table = SymbolTable::new(FunctionSymbolTable::new(), GlobalSymbolTable::new());
    proof {
        let fs = table.frames();
        assert forall|n: Seq<char>| #[trigger] lookup(fs, n) is None by {
            assert(!frame_has(fs[0], n));
            assert(locate(fs, 0, n) == locate(fs, -1, n));
        }
    }
    let names = IdentGenerator::new();
    let mut generator = ASTGenerator::new(
        table,
        fail_fast,
        names,
        selection_profile,
        optimal_weights,
        seed,
    );
    let ghost manager = generator.manager();
    proof {
        lemma_vanishing_weights(manager, selection_profile, table_view);
    }
    let mut ctx = Context::default(
        NodeDepthState { tuple: 0, structure: 0, bounds: max_depth },
        String::from_str("main"),
        Vec::new(),
    );
    ctx.set_return_expression_type(Some(Type::VoidType));
    let count = generator.draw(MAX_CONSTANTS + 1);
    assert(registry_fits(generator.globals().decls(), max_depth.tuple as nat));
    let constants = match generator.generate_constants(&mut ctx, count) {
        Ok(cs) => cs,
        Err(e) => {
            return Err(e);
        },
    };
    let ghost failures_after_constants = ctx.failures();
    generator.enter_scope();
    let statements = 1 + generator.draw(MAX_STATEMENTS);
    let body = match generator.generate(&mut ctx, statements) {
        Ok(b) => b,
        Err(e) => {
            proof {
                if e == GenerationError::NoViableProduction {
                    if manager.constant_weighted() {
                        let p = choose|p: TypeProduction|
                            const_eligible(p) && #[trigger] manager.weight_of(p) > 0;
                        assert(p != TypeProduction::Tuple && p != TypeProduction::Struct);
                        assert(manager.primitive_weighted());
                    }
                }
            }
            return Err(e);
        },
    };
    let signature = Type::FunctionType(
        FunctionType { return_type: Box::new(Type::VoidType), args: Vec::new() },
    );
    let _ = generator.register_function(String::from_str("main"), signature);
    let structs = generator.struct_definitions();
    proof {
        let d = generator.globals().decls();
        let ss = body.statements@;
        assert forall|i: int|
            0 <= i < ss.len() && (#[trigger] ss[i]) is Declaration
                && ss[i]->Declaration_0.variable_type@ is Struct implies definitions_view(
            structs@,
        ).contains(
            (
                ss[i]->Declaration_0.variable_type@->Struct_0,
                ss[i]->Declaration_0.variable_type@->Struct_1,
            ),
        ) by {
            let t = ss[i]->Declaration_0.variable_type@;
            let fs = t->Struct_1;
            assert(registered_struct(t, d));
            assert forall|c: int| 0 <= c < d.len() && #[trigger] d[c].1 == TypeView::Struct(
                Seq::empty(),
                fs,
            ) implies struct_decls(d, d.len() as int).contains((d[c].0, fs)) by {
                lemma_struct_decls_contains(d, d.len() as int, c, fs);
            }
            assert(struct_shape(t) == TypeView::Struct(Seq::empty(), fs));
        }
        assert forall|a: int| 0 <= a < structs@.len() implies tuple_depth(
            TypeView::Struct(Seq::empty(), #[trigger] definitions_view(structs@)[a].1),
        ) <= max_depth.tuple as nat by {
            let k = choose|k: int|
                0 <= k < d.len() && #[trigger] d[k].1 == TypeView::Struct(
                    Seq::empty(),
                    definitions_view(structs@)[a].1,
                );
            assert(tuple_depth(d[k].1) <= max_depth.tuple as nat);
        }
    }
    let main_function = FunctionDefinition {
        return_type: Type::VoidType,
        function_name: String::from_str("main"),
        arguments: Vec::new(),
        body,
    };
    let failures = ctx.failed_nodes();
    let mut failed_nodes: Vec<NodeKind> = Vec::new();
    let mut j: usize = 0;
    while j < failures.len()
        invariant
            0 <= j <= failures@.len(),
            failed_nodes@ == failures@.subrange(0, j as int),
        decreases failures@.len() - j,
    {
        failed_nodes.push(failures[j]);
        assert(failed_nodes@ =~= failures@.subrange(0, j + 1));
        j = j + 1;
    }
    assert(failed_nodes@ =~= failures@);
    proof {
        generator.lemma_uses_legal();
        assert(log_names(Seq::<(Seq<char>, OwnershipState, OwnershipEvent)>::empty()) =~= Seq::<
            Seq<char>,
        >::empty());
        assert(Seq::<Seq<char>>::empty() + block_refs(
            main_function.body.statements@,
            main_function.body.statements@.len() as int,
        ) =~= block_refs(
            main_function.body.statements@,
            main_function.body.statements@.len() as int,
        ));
    }
    let diagnostics = Diagnostics {
        failed_nodes,
        peak_tuple_depth: ctx.peak_of(DepthKind::Tuple),
        peak_struct_depth: ctx.peak_of(DepthKind::Struct),
        variable_uses: Ghost(generator.use_log()),
        selection: Ghost(manager),
    };
    proof {
        if failed_nodes@.len() == 0 {
            assert(ctx.failures().len() == 0);
            assert(ctx.failures() =~= Seq::<NodeKind>::empty());
            assert(failures_after_constants.len() == 0);
            assert(failures_after_constants =~= Seq::<NodeKind>::empty());
        }
    }
    Ok((Program { constants, structs, main_function }, diagnostics))
}

/// How the manager's weights relate to the profile and the table it was
/// built from: the base and aggressive profiles always weigh `u8`, and the
/// optimal profile weighs a production 0 exactly where the table does.
proof fn lemma_vanishing_weights(
    m: SelectionManager,
    profile: SelectionProfile,
    table: Seq<(TypeProduction, u64)>,
)
    requires
        m.spec_profile() == profile,
        profile != SelectionProfile::Swarm ==> m.spec_table() == table,
    ensures
        !m.constant_weighted() ==> constant_weight_may_vanish(profile, table),
{
    if !m.constant_weighted() {
        if profile == SelectionProfile::Base || profile == SelectionProfile::Aggressive {
            assert(const_eligible(TypeProduction::U8) && m.weight_of(TypeProduction::U8) > 0);
        } else if profile == SelectionProfile::Optimal {
            assert forall|p: TypeProduction| #![trigger const_eligible(p)] const_eligible(p) implies table_weight(
                table,
                p,
                table.len() as int,
            ) == Some(0u64) by {
                assert(m.weight_of(p) == 0);
                assert(base_weight(p) > 0);
            }
        }
    }
}

/// The type a primitive production stands for.
fn primitive_type(p: TypeProduction) -> (r: Type)
    requires
        p != TypeProduction::Tuple,
        p != TypeProduction::Struct,
    ensures
        r@ == primitive_view(p),
{
    match p {
        TypeProduction::U8 => Type::U8Type,
        TypeProduction::U16 => Type::U16Type,
        TypeProduction::U32 => Type::U32Type,
        TypeProduction::U64 => Type::U64Type,
        TypeProduction::U128 => Type::U128Type,
        TypeProduction::U256 => Type::U256Type,
        TypeProduction::Felt252 => Type::Felt252Type,
        TypeProduction::USize => Type::USizeType,
        TypeProduction::Str => Type::StringType,
        TypeProduction::Bool => Type::BooleanType,
        _ => Type::VoidType,
    }
}

} // verus!
