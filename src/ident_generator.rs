use vstd::prelude::*;

use crate::decimal::{decimal, dec, lemma_digits_injective};

verus! {

/// The syntactic category of a generated identifier; each has its own prefix
/// and its own counter.
#[derive(Clone, Copy, Debug, PartialEq, Eq, Structural)]
pub enum NameKind {
    Variable,
    Const,
    Function,
    Struct,
}

/// The prefix of the names of a category.
pub open spec fn prefix(kind: NameKind) -> Seq<char> {
    match kind {
        NameKind::Variable => "let"@,
        NameKind::Const => "const"@,
        NameKind::Function => "fn"@,
        NameKind::Struct => "struct"@,
    }
}

/// The `n`-th name of a category, counting from one: its prefix followed by `n`.
pub open spec fn name_of(kind: NameKind, n: nat) -> Seq<char> {
    prefix(kind) + dec(n)
}

/// Allocates collision-free names, one counter per category.
pub struct IdentGenerator {
    variable_count: u64,
    const_count: u64,
    function_count: u64,
    struct_count: u64,
}

impl IdentGenerator {
    /// How many names of a category have been allocated.
    pub closed spec fn count(&self, kind: NameKind) -> nat {
        match kind {
            NameKind::Variable => self.variable_count as nat,
            NameKind::Const => self.const_count as nat,
            NameKind::Function => self.function_count as nat,
            NameKind::Struct => self.struct_count as nat,
        }
    }

    /// A counter never exceeds the largest `u64`.
    pub proof fn lemma_count_bounded(&self, kind: NameKind)
        ensures
            self.count(kind) <= u64::MAX,
    {
    }

    /// The names allocated so far.
    pub open spec fn issued(&self) -> Set<Seq<char>> {
        Set::new(
            |s: Seq<char>|
                exists|k: NameKind, n: nat| 1 <= n <= self.count(k) && s == #[trigger] name_of(k, n),
        )
    }

    /// An allocator that has issued no name.
    pub fn new() -> (r: Self)
        ensures
            forall|k: NameKind| r.count(k) == 0,
            r.issued() == Set::<Seq<char>>::empty(),
    {
        let r = IdentGenerator { variable_count: 0, const_count: 0, function_count: 0, struct_count: 0 };
        assert(r.issued() =~= Set::<Seq<char>>::empty());
        r
    }

    /// How many names of a category have been allocated.
    pub fn allocated(&self, kind: NameKind) -> (r: u64)
        ensures
            r == self.count(kind),
    {
        match kind {
            NameKind::Variable => self.variable_count,
            NameKind::Const => self.const_count,
            NameKind::Function => self.function_count,
            NameKind::Struct => self.struct_count,
        }
    }

    /// Allocates the next name of a category: its prefix followed by the
    /// category's count after the increment (`const1`, `const2`, ...). The
    /// name differs from every name allocated before.
    pub fn generate(&mut self, kind: NameKind) -> (r: String)
        requires
            old(self).count(kind) < u64::MAX,
        ensures
            r@ == name_of(kind, old(self).count(kind) + 1),
            final(self).count(kind) == old(self).count(kind) + 1,
            forall|k: NameKind| k != kind ==> final(self).count(k) == old(self).count(k),
            !old(self).issued().contains(r@),
            final(self).issued() == old(self).issued().insert(r@),
    {
        let n: u64 = match kind {
            NameKind::Variable => {
                self.variable_count = self.variable_count + 1;
                self.variable_count
            },
            NameKind::Const => {
                self.const_count = self.const_count + 1;
                self.const_count
            },
            NameKind::Function => {
                self.function_count = self.function_count + 1;
                self.function_count
            },
            NameKind::Struct => {
                self.struct_count = self.struct_count + 1;
                self.struct_count
            },
        };
        let mut r = match kind {
            NameKind::Variable => String::from_str("let"),
            NameKind::Const => String::from_str("const"),
            NameKind::Function => String::from_str("fn"),
            NameKind::Struct => String::from_str("struct"),
        };
        let digits_text = decimal(n as u128);
        r.append(digits_text.as_str());
        proof {
            let new_name = name_of(kind, n as nat);
            assert forall|k: NameKind, m: nat| 1 <= m <= old(self).count(k) implies name_of(k, m)
                != new_name by {
                lemma_names_distinct(k, m, kind, n as nat);
            }
            assert(final(self).issued() =~= old(self).issued().insert(r@)) by {
                assert forall|s: Seq<char>| #[trigger] final(self).issued().contains(s) implies old(
                    self,
                ).issued().insert(r@).contains(s) by {
                    let (k, m) = choose|k: NameKind, m: nat|
                        1 <= m <= final(self).count(k) && s == #[trigger] name_of(k, m);
                    if k == kind && m == n {
                    } else {
                        assert(1 <= m <= old(self).count(k) && s == name_of(k, m));
                    }
                }
                assert forall|s: Seq<char>| #[trigger] old(self).issued().insert(r@).contains(
                    s,
                ) implies final(self).issued().contains(s) by {
                    if s == r@ {
                        assert(1 <= n <= final(self).count(kind) && s == name_of(kind, n as nat));
                    } else {
                        let (k, m) = choose|k: NameKind, m: nat|
                            1 <= m <= old(self).count(k) && s == #[trigger] name_of(k, m);
                        assert(1 <= m <= final(self).count(k) && s == name_of(k, m));
                    }
                }
            }
        }
        r
    }

    /// The next variable name.
    pub fn generate_variable(&mut self) -> (r: String)
        requires
            old(self).count(NameKind::Variable) < u64::MAX,
        ensures
            r@ == name_of(NameKind::Variable, old(self).count(NameKind::Variable) + 1),
            final(self).count(NameKind::Variable) == old(self).count(NameKind::Variable) + 1,
            forall|k: NameKind| k != NameKind::Variable ==> final(self).count(k) == old(self).count(k),
            !old(self).issued().contains(r@),
            final(self).issued() == old(self).issued().insert(r@),
    {
        self.generate(NameKind::Variable)
    }

    /// The next constant name.
    pub fn generate_const(&mut self) -> (r: String)
        requires
            old(self).count(NameKind::Const) < u64::MAX,
        ensures
            r@ == name_of(NameKind::Const, old(self).count(NameKind::Const) + 1),
            final(self).count(NameKind::Const) == old(self).count(NameKind::Const) + 1,
            forall|k: NameKind| k != NameKind::Const ==> final(self).count(k) == old(self).count(k),
            !old(self).issued().contains(r@),
            final(self).issued() == old(self).issued().insert(r@),
    {
        self.generate(NameKind::Const)
    }

    /// The next function name.
    pub fn generate_function_name(&mut self) -> (r: String)
        requires
            old(self).count(NameKind::Function) < u64::MAX,
        ensures
            r@ == name_of(NameKind::Function, old(self).count(NameKind::Function) + 1),
            final(self).count(NameKind::Function) == old(self).count(NameKind::Function) + 1,
            forall|k: NameKind| k != NameKind::Function ==> final(self).count(k) == old(self).count(k),
            !old(self).issued().contains(r@),
            final(self).issued() == old(self).issued().insert(r@),
    {
        self.generate(NameKind::Function)
    }

    /// The next struct name.
    pub fn generate_struct_name(&mut self) -> (r: String)
        requires
            old(self).count(NameKind::Struct) < u64::MAX,
        ensures
            r@ == name_of(NameKind::Struct, old(self).count(NameKind::Struct) + 1),
            final(self).count(NameKind::Struct) == old(self).count(NameKind::Struct) + 1,
            forall|k: NameKind| k != NameKind::Struct ==> final(self).count(k) == old(self).count(k),
            !old(self).issued().contains(r@),
            final(self).issued() == old(self).issued().insert(r@),
    {
        self.generate(NameKind::Struct)
    }
}

/// Two allocations never yield the same name: names of different categories
/// differ in their first character, and names of one category differ in their
/// number.
pub proof fn lemma_names_distinct(k1: NameKind, n1: nat, k2: NameKind, n2: nat)
    requires
        n1 >= 1,
        n2 >= 1,
        k1 != k2 || n1 != n2,
    ensures
        name_of(k1, n1) != name_of(k2, n2),
{
    reveal_strlit("let");
    reveal_strlit("const");
    reveal_strlit("fn");
    reveal_strlit("struct");
    let a = name_of(k1, n1);
    let b = name_of(k2, n2);
    if k1 != k2 {
        assert(a[0] == prefix(k1)[0]);
        assert(b[0] == prefix(k2)[0]);
    } else if a == b {
        let p = prefix(k1);
        assert(dec(n1) =~= a.subrange(p.len() as int, a.len() as int));
        assert(dec(n2) =~= b.subrange(p.len() as int, b.len() as int));
        lemma_digits_injective(n1, n2);
    }
}

/// Names handed out by a run of allocations are pairwise distinct, when
/// each call's name lies outside the names issued before it and the issued
/// names grow by exactly that name, as [`IdentGenerator::generate`] ensures.
/// `issued[i]` is the issued set before the `i`-th call.
pub proof fn lemma_allocations_distinct(names: Seq<Seq<char>>, issued: Seq<Set<Seq<char>>>)
    requires
        issued.len() == names.len() + 1,
        forall|i: int|
            0 <= i < names.len() ==> !issued[i].contains(#[trigger] names[i]) && issued[i + 1]
                == issued[i].insert(names[i]),
    ensures
        forall|i: int, j: int| 0 <= i < j < names.len() ==> #[trigger] names[i] != #[trigger] names[j],
{
    assert forall|i: int, j: int| 0 <= i < j < names.len() implies #[trigger] names[i]
        != #[trigger] names[j] by {
        lemma_issued_grows(names, issued, i + 1, j);
        assert(issued[i + 1].contains(names[i]));
        assert(!issued[j].contains(names[j]));
    }
}

proof fn lemma_issued_grows(names: Seq<Seq<char>>, issued: Seq<Set<Seq<char>>>, a: int, b: int)
    requires
        issued.len() == names.len() + 1,
        forall|i: int|
            0 <= i < names.len() ==> !issued[i].contains(#[trigger] names[i]) && issued[i + 1]
                == issued[i].insert(names[i]),
        0 <= a <= b < issued.len(),
    ensures
        issued[a].subset_of(issued[b]),
    decreases b - a,
{
    if a < b {
        lemma_issued_grows(names, issued, a, b - 1);
        assert(issued[b] == issued[b - 1].insert(names[b - 1]));
    }
}

} // verus!
