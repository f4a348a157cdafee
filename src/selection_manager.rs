use vstd::prelude::*;

use rand::rngs::StdRng;

use crate::context::{Context, DepthKind};
use crate::random::draw_below;

verus! {

/// The highest per-production multiplier the swarm profile draws.
pub const MAX_SWARM_MULTIPLIER: u64 = 4;

/// A production of the type nonterminal.
#[derive(Clone, Copy, Debug, PartialEq, Eq, Structural)]
pub enum TypeProduction {
    U8,
    U16,
    U32,
    U64,
    U128,
    U256,
    Felt252,
    USize,
    Str,
    Bool,
    Tuple,
    Struct,
}

/// Every type production, in a fixed order.
pub open spec fn all_productions() -> Seq<TypeProduction> {
    seq![
        TypeProduction::U8,
        TypeProduction::U16,
        TypeProduction::U32,
        TypeProduction::U64,
        TypeProduction::U128,
        TypeProduction::U256,
        TypeProduction::Felt252,
        TypeProduction::USize,
        TypeProduction::Str,
        TypeProduction::Bool,
        TypeProduction::Tuple,
        TypeProduction::Struct,
    ]
}

/// The position of a production in [`all_productions`].
pub open spec fn production_index(p: TypeProduction) -> int {
    match p {
        TypeProduction::U8 => 0,
        TypeProduction::U16 => 1,
        TypeProduction::U32 => 2,
        TypeProduction::U64 => 3,
        TypeProduction::U128 => 4,
        TypeProduction::U256 => 5,
        TypeProduction::Felt252 => 6,
        TypeProduction::USize => 7,
        TypeProduction::Str => 8,
        TypeProduction::Bool => 9,
        TypeProduction::Tuple => 10,
        TypeProduction::Struct => 11,
    }
}

fn all_production_list() -> (r: Vec<TypeProduction>)
    ensures
        r@ == all_productions(),
{
    let r = vec![
        TypeProduction::U8,
        TypeProduction::U16,
        TypeProduction::U32,
        TypeProduction::U64,
        TypeProduction::U128,
        TypeProduction::U256,
        TypeProduction::Felt252,
        TypeProduction::USize,
        TypeProduction::Str,
        TypeProduction::Bool,
        TypeProduction::Tuple,
        TypeProduction::Struct,
    ];
    assert(r@ =~= all_productions());
    r
}

/// A type a constant may have: a literal of it exists and it is not a string.
pub open spec fn const_eligible(p: TypeProduction) -> bool {
    match p {
        TypeProduction::Str | TypeProduction::Tuple | TypeProduction::Struct => false,
        _ => true,
    }
}

/// The sum of the first `n` weights of `ws`.
pub open spec fn total(ws: Seq<(TypeProduction, u64)>, n: int) -> nat
    decreases n,
{
    if 0 < n <= ws.len() {
        total(ws, n - 1) + ws[n - 1].1 as nat
    } else {
        0
    }
}

/// Candidate productions with their weights.
pub struct NodeSelectionWeighting {
    pub weightings: Vec<(TypeProduction, u64)>,
}

impl NodeSelectionWeighting {
    /// Distinct candidates whose weights sum to at most `u64::MAX`, so that a
    /// draw below the sum is a `u64`.
    pub open spec fn wf(&self) -> bool {
        &&& self.sum() <= u64::MAX
        &&& forall|i: int, j: int|
            0 <= i < j < self.weightings@.len() ==> #[trigger] self.weightings@[i].0
                != #[trigger] self.weightings@[j].0
    }

    /// The sum of all weights.
    pub open spec fn sum(&self) -> nat {
        total(self.weightings@, self.weightings@.len() as int)
    }

    /// No candidates.
    pub fn new() -> (r: Self)
        ensures
            r.wf(),
            r.weightings@.len() == 0,
    {
        NodeSelectionWeighting { weightings: Vec::new() }
    }

    /// Sets the weight of `type_id`, adding it as a candidate if it is not one.
    pub fn add_weighting(&mut self, type_id: TypeProduction, weighting: u64)
        requires
            old(self).wf(),
            old(self).sum() + weighting <= u64::MAX,
        ensures
            final(self).wf(),
            (exists|i: int| 0 <= i < old(self).weightings@.len() && old(self).weightings@[i].0 == type_id)
                ==> exists|i: int|
                0 <= i < old(self).weightings@.len() && old(self).weightings@[i].0 == type_id
                    && final(self).weightings@ == old(self).weightings@.update(i, (type_id, weighting)),
            (forall|i: int| 0 <= i < old(self).weightings@.len() ==> old(self).weightings@[i].0 != type_id)
                ==> final(self).weightings@ == old(self).weightings@.push((type_id, weighting)),
    {
        let mut i: usize = 0;
        while i < self.weightings.len()
            invariant
                0 <= i <= self.weightings@.len(),
                *self == *old(self),
                old(self).wf(),
                old(self).sum() + weighting <= u64::MAX,
                forall|k: int| 0 <= k < i ==> #[trigger] self.weightings@[k].0 != type_id,
            decreases self.weightings@.len() - i,
        {
            if self.weightings[i].0 == type_id {
                self.weightings.set(i, (type_id, weighting));
                proof {
                    let ws = self.weightings@;
                    lemma_total_update(
                        old(self).weightings@,
                        i as int,
                        (type_id, weighting),
                        ws.len() as int,
                    );
                    assert forall|a: int, b: int| 0 <= a < b < ws.len() implies #[trigger] ws[a].0
                        != #[trigger] ws[b].0 by {
                        assert(old(self).weightings@[a].0 != old(self).weightings@[b].0);
                    }
                }
                return;
            }
            i = i + 1;
        }
        self.weightings.push((type_id, weighting));
        proof {
            let ws = self.weightings@;
            lemma_total_push(old(self).weightings@, (type_id, weighting), 0);
            assert forall|a: int, b: int| 0 <= a < b < ws.len() implies #[trigger] ws[a].0
                != #[trigger] ws[b].0 by {
                if b < old(self).weightings@.len() {
                    assert(old(self).weightings@[a].0 != old(self).weightings@[b].0);
                }
            }
        }
    }

    /// The sum of all weights.
    pub fn total_weight(&self) -> (r: u64)
        requires
            self.wf(),
        ensures
            r == self.sum(),
    {
        let mut sum: u64 = 0;
        let mut i: usize = 0;
        while i < self.weightings.len()
            invariant
                self.wf(),
                0 <= i <= self.weightings@.len(),
                sum == total(self.weightings@, i as int),
            decreases self.weightings@.len() - i,
        {
            proof {
                lemma_total_mono(self.weightings@, i + 1, self.weightings@.len() as int);
            }
            sum = sum + self.weightings[i].1;
            i = i + 1;
        }
        sum
    }

    /// The candidate whose cumulative-weight interval holds `draw`: the `i`-th
    /// one when the weights before it sum to at most `draw` and those up to it
    /// sum to more. `None` when `draw` is not below the sum of all weights.
    pub fn pick_random_by_weight(&self, draw: u64) -> (r: Option<TypeProduction>)
        requires
            self.wf(),
        ensures
            match r {
                Some(p) => exists|i: int|
                    0 <= i < self.weightings@.len() && total(self.weightings@, i) <= draw < total(
                        self.weightings@,
                        i + 1,
                    ) && self.weightings@[i].0 == p,
                None => draw >= self.sum(),
            },
    {
        let mut acc: u64 = 0;
        let mut i: usize = 0;
        while i < self.weightings.len()
            invariant
                self.wf(),
                0 <= i <= self.weightings@.len(),
                acc == total(self.weightings@, i as int),
                draw >= acc,
            decreases self.weightings@.len() - i,
        {
            proof {
                lemma_total_mono(self.weightings@, i + 1, self.weightings@.len() as int);
            }
            let next = acc + self.weightings[i].1;
            if draw < next {
                assert(total(self.weightings@, i as int + 1) == next);
                return Some(self.weightings[i].0);
            }
            acc = next;
            i = i + 1;
        }
        None
    }

    /// Draws a candidate with probability proportional to its weight; `None`
    /// when the weights sum to zero (no viable production).
    pub fn select(&self, rng: &mut StdRng) -> (r: Option<TypeProduction>)
        requires
            self.wf(),
        ensures
            r is None <==> self.sum() == 0,
            r matches Some(p) ==> exists|i: int|
                0 <= i < self.weightings@.len() && self.weightings@[i].0 == p
                    && self.weightings@[i].1 > 0,
    {
        let sum = self.total_weight();
        if sum == 0 {
            return None;
        }
        let draw = draw_below(rng, sum);
        let r = self.pick_random_by_weight(draw);
        proof {
            if let Some(p) = r {
                let i = choose|i: int|
                    0 <= i < self.weightings@.len() && total(self.weightings@, i) <= draw < total(
                        self.weightings@,
                        i + 1,
                    ) && self.weightings@[i].0 == p;
                assert(total(self.weightings@, i + 1) == total(self.weightings@, i)
                    + self.weightings@[i].1);
            }
        }
        r
    }
}

/// How production weights are computed.
#[derive(Clone, Copy, Debug, PartialEq, Eq, Structural)]
pub enum SelectionProfile {
    /// Fixed per-kind constants.
    Base,
    /// The base weights times a multiplier drawn once per run.
    Swarm,
    /// Weights taken from an outside coverage table.
    Optimal,
    /// Base weights with recursive composites favoured.
    Aggressive,
}

/// The fixed weight of a production.
pub open spec fn base_weight(p: TypeProduction) -> u64 {
    match p {
        TypeProduction::Str => 5,
        TypeProduction::Tuple => 4,
        TypeProduction::Struct => 3,
        _ => 10,
    }
}

/// The weight of the last entry for `p` among the first `n` of `table`.
pub open spec fn table_weight(table: Seq<(TypeProduction, u64)>, p: TypeProduction, n: int) -> Option<
    u64,
>
    decreases n,
{
    if 0 < n <= table.len() {
        if table[n - 1].0 == p {
            Some(table[n - 1].1)
        } else {
            table_weight(table, p, n - 1)
        }
    } else {
        None
    }
}

/// The weight the optimal profile gives `p` under `table`: the table's last
/// entry for `p`, else the fixed weight.
pub open spec fn optimal_weight(table: Seq<(TypeProduction, u64)>, p: TypeProduction) -> u64 {
    match table_weight(table, p, table.len() as int) {
        Some(w) => w,
        None => base_weight(p),
    }
}

/// The sum of the optimal-profile weights of the first `n` productions.
pub open spec fn table_total(table: Seq<(TypeProduction, u64)>, n: int) -> nat
    decreases n,
{
    if 0 < n <= all_productions().len() {
        table_total(table, n - 1) + optimal_weight(table, all_productions()[n - 1]) as nat
    } else {
        0
    }
}

/// Computes production weights under one profile.
pub struct SelectionManager {
    profile: SelectionProfile,
    multipliers: Vec<u64>,
    optimal: Vec<(TypeProduction, u64)>,
}

impl SelectionManager {
    /// The profile in use.
    pub closed spec fn spec_profile(&self) -> SelectionProfile {
        self.profile
    }

    /// The swarm multipliers, one per production in the order of [`all_productions`].
    pub closed spec fn spec_multipliers(&self) -> Seq<u64> {
        self.multipliers@
    }

    /// The outside weight table that the optimal profile reads.
    pub closed spec fn spec_table(&self) -> Seq<(TypeProduction, u64)> {
        self.optimal@
    }

    /// One multiplier per production, none above [`MAX_SWARM_MULTIPLIER`], and
    /// the weights of all productions sum to at most `u64::MAX`.
    pub open spec fn wf(&self) -> bool {
        &&& self.spec_multipliers().len() == all_productions().len()
        &&& forall|i: int|
            0 <= i < self.spec_multipliers().len() ==> #[trigger] self.spec_multipliers()[i]
                <= MAX_SWARM_MULTIPLIER
        &&& self.total_all(all_productions().len() as int) <= u64::MAX
    }

    /// The sum of the weights of the first `n` productions.
    pub open spec fn total_all(&self, n: int) -> nat
        decreases n,
    {
        if 0 < n <= all_productions().len() {
            self.total_all(n - 1) + self.weight_of(all_productions()[n - 1]) as nat
        } else {
            0
        }
    }

    /// The weight of production `p` under this profile: the fixed constants
    /// for the base profile, times the drawn multiplier for the swarm profile,
    /// the table's last entry for `p` (else the constant) for the optimal
    /// profile, and four times the constant for recursive composites under
    /// the aggressive profile.
    pub open spec fn weight_of(&self, p: TypeProduction) -> u64 {
        match self.spec_profile() {
            SelectionProfile::Base => base_weight(p),
            SelectionProfile::Swarm => (base_weight(p) * self.spec_multipliers()[production_index(
                p,
            )]) as u64,
            SelectionProfile::Optimal => match table_weight(
                self.spec_table(),
                p,
                self.spec_table().len() as int,
            ) {
                Some(w) => w,
                None => base_weight(p),
            },
            SelectionProfile::Aggressive => match p {
                TypeProduction::Tuple | TypeProduction::Struct => (base_weight(p) * 4) as u64,
                _ => base_weight(p),
            },
        }
    }

    /// Some non-recursive production has positive weight.
    pub open spec fn primitive_weighted(&self) -> bool {
        exists|p: TypeProduction|
            p != TypeProduction::Tuple && p != TypeProduction::Struct && #[trigger] self.weight_of(p)
                > 0
    }

    /// Some production that a constant may have has positive weight.
    pub open spec fn constant_weighted(&self) -> bool {
        exists|p: TypeProduction| const_eligible(p) && #[trigger] self.weight_of(p) > 0
    }

    fn unit_multipliers() -> (r: Vec<u64>)
        ensures
            r@.len() == all_productions().len(),
            forall|i: int| 0 <= i < r@.len() ==> #[trigger] r@[i] == 1,
    {
        let mut r: Vec<u64> = Vec::new();
        let mut i: usize = 0;
        while i < 12
            invariant
                0 <= i <= 12,
                r@.len() == i,
                forall|k: int| 0 <= k < i ==> #[trigger] r@[k] == 1,
            decreases 12 - i,
        {
            r.push(1);
            i = i + 1;
        }
        r
    }

    /// A manager with the given profile: the base profile ignores the table,
    /// and the optimal profile reads it; the swarm multipliers start at one
    /// (see [`SelectionManager::swarm`]).
    pub fn new(profile: SelectionProfile, optimal: Vec<(TypeProduction, u64)>) -> (r: Self)
        requires
            profile == SelectionProfile::Optimal ==> table_total(
                optimal@,
                all_productions().len() as int,
            ) <= u64::MAX,
        ensures
            r.wf(),
            r.spec_profile() == profile,
            r.spec_table() == optimal@,
            forall|i: int| 0 <= i < r.spec_multipliers().len() ==> #[trigger] r.spec_multipliers()[i] == 1,
    {
        let r = SelectionManager { profile, multipliers: Self::unit_multipliers(), optimal };
        proof {
            if profile == SelectionProfile::Optimal {
                lemma_total_all_table(r, all_productions().len() as int);
            } else {
                assert forall|p: TypeProduction| #[trigger] r.weight_of(p) <= 40 by {
                    assert(r.spec_multipliers()[production_index(p)] == 1);
                }
                lemma_total_all_small(r, all_productions().len() as int);
            }
        }
        r
    }

    /// A swarm manager with the given per-production multipliers.
    pub fn swarm_from(multipliers: Vec<u64>) -> (r: Self)
        requires
            multipliers@.len() == all_productions().len(),
            forall|i: int| 0 <= i < multipliers@.len() ==> #[trigger] multipliers@[i] <= MAX_SWARM_MULTIPLIER,
        ensures
            r.wf(),
            r.spec_profile() == SelectionProfile::Swarm,
            r.spec_multipliers() == multipliers@,
            r.spec_table().len() == 0,
    {
        let r = SelectionManager { profile: SelectionProfile::Swarm, multipliers, optimal: Vec::new() };
        proof {
            assert forall|p: TypeProduction| #[trigger] r.weight_of(p) <= 40 by {
                let m = r.spec_multipliers()[production_index(p)];
                assert(m <= 4);
                assert(base_weight(p) <= 10);
                assert(base_weight(p) * m <= 40) by (nonlinear_arith)
                    requires
                        base_weight(p) <= 10,
                        m <= 4,
                ;
            }
            lemma_total_all_small(r, all_productions().len() as int);
        }
        r
    }

    /// A swarm manager: one multiplier in `[0, MAX_SWARM_MULTIPLIER]` drawn per
    /// production, once, at the start of a run.
    pub fn swarm(rng: &mut StdRng) -> (r: Self)
        ensures
            r.wf(),
            r.spec_profile() == SelectionProfile::Swarm,
            r.spec_table().len() == 0,
    {
        let mut multipliers: Vec<u64> = Vec::new();
        let mut i: usize = 0;
        while i < 12
            invariant
                0 <= i <= 12,
                multipliers@.len() == i,
                forall|k: int| 0 <= k < i ==> #[trigger] multipliers@[k] <= MAX_SWARM_MULTIPLIER,
            decreases 12 - i,
        {
            let m = draw_below(rng, MAX_SWARM_MULTIPLIER + 1);
            multipliers.push(m);
            i = i + 1;
        }
        Self::swarm_from(multipliers)
    }

    /// The profile in use.
    pub fn profile(&self) -> (r: SelectionProfile)
        ensures
            r == self.spec_profile(),
    {
        self.profile
    }

    /// The weight of production `p` under this profile.
    pub fn weight(&self, p: TypeProduction) -> (r: u64)
        requires
            self.wf(),
        ensures
            r == self.weight_of(p),
    {
        let base: u64 = match p {
            TypeProduction::Str => 5,
            TypeProduction::Tuple => 4,
            TypeProduction::Struct => 3,
            _ => 10,
        };
        match self.profile {
            SelectionProfile::Base => base,
            SelectionProfile::Swarm => {
                let idx: usize = match p {
                    TypeProduction::U8 => 0,
                    TypeProduction::U16 => 1,
                    TypeProduction::U32 => 2,
                    TypeProduction::U64 => 3,
                    TypeProduction::U128 => 4,
                    TypeProduction::U256 => 5,
                    TypeProduction::Felt252 => 6,
                    TypeProduction::USize => 7,
                    TypeProduction::Str => 8,
                    TypeProduction::Bool => 9,
                    TypeProduction::Tuple => 10,
                    TypeProduction::Struct => 11,
                };
                assert(self.multipliers@[idx as int] <= MAX_SWARM_MULTIPLIER);
                base * self.multipliers[idx]
            },
            SelectionProfile::Optimal => {
                let mut found: Option<u64> = None;
                let mut i: usize = 0;
                while i < self.optimal.len()
                    invariant
                        self.wf(),
                        0 <= i <= self.optimal@.len(),
                        found == table_weight(self.optimal@, p, i as int),
                    decreases self.optimal@.len() - i,
                {
                    if self.optimal[i].0 == p {
                        found = Some(self.optimal[i].1);
                    }
                    i = i + 1;
                }
                match found {
                    Some(w) => w,
                    None => base,
                }
            },
            SelectionProfile::Aggressive => match p {
                TypeProduction::Tuple | TypeProduction::Struct => base * 4,
                _ => base,
            },
        }
    }

    /// The type productions allowed in `ctx` with their weights, in the order
    /// of [`all_productions`]. A recursive production whose nesting would
    /// exceed its bound is left out.
    pub fn available_types_weightings(&self, ctx: &Context) -> (r: NodeSelectionWeighting)
        requires
            self.wf(),
        ensures
            r.wf(),
            r.weightings@ == self.filtered(ctx, all_productions().len() as int),
    {
        self.weightings_where(ctx, false)
    }

    /// The productions a constant may have, with their weights.
    pub fn constant_types_weightings(&self, ctx: &Context) -> (r: NodeSelectionWeighting)
        requires
            self.wf(),
        ensures
            r.wf(),
            r.weightings@ == self.filtered_const(all_productions().len() as int),
            forall|i: int|
                0 <= i < r.weightings@.len() ==> const_eligible(#[trigger] r.weightings@[i].0),
    {
        let r = self.weightings_where(ctx, true);
        proof {
            lemma_filtered_const_eligible(*self, all_productions().len() as int);
        }
        r
    }

    /// The allowed productions among the first `n`, with their weights.
    pub open spec fn filtered(&self, ctx: &Context, n: int) -> Seq<(TypeProduction, u64)>
        decreases n,
    {
        if 0 < n <= all_productions().len() {
            let p = all_productions()[n - 1];
            if allowed(p, ctx) {
                self.filtered(ctx, n - 1).push((p, self.weight_of(p)))
            } else {
                self.filtered(ctx, n - 1)
            }
        } else {
            Seq::empty()
        }
    }

    /// The constant-eligible productions among the first `n`, with their weights.
    pub open spec fn filtered_const(&self, n: int) -> Seq<(TypeProduction, u64)>
        decreases n,
    {
        if 0 < n <= all_productions().len() {
            let p = all_productions()[n - 1];
            if const_eligible(p) {
                self.filtered_const(n - 1).push((p, self.weight_of(p)))
            } else {
                self.filtered_const(n - 1)
            }
        } else {
            Seq::empty()
        }
    }

    fn weightings_where(&self, ctx: &Context, constants: bool) -> (r: NodeSelectionWeighting)
        requires
            self.wf(),
        ensures
            r.wf(),
            !constants ==> r.weightings@ == self.filtered(ctx, all_productions().len() as int),
            constants ==> r.weightings@ == self.filtered_const(all_productions().len() as int),
    {
        let all = all_production_list();
        let mut r = NodeSelectionWeighting::new();
        proof {
            lemma_filtered_le_all(*self, ctx, all_productions().len() as int);
        }
        let mut i: usize = 0;
        while i < all.len()
            invariant
                self.wf(),
                all@ == all_productions(),
                0 <= i <= all@.len(),
                r.wf(),
                r.weightings@.len() <= i,
                !constants ==> r.weightings@ == self.filtered(ctx, i as int),
                constants ==> r.weightings@ == self.filtered_const(i as int),
                forall|a: int, b: int|
                    0 <= a < r.weightings@.len() && i <= b < all@.len() ==> #[trigger] r.weightings@[a].0
                        != #[trigger] all@[b],
            decreases all@.len() - i,
        {
            let p = all[i];
            let keep = if constants {
                match p {
                    TypeProduction::Str | TypeProduction::Tuple | TypeProduction::Struct => false,
                    _ => true,
                }
            } else {
                match p {
                    TypeProduction::Tuple => ctx.can_enter(DepthKind::Tuple),
                    TypeProduction::Struct => ctx.can_enter(DepthKind::Struct),
                    _ => true,
                }
            };
            if keep {
                let w = self.weight(p);
                let ghost before = r.weightings@;
                r.weightings.push((p, w));
                proof {
                    lemma_total_push(before, (p, w), 0);
                    lemma_filtered_le_all(*self, ctx, i + 1);
                    lemma_total_all_mono(*self, i + 1, all_productions().len() as int);
                    if constants {
                        assert(self.filtered_const(i + 1) == before.push((p, w)));
                    } else {
                        assert(self.filtered(ctx, i + 1) == before.push((p, w)));
                    }
                    let ws = r.weightings@;
                    assert forall|a: int, b: int| 0 <= a < b < ws.len() implies #[trigger] ws[a].0
                        != #[trigger] ws[b].0 by {
                        if b == before.len() {
                            assert(before[a].0 != all@[i as int]);
                        }
                    }
                    assert forall|a: int, b: int|
                        0 <= a < ws.len() && i + 1 <= b < all@.len() implies #[trigger] ws[a].0
                            != #[trigger] all@[b] by {
                        if a == before.len() {
                            assert(all@[i as int] != all@[b]);
                        }
                    }
                }
            }
            i = i + 1;
        }
        r
    }
}

/// Whether a production is allowed by the depth bounds of `ctx`.
pub open spec fn allowed(p: TypeProduction, ctx: &Context) -> bool {
    match p {
        TypeProduction::Tuple => ctx.depth(DepthKind::Tuple) + 1 <= ctx.limits().bound(
            DepthKind::Tuple,
        ),
        TypeProduction::Struct => ctx.depth(DepthKind::Struct) + 1 <= ctx.limits().bound(
            DepthKind::Struct,
        ),
        _ => true,
    }
}

proof fn lemma_filtered_const_eligible(m: SelectionManager, n: int)
    ensures
        forall|i: int|
            0 <= i < m.filtered_const(n).len() ==> const_eligible(#[trigger] m.filtered_const(n)[i].0),
    decreases n,
{
    if 0 < n <= all_productions().len() {
        lemma_filtered_const_eligible(m, n - 1);
        let p = all_productions()[n - 1];
        assert(m.filtered_const(n) == if const_eligible(p) {
            m.filtered_const(n - 1).push((p, m.weight_of(p)))
        } else {
            m.filtered_const(n - 1)
        });
    } else {
        assert(m.filtered_const(n).len() == 0);
    }
}

/// Every production that survives the depth filter is allowed in `ctx`.
pub proof fn lemma_filtered_allowed(m: SelectionManager, ctx: &Context, n: int)
    ensures
        forall|i: int|
            0 <= i < m.filtered(ctx, n).len() ==> allowed(#[trigger] m.filtered(ctx, n)[i].0, ctx),
    decreases n,
{
    if 0 < n <= all_productions().len() {
        lemma_filtered_allowed(m, ctx, n - 1);
        let p = all_productions()[n - 1];
        assert(m.filtered(ctx, n) == if allowed(p, ctx) {
            m.filtered(ctx, n - 1).push((p, m.weight_of(p)))
        } else {
            m.filtered(ctx, n - 1)
        });
    } else {
        assert(m.filtered(ctx, n).len() == 0);
    }
}

proof fn lemma_total_prefix(s: Seq<(TypeProduction, u64)>, x: (TypeProduction, u64), k: int)
    requires
        0 <= k <= s.len(),
    ensures
        total(s.push(x), k) == total(s, k),
    decreases k,
{
    if k > 0 {
        lemma_total_prefix(s, x, k - 1);
        assert(s.push(x)[k - 1] == s[k - 1]);
        assert(total(s.push(x), k) == total(s.push(x), k - 1) + s.push(x)[k - 1].1);
        assert(total(s, k) == total(s, k - 1) + s[k - 1].1);
    } else {
        assert(total(s.push(x), 0) == 0);
        assert(total(s, 0) == 0);
    }
}

proof fn lemma_total_push(s: Seq<(TypeProduction, u64)>, x: (TypeProduction, u64), k: int)
    requires
        0 <= k <= s.len(),
    ensures
        total(s.push(x), k) == total(s, k),
        total(s.push(x), s.len() as int + 1) == total(s, s.len() as int) + x.1,
{
    lemma_total_prefix(s, x, k);
    lemma_total_prefix(s, x, s.len() as int);
    assert(total(s.push(x), s.len() as int + 1) == total(s.push(x), s.len() as int) + s.push(x)[s.len() as int].1);
}

/// A production the depth bounds allow carries its weight into the filtered
/// candidates' total.
pub proof fn lemma_filtered_total(m: SelectionManager, ctx: &Context, p: TypeProduction, n: int)
    requires
        allowed(p, ctx),
        production_index(p) < n <= all_productions().len(),
    ensures
        total(m.filtered(ctx, n), m.filtered(ctx, n).len() as int) >= m.weight_of(p),
    decreases n,
{
    let q = all_productions()[n - 1];
    let prev = m.filtered(ctx, n - 1);
    if production_index(p) < n - 1 {
        lemma_filtered_total(m, ctx, p, n - 1);
    }
    if allowed(q, ctx) {
        assert(m.filtered(ctx, n) == prev.push((q, m.weight_of(q))));
        lemma_total_push(prev, (q, m.weight_of(q)), prev.len() as int);
        if production_index(p) == n - 1 {
            assert(q == p);
        }
    } else {
        assert(m.filtered(ctx, n) == prev);
        assert(production_index(p) != n - 1);
    }
}

/// A production a constant may have carries its weight into the total of
/// the constant candidates.
pub proof fn lemma_filtered_const_total(m: SelectionManager, p: TypeProduction, n: int)
    requires
        const_eligible(p),
        production_index(p) < n <= all_productions().len(),
    ensures
        total(m.filtered_const(n), m.filtered_const(n).len() as int) >= m.weight_of(p),
    decreases n,
{
    let q = all_productions()[n - 1];
    let prev = m.filtered_const(n - 1);
    if production_index(p) < n - 1 {
        lemma_filtered_const_total(m, p, n - 1);
    }
    if const_eligible(q) {
        assert(m.filtered_const(n) == prev.push((q, m.weight_of(q))));
        lemma_total_push(prev, (q, m.weight_of(q)), prev.len() as int);
        if production_index(p) == n - 1 {
            assert(q == p);
        }
    } else {
        assert(m.filtered_const(n) == prev);
        assert(production_index(p) != n - 1);
    }
}

/// Filtered candidates carry only positive-weight productions into a
/// positive total: a zero total means every listed weight is zero.
pub proof fn lemma_filtered_weights(m: SelectionManager, ctx: &Context, n: int)
    requires
        0 <= n <= all_productions().len(),
    ensures
        forall|i: int|
            0 <= i < m.filtered(ctx, n).len() ==> #[trigger] m.filtered(ctx, n)[i].1 == m.weight_of(
                m.filtered(ctx, n)[i].0,
            ),
        forall|i: int|
            0 <= i < m.filtered_const(n).len() ==> #[trigger] m.filtered_const(n)[i].1
                == m.weight_of(m.filtered_const(n)[i].0),
    decreases n,
{
    if n > 0 {
        lemma_filtered_weights(m, ctx, n - 1);
        let q = all_productions()[n - 1];
        assert(m.filtered(ctx, n) == if allowed(q, ctx) {
            m.filtered(ctx, n - 1).push((q, m.weight_of(q)))
        } else {
            m.filtered(ctx, n - 1)
        });
        assert(m.filtered_const(n) == if const_eligible(q) {
            m.filtered_const(n - 1).push((q, m.weight_of(q)))
        } else {
            m.filtered_const(n - 1)
        });
    } else {
        assert(m.filtered(ctx, n).len() == 0);
        assert(m.filtered_const(n).len() == 0);
    }
}

/// Sums of weights grow with the prefix.
pub proof fn lemma_total_mono(ws: Seq<(TypeProduction, u64)>, i: int, n: int)
    requires
        0 <= i <= n <= ws.len(),
    ensures
        total(ws, i) <= total(ws, n),
    decreases n - i,
{
    if i < n {
        lemma_total_mono(ws, i, n - 1);
        assert(total(ws, n) == total(ws, n - 1) + ws[n - 1].1);
    }
}

/// Replacing the `j`-th entry changes the sum of a prefix that holds it by
/// the difference of the weights.
proof fn lemma_total_update(ws: Seq<(TypeProduction, u64)>, j: int, x: (TypeProduction, u64), n: int)
    requires
        0 <= j < ws.len(),
        0 <= n <= ws.len(),
    ensures
        n <= j ==> total(ws.update(j, x), n) == total(ws, n),
        j < n ==> total(ws.update(j, x), n) + ws[j].1 == total(ws, n) + x.1,
    decreases n,
{
    if n > 0 {
        lemma_total_update(ws, j, x, n - 1);
        assert(total(ws.update(j, x), n) == total(ws.update(j, x), n - 1) + ws.update(j, x)[n - 1].1);
        assert(total(ws, n) == total(ws, n - 1) + ws[n - 1].1);
    } else {
        assert(total(ws.update(j, x), 0) == 0);
        assert(total(ws, 0) == 0);
    }
}

/// The optimal profile's weights sum as the table says.
proof fn lemma_total_all_table(m: SelectionManager, n: int)
    requires
        m.spec_profile() == SelectionProfile::Optimal,
        0 <= n <= all_productions().len(),
    ensures
        m.total_all(n) == table_total(m.spec_table(), n),
    decreases n,
{
    if n > 0 {
        lemma_total_all_table(m, n - 1);
    }
}

/// Twelve weights of at most 40 each sum to at most 40 per production.
proof fn lemma_total_all_small(m: SelectionManager, n: int)
    requires
        forall|p: TypeProduction| #[trigger] m.weight_of(p) <= 40,
        0 <= n <= all_productions().len(),
    ensures
        m.total_all(n) <= 40 * n,
    decreases n,
{
    if n > 0 {
        lemma_total_all_small(m, n - 1);
        assert(m.weight_of(all_productions()[n - 1]) <= 40);
    }
}

proof fn lemma_total_all_mono(m: SelectionManager, i: int, n: int)
    requires
        0 <= i <= n <= all_productions().len(),
    ensures
        m.total_all(i) <= m.total_all(n),
    decreases n - i,
{
    if i < n {
        lemma_total_all_mono(m, i, n - 1);
    }
}

/// The filtered candidates weigh no more than all productions together.
proof fn lemma_filtered_le_all(m: SelectionManager, ctx: &Context, n: int)
    requires
        0 <= n <= all_productions().len(),
    ensures
        total(m.filtered(ctx, n), m.filtered(ctx, n).len() as int) <= m.total_all(n),
        total(m.filtered_const(n), m.filtered_const(n).len() as int) <= m.total_all(n),
    decreases n,
{
    if n > 0 {
        lemma_filtered_le_all(m, ctx, n - 1);
        let q = all_productions()[n - 1];
        let a = m.filtered(ctx, n - 1);
        let c = m.filtered_const(n - 1);
        lemma_total_push(a, (q, m.weight_of(q)), 0);
        lemma_total_push(c, (q, m.weight_of(q)), 0);
        assert(m.filtered(ctx, n) == if allowed(q, ctx) {
            a.push((q, m.weight_of(q)))
        } else {
            a
        });
        assert(m.filtered_const(n) == if const_eligible(q) {
            c.push((q, m.weight_of(q)))
        } else {
            c
        });
    } else {
        assert(m.filtered(ctx, n).len() == 0);
        assert(m.filtered_const(n).len() == 0);
        assert(total(Seq::<(TypeProduction, u64)>::empty(), 0) == 0);
    }
}

} // verus!
