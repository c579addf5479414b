//! Two-dimensional weights (execution time, proof size) and their
//! saturating arithmetic.

use vstd::prelude::*;

verus! {

/// Clamps a non-negative mathematical integer into `u64`.
pub open spec fn saturate(x: int) -> u64 {
    if x > u64::MAX {
        u64::MAX
    } else if x < 0 {
        0
    } else {
        x as u64
    }
}

fn saturating_add_u64(a: u64, b: u64) -> (r: u64)
    ensures
        r == saturate(a + b),
{
    if a > u64::MAX - b {
        u64::MAX
    } else {
        a + b
    }
}

fn saturating_sub_u64(a: u64, b: u64) -> (r: u64)
    ensures
        r == saturate(a - b),
{
    if a >= b {
        a - b
    } else {
        0
    }
}

/// `base + per * n`, clamped to `u64`.
fn saturating_affine(base: u64, per: u64, n: u64) -> (r: u64)
    ensures
        r == saturate(base + per * n),
{
    proof {
        assert((per as int) * (n as int) <= (u64::MAX as int) * (u64::MAX as int)) by (nonlinear_arith)
            requires
                per <= u64::MAX,
                n <= u64::MAX,
                per >= 0,
                n >= 0,
        ;
    }
    let prod: u128 = (per as u128) * (n as u128);
    let sum: u128 = prod + (base as u128);
    if sum > u64::MAX as u128 {
        u64::MAX
    } else {
        sum as u64
    }
}

/// The cost of some piece of block content: execution time and proof size
/// (the proof-size axis also bounds the encoded length).
#[derive(Clone, Copy, Debug, PartialEq, Eq, Structural)]
pub struct Weight {
    pub ref_time: u64,
    pub proof_size: u64,
}

/// The weight with both components zero.
pub open spec fn zero_weight() -> Weight {
    Weight { ref_time: 0, proof_size: 0 }
}

impl Weight {
    /// Component-wise `<=`.
    pub open spec fn fits(self, limit: Weight) -> bool {
        self.ref_time <= limit.ref_time && self.proof_size <= limit.proof_size
    }

    /// Component-wise saturating sum.
    pub open spec fn plus(self, o: Weight) -> Weight {
        Weight {
            ref_time: saturate(self.ref_time + o.ref_time),
            proof_size: saturate(self.proof_size + o.proof_size),
        }
    }

    /// Component-wise saturating difference.
    pub open spec fn minus(self, o: Weight) -> Weight {
        Weight {
            ref_time: saturate(self.ref_time - o.ref_time),
            proof_size: saturate(self.proof_size - o.proof_size),
        }
    }

    /// `base + per * n` on each component, saturating.
    pub open spec fn affine(base: Weight, per: Weight, n: nat) -> Weight {
        Weight {
            ref_time: saturate(base.ref_time + per.ref_time * n),
            proof_size: saturate(base.proof_size + per.proof_size * n),
        }
    }

    pub fn zero() -> (r: Weight)
        ensures
            r == zero_weight(),
    {
        Weight { ref_time: 0, proof_size: 0 }
    }

    pub fn from_parts(ref_time: u64, proof_size: u64) -> (r: Weight)
        ensures
            r.ref_time == ref_time,
            r.proof_size == proof_size,
    {
        Weight { ref_time, proof_size }
    }

    pub fn saturating_add(self, o: Weight) -> (r: Weight)
        ensures
            r == self.plus(o),
    {
        Weight {
            ref_time: saturating_add_u64(self.ref_time, o.ref_time),
            proof_size: saturating_add_u64(self.proof_size, o.proof_size),
        }
    }

    pub fn saturating_sub(self, o: Weight) -> (r: Weight)
        ensures
            r == self.minus(o),
    {
        Weight {
            ref_time: saturating_sub_u64(self.ref_time, o.ref_time),
            proof_size: saturating_sub_u64(self.proof_size, o.proof_size),
        }
    }

    /// `base + per * n` on each component, saturating.
    pub fn saturating_affine(base: Weight, per: Weight, n: u64) -> (r: Weight)
        ensures
            r == Weight::affine(base, per, n as nat),
    {
        Weight {
            ref_time: saturating_affine(base.ref_time, per.ref_time, n),
            proof_size: saturating_affine(base.proof_size, per.proof_size, n),
        }
    }

    /// Whether every component is `<=` the limit's.
    pub fn all_lte(self, limit: Weight) -> (r: bool)
        ensures
            r == self.fits(limit),
    {
        self.ref_time <= limit.ref_time && self.proof_size <= limit.proof_size
    }

    /// Whether some component is `<` the other's.
    pub fn any_lt(self, o: Weight) -> (r: bool)
        ensures
            r == (self.ref_time < o.ref_time || self.proof_size < o.proof_size),
    {
        self.ref_time < o.ref_time || self.proof_size < o.proof_size
    }
}

/// The saturating sum of a sequence of weights, left to right.
pub open spec fn total(ws: Seq<Weight>) -> Weight
    decreases ws.len(),
{
    if ws.len() == 0 {
        zero_weight()
    } else {
        total(ws.drop_last()).plus(ws.last())
    }
}

/// The total of a prefix never exceeds the total of a longer prefix.
pub proof fn lemma_total_prefix_monotone(ws: Seq<Weight>, i: int, j: int)
    requires
        0 <= i <= j <= ws.len(),
    ensures
        total(ws.take(i)).fits(total(ws.take(j))),
    decreases j - i,
{
    if i < j {
        lemma_total_prefix_monotone(ws, i, j - 1);
        assert(ws.take(j).drop_last() =~= ws.take(j - 1));
    }
}

/// The number of leading weights whose running total fits the budget: the
/// greedy prefix that stops at the first weight that would exceed it.
pub open spec fn is_greedy_count(ws: Seq<Weight>, budget: Weight, k: int) -> bool {
    &&& 0 <= k <= ws.len()
    &&& total(ws.take(k)).fits(budget)
    &&& k < ws.len() ==> !total(ws.take(k + 1)).fits(budget)
}

/// Counts the greedy prefix of `ws` that fits `budget`.
pub fn greedy_count(ws: &Vec<Weight>, budget: Weight) -> (k: usize)
    ensures
        is_greedy_count(ws@, budget, k as int),
        k == greedy_len(ws@, budget),
{
    let mut acc = Weight::zero();
    let mut k: usize = 0;
    proof {
        assert(ws@.take(0) =~= Seq::<Weight>::empty());
    }
    while k < ws.len()
        invariant
            k <= ws.len(),
            acc == total(ws@.take(k as int)),
            acc.fits(budget),
        decreases ws.len() - k,
    {
        let next = acc.saturating_add(ws[k]);
        proof {
            assert(ws@.take(k + 1).drop_last() =~= ws@.take(k as int));
        }
        if !next.all_lte(budget) {
            proof {
                lemma_greedy_count_is_len(ws@, budget, k as int);
            }
            return k;
        }
        acc = next;
        k = k + 1;
    }
    proof {
        assert(ws@.take(k as int) =~= ws@);
        lemma_greedy_count_is_len(ws@, budget, k as int);
    }
    k
}

} // verus!

verus! {

/// The greedy prefix length as a function: the longest prefix whose total
/// fits. Totals of prefixes only grow, so this is also where the greedy walk
/// stops.
pub open spec fn greedy_len(ws: Seq<Weight>, budget: Weight) -> nat
    decreases ws.len(),
{
    if ws.len() == 0 {
        0
    } else if total(ws).fits(budget) {
        ws.len()
    } else {
        greedy_len(ws.drop_last(), budget)
    }
}

/// The place where the greedy walk stops is `greedy_len`.
pub proof fn lemma_greedy_count_is_len(ws: Seq<Weight>, budget: Weight, k: int)
    requires
        is_greedy_count(ws, budget, k),
    ensures
        k == greedy_len(ws, budget),
    decreases ws.len(),
{
    if k == ws.len() {
        assert(ws.take(k) =~= ws);
    } else {
        lemma_total_prefix_monotone(ws, k + 1, ws.len() as int);
        assert(ws.take(ws.len() as int) =~= ws);
        let d = ws.drop_last();
        assert(d.take(k) =~= ws.take(k));
        if k + 1 < ws.len() {
            assert(d.take(k + 1) =~= ws.take(k + 1));
        }
        lemma_greedy_count_is_len(d, budget, k);
    }
}

/// The total of a list of weights.
pub fn sum_weights(ws: &Vec<Weight>) -> (r: Weight)
    ensures
        r == total(ws@),
{
    let mut acc = Weight::zero();
    let mut i: usize = 0;
    assert(ws@.take(0) =~= Seq::<Weight>::empty());
    while i < ws.len()
        invariant
            i <= ws.len(),
            acc == total(ws@.take(i as int)),
        decreases ws.len() - i,
    {
        acc = acc.saturating_add(ws[i]);
        assert(ws@.take(i + 1).drop_last() =~= ws@.take(i as int));
        i = i + 1;
    }
    assert(ws@.take(i as int) =~= ws@);
    acc
}

/// The greedy prefix is a prefix.
pub proof fn lemma_greedy_len_bound(ws: Seq<Weight>, budget: Weight)
    ensures
        greedy_len(ws, budget) <= ws.len(),
    decreases ws.len(),
{
    if ws.len() > 0 {
        lemma_greedy_len_bound(ws.drop_last(), budget);
    }
}

/// The greedy prefix fits the budget, and is shorter than the whole when
/// the whole does not fit.
pub proof fn lemma_greedy_len_fits(ws: Seq<Weight>, budget: Weight)
    ensures
        total(ws.take(greedy_len(ws, budget) as int)).fits(budget),
        !total(ws).fits(budget) ==> greedy_len(ws, budget) < ws.len(),
    decreases ws.len(),
{
    if ws.len() == 0 {
        assert(ws.take(0) =~= ws);
    } else if total(ws).fits(budget) {
        assert(ws.take(ws.len() as int) =~= ws);
    } else {
        let d = ws.drop_last();
        lemma_greedy_len_fits(d, budget);
        lemma_greedy_len_bound(d, budget);
        assert(d.take(greedy_len(d, budget) as int) =~= ws.take(greedy_len(d, budget) as int));
    }
}

/// Per-record costs that the block author and every validating node use
/// alike: a record's weight is assigned from its shape, never measured.
#[derive(Clone, Copy, Debug, PartialEq, Eq, Structural)]
pub struct WeightCosts {
    /// A dispute statement set with no statements.
    pub dispute_base: Weight,
    /// Each statement of a dispute statement set.
    pub dispute_per_statement: Weight,
    /// One signed availability bitfield.
    pub bitfield: Weight,
    /// A backed candidate with no validity votes.
    pub candidate_base: Weight,
    /// Each validity vote of a backed candidate.
    pub candidate_per_vote: Weight,
}

/// The weight that one database read or write costs.
#[derive(Clone, Copy, Debug, PartialEq, Eq, Structural)]
pub struct RuntimeDbWeight {
    pub read: u64,
    pub write: u64,
}

impl RuntimeDbWeight {
    /// `n` reads: execution time only.
    pub fn reads(self, n: u64) -> (r: Weight)
        ensures
            r == Weight::affine(zero_weight(), Weight { ref_time: self.read, proof_size: 0 }, n as nat),
    {
        Weight::saturating_affine(Weight::zero(), Weight::from_parts(self.read, 0), n)
    }

    /// `n` writes: execution time only.
    pub fn writes(self, n: u64) -> (r: Weight)
        ensures
            r == Weight::affine(zero_weight(), Weight { ref_time: self.write, proof_size: 0 }, n as nat),
    {
        Weight::saturating_affine(Weight::zero(), Weight::from_parts(self.write, 0), n)
    }
}

/// Benchmarked weights of the parameter-setting call on reference hardware.
#[derive(Debug)]
pub struct SubstrateWeight;

/// Execution time of setting one parameter, before storage access.
pub const SET_PARAMETER_REF_TIME: u64 = 8_682_000;

/// Proof size of setting one parameter.
pub const SET_PARAMETER_PROOF_SIZE: u64 = 3501;

/// The weight of setting one parameter with the given database costs.
pub open spec fn set_parameter_weight(db: RuntimeDbWeight) -> Weight {
    Weight { ref_time: SET_PARAMETER_REF_TIME, proof_size: SET_PARAMETER_PROOF_SIZE }.plus(
        Weight { ref_time: db.read, proof_size: 0 },
    ).plus(Weight { ref_time: db.write, proof_size: 0 })
}

impl SubstrateWeight {
    /// One read and one write of the parameter's storage item.
    pub fn set_parameter(db: RuntimeDbWeight) -> (r: Weight)
        ensures
            r == set_parameter_weight(db),
    {
        Weight::from_parts(SET_PARAMETER_REF_TIME, SET_PARAMETER_PROOF_SIZE).saturating_add(
            db.reads(1),
        ).saturating_add(db.writes(1))
    }
}


} // verus!
