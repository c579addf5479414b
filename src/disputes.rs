//! Dispute statement sets: the future-session filter, deduplication, the
//! oldest-first order and the greedy limit.

use vstd::prelude::*;
use crate::primitives::{DisputeStatementSet, Digest, SessionIndex};
use crate::weight::{greedy_len, sum_weights, total, Weight, WeightCosts};

verus! {

/// Two sets are about the same dispute: same session and candidate.
pub open spec fn same_dispute(a: DisputeStatementSet, b: DisputeStatementSet) -> bool {
    a.session == b.session && a.candidate_hash@ == b.candidate_hash@
}

/// Some set in `s` is about the same dispute as `x`.
pub open spec fn has_dispute(s: Seq<DisputeStatementSet>, x: DisputeStatementSet) -> bool {
    exists|i: int| 0 <= i < s.len() && same_dispute(#[trigger] s[i], x)
}

/// The sets of `s` whose session is not after `current`, each dispute once
/// (its first set), in input order.
pub open spec fn recent_unique(s: Seq<DisputeStatementSet>, current: SessionIndex) -> Seq<
    DisputeStatementSet,
>
    decreases s.len(),
{
    if s.len() == 0 {
        Seq::empty()
    } else {
        let prev = recent_unique(s.drop_last(), current);
        let x = s.last();
        if x.session <= current && !has_dispute(prev, x) {
            prev.push(x)
        } else {
            prev
        }
    }
}

/// Inserts `x` after every set whose session is not after its own.
pub open spec fn insert_by_session(s: Seq<DisputeStatementSet>, x: DisputeStatementSet) -> Seq<
    DisputeStatementSet,
>
    decreases s.len(),
{
    if s.len() == 0 {
        seq![x]
    } else if s.last().session <= x.session {
        s.push(x)
    } else {
        insert_by_session(s.drop_last(), x).push(s.last())
    }
}

/// Stable sort by session, oldest first.
pub open spec fn sort_by_session(s: Seq<DisputeStatementSet>) -> Seq<DisputeStatementSet>
    decreases s.len(),
{
    if s.len() == 0 {
        Seq::empty()
    } else {
        insert_by_session(sort_by_session(s.drop_last()), s.last())
    }
}

/// Sessions never decrease along `s`.
pub open spec fn sorted_by_session(s: Seq<DisputeStatementSet>) -> bool {
    forall|i: int, j: int| 0 <= i < j < s.len() ==> s[i].session <= s[j].session
}

/// The sanitized disputes, before any limit: recent, unique, oldest first.
pub open spec fn sanitized_disputes(s: Seq<DisputeStatementSet>, current: SessionIndex) -> Seq<
    DisputeStatementSet,
> {
    sort_by_session(recent_unique(s, current))
}

/// The weight of one dispute statement set.
pub open spec fn dispute_weight(costs: WeightCosts, d: DisputeStatementSet) -> Weight {
    Weight::affine(costs.dispute_base, costs.dispute_per_statement, d.statements@.len())
}

/// The weight of each set of `s`.
pub open spec fn dispute_weights(costs: WeightCosts, s: Seq<DisputeStatementSet>) -> Seq<Weight> {
    Seq::new(s.len(), |i: int| dispute_weight(costs, s[i]))
}

/// How many of the sorted sets stay under `budget`: the greedy prefix, but
/// never fewer than one set when there is one, since dispute evidence is
/// never dropped for the sake of other content.
pub open spec fn dispute_keep_count(ws: Seq<Weight>, budget: Weight) -> nat {
    if ws.len() == 0 {
        0
    } else if greedy_len(ws, budget) == 0 {
        1
    } else {
        greedy_len(ws, budget)
    }
}

proof fn lemma_insert_position(s: Seq<DisputeStatementSet>, x: DisputeStatementSet, p: int)
    requires
        0 <= p <= s.len(),
        p == 0 || s[p - 1].session <= x.session,
        forall|i: int| p <= i < s.len() ==> s[i].session > x.session,
    ensures
        insert_by_session(s, x) == s.take(p).push(x) + s.skip(p),
    decreases s.len(),
{
    if s.len() == 0 {
        assert(s.take(p).push(x) + s.skip(p) =~= seq![x]);
    } else if s.last().session <= x.session {
        assert(p == s.len());
        assert(s.take(p).push(x) + s.skip(p) =~= s.push(x));
    } else {
        let d = s.drop_last();
        lemma_insert_position(d, x, p);
        assert(d.take(p).push(x) + d.skip(p) + seq![s.last()] =~= s.take(p).push(x) + s.skip(p));
        assert((d.take(p).push(x) + d.skip(p)).push(s.last()) =~= d.take(p).push(x) + d.skip(p)
            + seq![s.last()]);
    }
}

proof fn lemma_insert_sorted(s: Seq<DisputeStatementSet>, x: DisputeStatementSet)
    requires
        sorted_by_session(s),
    ensures
        sorted_by_session(insert_by_session(s, x)),
        insert_by_session(s, x).to_multiset() == s.to_multiset().insert(x),
        insert_by_session(s, x).len() == s.len() + 1,
    decreases s.len(),
{
    broadcast use vstd::seq_lib::group_to_multiset_ensures;

    if s.len() == 0 {
        assert(seq![x] =~= Seq::<DisputeStatementSet>::empty().push(x));
    } else if s.last().session <= x.session {
    } else {
        let d = s.drop_last();
        assert(sorted_by_session(d));
        lemma_insert_sorted(d, x);
        let r = insert_by_session(d, x);
        assert(s =~= d.push(s.last()));
        assert forall|i: int| 0 <= i < r.len() implies r[i].session <= s.last().session by {
            assert(r.to_multiset().count(r[i]) > 0);
            assert(d.to_multiset().insert(x).count(r[i]) > 0);
            if r[i] != x {
                assert(d.to_multiset().count(r[i]) > 0);
                let k = choose|k: int| 0 <= k < d.len() && d[k] == r[i];
                assert(d[k] == s[k]);
            }
        }
    }
}

/// The stable sort yields sessions in order, and the same sets.
pub proof fn lemma_sort_sorted(s: Seq<DisputeStatementSet>)
    ensures
        sorted_by_session(sort_by_session(s)),
        sort_by_session(s).to_multiset() == s.to_multiset(),
        sort_by_session(s).len() == s.len(),
    decreases s.len(),
{
    broadcast use vstd::seq_lib::group_to_multiset_ensures;

    if s.len() > 0 {
        lemma_sort_sorted(s.drop_last());
        lemma_insert_sorted(sort_by_session(s.drop_last()), s.last());
        assert(s =~= s.drop_last().push(s.last()));
    }
}

fn hashes_equal(a: &Digest, b: &Digest) -> (r: bool)
    ensures
        r == (a@ == b@),
{
    let mut i: usize = 0;
    while i < 32
        invariant
            i <= 32,
            a@.len() == 32,
            b@.len() == 32,
            forall|j: int| 0 <= j < i ==> a@[j] == b@[j],
        decreases 32 - i,
    {
        if a[i] != b[i] {
            return false;
        }
        i = i + 1;
    }
    assert(a@ =~= b@);
    true
}

fn contains_dispute(s: &Vec<DisputeStatementSet>, x: &DisputeStatementSet) -> (r: bool)
    ensures
        r == has_dispute(s@, *x),
{
    let mut i: usize = 0;
    while i < s.len()
        invariant
            i <= s.len(),
            forall|j: int| 0 <= j < i ==> !same_dispute(#[trigger] s@[j], *x),
        decreases s.len() - i,
    {
        if s[i].session == x.session && hashes_equal(&s[i].candidate_hash, &x.candidate_hash) {
            return true;
        }
        i = i + 1;
    }
    false
}

/// Drops the sets of sessions after `current`, and each set about a dispute
/// that an earlier kept set is already about.
pub fn filter_recent_unique(disputes: Vec<DisputeStatementSet>, current: SessionIndex) -> (r: Vec<
    DisputeStatementSet,
>)
    ensures
        r@ == recent_unique(disputes@, current),
{
    let ghost orig = disputes@;
    let n: usize = disputes.len();
    let mut rest = disputes;
    let mut out: Vec<DisputeStatementSet> = Vec::new();
    let mut i: usize = 0;
    proof {
        assert(orig.take(0) =~= Seq::<DisputeStatementSet>::empty());
    }
    while rest.len() > 0
        invariant
            i <= orig.len(),
            orig.len() == n,
            rest@ == orig.skip(i as int),
            out@ == recent_unique(orig.take(i as int), current),
        decreases rest.len(),
    {
        let x = rest.remove(0);
        proof {
            assert(orig.take(i + 1).drop_last() =~= orig.take(i as int));
            assert(orig.take(i + 1).last() == x);
            assert(orig.skip(i + 1) =~= orig.skip(i as int).remove(0));
        }
        if x.session <= current && !contains_dispute(&out, &x) {
            out.push(x);
        }
        i = i + 1;
    }
    proof {
        assert(orig.take(i as int) =~= orig);
    }
    out
}

/// Stable sort of the sets by session, oldest first.
pub fn sort_disputes_by_session(disputes: Vec<DisputeStatementSet>) -> (r: Vec<
    DisputeStatementSet,
>)
    ensures
        r@ == sort_by_session(disputes@),
{
    let ghost orig = disputes@;
    let n: usize = disputes.len();
    let mut rest = disputes;
    let mut out: Vec<DisputeStatementSet> = Vec::new();
    let mut i: usize = 0;
    proof {
        assert(orig.take(0) =~= Seq::<DisputeStatementSet>::empty());
    }
    while rest.len() > 0
        invariant
            i <= orig.len(),
            orig.len() == n,
            rest@ == orig.skip(i as int),
            out@ == sort_by_session(orig.take(i as int)),
        decreases rest.len(),
    {
        let x = rest.remove(0);
        let mut p: usize = out.len();
        while p > 0 && out[p - 1].session > x.session
            invariant
                p <= out.len(),
                forall|k: int| p <= k < out.len() ==> out@[k].session > x.session,
            decreases p,
        {
            p = p - 1;
        }
        proof {
            lemma_insert_position(out@, x, p as int);
            assert(orig.take(i + 1).drop_last() =~= orig.take(i as int));
            assert(orig.take(i + 1).last() == x);
            assert(orig.skip(i + 1) =~= orig.skip(i as int).remove(0));
            assert(out@.insert(p as int, x) =~= out@.take(p as int).push(x) + out@.skip(p as int));
        }
        out.insert(p, x);
        i = i + 1;
    }
    proof {
        assert(orig.take(i as int) =~= orig);
    }
    out
}

/// Recent, unique dispute statement sets, oldest session first.
pub fn sanitize_disputes(disputes: Vec<DisputeStatementSet>, current: SessionIndex) -> (r: Vec<
    DisputeStatementSet,
>)
    ensures
        r@ == sanitized_disputes(disputes@, current),
{
    sort_disputes_by_session(filter_recent_unique(disputes, current))
}

/// The weight of one dispute statement set.
pub fn dispute_statement_set_weight(costs: &WeightCosts, d: &DisputeStatementSet) -> (r: Weight)
    ensures
        r == dispute_weight(*costs, *d),
{
    Weight::saturating_affine(
        costs.dispute_base,
        costs.dispute_per_statement,
        d.statements.len() as u64,
    )
}

pub fn dispute_weight_list(costs: &WeightCosts, ds: &Vec<DisputeStatementSet>) -> (r: Vec<Weight>)
    ensures
        r@ == dispute_weights(*costs, ds@),
{
    let mut out: Vec<Weight> = Vec::new();
    let mut i: usize = 0;
    while i < ds.len()
        invariant
            i <= ds.len(),
            out@ == dispute_weights(*costs, ds@).take(i as int),
        decreases ds.len() - i,
    {
        out.push(dispute_statement_set_weight(costs, &ds[i]));
        i = i + 1;
        assert(out@ =~= dispute_weights(*costs, ds@).take(i as int));
    }
    assert(out@ =~= dispute_weights(*costs, ds@));
    out
}

/// The total weight of a sequence of dispute statement sets.
pub fn multi_dispute_statement_sets_weight(costs: &WeightCosts, ds: &Vec<DisputeStatementSet>) -> (r:
    Weight)
    ensures
        r == total(dispute_weights(*costs, ds@)),
{
    sum_weights(&dispute_weight_list(costs, ds))
}

/// Filtering never adds sets.
pub proof fn lemma_recent_unique_len(s: Seq<DisputeStatementSet>, current: SessionIndex)
    ensures
        recent_unique(s, current).len() <= s.len(),
    decreases s.len(),
{
    if s.len() > 0 {
        lemma_recent_unique_len(s.drop_last(), current);
    }
}

/// Every set kept by `recent_unique` is recent, and comes from the input.
pub proof fn lemma_recent_unique_members(s: Seq<DisputeStatementSet>, current: SessionIndex)
    ensures
        forall|k: int|
            0 <= k < recent_unique(s, current).len() ==> (#[trigger] recent_unique(
                s,
                current,
            )[k]).session <= current && s.contains(recent_unique(s, current)[k]),
    decreases s.len(),
{
    if s.len() > 0 {
        let d = s.drop_last();
        lemma_recent_unique_members(d, current);
        let prev = recent_unique(d, current);
        let r = recent_unique(s, current);
        assert forall|k: int| 0 <= k < r.len() implies (#[trigger] r[k]).session <= current
            && s.contains(r[k]) by {
            if k < prev.len() {
                assert(r[k] == prev[k]);
                let m = choose|m: int| 0 <= m < d.len() && d[m] == prev[k];
                assert(s[m] == d[m]);
            } else {
                assert(s[s.len() - 1] == r[k]);
            }
        }
    }
}

/// Every recent set of the input is about a dispute that `recent_unique`
/// keeps.
pub proof fn lemma_recent_unique_covers(s: Seq<DisputeStatementSet>, current: SessionIndex)
    ensures
        forall|i: int|
            0 <= i < s.len() && (#[trigger] s[i]).session <= current ==> has_dispute(
                recent_unique(s, current),
                s[i],
            ),
    decreases s.len(),
{
    if s.len() > 0 {
        let d = s.drop_last();
        lemma_recent_unique_covers(d, current);
        let prev = recent_unique(d, current);
        let r = recent_unique(s, current);
        assert forall|i: int| 0 <= i < s.len() && (#[trigger] s[i]).session <= current implies has_dispute(
            r,
            s[i],
        ) by {
            if i < d.len() {
                assert(d[i] == s[i]);
                assert(has_dispute(prev, d[i]));
                let m = choose|m: int| 0 <= m < prev.len() && same_dispute(#[trigger] prev[m], d[i]);
                assert(r[m] == prev[m]);
            } else if !has_dispute(prev, s[i]) {
                assert(r[r.len() - 1] == s[i]);
            } else {
                let m = choose|m: int| 0 <= m < prev.len() && same_dispute(#[trigger] prev[m], s[i]);
                assert(r[m] == prev[m]);
            }
        }
    }
}

/// Submitting again a set that the input already holds changes neither the
/// sanitized disputes nor their weight.
pub proof fn lemma_resubmitted_dispute(
    s: Seq<DisputeStatementSet>,
    x: DisputeStatementSet,
    current: SessionIndex,
    costs: WeightCosts,
)
    requires
        s.contains(x),
    ensures
        sanitized_disputes(s.push(x), current) == sanitized_disputes(s, current),
        total(dispute_weights(costs, sanitized_disputes(s.push(x), current))) == total(
            dispute_weights(costs, sanitized_disputes(s, current)),
        ),
{
    let t = s.push(x);
    assert(t.drop_last() =~= s);
    if x.session <= current {
        lemma_recent_unique_covers(s, current);
        let i = choose|i: int| 0 <= i < s.len() && s[i] == x;
        assert(has_dispute(recent_unique(s, current), s[i]));
    }
    assert(recent_unique(t, current) == recent_unique(s, current));
}
/// No two sets of `s` are about the same dispute.
pub open spec fn unique_disputes(s: Seq<DisputeStatementSet>) -> bool {
    forall|i: int, j: int| 0 <= i < j < s.len() ==> !same_dispute(s[i], s[j])
}

proof fn lemma_recent_unique_unique(s: Seq<DisputeStatementSet>, current: SessionIndex)
    ensures
        unique_disputes(recent_unique(s, current)),
    decreases s.len(),
{
    if s.len() > 0 {
        let d = s.drop_last();
        lemma_recent_unique_unique(d, current);
        let prev = recent_unique(d, current);
        let r = recent_unique(s, current);
        if r.len() > prev.len() {
            assert forall|i: int, j: int| 0 <= i < j < r.len() implies !same_dispute(r[i], r[j]) by {
                assert(r[i] == prev[i]);
                if j < prev.len() {
                    assert(r[j] == prev[j]);
                } else {
                    assert(!same_dispute(prev[i], s.last()));
                }
            }
        }
    }
}

proof fn lemma_insert_unique(s: Seq<DisputeStatementSet>, x: DisputeStatementSet)
    requires
        sorted_by_session(s),
        unique_disputes(s),
        !has_dispute(s, x),
    ensures
        unique_disputes(insert_by_session(s, x)),
    decreases s.len(),
{
    broadcast use vstd::seq_lib::group_to_multiset_ensures;

    if s.len() == 0 {
    } else if s.last().session <= x.session {
        let r = s.push(x);
        assert forall|i: int, j: int| 0 <= i < j < r.len() implies !same_dispute(r[i], r[j]) by {
            if j == s.len() {
                assert(!same_dispute(s[i], x));
            }
        }
    } else {
        let d = s.drop_last();
        assert(sorted_by_session(d));
        assert(unique_disputes(d));
        assert(!has_dispute(d, x)) by {
            if has_dispute(d, x) {
                let m = choose|m: int| 0 <= m < d.len() && same_dispute(#[trigger] d[m], x);
                assert(s[m] == d[m]);
            }
        }
        lemma_insert_unique(d, x);
        lemma_insert_sorted(d, x);
        let rp = insert_by_session(d, x);
        let r = rp.push(s.last());
        assert forall|i: int, j: int| 0 <= i < j < r.len() implies !same_dispute(r[i], r[j]) by {
            if j == rp.len() {
                assert(r[i] == rp[i]);
                assert(rp.to_multiset().count(rp[i]) > 0);
                assert(d.to_multiset().insert(x).count(rp[i]) > 0);
                if rp[i] == x {
                    assert(!same_dispute(s[s.len() - 1], x));
                } else {
                    assert(d.to_multiset().count(rp[i]) > 0);
                    let m = choose|m: int| 0 <= m < d.len() && d[m] == rp[i];
                    assert(s[m] == d[m]);
                    assert(!same_dispute(s[m], s[s.len() - 1]));
                }
            } else {
                assert(r[i] == rp[i] && r[j] == rp[j]);
            }
        }
    }
}

proof fn lemma_sort_unique(s: Seq<DisputeStatementSet>)
    requires
        unique_disputes(s),
    ensures
        unique_disputes(sort_by_session(s)),
    decreases s.len(),
{
    broadcast use vstd::seq_lib::group_to_multiset_ensures;

    if s.len() > 0 {
        let d = s.drop_last();
        assert(unique_disputes(d));
        lemma_sort_unique(d);
        lemma_sort_sorted(d);
        let sd = sort_by_session(d);
        assert(!has_dispute(sd, s.last())) by {
            if has_dispute(sd, s.last()) {
                let m = choose|m: int| 0 <= m < sd.len() && same_dispute(#[trigger] sd[m], s.last());
                assert(sd.to_multiset().count(sd[m]) > 0);
                assert(d.to_multiset().count(sd[m]) > 0);
                let q = choose|q: int| 0 <= q < d.len() && d[q] == sd[m];
                assert(s[q] == d[q]);
                assert(!same_dispute(s[q], s[s.len() - 1]));
            }
        }
        lemma_insert_unique(sd, s.last());
    }
}

proof fn lemma_sort_of_sorted(s: Seq<DisputeStatementSet>)
    requires
        sorted_by_session(s),
    ensures
        sort_by_session(s) == s,
    decreases s.len(),
{
    if s.len() > 0 {
        let d = s.drop_last();
        assert(sorted_by_session(d));
        lemma_sort_of_sorted(d);
        if d.len() == 0 {
            assert(seq![s.last()] =~= s);
        } else {
            assert(d.last() == s[s.len() - 2]);
            assert(d.push(s.last()) =~= s);
        }
    }
}

proof fn lemma_recent_unique_of_unique(r: Seq<DisputeStatementSet>, current: SessionIndex)
    requires
        unique_disputes(r),
        forall|k: int| 0 <= k < r.len() ==> (#[trigger] r[k]).session <= current,
    ensures
        recent_unique(r, current) == r,
    decreases r.len(),
{
    if r.len() > 0 {
        let d = r.drop_last();
        assert(unique_disputes(d));
        lemma_recent_unique_of_unique(d, current);
        assert(!has_dispute(d, r.last())) by {
            if has_dispute(d, r.last()) {
                let m = choose|m: int| 0 <= m < d.len() && same_dispute(#[trigger] d[m], r.last());
                assert(d[m] == r[m]);
            }
        }
        assert(d.push(r.last()) =~= r);
    }
}

/// Sanitizing sanitized disputes again, for the same session, changes
/// nothing.
pub proof fn lemma_sanitize_disputes_idempotent(s: Seq<DisputeStatementSet>, current: SessionIndex)
    ensures
        sanitized_disputes(sanitized_disputes(s, current), current) == sanitized_disputes(s, current),
{
    broadcast use vstd::seq_lib::group_to_multiset_ensures;

    let ru = recent_unique(s, current);
    let sd = sanitized_disputes(s, current);
    lemma_recent_unique_unique(s, current);
    lemma_recent_unique_members(s, current);
    lemma_sort_sorted(ru);
    lemma_sort_unique(ru);
    assert forall|k: int| 0 <= k < sd.len() implies (#[trigger] sd[k]).session <= current by {
        assert(sd.to_multiset().count(sd[k]) > 0);
        assert(ru.to_multiset().count(sd[k]) > 0);
        let q = choose|q: int| 0 <= q < ru.len() && ru[q] == sd[k];
    }
    lemma_recent_unique_of_unique(sd, current);
    lemma_sort_of_sorted(sd);
}
} // verus!
