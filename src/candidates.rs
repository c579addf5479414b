//! Backed candidates: core resolution against the schedule, the
//! concluded-invalid filter, and the removal of votes by disabled validators.

use vstd::prelude::*;
use crate::bits::{ones, BitField, MAX_BITS};
use crate::primitives::{schedule_wf, strictly_ascending, BackedCandidate, CandidateView, ScheduledPara, ValidityVote};
use crate::weight::{sum_weights, total, Weight, WeightCosts};

verus! {

/// A candidate paired with the core it was assigned.
pub type CandidateWithCore = (BackedCandidate, u32);

/// The views of candidates with their cores.
pub open spec fn with_core_views(s: Seq<CandidateWithCore>) -> Seq<(CandidateView, u32)> {
    s.map_values(|p: CandidateWithCore| (p.0@, p.1))
}

/// The views of candidates.
pub open spec fn candidate_views(s: Seq<BackedCandidate>) -> Seq<CandidateView> {
    s.map_values(|c: BackedCandidate| c@)
}

/// The predicate's answer for candidate `i`; no answer means not invalid.
pub open spec fn concluded_invalid_at(invalid: Seq<bool>, i: int) -> bool {
    0 <= i < invalid.len() && invalid[i]
}

/// The cores scheduled for `para`: those of its first entry, or none.
pub open spec fn cores_for(sched: Seq<ScheduledPara>, para: u32) -> Seq<u32>
    decreases sched.len(),
{
    if sched.len() == 0 {
        Seq::empty()
    } else if sched[0].para_id == para {
        sched[0].cores@
    } else {
        cores_for(sched.drop_first(), para)
    }
}

/// Some candidate of `out` already holds `core`.
pub open spec fn claimed(out: Seq<(CandidateView, u32)>, core: u32) -> bool {
    exists|k: int| 0 <= k < out.len() && (#[trigger] out[k]).1 == core
}

/// The first of `cores` that no candidate of `out` holds.
pub open spec fn first_free(cores: Seq<u32>, out: Seq<(CandidateView, u32)>) -> Option<u32>
    decreases cores.len(),
{
    if cores.len() == 0 {
        None
    } else if !claimed(out, cores[0]) {
        Some(cores[0])
    } else {
        first_free(cores.drop_first(), out)
    }
}

/// The core candidate `c` is assigned, given those already assigned: with
/// core-index tagging and a tag on `c`, that tag, if scheduled for its para
/// and still free; otherwise (no tagging, or an untagged candidate) the
/// first free core scheduled for its para.
pub open spec fn target_core(
    c: CandidateView,
    sched: Seq<ScheduledPara>,
    core_index_enabled: bool,
    out: Seq<(CandidateView, u32)>,
) -> Option<u32> {
    let cores = cores_for(sched, c.descriptor.para_id);
    match c.core_index {
        Some(ci) if core_index_enabled => if cores.contains(ci) && !claimed(out, ci) {
            Some(ci)
        } else {
            None
        },
        _ => first_free(cores, out),
    }
}

/// The first `n` candidates that are not concluded invalid and get a core,
/// with that core, in input order.
pub open spec fn assigned_prefix(
    cs: Seq<CandidateView>,
    invalid: Seq<bool>,
    sched: Seq<ScheduledPara>,
    core_index_enabled: bool,
    n: int,
) -> Seq<(CandidateView, u32)>
    decreases n,
{
    if n <= 0 {
        Seq::empty()
    } else {
        let prev = assigned_prefix(cs, invalid, sched, core_index_enabled, n - 1);
        if concluded_invalid_at(invalid, n - 1) {
            prev
        } else {
            match target_core(cs[n - 1], sched, core_index_enabled, prev) {
                Some(core) => prev.push((cs[n - 1], core)),
                None => prev,
            }
        }
    }
}

/// Whether one of the first `n` candidates, not concluded invalid, got no
/// core.
pub open spec fn unscheduled_prefix(
    cs: Seq<CandidateView>,
    invalid: Seq<bool>,
    sched: Seq<ScheduledPara>,
    core_index_enabled: bool,
    n: int,
) -> bool
    decreases n,
{
    if n <= 0 {
        false
    } else {
        unscheduled_prefix(cs, invalid, sched, core_index_enabled, n - 1) || (
        !concluded_invalid_at(invalid, n - 1) && target_core(
            cs[n - 1],
            sched,
            core_index_enabled,
            assigned_prefix(cs, invalid, sched, core_index_enabled, n - 1),
        ) is None)
    }
}

/// Bit `j` of a backing bitmap belongs to a disabled member of `group`.
pub open spec fn is_disabled_bit(group: Seq<u32>, disabled: Seq<u32>, j: int) -> bool {
    0 <= j < group.len() && disabled.contains(group[j])
}

/// The bitmap has exactly one vote per set bit.
pub open spec fn votes_match(c: CandidateView) -> bool {
    ones(c.bits, c.bits.len() as int) == c.votes.len()
}

/// The votes of the first `n` bits that do not belong to disabled members.
pub open spec fn kept_votes(
    bits: Seq<bool>,
    votes: Seq<ValidityVote>,
    group: Seq<u32>,
    disabled: Seq<u32>,
    n: int,
) -> Seq<ValidityVote>
    decreases n,
{
    if n <= 0 {
        Seq::empty()
    } else {
        let prev = kept_votes(bits, votes, group, disabled, n - 1);
        if bits[n - 1] && !is_disabled_bit(group, disabled, n - 1) {
            prev.push(votes[ones(bits, n - 1) as int])
        } else {
            prev
        }
    }
}

/// `c` without the bits and votes of disabled members of `group`.
pub open spec fn stripped(c: CandidateView, group: Seq<u32>, disabled: Seq<u32>) -> CandidateView {
    CandidateView {
        bits: Seq::new(c.bits.len(), |j: int| c.bits[j] && !is_disabled_bit(group, disabled, j)),
        votes: kept_votes(c.bits, c.votes, group, disabled, c.bits.len() as int),
        ..c
    }
}

/// `c` carries a vote by a disabled member of `group`.
pub open spec fn has_disabled_vote(c: CandidateView, group: Seq<u32>, disabled: Seq<u32>) -> bool {
    exists|j: int| 0 <= j < c.bits.len() && c.bits[j] && is_disabled_bit(group, disabled, j)
}

/// The backing group of `core`: validator indices, one per bitmap bit.
pub open spec fn group_of(groups: Seq<Vec<u32>>, core: u32) -> Seq<u32> {
    if (core as int) < groups.len() {
        groups[core as int]@
    } else {
        Seq::empty()
    }
}

/// A candidate stays after stripping when its bitmap matches its votes and
/// at least `min_votes` votes remain.
pub open spec fn keeps_backing(
    p: (CandidateView, u32),
    groups: Seq<Vec<u32>>,
    disabled: Seq<u32>,
    min_votes: nat,
) -> bool {
    votes_match(p.0) && stripped(p.0, group_of(groups, p.1), disabled).votes.len() >= min_votes
}

/// Each candidate stripped of disabled votes, and kept when enough remain.
pub open spec fn strip_and_filter(
    a: Seq<(CandidateView, u32)>,
    groups: Seq<Vec<u32>>,
    disabled: Seq<u32>,
    min_votes: nat,
) -> Seq<(CandidateView, u32)>
    decreases a.len(),
{
    if a.len() == 0 {
        Seq::empty()
    } else {
        let prev = strip_and_filter(a.drop_last(), groups, disabled, min_votes);
        let p = a.last();
        if keeps_backing(p, groups, disabled, min_votes) {
            prev.push((stripped(p.0, group_of(groups, p.1), disabled), p.1))
        } else {
            prev
        }
    }
}

/// Some candidate of `a` carries a vote by a disabled validator.
pub open spec fn any_disabled_vote(
    a: Seq<(CandidateView, u32)>,
    groups: Seq<Vec<u32>>,
    disabled: Seq<u32>,
) -> bool {
    exists|k: int|
        0 <= k < a.len() && has_disabled_vote(#[trigger] a[k].0, group_of(groups, a[k].1), disabled)
}

/// The weight of one backed candidate.
pub open spec fn candidate_weight(costs: WeightCosts, c: CandidateView) -> Weight {
    Weight::affine(costs.candidate_base, costs.candidate_per_vote, c.votes.len())
}

/// The weight of each candidate of `s`.
pub open spec fn candidate_weights(costs: WeightCosts, s: Seq<CandidateView>) -> Seq<Weight> {
    Seq::new(s.len(), |i: int| candidate_weight(costs, s[i]))
}

/// The candidates of candidate-core pairs.
pub open spec fn candidates_of(s: Seq<(CandidateView, u32)>) -> Seq<CandidateView> {
    s.map_values(|p: (CandidateView, u32)| p.0)
}

fn contains_u32(v: &Vec<u32>, x: u32) -> (r: bool)
    ensures
        r == v@.contains(x),
{
    let mut i: usize = 0;
    while i < v.len()
        invariant
            i <= v.len(),
            forall|j: int| 0 <= j < i ==> v@[j] != x,
        decreases v.len() - i,
    {
        if v[i] == x {
            return true;
        }
        i = i + 1;
    }
    false
}

/// The position of `para`'s entry in the schedule, if any.
fn find_para(sched: &Vec<ScheduledPara>, para: u32) -> (r: Option<usize>)
    ensures
        match r {
            Some(i) => i < sched@.len() && cores_for(sched@, para) == sched@[i as int].cores@,
            None => cores_for(sched@, para) == Seq::<u32>::empty(),
        },
{
    let mut i: usize = 0;
    assert(sched@.skip(0) =~= sched@);
    while i < sched.len()
        invariant
            i <= sched.len(),
            cores_for(sched@, para) == cores_for(sched@.skip(i as int), para),
        decreases sched.len() - i,
    {
        assert(sched@.skip(i as int)[0] == sched@[i as int]);
        assert(sched@.skip(i as int).drop_first() =~= sched@.skip(i + 1));
        if sched[i].para_id == para {
            return Some(i);
        }
        i = i + 1;
    }
    assert(sched@.skip(i as int) =~= Seq::<ScheduledPara>::empty());
    None
}

fn is_claimed(out: &Vec<CandidateWithCore>, core: u32) -> (r: bool)
    ensures
        r == claimed(with_core_views(out@), core),
{
    let ghost o = with_core_views(out@);
    let mut k: usize = 0;
    while k < out.len()
        invariant
            k <= out.len(),
            o == with_core_views(out@),
            forall|j: int| 0 <= j < k ==> (#[trigger] o[j]).1 != core,
        decreases out.len() - k,
    {
        assert(o[k as int].1 == out@[k as int].1);
        if out[k].1 == core {
            return true;
        }
        k = k + 1;
    }
    false
}

/// The first of `cores` that no candidate of `out` holds.
fn first_free_core(cores: &Vec<u32>, out: &Vec<CandidateWithCore>) -> (r: Option<u32>)
    ensures
        r == first_free(cores@, with_core_views(out@)),
{
    let ghost o = with_core_views(out@);
    let mut j: usize = 0;
    assert(cores@.skip(0) =~= cores@);
    while j < cores.len()
        invariant
            j <= cores.len(),
            o == with_core_views(out@),
            first_free(cores@, o) == first_free(cores@.skip(j as int), o),
        decreases cores.len() - j,
    {
        assert(cores@.skip(j as int)[0] == cores@[j as int]);
        assert(cores@.skip(j as int).drop_first() =~= cores@.skip(j + 1));
        if !is_claimed(out, cores[j]) {
            assert(first_free(cores@.skip(j as int), o) == Some(cores@[j as int]));
            return Some(cores[j]);
        }
        j = j + 1;
    }
    assert(cores@.skip(j as int) =~= Seq::<u32>::empty());
    None
}

/// The core that `c` is assigned, given the candidates already assigned.
fn resolve_core(
    c: &BackedCandidate,
    sched: &Vec<ScheduledPara>,
    core_index_enabled: bool,
    out: &Vec<CandidateWithCore>,
) -> (r: Option<u32>)
    ensures
        r == target_core(c@, sched@, core_index_enabled, with_core_views(out@)),
{
    let pos = find_para(sched, c.descriptor.para_id);
    let idx = match pos {
        Some(i) => i,
        None => {
            return None;
        },
    };
    let cores = &sched[idx].cores;
    assert(cores_for(sched@, c@.descriptor.para_id) == cores@);
    match c.core_index {
        Some(ci) if core_index_enabled => {
            if contains_u32(cores, ci) && !is_claimed(out, ci) {
                Some(ci)
            } else {
                None
            }
        },
        _ => first_free_core(cores, out),
    }
}

/// Pairs each candidate that is not concluded invalid with a scheduled core
/// (see `target_core`), in input order; the flag says whether a candidate
/// got none.
pub fn assign_cores(
    candidates: Vec<BackedCandidate>,
    concluded_invalid: &Vec<bool>,
    scheduled: &Vec<ScheduledPara>,
    core_index_enabled: bool,
) -> (r: (Vec<CandidateWithCore>, bool))
    requires
        schedule_wf(scheduled@),
    ensures
        with_core_views(r.0@) == assigned_prefix(
            candidate_views(candidates@),
            concluded_invalid@,
            scheduled@,
            core_index_enabled,
            candidates@.len() as int,
        ),
        r.1 == unscheduled_prefix(
            candidate_views(candidates@),
            concluded_invalid@,
            scheduled@,
            core_index_enabled,
            candidates@.len() as int,
        ),
{
    let ghost orig = candidates@;
    let ghost cs = candidate_views(candidates@);
    let n: usize = candidates.len();
    let mut rest = candidates;
    let mut out: Vec<CandidateWithCore> = Vec::new();
    let mut dropped = false;
    let mut i: usize = 0;
    while rest.len() > 0
        invariant
            i <= orig.len(),
            orig.len() == n,
            cs == candidate_views(orig),
            rest@ == orig.skip(i as int),
            with_core_views(out@) == assigned_prefix(
                cs,
                concluded_invalid@,
                scheduled@,
                core_index_enabled,
                i as int,
            ),
            dropped == unscheduled_prefix(
                cs,
                concluded_invalid@,
                scheduled@,
                core_index_enabled,
                i as int,
            ),
        decreases rest.len(),
    {
        let c = rest.remove(0);
        proof {
            assert(orig[i as int] == c);
            assert(cs[i as int] == c@);
            assert(orig.skip(i + 1) =~= orig.skip(i as int).remove(0));
        }
        let invalid = i < concluded_invalid.len() && concluded_invalid[i];
        if !invalid {
            match resolve_core(&c, scheduled, core_index_enabled, &out) {
                Some(core) => {
                    let ghost before = out@;
                    out.push((c, core));
                    proof {
                        assert(with_core_views(out@) =~= with_core_views(before).push((c@, core)));
                    }
                },
                None => {
                    dropped = true;
                },
            }
        }
        i = i + 1;
    }
    (out, dropped)
}

proof fn lemma_ones_monotone(bits: Seq<bool>, i: int, j: int)
    requires
        0 <= i <= j,
    ensures
        ones(bits, i) <= ones(bits, j),
    decreases j - i,
{
    if i < j {
        lemma_ones_monotone(bits, i, j - 1);
    }
}

/// Whether a set bit belongs to a disabled member of `group`.
fn carries_disabled_vote(c: &BackedCandidate, group: &Vec<u32>, disabled: &Vec<u32>) -> (r: bool)
    ensures
        r == has_disabled_vote(c@, group@, disabled@),
{
    let n = c.validator_indices.len();
    let mut j: usize = 0;
    while j < n
        invariant
            j <= n,
            n == c@.bits.len(),
            forall|t: int|
                0 <= t < j ==> !(c@.bits[t] && is_disabled_bit(group@, disabled@, t)),
        decreases n - j,
    {
        if c.validator_indices.get(j) && j < group.len() && contains_u32(disabled, group[j]) {
            assert(c@.bits[j as int] && is_disabled_bit(group@, disabled@, j as int));
            return true;
        }
        j = j + 1;
    }
    false
}

/// `c` without the bits and votes of disabled members of `group`.
fn strip_disabled(c: &BackedCandidate, group: &Vec<u32>, disabled: &Vec<u32>) -> (r: BackedCandidate)
    requires
        votes_match(c@),
    ensures
        r@ == stripped(c@, group@, disabled@),
{
    let ghost bits = c@.bits;
    let ghost target = stripped(c@, group@, disabled@);
    let n = c.validator_indices.len();
    let mut nb = BitField::new();
    let mut nv: Vec<ValidityVote> = Vec::new();
    let mut k: usize = 0;
    let mut j: usize = 0;
    while j < n
        invariant
            j <= n,
            n == c.validator_indices@.len(),
            n <= MAX_BITS,
            bits == c@.bits,
            votes_match(c@),
            target == stripped(c@, group@, disabled@),
            k == ones(bits, j as int),
            nb@ == target.bits.take(j as int),
            nv@ == kept_votes(bits, c@.votes, group@, disabled@, j as int),
        decreases n - j,
    {
        let b = c.validator_indices.get(j);
        let dis = j < group.len() && contains_u32(disabled, group[j]);
        if b {
            proof {
                lemma_ones_monotone(bits, j + 1, bits.len() as int);
                assert(ones(bits, j + 1) == k + 1);
                assert(c@.votes.len() == c.validity_votes.len());
                assert(k + 1 <= c.validity_votes.len());
            }
            if !dis {
                nv.push(c.validity_votes[k]);
            }
            k = k + 1;
        }
        nb.push(b && !dis);
        j = j + 1;
        assert(nb@ =~= target.bits.take(j as int));
    }
    assert(nb@ =~= target.bits);
    BackedCandidate {
        descriptor: c.descriptor,
        candidate_hash: c.candidate_hash,
        validator_indices: nb,
        validity_votes: nv,
        core_index: c.core_index,
    }
}

/// The backing group of `core`.
fn backing_group(groups: &Vec<Vec<u32>>, core: u32) -> (r: Option<&Vec<u32>>)
    ensures
        match r {
            Some(g) => g@ == group_of(groups@, core),
            None => group_of(groups@, core) == Seq::<u32>::empty(),
        },
{
    if (core as usize) < groups.len() {
        Some(&groups[core as usize])
    } else {
        None
    }
}

/// Strips from each candidate the votes of disabled validators, and drops
/// the candidates left with fewer than `min_votes` votes or whose bitmap
/// does not match their votes. Returns whether any vote by a disabled
/// validator was found.
pub fn filter_backed_statements_from_disabled_validators(
    candidates: &mut Vec<CandidateWithCore>,
    groups: &Vec<Vec<u32>>,
    disabled: &Vec<u32>,
    min_votes: usize,
) -> (r: bool)
    requires
        strictly_ascending(disabled@),
    ensures
        with_core_views(final(candidates)@) == strip_and_filter(
            with_core_views(old(candidates)@),
            groups@,
            disabled@,
            min_votes as nat,
        ),
        r == any_disabled_vote(with_core_views(old(candidates)@), groups@, disabled@),
{
    let ghost a = with_core_views(candidates@);
    let empty: Vec<u32> = Vec::new();
    let mut out: Vec<CandidateWithCore> = Vec::new();
    let mut found = false;
    let mut i: usize = 0;
    assert(a.take(0) =~= Seq::<(CandidateView, u32)>::empty());
    while i < candidates.len()
        invariant
            i <= candidates.len(),
            a == with_core_views(candidates@),
            empty@ == Seq::<u32>::empty(),
            with_core_views(out@) == strip_and_filter(
                a.take(i as int),
                groups@,
                disabled@,
                min_votes as nat,
            ),
            found == any_disabled_vote(a.take(i as int), groups@, disabled@),
        decreases candidates.len() - i,
    {
        let core = candidates[i].1;
        let group = match backing_group(groups, core) {
            Some(g) => g,
            None => &empty,
        };
        let c = &candidates[i].0;
        proof {
            assert(a[i as int] == (c@, core));
            assert(a.take(i + 1).drop_last() =~= a.take(i as int));
            assert(a.take(i + 1).last() == a[i as int]);
        }
        let has = carries_disabled_vote(c, group, disabled);
        proof {
            let t = a.take(i + 1);
            if has {
                assert(t[i as int] == a[i as int]);
            } else if any_disabled_vote(t, groups@, disabled@) {
                let k = choose|k: int|
                    0 <= k < t.len() && has_disabled_vote(
                        #[trigger] t[k].0,
                        group_of(groups@, t[k].1),
                        disabled@,
                    );
                assert(k < i);
                assert(a.take(i as int)[k] == t[k]);
            }
            if found {
                let k = choose|k: int|
                    0 <= k < i && has_disabled_vote(
                        #[trigger] a.take(i as int)[k].0,
                        group_of(groups@, a.take(i as int)[k].1),
                        disabled@,
                    );
                assert(t[k] == a.take(i as int)[k]);
            }
        }
        found = found || has;
        if c.validator_indices.count_ones() == c.validity_votes.len() {
            let s = strip_disabled(c, group, disabled);
            if s.validity_votes.len() >= min_votes {
                let ghost before = out@;
                out.push((s, core));
                proof {
                    assert(with_core_views(out@) =~= with_core_views(before).push((s@, core)));
                }
            }
        }
        i = i + 1;
    }
    proof {
        assert(a.take(i as int) =~= a);
    }
    *candidates = out;
    found
}

/// The candidates that survive sanitization, each with its core, and what
/// was dropped on the way.
#[derive(Debug, PartialEq, Eq)]
pub struct SanitizedBackedCandidates {
    pub backed_candidates_with_core: Vec<CandidateWithCore>,
    /// A vote by a disabled validator was found and removed.
    pub votes_from_disabled_were_dropped: bool,
    /// A candidate, not concluded invalid, had no scheduled core.
    pub dropped_unscheduled_candidates: bool,
}

/// The candidates that survive sanitization, before any weight limit.
pub open spec fn sanitized_candidates(
    cs: Seq<CandidateView>,
    invalid: Seq<bool>,
    sched: Seq<ScheduledPara>,
    core_index_enabled: bool,
    groups: Seq<Vec<u32>>,
    disabled: Seq<u32>,
    min_votes: nat,
) -> Seq<(CandidateView, u32)> {
    strip_and_filter(
        assigned_prefix(cs, invalid, sched, core_index_enabled, cs.len() as int),
        groups,
        disabled,
        min_votes,
    )
}

/// Assigns cores (dropping concluded-invalid and unscheduled candidates),
/// then strips votes by disabled validators and drops the candidates left
/// with too few votes. Survivors keep their input order.
pub fn sanitize_backed_candidates(
    candidates: Vec<BackedCandidate>,
    concluded_invalid: &Vec<bool>,
    scheduled: &Vec<ScheduledPara>,
    core_index_enabled: bool,
    groups: &Vec<Vec<u32>>,
    disabled: &Vec<u32>,
    min_votes: usize,
) -> (r: SanitizedBackedCandidates)
    requires
        schedule_wf(scheduled@),
        strictly_ascending(disabled@),
    ensures
        with_core_views(r.backed_candidates_with_core@) == sanitized_candidates(
            candidate_views(candidates@),
            concluded_invalid@,
            scheduled@,
            core_index_enabled,
            groups@,
            disabled@,
            min_votes as nat,
        ),
        r.dropped_unscheduled_candidates == unscheduled_prefix(
            candidate_views(candidates@),
            concluded_invalid@,
            scheduled@,
            core_index_enabled,
            candidates@.len() as int,
        ),
        r.votes_from_disabled_were_dropped == any_disabled_vote(
            assigned_prefix(
                candidate_views(candidates@),
                concluded_invalid@,
                scheduled@,
                core_index_enabled,
                candidates@.len() as int,
            ),
            groups@,
            disabled@,
        ),
{
    let (mut with_core, dropped) = assign_cores(
        candidates,
        concluded_invalid,
        scheduled,
        core_index_enabled,
    );
    let found = filter_backed_statements_from_disabled_validators(
        &mut with_core,
        groups,
        disabled,
        min_votes,
    );
    SanitizedBackedCandidates {
        backed_candidates_with_core: with_core,
        votes_from_disabled_were_dropped: found,
        dropped_unscheduled_candidates: dropped,
    }
}

/// The weight of one backed candidate.
pub fn backed_candidate_weight(costs: &WeightCosts, c: &BackedCandidate) -> (r: Weight)
    ensures
        r == candidate_weight(*costs, c@),
{
    Weight::saturating_affine(
        costs.candidate_base,
        costs.candidate_per_vote,
        c.validity_votes.len() as u64,
    )
}

/// The weight of each candidate of a candidate-core list.
pub fn candidate_weight_list(costs: &WeightCosts, cs: &Vec<CandidateWithCore>) -> (r: Vec<Weight>)
    ensures
        r@ == candidate_weights(*costs, candidates_of(with_core_views(cs@))),
{
    let ghost target = candidate_weights(*costs, candidates_of(with_core_views(cs@)));
    let mut out: Vec<Weight> = Vec::new();
    let mut i: usize = 0;
    while i < cs.len()
        invariant
            i <= cs.len(),
            target == candidate_weights(*costs, candidates_of(with_core_views(cs@))),
            out@ == target.take(i as int),
        decreases cs.len() - i,
    {
        out.push(backed_candidate_weight(costs, &cs[i].0));
        i = i + 1;
        assert(out@ =~= target.take(i as int));
    }
    assert(out@ =~= target);
    out
}

/// The total weight of a sequence of backed candidates.
pub fn backed_candidates_weight(costs: &WeightCosts, cs: &Vec<BackedCandidate>) -> (r: Weight)
    ensures
        r == total(candidate_weights(*costs, candidate_views(cs@))),
{
    let ghost target = candidate_weights(*costs, candidate_views(cs@));
    let mut out: Vec<Weight> = Vec::new();
    let mut i: usize = 0;
    while i < cs.len()
        invariant
            i <= cs.len(),
            target == candidate_weights(*costs, candidate_views(cs@)),
            out@ == target.take(i as int),
        decreases cs.len() - i,
    {
        out.push(backed_candidate_weight(costs, &cs[i]));
        i = i + 1;
        assert(out@ =~= target.take(i as int));
    }
    assert(out@ =~= target);
    sum_weights(&out)
}

/// Core assignment never adds candidates.
pub proof fn lemma_assigned_prefix_len(
    cs: Seq<CandidateView>,
    invalid: Seq<bool>,
    sched: Seq<ScheduledPara>,
    core_index_enabled: bool,
    n: int,
)
    requires
        0 <= n,
    ensures
        assigned_prefix(cs, invalid, sched, core_index_enabled, n).len() <= n,
    decreases n,
{
    if n > 0 {
        lemma_assigned_prefix_len(cs, invalid, sched, core_index_enabled, n - 1);
    }
}

/// Stripping never adds candidates.
pub proof fn lemma_strip_and_filter_len(
    a: Seq<(CandidateView, u32)>,
    groups: Seq<Vec<u32>>,
    disabled: Seq<u32>,
    min_votes: nat,
)
    ensures
        strip_and_filter(a, groups, disabled, min_votes).len() <= a.len(),
    decreases a.len(),
{
    if a.len() > 0 {
        lemma_strip_and_filter_len(a.drop_last(), groups, disabled, min_votes);
    }
}

/// Stripping disabled votes keeps, stripped, every well-formed candidate
/// left with at least `min_votes` votes, and nothing with fewer.
pub proof fn lemma_disabled_vote_law(
    a: Seq<(CandidateView, u32)>,
    groups: Seq<Vec<u32>>,
    disabled: Seq<u32>,
    min_votes: nat,
)
    ensures
        forall|k: int|
            0 <= k < strip_and_filter(a, groups, disabled, min_votes).len() ==> (
            #[trigger] strip_and_filter(a, groups, disabled, min_votes)[k]).0.votes.len()
                >= min_votes,
        forall|k: int|
            0 <= k < a.len() && keeps_backing(#[trigger] a[k], groups, disabled, min_votes)
                ==> strip_and_filter(a, groups, disabled, min_votes).contains(
                (stripped(a[k].0, group_of(groups, a[k].1), disabled), a[k].1),
            ),
    decreases a.len(),
{
    if a.len() > 0 {
        let d = a.drop_last();
        lemma_disabled_vote_law(d, groups, disabled, min_votes);
        let prev = strip_and_filter(d, groups, disabled, min_votes);
        let out = strip_and_filter(a, groups, disabled, min_votes);
        assert forall|k: int| 0 <= k < out.len() implies (#[trigger] out[k]).0.votes.len()
            >= min_votes by {
            if k < prev.len() {
                assert(out[k] == prev[k]);
            }
        }
        assert forall|k: int|
            0 <= k < a.len() && keeps_backing(#[trigger] a[k], groups, disabled, min_votes)
                implies out.contains(
            (stripped(a[k].0, group_of(groups, a[k].1), disabled), a[k].1),
        ) by {
            let target = (stripped(a[k].0, group_of(groups, a[k].1), disabled), a[k].1);
            if k < d.len() {
                assert(d[k] == a[k]);
                assert(prev.contains(target));
                let m = choose|m: int| 0 <= m < prev.len() && prev[m] == target;
                assert(out[m] == prev[m]);
            } else {
                assert(out[out.len() - 1] == target);
            }
        }
    }
}
proof fn lemma_kept_votes_prefix(
    bits: Seq<bool>,
    votes: Seq<ValidityVote>,
    group: Seq<u32>,
    disabled: Seq<u32>,
    m: int,
    n: int,
)
    requires
        0 <= m <= n,
    ensures
        kept_votes(bits, votes, group, disabled, m).len() <= kept_votes(
            bits,
            votes,
            group,
            disabled,
            n,
        ).len(),
        kept_votes(bits, votes, group, disabled, m) == kept_votes(
            bits,
            votes,
            group,
            disabled,
            n,
        ).take(kept_votes(bits, votes, group, disabled, m).len() as int),
    decreases n - m,
{
    let km = kept_votes(bits, votes, group, disabled, m);
    if m == n {
        assert(km.take(km.len() as int) =~= km);
    } else {
        lemma_kept_votes_prefix(bits, votes, group, disabled, m, n - 1);
        let kn1 = kept_votes(bits, votes, group, disabled, n - 1);
        let kn = kept_votes(bits, votes, group, disabled, n);
        assert(kn.take(kn1.len() as int) =~= kn1);
        assert(kn.take(km.len() as int) =~= kn1.take(km.len() as int));
    }
}

proof fn lemma_strip_twice_votes(
    c: CandidateView,
    group: Seq<u32>,
    disabled: Seq<u32>,
    n: int,
)
    requires
        0 <= n <= c.bits.len(),
    ensures
        ({
            let s1 = stripped(c, group, disabled);
            &&& kept_votes(s1.bits, s1.votes, group, disabled, n) == kept_votes(
                c.bits,
                c.votes,
                group,
                disabled,
                n,
            )
            &&& ones(s1.bits, n) == kept_votes(c.bits, c.votes, group, disabled, n).len()
        }),
    decreases n,
{
    if n > 0 {
        lemma_strip_twice_votes(c, group, disabled, n - 1);
        lemma_kept_votes_prefix(c.bits, c.votes, group, disabled, n, c.bits.len() as int);
        lemma_kept_votes_prefix(c.bits, c.votes, group, disabled, n - 1, n);
    }
}

/// Stripping disabled votes from a stripped candidate changes nothing, and
/// a stripped candidate has one vote per set bit.
pub proof fn lemma_strip_idempotent(c: CandidateView, group: Seq<u32>, disabled: Seq<u32>)
    ensures
        stripped(stripped(c, group, disabled), group, disabled) == stripped(c, group, disabled),
        votes_match(stripped(c, group, disabled)),
{
    let s1 = stripped(c, group, disabled);
    lemma_strip_twice_votes(c, group, disabled, c.bits.len() as int);
    assert(stripped(s1, group, disabled).bits =~= s1.bits);
}

/// Sanitizing the candidates that survived disabled-vote stripping again,
/// with the same groups, disabled list and threshold, changes nothing.
pub proof fn lemma_strip_and_filter_idempotent(
    a: Seq<(CandidateView, u32)>,
    groups: Seq<Vec<u32>>,
    disabled: Seq<u32>,
    min_votes: nat,
)
    ensures
        strip_and_filter(strip_and_filter(a, groups, disabled, min_votes), groups, disabled, min_votes)
            == strip_and_filter(a, groups, disabled, min_votes),
    decreases a.len(),
{
    if a.len() > 0 {
        let d = a.drop_last();
        lemma_strip_and_filter_idempotent(d, groups, disabled, min_votes);
        let p = a.last();
        let prev = strip_and_filter(d, groups, disabled, min_votes);
        let out = strip_and_filter(a, groups, disabled, min_votes);
        if keeps_backing(p, groups, disabled, min_votes) {
            let q = (stripped(p.0, group_of(groups, p.1), disabled), p.1);
            lemma_strip_idempotent(p.0, group_of(groups, p.1), disabled);
            assert(out == prev.push(q));
            assert(out.drop_last() =~= prev);
            assert(keeps_backing(q, groups, disabled, min_votes));
        }
    }
}
proof fn lemma_all_keep_len(
    a: Seq<(CandidateView, u32)>,
    groups: Seq<Vec<u32>>,
    disabled: Seq<u32>,
    min_votes: nat,
)
    requires
        forall|k: int| 0 <= k < a.len() ==> keeps_backing(#[trigger] a[k], groups, disabled, min_votes),
    ensures
        strip_and_filter(a, groups, disabled, min_votes).len() == a.len(),
    decreases a.len(),
{
    if a.len() > 0 {
        let d = a.drop_last();
        assert forall|k: int| 0 <= k < d.len() implies keeps_backing(
            #[trigger] d[k],
            groups,
            disabled,
            min_votes,
        ) by {
            assert(d[k] == a[k]);
        }
        lemma_all_keep_len(d, groups, disabled, min_votes);
        assert(keeps_backing(a[a.len() - 1], groups, disabled, min_votes));
    }
}

/// When one candidate is left without enough backing and every other one
/// keeps enough, exactly one candidate is dropped; when that candidate
/// carried a disabled vote, the filter reports it.
pub proof fn lemma_drops_exactly_one(
    a: Seq<(CandidateView, u32)>,
    groups: Seq<Vec<u32>>,
    disabled: Seq<u32>,
    min_votes: nat,
    k0: int,
)
    requires
        0 <= k0 < a.len(),
        !keeps_backing(a[k0], groups, disabled, min_votes),
        forall|k: int|
            0 <= k < a.len() && k != k0 ==> keeps_backing(#[trigger] a[k], groups, disabled, min_votes),
    ensures
        strip_and_filter(a, groups, disabled, min_votes).len() == a.len() - 1,
        has_disabled_vote(a[k0].0, group_of(groups, a[k0].1), disabled) ==> any_disabled_vote(
            a,
            groups,
            disabled,
        ),
    decreases a.len(),
{
    let d = a.drop_last();
    if k0 == a.len() - 1 {
        assert forall|k: int| 0 <= k < d.len() implies keeps_backing(
            #[trigger] d[k],
            groups,
            disabled,
            min_votes,
        ) by {
            assert(d[k] == a[k]);
        }
        lemma_all_keep_len(d, groups, disabled, min_votes);
    } else {
        assert(d[k0] == a[k0]);
        assert forall|k: int| 0 <= k < d.len() && k != k0 implies keeps_backing(
            #[trigger] d[k],
            groups,
            disabled,
            min_votes,
        ) by {
            assert(d[k] == a[k]);
        }
        lemma_drops_exactly_one(d, groups, disabled, min_votes, k0);
        assert(keeps_backing(a[a.len() - 1], groups, disabled, min_votes));
    }
}
} // verus!
