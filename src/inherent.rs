//! The admission controller: sanitizes a block's inherent payload in a fixed
//! priority order (disputes, then bitfields, then backed candidates) against
//! the block's weight ceiling, and accepts or rejects it once per block.

use vstd::prelude::*;
use crate::bits::BitField;
use crate::bitfields::{
    bitfield_weight_list, bitfield_weights, bitfields_match, kept_bitfields, lemma_doubled_bitfields,
    lemma_match_take,
    lemma_sanitized_prefix_len, sanitize_bitfields, signed_bitfields_weight,
};
use crate::candidates::{
    any_disabled_vote, assigned_prefix, backed_candidates_weight, candidate_views,
    candidate_weight_list, candidate_weights, candidates_of, lemma_assigned_prefix_len,
    lemma_strip_and_filter_len, sanitize_backed_candidates, sanitized_candidates,
    unscheduled_prefix, with_core_views, CandidateWithCore,
};
use crate::disputes::{
    dispute_keep_count, dispute_weight, dispute_weight_list, dispute_weights, has_dispute,
    lemma_recent_unique_covers, lemma_resubmitted_dispute, lemma_recent_unique_len, lemma_recent_unique_members,
    lemma_sort_sorted, multi_dispute_statement_sets_weight, recent_unique, same_dispute,
    sanitize_disputes, sanitized_disputes,
};
use crate::primitives::{
    schedule_wf, strictly_ascending, BackedCandidate, CandidateView, Digest, DisputeStatementSet, ScheduledPara, SessionIndex,
    UncheckedSignedBitfield,
};
use crate::weight::{
    greedy_count, greedy_len, lemma_greedy_len_bound, lemma_greedy_len_fits, total, zero_weight,
    Weight, WeightCosts,
};

verus! {

/// The inherent payload as a block carries it.
#[derive(Clone, Debug, PartialEq, Eq)]
pub struct ParachainsInherentData {
    pub bitfields: Vec<UncheckedSignedBitfield>,
    pub backed_candidates: Vec<BackedCandidate>,
    pub disputes: Vec<DisputeStatementSet>,
}

/// A read-only snapshot of everything the sanitizers consult for one block.
#[derive(Clone, Debug, PartialEq, Eq)]
pub struct InherentContext {
    /// The highest session this node can verify disputes for.
    pub current_session: SessionIndex,
    /// Cores whose availability cannot be trusted this block.
    pub disputed_cores: BitField,
    /// The number of cores: the length every bitfield must have.
    pub expected_bits: usize,
    /// The number of active validators.
    pub validator_count: usize,
    /// Outcome of the signature check of each submitted bitfield.
    pub bitfield_signature_valid: Vec<bool>,
    /// Whether each submitted candidate has concluded invalid.
    pub concluded_invalid: Vec<bool>,
    /// The cores scheduled for each para.
    pub scheduled: Vec<ScheduledPara>,
    /// Whether candidates name their core explicitly.
    pub core_index_enabled: bool,
    /// The backing group of each core.
    pub backing_groups: Vec<Vec<u32>>,
    /// Validators whose votes do not count.
    pub disabled_validators: Vec<u32>,
    /// Votes a candidate needs to stay backed.
    pub minimum_backing_votes: usize,
    /// The block's ceiling; the proof-size axis also bounds encoded length.
    pub max_block_weight: Weight,
    /// Per-record costs.
    pub costs: WeightCosts,
}

impl InherentContext {
    /// The schedule and the disabled list have the shape of the ordered
    /// collections they stand for.
    pub open spec fn wf(self) -> bool {
        schedule_wf(self.scheduled@) && strictly_ascending(self.disabled_validators@)
    }
}

/// Why a payload is refused.
#[derive(Clone, Copy, Debug, PartialEq, Eq, Structural)]
pub enum InherentError {
    /// The payload does not fit the block even with every optional record
    /// dropped.
    InherentOverweight,
    /// The inherent was already supplied in this block.
    InherentAlreadyEntered,
}

/// The filtered payload, with what was dropped.
#[derive(Debug, PartialEq, Eq)]
pub struct FilteredInherent {
    pub disputes: Vec<DisputeStatementSet>,
    pub bitfields: Vec<UncheckedSignedBitfield>,
    pub backed_candidates: Vec<CandidateWithCore>,
    pub disputes_filtered: usize,
    pub bitfields_filtered: usize,
    pub candidates_filtered: usize,
    pub votes_from_disabled_were_dropped: bool,
    pub dropped_unscheduled_candidates: bool,
}

/// Sanitized disputes, oldest first, cut to the greedy prefix that fits the
/// whole block (but at least the oldest one).
pub open spec fn limited_disputes(ds: Seq<DisputeStatementSet>, ctx: InherentContext) -> Seq<
    DisputeStatementSet,
> {
    let sd = sanitized_disputes(ds, ctx.current_session);
    sd.take(dispute_keep_count(dispute_weights(ctx.costs, sd), ctx.max_block_weight) as int)
}

/// The disputes that must be kept do not fit the block.
pub open spec fn disputes_overweight(ds: Seq<DisputeStatementSet>, ctx: InherentContext) -> bool {
    !total(dispute_weights(ctx.costs, limited_disputes(ds, ctx))).fits(ctx.max_block_weight)
}

/// The bitfields that pass sanitization, before clearing and limiting.
pub open spec fn sanitized_bitfields_of(
    bs: Seq<UncheckedSignedBitfield>,
    ctx: InherentContext,
) -> Seq<UncheckedSignedBitfield> {
    kept_bitfields(
        bs,
        ctx.bitfield_signature_valid@,
        ctx.disputed_cores@,
        ctx.expected_bits as nat,
        ctx.validator_count as nat,
    )
}

/// What the disputes leave of the block for bitfields.
pub open spec fn bitfield_budget(ds: Seq<DisputeStatementSet>, ctx: InherentContext) -> Weight {
    ctx.max_block_weight.minus(total(dispute_weights(ctx.costs, limited_disputes(ds, ctx))))
}

/// Some sanitized dispute did not fit.
pub open spec fn disputes_truncated(ds: Seq<DisputeStatementSet>, ctx: InherentContext) -> bool {
    limited_disputes(ds, ctx).len() < sanitized_disputes(ds, ctx.current_session).len()
}

/// How many sanitized bitfields are kept: none when some dispute did not
/// fit, else the greedy prefix of what the disputes leave.
pub open spec fn bitfield_keep(
    bs: Seq<UncheckedSignedBitfield>,
    ds: Seq<DisputeStatementSet>,
    ctx: InherentContext,
) -> nat {
    if disputes_truncated(ds, ctx) {
        0
    } else {
        greedy_len(
            bitfield_weights(ctx.costs, sanitized_bitfields_of(bs, ctx).len()),
            bitfield_budget(ds, ctx),
        )
    }
}

/// Some sanitized bitfield was not kept.
pub open spec fn bitfields_truncated(
    bs: Seq<UncheckedSignedBitfield>,
    ds: Seq<DisputeStatementSet>,
    ctx: InherentContext,
) -> bool {
    bitfield_keep(bs, ds, ctx) < sanitized_bitfields_of(bs, ctx).len()
}

/// What disputes and bitfields leave of the block for candidates.
pub open spec fn candidate_budget(
    bs: Seq<UncheckedSignedBitfield>,
    ds: Seq<DisputeStatementSet>,
    ctx: InherentContext,
) -> Weight {
    bitfield_budget(ds, ctx).minus(total(bitfield_weights(ctx.costs, bitfield_keep(bs, ds, ctx))))
}

/// The candidates that pass sanitization, before limiting.
pub open spec fn sanitized_candidates_of(cs: Seq<BackedCandidate>, ctx: InherentContext) -> Seq<
    (CandidateView, u32),
> {
    sanitized_candidates(
        candidate_views(cs),
        ctx.concluded_invalid@,
        ctx.scheduled@,
        ctx.core_index_enabled,
        ctx.backing_groups@,
        ctx.disabled_validators@,
        ctx.minimum_backing_votes as nat,
    )
}

/// How many sanitized candidates are kept: none when some dispute or
/// bitfield was not kept, else the greedy prefix of what those leave.
pub open spec fn candidate_keep(data: ParachainsInherentData, ctx: InherentContext) -> nat {
    if disputes_truncated(data.disputes@, ctx) || bitfields_truncated(
        data.bitfields@,
        data.disputes@,
        ctx,
    ) {
        0
    } else {
        greedy_len(
            candidate_weights(
                ctx.costs,
                candidates_of(sanitized_candidates_of(data.backed_candidates@, ctx)),
            ),
            candidate_budget(data.bitfields@, data.disputes@, ctx),
        )
    }
}

/// The weight of a filtered payload.
pub open spec fn filtered_weight(costs: WeightCosts, f: FilteredInherent) -> Weight {
    total(dispute_weights(costs, f.disputes@)).plus(
        total(bitfield_weights(costs, f.bitfields@.len())),
    ).plus(total(candidate_weights(costs, candidates_of(with_core_views(f.backed_candidates@)))))
}

/// The weight of a payload as submitted.
pub open spec fn payload_weight(costs: WeightCosts, data: ParachainsInherentData) -> Weight {
    total(dispute_weights(costs, data.disputes@)).plus(
        total(bitfield_weights(costs, data.bitfields@.len())),
    ).plus(total(candidate_weights(costs, candidate_views(data.backed_candidates@))))
}

/// `f` is what filtering `data` in `ctx` yields.
pub open spec fn filtered_from(
    data: ParachainsInherentData,
    ctx: InherentContext,
    f: FilteredInherent,
) -> bool {
    let assigned = assigned_prefix(
        candidate_views(data.backed_candidates@),
        ctx.concluded_invalid@,
        ctx.scheduled@,
        ctx.core_index_enabled,
        data.backed_candidates@.len() as int,
    );
    &&& f.disputes@ == limited_disputes(data.disputes@, ctx)
    &&& bitfields_match(
        f.bitfields@,
        sanitized_bitfields_of(data.bitfields@, ctx).take(
            bitfield_keep(data.bitfields@, data.disputes@, ctx) as int,
        ),
        ctx.disputed_cores@,
    )
    &&& with_core_views(f.backed_candidates@) == sanitized_candidates_of(
        data.backed_candidates@,
        ctx,
    ).take(candidate_keep(data, ctx) as int)
    &&& f.disputes_filtered == data.disputes@.len() - f.disputes@.len()
    &&& f.bitfields_filtered == data.bitfields@.len() - f.bitfields@.len()
    &&& f.candidates_filtered == data.backed_candidates@.len() - f.backed_candidates@.len()
    &&& f.dropped_unscheduled_candidates == unscheduled_prefix(
        candidate_views(data.backed_candidates@),
        ctx.concluded_invalid@,
        ctx.scheduled@,
        ctx.core_index_enabled,
        data.backed_candidates@.len() as int,
    )
    &&& f.votes_from_disabled_were_dropped == any_disabled_vote(
        assigned,
        ctx.backing_groups@,
        ctx.disabled_validators@,
    )
}

/// Sanitizes `data` and cuts it to the block's ceiling, spending the
/// budget on disputes first (oldest session first, the oldest always kept),
/// then on bitfields, then on backed candidates, each cut to its greedy
/// prefix; a category gets nothing once a record of a category before it
/// did not fit. Fails with `InherentOverweight` when the oldest dispute alone
/// exceeds the ceiling.
pub fn create_inherent(data: ParachainsInherentData, ctx: &InherentContext) -> (r: Result<
    FilteredInherent,
    InherentError,
>)
    requires
        ctx.wf(),
    ensures
        r is Err <==> disputes_overweight(data.disputes@, *ctx),
        match r {
            Ok(f) => filtered_from(data, *ctx, f) && filtered_weight(ctx.costs, f).fits(
                ctx.max_block_weight,
            ),
            Err(e) => e == InherentError::InherentOverweight,
        },
{
    let ghost d0 = data;
    let ghost c = *ctx;
    let ParachainsInherentData { bitfields, backed_candidates, disputes } = data;
    let n_disputes: usize = disputes.len();
    let n_bitfields: usize = bitfields.len();
    let n_candidates: usize = backed_candidates.len();
    let max = ctx.max_block_weight;

    // Disputes claim the block first.
    let mut ds = sanitize_disputes(disputes, ctx.current_session);
    let ghost sd = ds@;
    let sd_len: usize = ds.len();
    let dws = dispute_weight_list(&ctx.costs, &ds);
    let g = greedy_count(&dws, max);
    let keep: usize = if ds.len() == 0 {
        0
    } else if g == 0 {
        1
    } else {
        g
    };
    proof {
        lemma_greedy_len_bound(dws@, max);
        lemma_sort_sorted(recent_unique(d0.disputes@, c.current_session));
        lemma_recent_unique_len(d0.disputes@, c.current_session);
    }
    ds.truncate(keep);
    let dw = multi_dispute_statement_sets_weight(&ctx.costs, &ds);
    if !dw.all_lte(max) {
        return Err(InherentError::InherentOverweight);
    }
    let budget = max.saturating_sub(dw);

    // Then bitfields.
    let mut bs = sanitize_bitfields(
        &bitfields,
        &ctx.bitfield_signature_valid,
        &ctx.disputed_cores,
        ctx.expected_bits,
        ctx.validator_count,
    );
    let ghost kept = sanitized_bitfields_of(d0.bitfields@, c);
    let ghost bs_full = bs@;
    let bws = bitfield_weight_list(&ctx.costs, bs.len());
    let disputes_cut = keep < sd_len;
    let kb: usize = if disputes_cut {
        0
    } else {
        greedy_count(&bws, budget)
    };
    proof {
        lemma_greedy_len_bound(bws@, budget);
        assert(bws@.take(0) =~= Seq::<Weight>::empty());
        lemma_sanitized_prefix_len(
            d0.bitfields@,
            c.bitfield_signature_valid@,
            c.disputed_cores@,
            c.expected_bits as nat,
            c.validator_count as nat,
            d0.bitfields@.len() as int,
        );
        lemma_match_take(bs_full, kept, c.disputed_cores@, kb as int);
    }
    bs.truncate(kb);
    let bw = signed_bitfields_weight(&ctx.costs, &bs);
    proof {
        assert(bws@.take(kb as int) =~= bitfield_weights(c.costs, kb as nat));
    }
    let budget2 = budget.saturating_sub(bw);

    // Backed candidates get what is left.
    let sc = sanitize_backed_candidates(
        backed_candidates,
        &ctx.concluded_invalid,
        &ctx.scheduled,
        ctx.core_index_enabled,
        &ctx.backing_groups,
        &ctx.disabled_validators,
        ctx.minimum_backing_votes,
    );
    let votes_dropped = sc.votes_from_disabled_were_dropped;
    let unscheduled = sc.dropped_unscheduled_candidates;
    let mut cs = sc.backed_candidates_with_core;
    let ghost cs_full = cs@;
    let cws = candidate_weight_list(&ctx.costs, &cs);
    let kc: usize = if disputes_cut || kb < bws.len() {
        0
    } else {
        greedy_count(&cws, budget2)
    };
    proof {
        lemma_greedy_len_bound(cws@, budget2);
        assert(cws@.take(0) =~= Seq::<Weight>::empty());
        lemma_assigned_prefix_len(
            candidate_views(d0.backed_candidates@),
            c.concluded_invalid@,
            c.scheduled@,
            c.core_index_enabled,
            d0.backed_candidates@.len() as int,
        );
        lemma_strip_and_filter_len(
            assigned_prefix(
                candidate_views(d0.backed_candidates@),
                c.concluded_invalid@,
                c.scheduled@,
                c.core_index_enabled,
                d0.backed_candidates@.len() as int,
            ),
            c.backing_groups@,
            c.disabled_validators@,
            c.minimum_backing_votes as nat,
        );
    }
    cs.truncate(kc);
    proof {
        assert(with_core_views(cs@) =~= with_core_views(cs_full).take(kc as int));
        assert(cws@.take(kc as int) =~= candidate_weights(
            c.costs,
            candidates_of(with_core_views(cs@)),
        ));
    }
    let f = FilteredInherent {
        disputes_filtered: n_disputes - ds.len(),
        bitfields_filtered: n_bitfields - bs.len(),
        candidates_filtered: n_candidates - cs.len(),
        disputes: ds,
        bitfields: bs,
        backed_candidates: cs,
        votes_from_disabled_were_dropped: votes_dropped,
        dropped_unscheduled_candidates: unscheduled,
    };
    Ok(f)
}
/// Where the inherent of the current block stands. Weight checking happens
/// inside `enter`, between `Collecting` and its outcome.
#[derive(Clone, Copy, Debug, PartialEq, Eq, Structural)]
pub enum InherentPhase {
    /// No payload supplied yet in this block.
    Collecting,
    /// A payload was supplied and accepted.
    Accepted,
    /// A payload was supplied and rejected as overweight.
    Rejected,
}

/// The admission controller of one chain: at most one payload per block.
#[derive(Debug)]
pub struct ParasInherent {
    pub phase: InherentPhase,
}

impl ParasInherent {
    pub fn new() -> (r: ParasInherent)
        ensures
            r.phase == InherentPhase::Collecting,
    {
        ParasInherent { phase: InherentPhase::Collecting }
    }

    /// Starts a new block: a payload may be supplied again.
    pub fn new_block(&mut self)
        ensures
            final(self).phase == InherentPhase::Collecting,
    {
        self.phase = InherentPhase::Collecting;
    }

    /// Admits the block's payload, once. A payload that exceeds the ceiling
    /// as submitted is rejected outright, with nothing trimmed; otherwise it
    /// is sanitized as `create_inherent` does, which rejects it only when
    /// the disputes that must be kept do not fit.
    pub fn enter(&mut self, data: ParachainsInherentData, ctx: &InherentContext) -> (r: Result<
        FilteredInherent,
        InherentError,
    >)
        requires
            ctx.wf(),
        ensures
            old(self).phase != InherentPhase::Collecting ==> r == Err::<
                FilteredInherent,
                InherentError,
            >(InherentError::InherentAlreadyEntered) && final(self).phase == old(self).phase,
            old(self).phase == InherentPhase::Collecting ==> {
                &&& r is Err <==> (!payload_weight(ctx.costs, data).fits(ctx.max_block_weight)
                    || disputes_overweight(data.disputes@, *ctx))
                &&& r is Ok <==> final(self).phase == InherentPhase::Accepted
                &&& r is Err <==> final(self).phase == InherentPhase::Rejected
                &&& match r {
                    Ok(f) => filtered_from(data, *ctx, f) && filtered_weight(ctx.costs, f).fits(
                        ctx.max_block_weight,
                    ),
                    Err(e) => e == InherentError::InherentOverweight,
                }
            },
    {
        if self.phase != InherentPhase::Collecting {
            return Err(InherentError::InherentAlreadyEntered);
        }
        let dw = multi_dispute_statement_sets_weight(&ctx.costs, &data.disputes);
        let bw = signed_bitfields_weight(&ctx.costs, &data.bitfields);
        let cw = backed_candidates_weight(&ctx.costs, &data.backed_candidates);
        let submitted = dw.saturating_add(bw).saturating_add(cw);
        if !submitted.all_lte(ctx.max_block_weight) {
            self.phase = InherentPhase::Rejected;
            return Err(InherentError::InherentOverweight);
        }
        let r = create_inherent(data, ctx);
        match r {
            Ok(_) => {
                self.phase = InherentPhase::Accepted;
            },
            Err(_) => {
                self.phase = InherentPhase::Rejected;
            },
        }
        r
    }
}
/// Disputes are kept oldest first: no kept set is of a later session than a
/// sanitized set that was cut, or than a submitted set about a dispute that
/// was not kept. Bitfields get room only when every dispute fit, and
/// candidates only when every bitfield fit too.
pub proof fn lemma_priority_order(data: ParachainsInherentData, ctx: InherentContext)
    ensures
        ({
            let ds = data.disputes@;
            let sd = sanitized_disputes(ds, ctx.current_session);
            let out = limited_disputes(ds, ctx);
            &&& out == sd.take(out.len() as int)
            &&& forall|i: int, j: int|
                0 <= i < out.len() <= j < sd.len() ==> out[i].session <= sd[j].session
            &&& forall|i: int, j: int|
                0 <= i < out.len() && 0 <= j < ds.len() && !has_dispute(out, ds[j])
                    ==> out[i].session <= ds[j].session
            &&& bitfield_keep(data.bitfields@, ds, ctx) > 0 ==> !disputes_truncated(ds, ctx)
            &&& candidate_keep(data, ctx) > 0 ==> !disputes_truncated(ds, ctx)
                && !bitfields_truncated(data.bitfields@, ds, ctx)
        }),
{
    broadcast use vstd::seq_lib::group_to_multiset_ensures;

    let ds = data.disputes@;
    let cur = ctx.current_session;
    let ru = recent_unique(ds, cur);
    let sd = sanitized_disputes(ds, cur);
    let out = limited_disputes(ds, ctx);
    lemma_sort_sorted(ru);
    lemma_recent_unique_members(ds, cur);
    lemma_recent_unique_covers(ds, cur);
    lemma_greedy_len_bound(dispute_weights(ctx.costs, sd), ctx.max_block_weight);
    assert(out == sd.take(out.len() as int));
    assert forall|i: int, j: int|
        0 <= i < out.len() && 0 <= j < ds.len() && !has_dispute(out, ds[j]) implies out[i].session
        <= ds[j].session by {
        assert(out[i] == sd[i]);
        assert(sd.to_multiset().count(sd[i]) > 0);
        assert(ru.to_multiset().count(sd[i]) > 0);
        let q = choose|q: int| 0 <= q < ru.len() && ru[q] == sd[i];
        assert(ru[q].session <= cur);
        if ds[j].session <= cur {
            assert(has_dispute(ru, ds[j]));
            let m = choose|m: int| 0 <= m < ru.len() && same_dispute(#[trigger] ru[m], ds[j]);
            assert(ru.to_multiset().count(ru[m]) > 0);
            assert(sd.to_multiset().count(ru[m]) > 0);
            let p = choose|p: int| 0 <= p < sd.len() && sd[p] == ru[m];
            if p < out.len() {
                assert(out[p] == sd[p]);
                assert(same_dispute(out[p], ds[j]));
            }
        }
    }
}
/// What an accepted block leaves for vote scraping.
#[derive(Debug, PartialEq, Eq)]
pub struct ScrapedOnChainVotes {
    pub session: SessionIndex,
    /// Each included candidate's hash with the number of its backing votes.
    pub backing_validators_per_candidate: Vec<(Digest, usize)>,
    pub disputes: Vec<DisputeStatementSet>,
}

/// The scrape record of an accepted block in `session`.
pub fn scrape_on_chain_votes(
    session: SessionIndex,
    candidates: &Vec<CandidateWithCore>,
    disputes: Vec<DisputeStatementSet>,
) -> (r: ScrapedOnChainVotes)
    ensures
        r.session == session,
        r.disputes@ == disputes@,
        r.backing_validators_per_candidate@.len() == candidates@.len(),
        forall|k: int|
            0 <= k < candidates@.len() ==> (#[trigger] r.backing_validators_per_candidate@[k]) == (
            candidates@[k].0.candidate_hash,
            candidates@[k].0.validity_votes@.len() as usize,
        ),
{
    let mut per_candidate: Vec<(Digest, usize)> = Vec::new();
    let mut i: usize = 0;
    while i < candidates.len()
        invariant
            i <= candidates.len(),
            per_candidate@.len() == i,
            forall|k: int|
                0 <= k < i ==> (#[trigger] per_candidate@[k]) == (
                candidates@[k].0.candidate_hash,
                candidates@[k].0.validity_votes@.len() as usize,
            ),
        decreases candidates.len() - i,
    {
        let c = &candidates[i].0;
        per_candidate.push((c.candidate_hash, c.validity_votes.len()));
        i = i + 1;
    }
    ScrapedOnChainVotes { session, backing_validators_per_candidate: per_candidate, disputes }
}
/// When the sanitized disputes together exceed the ceiling but the oldest
/// alone fits, the payload is accepted with disputes alone: at least the
/// oldest one, which comes first, and no bitfield or candidate.
pub proof fn lemma_dispute_overflow(data: ParachainsInherentData, ctx: InherentContext)
    requires
        sanitized_disputes(data.disputes@, ctx.current_session).len() > 0,
        !total(
            dispute_weights(ctx.costs, sanitized_disputes(data.disputes@, ctx.current_session)),
        ).fits(ctx.max_block_weight),
        dispute_weight(
            ctx.costs,
            sanitized_disputes(data.disputes@, ctx.current_session)[0],
        ).fits(ctx.max_block_weight),
    ensures
        ({
            let ds = data.disputes@;
            let sd = sanitized_disputes(ds, ctx.current_session);
            let out = limited_disputes(ds, ctx);
            &&& !disputes_overweight(ds, ctx)
            &&& disputes_truncated(ds, ctx)
            &&& out.len() > 0 && out[0] == sd[0]
            &&& forall|j: int| 0 <= j < sd.len() ==> sd[0].session <= (#[trigger] sd[j]).session
            &&& bitfield_keep(data.bitfields@, ds, ctx) == 0
            &&& candidate_keep(data, ctx) == 0
        }),
{
    let ds = data.disputes@;
    let max = ctx.max_block_weight;
    let sd = sanitized_disputes(ds, ctx.current_session);
    let ws = dispute_weights(ctx.costs, sd);
    lemma_sort_sorted(recent_unique(ds, ctx.current_session));
    lemma_greedy_len_fits(ws, max);
    lemma_greedy_len_bound(ws, max);
    assert(ws.take(1).drop_last() =~= Seq::<Weight>::empty());
    assert(total(ws.take(1).drop_last()) == zero_weight());
    assert(ws.take(1).last() == ws[0]);
    assert(ws[0] == dispute_weight(ctx.costs, sd[0]));
    assert(total(ws.take(1)) == ws[0]);
    if sd.len() == 1 {
        assert(ws.take(1) =~= ws);
    }
    let g = greedy_len(ws, max);
    let keep = dispute_keep_count(ws, max);
    assert(keep < sd.len());
    assert(dispute_weights(ctx.costs, sd.take(keep as int)) =~= ws.take(keep as int));
}
/// Submitting again a dispute set that the payload already holds changes
/// neither what is kept of the payload nor the weight of what is kept.
pub proof fn lemma_resubmitted_dispute_payload(
    d1: ParachainsInherentData,
    d2: ParachainsInherentData,
    x: DisputeStatementSet,
    ctx: InherentContext,
    f1: FilteredInherent,
    f2: FilteredInherent,
)
    requires
        d1.disputes@.contains(x),
        d2.disputes@ == d1.disputes@.push(x),
        d2.bitfields@ == d1.bitfields@,
        d2.backed_candidates@ == d1.backed_candidates@,
    ensures
        limited_disputes(d2.disputes@, ctx) == limited_disputes(d1.disputes@, ctx),
        disputes_overweight(d2.disputes@, ctx) == disputes_overweight(d1.disputes@, ctx),
        bitfield_keep(d2.bitfields@, d2.disputes@, ctx) == bitfield_keep(
            d1.bitfields@,
            d1.disputes@,
            ctx,
        ),
        candidate_keep(d2, ctx) == candidate_keep(d1, ctx),
        filtered_from(d1, ctx, f1) && filtered_from(d2, ctx, f2) ==> filtered_weight(ctx.costs, f1)
            == filtered_weight(ctx.costs, f2),
{
    lemma_resubmitted_dispute(d1.disputes@, x, ctx.current_session, ctx.costs);
    if filtered_from(d1, ctx, f1) && filtered_from(d2, ctx, f2) {
        assert(f1.disputes@ == f2.disputes@);
        assert(f1.bitfields@.len() == f2.bitfields@.len());
        assert(with_core_views(f1.backed_candidates@) == with_core_views(f2.backed_candidates@));
    }
}
/// Submitting every bitfield of the payload twice (each copy with its
/// signature outcome) keeps the same bitfields, disputes and candidates, at
/// the same weight.
pub proof fn lemma_doubled_bitfields_payload(
    d1: ParachainsInherentData,
    d2: ParachainsInherentData,
    ctx1: InherentContext,
    ctx2: InherentContext,
    f1: FilteredInherent,
    f2: FilteredInherent,
)
    requires
        ctx1.bitfield_signature_valid@.len() == d1.bitfields@.len(),
        ctx2 == (InherentContext { bitfield_signature_valid: ctx2.bitfield_signature_valid, ..ctx1 }),
        ctx2.bitfield_signature_valid@ == ctx1.bitfield_signature_valid@
            + ctx1.bitfield_signature_valid@,
        d2.bitfields@ == d1.bitfields@ + d1.bitfields@,
        d2.disputes@ == d1.disputes@,
        d2.backed_candidates@ == d1.backed_candidates@,
    ensures
        sanitized_bitfields_of(d2.bitfields@, ctx2) == sanitized_bitfields_of(d1.bitfields@, ctx1),
        bitfield_keep(d2.bitfields@, d2.disputes@, ctx2) == bitfield_keep(
            d1.bitfields@,
            d1.disputes@,
            ctx1,
        ),
        candidate_keep(d2, ctx2) == candidate_keep(d1, ctx1),
        filtered_from(d1, ctx1, f1) && filtered_from(d2, ctx2, f2) ==> {
            &&& f2.disputes@ == f1.disputes@
            &&& bitfields_match(
                f2.bitfields@,
                sanitized_bitfields_of(d1.bitfields@, ctx1).take(
                    bitfield_keep(d1.bitfields@, d1.disputes@, ctx1) as int,
                ),
                ctx1.disputed_cores@,
            )
            &&& with_core_views(f2.backed_candidates@) == with_core_views(f1.backed_candidates@)
            &&& filtered_weight(ctx1.costs, f1) == filtered_weight(ctx2.costs, f2)
        },
{
    lemma_doubled_bitfields(
        d1.bitfields@,
        ctx1.bitfield_signature_valid@,
        ctx1.disputed_cores@,
        ctx1.expected_bits as nat,
        ctx1.validator_count as nat,
    );
    assert(limited_disputes(d2.disputes@, ctx2) == limited_disputes(d1.disputes@, ctx1));
    assert(sanitized_candidates_of(d2.backed_candidates@, ctx2) == sanitized_candidates_of(
        d1.backed_candidates@,
        ctx1,
    ));
}
} // verus!
