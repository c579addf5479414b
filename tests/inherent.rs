use paras_inherent::bits::BitField;
use paras_inherent::candidates::CandidateWithCore;
use paras_inherent::inherent::{
    create_inherent, scrape_on_chain_votes, FilteredInherent, InherentContext, InherentError, InherentPhase,
    ParachainsInherentData, ParasInherent,
};
use paras_inherent::primitives::{
    BackedCandidate, CandidateDescriptor, DisputeStatement, DisputeStatementSet, ScheduledPara,
    UncheckedSignedBitfield, ValidityVote,
};
use paras_inherent::weight::{Weight, WeightCosts};

fn costs() -> WeightCosts {
    WeightCosts {
        dispute_base: Weight::from_parts(1_000, 100),
        dispute_per_statement: Weight::from_parts(100, 10),
        bitfield: Weight::from_parts(50, 20),
        candidate_base: Weight::from_parts(500, 200),
        candidate_per_vote: Weight::from_parts(50, 10),
    }
}

fn dispute(session: u32, tag: u8, statements: usize) -> DisputeStatementSet {
    DisputeStatementSet {
        candidate_hash: [tag; 32],
        session,
        statements: (0..statements)
            .map(|i| DisputeStatement { valid: i % 2 == 0, validator_index: i as u32, signature: [7; 64] })
            .collect(),
    }
}

fn bitfield(validator_index: u32, bits: usize) -> UncheckedSignedBitfield {
    UncheckedSignedBitfield {
        payload: BitField::from_bools(&vec![true; bits]),
        validator_index,
        signature: [1; 64],
    }
}

fn candidate(para_id: u32, votes: usize, core_index: Option<u32>) -> BackedCandidate {
    BackedCandidate {
        descriptor: CandidateDescriptor {
            para_id,
            relay_parent: [0; 32],
            pov_hash: [para_id as u8; 32],
            persisted_validation_data_hash: [42; 32],
            hrmp_watermark: 3,
        },
        candidate_hash: [para_id as u8 + 100; 32],
        validator_indices: BitField::from_bools(&vec![true; votes]),
        validity_votes: vec![ValidityVote { implicit: false, signature: [2; 64] }; votes],
        core_index,
    }
}

/// `cores` cores, each scheduled for the para of the same number and backed
/// by `per_core` validators of its own.
fn context(cores: usize, per_core: usize, max: Weight) -> InherentContext {
    InherentContext {
        current_session: 2,
        disputed_cores: BitField::from_bools(&vec![false; cores]),
        expected_bits: cores,
        validator_count: cores * per_core,
        bitfield_signature_valid: vec![true; cores * per_core],
        concluded_invalid: vec![],
        scheduled: (0..cores as u32).map(|c| ScheduledPara { para_id: c, cores: vec![c] }).collect(),
        core_index_enabled: false,
        backing_groups: (0..cores)
            .map(|c| ((c * per_core) as u32..((c + 1) * per_core) as u32).collect())
            .collect(),
        disabled_validators: vec![],
        minimum_backing_votes: 1,
        max_block_weight: max,
        costs: costs(),
    }
}

fn payload(
    disputes: Vec<DisputeStatementSet>,
    n_bitfields: usize,
    cores: usize,
    candidates: Vec<BackedCandidate>,
) -> ParachainsInherentData {
    ParachainsInherentData {
        bitfields: (0..n_bitfields as u32).map(|v| bitfield(v, cores)).collect(),
        backed_candidates: candidates,
        disputes,
    }
}

fn weight_of(f: &FilteredInherent) -> Weight {
    let c = costs();
    let mut w = Weight::zero();
    for d in &f.disputes {
        w = w.saturating_add(paras_inherent::disputes::dispute_statement_set_weight(&c, d));
    }
    for _ in &f.bitfields {
        w = w.saturating_add(c.bitfield);
    }
    for (cand, _) in &f.backed_candidates {
        w = w.saturating_add(paras_inherent::candidates::backed_candidate_weight(&c, cand));
    }
    w
}

const BIG: Weight = Weight { ref_time: u64::MAX, proof_size: u64::MAX };

#[test]
fn include_backed_candidates() {
    let data = payload(vec![], 2, 2, vec![candidate(0, 1, None), candidate(1, 1, None)]);
    assert_eq!(data.bitfields.len(), 2);
    assert_eq!(data.backed_candidates.len(), 2);
    assert_eq!(data.disputes.len(), 0);
    let f = create_inherent(data.clone(), &context(2, 1, BIG)).unwrap();
    assert_eq!(f.bitfields, data.bitfields);
    let cands: Vec<BackedCandidate> = f.backed_candidates.iter().map(|p| p.0.clone()).collect();
    assert_eq!(cands, data.backed_candidates);
    assert_eq!(f.backed_candidates.iter().map(|p| p.1).collect::<Vec<u32>>(), vec![0, 1]);
    assert_eq!(f.disputes.len(), 0);
    assert_eq!((f.disputes_filtered, f.bitfields_filtered, f.candidates_filtered), (0, 0, 0));
    assert!(!f.votes_from_disabled_were_dropped);
    assert!(!f.dropped_unscheduled_candidates);
    let votes = scrape_on_chain_votes(2, &f.backed_candidates, f.disputes);
    assert_eq!(votes.backing_validators_per_candidate.len(), 2);
    assert_eq!(votes.backing_validators_per_candidate[0], ([100; 32], 1));
    assert_eq!(votes.session, 2);
}

#[test]
fn test_session_is_tracked_in_on_chain_scraping() {
    let statements = |session: u32, tag: u8| {
        let mut d = dispute(session, tag, 0);
        d.statements = vec![
            DisputeStatement { valid: false, validator_index: 0, signature: [3; 64] },
            DisputeStatement { valid: false, validator_index: 1, signature: [4; 64] },
            DisputeStatement { valid: true, validator_index: 1, signature: [5; 64] },
        ];
        vec![d]
    };
    let mut state = ParasInherent::new();
    for (session, tag) in [(3u32, 1u8), (7, 2)] {
        // A new session at each block.
        state.new_block();
        let mut ctx = context(2, 1, BIG);
        ctx.current_session = session;
        let f = state.enter(payload(statements(session, tag), 2, 2, vec![]), &ctx).unwrap();
        let votes = scrape_on_chain_votes(ctx.current_session, &f.backed_candidates, f.disputes);
        assert_eq!(votes.session, session);
        assert_eq!(votes.disputes, statements(session, tag));
        assert!(votes.backing_validators_per_candidate.is_empty());
    }
}

#[test]
fn filter_multi_dispute_data() {
    let disputes = vec![dispute(1, 1, 5), dispute(2, 2, 5), dispute(3, 3, 5)];
    let data = payload(disputes.clone(), 15, 3, vec![]);
    assert_eq!(data.bitfields.len(), 15);
    assert_eq!(data.backed_candidates.len(), 0);
    assert_eq!(data.disputes.len(), 3);
    let f = create_inherent(data, &context(3, 5, BIG)).unwrap();
    assert_eq!(f.disputes.len(), 2);
    assert_eq!(&f.disputes[..2], &disputes[..2]);
    assert_eq!(f.backed_candidates.len(), 0);
    assert_eq!(f.disputes_filtered, 1);
    let votes = scrape_on_chain_votes(2, &f.backed_candidates, f.disputes);
    assert_eq!(votes.backing_validators_per_candidate.len(), 0);
    assert_eq!(votes.session, 2);
}

#[test]
fn limit_dispute_data() {
    // Each dispute weighs 1_600 / 160; two fit, three do not.
    let disputes = vec![dispute(2, 1, 6), dispute(2, 2, 6), dispute(1, 3, 6)];
    let data = payload(disputes, 18, 3, vec![]);
    assert_eq!(data.bitfields.len(), 18);
    assert_eq!(data.disputes.len(), 3);
    let f = create_inherent(data, &context(3, 6, Weight::from_parts(4_000, 400))).unwrap();
    assert_eq!(f.disputes.len(), 2);
    assert_eq!(f.disputes[0].session, 1);
    assert_eq!(f.disputes[1].session, 2);
    assert_eq!(f.disputes[1].candidate_hash, [1; 32]);
    assert_eq!(f.backed_candidates.len(), 0);
    assert!(weight_of(&f).all_lte(Weight::from_parts(4_000, 400)));
}

#[test]
fn disputes_overweight_empty_the_rest() {
    // The disputes alone exceed the ceiling: the oldest is kept, nothing else.
    let disputes = vec![dispute(2, 1, 7), dispute(2, 2, 7), dispute(1, 3, 7)];
    let cands = vec![candidate(0, 2, None), candidate(1, 2, None)];
    let data = payload(disputes, 15, 3, cands);
    let f = create_inherent(data, &context(3, 5, Weight::from_parts(u64::MAX, 250))).unwrap();
    assert_eq!(f.disputes.len(), 1);
    assert_eq!(f.disputes[0].session, 1);
    assert_eq!(f.bitfields.len(), 0);
    assert_eq!(f.backed_candidates.len(), 0);
    assert_eq!((f.disputes_filtered, f.bitfields_filtered, f.candidates_filtered), (2, 15, 2));
}

#[test]
fn disputes_are_size_limited() {
    // Proof size 170 per dispute, a ceiling of 250: one dispute fits.
    let disputes = vec![dispute(2, 1, 7), dispute(2, 2, 7), dispute(1, 3, 7)];
    let data = payload(disputes, 15, 3, vec![]);
    assert_eq!(data.bitfields.len(), 15);
    assert_eq!(data.disputes.len(), 3);
    let max = Weight::from_parts(u64::MAX, 250);
    let f = create_inherent(data, &context(3, 5, max)).unwrap();
    assert!(weight_of(&f).all_lte(max));
    assert_eq!(f.bitfields.len(), 0);
    assert_eq!(f.backed_candidates.len(), 0);
    assert_eq!(f.disputes.len(), 1);
}

#[test]
fn oldest_dispute_too_heavy_is_rejected() {
    let data = payload(vec![dispute(1, 1, 7)], 2, 2, vec![]);
    let r = create_inherent(data, &context(2, 1, Weight::from_parts(u64::MAX, 100)));
    assert_eq!(r.unwrap_err(), InherentError::InherentOverweight);
}

#[test]
fn bitfields_are_size_limited() {
    // Proof size 20 per bitfield, a ceiling of 170: eight fit.
    let cands = vec![candidate(0, 2, None), candidate(1, 2, None)];
    let data = payload(vec![], 10, 2, cands);
    assert_eq!(data.bitfields.len(), 10);
    assert_eq!(data.backed_candidates.len(), 2);
    assert_eq!(data.disputes.len(), 0);
    let max = Weight::from_parts(u64::MAX, 170);
    let f = create_inherent(data, &context(2, 5, max)).unwrap();
    assert!(weight_of(&f).all_lte(max));
    assert_eq!(f.bitfields.len(), 8);
    assert_eq!(f.backed_candidates.len(), 0);
    assert_eq!(f.disputes.len(), 0);
}

#[test]
fn candidates_are_size_limited() {
    // Bitfields take 200, each candidate 220 of a 500 ceiling: one fits.
    let cands = vec![candidate(0, 2, None), candidate(1, 2, None)];
    let data = payload(vec![], 10, 2, cands);
    let max = Weight::from_parts(u64::MAX, 500);
    let f = create_inherent(data, &context(2, 5, max)).unwrap();
    assert!(weight_of(&f).all_lte(max));
    assert_eq!(f.bitfields.len(), 10);
    assert_eq!(f.backed_candidates.len(), 1);
    assert_eq!(f.backed_candidates[0].1, 0);
    assert_eq!(f.disputes.len(), 0);
    assert_eq!(weight_of(&f), Weight::from_parts(1_100, 420));
}

#[test]
fn inherent_create_weight_invariant() {
    let disputes = vec![dispute(2, 1, 100), dispute(2, 2, 200), dispute(1, 3, 300)];
    let cands: Vec<BackedCandidate> = (0..30).map(|i| candidate(i, i as usize, None)).collect();
    let data = payload(disputes, 165, 33, cands);
    assert_eq!(data.bitfields.len(), 165);
    assert_eq!(data.backed_candidates.len(), 30);
    assert_eq!(data.disputes.len(), 3);
    let mut state = ParasInherent::new();
    let r = state.enter(data, &context(33, 5, Weight::from_parts(100_000, 10_000)));
    assert_eq!(r.unwrap_err(), InherentError::InherentOverweight);
    assert_eq!(state.phase, InherentPhase::Rejected);
}

#[test]
fn enter_accepts_once_per_block() {
    let data = payload(vec![dispute(1, 1, 2)], 2, 2, vec![candidate(0, 1, None)]);
    let ctx = context(2, 1, BIG);
    let mut state = ParasInherent::new();
    let f = state.enter(data.clone(), &ctx).unwrap();
    assert_eq!(f.disputes.len(), 1);
    assert_eq!(f.backed_candidates.len(), 1);
    assert_eq!(state.phase, InherentPhase::Accepted);
    let again = state.enter(data.clone(), &ctx);
    assert_eq!(again.unwrap_err(), InherentError::InherentAlreadyEntered);
    assert_eq!(state.phase, InherentPhase::Accepted);
    state.new_block();
    assert!(state.enter(data, &ctx).is_ok());
}

#[test]
fn candidate_with_only_disabled_votes_is_dropped() {
    // Validators 0 and 1 back the candidate of core 0 and are disabled.
    let cands = vec![candidate(0, 2, None), candidate(1, 2, None)];
    let data = payload(vec![], 4, 2, cands);
    let mut ctx = context(2, 2, BIG);
    ctx.disabled_validators = vec![0, 1];
    let f = create_inherent(data, &ctx).unwrap();
    assert_eq!(f.backed_candidates.len(), 1);
    assert_eq!(f.backed_candidates[0].1, 1);
    assert_eq!(f.candidates_filtered, 1);
    assert!(f.votes_from_disabled_were_dropped);
    assert!(!f.dropped_unscheduled_candidates);
}

#[test]
fn priority_bitfields_before_candidates() {
    // Room for every bitfield but not for the candidate after them.
    let data = payload(vec![], 4, 2, vec![candidate(0, 2, None)]);
    let max = Weight::from_parts(u64::MAX, 100);
    let f = create_inherent(data, &context(2, 2, max)).unwrap();
    assert_eq!(f.bitfields.len(), 4);
    assert_eq!(f.backed_candidates.len(), 0);
    let with_core: Vec<CandidateWithCore> = f.backed_candidates;
    assert!(with_core.is_empty());
}

#[test]
fn accepted_output_respects_ceiling() {
    let disputes = vec![dispute(1, 1, 3), dispute(2, 2, 4)];
    let cands = vec![candidate(0, 3, None), candidate(1, 4, None), candidate(2, 1, None)];
    for limit in [0u64, 150, 400, 800, 1_200, 5_000] {
        let data = payload(disputes.clone(), 9, 3, cands.clone());
        let max = Weight::from_parts(u64::MAX, limit);
        match create_inherent(data, &context(3, 3, max)) {
            Ok(f) => assert!(weight_of(&f).all_lte(max)),
            Err(e) => assert_eq!(e, InherentError::InherentOverweight),
        }
    }
}

#[test]
fn resubmitted_dispute_adds_no_weight() {
    let disputes = vec![dispute(1, 1, 3), dispute(2, 2, 4)];
    let mut doubled = disputes.clone();
    doubled.push(disputes[0].clone());
    let max = Weight::from_parts(u64::MAX, 450);
    let f1 = create_inherent(payload(disputes, 4, 2, vec![candidate(0, 1, None)]), &context(2, 2, max)).unwrap();
    let f2 = create_inherent(payload(doubled, 4, 2, vec![candidate(0, 1, None)]), &context(2, 2, max)).unwrap();
    assert_eq!(f1.disputes, f2.disputes);
    assert_eq!(f1.bitfields, f2.bitfields);
    assert_eq!(f1.backed_candidates, f2.backed_candidates);
    assert_eq!(weight_of(&f1), weight_of(&f2));
    assert_eq!(f2.disputes_filtered, f1.disputes_filtered + 1);
    // Counted twice the disputes would not fit with the bitfields; counted once they do.
    assert_eq!(f2.bitfields.len(), 4);
}

#[test]
fn doubled_bitfields_collapse() {
    let data = payload(vec![dispute(1, 1, 2)], 4, 2, vec![candidate(0, 2, None)]);
    let mut doubled = data.clone();
    doubled.bitfields.extend(data.bitfields.clone());
    let ctx = context(2, 2, BIG);
    let mut ctx2 = ctx.clone();
    ctx2.bitfield_signature_valid = vec![true; 8];
    let f1 = create_inherent(data, &ctx).unwrap();
    let f2 = create_inherent(doubled, &ctx2).unwrap();
    assert_eq!(f1.bitfields, f2.bitfields);
    assert_eq!(f1.backed_candidates, f2.backed_candidates);
    assert_eq!(weight_of(&f1), weight_of(&f2));
    assert_eq!(f2.bitfields_filtered, 4);
}

#[test]
fn disputes_overflow_keeps_oldest_first() {
    let disputes = vec![dispute(2, 1, 1), dispute(0, 2, 1), dispute(1, 3, 1)];
    let max = Weight::from_parts(u64::MAX, 250);
    let f = create_inherent(payload(disputes, 2, 2, vec![candidate(1, 1, None)]), &context(2, 1, max)).unwrap();
    assert_eq!(f.disputes.len(), 2);
    assert_eq!(f.disputes[0].session, 0);
    assert_eq!(f.disputes[1].session, 1);
    assert!(f.bitfields.is_empty());
    assert!(f.backed_candidates.is_empty());
    assert!(weight_of(&f).all_lte(max));
}
