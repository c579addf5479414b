use paras_inherent::bitfields::sanitize_bitfields;
use paras_inherent::bits::BitField;
use paras_inherent::candidates::{
    assign_cores, filter_backed_statements_from_disabled_validators, sanitize_backed_candidates,
    CandidateWithCore,
};
use paras_inherent::disputes::{sanitize_disputes, multi_dispute_statement_sets_weight};
use paras_inherent::primitives::{
    BackedCandidate, CandidateDescriptor, DisputeStatementSet, ScheduledPara,
    UncheckedSignedBitfield, ValidityVote,
};
use paras_inherent::weight::{Weight, WeightCosts};

fn bits(v: &[bool]) -> BitField {
    BitField::from_bools(&v.to_vec())
}

fn bf(validator_index: u32, payload: Vec<bool>) -> UncheckedSignedBitfield {
    UncheckedSignedBitfield {
        payload: bits(&payload),
        validator_index,
        signature: [validator_index as u8; 64],
    }
}

fn three_bitfields() -> Vec<UncheckedSignedBitfield> {
    vec![bf(0, vec![true, true]), bf(1, vec![true, true]), bf(2, vec![false, true])]
}

#[test]
fn bitfields_all_valid_are_kept() {
    let input = three_bitfields();
    let r = sanitize_bitfields(&input, &vec![true; 3], &bits(&[false; 2]), 2, 4);
    assert_eq!(r, input);
    assert_eq!(sanitize_bitfields(&input, &vec![true; 3], &bits(&[false; 2]), 2, 4), input);
}

#[test]
fn bitfields_disputed_core_is_cleared() {
    let r = sanitize_bitfields(&three_bitfields(), &vec![true; 3], &bits(&[true, false]), 2, 4);
    assert_eq!(r.len(), 3);
    assert_eq!(r[0].payload, bits(&[false, true]));
    assert_eq!(r[1].payload, bits(&[false, true]));
    assert_eq!(r[2].payload, bits(&[false, true]));
}

#[test]
fn bitfields_size_mismatch_empties_batch() {
    assert!(sanitize_bitfields(&three_bitfields(), &vec![true; 3], &bits(&[false; 2]), 3, 4).is_empty());
}

#[test]
fn bitfields_wrong_length_dropped_individually() {
    let mut input = three_bitfields();
    input[1].payload = bits(&[true, true, true]);
    let r = sanitize_bitfields(&input, &vec![true; 3], &bits(&[false; 2]), 2, 4);
    assert_eq!(r, vec![input[0].clone(), input[2].clone()]);
}

#[test]
fn bitfields_out_of_range_validator_dropped() {
    let input = three_bitfields();
    let r = sanitize_bitfields(&input, &vec![true; 3], &bits(&[false; 2]), 2, 2);
    assert_eq!(&r[..], &input[..2]);
}

#[test]
fn bitfields_bad_signature_dropped() {
    let input = three_bitfields();
    let r = sanitize_bitfields(&input, &vec![true, true, false], &bits(&[false; 2]), 2, 4);
    assert_eq!(&r[..], &input[..2]);
    let short = sanitize_bitfields(&input, &vec![true], &bits(&[false; 2]), 2, 4);
    assert_eq!(&short[..], &input[..1]);
}

#[test]
fn bitfields_duplicate_validator_keeps_first() {
    let input = vec![bf(1, vec![true, false]), bf(0, vec![true, true]), bf(1, vec![false, true])];
    let r = sanitize_bitfields(&input, &vec![true; 3], &bits(&[false; 2]), 2, 4);
    assert_eq!(r, vec![input[0].clone(), input[1].clone()]);
    let doubled: Vec<UncheckedSignedBitfield> =
        three_bitfields().into_iter().chain(three_bitfields()).collect();
    let r2 = sanitize_bitfields(&doubled, &vec![true; 6], &bits(&[false; 2]), 2, 4);
    assert_eq!(r2, three_bitfields());
}

#[test]
fn bitfields_order_is_kept() {
    let mut input = three_bitfields();
    let x = input.swap_remove(0);
    input.push(x);
    let r = sanitize_bitfields(&input, &vec![true; 3], &bits(&[false; 2]), 2, 4);
    assert_eq!(r, input);
}

#[test]
fn bitfields_sanitizing_twice_changes_nothing() {
    let input = vec![bf(3, vec![true, true]), bf(3, vec![true, false]), bf(0, vec![true, true])];
    let disputed = bits(&[false, true]);
    let once = sanitize_bitfields(&input, &vec![true; 3], &disputed, 2, 4);
    let twice = sanitize_bitfields(&once, &vec![true; once.len()], &disputed, 2, 4);
    assert_eq!(once, twice);
    assert_eq!(once.len(), 2);
}

fn ds(session: u32, tag: u8) -> DisputeStatementSet {
    DisputeStatementSet { candidate_hash: [tag; 32], session, statements: vec![] }
}

#[test]
fn disputes_future_session_dropped() {
    let r = sanitize_disputes(vec![ds(1, 1), ds(2, 2), ds(3, 3)], 2);
    assert_eq!(r, vec![ds(1, 1), ds(2, 2)]);
}

#[test]
fn disputes_sorted_oldest_first_stably() {
    let r = sanitize_disputes(vec![ds(2, 1), ds(2, 2), ds(1, 3), ds(0, 4)], 5);
    assert_eq!(r, vec![ds(0, 4), ds(1, 3), ds(2, 1), ds(2, 2)]);
}

#[test]
fn disputes_resubmission_counted_once() {
    let costs = WeightCosts {
        dispute_base: Weight::from_parts(10, 1),
        dispute_per_statement: Weight::from_parts(1, 1),
        bitfield: Weight::from_parts(0, 0),
        candidate_base: Weight::from_parts(0, 0),
        candidate_per_vote: Weight::from_parts(0, 0),
    };
    let once = sanitize_disputes(vec![ds(1, 1), ds(2, 2)], 2);
    let twice = sanitize_disputes(vec![ds(1, 1), ds(2, 2), ds(1, 1)], 2);
    assert_eq!(once, twice);
    assert_eq!(
        multi_dispute_statement_sets_weight(&costs, &once),
        multi_dispute_statement_sets_weight(&costs, &twice)
    );
    assert_eq!(multi_dispute_statement_sets_weight(&costs, &once), Weight::from_parts(20, 2));
}

fn cand(para_id: u32, set: Vec<bool>, core_index: Option<u32>) -> BackedCandidate {
    let votes = set.iter().filter(|b| **b).count();
    BackedCandidate {
        descriptor: CandidateDescriptor {
            para_id,
            relay_parent: [0; 32],
            pov_hash: [para_id as u8; 32],
            persisted_validation_data_hash: [42; 32],
            hrmp_watermark: 3,
        },
        candidate_hash: [para_id as u8; 32],
        validator_indices: bits(&set),
        validity_votes: (0..votes)
            .map(|i| ValidityVote { implicit: i == 0, signature: [i as u8; 64] })
            .collect(),
        core_index,
    }
}

/// Para 1 on core 0 (validators 0, 1), para 2 on core 1 (validators 2, 3).
fn two_paras() -> (Vec<ScheduledPara>, Vec<Vec<u32>>) {
    (
        vec![ScheduledPara { para_id: 1, cores: vec![0] }, ScheduledPara { para_id: 2, cores: vec![1] }],
        vec![vec![0, 1], vec![2, 3]],
    )
}

fn two_candidates(core_index_enabled: bool) -> Vec<BackedCandidate> {
    vec![
        cand(1, vec![true, true], core_index_enabled.then_some(0)),
        cand(2, vec![true, true], core_index_enabled.then_some(1)),
    ]
}

#[test]
fn happy_path() {
    for enabled in [false, true] {
        let (sched, groups) = two_paras();
        let cands = two_candidates(enabled);
        let r = sanitize_backed_candidates(cands.clone(), &vec![], &sched, enabled, &groups, &vec![], 2);
        let expected: Vec<CandidateWithCore> = vec![(cands[0].clone(), 0), (cands[1].clone(), 1)];
        assert_eq!(r.backed_candidates_with_core, expected);
        assert!(!r.votes_from_disabled_were_dropped);
        assert!(!r.dropped_unscheduled_candidates);
    }
}

/// Para 1 on cores 0 and 1 (two candidates), para 2 on cores 2 and 3 (one
/// candidate), para 3 on core 4 (one), para 4 on core 5 (two, the first
/// untagged), para 5 on core 6 (none). Validator `v` backs core `v`.
fn multi_core_data(enabled: bool) -> (Vec<ScheduledPara>, Vec<Vec<u32>>, Vec<BackedCandidate>) {
    let sched = vec![
        ScheduledPara { para_id: 1, cores: vec![0, 1] },
        ScheduledPara { para_id: 2, cores: vec![2, 3] },
        ScheduledPara { para_id: 3, cores: vec![4] },
        ScheduledPara { para_id: 4, cores: vec![5] },
        ScheduledPara { para_id: 5, cores: vec![6] },
    ];
    let groups: Vec<Vec<u32>> = (0..7).map(|v| vec![v]).collect();
    let t = |c: u32| enabled.then_some(c);
    let cands = vec![
        cand(1, vec![true], t(0)),
        cand(1, vec![true], t(1)),
        cand(2, vec![true], t(2)),
        cand(3, vec![true], t(4)),
        cand(4, vec![true], None),
        cand(4, vec![true], t(5)),
    ];
    (sched, groups, cands)
}

#[test]
fn test_with_multiple_cores_per_para() {
    for enabled in [false, true] {
        let (sched, groups, cands) = multi_core_data(enabled);
        let r = sanitize_backed_candidates(cands.clone(), &vec![], &sched, enabled, &groups, &vec![], 1);
        let expected: Vec<CandidateWithCore> = vec![
            (cands[0].clone(), 0),
            (cands[1].clone(), 1),
            (cands[2].clone(), 2),
            (cands[3].clone(), 4),
            (cands[4].clone(), 5),
        ];
        assert_eq!(r.backed_candidates_with_core, expected);
        assert!(!r.votes_from_disabled_were_dropped);
        assert!(r.dropped_unscheduled_candidates);
    }
}

#[test]
fn nothing_scheduled() {
    for enabled in [false, true] {
        for multiple_cores_per_para in [false, true] {
            let (groups, cands) = if multiple_cores_per_para {
                let (_, groups, cands) = multi_core_data(enabled);
                (groups, cands)
            } else {
                (two_paras().1, two_candidates(enabled))
            };
            let r = sanitize_backed_candidates(cands, &vec![], &vec![], enabled, &groups, &vec![], 2);
            assert!(r.backed_candidates_with_core.is_empty());
            assert!(!r.votes_from_disabled_were_dropped);
            assert!(r.dropped_unscheduled_candidates);
        }
    }
}

#[test]
fn untagged_candidate_takes_first_free_core_when_tagging_is_on() {
    let sched = vec![ScheduledPara { para_id: 1, cores: vec![0, 1] }];
    let groups: Vec<Vec<u32>> = vec![vec![0], vec![1]];
    let cands = vec![cand(1, vec![true], Some(0)), cand(1, vec![true], None), cand(1, vec![true], None)];
    let r = sanitize_backed_candidates(cands.clone(), &vec![], &sched, true, &groups, &vec![], 1);
    let expected: Vec<CandidateWithCore> = vec![(cands[0].clone(), 0), (cands[1].clone(), 1)];
    assert_eq!(r.backed_candidates_with_core, expected);
    assert!(r.dropped_unscheduled_candidates);
}

#[test]
fn explicit_core_not_scheduled_for_para_is_dropped() {
    let (sched, groups) = two_paras();
    let cands = vec![cand(1, vec![true, true], Some(1)), cand(2, vec![true, true], None)];
    let r = sanitize_backed_candidates(cands.clone(), &vec![], &sched, true, &groups, &vec![], 2);
    // Core 1 belongs to para 2: the first is dropped; the untagged second
    // gets its para's core.
    let expected: Vec<CandidateWithCore> = vec![(cands[1].clone(), 1)];
    assert_eq!(r.backed_candidates_with_core, expected);
    assert!(r.dropped_unscheduled_candidates);
}

#[test]
fn invalid_are_filtered_out() {
    for enabled in [false, true] {
        let (sched, groups) = two_paras();
        let cands = two_candidates(enabled);
        let r = sanitize_backed_candidates(cands.clone(), &vec![true, false], &sched, enabled, &groups, &vec![], 2);
        assert_eq!(r.backed_candidates_with_core.len(), cands.len() / 2);
        assert_eq!(r.backed_candidates_with_core[0].0, cands[1]);
        assert!(!r.votes_from_disabled_were_dropped);
        assert!(!r.dropped_unscheduled_candidates);
    }
}

fn with_cores(enabled: bool) -> Vec<CandidateWithCore> {
    let (sched, _) = two_paras();
    assign_cores(two_candidates(enabled), &vec![], &sched, enabled).0
}

#[test]
fn disabled_non_signing_validator_doesnt_get_filtered() {
    for enabled in [false, true] {
        let (_, groups) = two_paras();
        let mut all = with_cores(enabled);
        let before = all.clone();
        assert!(!filter_backed_statements_from_disabled_validators(&mut all, &groups, &vec![4], 2));
        assert_eq!(all, before);
    }
}

#[test]
fn drop_statements_from_disabled_without_dropping_candidate() {
    for enabled in [false, true] {
        let (_, groups) = two_paras();
        let mut all = with_cores(enabled);
        assert_eq!(all[0].0.validity_votes.len(), 2);
        assert_eq!(all[0].0.core_index.is_some(), enabled);
        assert!(all[0].0.validator_indices.get(0));
        assert!(all[0].0.validator_indices.get(1));
        let untouched = all[1].0.clone();
        let kept_vote = all[0].0.validity_votes[1];
        assert!(filter_backed_statements_from_disabled_validators(&mut all, &groups, &vec![0], 1));
        assert_eq!(all[0].0.core_index.is_some(), enabled);
        assert_eq!(all.len(), 2);
        assert_eq!(all[0].0.validity_votes.len(), 1);
        assert_eq!(all[0].0.validity_votes[0], kept_vote);
        assert!(!all[0].0.validator_indices.get(0));
        assert!(all[0].0.validator_indices.get(1));
        assert_eq!(all[1].0, untouched);
    }
}

#[test]
fn drop_candidate_if_all_statements_are_from_disabled() {
    for enabled in [false, true] {
        let (_, groups) = two_paras();
        let mut all = with_cores(enabled);
        assert_eq!(all[0].0.validity_votes.len(), 2);
        let untouched = all[1].0.clone();
        assert!(filter_backed_statements_from_disabled_validators(&mut all, &groups, &vec![0, 1], 2));
        assert_eq!(all.len(), 1);
        assert_eq!(all[0].0, untouched);
    }
}

#[test]
fn candidate_below_threshold_after_stripping_is_dropped() {
    let (_, groups) = two_paras();
    let mut all = with_cores(false);
    // One of two votes left, two required: dropped; the other candidate stays.
    assert!(filter_backed_statements_from_disabled_validators(&mut all, &groups, &vec![1], 2));
    assert_eq!(all.len(), 1);
    assert_eq!(all[0].1, 1);
}

#[test]
fn candidate_with_mismatched_votes_is_dropped() {
    let (_, groups) = two_paras();
    let mut all = with_cores(false);
    all[0].0.validity_votes.pop();
    assert!(!filter_backed_statements_from_disabled_validators(&mut all, &groups, &vec![], 1));
    assert_eq!(all.len(), 1);
    assert_eq!(all[0].1, 1);
}

#[test]
fn disputes_sanitizing_twice_changes_nothing() {
    let once = sanitize_disputes(vec![ds(3, 1), ds(2, 2), ds(1, 3), ds(2, 2), ds(9, 4)], 3);
    assert_eq!(once, vec![ds(1, 3), ds(2, 2), ds(3, 1)]);
    assert_eq!(sanitize_disputes(once.clone(), 3), once);
}

#[test]
fn candidates_filter_twice_changes_nothing() {
    let (_, groups) = two_paras();
    let mut all = with_cores(false);
    assert!(filter_backed_statements_from_disabled_validators(&mut all, &groups, &vec![1, 3], 1));
    let once = all.clone();
    assert!(!filter_backed_statements_from_disabled_validators(&mut all, &groups, &vec![1, 3], 1));
    assert_eq!(all, once);
    assert_eq!(all[0].0.validator_indices, bits(&[true, false]));
    assert_eq!(all[1].0.validator_indices, bits(&[true, false]));
}
