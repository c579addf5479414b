//! The records that make up a parachains inherent.

use vstd::prelude::*;
use crate::bits::BitField;

verus! {

/// A session of the validator set.
pub type SessionIndex = u32;

/// A 32-byte digest (candidate hash, relay parent, and the like).
pub type Digest = [u8; 32];

/// A 64-byte signature, kept as it came; this library checks none.
pub type Signature = [u8; 64];

/// One vote in a dispute: for or against validity, by one validator.
#[derive(Clone, Copy, Debug, PartialEq, Eq)]
pub struct DisputeStatement {
    pub valid: bool,
    pub validator_index: u32,
    pub signature: Signature,
}

/// Votes of several validators on one candidate in one session.
#[derive(Clone, Debug, PartialEq, Eq)]
pub struct DisputeStatementSet {
    pub candidate_hash: Digest,
    pub session: SessionIndex,
    pub statements: Vec<DisputeStatement>,
}

/// An availability bitfield as submitted: one bit per core, claimed to be
/// signed by the validator at `validator_index`.
#[derive(Clone, Debug, PartialEq, Eq)]
pub struct UncheckedSignedBitfield {
    pub payload: BitField,
    pub validator_index: u32,
    pub signature: Signature,
}

/// What a backed candidate commits to.
#[derive(Clone, Copy, Debug, PartialEq, Eq)]
pub struct CandidateDescriptor {
    pub para_id: u32,
    pub relay_parent: Digest,
    pub pov_hash: Digest,
    pub persisted_validation_data_hash: Digest,
    pub hrmp_watermark: u32,
}

/// One backing vote: a signature by a member of the backing group, either
/// on the seconded statement (`implicit`) or on a validity statement.
#[derive(Clone, Copy, Debug, PartialEq, Eq)]
pub struct ValidityVote {
    pub implicit: bool,
    pub signature: Signature,
}

/// A candidate with its backing: `validator_indices` has one bit per member
/// of the backing group, and `validity_votes` one vote per set bit, in the
/// order of the bits.
#[derive(Clone, Debug, PartialEq, Eq)]
pub struct BackedCandidate {
    pub descriptor: CandidateDescriptor,
    pub candidate_hash: Digest,
    pub validator_indices: BitField,
    pub validity_votes: Vec<ValidityVote>,
    /// The core the candidate targets, where core-index tagging is active.
    pub core_index: Option<u32>,
}

/// A backed candidate with its vectors seen as sequences.
pub struct CandidateView {
    pub descriptor: CandidateDescriptor,
    pub candidate_hash: Digest,
    pub bits: Seq<bool>,
    pub votes: Seq<ValidityVote>,
    pub core_index: Option<u32>,
}

impl View for BackedCandidate {
    type V = CandidateView;

    open spec fn view(&self) -> CandidateView {
        CandidateView {
            descriptor: self.descriptor,
            candidate_hash: self.candidate_hash,
            bits: self.validator_indices@,
            votes: self.validity_votes@,
            core_index: self.core_index,
        }
    }
}

/// Strictly ascending, hence without repeats: the contents of an ordered set.
pub open spec fn strictly_ascending(s: Seq<u32>) -> bool {
    forall|i: int, j: int| 0 <= i < j < s.len() ==> s[i] < s[j]
}

/// A schedule laid out as an ordered map from para to an ordered set of
/// cores: each para once, in ascending order, each with ascending cores.
pub open spec fn schedule_wf(sched: Seq<ScheduledPara>) -> bool {
    &&& forall|i: int, j: int| 0 <= i < j < sched.len() ==> sched[i].para_id < sched[j].para_id
    &&& forall|i: int| 0 <= i < sched.len() ==> strictly_ascending(#[trigger] sched[i].cores@)
}

/// The cores scheduled for one para this block, smallest first; the first
/// free one is handed out first.
#[derive(Clone, Debug, PartialEq, Eq)]
pub struct ScheduledPara {
    pub para_id: u32,
    pub cores: Vec<u32>,
}

} // verus!
