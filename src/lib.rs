//! Sanitization and weight-bounded admission of a relay-chain block's
//! parachains inherent: availability bitfields, backed candidates and
//! dispute statement sets.
//!
//! Every sanitizer here is a pure function of its inputs, so that all nodes
//! that run it on the same payload reach the same filtered payload. What
//! other modules of the chain decide (signature checks, which candidates
//! concluded invalid, the schedule, the disabled validators) comes in as
//! plain values.
//!
//! - `weight`: two-dimensional weights, their saturating sums, and the
//!   greedy prefix that fits a budget.
//! - `bits`: packed bit sequences for bitfields and backing bitmaps.
//! - `primitives`: the records of the payload.
//! - `disputes`: future-session filter, deduplication, oldest-first order.
//! - `bitfields`: per-record checks, disputed-core clearing, one bitfield
//!   per validator.
//! - `candidates`: core assignment, concluded-invalid filter, removal of
//!   votes by disabled validators.
//! - `inherent`: the admission controller that applies them in priority
//!   order against the block's ceiling.

pub mod bitfields;
pub mod bits;
pub mod candidates;
pub mod disputes;
pub mod inherent;
pub mod primitives;
pub mod weight;
