//! Availability bitfields: shape, signature and range checks, clearing of
//! disputed cores, and one bitfield per validator.

use vstd::prelude::*;
use crate::bits::{BitField, MAX_BITS};
use crate::primitives::UncheckedSignedBitfield;
use crate::weight::{sum_weights, total, Weight, WeightCosts};

verus! {

/// The signature check's outcome for record `i`; a record with no outcome
/// counts as badly signed.
pub open spec fn signature_ok(signature_valid: Seq<bool>, i: int) -> bool {
    0 <= i < signature_valid.len() && signature_valid[i]
}

/// Some bitfield of `s` is by validator `v`.
pub open spec fn has_validator(s: Seq<UncheckedSignedBitfield>, v: u32) -> bool {
    exists|k: int| 0 <= k < s.len() && (#[trigger] s[k]).validator_index == v
}

/// `payload` with every bit of a disputed core cleared.
pub open spec fn cleared(payload: Seq<bool>, disputed: Seq<bool>) -> Seq<bool> {
    Seq::new(payload.len(), |j: int| payload[j] && !(j < disputed.len() && disputed[j]))
}

/// Whether a bitfield passes the per-record checks: its validator exists,
/// it has one bit per core, and its signature verified.
pub open spec fn well_formed(
    b: UncheckedSignedBitfield,
    ok_sig: bool,
    expected_bits: nat,
    validator_count: nat,
) -> bool {
    &&& (b.validator_index as nat) < validator_count
    &&& b.payload@.len() == expected_bits
    &&& ok_sig
}

/// The sanitized bitfields among the first `n` submissions.
pub open spec fn sanitized_prefix(
    s: Seq<UncheckedSignedBitfield>,
    signature_valid: Seq<bool>,
    disputed: Seq<bool>,
    expected_bits: nat,
    validator_count: nat,
    n: int,
) -> Seq<UncheckedSignedBitfield>
    decreases n,
{
    if n <= 0 || disputed.len() != expected_bits {
        Seq::empty()
    } else {
        let prev = sanitized_prefix(
            s,
            signature_valid,
            disputed,
            expected_bits,
            validator_count,
            n - 1,
        );
        let x = s[n - 1];
        if well_formed(x, signature_ok(signature_valid, n - 1), expected_bits, validator_count)
            && !has_validator(prev, x.validator_index) {
            prev.push(x)
        } else {
            prev
        }
    }
}

/// What sanitizing yields, except that the kept payloads still have to be
/// cleared on disputed cores (see `bitfields_match`).
pub open spec fn kept_bitfields(
    s: Seq<UncheckedSignedBitfield>,
    signature_valid: Seq<bool>,
    disputed: Seq<bool>,
    expected_bits: nat,
    validator_count: nat,
) -> Seq<UncheckedSignedBitfield> {
    sanitized_prefix(s, signature_valid, disputed, expected_bits, validator_count, s.len() as int)
}

/// `r` is `kept` with each payload cleared on disputed cores.
pub open spec fn bitfields_match(
    r: Seq<UncheckedSignedBitfield>,
    kept: Seq<UncheckedSignedBitfield>,
    disputed: Seq<bool>,
) -> bool {
    &&& r.len() == kept.len()
    &&& forall|k: int|
        0 <= k < r.len() ==> {
            &&& (#[trigger] r[k]).validator_index == kept[k].validator_index
            &&& r[k].signature == kept[k].signature
            &&& r[k].payload@ == cleared(kept[k].payload@, disputed)
        }
}

/// Clears the bits of disputed cores.
fn clear_disputed(payload: &BitField, disputed: &BitField) -> (r: BitField)
    ensures
        r@ == cleared(payload@, disputed@),
{
    let n = payload.len();
    let mut out = BitField::new();
    let mut j: usize = 0;
    while j < n
        invariant
            j <= n,
            n == payload@.len(),
            n <= MAX_BITS,
            out@ == cleared(payload@, disputed@).take(j as int),
        decreases n - j,
    {
        let d = j < disputed.len() && disputed.get(j);
        out.push(payload.get(j) && !d);
        j = j + 1;
        assert(out@ =~= cleared(payload@, disputed@).take(j as int));
    }
    assert(out@ =~= cleared(payload@, disputed@));
    out
}

/// Keeps, in submission order, each bitfield whose validator index is below
/// `validator_count`, whose length is `expected_bits` and whose signature
/// check (`signature_valid[i]` for submission `i`) passed, and which is the
/// first such bitfield of its validator; bits of disputed cores are cleared.
/// A `disputed` mask of another length than `expected_bits` empties the batch.
pub fn sanitize_bitfields(
    unchecked: &Vec<UncheckedSignedBitfield>,
    signature_valid: &Vec<bool>,
    disputed: &BitField,
    expected_bits: usize,
    validator_count: usize,
) -> (r: Vec<UncheckedSignedBitfield>)
    ensures
        bitfields_match(
            r@,
            kept_bitfields(
                unchecked@,
                signature_valid@,
                disputed@,
                expected_bits as nat,
                validator_count as nat,
            ),
            disputed@,
        ),
        disputed@.len() != expected_bits ==> r@.len() == 0,
{
    let ghost s = unchecked@;
    let ghost sv = signature_valid@;
    let ghost ds = disputed@;
    let ghost eb = expected_bits as nat;
    let ghost vc = validator_count as nat;
    let mut out: Vec<UncheckedSignedBitfield> = Vec::new();
    if disputed.len() != expected_bits {
        return out;
    }
    let mut seen: Vec<bool> = Vec::new();
    while seen.len() < validator_count
        invariant
            seen.len() <= validator_count,
            forall|v: int| 0 <= v < seen.len() ==> !seen@[v],
        decreases validator_count - seen.len(),
    {
        seen.push(false);
    }
    let ghost mut kept: Seq<UncheckedSignedBitfield> = Seq::empty();
    let mut i: usize = 0;
    while i < unchecked.len()
        invariant
            i <= unchecked.len(),
            s == unchecked@,
            sv == signature_valid@,
            eb == expected_bits as nat,
            vc == validator_count as nat,
            ds == disputed@,
            ds.len() == eb,
            seen.len() == validator_count,
            kept == sanitized_prefix(s, sv, ds, eb, vc, i as int),
            bitfields_match(out@, kept, ds),
            forall|v: u32|
                (v as int) < validator_count ==> (seen@[v as int] <==> has_validator(kept, v)),
            forall|k: int| 0 <= k < kept.len() ==> ((#[trigger] kept[k]).validator_index as nat) < vc,
        decreases unchecked.len() - i,
    {
        let x = &unchecked[i];
        let sig = i < signature_valid.len() && signature_valid[i];
        let vi = x.validator_index as usize;
        proof {
            assert(s[i as int] == *x);
            assert(sig == signature_ok(sv, i as int));
            assert(sanitized_prefix(s, sv, ds, eb, vc, i + 1) == (if well_formed(
                *x,
                sig,
                eb,
                vc,
            ) && !has_validator(kept, x.validator_index) {
                kept.push(*x)
            } else {
                kept
            }));
            if (vi as int) < validator_count {
                assert(seen@[vi as int] == has_validator(kept, x.validator_index));
            }
        }
        if vi < validator_count && x.payload.len() == expected_bits && sig && !seen[vi] {
            let payload = clear_disputed(&x.payload, disputed);
            let ghost before = kept;
            proof {
                kept = kept.push(*x);
                assert(sanitized_prefix(s, sv, ds, eb, vc, i + 1) == kept);
            }
            out.push(
                UncheckedSignedBitfield {
                    payload,
                    validator_index: x.validator_index,
                    signature: x.signature,
                },
            );
            let ghost seen_before = seen@;
            seen.set(vi, true);
            proof {
                assert(seen@ == seen_before.update(vi as int, true));
                assert forall|v: u32| (v as int) < validator_count implies (seen@[v as int]
                    <==> has_validator(kept, v)) by {
                    if v == x.validator_index {
                        assert(kept[kept.len() - 1].validator_index == v);
                        assert(has_validator(kept, v));
                        assert(v as int == vi as int);
                    } else if has_validator(kept, v) {
                        assert(seen@[v as int] == seen_before[v as int]);
                        let k = choose|k: int|
                            0 <= k < kept.len() && (#[trigger] kept[k]).validator_index == v;
                        assert(k < before.len());
                        assert(before[k] == kept[k]);
                        assert(has_validator(before, v));
                    } else {
                        assert(seen@[v as int] == seen_before[v as int]);
                        assert forall|k: int| 0 <= k < before.len() implies (
                        #[trigger] before[k]).validator_index != v by {
                            assert(before[k] == kept[k]);
                        }
                        assert(!has_validator(before, v));
                    }
                }
                assert forall|k: int| 0 <= k < kept.len() implies ((
                #[trigger] kept[k]).validator_index as nat) < vc by {
                    if k < before.len() {
                        assert(before[k] == kept[k]);
                    }
                }
                assert forall|k: int| 0 <= k < out@.len() implies {
                    &&& (#[trigger] out@[k]).validator_index == kept[k].validator_index
                    &&& out@[k].signature == kept[k].signature
                    &&& out@[k].payload@ == cleared(kept[k].payload@, ds)
                } by {
                    if k < before.len() {
                        assert(before[k] == kept[k]);
                    }
                }
            }
        } else {
            proof {
                assert(sanitized_prefix(s, sv, ds, eb, vc, i + 1) == kept);
            }
        }
        i = i + 1;
    }
    proof {
        assert(s.len() == i);
    }
    out
}

/// `n` copies of the bitfield weight.
pub open spec fn bitfield_weights(costs: WeightCosts, n: nat) -> Seq<Weight> {
    Seq::new(n, |i: int| costs.bitfield)
}

/// The weight of each of `n` bitfields.
pub fn bitfield_weight_list(costs: &WeightCosts, n: usize) -> (r: Vec<Weight>)
    ensures
        r@ == bitfield_weights(*costs, n as nat),
{
    let mut out: Vec<Weight> = Vec::new();
    while out.len() < n
        invariant
            out.len() <= n,
            out@ == bitfield_weights(*costs, n as nat).take(out.len() as int),
        decreases n - out.len(),
    {
        out.push(costs.bitfield);
        assert(out@ =~= bitfield_weights(*costs, n as nat).take(out.len() as int));
    }
    assert(out@ =~= bitfield_weights(*costs, n as nat));
    out
}

/// The total weight of a sequence of signed bitfields.
pub fn signed_bitfields_weight(costs: &WeightCosts, bitfields: &Vec<UncheckedSignedBitfield>) -> (r:
    Weight)
    ensures
        r == total(bitfield_weights(*costs, bitfields@.len())),
{
    sum_weights(&bitfield_weight_list(costs, bitfields.len()))
}

/// Sanitizing never adds bitfields.
pub proof fn lemma_sanitized_prefix_len(
    s: Seq<UncheckedSignedBitfield>,
    signature_valid: Seq<bool>,
    disputed: Seq<bool>,
    expected_bits: nat,
    validator_count: nat,
    n: int,
)
    requires
        0 <= n,
    ensures
        sanitized_prefix(s, signature_valid, disputed, expected_bits, validator_count, n).len() <= n,
    decreases n,
{
    if n > 0 {
        lemma_sanitized_prefix_len(s, signature_valid, disputed, expected_bits, validator_count, n - 1);
    }
}

/// Cutting both sides of a match to the same length keeps the match.
pub proof fn lemma_match_take(
    r: Seq<UncheckedSignedBitfield>,
    kept: Seq<UncheckedSignedBitfield>,
    disputed: Seq<bool>,
    k: int,
)
    requires
        bitfields_match(r, kept, disputed),
        0 <= k <= r.len(),
    ensures
        bitfields_match(r.take(k), kept.take(k), disputed),
{
    assert forall|i: int| 0 <= i < k implies {
        &&& (#[trigger] r.take(k)[i]).validator_index == kept.take(k)[i].validator_index
        &&& r.take(k)[i].signature == kept.take(k)[i].signature
        &&& r.take(k)[i].payload@ == cleared(kept.take(k)[i].payload@, disputed)
    } by {
        assert(r.take(k)[i] == r[i]);
        assert(kept.take(k)[i] == kept[i]);
    }
}

/// What every kept bitfield satisfies, and that no two share a validator.
proof fn lemma_kept_facts(
    s: Seq<UncheckedSignedBitfield>,
    signature_valid: Seq<bool>,
    disputed: Seq<bool>,
    expected_bits: nat,
    validator_count: nat,
    n: int,
)
    requires
        0 <= n <= s.len(),
    ensures
        ({
            let kept = sanitized_prefix(s, signature_valid, disputed, expected_bits, validator_count, n);
            &&& forall|k: int|
                0 <= k < kept.len() ==> ((#[trigger] kept[k]).validator_index as nat)
                    < validator_count && kept[k].payload@.len() == expected_bits
            &&& forall|i: int, j: int|
                0 <= i < j < kept.len() ==> kept[i].validator_index != kept[j].validator_index
            &&& kept.len() > 0 ==> disputed.len() == expected_bits
        }),
    decreases n,
{
    if n > 0 && disputed.len() == expected_bits {
        lemma_kept_facts(s, signature_valid, disputed, expected_bits, validator_count, n - 1);
        let prev = sanitized_prefix(
            s,
            signature_valid,
            disputed,
            expected_bits,
            validator_count,
            n - 1,
        );
        let kept = sanitized_prefix(s, signature_valid, disputed, expected_bits, validator_count, n);
        if kept.len() > prev.len() {
            assert forall|i: int, j: int| 0 <= i < j < kept.len() implies kept[i].validator_index
                != kept[j].validator_index by {
                if j == kept.len() - 1 {
                    assert(kept[i] == prev[i]);
                    assert(!has_validator(prev, kept[j].validator_index));
                } else {
                    assert(kept[i] == prev[i] && kept[j] == prev[j]);
                }
            }
            assert forall|k: int| 0 <= k < kept.len() implies ((#[trigger] kept[k]).validator_index
                as nat) < validator_count && kept[k].payload@.len() == expected_bits by {
                if k < prev.len() {
                    assert(kept[k] == prev[k]);
                }
            }
        }
    }
}

/// No two sanitized bitfields are by the same validator: of several
/// bitfields by one validator, only the first that passes the checks stays.
pub proof fn lemma_one_bitfield_per_validator(
    s: Seq<UncheckedSignedBitfield>,
    signature_valid: Seq<bool>,
    disputed: Seq<bool>,
    expected_bits: nat,
    validator_count: nat,
)
    ensures
        ({
            let kept = kept_bitfields(s, signature_valid, disputed, expected_bits, validator_count);
            forall|i: int, j: int|
                0 <= i < j < kept.len() ==> kept[i].validator_index != kept[j].validator_index
        }),
{
    lemma_kept_facts(s, signature_valid, disputed, expected_bits, validator_count, s.len() as int);
}

proof fn lemma_resanitize_prefix(
    r: Seq<UncheckedSignedBitfield>,
    signature_valid: Seq<bool>,
    disputed: Seq<bool>,
    expected_bits: nat,
    validator_count: nat,
    n: int,
)
    requires
        0 <= n <= r.len(),
        r.len() > 0 ==> disputed.len() == expected_bits,
        signature_valid.len() == r.len(),
        forall|i: int| 0 <= i < signature_valid.len() ==> signature_valid[i],
        forall|k: int|
            0 <= k < r.len() ==> ((#[trigger] r[k]).validator_index as nat) < validator_count
                && r[k].payload@.len() == expected_bits,
        forall|i: int, j: int| 0 <= i < j < r.len() ==> r[i].validator_index != r[j].validator_index,
    ensures
        sanitized_prefix(r, signature_valid, disputed, expected_bits, validator_count, n) == r.take(n),
    decreases n,
{
    if n == 0 {
        assert(r.take(0) =~= Seq::<UncheckedSignedBitfield>::empty());
    } else {
        lemma_resanitize_prefix(r, signature_valid, disputed, expected_bits, validator_count, n - 1);
        let prev = r.take(n - 1);
        let x = r[n - 1];
        assert forall|k: int| 0 <= k < prev.len() implies (#[trigger] prev[k]).validator_index
            != x.validator_index by {
            assert(prev[k] == r[k]);
        }
        assert(!has_validator(prev, x.validator_index));
        assert(r.take(n) =~= prev.push(x));
    }
}

/// Sanitizing the output again, with the same mask, length and validator
/// count and every signature accepted, yields the same bitfields.
pub proof fn lemma_sanitize_bitfields_idempotent(
    s: Seq<UncheckedSignedBitfield>,
    signature_valid: Seq<bool>,
    disputed: Seq<bool>,
    expected_bits: nat,
    validator_count: nat,
    r: Seq<UncheckedSignedBitfield>,
    again_valid: Seq<bool>,
)
    requires
        bitfields_match(
            r,
            kept_bitfields(s, signature_valid, disputed, expected_bits, validator_count),
            disputed,
        ),
        again_valid.len() == r.len(),
        forall|i: int| 0 <= i < again_valid.len() ==> again_valid[i],
    ensures
        kept_bitfields(r, again_valid, disputed, expected_bits, validator_count) == r,
        bitfields_match(r, r, disputed),
{
    let kept = kept_bitfields(s, signature_valid, disputed, expected_bits, validator_count);
    lemma_kept_facts(s, signature_valid, disputed, expected_bits, validator_count, s.len() as int);
    assert forall|k: int| 0 <= k < r.len() implies ((#[trigger] r[k]).validator_index as nat)
        < validator_count && r[k].payload@.len() == expected_bits by {
        assert(r[k].payload@ == cleared(kept[k].payload@, disputed));
    }
    assert forall|i: int, j: int| 0 <= i < j < r.len() implies r[i].validator_index
        != r[j].validator_index by {
        assert(r[i].validator_index == kept[i].validator_index);
        assert(r[j].validator_index == kept[j].validator_index);
    }
    lemma_resanitize_prefix(r, again_valid, disputed, expected_bits, validator_count, r.len() as int);
    assert(r.take(r.len() as int) =~= r);
    assert forall|k: int| 0 <= k < r.len() implies (#[trigger] r[k]).payload@ == cleared(
        r[k].payload@,
        disputed,
    ) by {
        assert(r[k].payload@ == cleared(kept[k].payload@, disputed));
        assert(cleared(r[k].payload@, disputed) =~= r[k].payload@);
    }
}
proof fn lemma_has_validator_grows(
    s: Seq<UncheckedSignedBitfield>,
    signature_valid: Seq<bool>,
    disputed: Seq<bool>,
    expected_bits: nat,
    validator_count: nat,
    m: int,
    n: int,
    v: u32,
)
    requires
        0 <= m <= n,
        has_validator(
            sanitized_prefix(s, signature_valid, disputed, expected_bits, validator_count, m),
            v,
        ),
    ensures
        has_validator(
            sanitized_prefix(s, signature_valid, disputed, expected_bits, validator_count, n),
            v,
        ),
    decreases n - m,
{
    if m < n {
        lemma_has_validator_grows(s, signature_valid, disputed, expected_bits, validator_count, m, n - 1, v);
        let p = sanitized_prefix(s, signature_valid, disputed, expected_bits, validator_count, n - 1);
        let q = sanitized_prefix(s, signature_valid, disputed, expected_bits, validator_count, n);
        let k = choose|k: int| 0 <= k < p.len() && (#[trigger] p[k]).validator_index == v;
        assert(q[k] == p[k]);
    }
}

proof fn lemma_doubled_prefix(
    s: Seq<UncheckedSignedBitfield>,
    signature_valid: Seq<bool>,
    disputed: Seq<bool>,
    expected_bits: nat,
    validator_count: nat,
    m: int,
)
    requires
        signature_valid.len() == s.len(),
        0 <= m <= 2 * s.len(),
    ensures
        sanitized_prefix(
            s + s,
            signature_valid + signature_valid,
            disputed,
            expected_bits,
            validator_count,
            m,
        ) == sanitized_prefix(
            s,
            signature_valid,
            disputed,
            expected_bits,
            validator_count,
            if m <= s.len() {
                m
            } else {
                s.len() as int
            },
        ),
    decreases m,
{
    let t = s + s;
    let tv = signature_valid + signature_valid;
    let n = s.len() as int;
    if m > 0 && disputed.len() == expected_bits {
        lemma_doubled_prefix(s, signature_valid, disputed, expected_bits, validator_count, m - 1);
        if m <= n {
            assert(t[m - 1] == s[m - 1]);
            assert(signature_ok(tv, m - 1) == signature_ok(signature_valid, m - 1));
        } else {
            let i = m - 1 - n;
            let x = s[i];
            assert(t[m - 1] == x);
            assert(signature_ok(tv, m - 1) == signature_ok(signature_valid, i));
            let full = sanitized_prefix(s, signature_valid, disputed, expected_bits, validator_count, n);
            if well_formed(x, signature_ok(signature_valid, i), expected_bits, validator_count) {
                let before = sanitized_prefix(
                    s,
                    signature_valid,
                    disputed,
                    expected_bits,
                    validator_count,
                    i,
                );
                let after = sanitized_prefix(
                    s,
                    signature_valid,
                    disputed,
                    expected_bits,
                    validator_count,
                    i + 1,
                );
                if !has_validator(before, x.validator_index) {
                    assert(after[after.len() - 1].validator_index == x.validator_index);
                    assert(has_validator(after, x.validator_index));
                    lemma_has_validator_grows(
                        s,
                        signature_valid,
                        disputed,
                        expected_bits,
                        validator_count,
                        i + 1,
                        n,
                        x.validator_index,
                    );
                } else {
                    lemma_has_validator_grows(
                        s,
                        signature_valid,
                        disputed,
                        expected_bits,
                        validator_count,
                        i,
                        n,
                        x.validator_index,
                    );
                }
                assert(has_validator(full, x.validator_index));
            }
        }
    }
}

/// Submitting every bitfield twice, each copy with its signature outcome,
/// keeps the same bitfields: every later copy collapses onto the first.
pub proof fn lemma_doubled_bitfields(
    s: Seq<UncheckedSignedBitfield>,
    signature_valid: Seq<bool>,
    disputed: Seq<bool>,
    expected_bits: nat,
    validator_count: nat,
)
    requires
        signature_valid.len() == s.len(),
    ensures
        kept_bitfields(
            s + s,
            signature_valid + signature_valid,
            disputed,
            expected_bits,
            validator_count,
        ) == kept_bitfields(s, signature_valid, disputed, expected_bits, validator_count),
{
    lemma_doubled_prefix(
        s,
        signature_valid,
        disputed,
        expected_bits,
        validator_count,
        2 * s.len() as int,
    );
    assert((s + s).len() == 2 * s.len());
}
} // verus!
