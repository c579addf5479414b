//! Packed bit sequences: bitfields over cores and backing bitmaps over the
//! members of a group, held in `bitvec`'s `BitVec<u8, Lsb0>`.

use vstd::prelude::*;
use bitvec::order::Lsb0;
use bitvec::vec::BitVec;

verus! {

/// The most bits a `BitField` can hold (`BitSlice::MAX_BITS`).
pub const MAX_BITS: usize = usize::MAX >> 3;

/// A sequence of bits, packed eight to a byte, least significant first.
#[verifier::external_body]
#[derive(Debug, PartialEq, Eq)]
pub struct BitField {
    inner: BitVec<u8, Lsb0>,
}

/// The bits a `BitField` holds, in order.
pub uninterp spec fn bits_of(b: BitField) -> Seq<bool>;

impl View for BitField {
    type V = Seq<bool>;

    open spec fn view(&self) -> Seq<bool> {
        bits_of(*self)
    }
}

/// The number of set bits among the first `n` of `bits`.
pub open spec fn ones(bits: Seq<bool>, n: int) -> nat
    decreases n,
{
    if n <= 0 {
        0
    } else {
        ones(bits, n - 1) + if bits[n - 1] {
            1nat
        } else {
            0nat
        }
    }
}

impl Clone for BitField {
    /// Relies on `BitVec`'s `Clone`: a copy of the same bits.
    #[verifier::external_body]
    fn clone(&self) -> (r: BitField)
        ensures
            bits_of(r) == bits_of(*self),
    {
        BitField { inner: self.inner.clone() }
    }
}

impl BitField {
    /// Relies on `BitVec::new`: an empty bit-vector.
    #[verifier::external_body]
    pub fn new() -> (r: BitField)
        ensures
            bits_of(r) == Seq::<bool>::empty(),
    {
        BitField { inner: BitVec::new() }
    }

    /// Relies on `BitSlice::len`: the number of bits, which a bit-vector
    /// never lets exceed `MAX_BITS`.
    #[verifier::external_body]
    pub fn len(&self) -> (r: usize)
        ensures
            r == bits_of(*self).len(),
            r <= MAX_BITS,
    {
        self.inner.len()
    }

    /// Relies on `BitSlice`'s `Index<usize>`: the bit at `i` (it panics out
    /// of range).
    #[verifier::external_body]
    pub fn get(&self, i: usize) -> (r: bool)
        requires
            i < bits_of(*self).len(),
        ensures
            r == bits_of(*self)[i as int],
    {
        self.inner[i]
    }

    /// Relies on `BitVec::push`: appends one bit (it panics past
    /// `MAX_BITS`).
    #[verifier::external_body]
    pub fn push(&mut self, bit: bool)
        requires
            bits_of(*old(self)).len() < MAX_BITS,
        ensures
            bits_of(*final(self)) == bits_of(*old(self)).push(bit),
    {
        self.inner.push(bit)
    }

    /// Relies on `BitSlice::count_ones`: the number of set bits.
    #[verifier::external_body]
    pub fn count_ones(&self) -> (r: usize)
        ensures
            r == ones(bits_of(*self), bits_of(*self).len() as int),
    {
        self.inner.count_ones()
    }

    /// The bits of `v`, in order.
    pub fn from_bools(v: &Vec<bool>) -> (r: BitField)
        requires
            v@.len() <= MAX_BITS,
        ensures
            r@ == v@,
    {
        let mut out = BitField::new();
        let mut i: usize = 0;
        while i < v.len()
            invariant
                i <= v.len(),
                v@.len() <= MAX_BITS,
                out@ == v@.take(i as int),
            decreases v.len() - i,
        {
            out.push(v[i]);
            i = i + 1;
            assert(out@ =~= v@.take(i as int));
        }
        assert(v@.take(i as int) =~= v@);
        out
    }
}

} // verus!
