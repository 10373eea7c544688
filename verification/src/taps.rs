//! Tap mask compiler: turns a list of tap bit positions into the forward
//! feedback mask and its inverse mask, the two patterns that drive the
//! forward and backward transitions of a Galois LFSR.

use vstd::prelude::*;

verus! {

/// Bitwise OR of `1 << t` over all entries `t` of `taps`.
pub open spec fn bits_mask(taps: Seq<u32>) -> u32
    decreases taps.len(),
{
    if taps.len() == 0 {
        0u32
    } else {
        bits_mask(taps.drop_last()) | (1u32 << taps.last())
    }
}

/// Combines a list of (zero-based) tap bit positions into a feedback mask.
pub fn galois_mask(taps: &[u32]) -> (r: u32)
    requires
        forall|i: int| 0 <= i < taps@.len() ==> taps@[i] < 32,
    ensures
        r == bits_mask(taps@),
{
    let mut ret: u32 = 0;
    let mut idx: usize = 0;
    while idx < taps.len()
        invariant
            idx <= taps@.len(),
            forall|i: int| 0 <= i < taps@.len() ==> taps@[i] < 32,
            ret == bits_mask(taps@.take(idx as int)),
        decreases taps@.len() - idx,
    {
        proof {
            assert(taps@.take(idx + 1).drop_last() =~= taps@.take(idx as int));
            assert(taps@.take(idx + 1).last() == taps@[idx as int]);
        }
        ret = ret | (1u32 << taps[idx]);
        idx = idx + 1;
    }
    proof {
        assert(taps@.take(taps@.len() as int) =~= taps@);
    }
    ret
}

/// Rotates the forward mask one bit across the register: the mask that
/// drives the reverse transition.
pub fn galois_inverse_mask(forward_mask: u32, width: u32) -> (r: u32)
    requires
        1 <= width <= 32,
    ensures
        r == (forward_mask << 1u32) | ((forward_mask >> ((width - 1) as u32)) & 1),
{
    (forward_mask << 1) | ((forward_mask >> (width - 1)) & 1)
}

/// A mask built from positions below `width` fits in `width` bits.
pub proof fn lemma_bits_mask_fits(taps: Seq<u32>, width: u32)
    requires
        1 <= width <= 32,
        forall|i: int| 0 <= i < taps.len() ==> taps[i] < width,
    ensures
        bits_mask(taps) & (0xffff_ffffu32 >> ((32 - width) as u32)) == bits_mask(taps),
    decreases taps.len(),
{
    if taps.len() == 0 {
        assert(0u32 & (0xffff_ffffu32 >> ((32 - width) as u32)) == 0u32) by (bit_vector);
    } else {
        lemma_bits_mask_fits(taps.drop_last(), width);
        let m = bits_mask(taps.drop_last());
        let t = taps.last();
        assert(m & (0xffff_ffffu32 >> ((32 - width) as u32)) == m && t < width && width <= 32
            ==> (m | (1u32 << t)) & (0xffff_ffffu32 >> ((32 - width) as u32)) == (m | (1u32
            << t))) by (bit_vector);
    }
}

/// Every position named in `taps` is set in the mask.
pub proof fn lemma_bits_mask_contains(taps: Seq<u32>, t: u32)
    requires
        forall|i: int| 0 <= i < taps.len() ==> taps[i] < 32,
        taps.contains(t),
    ensures
        (bits_mask(taps) >> t) & 1 == 1,
    decreases taps.len(),
{
    let m = bits_mask(taps.drop_last());
    if taps.last() == t {
        assert(t < 32 ==> ((m | (1u32 << t)) >> t) & 1 == 1) by (bit_vector);
    } else {
        let w = choose|i: int| 0 <= i < taps.len() && taps[i] == t;
        assert(taps.drop_last()[w] == t);
        assert(taps.drop_last().contains(t));
        lemma_bits_mask_contains(taps.drop_last(), t);
        let u = taps.last();
        assert((m >> t) & 1 == 1 ==> ((m | (1u32 << u)) >> t) & 1 == 1) by (bit_vector);
    }
}

} // verus!
