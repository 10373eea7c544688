//! The LFSR engine: a Galois-configured linear-feedback-shift-register
//! counter, parameterized at construction time by width, tap set and
//! sequence length. Exposes pure forward (`up`) and backward (`down`)
//! transition functions and in-place counting through the [`LFSR`] trait.

use vstd::prelude::*;
use crate::taps;
use crate::LFSR;
use crate::LFSRStatic;

verus! {

/// The all-ones pattern of `width` bits: the largest representable state,
/// and also the sequence length `2^width - 1` of a maximal-length LFSR.
pub open spec fn width_mask(width: u32) -> u32 {
    0xffff_ffffu32 >> ((32 - width) as u32)
}

/// `s` is representable in `width` bits.
pub open spec fn fits(width: u32, s: u32) -> bool {
    s & width_mask(width) == s
}

/// One forward step: shift right, and if the bit shifted out was set,
/// XOR in the forward feedback mask.
pub open spec fn spec_up(fwd_mask: u32, s: u32) -> u32 {
    if s & 1 == 1 {
        (s >> 1u32) ^ fwd_mask
    } else {
        s >> 1u32
    }
}

/// One backward step: shift left, and if the bit shifted out (the top bit
/// of the `width`-bit register) was set, XOR in the inverse mask.
pub open spec fn spec_down(width: u32, inv_mask: u32, s: u32) -> u32 {
    if (s >> ((width - 1) as u32)) & 1 == 1 {
        (s << 1u32) ^ inv_mask
    } else {
        s << 1u32
    }
}

/// The inverse mask determined by a forward mask: a one-bit rotation of
/// the forward mask across the `width`-bit register.
pub open spec fn inverse_of(width: u32, fwd_mask: u32) -> u32 {
    (fwd_mask << 1u32) | ((fwd_mask >> ((width - 1) as u32)) & 1)
}

/// A well-formed forward mask: a nonzero `width`-bit pattern whose top bit
/// is set. The top tap is what makes the transition invertible, and every
/// maximal-length configuration has it.
pub open spec fn mask_wf(width: u32, fwd_mask: u32) -> bool {
    &&& 2 <= width <= 32
    &&& fits(width, fwd_mask)
    &&& (fwd_mask >> ((width - 1) as u32)) & 1 == 1
}

/// A Galois LFSR counter. The width, the two masks and the sequence
/// length are configuration, fixed at construction; only `state` moves.
pub struct GaloisLfsr {
    pub width: u32,
    pub fwd_mask: u32,
    pub inv_mask: u32,
    pub sequence_length: u32,
    pub state: u32,
}

impl GaloisLfsr {
    /// Configuration and state are consistent: well-formed masks, the
    /// supplied sequence length is `2^width - 1`, and the state is a
    /// `width`-bit value.
    pub open spec fn wf(self) -> bool {
        &&& mask_wf(self.width, self.fwd_mask)
        &&& self.inv_mask == inverse_of(self.width, self.fwd_mask)
        &&& self.sequence_length == width_mask(self.width)
        &&& fits(self.width, self.state)
    }

    /// Builds a counter for the given width and tap positions, starting at
    /// `initial_state`. Tap positions are one-based and must include the
    /// width itself (the top tap), as every maximal-length tap set does.
    /// The canonical start state is `1`.
    pub fn new(width: u32, sequence_length: u32, taps: &[u32], initial_state: u32) -> (r:
        GaloisLfsr)
        requires
            2 <= width <= 32,
            forall|i: int| 0 <= i < taps@.len() ==> 1 <= #[trigger] taps@[i] <= width,
            taps@.contains(width),
            sequence_length == width_mask(width),
            fits(width, initial_state),
        ensures
            r.wf(),
            r.width == width,
            r.sequence_length == sequence_length,
            r.state == initial_state,
            r.fwd_mask == taps_to_mask(taps@),
    {
        let mut shifted: Vec<u32> = Vec::new();
        let mut idx: usize = 0;
        while idx < taps.len()
            invariant
                idx <= taps@.len(),
                forall|i: int| 0 <= i < taps@.len() ==> 1 <= #[trigger] taps@[i] <= width,
                width <= 32,
                shifted@ =~= taps@.take(idx as int).map_values(|t: u32| (t - 1) as u32),
            decreases taps@.len() - idx,
        {
            shifted.push(taps[idx] - 1);
            proof {
                assert(shifted@ =~= taps@.take(idx + 1).map_values(|t: u32| (t - 1) as u32));
            }
            idx = idx + 1;
        }
        proof {
            assert(taps@.take(taps@.len() as int) =~= taps@);
            let dec = taps@.map_values(|t: u32| (t - 1) as u32);
            assert(forall|i: int| 0 <= i < dec.len() ==> #[trigger] dec[i] < width);
            taps::lemma_bits_mask_fits(dec, width);
            let w = choose|i: int| 0 <= i < taps@.len() && taps@[i] == width;
            assert(dec[w] == (width - 1) as u32);
            assert(dec.contains((width - 1) as u32));
            taps::lemma_bits_mask_contains(dec, (width - 1) as u32);
        }
        let fwd_mask = taps::galois_mask(shifted.as_slice());
        let inv_mask = taps::galois_inverse_mask(fwd_mask, width);
        GaloisLfsr { width, fwd_mask, inv_mask, sequence_length, state: initial_state }
    }

    /// Builds a counter at the canonical start state `1`.
    pub fn default_start(width: u32, sequence_length: u32, taps: &[u32]) -> (r: GaloisLfsr)
        requires
            2 <= width <= 32,
            forall|i: int| 0 <= i < taps@.len() ==> 1 <= #[trigger] taps@[i] <= width,
            taps@.contains(width),
            sequence_length == width_mask(width),
        ensures
            r.wf(),
            r.width == width,
            r.sequence_length == sequence_length,
            r.state == 1,
            r.fwd_mask == taps_to_mask(taps@),
    {
        proof {
            assert(2 <= width <= 32 ==> 1u32 & (0xffff_ffffu32 >> ((32 - width) as u32)) == 1u32)
                by (bit_vector);
        }
        GaloisLfsr::new(width, sequence_length, taps, 1)
    }

    /// The forward transition as a pure function of a state.
    pub fn up(&self, prev_state: u32) -> (r: u32)
        ensures
            r == spec_up(self.fwd_mask, prev_state),
    {
        let lsb = prev_state & 1;
        let shifted = prev_state >> 1;
        if lsb == 1 {
            shifted ^ self.fwd_mask
        } else {
            shifted
        }
    }

    /// The backward transition as a pure function of a state.
    pub fn down(&self, prev_state: u32) -> (r: u32)
        requires
            1 <= self.width <= 32,
        ensures
            r == spec_down(self.width, self.inv_mask, prev_state),
    {
        let msb = (prev_state >> (self.width - 1)) & 1;
        let shifted = prev_state << 1;
        if msb == 1 {
            shifted ^ self.inv_mask
        } else {
            shifted
        }
    }
}

/// The decremented tap positions of a one-based tap list, combined into
/// a forward feedback mask.
pub open spec fn taps_to_mask(taps: Seq<u32>) -> u32 {
    taps::bits_mask(taps.map_values(|t: u32| (t - 1) as u32))
}

impl LFSR for GaloisLfsr {
    open spec fn valid(&self) -> bool {
        self.wf()
    }

    fn get_state(&self) -> (r: u32)
        ensures
            r == self.state,
    {
        self.state
    }

    fn inc(&mut self)
        ensures
            final(self).state == spec_up(old(self).fwd_mask, old(self).state),
            final(self).width == old(self).width,
            final(self).fwd_mask == old(self).fwd_mask,
            final(self).inv_mask == old(self).inv_mask,
            final(self).sequence_length == old(self).sequence_length,
    {
        proof {
            lemma_up_preserves_fits(self.width, self.fwd_mask, self.state);
        }
        let next = self.up(self.state);
        self.state = next;
    }

    fn dec(&mut self)
        ensures
            final(self).state == spec_down(old(self).width, old(self).inv_mask, old(self).state),
            final(self).width == old(self).width,
            final(self).fwd_mask == old(self).fwd_mask,
            final(self).inv_mask == old(self).inv_mask,
            final(self).sequence_length == old(self).sequence_length,
    {
        proof {
            lemma_down_preserves_fits(self.width, self.fwd_mask, self.state);
        }
        let next = self.down(self.state);
        self.state = next;
    }
}

impl LFSRStatic for GaloisLfsr {
    fn sequence_length(&self) -> (r: u32)
        ensures
            r == self.sequence_length,
    {
        self.sequence_length
    }
}

/// A forward step keeps the state within the register width.
pub proof fn lemma_up_preserves_fits(width: u32, fwd_mask: u32, s: u32)
    requires
        mask_wf(width, fwd_mask),
        fits(width, s),
    ensures
        fits(width, spec_up(fwd_mask, s)),
{
    assert(width <= 32 && fwd_mask & (0xffff_ffffu32 >> ((32 - width) as u32)) == fwd_mask && s
        & (0xffff_ffffu32 >> ((32 - width) as u32)) == s ==> spec_up(fwd_mask, s) & (0xffff_ffffu32
        >> ((32 - width) as u32)) == spec_up(fwd_mask, s)) by (bit_vector);
}

/// A backward step keeps the state within the register width.
pub proof fn lemma_down_preserves_fits(width: u32, fwd_mask: u32, s: u32)
    requires
        mask_wf(width, fwd_mask),
        fits(width, s),
    ensures
        fits(width, spec_down(width, inverse_of(width, fwd_mask), s)),
{
    assert(2 <= width <= 32 && fwd_mask & (0xffff_ffffu32 >> ((32 - width) as u32)) == fwd_mask
        && (fwd_mask >> ((width - 1) as u32)) & 1 == 1 && s & (0xffff_ffffu32 >> ((32
        - width) as u32)) == s ==> spec_down(width, inverse_of(width, fwd_mask), s)
        & (0xffff_ffffu32 >> ((32 - width) as u32)) == spec_down(
        width,
        inverse_of(width, fwd_mask),
        s,
    )) by (bit_vector);
}

/// A `width`-bit value is at most the all-ones pattern of `width` bits.
pub proof fn lemma_fits_le_mask(width: u32, s: u32)
    requires
        fits(width, s),
    ensures
        s <= width_mask(width),
{
    assert(s & (0xffff_ffffu32 >> ((32 - width) as u32)) == s ==> s <= (0xffff_ffffu32 >> ((32
        - width) as u32))) by (bit_vector);
}

/// Inverse law: for every width and every `width`-bit state, one step down
/// undoes one step up, and one step up undoes one step down.
pub proof fn lemma_inverse_law(width: u32, fwd_mask: u32, s: u32)
    requires
        mask_wf(width, fwd_mask),
        fits(width, s),
    ensures
        spec_down(width, inverse_of(width, fwd_mask), spec_up(fwd_mask, s)) == s,
        spec_up(fwd_mask, spec_down(width, inverse_of(width, fwd_mask), s)) == s,
{
    assert(2 <= width <= 32 && fwd_mask & (0xffff_ffffu32 >> ((32 - width) as u32)) == fwd_mask
        && (fwd_mask >> ((width - 1) as u32)) & 1 == 1 && s & (0xffff_ffffu32 >> ((32
        - width) as u32)) == s ==> spec_down(width, inverse_of(width, fwd_mask), spec_up(fwd_mask, s))
        == s) by (bit_vector);
    assert(2 <= width <= 32 && fwd_mask & (0xffff_ffffu32 >> ((32 - width) as u32)) == fwd_mask
        && (fwd_mask >> ((width - 1) as u32)) & 1 == 1 && s & (0xffff_ffffu32 >> ((32
        - width) as u32)) == s ==> spec_up(fwd_mask, spec_down(width, inverse_of(width, fwd_mask), s))
        == s) by (bit_vector);
}

/// Fixed point: the all-zero lock-up state maps to itself in both
/// directions, for every width.
pub proof fn lemma_lockup_fixed_point(width: u32, fwd_mask: u32, inv_mask: u32)
    requires
        1 <= width <= 32,
    ensures
        spec_up(fwd_mask, 0) == 0,
        spec_down(width, inv_mask, 0) == 0,
{
    assert(spec_up(fwd_mask, 0) == 0) by (bit_vector);
    assert(1 <= width <= 32 ==> spec_down(width, inv_mask, 0) == 0) by (bit_vector);
}

} // verus!
