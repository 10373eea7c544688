//! The forward walk of an engine from the canonical start state `1`, and
//! what follows from it: states on the walk stay nonzero and in range,
//! the walk never revisits a state before it returns to the start, and
//! once it returns the cycle repeats.

use vstd::prelude::*;
use crate::engine::{fits, inverse_of, mask_wf, spec_down, spec_up, width_mask};
use crate::engine::{lemma_down_preserves_fits, lemma_inverse_law, lemma_up_preserves_fits};

verus! {

/// The state reached after `pos` forward steps from the canonical start
/// state `1`.
pub open spec fn state_at(fwd_mask: u32, pos: nat) -> u32
    decreases pos,
{
    if pos == 0 {
        1u32
    } else {
        spec_up(fwd_mask, state_at(fwd_mask, (pos - 1) as nat))
    }
}

/// The state reached after `n` backward steps from `s`.
pub open spec fn down_iter(width: u32, inv_mask: u32, s: u32, n: nat) -> u32
    decreases n,
{
    if n == 0 {
        s
    } else {
        spec_down(width, inv_mask, down_iter(width, inv_mask, s, (n - 1) as nat))
    }
}

/// The tap configuration is maximal-length: the walk returns to the start
/// state exactly after `2^width - 1` steps and not before.
pub open spec fn cycle_complete(width: u32, fwd_mask: u32) -> bool {
    &&& state_at(fwd_mask, width_mask(width) as nat) == 1
    &&& forall|k: nat| 1 <= k < width_mask(width) ==> #[trigger] state_at(fwd_mask, k) != 1
}

/// Every state on the walk is a nonzero `width`-bit value.
pub proof fn lemma_state_at_in_range(width: u32, fwd_mask: u32, pos: nat)
    requires
        mask_wf(width, fwd_mask),
    ensures
        fits(width, state_at(fwd_mask, pos)),
        state_at(fwd_mask, pos) != 0,
    decreases pos,
{
    if pos == 0 {
        assert(2 <= width <= 32 ==> 1u32 & (0xffff_ffffu32 >> ((32 - width) as u32)) == 1u32)
            by (bit_vector);
    } else {
        lemma_state_at_in_range(width, fwd_mask, (pos - 1) as nat);
        let s = state_at(fwd_mask, (pos - 1) as nat);
        lemma_up_preserves_fits(width, fwd_mask, s);
        assert(2 <= width <= 32 && fwd_mask & (0xffff_ffffu32 >> ((32 - width) as u32)) == fwd_mask
            && (fwd_mask >> ((width - 1) as u32)) & 1 == 1 && s & (0xffff_ffffu32 >> ((32
            - width) as u32)) == s && s != 0 ==> spec_up(fwd_mask, s) != 0) by (bit_vector);
    }
}

/// As long as the walk has not returned to the start state, it has not
/// revisited any state at all.
pub proof fn lemma_no_revisit(width: u32, fwd_mask: u32, i: nat, j: nat, m: nat)
    requires
        mask_wf(width, fwd_mask),
        i < j <= m,
        forall|k: nat| 1 <= k <= m ==> #[trigger] state_at(fwd_mask, k) != 1,
    ensures
        state_at(fwd_mask, i) != state_at(fwd_mask, j),
    decreases i,
{
    if i == 0 {
        assert(state_at(fwd_mask, j) != 1);
    } else if state_at(fwd_mask, i) == state_at(fwd_mask, j) {
        let si = state_at(fwd_mask, (i - 1) as nat);
        let sj = state_at(fwd_mask, (j - 1) as nat);
        lemma_state_at_in_range(width, fwd_mask, (i - 1) as nat);
        lemma_state_at_in_range(width, fwd_mask, (j - 1) as nat);
        lemma_inverse_law(width, fwd_mask, si);
        lemma_inverse_law(width, fwd_mask, sj);
        assert(si == sj);
        lemma_no_revisit(width, fwd_mask, (i - 1) as nat, (j - 1) as nat, m);
        assert(false);
    }
}

/// Cycle completeness: under a maximal-length configuration the first
/// `2^width - 1` states of the walk are pairwise distinct, and from the
/// return to the start state onward the walk repeats its own beginning.
pub proof fn lemma_cycle_completeness(width: u32, fwd_mask: u32)
    requires
        mask_wf(width, fwd_mask),
        cycle_complete(width, fwd_mask),
    ensures
        forall|i: nat, j: nat|
            i < j < width_mask(width) ==> #[trigger] state_at(fwd_mask, i) != #[trigger] state_at(
                fwd_mask,
                j,
            ),
        forall|n: nat|
            n >= width_mask(width) ==> #[trigger] state_at(fwd_mask, n) == state_at(
                fwd_mask,
                (n - width_mask(width)) as nat,
            ),
{
    assert forall|i: nat, j: nat| i < j < width_mask(width) implies #[trigger] state_at(
        fwd_mask,
        i,
    ) != #[trigger] state_at(fwd_mask, j) by {
        lemma_no_revisit(width, fwd_mask, i, j, (width_mask(width) - 1) as nat);
    }
    assert forall|n: nat| n >= width_mask(width) implies #[trigger] state_at(fwd_mask, n)
        == state_at(fwd_mask, (n - width_mask(width)) as nat) by {
        lemma_wraps_from(width, fwd_mask, n);
    }
}

/// From any position past the full cycle, the walk equals the walk one
/// cycle earlier.
proof fn lemma_wraps_from(width: u32, fwd_mask: u32, n: nat)
    requires
        mask_wf(width, fwd_mask),
        state_at(fwd_mask, width_mask(width) as nat) == 1,
        n >= width_mask(width),
    ensures
        state_at(fwd_mask, n) == state_at(fwd_mask, (n - width_mask(width)) as nat),
    decreases n,
{
    let c = width_mask(width) as nat;
    if n == c {
        assert(state_at(fwd_mask, (n - c) as nat) == 1);
    } else {
        lemma_wraps_from(width, fwd_mask, (n - 1) as nat);
    }
}

/// Backing off `off` steps from the state at position `q + off` lands on
/// the state at position `q`.
pub proof fn lemma_down_iter_of_walk(width: u32, fwd_mask: u32, q: nat, off: nat)
    requires
        mask_wf(width, fwd_mask),
    ensures
        down_iter(width, inverse_of(width, fwd_mask), state_at(fwd_mask, q + off), off) == state_at(
            fwd_mask,
            q,
        ),
    decreases off,
{
    if off > 0 {
        lemma_down_iter_of_walk(width, fwd_mask, q + 1, (off - 1) as nat);
        lemma_state_at_in_range(width, fwd_mask, q);
        lemma_inverse_law(width, fwd_mask, state_at(fwd_mask, q));
        assert(state_at(fwd_mask, q + 1) == spec_up(fwd_mask, state_at(fwd_mask, q)));
    }
}

/// If backing off `off` steps from `s` lands on the state at position `q`,
/// then `s` is the state at position `q + off`.
pub proof fn lemma_down_iter_inverts(width: u32, fwd_mask: u32, s: u32, off: nat, q: nat)
    requires
        mask_wf(width, fwd_mask),
        fits(width, s),
        down_iter(width, inverse_of(width, fwd_mask), s, off) == state_at(fwd_mask, q),
    ensures
        s == state_at(fwd_mask, q + off),
    decreases off,
{
    if off > 0 {
        let inv = inverse_of(width, fwd_mask);
        let t = down_iter(width, inv, s, (off - 1) as nat);
        lemma_down_iter_fits(width, fwd_mask, s, (off - 1) as nat);
        lemma_inverse_law(width, fwd_mask, t);
        assert(t == spec_up(fwd_mask, spec_down(width, inv, t)));
        assert(t == state_at(fwd_mask, q + 1));
        lemma_down_iter_inverts(width, fwd_mask, s, (off - 1) as nat, q + 1);
    }
}

/// Backing off any number of steps keeps the state within the register
/// width.
pub proof fn lemma_down_iter_fits(width: u32, fwd_mask: u32, s: u32, n: nat)
    requires
        mask_wf(width, fwd_mask),
        fits(width, s),
    ensures
        fits(width, down_iter(width, inverse_of(width, fwd_mask), s, n)),
    decreases n,
{
    if n > 0 {
        lemma_down_iter_fits(width, fwd_mask, s, (n - 1) as nat);
        lemma_down_preserves_fits(
            width,
            fwd_mask,
            down_iter(width, inverse_of(width, fwd_mask), s, (n - 1) as nat),
        );
    }
}

} // verus!
