//! Direct index: a complete reverse table over the full state domain,
//! built by one exhaustive walk of the engine. Lookup is a single array
//! index. Building doubles as the cycle-completeness check: it fails
//! exactly when the tap configuration is not maximal-length.

use vstd::prelude::*;
use crate::engine::{lemma_fits_le_mask, mask_wf, width_mask, GaloisLfsr};
use crate::walk::{cycle_complete, lemma_no_revisit, lemma_state_at_in_range, state_at};

verus! {

/// A complete map from state to sequence position, of size `2^width`.
/// The slot for the lock-up state `0` holds the sentinel `0`; the walk
/// never produces that state.
pub struct ReverseTable {
    pub positions: Vec<u32>,
}

impl ReverseTable {
    /// The table inverts the exhaustive walk of the engine configured
    /// with `fwd_mask`: every position below the sequence length is
    /// recorded in the slot of its state.
    pub open spec fn wf_for(self, width: u32, fwd_mask: u32) -> bool {
        &&& self.positions.len() == width_mask(width) as int + 1
        &&& self.positions[0] == 0
        &&& forall|p: int|
            0 <= p < width_mask(width) ==> self.positions[#[trigger] state_at(
                fwd_mask,
                p as nat,
            ) as int] == p
    }

    /// Walks the engine `sequence_length` steps from the canonical start
    /// state and inverts the recorded walk into a reverse table. Returns
    /// `None` exactly when the configuration is not maximal-length: the
    /// walk revisits the start state early, or fails to return to it.
    pub fn build(lfsr: &GaloisLfsr) -> (r: Option<ReverseTable>)
        requires
            lfsr.wf(),
            width_mask(lfsr.width) < usize::MAX,
        ensures
            r.is_some() <==> cycle_complete(lfsr.width, lfsr.fwd_mask),
            r.is_some() ==> r.unwrap().wf_for(lfsr.width, lfsr.fwd_mask),
    {
        let f = lfsr.fwd_mask;
        let seq_len = lfsr.sequence_length;
        let len: usize = (seq_len as usize) + 1;
        let mut positions: Vec<u32> = vec![0u32; len];
        let mut state: u32 = 1;
        let mut pos: u32 = 0;
        while pos < seq_len
            invariant
                lfsr.wf(),
                f == lfsr.fwd_mask,
                seq_len == width_mask(lfsr.width),
                pos <= seq_len,
                state == state_at(f, pos as nat),
                forall|k: nat| 1 <= k < pos ==> #[trigger] state_at(f, k) != 1,
                positions.len() == seq_len as int + 1,
                positions[0] == 0,
                forall|p: int|
                    0 <= p < pos ==> positions[#[trigger] state_at(f, p as nat) as int] == p,
            decreases seq_len - pos,
        {
            if pos != 0 && state == 1 {
                return None;
            }
            proof {
                lemma_state_at_in_range(lfsr.width, f, pos as nat);
                lemma_fits_le_mask(lfsr.width, state);
                assert forall|p: int| 0 <= p < pos implies #[trigger] state_at(f, p as nat)
                    != state && state_at(f, p as nat) <= seq_len by {
                    lemma_no_revisit(lfsr.width, f, p as nat, pos as nat, pos as nat);
                    lemma_state_at_in_range(lfsr.width, f, p as nat);
                    lemma_fits_le_mask(lfsr.width, state_at(f, p as nat));
                }
            }
            proof {
                assert(state as usize as int == state as int) by (bit_vector);
            }
            positions[state as usize] = pos;
            let next = lfsr.up(state);
            proof {
                assert(state_at(f, pos as nat + 1) == next);
            }
            state = next;
            pos = pos + 1;
        }
        if state != 1 {
            return None;
        }
        Some(ReverseTable { positions })
    }

    /// Looks up the sequence position of the engine's current state: a
    /// single index into the precomputed table. For every state the walk
    /// produces, the result is the position at which the walk produced it.
    pub fn lookup(&self, lfsr: &GaloisLfsr) -> (r: u32)
        requires
            lfsr.wf(),
            self.wf_for(lfsr.width, lfsr.fwd_mask),
        ensures
            r == self.positions[lfsr.state as int],
            forall|p: int|
                0 <= p < width_mask(lfsr.width) && lfsr.state == #[trigger] state_at(
                    lfsr.fwd_mask,
                    p as nat,
                ) ==> r == p,
    {
        proof {
            lemma_fits_le_mask(lfsr.width, lfsr.state);
        }
        self.positions[lfsr.state as usize]
    }
}

/// Round trip: a reverse table built from the exhaustive walk answers
/// every state of the walk with the position that recorded it, and no two
/// positions of the walk share a state.
pub proof fn lemma_round_trip(t: ReverseTable, width: u32, fwd_mask: u32)
    requires
        mask_wf(width, fwd_mask),
        cycle_complete(width, fwd_mask),
        t.wf_for(width, fwd_mask),
    ensures
        forall|p: int|
            0 <= p < width_mask(width) ==> t.positions[#[trigger] state_at(fwd_mask, p as nat) as int]
                == p,
        forall|p1: nat, p2: nat|
            p1 < p2 < width_mask(width) ==> #[trigger] state_at(fwd_mask, p1)
                != #[trigger] state_at(fwd_mask, p2),
{
    crate::walk::lemma_cycle_completeness(width, fwd_mask);
}

} // verus!
