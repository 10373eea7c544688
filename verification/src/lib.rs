//! Maximal-length Galois linear-feedback-shift-register counters, 2 to 32
//! bits wide, together with two index structures that invert the counter:
//! a bounded search over a sparse sample table and a direct lookup over a
//! complete reverse table.

use vstd::prelude::*;

pub mod direct;
pub mod engine;
pub mod search;
pub mod taps;
pub mod walk;

verus! {

/// Object-safe part of an LFSR: count up, count down, read the state.
pub trait LFSR {
    /// Well-formedness invariant that counting preserves.
    spec fn valid(&self) -> bool;

    /// Retrieves the current state of the LFSR.
    fn get_state(&self) -> u32;

    /// Count up.
    fn inc(&mut self)
        requires
            old(self).valid(),
        ensures
            final(self).valid(),
    ;

    /// Count down.
    fn dec(&mut self)
        requires
            old(self).valid(),
        ensures
            final(self).valid(),
    ;
}

/// Non-object-safe part of an LFSR: the length of the maximal cycle,
/// a per-configuration constant.
pub trait LFSRStatic {
    /// Sequence length of this LFSR.
    fn sequence_length(&self) -> u32;
}

} // verus!
