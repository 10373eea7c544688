//! Search index: a sparse table of states sampled at a fixed stride over
//! a chosen position range, and a bounded-cost lookup that backs the
//! queried state off step by step until it meets a sample. Absence is a
//! normal outcome for states outside the sampled window.

use vstd::prelude::*;
use vstd::arithmetic::div_mod::lemma_fundamental_div_mod;
use crate::engine::{fits, inverse_of, mask_wf, width_mask, GaloisLfsr};
use crate::walk::{
    cycle_complete, down_iter, lemma_cycle_completeness, lemma_down_iter_fits,
    lemma_down_iter_inverts, lemma_down_iter_of_walk, lemma_state_at_in_range, state_at,
};

verus! {

/// How many sample positions the half-open range `[min, max)` holds at
/// stride `step`: the first is `min`, and each next one is `step` later.
pub open spec fn sample_count(min: u32, max: u32, step: u32) -> int {
    if min < max {
        (max - min + step - 1) / (step as int)
    } else {
        0
    }
}

/// A sparse table of walk states: entry `i` is the state the engine
/// reaches `min + i * step` forward steps from the canonical start.
pub struct SparseTable {
    pub min: u32,
    pub step: u32,
    pub states: Vec<u32>,
}

impl SparseTable {
    /// The samples belong to the walk of the engine configured with
    /// `fwd_mask`, and every position the lookup can report fits in 32
    /// bits.
    pub open spec fn wf_for(self, fwd_mask: u32) -> bool {
        &&& 1 <= self.step
        &&& self.min + self.states.len() * self.step <= u32::MAX as int + 1
        &&& forall|i: int|
            0 <= i < self.states.len() ==> self.states[i] == #[trigger] state_at(
                fwd_mask,
                (self.min + i * self.step) as nat,
            )
    }

    /// `off` backward steps from `s` meet sample `i` of the table.
    pub open spec fn hit(self, width: u32, inv_mask: u32, s: u32, off: nat, i: int) -> bool {
        &&& off < self.step
        &&& 0 <= i < self.states.len()
        &&& down_iter(width, inv_mask, s, off) == self.states[i]
    }

    /// Advances the engine from the canonical start state and records its
    /// state at the positions `min`, `min + step`, ... below `max`.
    pub fn build(lfsr: &GaloisLfsr, min: u32, max: u32, step: u32) -> (r: SparseTable)
        requires
            lfsr.wf(),
            1 <= step,
            max as int + step as int <= u32::MAX as int + 2,
        ensures
            r.min == min,
            r.step == step,
            r.states.len() == sample_count(min, max, step),
            r.wf_for(lfsr.fwd_mask),
    {
        let f = lfsr.fwd_mask;
        let n: u64 = if min < max {
            ((max - min) as u64 + (step - 1) as u64) / (step as u64)
        } else {
            0
        };
        proof {
            assert(n == sample_count(min, max, step));
            if min < max {
                lemma_fundamental_div_mod((max - min + step - 1) as int, step as int);
            }
            assert(min + n * step <= u32::MAX as int + 1) by (nonlinear_arith)
                requires
                    1 <= step,
                    max as int + step as int <= u32::MAX as int + 2,
                    n == sample_count(min, max, step),
                    min < max ==> (max - min + step - 1) as int == step * ((max - min + step
                        - 1) as int / (step as int)) + (max - min + step - 1) as int % (step as int),
                    min < max ==> 0 <= (max - min + step - 1) as int % (step as int) < step,
            ;
        }
        let mut states: Vec<u32> = Vec::new();
        let mut state: u32 = 1;
        let mut counter: u32 = 0;
        let mut i: u64 = 0;
        while i < n
            invariant
                lfsr.wf(),
                f == lfsr.fwd_mask,
                1 <= step,
                i <= n,
                min + n * step <= u32::MAX as int + 1,
                states.len() == i,
                forall|j: int|
                    0 <= j < states.len() ==> states[j] == #[trigger] state_at(
                        f,
                        (min + j * step) as nat,
                    ),
                i == 0 ==> counter == 0,
                i > 0 ==> counter == min + (i - 1) * step,
                state == state_at(f, counter as nat),
            decreases n - i,
        {
            proof {
                assert((i + 1) * step == i * step + step) by (nonlinear_arith);
                assert(i * step >= 0 && (i > 0 ==> (i - 1) * step <= i * step)) by (nonlinear_arith)
                    requires
                        1 <= step,
                        0 <= i,
                ;
                assert(n * step >= n) by (nonlinear_arith)
                    requires
                        1 <= step,
                        0 <= n,
                ;
                assert((i + 1) * step <= n * step) by (nonlinear_arith)
                    requires
                        i + 1 <= n,
                        0 <= step,
                ;
            }
            let target: u32 = min + (i as u32) * step;
            while counter < target
                invariant
                    lfsr.wf(),
                    f == lfsr.fwd_mask,
                    counter <= target,
                    state == state_at(f, counter as nat),
                decreases target - counter,
            {
                let next = lfsr.up(state);
                proof {
                    assert(state_at(f, counter as nat + 1) == next);
                }
                state = next;
                counter = counter + 1;
            }
            states.push(state);
            i = i + 1;
        }
        SparseTable { min, step, states }
    }

    /// Bounded search for the sequence position of the engine's current
    /// state. For `offset` in `[0, step)`, the candidate backed off
    /// `offset` steps is compared against every sample; the first match at
    /// sample `i` reports position `min + i * step + offset`. A reported
    /// position is a true walk position of the state; `None` means no
    /// sample was met within `step` backward steps.
    pub fn lookup(&self, lfsr: &GaloisLfsr) -> (r: Option<u32>)
        requires
            lfsr.wf(),
            self.wf_for(lfsr.fwd_mask),
        ensures
            r.is_some() <==> exists|off: nat, i: int|
                self.hit(lfsr.width, lfsr.inv_mask, lfsr.state, off, i),
            r.is_some() ==> exists|off: nat, i: int|
                {
                    &&& #[trigger] self.hit(lfsr.width, lfsr.inv_mask, lfsr.state, off, i)
                    &&& r.unwrap() as int == self.min + i * self.step + off
                    &&& forall|off2: nat, i2: int|
                        #[trigger] self.hit(lfsr.width, lfsr.inv_mask, lfsr.state, off2, i2) ==> (
                        off < off2 || (off2 == off && i <= i2))
                },
            r.is_some() ==> lfsr.state == state_at(lfsr.fwd_mask, r.unwrap() as nat),
    {
        let width = lfsr.width;
        let inv = lfsr.inv_mask;
        let s0 = lfsr.state;
        let mut cand: u32 = s0;
        let mut off: u32 = 0;
        while off < self.step
            invariant
                lfsr.wf(),
                width == lfsr.width,
                inv == lfsr.inv_mask,
                s0 == lfsr.state,
                self.wf_for(lfsr.fwd_mask),
                off <= self.step,
                cand == down_iter(width, inv, s0, off as nat),
                forall|off2: nat, i2: int|
                    off2 < off && #[trigger] self.hit(width, inv, s0, off2, i2) ==> false,
            decreases self.step - off,
        {
            let mut i: usize = 0;
            while i < self.states.len()
                invariant
                    lfsr.wf(),
                    width == lfsr.width,
                    inv == lfsr.inv_mask,
                    s0 == lfsr.state,
                    self.wf_for(lfsr.fwd_mask),
                    off < self.step,
                    cand == down_iter(width, inv, s0, off as nat),
                    i <= self.states.len(),
                    forall|off2: nat, i2: int|
                        off2 < off && #[trigger] self.hit(width, inv, s0, off2, i2) ==> false,
                    forall|i2: int| 0 <= i2 < i ==> self.states[i2] != cand,
                decreases self.states.len() - i,
            {
                if cand == self.states[i] {
                    proof {
                        assert((i as int) * self.step <= (self.states.len() - 1) * self.step)
                            by (nonlinear_arith)
                            requires
                                0 <= i as int <= self.states.len() - 1,
                                1 <= self.step,
                        ;
                        assert((self.states.len() - 1) * self.step + self.step == self.states.len()
                            * self.step) by (nonlinear_arith);
                        assert(self.states.len() <= self.states.len() * self.step)
                            by (nonlinear_arith)
                            requires
                                1 <= self.step,
                                0 <= self.states.len(),
                        ;
                        assert(self.hit(width, inv, s0, off as nat, i as int));
                        lemma_lookup_sound(*self, width, lfsr.fwd_mask, s0, off as nat, i as int);
                    }
                    let p = self.min + (i as u32) * self.step + off;
                    proof {
                        assert forall|off2: nat, i2: int|
                            #[trigger] self.hit(width, inv, s0, off2, i2) implies (off < off2 || (
                        off2 == off && i as int <= i2)) by {
                            if off2 < off as nat {
                                assert(false);
                            } else if off2 == off as nat {
                                assert(down_iter(width, inv, s0, off2) == cand);
                            }
                        }
                    }
                    return Some(p);
                }
                i = i + 1;
            }
            let next = lfsr.down(cand);
            proof {
                assert(down_iter(width, inv, s0, off as nat + 1) == next);
                assert forall|off2: nat, i2: int|
                    off2 < off + 1 && #[trigger] self.hit(width, inv, s0, off2, i2) implies false by {
                    if off2 == off as nat {
                        assert(self.states[i2] != down_iter(width, inv, s0, off2));
                    }
                }
            }
            cand = next;
            off = off + 1;
        }
        None
    }
}

/// A sample hit names a true walk position: if `off` backward steps from
/// `s` meet sample `i`, then `s` is the state at `min + i * step + off`.
proof fn lemma_lookup_sound(t: SparseTable, width: u32, fwd_mask: u32, s: u32, off: nat, i: int)
    requires
        mask_wf(width, fwd_mask),
        fits(width, s),
        t.wf_for(fwd_mask),
        t.hit(width, inverse_of(width, fwd_mask), s, off, i),
    ensures
        s == state_at(fwd_mask, (t.min + i * t.step + off) as nat),
{
    lemma_down_iter_inverts(width, fwd_mask, s, off, (t.min + i * t.step) as nat);
}

/// Completeness of the bounded search: every state whose true walk
/// position lies in the covered window `[min, min + len * step)` meets a
/// sample within `step` backward steps, so the lookup finds it.
pub proof fn lemma_lookup_complete(t: SparseTable, width: u32, fwd_mask: u32, p: nat)
    requires
        mask_wf(width, fwd_mask),
        t.wf_for(fwd_mask),
        t.min <= p < t.min + t.states.len() * t.step,
    ensures
        exists|off: nat, i: int|
            t.hit(width, inverse_of(width, fwd_mask), state_at(fwd_mask, p), off, i),
{
    let d = (p - t.min) as nat;
    let i = d / (t.step as nat);
    let off = d % (t.step as nat);
    lemma_fundamental_div_mod(d as int, t.step as int);
    assert(i < t.states.len()) by (nonlinear_arith)
        requires
            1 <= t.step,
            d < t.states.len() * t.step,
            d as int == t.step * (d as int / t.step as int) + d as int % t.step as int,
            0 <= (d as int % (t.step as int)) < t.step,
            i == d as int / t.step as int,
    ;
    let q = (t.min + i * t.step) as nat;
    assert(q + off == p);
    lemma_down_iter_of_walk(width, fwd_mask, q, off);
    assert(t.hit(width, inverse_of(width, fwd_mask), state_at(fwd_mask, p), off, i as int));
}

/// Exactness under a maximal-length configuration: when the sampled
/// window lies within one full cycle, every hit of the search names the
/// one true position, so the lookup returns exactly that position.
pub proof fn lemma_lookup_exact(t: SparseTable, width: u32, fwd_mask: u32, p: nat)
    requires
        mask_wf(width, fwd_mask),
        cycle_complete(width, fwd_mask),
        t.wf_for(fwd_mask),
        t.min + t.states.len() * t.step <= width_mask(width) as int,
        t.min <= p < t.min + t.states.len() * t.step,
    ensures
        exists|off: nat, i: int|
            t.hit(width, inverse_of(width, fwd_mask), state_at(fwd_mask, p), off, i),
        forall|off: nat, i: int|
            #[trigger] t.hit(width, inverse_of(width, fwd_mask), state_at(fwd_mask, p), off, i)
                ==> t.min + i * t.step + off == p,
{
    lemma_lookup_complete(t, width, fwd_mask, p);
    lemma_cycle_completeness(width, fwd_mask);
    let s = state_at(fwd_mask, p);
    assert forall|off: nat, i: int|
        #[trigger] t.hit(width, inverse_of(width, fwd_mask), s, off, i) implies t.min + i * t.step
        + off == p by {
        lemma_state_at_in_range(width, fwd_mask, p);
        lemma_lookup_sound(t, width, fwd_mask, s, off, i);
        let p2 = (t.min + i * t.step + off) as nat;
        assert(i * t.step <= (t.states.len() - 1) * t.step) by (nonlinear_arith)
            requires
                0 <= i <= t.states.len() - 1,
                1 <= t.step,
        ;
        assert((t.states.len() - 1) * t.step + t.step == t.states.len() * t.step)
            by (nonlinear_arith);
        assert(p2 < width_mask(width));
        if p2 != p {
            if p2 < p {
                crate::walk::lemma_no_revisit(
                    width,
                    fwd_mask,
                    p2,
                    p,
                    (width_mask(width) - 1) as nat,
                );
            } else {
                crate::walk::lemma_no_revisit(
                    width,
                    fwd_mask,
                    p,
                    p2,
                    (width_mask(width) - 1) as nat,
                );
            }
            assert(false);
        }
    }
}

} // verus!
