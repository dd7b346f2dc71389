//! Deterministic RNG: a 64-bit linear congruential generator.
//!
//! The seed is shared by every peer while loading, so the same seed and the
//! same sequence of calls give the same numbers on any machine.
use vstd::prelude::*;

verus! {

/// The generator state after one step.
pub open spec fn lcg_step(state: u64) -> u64 {
    ((state as int * 6_364_136_223_846_793_005 + 1_442_695_040_888_963_407)
        % 0x1_0000_0000_0000_0000) as u64
}

/// The number a step yields: the top 31 bits of the new state.
pub open spec fn lcg_output(next_state: u64) -> u32 {
    (next_state / 0x2_0000_0000) as u32
}

pub struct DeterministicRng {
    pub state: u64,
}

impl DeterministicRng {
    pub fn new(seed: u64) -> (r: DeterministicRng)
        ensures
            r.state == seed,
    {
        DeterministicRng { state: seed }
    }

    /// Next pseudo-random u32.
    pub fn next_u32(&mut self) -> (r: u32)
        ensures
            final(self).state == lcg_step(old(self).state),
            r == lcg_output(final(self).state),
            r < 0x8000_0000,
    {
        let s = self.state.wrapping_mul(6_364_136_223_846_793_005).wrapping_add(
            1_442_695_040_888_963_407,
        );
        proof {
            let a = (self.state as int * 6_364_136_223_846_793_005) % 0x1_0000_0000_0000_0000;
            vstd::arithmetic::div_mod::lemma_add_mod_noop(
                self.state as int * 6_364_136_223_846_793_005,
                1_442_695_040_888_963_407,
                0x1_0000_0000_0000_0000,
            );
            vstd::arithmetic::div_mod::lemma_small_mod(
                1_442_695_040_888_963_407nat,
                0x1_0000_0000_0000_0000nat,
            );
            assert(0 <= a < 0x1_0000_0000_0000_0000);
            let t = a + 1_442_695_040_888_963_407;
            if t >= 0x1_0000_0000_0000_0000 {
                assert(t % 0x1_0000_0000_0000_0000 == t - 0x1_0000_0000_0000_0000);
            } else {
                assert(t % 0x1_0000_0000_0000_0000 == t);
            }
        }
        self.state = s;
        let out = s >> 33u64;
        assert(out == s / 0x2_0000_0000) by (bit_vector)
            requires
                out == s >> 33u64,
        ;
        out as u32
    }

    /// Value in `[0, max)`; zero when `max` is zero.
    pub fn next_range(&mut self, max: u32) -> (r: u32)
        ensures
            max == 0 ==> r == 0 && final(self).state == old(self).state,
            max > 0 ==> final(self).state == lcg_step(old(self).state) && r == lcg_output(
                final(self).state,
            ) % max,
            max > 0 ==> r < max,
    {
        if max == 0 {
            return 0;
        }
        self.next_u32() % max
    }

    /// True with probability `pct`/100: never for 0, always from 100 up.
    pub fn next_bool_pct(&mut self, pct: u8) -> (r: bool)
        ensures
            final(self).state == lcg_step(old(self).state),
            r == (lcg_output(final(self).state) % 100 < pct),
            pct == 0 ==> !r,
            pct >= 100 ==> r,
    {
        self.next_range(100) < pct as u32
    }

    /// Damage in `[min, max]`. A span `max - min + 1` outside the `i32`
    /// range overflows, so that input is excluded.
    pub fn next_damage(&mut self, min: i32, max: i32) -> (r: i32)
        requires
            max - min < i32::MAX,
        ensures
            min >= max ==> r == min && final(self).state == old(self).state,
            min < max ==> final(self).state == lcg_step(old(self).state) && r == min + lcg_output(
                final(self).state,
            ) % ((max - min + 1) as u32),
            min < max ==> min <= r <= max,
    {
        if min >= max {
            return min;
        }
        let range = (max - min + 1) as u32;
        min + self.next_range(range) as i32
    }

    /// Current state: saved in snapshots for rollback.
    pub fn state(&self) -> (r: u64)
        ensures
            r == self.state,
    {
        self.state
    }

    /// Restores a state taken from a snapshot.
    pub fn restore(&mut self, state: u64)
        ensures
            final(self).state == state,
    {
        self.state = state;
    }
}

/// Two generators in the same state produce the same value and move to the
/// same state: restoring a saved state replays the sequence.
pub proof fn law_same_state_same_sequence(a: DeterministicRng, b: DeterministicRng, n: nat)
    requires
        a.state == b.state,
    ensures
        lcg_iter(a.state, n) == lcg_iter(b.state, n),
{
}

/// The state after `n` steps.
pub open spec fn lcg_iter(state: u64, n: nat) -> u64
    decreases n,
{
    if n == 0 { state } else { lcg_step(lcg_iter(state, (n - 1) as nat)) }
}

} // verus!
