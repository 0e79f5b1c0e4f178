//! A deterministic pseudo-random walk over bounded indices, seeded by a
//! 64-bit value and driven by a fixed table of the first twenty primes.
//!
//! The walk exists for reproducible, non-sequential traversal orders:
//! equal seeds always reproduce equal position sequences, in any process
//! and forever, and `reset` restarts a seed's sequence mid-stream. The
//! default embedding path of this crate traverses pixels sequentially
//! and does not consult the walk; it is a standalone primitive for
//! strategies that want a spread, seed-recoverable order.

use vstd::prelude::*;
use vstd::arithmetic::div_mod::lemma_mod_division_less_than_divisor;
use vstd::arithmetic::mul::lemma_mul_upper_bound;

verus! {

/// The fixed basis: the first twenty primes, in order.
pub open spec fn prime_table() -> Seq<u64> {
    seq![
        2u64,
        3u64,
        5u64,
        7u64,
        11u64,
        13u64,
        17u64,
        19u64,
        23u64,
        29u64,
        31u64,
        37u64,
        41u64,
        43u64,
        47u64,
        53u64,
        59u64,
        61u64,
        67u64,
        71u64,
    ]
}

/// One step of the walk from a state at a step index: multiply by the
/// table prime for that index and add the same prime, both wrapping at
/// `2^64`, then reduce into the bound.
pub open spec fn walk_step(state: u64, index: nat, max: u64) -> u64
    recommends
        max > 0,
{
    let p = prime_table()[(index % 20) as int];
    ((((state as nat) * (p as nat)) % 0x1_0000_0000_0000_0000 + (p as nat))
        % 0x1_0000_0000_0000_0000 % (max as nat)) as u64
}

/// The state after `n` steps from a seed, all steps under one bound.
pub open spec fn walk_state_n(seed: u64, max: u64, n: nat) -> u64
    decreases n,
{
    if n == 0 {
        seed
    } else {
        walk_step(walk_state_n(seed, max, (n - 1) as nat), (n - 1) as nat, max)
    }
}

/// The first `n` positions a walk returns from `seed` with bound `max`.
pub open spec fn walk_outputs(seed: u64, max: u64, n: nat) -> Seq<u64> {
    Seq::new(n, |i: int| walk_state_n(seed, max, (i + 1) as nat))
}

/// Walk reproducibility: the position sequence is a function of the
/// seed alone, for any fixed bound and call count. Two independently
/// constructed walks with equal seeds yield identical sequences, and
/// since `reset` puts a walk back into the start state of its seed, the
/// identical sequence is replayed from there.
pub proof fn lemma_walk_reproducible(seed1: u64, seed2: u64, max: u64, n: nat)
    requires
        seed1 == seed2,
    ensures
        walk_outputs(seed1, max, n) == walk_outputs(seed2, max, n),
{
}

/// One more call extends the canonical output sequence by the step taken
/// from the current canonical state: this ties `next`'s contract to
/// `walk_outputs`, call by call.
pub proof fn lemma_walk_outputs_step(seed: u64, max: u64, n: nat)
    ensures
        walk_outputs(seed, max, n + 1) == walk_outputs(seed, max, n).push(
            walk_step(walk_state_n(seed, max, n), n, max),
        ),
{
    assert(walk_outputs(seed, max, n + 1) =~= walk_outputs(seed, max, n).push(
        walk_step(walk_state_n(seed, max, n), n, max),
    ));
}

/// Generates a deterministic pseudo-random walk of bounded indices, so
/// that embedding and extraction can reproduce one traversal path from
/// a shared seed.
pub struct PrimeWalk {
    primes: Vec<u64>,
    index: usize,
    state: u64,
}

impl PrimeWalk {
    /// The prime table is intact: exactly the first twenty primes.
    pub closed spec fn wf(&self) -> bool {
        self.primes@ == prime_table()
    }

    /// How many steps the walk has taken since it was seeded.
    pub closed spec fn cursor(&self) -> nat {
        self.index as nat
    }

    /// The current 64-bit state, which is also the last returned
    /// position once a step has been taken.
    pub closed spec fn current(&self) -> u64 {
        self.state
    }

    pub fn new(seed: u64) -> (w: Self)
        ensures
            w.wf(),
            w.current() == seed,
            w.cursor() == 0,
    {
        let primes: Vec<u64> = vec![
            2, 3, 5, 7, 11, 13, 17, 19, 23, 29, 31, 37, 41, 43, 47, 53, 59, 61, 67, 71,
        ];
        proof {
            assert(primes@ =~= prime_table());
        }
        PrimeWalk { primes, index: 0, state: seed }
    }

    /// The next position of the walk, strictly below `max`: a pure
    /// function of the current state and step count, so equal walks
    /// advance equally.
    pub fn next(&mut self, max: usize) -> (pos: usize)
        requires
            old(self).wf(),
            max > 0,
            old(self).cursor() < usize::MAX,
        ensures
            final(self).wf(),
            final(self).cursor() == old(self).cursor() + 1,
            final(self).current() == walk_step(
                old(self).current(),
                old(self).cursor(),
                max as u64,
            ),
            pos == final(self).current(),
            pos < max,
    {
        proof {
            lemma_mod_division_less_than_divisor(self.index as int, 20);
        }
        let p: u64 = self.primes[self.index % self.primes.len()];
        proof {
            lemma_mul_upper_bound(
                self.state as int,
                0xffff_ffff_ffff_ffff,
                p as int,
                0xffff_ffff_ffff_ffff,
            );
        }
        let wide: u128 = (self.state as u128) * (p as u128);
        let m: u128 = wide % 0x1_0000_0000_0000_0000u128;
        let s: u128 = ((m + p as u128) % 0x1_0000_0000_0000_0000u128) % (max as u128);
        proof {
            lemma_mod_division_less_than_divisor(
                (((m as int) + (p as int)) % 0x1_0000_0000_0000_0000) as int,
                max as int,
            );
        }
        self.state = s as u64;
        self.index = self.index + 1;
        self.state as usize
    }

    /// Start the seed's sequence over: afterwards the walk is in the
    /// same state as one freshly constructed from that seed.
    pub fn reset(&mut self, seed: u64)
        ensures
            final(self).wf() == old(self).wf(),
            final(self).current() == seed,
            final(self).cursor() == 0,
    {
        self.state = seed;
        self.index = 0;
    }
}

} // verus!
