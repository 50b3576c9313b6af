//! Deterministic pseudo-random words for the level generator, drawn
//! from rand's standard generator seeded with the level number.

use vstd::prelude::*;

use rand::RngCore;
use rand::SeedableRng;

verus! {

#[verifier::external_type_specification]
#[verifier::external_body]
pub struct ExStdRng(rand::rngs::StdRng);

/// The `index`-th 64-bit word that rand's `StdRng` yields after being
/// seeded with `seed` through `seed_from_u64`. `StdRng` is the ChaCha
/// stream cipher with 12 rounds and `seed_from_u64` expands the seed
/// with a fixed PCG32 step, so for the pinned rand version the word at
/// a given index is a function of `seed` and `index` alone.
pub uninterp spec fn stream_word(seed: u64, index: int) -> u64;

/// A `StdRng` together with the seed it was built from and the count of
/// words it has yielded so far. The two counters name the position of
/// `inner` in its stream; only `new` and `next_word` ever touch them.
pub struct LevelRng {
    inner: rand::rngs::StdRng,
    seed: u64,
    index: u64,
}

impl LevelRng {
    pub closed spec fn seed(self) -> u64 {
        self.seed
    }

    pub closed spec fn index(self) -> int {
        self.index as int
    }

    /// Relies on rand's `SeedableRng::seed_from_u64` for `StdRng`: it
    /// expands the `u64` deterministically into the generator's key, so
    /// equal seeds give generators that yield equal streams.
    #[verifier::external_body]
    pub fn new(seed: u64) -> (r: LevelRng)
        ensures
            r.seed() == seed,
            r.index() == 0,
    {
        LevelRng { inner: rand::rngs::StdRng::seed_from_u64(seed), seed, index: 0 }
    }

    /// Relies on rand's `RngCore::next_u64` for `StdRng`: each call
    /// yields the next word of the stream determined by the seed, a
    /// function of the seed and the position alone. The body also
    /// advances the stored position counter that names that position.
    #[verifier::external_body]
    pub fn next_word(&mut self) -> (w: u64)
        requires
            old(self).index() < u64::MAX as int,
        ensures
            w == stream_word(old(self).seed(), old(self).index()),
            final(self).seed() == old(self).seed(),
            final(self).index() == old(self).index() + 1,
    {
        self.index += 1;
        self.inner.next_u64()
    }
}

/// The first `n` words of the stream for `seed`, as a sequence.
pub open spec fn stream_prefix(seed: u64, n: int) -> Seq<u64> {
    Seq::new(n as nat, |i: int| stream_word(seed, i))
}

/// Draws the first `n` words of the stream for `seed`.
pub fn draw_words(seed: u64, n: usize) -> (words: Vec<u64>)
    ensures
        words@ == stream_prefix(seed, n as int),
{
    let mut rng = LevelRng::new(seed);
    let mut words: Vec<u64> = Vec::new();
    let mut k: usize = 0;
    while k < n
        invariant
            rng.seed() == seed,
            rng.index() == k as int,
            words@.len() == k,
            0 <= k <= n,
            forall|i: int| 0 <= i < k ==> words@[i] == stream_word(seed, i),
        decreases n - k,
    {
        let w = rng.next_word();
        words.push(w);
        k += 1;
    }
    proof {
        assert(words@ =~= stream_prefix(seed, n as int));
    }
    words
}

} // verus!
