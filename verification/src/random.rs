//! Random choices: file name suffixes and indices. A generator that starts from a given seed
//! makes the same choices again.

use crate::text;
use rand::{Rng, SeedableRng};
use vstd::prelude::*;

verus! {

/// An ASCII letter or digit.
pub open spec fn is_alphanumeric(c: char) -> bool {
    ('0' <= c <= '9') || ('A' <= c <= 'Z') || ('a' <= c <= 'z')
}

/// The first number below `n` that `rand::rngs::StdRng` with this seed draws.
pub uninterp spec fn drawn_below(seed: u64, n: usize) -> usize;

/// The first letter or digit that `rand::rngs::StdRng` with this seed draws.
pub uninterp spec fn drawn_alphanumeric(seed: u64) -> char;

/// `rand::Rng::random_range` on `rand::rngs::StdRng::seed_from_u64(seed)` with the range from
/// zero up to `n`: a number below `n`, which the seed and `n` determine.
#[verifier::external_body]
fn draw_below(seed: u64, n: usize) -> (r: usize)
    requires
        n > 0,
    ensures
        r < n,
        r == drawn_below(seed, n),
{
    rand::rngs::StdRng::seed_from_u64(seed).random_range(0..n)
}

/// `rand::Rng::sample` on `rand::rngs::StdRng::seed_from_u64(seed)` with
/// `rand::distr::Alphanumeric`: an ASCII letter or digit, which the seed determines.
#[verifier::external_body]
fn draw_alphanumeric(seed: u64) -> (r: char)
    ensures
        is_alphanumeric(r),
        r == drawn_alphanumeric(seed),
{
    char::from(rand::rngs::StdRng::seed_from_u64(seed).sample(rand::distr::Alphanumeric))
}

/// `rand::random`: some number. Which one is left to chance.
#[verifier::external_body]
fn random_seed() -> (r: u64) {
    rand::random::<u64>()
}

/// The seed that follows `seed`. The last one is followed by the first.
pub open spec fn next_seed(seed: u64) -> u64 {
    if seed == u64::MAX {
        0
    } else {
        (seed + 1) as u64
    }
}

/// The seed after `n` draws.
pub open spec fn seed_after(seed: u64, n: nat) -> u64
    decreases n,
{
    if n == 0 {
        seed
    } else {
        next_seed(seed_after(seed, (n - 1) as nat))
    }
}

/// The draws of two series, one after the other, are those of one.
pub proof fn lemma_seed_after(seed: u64, a: nat, b: nat)
    ensures
        seed_after(seed_after(seed, a), b) == seed_after(seed, a + b),
    decreases b,
{
    if b > 0 {
        lemma_seed_after(seed, a, (b - 1) as nat);
    }
}

/// The `len` letters and digits that are drawn from this seed on.
pub open spec fn drawn_suffix(seed: u64, len: nat) -> Seq<char> {
    Seq::new(len, |i: int| drawn_alphanumeric(seed_after(seed, i as nat)))
}

/// What is drawn does not depend on how the draws are grouped.
pub proof fn lemma_drawn_in_two(seed: u64, a: nat, b: nat)
    ensures
        drawn_suffix(seed, a + b) == drawn_suffix(seed, a) + drawn_suffix(seed_after(seed, a), b),
{
    assert forall|i: int| 0 <= i < b implies #[trigger] seed_after(seed_after(seed, a), i as nat)
        == seed_after(seed, (a + i) as nat) by {
        lemma_seed_after(seed, a, i as nat);
    }
    assert forall|i: int| 0 <= i < a + b implies drawn_suffix(seed, a + b)[i] == (drawn_suffix(
        seed,
        a,
    ) + drawn_suffix(seed_after(seed, a), b))[i] by {
        if i >= a {
            assert(seed_after(seed_after(seed, a), (i - a) as nat) == seed_after(
                seed,
                (a + (i - a)) as nat,
            ));
        }
    }
    assert(drawn_suffix(seed, a + b) =~= drawn_suffix(seed, a) + drawn_suffix(
        seed_after(seed, a),
        b,
    ));
}

/// A source of random choices. Each draw has a seed of its own, the one behind that of the
/// draw before.
#[derive(Debug)]
pub struct DbRand {
    seed: u64,
}

impl DbRand {
    /// The seed of the next draw.
    pub closed spec fn seed(self) -> u64 {
        self.seed
    }

    /// A source that makes the same choices whenever it starts from this seed.
    pub fn new(seed: u64) -> (r: DbRand)
        ensures
            r.seed() == seed,
    {
        DbRand { seed }
    }

    fn advance(&mut self)
        ensures
            final(self).seed() == next_seed(old(self).seed()),
    {
        self.seed = self.seed.wrapping_add(1);
    }

    /// A number below `n`.
    pub fn below(&mut self, n: usize) -> (r: usize)
        requires
            n > 0,
        ensures
            r < n,
            r == drawn_below(old(self).seed(), n),
            final(self).seed() == next_seed(old(self).seed()),
    {
        let r: usize = draw_below(self.seed, n);
        self.advance();
        r
    }

    /// A suffix of `len` letters and digits.
    pub fn rand_suffix(&mut self, len: usize) -> (r: String)
        ensures
            r@ == drawn_suffix(old(self).seed(), len as nat),
            forall|i: int| 0 <= i < len ==> is_alphanumeric(#[trigger] r@[i]),
            final(self).seed() == seed_after(old(self).seed(), len as nat),
    {
        let ghost first = self.seed();
        let mut r = String::new();
        let mut i: usize = 0;
        while i < len
            invariant
                i <= len,
                r@ == drawn_suffix(first, i as nat),
                forall|j: int| 0 <= j < i ==> is_alphanumeric(#[trigger] r@[j]),
                self.seed() == seed_after(first, i as nat),
            decreases len - i,
        {
            let c = draw_alphanumeric(self.seed);
            text::push_char(&mut r, c);
            self.advance();
            i = i + 1;
            assert(r@ =~= drawn_suffix(first, i as nat));
        }
        r
    }
}

impl Default for DbRand {
    /// A source whose choices are left to chance.
    fn default() -> DbRand {
        DbRand::new(random_seed())
    }
}

/// After `n` draws the seed has moved on by `n`, round the end of the numbers: two draws have
/// the same seed only if a full round lies between them.
pub proof fn lemma_seed_counts_draws(seed: u64, n: nat)
    ensures
        seed_after(seed, n) as int == (seed + n) % 0x1_0000_0000_0000_0000,
        0 < n < 0x1_0000_0000_0000_0000 ==> seed_after(seed, n) != seed,
    decreases n,
{
    if n > 0 {
        lemma_seed_counts_draws(seed, (n - 1) as nat);
    }
}

} // verus!
