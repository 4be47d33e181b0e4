//! Where random numbers come from.

use vstd::prelude::*;

use rand::{RngExt, SeedableRng};
use rand_xoshiro::Xoshiro256PlusPlus;

verus! {

/// The generator of `rand_xoshiro`.
#[verifier::external_type_specification]
#[verifier::external_body]
pub struct ExXoshiro256PlusPlus(Xoshiro256PlusPlus);

/// The words that a generator holds.
pub uninterp spec fn words_in(rng: Xoshiro256PlusPlus) -> Seq<u64>;

/// The words that `Xoshiro256PlusPlus::seed_from_u64` makes of a seed.
pub uninterp spec fn seeded_words(seed: u64) -> Seq<u64>;

/// The number below `n` that `RngExt::random_range` draws from a generator that holds these words.
pub uninterp spec fn number_below(words: Seq<u64>, n: usize) -> usize;

/// The words that a generator is left with after `RngExt::random_range` has drawn a number below `n`
/// from it.
pub uninterp spec fn words_after(words: Seq<u64>, n: usize) -> Seq<u64>;

/// Calls `Xoshiro256PlusPlus::seed_from_u64`: the claim is that what the generator holds depends on
/// the seed alone.
#[verifier::external_body]
fn seeded_generator(seed: u64) -> (r: Xoshiro256PlusPlus)
    ensures
        words_in(r) == seeded_words(seed),
{
    Xoshiro256PlusPlus::seed_from_u64(seed)
}

/// Calls `RngExt::random_range` with the range from 0 to `n`, the end excluded: the claim is that
/// the number lies in the range, and that the number and what the generator holds afterwards depend
/// on what it held and on `n` alone. An empty range would panic, so `n` is positive.
#[verifier::external_body]
fn random_below(rng: &mut Xoshiro256PlusPlus, n: usize) -> (r: usize)
    requires
        n > 0,
    ensures
        r < n,
        r == number_below(words_in(*old(rng)), n),
        words_in(*final(rng)) == words_after(words_in(*old(rng)), n),
{
    rng.random_range(0..n)
}

/// A source of numbers.
pub trait Draws {
    /// The number that is drawn below a bound, given the bounds of the draws before it.
    spec fn rule(&self) -> spec_fn(Seq<usize>, usize) -> usize;

    /// The bounds of the draws so far.
    spec fn asked(&self) -> Seq<usize>;

    /// The source can be drawn from.
    spec fn wf(&self) -> bool;

    /// Draw a number below `n`.
    fn draw(&mut self, n: usize) -> (r: usize)
        requires
            n > 0,
            old(self).wf(),
        ensures
            r < n,
            r == old(self).rule()(old(self).asked(), n),
            final(self).rule() == old(self).rule(),
            final(self).asked() == old(self).asked().push(n),
            final(self).wf(),
    ;
}

/// The words that a generator holds after draws with these bounds.
pub open spec fn words_after_all(words: Seq<u64>, asked: Seq<usize>) -> Seq<u64>
    decreases asked.len(),
{
    if asked.len() == 0 {
        words
    } else {
        words_after(words_after_all(words, asked.drop_last()), asked.last())
    }
}

/// The numbers that a generator with this seed gives.
pub open spec fn seeded_rule(seed: u64) -> spec_fn(Seq<usize>, usize) -> usize {
    |asked: Seq<usize>, n: usize| number_below(words_after_all(seeded_words(seed), asked), n)
}

/// Numbers from a seeded generator.
pub struct Random {
    rng: Xoshiro256PlusPlus,
    seed: u64,
    seen: Ghost<Seq<usize>>,
}

impl Random {
    /// A generator that starts from a seed.
    pub fn seeded(seed: u64) -> (r: Self)
        ensures
            r.wf(),
            r.rule() == seeded_rule(seed),
            r.asked() == Seq::<usize>::empty(),
    {
        Random { rng: seeded_generator(seed), seed, seen: Ghost(Seq::empty()) }
    }
}

impl Draws for Random {
    closed spec fn rule(&self) -> spec_fn(Seq<usize>, usize) -> usize {
        seeded_rule(self.seed)
    }

    closed spec fn asked(&self) -> Seq<usize> {
        self.seen@
    }

    closed spec fn wf(&self) -> bool {
        words_in(self.rng) == words_after_all(seeded_words(self.seed), self.seen@)
    }

    fn draw(&mut self, n: usize) -> (r: usize) {
        let r: usize = random_below(&mut self.rng, n);
        proof {
            let seen = self.seen@;
            assert(seen.push(n).drop_last() =~= seen);
        }
        self.seen = Ghost(self.seen@.push(n));
        r
    }
}

/// The numbers of a list, in order. A number that is missing or too large is drawn as 0.
pub open spec fn listed_rule(numbers: Seq<usize>) -> spec_fn(Seq<usize>, usize) -> usize {
    |asked: Seq<usize>, n: usize|
        if asked.len() < numbers.len() && numbers[asked.len() as int] < n {
            numbers[asked.len() as int]
        } else {
            0
        }
}

/// Numbers from a list. A number that is missing or too large is drawn as 0.
#[derive(Debug)]
pub struct Listed {
    numbers: Vec<usize>,
    bounds: Vec<usize>,
}

impl Listed {
    pub fn new(numbers: Vec<usize>) -> (r: Self)
        ensures
            r.wf(),
            r.rule() == listed_rule(numbers@),
            r.asked() == Seq::<usize>::empty(),
    {
        Listed { numbers, bounds: Vec::new() }
    }
}

impl Draws for Listed {
    closed spec fn rule(&self) -> spec_fn(Seq<usize>, usize) -> usize {
        listed_rule(self.numbers@)
    }

    closed spec fn asked(&self) -> Seq<usize> {
        self.bounds@
    }

    open spec fn wf(&self) -> bool {
        true
    }

    fn draw(&mut self, n: usize) -> (r: usize) {
        let i: usize = self.bounds.len();
        let r: usize = if i < self.numbers.len() && self.numbers[i] < n {
            self.numbers[i]
        } else {
            0
        };
        self.bounds.push(n);
        r
    }
}

} // verus!
