//! Where randomness comes from: generators hand out words of 32 random bits,
//! and each word makes one number between 0 and 1.

use crate::reals;
use crate::reals::Real;
use crate::scalar::{Number, Scalar};
use rand::rngs::StdRng;
use rand::{Rng, SeedableRng};
use vstd::prelude::*;

verus! {

/// Word `i` of those that the generator with a given seed hands out.
pub uninterp spec fn seeded_word(seed: u64, i: nat) -> u32;

/// The first `n` words that the generator with a given seed hands out.
pub open spec fn seeded(seed: u64, n: nat) -> Seq<u32> {
    Seq::new(n, |i: int| seeded_word(seed, i as nat))
}

/// The number that a word makes: its upper 24 bits, divided by `2^24`.
pub open spec fn draw_of<S: Number>(word: u32) -> S {
    S::unit().over(S::natural(16_777_216)).times(S::natural((word / 256) as usize))
}

/// The numbers that words make.
pub open spec fn draws_of<S: Number>(words: Seq<u32>) -> Seq<S> {
    Seq::new(words.len(), |i: int| draw_of(words[i]))
}

/// `StdRng::seed_from_u64` and `Rng::fill` on a list of words: the generator
/// hands out its words in order, from the first on, and computes each from
/// the seed alone.
#[verifier::external_body]
fn seeded_words(seed: u64, n: usize) -> (words: Vec<u32>)
    ensures
        words@.len() == n,
        forall|i: int| 0 <= i < n ==> #[trigger] words@[i] == seeded_word(seed, i as nat),
{
    let mut words = vec![0u32; n];
    StdRng::seed_from_u64(seed).fill(words.as_mut_slice());
    words
}

/// `StdRng::from_os_rng` and `Rng::fill` on a list of words: as many words as
/// are asked for; what they are is left to chance. Where the operating system
/// fails to give randomness, the call panics.
#[verifier::external_body]
fn os_words(n: usize) -> (words: Vec<u32>)
    ensures
        words@.len() == n,
{
    let mut words = vec![0u32; n];
    StdRng::from_os_rng().fill(words.as_mut_slice());
    words
}

/// `rand::rng` and `Rng::fill` on a list of words: as many words as are asked
/// for; what they are is left to chance. Where the operating system fails to
/// give randomness, the call panics.
#[verifier::external_body]
fn thread_words(n: usize) -> (words: Vec<u32>)
    ensures
        words@.len() == n,
{
    let mut words = vec![0u32; n];
    rand::rng().fill(words.as_mut_slice());
    words
}

/// The number that a word makes.
pub fn draw<S: Scalar>(word: u32) -> (x: S)
    ensures
        x == draw_of::<S>(word),
{
    S::one().div(S::from_count(16_777_216)).mul(S::from_count((word / 256) as usize))
}

/// The numbers that words make.
pub fn draws<S: Scalar>(words: &[u32]) -> (xs: Vec<S>)
    ensures
        xs@ == draws_of::<S>(words@),
{
    let mut xs: Vec<S> = Vec::with_capacity(words.len());
    let mut i: usize = 0;
    while i < words.len()
        invariant
            i <= words@.len(),
            xs@.len() == i,
            forall|k: int| 0 <= k < i ==> #[trigger] xs@[k] == draw_of::<S>(words@[k]),
        decreases words@.len() - i,
    {
        xs.push(draw(words[i]));
        i += 1;
    }
    assert(xs@ =~= draws_of::<S>(words@));
    xs
}

/// Whether numbers are such as random words make.
pub open spec fn are_draws<S: Number>(xs: Seq<S>) -> bool {
    exists|words: Seq<u32>| xs == #[trigger] draws_of::<S>(words)
}

/// Random numbers to sample with: the same in every run for a seed, fresh
/// ones without.
pub fn sampling_draws<S: Scalar>(n: usize, seed: Option<u64>) -> (xs: Vec<S>)
    ensures
        xs@.len() == n,
        are_draws(xs@),
        seed matches Some(s) ==> xs@ == draws_of::<S>(seeded(s, n as nat)),
{
    let words = match seed {
        Some(s) => {
            let words = seeded_words(s, n);
            assert(words@ =~= seeded(s, n as nat));
            words
        },
        None => os_words(n),
    };
    draws(words.as_slice())
}

/// Fresh random numbers, from the generator of the thread.
pub fn fresh_draws<S: Scalar>(n: usize) -> (xs: Vec<S>)
    ensures
        xs@.len() == n,
        are_draws(xs@),
{
    let words = thread_words(n);
    draws(words.as_slice())
}

/// Every draw is a number from 0 up to, but not including, 1.
pub proof fn law_draws_lie_between_zero_and_one(word: u32)
    ensures
        0real <= draw_of::<Real>(word).val() < 1real,
{
    let q = reals::quotient(1real, 16_777_216real);
    let k = (word / 256) as real;
    reals::lemma_quotient(1real, 16_777_216real);
    reals::lemma_product_sign(q, 16_777_216real);
    assert(0real <= k < 16_777_216real);
    reals::lemma_product_nonnegative(q, k);
    // q * 2^24 = 1, and k falls short of 2^24 by something positive
    let rest = 16_777_216real - k;
    reals::lemma_product_sign(q, rest);
    reals::lemma_product(q, 16_777_216real, k);
}

/// More draws from a seed begin with the fewer.
pub proof fn law_draws_of_a_seed_go_on<S: Number>(seed: u64, n: nat, m: nat)
    requires
        n <= m,
    ensures
        draws_of::<S>(seeded(seed, m)).take(n as int) == draws_of::<S>(seeded(seed, n)),
{
    assert(draws_of::<S>(seeded(seed, m)).take(n as int) =~= draws_of::<S>(seeded(seed, n)));
}

/// A draw is a whole number of steps of `2^-24`: as many as the upper 24 bits of
/// its word say.
pub proof fn law_draws_are_the_upper_bits(word: u32)
    ensures
        reals::product(draw_of::<Real>(word).val(), 16_777_216real) == (word / 256) as real,
{
    let q = reals::quotient(1real, 16_777_216real);
    let k = (word / 256) as real;
    reals::lemma_quotient(1real, 16_777_216real);
    reals::lemma_product(q, k, 16_777_216real);
    reals::lemma_product(k, 16_777_216real, q);
    reals::lemma_product(q, 16_777_216real, k);
    reals::lemma_product(k, q, 16_777_216real);
    reals::lemma_product(k, 1real, 1real);
}

/// Every word makes one draw, whatever the numbers are, and a seed's words are
/// taken in order.
pub proof fn law_words_make_draws_one_by_one<S: Number>(words: Seq<u32>, seed: u64, n: nat, i: int)
    ensures
        draws_of::<S>(words).len() == words.len(),
        0 <= i < words.len() ==> draws_of::<S>(words)[i] == S::unit().over(
            S::natural(16_777_216),
        ).times(S::natural((words[i] / 256) as usize)),
        seeded(seed, n).len() == n,
        0 <= i < n ==> seeded(seed, n)[i] == seeded_word(seed, i as nat),
{
}

} // verus!
