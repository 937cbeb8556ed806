//! Generating text: the model's own output becomes its next input.
//!
//! The hidden state is carried for as long as the text grows. All that is
//! random is one draw for each token: given the draws, or the seed that they
//! come from, the text is a function of the model and the prompt.

use crate::chance;
use crate::dense;
use crate::model::{Model, Params};
use crate::ranking;
use crate::ranking::Ranking;
use crate::scalar;
use crate::scalar::{Number, Scalar};
use crate::strings;
use crate::tokenizer;
use crate::vocabulary;
use vstd::hash_map::StringHashMap;
use vstd::prelude::*;

verus! {

/// How a distribution is reshaped before it is sampled from.
#[derive(Clone, Copy)]
pub struct SamplingConfig<S> {
    /// Below 1 sharpens towards likely tokens, above 1 flattens.
    pub temperature: S,
    /// Only this many of the likeliest tokens are considered.
    pub top_k: Option<usize>,
    /// Only the likeliest tokens that together reach this mass are considered.
    pub top_p: Option<S>,
}

/// A list scaled to sum to 1.
pub open spec fn scaled_to_one<S: Number>(xs: Seq<S>) -> Seq<S> {
    Seq::new(xs.len(), |i: int| xs[i].over(scalar::sum_of(xs)))
}

/// The entries of a list to the power of `exponent`.
pub open spec fn powers<S: Number>(xs: Seq<S>, exponent: S) -> Seq<S> {
    Seq::new(xs.len(), |i: int| xs[i].power_of(exponent))
}

/// A list of probabilities none of which is below `1e-12`.
pub open spec fn lifted<S: Number>(probs: Seq<S>) -> Seq<S> {
    Seq::new(probs.len(), |i: int| scalar::greater_of(probs[i], S::numeral(1, 12)))
}

/// A distribution at a temperature: each probability to the power of one
/// over the temperature. At a temperature of 1 nothing changes.
pub open spec fn tempered<S: Number>(probs: Seq<S>, temperature: S) -> Seq<S> {
    if scalar::less(scalar::magnitude(temperature.minus(S::unit())), S::numeral(1, 6)) {
        probs
    } else {
        scaled_to_one(powers(lifted(probs), S::unit().over(temperature)))
    }
}

/// A list scaled to sum to 1, where it sums to more than 0.
pub open spec fn renormalized<S: Number>(xs: Seq<S>) -> Seq<S> {
    if scalar::less(S::nought(), scalar::sum_of(xs)) {
        scaled_to_one(xs)
    } else {
        xs
    }
}

/// Whether the entries of a list can be ordered.
pub open spec fn comparable<S: Number>(p: Seq<S>) -> bool {
    p.len() <= 1 || forall|i: int| 0 <= i < p.len() ==> (#[trigger] p[i]).key() is Some
}

/// Whether entry `a` ranks before entry `b`: for being greater, or among
/// equals for standing first.
pub open spec fn ranks_before<S: Number>(p: Seq<S>, a: int, b: int) -> bool {
    match (p[a].key(), p[b].key()) {
        (Some(x), Some(y)) => x > y || (x == y && a < b),
        (Some(x), None) => true,
        (None, Some(y)) => false,
        (None, None) => a < b,
    }
}

/// The positions of a list.
pub open spec fn positions(n: nat) -> Seq<usize> {
    Seq::new(n, |i: int| i as usize)
}

/// Whether `order` names the entries of a list from the greatest to the
/// smallest.
pub open spec fn is_descending<S: Number>(p: Seq<S>, order: Seq<usize>) -> bool {
    &&& order.to_multiset() == positions(p.len()).to_multiset()
    &&& forall|i: int, j: int|
        0 <= i < j < order.len() ==> ranks_before(
            p,
            #[trigger] order[i] as int,
            #[trigger] order[j] as int,
        )
}

/// The entries of a list from the greatest to the smallest.
pub open spec fn descending<S: Number>(p: Seq<S>) -> Seq<usize> {
    choose|order: Seq<usize>| is_descending(p, order)
}

/// A list with all but the first `keep` entries of an order set to 0.
pub open spec fn silenced<S: Number>(p: Seq<S>, order: Seq<usize>, keep: nat) -> Seq<S> {
    Seq::new(
        p.len(),
        |i: int|
            if exists|r: int| 0 <= r < keep && r < order.len() && #[trigger] order[r] == i {
                p[i]
            } else {
                S::nought()
            },
    )
}

/// The sum of the first `n` entries of an order.
pub open spec fn mass_of<S: Number>(p: Seq<S>, order: Seq<usize>, n: nat) -> S
    decreases n,
{
    if n == 0 {
        S::nought()
    } else {
        mass_of(p, order, (n - 1) as nat).plus(p[order[n - 1] as int])
    }
}

/// The least number of entries of an order, more than `n`, that together
/// reach `mass`; all of them, if none does.
pub open spec fn reach<S: Number>(p: Seq<S>, order: Seq<usize>, mass: S, n: nat) -> nat
    decreases order.len() - n,
{
    if n >= order.len() {
        order.len()
    } else if scalar::at_most(mass, mass_of(p, order, n + 1)) {
        n + 1
    } else {
        reach(p, order, mass, n + 1)
    }
}

/// A distribution restricted to its `k` likeliest tokens.
pub open spec fn top_k_of<S: Number>(p: Seq<S>, k: nat) -> Seq<S> {
    renormalized(silenced(p, descending(p), k))
}

/// A distribution restricted to the likeliest tokens that reach `mass`.
pub open spec fn top_p_of<S: Number>(p: Seq<S>, mass: S) -> Seq<S> {
    renormalized(silenced(p, descending(p), reach(p, descending(p), mass, 0)))
}

/// A distribution reshaped for sampling; none, where it would have to order
/// what cannot be ordered.
pub open spec fn reshaped<S: Number>(probs: Seq<S>, cfg: SamplingConfig<S>) -> Option<Seq<S>> {
    let p = tempered(probs, cfg.temperature);
    let likeliest = match cfg.top_k {
        None => Some(p),
        Some(k) => if comparable(p) {
            Some(top_k_of(p, k as nat))
        } else {
            None
        },
    };
    match likeliest {
        None => None,
        Some(q) => match cfg.top_p {
            None => Some(q),
            Some(mass) => if comparable(q) {
                Some(top_p_of(q, mass))
            } else {
                None
            },
        },
    }
}

/// What is left of a draw after the first `n` probabilities.
pub open spec fn remainder<S: Number>(probs: Seq<S>, draw: S, n: nat) -> S
    decreases n,
{
    if n == 0 {
        draw
    } else {
        remainder(probs, draw, (n - 1) as nat).minus(probs[n - 1])
    }
}

/// Whether a token has a positive probability.
pub open spec fn likely<S: Number>(probs: Seq<S>, i: int) -> bool {
    scalar::less(S::nought(), probs[i])
}

/// The first token, from the `n`th on, of positive probability; the first of
/// all, where there is none.
pub open spec fn first_likely<S: Number>(probs: Seq<S>, n: nat) -> nat
    decreases probs.len() - n,
{
    if n >= probs.len() {
        0
    } else if likely(probs, n as int) {
        n
    } else {
        first_likely(probs, n + 1)
    }
}

/// The first token of positive probability, from the `n`th on, with which
/// nothing is left of a draw; the first of positive probability, where there
/// is none.
pub open spec fn drawn_from<S: Number>(probs: Seq<S>, draw: S, n: nat) -> nat
    decreases probs.len() - n,
{
    if n >= probs.len() {
        first_likely(probs, 0)
    } else if likely(probs, n as int) && scalar::at_most(
        remainder(probs, draw, n + 1),
        S::nought(),
    ) {
        n
    } else {
        drawn_from(probs, draw, n + 1)
    }
}

/// The token that a draw picks from a distribution.
pub open spec fn drawn<S: Number>(probs: Seq<S>, draw: S) -> nat {
    drawn_from(probs, draw, 0)
}

/// A text in the making: its tokens so far, the hidden state after them and
/// the distribution of the next.
#[verifier::ext_equal]
pub struct Speech<S> {
    pub ids: Seq<usize>,
    pub h: Seq<S>,
    pub probs: Seq<S>,
}

impl<S: Number> Params<S> {
    /// A speech with one token more.
    pub open spec fn say(self, speech: Speech<S>, id: usize) -> Speech<S> {
        let out = self.step(id as int, speech.h);
        Speech { ids: speech.ids.push(id), h: out.h, probs: out.probs }
    }

    /// The speech that consists of the first `n` of given tokens.
    pub open spec fn read(self, ids: Seq<usize>, n: nat) -> Speech<S>
        decreases n,
    {
        if n == 0 {
            Speech {
                ids: seq![],
                h: scalar::noughts(self.hidden_dim as nat),
                probs: scalar::noughts(self.vocab_size as nat),
            }
        } else {
            self.say(self.read(ids, (n - 1) as nat), ids[n - 1])
        }
    }

    /// A speech continued by one token for each of the first `n` draws;
    /// none, where a distribution cannot be reshaped.
    pub open spec fn continued(
        self,
        start: Speech<S>,
        cfg: SamplingConfig<S>,
        draws: Seq<S>,
        n: nat,
    ) -> Option<Speech<S>>
        decreases n,
    {
        if n == 0 {
            Some(start)
        } else {
            match self.continued(start, cfg, draws, (n - 1) as nat) {
                None => None,
                Some(speech) => match reshaped(speech.probs, cfg) {
                    None => None,
                    Some(probs) => Some(self.say(speech, drawn(probs, draws[n - 1]) as usize)),
                },
            }
        }
    }
}

/// The tokens that a text starts from: the prompt, or a line break where
/// there is none.
pub open spec fn seed_of(ids: Map<Seq<char>, usize>, prompt_ids: Seq<usize>) -> Seq<usize> {
    if prompt_ids.len() == 0 {
        seq![vocabulary::id_of(ids, seq!['\n'])]
    } else {
        prompt_ids
    }
}

/// The entries of a list from the greatest to the smallest.
struct ByMass<'a, S> {
    p: &'a Vec<S>,
}

impl<'a, S: Scalar> Ranking for ByMass<'a, S> {
    closed spec fn ranks(&self, item: usize) -> bool {
        item < self.p@.len()
    }

    closed spec fn ahead(&self, a: usize, b: usize) -> bool {
        ranks_before(self.p@, a as int, b as int)
    }

    proof fn irreflexive(&self, a: usize) {
    }

    proof fn total(&self, a: usize, b: usize) {
    }

    proof fn transitive(&self, a: usize, b: usize, c: usize) {
    }

    fn is_ahead(&self, a: usize, b: usize) -> (r: bool) {
        match (self.p[a].order_key(), self.p[b].order_key()) {
            (Some(x), Some(y)) => x > y || (x == y && a < b),
            (Some(_), None) => true,
            (None, Some(_)) => false,
            (None, None) => a < b,
        }
    }
}

/// The entries of a list from the greatest to the smallest.
fn order_descending<S: Scalar>(p: &Vec<S>) -> (order: Vec<usize>)
    ensures
        order@ == descending(p@),
        is_descending(p@, order@),
        order@.len() == p@.len(),
        order@.no_duplicates(),
        forall|i: int| 0 <= i < order@.len() ==> #[trigger] order@[i] < p@.len(),
{
    let ranking = ByMass { p };
    let all = vocabulary::numbers_below(p.len());
    let ghost numbered = all@;
    let order = ranking::sort(&ranking, all);
    proof {
        assert(numbered =~= positions(p@.len()));
        ranking::lemma_same_items(numbered, order@);
        assert(is_descending(p@, order@)) by {
            assert forall|i: int, j: int| 0 <= i < j < order@.len() implies ranks_before(
                p@,
                #[trigger] order@[i] as int,
                #[trigger] order@[j] as int,
            ) by {
                assert(ranking.ahead(order@[i], order@[j]));
            }
        }
        assert forall|i: int| 0 <= i < order@.len() implies #[trigger] order@[i] < p@.len() by {
            assert(numbered.contains(order@[i]));
        }
        let other = descending(p@);
        assert forall|i: int, j: int| 0 <= i < j < other.len() implies ranking.ahead(
            #[trigger] other[i],
            #[trigger] other[j],
        ) by {
            assert(ranks_before(p@, other[i] as int, other[j] as int));
        }
        ranking::lemma_one_order(&ranking, order@, other);
    }
    order
}

/// Whether the entries of a list can be ordered.
fn is_comparable<S: Scalar>(p: &Vec<S>) -> (r: bool)
    ensures
        r == comparable(p@),
{
    if p.len() <= 1 {
        return true;
    }
    let mut i: usize = 0;
    while i < p.len()
        invariant
            1 < p@.len(),
            i <= p@.len(),
            forall|k: int| 0 <= k < i ==> (#[trigger] p@[k]).key() is Some,
        decreases p@.len() - i,
    {
        if p[i].order_key().is_none() {
            assert(!(p@[i as int].key() is Some));
            return false;
        }
        i += 1;
    }
    true
}

/// Sets all but the first `keep` entries of an order to 0.
fn silence<S: Scalar>(p: &mut Vec<S>, order: &Vec<usize>, keep: usize)
    requires
        order@.len() == old(p)@.len(),
        order@.no_duplicates(),
        forall|i: int| 0 <= i < order@.len() ==> #[trigger] order@[i] < old(p)@.len(),
        order@.to_multiset() == positions(old(p)@.len()).to_multiset(),
    ensures
        final(p)@ == silenced(old(p)@, order@, keep as nat),
{
    let ghost start = p@;
    proof {
        ranking::lemma_same_items(positions(start.len()), order@);
    }
    let mut r: usize = if keep < order.len() {
        keep
    } else {
        order.len()
    };
    while r < order.len()
        invariant
            r <= order@.len(),
            keep <= r || r == order@.len(),
            order@.len() == start.len(),
            p@.len() == start.len(),
            order@.no_duplicates(),
            forall|i: int| 0 <= i < order@.len() ==> #[trigger] order@[i] < start.len(),
            forall|q: int|
                0 <= q < order@.len() ==> p@[#[trigger] order@[q] as int] == (if keep <= q < r {
                    S::nought()
                } else {
                    start[order@[q] as int]
                }),
        decreases order@.len() - r,
    {
        let ghost before = p@;
        let at = order[r];
        p.set(at, S::zero());
        assert forall|q: int| 0 <= q < order@.len() implies p@[#[trigger] order@[q] as int] == (
        if keep <= q < r + 1 {
            S::nought()
        } else {
            start[order@[q] as int]
        }) by {
            if q != r {
                assert(order@[q] != order@[r as int]);
            }
        }
        r += 1;
    }
    let ghost goal = silenced(start, order@, keep as nat);
    assert forall|i: int| 0 <= i < start.len() implies p@[i] == goal[i] by {
        assert(positions(start.len())[i] == i as usize);
        assert(positions(start.len()).contains(i as usize));
        assert(order@.contains(i as usize));
        let q = order@.index_of(i as usize);
        assert(order@[q] == i);
        if q >= keep {
            assert forall|w: int| 0 <= w < keep && w < order@.len() implies #[trigger] order@[w]
                != i by {
                assert(order@[w] != order@[q]);
            }
        }
    }
    assert(p@ =~= goal);
}

/// Divides the entries of a list by their sum.
fn scale_to_one<S: Scalar>(xs: &Vec<S>) -> (v: Vec<S>)
    ensures
        v@ == scaled_to_one(xs@),
{
    let total = scalar::sum(xs.as_slice());
    let mut v: Vec<S> = Vec::with_capacity(xs.len());
    let mut i: usize = 0;
    while i < xs.len()
        invariant
            i <= xs@.len(),
            v@.len() == i,
            forall|k: int| 0 <= k < i ==> #[trigger] v@[k] == xs@[k].over(total),
        decreases xs@.len() - i,
    {
        v.push(xs[i].div(total));
        i += 1;
    }
    assert(v@ =~= scaled_to_one(xs@));
    v
}

/// Scales a list to sum to 1, where it sums to more than 0.
fn renormalize<S: Scalar>(xs: Vec<S>) -> (v: Vec<S>)
    ensures
        v@ == renormalized(xs@),
{
    if scalar::is_less(S::zero(), scalar::sum(xs.as_slice())) {
        scale_to_one(&xs)
    } else {
        xs
    }
}

/// A distribution at a temperature.
fn temper<S: Scalar>(probs: &[S], temperature: S) -> (v: Vec<S>)
    ensures
        v@ == tempered(probs@, temperature),
{
    if scalar::is_less(scalar::abs(temperature.sub(S::one())), S::decimal(1, 6)) {
        scalar::copied(probs)
    } else {
        let tiny = S::decimal(1, 12);
        let exponent = S::one().div(temperature);
        let mut raised: Vec<S> = Vec::with_capacity(probs.len());
        let mut i: usize = 0;
        while i < probs.len()
            invariant
                i <= probs@.len(),
                tiny == S::numeral(1, 12),
                exponent == S::unit().over(temperature),
                raised@.len() == i,
                forall|k: int|
                    0 <= k < i ==> #[trigger] raised@[k] == scalar::greater_of(
                        probs@[k],
                        tiny,
                    ).power_of(exponent),
            decreases probs@.len() - i,
        {
            raised.push(scalar::greater(probs[i], tiny).powf(exponent));
            i += 1;
        }
        assert(raised@ =~= powers(lifted(probs@), exponent));
        scale_to_one(&raised)
    }
}

/// The number of entries of an order that it takes to reach `mass`.
fn find_reach<S: Scalar>(p: &Vec<S>, order: &Vec<usize>, mass: S) -> (n: usize)
    requires
        forall|i: int| 0 <= i < order@.len() ==> #[trigger] order@[i] < p@.len(),
    ensures
        n == reach(p@, order@, mass, 0),
{
    let mut cum = S::zero();
    let mut rank: usize = 0;
    while rank < order.len()
        invariant
            rank <= order@.len(),
            forall|i: int| 0 <= i < order@.len() ==> #[trigger] order@[i] < p@.len(),
            cum == mass_of(p@, order@, rank as nat),
            reach(p@, order@, mass, 0) == reach(p@, order@, mass, rank as nat),
        decreases order@.len() - rank,
    {
        cum = cum.add(p[order[rank]]);
        rank += 1;
        assert(cum == mass_of(p@, order@, rank as nat));
        if scalar::is_at_most(mass, cum) {
            return rank;
        }
    }
    order.len()
}

/// Reshapes a distribution before it is sampled from: by the temperature,
/// then by keeping the likeliest tokens alone.
pub fn reshape_for_sampling<S: Scalar>(probs: &[S], cfg: SamplingConfig<S>) -> (r: Option<Vec<S>>)
    ensures
        r matches Some(p) ==> reshaped(probs@, cfg) == Some(p@),
        r is None ==> reshaped(probs@, cfg) is None,
{
    let mut p = temper(probs, cfg.temperature);
    if let Some(k) = cfg.top_k {
        if !is_comparable(&p) {
            return None;
        }
        let order = order_descending(&p);
        silence(&mut p, &order, k);
        p = renormalize(p);
    }
    if let Some(top_p) = cfg.top_p {
        if !is_comparable(&p) {
            return None;
        }
        let order = order_descending(&p);
        let cutoff: usize = find_reach(&p, &order, top_p);
        silence(&mut p, &order, cutoff);
        p = renormalize(p);
    }
    Some(p)
}

/// Picks a token from a distribution: the first of positive probability with
/// which nothing is left of the draw. A token that was ruled out is not
/// picked as long as there is another.
pub fn pick<S: Scalar>(probs: &[S], draw: S) -> (id: usize)
    ensures
        id == drawn(probs@, draw),
        probs@.len() > 0 ==> id < probs@.len(),
        (exists|i: int| 0 <= i < probs@.len() && #[trigger] likely(probs@, i)) ==> likely(
            probs@,
            id as int,
        ),
{
    let mut r = draw;
    let mut first: Option<usize> = None;
    let mut j: usize = 0;
    while j < probs.len()
        invariant
            j <= probs@.len(),
            r == remainder(probs@, draw, j as nat),
            drawn(probs@, draw) == drawn_from(probs@, draw, j as nat),
            match first {
                Some(f) => f < j && likely(probs@, f as int) && first_likely(probs@, 0) == f,
                None => first_likely(probs@, 0) == first_likely(probs@, j as nat) && forall|i: int|
                    0 <= i < j ==> !#[trigger] likely(probs@, i),
            },
        decreases probs@.len() - j,
    {
        r = r.sub(probs[j]);
        if scalar::is_less(S::zero(), probs[j]) {
            assert(likely(probs@, j as int));
            if scalar::is_at_most(r, S::zero()) {
                return j;
            }
            if first.is_none() {
                first = Some(j);
            }
        }
        j += 1;
    }
    match first {
        Some(f) => f,
        None => 0,
    }
}

impl<S: Number> Params<S> {
    /// Whether a token can be said: the model embeds it and the vocabulary
    /// has an entry for it.
    pub open spec fn can_say(self, vocab_len: nat, id: int) -> bool {
        self.embeds(id) && id < vocab_len
    }

    /// The tokens of a text that starts from `seed` and goes on by one token
    /// for each draw.
    pub open spec fn speech(
        self,
        seed: Seq<usize>,
        cfg: SamplingConfig<S>,
        draws: Seq<S>,
    ) -> Option<Speech<S>> {
        self.continued(self.read(seed, seed.len()), cfg, draws, draws.len())
    }
}

impl<S: Number> Params<S> {
    /// The text that a model writes with given draws, if any.
    pub open spec fn writes(
        self,
        vocab: Seq<String>,
        ids: Map<Seq<char>, usize>,
        prompt_ids: Seq<usize>,
        draws: Seq<S>,
        cfg: SamplingConfig<S>,
    ) -> Option<Seq<char>> {
        match self.speech(seed_of(ids, prompt_ids), cfg, draws) {
            Some(speech) => Some(
                tokenizer::text_of(vocabulary::decoded(strings::texts(vocab), speech.ids)),
            ),
            None => None,
        }
    }
}

/// The characters of a text, if there is one.
pub open spec fn chars_in(text: Option<String>) -> Option<Seq<char>> {
    match text {
        Some(t) => Some(t@),
        None => None,
    }
}

/// Writes a text: the prompt, or a line break where there is none, then
/// `length` tokens, each sampled from the distribution that the model gives
/// after all before it. The same seed gives the same text; without a seed it
/// is left to chance. No text comes of it where a distribution holds
/// something that cannot be ordered and has to be.
pub fn generate<S: Scalar>(
    model: &Model<S>,
    vocab: &[String],
    token_to_id: &StringHashMap<usize>,
    prompt_ids: &[usize],
    length: usize,
    seed: Option<u64>,
    sampling: SamplingConfig<S>,
) -> (text: Option<String>)
    requires
        model@.shaped(),
        model.vocab_size <= vocab@.len(),
        length > 0 ==> model.vocab_size > 0,
        forall|i: int|
            0 <= i < seed_of(token_to_id@, prompt_ids@).len() ==> model@.can_say(
                vocab@.len(),
                #[trigger] seed_of(token_to_id@, prompt_ids@)[i] as int,
            ),
    ensures
        seed matches Some(s) ==> chars_in(text) == model@.writes(
            vocab@,
            token_to_id@,
            prompt_ids@,
            chance::draws_of::<S>(chance::seeded(s, length as nat)),
            sampling,
        ),
        exists|words: Seq<u32>|
            words.len() == length && chars_in(text) == model@.writes(
                vocab@,
                token_to_id@,
                prompt_ids@,
                #[trigger] chance::draws_of::<S>(words),
                sampling,
            ),
{
    let draws = chance::sampling_draws::<S>(length, seed);
    let text = write_text(model, vocab, token_to_id, prompt_ids, draws.as_slice(), sampling);
    proof {
        let words = choose|words: Seq<u32>| draws@ == #[trigger] chance::draws_of::<S>(words);
        assert(chance::draws_of::<S>(words).len() == words.len());
    }
    text
}

/// Writes a text: the prompt, or a line break where there is none, then one
/// token for each draw, each sampled from the distribution that the model
/// gives after all before it. No text comes of it where a distribution holds
/// something that cannot be ordered and has to be.
pub fn write_text<S: Scalar>(
    model: &Model<S>,
    vocab: &[String],
    token_to_id: &StringHashMap<usize>,
    prompt_ids: &[usize],
    draws: &[S],
    sampling: SamplingConfig<S>,
) -> (text: Option<String>)
    requires
        model@.shaped(),
        model.vocab_size <= vocab@.len(),
        draws@.len() > 0 ==> model.vocab_size > 0,
        forall|i: int|
            0 <= i < seed_of(token_to_id@, prompt_ids@).len() ==> model@.can_say(
                vocab@.len(),
                #[trigger] seed_of(token_to_id@, prompt_ids@)[i] as int,
            ),
    ensures
        chars_in(text) == model@.writes(vocab@, token_to_id@, prompt_ids@, draws@, sampling),
{
    let seed_ids: Vec<usize> = if prompt_ids.len() == 0 {
        let line_break = strings::string_of('\n');
        let newline_id: usize = match token_to_id.get(line_break.as_str()) {
            Some(id) => *id,
            None => 0,
        };
        let mut ids: Vec<usize> = Vec::new();
        ids.push(newline_id);
        ids
    } else {
        scalar::copied(prompt_ids)
    };
    let ghost seed = seed_of(token_to_id@, prompt_ids@);
    assert(seed_ids@ =~= seed);
    let ghost entries = strings::texts(vocab@);
    let mut h: Vec<S> = scalar::zeros(model.hidden_dim);
    let mut last_probs: Vec<S> = scalar::zeros(model.vocab_size);
    let mut out_tokens: Vec<String> = Vec::new();
    let mut n: usize = 0;
    assert(strings::texts(out_tokens@) =~= vocabulary::decoded(entries, model@.read(seed, 0).ids));
    while n < seed_ids.len()
        invariant
            n <= seed_ids@.len(),
            seed_ids@ == seed,
            entries == strings::texts(vocab@),
            model@.shaped(),
            forall|i: int|
                0 <= i < seed.len() ==> model@.can_say(vocab@.len(), #[trigger] seed[i] as int),
            h@ == model@.read(seed, n as nat).h,
            h@.len() == model.hidden_dim,
            last_probs@ == model@.read(seed, n as nat).probs,
            last_probs@.len() == model.vocab_size,
            strings::texts(out_tokens@) == vocabulary::decoded(entries, model@.read(seed, n as nat).ids),
        decreases seed_ids@.len() - n,
    {
        let id = seed_ids[n];
        let ghost before = strings::texts(out_tokens@);
        let ghost said = model@.read(seed, n as nat).ids;
        assert(model@.can_say(vocab@.len(), seed[n as int] as int));
        out_tokens.push(vocab[id].clone());
        let out = model.step(id, h.as_slice());
        h = out.h;
        last_probs = out.probs;
        n += 1;
        assert(strings::texts(out_tokens@) =~= before.push(entries[id as int]));
        assert(vocabulary::decoded(entries, said.push(id)) =~= vocabulary::decoded(entries, said).push(
            entries[id as int],
        ));
    }
    let ghost start = model@.read(seed, seed.len());
    let mut m: usize = 0;
    while m < draws.len()
        invariant
            m <= draws@.len(),
            seed == seed_of(token_to_id@, prompt_ids@),
            start == model@.read(seed, seed.len()),
            entries == strings::texts(vocab@),
            model@.shaped(),
            model.vocab_size <= vocab@.len(),
            draws@.len() > 0 ==> model.vocab_size > 0,
            h@.len() == model.hidden_dim,
            last_probs@.len() == model.vocab_size,
            model@.continued(start, sampling, draws@, m as nat) matches Some(speech) && h@
                == speech.h && last_probs@ == speech.probs && strings::texts(out_tokens@)
                == vocabulary::decoded(entries, speech.ids),
        decreases draws@.len() - m,
    {
        let ghost speech = model@.continued(start, sampling, draws@, m as nat)->0;
        let sampling_probs = match reshape_for_sampling(last_probs.as_slice(), sampling) {
            Some(p) => p,
            None => {
                proof {
                    lemma_silence_stays(model@, start, sampling, draws@, (m + 1) as nat);
                }
                return None;
            },
        };
        proof {
            lemma_reshaped_size(last_probs@, sampling);
        }
        let chosen_id = pick(sampling_probs.as_slice(), draws[m]);
        proof {
            dense::lemma_row(
                chosen_id as int,
                model.vocab_size as int,
                model.embed_dim as int,
            );
        }
        let ghost before = strings::texts(out_tokens@);
        out_tokens.push(vocab[chosen_id].clone());
        let out = model.step(chosen_id, h.as_slice());
        h = out.h;
        last_probs = out.probs;
        m += 1;
        assert(strings::texts(out_tokens@) =~= before.push(entries[chosen_id as int]));
        assert(vocabulary::decoded(entries, speech.ids.push(chosen_id)) =~= vocabulary::decoded(entries, speech.ids).push(
            entries[chosen_id as int],
        ));
    }
    Some(tokenizer::detokenize(out_tokens.as_slice()))
}

/// Reshaping keeps the number of tokens.
pub proof fn lemma_reshaped_size<S: Number>(probs: Seq<S>, cfg: SamplingConfig<S>)
    ensures
        reshaped(probs, cfg) matches Some(p) ==> p.len() == probs.len(),
{
}

/// A text that could not be continued is not continued later.
proof fn lemma_silence_stays<S: Number>(
    p: Params<S>,
    start: Speech<S>,
    cfg: SamplingConfig<S>,
    draws: Seq<S>,
    n: nat,
)
    requires
        n <= draws.len(),
        p.continued(start, cfg, draws, n) is None,
    ensures
        p.continued(start, cfg, draws, draws.len()) is None,
    decreases draws.len() - n,
{
    if n < draws.len() {
        lemma_silence_stays(p, start, cfg, draws, n + 1);
    }
}

/// A text that was written has the characters of its string, and one that was
/// not has none.
pub proof fn law_written_texts_have_characters(t: String)
    ensures
        chars_in(Some(t)) == Some(t@),
        chars_in(None) is None,
{
}

} // verus!
