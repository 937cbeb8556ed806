//! How tokens are chosen, whatever the numbers are: what reshaping leaves of a
//! distribution, entry by entry, and how a text goes on.

use crate::generate;
use crate::generate::{SamplingConfig, Speech};
use crate::listwise;
use crate::model::Params;
use crate::sampling;
use crate::scalar;
use crate::scalar::Number;
use crate::strings;
use crate::tokenizer;
use crate::vocabulary;
use crate::windowed;
use vstd::prelude::*;

verus! {

/// At a temperature each probability, and `1e-12` in place of a smaller one, is
/// raised to the power of one over the temperature, and divided by the sum of
/// all. A temperature less than `1e-6` away from 1 changes nothing.
pub proof fn law_temperature_acts_on_every_entry<S: Number>(
    probs: Seq<S>,
    temperature: S,
    i: int,
)
    requires
        0 <= i < probs.len(),
    ensures
        ({
            let away = temperature.minus(S::unit());
            let raised = Seq::new(
                probs.len(),
                |j: int|
                    scalar::greater_of(probs[j], S::numeral(1, 12)).power_of(
                        S::unit().over(temperature),
                    ),
            );
            let warm = generate::tempered(probs, temperature);
            &&& warm.len() == probs.len()
            &&& scalar::less(scalar::magnitude(away), S::numeral(1, 6)) ==> warm == probs
            &&& !scalar::less(scalar::magnitude(away), S::numeral(1, 6)) ==> warm[i]
                == scalar::greater_of(probs[i], S::numeral(1, 12)).power_of(
                S::unit().over(temperature),
            ).over(scalar::sum_of(raised))
        }),
{
    let raised = Seq::new(
        probs.len(),
        |j: int|
            scalar::greater_of(probs[j], S::numeral(1, 12)).power_of(
                S::unit().over(temperature),
            ),
    );
    assert(generate::powers(generate::lifted(probs), S::unit().over(temperature)) =~= raised);
}

/// Whether `order` names the entries of a list from the greatest to the
/// smallest, those of the same size from the first to the last, each once. A
/// single entry need not be compared.
pub open spec fn ranks<S: Number>(p: Seq<S>, order: Seq<int>) -> bool {
    &&& order.len() == p.len()
    &&& forall|r: int|
        0 <= r < p.len() ==> 0 <= #[trigger] order[r] < p.len() && (p.len() == 1
            || p[order[r]].key() is Some)
    &&& forall|r: int, s: int|
        0 <= r < s < p.len() ==> {
            let (a, b) = (#[trigger] order[r], #[trigger] order[s]);
            p[a].key()->0 > p[b].key()->0 || (p[a].key()->0 == p[b].key()->0 && a < b)
        }
}

/// Every list whose entries can be compared is named so by some order.
pub proof fn law_entries_can_be_ranked<S: Number>(p: Seq<S>)
    requires
        p.len() <= usize::MAX,
        forall|i: int| 0 <= i < p.len() ==> (#[trigger] p[i]).key() is Some,
    ensures
        exists|order: Seq<int>| ranks(p, order),
{
    sampling::lemma_descending(p);
    let order = Seq::new(p.len(), |r: int| generate::descending(p)[r] as int);
    let d = generate::descending(p);
    assert forall|r: int, s: int| 0 <= r < s < p.len() implies {
        let (a, b) = (#[trigger] order[r], #[trigger] order[s]);
        p[a].key()->0 > p[b].key()->0 || (p[a].key()->0 == p[b].key()->0 && a < b)
    } by {
        assert(generate::ranks_before(p, d[r] as int, d[s] as int));
        assert(p[d[r] as int].key() is Some && p[d[s] as int].key() is Some);
    }
    assert(ranks(p, order));
}

/// Different ranks have different entries.
proof fn lemma_ranks_differ<S: Number>(p: Seq<S>, order: Seq<int>, r: int, s: int)
    requires
        ranks(p, order),
        0 <= r < p.len(),
        0 <= s < p.len(),
        order[r] == order[s],
    ensures
        r == s,
{
    if r < s {
        assert(order[r] != order[s]);
    }
    if s < r {
        assert(order[s] != order[r]);
    }
}

/// There is only one such order.
proof fn lemma_one_order<S: Number>(p: Seq<S>, order: Seq<int>, r: int)
    requires
        p.len() <= usize::MAX,
        ranks(p, order),
        0 <= r < p.len(),
    ensures
        generate::descending(p)[r] == order[r],
    decreases r,
{
    sampling::lemma_descending(p);
    let d = generate::descending(p);
    let n = p.len() as int;
    assert forall|s: int| 0 <= s < r implies #[trigger] d[s] == order[s] by {
        lemma_one_order(p, order, s);
    }
    let a = d[r] as int;
    let b = order[r];
    if a != b {
        // b stands in d behind r, and a in the order behind r.
        assert(sampling::keeps(p, p.len(), b));
        let s = choose|s: int| 0 <= s < p.len() && s < d.len() && #[trigger] d[s] == b;
        if s < r {
            assert(order[s] == b);
            lemma_ranks_differ(p, order, s, r);
        }
        assert(generate::ranks_before(p, d[r] as int, d[s] as int));
        lemma_every_entry_ranks(p, order, a);
        let t = choose|t: int| 0 <= t < n && #[trigger] order[t] == a;
        if t < r {
            assert(d[t] == order[t]);
            assert(d[t] == d[r]);
        }
        assert(order[r] == b && order[t] == a);
    }
}

/// Every entry has a rank.
proof fn lemma_every_entry_ranks<S: Number>(p: Seq<S>, order: Seq<int>, a: int)
    requires
        ranks(p, order),
        0 <= a < p.len(),
    ensures
        exists|t: int| 0 <= t < p.len() && #[trigger] order[t] == a,
{
    let n = p.len() as int;
    assert(order.no_duplicates()) by {
        assert forall|r: int, s: int|
            0 <= r < order.len() && 0 <= s < order.len() && r != s implies order[r]
            != order[s] by {
            if order[r] == order[s] {
                lemma_ranks_differ(p, order, r, s);
            }
        }
    }
    order.unique_seq_to_set();
    let all = vstd::set_lib::set_int_range(0, n);
    vstd::set_lib::lemma_int_range(0, n);
    assert(order.to_set().subset_of(all)) by {
        assert forall|x: int| order.to_set().contains(x) implies all.contains(x) by {
            let r = order.index_of(x);
            assert(order[r] == x);
        }
    }
    vstd::set_lib::lemma_subset_equality(order.to_set(), all);
    assert(order.to_set().contains(a));
    let t = order.index_of(a);
    assert(order[t] == a);
}

/// What setting all but the first entries to 0 leaves.
proof fn lemma_kept<S: Number>(p: Seq<S>, order: Seq<int>, keep: nat, kept: Seq<S>)
    requires
        p.len() <= usize::MAX,
        ranks(p, order),
        kept.len() == p.len(),
        forall|r: int|
            0 <= r < p.len() ==> kept[#[trigger] order[r]] == (if r < keep {
                p[order[r]]
            } else {
                S::nought()
            }),
    ensures
        generate::silenced(p, generate::descending(p), keep) == kept,
{
    let d = generate::descending(p);
    sampling::lemma_descending(p);
    assert forall|i: int| 0 <= i < p.len() implies #[trigger] generate::silenced(p, d, keep)[i]
        == kept[i] by {
        lemma_every_entry_ranks(p, order, i);
        let t = choose|t: int| 0 <= t < p.len() && #[trigger] order[t] == i;
        lemma_one_order(p, order, t);
        if t < keep {
            assert(d[t] == i);
        } else if exists|r: int| 0 <= r < keep && r < d.len() && #[trigger] d[r] == i {
            let r = choose|r: int| 0 <= r < keep && r < d.len() && #[trigger] d[r] == i;
            lemma_one_order(p, order, r);
            lemma_ranks_differ(p, order, r, t);
        }
    }
    assert(generate::silenced(p, d, keep) =~= kept);
}

/// Whether a list is another divided by its sum, or the other itself where the
/// sum is not positive.
pub open spec fn shares<S: Number>(q: Seq<S>, kept: Seq<S>) -> bool {
    &&& q.len() == kept.len()
    &&& scalar::less(S::nought(), scalar::sum_of(kept)) ==> forall|i: int|
        0 <= i < q.len() ==> #[trigger] q[i] == kept[i].over(scalar::sum_of(kept))
    &&& !scalar::less(S::nought(), scalar::sum_of(kept)) ==> q == kept
}

/// `top_k` keeps the first `k` of a ranking, all of them and no other, each in
/// proportion to its probability: what is left is divided by its sum. Where
/// entries cannot be compared, nothing comes of it.
pub proof fn law_top_k_keeps_k<S: Number>(
    probs: Seq<S>,
    cfg: SamplingConfig<S>,
    k: usize,
    order: Seq<int>,
    kept: Seq<S>,
)
    requires
        probs.len() <= usize::MAX,
        cfg.top_k == Some(k),
        cfg.top_p is None,
        ranks(generate::tempered(probs, cfg.temperature), order),
        kept.len() == probs.len(),
        forall|r: int|
            0 <= r < probs.len() ==> kept[#[trigger] order[r]] == (if r < k {
                generate::tempered(probs, cfg.temperature)[order[r]]
            } else {
                S::nought()
            }),
    ensures
        generate::reshaped(probs, cfg) matches Some(q) && shares(q, kept),
{
    let p = generate::tempered(probs, cfg.temperature);
    assert forall|i: int| 0 <= i < p.len() implies p.len() == 1 || (#[trigger] p[i]).key() is Some by {
        lemma_every_entry_ranks(p, order, i);
    }
    lemma_kept(p, order, k as nat, kept);
}

/// The first `m` entries of a ranking.
pub open spec fn first_of<S: Number>(p: Seq<S>, order: Seq<int>, m: nat) -> Seq<S> {
    Seq::new(m, |r: int| p[order[r]])
}

/// The mass of the first entries of an order is the sum of them.
proof fn lemma_mass<S: Number>(p: Seq<S>, order: Seq<int>, m: nat)
    requires
        p.len() <= usize::MAX,
        ranks(p, order),
        m <= p.len(),
    ensures
        generate::mass_of(p, generate::descending(p), m) == scalar::sum_of(
            first_of(p, order, m),
        ),
    decreases m,
{
    let first = first_of(p, order, m);
    if m == 0 {
        assert(first =~= Seq::<S>::empty());
    } else {
        let before = first_of(p, order, (m - 1) as nat);
        lemma_mass(p, order, (m - 1) as nat);
        lemma_one_order(p, order, m - 1);
        assert(first =~= before.push(p[order[m - 1]]));
        listwise::law_one_more_number(before, p[order[m - 1]]);
    }
}

/// What [`generate::reach`] counts, told by what it must be.
proof fn lemma_reach_is<S: Number>(p: Seq<S>, order: Seq<usize>, mass: S, n: nat, m: nat)
    requires
        m < n <= order.len(),
        n == order.len() || scalar::at_most(mass, generate::mass_of(p, order, n)),
        forall|k: nat| m < k < n ==> !scalar::at_most(mass, #[trigger] generate::mass_of(p, order, k)),
    ensures
        generate::reach(p, order, mass, m) == n,
    decreases n - m,
{
    reveal_with_fuel(generate::reach, 2);
    if m + 1 < n {
        lemma_reach_is(p, order, mass, n, m + 1);
    }
}

/// `top_p` keeps the first `n` of a ranking, where `n` is the least number, 1
/// at least, of them that together reach the mass, or all where they do not;
/// each in proportion to its probability.
pub proof fn law_top_p_keeps_the_first_that_reach<S: Number>(
    probs: Seq<S>,
    cfg: SamplingConfig<S>,
    mass: S,
    order: Seq<int>,
    n: nat,
    kept: Seq<S>,
)
    requires
        probs.len() <= usize::MAX,
        cfg.top_k is None,
        cfg.top_p == Some(mass),
        ranks(generate::tempered(probs, cfg.temperature), order),
        0 < n <= probs.len(),
        n == probs.len() || scalar::at_most(
            mass,
            scalar::sum_of(first_of(generate::tempered(probs, cfg.temperature), order, n)),
        ),
        forall|m: nat|
            0 < m < n ==> !scalar::at_most(
                mass,
                scalar::sum_of(
                    #[trigger] first_of(generate::tempered(probs, cfg.temperature), order, m),
                ),
            ),
        kept.len() == probs.len(),
        forall|r: int|
            0 <= r < probs.len() ==> kept[#[trigger] order[r]] == (if r < n {
                generate::tempered(probs, cfg.temperature)[order[r]]
            } else {
                S::nought()
            }),
    ensures
        generate::reshaped(probs, cfg) matches Some(q) && shares(q, kept),
{
    let p = generate::tempered(probs, cfg.temperature);
    let d = generate::descending(p);
    sampling::lemma_descending(p);
    assert forall|i: int| 0 <= i < p.len() implies p.len() == 1 || (#[trigger] p[i]).key() is Some by {
        lemma_every_entry_ranks(p, order, i);
    }
    lemma_mass(p, order, n);
    assert forall|m: nat| 0 < m < n implies !scalar::at_most(
        mass,
        #[trigger] generate::mass_of(p, d, m),
    ) by {
        lemma_mass(p, order, m);
    }
    lemma_reach_is(p, d, mass, n, 0);
    lemma_kept(p, order, n, kept);
}

/// Where several entries are to be ranked and one cannot be compared, nothing
/// comes of reshaping; where nothing is to be ranked, something always does.
pub proof fn law_what_cannot_be_ranked_is_not_reshaped<S: Number>(
    probs: Seq<S>,
    cfg: SamplingConfig<S>,
    i: int,
)
    ensures
        0 <= i < probs.len() && probs.len() > 1 && cfg.top_k is Some && generate::tempered(
            probs,
            cfg.temperature,
        )[i].key() is None ==> generate::reshaped(probs, cfg) is None,
        0 <= i < probs.len() && probs.len() > 1 && cfg.top_k is None && cfg.top_p is Some
            && generate::tempered(probs, cfg.temperature)[i].key() is None ==> generate::reshaped(
            probs,
            cfg,
        ) is None,
        cfg.top_k is None && cfg.top_p is None ==> generate::reshaped(probs, cfg) == Some(
            generate::tempered(probs, cfg.temperature),
        ),
{
    let p = generate::tempered(probs, cfg.temperature);
    assert(p.len() == probs.len());
}

/// What is left of a draw: each probability is taken off in turn. A token can be
/// picked where its probability is more than 0.
pub proof fn law_draws_are_used_up_in_turn<S: Number>(probs: Seq<S>, draw: S, n: nat)
    ensures
        generate::remainder(probs, draw, 0) == draw,
        generate::remainder(probs, draw, n + 1) == generate::remainder(probs, draw, n).minus(
            probs[n as int],
        ),
        generate::likely(probs, n as int) <==> scalar::less(S::nought(), probs[n as int]),
{
}

/// A draw picks the first token of positive probability with which nothing is
/// left of it: no such token comes before the one that is picked. Where there
/// is none, the first token of positive probability is picked, and where there
/// is none either, the first token.
pub proof fn law_picks_are_first<S: Number>(probs: Seq<S>, draw: S, j: nat)
    requires
        j < probs.len(),
        scalar::less(S::nought(), probs[j as int]),
    ensures
        scalar::at_most(generate::remainder(probs, draw, j + 1), S::nought()) ==> generate::drawn(
            probs,
            draw,
        ) <= j && scalar::at_most(
            generate::remainder(probs, draw, generate::drawn(probs, draw) + 1),
            S::nought(),
        ),
        (forall|i: nat|
            i < probs.len() && scalar::less(S::nought(), probs[i as int]) ==> !scalar::at_most(
                #[trigger] generate::remainder(probs, draw, i + 1),
                S::nought(),
            )) ==> generate::drawn(probs, draw) <= j,
        generate::drawn(probs, draw) < probs.len(),
        scalar::less(S::nought(), probs[generate::drawn(probs, draw) as int]),
{
    sampling::law_draw_picks_the_first_that_exhausts_it(probs, draw);
    assert(generate::likely(probs, j as int));
    if scalar::at_most(generate::remainder(probs, draw, j + 1), S::nought()) {
        lemma_some_exhausts(probs, draw, j);
    }
}

/// Where a token exhausts a draw, there is a first that does.
proof fn lemma_some_exhausts<S: Number>(probs: Seq<S>, draw: S, j: nat)
    requires
        j < probs.len(),
        generate::likely(probs, j as int),
        scalar::at_most(generate::remainder(probs, draw, j + 1), S::nought()),
    ensures
        exists|i: nat| i <= j && #[trigger] sampling::exhausts(probs, draw, 0, i),
    decreases j,
{
    if exists|i: nat|
        i < j && generate::likely(probs, i as int) && scalar::at_most(
            #[trigger] generate::remainder(probs, draw, i + 1),
            S::nought(),
        ) {
        let i = choose|i: nat|
            i < j && generate::likely(probs, i as int) && scalar::at_most(
                #[trigger] generate::remainder(probs, draw, i + 1),
                S::nought(),
            );
        lemma_some_exhausts(probs, draw, i);
    } else {
        assert(sampling::exhausts(probs, draw, 0, j));
    }
}

/// The state before a step depends on the tokens before it only.
proof fn lemma_state_of_prefix<S: Number>(p: Params<S>, a: Seq<usize>, b: Seq<usize>, t: nat)
    requires
        t <= a.len(),
        t <= b.len(),
        a.take(t as int) == b.take(t as int),
    ensures
        p.state_before(a, t) == p.state_before(b, t),
    decreases t,
{
    if t > 0 {
        assert(a[t - 1] == a.take(t as int)[t - 1] && b[t - 1] == b.take(t as int)[t - 1]);
        assert(a.take(t - 1) =~= a.take(t as int).take(t - 1));
        assert(b.take(t - 1) =~= b.take(t as int).take(t - 1));
        lemma_state_of_prefix(p, a, b, (t - 1) as nat);
    }
}

/// Whether a text expects what reading it from its beginning expects: it has
/// the state after all its tokens, and the distribution that the last of them
/// gives.
pub open spec fn is_read_through<S: Number>(p: Params<S>, s: Speech<S>) -> bool {
    &&& s.ids.len() > 0
    &&& s.h == p.state_before(s.ids, s.ids.len())
    &&& s.probs == p.step_at(s.ids, (s.ids.len() - 1) as nat).probs
}

/// One token more.
proof fn lemma_say<S: Number>(p: Params<S>, s: Speech<S>, id: usize)
    requires
        s.h == p.state_before(s.ids, s.ids.len()),
    ensures
        is_read_through(p, p.say(s, id)),
        p.say(s, id).ids == s.ids.push(id),
{
    let longer = s.ids.push(id);
    assert(longer.take(s.ids.len() as int) =~= s.ids.take(s.ids.len() as int));
    lemma_state_of_prefix(p, s.ids, longer, s.ids.len());
}

/// What is read.
proof fn lemma_read<S: Number>(p: Params<S>, ids: Seq<usize>, n: nat)
    requires
        n <= ids.len(),
    ensures
        p.read(ids, n).ids == ids.take(n as int),
        p.read(ids, n).h == p.state_before(p.read(ids, n).ids, n),
        n > 0 ==> is_read_through(p, p.read(ids, n)),
    decreases n,
{
    if n == 0 {
        assert(p.read(ids, 0).ids =~= ids.take(0));
    } else {
        lemma_read(p, ids, (n - 1) as nat);
        lemma_say(p, p.read(ids, (n - 1) as nat), ids[n - 1]);
        assert(ids.take(n - 1).push(ids[n - 1]) =~= ids.take(n as int));
    }
}

/// A text carries its state on for as long as it is written: what it expects
/// next, after the prompt and after every token that was sampled, is what
/// reading all of it from the beginning expects. Each token is the one that its
/// draw picks from that, reshaped.
pub proof fn law_texts_are_carried_on<S: Number>(
    p: Params<S>,
    seed: Seq<usize>,
    cfg: SamplingConfig<S>,
    draws: Seq<S>,
    n: nat,
)
    requires
        seed.len() > 0,
        n <= draws.len(),
    ensures
        p.continued(p.read(seed, seed.len()), cfg, draws, 0) is Some,
        p.continued(p.read(seed, seed.len()), cfg, draws, n) matches Some(s) ==> {
            &&& s.ids.len() == seed.len() + n
            &&& s.ids.take(seed.len() as int) == seed
            &&& s.h == p.state_before(s.ids, s.ids.len())
            &&& s.probs == p.step_at(s.ids, (s.ids.len() - 1) as nat).probs
            &&& n < draws.len() ==> match generate::reshaped(s.probs, cfg) {
                Some(q) => p.continued(p.read(seed, seed.len()), cfg, draws, n + 1) matches Some(t)
                    && t.ids == s.ids.push(generate::drawn(q, draws[n as int]) as usize),
                None => p.continued(p.read(seed, seed.len()), cfg, draws, n + 1) is None,
            }
        },
        p.continued(p.read(seed, seed.len()), cfg, draws, n) is None && n < draws.len()
            ==> p.continued(p.read(seed, seed.len()), cfg, draws, n + 1) is None,
    decreases n,
{
    let start = p.read(seed, seed.len());
    lemma_read(p, seed, seed.len());
    assert(seed.take(seed.len() as int) =~= seed);
    if n > 0 {
        law_texts_are_carried_on(p, seed, cfg, draws, (n - 1) as nat);
        if let Some(s) = p.continued(start, cfg, draws, (n - 1) as nat) {
            if let Some(q) = generate::reshaped(s.probs, cfg) {
                let id = generate::drawn(q, draws[n - 1]) as usize;
                lemma_say(p, s, id);
                assert(s.ids.push(id).take(seed.len() as int) =~= s.ids.take(seed.len() as int));
            }
        }
    }
}

/// The texts of the strings with given numbers.
pub open spec fn entries(vocab: Seq<String>, ids: Seq<usize>) -> Seq<Seq<char>> {
    Seq::new(ids.len(), |i: int| vocab[ids[i] as int]@)
}

/// A text is written from the prompt, or from a line break where there is none,
/// goes on by one token for each draw, and is the readable text of the entries
/// that its tokens stand for.
pub proof fn law_texts_are_spelled_out<S: Number>(
    p: Params<S>,
    vocab: Seq<String>,
    ids: Map<Seq<char>, usize>,
    prompt_ids: Seq<usize>,
    seed: Seq<usize>,
    draws: Seq<S>,
    cfg: SamplingConfig<S>,
)
    requires
        prompt_ids.len() > 0 ==> seed == prompt_ids,
        prompt_ids.len() == 0 && ids.contains_key(seq!['\n']) ==> seed == seq![ids[seq!['\n']]],
        prompt_ids.len() == 0 && !ids.contains_key(seq!['\n']) ==> seed == seq![0usize],
    ensures
        match p.continued(p.read(seed, seed.len()), cfg, draws, draws.len()) {
            Some(s) => p.writes(vocab, ids, prompt_ids, draws, cfg) matches Some(text) && ((
            forall|i: int| 0 <= i < s.ids.len() ==> #[trigger] s.ids[i] < vocab.len()) ==> text
                == tokenizer::text_of(entries(vocab, s.ids))),
            None => p.writes(vocab, ids, prompt_ids, draws, cfg) is None,
        },
{
    assert(generate::seed_of(ids, prompt_ids) == seed);
    if let Some(s) = p.continued(p.read(seed, seed.len()), cfg, draws, draws.len()) {
        if forall|i: int| 0 <= i < s.ids.len() ==> #[trigger] s.ids[i] < vocab.len() {
            assert(vocabulary::decoded(strings::texts(vocab), s.ids) =~= entries(vocab, s.ids));
        }
    }
}

/// What a fixed-context model writes is the readable text of the entries that
/// its tokens stand for.
pub proof fn law_window_texts_are_spelled_out<S: Number>(
    p: windowed::Params<S>,
    vocab: Seq<String>,
    ids: Map<Seq<char>, usize>,
    draws: Seq<S>,
)
    requires
        ({
            let said = p.spoken(
                windowed::first_context(ids, p.context as nat),
                draws,
                draws.len(),
            ).0;
            forall|i: int| 0 <= i < said.len() ==> #[trigger] said[i] < vocab.len()
        }),
    ensures
        p.writes(vocab, ids, draws) == tokenizer::text_of(
            entries(
                vocab,
                p.spoken(
                    windowed::first_context(ids, p.context as nat),
                    draws,
                    draws.len(),
                ).0,
            ),
        ),
{
    let said = p.spoken(windowed::first_context(ids, p.context as nat), draws, draws.len()).0;
    assert(vocabulary::decoded(strings::texts(vocab), said) =~= entries(vocab, said));
}

/// The fixed-context model goes on by one token for each draw: the one that the
/// draw picks from what is predicted of the context, which the token then moves
/// on by one. The text starts from line breaks.
pub proof fn law_windows_move_on<S: Number>(
    p: windowed::Params<S>,
    ids: Map<Seq<char>, usize>,
    ctx: Seq<usize>,
    draws: Seq<S>,
    n: nat,
)
    ensures
        p.spoken(ctx, draws, 0) == (Seq::<usize>::empty(), ctx),
        ({
            let (said, last) = p.spoken(ctx, draws, n);
            let id = generate::drawn(p.predict(last).probs, draws[n as int]) as usize;
            p.spoken(ctx, draws, n + 1) == (said.push(id), last.skip(1).push(id))
        }),
        windowed::first_context(ids, n).len() == n,
        forall|i: int|
            0 <= i < n ==> #[trigger] windowed::first_context(ids, n)[i] == (if ids.contains_key(
                seq!['\n'],
            ) {
                ids[seq!['\n']]
            } else {
                0usize
            }),
{
}

} // verus!
