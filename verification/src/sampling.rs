//! What sampling does to a distribution, and what a generated text has to do
//! with its prompt.

use crate::chance;
use crate::gates;
use crate::generate;
use crate::generate::{SamplingConfig, Speech};
use crate::limits;
use crate::model::Params;
use crate::pointwise;
use crate::reals;
use crate::reals::Real;
use crate::scalar;
use crate::scalar::Number;
use vstd::prelude::*;
use vstd::relations::*;

verus! {

/// Whether entry `i` is among the first `keep` of a list's descending order.
pub open spec fn keeps<S: Number>(p: Seq<S>, keep: nat, i: int) -> bool {
    exists|r: int|
        0 <= r < keep && r < generate::descending(p).len() && #[trigger] generate::descending(
            p,
        )[r] == i
}

/// The entries that are among the first `keep` of a list's descending order.
pub open spec fn kept_entries<S: Number>(p: Seq<S>, keep: nat) -> Set<int> {
    Set::new(|i: int| 0 <= i < p.len() && keeps(p, keep, i))
}

/// Every list has a descending order, which names each entry once.
pub proof fn lemma_descending<S: Number>(p: Seq<S>)
    requires
        p.len() <= usize::MAX,
    ensures
        generate::is_descending(p, generate::descending(p)),
        generate::descending(p).len() == p.len(),
        generate::descending(p).no_duplicates(),
        forall|r: int|
            0 <= r < p.len() ==> #[trigger] generate::descending(p)[r] < p.len(),
        forall|i: int| 0 <= i < p.len() ==> #[trigger] keeps(p, p.len(), i),
{
    let all = generate::positions(p.len());
    let leq = |a: usize, b: usize| a == b || generate::ranks_before(p, a as int, b as int);
    assert(total_ordering(leq));
    let sorted = all.sort_by(leq);
    all.lemma_sort_by_ensures(leq);
    assert forall|i: int, j: int| 0 <= i < j < all.len() implies all[i] != all[j] by {}
    assert(all.no_duplicates());
    crate::ranking::lemma_same_items(all, sorted);
    assert forall|i: int, j: int| 0 <= i < j < sorted.len() implies generate::ranks_before(
        p,
        #[trigger] sorted[i] as int,
        #[trigger] sorted[j] as int,
    ) by {
        assert(leq(sorted[i], sorted[j]));
        assert(sorted[i] != sorted[j]);
    }
    assert(generate::is_descending(p, sorted));
    let order = generate::descending(p);
    crate::ranking::lemma_same_items(all, order);
    assert forall|r: int| 0 <= r < p.len() implies #[trigger] order[r] < p.len() by {
        assert(all.contains(order[r]));
    }
    assert forall|i: int| 0 <= i < p.len() implies #[trigger] keeps(p, p.len(), i) by {
        assert(all[i] == i as usize);
        assert(all.contains(i as usize));
        assert(order.contains(i as usize));
        let r = order.index_of(i as usize);
        assert(order[r] == i);
    }
}

/// Restricting to the `k` likeliest tokens keeps `k` of them, or all where
/// there are fewer, and every token kept ranks before every token dropped.
pub proof fn law_top_k_keeps_the_likeliest<S: Number>(p: Seq<S>, k: nat)
    requires
        p.len() <= usize::MAX,
    ensures
        kept_entries(p, k).len() == if k < p.len() {
            k
        } else {
            p.len()
        },
        forall|i: int, j: int|
            0 <= i < p.len() && 0 <= j < p.len() && keeps(p, k, i) && !keeps(p, k, j)
                ==> #[trigger] generate::ranks_before(p, i, j),
        forall|i: int|
            0 <= i < p.len() ==> #[trigger] generate::silenced(p, generate::descending(p), k)[i]
                == if keeps(p, k, i) {
                p[i]
            } else {
                S::nought()
            },
{
    lemma_descending(p);
    let order = generate::descending(p);
    let m: nat = if k < p.len() {
        k
    } else {
        p.len()
    };
    let first = order.take(m as int).map_values(|id: usize| id as int);
    assert(first.no_duplicates());
    first.unique_seq_to_set();
    assert forall|i: int| kept_entries(p, k).contains(i) <==> #[trigger] first.to_set().contains(
        i,
    ) by {
        if kept_entries(p, k).contains(i) {
            let r = choose|r: int| 0 <= r < k && r < order.len() && #[trigger] order[r] == i;
            assert(first[r] == i);
        }
        if first.to_set().contains(i) {
            let r = first.index_of(i);
            assert(first[r] == i);
            assert(order[r] == i);
        }
    }
    assert(kept_entries(p, k) =~= first.to_set());
    assert forall|i: int, j: int|
        0 <= i < p.len() && 0 <= j < p.len() && keeps(p, k, i) && !keeps(p, k, j) implies
        #[trigger] generate::ranks_before(p, i, j) by {
        let r = choose|r: int| 0 <= r < k && r < order.len() && #[trigger] order[r] == i;
        assert(keeps(p, p.len(), j));
        let q = choose|q: int| 0 <= q < p.len() && q < order.len() && #[trigger] order[q] == j;
        assert(r < q);
        assert(generate::ranks_before(p, order[r] as int, order[q] as int));
    }
}

/// What [`generate::reach`] counts reaches the mass, or is everything, and
/// nothing smaller that is more than `n` reaches it.
proof fn lemma_reach<S: Number>(p: Seq<S>, order: Seq<usize>, mass: S, n: nat)
    requires
        n < order.len(),
    ensures
        n < generate::reach(p, order, mass, n) <= order.len(),
        generate::reach(p, order, mass, n) < order.len() ==> scalar::at_most(
            mass,
            generate::mass_of(p, order, generate::reach(p, order, mass, n)),
        ),
        forall|m: nat|
            n < m < generate::reach(p, order, mass, n) ==> !scalar::at_most(
                mass,
                #[trigger] generate::mass_of(p, order, m),
            ),
    decreases order.len() - n,
{
    reveal_with_fuel(generate::reach, 2);
    if !scalar::at_most(mass, generate::mass_of(p, order, n + 1)) && n + 1 < order.len() {
        lemma_reach(p, order, mass, n + 1);
    }
}

/// Restricting to the likeliest tokens that reach a mass keeps the smallest
/// such set: at least one token, enough of them to reach the mass unless all
/// are kept, and no fewer of the likeliest would reach it. Every token kept
/// ranks before every token dropped.
pub proof fn law_top_p_keeps_the_fewest_that_reach<S: Number>(p: Seq<S>, mass: S)
    requires
        0 < p.len() <= usize::MAX,
    ensures
        ({
            let order = generate::descending(p);
            let n = generate::reach(p, order, mass, 0);
            &&& 0 < n <= p.len()
            &&& n < p.len() ==> scalar::at_most(mass, generate::mass_of(p, order, n))
            &&& forall|m: nat|
                0 < m < n ==> !scalar::at_most(mass, #[trigger] generate::mass_of(p, order, m))
            &&& kept_entries(p, n).len() == n
            &&& forall|i: int, j: int|
                0 <= i < p.len() && 0 <= j < p.len() && keeps(p, n, i) && !keeps(p, n, j)
                    ==> #[trigger] generate::ranks_before(p, i, j)
        }),
{
    lemma_descending(p);
    let order = generate::descending(p);
    lemma_reach(p, order, mass, 0);
    law_top_k_keeps_the_likeliest(p, generate::reach(p, order, mass, 0));
}

/// At a temperature of 1, and with no token ruled out, a distribution is
/// sampled as it is.
pub proof fn law_plain_sampling_changes_nothing<S: Number>(probs: Seq<S>, cfg: SamplingConfig<S>)
    requires
        scalar::less(
            scalar::magnitude(cfg.temperature.minus(S::unit())),
            S::numeral(1, 6),
        ),
        cfg.top_k is None,
        cfg.top_p is None,
    ensures
        generate::reshaped(probs, cfg) == Some(probs),
{
}

/// At any other temperature each probability is raised to the power of one
/// over it and they are scaled to one, as long as none is below `1e-12`: so it
/// is of [`generate::tempered`], and of a reshaping that rules no token out.
pub proof fn law_temperature_raises_to_a_power<S: Number>(probs: Seq<S>, cfg: SamplingConfig<S>)
    requires
        !scalar::less(
            scalar::magnitude(cfg.temperature.minus(S::unit())),
            S::numeral(1, 6),
        ),
        forall|i: int|
            0 <= i < probs.len() ==> scalar::at_most(S::numeral(1, 12), #[trigger] probs[i]),
    ensures
        ({
            let raised = generate::powers(probs, S::unit().over(cfg.temperature));
            &&& generate::tempered(probs, cfg.temperature) == generate::scaled_to_one(raised)
            &&& cfg.top_k is None && cfg.top_p is None ==> generate::reshaped(probs, cfg) == Some(
                generate::scaled_to_one(raised),
            )
        }),
{
    assert(generate::lifted(probs) =~= probs);
}

/// A list scaled to one sums to 1.
pub proof fn law_scaling_sums_to_one(xs: Seq<Real>)
    requires
        scalar::sum_of(xs).val() > 0real,
    ensures
        scalar::sum_of(generate::scaled_to_one(xs)).val() == 1real,
{
    let s = scalar::sum_of(xs).val();
    let ys = generate::scaled_to_one(xs);
    gates::lemma_sum_of_quotients(xs, ys, s, xs.len());
    let total = scalar::sum_of(ys).val();
    reals::lemma_quotient_is(s, s, total);
    reals::lemma_product(s, 1real, 1real);
    reals::lemma_product(1real, s, s);
    reals::lemma_quotient_is(s, s, 1real);
}

/// The sum of a list whose entries are those of another times a factor.
proof fn lemma_sum_of_multiples(xs: Seq<Real>, ys: Seq<Real>, k: real, n: nat)
    requires
        n <= xs.len(),
        xs.len() == ys.len(),
        forall|i: int|
            0 <= i < xs.len() ==> (#[trigger] ys[i]).val() == reals::product(xs[i].val(), k),
    ensures
        scalar::sum_to(ys, n).val() == reals::product(scalar::sum_to(xs, n).val(), k),
    decreases n,
{
    let a = scalar::sum_to(xs, (n - 1) as nat).val();
    if n == 0 {
        reals::lemma_product(k, 0real, 0real);
        reals::lemma_product(0real, k, k);
    } else {
        let x = xs[n - 1].val();
        lemma_sum_of_multiples(xs, ys, k, (n - 1) as nat);
        assert(ys[n - 1].val() == reals::product(x, k));
        reals::lemma_product(k, a, x);
        reals::lemma_product(a, k, k);
        reals::lemma_product(x, k, k);
        reals::lemma_product(a + x, k, k);
    }
}

/// Scaling to one takes away a common factor.
pub proof fn lemma_scaled_multiples(xs: Seq<Real>, ys: Seq<Real>, k: real)
    requires
        xs.len() == ys.len(),
        k > 0real,
        scalar::sum_of(xs).val() > 0real,
        forall|i: int|
            0 <= i < xs.len() ==> (#[trigger] ys[i]).val() == reals::product(xs[i].val(), k),
    ensures
        generate::scaled_to_one(xs) == generate::scaled_to_one(ys),
{
    let s = scalar::sum_of(xs).val();
    lemma_sum_of_multiples(xs, ys, k, xs.len());
    let t = scalar::sum_of(ys).val();
    assert(t == reals::product(s, k));
    reals::lemma_product_sign(s, k);
    assert forall|i: int| 0 <= i < xs.len() implies generate::scaled_to_one(xs)[i]
        == #[trigger] generate::scaled_to_one(ys)[i] by {
        let x = xs[i].val();
        let q = reals::quotient(x, s);
        assert(ys[i].val() == reals::product(x, k));
        reals::lemma_quotient(x, s);
        // q * (s * k) = x * k
        reals::lemma_product(q, s, k);
        reals::lemma_quotient_is(ys[i].val(), t, q);
        reals::lemma_same_value(generate::scaled_to_one(xs)[i], generate::scaled_to_one(ys)[i]);
    }
    assert(generate::scaled_to_one(xs) =~= generate::scaled_to_one(ys));
}

/// The logits of a list of logits at a temperature.
pub open spec fn cooled<S: Number>(logits: Seq<S>, temperature: S) -> Seq<S> {
    Seq::new(logits.len(), |i: int| logits[i].over(temperature))
}

/// A power is the exponential of a multiple of any logarithm of its base.
proof fn lemma_power(y: real, t: real, x: real)
    requires
        reals::exponential(y) == x,
    ensures
        reals::exponential(reals::product(t, reals::logarithm(x))) == reals::exponential(
            reals::product(t, y),
        ),
{
    let z = reals::logarithm(x);
    assert(reals::exponential(z) == x);
    reals::lemma_same_exponential(y, z);
}

/// Raising the probabilities to the power of one over the temperature and
/// scaling them to one gives the distribution that the logits stand for when
/// they are divided by the temperature.
pub proof fn law_temperature_divides_the_logits(logits: Seq<Real>, temperature: Real)
    requires
        logits.len() > 0,
        temperature.val() != 0real,
        reals::has_logarithm(scalar::sum_of(pointwise::shifted_exps(logits)).val()),
    ensures
        generate::scaled_to_one(
            generate::powers(
                pointwise::softmax_of(logits),
                Real::unit().over(temperature),
            ),
        ) == pointwise::softmax_of(cooled(logits, temperature)),
{
    let exps = pointwise::shifted_exps(logits);
    let s = scalar::sum_of(exps).val();
    let m = scalar::greatest_of(logits).val();
    let big = choose|y: real| #[trigger] reals::exponential(y) == s;
    let probs = pointwise::softmax_of(logits);
    let t = reals::quotient(1real, temperature.val());
    let raised = generate::powers(probs, Real::unit().over(temperature));
    let cold = cooled(logits, temperature);
    let exps2 = pointwise::shifted_exps(cold);
    let m2 = scalar::greatest_of(cold).val();
    let shift = reals::product(t, m + big) - m2;
    let k = reals::exponential(shift);
    reals::lemma_exponential(shift, 0real);
    reals::lemma_exponential(big, 0real);
    assert forall|i: int| 0 <= i < exps2.len() implies (#[trigger] exps2[i]).val()
        == reals::product(raised[i].val(), k) by {
        let l = logits[i].val();
        let y = l - m - big;
        // the probability is the exponential of y
        reals::lemma_exponential(y, big);
        assert(y + big == l - m);
        reals::lemma_quotient_is(exps[i].val(), s, reals::exponential(y));
        assert(probs[i].val() == reals::exponential(y));
        lemma_power(y, t, probs[i].val());
        assert(raised[i].val() == reals::exponential(reals::product(t, y)));
        // t * y + shift is the cooled logit less its greatest
        assert(reals::product(t, y) == reals::product(t, l) - reals::product(t, m + big)) by {
            assert(y == l - (m + big));
            reals::lemma_product(t, l, m + big);
        }
        assert(cold[i].val() == reals::product(t, l)) by {
            let q = reals::product(t, l);
            reals::lemma_quotient(1real, temperature.val());
            // (t * l) * T = l
            reals::lemma_product(t, l, temperature.val());
            reals::lemma_product(l, t, temperature.val());
            reals::lemma_product(l, 1real, 1real);
            reals::lemma_quotient_is(l, temperature.val(), q);
        }
        reals::lemma_exponential(reals::product(t, y), shift);
        assert(reals::product(t, y) + shift == cold[i].val() - m2);
    }
    assert forall|i: int| 0 <= i < raised.len() implies (#[trigger] raised[i]).val() > 0real by {
        reals::lemma_exponential(reals::product(t, reals::logarithm(probs[i].val())), 0real);
    }
    gates::lemma_positive_sum(raised, raised.len());
    lemma_scaled_multiples(raised, exps2, k);
    assert(pointwise::softmax_of(cold) =~= generate::scaled_to_one(exps2));
}

/// The product of two quotients with positive divisors, whose dividends are
/// exponentials.
proof fn lemma_product_of_shares(x: real, y: real, s: real, t: real)
    requires
        s > 0real,
        t > 0real,
    ensures
        reals::product(
            reals::quotient(reals::exponential(x), s),
            reals::quotient(reals::exponential(y), t),
        ) == reals::product(
            reals::exponential(x + y),
            reals::product(reals::quotient(1real, s), reals::quotient(1real, t)),
        ),
{
    let e = reals::exponential(x);
    let f = reals::exponential(y);
    let a = reals::quotient(1real, s);
    let b = reals::quotient(1real, t);
    reals::lemma_exponential(x, y);
    limits::lemma_quotient_as_product(e, s);
    limits::lemma_quotient_as_product(f, t);
    // (e * a) * (f * b) = (e * f) * (a * b)
    reals::lemma_product(e, a, reals::product(f, b));
    reals::lemma_product(a, f, b);
    reals::lemma_product(f, a, b);
    reals::lemma_product(e, f, reals::product(a, b));
}

/// A low temperature sharpens a distribution and a high one flattens it: of
/// two tokens the likelier one gains on the other below a temperature of 1,
/// and loses on it above.
pub proof fn law_low_temperature_sharpens(logits: Seq<Real>, temperature: Real, i: int, j: int)
    requires
        0 <= i < logits.len(),
        0 <= j < logits.len(),
        logits[j].val() <= logits[i].val(),
        temperature.val() > 0real,
    ensures
        ({
            let p = pointwise::softmax_of(logits);
            let q = pointwise::softmax_of(cooled(logits, temperature));
            &&& temperature.val() <= 1real ==> reals::product(q[i].val(), p[j].val())
                >= reals::product(q[j].val(), p[i].val())
            &&& temperature.val() >= 1real ==> reals::product(q[i].val(), p[j].val())
                <= reals::product(q[j].val(), p[i].val())
        }),
{
    let cold = cooled(logits, temperature);
    let m = scalar::greatest_of(logits).val();
    let m2 = scalar::greatest_of(cold).val();
    let s = scalar::sum_of(pointwise::shifted_exps(logits)).val();
    let s2 = scalar::sum_of(pointwise::shifted_exps(cold)).val();
    gates::lemma_exps_sum(logits);
    gates::lemma_exps_sum(cold);
    let x = cold[i].val() - m2;
    let y = logits[j].val() - m;
    let z = cold[j].val() - m2;
    let w = logits[i].val() - m;
    lemma_product_of_shares(x, y, s2, s);
    lemma_product_of_shares(z, w, s2, s);
    let share = reals::product(reals::quotient(1real, s2), reals::quotient(1real, s));
    assert(share >= 0real) by {
        reals::lemma_quotient(1real, s);
        reals::lemma_product_sign(reals::quotient(1real, s), s);
        reals::lemma_quotient(1real, s2);
        reals::lemma_product_sign(reals::quotient(1real, s2), s2);
        reals::lemma_product_nonnegative(
            reals::quotient(1real, s2),
            reals::quotient(1real, s),
        );
    }
    // The cooled logits are t times the logits, for t = 1 / temperature.
    let t = reals::quotient(1real, temperature.val());
    let a = logits[i].val();
    let b = logits[j].val();
    limits::lemma_quotient_as_product(a, temperature.val());
    limits::lemma_quotient_as_product(b, temperature.val());
    reals::lemma_product(t, a, b);
    reals::lemma_product(a, t, t);
    reals::lemma_product(b, t, t);
    assert(cold[i].val() - cold[j].val() == reals::product(t, a - b));
    reals::lemma_product(a - b, t, 1real);
    reals::lemma_product(t, a - b, a - b);
    reals::lemma_quotient(1real, temperature.val());
    reals::lemma_product(t, temperature.val(), 1real);
    let u = reals::exponential(x + y);
    let v = reals::exponential(z + w);
    reals::lemma_product(u, share, share);
    reals::lemma_product(v, share, share);
    reals::lemma_product_sign(t, temperature.val());
    if temperature.val() <= 1real {
        if t < 1real {
            reals::lemma_product_order(t, temperature.val(), 1real);
        }
        reals::lemma_product_order(a - b, 1real, t);
        reals::lemma_exponential_order(z + w, x + y);
        reals::lemma_product_order(share, v, u);
    }
    if temperature.val() >= 1real {
        if t > 1real {
            reals::lemma_product_order(t, 1real, temperature.val());
        }
        reals::lemma_product_order(a - b, t, 1real);
        reals::lemma_exponential_order(x + y, z + w);
        reals::lemma_product_order(share, u, v);
    }
}

/// What is left of a draw is the draw less the probabilities passed.
pub proof fn law_remainder_is_the_draw_less_the_mass(probs: Seq<Real>, draw: Real, n: nat)
    requires
        n <= probs.len(),
    ensures
        generate::remainder(probs, draw, n).val() == draw.val() - scalar::sum_to(probs, n).val(),
    decreases n,
{
    if n > 0 {
        law_remainder_is_the_draw_less_the_mass(probs, draw, (n - 1) as nat);
    }
}

/// Whether token `j` is the first of positive probability, from the `n`th on,
/// with which nothing is left of a draw.
pub open spec fn exhausts<S: Number>(probs: Seq<S>, draw: S, n: nat, j: nat) -> bool {
    &&& n <= j < probs.len()
    &&& generate::likely(probs, j as int)
    &&& scalar::at_most(generate::remainder(probs, draw, j + 1), S::nought())
    &&& forall|i: nat|
        n <= i < j && generate::likely(probs, i as int) ==> !scalar::at_most(
            #[trigger] generate::remainder(probs, draw, i + 1),
            S::nought(),
        )
}

/// The first token of positive probability, from the `n`th on.
proof fn lemma_first_likely<S: Number>(probs: Seq<S>, n: nat)
    requires
        n <= probs.len(),
    ensures
        ({
            let f = generate::first_likely(probs, n);
            ||| {
                &&& n <= f < probs.len()
                &&& generate::likely(probs, f as int)
                &&& forall|i: int| n <= i < f ==> !#[trigger] generate::likely(probs, i)
            }
            ||| {
                &&& f == 0
                &&& forall|i: int| n <= i < probs.len() ==> !#[trigger] generate::likely(probs, i)
            }
        }),
    decreases probs.len() - n,
{
    if n < probs.len() && !generate::likely(probs, n as int) {
        lemma_first_likely(probs, n + 1);
    }
}

/// What a draw picks from the `n`th token on.
proof fn lemma_drawn_from<S: Number>(probs: Seq<S>, draw: S, n: nat)
    requires
        n <= probs.len(),
    ensures
        ({
            let j = generate::drawn_from(probs, draw, n);
            ||| exhausts(probs, draw, n, j)
            ||| {
                &&& j == generate::first_likely(probs, 0)
                &&& forall|i: nat| !#[trigger] exhausts(probs, draw, n, i)
            }
        }),
    decreases probs.len() - n,
{
    if n < probs.len() {
        let here = generate::remainder(probs, draw, n + 1);
        if !(generate::likely(probs, n as int) && scalar::at_most(here, S::nought())) {
            lemma_drawn_from(probs, draw, n + 1);
            let j = generate::drawn_from(probs, draw, n + 1);
            if exhausts(probs, draw, n + 1, j) {
                assert(exhausts(probs, draw, n, j));
            } else {
                assert forall|i: nat| !#[trigger] exhausts(probs, draw, n, i) by {
                    if exhausts(probs, draw, n, i) {
                        assert(exhausts(probs, draw, n + 1, i));
                    }
                }
            }
        }
    }
}

/// A draw picks the first token of positive probability with which nothing is
/// left of it. Where something is left of it after all tokens, as rounding can
/// have it, it picks the first token of positive probability, and where no
/// probability is positive, the first of all.
pub proof fn law_draw_picks_the_first_that_exhausts_it<S: Number>(probs: Seq<S>, draw: S)
    ensures
        ({
            let j = generate::drawn(probs, draw);
            ||| exhausts(probs, draw, 0, j)
            ||| {
                &&& forall|i: nat| !#[trigger] exhausts(probs, draw, 0, i)
                &&& j < probs.len()
                &&& generate::likely(probs, j as int)
                &&& forall|i: int| 0 <= i < j ==> !#[trigger] generate::likely(probs, i)
            }
            ||| {
                &&& j == 0
                &&& forall|i: int| 0 <= i < probs.len() ==> !#[trigger] generate::likely(probs, i)
            }
        }),
        generate::drawn(probs, draw) < probs.len() || probs.len() == 0,
{
    lemma_drawn_from(probs, draw, 0);
    lemma_first_likely(probs, 0);
}

/// Whether dividing by a positive number makes no number positive that was
/// not, as is so of rounded division too.
pub open spec fn division_keeps_signs<S: Number>() -> bool {
    forall|x: S, y: S|
        scalar::less(S::nought(), y) && !scalar::less(S::nought(), x) ==> !scalar::less(
            S::nought(),
            #[trigger] x.over(y),
        )
}

/// Renormalizing makes no probability positive that was not.
proof fn lemma_renormalized_sign<S: Number>(xs: Seq<S>, i: int)
    requires
        division_keeps_signs::<S>(),
        0 <= i < xs.len(),
        generate::likely(generate::renormalized(xs), i),
    ensures
        generate::likely(xs, i),
{
    if scalar::less(S::nought(), scalar::sum_of(xs)) {
        assert(generate::renormalized(xs)[i] == xs[i].over(scalar::sum_of(xs)));
    }
}

/// The distribution that `top_p` restricts: the one at the temperature,
/// restricted to the `top_k` likeliest tokens.
pub open spec fn before_top_p<S: Number>(probs: Seq<S>, cfg: SamplingConfig<S>) -> Seq<S> {
    let p = generate::tempered(probs, cfg.temperature);
    match cfg.top_k {
        Some(k) => generate::top_k_of(p, k as nat),
        None => p,
    }
}

/// Whether a token is among those that sampling is restricted to: one of the
/// `top_k` likeliest, and one of the likeliest that reach `top_p`.
pub open spec fn allowed<S: Number>(probs: Seq<S>, cfg: SamplingConfig<S>, i: int) -> bool {
    let q = before_top_p(probs, cfg);
    &&& cfg.top_k matches Some(k) ==> keeps(
        generate::tempered(probs, cfg.temperature),
        k as nat,
        i,
    )
    &&& cfg.top_p matches Some(mass) ==> keeps(
        q,
        generate::reach(q, generate::descending(q), mass, 0),
        i,
    )
}

/// Only tokens that sampling is restricted to keep a positive probability.
pub proof fn law_reshaping_rules_out_all_but_the_allowed<S: Number>(
    probs: Seq<S>,
    cfg: SamplingConfig<S>,
    i: int,
)
    requires
        division_keeps_signs::<S>(),
        0 <= i < probs.len(),
        generate::reshaped(probs, cfg) matches Some(q) && generate::likely(q, i),
    ensures
        allowed(probs, cfg, i),
{
    let p = generate::tempered(probs, cfg.temperature);
    let q = before_top_p(probs, cfg);
    let kept = generate::silenced(
        q,
        generate::descending(q),
        generate::reach(q, generate::descending(q), cfg.top_p->0, 0),
    );
    if cfg.top_p is Some {
        lemma_renormalized_sign(kept, i);
    }
    assert(generate::likely(q, i));
    if cfg.top_k is Some {
        lemma_renormalized_sign(
            generate::silenced(p, generate::descending(p), cfg.top_k->0 as nat),
            i,
        );
    }
}

/// Sampling is restricted as asked: every token that is written is one of the
/// `top_k` likeliest and one of the likeliest that reach `top_p`, as long as
/// any probability is positive after reshaping.
pub proof fn law_only_allowed_tokens_are_written<S: Number>(
    p: Params<S>,
    start: Speech<S>,
    cfg: SamplingConfig<S>,
    draws: Seq<S>,
    n: nat,
)
    requires
        division_keeps_signs::<S>(),
        n < draws.len(),
        p.continued(start, cfg, draws, n) matches Some(s) && generate::reshaped(
            s.probs,
            cfg,
        ) matches Some(q) && exists|i: int| 0 <= i < q.len() && #[trigger] generate::likely(q, i),
        p.vocab_size > 0,
        p.shaped(),
        start.probs.len() == p.vocab_size,
    ensures
        ({
            let s = p.continued(start, cfg, draws, n)->0;
            let longer = p.continued(start, cfg, draws, n + 1);
            &&& longer is Some
            &&& longer->0.ids.drop_last() == s.ids
            &&& allowed(s.probs, cfg, longer->0.ids.last() as int)
        }),
{
    let s = p.continued(start, cfg, draws, n)->0;
    let q = generate::reshaped(s.probs, cfg)->0;
    lemma_continued(p, start, cfg, draws, n);
    generate::lemma_reshaped_size(s.probs, cfg);
    law_draw_picks_the_first_that_exhausts_it(q, draws[n as int]);
    let id = generate::drawn(q, draws[n as int]);
    assert(generate::likely(q, id as int));
    law_reshaping_rules_out_all_but_the_allowed(s.probs, cfg, id as int);
    assert(s.ids.push(id as usize).drop_last() =~= s.ids);
}

/// Whether a distribution is reshaped in three steps, one after the other: the
/// temperature, then the `top_k` likeliest, then the likeliest that reach
/// `top_p` of what is left. Each is a reshaping of its own, the last two at a
/// temperature of 1; none changes the number of tokens.
pub open spec fn goes_step_by_step<S: Number>(probs: Seq<S>, cfg: SamplingConfig<S>) -> bool {
    let warm = SamplingConfig { top_k: None, top_p: None, ..cfg };
    let few = SamplingConfig { temperature: S::unit(), top_p: None, ..cfg };
    let nucleus = SamplingConfig { temperature: S::unit(), top_k: None, ..cfg };
    &&& generate::reshaped(probs, warm) matches Some(a) && generate::reshaped(probs, cfg) == (
    match generate::reshaped(a, few) {
        Some(b) => generate::reshaped(b, nucleus),
        None => None,
    })
    &&& generate::reshaped(probs, cfg) matches Some(q) ==> q.len() == probs.len()
}

/// Reshaping goes step by step where a number less itself is as good as 0.
pub proof fn law_reshaping_goes_step_by_step<S: Number>(probs: Seq<S>, cfg: SamplingConfig<S>)
    requires
        scalar::less(scalar::magnitude(S::unit().minus(S::unit())), S::numeral(1, 6)),
    ensures
        goes_step_by_step(probs, cfg),
{
}

/// What was read is said as it was read.
proof fn lemma_read<S: Number>(p: Params<S>, ids: Seq<usize>, n: nat)
    requires
        n <= ids.len(),
        p.shaped(),
    ensures
        p.read(ids, n).ids == ids.take(n as int),
        p.read(ids, n).probs.len() == p.vocab_size,
    decreases n,
{
    if n == 0 {
        assert(p.read(ids, 0).ids =~= ids.take(0));
    } else {
        lemma_read(p, ids, (n - 1) as nat);
        assert(p.read(ids, n).ids =~= ids.take(n as int));
    }
}

/// A prompt is read as training reads a chunk: token by token from an empty
/// memory, and what the model expects next is what the last step says.
pub proof fn law_prompt_is_read_step_by_step<S: Number>(p: Params<S>, ids: Seq<usize>, n: nat)
    requires
        n <= ids.len(),
    ensures
        p.read(ids, n).h == p.state_before(ids, n),
        n > 0 ==> p.read(ids, n).probs == p.step_at(ids, (n - 1) as nat).probs,
    decreases n,
{
    if n > 0 {
        law_prompt_is_read_step_by_step(p, ids, (n - 1) as nat);
    }
}

/// A speech goes on from where it starts.
pub proof fn lemma_continued<S: Number>(
    p: Params<S>,
    start: Speech<S>,
    cfg: SamplingConfig<S>,
    draws: Seq<S>,
    n: nat,
)
    requires
        n <= draws.len(),
        p.shaped(),
        p.vocab_size > 0,
        start.probs.len() == p.vocab_size,
    ensures
        p.continued(start, cfg, draws, n) matches Some(s) ==> {
            &&& s.probs.len() == p.vocab_size
            &&& s.ids.len() == start.ids.len() + n
            &&& s.ids.take(start.ids.len() as int) == start.ids
            &&& forall|i: int|
                start.ids.len() <= i < s.ids.len() ==> #[trigger] s.ids[i] < p.vocab_size
        },
    decreases n,
{
    if n == 0 {
        assert(start.ids.take(start.ids.len() as int) =~= start.ids);
    } else {
        lemma_continued(p, start, cfg, draws, (n - 1) as nat);
        if let Some(s) = p.continued(start, cfg, draws, (n - 1) as nat) {
            generate::lemma_reshaped_size(s.probs, cfg);
            if let Some(probs) = generate::reshaped(s.probs, cfg) {
                law_draw_picks_the_first_that_exhausts_it(probs, draws[n - 1]);
                let id = generate::drawn(probs, draws[n - 1]) as usize;
                assert(s.ids.push(id).take(start.ids.len() as int) =~= s.ids.take(
                    start.ids.len() as int,
                ));
            }
        }
    }
}

/// A text starts with its prompt, has one token more for each draw, and every
/// token that the model says is one it knows.
pub proof fn law_text_continues_its_prompt<S: Number>(
    p: Params<S>,
    seed: Seq<usize>,
    cfg: SamplingConfig<S>,
    draws: Seq<S>,
)
    requires
        p.shaped(),
        p.vocab_size > 0,
    ensures
        p.speech(seed, cfg, draws) matches Some(s) ==> {
            &&& s.ids.len() == seed.len() + draws.len()
            &&& s.ids.take(seed.len() as int) == seed
            &&& forall|i: int|
                seed.len() <= i < s.ids.len() ==> #[trigger] s.ids[i] < p.vocab_size
        },
{
    lemma_read(p, seed, seed.len());
    assert(seed.take(seed.len() as int) =~= seed);
    lemma_continued(p, p.read(seed, seed.len()), cfg, draws, draws.len());
}

/// The first draws alone decide how a text goes on for as long as they last.
proof fn lemma_first_draws_decide<S: Number>(
    p: Params<S>,
    start: Speech<S>,
    cfg: SamplingConfig<S>,
    draws: Seq<S>,
    more: Seq<S>,
    n: nat,
)
    requires
        n <= draws.len() <= more.len(),
        more.take(draws.len() as int) == draws,
    ensures
        p.continued(start, cfg, draws, n) == p.continued(start, cfg, more, n),
    decreases n,
{
    if n > 0 {
        lemma_first_draws_decide(p, start, cfg, draws, more, (n - 1) as nat);
        assert(more.take(draws.len() as int)[n - 1] == more[n - 1]);
    }
}

/// A text that went on is the beginning of the text that goes on longer.
proof fn lemma_longer<S: Number>(
    p: Params<S>,
    start: Speech<S>,
    cfg: SamplingConfig<S>,
    draws: Seq<S>,
    n: nat,
    m: nat,
)
    requires
        n <= m <= draws.len(),
    ensures
        p.continued(start, cfg, draws, m) matches Some(long) ==> {
            &&& p.continued(start, cfg, draws, n) matches Some(short)
            &&& short.ids.len() <= long.ids.len()
            &&& long.ids.take(short.ids.len() as int) == short.ids
        },
    decreases m,
{
    if n < m {
        lemma_longer(p, start, cfg, draws, n, (m - 1) as nat);
        if let Some(long) = p.continued(start, cfg, draws, m) {
            let before = p.continued(start, cfg, draws, (m - 1) as nat)->0;
            let short = p.continued(start, cfg, draws, n)->0;
            assert(long.ids.take(short.ids.len() as int) =~= before.ids.take(
                short.ids.len() as int,
            ));
        }
    } else if let Some(long) = p.continued(start, cfg, draws, m) {
        assert(long.ids.take(long.ids.len() as int) =~= long.ids);
    }
}

/// More draws make a text longer and change nothing of what was said: the
/// longer text begins with the shorter one.
pub proof fn law_longer_text_begins_with_the_shorter<S: Number>(
    p: Params<S>,
    seed: Seq<usize>,
    cfg: SamplingConfig<S>,
    draws: Seq<S>,
    more: Seq<S>,
)
    requires
        draws.len() <= more.len(),
        more.take(draws.len() as int) == draws,
    ensures
        p.speech(seed, cfg, more) matches Some(long) ==> {
            &&& p.speech(seed, cfg, draws) matches Some(short)
            &&& short.ids.len() <= long.ids.len()
            &&& long.ids.take(short.ids.len() as int) == short.ids
        },
{
    let start = p.read(seed, seed.len());
    lemma_first_draws_decide(p, start, cfg, draws, more, draws.len());
    lemma_longer(p, start, cfg, more, draws.len(), more.len());
}

/// With one seed, a longer run begins with the text of a shorter one.
pub proof fn law_longer_run_of_a_seed_begins_with_the_shorter<S: Number>(
    p: Params<S>,
    prompt: Seq<usize>,
    cfg: SamplingConfig<S>,
    seed: u64,
    n: nat,
    m: nat,
)
    requires
        n <= m,
    ensures
        p.speech(prompt, cfg, chance::draws_of::<S>(chance::seeded(seed, m))) matches Some(long)
            ==> {
            &&& p.speech(
                prompt,
                cfg,
                chance::draws_of::<S>(chance::seeded(seed, n)),
            ) matches Some(short)
            &&& short.ids.len() <= long.ids.len()
            &&& long.ids.take(short.ids.len() as int) == short.ids
        },
{
    chance::law_draws_of_a_seed_go_on::<S>(seed, n, m);
    law_longer_text_begins_with_the_shorter(
        p,
        prompt,
        cfg,
        chance::draws_of::<S>(chance::seeded(seed, n)),
        chance::draws_of::<S>(chance::seeded(seed, m)),
    );
}

} // verus!
