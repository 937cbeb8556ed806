//! Real numbers in their order, and what holds of sampling with them.
//!
//! No machine decides which of two real numbers is the smaller, so that these
//! stand in specifications only. [`Real`] has the operations that a model is
//! run with, and therefore no order.

use crate::gates;
use crate::generate;
use crate::generate::{SamplingConfig, Speech};
use crate::model::Params;
use crate::pointwise;
use crate::reals;
use crate::reals::Real;
use crate::sampling;
use crate::scalar;
use crate::scalar::Number;
use vstd::prelude::*;

verus! {

/// A real number that has its place among the others.
pub struct Ordered {
    pub real: Real,
}

impl Ordered {
    /// The value of the number.
    pub open spec fn val(self) -> real {
        self.real.val()
    }
}

impl Number for Ordered {
    open spec fn nought() -> Self {
        Ordered { real: Real::nought() }
    }

    open spec fn unit() -> Self {
        Ordered { real: Real::unit() }
    }

    open spec fn infimum() -> Self {
        Ordered { real: Real::infimum() }
    }

    open spec fn supremum() -> Self {
        Ordered { real: Real::supremum() }
    }

    open spec fn half_turn() -> Self {
        Ordered { real: Real::half_turn() }
    }

    open spec fn numeral(digits: u64, places: u32) -> Self {
        Ordered { real: Real::numeral(digits, places) }
    }

    open spec fn natural(n: usize) -> Self {
        Ordered { real: Real::natural(n) }
    }

    open spec fn plus(self, other: Self) -> Self {
        Ordered { real: self.real.plus(other.real) }
    }

    open spec fn minus(self, other: Self) -> Self {
        Ordered { real: self.real.minus(other.real) }
    }

    open spec fn times(self, other: Self) -> Self {
        Ordered { real: self.real.times(other.real) }
    }

    open spec fn over(self, other: Self) -> Self {
        Ordered { real: self.real.over(other.real) }
    }

    open spec fn opposite(self) -> Self {
        Ordered { real: self.real.opposite() }
    }

    open spec fn exp_of(self) -> Self {
        Ordered { real: self.real.exp_of() }
    }

    open spec fn ln_of(self) -> Self {
        Ordered { real: self.real.ln_of() }
    }

    open spec fn tanh_of(self) -> Self {
        Ordered { real: self.real.tanh_of() }
    }

    open spec fn cos_of(self) -> Self {
        Ordered { real: self.real.cos_of() }
    }

    open spec fn sqrt_of(self) -> Self {
        Ordered { real: self.real.sqrt_of() }
    }

    open spec fn power_of(self, exponent: Self) -> Self {
        Ordered { real: self.real.power_of(exponent.real) }
    }

    /// The number itself says where it stands.
    open spec fn key(self) -> Option<real> {
        Some(self.val())
    }
}

/// The numbers of a list without their order.
pub open spec fn reals_of(xs: Seq<Ordered>) -> Seq<Real> {
    Seq::new(xs.len(), |i: int| xs[i].real)
}

/// A list is told by its numbers.
proof fn lemma_same_reals(a: Seq<Ordered>, b: Seq<Ordered>)
    requires
        reals_of(a) == reals_of(b),
    ensures
        a == b,
{
    assert(a.len() == reals_of(a).len() && b.len() == reals_of(b).len());
    assert forall|i: int| 0 <= i < a.len() implies #[trigger] a[i] == b[i] by {
        assert(reals_of(a)[i] == a[i].real && reals_of(b)[i] == b[i].real);
    }
    assert(a =~= b);
}

/// The order has no part in a sum.
pub proof fn lemma_sum(xs: Seq<Ordered>, n: nat)
    requires
        n <= xs.len(),
    ensures
        scalar::sum_to(xs, n).real == scalar::sum_to(reals_of(xs), n),
    decreases n,
{
    if n > 0 {
        lemma_sum(xs, (n - 1) as nat);
    }
}

/// The order has no part in scaling to one.
proof fn lemma_scaled(xs: Seq<Ordered>)
    ensures
        reals_of(generate::scaled_to_one(xs)) == generate::scaled_to_one(reals_of(xs)),
{
    lemma_sum(xs, xs.len());
    assert(reals_of(generate::scaled_to_one(xs)) =~= generate::scaled_to_one(reals_of(xs)));
}

/// The order has no part in the softmax: what the logits are shifted by before
/// they are exponents cancels out.
pub proof fn lemma_softmax(logits: Seq<Ordered>)
    requires
        logits.len() > 0,
    ensures
        reals_of(pointwise::softmax_of(logits)) == pointwise::softmax_of(reals_of(logits)),
{
    let plain = reals_of(logits);
    let m = scalar::greatest_of(logits).val();
    let w = scalar::greatest_of(plain).val();
    let e = reals_of(pointwise::shifted_exps(logits));
    let f = pointwise::shifted_exps(plain);
    let k = reals::exponential(m - w);
    reals::lemma_exponential(m - w, 0real);
    assert forall|i: int| 0 <= i < e.len() implies (#[trigger] f[i]).val() == reals::product(
        e[i].val(),
        k,
    ) && e[i].val() > 0real by {
        let x = logits[i].val();
        reals::lemma_exponential(x - m, m - w);
        assert((x - m) + (m - w) == x - w);
    }
    gates::lemma_positive_sum(e, e.len());
    sampling::lemma_scaled_multiples(e, f, k);
    let exps = pointwise::shifted_exps(logits);
    lemma_scaled(exps);
    assert(pointwise::softmax_of(logits) =~= generate::scaled_to_one(exps));
    assert(pointwise::softmax_of(plain) =~= generate::scaled_to_one(f));
}

/// Decimal fractions of 1 are positive.
proof fn lemma_fraction(places: u32)
    ensures
        Ordered::numeral(1, places).val() > 0real,
{
    lemma_power_of_ten(places as nat);
    let t = reals::ten_to(places as nat);
    reals::lemma_quotient(1real, t);
    reals::lemma_product_sign(reals::quotient(1real, t), t);
}

proof fn lemma_power_of_ten(n: nat)
    ensures
        reals::ten_to(n) > 0real,
    decreases n,
{
    if n > 0 {
        lemma_power_of_ten((n - 1) as nat);
    }
}

/// Whether a temperature counts as 1.
pub open spec fn is_plain(temperature: Ordered) -> bool {
    scalar::less(scalar::magnitude(temperature.minus(Ordered::unit())), Ordered::numeral(1, 6))
}

/// A temperature of 1 counts as 1.
proof fn lemma_plain()
    ensures
        is_plain(Ordered::unit()),
{
    lemma_fraction(6);
}

/// A temperature divides the logits: to reshape the distribution that logits
/// stand for is to reshape, at a temperature of 1, the distribution that the
/// logits divided by the temperature stand for. It is so as long as no
/// probability is below `1e-12`, to which smaller ones are lifted.
pub proof fn law_temperature_divides_the_logits(
    logits: Seq<Ordered>,
    cfg: SamplingConfig<Ordered>,
)
    requires
        reals::exponential_is_complete(),
        logits.len() > 0,
        cfg.temperature.val() != 0real,
        !is_plain(cfg.temperature),
        forall|i: int|
            0 <= i < logits.len() ==> (#[trigger] pointwise::softmax_of(logits)[i]).val()
                >= Ordered::numeral(1, 12).val(),
    ensures
        ({
            let probs = pointwise::softmax_of(logits);
            let cold = pointwise::softmax_of(sampling::cooled(logits, cfg.temperature));
            let plain = SamplingConfig { temperature: Ordered::unit(), ..cfg };
            &&& generate::reshaped(probs, cfg) == generate::reshaped(cold, plain)
            &&& cfg.top_k is None && cfg.top_p is None ==> generate::reshaped(probs, cfg) == Some(
                cold,
            )
        }),
{
    let t = cfg.temperature;
    let probs = pointwise::softmax_of(logits);
    let cold = pointwise::softmax_of(sampling::cooled(logits, t));
    let raised = generate::powers(probs, Ordered::unit().over(t));
    let plain = reals_of(logits);
    sampling::law_temperature_raises_to_a_power(probs, cfg);
    gates::lemma_exps_sum(plain);
    assert(reals::has_logarithm(scalar::sum_of(pointwise::shifted_exps(plain)).val()));
    sampling::law_temperature_divides_the_logits(plain, t.real);
    lemma_softmax(logits);
    lemma_softmax(sampling::cooled(logits, t));
    lemma_scaled(raised);
    assert(reals_of(raised) =~= generate::powers(
        pointwise::softmax_of(plain),
        Real::unit().over(t.real),
    )) by {
        assert forall|i: int| 0 <= i < raised.len() implies reals_of(raised)[i]
            == probs[i].real.power_of(Real::unit().over(t.real)) && probs[i].real
            == #[trigger] pointwise::softmax_of(plain)[i] by {
            assert(reals_of(probs)[i] == probs[i].real);
        }
    }
    assert(reals_of(sampling::cooled(logits, t)) =~= sampling::cooled(plain, t.real));
    lemma_same_reals(generate::scaled_to_one(raised), cold);
    lemma_plain();
}

/// A low temperature sharpens a distribution and a high one flattens it: of
/// two tokens the likelier one gains on the other below a temperature of 1,
/// and loses on it above.
pub proof fn law_low_temperature_sharpens(
    logits: Seq<Ordered>,
    cfg: SamplingConfig<Ordered>,
    i: int,
    j: int,
)
    requires
        reals::exponential_is_complete(),
        0 <= i < logits.len(),
        0 <= j < logits.len(),
        logits[j].val() <= logits[i].val(),
        cfg.temperature.val() > 0real,
        !is_plain(cfg.temperature),
        cfg.top_k is None,
        cfg.top_p is None,
        forall|k: int|
            0 <= k < logits.len() ==> (#[trigger] pointwise::softmax_of(logits)[k]).val()
                >= Ordered::numeral(1, 12).val(),
    ensures
        ({
            let p = pointwise::softmax_of(logits);
            &&& generate::reshaped(p, cfg) matches Some(q) && (cfg.temperature.val() <= 1real
                ==> reals::product(q[i].val(), p[j].val()) >= reals::product(
                q[j].val(),
                p[i].val(),
            )) && (cfg.temperature.val() >= 1real ==> reals::product(q[i].val(), p[j].val())
                <= reals::product(q[j].val(), p[i].val()))
        }),
{
    let t = cfg.temperature;
    let cold = sampling::cooled(logits, t);
    law_temperature_divides_the_logits(logits, cfg);
    sampling::law_low_temperature_sharpens(reals_of(logits), t.real, i, j);
    lemma_softmax(logits);
    lemma_softmax(cold);
    assert(reals_of(cold) =~= sampling::cooled(reals_of(logits), t.real));
    let p = pointwise::softmax_of(logits);
    let q = pointwise::softmax_of(cold);
    assert(reals_of(p)[i] == p[i].real && reals_of(p)[j] == p[j].real);
    assert(reals_of(q)[i] == q[i].real && reals_of(q)[j] == q[j].real);
}

/// Reshaping goes step by step.
pub proof fn law_reshaping_goes_step_by_step(probs: Seq<Ordered>, cfg: SamplingConfig<Ordered>)
    ensures
        sampling::goes_step_by_step(probs, cfg),
{
    lemma_plain();
    sampling::law_reshaping_goes_step_by_step(probs, cfg);
}

/// Whether a list is a distribution: no probability is below 0, and they sum
/// to 1.
pub open spec fn is_distribution(p: Seq<Ordered>) -> bool {
    &&& forall|i: int| 0 <= i < p.len() ==> (#[trigger] p[i]).val() >= 0real
    &&& scalar::sum_of(p).val() == 1real
}

/// A list of numbers not below 0 has a positive sum just where one of them is
/// positive.
proof fn lemma_positive_entry(p: Seq<Ordered>, n: nat)
    requires
        n <= p.len(),
        forall|i: int| 0 <= i < p.len() ==> (#[trigger] p[i]).val() >= 0real,
    ensures
        scalar::sum_to(p, n).val() >= 0real,
        scalar::sum_to(p, n).val() > 0real <==> exists|i: int|
            0 <= i < n && (#[trigger] p[i]).val() > 0real,
    decreases n,
{
    if n > 0 {
        lemma_positive_entry(p, (n - 1) as nat);
        assert(p[n - 1].val() >= 0real);
        if scalar::sum_to(p, (n - 1) as nat).val() > 0real {
            let i = choose|i: int| 0 <= i < n - 1 && (#[trigger] p[i]).val() > 0real;
            assert(0 <= i < n && p[i].val() > 0real);
        }
    }
}

/// Numbers not below 0, not all of them 0, are a distribution when scaled.
proof fn lemma_scaled_is_a_distribution(xs: Seq<Ordered>)
    requires
        forall|i: int| 0 <= i < xs.len() ==> (#[trigger] xs[i]).val() >= 0real,
        scalar::sum_of(xs).val() > 0real,
    ensures
        is_distribution(generate::scaled_to_one(xs)),
{
    let s = scalar::sum_of(xs).val();
    let ys = generate::scaled_to_one(xs);
    lemma_sum(xs, xs.len());
    lemma_scaled(xs);
    lemma_sum(ys, ys.len());
    sampling::law_scaling_sums_to_one(reals_of(xs));
    assert forall|i: int| 0 <= i < ys.len() implies (#[trigger] ys[i]).val() >= 0real by {
        let q = ys[i].val();
        assert(xs[i].val() >= 0real);
        reals::lemma_quotient(xs[i].val(), s);
        reals::lemma_product_sign(0real - q, s);
        reals::lemma_product(s, 0real, q);
        reals::lemma_product(0real - q, s, s);
        reals::lemma_product(q, s, s);
    }
}

/// A distribution restricted to at least one of its likeliest tokens is a
/// distribution.
proof fn lemma_restricted_is_a_distribution(p: Seq<Ordered>, keep: nat)
    requires
        is_distribution(p),
        p.len() <= usize::MAX,
        keep > 0,
    ensures
        is_distribution(generate::renormalized(generate::silenced(p, generate::descending(p), keep))),
{
    let order = generate::descending(p);
    let xs = generate::silenced(p, order, keep);
    sampling::lemma_descending(p);
    lemma_positive_entry(p, p.len());
    let i = choose|i: int| 0 <= i < p.len() && (#[trigger] p[i]).val() > 0real;
    assert(sampling::keeps(p, p.len(), i));
    let r = choose|r: int| 0 <= r < p.len() && r < order.len() && #[trigger] order[r] == i;
    let top = order[0] as int;
    if r > 0 {
        assert(generate::ranks_before(p, order[0] as int, order[r] as int));
    }
    assert(p[top].val() > 0real);
    assert(order[0] == top);
    assert(xs[top] == p[top]);
    assert forall|j: int| 0 <= j < xs.len() implies (#[trigger] xs[j]).val() >= 0real by {
        assert(p[j].val() >= 0real);
    }
    lemma_positive_entry(xs, xs.len());
    lemma_scaled_is_a_distribution(xs);
}

/// A distribution at a temperature is a distribution.
proof fn lemma_tempered_is_a_distribution(probs: Seq<Ordered>, temperature: Ordered)
    requires
        is_distribution(probs),
    ensures
        is_distribution(generate::tempered(probs, temperature)),
{
    if !is_plain(temperature) {
        let raised = generate::powers(
            generate::lifted(probs),
            Ordered::unit().over(temperature),
        );
        lemma_positive_entry(probs, probs.len());
        let i = choose|i: int| 0 <= i < probs.len() && (#[trigger] probs[i]).val() > 0real;
        assert forall|j: int| 0 <= j < raised.len() implies (#[trigger] raised[j]).val()
            > 0real by {
            let y = generate::lifted(probs)[j].val();
            let t = Ordered::unit().over(temperature).val();
            reals::lemma_exponential(reals::product(t, reals::logarithm(y)), 0real);
        }
        assert(raised[i].val() > 0real);
        lemma_positive_entry(raised, raised.len());
        lemma_scaled_is_a_distribution(raised);
    }
}

/// A distribution is reshaped into a distribution over the same tokens,
/// whatever the temperature, as long as at least one token is let through.
pub proof fn law_reshaping_keeps_distributions(
    probs: Seq<Ordered>,
    cfg: SamplingConfig<Ordered>,
)
    requires
        is_distribution(probs),
        probs.len() <= usize::MAX,
        cfg.top_k != Some(0usize),
    ensures
        generate::reshaped(probs, cfg) matches Some(q) && is_distribution(q) && q.len()
            == probs.len(),
{
    let p = generate::tempered(probs, cfg.temperature);
    lemma_tempered_is_a_distribution(probs, cfg.temperature);
    let q = sampling::before_top_p(probs, cfg);
    if let Some(k) = cfg.top_k {
        lemma_restricted_is_a_distribution(p, k as nat);
    }
    assert(is_distribution(q));
    if let Some(mass) = cfg.top_p {
        assert(q.len() > 0) by {
            lemma_positive_entry(q, q.len());
        }
        sampling::law_top_p_keeps_the_fewest_that_reach(q, mass);
        lemma_restricted_is_a_distribution(
            q,
            generate::reach(q, generate::descending(q), mass, 0),
        );
    }
}

/// A division by a positive number keeps the sign.
proof fn lemma_division_keeps_signs()
    ensures
        sampling::division_keeps_signs::<Ordered>(),
{
    assert forall|x: Ordered, y: Ordered|
        scalar::less(Ordered::nought(), y) && !scalar::less(Ordered::nought(), x) implies
        !scalar::less(Ordered::nought(), #[trigger] x.over(y)) by {
        reals::lemma_quotient(x.val(), y.val());
        reals::lemma_product_sign(reals::quotient(x.val(), y.val()), y.val());
    }
}

/// A speech can always be continued, and always ends in a distribution of
/// what comes next.
proof fn lemma_speech(
    p: Params<Ordered>,
    start: Speech<Ordered>,
    cfg: SamplingConfig<Ordered>,
    draws: Seq<Ordered>,
    n: nat,
)
    requires
        p.shaped(),
        p.vocab_size > 0,
        start.probs.len() == p.vocab_size,
        is_distribution(start.probs),
        cfg.top_k != Some(0usize),
        n <= draws.len(),
    ensures
        p.continued(start, cfg, draws, n) matches Some(s) && s.probs.len() == p.vocab_size
            && is_distribution(s.probs),
    decreases n,
{
    if n > 0 {
        lemma_speech(p, start, cfg, draws, (n - 1) as nat);
        let s = p.continued(start, cfg, draws, (n - 1) as nat)->0;
        law_reshaping_keeps_distributions(s.probs, cfg);
        let id = generate::drawn(generate::reshaped(s.probs, cfg)->0, draws[n - 1]) as usize;
        lemma_step(p, id as int, s.h);
    }
}

/// What a step expects next is a distribution.
proof fn lemma_step(p: Params<Ordered>, id: int, h: Seq<Ordered>)
    requires
        p.shaped(),
        p.vocab_size > 0,
    ensures
        p.step(id, h).probs.len() == p.vocab_size,
        is_distribution(p.step(id, h).probs),
{
    let out = p.step(id, h);
    let logits = p.logits(out.h);
    assert(out.probs == pointwise::softmax_of(logits));
    lemma_softmax(logits);
    lemma_sum(out.probs, out.probs.len());
    gates::law_softmax_is_a_distribution(reals_of(logits));
    assert forall|i: int| 0 <= i < out.probs.len() implies (#[trigger] out.probs[i]).val()
        >= 0real by {
        assert(reals_of(out.probs)[i] == out.probs[i].real);
    }
}

/// Sampling is restricted as asked: whatever the draws, every token that is
/// written is one of the `top_k` likeliest and one of the likeliest that reach
/// `top_p`. Only `top_k` of 0, which lets no token through, cannot be kept to.
pub proof fn law_only_allowed_tokens_are_written(
    p: Params<Ordered>,
    start: Speech<Ordered>,
    cfg: SamplingConfig<Ordered>,
    draws: Seq<Ordered>,
    n: nat,
)
    requires
        p.shaped(),
        p.vocab_size > 0,
        start.probs.len() == p.vocab_size,
        is_distribution(start.probs),
        cfg.top_k != Some(0usize),
        n < draws.len(),
    ensures
        ({
            let s = p.continued(start, cfg, draws, n);
            let longer = p.continued(start, cfg, draws, n + 1);
            &&& s is Some && longer is Some
            &&& longer->0.ids.drop_last() == s->0.ids
            &&& sampling::allowed(s->0.probs, cfg, longer->0.ids.last() as int)
        }),
{
    lemma_speech(p, start, cfg, draws, n);
    let s = p.continued(start, cfg, draws, n)->0;
    law_reshaping_keeps_distributions(s.probs, cfg);
    let q = generate::reshaped(s.probs, cfg)->0;
    lemma_positive_entry(q, q.len());
    let i = choose|i: int| 0 <= i < q.len() && (#[trigger] q[i]).val() > 0real;
    assert(generate::likely(q, i));
    lemma_division_keeps_signs();
    sampling::law_only_allowed_tokens_are_written(p, start, cfg, draws, n);
}

/// What is read of a prompt ends in a distribution of what comes next, so that
/// the law on written tokens holds of every text that starts from a prompt.
pub proof fn law_prompts_end_in_a_distribution(p: Params<Ordered>, ids: Seq<usize>)
    requires
        p.shaped(),
        p.vocab_size > 0,
        ids.len() > 0,
    ensures
        p.read(ids, ids.len()).probs.len() == p.vocab_size,
        is_distribution(p.read(ids, ids.len()).probs),
{
    let n = (ids.len() - 1) as nat;
    lemma_step(p, ids.last() as int, p.read(ids, n).h);
}

/// What is left of a draw is the draw less the probabilities passed.
proof fn lemma_remainder(probs: Seq<Ordered>, draw: Ordered, n: nat)
    requires
        n <= probs.len(),
    ensures
        generate::remainder(probs, draw, n).val() == draw.val() - scalar::sum_to(probs, n).val(),
    decreases n,
{
    if n > 0 {
        lemma_remainder(probs, draw, (n - 1) as nat);
    }
}

/// What a draw picks from the `n`th token on, where the tokens before leave
/// some of it.
proof fn lemma_drawn_from(probs: Seq<Ordered>, draw: Ordered, n: nat)
    requires
        n <= probs.len(),
        forall|i: int| 0 <= i < probs.len() ==> (#[trigger] probs[i]).val() >= 0real,
        scalar::sum_to(probs, n).val() < draw.val() <= scalar::sum_of(probs).val(),
    ensures
        ({
            let j = generate::drawn_from(probs, draw, n);
            &&& n <= j < probs.len()
            &&& scalar::sum_to(probs, j).val() < draw.val() <= scalar::sum_to(probs, j + 1).val()
        }),
    decreases probs.len() - n,
{
    assert(n < probs.len());
    assert(probs[n as int].val() >= 0real);
    lemma_remainder(probs, draw, n + 1);
    let here = generate::remainder(probs, draw, n + 1);
    if !(generate::likely(probs, n as int) && scalar::at_most(here, Ordered::nought())) {
        lemma_drawn_from(probs, draw, n + 1);
    }
}

/// Draws follow the distribution: a token is picked by just those draws that
/// lie above the probability of all tokens before it and not above that
/// probability and its own together. Of draws that are spread evenly, its
/// share is its probability.
pub proof fn law_draws_follow_the_distribution(probs: Seq<Ordered>, draw: Ordered)
    requires
        is_distribution(probs),
        0real < draw.val() <= 1real,
    ensures
        ({
            let j = generate::drawn(probs, draw);
            &&& j < probs.len()
            &&& scalar::sum_to(probs, j).val() < draw.val() <= scalar::sum_to(probs, j + 1).val()
        }),
{
    lemma_drawn_from(probs, draw, 0);
}

} // verus!
