//! What the parts of the models do on the real numbers: gates lie between
//! closed and open, the candidate and the hidden state stay within bounds,
//! and the softmax is a distribution.

use crate::model;
use crate::model::Params;
use crate::pointwise;
use crate::reals;
use crate::reals::Real;
use crate::scalar;
use crate::scalar::Number;
use vstd::prelude::*;

verus! {

/// A quotient of positive numbers is positive, and below 1 where the divisor
/// is the greater.
proof fn lemma_fraction(a: real, b: real)
    requires
        a > 0real,
        b > a,
    ensures
        0real < reals::quotient(a, b) < 1real,
{
    let q = reals::quotient(a, b);
    reals::lemma_quotient(a, b);
    reals::lemma_product_sign(q, b);
    if q >= 1real {
        reals::lemma_product_order(b, 1real, q);
        reals::lemma_product(b, 1real, 1real);
        reals::lemma_product(b, q, q);
    }
}

/// The logistic function lies between 0 and 1.
pub proof fn law_sigmoid_is_a_fraction(v: Real)
    ensures
        0real < pointwise::sigmoid_of(v).val() < 1real,
{
    reals::lemma_exponential(-v.val(), 0real);
    lemma_fraction(1real, 1real + reals::exponential(-v.val()));
}

/// The hyperbolic tangent is the logistic function of twice the argument,
/// stretched from between 0 and 1 to between -1 and 1.
pub proof fn law_tanh_is_a_stretched_sigmoid(x: Real)
    ensures
        x.tanh_of().val() == pointwise::sigmoid_of(x.plus(x)).val() + pointwise::sigmoid_of(
            x.plus(x),
        ).val() - 1real,
{
    let y = x.val() + x.val();
    let e = reals::exponential(y);
    let f = reals::exponential(-y);
    reals::lemma_exponential(y, -y);
    reals::lemma_exponential(-y, 0real);
    assert(y + (-y) == 0real);
    assert(reals::product(e, f) == 1real);
    let s = reals::quotient(1real, 1real + f);
    reals::lemma_quotient(1real, 1real + f);
    // s * (e + 1) = e, for s * (1 + f) = 1 and e * f = 1
    assert(reals::product(s, e + 1real) == e) by {
        let t = 1real + f;
        assert(reals::product(e, t) == e + 1real) by {
            reals::lemma_product(e, 1real, f);
        }
        reals::lemma_product(s, t, e);
        reals::lemma_product(t, e, e);
        reals::lemma_product(1real, e, e);
        reals::lemma_product(e, 1real, 1real);
    }
    let twice = s + s - 1real;
    assert(reals::product(twice, e + 1real) == e - 1real) by {
        let u = e + 1real;
        reals::lemma_product(u, s + s, 1real);
        reals::lemma_product(u, s, s);
        reals::lemma_product(s, u, u);
        reals::lemma_product(twice, u, u);
    }
    reals::lemma_quotient_is(e - 1real, e + 1real, twice);
}

/// The hyperbolic tangent lies between -1 and 1.
pub proof fn law_tanh_is_bounded(x: Real)
    ensures
        -1real < x.tanh_of().val() < 1real,
{
    law_tanh_is_a_stretched_sigmoid(x);
    law_sigmoid_is_a_fraction(x.plus(x));
}

/// Sums of positive numbers are positive.
pub proof fn lemma_positive_sum(xs: Seq<Real>, n: nat)
    requires
        n <= xs.len(),
        forall|i: int| 0 <= i < xs.len() ==> (#[trigger] xs[i]).val() > 0real,
    ensures
        scalar::sum_to(xs, n).val() >= 0real,
        n > 0 ==> scalar::sum_to(xs, n).val() > 0real,
    decreases n,
{
    if n > 0 {
        lemma_positive_sum(xs, (n - 1) as nat);
        assert(xs[n - 1].val() > 0real);
    }
}

/// The shifted exponentials of logits are positive, and so is their sum.
pub proof fn lemma_exps_sum(logits: Seq<Real>)
    requires
        logits.len() > 0,
    ensures
        forall|i: int|
            0 <= i < logits.len() ==> (#[trigger] pointwise::shifted_exps(logits)[i]).val()
                > 0real,
        scalar::sum_of(pointwise::shifted_exps(logits)).val() > 0real,
{
    let exps = pointwise::shifted_exps(logits);
    assert forall|i: int| 0 <= i < exps.len() implies (#[trigger] exps[i]).val() > 0real by {
        reals::lemma_exponential(logits[i].val() - scalar::greatest_of(logits).val(), 0real);
    }
    lemma_positive_sum(exps, exps.len());
}

/// A list divided by a number sums to the sum divided by it.
pub proof fn lemma_sum_of_quotients(xs: Seq<Real>, ys: Seq<Real>, s: real, n: nat)
    requires
        s > 0real,
        n <= xs.len(),
        ys.len() == xs.len(),
        forall|i: int|
            0 <= i < xs.len() ==> (#[trigger] ys[i]).val() == reals::quotient(xs[i].val(), s),
    ensures
        reals::product(scalar::sum_to(ys, n).val(), s) == scalar::sum_to(xs, n).val(),
    decreases n,
{
    if n == 0 {
        reals::lemma_product(s, 0real, 0real);
        reals::lemma_product(0real, s, s);
    } else {
        lemma_sum_of_quotients(xs, ys, s, (n - 1) as nat);
        let a = scalar::sum_to(ys, (n - 1) as nat).val();
        let y = ys[n - 1].val();
        reals::lemma_quotient(xs[n - 1].val(), s);
        reals::lemma_product(s, a, y);
        reals::lemma_product(a, s, s);
        reals::lemma_product(y, s, s);
        reals::lemma_product(a + y, s, s);
    }
}

/// The softmax is a distribution: every probability is positive, and they sum
/// to 1.
pub proof fn law_softmax_is_a_distribution(logits: Seq<Real>)
    requires
        logits.len() > 0,
    ensures
        forall|i: int|
            0 <= i < logits.len() ==> (#[trigger] pointwise::softmax_of(logits)[i]).val() > 0real,
        scalar::sum_of(pointwise::softmax_of(logits)).val() == 1real,
{
    let exps = pointwise::shifted_exps(logits);
    let probs = pointwise::softmax_of(logits);
    lemma_exps_sum(logits);
    let s = scalar::sum_of(exps).val();
    assert forall|i: int| 0 <= i < probs.len() implies (#[trigger] probs[i]).val() > 0real by {
        assert(exps[i].val() > 0real);
        reals::lemma_quotient(exps[i].val(), s);
        reals::lemma_product_sign(probs[i].val(), s);
    }
    lemma_sum_of_quotients(exps, probs, s, exps.len());
    let total = scalar::sum_of(probs).val();
    reals::lemma_quotient_is(s, s, total);
    reals::lemma_product(s, 1real, 1real);
    reals::lemma_product(1real, s, s);
    reals::lemma_quotient_is(s, s, 1real);
}

/// A closed update gate keeps its slot of memory exactly as it is, an open one
/// replaces it by the candidate.
pub proof fn law_update_gate_keeps_or_replaces(
    n: nat,
    z: Seq<Real>,
    h: Seq<Real>,
    c: Seq<Real>,
    i: int,
)
    requires
        0 <= i < n,
    ensures
        z[i].val() == 0real ==> model::blended(n, z, h, c)[i] == h[i],
        z[i].val() == 1real ==> model::blended(n, z, h, c)[i] == c[i],
{
    let a = h[i].val();
    let b = c[i].val();
    reals::lemma_product(a, 1real, 1real);
    reals::lemma_product(a, 0real, 0real);
    reals::lemma_product(b, 1real, 1real);
    reals::lemma_product(b, 0real, 0real);
    reals::lemma_product(1real, a, b);
    reals::lemma_product(0real, a, b);
    reals::lemma_product(1real, b, b);
    reals::lemma_product(0real, b, b);
    assert(1real - 0real == 1real && 1real - 1real == 0real);
    if z[i].val() == 0real {
        reals::lemma_same_value(model::blended(n, z, h, c)[i], h[i]);
    }
    if z[i].val() == 1real {
        reals::lemma_same_value(model::blended(n, z, h, c)[i], c[i]);
    }
}

/// Whether all entries of a list lie between -1 and 1.
pub open spec fn within_one(xs: Seq<Real>) -> bool {
    forall|i: int| 0 <= i < xs.len() ==> -1real <= (#[trigger] xs[i]).val() <= 1real
}

/// A blend of two numbers between -1 and 1 lies between them too.
proof fn lemma_blend_within_one(z: real, h: real, c: real)
    requires
        0real < z < 1real,
        -1real <= h <= 1real,
        -1real <= c <= 1real,
    ensures
        -1real <= reals::product(1real - z, h) + reals::product(z, c) <= 1real,
{
    let w = 1real - z;
    reals::lemma_product_order(w, h, 1real);
    reals::lemma_product_order(w, -1real, h);
    reals::lemma_product_order(z, c, 1real);
    reals::lemma_product_order(z, -1real, c);
    reals::lemma_product(w, 0real, 1real);
    reals::lemma_product(z, 0real, 1real);
    assert(0real - 1real == -1real);
}

/// One step from a hidden state between -1 and 1: the gates lie between closed
/// and open, candidate and new hidden state between -1 and 1, and what the
/// step says of the next token is a distribution.
pub proof fn law_step_stays_in_range(p: Params<Real>, x: Seq<Real>, h: Seq<Real>)
    requires
        p.shaped(),
        p.vocab_size > 0,
        h.len() == p.hidden_dim,
        within_one(h),
    ensures
        forall|i: int|
            0 <= i < p.hidden_dim ==> 0real < (#[trigger] p.step_on(x, h).z[i]).val() < 1real,
        forall|i: int|
            0 <= i < p.hidden_dim ==> 0real < (#[trigger] p.step_on(x, h).r[i]).val() < 1real,
        within_one(p.step_on(x, h).hcand),
        within_one(p.step_on(x, h).h),
        forall|j: int|
            0 <= j < p.vocab_size ==> (#[trigger] p.step_on(x, h).probs[j]).val() > 0real,
        scalar::sum_of(p.step_on(x, h).probs).val() == 1real,
{
    let n = p.hidden_dim as nat;
    let out = p.step_on(x, h);
    let az = p.update_activation(x, h);
    let ar = p.reset_activation(x, h);
    let ah = p.candidate_activation(x, pointwise::products(n, out.r, h));
    assert forall|i: int| 0 <= i < n implies 0real < (#[trigger] out.z[i]).val() < 1real by {
        law_sigmoid_is_a_fraction(az[i]);
    }
    assert forall|i: int| 0 <= i < n implies 0real < (#[trigger] out.r[i]).val() < 1real by {
        law_sigmoid_is_a_fraction(ar[i]);
    }
    assert forall|i: int| 0 <= i < out.hcand.len() implies -1real <= (
    #[trigger] out.hcand[i]).val() <= 1real by {
        law_tanh_is_bounded(ah[i]);
    }
    assert forall|i: int| 0 <= i < out.h.len() implies -1real <= (#[trigger] out.h[i]).val()
        <= 1real by {
        assert(0real < out.z[i].val() < 1real);
        assert(-1real <= h[i].val() <= 1real);
        assert(-1real <= out.hcand[i].val() <= 1real);
        lemma_blend_within_one(out.z[i].val(), h[i].val(), out.hcand[i].val());
    }
    law_softmax_is_a_distribution(p.logits(out.h));
}

/// However long a sequence is read, the hidden state stays between -1 and 1.
pub proof fn law_hidden_state_stays_bounded(p: Params<Real>, seq: Seq<usize>, t: nat)
    requires
        p.shaped(),
        p.vocab_size > 0,
    ensures
        within_one(p.state_before(seq, t)),
        p.state_before(seq, t).len() == p.hidden_dim,
    decreases t,
{
    if t > 0 {
        law_hidden_state_stays_bounded(p, seq, (t - 1) as nat);
        law_step_stays_in_range(
            p,
            p.input(seq[t - 1] as int),
            p.state_before(seq, (t - 1) as nat),
        );
    }
}

} // verus!
