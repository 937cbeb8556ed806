//! How the cross-entropy of a softmax differentiates.

use crate::derivative::dot;
use crate::dual;
use crate::dual::Dual;
use crate::pointwise;
use crate::reals;
use crate::reals::Real;
use crate::scalar;
use crate::scalar::Number;
use vstd::prelude::*;

verus! {

/// The sum of dual numbers has the sum of the values.
pub proof fn lemma_sum_values<S: Number>(xs: Seq<Dual<S>>, n: nat)
    requires
        n <= xs.len(),
    ensures
        scalar::sum_to(xs, n).re == scalar::sum_to(dual::values(xs), n),
    decreases n,
{
    if n > 0 {
        lemma_sum_values(xs, (n - 1) as nat);
    }
}

/// The greatest of dual numbers has the greatest value.
pub proof fn lemma_greatest_values<S: Number>(xs: Seq<Dual<S>>, n: nat)
    requires
        n <= xs.len(),
    ensures
        scalar::greatest_to(xs, n).re == scalar::greatest_to(dual::values(xs), n),
    decreases n,
{
    if n > 0 {
        lemma_greatest_values(xs, (n - 1) as nat);
    }
}

/// The softmax of dual numbers has the values of the softmax of the values.
pub proof fn lemma_softmax_values<S: Number>(logits: Seq<Dual<S>>)
    ensures
        dual::values(pointwise::shifted_exps(logits)) == pointwise::shifted_exps(
            dual::values(logits),
        ),
        dual::values(pointwise::softmax_of(logits)) == pointwise::softmax_of(
            dual::values(logits),
        ),
{
    lemma_greatest_values(logits, logits.len());
    assert(dual::values(pointwise::shifted_exps(logits)) =~= pointwise::shifted_exps(
        dual::values(logits),
    ));
    lemma_sum_values(pointwise::shifted_exps(logits), logits.len());
    assert(dual::values(pointwise::softmax_of(logits)) =~= pointwise::softmax_of(
        dual::values(logits),
    ));
}

/// The sum of the shifted exponentials, and how fast it changes.
proof fn lemma_exps_rate(logits: Seq<Dual<Real>>, n: nat)
    requires
        n <= logits.len(),
    ensures
        scalar::sum_to(pointwise::shifted_exps(logits), n).du.val() == dot(
            pointwise::shifted_exps(dual::values(logits)),
            dual::rates(logits),
            n,
        ) - reals::product(
            scalar::greatest_of(logits).du.val(),
            scalar::sum_to(pointwise::shifted_exps(dual::values(logits)), n).val(),
        ),
        scalar::sum_to(pointwise::shifted_exps(dual::values(logits)), n).val() >= 0real,
        n > 0 ==> scalar::sum_to(pointwise::shifted_exps(dual::values(logits)), n).val() > 0real,
        forall|i: int|
            0 <= i < logits.len() ==> (#[trigger] pointwise::shifted_exps(
                dual::values(logits),
            )[i]).val() > 0real,
    decreases n,
{
    lemma_softmax_values(logits);
    let exps = pointwise::shifted_exps(logits);
    let real_exps = pointwise::shifted_exps(dual::values(logits));
    let m = scalar::greatest_of(logits).du.val();
    assert forall|i: int| 0 <= i < logits.len() implies (#[trigger] real_exps[i]).val()
        > 0real by {
        reals::lemma_exponential(
            dual::values(logits)[i].val() - scalar::greatest_of(dual::values(logits)).val(),
            0real,
        );
    }
    if n == 0 {
        reals::lemma_product(m, 0real, 0real);
    } else {
        lemma_exps_rate(logits, (n - 1) as nat);
        let e = real_exps[n - 1].val();
        let l = logits[n - 1].du.val();
        let s = scalar::sum_to(real_exps, (n - 1) as nat).val();
        assert(exps[n - 1].re == real_exps[n - 1]) by {
            assert(dual::values(exps)[n - 1] == exps[n - 1].re);
        }
        assert(exps[n - 1].du.val() == reals::product(e, l - m));
        reals::lemma_product(e, l, m);
        reals::lemma_product(e, m, m);
        reals::lemma_product(m, s, e);
    }
}

/// Quotients with one divisor add up.
proof fn lemma_quotients_add(a: real, e: real, v: real, s: real)
    requires
        s > 0real,
    ensures
        reals::quotient(a, s) + reals::product(reals::quotient(e, s), v) == reals::quotient(
            a + reals::product(e, v),
            s,
        ),
{
    let x = reals::quotient(a, s);
    let y = reals::quotient(e, s);
    let yv = reals::product(y, v);
    reals::lemma_quotient(a, s);
    reals::lemma_quotient(e, s);
    assert(reals::product(x + yv, s) == a + reals::product(e, v)) by {
        reals::lemma_product(s, x, yv);
        reals::lemma_product(x, s, s);
        reals::lemma_product(x + yv, s, s);
        reals::lemma_product(yv, s, s);
        reals::lemma_product(y, v, s);
        reals::lemma_product(v, s, s);
        reals::lemma_product(y, s, v);
    }
    reals::lemma_quotient_is(a + reals::product(e, v), s, x + yv);
}

/// The distribution times the sum of the exponentials gives the
/// exponentials.
proof fn lemma_softmax_dot(logits: Seq<Real>, r: Seq<Real>, n: nat)
    requires
        n <= logits.len(),
        scalar::sum_of(pointwise::shifted_exps(logits)).val() > 0real,
    ensures
        dot(pointwise::softmax_of(logits), r, n) == reals::quotient(
            dot(pointwise::shifted_exps(logits), r, n),
            scalar::sum_of(pointwise::shifted_exps(logits)).val(),
        ),
    decreases n,
{
    let s = scalar::sum_of(pointwise::shifted_exps(logits)).val();
    if n == 0 {
        reals::lemma_product(s, 0real, 0real);
        reals::lemma_quotient_is(0real, s, 0real);
    } else {
        lemma_softmax_dot(logits, r, (n - 1) as nat);
        let a = dot(pointwise::shifted_exps(logits), r, (n - 1) as nat);
        let e = pointwise::shifted_exps(logits)[n - 1].val();
        let v = r[n - 1].val();
        lemma_quotients_add(a, e, v, s);
    }
}

/// Taking 1 off one entry takes one rate off a sum of products.
proof fn lemma_less_target_dot(probs: Seq<Real>, target: int, r: Seq<Real>, n: nat)
    requires
        0 <= target < probs.len(),
        n <= probs.len(),
    ensures
        dot(pointwise::less_target(probs, target), r, n) == dot(probs, r, n) - (if target < n {
            r[target].val()
        } else {
            0real
        }),
    decreases n,
{
    if n > 0 {
        lemma_less_target_dot(probs, target, r, (n - 1) as nat);
        if n - 1 == target {
            let p = probs[target].val();
            let v = r[target].val();
            reals::lemma_product(v, p, 1real);
            reals::lemma_product(p, v, v);
            reals::lemma_product(p - 1real, v, v);
        }
    }
}

/// How fast `-ln(p)` changes for `p = e / s`, where `e` is the exponential of
/// a number with rate `l - m` and `s` has the rate `a - m * s`.
proof fn lemma_entropy_rate(e: real, s: real, l: real, m: real, a: real)
    requires
        e > 0real,
        s > 0real,
    ensures
        -reals::quotient(
            reals::quotient(
                reals::product(e, l - m) - reals::product(
                    reals::quotient(e, s),
                    a - reals::product(m, s),
                ),
                s,
            ),
            reals::quotient(e, s),
        ) == reals::quotient(a, s) - l,
{
    let p = reals::quotient(e, s);
    let mean = reals::quotient(a, s);
    reals::lemma_quotient(e, s);
    reals::lemma_quotient(a, s);
    reals::lemma_product_sign(p, s);
    let ms = reals::product(m, s);
    let rate = reals::product(e, l - m) - reals::product(p, a - ms);
    let change = reals::product(p, l - mean);
    assert(reals::product(change, s) == rate) by {
        // change * s = e * l - p * a
        reals::lemma_product(p, l - mean, s);
        reals::lemma_product(l - mean, s, s);
        reals::lemma_product(s, l, mean);
        reals::lemma_product(mean, s, s);
        reals::lemma_product(l, s, s);
        let sl = reals::product(s, l);
        reals::lemma_product(p, sl, a);
        reals::lemma_product(p, s, l);
        // rate = e * l - e * m - p * a + p * (m * s)
        reals::lemma_product(e, l, m);
        reals::lemma_product(p, a, ms);
        reals::lemma_product(p, m, s);
        reals::lemma_product(m, s, s);
        reals::lemma_product(p, s, m);
    }
    reals::lemma_quotient_is(rate, s, change);
    reals::lemma_product(p, l - mean, p);
    reals::lemma_quotient_is(change, p, l - mean);
}

/// The value and the rate of a quotient, and the rate of its `-ln`.
proof fn lemma_neg_ln_of_quotient(x: Dual<Real>, y: Dual<Real>)
    ensures
        x.over(y).ln_of().opposite().du.val() == -reals::quotient(
            reals::quotient(
                x.du.val() - reals::product(
                    reals::quotient(x.re.val(), y.re.val()),
                    y.du.val(),
                ),
                y.re.val(),
            ),
            reals::quotient(x.re.val(), y.re.val()),
        ),
{
}

/// The cross-entropy of a softmax, from the side of a gradient: its gradient
/// by the logits is the distribution less the certainty of the target.
pub proof fn lemma_entropy_adjoint(logits: Seq<Dual<Real>>, target: int)
    requires
        0 <= target < logits.len(),
    ensures
        pointwise::softmax_of(logits)[target].ln_of().opposite().du.val() == dot(
            pointwise::less_target(pointwise::softmax_of(dual::values(logits)), target),
            dual::rates(logits),
            logits.len(),
        ),
{
    let n = logits.len();
    let real_logits = dual::values(logits);
    let exps = pointwise::shifted_exps(logits);
    let real_exps = pointwise::shifted_exps(real_logits);
    let x = exps[target];
    let y = scalar::sum_of(exps);
    let e = real_exps[target].val();
    let s = scalar::sum_of(real_exps).val();
    let m = scalar::greatest_of(logits).du.val();
    let l = logits[target].du.val();
    let a = dot(real_exps, dual::rates(logits), n);
    assert(e > 0real && s > 0real && y.du.val() == a - reals::product(m, s)) by {
        lemma_exps_rate(logits, n);
    }
    assert(x.re == real_exps[target] && y.re.val() == s) by {
        lemma_softmax_values(logits);
        lemma_sum_values(exps, n);
        assert(dual::values(exps)[target] == exps[target].re);
    }
    assert(x.du.val() == reals::product(e, l - m));
    lemma_neg_ln_of_quotient(x, y);
    lemma_entropy_rate(e, s, l, m, a);
    lemma_softmax_dot(real_logits, dual::rates(logits), n);
    lemma_less_target_dot(
        pointwise::softmax_of(real_logits),
        target,
        dual::rates(logits),
        n,
    );
}

} // verus!
