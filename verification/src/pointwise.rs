//! Functions applied to lists entry by entry, and the softmax.

use crate::scalar;
use crate::scalar::{Number, Scalar};
use vstd::prelude::*;

verus! {

/// The logistic function.
pub open spec fn sigmoid_of<S: Number>(v: S) -> S {
    S::unit().over(S::unit().plus(v.opposite().exp_of()))
}

/// The logistic function of each number of a list.
pub open spec fn sigmoids_of<S: Number>(xs: Seq<S>) -> Seq<S> {
    Seq::new(xs.len(), |i: int| sigmoid_of(xs[i]))
}

/// The hyperbolic tangent of each number of a list.
pub open spec fn tanhs_of<S: Number>(xs: Seq<S>) -> Seq<S> {
    Seq::new(xs.len(), |i: int| xs[i].tanh_of())
}

/// The products of the first `n` entries of two lists.
pub open spec fn products<S: Number>(n: nat, a: Seq<S>, b: Seq<S>) -> Seq<S> {
    Seq::new(n, |i: int| a[i].times(b[i]))
}

/// A gradient by the values `y` of the logistic function taken back to its
/// arguments, where the slope is `y * (1 - y)`.
pub open spec fn through_sigmoid<S: Number>(d: Seq<S>, y: Seq<S>) -> Seq<S> {
    Seq::new(d.len(), |i: int| d[i].times(y[i]).times(S::unit().minus(y[i])))
}

/// A gradient by the values `y` of the hyperbolic tangent taken back to its
/// arguments, where the slope is `1 - y * y`.
pub open spec fn through_tanh<S: Number>(d: Seq<S>, y: Seq<S>) -> Seq<S> {
    Seq::new(d.len(), |i: int| d[i].times(S::unit().minus(y[i].times(y[i]))))
}

/// The exponentials of a list, each shifted down by the greatest entry.
pub open spec fn shifted_exps<S: Number>(logits: Seq<S>) -> Seq<S> {
    Seq::new(logits.len(), |i: int| logits[i].minus(scalar::greatest_of(logits)).exp_of())
}

/// The distribution that a list of logits stands for.
pub open spec fn softmax_of<S: Number>(logits: Seq<S>) -> Seq<S> {
    Seq::new(
        logits.len(),
        |i: int| shifted_exps(logits)[i].over(scalar::sum_of(shifted_exps(logits))),
    )
}

/// The gradient of the cross-entropy by the logits: the distribution less
/// the certainty of the target.
pub open spec fn less_target<S: Number>(probs: Seq<S>, target: int) -> Seq<S> {
    probs.update(target, probs[target].minus(S::unit()))
}

/// What a step adds to the loss: `-ln(p + 1e-9)` for the probability `p`
/// that the step gave its target.
pub open spec fn surprise<S: Number>(p: S) -> S {
    p.plus(S::numeral(1, 9)).ln_of().opposite()
}

/// The logistic function.
pub fn sigmoid<S: Scalar>(v: S) -> (r: S)
    ensures
        r == sigmoid_of(v),
{
    S::one().div(S::one().add(v.neg().exp()))
}

/// The logistic function of each number of a list.
pub fn sigmoids<S: Scalar>(xs: &[S]) -> (v: Vec<S>)
    ensures
        v@ == sigmoids_of(xs@),
{
    let mut v: Vec<S> = Vec::with_capacity(xs.len());
    let mut i: usize = 0;
    while i < xs.len()
        invariant
            i <= xs@.len(),
            v@.len() == i,
            forall|k: int| 0 <= k < i ==> #[trigger] v@[k] == sigmoid_of(xs@[k]),
        decreases xs@.len() - i,
    {
        v.push(sigmoid(xs[i]));
        i += 1;
    }
    assert(v@ =~= sigmoids_of(xs@));
    v
}

/// The hyperbolic tangent of each number of a list.
pub fn tanhs<S: Scalar>(xs: &[S]) -> (v: Vec<S>)
    ensures
        v@ == tanhs_of(xs@),
{
    let mut v: Vec<S> = Vec::with_capacity(xs.len());
    let mut i: usize = 0;
    while i < xs.len()
        invariant
            i <= xs@.len(),
            v@.len() == i,
            forall|k: int| 0 <= k < i ==> #[trigger] v@[k] == xs@[k].tanh_of(),
        decreases xs@.len() - i,
    {
        v.push(xs[i].tanh());
        i += 1;
    }
    assert(v@ =~= tanhs_of(xs@));
    v
}

/// The products of the first `n` entries of two lists.
pub fn multiply<S: Scalar>(n: usize, a: &[S], b: &[S]) -> (v: Vec<S>)
    requires
        n <= a@.len(),
        n <= b@.len(),
    ensures
        v@ == products(n as nat, a@, b@),
{
    let mut v: Vec<S> = Vec::with_capacity(n);
    let mut i: usize = 0;
    while i < n
        invariant
            i <= n,
            n <= a@.len(),
            n <= b@.len(),
            v@.len() == i,
            forall|k: int| 0 <= k < i ==> #[trigger] v@[k] == a@[k].times(b@[k]),
        decreases n - i,
    {
        v.push(a[i].mul(b[i]));
        i += 1;
    }
    assert(v@ =~= products(n as nat, a@, b@));
    v
}

/// Takes a gradient back through the logistic function with values `y`.
pub fn back_through_sigmoid<S: Scalar>(d: &[S], y: &[S]) -> (v: Vec<S>)
    requires
        d@.len() <= y@.len(),
    ensures
        v@ == through_sigmoid(d@, y@),
{
    let mut v: Vec<S> = Vec::with_capacity(d.len());
    let mut i: usize = 0;
    while i < d.len()
        invariant
            i <= d@.len(),
            d@.len() <= y@.len(),
            v@.len() == i,
            forall|k: int|
                0 <= k < i ==> #[trigger] v@[k] == d@[k].times(y@[k]).times(
                    S::unit().minus(y@[k]),
                ),
        decreases d@.len() - i,
    {
        v.push(d[i].mul(y[i]).mul(S::one().sub(y[i])));
        i += 1;
    }
    assert(v@ =~= through_sigmoid(d@, y@));
    v
}

/// Takes a gradient back through the hyperbolic tangent with values `y`.
pub fn back_through_tanh<S: Scalar>(d: &[S], y: &[S]) -> (v: Vec<S>)
    requires
        d@.len() <= y@.len(),
    ensures
        v@ == through_tanh(d@, y@),
{
    let mut v: Vec<S> = Vec::with_capacity(d.len());
    let mut i: usize = 0;
    while i < d.len()
        invariant
            i <= d@.len(),
            d@.len() <= y@.len(),
            v@.len() == i,
            forall|k: int|
                0 <= k < i ==> #[trigger] v@[k] == d@[k].times(
                    S::unit().minus(y@[k].times(y@[k])),
                ),
        decreases d@.len() - i,
    {
        v.push(d[i].mul(S::one().sub(y[i].mul(y[i]))));
        i += 1;
    }
    assert(v@ =~= through_tanh(d@, y@));
    v
}

/// The distribution that a list of logits stands for.
pub fn softmax<S: Scalar>(logits: &[S]) -> (probs: Vec<S>)
    ensures
        probs@ == softmax_of(logits@),
{
    let max_logit = scalar::greatest(logits);
    let mut exps: Vec<S> = Vec::with_capacity(logits.len());
    let mut i: usize = 0;
    while i < logits.len()
        invariant
            i <= logits@.len(),
            max_logit == scalar::greatest_of(logits@),
            exps@.len() == i,
            forall|k: int|
                0 <= k < i ==> #[trigger] exps@[k] == logits@[k].minus(max_logit).exp_of(),
        decreases logits@.len() - i,
    {
        exps.push(logits[i].sub(max_logit).exp());
        i += 1;
    }
    assert(exps@ =~= shifted_exps(logits@));
    let sum_exps = scalar::sum(exps.as_slice());
    let mut probs: Vec<S> = Vec::with_capacity(exps.len());
    let mut j: usize = 0;
    while j < exps.len()
        invariant
            j <= exps@.len(),
            probs@.len() == j,
            forall|k: int| 0 <= k < j ==> #[trigger] probs@[k] == exps@[k].over(sum_exps),
        decreases exps@.len() - j,
    {
        probs.push(exps[j].div(sum_exps));
        j += 1;
    }
    assert(probs@ =~= softmax_of(logits@));
    probs
}

} // verus!
