//! Why training lowers the loss: the weight update moves the weights in a
//! direction in which the cross-entropy does not grow.

use crate::bptt;
use crate::derivative::dot;
use crate::dual::Dual;
use crate::gradient;
use crate::model::Params;
use crate::reals;
use crate::reals::Real;
use crate::scalar::Number;
use vstd::prelude::*;

verus! {

/// Whether the speeds lead, in one unit of time, from one list to another.
pub open spec fn leads(from: Seq<Real>, speed: Seq<Real>, to: Seq<Real>) -> bool {
    forall|i: int| 0 <= i < from.len() ==> #[trigger] speed[i] == to[i].minus(from[i])
}

/// Whether a moving model heads for the weights `to`.
pub open spec fn heads_for(p: Params<Dual<Real>>, to: Params<Real>) -> bool {
    let from = gradient::values_of(p);
    let speed = gradient::speeds_of(p);
    &&& leads(from.embedding, speed.embedding, to.embedding)
    &&& leads(from.w_z, speed.w_z, to.w_z)
    &&& leads(from.w_r, speed.w_r, to.w_r)
    &&& leads(from.w_h, speed.w_h, to.w_h)
    &&& leads(from.u_z, speed.u_z, to.u_z)
    &&& leads(from.u_r, speed.u_r, to.u_r)
    &&& leads(from.u_h, speed.u_h, to.u_h)
    &&& leads(from.b_z, speed.b_z, to.b_z)
    &&& leads(from.b_r, speed.b_r, to.b_r)
    &&& leads(from.b_h, speed.b_h, to.b_h)
    &&& leads(from.w_out, speed.w_out, to.w_out)
    &&& leads(from.b_out, speed.b_out, to.b_out)
}

/// A step against a gradient has no positive product with it.
pub proof fn lemma_against(from: Seq<Real>, speed: Seq<Real>, scale: Real, d: Seq<Real>, n: nat)
    requires
        n <= d.len(),
        d.len() == from.len(),
        scale.val() >= 0real,
        leads(from, speed, bptt::descended(from, scale, d)),
    ensures
        dot(d, speed, n) <= 0real,
    decreases n,
{
    if n > 0 {
        let i = n - 1;
        lemma_against(from, speed, scale, d, i as nat);
        let x = d[i].val();
        let s = scale.val();
        let y = reals::product(s, x);
        assert(speed[i] == bptt::descended(from, scale, d)[i].minus(from[i]));
        assert(speed[i].val() == 0real - y);
        reals::lemma_product(x, 0real, y);
        reals::lemma_product(x, y, y);
        reals::lemma_product(s, x, x);
        reals::lemma_square(x);
        reals::lemma_product_nonnegative(s, reals::product(x, x));
    }
}

/// The weight update leads downhill: where a model starts to move towards
/// the weights that the update gives it, the cross-entropy of the chunks that
/// the gradients come from does not grow.
pub proof fn law_updates_lead_downhill(
    p: Params<Dual<Real>>,
    starts: Seq<usize>,
    ids: Seq<usize>,
    seq_len: nat,
    n: nat,
    scale: Real,
)
    requires
        p.shaped(),
        n <= starts.len(),
        forall|i: int|
            0 <= i < starts.len() ==> (#[trigger] starts[i]) + seq_len + 1 <= ids.len(),
        forall|i: int|
            0 <= i < starts.len() ==> p.trains_on(
                bptt::chunk(ids, #[trigger] starts[i] as int, seq_len),
            ),
        scale.val() >= 0real,
        heads_for(
            p,
            gradient::values_of(p).updated(
                gradient::values_of(p).gradients(starts, ids, seq_len, n),
                scale,
            ),
        ),
    ensures
        gradient::entropy_over(p, starts, ids, seq_len, n).du.val() <= 0real,
{
    gradient::law_gradients_are_derivatives(p, starts, ids, seq_len, n);
    let v = gradient::values_of(p);
    let s = gradient::speeds_of(p);
    let g = v.gradients(starts, ids, seq_len, n);
    lemma_against(v.embedding, s.embedding, scale, g.d_embedding, g.d_embedding.len());
    lemma_against(v.w_z, s.w_z, scale, g.d_w_z, g.d_w_z.len());
    lemma_against(v.w_r, s.w_r, scale, g.d_w_r, g.d_w_r.len());
    lemma_against(v.w_h, s.w_h, scale, g.d_w_h, g.d_w_h.len());
    lemma_against(v.u_z, s.u_z, scale, g.d_u_z, g.d_u_z.len());
    lemma_against(v.u_r, s.u_r, scale, g.d_u_r, g.d_u_r.len());
    lemma_against(v.u_h, s.u_h, scale, g.d_u_h, g.d_u_h.len());
    lemma_against(v.b_z, s.b_z, scale, g.d_b_z, g.d_b_z.len());
    lemma_against(v.b_r, s.b_r, scale, g.d_b_r, g.d_b_r.len());
    lemma_against(v.b_h, s.b_h, scale, g.d_b_h, g.d_b_h.len());
    lemma_against(v.w_out, s.w_out, scale, g.d_w_out, g.d_w_out.len());
    lemma_against(v.b_out, s.b_out, scale, g.d_b_out, g.d_b_out.len());
}

/// An update is averaged over the batch, for every weight alike: what a weight
/// moves by, times the length of the batch, is the learning rate times its
/// gradient, against the gradient.
pub proof fn law_every_weight_moves_by_its_averaged_gradient(
    weights: Seq<Real>,
    d: Seq<Real>,
    learning_rate: Real,
    batch_len: usize,
    i: int,
)
    requires
        weights.len() == d.len(),
        batch_len > 0,
        0 <= i < weights.len(),
    ensures
        ({
            let scale = learning_rate.over(Real::natural(batch_len));
            let after = bptt::descended(weights, scale, d);
            &&& after.len() == weights.len()
            &&& reals::product(batch_len as real, weights[i].val() - after[i].val())
                == reals::product(learning_rate.val(), d[i].val())
        }),
{
    let n = batch_len as real;
    let q = reals::quotient(learning_rate.val(), n);
    let x = d[i].val();
    reals::lemma_quotient(learning_rate.val(), n);
    // n * (q * x) = (q * n) * x
    reals::lemma_product(n, q, x);
    reals::lemma_product(q, n, x);
    assert(weights[i].val() - (weights[i].val() - reals::product(q, x)) == reals::product(q, x));
}

/// Two updates against the same gradient are one update by both scales
/// together, and an update by nothing changes nothing.
pub proof fn law_updates_against_one_gradient_add_up(
    weights: Seq<Real>,
    d: Seq<Real>,
    s: Real,
    t: Real,
)
    requires
        weights.len() == d.len(),
    ensures
        bptt::descended(bptt::descended(weights, s, d), t, d) == bptt::descended(
            weights,
            s.plus(t),
            d,
        ),
        bptt::descended(weights, Real::nought(), d) == weights,
{
    let one = bptt::descended(weights, s.plus(t), d);
    let two = bptt::descended(bptt::descended(weights, s, d), t, d);
    let none = bptt::descended(weights, Real::nought(), d);
    assert forall|i: int| 0 <= i < weights.len() implies #[trigger] two[i] == one[i] && none[i]
        == weights[i] by {
        let x = d[i].val();
        reals::lemma_product(x, s.val(), t.val());
        reals::lemma_product(s.val(), x, x);
        reals::lemma_product(t.val(), x, x);
        reals::lemma_product(s.val() + t.val(), x, x);
        reals::lemma_product(x, 0real, 0real);
        reals::lemma_product(0real, x, x);
        reals::lemma_same_value(two[i], one[i]);
        reals::lemma_same_value(none[i], weights[i]);
    }
    assert(two =~= one);
    assert forall|i: int| 0 <= i < weights.len() implies #[trigger] none[i] == weights[i] by {
        assert(two[i] == one[i]);
    }
    assert(none =~= weights);
}

} // verus!
