//! What the gradients of the recurrent model are.
//!
//! Let the weights of a model move. The cross-entropy of a text then changes
//! at the rate that the gradients, multiplied with the speeds of the weights,
//! give: backpropagation through time computes the derivative. This is shown
//! on the real numbers, for every model, every text and every direction.

use crate::bptt;
use crate::bptt::{Backward, Gradients};
use crate::dense;
use crate::derivative;
use crate::derivative::dot;
use crate::dual;
use crate::dual::Dual;
use crate::entropy;
use crate::model;
use crate::model::{Params, Step};
use crate::pointwise;
use crate::reals;
use crate::reals::Real;
use crate::scalar;
use crate::scalar::Number;
use vstd::prelude::*;

verus! {

/// The weights of a moving model.
pub open spec fn values_of<S>(p: Params<Dual<S>>) -> Params<S> {
    Params {
        vocab_size: p.vocab_size,
        embed_dim: p.embed_dim,
        hidden_dim: p.hidden_dim,
        embedding: dual::values(p.embedding),
        w_z: dual::values(p.w_z),
        w_r: dual::values(p.w_r),
        w_h: dual::values(p.w_h),
        u_z: dual::values(p.u_z),
        u_r: dual::values(p.u_r),
        u_h: dual::values(p.u_h),
        b_z: dual::values(p.b_z),
        b_r: dual::values(p.b_r),
        b_h: dual::values(p.b_h),
        w_out: dual::values(p.w_out),
        b_out: dual::values(p.b_out),
    }
}

/// The speeds of the weights of a moving model.
pub open spec fn speeds_of<S>(p: Params<Dual<S>>) -> Params<S> {
    Params {
        vocab_size: p.vocab_size,
        embed_dim: p.embed_dim,
        hidden_dim: p.hidden_dim,
        embedding: dual::rates(p.embedding),
        w_z: dual::rates(p.w_z),
        w_r: dual::rates(p.w_r),
        w_h: dual::rates(p.w_h),
        u_z: dual::rates(p.u_z),
        u_r: dual::rates(p.u_r),
        u_h: dual::rates(p.u_h),
        b_z: dual::rates(p.b_z),
        b_r: dual::rates(p.b_r),
        b_h: dual::rates(p.b_h),
        w_out: dual::rates(p.w_out),
        b_out: dual::rates(p.b_out),
    }
}

/// The values of a step of a moving model.
pub open spec fn step_values<S>(s: Step<Dual<S>>) -> Step<S> {
    Step {
        z: dual::values(s.z),
        r: dual::values(s.r),
        hcand: dual::values(s.hcand),
        h: dual::values(s.h),
        probs: dual::values(s.probs),
    }
}

/// The sum of the products of gradients and speeds, over all weights.
pub open spec fn along(g: Gradients<Real>, speed: Params<Real>) -> real {
    dot(g.d_embedding, speed.embedding, g.d_embedding.len()) + dot(
        g.d_w_z,
        speed.w_z,
        g.d_w_z.len(),
    ) + dot(g.d_w_r, speed.w_r, g.d_w_r.len()) + dot(g.d_w_h, speed.w_h, g.d_w_h.len()) + dot(
        g.d_u_z,
        speed.u_z,
        g.d_u_z.len(),
    ) + dot(g.d_u_r, speed.u_r, g.d_u_r.len()) + dot(g.d_u_h, speed.u_h, g.d_u_h.len()) + dot(
        g.d_b_z,
        speed.b_z,
        g.d_b_z.len(),
    ) + dot(g.d_b_r, speed.b_r, g.d_b_r.len()) + dot(g.d_b_h, speed.b_h, g.d_b_h.len()) + dot(
        g.d_w_out,
        speed.w_out,
        g.d_w_out.len(),
    ) + dot(g.d_b_out, speed.b_out, g.d_b_out.len())
}

/// Where every product is the sum of three others, so is the sum.
proof fn lemma_dot_three(
    a: Seq<Real>,
    b: Seq<Real>,
    c: Seq<Real>,
    d: Seq<Real>,
    e: Seq<Real>,
    f: Seq<Real>,
    g: Seq<Real>,
    h: Seq<Real>,
    n: nat,
)
    requires
        forall|i: int|
            #![trigger a[i]]
            0 <= i < n ==> reals::product(a[i].val(), b[i].val()) == reals::product(
                c[i].val(),
                d[i].val(),
            ) + reals::product(e[i].val(), f[i].val()) + reals::product(g[i].val(), h[i].val()),
    ensures
        dot(a, b, n) == dot(c, d, n) + dot(e, f, n) + dot(g, h, n),
    decreases n,
{
    if n > 0 {
        lemma_dot_three(a, b, c, d, e, f, g, h, (n - 1) as nat);
        let last = a[n - 1];
    }
}

/// A sum times a number.
proof fn lemma_sum_times(x: real, y: real, z: real)
    ensures
        reals::product(x + y, z) == reals::product(x, z) + reals::product(y, z),
{
    reals::lemma_product(z, x, y);
    reals::lemma_product(x, z, z);
    reals::lemma_product(y, z, z);
    reals::lemma_product(x + y, z, z);
}

/// Two lists added, multiplied with a third.
pub proof fn lemma_dot_added(a: Seq<Real>, b: Seq<Real>, r: Seq<Real>)
    requires
        a.len() == b.len(),
    ensures
        dot(dense::added(a, b), r, a.len()) == dot(a, r, a.len()) + dot(b, r, a.len()),
{
    let c = dense::added(a, b);
    assert forall|i: int| #![trigger c[i]] 0 <= i < a.len() implies reals::product(
        c[i].val(),
        r[i].val(),
    ) == reals::product(a[i].val(), r[i].val()) + reals::product(b[i].val(), r[i].val()) by {
        lemma_sum_times(a[i].val(), b[i].val(), r[i].val());
    }
    derivative::lemma_dot_two(c, r, a, r, b, r, a.len());
}

/// The product with a transpose added to a list, multiplied with another.
proof fn lemma_dot_transposed(start: Seq<Real>, mat: Seq<Real>, d: Seq<Real>, r: Seq<Real>)
    ensures
        dot(dense::transposed(start, mat, d), r, start.len()) == dot(start, r, start.len()) + dot(
            dense::row_sums(mat, start.len(), d),
            r,
            start.len(),
        ),
{
    let sums = dense::row_sums(mat, start.len(), d);
    assert(dense::transposed(start, mat, d) =~= dense::added(start, sums));
    lemma_dot_added(start, sums, r);
}

/// The product with a transpose added to zeros, multiplied with a list.
proof fn lemma_dot_transposed_noughts(n: nat, mat: Seq<Real>, d: Seq<Real>, r: Seq<Real>)
    ensures
        dot(dense::transposed(scalar::noughts(n), mat, d), r, n) == dot(
            dense::row_sums(mat, n, d),
            r,
            n,
        ),
{
    lemma_dot_transposed(scalar::noughts(n), mat, d, r);
    derivative::lemma_noughts_dot(scalar::noughts(n), r, n);
}

/// An outer product added to a matrix, multiplied with another matrix.
pub proof fn lemma_dot_outer(start: Seq<Real>, x: Seq<Real>, d: Seq<Real>, r: Seq<Real>)
    requires
        start.len() == x.len() * d.len(),
    ensures
        dot(dense::outer(start, x, d), r, start.len()) == dot(start, r, start.len()) + dot(
            derivative::outer_of(x, d),
            r,
            start.len(),
        ),
{
    let product = derivative::outer_of(x, d);
    let sum = dense::added(start, product);
    assert forall|i: int| 0 <= i < start.len() implies dense::outer(start, x, d)[i] == sum[i] by {
        let p = x[i / (d.len() as int)].times(d[i % (d.len() as int)]);
        assert(product[i].val() == 0real + p.val());
    }
    assert(dense::outer(start, x, d) =~= sum);
    lemma_dot_added(start, product, r);
}

/// A list added to a row of a table, multiplied with another table, as far
/// as the first `n` entries.
pub proof fn lemma_dot_row_added(
    table: Seq<Real>,
    width: nat,
    k: int,
    d: Seq<Real>,
    r: Seq<Real>,
    n: nat,
)
    requires
        0 <= k,
        d.len() == width,
        k * width + width <= table.len(),
        r.len() == table.len(),
        n <= table.len(),
    ensures
        k * width >= 0,
        dot(dense::row_added(table, width as int, k, d), r, n) == dot(table, r, n) + (if n <= k
            * width {
            0real
        } else if n <= k * width + width {
            dot(d, dense::row(r, width as int, k), (n - k * width) as nat)
        } else {
            dot(d, dense::row(r, width as int, k), width)
        }),
    decreases n,
{
    assert(k * width >= 0) by (nonlinear_arith)
        requires
            0 <= k,
            0 <= width,
    ;
    if n > 0 {
        lemma_dot_row_added(table, width, k, d, r, (n - 1) as nat);
        let base = k * width;
        let i = n - 1;
        let sum = dense::row_added(table, width as int, k, d);
        let row = dense::row(r, width as int, k);
        if base <= i < base + width {
            assert(row[i - base] == r[i]);
            assert(sum[i].val() == table[i].val() + d[i - base].val());
            lemma_sum_times(table[i].val(), d[i - base].val(), r[i].val());
            assert(dot(d, row, (i - base + 1) as nat) == dot(d, row, (i - base) as nat)
                + reals::product(d[i - base].val(), row[i - base].val()));
        } else {
            assert(sum[i] == table[i]);
        }
    }
}

/// A gate's activation, from the side of a gradient `d` by it.
proof fn lemma_gate_adjoint(
    b: Seq<Dual<Real>>,
    w: Seq<Dual<Real>>,
    u: Seq<Dual<Real>>,
    x: Seq<Dual<Real>>,
    h: Seq<Dual<Real>>,
    d: Seq<Real>,
)
    requires
        d.len() == b.len(),
        w.len() == x.len() * b.len(),
        u.len() == h.len() * b.len(),
    ensures
        dot(d, dual::rates(dense::affine(dense::affine(b, w, x), u, h)), d.len()) == dot(
            d,
            dual::rates(b),
            d.len(),
        ) + dot(derivative::outer_of(dual::values(x), d), dual::rates(w), w.len()) + dot(
            dense::row_sums(dual::values(w), x.len(), d),
            dual::rates(x),
            x.len(),
        ) + dot(derivative::outer_of(dual::values(h), d), dual::rates(u), u.len()) + dot(
            dense::row_sums(dual::values(u), h.len(), d),
            dual::rates(h),
            h.len(),
        ),
{
    derivative::lemma_affine_adjoint(b, w, x, d);
    derivative::lemma_affine_adjoint(dense::affine(b, w, x), u, h, d);
}

/// The blend of old memory and candidate, from the side of a gradient.
proof fn lemma_blend_adjoint(
    n: nat,
    z: Seq<Dual<Real>>,
    h: Seq<Dual<Real>>,
    c: Seq<Dual<Real>>,
    d: Seq<Real>,
)
    requires
        z.len() == n,
        h.len() == n,
        c.len() == n,
        d.len() == n,
    ensures
        dot(d, dual::rates(model::blended(n, z, h, c)), n) == dot(
            bptt::by_update(n, d, dual::values(c), dual::values(h)),
            dual::rates(z),
            n,
        ) + dot(pointwise::products(n, d, dual::values(z)), dual::rates(c), n) + dot(
            bptt::by_kept(n, d, dual::values(z)),
            dual::rates(h),
            n,
        ),
{
    let next = model::blended(n, z, h, c);
    let d_z = bptt::by_update(n, d, dual::values(c), dual::values(h));
    let d_c = pointwise::products(n, d, dual::values(z));
    let d_h = bptt::by_kept(n, d, dual::values(z));
    let rate = dual::rates(next);
    assert forall|i: int| #![trigger d[i]] 0 <= i < n implies reals::product(
        d[i].val(),
        rate[i].val(),
    ) == reals::product(d_z[i].val(), dual::rates(z)[i].val()) + reals::product(
        d_c[i].val(),
        dual::rates(c)[i].val(),
    ) + reals::product(d_h[i].val(), dual::rates(h)[i].val()) by {
        lemma_blend_slot(
            d[i].val(),
            z[i].re.val(),
            z[i].du.val(),
            h[i].re.val(),
            h[i].du.val(),
            c[i].re.val(),
            c[i].du.val(),
        );
    }
    lemma_dot_three(d, rate, d_z, dual::rates(z), d_c, dual::rates(c), d_h, dual::rates(h), n);
}

/// One slot of the blend.
proof fn lemma_blend_slot(d: real, z: real, zr: real, h: real, hr: real, c: real, cr: real)
    ensures
        reals::product(
            d,
            (reals::product(1real - z, hr) + reals::product(0real - zr, h)) + (reals::product(
                z,
                cr,
            ) + reals::product(zr, c)),
        ) == reals::product(reals::product(d, c - h), zr) + reals::product(
            reals::product(d, z),
            cr,
        ) + reals::product(reals::product(d, 1real - z), hr),
{
    let kept = reals::product(1real - z, hr);
    let shed = reals::product(0real - zr, h);
    let taken = reals::product(z, cr);
    let shifted = reals::product(zr, c);
    reals::lemma_product(d, kept + shed, taken + shifted);
    reals::lemma_product(d, kept, shed);
    reals::lemma_product(d, taken, shifted);
    reals::lemma_product(d, 1real - z, hr);
    reals::lemma_product(d, z, cr);
    // shed + shifted = (c - h) * zr
    reals::lemma_product(h, 0real, zr);
    reals::lemma_product(0real - zr, h, h);
    reals::lemma_product(zr, c, h);
    reals::lemma_product(zr, h, h);
    reals::lemma_product(c - h, zr, zr);
    reals::lemma_product(zr, c - h, zr);
    assert(shed + shifted == reals::product(c - h, zr));
    reals::lemma_product(d, shed, shifted);
    reals::lemma_product(d, c - h, zr);
}

/// Products of two lists, from the side of a gradient.
proof fn lemma_products_adjoint(n: nat, a: Seq<Dual<Real>>, b: Seq<Dual<Real>>, d: Seq<Real>)
    requires
        a.len() == n,
        b.len() == n,
        d.len() == n,
    ensures
        dot(d, dual::rates(pointwise::products(n, a, b)), n) == dot(
            pointwise::products(n, d, dual::values(b)),
            dual::rates(a),
            n,
        ) + dot(pointwise::products(n, d, dual::values(a)), dual::rates(b), n),
{
    let both = pointwise::products(n, a, b);
    let d_a = pointwise::products(n, d, dual::values(b));
    let d_b = pointwise::products(n, d, dual::values(a));
    let rate = dual::rates(both);
    assert forall|i: int| #![trigger d[i]] 0 <= i < n implies reals::product(
        d[i].val(),
        rate[i].val(),
    ) == reals::product(d_a[i].val(), dual::rates(a)[i].val()) + reals::product(
        d_b[i].val(),
        dual::rates(b)[i].val(),
    ) by {
        let dv = d[i].val();
        let av = a[i].re.val();
        let ar = a[i].du.val();
        let bv = b[i].re.val();
        let br = b[i].du.val();
        reals::lemma_product(dv, reals::product(av, br), reals::product(ar, bv));
        reals::lemma_product(dv, av, br);
        reals::lemma_product(ar, bv, bv);
        reals::lemma_product(dv, bv, ar);
    }
    derivative::lemma_dot_two(d, rate, d_a, dual::rates(a), d_b, dual::rates(b), n);
}

/// The values of a gate's activation.
proof fn lemma_gate_values<S: Number>(
    b: Seq<Dual<S>>,
    w: Seq<Dual<S>>,
    u: Seq<Dual<S>>,
    x: Seq<Dual<S>>,
    h: Seq<Dual<S>>,
)
    requires
        x.len() * b.len() <= w.len(),
        h.len() * b.len() <= u.len(),
    ensures
        dual::values(dense::affine(dense::affine(b, w, x), u, h)) == dense::affine(
            dense::affine(dual::values(b), dual::values(w), dual::values(x)),
            dual::values(u),
            dual::values(h),
        ),
{
    derivative::lemma_affine_values(b, w, x);
    derivative::lemma_affine_values(dense::affine(b, w, x), u, h);
}

/// The values of a blend of old memory and candidate.
proof fn lemma_blend_values<S: Number>(
    n: nat,
    z: Seq<Dual<S>>,
    h: Seq<Dual<S>>,
    c: Seq<Dual<S>>,
)
    requires
        z.len() == n,
        h.len() == n,
        c.len() == n,
    ensures
        dual::values(model::blended(n, z, h, c)) == model::blended(
            n,
            dual::values(z),
            dual::values(h),
            dual::values(c),
        ),
{
    assert(dual::values(model::blended(n, z, h, c)) =~= model::blended(
        n,
        dual::values(z),
        dual::values(h),
        dual::values(c),
    ));
}

/// The values of products.
proof fn lemma_products_values<S: Number>(n: nat, a: Seq<Dual<S>>, b: Seq<Dual<S>>)
    requires
        a.len() == n,
        b.len() == n,
    ensures
        dual::values(pointwise::products(n, a, b)) == pointwise::products(
            n,
            dual::values(a),
            dual::values(b),
        ),
{
    assert(dual::values(pointwise::products(n, a, b)) =~= pointwise::products(
        n,
        dual::values(a),
        dual::values(b),
    ));
}

/// A step of a moving model has the values of the step of its values.
pub proof fn lemma_step_values<S: Number>(p: Params<Dual<S>>, x: Seq<Dual<S>>, h: Seq<Dual<S>>)
    requires
        p.shaped(),
        x.len() == p.embed_dim,
        h.len() == p.hidden_dim,
    ensures
        step_values(p.step_on(x, h)) == values_of(p).step_on(dual::values(x), dual::values(h)),
{
    let n = p.hidden_dim as nat;
    let v = values_of(p);
    let xv = dual::values(x);
    let hv = dual::values(h);
    let az = p.update_activation(x, h);
    let ar = p.reset_activation(x, h);
    let z = pointwise::sigmoids_of(az);
    let r = pointwise::sigmoids_of(ar);
    let rh = pointwise::products(n, r, h);
    let ah = p.candidate_activation(x, rh);
    let c = pointwise::tanhs_of(ah);
    let next = model::blended(n, z, h, c);
    lemma_gate_values(p.b_z, p.w_z, p.u_z, x, h);
    lemma_gate_values(p.b_r, p.w_r, p.u_r, x, h);
    derivative::lemma_sigmoids_values(az);
    derivative::lemma_sigmoids_values(ar);
    lemma_products_values(n, r, h);
    lemma_gate_values(p.b_h, p.w_h, p.u_h, x, rh);
    derivative::lemma_tanhs_values(ah);
    lemma_blend_values(n, z, h, c);
    derivative::lemma_affine_values(p.b_out, p.w_out, next);
    entropy::lemma_softmax_values(p.logits(next));
    assert(dual::values(p.logits(next)) == v.logits(dual::values(next)));
}

/// What a step adds to the product of gradients and speeds.
pub open spec fn step_along(
    speed: Params<Real>,
    x: Seq<Real>,
    h: Seq<Real>,
    out: Step<Real>,
    b: Backward<Real>,
) -> real {
    let rh = pointwise::products(speed.hidden_dim as nat, out.r, h);
    dot(derivative::outer_of(x, b.d_az), speed.w_z, speed.w_z.len()) + dot(
        derivative::outer_of(x, b.d_ar),
        speed.w_r,
        speed.w_r.len(),
    ) + dot(derivative::outer_of(x, b.d_ah), speed.w_h, speed.w_h.len()) + dot(
        derivative::outer_of(h, b.d_az),
        speed.u_z,
        speed.u_z.len(),
    ) + dot(derivative::outer_of(h, b.d_ar), speed.u_r, speed.u_r.len()) + dot(
        derivative::outer_of(rh, b.d_ah),
        speed.u_h,
        speed.u_h.len(),
    ) + dot(b.d_az, speed.b_z, speed.b_z.len()) + dot(b.d_ar, speed.b_r, speed.b_r.len()) + dot(
        b.d_ah,
        speed.b_h,
        speed.b_h.len(),
    ) + dot(derivative::outer_of(out.h, b.d_logits), speed.w_out, speed.w_out.len()) + dot(
        b.d_logits,
        speed.b_out,
        speed.b_out.len(),
    )
}

/// What a step adds to the cross-entropy: `-ln(p)` for the probability `p`
/// that it gives its target.
pub open spec fn entropy_of<S: Number>(out: Step<S>, target: int) -> S {
    out.probs[target].ln_of().opposite()
}

/// One step, from the side of its gradients: the rate of its cross-entropy,
/// and that of its new hidden state multiplied with what the steps after it
/// ask, come from the weights, the input and the hidden state before it.
pub proof fn lemma_step_adjoint(
    p: Params<Dual<Real>>,
    x: Seq<Dual<Real>>,
    h: Seq<Dual<Real>>,
    target: int,
    d_h_next: Seq<Real>,
)
    requires
        p.shaped(),
        x.len() == p.embed_dim,
        h.len() == p.hidden_dim,
        d_h_next.len() == p.hidden_dim,
        0 <= target < p.vocab_size,
    ensures
        ({
            let out = p.step_on(x, h);
            let b = values_of(p).backward(dual::values(h), step_values(out), target, d_h_next);
            &&& entropy_of(out, target).du.val() + dot(
                d_h_next,
                dual::rates(out.h),
                p.hidden_dim as nat,
            ) == step_along(
                speeds_of(p),
                dual::values(x),
                dual::values(h),
                step_values(out),
                b,
            ) + dot(b.d_x, dual::rates(x), p.embed_dim as nat) + dot(
                b.d_h_prev,
                dual::rates(h),
                p.hidden_dim as nat,
            )
            &&& b.d_logits.len() == p.vocab_size
            &&& b.d_ah.len() == p.hidden_dim
            &&& b.d_ar.len() == p.hidden_dim
            &&& b.d_az.len() == p.hidden_dim
            &&& b.d_x.len() == p.embed_dim
            &&& b.d_h_prev.len() == p.hidden_dim
        }),
{
    let n = p.hidden_dim as nat;
    let e = p.embed_dim as nat;
    let v = values_of(p);
    let xv = dual::values(x);
    let hv = dual::values(h);
    let xr = dual::rates(x);
    let hr = dual::rates(h);
    let az = p.update_activation(x, h);
    let ar = p.reset_activation(x, h);
    let z = pointwise::sigmoids_of(az);
    let r = pointwise::sigmoids_of(ar);
    let rh = pointwise::products(n, r, h);
    let ah = p.candidate_activation(x, rh);
    let c = pointwise::tanhs_of(ah);
    let next = model::blended(n, z, h, c);
    let logits = p.logits(next);
    let out = p.step_on(x, h);
    let zv = dual::values(z);
    let rv = dual::values(r);
    let cv = dual::values(c);
    let nv = dual::values(next);
    lemma_step_values(p, x, h);
    let b = v.backward(hv, step_values(out), target, d_h_next);

    // The output layer.
    entropy::lemma_softmax_values(logits);
    entropy::lemma_entropy_adjoint(logits, target);
    let d_logits = pointwise::less_target(dual::values(out.probs), target);
    assert(b.d_logits == d_logits);
    derivative::lemma_affine_adjoint(p.b_out, p.w_out, next, d_logits);
    let asked = dense::transposed(scalar::noughts(n), v.w_out, d_logits);
    let d_h = dense::added(asked, d_h_next);
    lemma_dot_transposed_noughts(n, v.w_out, d_logits, dual::rates(next));
    lemma_dot_added(asked, d_h_next, dual::rates(next));

    // The blend.
    lemma_blend_adjoint(n, z, h, c, d_h);
    let d_z = bptt::by_update(n, d_h, cv, hv);
    let d_c = pointwise::products(n, d_h, zv);
    let d_h_kept = bptt::by_kept(n, d_h, zv);

    // The candidate.
    derivative::lemma_tanhs_values(ah);
    derivative::lemma_tanhs_adjoint(ah, d_c);
    let d_ah = pointwise::through_tanh(d_c, cv);
    lemma_gate_adjoint(p.b_h, p.w_h, p.u_h, x, rh, d_ah);
    let d_rh = dense::transposed(scalar::noughts(n), v.u_h, d_ah);
    lemma_dot_transposed_noughts(n, v.u_h, d_ah, dual::rates(rh));
    lemma_products_adjoint(n, r, h, d_rh);
    let d_r = pointwise::products(n, d_rh, hv);
    let d_reset = pointwise::products(n, d_rh, rv);
    let d_h_reset = dense::added(d_h_kept, d_reset);
    lemma_dot_added(d_h_kept, d_reset, hr);

    // The gates.
    derivative::lemma_sigmoids_values(ar);
    derivative::lemma_sigmoids_adjoint(ar, d_r);
    let d_ar = pointwise::through_sigmoid(d_r, rv);
    lemma_gate_adjoint(p.b_r, p.w_r, p.u_r, x, h, d_ar);
    derivative::lemma_sigmoids_values(az);
    derivative::lemma_sigmoids_adjoint(az, d_z);
    let d_az = pointwise::through_sigmoid(d_z, zv);
    lemma_gate_adjoint(p.b_z, p.w_z, p.u_z, x, h, d_az);
    assert(b.d_ah == d_ah && b.d_ar == d_ar && b.d_az == d_az);

    // What reaches the input and the hidden state before.
    let d_x1 = dense::transposed(scalar::noughts(e), v.w_h, d_ah);
    let d_x2 = dense::transposed(d_x1, v.w_r, d_ar);
    lemma_dot_transposed_noughts(e, v.w_h, d_ah, xr);
    lemma_dot_transposed(d_x1, v.w_r, d_ar, xr);
    lemma_dot_transposed(d_x2, v.w_z, d_az, xr);
    let d_h1 = dense::transposed(d_h_reset, v.u_r, d_ar);
    lemma_dot_transposed(d_h_reset, v.u_r, d_ar, hr);
    lemma_dot_transposed(d_h1, v.u_z, d_az, hr);
    assert(b.d_x == dense::transposed(d_x2, v.w_z, d_az));
    assert(b.d_h_prev == dense::transposed(d_h1, v.u_z, d_az));
    let speed = speeds_of(p);
    let rhv = dual::values(rh);
    let nr = dual::rates(next);
    // What each part comes from.
    assert(entropy_of(out, target).du.val() == dot(
        d_logits,
        dual::rates(logits),
        p.vocab_size as nat,
    ));
    assert(dot(d_logits, dual::rates(logits), p.vocab_size as nat) == dot(
        d_logits,
        speed.b_out,
        speed.b_out.len(),
    ) + dot(derivative::outer_of(nv, d_logits), speed.w_out, speed.w_out.len()) + dot(
        asked,
        nr,
        n,
    ));
    assert(dot(d_h, nr, n) == dot(asked, nr, n) + dot(d_h_next, nr, n));
    assert(dot(d_h, nr, n) == dot(d_az, dual::rates(az), n) + dot(d_ah, dual::rates(ah), n) + dot(
        d_h_kept,
        hr,
        n,
    ));
    assert(dot(d_rh, dual::rates(rh), n) == dot(d_ar, dual::rates(ar), n) + dot(d_reset, hr, n));
    assert(dot(d_ah, dual::rates(ah), n) == dot(d_ah, speed.b_h, speed.b_h.len()) + dot(
        derivative::outer_of(xv, d_ah),
        speed.w_h,
        speed.w_h.len(),
    ) + dot(d_x1, xr, e) + dot(
        derivative::outer_of(rhv, d_ah),
        speed.u_h,
        speed.u_h.len(),
    ) + dot(d_rh, dual::rates(rh), n));
    assert(rhv == pointwise::products(n, rv, hv)) by {
        lemma_products_values(n, r, h);
    }
}

/// Gradients with a step added to them, multiplied with the speeds.
proof fn lemma_with_step(
    p: Params<Dual<Real>>,
    tok: int,
    h: Seq<Real>,
    out: Step<Real>,
    b: Backward<Real>,
    g: Gradients<Real>,
)
    requires
        p.shaped(),
        0 <= tok,
        p.embeds(tok),
        g.matches(values_of(p)),
        h.len() == p.hidden_dim,
        out.h.len() == p.hidden_dim,
        b.d_logits.len() == p.vocab_size,
        b.d_ah.len() == p.hidden_dim,
        b.d_ar.len() == p.hidden_dim,
        b.d_az.len() == p.hidden_dim,
        b.d_x.len() == p.embed_dim,
    ensures
        along(g.with_step(values_of(p), tok, h, out, b), speeds_of(p)) == along(g, speeds_of(p))
            + step_along(speeds_of(p), values_of(p).input(tok), h, out, b) + dot(
            b.d_x,
            dual::rates(p.input(tok)),
            p.embed_dim as nat,
        ),
        g.with_step(values_of(p), tok, h, out, b).matches(values_of(p)),
{
    let v = values_of(p);
    let speed = speeds_of(p);
    let w = p.embed_dim as nat;
    assert(tok * w >= 0) by (nonlinear_arith)
        requires
            tok >= 0,
            w >= 0,
    ;
    let x = v.input(tok);
    let rh = pointwise::products(p.hidden_dim as nat, out.r, h);
    lemma_dot_row_added(g.d_embedding, w, tok, b.d_x, speed.embedding, g.d_embedding.len());
    assert(dense::row(speed.embedding, w as int, tok) =~= dual::rates(p.input(tok)));
    if g.d_embedding.len() <= tok * w {
        assert(w == 0);
    }
    lemma_dot_outer(g.d_w_z, x, b.d_az, speed.w_z);
    lemma_dot_outer(g.d_w_r, x, b.d_ar, speed.w_r);
    lemma_dot_outer(g.d_w_h, x, b.d_ah, speed.w_h);
    lemma_dot_outer(g.d_u_z, h, b.d_az, speed.u_z);
    lemma_dot_outer(g.d_u_r, h, b.d_ar, speed.u_r);
    lemma_dot_outer(g.d_u_h, rh, b.d_ah, speed.u_h);
    lemma_dot_added(g.d_b_z, b.d_az, speed.b_z);
    lemma_dot_added(g.d_b_r, b.d_ar, speed.b_r);
    lemma_dot_added(g.d_b_h, b.d_ah, speed.b_h);
    lemma_dot_outer(g.d_w_out, out.h, b.d_logits, speed.w_out);
    lemma_dot_added(g.d_b_out, b.d_logits, speed.b_out);
}

/// The cross-entropy of the first `t` steps of a chunk, added to a sum.
pub open spec fn entropy_after<S: Number>(p: Params<S>, seq: Seq<usize>, t: nat, sum: S) -> S
    decreases t,
{
    if t == 0 {
        sum
    } else {
        entropy_after(p, seq, (t - 1) as nat, sum).plus(
            entropy_of(p.step_at(seq, (t - 1) as nat), seq[t as int] as int),
        )
    }
}

/// The cross-entropy of the first `n` of the chunks that begin at `starts`.
pub open spec fn entropy_over<S: Number>(
    p: Params<S>,
    starts: Seq<usize>,
    ids: Seq<usize>,
    seq_len: nat,
    n: nat,
) -> S
    decreases n,
{
    if n == 0 {
        S::nought()
    } else {
        entropy_after(
            p,
            bptt::chunk(ids, starts[n - 1] as int, seq_len),
            seq_len,
            entropy_over(p, starts, ids, seq_len, (n - 1) as nat),
        )
    }
}

/// The embedding of a token of a moving model.
proof fn lemma_input_values<S>(p: Params<Dual<S>>, tok: int)
    requires
        0 <= tok,
        p.embeds(tok),
    ensures
        dual::values(p.input(tok)) == values_of(p).input(tok),
        p.input(tok).len() == p.embed_dim,
{
    let w = p.embed_dim as int;
    assert(tok * w >= 0) by (nonlinear_arith)
        requires
            tok >= 0,
            w >= 0,
    ;
    assert(dual::values(p.input(tok)) =~= values_of(p).input(tok));
}

/// The hidden states of a moving model have the values of those of its
/// values.
proof fn lemma_state_values<S: Number>(p: Params<Dual<S>>, seq: Seq<usize>, t: nat)
    requires
        p.shaped(),
        p.trains_on(seq),
        t < seq.len(),
    ensures
        dual::values(p.state_before(seq, t)) == values_of(p).state_before(seq, t),
        p.state_before(seq, t).len() == p.hidden_dim,
    decreases t,
{
    if t == 0 {
        assert(dual::values(p.state_before(seq, 0)) =~= values_of(p).state_before(seq, 0));
    } else {
        let s = (t - 1) as nat;
        lemma_state_values(p, seq, s);
        assert(p.embeds(seq[s as int] as int));
        lemma_input_values(p, seq[s as int] as int);
        lemma_step_values(p, p.input(seq[s as int] as int), p.state_before(seq, s));
        assert(dual::values(p.state_before(seq, t)) == step_values(p.step_at(seq, s)).h);
    }
}

/// The last `t` steps of going back through a chunk: what they add to the
/// product of gradients and speeds is the rate of the cross-entropy of these
/// steps and of what is asked of the hidden state behind them.
proof fn lemma_unrolled(
    p: Params<Dual<Real>>,
    seq: Seq<usize>,
    t: nat,
    d_h_next: Seq<Real>,
    g: Gradients<Real>,
    sum: Dual<Real>,
)
    requires
        p.shaped(),
        p.trains_on(seq),
        t < seq.len(),
        d_h_next.len() == p.hidden_dim,
        g.matches(values_of(p)),
    ensures
        along(values_of(p).unrolled(seq, t, d_h_next, g), speeds_of(p)) == along(g, speeds_of(p))
            + entropy_after(p, seq, t, sum).du.val() - sum.du.val() + dot(
            d_h_next,
            dual::rates(p.state_before(seq, t)),
            p.hidden_dim as nat,
        ),
        values_of(p).unrolled(seq, t, d_h_next, g).matches(values_of(p)),
    decreases t,
{
    let v = values_of(p);
    let n = p.hidden_dim as nat;
    if t == 0 {
        let start = dual::rates(p.state_before(seq, 0));
        assert forall|i: int| 0 <= i < n implies (#[trigger] start[i]).val() == 0real by {}
        derivative::lemma_dot_noughts(d_h_next, start, n);
    } else {
        let s = (t - 1) as nat;
        let tok = seq[s as int] as int;
        let target = seq[t as int] as int;
        assert(p.embeds(tok));
        assert(seq[t as int] < p.vocab_size);
        let h = p.state_before(seq, s);
        let x = p.input(tok);
        let out = p.step_at(seq, s);
        lemma_input_values(p, tok);
        lemma_state_values(p, seq, s);
        lemma_step_values(p, x, h);
        assert(step_values(out) == v.step_at(seq, s));
        lemma_step_adjoint(p, x, h, target, d_h_next);
        let b = v.backward_at(seq, s, d_h_next);
        let grown = g.with_step(v, tok, v.state_before(seq, s), v.step_at(seq, s), b);
        lemma_with_step(p, tok, v.state_before(seq, s), v.step_at(seq, s), b, g);
        lemma_unrolled(p, seq, s, b.d_h_prev, grown, sum);
    }
}

/// Gradients with a chunk added to them grow, along the speeds, by the rate
/// of the chunk's cross-entropy.
proof fn lemma_with_chunk(
    p: Params<Dual<Real>>,
    seq: Seq<usize>,
    seq_len: nat,
    g: Gradients<Real>,
    sum: Dual<Real>,
)
    requires
        p.shaped(),
        p.trains_on(seq),
        seq.len() == seq_len + 1,
        g.matches(values_of(p)),
    ensures
        along(values_of(p).with_chunk(seq, seq_len, g), speeds_of(p)) == along(g, speeds_of(p))
            + entropy_after(p, seq, seq_len, sum).du.val() - sum.du.val(),
        values_of(p).with_chunk(seq, seq_len, g).matches(values_of(p)),
{
    let v = values_of(p);
    let n = p.hidden_dim as nat;
    let last = scalar::noughts::<Real>(n);
    let begun = Gradients { loss: v.loss_after(seq, seq_len, g.loss), ..g };
    assert(along(begun, speeds_of(p)) == along(g, speeds_of(p)));
    lemma_unrolled(p, seq, seq_len, last, begun, sum);
    derivative::lemma_noughts_dot(last, dual::rates(p.state_before(seq, seq_len)), n);
}

/// Backpropagation through time computes the derivative: if the weights of a
/// model move at any speeds, the cross-entropy of the given chunks changes at
/// the rate that the accumulated gradients, multiplied with the speeds, add
/// up to.
///
/// The loss that is reported beside the gradients is this cross-entropy but
/// for the `1e-9` that is added to each probability to keep its logarithm
/// finite.
pub proof fn law_gradients_are_derivatives(
    p: Params<Dual<Real>>,
    starts: Seq<usize>,
    ids: Seq<usize>,
    seq_len: nat,
    n: nat,
)
    requires
        p.shaped(),
        n <= starts.len(),
        forall|i: int|
            0 <= i < starts.len() ==> (#[trigger] starts[i]) + seq_len + 1 <= ids.len(),
        forall|i: int|
            0 <= i < starts.len() ==> p.trains_on(
                bptt::chunk(ids, #[trigger] starts[i] as int, seq_len),
            ),
    ensures
        entropy_over(p, starts, ids, seq_len, n).du.val() == along(
            values_of(p).gradients(starts, ids, seq_len, n),
            speeds_of(p),
        ),
        values_of(p).gradients(starts, ids, seq_len, n).matches(values_of(p)),
    decreases n,
{
    let v = values_of(p);
    let speed = speeds_of(p);
    if n == 0 {
        let g = v.gradients(starts, ids, seq_len, 0);
        derivative::lemma_noughts_dot(g.d_embedding, speed.embedding, g.d_embedding.len());
        derivative::lemma_noughts_dot(g.d_w_z, speed.w_z, g.d_w_z.len());
        derivative::lemma_noughts_dot(g.d_w_r, speed.w_r, g.d_w_r.len());
        derivative::lemma_noughts_dot(g.d_w_h, speed.w_h, g.d_w_h.len());
        derivative::lemma_noughts_dot(g.d_u_z, speed.u_z, g.d_u_z.len());
        derivative::lemma_noughts_dot(g.d_u_r, speed.u_r, g.d_u_r.len());
        derivative::lemma_noughts_dot(g.d_u_h, speed.u_h, g.d_u_h.len());
        derivative::lemma_noughts_dot(g.d_b_z, speed.b_z, g.d_b_z.len());
        derivative::lemma_noughts_dot(g.d_b_r, speed.b_r, g.d_b_r.len());
        derivative::lemma_noughts_dot(g.d_b_h, speed.b_h, g.d_b_h.len());
        derivative::lemma_noughts_dot(g.d_w_out, speed.w_out, g.d_w_out.len());
        derivative::lemma_noughts_dot(g.d_b_out, speed.b_out, g.d_b_out.len());
    } else {
        let m = (n - 1) as nat;
        law_gradients_are_derivatives(p, starts, ids, seq_len, m);
        let seq = bptt::chunk(ids, starts[m as int] as int, seq_len);
        lemma_with_chunk(
            p,
            seq,
            seq_len,
            v.gradients(starts, ids, seq_len, m),
            entropy_over(p, starts, ids, seq_len, m),
        );
    }
}

} // verus!
