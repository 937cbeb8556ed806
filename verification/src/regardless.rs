//! The gradients over real numbers in their order. Nothing that training
//! computes depends on which numbers are greater, but for the softmax, where it
//! cancels out: the gradients are those over numbers without an order, and
//! derivatives as they are.

use crate::bptt;
use crate::bptt::{Backward, Gradients};
use crate::dense;
use crate::gradient;
use crate::limits;
use crate::model;
use crate::model::{Params, Step};
use crate::ordered;
use crate::ordered::{reals_of, Ordered};
use crate::pointwise;
use crate::reals;
use crate::reals::Real;
use crate::scalar;
use crate::scalar::Number;
use crate::slopes;
use crate::window_gradient;
use crate::windowed;
use vstd::prelude::*;

verus! {

/// A recurrent model without the order of its weights.
pub open spec fn plain(p: Params<Ordered>) -> Params<Real> {
    Params {
        vocab_size: p.vocab_size,
        embed_dim: p.embed_dim,
        hidden_dim: p.hidden_dim,
        embedding: reals_of(p.embedding),
        w_z: reals_of(p.w_z),
        w_r: reals_of(p.w_r),
        w_h: reals_of(p.w_h),
        u_z: reals_of(p.u_z),
        u_r: reals_of(p.u_r),
        u_h: reals_of(p.u_h),
        b_z: reals_of(p.b_z),
        b_r: reals_of(p.b_r),
        b_h: reals_of(p.b_h),
        w_out: reals_of(p.w_out),
        b_out: reals_of(p.b_out),
    }
}

/// Gradients without the order of their entries.
pub open spec fn plain_gradients(g: Gradients<Ordered>) -> Gradients<Real> {
    Gradients {
        d_embedding: reals_of(g.d_embedding),
        d_w_z: reals_of(g.d_w_z),
        d_w_r: reals_of(g.d_w_r),
        d_w_h: reals_of(g.d_w_h),
        d_u_z: reals_of(g.d_u_z),
        d_u_r: reals_of(g.d_u_r),
        d_u_h: reals_of(g.d_u_h),
        d_b_z: reals_of(g.d_b_z),
        d_b_r: reals_of(g.d_b_r),
        d_b_h: reals_of(g.d_b_h),
        d_w_out: reals_of(g.d_w_out),
        d_b_out: reals_of(g.d_b_out),
        loss: g.loss.real,
    }
}

spec fn plain_step(out: Step<Ordered>) -> Step<Real> {
    Step {
        z: reals_of(out.z),
        r: reals_of(out.r),
        hcand: reals_of(out.hcand),
        h: reals_of(out.h),
        probs: reals_of(out.probs),
    }
}

spec fn plain_backward(b: Backward<Ordered>) -> Backward<Real> {
    Backward {
        d_logits: reals_of(b.d_logits),
        d_ah: reals_of(b.d_ah),
        d_ar: reals_of(b.d_ar),
        d_az: reals_of(b.d_az),
        d_x: reals_of(b.d_x),
        d_h_prev: reals_of(b.d_h_prev),
    }
}

proof fn lemma_column(start: Ordered, mat: Seq<Ordered>, width: int, x: Seq<Ordered>, h: int, k: nat)
    requires
        0 <= h < width,
        k <= x.len(),
        x.len() * width <= mat.len(),
    ensures
        dense::column(start, mat, width, x, h, k).real == dense::column(
            start.real,
            reals_of(mat),
            width,
            reals_of(x),
            h,
            k,
        ),
    decreases k,
{
    if k > 0 {
        lemma_column(start, mat, width, x, h, (k - 1) as nat);
        dense::lemma_cell(k - 1, h, x.len() as int, width);
    }
}

proof fn lemma_affine(start: Seq<Ordered>, mat: Seq<Ordered>, x: Seq<Ordered>)
    requires
        x.len() * start.len() <= mat.len(),
    ensures
        reals_of(dense::affine(start, mat, x)) == dense::affine(
            reals_of(start),
            reals_of(mat),
            reals_of(x),
        ),
{
    let a = reals_of(dense::affine(start, mat, x));
    let b = dense::affine(reals_of(start), reals_of(mat), reals_of(x));
    assert forall|h: int| 0 <= h < start.len() implies a[h] == #[trigger] b[h] by {
        lemma_column(start[h], mat, start.len() as int, x, h, x.len());
    }
    assert(a =~= b);
}

proof fn lemma_row_sum(mat: Seq<Ordered>, rows: int, k: int, d: Seq<Ordered>, n: nat)
    requires
        0 <= k < rows,
        n <= d.len(),
        rows * d.len() <= mat.len(),
    ensures
        dense::row_sum(mat, d.len() as int, k, d, n).real == dense::row_sum(
            reals_of(mat),
            d.len() as int,
            k,
            reals_of(d),
            n,
        ),
    decreases n,
{
    if n > 0 {
        lemma_row_sum(mat, rows, k, d, (n - 1) as nat);
        dense::lemma_cell(k, n - 1, rows, d.len() as int);
    }
}

proof fn lemma_transposed(start: Seq<Ordered>, mat: Seq<Ordered>, d: Seq<Ordered>)
    requires
        start.len() * d.len() <= mat.len(),
    ensures
        reals_of(dense::transposed(start, mat, d)) == dense::transposed(
            reals_of(start),
            reals_of(mat),
            reals_of(d),
        ),
{
    let a = reals_of(dense::transposed(start, mat, d));
    let b = dense::transposed(reals_of(start), reals_of(mat), reals_of(d));
    assert forall|k: int| 0 <= k < start.len() implies a[k] == #[trigger] b[k] by {
        lemma_row_sum(mat, start.len() as int, k, d, d.len());
    }
    assert(a =~= b);
}

proof fn lemma_row_sums(mat: Seq<Ordered>, rows: nat, d: Seq<Ordered>)
    requires
        rows * d.len() <= mat.len(),
    ensures
        reals_of(dense::row_sums(mat, rows, d)) == dense::row_sums(
            reals_of(mat),
            rows,
            reals_of(d),
        ),
{
    let a = reals_of(dense::row_sums(mat, rows, d));
    let b = dense::row_sums(reals_of(mat), rows, reals_of(d));
    assert forall|k: int| 0 <= k < rows implies a[k] == #[trigger] b[k] by {
        lemma_row_sum(mat, rows as int, k, d, d.len());
    }
    assert(a =~= b);
}

proof fn lemma_outer(start: Seq<Ordered>, x: Seq<Ordered>, d: Seq<Ordered>)
    ensures
        reals_of(dense::outer(start, x, d)) == dense::outer(
            reals_of(start),
            reals_of(x),
            reals_of(d),
        ),
{
    let a = reals_of(dense::outer(start, x, d));
    let b = dense::outer(reals_of(start), reals_of(x), reals_of(d));
    let w = d.len() as int;
    assert forall|i: int| 0 <= i < start.len() implies a[i] == #[trigger] b[i] by {
        if i < x.len() * d.len() {
            assert(w > 0) by (nonlinear_arith)
                requires
                    0 <= i < x.len() * d.len(),
                    w == d.len(),
            ;
            vstd::arithmetic::div_mod::lemma_fundamental_div_mod(i, w);
            assert(0 <= i / w < x.len()) by (nonlinear_arith)
                requires
                    0 <= i < x.len() * w,
                    w > 0,
                    i == w * (i / w) + i % w,
                    0 <= i % w < w,
            ;
        }
    }
    assert(a =~= b);
}

proof fn lemma_added(a: Seq<Ordered>, b: Seq<Ordered>)
    ensures
        reals_of(dense::added(a, b)) == dense::added(reals_of(a), reals_of(b)),
{
    assert(reals_of(dense::added(a, b)) =~= dense::added(reals_of(a), reals_of(b)));
}

proof fn lemma_row_added(table: Seq<Ordered>, width: nat, k: int, d: Seq<Ordered>)
    requires
        width <= d.len(),
    ensures
        reals_of(dense::row_added(table, width as int, k, d)) == dense::row_added(
            reals_of(table),
            width as int,
            k,
            reals_of(d),
        ),
{
    assert(reals_of(dense::row_added(table, width as int, k, d)) =~= dense::row_added(
        reals_of(table),
        width as int,
        k,
        reals_of(d),
    ));
}

proof fn lemma_row(table: Seq<Ordered>, width: nat, k: int)
    requires
        0 <= k * width,
        k * width + width <= table.len(),
    ensures
        reals_of(dense::row(table, width as int, k)) == dense::row(
            reals_of(table),
            width as int,
            k,
        ),
{
    assert(reals_of(dense::row(table, width as int, k)) =~= dense::row(
        reals_of(table),
        width as int,
        k,
    ));
}

proof fn lemma_lists(n: nat, a: Seq<Ordered>, b: Seq<Ordered>, c: Seq<Ordered>)
    requires
        a.len() == n,
        b.len() == n,
        c.len() == n,
    ensures
        reals_of(pointwise::sigmoids_of(a)) == pointwise::sigmoids_of(reals_of(a)),
        reals_of(pointwise::tanhs_of(a)) == pointwise::tanhs_of(reals_of(a)),
        reals_of(pointwise::products(n, a, b)) == pointwise::products(
            n,
            reals_of(a),
            reals_of(b),
        ),
        reals_of(pointwise::through_sigmoid(a, b)) == pointwise::through_sigmoid(
            reals_of(a),
            reals_of(b),
        ),
        reals_of(pointwise::through_tanh(a, b)) == pointwise::through_tanh(
            reals_of(a),
            reals_of(b),
        ),
        reals_of(model::blended(n, a, b, c)) == model::blended(
            n,
            reals_of(a),
            reals_of(b),
            reals_of(c),
        ),
        reals_of(bptt::by_update(n, a, b, c)) == bptt::by_update(
            n,
            reals_of(a),
            reals_of(b),
            reals_of(c),
        ),
        reals_of(bptt::by_kept(n, a, b)) == bptt::by_kept(n, reals_of(a), reals_of(b)),
        reals_of(scalar::noughts::<Ordered>(n)) == scalar::noughts::<Real>(n),
{
    assert(reals_of(pointwise::sigmoids_of(a)) =~= pointwise::sigmoids_of(reals_of(a)));
    assert(reals_of(pointwise::tanhs_of(a)) =~= pointwise::tanhs_of(reals_of(a)));
    assert(reals_of(pointwise::products(n, a, b)) =~= pointwise::products(
        n,
        reals_of(a),
        reals_of(b),
    ));
    assert(reals_of(pointwise::through_sigmoid(a, b)) =~= pointwise::through_sigmoid(
        reals_of(a),
        reals_of(b),
    ));
    assert(reals_of(pointwise::through_tanh(a, b)) =~= pointwise::through_tanh(
        reals_of(a),
        reals_of(b),
    ));
    assert(reals_of(model::blended(n, a, b, c)) =~= model::blended(
        n,
        reals_of(a),
        reals_of(b),
        reals_of(c),
    ));
    assert(reals_of(bptt::by_update(n, a, b, c)) =~= bptt::by_update(
        n,
        reals_of(a),
        reals_of(b),
        reals_of(c),
    ));
    assert(reals_of(bptt::by_kept(n, a, b)) =~= bptt::by_kept(n, reals_of(a), reals_of(b)));
    lemma_zeros(n);
}

proof fn lemma_zeros(n: nat)
    ensures
        reals_of(scalar::noughts::<Ordered>(n)) == scalar::noughts::<Real>(n),
{
    assert(reals_of(scalar::noughts::<Ordered>(n)) =~= scalar::noughts::<Real>(n));
}

proof fn lemma_less_target(probs: Seq<Ordered>, target: int)
    requires
        0 <= target < probs.len(),
    ensures
        reals_of(pointwise::less_target(probs, target)) == pointwise::less_target(
            reals_of(probs),
            target,
        ),
{
    assert(reals_of(pointwise::less_target(probs, target)) =~= pointwise::less_target(
        reals_of(probs),
        target,
    ));
}

proof fn lemma_softmax(logits: Seq<Ordered>)
    ensures
        reals_of(pointwise::softmax_of(logits)) == pointwise::softmax_of(reals_of(logits)),
{
    if logits.len() > 0 {
        ordered::lemma_softmax(logits);
    } else {
        assert(reals_of(pointwise::softmax_of(logits)) =~= pointwise::softmax_of(
            reals_of(logits),
        ));
    }
}

proof fn lemma_activation(
    b: Seq<Ordered>,
    w: Seq<Ordered>,
    u: Seq<Ordered>,
    x: Seq<Ordered>,
    h: Seq<Ordered>,
)
    requires
        x.len() * b.len() <= w.len(),
        h.len() * b.len() <= u.len(),
    ensures
        reals_of(dense::affine(dense::affine(b, w, x), u, h)) == dense::affine(
            dense::affine(reals_of(b), reals_of(w), reals_of(x)),
            reals_of(u),
            reals_of(h),
        ),
{
    lemma_affine(b, w, x);
    lemma_affine(dense::affine(b, w, x), u, h);
}

proof fn lemma_step(p: Params<Ordered>, tok: int, h: Seq<Ordered>)
    requires
        p.shaped(),
        0 <= tok,
        p.embeds(tok),
        h.len() == p.hidden_dim,
    ensures
        plain_step(p.step(tok, h)) == plain(p).step(tok, reals_of(h)),
        plain(p).shaped(),
        plain(p).input(tok) == reals_of(p.input(tok)),
        p.input(tok).len() == p.embed_dim,
{
    let n = p.hidden_dim as nat;
    assert(0 <= tok * p.embed_dim) by (nonlinear_arith)
        requires
            0 <= tok,
            0 <= p.embed_dim,
    ;
    lemma_row(p.embedding, p.embed_dim as nat, tok);
    let x = p.input(tok);
    let out = p.step(tok, h);
    lemma_activation(p.b_z, p.w_z, p.u_z, x, h);
    lemma_activation(p.b_r, p.w_r, p.u_r, x, h);
    let az = p.update_activation(x, h);
    let ar = p.reset_activation(x, h);
    lemma_lists(n, az, az, az);
    lemma_lists(n, ar, ar, ar);
    lemma_lists(n, out.r, h, h);
    let rh = pointwise::products(n, out.r, h);
    lemma_activation(p.b_h, p.w_h, p.u_h, x, rh);
    let ah = p.candidate_activation(x, rh);
    lemma_lists(n, ah, ah, ah);
    lemma_lists(n, out.z, h, out.hcand);
    lemma_affine(p.b_out, p.w_out, out.h);
    lemma_softmax(p.logits(out.h));
    assert(plain_step(out) =~= plain(p).step(tok, reals_of(h)));
}

proof fn lemma_state(p: Params<Ordered>, seq: Seq<usize>, t: nat)
    requires
        p.shaped(),
        p.trains_on(seq),
        t < seq.len(),
    ensures
        reals_of(p.state_before(seq, t)) == plain(p).state_before(seq, t),
        t + 1 < seq.len() ==> plain_step(p.step_at(seq, t)) == plain(p).step_at(seq, t),
    decreases t,
{
    if t == 0 {
        lemma_zeros(p.hidden_dim as nat);
    } else {
        lemma_state(p, seq, (t - 1) as nat);
        assert(p.embeds(seq[t - 1] as int));
        lemma_step(p, seq[t - 1] as int, p.state_before(seq, (t - 1) as nat));
    }
    if t + 1 < seq.len() {
        assert(p.embeds(seq[t as int] as int));
        lemma_step(p, seq[t as int] as int, p.state_before(seq, t));
    }
}

proof fn lemma_backward(
    p: Params<Ordered>,
    h: Seq<Ordered>,
    out: Step<Ordered>,
    target: int,
    d_next: Seq<Ordered>,
)
    requires
        p.shaped(),
        h.len() == p.hidden_dim,
        out.z.len() == p.hidden_dim,
        out.r.len() == p.hidden_dim,
        out.hcand.len() == p.hidden_dim,
        out.probs.len() == p.vocab_size,
        0 <= target < p.vocab_size,
        d_next.len() == p.hidden_dim,
    ensures
        plain_backward(p.backward(h, out, target, d_next)) == plain(p).backward(
            reals_of(h),
            plain_step(out),
            target,
            reals_of(d_next),
        ),
        p.backward(h, out, target, d_next).d_x.len() == p.embed_dim,
        p.backward(h, out, target, d_next).d_h_prev.len() == p.hidden_dim,
{
    let n = p.hidden_dim as nat;
    let e = p.embed_dim as nat;
    let b = p.backward(h, out, target, d_next);
    let zeros = scalar::noughts::<Ordered>(n);
    let none = scalar::noughts::<Ordered>(e);
    lemma_zeros(n);
    lemma_zeros(e);
    lemma_less_target(out.probs, target);
    lemma_transposed(zeros, p.w_out, b.d_logits);
    let from_logits = dense::transposed(zeros, p.w_out, b.d_logits);
    lemma_added(from_logits, d_next);
    let d_h = dense::added(from_logits, d_next);
    lemma_lists(n, d_h, out.z, out.z);
    lemma_lists(n, d_h, out.hcand, h);
    let d_hcand = pointwise::products(n, d_h, out.z);
    let d_z = bptt::by_update(n, d_h, out.hcand, h);
    let kept = bptt::by_kept(n, d_h, out.z);
    lemma_lists(n, d_hcand, out.hcand, h);
    lemma_transposed(zeros, p.u_h, b.d_ah);
    let d_rh = dense::transposed(zeros, p.u_h, b.d_ah);
    lemma_lists(n, d_rh, h, h);
    lemma_lists(n, d_rh, out.r, h);
    let d_r = pointwise::products(n, d_rh, h);
    lemma_added(kept, pointwise::products(n, d_rh, out.r));
    let reset = dense::added(kept, pointwise::products(n, d_rh, out.r));
    lemma_lists(n, d_r, out.r, h);
    lemma_lists(n, d_z, out.z, h);
    lemma_transposed(none, p.w_h, b.d_ah);
    let x1 = dense::transposed(none, p.w_h, b.d_ah);
    lemma_transposed(x1, p.w_r, b.d_ar);
    let x2 = dense::transposed(x1, p.w_r, b.d_ar);
    lemma_transposed(x2, p.w_z, b.d_az);
    lemma_transposed(reset, p.u_r, b.d_ar);
    lemma_transposed(dense::transposed(reset, p.u_r, b.d_ar), p.u_z, b.d_az);
    assert(plain_backward(b) =~= plain(p).backward(
        reals_of(h),
        plain_step(out),
        target,
        reals_of(d_next),
    ));
}

proof fn lemma_with_step(
    g: Gradients<Ordered>,
    p: Params<Ordered>,
    tok: int,
    h: Seq<Ordered>,
    out: Step<Ordered>,
    b: Backward<Ordered>,
)
    requires
        plain(p).input(tok) == reals_of(p.input(tok)),
        h.len() == p.hidden_dim,
        out.r.len() == p.hidden_dim,
        b.d_x.len() == p.embed_dim,
    ensures
        plain_gradients(g.with_step(p, tok, h, out, b)) == plain_gradients(g).with_step(
            plain(p),
            tok,
            reals_of(h),
            plain_step(out),
            plain_backward(b),
        ),
{
    let n = p.hidden_dim as nat;
    let x = p.input(tok);
    let rh = pointwise::products(n, out.r, h);
    lemma_lists(n, out.r, h, h);
    lemma_row_added(g.d_embedding, p.embed_dim as nat, tok, b.d_x);
    lemma_outer(g.d_w_z, x, b.d_az);
    lemma_outer(g.d_w_r, x, b.d_ar);
    lemma_outer(g.d_w_h, x, b.d_ah);
    lemma_outer(g.d_u_z, h, b.d_az);
    lemma_outer(g.d_u_r, h, b.d_ar);
    lemma_outer(g.d_u_h, rh, b.d_ah);
    lemma_added(g.d_b_z, b.d_az);
    lemma_added(g.d_b_r, b.d_ar);
    lemma_added(g.d_b_h, b.d_ah);
    lemma_outer(g.d_w_out, out.h, b.d_logits);
    lemma_added(g.d_b_out, b.d_logits);
    assert(plain_gradients(g.with_step(p, tok, h, out, b)) =~= plain_gradients(g).with_step(
        plain(p),
        tok,
        reals_of(h),
        plain_step(out),
        plain_backward(b),
    ));
}

proof fn lemma_unrolled(
    p: Params<Ordered>,
    seq: Seq<usize>,
    t: nat,
    d_next: Seq<Ordered>,
    g: Gradients<Ordered>,
)
    requires
        p.shaped(),
        p.trains_on(seq),
        t < seq.len(),
        d_next.len() == p.hidden_dim,
    ensures
        plain_gradients(p.unrolled(seq, t, d_next, g)) == plain(p).unrolled(
            seq,
            t,
            reals_of(d_next),
            plain_gradients(g),
        ),
    decreases t,
{
    if t > 0 {
        let s = (t - 1) as nat;
        let tok = seq[s as int] as int;
        assert(p.embeds(seq[s as int] as int));
        assert(seq[t as int] < p.vocab_size);
        let h = p.state_before(seq, s);
        let out = p.step_at(seq, s);
        bptt::lemma_state_size(p, seq, s);
        bptt::lemma_step_sizes(p, p.input(tok), h);
        lemma_state(p, seq, s);
        lemma_step(p, tok, h);
        let b = p.backward_at(seq, s, d_next);
        lemma_backward(p, h, out, seq[t as int] as int, d_next);
        lemma_with_step(g, p, tok, h, out, b);
        lemma_unrolled(p, seq, s, b.d_h_prev, g.with_step(p, tok, h, out, b));
    }
}

proof fn lemma_loss(p: Params<Ordered>, seq: Seq<usize>, t: nat, sum: Ordered)
    requires
        p.shaped(),
        p.trains_on(seq),
        t < seq.len(),
    ensures
        p.loss_after(seq, t, sum).real == plain(p).loss_after(seq, t, sum.real),
        gradient::entropy_after(p, seq, t, sum).real == gradient::entropy_after(
            plain(p),
            seq,
            t,
            sum.real,
        ),
    decreases t,
{
    if t > 0 {
        let s = (t - 1) as nat;
        lemma_loss(p, seq, s, sum);
        lemma_state(p, seq, s);
        assert(seq[t as int] < p.vocab_size);
        let out = p.step_at(seq, s);
        bptt::lemma_step_sizes(p, p.input(seq[s as int] as int), p.state_before(seq, s));
        assert(reals_of(out.probs)[seq[t as int] as int] == out.probs[seq[t as int] as int].real);
        assert(plain_step(out).probs == plain(p).step_at(seq, s).probs);
    }
}

/// The gradients and the loss, and the cross-entropy, have nothing to do with
/// which numbers are greater: over real numbers in their order they are what
/// they are without it.
pub proof fn law_gradients_are_regardless_of_order(
    p: Params<Ordered>,
    starts: Seq<usize>,
    ids: Seq<usize>,
    seq_len: nat,
    n: nat,
)
    requires
        p.shaped(),
        n <= starts.len(),
        forall|i: int|
            0 <= i < starts.len() ==> (#[trigger] starts[i]) + seq_len + 1 <= ids.len(),
        forall|i: int|
            0 <= i < starts.len() ==> p.trains_on(
                bptt::chunk(ids, #[trigger] starts[i] as int, seq_len),
            ),
    ensures
        plain_gradients(p.gradients(starts, ids, seq_len, n)) == plain(p).gradients(
            starts,
            ids,
            seq_len,
            n,
        ),
        gradient::entropy_over(p, starts, ids, seq_len, n).real == gradient::entropy_over(
            plain(p),
            starts,
            ids,
            seq_len,
            n,
        ),
    decreases n,
{
    if n == 0 {
        let (v, e, h) = (p.vocab_size as nat, p.embed_dim as nat, p.hidden_dim as nat);
        lemma_zeros(v * e);
        lemma_zeros(e * h);
        lemma_zeros(h * h);
        lemma_zeros(h);
        lemma_zeros(h * v);
        lemma_zeros(v);
        assert(plain_gradients(p.gradients(starts, ids, seq_len, 0)) =~= plain(p).gradients(
            starts,
            ids,
            seq_len,
            0,
        ));
    } else {
        let m = (n - 1) as nat;
        law_gradients_are_regardless_of_order(p, starts, ids, seq_len, m);
        let seq = bptt::chunk(ids, starts[m as int] as int, seq_len);
        assert(starts[m as int] + seq_len + 1 <= ids.len());
        assert(p.trains_on(bptt::chunk(ids, starts[m as int] as int, seq_len)));
        let g = p.gradients(starts, ids, seq_len, m);
        lemma_loss(p, seq, seq_len, g.loss);
        lemma_loss(p, seq, seq_len, gradient::entropy_over(p, starts, ids, seq_len, m));
        let begun = Gradients { loss: p.loss_after(seq, seq_len, g.loss), ..g };
        lemma_zeros(p.hidden_dim as nat);
        lemma_unrolled(
            p,
            seq,
            seq_len,
            scalar::noughts::<Ordered>(p.hidden_dim as nat),
            begun,
        );
        let q = plain(p).gradients(starts, ids, seq_len, m);
        assert(plain_gradients(begun) =~= Gradients {
            loss: plain(p).loss_after(seq, seq_len, q.loss),
            ..q
        });
    }
}

/// A list in its order after a time of moving at given speeds.
pub open spec fn moved_list(xs: Seq<Ordered>, speeds: Seq<Ordered>, s: real) -> Seq<Ordered> {
    Seq::new(
        xs.len(),
        |i: int| Ordered { real: Real::of(xs[i].val() + reals::product(s, speeds[i].val())) },
    )
}

proof fn lemma_moved_list(xs: Seq<Ordered>, speeds: Seq<Ordered>, s: real)
    requires
        xs.len() == speeds.len(),
    ensures
        reals_of(moved_list(xs, speeds, s)) == slopes::moved_list(
            reals_of(xs),
            reals_of(speeds),
            s,
        ),
{
    assert(reals_of(moved_list(xs, speeds, s)) =~= slopes::moved_list(
        reals_of(xs),
        reals_of(speeds),
        s,
    ));
}

/// A recurrent model after a time of moving at given speeds.
pub open spec fn moved(v: Params<Ordered>, speed: Params<Ordered>, s: real) -> Params<Ordered> {
    Params {
        vocab_size: v.vocab_size,
        embed_dim: v.embed_dim,
        hidden_dim: v.hidden_dim,
        embedding: moved_list(v.embedding, speed.embedding, s),
        w_z: moved_list(v.w_z, speed.w_z, s),
        w_r: moved_list(v.w_r, speed.w_r, s),
        w_h: moved_list(v.w_h, speed.w_h, s),
        u_z: moved_list(v.u_z, speed.u_z, s),
        u_r: moved_list(v.u_r, speed.u_r, s),
        u_h: moved_list(v.u_h, speed.u_h, s),
        b_z: moved_list(v.b_z, speed.b_z, s),
        b_r: moved_list(v.b_r, speed.b_r, s),
        b_h: moved_list(v.b_h, speed.b_h, s),
        w_out: moved_list(v.w_out, speed.w_out, s),
        b_out: moved_list(v.b_out, speed.b_out, s),
    }
}

/// The cross-entropy of a model that moves, as a function of time.
pub open spec fn entropy_in_time(
    v: Params<Ordered>,
    speed: Params<Ordered>,
    starts: Seq<usize>,
    ids: Seq<usize>,
    seq_len: nat,
    n: nat,
) -> spec_fn(real) -> real {
    |s: real| gradient::entropy_over(moved(v, speed, s), starts, ids, seq_len, n).val()
}

/// Over real numbers in their order, backpropagation through time computes the
/// derivative: move the weights in any direction, and the difference quotients
/// of the cross-entropy, to one side and central, tend to the gradients
/// multiplied with the direction, however large the gradients or the weights
/// are.
pub proof fn law_ordered_gradients_are_limits_of_difference_quotients(
    v: Params<Ordered>,
    speed: Params<Ordered>,
    starts: Seq<usize>,
    ids: Seq<usize>,
    seq_len: nat,
    n: nat,
)
    requires
        reals::exponential_is_complete(),
        v.shaped(),
        speed.shaped(),
        speed.vocab_size == v.vocab_size,
        speed.embed_dim == v.embed_dim,
        speed.hidden_dim == v.hidden_dim,
        n <= starts.len(),
        forall|i: int|
            0 <= i < starts.len() ==> (#[trigger] starts[i]) + seq_len + 1 <= ids.len(),
        forall|i: int|
            0 <= i < starts.len() ==> v.trains_on(
                bptt::chunk(ids, #[trigger] starts[i] as int, seq_len),
            ),
    ensures
        ({
            let loss = entropy_in_time(v, speed, starts, ids, seq_len, n);
            let slope = gradient::along(
                plain_gradients(v.gradients(starts, ids, seq_len, n)),
                plain(speed),
            );
            &&& limits::tends(limits::difference_quotient(loss, 0real), slope)
            &&& limits::tends(limits::central_quotient(loss, 0real), slope)
        }),
{
    let loss = entropy_in_time(v, speed, starts, ids, seq_len, n);
    let other = slopes::entropy_in_time(plain(v), plain(speed), starts, ids, seq_len, n);
    law_gradients_are_regardless_of_order(v, starts, ids, seq_len, n);
    lemma_trains(v, plain(v), starts, ids, seq_len);
    assert forall|s: real| #[trigger] loss(s) == other(s) by {
        let w = moved(v, speed, s);
        lemma_moved_list(v.embedding, speed.embedding, s);
        lemma_moved_list(v.w_z, speed.w_z, s);
        lemma_moved_list(v.w_r, speed.w_r, s);
        lemma_moved_list(v.w_h, speed.w_h, s);
        lemma_moved_list(v.u_z, speed.u_z, s);
        lemma_moved_list(v.u_r, speed.u_r, s);
        lemma_moved_list(v.u_h, speed.u_h, s);
        lemma_moved_list(v.b_z, speed.b_z, s);
        lemma_moved_list(v.b_r, speed.b_r, s);
        lemma_moved_list(v.b_h, speed.b_h, s);
        lemma_moved_list(v.w_out, speed.w_out, s);
        lemma_moved_list(v.b_out, speed.b_out, s);
        assert(plain(w) =~= slopes::moved(plain(v), plain(speed), s));
        lemma_trains(v, w, starts, ids, seq_len);
        law_gradients_are_regardless_of_order(w, starts, ids, seq_len, n);
    }
    slopes::law_gradients_are_limits_of_difference_quotients(
        plain(v),
        plain(speed),
        starts,
        ids,
        seq_len,
        n,
    );
    let slope = gradient::along(
        plain_gradients(v.gradients(starts, ids, seq_len, n)),
        plain(speed),
    );
    limits::lemma_slope_same(other, loss, 0real, slope);
    limits::lemma_central_quotients_tend(loss, 0real, slope);
}

/// What a model trains on depends on its sizes only.
proof fn lemma_trains<A: Number, B: Number>(
    v: Params<A>,
    w: Params<B>,
    starts: Seq<usize>,
    ids: Seq<usize>,
    seq_len: nat,
)
    requires
        v.embed_dim == w.embed_dim,
        v.vocab_size == w.vocab_size,
        v.embedding.len() == w.embedding.len(),
    ensures
        forall|i: int|
            0 <= i < starts.len() && v.trains_on(
                bptt::chunk(ids, starts[i] as int, seq_len),
            ) ==> #[trigger] w.trains_on(bptt::chunk(ids, starts[i] as int, seq_len)),
{
    assert forall|i: int|
        0 <= i < starts.len() && v.trains_on(
            bptt::chunk(ids, starts[i] as int, seq_len),
        ) implies #[trigger] w.trains_on(bptt::chunk(ids, starts[i] as int, seq_len)) by {
        let seq = bptt::chunk(ids, starts[i] as int, seq_len);
        assert forall|t: int| 0 <= t < seq.len() - 1 implies w.embeds(#[trigger] seq[t] as int) by {
            assert(v.embeds(seq[t] as int));
        }
    }
}

/// A fixed-context model without the order of its weights.
pub open spec fn plain_window(p: windowed::Params<Ordered>) -> windowed::Params<Real> {
    windowed::Params {
        vocab_size: p.vocab_size,
        embed_dim: p.embed_dim,
        context: p.context,
        hidden_dim: p.hidden_dim,
        embedding: reals_of(p.embedding),
        w1: reals_of(p.w1),
        b1: reals_of(p.b1),
        w2: reals_of(p.w2),
        b2: reals_of(p.b2),
    }
}

/// Gradients of a fixed-context model without the order of their entries.
pub open spec fn plain_window_gradients(g: windowed::Gradients<Ordered>) -> windowed::Gradients<
    Real,
> {
    windowed::Gradients {
        d_embedding: reals_of(g.d_embedding),
        d_w1: reals_of(g.d_w1),
        d_b1: reals_of(g.d_b1),
        d_w2: reals_of(g.d_w2),
        d_b2: reals_of(g.d_b2),
        loss: g.loss.real,
    }
}

spec fn plain_layers(out: windowed::Layers<Ordered>) -> windowed::Layers<Real> {
    windowed::Layers {
        concat: reals_of(out.concat),
        hidden: reals_of(out.hidden),
        probs: reals_of(out.probs),
    }
}

proof fn lemma_concatenated(p: windowed::Params<Ordered>, ctx: Seq<usize>, n: nat)
    requires
        n <= ctx.len(),
        forall|i: int| 0 <= i < ctx.len() ==> p.embeds(#[trigger] ctx[i] as int),
    ensures
        reals_of(p.concatenated(ctx, n)) == plain_window(p).concatenated(ctx, n),
        p.concatenated(ctx, n).len() == n * p.embed_dim,
    decreases n,
{
    if n == 0 {
        assert(reals_of(p.concatenated(ctx, 0)) =~= plain_window(p).concatenated(ctx, 0));
        assert(n * p.embed_dim == 0) by (nonlinear_arith)
            requires
                n == 0,
        ;
    } else {
        let m = (n - 1) as nat;
        lemma_concatenated(p, ctx, m);
        let tok = ctx[m as int] as int;
        assert(p.embeds(ctx[m as int] as int));
        assert(0 <= tok * p.embed_dim) by (nonlinear_arith)
            requires
                0 <= tok,
                0 <= p.embed_dim,
        ;
        assert(m * p.embed_dim + p.embed_dim == n * p.embed_dim) by (nonlinear_arith)
            requires
                n == m + 1,
        ;
        lemma_row(p.embedding, p.embed_dim as nat, tok);
        let row = dense::row(p.embedding, p.embed_dim as int, tok);
        assert(reals_of(p.concatenated(ctx, m) + row) =~= reals_of(p.concatenated(ctx, m))
            + reals_of(row));
    }
}

proof fn lemma_predict(p: windowed::Params<Ordered>, ctx: Seq<usize>)
    requires
        p.shaped(),
        p.reads(ctx),
    ensures
        plain_layers(p.predict(ctx)) == plain_window(p).predict(ctx),
        p.predict(ctx).concat.len() == p.context * p.embed_dim,
        p.predict(ctx).hidden.len() == p.hidden_dim,
        p.predict(ctx).probs.len() == p.vocab_size,
{
    let out = p.predict(ctx);
    lemma_concatenated(p, ctx, ctx.len());
    lemma_affine(p.b1, p.w1, out.concat);
    let a = dense::affine(p.b1, p.w1, out.concat);
    lemma_lists(p.hidden_dim as nat, a, a, a);
    lemma_affine(p.b2, p.w2, out.hidden);
    lemma_softmax(dense::affine(p.b2, p.w2, out.hidden));
    assert(plain_layers(out) =~= plain_window(p).predict(ctx));
}

proof fn lemma_scattered(
    table: Seq<Ordered>,
    width: nat,
    ctx: Seq<usize>,
    d: Seq<Ordered>,
    n: nat,
)
    requires
        n <= ctx.len(),
        ctx.len() * width <= d.len(),
    ensures
        reals_of(windowed::scattered(table, width as int, ctx, d, n)) == windowed::scattered(
            reals_of(table),
            width as int,
            ctx,
            reals_of(d),
            n,
        ),
    decreases n,
{
    if n > 0 {
        let m = (n - 1) as nat;
        lemma_scattered(table, width, ctx, d, m);
        dense::lemma_row(m as int, ctx.len() as int, width as int);
        lemma_row(d, width, m as int);
        lemma_row_added(
            windowed::scattered(table, width as int, ctx, d, m),
            width,
            ctx[m as int] as int,
            windowed::slot(d, width as int, m as int),
        );
    }
}

proof fn lemma_with_example(
    p: windowed::Params<Ordered>,
    ctx: Seq<usize>,
    target: int,
    g: windowed::Gradients<Ordered>,
)
    requires
        p.shaped(),
        p.reads(ctx),
        0 <= target < p.vocab_size,
    ensures
        plain_window_gradients(p.with_example(ctx, target, g)) == plain_window(p).with_example(
            ctx,
            target,
            plain_window_gradients(g),
        ),
        window_gradient::entropy_of(p, ctx, target).real == window_gradient::entropy_of(
            plain_window(p),
            ctx,
            target,
        ),
{
    let q = plain_window(p);
    let out = p.predict(ctx);
    lemma_predict(p, ctx);
    let d_logits = pointwise::less_target(out.probs, target);
    lemma_less_target(out.probs, target);
    lemma_row_sums(p.w2, p.hidden_dim as nat, d_logits);
    let d_out = dense::row_sums(p.w2, p.hidden_dim as nat, d_logits);
    lemma_lists(p.hidden_dim as nat, d_out, out.hidden, out.hidden);
    let d_hidden = p.d_hidden(out, d_logits);
    assert(q.d_hidden(plain_layers(out), reals_of(d_logits)) == reals_of(d_hidden));
    let inputs = (p.context * p.embed_dim) as nat;
    lemma_row_sums(p.w1, inputs, d_hidden);
    let d_concat = dense::row_sums(p.w1, inputs, d_hidden);
    lemma_scattered(g.d_embedding, p.embed_dim as nat, ctx, d_concat, ctx.len());
    lemma_outer(g.d_w1, out.concat, d_hidden);
    lemma_added(g.d_b1, d_hidden);
    lemma_outer(g.d_w2, out.hidden, d_logits);
    lemma_added(g.d_b2, d_logits);
    assert(reals_of(out.probs)[target] == out.probs[target].real);
    assert(plain_layers(out).probs == q.predict(ctx).probs);
    assert(plain_window_gradients(p.with_example(ctx, target, g)) =~= q.with_example(
        ctx,
        target,
        plain_window_gradients(g),
    ));
}

/// The gradients of a fixed-context model have nothing to do with the order of
/// numbers, either.
pub proof fn law_window_gradients_are_regardless_of_order(
    p: windowed::Params<Ordered>,
    indices: Seq<usize>,
    example_ctx: Seq<usize>,
    example_target: Seq<usize>,
    n: nat,
)
    requires
        p.shaped(),
        n <= indices.len(),
        window_gradient::trains_on(p, indices, example_ctx, example_target),
    ensures
        plain_window_gradients(p.gradients(indices, example_ctx, example_target, n))
            == plain_window(p).gradients(indices, example_ctx, example_target, n),
        window_gradient::entropy_over(p, indices, example_ctx, example_target, n).real
            == window_gradient::entropy_over(
            plain_window(p),
            indices,
            example_ctx,
            example_target,
            n,
        ),
    decreases n,
{
    if n == 0 {
        let (v, e, h) = (p.vocab_size as nat, p.embed_dim as nat, p.hidden_dim as nat);
        lemma_zeros(v * e);
        lemma_zeros((p.context as nat * e) * h);
        lemma_zeros(h);
        lemma_zeros(h * v);
        lemma_zeros(v);
        assert(plain_window_gradients(p.gradients(indices, example_ctx, example_target, 0))
            =~= plain_window(p).gradients(indices, example_ctx, example_target, 0));
    } else {
        let m = (n - 1) as nat;
        law_window_gradients_are_regardless_of_order(
            p,
            indices,
            example_ctx,
            example_target,
            m,
        );
        let i = indices[m as int] as int;
        assert(indices[m as int] < example_target.len());
        lemma_with_example(
            p,
            dense::row(example_ctx, p.context as int, i),
            example_target[i] as int,
            p.gradients(indices, example_ctx, example_target, m),
        );
    }
}

/// A fixed-context model after a time of moving at given speeds.
pub open spec fn moved_window(
    v: windowed::Params<Ordered>,
    speed: windowed::Params<Ordered>,
    s: real,
) -> windowed::Params<Ordered> {
    windowed::Params {
        vocab_size: v.vocab_size,
        embed_dim: v.embed_dim,
        context: v.context,
        hidden_dim: v.hidden_dim,
        embedding: moved_list(v.embedding, speed.embedding, s),
        w1: moved_list(v.w1, speed.w1, s),
        b1: moved_list(v.b1, speed.b1, s),
        w2: moved_list(v.w2, speed.w2, s),
        b2: moved_list(v.b2, speed.b2, s),
    }
}

/// The cross-entropy of a fixed-context model that moves, as a function of
/// time.
pub open spec fn window_entropy_in_time(
    v: windowed::Params<Ordered>,
    speed: windowed::Params<Ordered>,
    indices: Seq<usize>,
    example_ctx: Seq<usize>,
    example_target: Seq<usize>,
    n: nat,
) -> spec_fn(real) -> real {
    |s: real|
        window_gradient::entropy_over(
            moved_window(v, speed, s),
            indices,
            example_ctx,
            example_target,
            n,
        ).val()
}

/// What a fixed-context model trains on depends on its sizes only.
proof fn lemma_window_trains<A, B>(
    v: windowed::Params<A>,
    w: windowed::Params<B>,
    indices: Seq<usize>,
    example_ctx: Seq<usize>,
    example_target: Seq<usize>,
)
    requires
        v.embed_dim == w.embed_dim,
        v.vocab_size == w.vocab_size,
        v.context == w.context,
        v.embedding.len() == w.embedding.len(),
        window_gradient::trains_on(v, indices, example_ctx, example_target),
    ensures
        window_gradient::trains_on(w, indices, example_ctx, example_target),
{
    assert forall|i: int| 0 <= i < indices.len() implies {
        &&& (#[trigger] indices[i]) < example_target.len()
        &&& w.reads(dense::row(example_ctx, w.context as int, indices[i] as int))
        &&& example_target[indices[i] as int] < w.vocab_size
    } by {
        let ctx = dense::row(example_ctx, v.context as int, indices[i] as int);
        assert(v.reads(ctx));
        assert forall|k: int| 0 <= k < ctx.len() implies w.embeds(#[trigger] ctx[k] as int) by {
            assert(v.embeds(ctx[k] as int));
        }
    }
}

/// Over real numbers in their order, backpropagation computes the derivative
/// for the fixed-context model, too.
pub proof fn law_ordered_window_gradients_are_limits_of_difference_quotients(
    v: windowed::Params<Ordered>,
    speed: windowed::Params<Ordered>,
    indices: Seq<usize>,
    example_ctx: Seq<usize>,
    example_target: Seq<usize>,
    n: nat,
)
    requires
        reals::exponential_is_complete(),
        v.shaped(),
        speed.shaped(),
        speed.vocab_size == v.vocab_size,
        speed.embed_dim == v.embed_dim,
        speed.context == v.context,
        speed.hidden_dim == v.hidden_dim,
        n <= indices.len(),
        window_gradient::trains_on(v, indices, example_ctx, example_target),
    ensures
        ({
            let loss = window_entropy_in_time(
                v,
                speed,
                indices,
                example_ctx,
                example_target,
                n,
            );
            let slope = window_gradient::along(
                plain_window_gradients(v.gradients(indices, example_ctx, example_target, n)),
                plain_window(speed),
            );
            &&& limits::tends(limits::difference_quotient(loss, 0real), slope)
            &&& limits::tends(limits::central_quotient(loss, 0real), slope)
        }),
{
    let loss = window_entropy_in_time(v, speed, indices, example_ctx, example_target, n);
    let other = slopes::window_entropy_in_time(
        plain_window(v),
        plain_window(speed),
        indices,
        example_ctx,
        example_target,
        n,
    );
    law_window_gradients_are_regardless_of_order(v, indices, example_ctx, example_target, n);
    lemma_window_trains(v, plain_window(v), indices, example_ctx, example_target);
    assert forall|s: real| #[trigger] loss(s) == other(s) by {
        let w = moved_window(v, speed, s);
        lemma_moved_list(v.embedding, speed.embedding, s);
        lemma_moved_list(v.w1, speed.w1, s);
        lemma_moved_list(v.b1, speed.b1, s);
        lemma_moved_list(v.w2, speed.w2, s);
        lemma_moved_list(v.b2, speed.b2, s);
        assert(plain_window(w) =~= slopes::moved_window(plain_window(v), plain_window(speed), s));
        lemma_window_trains(v, w, indices, example_ctx, example_target);
        law_window_gradients_are_regardless_of_order(
            w,
            indices,
            example_ctx,
            example_target,
            n,
        );
    }
    slopes::law_window_gradients_are_limits_of_difference_quotients(
        plain_window(v),
        plain_window(speed),
        indices,
        example_ctx,
        example_target,
        n,
    );
    let slope = window_gradient::along(
        plain_window_gradients(v.gradients(indices, example_ctx, example_target, n)),
        plain_window(speed),
    );
    limits::lemma_slope_same(other, loss, 0real, slope);
    limits::lemma_central_quotients_tend(loss, 0real, slope);
}

} // verus!
