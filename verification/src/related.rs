//! Models over two kinds of numbers that correspond: where the inputs of a
//! computation correspond and every operation keeps the correspondence, so do
//! its results.

use crate::bptt;
use crate::dense;
use crate::gradient;
use crate::model;
use crate::model::Params;
use crate::pointwise;
use crate::scalar;
use crate::scalar::Number;
use crate::window_gradient;
use crate::windowed;
use vstd::prelude::*;

verus! {

/// A correspondence between two kinds of numbers that the operations of the
/// models keep. Division and the logarithm keep it where the number divided
/// by, or taken the logarithm of, counts as positive.
pub trait Relation<A: Number, B: Number>: Sized {
    /// Whether the correspondence can be relied on.
    spec fn valid(self) -> bool;

    /// Whether two numbers correspond.
    spec fn rel(self, a: A, b: B) -> bool;

    /// Whether two numbers that correspond count as positive.
    spec fn positive(self, a: A, b: B) -> bool;

    proof fn constants(self)
        requires
            self.valid(),
        ensures
            self.rel(A::nought(), B::nought()),
            self.rel(A::unit(), B::unit()),
            self.rel(A::infimum(), B::infimum()),
            self.positive(A::unit(), B::unit()),
    ;

    proof fn keys(self, a: A, b: B)
        requires
            self.valid(),
            self.rel(a, b),
        ensures
            a.key() == b.key(),
    ;

    proof fn sums(self, a: A, b: B, c: A, d: B)
        requires
            self.valid(),
            self.rel(a, b),
            self.rel(c, d),
        ensures
            self.rel(a.plus(c), b.plus(d)),
            self.rel(a.minus(c), b.minus(d)),
            self.rel(a.opposite(), b.opposite()),
            self.positive(a, b) && self.positive(c, d) ==> self.positive(a.plus(c), b.plus(d)),
            self.positive(c, d) ==> self.positive(A::nought().plus(c), B::nought().plus(d)),
    ;

    proof fn products(self, a: A, b: B, c: A, d: B)
        requires
            self.valid(),
            self.rel(a, b),
            self.rel(c, d),
        ensures
            self.rel(a.times(c), b.times(d)),
    ;

    proof fn quotients(self, a: A, b: B, c: A, d: B)
        requires
            self.valid(),
            self.rel(a, b),
            self.rel(c, d),
            self.positive(c, d),
        ensures
            self.rel(a.over(c), b.over(d)),
            self.positive(a, b) ==> self.positive(a.over(c), b.over(d)),
    ;

    proof fn exponentials(self, a: A, b: B)
        requires
            self.valid(),
            self.rel(a, b),
        ensures
            self.rel(a.exp_of(), b.exp_of()),
            self.positive(a.exp_of(), b.exp_of()),
    ;

    proof fn logarithms(self, a: A, b: B)
        requires
            self.valid(),
            self.rel(a, b),
            self.positive(a, b),
        ensures
            self.rel(a.ln_of(), b.ln_of()),
    ;

    proof fn tangents(self, a: A, b: B)
        requires
            self.valid(),
            self.rel(a, b),
        ensures
            self.rel(a.tanh_of(), b.tanh_of()),
    ;
}

/// Whether two lists correspond entry by entry.
pub open spec fn lists<A: Number, B: Number, R: Relation<A, B>>(
    r: R,
    xs: Seq<A>,
    ys: Seq<B>,
) -> bool {
    &&& xs.len() == ys.len()
    &&& forall|i: int| 0 <= i < xs.len() ==> r.rel(#[trigger] xs[i], ys[i])
}

/// Whether all entries of two lists that correspond count as positive.
pub open spec fn all_positive<A: Number, B: Number, R: Relation<A, B>>(
    r: R,
    xs: Seq<A>,
    ys: Seq<B>,
) -> bool {
    forall|i: int| 0 <= i < xs.len() ==> r.positive(#[trigger] xs[i], ys[i])
}

proof fn lemma_column<A: Number, B: Number, R: Relation<A, B>>(
    r: R,
    a: A,
    b: B,
    mat: Seq<A>,
    tam: Seq<B>,
    width: int,
    x: Seq<A>,
    y: Seq<B>,
    h: int,
    k: nat,
)
    requires
        r.valid(),
        r.rel(a, b),
        lists(r, mat, tam),
        lists(r, x, y),
        k <= x.len(),
        0 <= h < width,
        k * width <= mat.len(),
    ensures
        r.rel(dense::column(a, mat, width, x, h, k), dense::column(b, tam, width, y, h, k)),
    decreases k,
{
    if k > 0 {
        assert((k - 1) * width + width == k * width && 0 <= (k - 1) * width) by (nonlinear_arith)
            requires
                k > 0,
                width > 0,
        ;
        lemma_column(r, a, b, mat, tam, width, x, y, h, (k - 1) as nat);
        let at = (k - 1) * width + h;
        assert(r.rel(x[k - 1], y[k - 1]));
        assert(r.rel(mat[at], tam[at]));
        r.products(x[k - 1], y[k - 1], mat[at], tam[at]);
        r.sums(
            dense::column(a, mat, width, x, h, (k - 1) as nat),
            dense::column(b, tam, width, y, h, (k - 1) as nat),
            x[k - 1].times(mat[at]),
            y[k - 1].times(tam[at]),
        );
    }
}

pub proof fn lemma_affine<A: Number, B: Number, R: Relation<A, B>>(
    r: R,
    start: Seq<A>,
    other: Seq<B>,
    mat: Seq<A>,
    tam: Seq<B>,
    x: Seq<A>,
    y: Seq<B>,
)
    requires
        r.valid(),
        lists(r, start, other),
        lists(r, mat, tam),
        lists(r, x, y),
        x.len() * start.len() <= mat.len(),
    ensures
        lists(r, dense::affine(start, mat, x), dense::affine(other, tam, y)),
{
    let u = dense::affine(start, mat, x);
    let v = dense::affine(other, tam, y);
    assert forall|h: int| 0 <= h < u.len() implies r.rel(#[trigger] u[h], v[h]) by {
        assert(r.rel(start[h], other[h]));
        lemma_column(r, start[h], other[h], mat, tam, start.len() as int, x, y, h, x.len());
    }
}

pub proof fn lemma_sigmoids<A: Number, B: Number, R: Relation<A, B>>(
    r: R,
    xs: Seq<A>,
    ys: Seq<B>,
)
    requires
        r.valid(),
        lists(r, xs, ys),
    ensures
        lists(r, pointwise::sigmoids_of(xs), pointwise::sigmoids_of(ys)),
{
    let u = pointwise::sigmoids_of(xs);
    let v = pointwise::sigmoids_of(ys);
    assert forall|i: int| 0 <= i < u.len() implies r.rel(#[trigger] u[i], v[i]) by {
        let (a, b) = (xs[i], ys[i]);
        assert(r.rel(xs[i], ys[i]));
        r.constants();
        r.sums(a, b, a, b);
        r.exponentials(a.opposite(), b.opposite());
        let (e, f) = (a.opposite().exp_of(), b.opposite().exp_of());
        r.sums(A::unit(), B::unit(), e, f);
        r.quotients(A::unit(), B::unit(), A::unit().plus(e), B::unit().plus(f));
    }
}

pub proof fn lemma_tanhs<A: Number, B: Number, R: Relation<A, B>>(r: R, xs: Seq<A>, ys: Seq<B>)
    requires
        r.valid(),
        lists(r, xs, ys),
    ensures
        lists(r, pointwise::tanhs_of(xs), pointwise::tanhs_of(ys)),
{
    let u = pointwise::tanhs_of(xs);
    let v = pointwise::tanhs_of(ys);
    assert forall|i: int| 0 <= i < u.len() implies r.rel(#[trigger] u[i], v[i]) by {
        assert(r.rel(xs[i], ys[i]));
        r.tangents(xs[i], ys[i]);
    }
}

proof fn lemma_products<A: Number, B: Number, R: Relation<A, B>>(
    r: R,
    n: nat,
    a: Seq<A>,
    b: Seq<B>,
    c: Seq<A>,
    d: Seq<B>,
)
    requires
        r.valid(),
        lists(r, a, b),
        lists(r, c, d),
        a.len() == n,
        c.len() == n,
    ensures
        lists(r, pointwise::products(n, a, c), pointwise::products(n, b, d)),
{
    let u = pointwise::products(n, a, c);
    let v = pointwise::products(n, b, d);
    assert forall|i: int| 0 <= i < u.len() implies r.rel(#[trigger] u[i], v[i]) by {
        assert(r.rel(a[i], b[i]) && r.rel(c[i], d[i]));
        r.products(a[i], b[i], c[i], d[i]);
    }
}

proof fn lemma_blended<A: Number, B: Number, R: Relation<A, B>>(
    r: R,
    n: nat,
    z: Seq<A>,
    zz: Seq<B>,
    h: Seq<A>,
    hh: Seq<B>,
    c: Seq<A>,
    cc: Seq<B>,
)
    requires
        r.valid(),
        lists(r, z, zz),
        lists(r, h, hh),
        lists(r, c, cc),
        z.len() == n,
        h.len() == n,
        c.len() == n,
    ensures
        lists(r, model::blended(n, z, h, c), model::blended(n, zz, hh, cc)),
{
    let u = model::blended(n, z, h, c);
    let v = model::blended(n, zz, hh, cc);
    assert forall|i: int| 0 <= i < u.len() implies r.rel(#[trigger] u[i], v[i]) by {
        assert(r.rel(z[i], zz[i]) && r.rel(h[i], hh[i]) && r.rel(c[i], cc[i]));
        r.constants();
        r.sums(A::unit(), B::unit(), z[i], zz[i]);
        let (k, l) = (A::unit().minus(z[i]), B::unit().minus(zz[i]));
        r.products(k, l, h[i], hh[i]);
        r.products(z[i], zz[i], c[i], cc[i]);
        r.sums(k.times(h[i]), l.times(hh[i]), z[i].times(c[i]), zz[i].times(cc[i]));
    }
}

proof fn lemma_greatest<A: Number, B: Number, R: Relation<A, B>>(
    r: R,
    xs: Seq<A>,
    ys: Seq<B>,
    n: nat,
)
    requires
        r.valid(),
        lists(r, xs, ys),
        n <= xs.len(),
    ensures
        r.rel(scalar::greatest_to(xs, n), scalar::greatest_to(ys, n)),
    decreases n,
{
    if n == 0 {
        r.constants();
    } else {
        lemma_greatest(r, xs, ys, (n - 1) as nat);
        assert(r.rel(xs[n - 1], ys[n - 1]));
        r.keys(xs[n - 1], ys[n - 1]);
        r.keys(
            scalar::greatest_to(xs, (n - 1) as nat),
            scalar::greatest_to(ys, (n - 1) as nat),
        );
    }
}

proof fn lemma_positive_sum<A: Number, B: Number, R: Relation<A, B>>(
    r: R,
    xs: Seq<A>,
    ys: Seq<B>,
    n: nat,
)
    requires
        r.valid(),
        lists(r, xs, ys),
        all_positive(r, xs, ys),
        n <= xs.len(),
    ensures
        r.rel(scalar::sum_to(xs, n), scalar::sum_to(ys, n)),
        n > 0 ==> r.positive(scalar::sum_to(xs, n), scalar::sum_to(ys, n)),
    decreases n,
{
    if n == 0 {
        r.constants();
    } else {
        lemma_positive_sum(r, xs, ys, (n - 1) as nat);
        assert(r.rel(xs[n - 1], ys[n - 1]) && r.positive(xs[n - 1], ys[n - 1]));
        r.sums(
            scalar::sum_to(xs, (n - 1) as nat),
            scalar::sum_to(ys, (n - 1) as nat),
            xs[n - 1],
            ys[n - 1],
        );
    }
}

pub proof fn lemma_softmax<A: Number, B: Number, R: Relation<A, B>>(r: R, xs: Seq<A>, ys: Seq<B>)
    requires
        r.valid(),
        lists(r, xs, ys),
    ensures
        lists(r, pointwise::softmax_of(xs), pointwise::softmax_of(ys)),
        all_positive(r, pointwise::softmax_of(xs), pointwise::softmax_of(ys)),
{
    let e = pointwise::shifted_exps(xs);
    let f = pointwise::shifted_exps(ys);
    let (m, w) = (scalar::greatest_of(xs), scalar::greatest_of(ys));
    lemma_greatest(r, xs, ys, xs.len());
    assert forall|i: int| 0 <= i < e.len() implies r.rel(#[trigger] e[i], f[i]) && r.positive(
        e[i],
        f[i],
    ) by {
        assert(r.rel(xs[i], ys[i]));
        r.sums(xs[i], ys[i], m, w);
        r.exponentials(xs[i].minus(m), ys[i].minus(w));
    }
    lemma_positive_sum(r, e, f, e.len());
    let u = pointwise::softmax_of(xs);
    let v = pointwise::softmax_of(ys);
    assert forall|i: int| 0 <= i < u.len() implies r.rel(#[trigger] u[i], v[i]) && r.positive(
        u[i],
        v[i],
    ) by {
        assert(r.rel(e[i], f[i]) && r.positive(e[i], f[i]));
        r.quotients(e[i], f[i], scalar::sum_of(e), scalar::sum_of(f));
    }
}

/// Whether two recurrent models correspond weight by weight.
pub open spec fn models<A: Number, B: Number, R: Relation<A, B>>(
    r: R,
    p: Params<A>,
    q: Params<B>,
) -> bool {
    &&& p.vocab_size == q.vocab_size
    &&& p.embed_dim == q.embed_dim
    &&& p.hidden_dim == q.hidden_dim
    &&& lists(r, p.embedding, q.embedding)
    &&& lists(r, p.w_z, q.w_z)
    &&& lists(r, p.w_r, q.w_r)
    &&& lists(r, p.w_h, q.w_h)
    &&& lists(r, p.u_z, q.u_z)
    &&& lists(r, p.u_r, q.u_r)
    &&& lists(r, p.u_h, q.u_h)
    &&& lists(r, p.b_z, q.b_z)
    &&& lists(r, p.b_r, q.b_r)
    &&& lists(r, p.b_h, q.b_h)
    &&& lists(r, p.w_out, q.w_out)
    &&& lists(r, p.b_out, q.b_out)
}

proof fn lemma_row<A: Number, B: Number, R: Relation<A, B>>(
    r: R,
    table: Seq<A>,
    other: Seq<B>,
    width: int,
    k: int,
)
    requires
        lists(r, table, other),
        0 <= k,
        0 <= width,
        k * width + width <= table.len(),
    ensures
        lists(r, dense::row(table, width, k), dense::row(other, width, k)),
        dense::row(table, width, k).len() == width,
{
    assert(0 <= k * width) by (nonlinear_arith)
        requires
            0 <= k,
            0 <= width,
    ;
    let u = dense::row(table, width, k);
    let v = dense::row(other, width, k);
    assert forall|i: int| 0 <= i < u.len() implies r.rel(#[trigger] u[i], v[i]) by {
        assert(r.rel(table[k * width + i], other[k * width + i]));
    }
}

/// A step of two models that correspond.
pub proof fn lemma_step<A: Number, B: Number, R: Relation<A, B>>(
    r: R,
    p: Params<A>,
    q: Params<B>,
    x: Seq<A>,
    y: Seq<B>,
    h: Seq<A>,
    g: Seq<B>,
)
    requires
        r.valid(),
        p.shaped(),
        models(r, p, q),
        lists(r, x, y),
        lists(r, h, g),
        x.len() == p.embed_dim,
        h.len() == p.hidden_dim,
    ensures
        lists(r, p.step_on(x, h).h, q.step_on(y, g).h),
        p.step_on(x, h).h.len() == p.hidden_dim,
        lists(r, p.step_on(x, h).probs, q.step_on(y, g).probs),
        all_positive(r, p.step_on(x, h).probs, q.step_on(y, g).probs),
        p.step_on(x, h).probs.len() == p.vocab_size,
{
    let n = p.hidden_dim as nat;
    let s = p.step_on(x, h);
    let t = q.step_on(y, g);
    lemma_affine(r, p.b_z, q.b_z, p.w_z, q.w_z, x, y);
    lemma_affine(
        r,
        dense::affine(p.b_z, p.w_z, x),
        dense::affine(q.b_z, q.w_z, y),
        p.u_z,
        q.u_z,
        h,
        g,
    );
    lemma_sigmoids(r, p.update_activation(x, h), q.update_activation(y, g));
    lemma_affine(r, p.b_r, q.b_r, p.w_r, q.w_r, x, y);
    lemma_affine(
        r,
        dense::affine(p.b_r, p.w_r, x),
        dense::affine(q.b_r, q.w_r, y),
        p.u_r,
        q.u_r,
        h,
        g,
    );
    lemma_sigmoids(r, p.reset_activation(x, h), q.reset_activation(y, g));
    let rh = pointwise::products(n, s.r, h);
    let qg = pointwise::products(n, t.r, g);
    lemma_products(r, n, s.r, t.r, h, g);
    lemma_affine(r, p.b_h, q.b_h, p.w_h, q.w_h, x, y);
    lemma_affine(
        r,
        dense::affine(p.b_h, p.w_h, x),
        dense::affine(q.b_h, q.w_h, y),
        p.u_h,
        q.u_h,
        rh,
        qg,
    );
    lemma_tanhs(r, p.candidate_activation(x, rh), q.candidate_activation(y, qg));
    lemma_blended(r, n, s.z, t.z, h, g, s.hcand, t.hcand);
    lemma_affine(r, p.b_out, q.b_out, p.w_out, q.w_out, s.h, t.h);
    lemma_softmax(r, p.logits(s.h), q.logits(t.h));
}

proof fn lemma_state<A: Number, B: Number, R: Relation<A, B>>(
    r: R,
    p: Params<A>,
    q: Params<B>,
    seq: Seq<usize>,
    t: nat,
)
    requires
        r.valid(),
        p.shaped(),
        models(r, p, q),
        p.trains_on(seq),
        t < seq.len(),
    ensures
        lists(r, p.state_before(seq, t), q.state_before(seq, t)),
        p.state_before(seq, t).len() == p.hidden_dim,
    decreases t,
{
    if t == 0 {
        r.constants();
    } else {
        let s = (t - 1) as nat;
        lemma_state(r, p, q, seq, s);
        let tok = seq[s as int] as int;
        assert(p.embeds(seq[s as int] as int));
        lemma_row(r, p.embedding, q.embedding, p.embed_dim as int, tok);
        lemma_step(
            r,
            p,
            q,
            p.input(tok),
            q.input(tok),
            p.state_before(seq, s),
            q.state_before(seq, s),
        );
    }
}

proof fn lemma_entropy_after<A: Number, B: Number, R: Relation<A, B>>(
    r: R,
    p: Params<A>,
    q: Params<B>,
    seq: Seq<usize>,
    t: nat,
    a: A,
    b: B,
)
    requires
        r.valid(),
        p.shaped(),
        models(r, p, q),
        p.trains_on(seq),
        t < seq.len(),
        r.rel(a, b),
    ensures
        r.rel(gradient::entropy_after(p, seq, t, a), gradient::entropy_after(q, seq, t, b)),
    decreases t,
{
    if t > 0 {
        let s = (t - 1) as nat;
        lemma_entropy_after(r, p, q, seq, s, a, b);
        lemma_state(r, p, q, seq, s);
        let tok = seq[s as int] as int;
        let target = seq[t as int] as int;
        assert(p.embeds(seq[s as int] as int));
        assert(seq[t as int] < p.vocab_size);
        lemma_row(r, p.embedding, q.embedding, p.embed_dim as int, tok);
        lemma_step(
            r,
            p,
            q,
            p.input(tok),
            q.input(tok),
            p.state_before(seq, s),
            q.state_before(seq, s),
        );
        let x = p.step_at(seq, s).probs[target];
        let y = q.step_at(seq, s).probs[target];
        assert(r.rel(x, y) && r.positive(x, y));
        r.logarithms(x, y);
        r.sums(x.ln_of(), y.ln_of(), x.ln_of(), y.ln_of());
        r.sums(
            gradient::entropy_after(p, seq, s, a),
            gradient::entropy_after(q, seq, s, b),
            x.ln_of().opposite(),
            y.ln_of().opposite(),
        );
    }
}

/// The cross-entropies of two recurrent models that correspond.
pub proof fn lemma_entropy_over<A: Number, B: Number, R: Relation<A, B>>(
    r: R,
    p: Params<A>,
    q: Params<B>,
    starts: Seq<usize>,
    ids: Seq<usize>,
    seq_len: nat,
    n: nat,
)
    requires
        r.valid(),
        p.shaped(),
        models(r, p, q),
        n <= starts.len(),
        forall|i: int|
            0 <= i < starts.len() ==> (#[trigger] starts[i]) + seq_len + 1 <= ids.len(),
        forall|i: int|
            0 <= i < starts.len() ==> p.trains_on(
                bptt::chunk(ids, #[trigger] starts[i] as int, seq_len),
            ),
    ensures
        r.rel(
            gradient::entropy_over(p, starts, ids, seq_len, n),
            gradient::entropy_over(q, starts, ids, seq_len, n),
        ),
    decreases n,
{
    if n == 0 {
        r.constants();
    } else {
        let m = (n - 1) as nat;
        lemma_entropy_over(r, p, q, starts, ids, seq_len, m);
        assert(p.trains_on(bptt::chunk(ids, starts[m as int] as int, seq_len)));
        lemma_entropy_after(
            r,
            p,
            q,
            bptt::chunk(ids, starts[m as int] as int, seq_len),
            seq_len,
            gradient::entropy_over(p, starts, ids, seq_len, m),
            gradient::entropy_over(q, starts, ids, seq_len, m),
        );
    }
}

/// Whether two fixed-context models correspond weight by weight.
pub open spec fn windows<A: Number, B: Number, R: Relation<A, B>>(
    r: R,
    p: windowed::Params<A>,
    q: windowed::Params<B>,
) -> bool {
    &&& p.vocab_size == q.vocab_size
    &&& p.embed_dim == q.embed_dim
    &&& p.context == q.context
    &&& p.hidden_dim == q.hidden_dim
    &&& lists(r, p.embedding, q.embedding)
    &&& lists(r, p.w1, q.w1)
    &&& lists(r, p.b1, q.b1)
    &&& lists(r, p.w2, q.w2)
    &&& lists(r, p.b2, q.b2)
}

proof fn lemma_concatenated<A: Number, B: Number, R: Relation<A, B>>(
    r: R,
    p: windowed::Params<A>,
    q: windowed::Params<B>,
    ctx: Seq<usize>,
    n: nat,
)
    requires
        windows(r, p, q),
        n <= ctx.len(),
        forall|i: int| 0 <= i < ctx.len() ==> p.embeds(#[trigger] ctx[i] as int),
    ensures
        lists(r, p.concatenated(ctx, n), q.concatenated(ctx, n)),
        p.concatenated(ctx, n).len() == n * p.embed_dim,
    decreases n,
{
    if n > 0 {
        let k = (n - 1) as nat;
        lemma_concatenated(r, p, q, ctx, k);
        assert(p.embeds(ctx[k as int] as int));
        lemma_row(r, p.embedding, q.embedding, p.embed_dim as int, ctx[k as int] as int);
        assert(k * p.embed_dim + p.embed_dim == n * p.embed_dim) by (nonlinear_arith)
            requires
                k == n - 1,
        ;
        let u = p.concatenated(ctx, n);
        let v = q.concatenated(ctx, n);
        let a = p.concatenated(ctx, k);
        let b = q.concatenated(ctx, k);
        let x = dense::row(p.embedding, p.embed_dim as int, ctx[k as int] as int);
        let y = dense::row(q.embedding, p.embed_dim as int, ctx[k as int] as int);
        assert forall|i: int| 0 <= i < u.len() implies r.rel(#[trigger] u[i], v[i]) by {
            if i < a.len() {
                assert(r.rel(a[i], b[i]));
            } else {
                assert(r.rel(x[i - a.len()], y[i - a.len()]));
            }
        }
    } else {
        assert(n * p.embed_dim == 0) by (nonlinear_arith)
            requires
                n == 0,
        ;
    }
}

/// The cross-entropies of two fixed-context models that correspond.
pub proof fn lemma_window_entropy<A: Number, B: Number, R: Relation<A, B>>(
    r: R,
    p: windowed::Params<A>,
    q: windowed::Params<B>,
    indices: Seq<usize>,
    example_ctx: Seq<usize>,
    example_target: Seq<usize>,
    n: nat,
)
    requires
        r.valid(),
        p.shaped(),
        windows(r, p, q),
        n <= indices.len(),
        window_gradient::trains_on(p, indices, example_ctx, example_target),
    ensures
        r.rel(
            window_gradient::entropy_over(p, indices, example_ctx, example_target, n),
            window_gradient::entropy_over(q, indices, example_ctx, example_target, n),
        ),
    decreases n,
{
    if n == 0 {
        r.constants();
    } else {
        let m = (n - 1) as nat;
        lemma_window_entropy(r, p, q, indices, example_ctx, example_target, m);
        assert(indices[m as int] < example_target.len());
        let at = indices[m as int] as int;
        let ctx = dense::row(example_ctx, p.context as int, at);
        let target = example_target[at] as int;
        lemma_concatenated(r, p, q, ctx, ctx.len());
        let c = p.predict(ctx).concat;
        let d = q.predict(ctx).concat;
        lemma_affine(r, p.b1, q.b1, p.w1, q.w1, c, d);
        lemma_tanhs(r, dense::affine(p.b1, p.w1, c), dense::affine(q.b1, q.w1, d));
        let h = p.predict(ctx).hidden;
        let g = q.predict(ctx).hidden;
        lemma_affine(r, p.b2, q.b2, p.w2, q.w2, h, g);
        lemma_softmax(r, dense::affine(p.b2, p.w2, h), dense::affine(q.b2, q.w2, g));
        let x = p.predict(ctx).probs[target];
        let y = q.predict(ctx).probs[target];
        assert(r.rel(x, y) && r.positive(x, y));
        r.logarithms(x, y);
        r.sums(x.ln_of(), y.ln_of(), x.ln_of(), y.ln_of());
        r.sums(
            window_gradient::entropy_over(p, indices, example_ctx, example_target, m),
            window_gradient::entropy_over(q, indices, example_ctx, example_target, m),
            x.ln_of().opposite(),
            y.ln_of().opposite(),
        );
    }
}

} // verus!
