//! What the gradients of the fixed-context model are: as for the recurrent
//! model, backpropagation computes the derivative of the cross-entropy, the
//! weight update leads downhill, and batches may be split.

use crate::batches;
use crate::dense;
use crate::derivative;
use crate::derivative::dot;
use crate::descent;
use crate::dual;
use crate::dual::Dual;
use crate::entropy;
use crate::gradient;
use crate::pointwise;
use crate::reals;
use crate::reals::Real;
use crate::scalar;
use crate::scalar::Number;
use crate::training;
use crate::windowed;
use crate::windowed::{Grad, Gradients, Params};
use vstd::prelude::*;

verus! {

/// The weights of a moving model.
pub open spec fn values_of<S>(p: Params<Dual<S>>) -> Params<S> {
    Params {
        vocab_size: p.vocab_size,
        embed_dim: p.embed_dim,
        context: p.context,
        hidden_dim: p.hidden_dim,
        embedding: dual::values(p.embedding),
        w1: dual::values(p.w1),
        b1: dual::values(p.b1),
        w2: dual::values(p.w2),
        b2: dual::values(p.b2),
    }
}

/// The speeds of the weights of a moving model.
pub open spec fn speeds_of<S>(p: Params<Dual<S>>) -> Params<S> {
    Params {
        vocab_size: p.vocab_size,
        embed_dim: p.embed_dim,
        context: p.context,
        hidden_dim: p.hidden_dim,
        embedding: dual::rates(p.embedding),
        w1: dual::rates(p.w1),
        b1: dual::rates(p.b1),
        w2: dual::rates(p.w2),
        b2: dual::rates(p.b2),
    }
}

/// The sum of the products of gradients and speeds, over all weights.
pub open spec fn along(g: Gradients<Real>, speed: Params<Real>) -> real {
    dot(g.d_embedding, speed.embedding, g.d_embedding.len()) + dot(g.d_w1, speed.w1, g.d_w1.len())
        + dot(g.d_b1, speed.b1, g.d_b1.len()) + dot(g.d_w2, speed.w2, g.d_w2.len()) + dot(
        g.d_b2,
        speed.b2,
        g.d_b2.len(),
    )
}

/// What an example adds to the cross-entropy.
pub open spec fn entropy_of<S: Number>(p: Params<S>, ctx: Seq<usize>, target: int) -> S {
    p.predict(ctx).probs[target].ln_of().opposite()
}

/// The cross-entropy of the first `n` of the examples with given numbers.
pub open spec fn entropy_over<S: Number>(
    p: Params<S>,
    indices: Seq<usize>,
    example_ctx: Seq<usize>,
    example_target: Seq<usize>,
    n: nat,
) -> S
    decreases n,
{
    if n == 0 {
        S::nought()
    } else {
        entropy_over(p, indices, example_ctx, example_target, (n - 1) as nat).plus(
            entropy_of(
                p,
                dense::row(example_ctx, p.context as int, indices[n - 1] as int),
                example_target[indices[n - 1] as int] as int,
            ),
        )
    }
}

/// Where the tokens of a context are embedded.
proof fn lemma_row_within<S>(p: Params<S>, tok: int)
    requires
        0 <= tok,
        p.embeds(tok),
    ensures
        0 <= tok * p.embed_dim,
        tok * p.embed_dim + p.embed_dim <= p.embedding.len(),
{
    assert(0 <= tok * p.embed_dim) by (nonlinear_arith)
        requires
            0 <= tok,
            0 <= p.embed_dim,
    ;
}

/// Concatenated embeddings: their length, their values, and what the last of
/// them adds.
proof fn lemma_concatenated<S>(p: Params<Dual<S>>, ctx: Seq<usize>, n: nat)
    requires
        n <= ctx.len(),
        forall|i: int| 0 <= i < ctx.len() ==> p.embeds(#[trigger] ctx[i] as int),
    ensures
        p.concatenated(ctx, n).len() == n * p.embed_dim,
        values_of(p).concatenated(ctx, n).len() == n * p.embed_dim,
        dual::values(p.concatenated(ctx, n)) == values_of(p).concatenated(ctx, n),
    decreases n,
{
    if n == 0 {
        assert(dual::values(p.concatenated(ctx, 0)) =~= values_of(p).concatenated(ctx, 0));
    } else {
        let k = n - 1;
        lemma_concatenated(p, ctx, k as nat);
        assert(p.embeds(ctx[k] as int));
        lemma_row_within(p, ctx[k] as int);
        assert(k * p.embed_dim + p.embed_dim == n * p.embed_dim) by (nonlinear_arith)
            requires
                k == n - 1,
        ;
        assert(dual::values(p.concatenated(ctx, n)) =~= values_of(p).concatenated(ctx, n));
    }
}

/// A sum of products splits into that of the first entries and that of a
/// stretch behind them.
proof fn lemma_dot_split(a: Seq<Real>, b: Seq<Real>, m: nat, k: nat)
    requires
        m + k <= a.len(),
        m + k <= b.len(),
    ensures
        dot(a, b, m + k) == dot(a, b, m) + dot(
            a.subrange(m as int, (m + k) as int),
            b.subrange(m as int, (m + k) as int),
            k,
        ),
    decreases k,
{
    if k > 0 {
        let j = (k - 1) as nat;
        lemma_dot_split(a, b, m, j);
        let x = a.subrange(m as int, (m + k) as int);
        let y = b.subrange(m as int, (m + k) as int);
        let x1 = a.subrange(m as int, (m + j) as int);
        let y1 = b.subrange(m as int, (m + j) as int);
        assert forall|i: int| #![trigger x[i]] 0 <= i < j implies reals::product(
            x[i].val(),
            y[i].val(),
        ) == reals::product(x1[i].val(), y1[i].val()) by {
            assert(x1[i] == x[i] && y1[i] == y[i]);
        }
        derivative::lemma_dot_same(x, y, x1, y1, j);
    }
}

/// A gradient scattered over a table, multiplied with the speeds of the
/// table: what the table gives, and what the gradient gives with the rates
/// of the concatenated rows.
proof fn lemma_dot_scattered(
    p: Params<Dual<Real>>,
    table: Seq<Real>,
    ctx: Seq<usize>,
    d_concat: Seq<Real>,
    n: nat,
)
    requires
        n <= ctx.len(),
        table.len() == p.embedding.len(),
        d_concat.len() == ctx.len() * p.embed_dim,
        forall|i: int| 0 <= i < ctx.len() ==> p.embeds(#[trigger] ctx[i] as int),
    ensures
        windowed::scattered(table, p.embed_dim as int, ctx, d_concat, n).len() == table.len(),
        dot(
            windowed::scattered(table, p.embed_dim as int, ctx, d_concat, n),
            dual::rates(p.embedding),
            table.len(),
        ) == dot(table, dual::rates(p.embedding), table.len()) + dot(
            d_concat,
            dual::rates(p.concatenated(ctx, n)),
            n * p.embed_dim as nat,
        ),
    decreases n,
{
    let w = p.embed_dim as nat;
    let speeds = dual::rates(p.embedding);
    if n == 0 {
        assert(n * w == 0) by (nonlinear_arith)
            requires
                n == 0,
        ;
    } else {
        let k = (n - 1) as nat;
        let tok = ctx[k as int] as int;
        lemma_dot_scattered(p, table, ctx, d_concat, k);
        assert(p.embeds(ctx[k as int] as int));
        lemma_row_within(p, tok);
        lemma_concatenated(p, ctx, k);
        lemma_concatenated(p, ctx, n);
        dense::lemma_row(k as int, ctx.len() as int, w as int);
        assert(k * w + w == n * w) by (nonlinear_arith)
            requires
                k == n - 1,
        ;
        let before = windowed::scattered(table, w as int, ctx, d_concat, k);
        let slot = windowed::slot(d_concat, w as int, k as int);
        gradient::lemma_dot_row_added(before, w, tok, slot, speeds, table.len());
        if table.len() <= tok * w {
            assert(w == 0);
        }
        let all = dual::rates(p.concatenated(ctx, n));
        let first = dual::rates(p.concatenated(ctx, k));
        let base = k * w;
        lemma_dot_split(d_concat, all, base, w);
        assert(d_concat.subrange(base as int, (base + w) as int) =~= slot);
        assert(all.subrange(base as int, (base + w) as int) =~= dense::row(speeds, w as int, tok));
        assert forall|i: int| #![trigger d_concat[i]] 0 <= i < base implies reals::product(
            d_concat[i].val(),
            all[i].val(),
        ) == reals::product(d_concat[i].val(), first[i].val()) by {
            assert(all[i] == first[i]);
        }
        derivative::lemma_dot_same(d_concat, all, d_concat, first, base);
    }
}

/// The values of a prediction.
proof fn lemma_predict_values<S: Number>(p: Params<Dual<S>>, ctx: Seq<usize>)
    requires
        p.shaped(),
        p.reads(ctx),
    ensures
        values_of(p).predict(ctx).concat == dual::values(p.predict(ctx).concat),
        values_of(p).predict(ctx).hidden == dual::values(p.predict(ctx).hidden),
        values_of(p).predict(ctx).probs == dual::values(p.predict(ctx).probs),
        p.predict(ctx).concat.len() == p.context * p.embed_dim,
        p.predict(ctx).hidden.len() == p.hidden_dim,
        p.predict(ctx).probs.len() == p.vocab_size,
{
    let concat = p.predict(ctx).concat;
    let hidden = p.predict(ctx).hidden;
    lemma_concatenated(p, ctx, ctx.len());
    derivative::lemma_affine_values(p.b1, p.w1, concat);
    derivative::lemma_tanhs_values(dense::affine(p.b1, p.w1, concat));
    derivative::lemma_affine_values(p.b2, p.w2, hidden);
    entropy::lemma_softmax_values(dense::affine(p.b2, p.w2, hidden));
}

/// Gradients with an example added to them grow, along the speeds, by the
/// rate of the example's cross-entropy.
proof fn lemma_with_example(
    p: Params<Dual<Real>>,
    ctx: Seq<usize>,
    target: int,
    g: Gradients<Real>,
)
    requires
        p.shaped(),
        p.reads(ctx),
        0 <= target < p.vocab_size,
        g.matches(values_of(p)),
    ensures
        along(values_of(p).with_example(ctx, target, g), speeds_of(p)) == along(g, speeds_of(p))
            + entropy_of(p, ctx, target).du.val(),
        values_of(p).with_example(ctx, target, g).matches(values_of(p)),
{
    let v = values_of(p);
    let speed = speeds_of(p);
    let concat = p.predict(ctx).concat;
    let hidden = p.predict(ctx).hidden;
    let pre = dense::affine(p.b1, p.w1, concat);
    let logits = dense::affine(p.b2, p.w2, hidden);
    let out = v.predict(ctx);
    let n = (p.context * p.embed_dim) as nat;
    lemma_predict_values(p, ctx);
    assert(0 <= p.context * p.embed_dim) by (nonlinear_arith)
        requires
            0 <= p.context,
            0 <= p.embed_dim,
    ;
    // Backwards through the layers.
    entropy::lemma_softmax_values(logits);
    entropy::lemma_entropy_adjoint(logits, target);
    let d_logits = pointwise::less_target(out.probs, target);
    derivative::lemma_affine_adjoint(p.b2, p.w2, hidden, d_logits);
    let asked = dense::row_sums(v.w2, p.hidden_dim as nat, d_logits);
    derivative::lemma_tanhs_values(pre);
    derivative::lemma_tanhs_adjoint(pre, asked);
    let d_hidden = v.d_hidden(out, d_logits);
    assert(d_hidden == pointwise::through_tanh(asked, out.hidden));
    derivative::lemma_affine_adjoint(p.b1, p.w1, concat, d_hidden);
    let d_concat = dense::row_sums(v.w1, n, d_hidden);
    // Into the gradients.
    lemma_dot_scattered(p, g.d_embedding, ctx, d_concat, ctx.len());
    gradient::lemma_dot_outer(g.d_w1, out.concat, d_hidden, speed.w1);
    gradient::lemma_dot_added(g.d_b1, d_hidden, speed.b1);
    gradient::lemma_dot_outer(g.d_w2, out.hidden, d_logits, speed.w2);
    gradient::lemma_dot_added(g.d_b2, d_logits, speed.b2);
}

/// Whether the examples with given numbers exist and can be trained on.
pub open spec fn trains_on<S>(
    p: Params<S>,
    indices: Seq<usize>,
    example_ctx: Seq<usize>,
    example_target: Seq<usize>,
) -> bool {
    forall|i: int|
        0 <= i < indices.len() ==> {
            &&& (#[trigger] indices[i]) < example_target.len()
            &&& p.reads(dense::row(example_ctx, p.context as int, indices[i] as int))
            &&& example_target[indices[i] as int] < p.vocab_size
        }
}

/// Backpropagation computes the derivative: if the weights of a model move at
/// any speeds, the cross-entropy of the given examples changes at the rate
/// that the accumulated gradients, multiplied with the speeds, add up to.
///
/// The loss that is reported beside the gradients is this cross-entropy but
/// for the `1e-9` that is added to each probability to keep its logarithm
/// finite.
pub proof fn law_gradients_are_derivatives(
    p: Params<Dual<Real>>,
    indices: Seq<usize>,
    example_ctx: Seq<usize>,
    example_target: Seq<usize>,
    n: nat,
)
    requires
        p.shaped(),
        n <= indices.len(),
        trains_on(p, indices, example_ctx, example_target),
    ensures
        entropy_over(p, indices, example_ctx, example_target, n).du.val() == along(
            values_of(p).gradients(indices, example_ctx, example_target, n),
            speeds_of(p),
        ),
        values_of(p).gradients(indices, example_ctx, example_target, n).matches(values_of(p)),
    decreases n,
{
    let v = values_of(p);
    let speed = speeds_of(p);
    if n == 0 {
        let g = v.gradients(indices, example_ctx, example_target, 0);
        derivative::lemma_noughts_dot(g.d_embedding, speed.embedding, g.d_embedding.len());
        derivative::lemma_noughts_dot(g.d_w1, speed.w1, g.d_w1.len());
        derivative::lemma_noughts_dot(g.d_b1, speed.b1, g.d_b1.len());
        derivative::lemma_noughts_dot(g.d_w2, speed.w2, g.d_w2.len());
        derivative::lemma_noughts_dot(g.d_b2, speed.b2, g.d_b2.len());
    } else {
        let m = (n - 1) as nat;
        law_gradients_are_derivatives(p, indices, example_ctx, example_target, m);
        assert(indices[m as int] < example_target.len());
        lemma_with_example(
            p,
            dense::row(example_ctx, p.context as int, indices[m as int] as int),
            example_target[indices[m as int] as int] as int,
            v.gradients(indices, example_ctx, example_target, m),
        );
    }
}

/// Whether a moving model heads for the weights `to`.
pub open spec fn heads_for(p: Params<Dual<Real>>, to: Params<Real>) -> bool {
    let from = values_of(p);
    let speed = speeds_of(p);
    &&& descent::leads(from.embedding, speed.embedding, to.embedding)
    &&& descent::leads(from.w1, speed.w1, to.w1)
    &&& descent::leads(from.b1, speed.b1, to.b1)
    &&& descent::leads(from.w2, speed.w2, to.w2)
    &&& descent::leads(from.b2, speed.b2, to.b2)
}

/// The weight update leads downhill: where a model starts to move towards
/// the weights that the update gives it, the cross-entropy of the examples
/// that the gradients come from does not grow.
pub proof fn law_updates_lead_downhill(
    p: Params<Dual<Real>>,
    indices: Seq<usize>,
    example_ctx: Seq<usize>,
    example_target: Seq<usize>,
    n: nat,
    scale: Real,
)
    requires
        p.shaped(),
        n <= indices.len(),
        trains_on(p, indices, example_ctx, example_target),
        scale.val() >= 0real,
        heads_for(
            p,
            values_of(p).updated(
                values_of(p).gradients(indices, example_ctx, example_target, n),
                scale,
            ),
        ),
    ensures
        entropy_over(p, indices, example_ctx, example_target, n).du.val() <= 0real,
{
    law_gradients_are_derivatives(p, indices, example_ctx, example_target, n);
    let v = values_of(p);
    let s = speeds_of(p);
    let g = v.gradients(indices, example_ctx, example_target, n);
    descent::lemma_against(v.embedding, s.embedding, scale, g.d_embedding, g.d_embedding.len());
    descent::lemma_against(v.w1, s.w1, scale, g.d_w1, g.d_w1.len());
    descent::lemma_against(v.b1, s.b1, scale, g.d_b1, g.d_b1.len());
    descent::lemma_against(v.w2, s.w2, scale, g.d_w2, g.d_w2.len());
    descent::lemma_against(v.b2, s.b2, scale, g.d_b2, g.d_b2.len());
}

/// Gradients may be added either way round, and the gradients of nothing
/// change nothing.
pub proof fn law_adding_gradients_commutes(
    p: Params<Real>,
    a: Gradients<Real>,
    b: Gradients<Real>,
)
    requires
        a.matches(p),
        b.matches(p),
    ensures
        a.plus(b) == b.plus(a),
        a.plus(p.nothing()) == a,
        p.nothing().plus(a) == a,
{
    batches::lemma_added(a.d_embedding, b.d_embedding);
    batches::lemma_added(a.d_w1, b.d_w1);
    batches::lemma_added(a.d_b1, b.d_b1);
    batches::lemma_added(a.d_w2, b.d_w2);
    batches::lemma_added(a.d_b2, b.d_b2);
}

/// The gradients of nothing have the shapes of a model's weights, and are 0
/// throughout.
pub proof fn law_zero_gradients_have_the_shapes_of_the_weights<S: Number>(p: Params<S>)
    requires
        p.shaped(),
    ensures
        p.nothing().d_embedding == scalar::noughts::<S>(p.embedding.len()),
        p.nothing().d_w1 == scalar::noughts::<S>(p.w1.len()),
        p.nothing().d_b1 == scalar::noughts::<S>(p.b1.len()),
        p.nothing().d_w2 == scalar::noughts::<S>(p.w2.len()),
        p.nothing().d_b2 == scalar::noughts::<S>(p.b2.len()),
        p.nothing().loss == S::nought(),
{
}

/// No examples have no gradients and no loss, whatever the numbers.
pub proof fn law_no_examples_have_no_gradients<S: Number>(
    p: Params<S>,
    example_ctx: Seq<usize>,
    example_target: Seq<usize>,
)
    ensures
        p.gradients(seq![], example_ctx, example_target, 0) == Gradients::<S>::none(
            p.vocab_size as nat,
            p.embed_dim as nat,
            p.context as nat,
            p.hidden_dim as nat,
        ),
{
}

/// Scattering over a sum of tables is scattering over the second summand.
proof fn lemma_scattered_over_sum(
    a: Seq<Real>,
    b: Seq<Real>,
    width: int,
    ctx: Seq<usize>,
    d_concat: Seq<Real>,
    n: nat,
)
    requires
        a.len() == b.len(),
    ensures
        windowed::scattered(dense::added(a, b), width, ctx, d_concat, n) == dense::added(
            a,
            windowed::scattered(b, width, ctx, d_concat, n),
        ),
        windowed::scattered(b, width, ctx, d_concat, n).len() == b.len(),
    decreases n,
{
    if n > 0 {
        lemma_scattered_over_sum(a, b, width, ctx, d_concat, (n - 1) as nat);
        batches::lemma_row_of_sum(
            a,
            windowed::scattered(b, width, ctx, d_concat, (n - 1) as nat),
            width,
            ctx[n - 1] as int,
            windowed::slot(d_concat, width, n - 1),
        );
    }
}

/// Adding an example to a sum of gradients is adding it to the second
/// summand.
proof fn lemma_example_of_sum(
    p: Params<Real>,
    ctx: Seq<usize>,
    target: int,
    a: Gradients<Real>,
    b: Gradients<Real>,
)
    requires
        a.matches(p),
        b.matches(p),
    ensures
        p.with_example(ctx, target, a.plus(b)) == a.plus(p.with_example(ctx, target, b)),
        p.with_example(ctx, target, b).matches(p),
{
    let out = p.predict(ctx);
    let d_logits = pointwise::less_target(out.probs, target);
    let d_hidden = p.d_hidden(out, d_logits);
    let d_concat = dense::row_sums(p.w1, (p.context * p.embed_dim) as nat, d_hidden);
    lemma_scattered_over_sum(
        a.d_embedding,
        b.d_embedding,
        p.embed_dim as int,
        ctx,
        d_concat,
        ctx.len(),
    );
    batches::lemma_outer_of_sum(a.d_w1, b.d_w1, out.concat, d_hidden);
    batches::lemma_added_to_sum(a.d_b1, b.d_b1, d_hidden);
    batches::lemma_outer_of_sum(a.d_w2, b.d_w2, out.hidden, d_logits);
    batches::lemma_added_to_sum(a.d_b2, b.d_b2, d_logits);
}

/// The gradients of examples have the shapes of the model's weights, and
/// those of the first examples depend on these alone.
pub proof fn lemma_gradients_match(
    p: Params<Real>,
    indices: Seq<usize>,
    others: Seq<usize>,
    example_ctx: Seq<usize>,
    example_target: Seq<usize>,
    n: nat,
)
    requires
        forall|i: int| 0 <= i < n ==> #[trigger] indices[i] == others[i],
    ensures
        p.gradients(indices, example_ctx, example_target, n).matches(p),
        p.gradients(indices, example_ctx, example_target, n) == p.gradients(
            others,
            example_ctx,
            example_target,
            n,
        ),
    decreases n,
{
    if n > 0 {
        lemma_gradients_match(p, indices, others, example_ctx, example_target, (n - 1) as nat);
        let g = p.gradients(indices, example_ctx, example_target, (n - 1) as nat);
        let i = indices[n - 1] as int;
        lemma_example_of_sum(
            p,
            dense::row(example_ctx, p.context as int, i),
            example_target[i] as int,
            g,
            g,
        );
    }
}

/// A batch may be split anywhere: the gradients and the loss of its parts,
/// each accumulated from nothing, add up to those of the whole.
pub proof fn law_parts_of_a_batch_add_up(
    p: Params<Real>,
    indices: Seq<usize>,
    example_ctx: Seq<usize>,
    example_target: Seq<usize>,
    m: nat,
    n: nat,
)
    requires
        m <= n <= indices.len(),
    ensures
        p.gradients(indices, example_ctx, example_target, n) == p.gradients(
            indices.take(m as int),
            example_ctx,
            example_target,
            m,
        ).plus(
            p.gradients(indices.skip(m as int), example_ctx, example_target, (n - m) as nat),
        ),
    decreases n,
{
    let head = indices.take(m as int);
    let first = p.gradients(head, example_ctx, example_target, m);
    let rest = indices.skip(m as int);
    lemma_gradients_match(p, head, indices, example_ctx, example_target, m);
    if n == m {
        assert(first.plus(p.gradients(rest, example_ctx, example_target, 0)) =~= first);
    } else {
        let k = (n - 1 - m) as nat;
        law_parts_of_a_batch_add_up(
            p,
            indices,
            example_ctx,
            example_target,
            m,
            (n - 1) as nat,
        );
        lemma_gradients_match(p, rest, rest, example_ctx, example_target, k);
        assert(rest[k as int] == indices[n - 1]);
        let i = indices[n - 1] as int;
        lemma_example_of_sum(
            p,
            dense::row(example_ctx, p.context as int, i),
            example_target[i] as int,
            first,
            p.gradients(rest, example_ctx, example_target, k),
        );
    }
}

/// Whether `parts` are the gradients of the parts of `size` of a batch.
pub open spec fn are_gradients_of_parts(
    p: Params<Real>,
    indices: Seq<usize>,
    example_ctx: Seq<usize>,
    example_target: Seq<usize>,
    size: nat,
    parts: Seq<Grad<Real>>,
) -> bool {
    &&& parts.len() == training::part_count(indices.len(), size)
    &&& forall|k: int|
        0 <= k < parts.len() ==> (#[trigger] parts[k])@ == p.gradients(
            training::part(indices, size as int, k),
            example_ctx,
            example_target,
            training::part(indices, size as int, k).len(),
        )
}

/// The gradients of the first parts of a batch, added up.
proof fn lemma_first_parts(
    p: Params<Real>,
    indices: Seq<usize>,
    example_ctx: Seq<usize>,
    example_target: Seq<usize>,
    size: nat,
    parts: Seq<Grad<Real>>,
    k: nat,
)
    requires
        0 < size,
        k <= parts.len(),
        are_gradients_of_parts(p, indices, example_ctx, example_target, size, parts),
    ensures
        ({
            let end = training::end_of_parts(indices.len() as int, size as int, k as int);
            &&& 0 <= end <= indices.len()
            &&& p.nothing().with_parts(parts, k) == p.gradients(
                indices,
                example_ctx,
                example_target,
                end as nat,
            )
        }),
    decreases k,
{
    if k > 0 {
        let j = (k - 1) as nat;
        lemma_first_parts(p, indices, example_ctx, example_target, size, parts, j);
        training::lemma_part_fits(indices.len(), size, j as int);
        let m = training::end_of_parts(indices.len() as int, size as int, j as int);
        let n = training::end_of_parts(indices.len() as int, size as int, k as int);
        let piece = training::part(indices, size as int, j as int);
        let head = indices.take(m);
        let rest = indices.skip(m);
        assert(parts[j as int]@ == p.gradients(
            piece,
            example_ctx,
            example_target,
            piece.len(),
        ));
        law_parts_of_a_batch_add_up(
            p,
            indices,
            example_ctx,
            example_target,
            m as nat,
            n as nat,
        );
        lemma_gradients_match(p, indices, head, example_ctx, example_target, m as nat);
        assert forall|i: int| 0 <= i < n - m implies #[trigger] rest[i] == piece[i] by {}
        lemma_gradients_match(p, rest, piece, example_ctx, example_target, (n - m) as nat);
    }
}

/// However many threads a batch is spread over, the model learns the same
/// from it: the gradients of the parts that it is dealt out in add up to
/// those of the batch.
pub proof fn law_any_number_of_threads_learns_the_same(
    p: Params<Real>,
    indices: Seq<usize>,
    example_ctx: Seq<usize>,
    example_target: Seq<usize>,
    size: nat,
    parts: Seq<Grad<Real>>,
)
    requires
        0 < size,
        are_gradients_of_parts(p, indices, example_ctx, example_target, size, parts),
    ensures
        p.nothing().with_parts(parts, parts.len()) == p.gradients(
            indices,
            example_ctx,
            example_target,
            indices.len(),
        ),
{
    lemma_first_parts(p, indices, example_ctx, example_target, size, parts, parts.len());
    training::lemma_part_fits(indices.len(), size, parts.len() as int);
}

} // verus!
