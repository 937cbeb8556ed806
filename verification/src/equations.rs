//! The equations of both models, whatever the numbers are: what a step and a
//! prediction compute, how gradients are gathered and applied, what a model
//! starts from and what is saved of it.

use crate::bptt;
use crate::bptt::{Backward, Grad, Gradients};
use crate::dense;
use crate::model;
use crate::model::{Model, Params, Step, StepOut};
use crate::pointwise;
use crate::scalar;
use crate::scalar::Number;
use crate::windowed;
use vstd::prelude::*;

verus! {

/// A step of the recurrent model. The gates are the logistic function of a
/// bias, the embedded token and the state before; the candidate is the
/// hyperbolic tangent of a bias, the embedded token and the state that the
/// reset gate lets through; the new state blends the old one and the candidate
/// as the update gate says; the softmax of what the new state gives is the
/// distribution of the next token.
pub proof fn law_step_follows_the_equations<S: Number>(p: Params<S>, tok: int, h: Seq<S>, i: int)
    requires
        p.shaped(),
        0 <= tok,
        tok * p.embed_dim + p.embed_dim <= p.embedding.len(),
        h.len() == p.hidden_dim,
    ensures
        ({
            let x = p.embedding.subrange(
                tok * p.embed_dim,
                tok * p.embed_dim + p.embed_dim,
            );
            let out = p.step(tok, h);
            let az = dense::affine(dense::affine(p.b_z, p.w_z, x), p.u_z, h);
            let ar = dense::affine(dense::affine(p.b_r, p.w_r, x), p.u_r, h);
            let let_through = Seq::new(h.len(), |k: int| out.r[k].times(h[k]));
            let ah = dense::affine(dense::affine(p.b_h, p.w_h, x), p.u_h, let_through);
            &&& out.z.len() == p.hidden_dim && out.r.len() == p.hidden_dim && out.hcand.len()
                == p.hidden_dim && out.h.len() == p.hidden_dim
            &&& p.input(tok) == x
            &&& p.update_activation(x, h) == az
            &&& p.reset_activation(x, h) == ar
            &&& 0 <= i < p.hidden_dim ==> out.z[i] == S::unit().over(S::unit().plus(az[i].opposite().exp_of()))
            &&& 0 <= i < p.hidden_dim ==> out.r[i] == S::unit().over(S::unit().plus(ar[i].opposite().exp_of()))
            &&& 0 <= i < p.hidden_dim ==> out.hcand[i] == ah[i].tanh_of()
            &&& 0 <= i < p.hidden_dim ==> out.h[i] == S::unit().minus(out.z[i]).times(h[i]).plus(
                out.z[i].times(out.hcand[i]),
            )
            &&& out.probs == pointwise::softmax_of(dense::affine(p.b_out, p.w_out, out.h))
        }),
{
    let out = p.step(tok, h);
    let let_through = Seq::new(h.len(), |k: int| out.r[k].times(h[k]));
    assert(pointwise::products(p.hidden_dim as nat, out.r, h) =~= let_through);
}

/// The state starts at 0 and is carried on from step to step.
pub proof fn law_state_is_carried_on<S: Number>(p: Params<S>, seq: Seq<usize>, t: nat)
    ensures
        p.state_before(seq, 0) == Seq::new(p.hidden_dim as nat, |i: int| S::nought()),
        p.state_before(seq, t + 1) == p.step(seq[t as int] as int, p.state_before(seq, t)).h,
        p.step_at(seq, t) == p.step(seq[t as int] as int, p.state_before(seq, t)),
{
    assert(p.state_before(seq, 0) =~= Seq::new(p.hidden_dim as nat, |i: int| S::nought()));
}

/// Going back through a step by the chain rule: from the logits to the new
/// state, from there to the candidate, the gates and the old state, and from
/// them to the input.
pub proof fn law_backward_follows_the_chain_rule<S: Number>(
    p: Params<S>,
    h: Seq<S>,
    out: Step<S>,
    target: int,
    d_next: Seq<S>,
    i: int,
)
    requires
        d_next.len() == p.hidden_dim,
    ensures
        ({
            let b = p.backward(h, out, target, d_next);
            let zeros = Seq::new(p.hidden_dim as nat, |k: int| S::nought());
            let none = Seq::new(p.embed_dim as nat, |k: int| S::nought());
            let d_h = dense::transposed(zeros, p.w_out, b.d_logits)[i].plus(d_next[i]);
            let d_rh = dense::transposed(zeros, p.u_h, b.d_ah)[i];
            let kept = Seq::new(
                p.hidden_dim as nat,
                |k: int|
                    dense::transposed(zeros, p.w_out, b.d_logits)[k].plus(d_next[k]).times(
                        S::unit().minus(out.z[k]),
                    ).plus(
                        dense::transposed(zeros, p.u_h, b.d_ah)[k].times(out.r[k]),
                    ),
            );
            &&& b.d_logits == pointwise::less_target(out.probs, target)
            &&& b.d_ah.len() == p.hidden_dim && b.d_ar.len() == p.hidden_dim && b.d_az.len()
                == p.hidden_dim
            &&& 0 <= i < p.hidden_dim ==> b.d_ah[i] == d_h.times(out.z[i]).times(
                S::unit().minus(out.hcand[i].times(out.hcand[i])),
            )
            &&& 0 <= i < p.hidden_dim ==> b.d_ar[i] == d_rh.times(h[i]).times(out.r[i]).times(S::unit().minus(out.r[i]))
            &&& 0 <= i < p.hidden_dim ==> b.d_az[i] == d_h.times(out.hcand[i].minus(h[i])).times(out.z[i]).times(
                S::unit().minus(out.z[i]),
            )
            &&& b.d_x == dense::transposed(
                dense::transposed(dense::transposed(none, p.w_h, b.d_ah), p.w_r, b.d_ar),
                p.w_z,
                b.d_az,
            )
            &&& b.d_h_prev == dense::transposed(
                dense::transposed(kept, p.u_r, b.d_ar),
                p.u_z,
                b.d_az,
            )
        }),
{
    let b = p.backward(h, out, target, d_next);
    let n = p.hidden_dim as nat;
    let zeros = Seq::new(n, |k: int| S::nought());
    assert(scalar::noughts::<S>(n) =~= zeros);
    assert(scalar::noughts::<S>(p.embed_dim as nat) =~= Seq::new(
        p.embed_dim as nat,
        |k: int| S::nought(),
    ));
    let d_h = dense::added(dense::transposed(zeros, p.w_out, b.d_logits), d_next);
    let d_rh = dense::transposed(zeros, p.u_h, b.d_ah);
    let kept = Seq::new(
        n,
        |k: int|
            dense::transposed(zeros, p.w_out, b.d_logits)[k].plus(d_next[k]).times(
                S::unit().minus(out.z[k]),
            ).plus(dense::transposed(zeros, p.u_h, b.d_ah)[k].times(out.r[k])),
    );
    assert(dense::added(
        bptt::by_kept(n, d_h, out.z),
        pointwise::products(n, d_rh, out.r),
    ) =~= kept);
}

/// A step adds to the gradient of every weight the product of what the weight
/// multiplies and the gradient by what it feeds.
pub proof fn law_steps_add_to_every_gradient<S: Number>(
    g: Gradients<S>,
    p: Params<S>,
    tok: int,
    h: Seq<S>,
    out: Step<S>,
    b: Backward<S>,
)
    ensures
        ({
            let x = p.embedding.subrange(
                tok * p.embed_dim,
                tok * p.embed_dim + p.embed_dim,
            );
            let let_through = Seq::new(p.hidden_dim as nat, |k: int| out.r[k].times(h[k]));
            let more = g.with_step(p, tok, h, out, b);
            &&& more.d_embedding == dense::row_added(
                g.d_embedding,
                p.embed_dim as int,
                tok,
                b.d_x,
            )
            &&& more.d_w_z == dense::outer(g.d_w_z, x, b.d_az)
            &&& more.d_w_r == dense::outer(g.d_w_r, x, b.d_ar)
            &&& more.d_w_h == dense::outer(g.d_w_h, x, b.d_ah)
            &&& more.d_u_z == dense::outer(g.d_u_z, h, b.d_az)
            &&& more.d_u_r == dense::outer(g.d_u_r, h, b.d_ar)
            &&& more.d_u_h == dense::outer(g.d_u_h, let_through, b.d_ah)
            &&& more.d_b_z == dense::added(g.d_b_z, b.d_az)
            &&& more.d_b_r == dense::added(g.d_b_r, b.d_ar)
            &&& more.d_b_h == dense::added(g.d_b_h, b.d_ah)
            &&& more.d_w_out == dense::outer(g.d_w_out, out.h, b.d_logits)
            &&& more.d_b_out == dense::added(g.d_b_out, b.d_logits)
            &&& more.loss == g.loss
        }),
{
    let let_through = Seq::new(p.hidden_dim as nat, |k: int| out.r[k].times(h[k]));
    assert(pointwise::products(p.hidden_dim as nat, out.r, h) =~= let_through);
}

/// A batch is gone through chunk by chunk, and a chunk from its last step to
/// its first. The loss of a chunk grows with every step by the opposite of the
/// logarithm of what the step expected of its target, and `1e-9`.
pub proof fn law_batches_are_gone_through<S: Number>(
    p: Params<S>,
    starts: Seq<usize>,
    ids: Seq<usize>,
    seq_len: nat,
    n: nat,
    seq: Seq<usize>,
    t: nat,
    d_next: Seq<S>,
    g: Gradients<S>,
)
    ensures
        p.gradients(starts, ids, seq_len, 0) == Gradients::<S>::none(
            p.vocab_size as nat,
            p.embed_dim as nat,
            p.hidden_dim as nat,
        ),
        p.gradients(starts, ids, seq_len, n + 1) == p.with_chunk(
            ids.subrange(starts[n as int] as int, starts[n as int] + seq_len + 1),
            seq_len,
            p.gradients(starts, ids, seq_len, n),
        ),
        p.with_chunk(seq, t, g) == p.unrolled(
            seq,
            t,
            Seq::new(p.hidden_dim as nat, |k: int| S::nought()),
            Gradients { loss: p.loss_after(seq, t, g.loss), ..g },
        ),
        p.loss_after(seq, 0, g.loss) == g.loss,
        p.loss_after(seq, t + 1, g.loss) == p.loss_after(seq, t, g.loss).plus(
            p.step_at(seq, t).probs[seq[t as int + 1] as int].plus(
                S::numeral(1, 9),
            ).ln_of().opposite(),
        ),
        p.unrolled(seq, 0, d_next, g) == g,
        ({
            let h = p.state_before(seq, t);
            let out = p.step_at(seq, t);
            let b = p.backward(h, out, seq[t as int + 1] as int, d_next);
            p.unrolled(seq, t + 1, d_next, g) == p.unrolled(
                seq,
                t,
                b.d_h_prev,
                g.with_step(p, seq[t as int] as int, h, out, b),
            )
        }),
{
    assert(scalar::noughts::<S>(p.hidden_dim as nat) =~= Seq::new(
        p.hidden_dim as nat,
        |k: int| S::nought(),
    ));
}

/// The parts of a batch are added up one after the other, every list and the
/// loss.
pub proof fn law_parts_are_added_one_by_one<S: Number>(
    a: Gradients<S>,
    b: Gradients<S>,
    parts: Seq<Grad<S>>,
    n: nat,
)
    ensures
        a.with_parts(parts, 0) == a,
        a.with_parts(parts, n + 1) == a.with_parts(parts, n).plus(parts[n as int]@),
        a.plus(b).d_embedding == dense::added(a.d_embedding, b.d_embedding),
        a.plus(b).d_w_z == dense::added(a.d_w_z, b.d_w_z),
        a.plus(b).d_w_r == dense::added(a.d_w_r, b.d_w_r),
        a.plus(b).d_w_h == dense::added(a.d_w_h, b.d_w_h),
        a.plus(b).d_u_z == dense::added(a.d_u_z, b.d_u_z),
        a.plus(b).d_u_r == dense::added(a.d_u_r, b.d_u_r),
        a.plus(b).d_u_h == dense::added(a.d_u_h, b.d_u_h),
        a.plus(b).d_b_z == dense::added(a.d_b_z, b.d_b_z),
        a.plus(b).d_b_r == dense::added(a.d_b_r, b.d_b_r),
        a.plus(b).d_b_h == dense::added(a.d_b_h, b.d_b_h),
        a.plus(b).d_w_out == dense::added(a.d_w_out, b.d_w_out),
        a.plus(b).d_b_out == dense::added(a.d_b_out, b.d_b_out),
        a.plus(b).loss == a.loss.plus(b.loss),
{
}

/// An update moves every list of weights, and leaves the sizes alone.
pub proof fn law_every_list_moves<S: Number>(p: Params<S>, g: Gradients<S>, scale: S)
    ensures
        p.updated(g, scale).vocab_size == p.vocab_size,
        p.updated(g, scale).embed_dim == p.embed_dim,
        p.updated(g, scale).hidden_dim == p.hidden_dim,
        p.updated(g, scale).embedding == bptt::descended(p.embedding, scale, g.d_embedding),
        p.updated(g, scale).w_z == bptt::descended(p.w_z, scale, g.d_w_z),
        p.updated(g, scale).w_r == bptt::descended(p.w_r, scale, g.d_w_r),
        p.updated(g, scale).w_h == bptt::descended(p.w_h, scale, g.d_w_h),
        p.updated(g, scale).u_z == bptt::descended(p.u_z, scale, g.d_u_z),
        p.updated(g, scale).u_r == bptt::descended(p.u_r, scale, g.d_u_r),
        p.updated(g, scale).u_h == bptt::descended(p.u_h, scale, g.d_u_h),
        p.updated(g, scale).b_z == bptt::descended(p.b_z, scale, g.d_b_z),
        p.updated(g, scale).b_r == bptt::descended(p.b_r, scale, g.d_b_r),
        p.updated(g, scale).b_h == bptt::descended(p.b_h, scale, g.d_b_h),
        p.updated(g, scale).w_out == bptt::descended(p.w_out, scale, g.d_w_out),
        p.updated(g, scale).b_out == bptt::descended(p.b_out, scale, g.d_b_out),
{
}

/// A new model has weights for its sizes. Draws make the embedding, then the
/// weights from the input and from the state to the update gate, the reset gate
/// and the candidate, then the output weights, each draw one weight; biases are
/// 0. No draw is left over.
pub proof fn law_new_models_use_every_draw<S: Number>(
    vocab_size: usize,
    embed_dim: usize,
    hidden_dim: usize,
    draws: Seq<S>,
)
    ensures
        ({
            let p = Params::<S>::initial(vocab_size, embed_dim, hidden_dim, draws);
            let table = vocab_size * embed_dim;
            let w = embed_dim * hidden_dim;
            let u = hidden_dim * hidden_dim;
            let zeros = Seq::new(hidden_dim as nat, |i: int| S::nought());
            &&& p.vocab_size == vocab_size && p.embed_dim == embed_dim && p.hidden_dim
                == hidden_dim
            &&& p.embedding == model::spread(draws, 0, table as nat, embed_dim)
            &&& p.w_z == model::spread(draws, table, w as nat, embed_dim)
            &&& p.w_r == model::spread(draws, table + w, w as nat, embed_dim)
            &&& p.w_h == model::spread(draws, table + w + w, w as nat, embed_dim)
            &&& p.u_z == model::spread(draws, table + w + w + w, u as nat, hidden_dim)
            &&& p.u_r == model::spread(draws, table + w + w + w + u, u as nat, hidden_dim)
            &&& p.u_h == model::spread(draws, table + w + w + w + u + u, u as nat, hidden_dim)
            &&& p.w_out == model::spread(
                draws,
                table + w + w + w + u + u + u,
                (hidden_dim * vocab_size) as nat,
                hidden_dim,
            )
            &&& p.b_z == zeros && p.b_r == zeros && p.b_h == zeros
            &&& p.b_out == Seq::new(vocab_size as nat, |i: int| S::nought())
            &&& model::draw_count(vocab_size as int, embed_dim as int, hidden_dim as int) == table
                + w + w + w + u + u + u + hidden_dim * vocab_size
        }),
{
    let p = Params::<S>::initial(vocab_size, embed_dim, hidden_dim, draws);
    let zeros = Seq::new(hidden_dim as nat, |i: int| S::nought());
    assert(0 <= vocab_size * embed_dim && 0 <= embed_dim * hidden_dim && 0 <= hidden_dim
        * hidden_dim && 0 <= hidden_dim * vocab_size) by (nonlinear_arith);
    assert(p.b_z =~= zeros);
    assert(p.b_out =~= Seq::new(vocab_size as nat, |i: int| S::nought()));
}

/// What is seen of a model, of gradients, of a step and of a checkpoint is what
/// they hold, each part under its own name.
pub proof fn law_views_show_what_is_held<S>(
    m: Model<S>,
    g: Grad<S>,
    out: StepOut<S>,
    ckpt: model::Checkpoint<S>,
)
    ensures
        m@.vocab_size == m.vocab_size && m@.embed_dim == m.embed_dim && m@.hidden_dim
            == m.hidden_dim,
        m@.embedding == m.embedding@,
        m@.w_z == m.w_z@,
        m@.w_r == m.w_r@,
        m@.w_h == m.w_h@,
        m@.u_z == m.u_z@,
        m@.u_r == m.u_r@,
        m@.u_h == m.u_h@,
        m@.b_z == m.b_z@,
        m@.b_r == m.b_r@,
        m@.b_h == m.b_h@,
        m@.w_out == m.w_out@,
        m@.b_out == m.b_out@,
        g@.d_embedding == g.d_embedding@,
        g@.d_w_z == g.d_w_z@,
        g@.d_w_r == g.d_w_r@,
        g@.d_w_h == g.d_w_h@,
        g@.d_u_z == g.d_u_z@,
        g@.d_u_r == g.d_u_r@,
        g@.d_u_h == g.d_u_h@,
        g@.d_b_z == g.d_b_z@,
        g@.d_b_r == g.d_b_r@,
        g@.d_b_h == g.d_b_h@,
        g@.d_w_out == g.d_w_out@,
        g@.d_b_out == g.d_b_out@,
        g@.loss == g.loss,
        out@.z == out.z@ && out@.r == out.r@ && out@.hcand == out.hcand@ && out@.h == out.h@
            && out@.probs == out.probs@,
        ckpt.params().vocab_size == ckpt.vocab@.len() as usize,
        ckpt.params().embed_dim == ckpt.embed_dim && ckpt.params().hidden_dim == ckpt.hidden_dim,
        ckpt.params().embedding == ckpt.embedding@,
        ckpt.params().w_z == ckpt.w_z@,
        ckpt.params().w_r == ckpt.w_r@,
        ckpt.params().w_h == ckpt.w_h@,
        ckpt.params().u_z == ckpt.u_z@,
        ckpt.params().u_r == ckpt.u_r@,
        ckpt.params().u_h == ckpt.u_h@,
        ckpt.params().b_z == ckpt.b_z@,
        ckpt.params().b_r == ckpt.b_r@,
        ckpt.params().b_h == ckpt.b_h@,
        ckpt.params().w_out == ckpt.w_out@,
        ckpt.params().b_out == ckpt.b_out@,
{
}

/// A checkpoint saves a model where it holds the vocabulary, the sizes and
/// every list of weights.
pub proof fn law_checkpoints_save_everything<S>(
    ckpt: model::Checkpoint<S>,
    params: Params<S>,
    vocab: Seq<String>,
)
    requires
        model::saves(ckpt, params, vocab),
    ensures
        ckpt.vocab@ == vocab,
        ckpt.embed_dim == params.embed_dim,
        ckpt.hidden_dim == params.hidden_dim,
        ckpt.embedding@ == params.embedding,
        ckpt.w_z@ == params.w_z,
        ckpt.w_r@ == params.w_r,
        ckpt.w_h@ == params.w_h,
        ckpt.u_z@ == params.u_z,
        ckpt.u_r@ == params.u_r,
        ckpt.u_h@ == params.u_h,
        ckpt.b_z@ == params.b_z,
        ckpt.b_r@ == params.b_r,
        ckpt.b_h@ == params.b_h,
        ckpt.w_out@ == params.w_out,
        ckpt.b_out@ == params.b_out,
{
}

/// A prediction of the fixed-context model: the embeddings of the tokens that
/// it looks back on, one after the other; the hyperbolic tangent of a bias and
/// what they give; and the softmax of what that gives.
pub proof fn law_prediction_follows_the_equations<S: Number>(
    p: windowed::Params<S>,
    ctx: Seq<usize>,
    i: int,
)
    requires
        p.shaped(),
        p.reads(ctx),
    ensures
        ({
            let out = p.predict(ctx);
            &&& out.concat == p.concatenated(ctx, ctx.len())
            &&& out.hidden.len() == p.hidden_dim
            &&& 0 <= i < p.hidden_dim ==> out.hidden[i] == dense::affine(p.b1, p.w1, out.concat)[i].tanh_of()
            &&& out.probs == pointwise::softmax_of(dense::affine(p.b2, p.w2, out.hidden))
        }),
{
}

/// Embeddings are put one behind the other.
pub proof fn law_one_more_embedding<S>(p: windowed::Params<S>, ctx: Seq<usize>, n: nat)
    ensures
        p.concatenated(ctx, 0) == Seq::<S>::empty(),
        p.concatenated(ctx, n + 1) == p.concatenated(ctx, n) + p.embedding.subrange(
            ctx[n as int] * p.embed_dim,
            ctx[n as int] * p.embed_dim + p.embed_dim,
        ),
{
}

/// An example adds to the gradient of every weight the product of what the
/// weight multiplies and the gradient by what it feeds, and to the loss the
/// opposite of the logarithm of what was expected of its target, and `1e-9`.
pub proof fn law_examples_add_to_every_gradient<S: Number>(
    p: windowed::Params<S>,
    ctx: Seq<usize>,
    target: int,
    g: windowed::Gradients<S>,
)
    ensures
        ({
            let out = p.predict(ctx);
            let more = p.with_example(ctx, target, g);
            let d_logits = pointwise::less_target(out.probs, target);
            let d_out = dense::row_sums(p.w2, p.hidden_dim as nat, d_logits);
            let d_hidden = Seq::new(
                p.hidden_dim as nat,
                |i: int| d_out[i].times(S::unit().minus(out.hidden[i].times(out.hidden[i]))),
            );
            let d_concat = dense::row_sums(p.w1, (p.context * p.embed_dim) as nat, d_hidden);
            &&& more.d_w2 == dense::outer(g.d_w2, out.hidden, d_logits)
            &&& more.d_b2 == dense::added(g.d_b2, d_logits)
            &&& more.d_w1 == dense::outer(g.d_w1, out.concat, d_hidden)
            &&& more.d_b1 == dense::added(g.d_b1, d_hidden)
            &&& more.d_embedding == windowed::scattered(
                g.d_embedding,
                p.embed_dim as int,
                ctx,
                d_concat,
                ctx.len(),
            )
            &&& more.loss == g.loss.plus(
                out.probs[target].plus(S::numeral(1, 9)).ln_of().opposite(),
            )
        }),
{
    let out = p.predict(ctx);
    let d_logits = pointwise::less_target(out.probs, target);
    let d_out = dense::row_sums(p.w2, p.hidden_dim as nat, d_logits);
    let d_hidden = Seq::new(
        p.hidden_dim as nat,
        |i: int| d_out[i].times(S::unit().minus(out.hidden[i].times(out.hidden[i]))),
    );
    assert(p.d_hidden(out, d_logits) =~= d_hidden);
}

/// The gradient by the concatenated embeddings is handed out to the rows of the
/// tokens, position by position.
pub proof fn law_one_more_position<S: Number>(
    table: Seq<S>,
    width: int,
    ctx: Seq<usize>,
    d: Seq<S>,
    n: nat,
)
    ensures
        windowed::scattered(table, width, ctx, d, 0) == table,
        windowed::scattered(table, width, ctx, d, n + 1) == dense::row_added(
            windowed::scattered(table, width, ctx, d, n),
            width,
            ctx[n as int] as int,
            d.subrange(n * width, n * width + width),
        ),
{
}

/// A batch of examples is gone through one by one, each with its stretch of the
/// contexts and its target; the parts of a batch are added up one after the
/// other; and an update moves every list of weights.
pub proof fn law_examples_are_gone_through<S: Number>(
    p: windowed::Params<S>,
    indices: Seq<usize>,
    example_ctx: Seq<usize>,
    example_target: Seq<usize>,
    n: nat,
    a: windowed::Gradients<S>,
    b: windowed::Gradients<S>,
    parts: Seq<windowed::Grad<S>>,
    scale: S,
)
    ensures
        p.gradients(indices, example_ctx, example_target, 0) == p.nothing(),
        ({
            let i = indices[n as int] as int;
            p.gradients(indices, example_ctx, example_target, n + 1) == p.with_example(
                example_ctx.subrange(i * p.context, i * p.context + p.context),
                example_target[i] as int,
                p.gradients(indices, example_ctx, example_target, n),
            )
        }),
        a.with_parts(parts, 0) == a,
        a.with_parts(parts, n + 1) == a.with_parts(parts, n).plus(parts[n as int]@),
        a.plus(b).d_embedding == dense::added(a.d_embedding, b.d_embedding),
        a.plus(b).d_w1 == dense::added(a.d_w1, b.d_w1),
        a.plus(b).d_b1 == dense::added(a.d_b1, b.d_b1),
        a.plus(b).d_w2 == dense::added(a.d_w2, b.d_w2),
        a.plus(b).d_b2 == dense::added(a.d_b2, b.d_b2),
        a.plus(b).loss == a.loss.plus(b.loss),
        p.updated(a, scale).vocab_size == p.vocab_size,
        p.updated(a, scale).embed_dim == p.embed_dim,
        p.updated(a, scale).context == p.context,
        p.updated(a, scale).hidden_dim == p.hidden_dim,
        p.updated(a, scale).embedding == bptt::descended(p.embedding, scale, a.d_embedding),
        p.updated(a, scale).w1 == bptt::descended(p.w1, scale, a.d_w1),
        p.updated(a, scale).b1 == bptt::descended(p.b1, scale, a.d_b1),
        p.updated(a, scale).w2 == bptt::descended(p.w2, scale, a.d_w2),
        p.updated(a, scale).b2 == bptt::descended(p.b2, scale, a.d_b2),
{
}

/// A new fixed-context model: draws make the embedding, then the weights to the
/// hidden layer, then the output weights; biases are 0. No draw is left over.
pub proof fn law_new_window_models_use_every_draw<S: Number>(
    vocab_size: usize,
    embed_dim: usize,
    context: usize,
    hidden_dim: usize,
    draws: Seq<S>,
)
    ensures
        ({
            let p = windowed::Params::<S>::initial(
                vocab_size,
                embed_dim,
                context,
                hidden_dim,
                draws,
            );
            let table = vocab_size * embed_dim;
            let first = context * embed_dim * hidden_dim;
            let second = hidden_dim * vocab_size;
            &&& p.vocab_size == vocab_size && p.embed_dim == embed_dim && p.context == context
                && p.hidden_dim == hidden_dim
            &&& p.embedding == model::spread(draws, 0, table as nat, embed_dim)
            &&& p.w1 == model::spread(draws, table, first as nat, (context * embed_dim) as usize)
            &&& p.w2 == model::spread(draws, table + first, second as nat, hidden_dim)
            &&& p.b1 == Seq::new(hidden_dim as nat, |i: int| S::nought())
            &&& p.b2 == Seq::new(vocab_size as nat, |i: int| S::nought())
            &&& windowed::draw_count(
                vocab_size as int,
                embed_dim as int,
                context as int,
                hidden_dim as int,
            ) == table + first + second
        }),
{
    let p = windowed::Params::<S>::initial(vocab_size, embed_dim, context, hidden_dim, draws);
    assert(0 <= vocab_size * embed_dim && 0 <= context * embed_dim && 0 <= hidden_dim
        * vocab_size) by (nonlinear_arith);
    assert(0 <= (context * embed_dim) * hidden_dim) by (nonlinear_arith);
    assert(p.b1 =~= Seq::new(hidden_dim as nat, |i: int| S::nought()));
    assert(p.b2 =~= Seq::new(vocab_size as nat, |i: int| S::nought()));
}

/// What is seen of a fixed-context model, of its gradients, of a prediction and
/// of a checkpoint is what they hold, each part under its own name.
pub proof fn law_window_views_show_what_is_held<S>(
    m: windowed::Model<S>,
    g: windowed::Grad<S>,
    out: windowed::Prediction<S>,
    ckpt: windowed::Checkpoint<S>,
)
    ensures
        m@.vocab_size == m.vocab_size && m@.embed_dim == m.embed_dim && m@.context == m.context
            && m@.hidden_dim == m.hidden_dim,
        m@.embedding == m.embedding@,
        m@.w1 == m.w1@,
        m@.b1 == m.b1@,
        m@.w2 == m.w2@,
        m@.b2 == m.b2@,
        g@.d_embedding == g.d_embedding@,
        g@.d_w1 == g.d_w1@,
        g@.d_b1 == g.d_b1@,
        g@.d_w2 == g.d_w2@,
        g@.d_b2 == g.d_b2@,
        g@.loss == g.loss,
        out@.concat == out.concat@ && out@.hidden == out.hidden@ && out@.probs == out.probs@,
        ckpt.params().vocab_size == ckpt.vocab@.len() as usize,
        ckpt.params().embed_dim == ckpt.embed_dim && ckpt.params().context == ckpt.context
            && ckpt.params().hidden_dim == ckpt.hidden_dim,
        ckpt.params().embedding == ckpt.embedding@,
        ckpt.params().w1 == ckpt.w1@,
        ckpt.params().b1 == ckpt.b1@,
        ckpt.params().w2 == ckpt.w2@,
        ckpt.params().b2 == ckpt.b2@,
{
}

/// A checkpoint saves a fixed-context model where it holds the vocabulary, the
/// sizes and every list of weights.
pub proof fn law_window_checkpoints_save_everything<S>(
    ckpt: windowed::Checkpoint<S>,
    params: windowed::Params<S>,
    vocab: Seq<String>,
)
    requires
        windowed::saves(ckpt, params, vocab),
    ensures
        ckpt.vocab@ == vocab,
        ckpt.embed_dim == params.embed_dim,
        ckpt.context == params.context,
        ckpt.hidden_dim == params.hidden_dim,
        ckpt.embedding@ == params.embedding,
        ckpt.w1@ == params.w1,
        ckpt.b1@ == params.b1,
        ckpt.w2@ == params.w2,
        ckpt.b2@ == params.b2,
{
}

/// A model has its shape where every list of weights has as many as its sizes
/// call for.
pub proof fn law_shapes_are_sizes<S>(p: Params<S>, q: windowed::Params<S>)
    ensures
        p.shaped() <==> {
            &&& p.embedding.len() == p.vocab_size * p.embed_dim
            &&& p.w_z.len() == p.embed_dim * p.hidden_dim
            &&& p.w_r.len() == p.embed_dim * p.hidden_dim
            &&& p.w_h.len() == p.embed_dim * p.hidden_dim
            &&& p.u_z.len() == p.hidden_dim * p.hidden_dim
            &&& p.u_r.len() == p.hidden_dim * p.hidden_dim
            &&& p.u_h.len() == p.hidden_dim * p.hidden_dim
            &&& p.b_z.len() == p.hidden_dim
            &&& p.b_r.len() == p.hidden_dim
            &&& p.b_h.len() == p.hidden_dim
            &&& p.w_out.len() == p.hidden_dim * p.vocab_size
            &&& p.b_out.len() == p.vocab_size
        },
        q.shaped() <==> (q.embedding.len() == q.vocab_size * q.embed_dim && q.w1.len() == (q.context
            * q.embed_dim) * q.hidden_dim && q.b1.len() == q.hidden_dim && q.w2.len()
            == q.hidden_dim * q.vocab_size && q.b2.len() == q.vocab_size),
{
}

} // verus!
