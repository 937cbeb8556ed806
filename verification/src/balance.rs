//! The gradient of the output biases: what the model expected less what came.

use crate::bptt;
use crate::bptt::Gradients;
use crate::dense;
use crate::gates;
use crate::model::Params;
use crate::pointwise;
use crate::reals::Real;
use crate::scalar;
use crate::scalar::Number;
use crate::window_gradient;
use crate::windowed;
use vstd::prelude::*;

verus! {

/// How much more the model expects token `j` at step `t` of a chunk than it
/// should have: its probability, less 1 where it is the target.
pub open spec fn excess(p: Params<Real>, seq: Seq<usize>, t: nat, j: int) -> real {
    p.step_at(seq, t).probs[j].val() - (if seq[t as int + 1] == j {
        1real
    } else {
        0real
    })
}

/// The excess over the first `t` steps of a chunk.
pub open spec fn excess_to(p: Params<Real>, seq: Seq<usize>, t: nat, j: int) -> real
    decreases t,
{
    if t == 0 {
        0real
    } else {
        excess_to(p, seq, (t - 1) as nat, j) + excess(p, seq, (t - 1) as nat, j)
    }
}

/// The excess over the first `n` of the chunks that begin at `starts`.
pub open spec fn excess_over(
    p: Params<Real>,
    starts: Seq<usize>,
    ids: Seq<usize>,
    seq_len: nat,
    n: nat,
    j: int,
) -> real
    decreases n,
{
    if n == 0 {
        0real
    } else {
        excess_over(p, starts, ids, seq_len, (n - 1) as nat, j) + excess_to(
            p,
            bptt::chunk(ids, starts[n - 1] as int, seq_len),
            seq_len,
            j,
        )
    }
}

/// Sums of lists add up.
proof fn lemma_sum_of_added(a: Seq<Real>, b: Seq<Real>, n: nat)
    requires
        n <= a.len(),
        a.len() == b.len(),
    ensures
        scalar::sum_to(dense::added(a, b), n).val() == scalar::sum_to(a, n).val()
            + scalar::sum_to(b, n).val(),
    decreases n,
{
    if n > 0 {
        lemma_sum_of_added(a, b, (n - 1) as nat);
    }
}

/// Taking the certainty of the target off takes 1 off the sum.
proof fn lemma_sum_less_target(probs: Seq<Real>, target: int, n: nat)
    requires
        0 <= target < probs.len(),
        n <= probs.len(),
    ensures
        scalar::sum_to(pointwise::less_target(probs, target), n).val() == scalar::sum_to(
            probs,
            n,
        ).val() - (if target < n {
            1real
        } else {
            0real
        }),
    decreases n,
{
    if n > 0 {
        lemma_sum_less_target(probs, target, (n - 1) as nat);
    }
}

/// A list of zeros sums to 0.
proof fn lemma_sum_of_noughts(k: nat, n: nat)
    requires
        n <= k,
    ensures
        scalar::sum_to(scalar::noughts::<Real>(k), n).val() == 0real,
    decreases n,
{
    if n > 0 {
        lemma_sum_of_noughts(k, (n - 1) as nat);
    }
}

/// What going back through a chunk adds to the gradient of the output biases.
proof fn lemma_unrolled_bias(
    p: Params<Real>,
    seq: Seq<usize>,
    t: nat,
    d_h_next: Seq<Real>,
    g: Gradients<Real>,
)
    requires
        p.shaped(),
        p.trains_on(seq),
        t < seq.len(),
        g.d_b_out.len() == p.vocab_size,
    ensures
        p.unrolled(seq, t, d_h_next, g).d_b_out.len() == p.vocab_size,
        forall|j: int|
            0 <= j < p.vocab_size ==> (#[trigger] p.unrolled(
                seq,
                t,
                d_h_next,
                g,
            ).d_b_out[j]).val() == g.d_b_out[j].val() + excess_to(p, seq, t, j),
        scalar::sum_of(p.unrolled(seq, t, d_h_next, g).d_b_out).val() == scalar::sum_of(
            g.d_b_out,
        ).val(),
    decreases t,
{
    if t > 0 {
        let s = (t - 1) as nat;
        let out = p.step_at(seq, s);
        let target = seq[t as int] as int;
        assert(seq[t as int] < p.vocab_size);
        let b = p.backward_at(seq, s, d_h_next);
        let d = pointwise::less_target(out.probs, target);
        assert(b.d_logits == d);
        let grown = g.with_step(p, seq[s as int] as int, p.state_before(seq, s), out, b);
        assert(grown.d_b_out == dense::added(g.d_b_out, d));
        assert(out.probs == pointwise::softmax_of(p.logits(out.h)));
        gates::law_softmax_is_a_distribution(p.logits(out.h));
        lemma_sum_less_target(out.probs, target, out.probs.len());
        lemma_sum_of_added(g.d_b_out, d, g.d_b_out.len());
        lemma_unrolled_bias(p, seq, s, b.d_h_prev, grown);
        assert forall|j: int| 0 <= j < p.vocab_size implies (#[trigger] p.unrolled(
            seq,
            t,
            d_h_next,
            g,
        ).d_b_out[j]).val() == g.d_b_out[j].val() + excess_to(p, seq, t, j) by {
            assert(p.unrolled(seq, s, b.d_h_prev, grown).d_b_out[j].val()
                == grown.d_b_out[j].val() + excess_to(p, seq, s, j));
            assert(grown.d_b_out[j].val() == g.d_b_out[j].val() + excess(p, seq, s, j));
        }
    }
}

/// The gradient of an output bias sums up, over all chunks and positions, the
/// probability of its token less 1 where the token is the target. What is
/// expected too much of some tokens is expected too little of others: the
/// entries add up to 0.
pub proof fn law_output_bias_gradients_balance(
    p: Params<Real>,
    starts: Seq<usize>,
    ids: Seq<usize>,
    seq_len: nat,
    n: nat,
)
    requires
        p.shaped(),
        n <= starts.len(),
        forall|i: int|
            0 <= i < starts.len() ==> (#[trigger] starts[i]) + seq_len + 1 <= ids.len(),
        forall|i: int|
            0 <= i < starts.len() ==> p.trains_on(
                bptt::chunk(ids, #[trigger] starts[i] as int, seq_len),
            ),
    ensures
        p.gradients(starts, ids, seq_len, n).d_b_out.len() == p.vocab_size,
        forall|j: int|
            0 <= j < p.vocab_size ==> (#[trigger] p.gradients(
                starts,
                ids,
                seq_len,
                n,
            ).d_b_out[j]).val() == excess_over(p, starts, ids, seq_len, n, j),
        scalar::sum_of(p.gradients(starts, ids, seq_len, n).d_b_out).val() == 0real,
    decreases n,
{
    if n == 0 {
        lemma_sum_of_noughts(p.vocab_size as nat, p.vocab_size as nat);
    } else {
        let m = (n - 1) as nat;
        law_output_bias_gradients_balance(p, starts, ids, seq_len, m);
        let seq = bptt::chunk(ids, starts[m as int] as int, seq_len);
        let g = p.gradients(starts, ids, seq_len, m);
        let begun = Gradients { loss: p.loss_after(seq, seq_len, g.loss), ..g };
        let last = scalar::noughts::<Real>(p.hidden_dim as nat);
        assert(p.trains_on(bptt::chunk(ids, starts[m as int] as int, seq_len)));
        lemma_unrolled_bias(p, seq, seq_len, last, begun);
        assert forall|j: int| 0 <= j < p.vocab_size implies (#[trigger] p.gradients(
            starts,
            ids,
            seq_len,
            n,
        ).d_b_out[j]).val() == excess_over(p, starts, ids, seq_len, n, j) by {
            assert(p.unrolled(seq, seq_len, last, begun).d_b_out[j].val() == g.d_b_out[j].val()
                + excess_to(p, seq, seq_len, j));
        }
    }
}

/// How much more the fixed-context model expects token `j` than it should
/// have, over the first `n` of the examples with given numbers.
pub open spec fn window_excess_over(
    p: windowed::Params<Real>,
    indices: Seq<usize>,
    example_ctx: Seq<usize>,
    example_target: Seq<usize>,
    n: nat,
    j: int,
) -> real
    decreases n,
{
    if n == 0 {
        0real
    } else {
        let i = indices[n - 1] as int;
        let probs = p.predict(dense::row(example_ctx, p.context as int, i)).probs;
        window_excess_over(p, indices, example_ctx, example_target, (n - 1) as nat, j)
            + probs[j].val() - (if example_target[i] == j {
            1real
        } else {
            0real
        })
    }
}

/// Of the fixed-context model too: the gradient of an output bias sums up the
/// probability of its token less 1 where the token is the target, and the
/// entries add up to 0.
pub proof fn law_window_output_bias_gradients_balance(
    p: windowed::Params<Real>,
    indices: Seq<usize>,
    example_ctx: Seq<usize>,
    example_target: Seq<usize>,
    n: nat,
)
    requires
        p.shaped(),
        n <= indices.len(),
        window_gradient::trains_on(p, indices, example_ctx, example_target),
    ensures
        ({
            let d = p.gradients(indices, example_ctx, example_target, n).d_b2;
            &&& d.len() == p.vocab_size
            &&& forall|j: int|
                0 <= j < p.vocab_size ==> (#[trigger] d[j]).val() == window_excess_over(
                    p,
                    indices,
                    example_ctx,
                    example_target,
                    n,
                    j,
                )
            &&& scalar::sum_of(d).val() == 0real
        }),
    decreases n,
{
    if n == 0 {
        lemma_sum_of_noughts(p.vocab_size as nat, p.vocab_size as nat);
    } else {
        let m = (n - 1) as nat;
        law_window_output_bias_gradients_balance(p, indices, example_ctx, example_target, m);
        let i = indices[m as int] as int;
        let out = p.predict(dense::row(example_ctx, p.context as int, i));
        let target = example_target[i] as int;
        let before = p.gradients(indices, example_ctx, example_target, m).d_b2;
        let d = pointwise::less_target(out.probs, target);
        gates::law_softmax_is_a_distribution(dense::affine(p.b2, p.w2, out.hidden));
        lemma_sum_less_target(out.probs, target, out.probs.len());
        lemma_sum_of_added(before, d, before.len());
    }
}

} // verus!
