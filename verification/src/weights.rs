//! The gradient of each weight by itself, held against difference quotients.

use crate::batches;
use crate::bptt;
use crate::bptt::Gradients;
use crate::derivative::dot;
use crate::gradient;
use crate::limits;
use crate::model::Params;
use crate::reals;
use crate::reals::Real;
use crate::scalar::Number;
use crate::slopes;
use crate::window_gradient;
use crate::windowed;
use vstd::prelude::*;

verus! {

/// The lists of a recurrent model's weights.
pub enum List {
    /// The table of embeddings.
    Embedding,
    /// From the input to the update gate.
    UpdateInput,
    /// From the input to the reset gate.
    ResetInput,
    /// From the input to the candidate.
    CandidateInput,
    /// From the state to the update gate.
    UpdateState,
    /// From the state to the reset gate.
    ResetState,
    /// From the state to the candidate.
    CandidateState,
    /// The bias of the update gate.
    UpdateBias,
    /// The bias of the reset gate.
    ResetBias,
    /// The bias of the candidate.
    CandidateBias,
    /// From the state to the logits.
    Output,
    /// The bias of the logits.
    OutputBias,
}

/// A list of `n` numbers that are 0 but for a 1 at one place, or for none.
pub open spec fn spike(n: nat, at: int) -> Seq<Real> {
    Seq::new(
        n,
        |i: int|
            if i == at {
                Real::unit()
            } else {
                Real::nought()
            },
    )
}

/// A place in the list it is meant for, and none in any other.
pub open spec fn place(meant: bool, at: int) -> int {
    if meant {
        at
    } else {
        -1
    }
}

/// The direction in which one weight of a model moves and no other.
pub open spec fn alone(v: Params<Real>, list: List, at: int) -> Params<Real> {
    Params {
        vocab_size: v.vocab_size,
        embed_dim: v.embed_dim,
        hidden_dim: v.hidden_dim,
        embedding: spike(v.embedding.len(), place(list is Embedding, at)),
        w_z: spike(v.w_z.len(), place(list is UpdateInput, at)),
        w_r: spike(v.w_r.len(), place(list is ResetInput, at)),
        w_h: spike(v.w_h.len(), place(list is CandidateInput, at)),
        u_z: spike(v.u_z.len(), place(list is UpdateState, at)),
        u_r: spike(v.u_r.len(), place(list is ResetState, at)),
        u_h: spike(v.u_h.len(), place(list is CandidateState, at)),
        b_z: spike(v.b_z.len(), place(list is UpdateBias, at)),
        b_r: spike(v.b_r.len(), place(list is ResetBias, at)),
        b_h: spike(v.b_h.len(), place(list is CandidateBias, at)),
        w_out: spike(v.w_out.len(), place(list is Output, at)),
        b_out: spike(v.b_out.len(), place(list is OutputBias, at)),
    }
}

/// The gradients by one list of weights.
pub open spec fn listed(g: Gradients<Real>, list: List) -> Seq<Real> {
    match list {
        List::Embedding => g.d_embedding,
        List::UpdateInput => g.d_w_z,
        List::ResetInput => g.d_w_r,
        List::CandidateInput => g.d_w_h,
        List::UpdateState => g.d_u_z,
        List::ResetState => g.d_u_r,
        List::CandidateState => g.d_u_h,
        List::UpdateBias => g.d_b_z,
        List::ResetBias => g.d_b_r,
        List::CandidateBias => g.d_b_h,
        List::Output => g.d_w_out,
        List::OutputBias => g.d_b_out,
    }
}

/// Multiplied with a spike, a list gives the entry at its place.
proof fn lemma_dot_spike(d: Seq<Real>, at: int, n: nat)
    requires
        n <= d.len(),
    ensures
        dot(d, spike(d.len(), at), n) == (if 0 <= at < n {
            d[at].val()
        } else {
            0real
        }),
    decreases n,
{
    if n > 0 {
        lemma_dot_spike(d, at, (n - 1) as nat);
        reals::lemma_product(d[n - 1].val(), 0real, 0real);
    }
}

/// What the gradients come to in the direction of one weight.
proof fn lemma_along_one(v: Params<Real>, g: Gradients<Real>, list: List, at: int)
    requires
        v.shaped(),
        g.matches(v),
        0 <= at < listed(g, list).len(),
    ensures
        gradient::along(g, alone(v, list, at)) == listed(g, list)[at].val(),
{
    lemma_dot_spike(g.d_embedding, place(list is Embedding, at), g.d_embedding.len());
    lemma_dot_spike(g.d_w_z, place(list is UpdateInput, at), g.d_w_z.len());
    lemma_dot_spike(g.d_w_r, place(list is ResetInput, at), g.d_w_r.len());
    lemma_dot_spike(g.d_w_h, place(list is CandidateInput, at), g.d_w_h.len());
    lemma_dot_spike(g.d_u_z, place(list is UpdateState, at), g.d_u_z.len());
    lemma_dot_spike(g.d_u_r, place(list is ResetState, at), g.d_u_r.len());
    lemma_dot_spike(g.d_u_h, place(list is CandidateState, at), g.d_u_h.len());
    lemma_dot_spike(g.d_b_z, place(list is UpdateBias, at), g.d_b_z.len());
    lemma_dot_spike(g.d_b_r, place(list is ResetBias, at), g.d_b_r.len());
    lemma_dot_spike(g.d_b_h, place(list is CandidateBias, at), g.d_b_h.len());
    lemma_dot_spike(g.d_w_out, place(list is Output, at), g.d_w_out.len());
    lemma_dot_spike(g.d_b_out, place(list is OutputBias, at), g.d_b_out.len());
}

/// The gradient of every weight can be told from difference quotients: move
/// that weight alone by less than some step, up or down, and the quotient of
/// the change of the cross-entropy, to one side or central, is within any
/// tolerance of the gradient.
pub proof fn law_each_gradient_is_within_any_tolerance(
    v: Params<Real>,
    list: List,
    at: int,
    starts: Seq<usize>,
    ids: Seq<usize>,
    seq_len: nat,
    n: nat,
    tolerance: real,
)
    requires
        reals::exponential_is_complete(),
        v.shaped(),
        n <= starts.len(),
        forall|i: int|
            0 <= i < starts.len() ==> (#[trigger] starts[i]) + seq_len + 1 <= ids.len(),
        forall|i: int|
            0 <= i < starts.len() ==> v.trains_on(
                bptt::chunk(ids, #[trigger] starts[i] as int, seq_len),
            ),
        0 <= at < listed(v.gradients(starts, ids, seq_len, n), list).len(),
        tolerance > 0real,
    ensures
        ({
            let loss = slopes::entropy_in_time(
                v,
                alone(v, list, at),
                starts,
                ids,
                seq_len,
                n,
            );
            let analytic = listed(v.gradients(starts, ids, seq_len, n), list)[at].val();
            exists|step: real|
                step > 0real && limits::stays_near(
                    limits::difference_quotient(loss, 0real),
                    analytic,
                    tolerance,
                    step,
                ) && #[trigger] limits::stays_near(
                    limits::central_quotient(loss, 0real),
                    analytic,
                    tolerance,
                    step,
                )
        }),
{
    let g = v.gradients(starts, ids, seq_len, n);
    let direction = alone(v, list, at);
    batches::lemma_gradients_match(v, starts, ids, seq_len, n);
    lemma_along_one(v, g, list, at);
    slopes::law_gradients_are_limits_of_difference_quotients(
        v,
        direction,
        starts,
        ids,
        seq_len,
        n,
    );
    let loss = slopes::entropy_in_time(v, direction, starts, ids, seq_len, n);
    let analytic = listed(g, list)[at].val();
    lemma_one_step(
        limits::difference_quotient(loss, 0real),
        limits::central_quotient(loss, 0real),
        analytic,
        tolerance,
    );
}

/// Two functions with the same limit stay near it together.
proof fn lemma_one_step(
    f: spec_fn(real) -> real,
    g: spec_fn(real) -> real,
    l: real,
    tolerance: real,
)
    requires
        limits::tends(f, l),
        limits::tends(g, l),
        tolerance > 0real,
    ensures
        exists|step: real|
            step > 0real && limits::stays_near(f, l, tolerance, step)
                && #[trigger] limits::stays_near(g, l, tolerance, step),
{
    let a = limits::lemma_stays(f, l, tolerance);
    let b = limits::lemma_stays(g, l, tolerance);
    let step = if a < b {
        a
    } else {
        b
    };
    assert(limits::stays_near(f, l, tolerance, step));
    assert(limits::stays_near(g, l, tolerance, step));
}

/// The lists of a fixed-context model's weights.
pub enum WindowList {
    /// The table of embeddings.
    Embedding,
    /// From the context to the hidden layer.
    Hidden,
    /// The bias of the hidden layer.
    HiddenBias,
    /// From the hidden layer to the logits.
    Output,
    /// The bias of the logits.
    OutputBias,
}

/// The direction in which one weight of a fixed-context model moves and no
/// other.
pub open spec fn window_alone(
    v: windowed::Params<Real>,
    list: WindowList,
    at: int,
) -> windowed::Params<Real> {
    windowed::Params {
        vocab_size: v.vocab_size,
        embed_dim: v.embed_dim,
        context: v.context,
        hidden_dim: v.hidden_dim,
        embedding: spike(v.embedding.len(), place(list is Embedding, at)),
        w1: spike(v.w1.len(), place(list is Hidden, at)),
        b1: spike(v.b1.len(), place(list is HiddenBias, at)),
        w2: spike(v.w2.len(), place(list is Output, at)),
        b2: spike(v.b2.len(), place(list is OutputBias, at)),
    }
}

/// The gradients by one list of a fixed-context model's weights.
pub open spec fn window_listed(g: windowed::Gradients<Real>, list: WindowList) -> Seq<Real> {
    match list {
        WindowList::Embedding => g.d_embedding,
        WindowList::Hidden => g.d_w1,
        WindowList::HiddenBias => g.d_b1,
        WindowList::Output => g.d_w2,
        WindowList::OutputBias => g.d_b2,
    }
}

/// The gradient of every weight of a fixed-context model can be told from
/// difference quotients, too.
pub proof fn law_each_window_gradient_is_within_any_tolerance(
    v: windowed::Params<Real>,
    list: WindowList,
    at: int,
    indices: Seq<usize>,
    example_ctx: Seq<usize>,
    example_target: Seq<usize>,
    n: nat,
    tolerance: real,
)
    requires
        reals::exponential_is_complete(),
        v.shaped(),
        n <= indices.len(),
        window_gradient::trains_on(v, indices, example_ctx, example_target),
        0 <= at < window_listed(
            v.gradients(indices, example_ctx, example_target, n),
            list,
        ).len(),
        tolerance > 0real,
    ensures
        ({
            let loss = slopes::window_entropy_in_time(
                v,
                window_alone(v, list, at),
                indices,
                example_ctx,
                example_target,
                n,
            );
            let analytic = window_listed(
                v.gradients(indices, example_ctx, example_target, n),
                list,
            )[at].val();
            exists|step: real|
                step > 0real && limits::stays_near(
                    limits::difference_quotient(loss, 0real),
                    analytic,
                    tolerance,
                    step,
                ) && #[trigger] limits::stays_near(
                    limits::central_quotient(loss, 0real),
                    analytic,
                    tolerance,
                    step,
                )
        }),
{
    let g = v.gradients(indices, example_ctx, example_target, n);
    let direction = window_alone(v, list, at);
    window_gradient::lemma_gradients_match(v, indices, indices, example_ctx, example_target, n);
    lemma_dot_spike(g.d_embedding, place(list is Embedding, at), g.d_embedding.len());
    lemma_dot_spike(g.d_w1, place(list is Hidden, at), g.d_w1.len());
    lemma_dot_spike(g.d_b1, place(list is HiddenBias, at), g.d_b1.len());
    lemma_dot_spike(g.d_w2, place(list is Output, at), g.d_w2.len());
    lemma_dot_spike(g.d_b2, place(list is OutputBias, at), g.d_b2.len());
    slopes::law_window_gradients_are_limits_of_difference_quotients(
        v,
        direction,
        indices,
        example_ctx,
        example_target,
        n,
    );
    let loss = slopes::window_entropy_in_time(
        v,
        direction,
        indices,
        example_ctx,
        example_target,
        n,
    );
    lemma_one_step(
        limits::difference_quotient(loss, 0real),
        limits::central_quotient(loss, 0real),
        window_listed(g, list)[at].val(),
        tolerance,
    );
}

} // verus!
