//! The gradients as limits of difference quotients: move the weights of a
//! model a little in any direction, and the cross-entropy changes by the
//! gradients, multiplied with the direction, for each unit moved.

use crate::bptt;
use crate::dual;
use crate::dual::Dual;
use crate::gradient;
use crate::limits;
use crate::model::Params;
use crate::paths;
use crate::paths::{At, Followed, Path};
use crate::reals;
use crate::reals::Real;
use crate::related;
use crate::window_gradient;
use crate::windowed;
use vstd::prelude::*;

verus! {

/// A list after a time of moving at given speeds.
pub open spec fn moved_list(xs: Seq<Real>, speeds: Seq<Real>, s: real) -> Seq<Real> {
    Seq::new(
        xs.len(),
        |i: int| Real::of(xs[i].val() + reals::product(s, speeds[i].val())),
    )
}

/// A list on its way at given speeds.
spec fn lines(xs: Seq<Real>, speeds: Seq<Real>) -> Seq<Path> {
    Seq::new(
        xs.len(),
        |i: int|
            Path::of(|s: real| Real::of(xs[i].val() + reals::product(s, speeds[i].val()))),
    )
}

/// A list at the start, and its speeds.
spec fn starting(xs: Seq<Real>, speeds: Seq<Real>) -> Seq<Dual<Real>> {
    Seq::new(xs.len(), |i: int| Dual { re: xs[i], du: speeds[i] })
}

/// A list on its way is where it should be at any time, and tracked at the
/// start.
proof fn lemma_lines(xs: Seq<Real>, speeds: Seq<Real>, s: real)
    requires
        xs.len() == speeds.len(),
    ensures
        related::lists(At { time: s }, lines(xs, speeds), moved_list(xs, speeds, s)),
        related::lists(Followed { time: 0real }, lines(xs, speeds), starting(xs, speeds)),
        dual::values(starting(xs, speeds)) == xs,
        dual::rates(starting(xs, speeds)) == speeds,
{
    let u = lines(xs, speeds);
    let v = starting(xs, speeds);
    assert forall|i: int| 0 <= i < u.len() implies paths::tracks(#[trigger] u[i], 0real, v[i]) by {
        let c = u[i].curve();
        assert forall|x: real| #[trigger] c(x) == xs[i].val() + reals::product(
            x,
            speeds[i].val(),
        ) by {}
        limits::lemma_slope_line(c, 0real, xs[i].val(), speeds[i].val());
        reals::lemma_product(speeds[i].val(), 0real, 0real);
        reals::lemma_product(0real, speeds[i].val(), 0real);
        reals::lemma_same_value(u[i].at(0real), xs[i]);
    }
    assert(dual::values(v) =~= xs);
    assert(dual::rates(v) =~= speeds);
}

/// A recurrent model after a time of moving at given speeds.
pub open spec fn moved(v: Params<Real>, speed: Params<Real>, s: real) -> Params<Real> {
    Params {
        vocab_size: v.vocab_size,
        embed_dim: v.embed_dim,
        hidden_dim: v.hidden_dim,
        embedding: moved_list(v.embedding, speed.embedding, s),
        w_z: moved_list(v.w_z, speed.w_z, s),
        w_r: moved_list(v.w_r, speed.w_r, s),
        w_h: moved_list(v.w_h, speed.w_h, s),
        u_z: moved_list(v.u_z, speed.u_z, s),
        u_r: moved_list(v.u_r, speed.u_r, s),
        u_h: moved_list(v.u_h, speed.u_h, s),
        b_z: moved_list(v.b_z, speed.b_z, s),
        b_r: moved_list(v.b_r, speed.b_r, s),
        b_h: moved_list(v.b_h, speed.b_h, s),
        w_out: moved_list(v.w_out, speed.w_out, s),
        b_out: moved_list(v.b_out, speed.b_out, s),
    }
}

/// A recurrent model on its way at given speeds.
spec fn on_its_way(v: Params<Real>, speed: Params<Real>) -> Params<Path> {
    Params {
        vocab_size: v.vocab_size,
        embed_dim: v.embed_dim,
        hidden_dim: v.hidden_dim,
        embedding: lines(v.embedding, speed.embedding),
        w_z: lines(v.w_z, speed.w_z),
        w_r: lines(v.w_r, speed.w_r),
        w_h: lines(v.w_h, speed.w_h),
        u_z: lines(v.u_z, speed.u_z),
        u_r: lines(v.u_r, speed.u_r),
        u_h: lines(v.u_h, speed.u_h),
        b_z: lines(v.b_z, speed.b_z),
        b_r: lines(v.b_r, speed.b_r),
        b_h: lines(v.b_h, speed.b_h),
        w_out: lines(v.w_out, speed.w_out),
        b_out: lines(v.b_out, speed.b_out),
    }
}

/// A recurrent model at the start, and its speeds.
spec fn at_the_start(v: Params<Real>, speed: Params<Real>) -> Params<Dual<Real>> {
    Params {
        vocab_size: v.vocab_size,
        embed_dim: v.embed_dim,
        hidden_dim: v.hidden_dim,
        embedding: starting(v.embedding, speed.embedding),
        w_z: starting(v.w_z, speed.w_z),
        w_r: starting(v.w_r, speed.w_r),
        w_h: starting(v.w_h, speed.w_h),
        u_z: starting(v.u_z, speed.u_z),
        u_r: starting(v.u_r, speed.u_r),
        u_h: starting(v.u_h, speed.u_h),
        b_z: starting(v.b_z, speed.b_z),
        b_r: starting(v.b_r, speed.b_r),
        b_h: starting(v.b_h, speed.b_h),
        w_out: starting(v.w_out, speed.w_out),
        b_out: starting(v.b_out, speed.b_out),
    }
}

/// Whether speeds have the shapes of a recurrent model's weights.
pub open spec fn fits(v: Params<Real>, speed: Params<Real>) -> bool {
    &&& speed.shaped()
    &&& speed.vocab_size == v.vocab_size
    &&& speed.embed_dim == v.embed_dim
    &&& speed.hidden_dim == v.hidden_dim
}

proof fn lemma_on_its_way(v: Params<Real>, speed: Params<Real>, s: real)
    requires
        v.shaped(),
        fits(v, speed),
    ensures
        related::models(At { time: s }, on_its_way(v, speed), moved(v, speed, s)),
        related::models(Followed { time: 0real }, on_its_way(v, speed), at_the_start(v, speed)),
        gradient::values_of(at_the_start(v, speed)) == v,
        gradient::speeds_of(at_the_start(v, speed)) == speed,
{
    lemma_lines(v.embedding, speed.embedding, s);
    lemma_lines(v.w_z, speed.w_z, s);
    lemma_lines(v.w_r, speed.w_r, s);
    lemma_lines(v.w_h, speed.w_h, s);
    lemma_lines(v.u_z, speed.u_z, s);
    lemma_lines(v.u_r, speed.u_r, s);
    lemma_lines(v.u_h, speed.u_h, s);
    lemma_lines(v.b_z, speed.b_z, s);
    lemma_lines(v.b_r, speed.b_r, s);
    lemma_lines(v.b_h, speed.b_h, s);
    lemma_lines(v.w_out, speed.w_out, s);
    lemma_lines(v.b_out, speed.b_out, s);
}

/// The cross-entropy of a recurrent model that moves, as a function of time.
pub open spec fn entropy_in_time(
    v: Params<Real>,
    speed: Params<Real>,
    starts: Seq<usize>,
    ids: Seq<usize>,
    seq_len: nat,
    n: nat,
) -> spec_fn(real) -> real {
    |s: real| gradient::entropy_over(moved(v, speed, s), starts, ids, seq_len, n).val()
}

/// Backpropagation through time computes the limit of difference quotients:
/// move the weights in any direction, and the difference quotients of the
/// cross-entropy, to one side and central, tend to the accumulated gradients
/// multiplied with the direction.
///
/// The loss that is reported beside the gradients is this cross-entropy but
/// for the `1e-9` that is added to each probability to keep its logarithm
/// finite.
pub proof fn law_gradients_are_limits_of_difference_quotients(
    v: Params<Real>,
    speed: Params<Real>,
    starts: Seq<usize>,
    ids: Seq<usize>,
    seq_len: nat,
    n: nat,
)
    requires
        reals::exponential_is_complete(),
        v.shaped(),
        fits(v, speed),
        n <= starts.len(),
        forall|i: int|
            0 <= i < starts.len() ==> (#[trigger] starts[i]) + seq_len + 1 <= ids.len(),
        forall|i: int|
            0 <= i < starts.len() ==> v.trains_on(
                bptt::chunk(ids, #[trigger] starts[i] as int, seq_len),
            ),
    ensures
        ({
            let loss = entropy_in_time(v, speed, starts, ids, seq_len, n);
            let slope = gradient::along(v.gradients(starts, ids, seq_len, n), speed);
            &&& limits::tends(limits::difference_quotient(loss, 0real), slope)
            &&& limits::tends(limits::central_quotient(loss, 0real), slope)
        }),
{
    let p = on_its_way(v, speed);
    let q = at_the_start(v, speed);
    let loss = entropy_in_time(v, speed, starts, ids, seq_len, n);
    let path = gradient::entropy_over(p, starts, ids, seq_len, n);
    assert forall|i: int| 0 <= i < starts.len() implies p.trains_on(
        bptt::chunk(ids, #[trigger] starts[i] as int, seq_len),
    ) && q.trains_on(bptt::chunk(ids, starts[i] as int, seq_len)) by {
        let seq = bptt::chunk(ids, starts[i] as int, seq_len);
        assert(v.trains_on(seq));
        assert forall|t: int| 0 <= t < seq.len() - 1 implies p.embeds(#[trigger] seq[t] as int)
            && q.embeds(seq[t] as int) by {
            assert(v.embeds(seq[t] as int));
        }
    }
    assert forall|s: real| #[trigger] loss(s) == (path.curve())(s) by {
        lemma_on_its_way(v, speed, s);
        related::lemma_entropy_over(
            At { time: s },
            p,
            moved(v, speed, s),
            starts,
            ids,
            seq_len,
            n,
        );
    }
    lemma_on_its_way(v, speed, 0real);
    related::lemma_entropy_over(Followed { time: 0real }, p, q, starts, ids, seq_len, n);
    gradient::law_gradients_are_derivatives(q, starts, ids, seq_len, n);
    let slope = gradient::along(v.gradients(starts, ids, seq_len, n), speed);
    limits::lemma_slope_same(path.curve(), loss, 0real, slope);
    limits::lemma_central_quotients_tend(loss, 0real, slope);
}

/// A fixed-context model after a time of moving at given speeds.
pub open spec fn moved_window(
    v: windowed::Params<Real>,
    speed: windowed::Params<Real>,
    s: real,
) -> windowed::Params<Real> {
    windowed::Params {
        vocab_size: v.vocab_size,
        embed_dim: v.embed_dim,
        context: v.context,
        hidden_dim: v.hidden_dim,
        embedding: moved_list(v.embedding, speed.embedding, s),
        w1: moved_list(v.w1, speed.w1, s),
        b1: moved_list(v.b1, speed.b1, s),
        w2: moved_list(v.w2, speed.w2, s),
        b2: moved_list(v.b2, speed.b2, s),
    }
}

/// A fixed-context model on its way at given speeds.
spec fn window_on_its_way(
    v: windowed::Params<Real>,
    speed: windowed::Params<Real>,
) -> windowed::Params<Path> {
    windowed::Params {
        vocab_size: v.vocab_size,
        embed_dim: v.embed_dim,
        context: v.context,
        hidden_dim: v.hidden_dim,
        embedding: lines(v.embedding, speed.embedding),
        w1: lines(v.w1, speed.w1),
        b1: lines(v.b1, speed.b1),
        w2: lines(v.w2, speed.w2),
        b2: lines(v.b2, speed.b2),
    }
}

/// A fixed-context model at the start, and its speeds.
spec fn window_at_the_start(
    v: windowed::Params<Real>,
    speed: windowed::Params<Real>,
) -> windowed::Params<Dual<Real>> {
    windowed::Params {
        vocab_size: v.vocab_size,
        embed_dim: v.embed_dim,
        context: v.context,
        hidden_dim: v.hidden_dim,
        embedding: starting(v.embedding, speed.embedding),
        w1: starting(v.w1, speed.w1),
        b1: starting(v.b1, speed.b1),
        w2: starting(v.w2, speed.w2),
        b2: starting(v.b2, speed.b2),
    }
}

/// Whether speeds have the shapes of a fixed-context model's weights.
pub open spec fn fits_window(
    v: windowed::Params<Real>,
    speed: windowed::Params<Real>,
) -> bool {
    &&& speed.shaped()
    &&& speed.vocab_size == v.vocab_size
    &&& speed.embed_dim == v.embed_dim
    &&& speed.context == v.context
    &&& speed.hidden_dim == v.hidden_dim
}

proof fn lemma_window_on_its_way(
    v: windowed::Params<Real>,
    speed: windowed::Params<Real>,
    s: real,
)
    requires
        v.shaped(),
        fits_window(v, speed),
    ensures
        related::windows(At { time: s }, window_on_its_way(v, speed), moved_window(v, speed, s)),
        related::windows(
            Followed { time: 0real },
            window_on_its_way(v, speed),
            window_at_the_start(v, speed),
        ),
        window_gradient::values_of(window_at_the_start(v, speed)) == v,
        window_gradient::speeds_of(window_at_the_start(v, speed)) == speed,
{
    lemma_lines(v.embedding, speed.embedding, s);
    lemma_lines(v.w1, speed.w1, s);
    lemma_lines(v.b1, speed.b1, s);
    lemma_lines(v.w2, speed.w2, s);
    lemma_lines(v.b2, speed.b2, s);
}

/// The cross-entropy of a fixed-context model that moves, as a function of
/// time.
pub open spec fn window_entropy_in_time(
    v: windowed::Params<Real>,
    speed: windowed::Params<Real>,
    indices: Seq<usize>,
    example_ctx: Seq<usize>,
    example_target: Seq<usize>,
    n: nat,
) -> spec_fn(real) -> real {
    |s: real|
        window_gradient::entropy_over(
            moved_window(v, speed, s),
            indices,
            example_ctx,
            example_target,
            n,
        ).val()
}

/// Backpropagation computes the limit of difference quotients for the
/// fixed-context model, too.
pub proof fn law_window_gradients_are_limits_of_difference_quotients(
    v: windowed::Params<Real>,
    speed: windowed::Params<Real>,
    indices: Seq<usize>,
    example_ctx: Seq<usize>,
    example_target: Seq<usize>,
    n: nat,
)
    requires
        reals::exponential_is_complete(),
        v.shaped(),
        fits_window(v, speed),
        n <= indices.len(),
        window_gradient::trains_on(v, indices, example_ctx, example_target),
    ensures
        ({
            let loss = window_entropy_in_time(
                v,
                speed,
                indices,
                example_ctx,
                example_target,
                n,
            );
            let slope = window_gradient::along(
                v.gradients(indices, example_ctx, example_target, n),
                speed,
            );
            &&& limits::tends(limits::difference_quotient(loss, 0real), slope)
            &&& limits::tends(limits::central_quotient(loss, 0real), slope)
        }),
{
    let p = window_on_its_way(v, speed);
    let q = window_at_the_start(v, speed);
    let loss = window_entropy_in_time(v, speed, indices, example_ctx, example_target, n);
    let path = window_gradient::entropy_over(p, indices, example_ctx, example_target, n);
    assert forall|i: int| 0 <= i < indices.len() implies {
        &&& (#[trigger] indices[i]) < example_target.len()
        &&& p.reads(crate::dense::row(example_ctx, p.context as int, indices[i] as int))
        &&& q.reads(crate::dense::row(example_ctx, q.context as int, indices[i] as int))
        &&& example_target[indices[i] as int] < p.vocab_size
    } by {
        let ctx = crate::dense::row(example_ctx, v.context as int, indices[i] as int);
        assert(v.reads(ctx));
        assert forall|k: int| 0 <= k < ctx.len() implies p.embeds(#[trigger] ctx[k] as int)
            && q.embeds(ctx[k] as int) by {
            assert(v.embeds(ctx[k] as int));
        }
    }
    assert(window_gradient::trains_on(p, indices, example_ctx, example_target));
    assert(window_gradient::trains_on(q, indices, example_ctx, example_target));
    assert forall|s: real| #[trigger] loss(s) == (path.curve())(s) by {
        lemma_window_on_its_way(v, speed, s);
        related::lemma_window_entropy(
            At { time: s },
            p,
            moved_window(v, speed, s),
            indices,
            example_ctx,
            example_target,
            n,
        );
    }
    lemma_window_on_its_way(v, speed, 0real);
    related::lemma_window_entropy(
        Followed { time: 0real },
        p,
        q,
        indices,
        example_ctx,
        example_target,
        n,
    );
    window_gradient::law_gradients_are_derivatives(q, indices, example_ctx, example_target, n);
    let slope = window_gradient::along(
        v.gradients(indices, example_ctx, example_target, n),
        speed,
    );
    limits::lemma_slope_same(path.curve(), loss, 0real, slope);
    limits::lemma_central_quotients_tend(loss, 0real, slope);
}

} // verus!
