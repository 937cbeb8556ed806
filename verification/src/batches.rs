//! Gradients of batches on the real numbers: a batch may be split, its parts
//! worked on separately, and their gradients added.

use crate::bptt;
use crate::bptt::{Backward, Grad, Gradients};
use crate::dense;
use crate::model::{Params, Step};
use crate::pointwise;
use crate::reals::Real;
use crate::scalar;
use crate::scalar::Number;
use crate::training;
use vstd::prelude::*;

verus! {

/// Lists of the same length may be added either way round, and adding zeros
/// changes nothing.
pub proof fn lemma_added(a: Seq<Real>, b: Seq<Real>)
    requires
        a.len() == b.len(),
    ensures
        dense::added(a, b) == dense::added(b, a),
        dense::added(a, scalar::noughts(a.len())) == a,
        dense::added(scalar::noughts(a.len()), a) == a,
{
    assert(dense::added(a, b) =~= dense::added(b, a));
    assert(dense::added(a, scalar::noughts(a.len())) =~= a);
    assert(dense::added(scalar::noughts(a.len()), a) =~= a);
}

/// Gradients may be added either way round, and the gradients of nothing
/// change nothing.
pub proof fn law_adding_gradients_commutes(
    p: Params<Real>,
    a: Gradients<Real>,
    b: Gradients<Real>,
)
    requires
        a.matches(p),
        b.matches(p),
    ensures
        a.plus(b) == b.plus(a),
        a.plus(p.nothing()) == a,
        p.nothing().plus(a) == a,
{
    lemma_added(a.d_embedding, b.d_embedding);
    lemma_added(a.d_w_z, b.d_w_z);
    lemma_added(a.d_w_r, b.d_w_r);
    lemma_added(a.d_w_h, b.d_w_h);
    lemma_added(a.d_u_z, b.d_u_z);
    lemma_added(a.d_u_r, b.d_u_r);
    lemma_added(a.d_u_h, b.d_u_h);
    lemma_added(a.d_b_z, b.d_b_z);
    lemma_added(a.d_b_r, b.d_b_r);
    lemma_added(a.d_b_h, b.d_b_h);
    lemma_added(a.d_w_out, b.d_w_out);
    lemma_added(a.d_b_out, b.d_b_out);
}

/// No chunks have no gradients and no loss, whatever the numbers.
pub proof fn law_no_chunks_have_no_gradients<S: Number>(
    p: Params<S>,
    ids: Seq<usize>,
    seq_len: nat,
)
    ensures
        p.gradients(seq![], ids, seq_len, 0) == Gradients::<S>::none(
            p.vocab_size as nat,
            p.embed_dim as nat,
            p.hidden_dim as nat,
        ),
{
}

/// The gradients of nothing have the shapes of a model's weights, and are 0
/// throughout.
pub proof fn law_zero_gradients_have_the_shapes_of_the_weights<S: Number>(p: Params<S>)
    requires
        p.shaped(),
    ensures
        ({
            let g = Gradients::<S>::none(
                p.vocab_size as nat,
                p.embed_dim as nat,
                p.hidden_dim as nat,
            );
            &&& g.d_embedding == scalar::noughts::<S>(p.embedding.len())
            &&& g.d_w_z == scalar::noughts::<S>(p.w_z.len())
            &&& g.d_w_r == scalar::noughts::<S>(p.w_r.len())
            &&& g.d_w_h == scalar::noughts::<S>(p.w_h.len())
            &&& g.d_u_z == scalar::noughts::<S>(p.u_z.len())
            &&& g.d_u_r == scalar::noughts::<S>(p.u_r.len())
            &&& g.d_u_h == scalar::noughts::<S>(p.u_h.len())
            &&& g.d_b_z == scalar::noughts::<S>(p.b_z.len())
            &&& g.d_b_r == scalar::noughts::<S>(p.b_r.len())
            &&& g.d_b_h == scalar::noughts::<S>(p.b_h.len())
            &&& g.d_w_out == scalar::noughts::<S>(p.w_out.len())
            &&& g.d_b_out == scalar::noughts::<S>(p.b_out.len())
            &&& g.loss == S::nought()
        }),
{
}

/// Adding an outer product to a sum is adding it to the second summand.
pub proof fn lemma_outer_of_sum(a: Seq<Real>, b: Seq<Real>, x: Seq<Real>, d: Seq<Real>)
    requires
        a.len() == b.len(),
    ensures
        dense::outer(dense::added(a, b), x, d) == dense::added(a, dense::outer(b, x, d)),
{
    assert(dense::outer(dense::added(a, b), x, d) =~= dense::added(a, dense::outer(b, x, d)));
}

/// Adding a list to a sum is adding it to the second summand.
pub proof fn lemma_added_to_sum(a: Seq<Real>, b: Seq<Real>, d: Seq<Real>)
    requires
        a.len() == b.len(),
    ensures
        dense::added(dense::added(a, b), d) == dense::added(a, dense::added(b, d)),
{
    assert(dense::added(dense::added(a, b), d) =~= dense::added(a, dense::added(b, d)));
}

/// Adding to a row of a sum is adding to that row of the second summand.
pub proof fn lemma_row_of_sum(a: Seq<Real>, b: Seq<Real>, width: int, k: int, d: Seq<Real>)
    requires
        a.len() == b.len(),
    ensures
        dense::row_added(dense::added(a, b), width, k, d) == dense::added(
            a,
            dense::row_added(b, width, k, d),
        ),
{
    assert(dense::row_added(dense::added(a, b), width, k, d) =~= dense::added(
        a,
        dense::row_added(b, width, k, d),
    ));
}

/// Adding a step to a sum of gradients is adding it to the second summand.
proof fn lemma_step_of_sum(
    a: Gradients<Real>,
    b: Gradients<Real>,
    p: Params<Real>,
    tok: int,
    h: Seq<Real>,
    out: Step<Real>,
    back: Backward<Real>,
)
    requires
        a.matches(p),
        b.matches(p),
    ensures
        a.plus(b).with_step(p, tok, h, out, back) == a.plus(b.with_step(p, tok, h, out, back)),
        b.with_step(p, tok, h, out, back).matches(p),
{
    let x = p.input(tok);
    let rh = pointwise::products(p.hidden_dim as nat, out.r, h);
    lemma_row_of_sum(a.d_embedding, b.d_embedding, p.embed_dim as int, tok, back.d_x);
    lemma_outer_of_sum(a.d_w_z, b.d_w_z, x, back.d_az);
    lemma_outer_of_sum(a.d_w_r, b.d_w_r, x, back.d_ar);
    lemma_outer_of_sum(a.d_w_h, b.d_w_h, x, back.d_ah);
    lemma_outer_of_sum(a.d_u_z, b.d_u_z, h, back.d_az);
    lemma_outer_of_sum(a.d_u_r, b.d_u_r, h, back.d_ar);
    lemma_outer_of_sum(a.d_u_h, b.d_u_h, rh, back.d_ah);
    lemma_added_to_sum(a.d_b_z, b.d_b_z, back.d_az);
    lemma_added_to_sum(a.d_b_r, b.d_b_r, back.d_ar);
    lemma_added_to_sum(a.d_b_h, b.d_b_h, back.d_ah);
    lemma_outer_of_sum(a.d_w_out, b.d_w_out, out.h, back.d_logits);
    lemma_added_to_sum(a.d_b_out, b.d_b_out, back.d_logits);
}

/// Going back through a chunk from a sum of gradients is going back through
/// it from the second summand.
proof fn lemma_unrolled_from_sum(
    p: Params<Real>,
    seq: Seq<usize>,
    t: nat,
    d_h_next: Seq<Real>,
    a: Gradients<Real>,
    b: Gradients<Real>,
)
    requires
        a.matches(p),
        b.matches(p),
    ensures
        p.unrolled(seq, t, d_h_next, a.plus(b)) == a.plus(p.unrolled(seq, t, d_h_next, b)),
        p.unrolled(seq, t, d_h_next, b).matches(p),
    decreases t,
{
    if t > 0 {
        let s = (t - 1) as nat;
        let back = p.backward_at(seq, s, d_h_next);
        let tok = seq[s as int] as int;
        let h = p.state_before(seq, s);
        let out = p.step_at(seq, s);
        lemma_step_of_sum(a, b, p, tok, h, out, back);
        lemma_unrolled_from_sum(
            p,
            seq,
            s,
            back.d_h_prev,
            a,
            b.with_step(p, tok, h, out, back),
        );
    }
}

/// Adding a chunk's loss to a sum is adding it to the second summand.
proof fn lemma_loss_of_sum(p: Params<Real>, seq: Seq<usize>, t: nat, a: Real, b: Real)
    ensures
        p.loss_after(seq, t, a.plus(b)) == a.plus(p.loss_after(seq, t, b)),
    decreases t,
{
    if t > 0 {
        lemma_loss_of_sum(p, seq, (t - 1) as nat, a, b);
    }
}

/// Adding a chunk to a sum of gradients is adding it to the second summand.
proof fn lemma_chunk_of_sum(
    p: Params<Real>,
    seq: Seq<usize>,
    seq_len: nat,
    a: Gradients<Real>,
    b: Gradients<Real>,
)
    requires
        a.matches(p),
        b.matches(p),
    ensures
        p.with_chunk(seq, seq_len, a.plus(b)) == a.plus(p.with_chunk(seq, seq_len, b)),
        p.with_chunk(seq, seq_len, b).matches(p),
{
    let last = scalar::noughts::<Real>(p.hidden_dim as nat);
    let begun = Gradients { loss: p.loss_after(seq, seq_len, b.loss), ..b };
    lemma_loss_of_sum(p, seq, seq_len, a.loss, b.loss);
    assert(a.plus(begun) == (Gradients {
        loss: p.loss_after(seq, seq_len, a.plus(b).loss),
        ..a.plus(b)
    }));
    lemma_unrolled_from_sum(p, seq, seq_len, last, a, begun);
}

/// The gradients of chunks have the shapes of the model's weights.
pub proof fn lemma_gradients_match(
    p: Params<Real>,
    starts: Seq<usize>,
    ids: Seq<usize>,
    seq_len: nat,
    n: nat,
)
    ensures
        p.gradients(starts, ids, seq_len, n).matches(p),
    decreases n,
{
    if n > 0 {
        lemma_gradients_match(p, starts, ids, seq_len, (n - 1) as nat);
        let g = p.gradients(starts, ids, seq_len, (n - 1) as nat);
        lemma_chunk_of_sum(p, bptt::chunk(ids, starts[n - 1] as int, seq_len), seq_len, g, g);
    }
}

/// A batch may be split anywhere: the gradients and the loss of its parts,
/// each accumulated from nothing, add up to those of the whole.
pub proof fn law_parts_of_a_batch_add_up(
    p: Params<Real>,
    starts: Seq<usize>,
    ids: Seq<usize>,
    seq_len: nat,
    m: nat,
    n: nat,
)
    requires
        m <= n <= starts.len(),
    ensures
        p.gradients(starts, ids, seq_len, n) == p.gradients(
            starts.take(m as int),
            ids,
            seq_len,
            m,
        ).plus(p.gradients(starts.skip(m as int), ids, seq_len, (n - m) as nat)),
    decreases n,
{
    let first = p.gradients(starts.take(m as int), ids, seq_len, m);
    let rest = starts.skip(m as int);
    lemma_gradients_match(p, starts.take(m as int), ids, seq_len, m);
    if n == m {
        lemma_only_the_first_count(p, starts, starts.take(m as int), ids, seq_len, m);
        assert(first.plus(p.gradients(rest, ids, seq_len, 0)) =~= first);
    } else {
        let k = (n - 1 - m) as nat;
        law_parts_of_a_batch_add_up(p, starts, ids, seq_len, m, (n - 1) as nat);
        lemma_gradients_match(p, rest, ids, seq_len, k);
        assert(rest[k as int] == starts[n - 1]);
        lemma_chunk_of_sum(
            p,
            bptt::chunk(ids, starts[n - 1] as int, seq_len),
            seq_len,
            first,
            p.gradients(rest, ids, seq_len, k),
        );
    }
}

/// The gradients of the first parts of a batch, added up.
proof fn lemma_first_parts(
    p: Params<Real>,
    starts: Seq<usize>,
    ids: Seq<usize>,
    seq_len: nat,
    size: nat,
    parts: Seq<Grad<Real>>,
    k: nat,
)
    requires
        0 < size,
        k <= parts.len(),
        are_gradients_of_parts(p, starts, ids, seq_len, size, parts),
    ensures
        ({
            let end = training::end_of_parts(starts.len() as int, size as int, k as int);
            &&& 0 <= end <= starts.len()
            &&& p.nothing().with_parts(parts, k) == p.gradients(starts, ids, seq_len, end as nat)
        }),
    decreases k,
{
    if k > 0 {
        let j = (k - 1) as nat;
        lemma_first_parts(p, starts, ids, seq_len, size, parts, j);
        training::lemma_part_fits(starts.len(), size, j as int);
        let m = training::end_of_parts(starts.len() as int, size as int, j as int);
        let n = training::end_of_parts(starts.len() as int, size as int, k as int);
        let piece = training::part(starts, size as int, j as int);
        assert(parts[j as int]@ == p.gradients(piece, ids, seq_len, piece.len()));
        law_parts_of_a_batch_add_up(p, starts, ids, seq_len, m as nat, n as nat);
        lemma_only_the_first_count(p, starts, starts.take(m), ids, seq_len, m as nat);
        assert forall|i: int| 0 <= i < n - m implies #[trigger] starts.skip(m)[i] == piece[i] by {}
        lemma_only_the_first_count(p, starts.skip(m), piece, ids, seq_len, (n - m) as nat);
    }
}

/// Whether `parts` are the gradients of the parts of `size` of a batch.
pub open spec fn are_gradients_of_parts(
    p: Params<Real>,
    starts: Seq<usize>,
    ids: Seq<usize>,
    seq_len: nat,
    size: nat,
    parts: Seq<Grad<Real>>,
) -> bool {
    &&& parts.len() == training::part_count(starts.len(), size)
    &&& forall|k: int|
        0 <= k < parts.len() ==> (#[trigger] parts[k])@ == p.gradients(
            training::part(starts, size as int, k),
            ids,
            seq_len,
            training::part(starts, size as int, k).len(),
        )
}

/// However many threads a batch is spread over, the model learns the same
/// from it: the gradients of the parts that it is dealt out in add up to
/// those of the batch.
pub proof fn law_any_number_of_threads_learns_the_same(
    p: Params<Real>,
    starts: Seq<usize>,
    ids: Seq<usize>,
    seq_len: nat,
    size: nat,
    parts: Seq<Grad<Real>>,
)
    requires
        0 < size,
        are_gradients_of_parts(p, starts, ids, seq_len, size, parts),
    ensures
        p.nothing().with_parts(parts, parts.len()) == p.gradients(
            starts,
            ids,
            seq_len,
            starts.len(),
        ),
{
    lemma_first_parts(p, starts, ids, seq_len, size, parts, parts.len());
    training::lemma_part_fits(starts.len(), size, parts.len() as int);
}

/// The gradients of the first chunks depend on those alone.
proof fn lemma_only_the_first_count(
    p: Params<Real>,
    starts: Seq<usize>,
    others: Seq<usize>,
    ids: Seq<usize>,
    seq_len: nat,
    n: nat,
)
    requires
        forall|i: int| 0 <= i < n ==> #[trigger] starts[i] == others[i],
    ensures
        p.gradients(starts, ids, seq_len, n) == p.gradients(others, ids, seq_len, n),
    decreases n,
{
    if n > 0 {
        lemma_only_the_first_count(p, starts, others, ids, seq_len, (n - 1) as nat);
        assert(starts[n - 1] == others[n - 1]);
    }
}

} // verus!
