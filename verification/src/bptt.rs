//! Training the recurrent model: backpropagation through time and the
//! weight update.
//!
//! A chunk is a stretch of `seq_len` input tokens, each with the token after
//! it as its target. The hidden state starts at zero in every chunk. The
//! chunk is run forward first; then its steps are gone through from the last
//! to the first, each handing the gradient by its hidden state back to the
//! step before.

use crate::dense;
use crate::model::{Model, Params, Step, StepOut};
use crate::pointwise;
use crate::scalar;
use crate::scalar::{Number, Scalar};
use vstd::prelude::*;

verus! {

/// Gradients of the same shapes as a model's weights, and the summed loss.
pub struct Grad<S> {
    pub d_embedding: Vec<S>,
    pub d_w_z: Vec<S>,
    pub d_w_r: Vec<S>,
    pub d_w_h: Vec<S>,
    pub d_u_z: Vec<S>,
    pub d_u_r: Vec<S>,
    pub d_u_h: Vec<S>,
    pub d_b_z: Vec<S>,
    pub d_b_r: Vec<S>,
    pub d_b_h: Vec<S>,
    pub d_w_out: Vec<S>,
    pub d_b_out: Vec<S>,
    pub loss: S,
}

/// What specifications see of a [`Grad`].
#[verifier::ext_equal]
pub struct Gradients<S> {
    pub d_embedding: Seq<S>,
    pub d_w_z: Seq<S>,
    pub d_w_r: Seq<S>,
    pub d_w_h: Seq<S>,
    pub d_u_z: Seq<S>,
    pub d_u_r: Seq<S>,
    pub d_u_h: Seq<S>,
    pub d_b_z: Seq<S>,
    pub d_b_r: Seq<S>,
    pub d_b_h: Seq<S>,
    pub d_w_out: Seq<S>,
    pub d_b_out: Seq<S>,
    pub loss: S,
}

impl<S> View for Grad<S> {
    type V = Gradients<S>;

    open spec fn view(&self) -> Gradients<S> {
        Gradients {
            d_embedding: self.d_embedding@,
            d_w_z: self.d_w_z@,
            d_w_r: self.d_w_r@,
            d_w_h: self.d_w_h@,
            d_u_z: self.d_u_z@,
            d_u_r: self.d_u_r@,
            d_u_h: self.d_u_h@,
            d_b_z: self.d_b_z@,
            d_b_r: self.d_b_r@,
            d_b_h: self.d_b_h@,
            d_w_out: self.d_w_out@,
            d_b_out: self.d_b_out@,
            loss: self.loss,
        }
    }
}

/// The gradients of one step by what feeds its parts.
#[verifier::ext_equal]
pub struct Backward<S> {
    pub d_logits: Seq<S>,
    pub d_ah: Seq<S>,
    pub d_ar: Seq<S>,
    pub d_az: Seq<S>,
    pub d_x: Seq<S>,
    pub d_h_prev: Seq<S>,
}

/// A gradient by the new hidden state taken back to the update gate, which
/// moves a slot from the old memory `h` towards the candidate `c`.
pub open spec fn by_update<S: Number>(n: nat, d_h: Seq<S>, c: Seq<S>, h: Seq<S>) -> Seq<S> {
    Seq::new(n, |i: int| d_h[i].times(c[i].minus(h[i])))
}

/// A gradient by the new hidden state taken back to the old memory that the
/// update gate `z` keeps.
pub open spec fn by_kept<S: Number>(n: nat, d_h: Seq<S>, z: Seq<S>) -> Seq<S> {
    Seq::new(n, |i: int| d_h[i].times(S::unit().minus(z[i])))
}

impl<S: Number> Params<S> {
    /// The gradients of a step with hidden state `h` before it and outcome
    /// `out`, where `d_h_next` is what the steps after it ask of its new
    /// hidden state.
    pub open spec fn backward(
        self,
        h: Seq<S>,
        out: Step<S>,
        target: int,
        d_h_next: Seq<S>,
    ) -> Backward<S> {
        let n = self.hidden_dim as nat;
        let d_logits = pointwise::less_target(out.probs, target);
        let d_h = dense::added(
            dense::transposed(scalar::noughts(n), self.w_out, d_logits),
            d_h_next,
        );
        // h' = (1 - z) * h + z * c
        let d_hcand = pointwise::products(n, d_h, out.z);
        let d_z = by_update(n, d_h, out.hcand, h);
        let d_h_kept = by_kept(n, d_h, out.z);
        // c = tanh(Wh.x + Uh.(r * h) + bh)
        let d_ah = pointwise::through_tanh(d_hcand, out.hcand);
        let d_rh = dense::transposed(scalar::noughts(n), self.u_h, d_ah);
        let d_r = pointwise::products(n, d_rh, h);
        let d_h_reset = dense::added(d_h_kept, pointwise::products(n, d_rh, out.r));
        // r = sigmoid(Wr.x + Ur.h + br)
        let d_ar = pointwise::through_sigmoid(d_r, out.r);
        // z = sigmoid(Wz.x + Uz.h + bz)
        let d_az = pointwise::through_sigmoid(d_z, out.z);
        let d_x = dense::transposed(
            dense::transposed(
                dense::transposed(scalar::noughts(self.embed_dim as nat), self.w_h, d_ah),
                self.w_r,
                d_ar,
            ),
            self.w_z,
            d_az,
        );
        let d_h_prev = dense::transposed(
            dense::transposed(d_h_reset, self.u_r, d_ar),
            self.u_z,
            d_az,
        );
        Backward { d_logits, d_ah, d_ar, d_az, d_x, d_h_prev }
    }

    /// The hidden state before step `t` of a chunk.
    pub open spec fn state_before(self, seq: Seq<usize>, t: nat) -> Seq<S>
        decreases t,
    {
        if t == 0 {
            scalar::noughts(self.hidden_dim as nat)
        } else {
            self.step(seq[t - 1] as int, self.state_before(seq, (t - 1) as nat)).h
        }
    }

    /// The outcome of step `t` of a chunk.
    pub open spec fn step_at(self, seq: Seq<usize>, t: nat) -> Step<S> {
        self.step(seq[t as int] as int, self.state_before(seq, t))
    }

    /// A loss after the first `t` steps of a chunk are added to it.
    pub open spec fn loss_after(self, seq: Seq<usize>, t: nat, loss: S) -> S
        decreases t,
    {
        if t == 0 {
            loss
        } else {
            self.loss_after(seq, (t - 1) as nat, loss).plus(
                pointwise::surprise(
                    self.step_at(seq, (t - 1) as nat).probs[seq[t as int] as int],
                ),
            )
        }
    }

    /// The gradients of step `t` of a chunk.
    pub open spec fn backward_at(self, seq: Seq<usize>, t: nat, d_h_next: Seq<S>) -> Backward<S> {
        self.backward(
            self.state_before(seq, t),
            self.step_at(seq, t),
            seq[t as int + 1] as int,
            d_h_next,
        )
    }

    /// Gradients after steps `t - 1` to 0 of a chunk are added to them, in
    /// this order.
    pub open spec fn unrolled(
        self,
        seq: Seq<usize>,
        t: nat,
        d_h_next: Seq<S>,
        g: Gradients<S>,
    ) -> Gradients<S>
        decreases t,
    {
        if t == 0 {
            g
        } else {
            let s = (t - 1) as nat;
            let b = self.backward_at(seq, s, d_h_next);
            self.unrolled(
                seq,
                s,
                b.d_h_prev,
                g.with_step(self, seq[s as int] as int, self.state_before(seq, s), self.step_at(
                    seq,
                    s,
                ), b),
            )
        }
    }

    /// Gradients after a whole chunk is added to them.
    pub open spec fn with_chunk(self, seq: Seq<usize>, seq_len: nat, g: Gradients<S>) -> Gradients<
        S,
    > {
        self.unrolled(
            seq,
            seq_len,
            scalar::noughts(self.hidden_dim as nat),
            Gradients { loss: self.loss_after(seq, seq_len, g.loss), ..g },
        )
    }

    /// The gradients of no chunks.
    pub open spec fn nothing(self) -> Gradients<S> {
        Gradients::none(self.vocab_size as nat, self.embed_dim as nat, self.hidden_dim as nat)
    }

    /// The gradients of the first `n` of the chunks that begin at `starts`.
    pub open spec fn gradients(
        self,
        starts: Seq<usize>,
        ids: Seq<usize>,
        seq_len: nat,
        n: nat,
    ) -> Gradients<S>
        decreases n,
    {
        if n == 0 {
            self.nothing()
        } else {
            self.with_chunk(
                chunk(ids, starts[n - 1] as int, seq_len),
                seq_len,
                self.gradients(starts, ids, seq_len, (n - 1) as nat),
            )
        }
    }

    /// Whether a chunk's tokens can be trained on: all but the last are
    /// inputs and all but the first are targets.
    pub open spec fn trains_on(self, seq: Seq<usize>) -> bool {
        &&& forall|t: int| 0 <= t < seq.len() - 1 ==> self.embeds(#[trigger] seq[t] as int)
        &&& forall|t: int| 0 < t < seq.len() ==> #[trigger] seq[t] < self.vocab_size
    }
}

/// The chunk of `seq_len` inputs, and the last target, that begins at `start`.
pub open spec fn chunk(ids: Seq<usize>, start: int, seq_len: nat) -> Seq<usize> {
    ids.subrange(start, start + seq_len + 1)
}

impl<S: Number> Gradients<S> {
    /// Gradients with nothing in them.
    pub open spec fn none(vocab_size: nat, embed_dim: nat, hidden_dim: nat) -> Gradients<S> {
        Gradients {
            d_embedding: scalar::noughts(vocab_size * embed_dim),
            d_w_z: scalar::noughts(embed_dim * hidden_dim),
            d_w_r: scalar::noughts(embed_dim * hidden_dim),
            d_w_h: scalar::noughts(embed_dim * hidden_dim),
            d_u_z: scalar::noughts(hidden_dim * hidden_dim),
            d_u_r: scalar::noughts(hidden_dim * hidden_dim),
            d_u_h: scalar::noughts(hidden_dim * hidden_dim),
            d_b_z: scalar::noughts(hidden_dim),
            d_b_r: scalar::noughts(hidden_dim),
            d_b_h: scalar::noughts(hidden_dim),
            d_w_out: scalar::noughts(hidden_dim * vocab_size),
            d_b_out: scalar::noughts(vocab_size),
            loss: S::nought(),
        }
    }

    /// Two gradients added entry by entry.
    pub open spec fn plus(self, other: Gradients<S>) -> Gradients<S> {
        Gradients {
            d_embedding: dense::added(self.d_embedding, other.d_embedding),
            d_w_z: dense::added(self.d_w_z, other.d_w_z),
            d_w_r: dense::added(self.d_w_r, other.d_w_r),
            d_w_h: dense::added(self.d_w_h, other.d_w_h),
            d_u_z: dense::added(self.d_u_z, other.d_u_z),
            d_u_r: dense::added(self.d_u_r, other.d_u_r),
            d_u_h: dense::added(self.d_u_h, other.d_u_h),
            d_b_z: dense::added(self.d_b_z, other.d_b_z),
            d_b_r: dense::added(self.d_b_r, other.d_b_r),
            d_b_h: dense::added(self.d_b_h, other.d_b_h),
            d_w_out: dense::added(self.d_w_out, other.d_w_out),
            d_b_out: dense::added(self.d_b_out, other.d_b_out),
            loss: self.loss.plus(other.loss),
        }
    }

    /// These gradients with the first `n` of others added, one after the
    /// other.
    pub open spec fn with_parts(self, parts: Seq<Grad<S>>, n: nat) -> Gradients<S>
        decreases n,
    {
        if n == 0 {
            self
        } else {
            self.with_parts(parts, (n - 1) as nat).plus(parts[n - 1]@)
        }
    }

    /// Gradients after one step is added to them: for each weight the
    /// product of what it multiplies and the gradient by what it feeds.
    pub open spec fn with_step(
        self,
        p: Params<S>,
        tok: int,
        h: Seq<S>,
        out: Step<S>,
        b: Backward<S>,
    ) -> Gradients<S> {
        let x = p.input(tok);
        let rh = pointwise::products(p.hidden_dim as nat, out.r, h);
        Gradients {
            d_embedding: dense::row_added(self.d_embedding, p.embed_dim as int, tok, b.d_x),
            d_w_z: dense::outer(self.d_w_z, x, b.d_az),
            d_w_r: dense::outer(self.d_w_r, x, b.d_ar),
            d_w_h: dense::outer(self.d_w_h, x, b.d_ah),
            d_u_z: dense::outer(self.d_u_z, h, b.d_az),
            d_u_r: dense::outer(self.d_u_r, h, b.d_ar),
            d_u_h: dense::outer(self.d_u_h, rh, b.d_ah),
            d_b_z: dense::added(self.d_b_z, b.d_az),
            d_b_r: dense::added(self.d_b_r, b.d_ar),
            d_b_h: dense::added(self.d_b_h, b.d_ah),
            d_w_out: dense::outer(self.d_w_out, out.h, b.d_logits),
            d_b_out: dense::added(self.d_b_out, b.d_logits),
            loss: self.loss,
        }
    }
}

impl<S> Gradients<S> {
    /// Whether the gradients have the shapes of a model's weights.
    pub open spec fn matches(self, p: Params<S>) -> bool {
        &&& self.d_embedding.len() == p.vocab_size * p.embed_dim
        &&& self.d_w_z.len() == p.embed_dim * p.hidden_dim
        &&& self.d_w_r.len() == p.embed_dim * p.hidden_dim
        &&& self.d_w_h.len() == p.embed_dim * p.hidden_dim
        &&& self.d_u_z.len() == p.hidden_dim * p.hidden_dim
        &&& self.d_u_r.len() == p.hidden_dim * p.hidden_dim
        &&& self.d_u_h.len() == p.hidden_dim * p.hidden_dim
        &&& self.d_b_z.len() == p.hidden_dim
        &&& self.d_b_r.len() == p.hidden_dim
        &&& self.d_b_h.len() == p.hidden_dim
        &&& self.d_w_out.len() == p.hidden_dim * p.vocab_size
        &&& self.d_b_out.len() == p.vocab_size
    }
}

/// Whether the weights of a model of the given sizes can be counted.
pub open spec fn countable(vocab_size: usize, embed_dim: usize, hidden_dim: usize) -> bool {
    &&& vocab_size * embed_dim <= usize::MAX
    &&& embed_dim * hidden_dim <= usize::MAX
    &&& hidden_dim * hidden_dim <= usize::MAX
    &&& hidden_dim * vocab_size <= usize::MAX
}

/// Weights after a step of `scale` against a gradient, as far as both reach.
pub open spec fn descended<S: Number>(weights: Seq<S>, scale: S, d: Seq<S>) -> Seq<S> {
    Seq::new(
        weights.len(),
        |i: int|
            if i < d.len() {
                weights[i].minus(scale.times(d[i]))
            } else {
                weights[i]
            },
    )
}

impl<S: Number> Params<S> {
    /// The model after a step of `scale` against the gradients.
    pub open spec fn updated(self, g: Gradients<S>, scale: S) -> Params<S> {
        Params {
            vocab_size: self.vocab_size,
            embed_dim: self.embed_dim,
            hidden_dim: self.hidden_dim,
            embedding: descended(self.embedding, scale, g.d_embedding),
            w_z: descended(self.w_z, scale, g.d_w_z),
            w_r: descended(self.w_r, scale, g.d_w_r),
            w_h: descended(self.w_h, scale, g.d_w_h),
            u_z: descended(self.u_z, scale, g.d_u_z),
            u_r: descended(self.u_r, scale, g.d_u_r),
            u_h: descended(self.u_h, scale, g.d_u_h),
            b_z: descended(self.b_z, scale, g.d_b_z),
            b_r: descended(self.b_r, scale, g.d_b_r),
            b_h: descended(self.b_h, scale, g.d_b_h),
            w_out: descended(self.w_out, scale, g.d_w_out),
            b_out: descended(self.b_out, scale, g.d_b_out),
        }
    }
}

impl<S: Scalar> Grad<S> {
    /// Gradients with nothing in them.
    pub fn zeros(vocab_size: usize, embed_dim: usize, hidden_dim: usize) -> (g: Self)
        requires
            countable(vocab_size, embed_dim, hidden_dim),
        ensures
            g@ == Gradients::<S>::none(vocab_size as nat, embed_dim as nat, hidden_dim as nat),
    {
        Grad {
            d_embedding: scalar::zeros(vocab_size * embed_dim),
            d_w_z: scalar::zeros(embed_dim * hidden_dim),
            d_w_r: scalar::zeros(embed_dim * hidden_dim),
            d_w_h: scalar::zeros(embed_dim * hidden_dim),
            d_u_z: scalar::zeros(hidden_dim * hidden_dim),
            d_u_r: scalar::zeros(hidden_dim * hidden_dim),
            d_u_h: scalar::zeros(hidden_dim * hidden_dim),
            d_b_z: scalar::zeros(hidden_dim),
            d_b_r: scalar::zeros(hidden_dim),
            d_b_h: scalar::zeros(hidden_dim),
            d_w_out: scalar::zeros(hidden_dim * vocab_size),
            d_b_out: scalar::zeros(vocab_size),
            loss: S::zero(),
        }
    }

    /// Adds other gradients to these.
    pub fn add_assign(&mut self, other: &Grad<S>)
        ensures
            final(self)@ == old(self)@.plus(other@),
    {
        dense::add_list(&mut self.d_embedding, other.d_embedding.as_slice());
        dense::add_list(&mut self.d_w_z, other.d_w_z.as_slice());
        dense::add_list(&mut self.d_w_r, other.d_w_r.as_slice());
        dense::add_list(&mut self.d_w_h, other.d_w_h.as_slice());
        dense::add_list(&mut self.d_u_z, other.d_u_z.as_slice());
        dense::add_list(&mut self.d_u_r, other.d_u_r.as_slice());
        dense::add_list(&mut self.d_u_h, other.d_u_h.as_slice());
        dense::add_list(&mut self.d_b_z, other.d_b_z.as_slice());
        dense::add_list(&mut self.d_b_r, other.d_b_r.as_slice());
        dense::add_list(&mut self.d_b_h, other.d_b_h.as_slice());
        dense::add_list(&mut self.d_w_out, other.d_w_out.as_slice());
        dense::add_list(&mut self.d_b_out, other.d_b_out.as_slice());
        self.loss = self.loss.add(other.loss);
    }

    /// The gradients of the parts of a batch, added up.
    pub fn add_up(
        vocab_size: usize,
        embed_dim: usize,
        hidden_dim: usize,
        parts: &[Grad<S>],
    ) -> (g: Self)
        requires
            countable(vocab_size, embed_dim, hidden_dim),
        ensures
            g@ == Gradients::<S>::none(
                vocab_size as nat,
                embed_dim as nat,
                hidden_dim as nat,
            ).with_parts(parts@, parts@.len()),
    {
        let mut grad: Grad<S> = Grad::zeros(vocab_size, embed_dim, hidden_dim);
        let ghost start = grad@;
        let mut n: usize = 0;
        while n < parts.len()
            invariant
                n <= parts@.len(),
                grad@ == start.with_parts(parts@, n as nat),
            decreases parts@.len() - n,
        {
            grad.add_assign(&parts[n]);
            n += 1;
        }
        grad
    }
}

/// Moves weights by a step of `scale` against a gradient.
pub fn descend<S: Scalar>(weights: &mut Vec<S>, scale: S, d: &[S])
    ensures
        final(weights)@ == descended(old(weights)@, scale, d@),
{
    let ghost start = weights@;
    let mut i: usize = 0;
    while i < weights.len() && i < d.len()
        invariant
            i <= weights@.len(),
            i <= d@.len(),
            weights@.len() == start.len(),
            forall|k: int|
                0 <= k < i ==> #[trigger] weights@[k] == start[k].minus(scale.times(d@[k])),
            forall|k: int| i <= k < start.len() ==> weights@[k] == start[k],
        decreases weights@.len() - i,
    {
        let updated = weights[i].sub(scale.mul(d[i]));
        weights.set(i, updated);
        i += 1;
    }
    assert(weights@ =~= descended(start, scale, d@));
}

impl<S: Scalar> Model<S> {
    /// One averaged update from a batch that was worked on in parts: adds up
    /// the gradients of the parts, applies them, and returns the summed loss.
    pub fn learn(&mut self, parts: &[Grad<S>], learning_rate: S, batch_len: usize) -> (loss: S)
        requires
            old(self)@.shaped(),
        ensures
            final(self)@ == old(self)@.updated(
                old(self)@.nothing().with_parts(parts@, parts@.len()),
                learning_rate.over(S::natural(batch_len)),
            ),
            final(self)@.shaped(),
            loss == old(self)@.nothing().with_parts(parts@, parts@.len()).loss,
    {
        proof {
            assert(self.embedding.len() == self@.embedding.len());
            assert(self.w_z.len() == self@.w_z.len());
            assert(self.u_z.len() == self@.u_z.len());
            assert(self.w_out.len() == self@.w_out.len());
        }
        let grad = Grad::add_up(self.vocab_size, self.embed_dim, self.hidden_dim, parts);
        self.apply_gradients(&grad, learning_rate, batch_len);
        grad.loss
    }

    /// One averaged update: every weight moves by `learning_rate` times its
    /// gradient over `batch_len`, against the gradient.
    pub fn apply_gradients(&mut self, grad: &Grad<S>, learning_rate: S, batch_len: usize)
        ensures
            final(self)@ == old(self)@.updated(
                grad@,
                learning_rate.over(S::natural(batch_len)),
            ),
            old(self)@.shaped() ==> final(self)@.shaped(),
    {
        let scale = learning_rate.div(S::from_count(batch_len));
        descend(&mut self.embedding, scale, grad.d_embedding.as_slice());
        descend(&mut self.w_z, scale, grad.d_w_z.as_slice());
        descend(&mut self.w_r, scale, grad.d_w_r.as_slice());
        descend(&mut self.w_h, scale, grad.d_w_h.as_slice());
        descend(&mut self.u_z, scale, grad.d_u_z.as_slice());
        descend(&mut self.u_r, scale, grad.d_u_r.as_slice());
        descend(&mut self.u_h, scale, grad.d_u_h.as_slice());
        descend(&mut self.b_z, scale, grad.d_b_z.as_slice());
        descend(&mut self.b_r, scale, grad.d_b_r.as_slice());
        descend(&mut self.b_h, scale, grad.d_b_h.as_slice());
        descend(&mut self.w_out, scale, grad.d_w_out.as_slice());
        descend(&mut self.b_out, scale, grad.d_b_out.as_slice());
    }
}

/// The sizes of the parts of a step.
pub proof fn lemma_step_sizes<S: Number>(p: Params<S>, x: Seq<S>, h: Seq<S>)
    requires
        p.shaped(),
    ensures
        p.step_on(x, h).z.len() == p.hidden_dim,
        p.step_on(x, h).r.len() == p.hidden_dim,
        p.step_on(x, h).hcand.len() == p.hidden_dim,
        p.step_on(x, h).h.len() == p.hidden_dim,
        p.step_on(x, h).probs.len() == p.vocab_size,
{
}

/// The hidden state keeps its size.
pub proof fn lemma_state_size<S: Number>(p: Params<S>, seq: Seq<usize>, t: nat)
    ensures
        p.state_before(seq, t).len() == p.hidden_dim,
{
}

impl<S: Scalar> Model<S> {
    /// Runs a chunk forward: the outcomes of its steps, the hidden states
    /// before them, and the loss with the chunk added to it.
    fn run_chunk(&self, seq: &[usize], seq_len: usize, loss: S) -> (r: (
        Vec<StepOut<S>>,
        Vec<Vec<S>>,
        S,
    ))
        requires
            self@.shaped(),
            seq@.len() == seq_len + 1,
            self@.trains_on(seq@),
        ensures
            r.0@.len() == seq_len,
            r.1@.len() == seq_len,
            forall|t: int|
                0 <= t < seq_len ==> (#[trigger] r.0@[t])@ == self@.step_at(seq@, t as nat),
            forall|t: int|
                0 <= t < seq_len ==> (#[trigger] r.1@[t])@ == self@.state_before(seq@, t as nat),
            r.2 == self@.loss_after(seq@, seq_len as nat, loss),
    {
        let mut steps: Vec<StepOut<S>> = Vec::with_capacity(seq_len);
        let mut states: Vec<Vec<S>> = Vec::with_capacity(seq_len);
        let mut total = loss;
        let mut h: Vec<S> = scalar::zeros(self.hidden_dim);
        let mut t: usize = 0;
        while t < seq_len
            invariant
                t <= seq_len,
                self@.shaped(),
                seq@.len() == seq_len + 1,
                self@.trains_on(seq@),
                steps@.len() == t,
                states@.len() == t,
                forall|k: int|
                    0 <= k < t ==> (#[trigger] steps@[k])@ == self@.step_at(seq@, k as nat),
                forall|k: int|
                    0 <= k < t ==> (#[trigger] states@[k])@ == self@.state_before(
                        seq@,
                        k as nat,
                    ),
                h@ == self@.state_before(seq@, t as nat),
                total == self@.loss_after(seq@, t as nat, loss),
            decreases seq_len - t,
        {
            proof {
                lemma_state_size(self@, seq@, t as nat);
                assert(self@.embeds(seq@[t as int] as int));
                assert(seq@[t + 1] < self@.vocab_size);
                lemma_step_sizes(self@, self@.input(seq@[t as int] as int), h@);
            }
            let out = self.step(seq[t], h.as_slice());
            let target = seq[t + 1];
            total = total.add(out.probs[target].add(S::decimal(1, 9)).ln().neg());
            let next = scalar::copied(out.h.as_slice());
            states.push(h);
            steps.push(out);
            h = next;
            t += 1;
        }
        (steps, states, total)
    }

    /// Goes back through one step: adds the step to the gradients, and
    /// returns the gradient by the hidden state before it.
    fn back_step(
        &self,
        tok: usize,
        target: usize,
        h_prev: &Vec<S>,
        out: &StepOut<S>,
        d_h_next: &Vec<S>,
        grad: &mut Grad<S>,
    ) -> (d_h_prev: Vec<S>)
        requires
            self@.shaped(),
            self@.embeds(tok as int),
            target < self.vocab_size,
            h_prev@.len() == self.hidden_dim,
            d_h_next@.len() == self.hidden_dim,
            out.z@.len() == self.hidden_dim,
            out.r@.len() == self.hidden_dim,
            out.hcand@.len() == self.hidden_dim,
            out.h@.len() == self.hidden_dim,
            out.probs@.len() == self.vocab_size,
            old(grad)@.matches(self@),
        ensures
            d_h_prev@ == self@.backward(h_prev@, out@, target as int, d_h_next@).d_h_prev,
            d_h_prev@.len() == self.hidden_dim,
            final(grad)@ == old(grad)@.with_step(
                self@,
                tok as int,
                h_prev@,
                out@,
                self@.backward(h_prev@, out@, target as int, d_h_next@),
            ),
            final(grad)@.matches(self@),
    {
        let hidden_dim = self.hidden_dim;
        let embed_dim = self.embed_dim;
        let ghost n = hidden_dim as nat;
        let ghost b = self@.backward(h_prev@, out@, target as int, d_h_next@);
        let x = self.embedding_row(tok);

        // Output layer.
        let mut d_logits = scalar::copied(out.probs.as_slice());
        let at_target = d_logits[target].sub(S::one());
        d_logits.set(target, at_target);
        assert(d_logits@ =~= b.d_logits);
        dense::linear_backward_weight(&mut grad.d_w_out, out.h.as_slice(), d_logits.as_slice());
        dense::add_list(&mut grad.d_b_out, d_logits.as_slice());

        // The new hidden state: what this step's output asks of it, and what
        // the steps after it ask.
        let mut d_h: Vec<S> = scalar::zeros(hidden_dim);
        dense::linear_backward_input(self.w_out.as_slice(), d_logits.as_slice(), &mut d_h);
        dense::add_list(&mut d_h, d_h_next.as_slice());

        // h' = (1 - z) * h + z * c
        let d_hcand = pointwise::multiply(hidden_dim, d_h.as_slice(), out.z.as_slice());
        let mut d_z: Vec<S> = Vec::with_capacity(hidden_dim);
        let mut d_h_prev: Vec<S> = Vec::with_capacity(hidden_dim);
        let mut i: usize = 0;
        while i < hidden_dim
            invariant
                i <= hidden_dim,
                d_h@.len() == hidden_dim,
                h_prev@.len() == hidden_dim,
                out.z@.len() == hidden_dim,
                out.hcand@.len() == hidden_dim,
                d_z@.len() == i,
                d_h_prev@.len() == i,
                forall|k: int|
                    0 <= k < i ==> #[trigger] d_z@[k] == d_h@[k].times(
                        out.hcand@[k].minus(h_prev@[k]),
                    ),
                forall|k: int|
                    0 <= k < i ==> #[trigger] d_h_prev@[k] == d_h@[k].times(
                        S::unit().minus(out.z@[k]),
                    ),
            decreases hidden_dim - i,
        {
            d_z.push(d_h[i].mul(out.hcand[i].sub(h_prev[i])));
            d_h_prev.push(d_h[i].mul(S::one().sub(out.z[i])));
            i += 1;
        }
        assert(d_z@ =~= by_update(n, d_h@, out.hcand@, h_prev@));
        assert(d_h_prev@ =~= by_kept(n, d_h@, out.z@));

        // Candidate.
        let d_ah = pointwise::back_through_tanh(d_hcand.as_slice(), out.hcand.as_slice());
        dense::linear_backward_weight(&mut grad.d_w_h, x, d_ah.as_slice());
        dense::add_list(&mut grad.d_b_h, d_ah.as_slice());
        let rh = pointwise::multiply(hidden_dim, out.r.as_slice(), h_prev.as_slice());
        dense::linear_backward_weight(&mut grad.d_u_h, rh.as_slice(), d_ah.as_slice());
        let mut d_x: Vec<S> = scalar::zeros(embed_dim);
        dense::linear_backward_input(self.w_h.as_slice(), d_ah.as_slice(), &mut d_x);
        let mut d_rh: Vec<S> = scalar::zeros(hidden_dim);
        dense::linear_backward_input(self.u_h.as_slice(), d_ah.as_slice(), &mut d_rh);
        let d_r = pointwise::multiply(hidden_dim, d_rh.as_slice(), h_prev.as_slice());
        let d_h_reset = pointwise::multiply(hidden_dim, d_rh.as_slice(), out.r.as_slice());
        dense::add_list(&mut d_h_prev, d_h_reset.as_slice());

        // Reset gate.
        let d_ar = pointwise::back_through_sigmoid(d_r.as_slice(), out.r.as_slice());
        dense::linear_backward_weight(&mut grad.d_w_r, x, d_ar.as_slice());
        dense::add_list(&mut grad.d_b_r, d_ar.as_slice());
        dense::linear_backward_weight(&mut grad.d_u_r, h_prev.as_slice(), d_ar.as_slice());
        dense::linear_backward_input(self.w_r.as_slice(), d_ar.as_slice(), &mut d_x);
        dense::linear_backward_input(self.u_r.as_slice(), d_ar.as_slice(), &mut d_h_prev);

        // Update gate.
        let d_az = pointwise::back_through_sigmoid(d_z.as_slice(), out.z.as_slice());
        dense::linear_backward_weight(&mut grad.d_w_z, x, d_az.as_slice());
        dense::add_list(&mut grad.d_b_z, d_az.as_slice());
        dense::linear_backward_weight(&mut grad.d_u_z, h_prev.as_slice(), d_az.as_slice());
        dense::linear_backward_input(self.w_z.as_slice(), d_az.as_slice(), &mut d_x);
        dense::linear_backward_input(self.u_z.as_slice(), d_az.as_slice(), &mut d_h_prev);

        // The token's own row, which gathers what every occurrence asks.
        dense::add_to_row(&mut grad.d_embedding, tok, d_x.as_slice());
        d_h_prev
    }

    /// The gradients of the chunks that begin at `starts`, summed, and their
    /// summed loss.
    pub fn accumulate_gradients(&self, starts: &[usize], ids: &[usize], seq_len: usize) -> (grad:
        Grad<S>)
        requires
            self@.shaped(),
            forall|i: int|
                0 <= i < starts@.len() ==> (#[trigger] starts@[i]) + seq_len + 1 <= ids@.len(),
            forall|i: int|
                0 <= i < starts@.len() ==> self@.trains_on(
                    chunk(ids@, #[trigger] starts@[i] as int, seq_len as nat),
                ),
        ensures
            grad@ == self@.gradients(starts@, ids@, seq_len as nat, starts@.len()),
            grad@.matches(self@),
    {
        proof {
            assert(self.embedding.len() == self@.embedding.len());
            assert(self.w_z.len() == self@.w_z.len());
            assert(self.u_z.len() == self@.u_z.len());
            assert(self.w_out.len() == self@.w_out.len());
        }
        let mut grad: Grad<S> = Grad::zeros(self.vocab_size, self.embed_dim, self.hidden_dim);
        let mut i: usize = 0;
        while i < starts.len()
            invariant
                i <= starts@.len(),
                self@.shaped(),
                forall|k: int|
                    0 <= k < starts@.len() ==> (#[trigger] starts@[k]) + seq_len + 1 <= ids@.len(),
                forall|k: int|
                    0 <= k < starts@.len() ==> self@.trains_on(
                        chunk(ids@, #[trigger] starts@[k] as int, seq_len as nat),
                    ),
                grad@ == self@.gradients(starts@, ids@, seq_len as nat, i as nat),
                grad@.matches(self@),
            decreases starts@.len() - i,
        {
            let start = starts[i];
            let ids_len: usize = ids.len();
            let seq = vstd::slice::slice_subrange(ids, start, start + seq_len + 1);
            assert(seq@ == chunk(ids@, start as int, seq_len as nat));
            let ghost before = grad@;
            let (steps, states, loss) = self.run_chunk(seq, seq_len, grad.loss);
            grad.loss = loss;
            let ghost goal = self@.with_chunk(seq@, seq_len as nat, before);
            let mut d_h_next: Vec<S> = scalar::zeros(self.hidden_dim);
            let mut t: usize = seq_len;
            while t > 0
                invariant
                    t <= seq_len,
                    self@.shaped(),
                    seq@.len() == seq_len + 1,
                    self@.trains_on(seq@),
                    steps@.len() == seq_len,
                    states@.len() == seq_len,
                    forall|k: int|
                        0 <= k < seq_len ==> (#[trigger] steps@[k])@ == self@.step_at(
                            seq@,
                            k as nat,
                        ),
                    forall|k: int|
                        0 <= k < seq_len ==> (#[trigger] states@[k])@ == self@.state_before(
                            seq@,
                            k as nat,
                        ),
                    d_h_next@.len() == self.hidden_dim,
                    grad@.matches(self@),
                    self@.unrolled(seq@, t as nat, d_h_next@, grad@) == goal,
                decreases t,
            {
                t -= 1;
                proof {
                    lemma_state_size(self@, seq@, t as nat);
                    assert(self@.embeds(seq@[t as int] as int));
                    assert(seq@[t + 1] < self@.vocab_size);
                    lemma_step_sizes(
                        self@,
                        self@.input(seq@[t as int] as int),
                        self@.state_before(seq@, t as nat),
                    );
                    assert(steps@[t as int]@ == self@.step_at(seq@, t as nat));
                    assert(states@[t as int]@ == self@.state_before(seq@, t as nat));
                }
                let d_h_prev = self.back_step(
                    seq[t],
                    seq[t + 1],
                    &states[t],
                    &steps[t],
                    &d_h_next,
                    &mut grad,
                );
                d_h_next = d_h_prev;
            }
            i += 1;
        }
        grad
    }
}

} // verus!
