//! The recurrent model: a gated recurrent unit over token embeddings.
//!
//! For each token, embedded as `x`, and the hidden state `h` before it:
//!
//! ```text
//! z  = sigmoid(Wz.x + Uz.h + bz)          update gate
//! r  = sigmoid(Wr.x + Ur.h + br)          reset gate
//! c  = tanh(Wh.x + Uh.(r * h) + bh)       candidate state
//! h' = (1 - z) * h + z * c                new hidden state
//! P(next token) = softmax(Wout.h' + bout)
//! ```

use crate::chance;
use crate::dense;
use crate::pointwise;
use crate::scalar;
use crate::scalar::{Number, Scalar};
use vstd::prelude::*;

verus! {

/// A model's sizes and weights.
pub struct Model<S> {
    pub vocab_size: usize,
    pub embed_dim: usize,
    pub hidden_dim: usize,
    /// One row of `embed_dim` numbers per token.
    pub embedding: Vec<S>,
    /// Gate weights from the input: `embed_dim` rows of `hidden_dim`.
    pub w_z: Vec<S>,
    pub w_r: Vec<S>,
    pub w_h: Vec<S>,
    /// Gate weights from the hidden state: `hidden_dim` rows of `hidden_dim`.
    pub u_z: Vec<S>,
    pub u_r: Vec<S>,
    pub u_h: Vec<S>,
    /// Gate biases: `hidden_dim` each.
    pub b_z: Vec<S>,
    pub b_r: Vec<S>,
    pub b_h: Vec<S>,
    /// Output weights: `hidden_dim` rows of `vocab_size`.
    pub w_out: Vec<S>,
    /// Output biases: `vocab_size`.
    pub b_out: Vec<S>,
}

/// What specifications see of a [`Model`].
#[verifier::ext_equal]
pub struct Params<S> {
    pub vocab_size: usize,
    pub embed_dim: usize,
    pub hidden_dim: usize,
    pub embedding: Seq<S>,
    pub w_z: Seq<S>,
    pub w_r: Seq<S>,
    pub w_h: Seq<S>,
    pub u_z: Seq<S>,
    pub u_r: Seq<S>,
    pub u_h: Seq<S>,
    pub b_z: Seq<S>,
    pub b_r: Seq<S>,
    pub b_h: Seq<S>,
    pub w_out: Seq<S>,
    pub b_out: Seq<S>,
}

impl<S> View for Model<S> {
    type V = Params<S>;

    open spec fn view(&self) -> Params<S> {
        Params {
            vocab_size: self.vocab_size,
            embed_dim: self.embed_dim,
            hidden_dim: self.hidden_dim,
            embedding: self.embedding@,
            w_z: self.w_z@,
            w_r: self.w_r@,
            w_h: self.w_h@,
            u_z: self.u_z@,
            u_r: self.u_r@,
            u_h: self.u_h@,
            b_z: self.b_z@,
            b_r: self.b_r@,
            b_h: self.b_h@,
            w_out: self.w_out@,
            b_out: self.b_out@,
        }
    }
}

/// The outcome of one step: the gates, the candidate, the new hidden state
/// and the distribution of the next token.
pub struct StepOut<S> {
    pub z: Vec<S>,
    pub r: Vec<S>,
    pub hcand: Vec<S>,
    pub h: Vec<S>,
    pub probs: Vec<S>,
}

/// What specifications see of a [`StepOut`].
#[verifier::ext_equal]
pub struct Step<S> {
    pub z: Seq<S>,
    pub r: Seq<S>,
    pub hcand: Seq<S>,
    pub h: Seq<S>,
    pub probs: Seq<S>,
}

impl<S> View for StepOut<S> {
    type V = Step<S>;

    open spec fn view(&self) -> Step<S> {
        Step { z: self.z@, r: self.r@, hcand: self.hcand@, h: self.h@, probs: self.probs@ }
    }
}

/// The new hidden state: old memory and candidate, blended by the update
/// gate slot by slot.
pub open spec fn blended<S: Number>(n: nat, z: Seq<S>, h: Seq<S>, c: Seq<S>) -> Seq<S> {
    Seq::new(n, |i: int| S::unit().minus(z[i]).times(h[i]).plus(z[i].times(c[i])))
}

impl<S> Params<S> {
    /// Whether all weights have the sizes that the dimensions call for.
    pub open spec fn shaped(self) -> bool {
        &&& self.embedding.len() == self.vocab_size * self.embed_dim
        &&& self.w_z.len() == self.embed_dim * self.hidden_dim
        &&& self.w_r.len() == self.embed_dim * self.hidden_dim
        &&& self.w_h.len() == self.embed_dim * self.hidden_dim
        &&& self.u_z.len() == self.hidden_dim * self.hidden_dim
        &&& self.u_r.len() == self.hidden_dim * self.hidden_dim
        &&& self.u_h.len() == self.hidden_dim * self.hidden_dim
        &&& self.b_z.len() == self.hidden_dim
        &&& self.b_r.len() == self.hidden_dim
        &&& self.b_h.len() == self.hidden_dim
        &&& self.w_out.len() == self.hidden_dim * self.vocab_size
        &&& self.b_out.len() == self.vocab_size
    }

    /// Whether the embedding has a row for a token.
    pub open spec fn embeds(self, tok: int) -> bool {
        tok * self.embed_dim + self.embed_dim <= self.embedding.len()
    }

    /// Whether a list of `n` numbers serves as a hidden state. Where the
    /// state has no slots nothing of the list is read.
    pub open spec fn holds_state(self, n: nat) -> bool {
        n == self.hidden_dim || self.hidden_dim == 0
    }

    /// The embedding of a token.
    pub open spec fn input(self, tok: int) -> Seq<S> {
        dense::row(self.embedding, self.embed_dim as int, tok)
    }
}

impl<S: Number> Params<S> {
    /// What feeds the update gate.
    pub open spec fn update_activation(self, x: Seq<S>, h: Seq<S>) -> Seq<S> {
        dense::affine(dense::affine(self.b_z, self.w_z, x), self.u_z, h)
    }

    /// What feeds the reset gate.
    pub open spec fn reset_activation(self, x: Seq<S>, h: Seq<S>) -> Seq<S> {
        dense::affine(dense::affine(self.b_r, self.w_r, x), self.u_r, h)
    }

    /// What feeds the candidate state.
    pub open spec fn candidate_activation(self, x: Seq<S>, rh: Seq<S>) -> Seq<S> {
        dense::affine(dense::affine(self.b_h, self.w_h, x), self.u_h, rh)
    }

    /// The logits of the next token.
    pub open spec fn logits(self, h: Seq<S>) -> Seq<S> {
        dense::affine(self.b_out, self.w_out, h)
    }

    /// One step on input `x` from hidden state `h`.
    pub open spec fn step_on(self, x: Seq<S>, h: Seq<S>) -> Step<S> {
        let n = self.hidden_dim as nat;
        let z = pointwise::sigmoids_of(self.update_activation(x, h));
        let r = pointwise::sigmoids_of(self.reset_activation(x, h));
        let hcand = pointwise::tanhs_of(
            self.candidate_activation(x, pointwise::products(n, r, h)),
        );
        let next = blended(n, z, h, hcand);
        Step { z, r, hcand, h: next, probs: pointwise::softmax_of(self.logits(next)) }
    }

    /// One step on a token from hidden state `h`.
    pub open spec fn step(self, tok: int, h: Seq<S>) -> Step<S> {
        self.step_on(self.input(tok), h)
    }
}

/// A model and the vocabulary that gives its token numbers their meaning.
pub struct Checkpoint<S> {
    pub vocab: Vec<String>,
    pub embed_dim: usize,
    pub hidden_dim: usize,
    pub embedding: Vec<S>,
    pub w_z: Vec<S>,
    pub w_r: Vec<S>,
    pub w_h: Vec<S>,
    pub u_z: Vec<S>,
    pub u_r: Vec<S>,
    pub u_h: Vec<S>,
    pub b_z: Vec<S>,
    pub b_r: Vec<S>,
    pub b_h: Vec<S>,
    pub w_out: Vec<S>,
    pub b_out: Vec<S>,
}

impl<S> Checkpoint<S> {
    /// The model of a checkpoint: as many tokens as its vocabulary has
    /// entries, and the sizes and weights that it holds.
    pub open spec fn params(&self) -> Params<S> {
        Params {
            vocab_size: self.vocab@.len() as usize,
            embed_dim: self.embed_dim,
            hidden_dim: self.hidden_dim,
            embedding: self.embedding@,
            w_z: self.w_z@,
            w_r: self.w_r@,
            w_h: self.w_h@,
            u_z: self.u_z@,
            u_r: self.u_r@,
            u_h: self.u_h@,
            b_z: self.b_z@,
            b_r: self.b_r@,
            b_h: self.b_h@,
            w_out: self.w_out@,
            b_out: self.b_out@,
        }
    }
}

/// Whether a checkpoint holds a model's sizes and weights and a vocabulary.
pub open spec fn saves<S>(ckpt: Checkpoint<S>, params: Params<S>, vocab: Seq<String>) -> bool {
    &&& ckpt.vocab@ == vocab
    &&& ckpt.params() == Params { vocab_size: vocab.len() as usize, ..params }
}

/// Whether `len` numbers fill a table of the given size.
pub fn counts(rows: usize, width: usize, len: usize) -> (r: bool)
    ensures
        r == (len == rows * width),
{
    match rows.checked_mul(width) {
        Some(n) => n == len,
        None => false,
    }
}

/// A saved model is restored exactly: where the vocabulary has an entry per
/// token, the model and the vocabulary read from a checkpoint are the ones it
/// was made of.
pub proof fn law_checkpoint_restores_the_model<S>(
    ckpt: Checkpoint<S>,
    params: Params<S>,
    vocab: Seq<String>,
)
    requires
        saves(ckpt, params, vocab),
        vocab.len() == params.vocab_size,
    ensures
        ckpt.params() == params,
        ckpt.vocab@ == vocab,
{
}

/// Saving what was read from a checkpoint gives that checkpoint again.
pub proof fn law_model_restores_the_checkpoint<S>(ckpt: Checkpoint<S>, again: Checkpoint<S>)
    requires
        saves(again, ckpt.params(), ckpt.vocab@),
    ensures
        again.vocab@ == ckpt.vocab@,
        again.params() == ckpt.params(),
{
}

/// A copy of a list of strings.
pub fn copied_strings(strings: &[String]) -> (v: Vec<String>)
    ensures
        v@ == strings@,
{
    let mut v: Vec<String> = Vec::with_capacity(strings.len());
    let mut i: usize = 0;
    while i < strings.len()
        invariant
            i <= strings@.len(),
            v@ == strings@.take(i as int),
        decreases strings@.len() - i,
    {
        v.push(strings[i].clone());
        i += 1;
        assert(v@ =~= strings@.take(i as int));
    }
    assert(v@ =~= strings@);
    v
}

impl<S: Scalar> Model<S> {
    /// The model of a checkpoint, and its vocabulary.
    pub fn from_checkpoint(ckpt: Checkpoint<S>) -> (r: (Self, Vec<String>))
        ensures
            r.0@ == ckpt.params(),
            r.1@ == ckpt.vocab@,
    {
        let vocab_size = ckpt.vocab.len();
        let model = Model {
            vocab_size,
            embed_dim: ckpt.embed_dim,
            hidden_dim: ckpt.hidden_dim,
            embedding: ckpt.embedding,
            w_z: ckpt.w_z,
            w_r: ckpt.w_r,
            w_h: ckpt.w_h,
            u_z: ckpt.u_z,
            u_r: ckpt.u_r,
            u_h: ckpt.u_h,
            b_z: ckpt.b_z,
            b_r: ckpt.b_r,
            b_h: ckpt.b_h,
            w_out: ckpt.w_out,
            b_out: ckpt.b_out,
        };
        (model, ckpt.vocab)
    }

    /// The checkpoint of a model and its vocabulary.
    pub fn to_checkpoint(&self, vocab: &[String]) -> (ckpt: Checkpoint<S>)
        ensures
            saves(ckpt, self@, vocab@),
    {
        Checkpoint {
            vocab: copied_strings(vocab),
            embed_dim: self.embed_dim,
            hidden_dim: self.hidden_dim,
            embedding: scalar::copied(self.embedding.as_slice()),
            w_z: scalar::copied(self.w_z.as_slice()),
            w_r: scalar::copied(self.w_r.as_slice()),
            w_h: scalar::copied(self.w_h.as_slice()),
            u_z: scalar::copied(self.u_z.as_slice()),
            u_r: scalar::copied(self.u_r.as_slice()),
            u_h: scalar::copied(self.u_h.as_slice()),
            b_z: scalar::copied(self.b_z.as_slice()),
            b_r: scalar::copied(self.b_r.as_slice()),
            b_h: scalar::copied(self.b_h.as_slice()),
            w_out: scalar::copied(self.w_out.as_slice()),
            b_out: scalar::copied(self.b_out.as_slice()),
        }
    }

    /// Whether all weights have the sizes that the dimensions call for.
    pub fn is_shaped(&self) -> (r: bool)
        ensures
            r == self@.shaped(),
    {
        counts(self.vocab_size, self.embed_dim, self.embedding.len()) && counts(
            self.embed_dim,
            self.hidden_dim,
            self.w_z.len(),
        ) && self.w_r.len() == self.w_z.len() && self.w_h.len() == self.w_z.len() && counts(
            self.hidden_dim,
            self.hidden_dim,
            self.u_z.len(),
        ) && self.u_r.len() == self.u_z.len() && self.u_h.len() == self.u_z.len()
            && self.b_z.len() == self.hidden_dim && self.b_r.len() == self.hidden_dim
            && self.b_h.len() == self.hidden_dim && counts(
            self.hidden_dim,
            self.vocab_size,
            self.w_out.len(),
        ) && self.b_out.len() == self.vocab_size
    }

    /// What a gate is fed with: its bias, what the input adds through `w`
    /// and what the hidden state adds through `u`.
    fn activation(&self, b: &Vec<S>, w: &Vec<S>, u: &Vec<S>, x: &[S], h: &[S]) -> (a: Vec<S>)
        requires
            x@.len() * b@.len() <= w@.len(),
            h@.len() * b@.len() <= u@.len(),
        ensures
            a@ == dense::affine(dense::affine(b@, w@, x@), u@, h@),
            a@.len() == b@.len(),
    {
        let mut a = scalar::copied(b.as_slice());
        dense::linear_forward(w.as_slice(), x, &mut a);
        dense::linear_forward(u.as_slice(), h, &mut a);
        a
    }

    /// The embedding of a token.
    pub fn embedding_row(&self, tok: usize) -> (x: &[S])
        requires
            self@.embeds(tok as int),
        ensures
            x@ == self@.input(tok as int),
            x@.len() == self.embed_dim,
    {
        let embed_dim = self.embed_dim;
        let stored: usize = self.embedding.len();
        assert(0 <= tok * embed_dim) by (nonlinear_arith);
        let from: usize = tok * embed_dim;
        vstd::slice::slice_subrange(self.embedding.as_slice(), from, from + embed_dim)
    }

    /// One step: from a token and the hidden state before it to the gates,
    /// the new hidden state and the distribution of the next token.
    pub fn step(&self, tok: usize, h_prev: &[S]) -> (out: StepOut<S>)
        requires
            self@.shaped(),
            self@.embeds(tok as int),
            self@.holds_state(h_prev@.len()),
        ensures
            out@ == self@.step(tok as int, h_prev@),
    {
        let hidden_dim = self.hidden_dim;
        let x = self.embedding_row(tok);
        proof {
            lemma_state_products(h_prev@.len() as int, hidden_dim as int);
        }
        let az = self.activation(&self.b_z, &self.w_z, &self.u_z, x, h_prev);
        let z = pointwise::sigmoids(az.as_slice());
        let ar = self.activation(&self.b_r, &self.w_r, &self.u_r, x, h_prev);
        let r = pointwise::sigmoids(ar.as_slice());
        let rh = pointwise::multiply(hidden_dim, r.as_slice(), h_prev);
        let ah = self.activation(&self.b_h, &self.w_h, &self.u_h, x, rh.as_slice());
        let hcand = pointwise::tanhs(ah.as_slice());
        let mut h: Vec<S> = Vec::with_capacity(hidden_dim);
        let mut i: usize = 0;
        while i < hidden_dim
            invariant
                i <= hidden_dim,
                z@.len() == hidden_dim,
                hcand@.len() == hidden_dim,
                hidden_dim <= h_prev@.len(),
                h@.len() == i,
                forall|k: int|
                    0 <= k < i ==> #[trigger] h@[k] == S::unit().minus(z@[k]).times(
                        h_prev@[k],
                    ).plus(z@[k].times(hcand@[k])),
            decreases hidden_dim - i,
        {
            h.push(S::one().sub(z[i]).mul(h_prev[i]).add(z[i].mul(hcand[i])));
            i += 1;
        }
        assert(h@ =~= blended(hidden_dim as nat, z@, h_prev@, hcand@));
        let mut logits = scalar::copied(self.b_out.as_slice());
        dense::linear_forward(self.w_out.as_slice(), h.as_slice(), &mut logits);
        let probs = pointwise::softmax(logits.as_slice());
        StepOut { z, r, hcand, h, probs }
    }

    /// What feeds the update gate and the reset gate of a step.
    pub fn gate_preactivations(&self, tok: usize, h_prev: &[S]) -> (r: (Vec<S>, Vec<S>))
        requires
            self@.shaped(),
            self@.embeds(tok as int),
            self@.holds_state(h_prev@.len()),
        ensures
            r.0@ == self@.update_activation(self@.input(tok as int), h_prev@),
            r.1@ == self@.reset_activation(self@.input(tok as int), h_prev@),
    {
        let x = self.embedding_row(tok);
        proof {
            lemma_state_products(h_prev@.len() as int, self.hidden_dim as int);
        }
        let az = self.activation(&self.b_z, &self.w_z, &self.u_z, x, h_prev);
        let ar = self.activation(&self.b_r, &self.w_r, &self.u_r, x, h_prev);
        (az, ar)
    }
}

/// The number of weights that start from random draws.
pub open spec fn draw_count(vocab_size: int, embed_dim: int, hidden_dim: int) -> int {
    vocab_size * embed_dim + 3 * (embed_dim * hidden_dim) + 3 * (hidden_dim * hidden_dim)
        + hidden_dim * vocab_size
}

/// The weights made of the draws from `from` on: each draw, between 0 and 1,
/// is moved to the middle of the range and scaled by one over the root of
/// the number of inputs.
pub open spec fn spread<S: Number>(draws: Seq<S>, from: int, len: nat, fan_in: usize) -> Seq<S> {
    Seq::new(
        len,
        |i: int|
            draws[from + i].minus(S::numeral(5, 1)).times(S::numeral(2, 0)).times(
                S::unit().over(S::natural(fan_in).sqrt_of()),
            ),
    )
}

impl<S: Number> Params<S> {
    /// The model that training starts from, made of random draws.
    pub open spec fn initial(
        vocab_size: usize,
        embed_dim: usize,
        hidden_dim: usize,
        draws: Seq<S>,
    ) -> Params<S> {
        let table = (vocab_size * embed_dim) as nat;
        let w = (embed_dim * hidden_dim) as nat;
        let u = (hidden_dim * hidden_dim) as nat;
        Params {
            vocab_size,
            embed_dim,
            hidden_dim,
            embedding: spread(draws, 0, table, embed_dim),
            w_z: spread(draws, table as int, w, embed_dim),
            w_r: spread(draws, (table + w) as int, w, embed_dim),
            w_h: spread(draws, (table + 2 * w) as int, w, embed_dim),
            u_z: spread(draws, (table + 3 * w) as int, u, hidden_dim),
            u_r: spread(draws, (table + 3 * w + u) as int, u, hidden_dim),
            u_h: spread(draws, (table + 3 * w + 2 * u) as int, u, hidden_dim),
            b_z: scalar::noughts(hidden_dim as nat),
            b_r: scalar::noughts(hidden_dim as nat),
            b_h: scalar::noughts(hidden_dim as nat),
            w_out: spread(
                draws,
                (table + 3 * w + 3 * u) as int,
                (hidden_dim * vocab_size) as nat,
                hidden_dim,
            ),
            b_out: scalar::noughts(vocab_size as nat),
        }
    }
}

/// The number of weights of a model of the given sizes that start from
/// random draws, if it can be counted.
pub fn draws_needed(vocab_size: usize, embed_dim: usize, hidden_dim: usize) -> (n: Option<usize>)
    ensures
        n matches Some(n) ==> n == draw_count(
            vocab_size as int,
            embed_dim as int,
            hidden_dim as int,
        ),
        n is None ==> draw_count(vocab_size as int, embed_dim as int, hidden_dim as int)
            > usize::MAX,
{
    assert(0 <= vocab_size * embed_dim && 0 <= embed_dim * hidden_dim && 0 <= hidden_dim
        * hidden_dim && 0 <= hidden_dim * vocab_size) by (nonlinear_arith);
    let table: usize = vocab_size.checked_mul(embed_dim)?;
    let w: usize = embed_dim.checked_mul(hidden_dim)?;
    let u: usize = hidden_dim.checked_mul(hidden_dim)?;
    let out: usize = hidden_dim.checked_mul(vocab_size)?;
    let gates: usize = w.checked_add(u)?.checked_mul(3)?;
    table.checked_add(gates)?.checked_add(out)
}

/// Makes weights of the draws from `from` on.
pub fn spread_draws<S: Scalar>(draws: &[S], from: usize, len: usize, fan_in: usize) -> (v: Vec<S>)
    requires
        from + len <= draws@.len(),
    ensures
        v@ == spread(draws@, from as int, len as nat, fan_in),
{
    let total: usize = draws.len();
    let scale = S::one().div(S::from_count(fan_in).sqrt());
    let mut v: Vec<S> = Vec::with_capacity(len);
    let mut i: usize = 0;
    while i < len
        invariant
            i <= len,
            from + len <= total,
            total == draws@.len(),
            scale == S::unit().over(S::natural(fan_in).sqrt_of()),
            v@.len() == i,
            forall|k: int|
                0 <= k < i ==> #[trigger] v@[k] == spread(
                    draws@,
                    from as int,
                    len as nat,
                    fan_in,
                )[k],
        decreases len - i,
    {
        v.push(draws[from + i].sub(S::decimal(5, 1)).mul(S::decimal(2, 0)).mul(scale));
        i += 1;
    }
    assert(v@ =~= spread(draws@, from as int, len as nat, fan_in));
    v
}

impl<S: Scalar> Model<S> {
    /// A model to start training from, with random weights; biases start at
    /// 0.
    pub fn new(vocab_size: usize, embed_dim: usize, hidden_dim: usize) -> (model: Self)
        requires
            draw_count(vocab_size as int, embed_dim as int, hidden_dim as int) <= usize::MAX,
        ensures
            exists|words: Seq<u32>|
                words.len() == draw_count(
                    vocab_size as int,
                    embed_dim as int,
                    hidden_dim as int,
                ) && model@ == Params::initial(
                    vocab_size,
                    embed_dim,
                    hidden_dim,
                    #[trigger] chance::draws_of::<S>(words),
                ),
            model@.shaped(),
    {
        let n: usize = draws_needed(vocab_size, embed_dim, hidden_dim).unwrap();
        let draws = chance::fresh_draws::<S>(n);
        let model = Self::from_draws(vocab_size, embed_dim, hidden_dim, draws.as_slice());
        proof {
            let words = choose|words: Seq<u32>| draws@ == #[trigger] chance::draws_of::<S>(words);
            assert(chance::draws_of::<S>(words).len() == words.len());
        }
        model
    }

    /// The model that random numbers make: `draws` holds one between 0 and 1
    /// for each weight, as many as [`draws_needed`] says;
    /// biases start at 0.
    pub fn from_draws(
        vocab_size: usize,
        embed_dim: usize,
        hidden_dim: usize,
        draws: &[S],
    ) -> (model: Self)
        requires
            draws@.len() == draw_count(vocab_size as int, embed_dim as int, hidden_dim as int),
        ensures
            model@ == Params::initial(vocab_size, embed_dim, hidden_dim, draws@),
            model@.shaped(),
    {
        let total: usize = draws.len();
        assert(0 <= vocab_size * embed_dim && 0 <= embed_dim * hidden_dim && 0 <= hidden_dim
            * hidden_dim && 0 <= hidden_dim * vocab_size) by (nonlinear_arith);
        let table: usize = vocab_size * embed_dim;
        let w: usize = embed_dim * hidden_dim;
        let u: usize = hidden_dim * hidden_dim;
        let out: usize = hidden_dim * vocab_size;
        Model {
            vocab_size,
            embed_dim,
            hidden_dim,
            embedding: spread_draws(draws, 0, table, embed_dim),
            w_z: spread_draws(draws, table, w, embed_dim),
            w_r: spread_draws(draws, table + w, w, embed_dim),
            w_h: spread_draws(draws, table + 2 * w, w, embed_dim),
            u_z: spread_draws(draws, table + 3 * w, u, hidden_dim),
            u_r: spread_draws(draws, table + 3 * w + u, u, hidden_dim),
            u_h: spread_draws(draws, table + 3 * w + 2 * u, u, hidden_dim),
            b_z: scalar::zeros(hidden_dim),
            b_r: scalar::zeros(hidden_dim),
            b_h: scalar::zeros(hidden_dim),
            w_out: spread_draws(draws, table + 3 * w + 3 * u, out, hidden_dim),
            b_out: scalar::zeros(vocab_size),
        }
    }
}

/// A hidden state fits the weights that read it.
proof fn lemma_state_products(n: int, hidden_dim: int)
    requires
        n == hidden_dim || hidden_dim == 0,
        0 <= n,
    ensures
        n * hidden_dim <= hidden_dim * hidden_dim,
{
    if hidden_dim == 0 {
        assert(n * hidden_dim == 0) by (nonlinear_arith)
            requires
                hidden_dim == 0,
        ;
    }
}

} // verus!
