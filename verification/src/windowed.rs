//! The fixed-context model: a small feedforward network over the embeddings
//! of the last few tokens.
//!
//! ```text
//! [tok(t-N) .. tok(t-1)] --embed--> concat --W1, tanh--> hidden --W2, softmax--> P(tok t)
//! ```

use crate::bptt;
use crate::chance;
use crate::dense;
use crate::generate;
use crate::model;
use crate::pointwise;
use crate::scalar;
use crate::scalar::{Number, Scalar};
use crate::strings;
use crate::tokenizer;
use crate::vocabulary;
use vstd::hash_map::StringHashMap;
use vstd::prelude::*;

verus! {

/// A model's sizes and weights.
pub struct Model<S> {
    pub vocab_size: usize,
    pub embed_dim: usize,
    /// How many tokens a prediction looks back on.
    pub context: usize,
    pub hidden_dim: usize,
    /// One row of `embed_dim` numbers per token.
    pub embedding: Vec<S>,
    /// `context * embed_dim` rows of `hidden_dim`.
    pub w1: Vec<S>,
    /// `hidden_dim` numbers.
    pub b1: Vec<S>,
    /// `hidden_dim` rows of `vocab_size`.
    pub w2: Vec<S>,
    /// `vocab_size` numbers.
    pub b2: Vec<S>,
}

/// What specifications see of a [`Model`].
#[verifier::ext_equal]
pub struct Params<S> {
    pub vocab_size: usize,
    pub embed_dim: usize,
    pub context: usize,
    pub hidden_dim: usize,
    pub embedding: Seq<S>,
    pub w1: Seq<S>,
    pub b1: Seq<S>,
    pub w2: Seq<S>,
    pub b2: Seq<S>,
}

impl<S> View for Model<S> {
    type V = Params<S>;

    open spec fn view(&self) -> Params<S> {
        Params {
            vocab_size: self.vocab_size,
            embed_dim: self.embed_dim,
            context: self.context,
            hidden_dim: self.hidden_dim,
            embedding: self.embedding@,
            w1: self.w1@,
            b1: self.b1@,
            w2: self.w2@,
            b2: self.b2@,
        }
    }
}

/// The outcome of a prediction: the concatenated embeddings, the hidden
/// layer and the distribution of the next token.
pub struct Prediction<S> {
    pub concat: Vec<S>,
    pub hidden: Vec<S>,
    pub probs: Vec<S>,
}

/// What specifications see of a [`Prediction`].
#[verifier::ext_equal]
pub struct Layers<S> {
    pub concat: Seq<S>,
    pub hidden: Seq<S>,
    pub probs: Seq<S>,
}

impl<S> View for Prediction<S> {
    type V = Layers<S>;

    open spec fn view(&self) -> Layers<S> {
        Layers { concat: self.concat@, hidden: self.hidden@, probs: self.probs@ }
    }
}

impl<S> Params<S> {
    /// Whether all weights have the sizes that the dimensions call for.
    pub open spec fn shaped(self) -> bool {
        &&& self.embedding.len() == self.vocab_size * self.embed_dim
        &&& self.w1.len() == (self.context * self.embed_dim) * self.hidden_dim
        &&& self.b1.len() == self.hidden_dim
        &&& self.w2.len() == self.hidden_dim * self.vocab_size
        &&& self.b2.len() == self.vocab_size
    }

    /// Whether the embedding has a row for a token.
    pub open spec fn embeds(self, tok: int) -> bool {
        tok * self.embed_dim + self.embed_dim <= self.embedding.len()
    }

    /// Whether a list of tokens can be looked back on.
    pub open spec fn reads(self, ctx: Seq<usize>) -> bool {
        &&& ctx.len() == self.context
        &&& forall|i: int| 0 <= i < ctx.len() ==> self.embeds(#[trigger] ctx[i] as int)
    }

    /// The embeddings of the first `n` tokens of a list, one after the other.
    pub open spec fn concatenated(self, ctx: Seq<usize>, n: nat) -> Seq<S>
        decreases n,
    {
        if n == 0 {
            seq![]
        } else {
            self.concatenated(ctx, (n - 1) as nat) + dense::row(
                self.embedding,
                self.embed_dim as int,
                ctx[n - 1] as int,
            )
        }
    }
}

impl<S: Number> Params<S> {
    /// The prediction of what follows the tokens of `ctx`.
    pub open spec fn predict(self, ctx: Seq<usize>) -> Layers<S> {
        let concat = self.concatenated(ctx, ctx.len());
        let hidden = pointwise::tanhs_of(dense::affine(self.b1, self.w1, concat));
        let logits = dense::affine(self.b2, self.w2, hidden);
        Layers { concat, hidden, probs: pointwise::softmax_of(logits) }
    }
}

/// Gradients of the same shapes as a model's weights, and the summed loss.
pub struct Grad<S> {
    pub d_embedding: Vec<S>,
    pub d_w1: Vec<S>,
    pub d_b1: Vec<S>,
    pub d_w2: Vec<S>,
    pub d_b2: Vec<S>,
    pub loss: S,
}

/// What specifications see of a [`Grad`].
#[verifier::ext_equal]
pub struct Gradients<S> {
    pub d_embedding: Seq<S>,
    pub d_w1: Seq<S>,
    pub d_b1: Seq<S>,
    pub d_w2: Seq<S>,
    pub d_b2: Seq<S>,
    pub loss: S,
}

impl<S> View for Grad<S> {
    type V = Gradients<S>;

    open spec fn view(&self) -> Gradients<S> {
        Gradients {
            d_embedding: self.d_embedding@,
            d_w1: self.d_w1@,
            d_b1: self.d_b1@,
            d_w2: self.d_w2@,
            d_b2: self.d_b2@,
            loss: self.loss,
        }
    }
}

impl<S> Gradients<S> {
    /// Whether the gradients have the shapes of a model's weights.
    pub open spec fn matches(self, p: Params<S>) -> bool {
        &&& self.d_embedding.len() == p.vocab_size * p.embed_dim
        &&& self.d_w1.len() == (p.context * p.embed_dim) * p.hidden_dim
        &&& self.d_b1.len() == p.hidden_dim
        &&& self.d_w2.len() == p.hidden_dim * p.vocab_size
        &&& self.d_b2.len() == p.vocab_size
    }
}

/// The part of a gradient by the concatenated embeddings that belongs to
/// position `i` of the context.
pub open spec fn slot<S>(d_concat: Seq<S>, width: int, i: int) -> Seq<S> {
    dense::row(d_concat, width, i)
}

/// A table with the gradient by each of the first `n` tokens of a context
/// added to the row of that token.
pub open spec fn scattered<S: Number>(
    table: Seq<S>,
    width: int,
    ctx: Seq<usize>,
    d_concat: Seq<S>,
    n: nat,
) -> Seq<S>
    decreases n,
{
    if n == 0 {
        table
    } else {
        dense::row_added(
            scattered(table, width, ctx, d_concat, (n - 1) as nat),
            width,
            ctx[n - 1] as int,
            slot(d_concat, width, n - 1),
        )
    }
}

impl<S: Number> Params<S> {
    /// The gradient by what feeds the hidden layer.
    pub open spec fn d_hidden(self, out: Layers<S>, d_logits: Seq<S>) -> Seq<S> {
        pointwise::through_tanh(
            dense::row_sums(self.w2, self.hidden_dim as nat, d_logits),
            out.hidden,
        )
    }

    /// Gradients after one example is added to them.
    pub open spec fn with_example(
        self,
        ctx: Seq<usize>,
        target: int,
        g: Gradients<S>,
    ) -> Gradients<S> {
        let out = self.predict(ctx);
        let d_logits = pointwise::less_target(out.probs, target);
        let d_hidden = self.d_hidden(out, d_logits);
        let d_concat = dense::row_sums(self.w1, (self.context * self.embed_dim) as nat, d_hidden);
        Gradients {
            d_embedding: scattered(
                g.d_embedding,
                self.embed_dim as int,
                ctx,
                d_concat,
                ctx.len(),
            ),
            d_w1: dense::outer(g.d_w1, out.concat, d_hidden),
            d_b1: dense::added(g.d_b1, d_hidden),
            d_w2: dense::outer(g.d_w2, out.hidden, d_logits),
            d_b2: dense::added(g.d_b2, d_logits),
            loss: g.loss.plus(pointwise::surprise(out.probs[target])),
        }
    }

    /// The gradients of no examples.
    pub open spec fn nothing(self) -> Gradients<S> {
        Gradients::none(
            self.vocab_size as nat,
            self.embed_dim as nat,
            self.context as nat,
            self.hidden_dim as nat,
        )
    }

    /// The gradients of the first `n` of the examples with given numbers.
    pub open spec fn gradients(
        self,
        indices: Seq<usize>,
        example_ctx: Seq<usize>,
        example_target: Seq<usize>,
        n: nat,
    ) -> Gradients<S>
        decreases n,
    {
        if n == 0 {
            self.nothing()
        } else {
            self.with_example(
                dense::row(example_ctx, self.context as int, indices[n - 1] as int),
                example_target[indices[n - 1] as int] as int,
                self.gradients(indices, example_ctx, example_target, (n - 1) as nat),
            )
        }
    }

    /// The model after a step of `scale` against the gradients.
    pub open spec fn updated(self, g: Gradients<S>, scale: S) -> Params<S> {
        Params {
            vocab_size: self.vocab_size,
            embed_dim: self.embed_dim,
            context: self.context,
            hidden_dim: self.hidden_dim,
            embedding: bptt::descended(self.embedding, scale, g.d_embedding),
            w1: bptt::descended(self.w1, scale, g.d_w1),
            b1: bptt::descended(self.b1, scale, g.d_b1),
            w2: bptt::descended(self.w2, scale, g.d_w2),
            b2: bptt::descended(self.b2, scale, g.d_b2),
        }
    }
}

impl<S: Number> Gradients<S> {
    /// Gradients with nothing in them.
    pub open spec fn none(
        vocab_size: nat,
        embed_dim: nat,
        context: nat,
        hidden_dim: nat,
    ) -> Gradients<S> {
        Gradients {
            d_embedding: scalar::noughts(vocab_size * embed_dim),
            d_w1: scalar::noughts((context * embed_dim) * hidden_dim),
            d_b1: scalar::noughts(hidden_dim),
            d_w2: scalar::noughts(hidden_dim * vocab_size),
            d_b2: scalar::noughts(vocab_size),
            loss: S::nought(),
        }
    }

    /// These gradients with the first `n` of others added, one after the
    /// other.
    pub open spec fn with_parts(self, parts: Seq<Grad<S>>, n: nat) -> Gradients<S>
        decreases n,
    {
        if n == 0 {
            self
        } else {
            self.with_parts(parts, (n - 1) as nat).plus(parts[n - 1]@)
        }
    }

    /// Two gradients added entry by entry.
    pub open spec fn plus(self, other: Gradients<S>) -> Gradients<S> {
        Gradients {
            d_embedding: dense::added(self.d_embedding, other.d_embedding),
            d_w1: dense::added(self.d_w1, other.d_w1),
            d_b1: dense::added(self.d_b1, other.d_b1),
            d_w2: dense::added(self.d_w2, other.d_w2),
            d_b2: dense::added(self.d_b2, other.d_b2),
            loss: self.loss.plus(other.loss),
        }
    }
}

/// Whether the weights of a model of the given sizes can be counted.
pub open spec fn countable(
    vocab_size: usize,
    embed_dim: usize,
    context: usize,
    hidden_dim: usize,
) -> bool {
    &&& vocab_size * embed_dim <= usize::MAX
    &&& context * embed_dim <= usize::MAX
    &&& (context * embed_dim) * hidden_dim <= usize::MAX
    &&& hidden_dim * vocab_size <= usize::MAX
}

impl<S: Scalar> Grad<S> {
    /// Gradients with nothing in them.
    pub fn zeros(vocab_size: usize, embed_dim: usize, context: usize, hidden_dim: usize) -> (g:
        Self)
        requires
            countable(vocab_size, embed_dim, context, hidden_dim),
        ensures
            g@ == Gradients::<S>::none(
                vocab_size as nat,
                embed_dim as nat,
                context as nat,
                hidden_dim as nat,
            ),
    {
        Grad {
            d_embedding: scalar::zeros(vocab_size * embed_dim),
            d_w1: scalar::zeros(context * embed_dim * hidden_dim),
            d_b1: scalar::zeros(hidden_dim),
            d_w2: scalar::zeros(hidden_dim * vocab_size),
            d_b2: scalar::zeros(vocab_size),
            loss: S::zero(),
        }
    }

    /// Adds other gradients to these.
    pub fn add_assign(&mut self, other: &Grad<S>)
        ensures
            final(self)@ == old(self)@.plus(other@),
    {
        dense::add_list(&mut self.d_embedding, other.d_embedding.as_slice());
        dense::add_list(&mut self.d_w1, other.d_w1.as_slice());
        dense::add_list(&mut self.d_b1, other.d_b1.as_slice());
        dense::add_list(&mut self.d_w2, other.d_w2.as_slice());
        dense::add_list(&mut self.d_b2, other.d_b2.as_slice());
        self.loss = self.loss.add(other.loss);
    }

    /// The gradients of the parts of a batch, added up.
    pub fn add_up(
        vocab_size: usize,
        embed_dim: usize,
        context: usize,
        hidden_dim: usize,
        parts: &[Grad<S>],
    ) -> (g: Self)
        requires
            countable(vocab_size, embed_dim, context, hidden_dim),
        ensures
            g@ == Gradients::<S>::none(
                vocab_size as nat,
                embed_dim as nat,
                context as nat,
                hidden_dim as nat,
            ).with_parts(parts@, parts@.len()),
    {
        let mut grad: Grad<S> = Grad::zeros(vocab_size, embed_dim, context, hidden_dim);
        let ghost start = grad@;
        let mut n: usize = 0;
        while n < parts.len()
            invariant
                n <= parts@.len(),
                grad@ == start.with_parts(parts@, n as nat),
            decreases parts@.len() - n,
        {
            grad.add_assign(&parts[n]);
            n += 1;
        }
        grad
    }
}

/// A model and the vocabulary that gives its token numbers their meaning.
pub struct Checkpoint<S> {
    pub vocab: Vec<String>,
    pub context: usize,
    pub embed_dim: usize,
    pub hidden_dim: usize,
    pub embedding: Vec<S>,
    pub w1: Vec<S>,
    pub b1: Vec<S>,
    pub w2: Vec<S>,
    pub b2: Vec<S>,
}

impl<S> Checkpoint<S> {
    /// The model of a checkpoint: as many tokens as its vocabulary has
    /// entries, and the sizes and weights that it holds.
    pub open spec fn params(&self) -> Params<S> {
        Params {
            vocab_size: self.vocab@.len() as usize,
            embed_dim: self.embed_dim,
            context: self.context,
            hidden_dim: self.hidden_dim,
            embedding: self.embedding@,
            w1: self.w1@,
            b1: self.b1@,
            w2: self.w2@,
            b2: self.b2@,
        }
    }
}

/// Whether a checkpoint holds a model's sizes and weights and a vocabulary.
pub open spec fn saves<S>(ckpt: Checkpoint<S>, params: Params<S>, vocab: Seq<String>) -> bool {
    &&& ckpt.vocab@ == vocab
    &&& ckpt.params() == Params { vocab_size: vocab.len() as usize, ..params }
}

/// A saved model is restored exactly: where the vocabulary has an entry per
/// token, the model and the vocabulary read from a checkpoint are the ones it
/// was made of.
pub proof fn law_checkpoint_restores_the_model<S>(
    ckpt: Checkpoint<S>,
    params: Params<S>,
    vocab: Seq<String>,
)
    requires
        saves(ckpt, params, vocab),
        vocab.len() == params.vocab_size,
    ensures
        ckpt.params() == params,
        ckpt.vocab@ == vocab,
{
}

/// The number of weights that start from random draws.
pub open spec fn draw_count(
    vocab_size: int,
    embed_dim: int,
    context: int,
    hidden_dim: int,
) -> int {
    vocab_size * embed_dim + (context * embed_dim) * hidden_dim + hidden_dim * vocab_size
}

impl<S: Number> Params<S> {
    /// The model that training starts from, made of random draws.
    pub open spec fn initial(
        vocab_size: usize,
        embed_dim: usize,
        context: usize,
        hidden_dim: usize,
        draws: Seq<S>,
    ) -> Params<S> {
        let table = (vocab_size * embed_dim) as nat;
        let first = ((context * embed_dim) * hidden_dim) as nat;
        let second = (hidden_dim * vocab_size) as nat;
        Params {
            vocab_size,
            embed_dim,
            context,
            hidden_dim,
            embedding: model::spread(draws, 0, table, embed_dim),
            w1: model::spread(draws, table as int, first, (context * embed_dim) as usize),
            b1: scalar::noughts(hidden_dim as nat),
            w2: model::spread(draws, (table + first) as int, second, hidden_dim),
            b2: scalar::noughts(vocab_size as nat),
        }
    }
}

/// The number of weights of a model of the given sizes that start from
/// random draws, if it and the number of inputs can be counted.
pub fn draws_needed(
    vocab_size: usize,
    embed_dim: usize,
    context: usize,
    hidden_dim: usize,
) -> (n: Option<usize>)
    ensures
        n matches Some(n) ==> n == draw_count(
            vocab_size as int,
            embed_dim as int,
            context as int,
            hidden_dim as int,
        ) && context * embed_dim <= usize::MAX,
        n is None ==> draw_count(
            vocab_size as int,
            embed_dim as int,
            context as int,
            hidden_dim as int,
        ) > usize::MAX || context * embed_dim > usize::MAX,
{
    assert(0 <= vocab_size * embed_dim && 0 <= context * embed_dim && 0 <= hidden_dim
        * vocab_size) by (nonlinear_arith);
    let table: usize = vocab_size.checked_mul(embed_dim)?;
    let inputs: usize = context.checked_mul(embed_dim)?;
    assert(0 <= inputs * hidden_dim) by (nonlinear_arith);
    let first: usize = inputs.checked_mul(hidden_dim)?;
    let second: usize = hidden_dim.checked_mul(vocab_size)?;
    table.checked_add(first)?.checked_add(second)
}

/// The rows of a concatenation have the width of the embedding.
proof fn lemma_concatenated_size<S>(p: Params<S>, ctx: Seq<usize>, n: nat)
    requires
        n <= ctx.len(),
        forall|i: int| 0 <= i < ctx.len() ==> p.embeds(#[trigger] ctx[i] as int),
    ensures
        p.concatenated(ctx, n).len() == n * p.embed_dim,
    decreases n,
{
    if n > 0 {
        lemma_concatenated_size(p, ctx, (n - 1) as nat);
        assert(p.embeds(ctx[n - 1] as int));
        assert(0 <= ctx[n - 1] * p.embed_dim) by (nonlinear_arith);
        assert((n - 1) * p.embed_dim + p.embed_dim == n * p.embed_dim) by (nonlinear_arith);
    } else {
        assert(n * p.embed_dim == 0) by (nonlinear_arith)
            requires
                n == 0,
        ;
    }
}

impl<S: Scalar> Model<S> {
    /// A model to start training from, with random weights; biases start at
    /// 0.
    pub fn new(vocab_size: usize, embed_dim: usize, context: usize, hidden_dim: usize) -> (model:
        Self)
        requires
            context * embed_dim <= usize::MAX,
            draw_count(
                vocab_size as int,
                embed_dim as int,
                context as int,
                hidden_dim as int,
            ) <= usize::MAX,
        ensures
            exists|words: Seq<u32>|
                words.len() == draw_count(
                    vocab_size as int,
                    embed_dim as int,
                    context as int,
                    hidden_dim as int,
                ) && model@ == Params::initial(
                    vocab_size,
                    embed_dim,
                    context,
                    hidden_dim,
                    #[trigger] chance::draws_of::<S>(words),
                ),
            model@.shaped(),
    {
        let n: usize = draws_needed(vocab_size, embed_dim, context, hidden_dim).unwrap();
        let draws = chance::fresh_draws::<S>(n);
        let model = Self::from_draws(
            vocab_size,
            embed_dim,
            context,
            hidden_dim,
            draws.as_slice(),
        );
        proof {
            let words = choose|words: Seq<u32>| draws@ == #[trigger] chance::draws_of::<S>(words);
            assert(chance::draws_of::<S>(words).len() == words.len());
        }
        model
    }

    /// The model that random numbers make: `draws` holds one between 0 and 1
    /// for each weight, as many as [`draws_needed`] says; biases start at 0.
    pub fn from_draws(
        vocab_size: usize,
        embed_dim: usize,
        context: usize,
        hidden_dim: usize,
        draws: &[S],
    ) -> (model: Self)
        requires
            context * embed_dim <= usize::MAX,
            draws@.len() == draw_count(
                vocab_size as int,
                embed_dim as int,
                context as int,
                hidden_dim as int,
            ),
        ensures
            model@ == Params::initial(vocab_size, embed_dim, context, hidden_dim, draws@),
            model@.shaped(),
    {
        let total: usize = draws.len();
        assert(0 <= vocab_size * embed_dim && 0 <= context * embed_dim && 0 <= hidden_dim
            * vocab_size) by (nonlinear_arith);
        let inputs: usize = context * embed_dim;
        assert(0 <= inputs * hidden_dim) by (nonlinear_arith);
        let table: usize = vocab_size * embed_dim;
        let first: usize = inputs * hidden_dim;
        let second: usize = hidden_dim * vocab_size;
        Model {
            vocab_size,
            embed_dim,
            context,
            hidden_dim,
            embedding: model::spread_draws(draws, 0, table, embed_dim),
            w1: model::spread_draws(draws, table, first, inputs),
            b1: scalar::zeros(hidden_dim),
            w2: model::spread_draws(draws, table + first, second, hidden_dim),
            b2: scalar::zeros(vocab_size),
        }
    }

    /// The model of a checkpoint, and its vocabulary.
    pub fn from_checkpoint(ckpt: Checkpoint<S>) -> (r: (Self, Vec<String>))
        ensures
            r.0@ == ckpt.params(),
            r.1@ == ckpt.vocab@,
    {
        let vocab_size = ckpt.vocab.len();
        let model = Model {
            vocab_size,
            embed_dim: ckpt.embed_dim,
            context: ckpt.context,
            hidden_dim: ckpt.hidden_dim,
            embedding: ckpt.embedding,
            w1: ckpt.w1,
            b1: ckpt.b1,
            w2: ckpt.w2,
            b2: ckpt.b2,
        };
        (model, ckpt.vocab)
    }

    /// The checkpoint of a model and its vocabulary.
    pub fn to_checkpoint(&self, vocab: &[String]) -> (ckpt: Checkpoint<S>)
        ensures
            saves(ckpt, self@, vocab@),
    {
        Checkpoint {
            vocab: model::copied_strings(vocab),
            context: self.context,
            embed_dim: self.embed_dim,
            hidden_dim: self.hidden_dim,
            embedding: scalar::copied(self.embedding.as_slice()),
            w1: scalar::copied(self.w1.as_slice()),
            b1: scalar::copied(self.b1.as_slice()),
            w2: scalar::copied(self.w2.as_slice()),
            b2: scalar::copied(self.b2.as_slice()),
        }
    }

    /// Whether all weights have the sizes that the dimensions call for.
    pub fn is_shaped(&self) -> (r: bool)
        requires
            self.context * self.embed_dim <= usize::MAX,
        ensures
            r == self@.shaped(),
    {
        assert(0 <= self.context * self.embed_dim) by (nonlinear_arith);
        model::counts(self.vocab_size, self.embed_dim, self.embedding.len()) && model::counts(
            self.context * self.embed_dim,
            self.hidden_dim,
            self.w1.len(),
        ) && self.b1.len() == self.hidden_dim && model::counts(
            self.hidden_dim,
            self.vocab_size,
            self.w2.len(),
        ) && self.b2.len() == self.vocab_size
    }

    /// Predicts what follows the last tokens.
    pub fn forward(&self, ctx: &[usize]) -> (out: Prediction<S>)
        requires
            self@.shaped(),
            self@.reads(ctx@),
        ensures
            out@ == self@.predict(ctx@),
            out.concat@.len() == self.context * self.embed_dim,
            out.hidden@.len() == self.hidden_dim,
            out.probs@.len() == self.vocab_size,
    {
        let embed_dim = self.embed_dim;
        let stored: usize = self.embedding.len();
        let mut concat: Vec<S> = Vec::new();
        let mut p: usize = 0;
        while p < ctx.len()
            invariant
                p <= ctx@.len(),
                embed_dim == self.embed_dim,
                stored == self.embedding@.len(),
                self@.reads(ctx@),
                concat@ == self@.concatenated(ctx@, p as nat),
            decreases ctx@.len() - p,
        {
            let tok = ctx[p];
            assert(self@.embeds(ctx@[p as int] as int));
            assert(0 <= tok * embed_dim) by (nonlinear_arith);
            let from: usize = tok * embed_dim;
            let src = vstd::slice::slice_subrange(
                self.embedding.as_slice(),
                from,
                from + embed_dim,
            );
            let mut copy = scalar::copied(src);
            concat.append(&mut copy);
            p += 1;
        }
        proof {
            lemma_concatenated_size(self@, ctx@, ctx@.len());
        }
        let mut sums = scalar::copied(self.b1.as_slice());
        dense::linear_forward(self.w1.as_slice(), concat.as_slice(), &mut sums);
        let hidden = pointwise::tanhs(sums.as_slice());
        let mut logits = scalar::copied(self.b2.as_slice());
        dense::linear_forward(self.w2.as_slice(), hidden.as_slice(), &mut logits);
        let probs = pointwise::softmax(logits.as_slice());
        Prediction { concat, hidden, probs }
    }

    /// Adds one example to the gradients.
    fn add_example(&self, ctx: &[usize], target: usize, grad: &mut Grad<S>)
        requires
            self@.shaped(),
            self@.reads(ctx@),
            target < self.vocab_size,
            self.context * self.embed_dim <= usize::MAX,
            old(grad)@.matches(self@),
        ensures
            final(grad)@ == self@.with_example(ctx@, target as int, old(grad)@),
            final(grad)@.matches(self@),
    {
        let ghost before = grad@;
        let embed_dim = self.embed_dim;
        let inputs: usize = self.context * embed_dim;
        let out = self.forward(ctx);
        let mut d_logits = scalar::copied(out.probs.as_slice());
        let at_target = d_logits[target].sub(S::one());
        d_logits.set(target, at_target);
        assert(d_logits@ =~= pointwise::less_target(out.probs@, target as int));
        grad.loss = grad.loss.add(out.probs[target].add(S::decimal(1, 9)).ln().neg());

        // Output layer.
        dense::add_list(&mut grad.d_b2, d_logits.as_slice());
        dense::linear_backward_weight(
            &mut grad.d_w2,
            out.hidden.as_slice(),
            d_logits.as_slice(),
        );

        // Hidden layer.
        let d_tanh = dense::dot_rows(self.w2.as_slice(), self.hidden_dim, d_logits.as_slice());
        let d_hidden = pointwise::back_through_tanh(d_tanh.as_slice(), out.hidden.as_slice());
        dense::add_list(&mut grad.d_b1, d_hidden.as_slice());
        dense::linear_backward_weight(
            &mut grad.d_w1,
            out.concat.as_slice(),
            d_hidden.as_slice(),
        );
        let d_concat = dense::dot_rows(self.w1.as_slice(), inputs, d_hidden.as_slice());

        // The rows of the tokens that filled the context, one after the other.
        let mut p: usize = 0;
        while p < ctx.len()
            invariant
                p <= ctx@.len(),
                self@.shaped(),
                self@.reads(ctx@),
                embed_dim == self.embed_dim,
                d_concat@.len() == self.context * embed_dim,
                grad@ == (Gradients {
                    d_embedding: scattered(
                        before.d_embedding,
                        embed_dim as int,
                        ctx@,
                        d_concat@,
                        p as nat,
                    ),
                    ..self@.with_example(ctx@, target as int, before)
                }),
                grad@.matches(self@),
            decreases ctx@.len() - p,
        {
            proof {
                dense::lemma_row(p as int, self.context as int, embed_dim as int);
                assert(self@.embeds(ctx@[p as int] as int));
            }
            let d_len: usize = d_concat.len();
            let from: usize = p * embed_dim;
            let src = vstd::slice::slice_subrange(d_concat.as_slice(), from, from + embed_dim);
            dense::add_to_row(&mut grad.d_embedding, ctx[p], src);
            p += 1;
        }
    }

    /// The gradients of the examples with given numbers, summed, and their
    /// summed loss. Example `i` consists of the `i`th stretch of `context`
    /// tokens in `example_ctx` and the `i`th token in `example_target`.
    pub fn accumulate_gradients(
        &self,
        indices: &[usize],
        example_ctx: &[usize],
        example_target: &[usize],
    ) -> (grad: Grad<S>)
        requires
            self@.shaped(),
            self.context * self.embed_dim <= usize::MAX,
            forall|i: int|
                0 <= i < indices@.len() ==> (#[trigger] indices@[i]) < example_target@.len(),
            forall|i: int|
                0 <= i < indices@.len() ==> (#[trigger] indices@[i]) * self.context + self.context
                    <= example_ctx@.len(),
            forall|i: int|
                0 <= i < indices@.len() ==> self@.reads(
                    dense::row(example_ctx@, self.context as int, #[trigger] indices@[i] as int),
                ),
            forall|i: int|
                0 <= i < indices@.len() ==> example_target@[#[trigger] indices@[i] as int]
                    < self.vocab_size,
        ensures
            grad@ == self@.gradients(
                indices@,
                example_ctx@,
                example_target@,
                indices@.len(),
            ),
            grad@.matches(self@),
    {
        proof {
            assert(self.embedding.len() == self@.embedding.len());
            assert(self.w1.len() == self@.w1.len());
            assert(self.w2.len() == self@.w2.len());
        }
        let context = self.context;
        let mut grad: Grad<S> = Grad::zeros(
            self.vocab_size,
            self.embed_dim,
            self.context,
            self.hidden_dim,
        );
        let mut n: usize = 0;
        while n < indices.len()
            invariant
                n <= indices@.len(),
                context == self.context,
                self@.shaped(),
                self.context * self.embed_dim <= usize::MAX,
                forall|i: int|
                    0 <= i < indices@.len() ==> (#[trigger] indices@[i]) < example_target@.len(),
                forall|i: int|
                    0 <= i < indices@.len() ==> (#[trigger] indices@[i]) * self.context
                        + self.context <= example_ctx@.len(),
                forall|i: int|
                    0 <= i < indices@.len() ==> self@.reads(
                        dense::row(
                            example_ctx@,
                            self.context as int,
                            #[trigger] indices@[i] as int,
                        ),
                    ),
                forall|i: int|
                    0 <= i < indices@.len() ==> example_target@[#[trigger] indices@[i] as int]
                        < self.vocab_size,
                grad@ == self@.gradients(indices@, example_ctx@, example_target@, n as nat),
                grad@.matches(self@),
            decreases indices@.len() - n,
        {
            let idx = indices[n];
            let stored: usize = example_ctx.len();
            assert(0 <= idx * context) by (nonlinear_arith);
            let from: usize = idx * context;
            let ctx = vstd::slice::slice_subrange(example_ctx, from, from + context);
            self.add_example(ctx, example_target[idx], &mut grad);
            n += 1;
        }
        grad
    }

    /// One averaged update from a batch that was worked on in parts: adds up
    /// the gradients of the parts, applies them, and returns the summed loss.
    pub fn learn(&mut self, parts: &[Grad<S>], learning_rate: S, batch_len: usize) -> (loss: S)
        requires
            old(self)@.shaped(),
            old(self).context * old(self).embed_dim <= usize::MAX,
        ensures
            final(self)@ == old(self)@.updated(
                old(self)@.nothing().with_parts(parts@, parts@.len()),
                learning_rate.over(S::natural(batch_len)),
            ),
            final(self)@.shaped(),
            loss == old(self)@.nothing().with_parts(parts@, parts@.len()).loss,
    {
        proof {
            assert(self.embedding.len() == self@.embedding.len());
            assert(self.w1.len() == self@.w1.len());
            assert(self.w2.len() == self@.w2.len());
        }
        let grad = Grad::add_up(
            self.vocab_size,
            self.embed_dim,
            self.context,
            self.hidden_dim,
            parts,
        );
        self.apply_gradients(&grad, learning_rate, batch_len);
        grad.loss
    }

    /// One averaged update: every weight moves by `learning_rate` times its
    /// gradient over `batch_len`, against the gradient.
    pub fn apply_gradients(&mut self, grad: &Grad<S>, learning_rate: S, batch_len: usize)
        ensures
            final(self)@ == old(self)@.updated(
                grad@,
                learning_rate.over(S::natural(batch_len)),
            ),
            old(self)@.shaped() ==> final(self)@.shaped(),
    {
        let scale = learning_rate.div(S::from_count(batch_len));
        bptt::descend(&mut self.embedding, scale, grad.d_embedding.as_slice());
        bptt::descend(&mut self.w1, scale, grad.d_w1.as_slice());
        bptt::descend(&mut self.b1, scale, grad.d_b1.as_slice());
        bptt::descend(&mut self.w2, scale, grad.d_w2.as_slice());
        bptt::descend(&mut self.b2, scale, grad.d_b2.as_slice());
    }
}

/// The number of examples in a list of tokens: one for each token that has
/// a full context before it.
pub open spec fn example_count(ids_len: nat, context: nat) -> nat {
    if ids_len > context {
        (ids_len - context) as nat
    } else {
        0
    }
}

/// The contexts of the first `n` examples, one after the other.
pub open spec fn contexts(ids: Seq<usize>, context: nat, n: nat) -> Seq<usize>
    decreases n,
{
    if n == 0 {
        seq![]
    } else {
        contexts(ids, context, (n - 1) as nat) + ids.subrange(n - 1, n - 1 + context)
    }
}

/// The targets of the examples in a list of tokens.
pub open spec fn targets(ids: Seq<usize>, context: nat) -> Seq<usize> {
    Seq::new(example_count(ids.len(), context), |i: int| ids[i + context])
}

/// Cuts a list of tokens into examples: each token that has a full context
/// before it is the target of that context.
pub fn build_examples(ids: &[usize], context: usize) -> (r: (Vec<usize>, Vec<usize>))
    ensures
        r.0@ == contexts(ids@, context as nat, example_count(ids@.len(), context as nat)),
        r.1@ == targets(ids@, context as nat),
{
    let mut example_ctx: Vec<usize> = Vec::new();
    let mut example_target: Vec<usize> = Vec::new();
    let mut i: usize = context;
    while i < ids.len()
        invariant
            context <= i,
            i <= ids@.len() || i == context,
            example_ctx@ == contexts(ids@, context as nat, (i - context) as nat),
            example_target@.len() == i - context,
            forall|k: int|
                0 <= k < i - context ==> #[trigger] example_target@[k] == ids@[k + context],
        decreases ids@.len() - i,
    {
        let mut ctx = scalar::copied(vstd::slice::slice_subrange(ids, i - context, i));
        example_ctx.append(&mut ctx);
        example_target.push(ids[i]);
        i += 1;
    }
    assert(example_target@ =~= targets(ids@, context as nat));
    (example_ctx, example_target)
}

/// The contexts of the first examples have `context` tokens each.
proof fn lemma_contexts(ids: Seq<usize>, context: nat, n: nat)
    requires
        n <= example_count(ids.len(), context),
    ensures
        contexts(ids, context, n).len() == n * context,
    decreases n,
{
    if n > 0 {
        lemma_contexts(ids, context, (n - 1) as nat);
        assert((n - 1) * context + context == n * context) by (nonlinear_arith);
    } else {
        assert(n * context == 0) by (nonlinear_arith)
            requires
                n == 0,
        ;
    }
}

/// Example `i` asks for the token that follows the `context` tokens from `i`
/// on: its stretch of the contexts holds those, and its target is that one.
pub proof fn law_examples_pair_contexts_with_what_follows(
    ids: Seq<usize>,
    context: nat,
    n: nat,
    i: int,
)
    requires
        n <= example_count(ids.len(), context),
        0 <= i < n,
    ensures
        i * context + context <= contexts(ids, context, n).len(),
        dense::row(contexts(ids, context, n), context as int, i) == ids.subrange(i, i + context),
        targets(ids, context)[i] == ids[i + context],
    decreases n,
{
    let m = (n - 1) as nat;
    lemma_contexts(ids, context, m);
    lemma_contexts(ids, context, n);
    dense::lemma_row(i, n as int, context as int);
    if i < m {
        law_examples_pair_contexts_with_what_follows(ids, context, m, i);
        assert(dense::row(contexts(ids, context, n), context as int, i) =~= dense::row(
            contexts(ids, context, m),
            context as int,
            i,
        ));
    } else {
        assert(dense::row(contexts(ids, context, n), context as int, i) =~= ids.subrange(
            i,
            i + context,
        ));
    }
}

/// The window is all that a prediction sees: what stands in the context is
/// the last tokens of the text so far, and nothing from before them.
pub proof fn law_context_holds_the_last_tokens<S: Number>(
    p: Params<S>,
    ctx: Seq<usize>,
    draws: Seq<S>,
    n: nat,
)
    requires
        ctx.len() > 0,
        n <= draws.len(),
    ensures
        p.spoken(ctx, draws, n).0.len() == n,
        p.spoken(ctx, draws, n).1 == (ctx + p.spoken(ctx, draws, n).0).skip(n as int),
    decreases n,
{
    if n == 0 {
        assert((ctx + p.spoken(ctx, draws, 0).0).skip(0) =~= ctx);
    } else {
        law_context_holds_the_last_tokens(p, ctx, draws, (n - 1) as nat);
        assert(p.spoken(ctx, draws, n).1 =~= (ctx + p.spoken(ctx, draws, n).0).skip(n as int));
    }
}

impl<S: Number> Params<S> {
    /// The tokens that a text goes on with, one for each of the first `n`
    /// draws, and the context after them.
    pub open spec fn spoken(self, ctx: Seq<usize>, draws: Seq<S>, n: nat) -> (
        Seq<usize>,
        Seq<usize>,
    )
        decreases n,
    {
        if n == 0 {
            (seq![], ctx)
        } else {
            let (ids, last) = self.spoken(ctx, draws, (n - 1) as nat);
            let id = generate::drawn(self.predict(last).probs, draws[n - 1]) as usize;
            (ids.push(id), last.skip(1).push(id))
        }
    }
}

/// The context that a text starts from: line breaks.
pub open spec fn first_context(ids: Map<Seq<char>, usize>, context: nat) -> Seq<usize> {
    Seq::new(context, |i: int| vocabulary::id_of(ids, seq!['\n']))
}

impl<S: Number> Params<S> {
    /// The text that a model writes with given draws.
    pub open spec fn writes(
        self,
        vocab: Seq<String>,
        ids: Map<Seq<char>, usize>,
        draws: Seq<S>,
    ) -> Seq<char> {
        tokenizer::text_of(
            vocabulary::decoded(
                strings::texts(vocab),
                self.spoken(first_context(ids, self.context as nat), draws, draws.len()).0,
            ),
        )
    }
}

/// Writes a text of `length` tokens, each sampled from the distribution that
/// the model gives after the last tokens before it, with fresh randomness.
pub fn generate<S: Scalar>(
    model: &Model<S>,
    vocab: &[String],
    token_to_id: &StringHashMap<usize>,
    length: usize,
) -> (text: String)
    requires
        model@.shaped(),
        model.vocab_size <= vocab@.len(),
        length > 0 ==> model.vocab_size > 0 && model.context > 0,
        length > 0 ==> model@.embeds(vocabulary::id_of(token_to_id@, seq!['\n']) as int),
    ensures
        exists|words: Seq<u32>|
            words.len() == length && text@ == model@.writes(
                vocab@,
                token_to_id@,
                #[trigger] chance::draws_of::<S>(words),
            ),
{
    let draws = chance::fresh_draws::<S>(length);
    let text = write_text(model, vocab, token_to_id, draws.as_slice());
    proof {
        let words = choose|words: Seq<u32>| draws@ == #[trigger] chance::draws_of::<S>(words);
        assert(chance::draws_of::<S>(words).len() == words.len());
    }
    text
}

/// Writes a text from a context of line breaks: one token for each draw,
/// each sampled from the distribution that the model gives after the last
/// tokens before it.
pub fn write_text<S: Scalar>(
    model: &Model<S>,
    vocab: &[String],
    token_to_id: &StringHashMap<usize>,
    draws: &[S],
) -> (text: String)
    requires
        model@.shaped(),
        model.vocab_size <= vocab@.len(),
        draws@.len() > 0 ==> model.vocab_size > 0 && model.context > 0,
        draws@.len() > 0 ==> model@.embeds(
            vocabulary::id_of(token_to_id@, seq!['\n']) as int,
        ),
    ensures
        text@ == model@.writes(vocab@, token_to_id@, draws@),
{
    let line_break = strings::string_of('\n');
    let newline_id: usize = match token_to_id.get(line_break.as_str()) {
        Some(id) => *id,
        None => 0,
    };
    let ghost first = first_context(token_to_id@, model.context as nat);
    let ghost entries = strings::texts(vocab@);
    let mut ctx: Vec<usize> = Vec::new();
    let mut i: usize = 0;
    while i < model.context
        invariant
            i <= model.context,
            ctx@.len() == i,
            forall|k: int| 0 <= k < i ==> #[trigger] ctx@[k] == newline_id,
        decreases model.context - i,
    {
        ctx.push(newline_id);
        i += 1;
    }
    assert(ctx@ =~= first);
    let mut out_tokens: Vec<String> = Vec::new();
    let mut m: usize = 0;
    assert(strings::texts(out_tokens@) =~= vocabulary::decoded(
        entries,
        model@.spoken(first, draws@, 0).0,
    ));
    while m < draws.len()
        invariant
            m <= draws@.len(),
            entries == strings::texts(vocab@),
            model@.shaped(),
            model.vocab_size <= vocab@.len(),
            draws@.len() > 0 ==> model.vocab_size > 0 && model.context > 0,
            draws@.len() > 0 ==> model@.reads(ctx@),
            ctx@ == model@.spoken(first, draws@, m as nat).1,
            strings::texts(out_tokens@) == vocabulary::decoded(
                entries,
                model@.spoken(first, draws@, m as nat).0,
            ),
        decreases draws@.len() - m,
    {
        let out = model.forward(ctx.as_slice());
        let chosen_id = generate::pick(out.probs.as_slice(), draws[m]);
        proof {
            dense::lemma_row(
                chosen_id as int,
                model.vocab_size as int,
                model.embed_dim as int,
            );
        }
        let ghost before = strings::texts(out_tokens@);
        let ghost said = model@.spoken(first, draws@, m as nat).0;
        let ghost last = ctx@;
        out_tokens.push(vocab[chosen_id].clone());
        ctx.remove(0);
        ctx.push(chosen_id);
        m += 1;
        assert(ctx@ =~= last.skip(1).push(chosen_id));
        assert forall|k: int| 0 <= k < ctx@.len() implies model@.embeds(
            #[trigger] ctx@[k] as int,
        ) by {
            if k < ctx@.len() - 1 {
                assert(model@.embeds(last[k + 1] as int));
            }
        }
        assert(strings::texts(out_tokens@) =~= before.push(entries[chosen_id as int]));
        assert(vocabulary::decoded(entries, said.push(chosen_id)) =~= vocabulary::decoded(
            entries,
            said,
        ).push(entries[chosen_id as int]));
    }
    tokenizer::detokenize(out_tokens.as_slice())
}

/// There is one example for each token with a full context before it, and its
/// target is that token.
pub proof fn law_every_full_context_makes_an_example(ids: Seq<usize>, context: nat, i: int)
    ensures
        ids.len() >= context ==> example_count(ids.len(), context) + context == ids.len(),
        ids.len() <= context ==> example_count(ids.len(), context) == 0,
        targets(ids, context).len() == example_count(ids.len(), context),
        context <= i < ids.len() ==> targets(ids, context)[i - context] == ids[i],
        contexts(ids, context, example_count(ids.len(), context)).len() == example_count(
            ids.len(),
            context,
        ) * context,
{
    lemma_contexts(ids, context, example_count(ids.len(), context));
}

} // verus!
