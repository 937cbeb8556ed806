//! The course of training: how a text is cut up and dealt out, how long to
//! train and at which rate, and what to measure.

use crate::model::{Model, Params};
use crate::scalar;
use crate::scalar::{Number, Scalar};
use crate::strings;
use rand::seq::SliceRandom;
use vstd::prelude::*;

verus! {

/// The first `n` characters of a text.
pub open spec fn clipped(text: Seq<char>, n: nat) -> Seq<char> {
    if text.len() > n {
        text.take(n as int)
    } else {
        text
    }
}

/// Cuts a text off after `max_chars` characters.
pub fn clip(text: &str, max_chars: usize) -> (r: String)
    ensures
        r@ == clipped(text@, max_chars as nat),
{
    let chars = strings::chars_of(text);
    let mut r = String::new();
    let mut i: usize = 0;
    while i < chars.len() && i < max_chars
        invariant
            i <= chars@.len(),
            i <= max_chars,
            chars@ == text@,
            r@ == text@.take(i as int),
        decreases chars@.len() - i,
    {
        r.push(chars[i]);
        i += 1;
        assert(r@ =~= text@.take(i as int));
    }
    assert(r@ =~= clipped(text@, max_chars as nat));
    r
}

/// The number of chunks in a list of tokens: each takes `seq_len` tokens as
/// inputs, and the token behind the last chunk is still needed as a target.
pub open spec fn chunk_count(len: nat, seq_len: nat) -> nat {
    if len == 0 || seq_len == 0 {
        0
    } else {
        ((len - 1) / (seq_len as int)) as nat
    }
}

/// Where the chunks of a list of tokens begin: one right behind the other.
pub open spec fn starts_of(len: nat, seq_len: nat) -> Seq<usize> {
    Seq::new(chunk_count(len, seq_len), |i: int| (i * seq_len) as usize)
}

/// Chunk `i` and its last target lie within the list, and only as many
/// chunks as are counted do.
pub proof fn lemma_chunk_fits(len: nat, seq_len: nat, i: int)
    requires
        0 < seq_len,
        0 <= i,
    ensures
        i < chunk_count(len, seq_len) <==> i * seq_len + seq_len + 1 <= len,
        i < chunk_count(len, seq_len) ==> i * seq_len < len,
        0 <= i * seq_len,
        i * seq_len + seq_len == (i + 1) * seq_len,
{
    assert(i * seq_len + seq_len == (i + 1) * seq_len && 0 <= i * seq_len) by (nonlinear_arith)
        requires
            0 <= i,
            0 < seq_len,
    ;
    if len > 0 {
        let q = (len - 1) / (seq_len as int);
        vstd::arithmetic::div_mod::lemma_fundamental_div_mod(len - 1, seq_len as int);
        assert(i < q ==> (i + 1) * seq_len <= len - 1) by (nonlinear_arith)
            requires
                len - 1 == seq_len * q + (len - 1) % (seq_len as int),
                0 <= (len - 1) % (seq_len as int) < seq_len,
        ;
        assert(i >= q ==> (i + 1) * seq_len > len - 1) by (nonlinear_arith)
            requires
                len - 1 == seq_len * q + (len - 1) % (seq_len as int),
                0 <= (len - 1) % (seq_len as int) < seq_len,
        ;
    }
}

/// Cuts a list of `len` tokens into chunks of `seq_len` inputs.
pub fn chunk_starts(len: usize, seq_len: usize) -> (starts: Vec<usize>)
    requires
        seq_len > 0,
    ensures
        starts@ == starts_of(len as nat, seq_len as nat),
{
    let mut starts: Vec<usize> = Vec::new();
    let mut pos: usize = 0;
    proof {
        lemma_chunk_fits(len as nat, seq_len as nat, 0);
    }
    while pos < len && seq_len < len - pos
        invariant
            0 < seq_len,
            pos == starts@.len() * seq_len,
            pos <= len || pos == 0,
            starts@.len() <= chunk_count(len as nat, seq_len as nat),
            forall|i: int| 0 <= i < starts@.len() ==> #[trigger] starts@[i] == i * seq_len,
        decreases len - pos,
    {
        proof {
            lemma_chunk_fits(len as nat, seq_len as nat, starts@.len() as int);
        }
        starts.push(pos);
        pos += seq_len;
    }
    proof {
        lemma_chunk_fits(len as nat, seq_len as nat, starts@.len() as int);
    }
    assert(starts@ =~= starts_of(len as nat, seq_len as nat));
    starts
}

/// The number of parts of `size` that `n` items take, the last of which may
/// be smaller.
pub open spec fn part_count(n: nat, size: nat) -> nat {
    if size == 0 {
        0
    } else {
        ((n + size - 1) / (size as int)) as nat
    }
}

/// The number of parts of `size` that `n` items take.
pub fn parts(n: usize, size: usize) -> (r: usize)
    requires
        size > 0,
    ensures
        r == part_count(n as nat, size as nat),
{
    let whole: usize = n / size;
    let rest: usize = n % size;
    proof {
        vstd::arithmetic::div_mod::lemma_fundamental_div_mod(n as int, size as int);
        if rest == 0 {
            assert(n + size - 1 == whole * size + (size - 1)) by (nonlinear_arith)
                requires
                    n == size * whole + rest,
                    rest == 0,
            ;
            vstd::arithmetic::div_mod::lemma_fundamental_div_mod_converse(
                n + size - 1,
                size as int,
                whole as int,
                size - 1,
            );
        } else {
            assert(n + size - 1 == (whole + 1) * size + (rest - 1)) by (nonlinear_arith)
                requires
                    n == size * whole + rest,
            ;
            vstd::arithmetic::div_mod::lemma_fundamental_div_mod_converse(
                n + size - 1,
                size as int,
                whole + 1,
                rest - 1,
            );
        }
        assert(rest != 0 ==> whole < n) by (nonlinear_arith)
            requires
                n == size * whole + rest,
                size > 0,
                whole >= 0,
                rest >= 0,
        ;
    }
    if rest == 0 {
        whole
    } else {
        whole + 1
    }
}

/// How many of a batch's sequences each unit of parallel work takes.
pub fn chunk_len(batch_len: usize, threads: usize) -> (r: usize)
    requires
        threads > 0,
    ensures
        r == (if batch_len == 0 {
            1
        } else {
            part_count(batch_len as nat, threads as nat)
        }),
        r > 0,
{
    let share: usize = parts(batch_len, threads);
    proof {
        lemma_some_part(batch_len as nat, threads as nat);
    }
    if share < 1 {
        1
    } else {
        share
    }
}

/// No items take no parts, any items at least one.
proof fn lemma_some_part(n: nat, size: nat)
    requires
        size > 0,
    ensures
        n == 0 ==> part_count(n, size) == 0,
        n > 0 ==> part_count(n, size) > 0,
{
    if n == 0 {
        vstd::arithmetic::div_mod::lemma_fundamental_div_mod_converse(
            size - 1,
            size as int,
            0,
            size - 1,
        );
    } else {
        assert((n + size - 1) / (size as int) >= 1) by (nonlinear_arith)
            requires
                n >= 1,
                size >= 1,
        ;
    }
}

/// Part `k` of a list.
pub open spec fn part(items: Seq<usize>, size: int, k: int) -> Seq<usize> {
    let end = k * size + size;
    items.subrange(
        k * size,
        if end <= items.len() {
            end
        } else {
            items.len() as int
        },
    )
}

/// Where the first `n` parts of a list end.
pub open spec fn end_of_parts(len: int, size: int, n: int) -> int {
    if n * size <= len {
        n * size
    } else {
        len
    }
}

/// Whether `dealt` are the parts of `size` of a list, in order.
pub open spec fn are_parts(dealt: Seq<Vec<usize>>, items: Seq<usize>, size: nat) -> bool {
    &&& dealt.len() == part_count(items.len(), size)
    &&& forall|k: int| 0 <= k < dealt.len() ==> (#[trigger] dealt[k])@ == part(items, size as int, k)
}

/// Part `k` begins within the list, and only as many parts as are counted do.
pub proof fn lemma_part_fits(n: nat, size: nat, k: int)
    requires
        0 < size,
        0 <= k,
    ensures
        k < part_count(n, size) <==> k * size < n,
        0 <= k * size,
        k * size + size == (k + 1) * size,
{
    let q = (n + size - 1) / (size as int);
    vstd::arithmetic::div_mod::lemma_fundamental_div_mod(n + size - 1, size as int);
    assert(k * size + size == (k + 1) * size && 0 <= k * size) by (nonlinear_arith)
        requires
            0 <= k,
            0 < size,
    ;
    assert(k < q ==> k * size < n) by (nonlinear_arith)
        requires
            n + size - 1 == size * q + (n + size - 1) % (size as int),
            0 <= (n + size - 1) % (size as int) < size,
    ;
    assert(k >= q ==> k * size >= n) by (nonlinear_arith)
        requires
            n + size - 1 == size * q + (n + size - 1) % (size as int),
            0 <= (n + size - 1) % (size as int) < size,
    ;
    assert(q >= 0) by (nonlinear_arith)
        requires
            q == (n + size - 1) / (size as int),
            0 < size,
            0 <= n,
    ;
}

/// Deals a list out in parts of `size`, in order.
pub fn deal(items: &[usize], size: usize) -> (dealt: Vec<Vec<usize>>)
    requires
        size > 0,
    ensures
        are_parts(dealt@, items@, size as nat),
{
    let total: usize = items.len();
    let mut dealt: Vec<Vec<usize>> = Vec::new();
    let mut from: usize = 0;
    proof {
        lemma_part_fits(items@.len(), size as nat, 0);
    }
    while from < total
        invariant
            0 < size,
            total == items@.len(),
            from <= total,
            from == dealt@.len() * size || from == total,
            dealt@.len() <= part_count(items@.len(), size as nat),
            from < total ==> from == dealt@.len() * size,
            from == total ==> dealt@.len() * size >= total,
            forall|k: int|
                0 <= k < dealt@.len() ==> (#[trigger] dealt@[k])@ == part(items@, size as int, k),
        decreases total - from,
    {
        let to: usize = if size < total - from {
            from + size
        } else {
            total
        };
        proof {
            lemma_part_fits(items@.len(), size as nat, dealt@.len() as int);
        }
        let piece = scalar::copied(vstd::slice::slice_subrange(items, from, to));
        assert(piece@ == part(items@, size as int, dealt@.len() as int));
        dealt.push(piece);
        from = to;
    }
    proof {
        lemma_part_fits(items@.len(), size as nat, dealt@.len() as int);
    }
    dealt
}

/// `SliceRandom::shuffle` with the generator that `rand::rng` hands out:
/// the list holds the same items afterwards, each as often as before, in an
/// order that is left to chance. Where the operating system fails to give
/// randomness, the call panics.
#[verifier::external_body]
fn shuffle(order: &mut Vec<usize>)
    ensures
        final(order)@.to_multiset() == old(order)@.to_multiset(),
{
    order.shuffle(&mut rand::rng());
}

/// Puts the examples of an epoch into a random order and deals them out in
/// batches of `batch_size`.
pub fn shuffled_batches(order: &mut Vec<usize>, batch_size: usize) -> (batches: Vec<Vec<usize>>)
    requires
        batch_size > 0,
    ensures
        final(order)@.to_multiset() == old(order)@.to_multiset(),
        are_parts(batches@, final(order)@, batch_size as nat),
{
    shuffle(order);
    deal(order.as_slice(), batch_size)
}

/// The entries of a table at the given places.
pub fn look_up(table: &[usize], places: &[usize]) -> (r: Vec<usize>)
    requires
        forall|i: int| 0 <= i < places@.len() ==> #[trigger] places@[i] < table@.len(),
    ensures
        r@ == Seq::new(places@.len(), |i: int| table@[places@[i] as int]),
{
    let mut r: Vec<usize> = Vec::with_capacity(places.len());
    let mut i: usize = 0;
    while i < places.len()
        invariant
            i <= places@.len(),
            forall|k: int| 0 <= k < places@.len() ==> #[trigger] places@[k] < table@.len(),
            r@.len() == i,
            forall|k: int| 0 <= k < i ==> #[trigger] r@[k] == table@[places@[k] as int],
        decreases places@.len() - i,
    {
        r.push(table[places[i]]);
        i += 1;
    }
    assert(r@ =~= Seq::new(places@.len(), |k: int| table@[places@[k] as int]));
    r
}

/// Whether an epoch is reported on: about twenty of them are, and the last.
pub fn reports(epoch: usize, epochs: usize) -> (r: bool)
    requires
        epoch < epochs,
    ensures
        r <==> (epoch == epochs - 1 || epoch as int % (if epochs / 20 > 1 {
            (epochs / 20) as int
        } else {
            1int
        }) == 0),
{
    let share: usize = epochs / 20;
    let every: usize = if share > 1 {
        share
    } else {
        1
    };
    epoch % every == 0 || epoch == epochs - 1
}

/// Whether a checkpoint is due after an epoch, where one is every `every`
/// epochs.
pub fn checkpoint_due(epoch: usize, every: usize) -> (r: bool)
    requires
        every > 0,
        epoch < usize::MAX,
    ensures
        r <==> (epoch + 1) % (every as int) == 0,
{
    (epoch + 1) % every == 0
}

/// The integer nearest to `a / b`, the greater one of two that are.
pub open spec fn rounded_quotient(a: int, b: int) -> int {
    (2 * a + b) / (2 * b)
}

/// The fewest epochs that are suggested for a vocabulary: more for a larger
/// one, whose output layer takes more passes to settle.
pub open spec fn epoch_floor(vocab_len: int) -> int {
    let share = rounded_quotient(vocab_len, 200);
    if share > 15 {
        share
    } else {
        15
    }
}

/// The number of epochs that is suggested: such that some two million tokens
/// are seen in all, but no fewer than the floor and no more than 400.
pub open spec fn epochs_for(vocab_len: int, total_tokens: int) -> int {
    let seen = rounded_quotient(
        2_000_000,
        if total_tokens > 1 {
            total_tokens
        } else {
            1
        },
    );
    if seen < epoch_floor(vocab_len) {
        epoch_floor(vocab_len)
    } else if seen > 400 {
        400
    } else {
        seen
    }
}

/// The fewest epochs that are suggested for a vocabulary.
pub fn min_epochs(vocab_len: usize) -> (r: usize)
    ensures
        r == epoch_floor(vocab_len as int),
{
    let half: usize = if vocab_len % 200 >= 100 {
        1
    } else {
        0
    };
    let share: usize = vocab_len / 200 + half;
    assert(share == rounded_quotient(vocab_len as int, 200)) by {
        assert((2 * vocab_len + 200) / 400 == vocab_len / 200 + half);
    }
    if share > 15 {
        share
    } else {
        15
    }
}

/// The number of epochs that is suggested for a vocabulary and a number of
/// tokens.
pub fn suggested_epochs(vocab_len: usize, total_tokens: usize) -> (r: usize)
    requires
        epoch_floor(vocab_len as int) <= 400,
    ensures
        r == epochs_for(vocab_len as int, total_tokens as int),
{
    let tokens: usize = if total_tokens > 1 {
        total_tokens
    } else {
        1
    };
    let seen: usize = if tokens > 4_000_000 {
        0
    } else {
        (4_000_000 + tokens) / (2 * tokens)
    };
    assert(seen == rounded_quotient(2_000_000, tokens as int)) by {
        if tokens > 4_000_000 {
            vstd::arithmetic::div_mod::lemma_fundamental_div_mod_converse(
                4_000_000 + tokens,
                2 * tokens,
                0,
                4_000_000 + tokens,
            );
        }
    }
    let floor: usize = min_epochs(vocab_len);
    if seen < floor {
        floor
    } else if seen > 400 {
        400
    } else {
        seen
    }
}

/// Where the `i`th of the batches that are timed begins: one batch after the
/// other, as long as a whole batch is left.
pub fn sample_start(i: usize, batch_size: usize, num_examples: usize) -> (r: usize)
    requires
        batch_size <= num_examples,
    ensures
        r == (if i * batch_size < num_examples - batch_size {
            i * batch_size
        } else {
            num_examples - batch_size
        }),
        r + batch_size <= num_examples,
{
    assert(0 <= i * batch_size) by (nonlinear_arith);
    let last: usize = num_examples - batch_size;
    match i.checked_mul(batch_size) {
        Some(at) => if at < last {
            at
        } else {
            last
        },
        None => last,
    }
}

/// How many steps it takes from the first epoch to the last.
pub open spec fn last_epoch(epochs: usize) -> usize {
    if epochs > 2 {
        (epochs - 1) as usize
    } else {
        1
    }
}

/// The learning rate of an epoch: from `peak` in the first down to a tenth of
/// it in the last, along half a wave of the cosine.
pub open spec fn rate_at<S: Number>(peak: S, epoch: usize, epochs: usize) -> S {
    let progress = S::natural(epoch).over(S::natural(last_epoch(epochs)));
    peak.times(
        S::numeral(1, 1).plus(
            S::numeral(9, 1).times(S::numeral(5, 1)).times(
                S::unit().plus(S::half_turn().times(progress).cos_of()),
            ),
        ),
    )
}

/// The learning rate of an epoch.
pub fn learning_rate<S: Scalar>(peak: S, epoch: usize, epochs: usize) -> (r: S)
    ensures
        r == rate_at(peak, epoch, epochs),
{
    let last: usize = if epochs > 2 {
        epochs - 1
    } else {
        1
    };
    let progress = S::from_count(epoch).div(S::from_count(last));
    peak.mul(
        S::decimal(1, 1).add(
            S::decimal(9, 1).mul(S::decimal(5, 1)).mul(S::one().add(S::pi().mul(progress).cos())),
        ),
    )
}

/// The seed that comes `i` after a seed, starting over behind the last.
pub open spec fn seed_after(seed: u64, i: u64) -> u64 {
    ((seed + i) % 0x1_0000_0000_0000_0000) as u64
}

/// The seed of the `i`th sample: each sample of a run has its own, and the
/// same in every run.
pub fn sample_seed(seed: Option<u64>, i: u64) -> (r: Option<u64>)
    ensures
        r == (match seed {
            Some(s) => Some(seed_after(s, i)),
            None => None,
        }),
{
    match seed {
        Some(s) => Some(s.wrapping_add(i)),
        None => None,
    }
}

impl<S: Number> Params<S> {
    /// What feeds the update gate over the first `n` tokens of a list.
    pub open spec fn update_activations(self, ids: Seq<usize>, n: nat) -> Seq<S>
        decreases n,
    {
        if n == 0 {
            seq![]
        } else {
            self.update_activations(ids, (n - 1) as nat) + self.update_activation(
                self.input(ids[n - 1] as int),
                self.state_before(ids, (n - 1) as nat),
            )
        }
    }

    /// What feeds the reset gate over the first `n` tokens of a list.
    pub open spec fn reset_activations(self, ids: Seq<usize>, n: nat) -> Seq<S>
        decreases n,
    {
        if n == 0 {
            seq![]
        } else {
            self.reset_activations(ids, (n - 1) as nat) + self.reset_activation(
                self.input(ids[n - 1] as int),
                self.state_before(ids, (n - 1) as nat),
            )
        }
    }
}

/// Runs a model over a list of tokens and collects what feeds its update
/// gates and what feeds its reset gates.
pub fn observe_gates<S: Scalar>(model: &Model<S>, ids: &[usize]) -> (r: (Vec<S>, Vec<S>))
    requires
        model@.shaped(),
        forall|i: int| 0 <= i < ids@.len() ==> model@.embeds(#[trigger] ids@[i] as int),
    ensures
        r.0@ == model@.update_activations(ids@, ids@.len()),
        r.1@ == model@.reset_activations(ids@, ids@.len()),
{
    let mut h: Vec<S> = scalar::zeros(model.hidden_dim);
    let mut az_all: Vec<S> = Vec::new();
    let mut ar_all: Vec<S> = Vec::new();
    let mut n: usize = 0;
    while n < ids.len()
        invariant
            n <= ids@.len(),
            model@.shaped(),
            forall|i: int| 0 <= i < ids@.len() ==> model@.embeds(#[trigger] ids@[i] as int),
            h@ == model@.state_before(ids@, n as nat),
            h@.len() == model.hidden_dim,
            az_all@ == model@.update_activations(ids@, n as nat),
            ar_all@ == model@.reset_activations(ids@, n as nat),
        decreases ids@.len() - n,
    {
        let tok = ids[n];
        assert(model@.embeds(ids@[n as int] as int));
        let (mut az, mut ar) = model.gate_preactivations(tok, h.as_slice());
        az_all.append(&mut az);
        ar_all.append(&mut ar);
        let out = model.step(tok, h.as_slice());
        h = out.h;
        n += 1;
    }
    (az_all, ar_all)
}

/// How a list of numbers is distributed.
pub struct Summary<S> {
    pub mean: S,
    pub std: S,
    pub min: S,
    pub max: S,
    /// The percentages of numbers farther from 0 than 2, 4 and 6.
    pub beyond_2: S,
    pub beyond_4: S,
    pub beyond_6: S,
}

/// The mean of a list.
pub open spec fn mean_of<S: Number>(xs: Seq<S>) -> S {
    scalar::sum_of(xs).over(S::natural(xs.len() as usize))
}

/// The squares of the distances of the numbers of a list from `mean`.
pub open spec fn squared_deviations<S: Number>(xs: Seq<S>, mean: S) -> Seq<S> {
    Seq::new(xs.len(), |i: int| xs[i].minus(mean).times(xs[i].minus(mean)))
}

/// How many of the first `n` numbers of a list are farther from 0 than `t`.
pub open spec fn beyond_count<S: Number>(xs: Seq<S>, t: S, n: nat) -> nat
    decreases n,
{
    if n == 0 {
        0
    } else {
        beyond_count(xs, t, (n - 1) as nat) + (if scalar::less(t, scalar::magnitude(xs[n - 1])) {
            1nat
        } else {
            0nat
        })
    }
}

/// The percentage of the numbers of a list that are farther from 0 than `t`.
pub open spec fn percent_beyond<S: Number>(xs: Seq<S>, t: S) -> S {
    S::natural(beyond_count(xs, t, xs.len()) as usize).over(S::natural(xs.len() as usize)).times(
        S::numeral(100, 0),
    )
}

/// The percentage of the numbers of a list that are farther from 0 than `t`.
fn measure_beyond<S: Scalar>(xs: &[S], t: S) -> (r: S)
    ensures
        r == percent_beyond(xs@, t),
{
    let mut count: usize = 0;
    let mut i: usize = 0;
    while i < xs.len()
        invariant
            i <= xs@.len(),
            count <= i,
            count == beyond_count(xs@, t, i as nat),
        decreases xs@.len() - i,
    {
        if scalar::is_less(t, scalar::abs(xs[i])) {
            count += 1;
        }
        i += 1;
    }
    S::from_count(count).div(S::from_count(xs.len())).mul(S::decimal(100, 0))
}

/// Sums up how a list of numbers is distributed.
pub fn summarize<S: Scalar>(xs: &[S]) -> (r: Summary<S>)
    ensures
        r.mean == mean_of(xs@),
        r.std == mean_of(squared_deviations(xs@, mean_of(xs@))).sqrt_of(),
        r.min == scalar::smallest_of(xs@),
        r.max == scalar::greatest_of(xs@),
        r.beyond_2 == percent_beyond(xs@, S::numeral(2, 0)),
        r.beyond_4 == percent_beyond(xs@, S::numeral(4, 0)),
        r.beyond_6 == percent_beyond(xs@, S::numeral(6, 0)),
{
    let n = S::from_count(xs.len());
    let mean = scalar::sum(xs).div(n);
    let mut squares: Vec<S> = Vec::with_capacity(xs.len());
    let mut i: usize = 0;
    while i < xs.len()
        invariant
            i <= xs@.len(),
            squares@.len() == i,
            forall|k: int|
                0 <= k < i ==> #[trigger] squares@[k] == xs@[k].minus(mean).times(
                    xs@[k].minus(mean),
                ),
        decreases xs@.len() - i,
    {
        let away = xs[i].sub(mean);
        squares.push(away.mul(away));
        i += 1;
    }
    assert(squares@ =~= squared_deviations(xs@, mean));
    let var = scalar::sum(squares.as_slice()).div(n);
    Summary {
        mean,
        std: var.sqrt(),
        min: scalar::smallest(xs),
        max: scalar::greatest(xs),
        beyond_2: measure_beyond(xs, S::decimal(2, 0)),
        beyond_4: measure_beyond(xs, S::decimal(4, 0)),
        beyond_6: measure_beyond(xs, S::decimal(6, 0)),
    }
}

} // verus!
