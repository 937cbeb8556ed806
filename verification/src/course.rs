//! What holds of a whole course of training: the chunks of a text, the
//! batches of an epoch, the number of epochs and the learning rate.

use crate::dense;
use crate::generate;
use crate::model::Params;
use crate::reals;
use crate::reals::Real;
use crate::scalar;
use crate::scalar::Number;
use crate::training;
use crate::trigonometry;
use vstd::prelude::*;

verus! {

/// The chunks of a text lie within it, each with its last target, follow one
/// another without gap or overlap, and no further chunk fits behind them.
pub proof fn law_chunks_tile_the_text(len: nat, seq_len: nat)
    requires
        0 < seq_len,
        len <= usize::MAX,
    ensures
        ({
            let starts = training::starts_of(len, seq_len);
            &&& forall|i: int|
                0 <= i < starts.len() ==> (#[trigger] starts[i]) + seq_len + 1 <= len
            &&& forall|i: int, j: int|
                0 <= i < j < starts.len() ==> (#[trigger] starts[i]) + seq_len <= (
                #[trigger] starts[j])
            &&& starts.len() > 0 ==> starts[0] == 0
            &&& forall|i: int|
                0 < i < starts.len() ==> (#[trigger] starts[i]) == starts[i - 1] + seq_len
            &&& starts.len() * seq_len + seq_len + 1 > len
        }),
{
    let starts = training::starts_of(len, seq_len);
    assert forall|i: int| 0 <= i < starts.len() implies (#[trigger] starts[i]) == i * seq_len
        && starts[i] + seq_len + 1 <= len by {
        training::lemma_chunk_fits(len, seq_len, i);
    }
    training::lemma_chunk_fits(len, seq_len, starts.len() as int);
    assert forall|i: int| 0 < i < starts.len() implies (#[trigger] starts[i]) == starts[i - 1]
        + seq_len by {
        training::lemma_chunk_fits(len, seq_len, i - 1);
    }
    assert forall|i: int, j: int| 0 <= i < j < starts.len() implies (#[trigger] starts[i])
        + seq_len <= (#[trigger] starts[j]) by {
        assert(i * seq_len + seq_len <= j * seq_len) by (nonlinear_arith)
            requires
                i < j,
                0 < seq_len,
        ;
    }
    if starts.len() > 0 {
        assert(starts[0] == 0 * seq_len);
    }
}

/// The first `n` parts of a list, one after the other.
pub open spec fn joined(dealt: Seq<Vec<usize>>, n: nat) -> Seq<usize>
    decreases n,
{
    if n == 0 {
        seq![]
    } else {
        joined(dealt, (n - 1) as nat) + dealt[n - 1]@
    }
}

/// The first parts make up the beginning of the list.
proof fn lemma_joined(dealt: Seq<Vec<usize>>, items: Seq<usize>, size: nat, n: nat)
    requires
        0 < size,
        training::are_parts(dealt, items, size),
        n <= dealt.len(),
    ensures
        joined(dealt, n) == items.take(training::end_of_parts(items.len() as int, size as int, n as int)),
        0 <= training::end_of_parts(items.len() as int, size as int, n as int) <= items.len(),
    decreases n,
{
    if n == 0 {
        assert(joined(dealt, 0) =~= items.take(0));
    } else {
        let k = n - 1;
        lemma_joined(dealt, items, size, k as nat);
        training::lemma_part_fits(items.len(), size, k);
        training::lemma_part_fits(items.len(), size, n as int);
        assert(dealt[k]@ == training::part(items, size as int, k));
        assert(joined(dealt, n) =~= items.take(
            training::end_of_parts(items.len() as int, size as int, n as int),
        ));
    }
}

/// The parts that a list is dealt out in make up the list: nothing is lost,
/// repeated or moved.
pub proof fn law_parts_make_up_the_list(dealt: Seq<Vec<usize>>, items: Seq<usize>, size: nat)
    requires
        0 < size,
        training::are_parts(dealt, items, size),
    ensures
        joined(dealt, dealt.len()) == items,
        forall|k: int| 0 <= k < dealt.len() ==> 0 < (#[trigger] dealt[k])@.len() <= size,
        forall|k: int| 0 <= k < dealt.len() - 1 ==> (#[trigger] dealt[k])@.len() == size,
{
    lemma_joined(dealt, items, size, dealt.len());
    training::lemma_part_fits(items.len(), size, dealt.len() as int);
    assert(items.take(items.len() as int) =~= items);
    assert forall|k: int| 0 <= k < dealt.len() implies 0 < (#[trigger] dealt[k])@.len() <= size && (
    k < dealt.len() - 1 ==> dealt[k]@.len() == size) by {
        training::lemma_part_fits(items.len(), size, k);
        training::lemma_part_fits(items.len(), size, k + 1);
    }
}

/// Every epoch visits every example once: whatever the order, the batches
/// that it is dealt out in hold the numbers of all examples, each once.
pub proof fn law_epoch_visits_every_example_once(
    batches: Seq<Vec<usize>>,
    order: Seq<usize>,
    batch_size: nat,
    examples: nat,
)
    requires
        0 < batch_size,
        order.to_multiset() == generate::positions(examples).to_multiset(),
        training::are_parts(batches, order, batch_size),
    ensures
        joined(batches, batches.len()).to_multiset() == generate::positions(
            examples,
        ).to_multiset(),
{
    law_parts_make_up_the_list(batches, order, batch_size);
}

/// A greater divisor gives no greater quotient.
proof fn lemma_rounded_quotient_order(a: int, b: int, c: int)
    requires
        0 <= a,
        0 < b <= c,
    ensures
        training::rounded_quotient(a, c) <= training::rounded_quotient(a, b),
{
    let x = training::rounded_quotient(a, b);
    let y = training::rounded_quotient(a, c);
    vstd::arithmetic::div_mod::lemma_fundamental_div_mod(2 * a + b, 2 * b);
    vstd::arithmetic::div_mod::lemma_fundamental_div_mod(2 * a + c, 2 * c);
    let r = (2 * a + b) % (2 * b);
    let q = (2 * a + c) % (2 * c);
    assert(y <= x) by (nonlinear_arith)
        requires
            0 <= a,
            0 < b <= c,
            2 * a + b == (2 * b) * x + r,
            2 * a + c == (2 * c) * y + q,
            0 <= r < 2 * b,
            0 <= q < 2 * c,
    ;
}

/// The suggested number of epochs lies between the floor, which is 15 at
/// least and no lower for a larger vocabulary, and 400; for more tokens it is
/// no higher.
pub proof fn law_suggested_epochs_are_bounded(vocab_len: int, larger: int, tokens: int, more: int)
    requires
        0 <= vocab_len <= larger,
        0 <= tokens <= more,
        training::epoch_floor(vocab_len) <= 400,
    ensures
        15 <= training::epoch_floor(vocab_len) <= training::epoch_floor(larger),
        training::epoch_floor(vocab_len) <= training::epochs_for(vocab_len, tokens) <= 400,
        training::epochs_for(vocab_len, more) <= training::epochs_for(vocab_len, tokens),
{
    let b: int = if tokens > 1 {
        tokens
    } else {
        1
    };
    let c: int = if more > 1 {
        more
    } else {
        1
    };
    lemma_rounded_quotient_order(2_000_000, b, c);
    assert(training::rounded_quotient(vocab_len, 200) == (2 * vocab_len + 200) / 400);
    assert(training::rounded_quotient(larger, 200) == (2 * larger + 200) / 400);
}

/// The samples of a run draw from different seeds.
pub proof fn law_sample_seeds_differ(seed: u64, i: u64, j: u64)
    requires
        i != j,
    ensures
        training::seed_after(seed, i) != training::seed_after(seed, j),
{
}

/// Decimal numbers with one digit behind the point.
proof fn lemma_tenths(digits: u64)
    ensures
        Real::numeral(digits, 1).val() == digits as real / 10real,
{
    reveal(reals::quotient);
    reveal_with_fuel(reals::ten_to, 2);
}

/// The learning rate starts at its peak and never falls below a tenth of it
/// nor rises above it.
pub proof fn law_learning_rate_stays_above_a_tenth(peak: Real, epoch: usize, epochs: usize)
    requires
        peak.val() >= 0real,
    ensures
        training::rate_at(peak, 0, epochs) == peak,
        peak.val() / 10real <= training::rate_at(peak, epoch, epochs).val() <= peak.val(),
{
    let whole = training::last_epoch(epochs);
    lemma_rate(peak, Real::natural(epoch).over(Real::natural(whole)));
    lemma_rate(peak, Real::natural(0).over(Real::natural(whole)));
    let w = whole as real;
    reals::lemma_product(w, 0real, 0real);
    reals::lemma_product(0real, w, w);
    reals::lemma_quotient_is(0real, w, 0real);
    let p = reals::ratio_pi();
    reals::lemma_product(p, 0real, 0real);
    reals::lemma_cosine(0real);
    reals::lemma_same_value(training::rate_at(peak, 0, epochs), peak);
}

/// In the last of several epochs the learning rate is a tenth of its peak.
pub proof fn law_learning_rate_ends_at_a_tenth(peak: Real, epochs: usize)
    requires
        reals::cosine_is_complete(),
        peak.val() >= 0real,
        epochs >= 2,
    ensures
        training::rate_at(peak, (epochs - 1) as usize, epochs).val() == peak.val() / 10real,
{
    let whole = training::last_epoch(epochs);
    assert(whole == epochs - 1);
    let w = whole as real;
    lemma_rate(peak, Real::natural(whole).over(Real::natural(whole)));
    reals::lemma_product(w, 1real, 1real);
    reals::lemma_product(1real, w, w);
    reals::lemma_quotient_is(w, w, 1real);
    let p = reals::ratio_pi();
    reals::lemma_product(p, 1real, 1real);
    trigonometry::lemma_cosine_of_half_turn();
}

/// The learning rate at a point of the schedule.
proof fn lemma_rate(peak: Real, progress: Real)
    requires
        peak.val() >= 0real,
    ensures
        ({
            let turn = Real::half_turn().times(progress);
            let rate = peak.times(
                Real::numeral(1, 1).plus(
                    Real::numeral(9, 1).times(Real::numeral(5, 1)).times(
                        Real::unit().plus(turn.cos_of()),
                    ),
                ),
            ).val();
            &&& peak.val() / 10real <= rate <= peak.val()
            &&& turn.cos_of().val() == 1real ==> rate == peak.val()
            &&& turn.cos_of().val() == -1real ==> rate == peak.val() / 10real
        }),
{
    let turn = Real::half_turn().times(progress);
    let c = turn.cos_of().val();
    reals::lemma_cosine(turn.val());
    lemma_tenths(1);
    lemma_tenths(9);
    lemma_tenths(5);
    let n = reals::product(9real / 10real, 5real / 10real);
    assert(n == 45real / 100real) by {
        reveal(reals::product);
    }
    let share = reals::product(n, 1real + c);
    assert(share == (45real / 100real) * (1real + c)) by {
        reveal(reals::product);
    }
    let factor = 1real / 10real + share;
    assert(1real / 10real <= factor <= 1real);
    reals::lemma_product_order(peak.val(), 1real / 10real, factor);
    reals::lemma_product_order(peak.val(), factor, 1real);
    reals::lemma_product(peak.val(), 1real, 1real);
    assert(reals::product(peak.val(), 1real / 10real) == peak.val() / 10real) by {
        reveal(reals::product);
    }
}

/// The learning rate along the schedule: 11/20 of the peak, and 9/20 of it times
/// the cosine of the share of half a turn that has been gone through between the
/// first epoch and the last.
pub proof fn law_learning_rate_follows_the_cosine(peak: Real, epoch: usize, epochs: usize)
    requires
        peak.val() >= 0real,
    ensures
        ({
            let last = if epochs > 2 {
                epochs as real - 1real
            } else {
                1real
            };
            let turn = reals::product(reals::ratio_pi(), reals::quotient(epoch as real, last));
            training::rate_at(peak, epoch, epochs).val() == reals::product(
                peak.val(),
                11real / 20real + (9real / 20real) * reals::cosine(turn),
            )
        }),
{
    let last = if epochs > 2 {
        epochs as real - 1real
    } else {
        1real
    };
    assert(training::last_epoch(epochs) as real == last);
    let c = reals::cosine(
        reals::product(reals::ratio_pi(), reals::quotient(epoch as real, last)),
    );
    lemma_tenths(1);
    lemma_tenths(9);
    lemma_tenths(5);
    let n = reals::product(9real / 10real, 5real / 10real);
    assert(n == 45real / 100real) by {
        reveal(reals::product);
    }
    assert(reals::product(n, 1real + c) == (45real / 100real) * (1real + c)) by {
        reveal(reals::product);
    }
}

/// The learning rate whatever the numbers are: the peak times a tenth and nine
/// tenths of half of 1 plus the cosine.
pub proof fn law_learning_rate_schedule<S: Number>(peak: S, epoch: usize, epochs: usize)
    ensures
        epochs > 2 ==> training::rate_at(peak, epoch, epochs) == peak.times(
            S::numeral(1, 1).plus(
                S::numeral(9, 1).times(S::numeral(5, 1)).times(
                    S::unit().plus(
                        S::half_turn().times(
                            S::natural(epoch).over(S::natural((epochs - 1) as usize)),
                        ).cos_of(),
                    ),
                ),
            ),
        ),
        epochs <= 2 ==> training::rate_at(peak, epoch, epochs) == peak.times(
            S::numeral(1, 1).plus(
                S::numeral(9, 1).times(S::numeral(5, 1)).times(
                    S::unit().plus(
                        S::half_turn().times(S::natural(epoch).over(S::natural(1))).cos_of(),
                    ),
                ),
            ),
        ),
{
}

/// A text that is cut off keeps its beginning: as many characters as are asked
/// for, or all that there are.
pub proof fn law_clipping_keeps_the_beginning(text: Seq<char>, n: nat)
    ensures
        training::clipped(text, n).is_prefix_of(text),
        training::clipped(text, n).len() <= n,
        training::clipped(text, n).len() < n ==> training::clipped(text, n) == text,
{
    if text.len() > n {
        assert(text.take(n as int).is_prefix_of(text));
    } else {
        assert(text.is_prefix_of(text));
    }
}

/// A number of items takes as few parts of a size as hold them all.
pub proof fn law_parts_are_as_few_as_can_be(n: nat, size: nat)
    requires
        size > 0,
    ensures
        n <= training::part_count(n, size) * size,
        n == 0 ==> training::part_count(n, size) == 0,
        n > 0 ==> training::part_count(n, size) > 0 && (training::part_count(n, size) - 1) * size
            < n,
{
    let k = training::part_count(n, size);
    training::lemma_part_fits(n, size, k as int);
    training::lemma_part_fits(n, size, 0);
    if k > 0 {
        training::lemma_part_fits(n, size, k - 1);
    }
}

/// The fewest epochs that are suggested: the nearest number to a two hundredth
/// of the vocabulary, but 15 at least.
pub proof fn law_larger_vocabularies_take_more_epochs(vocab_len: int)
    requires
        vocab_len >= 0,
    ensures
        ({
            let least = training::epoch_floor(vocab_len);
            &&& least >= 15
            &&& least == 15 ==> vocab_len < 200 * 15 + 100
            &&& least > 15 ==> 200 * least - 100 <= vocab_len < 200 * least + 100
        }),
{
    let share = training::rounded_quotient(vocab_len, 200);
    vstd::arithmetic::div_mod::lemma_fundamental_div_mod(2 * vocab_len + 200, 400);
    assert(400 * share <= 2 * vocab_len + 200 < 400 * share + 400);
}

/// The number of epochs that is suggested is the nearest number to two million
/// over the number of tokens, unless that is less than the fewest or more than
/// 400.
pub proof fn law_suggested_epochs_see_two_million_tokens(vocab_len: int, total_tokens: int)
    requires
        vocab_len >= 0,
        total_tokens >= 0,
        training::epoch_floor(vocab_len) <= 400,
    ensures
        ({
            let tokens = if total_tokens > 1 {
                total_tokens
            } else {
                1
            };
            let least = training::epoch_floor(vocab_len);
            let epochs = training::epochs_for(vocab_len, total_tokens);
            &&& least <= epochs <= 400
            &&& epochs > least ==> (2 * epochs - 1) * tokens <= 4_000_000
            &&& epochs < 400 ==> 4_000_000 < (2 * epochs + 1) * tokens
        }),
{
    let tokens = if total_tokens > 1 {
        total_tokens
    } else {
        1
    };
    let seen = training::rounded_quotient(2_000_000, tokens);
    let a = 4_000_000 + tokens;
    vstd::arithmetic::div_mod::lemma_fundamental_div_mod(a, 2 * tokens);
    let r = a % (2 * tokens);
    assert((2 * seen - 1) * tokens <= 4_000_000 < (2 * seen + 1) * tokens) by (nonlinear_arith)
        requires
            4_000_000 + tokens == (2 * tokens) * seen + r,
            0 <= r < 2 * tokens,
    ;
    let epochs = training::epochs_for(vocab_len, total_tokens);
    assert(epochs <= seen ==> (2 * epochs - 1) * tokens <= (2 * seen - 1) * tokens)
        by (nonlinear_arith)
        requires
            tokens > 0,
    ;
    assert(epochs >= seen ==> (2 * epochs + 1) * tokens >= (2 * seen + 1) * tokens)
        by (nonlinear_arith)
        requires
            tokens > 0,
    ;
}

/// The seed of a sample is so many after the seed of the run, counted from the
/// front again behind the last.
pub proof fn law_seeds_are_counted_on(seed: u64, i: u64)
    ensures
        seed + i <= u64::MAX ==> training::seed_after(seed, i) == seed + i,
        seed + i > u64::MAX ==> training::seed_after(seed, i) == seed + i - u64::MAX - 1,
{
}

/// What feeds the gates is observed token by token, each in the state after all
/// tokens before it.
pub proof fn law_gates_are_observed_along_the_text<S: Number>(
    p: Params<S>,
    ids: Seq<usize>,
    n: nat,
)
    ensures
        p.update_activations(ids, 0) == Seq::<S>::empty(),
        p.reset_activations(ids, 0) == Seq::<S>::empty(),
        ({
            let tok = ids[n as int];
            let x = p.embedding.subrange(
                tok * p.embed_dim,
                tok * p.embed_dim + p.embed_dim,
            );
            let h = p.state_before(ids, n);
            &&& p.update_activations(ids, n + 1) == p.update_activations(ids, n) + dense::affine(
                dense::affine(p.b_z, p.w_z, x),
                p.u_z,
                h,
            )
            &&& p.reset_activations(ids, n + 1) == p.reset_activations(ids, n) + dense::affine(
                dense::affine(p.b_r, p.w_r, x),
                p.u_r,
                h,
            )
        }),
{
}

/// A mean is a sum over the number of what was added up; deviations are squared
/// one by one; and a percentage is a share of the numbers, times 100.
pub proof fn law_summaries_follow_the_formulas<S: Number>(xs: Seq<S>, t: S, i: int)
    requires
        0 <= i < xs.len(),
    ensures
        training::mean_of(xs) == scalar::sum_of(xs).over(S::natural(xs.len() as usize)),
        training::squared_deviations(xs, t).len() == xs.len(),
        training::squared_deviations(xs, t)[i] == xs[i].minus(t).times(xs[i].minus(t)),
        training::percent_beyond(xs, t) == S::natural(
            training::beyond_count(xs, t, xs.len()) as usize,
        ).over(S::natural(xs.len() as usize)).times(S::numeral(100, 0)),
{
}

/// How many numbers are farther from 0 than a bound: one more for each that is.
pub proof fn law_one_more_beyond<S: Number>(xs: Seq<S>, t: S, n: nat)
    ensures
        training::beyond_count(xs, t, 0) == 0,
        training::beyond_count(xs, t, n + 1) == training::beyond_count(xs, t, n) + (
        if scalar::less(t, scalar::magnitude(xs[n as int])) {
            1nat
        } else {
            0nat
        }),
{
}

} // verus!
