//! What the operations on numbers and lists give, entry by entry, whatever the
//! numbers are: rounded or not, large or small, in order or not.

use crate::bptt;
use crate::dense;
use crate::model;
use crate::pointwise;
use crate::scalar;
use crate::scalar::Number;
use vstd::prelude::*;

verus! {

/// Numbers are compared by their keys alone. Something without a key is
/// neither less nor at most anything, and gives way to any number.
pub proof fn law_keys_decide<S: Number>(a: S, b: S)
    ensures
        a.key() is None || b.key() is None ==> !scalar::less(a, b) && !scalar::at_most(a, b),
        a.key() is Some && b.key() is Some ==> {
            &&& scalar::less(a, b) <==> a.key()->0 < b.key()->0
            &&& scalar::at_most(a, b) <==> a.key()->0 <= b.key()->0
            &&& scalar::greater_of(a, b) == (if a.key()->0 < b.key()->0 {
                b
            } else {
                a
            })
            &&& scalar::smaller_of(a, b) == (if b.key()->0 < a.key()->0 {
                b
            } else {
                a
            })
        },
        a.key() is None ==> scalar::greater_of(a, b) == b && scalar::smaller_of(a, b) == b,
        a.key() is Some && b.key() is None ==> scalar::greater_of(a, b) == a
            && scalar::smaller_of(a, b) == a,
        a.key() is Some && S::nought().key() is Some && a.key()->0 < S::nought().key()->0
            ==> scalar::magnitude(a) == a.opposite(),
        !(a.key() is Some && S::nought().key() is Some && a.key()->0 < S::nought().key()->0)
            ==> scalar::magnitude(a) == a,
{
}

/// Integers that number types give as keys order them as they are ordered
/// themselves.
pub proof fn law_integer_keys_keep_their_order(a: i64, b: i64)
    ensures
        scalar::place_of(None) is None,
        scalar::place_of(Some(a)) is Some,
        scalar::place_of(Some(a))->0 < scalar::place_of(Some(b))->0 <==> a < b,
{
}

/// A sum, the greatest and the smallest of a list grow with it: one number
/// more is added, or compared, at the end.
pub proof fn law_one_more_number<S: Number>(xs: Seq<S>, v: S)
    ensures
        scalar::sum_of(Seq::<S>::empty()) == S::nought(),
        scalar::greatest_of(Seq::<S>::empty()) == S::infimum(),
        scalar::smallest_of(Seq::<S>::empty()) == S::supremum(),
        scalar::sum_of(xs.push(v)) == scalar::sum_of(xs).plus(v),
        scalar::greatest_of(xs.push(v)) == scalar::greater_of(scalar::greatest_of(xs), v),
        scalar::smallest_of(xs.push(v)) == scalar::smaller_of(scalar::smallest_of(xs), v),
{
    lemma_prefix(xs, v, xs.len());
}

/// What is added up or compared of the first numbers has to do with them only.
proof fn lemma_prefix<S: Number>(xs: Seq<S>, v: S, n: nat)
    requires
        n <= xs.len(),
    ensures
        scalar::sum_to(xs.push(v), n) == scalar::sum_to(xs, n),
        scalar::greatest_to(xs.push(v), n) == scalar::greatest_to(xs, n),
        scalar::smallest_to(xs.push(v), n) == scalar::smallest_to(xs, n),
    decreases n,
{
    if n > 0 {
        lemma_prefix(xs, v, (n - 1) as nat);
    }
}

/// The sum of the first numbers of a list is the sum of the list that they
/// make.
pub proof fn law_sums_run_from_the_front<S: Number>(xs: Seq<S>, n: nat)
    requires
        n <= xs.len(),
    ensures
        scalar::sum_to(xs, n) == scalar::sum_of(xs.take(n as int)),
    decreases n,
{
    if n > 0 {
        law_sums_run_from_the_front(xs, (n - 1) as nat);
        assert(xs.take(n as int) =~= xs.take(n - 1).push(xs[n - 1]));
        law_one_more_number(xs.take(n - 1), xs[n - 1]);
    }
}

/// Every zero of a list of zeros is the number 0.
pub proof fn law_zeros_are_zero<S: Number>(n: nat)
    ensures
        scalar::noughts::<S>(n).len() == n,
        forall|i: int| 0 <= i < n ==> #[trigger] scalar::noughts::<S>(n)[i] == S::nought(),
{
}

/// A product of a matrix grows with its input: without any it is what it
/// started from, and one input more adds, to every output, that input times
/// the weight between the two. The weights from one input stand side by side.
pub proof fn law_one_more_input<S: Number>(start: Seq<S>, mat: Seq<S>, x: Seq<S>, v: S)
    ensures
        dense::affine(start, mat, seq![]) == start,
        dense::affine(start, mat, x.push(v)).len() == start.len(),
        forall|h: int|
            0 <= h < start.len() ==> #[trigger] dense::affine(start, mat, x.push(v))[h]
                == dense::affine(start, mat, x)[h].plus(
                v.times(mat[x.len() * start.len() + h]),
            ),
{
    assert(dense::affine(start, mat, seq![]) =~= start);
    assert forall|h: int| 0 <= h < start.len() implies #[trigger] dense::affine(
        start,
        mat,
        x.push(v),
    )[h] == dense::affine(start, mat, x)[h].plus(v.times(mat[x.len() * start.len() + h])) by {
        lemma_column_prefix(start[h], mat, start.len() as int, x, v, h, x.len());
    }
}

proof fn lemma_column_prefix<S: Number>(
    start: S,
    mat: Seq<S>,
    width: int,
    x: Seq<S>,
    v: S,
    h: int,
    k: nat,
)
    requires
        k <= x.len(),
    ensures
        dense::column(start, mat, width, x.push(v), h, k) == dense::column(
            start,
            mat,
            width,
            x,
            h,
            k,
        ),
    decreases k,
{
    if k > 0 {
        lemma_column_prefix(start, mat, width, x, v, h, (k - 1) as nat);
    }
}

/// The products of a matrix's rows are taken row by row, and each grows with
/// the list that it is multiplied with: by the next weight of the row times
/// the next number. What goes back to an input is added to what was there.
pub proof fn law_rows_are_multiplied_one_by_one<S: Number>(
    start: Seq<S>,
    mat: Seq<S>,
    rows: nat,
    d: Seq<S>,
    v: S,
    k: int,
)
    requires
        0 <= k < rows,
        rows * d.len() <= mat.len(),
    ensures
        dense::row_sums(mat, 1, seq![])[0] == S::nought(),
        dense::row_sums(mat, 1, d.push(v))[0] == dense::row_sums(mat, 1, d)[0].plus(
            mat[d.len() as int].times(v),
        ),
        dense::row_sums(mat, rows, d).len() == rows,
        dense::row_sums(mat, rows, d)[k] == dense::row_sums(
            mat.subrange(k * d.len(), k * d.len() + d.len()),
            1,
            d,
        )[0],
        dense::transposed(start, mat, d).len() == start.len(),
        k < start.len() ==> dense::transposed(start, mat, d)[k] == start[k].plus(
            dense::row_sums(mat, rows, d)[k],
        ),
{
    lemma_row_prefix(mat, d, v, d.len());
    dense::lemma_row(k, rows as int, d.len() as int);
    lemma_row_alone(mat, k, d, d.len());
}

proof fn lemma_row_prefix<S: Number>(mat: Seq<S>, d: Seq<S>, v: S, n: nat)
    requires
        n <= d.len(),
    ensures
        dense::row_sum(mat, (d.len() + 1) as int, 0, d.push(v), n) == dense::row_sum(
            mat,
            d.len() as int,
            0,
            d,
            n,
        ),
    decreases n,
{
    if n > 0 {
        lemma_row_prefix(mat, d, v, (n - 1) as nat);
        assert(0 * (d.len() + 1) == 0 && 0 * d.len() == 0);
    }
}

proof fn lemma_row_alone<S: Number>(mat: Seq<S>, k: int, d: Seq<S>, n: nat)
    requires
        n <= d.len(),
        0 <= k * d.len(),
        k * d.len() + d.len() <= mat.len(),
    ensures
        dense::row_sum(mat, d.len() as int, k, d, n) == dense::row_sum(
            mat.subrange(k * d.len(), k * d.len() + d.len()),
            d.len() as int,
            0,
            d,
            n,
        ),
    decreases n,
{
    if n > 0 {
        lemma_row_alone(mat, k, d, (n - 1) as nat);
        assert(0 * d.len() == 0);
    }
}

/// An outer product adds, to the entry in row `k` and column `h`, the product
/// of the `k`th number of one list and the `h`th of the other, and leaves what
/// lies behind its rows alone.
pub proof fn law_outer_products_fill_rows<S: Number>(
    start: Seq<S>,
    x: Seq<S>,
    d: Seq<S>,
    k: int,
    h: int,
)
    requires
        x.len() * d.len() <= start.len(),
    ensures
        dense::outer(start, x, d).len() == start.len(),
        0 <= k < x.len() && 0 <= h < d.len() ==> dense::outer(start, x, d)[k * d.len() + h]
            == start[k * d.len() + h].plus(x[k].times(d[h])),
        forall|i: int|
            x.len() * d.len() <= i < start.len() ==> #[trigger] dense::outer(start, x, d)[i]
                == start[i],
{
    if 0 <= k < x.len() && 0 <= h < d.len() {
        dense::lemma_cell(k, h, x.len() as int, d.len() as int);
    }
}

/// Lists are added entry by entry, and a list is added to one row of a table;
/// entries that have no counterpart, and other rows, stay as they were. A row
/// of a table is the stretch of its width that begins a multiple of the width
/// in.
pub proof fn law_lists_are_added_entry_by_entry<S: Number>(
    a: Seq<S>,
    b: Seq<S>,
    width: nat,
    k: int,
    i: int,
)
    requires
        0 <= i < a.len(),
    ensures
        dense::added(a, b).len() == a.len(),
        i < b.len() ==> dense::added(a, b)[i] == a[i].plus(b[i]),
        i >= b.len() ==> dense::added(a, b)[i] == a[i],
        dense::row_added(a, width as int, k, b).len() == a.len(),
        k * width <= i < k * width + width ==> dense::row_added(a, width as int, k, b)[i]
            == a[i].plus(b[i - k * width]),
        i < k * width || i >= k * width + width ==> dense::row_added(a, width as int, k, b)[i]
            == a[i],
        0 <= k * width && k * width + width <= a.len() ==> dense::row(a, width as int, k).len()
            == width,
        0 <= k * width <= i < k * width + width <= a.len() ==> dense::row(a, width as int, k)[i - k
            * width] == a[i],
{
}

/// The logistic function of a number is 1 over 1 plus the exponential of its
/// opposite; it, the hyperbolic tangent and products are taken entry by entry.
pub proof fn law_functions_are_taken_entry_by_entry<S: Number>(
    n: nat,
    xs: Seq<S>,
    ys: Seq<S>,
    i: int,
)
    requires
        0 <= i < n,
        n == xs.len(),
    ensures
        pointwise::sigmoids_of(xs).len() == n,
        pointwise::sigmoids_of(xs)[i] == S::unit().over(
            S::unit().plus(xs[i].opposite().exp_of()),
        ),
        pointwise::sigmoid_of(xs[i]) == pointwise::sigmoids_of(xs)[i],
        pointwise::tanhs_of(xs).len() == n,
        pointwise::tanhs_of(xs)[i] == xs[i].tanh_of(),
        pointwise::products(n, xs, ys).len() == n,
        pointwise::products(n, xs, ys)[i] == xs[i].times(ys[i]),
{
}

/// A gradient goes back through the logistic function times `y * (1 - y)`, and
/// through the hyperbolic tangent times `1 - y * y`, where `y` is the value of
/// the function there: however large the gradient is, nothing is cut off.
pub proof fn law_gradients_pass_functions_times_their_slope<S: Number>(
    d: Seq<S>,
    y: Seq<S>,
    i: int,
)
    requires
        0 <= i < d.len(),
    ensures
        pointwise::through_sigmoid(d, y).len() == d.len(),
        pointwise::through_sigmoid(d, y)[i] == d[i].times(y[i]).times(S::unit().minus(y[i])),
        pointwise::through_tanh(d, y).len() == d.len(),
        pointwise::through_tanh(d, y)[i] == d[i].times(S::unit().minus(y[i].times(y[i]))),
{
}

/// The softmax of logits: the exponential of each, less the greatest, over the
/// sum of them all.
pub proof fn law_softmax_shares_exponentials<S: Number>(logits: Seq<S>, i: int)
    requires
        0 <= i < logits.len(),
    ensures
        ({
            let top = scalar::greatest_of(logits);
            let exps = Seq::new(logits.len(), |j: int| logits[j].minus(top).exp_of());
            &&& pointwise::softmax_of(logits).len() == logits.len()
            &&& pointwise::softmax_of(logits)[i] == logits[i].minus(top).exp_of().over(
                scalar::sum_of(exps),
            )
        }),
{
    let top = scalar::greatest_of(logits);
    let exps = Seq::new(logits.len(), |j: int| logits[j].minus(top).exp_of());
    assert(pointwise::shifted_exps(logits) =~= exps);
}

/// The gradient by the logits is the distribution, less 1 at the target; the
/// loss is the opposite of the logarithm of a probability and `1e-9`.
pub proof fn law_targets_are_taken_off<S: Number>(probs: Seq<S>, target: int, i: int)
    requires
        0 <= target < probs.len(),
        0 <= i < probs.len(),
    ensures
        pointwise::less_target(probs, target).len() == probs.len(),
        pointwise::less_target(probs, target)[i] == (if i == target {
            probs[i].minus(S::unit())
        } else {
            probs[i]
        }),
        pointwise::surprise(probs[i]) == probs[i].plus(S::numeral(1, 9)).ln_of().opposite(),
{
}

/// The new state takes from the old what the update gate keeps, and from the
/// candidate what it lets in. Gradients go the same ways back.
pub proof fn law_memory_is_blended_slot_by_slot<S: Number>(
    n: nat,
    z: Seq<S>,
    h: Seq<S>,
    c: Seq<S>,
    d: Seq<S>,
    i: int,
)
    requires
        0 <= i < n,
    ensures
        model::blended(n, z, h, c).len() == n,
        model::blended(n, z, h, c)[i] == S::unit().minus(z[i]).times(h[i]).plus(z[i].times(c[i])),
        bptt::by_update(n, d, c, h).len() == n,
        bptt::by_update(n, d, c, h)[i] == d[i].times(c[i].minus(h[i])),
        bptt::by_kept(n, d, z).len() == n,
        bptt::by_kept(n, d, z)[i] == d[i].times(S::unit().minus(z[i])),
{
}

/// Every weight of a list that has a gradient moves: by the scale times its
/// gradient, against it, wherever in the list it stands.
pub proof fn law_every_weight_moves<S: Number>(weights: Seq<S>, scale: S, d: Seq<S>, i: int)
    requires
        0 <= i < weights.len(),
    ensures
        bptt::descended(weights, scale, d).len() == weights.len(),
        i < d.len() ==> bptt::descended(weights, scale, d)[i] == weights[i].minus(
            scale.times(d[i]),
        ),
        i >= d.len() ==> bptt::descended(weights, scale, d)[i] == weights[i],
{
}

/// Random weights are draws moved to the middle of the range, doubled, and
/// scaled by one over the root of the number of inputs.
pub proof fn law_draws_are_spread<S: Number>(
    draws: Seq<S>,
    from: int,
    len: nat,
    fan_in: usize,
    i: int,
)
    requires
        0 <= i < len,
    ensures
        model::spread(draws, from, len, fan_in).len() == len,
        model::spread(draws, from, len, fan_in)[i] == draws[from + i].minus(
            S::numeral(5, 1),
        ).times(S::numeral(2, 0)).times(S::unit().over(S::natural(fan_in).sqrt_of())),
{
}

} // verus!
