//! Dense products.
//!
//! A matrix is stored row by row, one row per input: row `k`, a stretch as
//! long as the output, holds the weights that fan out of input `k`.

use crate::scalar::{Number, Scalar};
use vstd::prelude::*;

verus! {

/// What the first `k` inputs add to output `h`, which starts from `start`.
pub open spec fn column<S: Number>(
    start: S,
    mat: Seq<S>,
    width: int,
    x: Seq<S>,
    h: int,
    k: nat,
) -> S
    decreases k,
{
    if k == 0 {
        start
    } else {
        column(start, mat, width, x, h, (k - 1) as nat).plus(
            x[k - 1].times(mat[(k - 1) * width + h]),
        )
    }
}

/// The product of a matrix and `x`, added to `start`.
pub open spec fn affine<S: Number>(start: Seq<S>, mat: Seq<S>, x: Seq<S>) -> Seq<S> {
    Seq::new(
        start.len(),
        |h: int| column(start[h], mat, start.len() as int, x, h, x.len()),
    )
}

/// The sum of the products of row `k` with the first `n` entries of `d`.
pub open spec fn row_sum<S: Number>(mat: Seq<S>, width: int, k: int, d: Seq<S>, n: nat) -> S
    decreases n,
{
    if n == 0 {
        S::nought()
    } else {
        row_sum(mat, width, k, d, (n - 1) as nat).plus(mat[k * width + n - 1].times(d[n - 1]))
    }
}

/// The product of a matrix's transpose and `d`, added to `start`.
pub open spec fn transposed<S: Number>(start: Seq<S>, mat: Seq<S>, d: Seq<S>) -> Seq<S> {
    Seq::new(
        start.len(),
        |k: int| start[k].plus(row_sum(mat, d.len() as int, k, d, d.len())),
    )
}

/// The product of the first `rows` rows of a matrix and `d`.
pub open spec fn row_sums<S: Number>(mat: Seq<S>, rows: nat, d: Seq<S>) -> Seq<S> {
    Seq::new(rows, |k: int| row_sum(mat, d.len() as int, k, d, d.len()))
}

/// The outer product of `x` and `d`, added to a matrix.
pub open spec fn outer<S: Number>(start: Seq<S>, x: Seq<S>, d: Seq<S>) -> Seq<S> {
    Seq::new(
        start.len(),
        |i: int|
            if i < x.len() * d.len() {
                start[i].plus(x[i / (d.len() as int)].times(d[i % (d.len() as int)]))
            } else {
                start[i]
            },
    )
}

/// Two lists added entry by entry, as far as both reach.
pub open spec fn added<S: Number>(a: Seq<S>, b: Seq<S>) -> Seq<S> {
    Seq::new(
        a.len(),
        |i: int|
            if i < b.len() {
                a[i].plus(b[i])
            } else {
                a[i]
            },
    )
}

/// Row `k` of a table with rows of the given width.
pub open spec fn row<S>(table: Seq<S>, width: int, k: int) -> Seq<S> {
    table.subrange(k * width, k * width + width)
}

/// A table with `d` added to row `k`.
pub open spec fn row_added<S: Number>(table: Seq<S>, width: int, k: int, d: Seq<S>) -> Seq<S> {
    Seq::new(
        table.len(),
        |i: int|
            if k * width <= i < k * width + width {
                table[i].plus(d[i - k * width])
            } else {
                table[i]
            },
    )
}

/// Where entry `h` of row `k` is stored.
pub proof fn lemma_cell(k: int, h: int, rows: int, width: int)
    requires
        0 <= k < rows,
        0 <= h < width,
    ensures
        0 <= k * width,
        0 <= k * width + h < rows * width,
        (k + 1) * width == k * width + width,
        k * width + width <= rows * width,
        (k * width + h) / width == k,
        (k * width + h) % width == h,
{
    assert(0 <= k * width && k * width + h < rows * width && k * width + width <= rows * width && (k
        + 1) * width == k * width + width) by (nonlinear_arith)
        requires
            0 <= k < rows,
            0 <= h < width,
    ;
    vstd::arithmetic::div_mod::lemma_fundamental_div_mod_converse(k * width + h, width, k, h);
}

/// Row `k` of a table lies within it.
pub proof fn lemma_row(k: int, rows: int, width: int)
    requires
        0 <= k < rows,
        0 <= width,
    ensures
        0 <= k * width <= k * width + width <= rows * width,
{
    assert(0 <= k * width <= k * width + width <= rows * width) by (nonlinear_arith)
        requires
            0 <= k < rows,
            0 <= width,
    ;
}

/// `out[h] += sum_k x[k] * mat[k, h]`.
pub fn linear_forward<S: Scalar>(mat: &[S], x: &[S], out: &mut Vec<S>)
    requires
        x@.len() * old(out)@.len() <= mat@.len(),
    ensures
        final(out)@ == affine(old(out)@, mat@, x@),
{
    let out_len: usize = out.len();
    let mat_len: usize = mat.len();
    let ghost start = out@;
    let mut k: usize = 0;
    while k < x.len()
        invariant
            k <= x@.len(),
            out_len == out@.len(),
            out_len == start.len(),
            mat_len == mat@.len(),
            x@.len() * out_len <= mat@.len(),
            forall|h: int|
                0 <= h < out_len ==> #[trigger] out@[h] == column(
                    start[h],
                    mat@,
                    out_len as int,
                    x@,
                    h,
                    k as nat,
                ),
        decreases x@.len() - k,
    {
        let xv = x[k];
        let ghost before = out@;
        let mut h: usize = 0;
        while h < out_len
            invariant
                k < x@.len(),
                xv == x@[k as int],
                h <= out_len,
                out_len == out@.len(),
                out_len == before.len(),
                mat_len == mat@.len(),
                x@.len() * out_len <= mat@.len(),
                forall|i: int|
                    0 <= i < h ==> #[trigger] out@[i] == before[i].plus(
                        xv.times(mat@[k * out_len + i]),
                    ),
                forall|i: int| h <= i < out_len ==> out@[i] == before[i],
            decreases out_len - h,
        {
            proof {
                lemma_cell(k as int, h as int, x@.len() as int, out_len as int);
            }
            let updated = out[h].add(xv.mul(mat[k * out_len + h]));
            out.set(h, updated);
            h += 1;
        }
        k += 1;
    }
    assert(out@ =~= affine(start, mat@, x@));
}

/// `sum_h mat[k, h] * d[h]`.
pub fn dot_row<S: Scalar>(mat: &[S], k: usize, d: &[S]) -> (sum: S)
    requires
        k * d@.len() + d@.len() <= mat@.len(),
    ensures
        sum == row_sum(mat@, d@.len() as int, k as int, d@, d@.len()),
{
    let width: usize = d.len();
    let mat_len: usize = mat.len();
    assert(0 <= k * width) by (nonlinear_arith);
    let base: usize = k * width;
    let mut sum = S::zero();
    let mut h: usize = 0;
    while h < width
        invariant
            h <= width,
            width == d@.len(),
            base == k * width,
            base + width <= mat_len,
            mat_len == mat@.len(),
            sum == row_sum(mat@, width as int, k as int, d@, h as nat),
        decreases width - h,
    {
        sum = sum.add(mat[base + h].mul(d[h]));
        h += 1;
    }
    sum
}

/// The products of the first `rows` rows of a matrix with `d`.
pub fn dot_rows<S: Scalar>(mat: &[S], rows: usize, d: &[S]) -> (v: Vec<S>)
    requires
        rows * d@.len() <= mat@.len(),
    ensures
        v@ == row_sums(mat@, rows as nat, d@),
{
    let mut v: Vec<S> = Vec::with_capacity(rows);
    let mut k: usize = 0;
    while k < rows
        invariant
            k <= rows,
            rows * d@.len() <= mat@.len(),
            v@.len() == k,
            forall|i: int|
                0 <= i < k ==> #[trigger] v@[i] == row_sum(mat@, d@.len() as int, i, d@, d@.len()),
        decreases rows - k,
    {
        proof {
            lemma_row(k as int, rows as int, d@.len() as int);
        }
        v.push(dot_row(mat, k, d));
        k += 1;
    }
    assert(v@ =~= row_sums(mat@, rows as nat, d@));
    v
}

/// `d_x[k] += sum_h mat[k, h] * d_out[h]`.
pub fn linear_backward_input<S: Scalar>(mat: &[S], d_out: &[S], d_x: &mut Vec<S>)
    requires
        old(d_x)@.len() * d_out@.len() <= mat@.len(),
    ensures
        final(d_x)@ == transposed(old(d_x)@, mat@, d_out@),
{
    let out_len: usize = d_out.len();
    let mat_len: usize = mat.len();
    let ghost start = d_x@;
    let mut k: usize = 0;
    while k < d_x.len()
        invariant
            k <= d_x@.len(),
            d_x@.len() == start.len(),
            out_len == d_out@.len(),
            mat_len == mat@.len(),
            d_x@.len() * out_len <= mat@.len(),
            forall|i: int|
                0 <= i < k ==> #[trigger] d_x@[i] == start[i].plus(
                    row_sum(mat@, out_len as int, i, d_out@, out_len as nat),
                ),
            forall|i: int| k <= i < start.len() ==> d_x@[i] == start[i],
        decreases d_x@.len() - k,
    {
        proof {
            lemma_row(k as int, d_x@.len() as int, out_len as int);
        }
        let sum = dot_row(mat, k, d_out);
        let updated = d_x[k].add(sum);
        d_x.set(k, updated);
        k += 1;
    }
    assert(d_x@ =~= transposed(start, mat@, d_out@));
}

/// `d_mat[k, h] += x[k] * d_out[h]`.
pub fn linear_backward_weight<S: Scalar>(d_mat: &mut Vec<S>, x: &[S], d_out: &[S])
    requires
        x@.len() * d_out@.len() <= old(d_mat)@.len(),
    ensures
        final(d_mat)@ == outer(old(d_mat)@, x@, d_out@),
{
    let out_len: usize = d_out.len();
    let mat_len: usize = d_mat.len();
    let ghost start = d_mat@;
    let ghost goal = outer(start, x@, d_out@);
    let mut k: usize = 0;
    while k < x.len()
        invariant
            k <= x@.len(),
            out_len == d_out@.len(),
            mat_len == d_mat@.len(),
            mat_len == start.len(),
            x@.len() * out_len <= mat_len,
            goal == outer(start, x@, d_out@),
            forall|i: int| 0 <= i < k * out_len ==> #[trigger] d_mat@[i] == goal[i],
            forall|i: int| k * out_len <= i < mat_len ==> #[trigger] d_mat@[i] == start[i],
        decreases x@.len() - k,
    {
        let xv = x[k];
        proof {
            lemma_row(k as int, x@.len() as int, out_len as int);
        }
        let mut h: usize = 0;
        while h < out_len
            invariant
                k < x@.len(),
                xv == x@[k as int],
                h <= out_len,
                out_len == d_out@.len(),
                mat_len == d_mat@.len(),
                mat_len == start.len(),
                x@.len() * out_len <= mat_len,
                goal == outer(start, x@, d_out@),
                0 <= k * out_len <= k * out_len + out_len <= x@.len() * out_len,
                forall|i: int| 0 <= i < k * out_len + h ==> #[trigger] d_mat@[i] == goal[i],
                forall|i: int| k * out_len + h <= i < mat_len ==> #[trigger] d_mat@[i] == start[i],
            decreases out_len - h,
        {
            proof {
                lemma_cell(k as int, h as int, x@.len() as int, out_len as int);
            }
            let at: usize = k * out_len + h;
            let updated = d_mat[at].add(xv.mul(d_out[h]));
            assert(updated == goal[at as int]);
            d_mat.set(at, updated);
            h += 1;
        }
        assert((k + 1) * out_len == k * out_len + out_len) by (nonlinear_arith);
        k += 1;
    }
    assert(d_mat@ =~= goal);
}

/// Adds a list to another, entry by entry, as far as both reach.
pub fn add_list<S: Scalar>(a: &mut Vec<S>, b: &[S])
    ensures
        final(a)@ == added(old(a)@, b@),
{
    let ghost start = a@;
    let mut i: usize = 0;
    while i < a.len() && i < b.len()
        invariant
            i <= a@.len(),
            i <= b@.len(),
            a@.len() == start.len(),
            forall|k: int| 0 <= k < i ==> #[trigger] a@[k] == start[k].plus(b@[k]),
            forall|k: int| i <= k < start.len() ==> a@[k] == start[k],
        decreases a@.len() - i,
    {
        let updated = a[i].add(b[i]);
        a.set(i, updated);
        i += 1;
    }
    assert(a@ =~= added(start, b@));
}

/// Adds a list to row `k` of a table whose rows are as long as the list.
pub fn add_to_row<S: Scalar>(table: &mut Vec<S>, k: usize, d: &[S])
    requires
        k * d@.len() + d@.len() <= old(table)@.len(),
    ensures
        final(table)@ == row_added(old(table)@, d@.len() as int, k as int, d@),
{
    let width: usize = d.len();
    let len: usize = table.len();
    let ghost start = table@;
    assert(0 <= k * width) by (nonlinear_arith);
    let base: usize = k * width;
    let mut i: usize = 0;
    while i < width
        invariant
            i <= width,
            width == d@.len(),
            base == k * width,
            base + width <= len,
            len == table@.len(),
            len == start.len(),
            forall|j: int|
                base <= j < base + i ==> #[trigger] table@[j] == start[j].plus(d@[j - base]),
            forall|j: int|
                0 <= j < base || base + i <= j < len ==> #[trigger] table@[j] == start[j],
        decreases width - i,
    {
        let updated = table[base + i].add(d[i]);
        table.set(base + i, updated);
        i += 1;
    }
    assert(table@ =~= row_added(start, width as int, k as int, d@));
}

} // verus!
