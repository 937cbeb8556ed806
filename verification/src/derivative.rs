//! How the building blocks of the models differentiate.
//!
//! For each block it is shown what its values on dual numbers are, and how
//! the rates of its outputs follow from those of its inputs. The second is
//! said from the side of a gradient: a gradient by the outputs, multiplied
//! with the rates of the outputs, equals the gradient by the inputs that
//! backpropagation makes of it, multiplied with the rates of the inputs.

use crate::dense;
use crate::dual;
use crate::dual::Dual;
use crate::pointwise;
use crate::reals;
use crate::reals::Real;
use crate::scalar;
use crate::scalar::Number;
use vstd::prelude::*;

verus! {

/// The sum of the products of the first `n` entries of two lists.
pub open spec fn dot(a: Seq<Real>, b: Seq<Real>, n: nat) -> real
    decreases n,
{
    if n == 0 {
        0real
    } else {
        dot(a, b, (n - 1) as nat) + reals::product(a[n - 1].val(), b[n - 1].val())
    }
}

/// Sums of equal products are equal.
pub proof fn lemma_dot_same(a: Seq<Real>, b: Seq<Real>, c: Seq<Real>, d: Seq<Real>, n: nat)
    requires
        forall|i: int|
            #![trigger a[i]]
            0 <= i < n ==> reals::product(a[i].val(), b[i].val()) == reals::product(
                c[i].val(),
                d[i].val(),
            ),
    ensures
        dot(a, b, n) == dot(c, d, n),
    decreases n,
{
    if n > 0 {
        lemma_dot_same(a, b, c, d, (n - 1) as nat);
        let last = a[n - 1];
    }
}

/// Where every product is the sum of two others, so is the sum.
pub proof fn lemma_dot_two(
    a: Seq<Real>,
    b: Seq<Real>,
    c: Seq<Real>,
    d: Seq<Real>,
    e: Seq<Real>,
    f: Seq<Real>,
    n: nat,
)
    requires
        forall|i: int|
            #![trigger a[i]]
            0 <= i < n ==> reals::product(a[i].val(), b[i].val()) == reals::product(
                c[i].val(),
                d[i].val(),
            ) + reals::product(e[i].val(), f[i].val()),
    ensures
        dot(a, b, n) == dot(c, d, n) + dot(e, f, n),
    decreases n,
{
    if n > 0 {
        lemma_dot_two(a, b, c, d, e, f, (n - 1) as nat);
        let last = a[n - 1];
    }
}

/// A sum of products with zeros is 0.
pub proof fn lemma_noughts_dot(a: Seq<Real>, b: Seq<Real>, n: nat)
    requires
        forall|i: int| 0 <= i < n ==> (#[trigger] a[i]).val() == 0real,
    ensures
        dot(a, b, n) == 0real,
    decreases n,
{
    if n > 0 {
        lemma_noughts_dot(a, b, (n - 1) as nat);
        assert(a[n - 1].val() == 0real);
        reals::lemma_product(b[n - 1].val(), 0real, 0real);
    }
}

/// A sum of products with zeros behind is 0.
pub proof fn lemma_dot_noughts(a: Seq<Real>, b: Seq<Real>, n: nat)
    requires
        forall|i: int| 0 <= i < n ==> (#[trigger] b[i]).val() == 0real,
    ensures
        dot(a, b, n) == 0real,
    decreases n,
{
    if n > 0 {
        lemma_dot_noughts(a, b, (n - 1) as nat);
        assert(b[n - 1].val() == 0real);
        reals::lemma_product(a[n - 1].val(), 0real, 0real);
    }
}

/// A product column on dual numbers has the values of the column of values.
pub proof fn lemma_column_values<S: Number>(
    start: Dual<S>,
    mat: Seq<Dual<S>>,
    width: int,
    x: Seq<Dual<S>>,
    h: int,
    k: nat,
)
    requires
        k <= x.len(),
        0 <= h < width,
        k * width <= mat.len(),
    ensures
        dense::column(start, mat, width, x, h, k).re == dense::column(
            start.re,
            dual::values(mat),
            width,
            dual::values(x),
            h,
            k,
        ),
    decreases k,
{
    if k > 0 {
        assert((k - 1) * width + width == k * width && 0 <= (k - 1) * width) by (nonlinear_arith)
            requires
                k > 0,
                width > 0,
        ;
        lemma_column_values(start, mat, width, x, h, (k - 1) as nat);
    }
}

/// A product on dual numbers has the values of the product of values.
pub proof fn lemma_affine_values<S: Number>(
    start: Seq<Dual<S>>,
    mat: Seq<Dual<S>>,
    x: Seq<Dual<S>>,
)
    requires
        x.len() * start.len() <= mat.len(),
    ensures
        dual::values(dense::affine(start, mat, x)) == dense::affine(
            dual::values(start),
            dual::values(mat),
            dual::values(x),
        ),
{
    let both = dual::values(dense::affine(start, mat, x));
    let real_only = dense::affine(dual::values(start), dual::values(mat), dual::values(x));
    assert forall|h: int| 0 <= h < start.len() implies both[h] == real_only[h] by {
        lemma_column_values(start[h], mat, start.len() as int, x, h, x.len());
    }
    assert(both =~= real_only);
}

/// The columns of a product after the first `k` inputs.
spec fn columns<S: Number>(start: Seq<S>, mat: Seq<S>, x: Seq<S>, k: nat) -> Seq<S> {
    Seq::new(start.len(), |h: int| dense::column(start[h], mat, start.len() as int, x, h, k))
}

/// The outer product of two lists.
pub open spec fn outer_of(x: Seq<Real>, d: Seq<Real>) -> Seq<Real> {
    dense::outer(scalar::noughts(x.len() * d.len()), x, d)
}

/// What one weight adds to a product, from the side of a gradient.
proof fn lemma_one_cell(d: real, b: real, x: real, mu: real, r: real, mr: real, sum: real)
    ensures
        reals::product(d, b + (reals::product(x, mu) + reals::product(r, mr))) == reals::product(
            d,
            b,
        ) + reals::product(0real + reals::product(x, d), mu) + reals::product(
            reals::product(mr, d),
            r,
        ),
        reals::product(sum + reals::product(mr, d), r) == reals::product(sum, r) + reals::product(
            reals::product(mr, d),
            r,
        ),
{
    let p = reals::product(x, mu);
    let q = reals::product(r, mr);
    let cell = reals::product(mr, d);
    reals::lemma_product(d, b, p + q);
    reals::lemma_product(d, p, q);
    reals::lemma_product(d, x, mu);
    reals::lemma_product(d, q, q);
    reals::lemma_product(r, mr, d);
    reals::lemma_product(r, cell, cell);
    reals::lemma_product(r, sum, cell);
    reals::lemma_product(sum + cell, r, r);
    reals::lemma_product(sum, r, r);
    assert(0real + reals::product(x, d) == reals::product(x, d));
}

/// What input `k - 1` adds to the first `n` columns of a product.
proof fn lemma_one_input(
    start: Seq<Dual<Real>>,
    mat: Seq<Dual<Real>>,
    x: Seq<Dual<Real>>,
    d: Seq<Real>,
    k: nat,
    n: nat,
)
    requires
        d.len() == start.len(),
        0 < k <= x.len(),
        mat.len() == x.len() * start.len(),
        n <= start.len(),
    ensures
        (k - 1) * start.len() >= 0,
        dot(d, dual::rates(columns(start, mat, x, k)), n) == dot(
            d,
            dual::rates(columns(start, mat, x, (k - 1) as nat)),
            n,
        ) + dot(
            outer_of(dual::values(x), d),
            dual::rates(mat),
            ((k - 1) * start.len() + n) as nat,
        ) - dot(
            outer_of(dual::values(x), d),
            dual::rates(mat),
            ((k - 1) * start.len()) as nat,
        ) + reals::product(
            dense::row_sum(dual::values(mat), start.len() as int, k - 1, d, n).val(),
            x[k - 1].du.val(),
        ),
    decreases n,
{
    let w = start.len() as int;
    assert((k - 1) * w >= 0) by (nonlinear_arith)
        requires
            k >= 1,
            w >= 0,
    ;
    let r = x[k - 1].du.val();
    if n == 0 {
        reals::lemma_product(r, 0real, 0real);
    } else {
        lemma_one_input(start, mat, x, d, k, (n - 1) as nat);
        let h = n - 1;
        dense::lemma_cell(k - 1, h, x.len() as int, w);
        let at = (k - 1) * w + h;
        let outer = outer_of(dual::values(x), d);
        let here = dual::rates(columns(start, mat, x, k));
        let before = dual::rates(columns(start, mat, x, (k - 1) as nat));
        let m = mat[at];
        let xv = x[k - 1].re.val();
        let dv = d[h].val();
        let b = before[h].val();
        let mu = m.du.val();
        let mr = m.re.val();
        assert(here[h].val() == b + (reals::product(xv, mu) + reals::product(r, mr)));
        assert(outer[at].val() == 0real + reals::product(xv, dv));
        assert(dual::rates(mat)[at].val() == mu);
        let sum = dense::row_sum(dual::values(mat), w, k - 1, d, h as nat).val();
        assert(dense::row_sum(dual::values(mat), w, k - 1, d, n).val() == sum + reals::product(
            mr,
            dv,
        ));
        lemma_one_cell(dv, b, xv, mu, r, mr, sum);
        assert(((k - 1) * w + n) as nat - 1 == at);
    }
}

/// The first `k` inputs of a product, from the side of a gradient.
proof fn lemma_some_inputs(
    start: Seq<Dual<Real>>,
    mat: Seq<Dual<Real>>,
    x: Seq<Dual<Real>>,
    d: Seq<Real>,
    k: nat,
)
    requires
        d.len() == start.len(),
        k <= x.len(),
        mat.len() == x.len() * start.len(),
    ensures
        k * start.len() >= 0,
        dot(d, dual::rates(columns(start, mat, x, k)), start.len()) == dot(
            d,
            dual::rates(start),
            start.len(),
        ) + dot(
            outer_of(dual::values(x), d),
            dual::rates(mat),
            (k * start.len()) as nat,
        ) + dot(dense::row_sums(dual::values(mat), x.len(), d), dual::rates(x), k),
    decreases k,
{
    let w = start.len();
    assert(k * w >= 0) by (nonlinear_arith)
        requires
            k >= 0,
            w >= 0,
    ;
    if k == 0 {
        assert(k * w == 0) by (nonlinear_arith)
            requires
                k == 0,
        ;
        assert(columns(start, mat, x, 0) =~= start);
    } else {
        lemma_some_inputs(start, mat, x, d, (k - 1) as nat);
        lemma_one_input(start, mat, x, d, k, w);
        assert((k - 1) * w + w == k * w) by (nonlinear_arith);
    }
}

/// A product `mat.x + start`, from the side of a gradient `d` by its
/// outputs: `d` itself for `start`, the outer product of `x` and `d` for the
/// matrix, and the product of the transpose and `d` for `x`.
pub proof fn lemma_affine_adjoint(
    start: Seq<Dual<Real>>,
    mat: Seq<Dual<Real>>,
    x: Seq<Dual<Real>>,
    d: Seq<Real>,
)
    requires
        d.len() == start.len(),
        mat.len() == x.len() * start.len(),
    ensures
        dot(d, dual::rates(dense::affine(start, mat, x)), d.len()) == dot(
            d,
            dual::rates(start),
            d.len(),
        ) + dot(outer_of(dual::values(x), d), dual::rates(mat), mat.len()) + dot(
            dense::row_sums(dual::values(mat), x.len(), d),
            dual::rates(x),
            x.len(),
        ),
{
    lemma_some_inputs(start, mat, x, d, x.len());
    assert(columns(start, mat, x, x.len()) =~= dense::affine(start, mat, x));
}

/// A column of a product with numbers at rest at 0 that move at the speeds
/// `x`: its rate is the column for `x`.
proof fn lemma_column_rate(
    mat: Seq<Real>,
    width: int,
    x: Seq<Real>,
    h: int,
    k: nat,
)
    requires
        k <= x.len(),
        0 <= h < width,
        k * width <= mat.len(),
    ensures
        dense::column(Dual::<Real>::nought(), resting(mat), width, departing(x), h, k).du.val()
            == dense::column(Real::nought(), mat, width, x, h, k).val(),
    decreases k,
{
    if k > 0 {
        assert((k - 1) * width + width == k * width && 0 <= (k - 1) * width) by (nonlinear_arith)
            requires
                k > 0,
                width > 0,
        ;
        lemma_column_rate(mat, width, x, h, (k - 1) as nat);
        reals::lemma_product(0real, 0real, 0real);
    }
}

/// Numbers that do not move.
spec fn resting(xs: Seq<Real>) -> Seq<Dual<Real>> {
    Seq::new(xs.len(), |i: int| Dual { re: xs[i], du: Real::nought() })
}

/// Numbers that start at 0 and move at given speeds.
spec fn departing(speeds: Seq<Real>) -> Seq<Dual<Real>> {
    Seq::new(speeds.len(), |i: int| Dual { re: Real::nought(), du: speeds[i] })
}

/// The product with the transpose belongs to the same matrix as the product:
/// multiplied with `x`, what it adds of `d` to a list equals the product of
/// the matrix and `x`, multiplied with `d`.
pub proof fn law_transpose_is_adjoint(
    mat: Seq<Real>,
    x: Seq<Real>,
    d: Seq<Real>,
    start: Seq<Real>,
)
    requires
        mat.len() == x.len() * d.len(),
        start.len() == x.len(),
    ensures
        dot(dense::transposed(start, mat, d), x, x.len()) - dot(start, x, x.len()) == dot(
            d,
            dense::affine(scalar::noughts(d.len()), mat, x),
            d.len(),
        ),
{
    let zeros = scalar::noughts::<Dual<Real>>(d.len());
    let m = resting(mat);
    let v = departing(x);
    lemma_affine_adjoint(zeros, m, v, d);
    let moved = dual::rates(dense::affine(zeros, m, v));
    let plain = dense::affine(scalar::noughts::<Real>(d.len()), mat, x);
    assert forall|h: int| #![trigger d[h]] 0 <= h < d.len() implies reals::product(
        d[h].val(),
        moved[h].val(),
    ) == reals::product(d[h].val(), plain[h].val()) by {
        lemma_column_rate(mat, d.len() as int, x, h, x.len());
    }
    lemma_dot_same(d, moved, d, plain, d.len());
    lemma_dot_noughts(d, dual::rates(zeros), d.len());
    let outer = outer_of(dual::values(v), d);
    lemma_dot_noughts(outer, dual::rates(m), mat.len());
    assert(dual::values(m) =~= mat);
    assert(dual::rates(v) =~= x);
    let sums = dense::row_sums(mat, x.len(), d);
    let all = dense::transposed(start, mat, d);
    assert forall|i: int| #![trigger all[i]] 0 <= i < x.len() implies reals::product(
        all[i].val(),
        x[i].val(),
    ) == reals::product(start[i].val(), x[i].val()) + reals::product(sums[i].val(), x[i].val()) by {
        let a = start[i].val();
        let b = sums[i].val();
        let c = x[i].val();
        assert(all[i].val() == a + b);
        reals::lemma_product(c, a, b);
        reals::lemma_product(a, c, c);
        reals::lemma_product(b, c, c);
        reals::lemma_product(a + b, c, c);
    }
    lemma_dot_two(all, x, start, x, sums, x, x.len());
}

/// The slope of `1 / (1 + e)` where `e` changes at the rate `-e * r`.
proof fn lemma_logistic_slope(e: real, r: real)
    requires
        e > 0real,
    ensures
        ({
            let s = reals::quotient(1real, 1real + e);
            reals::quotient(
                0real - reals::product(s, 0real + reals::product(e, -r)),
                1real + e,
            ) == reals::product(reals::product(s, 1real - s), r)
        }),
{
    let s = reals::quotient(1real, 1real + e);
    reals::lemma_quotient(1real, 1real + e);
    let goal = reals::product(reals::product(s, 1real - s), r);
    let dividend = 0real - reals::product(s, 0real + reals::product(e, -r));
    let t = 1real + e;
    let u = reals::product(s, 1real - s);
    let er = reals::product(e, r);
    assert(reals::product(goal, t) == reals::product(1real - s, r)) by {
        reals::lemma_product(u, r, t);
        reals::lemma_product(r, t, t);
        reals::lemma_product(u, t, r);
        reals::lemma_product(s, 1real - s, t);
        reals::lemma_product(1real - s, s, t);
    }
    assert(dividend == reals::product(1real - s, r)) by {
        reals::lemma_product(e, 0real, r);
        assert(0real - r == -r);
        reals::lemma_product(s, 0real, er);
        assert(0real + reals::product(e, -r) == 0real - er);
        reals::lemma_product(s, e, r);
        reals::lemma_product(s, t, 1real);
        assert(t - 1real == e);
    }
    reals::lemma_quotient_is(dividend, 1real + e, goal);
}

/// The logistic function, from the side of a gradient: its slope is
/// `y * (1 - y)`.
pub proof fn lemma_sigmoid_slope(a: Dual<Real>)
    ensures
        pointwise::sigmoid_of(a).du.val() == reals::product(
            reals::product(
                pointwise::sigmoid_of(a.re).val(),
                1real - pointwise::sigmoid_of(a.re).val(),
            ),
            a.du.val(),
        ),
{
    reals::lemma_exponential(-a.re.val(), 0real);
    lemma_logistic_slope(reals::exponential(-a.re.val()), a.du.val());
}

/// The logistic function of dual numbers has the values of that of the
/// values.
pub proof fn lemma_sigmoids_values<S: Number>(xs: Seq<Dual<S>>)
    ensures
        dual::values(pointwise::sigmoids_of(xs)) == pointwise::sigmoids_of(dual::values(xs)),
{
    assert(dual::values(pointwise::sigmoids_of(xs)) =~= pointwise::sigmoids_of(dual::values(xs)));
}

/// The logistic function, from the side of a gradient `d` by its values `y`.
pub proof fn lemma_sigmoids_adjoint(xs: Seq<Dual<Real>>, d: Seq<Real>)
    requires
        d.len() == xs.len(),
    ensures
        dot(d, dual::rates(pointwise::sigmoids_of(xs)), d.len()) == dot(
            pointwise::through_sigmoid(d, pointwise::sigmoids_of(dual::values(xs))),
            dual::rates(xs),
            d.len(),
        ),
{
    let y = pointwise::sigmoids_of(dual::values(xs));
    let rates = dual::rates(pointwise::sigmoids_of(xs));
    let through = pointwise::through_sigmoid(d, y);
    assert forall|i: int| #![trigger d[i]] 0 <= i < d.len() implies reals::product(
        d[i].val(),
        rates[i].val(),
    ) == reals::product(through[i].val(), dual::rates(xs)[i].val()) by {
        lemma_sigmoid_slope(xs[i]);
        let dv = d[i].val();
        let yv = y[i].val();
        let r = xs[i].du.val();
        let slope = reals::product(yv, 1real - yv);
        assert(rates[i].val() == reals::product(slope, r));
        assert(through[i].val() == reals::product(reals::product(dv, yv), 1real - yv));
        reals::lemma_product(dv, slope, r);
        reals::lemma_product(dv, yv, 1real - yv);
    }
    lemma_dot_same(d, rates, through, dual::rates(xs), d.len());
}

/// The hyperbolic tangent of dual numbers.
pub proof fn lemma_tanhs_values<S: Number>(xs: Seq<Dual<S>>)
    ensures
        dual::values(pointwise::tanhs_of(xs)) == pointwise::tanhs_of(dual::values(xs)),
{
    assert(dual::values(pointwise::tanhs_of(xs)) =~= pointwise::tanhs_of(dual::values(xs)));
}

/// The hyperbolic tangent, from the side of a gradient `d` by its values.
pub proof fn lemma_tanhs_adjoint(xs: Seq<Dual<Real>>, d: Seq<Real>)
    requires
        d.len() == xs.len(),
    ensures
        dot(d, dual::rates(pointwise::tanhs_of(xs)), d.len()) == dot(
            pointwise::through_tanh(d, pointwise::tanhs_of(dual::values(xs))),
            dual::rates(xs),
            d.len(),
        ),
{
    let y = pointwise::tanhs_of(dual::values(xs));
    let rates = dual::rates(pointwise::tanhs_of(xs));
    let through = pointwise::through_tanh(d, y);
    assert forall|i: int| #![trigger d[i]] 0 <= i < d.len() implies reals::product(
        d[i].val(),
        rates[i].val(),
    ) == reals::product(through[i].val(), dual::rates(xs)[i].val()) by {
        let dv = d[i].val();
        let yv = y[i].val();
        let r = xs[i].du.val();
        let slope = 1real - reals::product(yv, yv);
        assert(rates[i].val() == reals::product(slope, r));
        assert(through[i].val() == reals::product(dv, slope));
        reals::lemma_product(dv, slope, r);
    }
    lemma_dot_same(d, rates, through, dual::rates(xs), d.len());
}

} // verus!
