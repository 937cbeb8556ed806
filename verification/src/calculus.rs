//! The slopes of the exponential function, the logarithm and the hyperbolic
//! tangent.

use crate::limits;
use crate::limits::{difference_quotient, has_slope, size, tends};
use crate::reals;
use crate::reals::{exponential, hyperbolic_tangent, logarithm, product, quotient, square_root};
use vstd::prelude::*;

verus! {

/// Near 0 the exponential function differs from its tangent by no more than
/// twice the square of the distance.
proof fn lemma_exponential_gap(k: real)
    requires
        reals::exponential_is_complete(),
        -1real <= k + k <= 1real,
    ensures
        0real <= exponential(k) - 1real - k <= product(k, k + k),
{
    let e = exponential(k);
    reals::lemma_exponential(k, -k);
    assert(k + (-k) == 0real);
    reals::lemma_exponential_tangent(k);
    reals::lemma_exponential_tangent(-k);
    // e * (1 - k) <= e * exp(-k) = 1
    reals::lemma_product_order(e, 1real - k, exponential(-k));
    reals::lemma_product(e, 1real, k);
    assert(e - product(e, k) <= 1real);
    assert(e - 1real - k <= product(k, e - 1real)) by {
        reals::lemma_product(k, e, 1real);
        reals::lemma_product(e, k, k);
    }
    if k >= 0real {
        // e / 2 <= e * (1 - k) <= 1
        let half = 1real / 2real;
        reals::lemma_product_order(e, half, 1real - k);
        reals::lemma_product(e, half, half);
        assert(half + half == 1real);
        reals::lemma_product(e, 1real, 1real);
        assert(e <= 2real);
        reals::lemma_product_order(k, e, 2real);
        reals::lemma_product(k, 1real, 1real);
        assert(1real + 1real == 2real);
        reals::lemma_product(e, k, k);
        assert(e - 1real <= k + k);
        reals::lemma_product_order(k, e - 1real, k + k);
    } else {
        // 0 <= 1 - e <= -k
        let n = 0real - k;
        reals::lemma_product_nonnegative(e, n);
        reals::lemma_product(e, 0real, k);
        assert(e - 1real <= 0real);
        reals::lemma_product_order(n, 1real - e, n);
        reals::lemma_product(n, 0real, e - 1real);
        reals::lemma_product(e - 1real, 0real, k);
        reals::lemma_product(e - 1real, n, n);
        reals::lemma_product(k, e - 1real, k);
        reals::lemma_product(n, 0real, k);
        reals::lemma_product(k, 0real, k);
        reals::lemma_product(k, n, n);
        reals::lemma_product(k, k, k);
        reals::lemma_product_nonnegative(n, n);
    }
}

/// Where one dividend is no larger than another, so is its quotient.
pub proof fn lemma_quotient_sizes(x: real, y: real, h: real)
    requires
        h != 0real,
        size(x) <= size(y),
    ensures
        size(quotient(x, h)) <= size(quotient(y, h)),
{
    let i = quotient(1real, h);
    limits::lemma_quotient_as_product(x, h);
    limits::lemma_quotient_as_product(y, h);
    limits::lemma_size_of_product(x, i);
    limits::lemma_size_of_product(y, i);
    limits::lemma_size_of_product(i, x);
    reals::lemma_product_order(size(i), size(x), size(y));
    reals::lemma_product(size(i), size(x), size(x));
    reals::lemma_product(size(i), size(y), size(y));
}

/// An error of the order of the square of what vanishes vanishes beside the
/// distance.
pub proof fn lemma_square_vanishes(
    k: spec_fn(real) -> real,
    f: spec_fn(real) -> real,
    error: spec_fn(real) -> real,
    a: real,
    r: real,
)
    requires
        tends(k, 0real),
        tends(f, a),
        forall|h: real| h != 0real ==> #[trigger] f(h) == quotient(k(h), h),
        r > 0real,
        forall|h: real|
            h != 0real && -r < h < r ==> size(#[trigger] error(h)) <= size(
                quotient(product(k(h), k(h) + k(h)), h),
            ),
    ensures
        tends(error, 0real),
{
    let twice = |h: real| k(h) + k(h);
    limits::lemma_tends_sum(k, k, twice, 0real, 0real);
    let bound = |h: real| product(twice(h), f(h));
    limits::lemma_tends_product(twice, f, bound, 0real + 0real, a);
    reals::lemma_product(a, 0real, 0real);
    reals::lemma_product(0real, a, a);
    assert forall|h: real| h != 0real && -r < h < r implies size(#[trigger] error(h)) <= size(
        bound(h),
    ) by {
        let x = k(h);
        assert(f(h) == quotient(k(h), h));
        limits::lemma_quotient_of_multiple(x + x, x, h);
        reals::lemma_product(x, x + x, x);
    }
    limits::lemma_tends_squeezed(bound, error, r);
}

/// The slope of the exponential of a function.
pub proof fn lemma_slope_exponential(
    u: spec_fn(real) -> real,
    w: spec_fn(real) -> real,
    t: real,
    a: real,
)
    requires
        reals::exponential_is_complete(),
        has_slope(u, t, a),
        forall|x: real| #[trigger] w(x) == exponential(u(x)),
    ensures
        has_slope(w, t, product(w(t), a)),
{
    let f = difference_quotient(u, t);
    let k = |h: real| u(t + h) - u(t);
    limits::lemma_differences_vanish(u, k, t, a);
    let error = |h: real| quotient(exponential(k(h)) - 1real - k(h), h);
    let r = limits::lemma_stays(k, 0real, 1real / 2real);
    assert forall|h: real| h != 0real && -r < h < r implies size(#[trigger] error(h)) <= size(
        quotient(product(k(h), k(h) + k(h)), h),
    ) by {
        assert(limits::near(k(h), 0real, 1real / 2real));
        lemma_exponential_gap(k(h));
        lemma_quotient_sizes(
            exponential(k(h)) - 1real - k(h),
            product(k(h), k(h) + k(h)),
            h,
        );
    }
    lemma_square_vanishes(k, f, error, a, r);
    let e = w(t);
    let inner = |h: real| f(h) + error(h);
    limits::lemma_tends_sum(f, error, inner, a, 0real);
    let still = |h: real| e;
    limits::lemma_tends_constant(still, e);
    let s = |h: real| product(still(h), inner(h));
    limits::lemma_tends_product(still, inner, s, e, a + 0real);
    let q = difference_quotient(w, t);
    assert forall|h: real| h != 0real && -1real < h < 1real implies #[trigger] q(h) == s(h) by {
        let x = k(h);
        assert(w(t + h) == exponential(u(t + h)) && e == exponential(u(t)));
        reals::lemma_exponential(u(t), x);
        assert(u(t) + x == u(t + h));
        let g = exponential(x);
        reals::lemma_product(e, g, 1real);
        limits::lemma_quotient_of_multiple(e, g - 1real, h);
        limits::lemma_quotient_of_sum(x, g - 1real - x, h);
        assert(x + (g - 1real - x) == g - 1real);
    }
    limits::lemma_tends_same(s, q, product(e, a + 0real), 1real);
    assert(a + 0real == a);
}

/// Near 1 the logarithm differs from its tangent by no more than twice the
/// square of the distance.
proof fn lemma_logarithm_gap(x: real, k: real)
    requires
        reals::exponential_is_complete(),
        -1real <= x + x <= 1real,
        exponential(k) == 1real + x,
    ensures
        0real <= x - k <= product(x, x + x),
{
    reals::lemma_exponential(k, -k);
    assert(k + (-k) == 0real);
    reals::lemma_exponential_tangent(k);
    reals::lemma_exponential_tangent(-k);
    let e = 1real + x;
    // e * (1 - k) <= e * exp(-k) = 1
    reals::lemma_product_order(e, 1real - k, exponential(-k));
    reals::lemma_product(e, 1real, k);
    reals::lemma_product(k, 1real, x);
    reals::lemma_product(e, k, k);
    assert(x - k <= product(k, x));
    if x >= 0real {
        reals::lemma_product_order(x, k, x);
        reals::lemma_product(x, k, k);
        reals::lemma_product(x, x, x);
        reals::lemma_product_nonnegative(x, x);
    } else {
        let n = 0real - k;
        let m = 0real - x;
        // e * n >= n / 2, so n / 2 <= m
        let half = 1real / 2real;
        reals::lemma_product_order(n, half, e);
        reals::lemma_product(n, half, half);
        assert(half + half == 1real);
        reals::lemma_product(n, 1real, 1real);
        reals::lemma_product(e, 0real, k);
        reals::lemma_product(n, e, e);
        assert(n <= m + m);
        reals::lemma_product_order(m, n, m + m);
        // m * n = x * k and m * (m + m) = x * (x + x)
        reals::lemma_product(m, 0real, k);
        reals::lemma_product(k, 0real, x);
        reals::lemma_product(m, k, k);
        reals::lemma_product(k, x, x);
        reals::lemma_product(m, 0real, x);
        reals::lemma_product(x, 0real, x);
        reals::lemma_product(m, x, x);
        reals::lemma_product(m, m, m);
        reals::lemma_product(x, x, x);
    }
}

/// The slope of the logarithm of a function that is positive.
pub proof fn lemma_slope_logarithm(
    u: spec_fn(real) -> real,
    w: spec_fn(real) -> real,
    t: real,
    a: real,
)
    requires
        reals::exponential_is_complete(),
        has_slope(u, t, a),
        u(t) > 0real,
        forall|x: real| #[trigger] w(x) == logarithm(u(x)),
    ensures
        has_slope(w, t, quotient(a, u(t))),
{
    let u0 = u(t);
    let p = quotient(1real, u0);
    reals::lemma_quotient(1real, u0);
    // How far u grows, as a share of u(t).
    let share = |x: real| product(p, u(x));
    let constant = |x: real| p;
    limits::lemma_slope_constant(constant, t, p);
    limits::lemma_slope_product(constant, u, share, t, 0real, a);
    reals::lemma_product(u0, 0real, 0real);
    reals::lemma_product(0real, u0, u0);
    let b = product(p, a);
    assert(has_slope(share, t, b)) by {
        assert(product(p, a) + product(0real, u(t)) == b);
    }
    let f = difference_quotient(share, t);
    let k = |h: real| share(t + h) - share(t);
    limits::lemma_differences_vanish(share, k, t, b);
    assert(share(t) == 1real);
    let r = limits::lemma_stays(k, 0real, 1real / 2real);
    let error = |h: real| quotient(w(t + h) - w(t) - k(h), h);
    assert forall|h: real| h != 0real && -r < h < r implies size(#[trigger] error(h)) <= size(
        quotient(product(k(h), k(h) + k(h)), h),
    ) by {
        assert(limits::near(k(h), 0real, 1real / 2real));
        let x = k(h);
        let u1 = u(t + h);
        assert(product(p, u1) == 1real + x);
        // u(t + h) is positive
        reals::lemma_product_sign(p, u0);
        reals::lemma_product(p, u1, u1);
        reals::lemma_product_sign(u1, p);
        let y1 = logarithm(u1);
        let y0 = logarithm(u0);
        assert(reals::has_logarithm(u1) && reals::has_logarithm(u0));
        assert(exponential(y1) == u1 && exponential(y0) == u0);
        let d = y1 - y0;
        reals::lemma_exponential(y0, d);
        assert(y0 + d == y1);
        // p * (u0 * exp(d)) = exp(d)
        reals::lemma_product(p, u0, exponential(d));
        reals::lemma_product(1real, exponential(d), u0);
        reals::lemma_product(exponential(d), 1real, 1real);
        lemma_logarithm_gap(x, d);
        assert(w(t + h) == y1 && w(t) == y0);
        lemma_quotient_sizes(d - x, product(x, x + x), h);
    }
    lemma_square_vanishes(k, f, error, b, r);
    let s = |h: real| f(h) + error(h);
    limits::lemma_tends_sum(f, error, s, b, 0real);
    let q = difference_quotient(w, t);
    assert forall|h: real| h != 0real && -1real < h < 1real implies #[trigger] q(h) == s(h) by {
        let x = k(h);
        let d = w(t + h) - w(t);
        limits::lemma_quotient_of_sum(x, d - x, h);
        assert(x + (d - x) == d);
    }
    limits::lemma_tends_same(s, q, b + 0real, 1real);
    limits::lemma_quotient_as_product(a, u0);
    reals::lemma_product(p, a, a);
    assert(b + 0real == quotient(a, u(t)));
}

/// The slope of the quotient that makes the hyperbolic tangent, where the
/// exponential has the value `e` and the slope `2 e a`.
proof fn lemma_tangent_slope(e: real, a: real)
    requires
        e > 0real,
    ensures
        ({
            let tau = quotient(e - 1real, e + 1real);
            let rise = product(e, a + a);
            quotient(rise - product(tau, rise), e + 1real) == product(
                1real - product(tau, tau),
                a,
            )
        }),
{
    let b = e + 1real;
    let tau = quotient(e - 1real, b);
    let rise = product(e, a + a);
    reals::lemma_quotient(e - 1real, b);
    let left = 1real - tau;
    let right = 1real + tau;
    // 1 - tau^2 = left * right
    assert(product(left, right) == 1real - product(tau, tau)) by {
        reals::lemma_product(left, 1real, tau);
        reals::lemma_product(tau, 1real, tau);
        reals::lemma_product(left, tau, tau);
    }
    // right * b = 2 e
    assert(product(right, b) == e + e) by {
        reals::lemma_product(b, 1real, tau);
        reals::lemma_product(right, b, b);
        reals::lemma_product(tau, b, b);
    }
    // left * rise = rise - tau * rise
    assert(product(left, rise) == rise - product(tau, rise)) by {
        reals::lemma_product(rise, 1real, tau);
        reals::lemma_product(left, rise, rise);
        reals::lemma_product(tau, rise, rise);
    }
    // (left * right * a) * b = left * (a * (right * b)) = left * rise
    let g = product(product(left, right), a);
    assert(product(g, b) == product(left, rise)) by {
        reals::lemma_product(product(left, right), a, b);
        reals::lemma_product(left, right, product(a, b));
        reals::lemma_product(right, a, b);
        reals::lemma_product(a, right, b);
        reals::lemma_product(right, product(a, b), b);
        reals::lemma_product(a, e, e);
        reals::lemma_product(e, a, a);
    }
    reals::lemma_quotient_is(product(left, rise), b, g);
}

/// The slope of the hyperbolic tangent of a function.
pub proof fn lemma_slope_tangent(
    u: spec_fn(real) -> real,
    w: spec_fn(real) -> real,
    t: real,
    a: real,
)
    requires
        reals::exponential_is_complete(),
        has_slope(u, t, a),
        forall|x: real| #[trigger] w(x) == hyperbolic_tangent(u(x)),
    ensures
        has_slope(w, t, product(1real - product(w(t), w(t)), a)),
{
    let twice = |x: real| u(x) + u(x);
    limits::lemma_slope_sum(u, u, twice, t, a, a);
    let e = |x: real| exponential(twice(x));
    lemma_slope_exponential(twice, e, t, a + a);
    let rise = product(e(t), a + a);
    let minus_one = |x: real| 0real - 1real;
    let one = |x: real| 1real;
    limits::lemma_slope_constant(minus_one, t, 0real - 1real);
    limits::lemma_slope_constant(one, t, 1real);
    let top = |x: real| e(x) + minus_one(x);
    let bottom = |x: real| e(x) + one(x);
    limits::lemma_slope_sum(e, minus_one, top, t, rise, 0real);
    limits::lemma_slope_sum(e, one, bottom, t, rise, 0real);
    let shape = |x: real| quotient(top(x), bottom(x));
    reals::lemma_exponential(twice(t), 0real);
    limits::lemma_slope_quotient(top, bottom, shape, t, rise + 0real, rise + 0real);
    lemma_tangent_slope(e(t), a);
    assert forall|x: real| #[trigger] w(x) == shape(x) by {
        assert(w(x) == hyperbolic_tangent(u(x)));
        assert(exponential(u(x) + u(x)) + (0real - 1real) == exponential(u(x) + u(x)) - 1real);
    }
    assert(rise + 0real == rise);
    assert(top(t) == e(t) - 1real);
    limits::lemma_slope_same(shape, w, t, product(1real - product(w(t), w(t)), a));
}

/// The square root of a positive number is the exponential of half its
/// logarithm.
proof fn lemma_root_as_exponential(y: real)
    requires
        reals::exponential_is_complete(),
        y > 0real,
    ensures
        square_root(y) == exponential(product(1real / 2real, logarithm(y))),
        square_root(y) > 0real,
        product(square_root(y), square_root(y)) == y,
{
    let half = 1real / 2real;
    let l = logarithm(y);
    assert(reals::has_logarithm(y));
    assert(exponential(l) == y);
    let m = product(half, l);
    let r = exponential(m);
    reals::lemma_exponential(m, m);
    reals::lemma_product(l, half, half);
    reals::lemma_product(half, l, l);
    reals::lemma_product(l, 1real, 1real);
    assert(half + half == 1real);
    assert(m + m == l);
    assert(reals::square(r) == y);
    let z = square_root(y);
    assert(z >= 0real && reals::square(z) == y);
    if z == 0real {
        reals::lemma_product(z, 0real, 0real);
    }
    reals::lemma_same_square(z, r);
}

/// The slope of the square root of a function that is positive.
pub proof fn lemma_slope_root(
    u: spec_fn(real) -> real,
    w: spec_fn(real) -> real,
    t: real,
    a: real,
)
    requires
        reals::exponential_is_complete(),
        has_slope(u, t, a),
        u(t) > 0real,
        forall|x: real| #[trigger] w(x) == square_root(u(x)),
    ensures
        has_slope(w, t, quotient(a, w(t) + w(t))),
{
    let half = 1real / 2real;
    let u0 = u(t);
    let l = |x: real| logarithm(u(x));
    lemma_slope_logarithm(u, l, t, a);
    let q = quotient(a, u0);
    let constant = |x: real| half;
    limits::lemma_slope_constant(constant, t, half);
    let m = |x: real| product(constant(x), l(x));
    limits::lemma_slope_product(constant, l, m, t, 0real, q);
    reals::lemma_product(l(t), 0real, 0real);
    reals::lemma_product(0real, l(t), l(t));
    let hq = product(half, q);
    assert(has_slope(m, t, hq)) by {
        assert(product(half, q) + product(0real, l(t)) == hq);
    }
    let e = |x: real| exponential(m(x));
    lemma_slope_exponential(m, e, t, hq);
    lemma_root_as_exponential(u0);
    let r = w(t);
    assert(e(t) == r);
    // r * (q / 2) times 2 r is q * u0 = a
    let d = product(r, hq);
    assert(product(d, r + r) == a) by {
        reals::lemma_quotient(a, u0);
        reals::lemma_product(d, r, r);
        reals::lemma_product(r, hq, r);
        reals::lemma_product(hq, r, r);
        reals::lemma_product(r, r, hq);
        reals::lemma_product(r, hq, hq);
        reals::lemma_product(u0, hq, hq);
        reals::lemma_product(q, half, half);
        reals::lemma_product(half, q, q);
        reals::lemma_product(q, 1real, 1real);
        assert(half + half == 1real);
        reals::lemma_product(u0, q, q);
    }
    reals::lemma_quotient_is(a, r + r, d);
    let moved = |h: real| u(t + h);
    limits::lemma_values_tend(u, moved, t, a);
    let near_by = limits::lemma_stays(moved, u0, u0);
    assert forall|x: real| limits::near(x, t, near_by) implies #[trigger] w(x) == e(x) by {
        let h = x - t;
        assert(t + h == x);
        if h != 0real {
            assert(limits::near(moved(h), u0, u0));
        }
        lemma_root_as_exponential(u(x));
    }
    limits::lemma_slope_same_near(e, w, t, d, near_by);
}

/// The slope of a power with a positive base, where base and exponent move.
pub proof fn lemma_slope_power(
    u: spec_fn(real) -> real,
    v: spec_fn(real) -> real,
    w: spec_fn(real) -> real,
    t: real,
    a: real,
    b: real,
)
    requires
        reals::exponential_is_complete(),
        has_slope(u, t, a),
        has_slope(v, t, b),
        u(t) > 0real,
        forall|x: real| #[trigger] w(x) == exponential(product(v(x), logarithm(u(x)))),
    ensures
        has_slope(
            w,
            t,
            product(
                product(v(t), exponential(product(v(t) - 1real, logarithm(u(t))))),
                a,
            ) + product(product(w(t), logarithm(u(t))), b),
        ),
{
    let l = |x: real| logarithm(u(x));
    lemma_slope_logarithm(u, l, t, a);
    let u0 = u(t);
    let e = v(t);
    let y = l(t);
    let q = quotient(a, u0);
    let m = |x: real| product(v(x), l(x));
    limits::lemma_slope_product(v, l, m, t, b, q);
    let rise = product(e, q) + product(b, y);
    lemma_slope_exponential(m, w, t, rise);
    // The power with an exponent less by 1, times the base, is the power.
    let p = w(t);
    let less = exponential(product(e - 1real, y));
    assert(reals::has_logarithm(u0));
    assert(exponential(y) == u0);
    reals::lemma_exponential(product(e - 1real, y), y);
    reals::lemma_product(y, e, 1real);
    reals::lemma_product(e - 1real, y, y);
    reals::lemma_product(e, y, y);
    reals::lemma_product(y, 1real, 1real);
    assert(product(e - 1real, y) + y == product(e, y));
    assert(product(less, u0) == p);
    // p * (e * q) = (e * less) * a, for q * u0 = a
    assert(product(p, product(e, q)) == product(product(e, less), a)) by {
        reals::lemma_quotient(a, u0);
        reals::lemma_product(p, e, q);
        reals::lemma_product(e, p, q);
        reals::lemma_product(less, u0, q);
        reals::lemma_product(u0, q, q);
        reals::lemma_product(e, less, a);
    }
    assert(product(p, product(b, y)) == product(product(p, y), b)) by {
        reals::lemma_product(b, y, y);
        reals::lemma_product(p, y, b);
    }
    reals::lemma_product(p, product(e, q), product(b, y));
}

} // verus!
