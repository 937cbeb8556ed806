//! Limits and slopes of functions of a real number.
//!
//! The slope of a function at a place is the limit of its difference
//! quotients there, as the distance goes to 0 from either side.

use crate::reals;
use crate::reals::{product, quotient};
use vstd::prelude::*;

verus! {

/// Whether `x` is less than `e` away from `y`.
pub open spec fn near(x: real, y: real, e: real) -> bool {
    -e < x - y < e
}

/// Whether a function is less than `e` away from `l` wherever its argument,
/// 0 excepted, is less than `d` away from 0.
pub open spec fn stays_near(f: spec_fn(real) -> real, l: real, e: real, d: real) -> bool {
    forall|h: real| h != 0real && -d < h < d ==> near(#[trigger] f(h), l, e)
}

/// Whether a function comes to stay less than `e` away from `l` close to 0.
pub open spec fn comes_near(f: spec_fn(real) -> real, l: real, e: real) -> bool {
    exists|d: real| d > 0real && #[trigger] stays_near(f, l, e, d)
}

/// Whether a function tends to `l` at 0.
pub open spec fn tends(f: spec_fn(real) -> real, l: real) -> bool {
    forall|e: real| e > 0real ==> #[trigger] comes_near(f, l, e)
}

/// The difference quotient of a function at `t`, for a distance.
pub open spec fn difference_quotient(u: spec_fn(real) -> real, t: real) -> spec_fn(real) -> real {
    |h: real| quotient(u(t + h) - u(t), h)
}

/// Whether a function has the slope `d` at `t`: its difference quotients tend
/// to it.
pub open spec fn has_slope(u: spec_fn(real) -> real, t: real, d: real) -> bool {
    tends(difference_quotient(u, t), d)
}

/// The smaller of two numbers.
spec fn lesser(a: real, b: real) -> real {
    if a < b {
        a
    } else {
        b
    }
}

/// The distance of a number from 0.
pub open spec fn size(a: real) -> real {
    if a < 0real {
        -a
    } else {
        a
    }
}

/// A distance within which a function stays near its limit.
pub proof fn lemma_stays(f: spec_fn(real) -> real, l: real, e: real) -> (d: real)
    requires
        tends(f, l),
        e > 0real,
    ensures
        d > 0real,
        stays_near(f, l, e, d),
{
    assert(comes_near(f, l, e));
    choose|d: real| d > 0real && #[trigger] stays_near(f, l, e, d)
}

/// Functions that agree close to 0, but for 0 itself, have the same limit.
pub proof fn lemma_tends_same(
    f: spec_fn(real) -> real,
    g: spec_fn(real) -> real,
    l: real,
    r: real,
)
    requires
        tends(f, l),
        r > 0real,
        forall|h: real| h != 0real && -r < h < r ==> #[trigger] g(h) == f(h),
    ensures
        tends(g, l),
{
    assert forall|e: real| e > 0real implies #[trigger] comes_near(g, l, e) by {
        let d = lemma_stays(f, l, e);
        let c = lesser(d, r);
        assert(stays_near(g, l, e, c)) by {
            assert forall|h: real| h != 0real && -c < h < c implies near(#[trigger] g(h), l, e) by {
                assert(near(f(h), l, e));
            }
        }
    }
}

/// A constant tends to itself.
pub proof fn lemma_tends_constant(f: spec_fn(real) -> real, l: real)
    requires
        forall|h: real| h != 0real ==> #[trigger] f(h) == l,
    ensures
        tends(f, l),
{
    assert forall|e: real| e > 0real implies #[trigger] comes_near(f, l, e) by {
        assert(stays_near(f, l, e, 1real));
    }
}

/// The distance itself tends to 0.
pub proof fn lemma_tends_identity(f: spec_fn(real) -> real)
    requires
        forall|h: real| #[trigger] f(h) == h,
    ensures
        tends(f, 0real),
{
    assert forall|e: real| e > 0real implies #[trigger] comes_near(f, 0real, e) by {
        assert(stays_near(f, 0real, e, e));
    }
}

/// What is no farther from 0 than something that tends to 0 tends to 0.
pub proof fn lemma_tends_squeezed(f: spec_fn(real) -> real, g: spec_fn(real) -> real, r: real)
    requires
        tends(f, 0real),
        r > 0real,
        forall|h: real| h != 0real && -r < h < r ==> size(#[trigger] g(h)) <= size(f(h)),
    ensures
        tends(g, 0real),
{
    assert forall|e: real| e > 0real implies #[trigger] comes_near(g, 0real, e) by {
        let d = lemma_stays(f, 0real, e);
        let c = lesser(d, r);
        assert(stays_near(g, 0real, e, c)) by {
            assert forall|h: real| h != 0real && -c < h < c implies near(
                #[trigger] g(h),
                0real,
                e,
            ) by {
                assert(near(f(h), 0real, e));
            }
        }
    }
}

/// Limits add up.
pub proof fn lemma_tends_sum(
    f: spec_fn(real) -> real,
    g: spec_fn(real) -> real,
    s: spec_fn(real) -> real,
    l: real,
    m: real,
)
    requires
        tends(f, l),
        tends(g, m),
        forall|h: real| #[trigger] s(h) == f(h) + g(h),
    ensures
        tends(s, l + m),
{
    assert forall|e: real| e > 0real implies #[trigger] comes_near(s, l + m, e) by {
        let a = lemma_stays(f, l, e / 2real);
        let b = lemma_stays(g, m, e / 2real);
        let c = lesser(a, b);
        assert(stays_near(s, l + m, e, c)) by {
            assert forall|h: real| h != 0real && -c < h < c implies near(
                #[trigger] s(h),
                l + m,
                e,
            ) by {
                assert(near(f(h), l, e / 2real));
                assert(near(g(h), m, e / 2real));
            }
        }
    }
}

/// The size of a product is the product of the sizes.
pub proof fn lemma_size_of_product(a: real, b: real)
    ensures
        size(product(a, b)) == product(size(a), size(b)),
        size(a) >= 0real,
{
    reals::lemma_product(a, 0real, b);
    reals::lemma_product(b, 0real, a);
    reals::lemma_product(a, b, b);
    let na = 0real - a;
    let nb = 0real - b;
    reals::lemma_product(na, 0real, b);
    reals::lemma_product(na, b, b);
    reals::lemma_product(b, 0real, na);
    assert(-a == na && -b == nb);
    reals::lemma_product_nonnegative(size(a), size(b));
    reals::lemma_product(b, na, na);
    reals::lemma_product(b, a, a);
}

/// A multiple of what tends to 0 tends to 0.
pub proof fn lemma_tends_multiple(
    f: spec_fn(real) -> real,
    s: spec_fn(real) -> real,
    k: real,
)
    requires
        tends(f, 0real),
        forall|h: real| #[trigger] s(h) == product(k, f(h)),
    ensures
        tends(s, 0real),
{
    let c = size(k) + 1real;
    assert forall|e: real| e > 0real implies #[trigger] comes_near(s, 0real, e) by {
        let q = quotient(e, c);
        reals::lemma_quotient(e, c);
        reals::lemma_product_sign(q, c);
        let d = lemma_stays(f, 0real, q);
        assert(stays_near(s, 0real, e, d)) by {
            assert forall|h: real| h != 0real && -d < h < d implies near(
                #[trigger] s(h),
                0real,
                e,
            ) by {
                let x = f(h);
                assert(near(x, 0real, q));
                lemma_size_of_product(k, x);
                // size(k) * size(x) <= size(k) * q < c * q = e
                reals::lemma_product_order(size(k), size(x), q);
                reals::lemma_product(q, size(k), 1real);
                reals::lemma_product(size(k), q, q);
                reals::lemma_product(q, c, c);
            }
        }
    }
}

/// The product of two functions that tend to 0 tends to 0.
pub proof fn lemma_tends_small_product(
    f: spec_fn(real) -> real,
    g: spec_fn(real) -> real,
    s: spec_fn(real) -> real,
)
    requires
        tends(f, 0real),
        tends(g, 0real),
        forall|h: real| #[trigger] s(h) == product(f(h), g(h)),
    ensures
        tends(s, 0real),
{
    assert forall|e: real| e > 0real implies #[trigger] comes_near(s, 0real, e) by {
        let a = lemma_stays(f, 0real, e);
        let b = lemma_stays(g, 0real, 1real);
        let c = lesser(a, b);
        assert(stays_near(s, 0real, e, c)) by {
            assert forall|h: real| h != 0real && -c < h < c implies near(
                #[trigger] s(h),
                0real,
                e,
            ) by {
                let x = f(h);
                let y = g(h);
                assert(near(x, 0real, e));
                assert(near(y, 0real, 1real));
                lemma_size_of_product(x, y);
                // size(x) * size(y) <= size(x) * 1 < e
                reals::lemma_product_order(size(x), size(y), 1real);
                reals::lemma_product(size(x), 1real, 1real);
            }
        }
    }
}

/// Limits multiply.
pub proof fn lemma_tends_product(
    f: spec_fn(real) -> real,
    g: spec_fn(real) -> real,
    s: spec_fn(real) -> real,
    l: real,
    m: real,
)
    requires
        tends(f, l),
        tends(g, m),
        forall|h: real| #[trigger] s(h) == product(f(h), g(h)),
    ensures
        tends(s, product(l, m)),
{
    // f * g = l * m + (f - l) * (g - m) + l * (g - m) + m * (f - l)
    let a = |h: real| f(h) - l;
    let b = |h: real| g(h) - m;
    let minus_l = |h: real| -l;
    let minus_m = |h: real| -m;
    lemma_tends_constant(minus_l, -l);
    lemma_tends_constant(minus_m, -m);
    lemma_tends_sum(f, minus_l, a, l, -l);
    lemma_tends_sum(g, minus_m, b, m, -m);
    assert(l + (-l) == 0real && m + (-m) == 0real);
    let ab = |h: real| product(a(h), b(h));
    let lb = |h: real| product(l, b(h));
    let ma = |h: real| product(m, a(h));
    let ends = |h: real| lb(h) + ma(h);
    let moves = |h: real| ab(h) + ends(h);
    let rest = |h: real| product(l, m);
    let all = |h: real| moves(h) + rest(h);
    lemma_tends_small_product(a, b, ab);
    lemma_tends_multiple(b, lb, l);
    lemma_tends_multiple(a, ma, m);
    lemma_tends_sum(lb, ma, ends, 0real, 0real);
    lemma_tends_sum(ab, ends, moves, 0real, 0real + 0real);
    lemma_tends_constant(rest, product(l, m));
    lemma_tends_sum(moves, rest, all, 0real + (0real + 0real), product(l, m));
    assert forall|h: real| h != 0real && -1real < h < 1real implies #[trigger] s(h) == all(h) by {
        let x = f(h) - l;
        let y = g(h) - m;
        // (x + l) * (y + m)
        reals::lemma_product(x + l, y, m);
        reals::lemma_product(y, x, l);
        reals::lemma_product(m, x, l);
        reals::lemma_product(x, y, m);
        reals::lemma_product(l, y, m);
        reals::lemma_product(x + l, y, y);
        reals::lemma_product(x + l, m, m);
        reals::lemma_product(l, m, m);
        assert(f(h) == x + l && g(h) == y + m);
    }
    lemma_tends_same(all, s, 0real + (0real + 0real) + product(l, m), 1real);
}

/// The limit of one over a function with a positive limit.
pub proof fn lemma_tends_reciprocal(f: spec_fn(real) -> real, s: spec_fn(real) -> real, l: real)
    requires
        tends(f, l),
        l > 0real,
        forall|h: real| #[trigger] s(h) == quotient(1real, f(h)),
    ensures
        tends(s, quotient(1real, l)),
{
    let r = lemma_stays(f, l, l / 2real);
    let p = quotient(1real, l);
    let k = product(p, p + p);
    let minus_l = |h: real| -l;
    let a = |h: real| f(h) - l;
    lemma_tends_constant(minus_l, -l);
    lemma_tends_sum(f, minus_l, a, l, -l);
    assert(l + (-l) == 0real);
    let ka = |h: real| product(k, a(h));
    lemma_tends_multiple(a, ka, k);
    let gap = |h: real| s(h) - p;
    reals::lemma_quotient(1real, l);
    reals::lemma_product_sign(p, l);
    assert forall|h: real| h != 0real && -r < h < r implies size(#[trigger] gap(h)) <= size(
        ka(h),
    ) by {
        let v = f(h);
        assert(near(f(h), l, l / 2real));
        let q = quotient(1real, v);
        reals::lemma_quotient(1real, v);
        reals::lemma_product_sign(q, v);
        // q <= 2 p, for (2 p) * v >= p * l = 1 = q * v
        assert(q <= p + p) by {
            if q > p + p {
                reals::lemma_product_order(p, l / 2real, v);
                reals::lemma_product(p, l / 2real, l / 2real);
                reals::lemma_product(v, p, p);
                reals::lemma_product(p, v, v);
                reals::lemma_product(p + p, v, v);
                reals::lemma_product(v, q, p + p);
                reals::lemma_product(q, v, v);
                reals::lemma_product(v, q - (p + p), v);
                reals::lemma_product_sign(q - (p + p), v);
                assert(l / 2real + l / 2real == l);
            }
        }
        // q - p = (p * q) * (l - v)
        let pq = product(p, q);
        assert(product(pq, l - v) == q - p) by {
            reals::lemma_product(pq, l, v);
            reals::lemma_product(p, q, v);
            reals::lemma_product(p, q, l);
            reals::lemma_product(q, p, l);
            reals::lemma_product(q, 1real, 1real);
            reals::lemma_product(p, 1real, 1real);
        }
        lemma_size_of_product(pq, l - v);
        lemma_size_of_product(k, v - l);
        reals::lemma_product_nonnegative(p, q);
        reals::lemma_product_order(p, q, p + p);
        reals::lemma_product_order(size(v - l), pq, k);
        reals::lemma_product(size(v - l), pq, pq);
        reals::lemma_product(size(v - l), k, k);
    }
    lemma_tends_squeezed(ka, gap, r);
    let rest = |h: real| p;
    lemma_tends_constant(rest, p);
    let all = |h: real| gap(h) + rest(h);
    lemma_tends_sum(gap, rest, all, 0real, p);
    lemma_tends_same(all, s, 0real + p, 1real);
}

/// A function with a slope is continuous: its differences tend to 0.
pub proof fn lemma_differences_vanish(
    u: spec_fn(real) -> real,
    k: spec_fn(real) -> real,
    t: real,
    d: real,
)
    requires
        has_slope(u, t, d),
        forall|h: real| #[trigger] k(h) == u(t + h) - u(t),
    ensures
        tends(k, 0real),
{
    let q = difference_quotient(u, t);
    let id = |h: real| h;
    let s = |h: real| product(q(h), id(h));
    lemma_tends_identity(id);
    lemma_tends_product(q, id, s, d, 0real);
    reals::lemma_product(d, 0real, 0real);
    assert forall|h: real| h != 0real && -1real < h < 1real implies #[trigger] k(h) == s(h) by {
        reals::lemma_quotient(u(t + h) - u(t), h);
    }
    lemma_tends_same(s, k, 0real, 1real);
}

/// The values of a function with a slope tend to its value.
pub proof fn lemma_values_tend(
    u: spec_fn(real) -> real,
    v: spec_fn(real) -> real,
    t: real,
    d: real,
)
    requires
        has_slope(u, t, d),
        forall|h: real| #[trigger] v(h) == u(t + h),
    ensures
        tends(v, u(t)),
{
    let k = |h: real| u(t + h) - u(t);
    lemma_differences_vanish(u, k, t, d);
    let rest = |h: real| u(t);
    lemma_tends_constant(rest, u(t));
    let all = |h: real| k(h) + rest(h);
    lemma_tends_sum(k, rest, all, 0real, u(t));
    lemma_tends_same(all, v, 0real + u(t), 1real);
}

/// Functions with the same values close to a place have the same slope there.
pub proof fn lemma_slope_same_near(
    u: spec_fn(real) -> real,
    v: spec_fn(real) -> real,
    t: real,
    d: real,
    r: real,
)
    requires
        has_slope(u, t, d),
        r > 0real,
        forall|x: real| near(x, t, r) ==> #[trigger] v(x) == u(x),
    ensures
        has_slope(v, t, d),
{
    let f = difference_quotient(u, t);
    let g = difference_quotient(v, t);
    assert forall|h: real| h != 0real && -r < h < r implies #[trigger] g(h) == f(h) by {
        assert(near(t + h, t, r) && near(t, t, r));
        assert(v(t + h) == u(t + h));
        assert(v(t) == u(t));
    }
    lemma_tends_same(f, g, d, r);
}

/// Functions with the same values have the same slopes.
pub proof fn lemma_slope_same(
    u: spec_fn(real) -> real,
    v: spec_fn(real) -> real,
    t: real,
    d: real,
)
    requires
        has_slope(u, t, d),
        forall|x: real| #[trigger] v(x) == u(x),
    ensures
        has_slope(v, t, d),
{
    lemma_slope_same_near(u, v, t, d, 1real);
}

/// A quotient of a sum.
pub proof fn lemma_quotient_of_sum(a: real, b: real, h: real)
    requires
        h != 0real,
    ensures
        quotient(a + b, h) == quotient(a, h) + quotient(b, h),
        quotient(a - b, h) == quotient(a, h) - quotient(b, h),
        quotient(0real, h) == 0real,
{
    let x = quotient(a, h);
    let y = quotient(b, h);
    reals::lemma_quotient(a, h);
    reals::lemma_quotient(b, h);
    reals::lemma_product(h, x, y);
    reals::lemma_product(x, h, h);
    reals::lemma_product(y, h, h);
    reals::lemma_product(h, x + y, x - y);
    reals::lemma_product(h, x - y, x + y);
    reals::lemma_quotient_is(a + b, h, x + y);
    reals::lemma_quotient_is(a - b, h, x - y);
    reals::lemma_product(h, 0real, 0real);
    reals::lemma_product(0real, h, h);
    reals::lemma_quotient_is(0real, h, 0real);
}

/// A quotient of a multiple.
pub proof fn lemma_quotient_of_multiple(k: real, a: real, h: real)
    requires
        h != 0real,
    ensures
        quotient(product(k, a), h) == product(k, quotient(a, h)),
{
    let q = quotient(a, h);
    reals::lemma_quotient(a, h);
    reals::lemma_product(k, q, h);
    reals::lemma_quotient_is(product(k, a), h, product(k, q));
}

/// A constant has the slope 0.
pub proof fn lemma_slope_constant(u: spec_fn(real) -> real, t: real, c: real)
    requires
        forall|x: real| #[trigger] u(x) == c,
    ensures
        has_slope(u, t, 0real),
{
    let q = difference_quotient(u, t);
    assert forall|h: real| h != 0real implies #[trigger] q(h) == 0real by {
        assert(u(t + h) == c && u(t) == c);
        lemma_quotient_of_sum(0real, 0real, h);
    }
    lemma_tends_constant(q, 0real);
}

/// A straight line has its own slope.
pub proof fn lemma_slope_line(u: spec_fn(real) -> real, t: real, c: real, d: real)
    requires
        forall|x: real| #[trigger] u(x) == c + product(x, d),
    ensures
        has_slope(u, t, d),
{
    let q = difference_quotient(u, t);
    assert forall|h: real| h != 0real implies #[trigger] q(h) == d by {
        assert(u(t + h) == c + product(t + h, d));
        assert(u(t) == c + product(t, d));
        reals::lemma_product(d, t, h);
        reals::lemma_product(t, d, d);
        reals::lemma_product(h, d, d);
        reals::lemma_product(t + h, d, d);
        reals::lemma_quotient_is(product(d, h), h, d);
    }
    lemma_tends_constant(q, d);
}

/// Slopes add up.
pub proof fn lemma_slope_sum(
    u: spec_fn(real) -> real,
    v: spec_fn(real) -> real,
    w: spec_fn(real) -> real,
    t: real,
    a: real,
    b: real,
)
    requires
        has_slope(u, t, a),
        has_slope(v, t, b),
        forall|x: real| #[trigger] w(x) == u(x) + v(x),
    ensures
        has_slope(w, t, a + b),
{
    let f = difference_quotient(u, t);
    let g = difference_quotient(v, t);
    let s = |h: real| f(h) + g(h);
    lemma_tends_sum(f, g, s, a, b);
    let q = difference_quotient(w, t);
    assert forall|h: real| h != 0real && -1real < h < 1real implies #[trigger] q(h) == s(h) by {
        assert(w(t + h) == u(t + h) + v(t + h));
        assert(w(t) == u(t) + v(t));
        lemma_quotient_of_sum(u(t + h) - u(t), v(t + h) - v(t), h);
    }
    lemma_tends_same(s, q, a + b, 1real);
}

/// The slope of a product.
pub proof fn lemma_slope_product(
    u: spec_fn(real) -> real,
    v: spec_fn(real) -> real,
    w: spec_fn(real) -> real,
    t: real,
    a: real,
    b: real,
)
    requires
        has_slope(u, t, a),
        has_slope(v, t, b),
        forall|x: real| #[trigger] w(x) == product(u(x), v(x)),
    ensures
        has_slope(w, t, product(u(t), b) + product(a, v(t))),
{
    // The difference of the products is u(t + h) dv + du v(t).
    let f = difference_quotient(u, t);
    let g = difference_quotient(v, t);
    let moved = |h: real| u(t + h);
    lemma_values_tend(u, moved, t, a);
    let first = |h: real| product(moved(h), g(h));
    lemma_tends_product(moved, g, first, u(t), b);
    let still = |h: real| v(t);
    lemma_tends_constant(still, v(t));
    let second = |h: real| product(f(h), still(h));
    lemma_tends_product(f, still, second, a, v(t));
    let s = |h: real| first(h) + second(h);
    lemma_tends_sum(first, second, s, product(u(t), b), product(a, v(t)));
    let q = difference_quotient(w, t);
    assert forall|h: real| h != 0real && -1real < h < 1real implies #[trigger] q(h) == s(h) by {
        let u1 = u(t + h);
        let u0 = u(t);
        let v1 = v(t + h);
        let v0 = v(t);
        assert(w(t + h) == product(u1, v1));
        assert(w(t) == product(u0, v0));
        reals::lemma_product(u1, v1, v0);
        reals::lemma_product(v0, u1, u0);
        reals::lemma_product(u1, v0, v0);
        reals::lemma_product(u0, v0, v0);
        let dv = v1 - v0;
        let du = u1 - u0;
        assert(product(u1, v1) - product(u0, v0) == product(u1, dv) + product(v0, du));
        lemma_quotient_of_sum(product(u1, dv), product(v0, du), h);
        lemma_quotient_of_multiple(u1, dv, h);
        lemma_quotient_of_multiple(v0, du, h);
        reals::lemma_product(v0, quotient(du, h), h);
    }
    lemma_tends_same(s, q, product(u(t), b) + product(a, v(t)), 1real);
}

/// The slope of a quotient with a positive divisor.
pub proof fn lemma_slope_quotient(
    u: spec_fn(real) -> real,
    v: spec_fn(real) -> real,
    w: spec_fn(real) -> real,
    t: real,
    a: real,
    b: real,
)
    requires
        has_slope(u, t, a),
        has_slope(v, t, b),
        v(t) > 0real,
        forall|x: real| #[trigger] w(x) == quotient(u(x), v(x)),
    ensures
        has_slope(w, t, quotient(a - product(w(t), b), v(t))),
{
    // The difference of the quotients is (du - w(t) dv) / v(t + h).
    let f = difference_quotient(u, t);
    let g = difference_quotient(v, t);
    let c = w(t);
    let still = |h: real| 0real - c;
    lemma_tends_constant(still, 0real - c);
    let shed = |h: real| product(still(h), g(h));
    lemma_tends_product(still, g, shed, 0real - c, b);
    let top = |h: real| f(h) + shed(h);
    lemma_tends_sum(f, shed, top, a, product(0real - c, b));
    let moved = |h: real| v(t + h);
    lemma_values_tend(v, moved, t, b);
    let inverse = |h: real| quotient(1real, moved(h));
    lemma_tends_reciprocal(moved, inverse, v(t));
    let s = |h: real| product(top(h), inverse(h));
    let l = a + product(0real - c, b);
    lemma_tends_product(top, inverse, s, l, quotient(1real, v(t)));
    let r = lemma_stays(moved, v(t), v(t));
    let q = difference_quotient(w, t);
    assert forall|h: real| h != 0real && -r < h < r implies #[trigger] q(h) == s(h) by {
        assert(near(moved(h), v(t), v(t)));
        let u1 = u(t + h);
        let u0 = u(t);
        let v1 = v(t + h);
        let v0 = v(t);
        let w1 = quotient(u1, v1);
        assert(v1 > 0real);
        assert(w(t + h) == w1 && c == quotient(u0, v0));
        reals::lemma_quotient(u1, v1);
        reals::lemma_quotient(u0, v0);
        let du = u1 - u0;
        let dv = v1 - v0;
        // (w1 - c) * v1 = u1 - c * v1 = du - c * dv
        assert(product(w1 - c, v1) == du - product(c, dv)) by {
            reals::lemma_product(v1, w1, c);
            reals::lemma_product(w1, v1, v1);
            reals::lemma_product(c, v1, v0);
            reals::lemma_product(w1 - c, v1, v1);
        }
        let m = du - product(c, dv);
        reals::lemma_quotient_is(m, v1, w1 - c);
        lemma_quotient_as_product(m, v1);
        let i = quotient(1real, v1);
        // (m * i) / h = (m / h) * i
        reals::lemma_product(m, i, i);
        lemma_quotient_of_multiple(i, m, h);
        lemma_quotient_of_sum(du, product(c, dv), h);
        lemma_quotient_of_multiple(c, dv, h);
        let gq = quotient(dv, h);
        reals::lemma_product(gq, 0real, c);
        reals::lemma_product(0real - c, gq, gq);
        reals::lemma_product(c, gq, gq);
        reals::lemma_product(i, quotient(m, h), i);
    }
    lemma_tends_same(s, q, product(l, quotient(1real, v(t))), r);
    reals::lemma_product(b, 0real, c);
    reals::lemma_product(0real - c, b, b);
    reals::lemma_product(c, b, b);
    lemma_quotient_as_product(a - product(c, b), v(t));
}

/// The central difference quotient of a function at `t`, for a distance.
pub open spec fn central_quotient(u: spec_fn(real) -> real, t: real) -> spec_fn(real) -> real {
    |h: real| quotient(u(t + h) - u(t - h), h + h)
}

/// Central difference quotients tend to the slope, too.
pub proof fn lemma_central_quotients_tend(u: spec_fn(real) -> real, t: real, d: real)
    requires
        has_slope(u, t, d),
    ensures
        tends(central_quotient(u, t), d),
{
    let f = difference_quotient(u, t);
    let g = |h: real| f(0real - h);
    assert forall|e: real| e > 0real implies #[trigger] comes_near(g, d, e) by {
        let r = lemma_stays(f, d, e);
        assert(stays_near(g, d, e, r)) by {
            assert forall|h: real| h != 0real && -r < h < r implies near(#[trigger] g(h), d, e) by {
                assert(near(f(0real - h), d, e));
            }
        }
    }
    let both = |h: real| f(h) + g(h);
    lemma_tends_sum(f, g, both, d, d);
    let half = 1real / 2real;
    let still = |h: real| half;
    lemma_tends_constant(still, half);
    let s = |h: real| product(still(h), both(h));
    lemma_tends_product(still, both, s, half, d + d);
    reals::lemma_product(half, d, d);
    reals::lemma_product(d, half, half);
    reals::lemma_product(half, d, half);
    reals::lemma_product(d, 1real, 1real);
    assert(half + half == 1real);
    assert(product(half, d + d) == d);
    let q = central_quotient(u, t);
    assert forall|h: real| h != 0real && -1real < h < 1real implies #[trigger] q(h) == s(h) by {
        let x = u(t + h) - u(t);
        let y = u(t) - u(t - h);
        let m = 0real - h;
        assert(t + m == t - h);
        let a = quotient(x, h);
        let b = quotient(y, h);
        reals::lemma_quotient(x, h);
        reals::lemma_quotient(y, h);
        // y / h = (-y) / (-h)
        reals::lemma_product(b, 0real, h);
        assert(product(b, m) == 0real - y);
        reals::lemma_quotient_is(0real - y, m, b);
        assert(g(h) == b);
        // (a + b) / 2 times 2 h is x + y
        let c = product(half, a + b);
        assert(product(c, h + h) == x + y) by {
            reals::lemma_product(c, h, h);
            reals::lemma_product(half, a + b, h);
            reals::lemma_product(h, a, b);
            reals::lemma_product(a, h, h);
            reals::lemma_product(b, h, h);
            reals::lemma_product(h, a + b, a + b);
            let z = product(a + b, h);
            reals::lemma_product(z, half, half);
            reals::lemma_product(z, 1real, 1real);
            reals::lemma_product(half, z, z);
        }
        reals::lemma_quotient_is(x + y, h + h, c);
        assert(u(t + h) - u(t - h) == x + y);
    }
    lemma_tends_same(s, q, d, 1real);
}

/// Dividing is multiplying with one over the divisor.
pub proof fn lemma_quotient_as_product(e: real, s: real)
    requires
        s != 0real,
    ensures
        quotient(e, s) == product(e, quotient(1real, s)),
{
    let a = quotient(1real, s);
    reals::lemma_quotient(1real, s);
    reals::lemma_product(e, a, s);
    reals::lemma_product(e, 1real, 1real);
    reals::lemma_quotient_is(e, s, product(e, a));
}

} // verus!
