//! The cosine: what it is at a half turn, and its slope.

use crate::calculus;
use crate::limits;
use crate::limits::{difference_quotient, has_slope, size};
use crate::reals;
use crate::reals::{cosine, product, quotient};
use vstd::prelude::*;

verus! {

/// Whether `c` and `s` are cosine and sine, and `q` is a quarter turn.
spec fn turns(c: spec_fn(real) -> real, s: spec_fn(real) -> real, q: real) -> bool {
    &&& reals::are_cosine_and_sine(c, s)
    &&& q > 0real
    &&& c(q) == 0real
    &&& forall|y: real| 0real < y < q ==> #[trigger] c(y) > 0real
}

/// What cosine and sine are at 0, at opposite places and at a quarter turn.
proof fn lemma_places(c: spec_fn(real) -> real, s: spec_fn(real) -> real, q: real, x: real)
    requires
        turns(c, s, q),
    ensures
        c(0real) == 1real,
        s(0real) == 0real,
        c(0real - x) == c(x),
        product(c(x), c(x)) + product(s(x), s(x)) == 1real,
        s(q) == 1real,
        c(q - x) == s(x),
        s(q - x) == c(x),
{
    reals::lemma_cosine_starts_at_one(c, s);
    let z = s(0real);
    assert(c(0real - 0real) == product(c(0real), c(0real)) + product(z, z));
    reals::lemma_product(1real, 1real, 1real);
    reals::lemma_square_of_opposite(z);
    if z > 0real {
        reals::lemma_product_sign(z, z);
    }
    if z < 0real {
        reals::lemma_product_sign(0real - z, 0real - z);
    }
    assert(c(0real - x) == product(c(0real), c(x)) + product(z, s(x)));
    reals::lemma_product(c(x), 1real, 0real);
    reals::lemma_product(1real, c(x), c(x));
    reals::lemma_product(s(x), 0real, 0real);
    reals::lemma_product(0real, s(x), s(x));
    assert(c(x - x) == product(c(x), c(x)) + product(s(x), s(x)));
    // At a quarter turn the sine is 1, for it is 1 or -1, and positive.
    let w = s(q);
    assert(c(q - q) == product(c(q), c(q)) + product(w, w));
    reals::lemma_product(0real, 0real, 0real);
    assert(product(w, w) == 1real);
    let h = if q < 1real {
        q / 2real
    } else {
        1real / 2real
    };
    assert(0real < h < 1real && 0real < q - h < q);
    assert(c(q - h) == product(c(q), c(h)) + product(w, s(h)));
    reals::lemma_product(c(h), 0real, 0real);
    reals::lemma_product(0real, c(h), c(h));
    assert(c(q - h) > 0real);
    assert(s(h) <= h);
    assert(c(h) > 0real && product(h, c(h)) <= s(h));
    reals::lemma_product_sign(c(h), h);
    reals::lemma_product(h, c(h), h);
    assert(s(h) > 0real);
    reals::lemma_product_sign(w, s(h));
    assert(w > 0real);
    reals::lemma_same_square(w, 1real);
    assert(c(q - x) == product(c(q), c(x)) + product(w, s(x)));
    reals::lemma_product(0real, c(x), c(x));
    reals::lemma_product(c(x), 0real, 0real);
    reals::lemma_product(1real, s(x), s(x));
    reals::lemma_product(s(x), 1real, 1real);
    let r = q - x;
    assert(c(q - r) == product(c(q), c(r)) + product(w, s(r)));
    reals::lemma_product(0real, c(r), c(r));
    reals::lemma_product(c(r), 0real, 0real);
    reals::lemma_product(1real, s(r), s(r));
    reals::lemma_product(s(r), 1real, 1real);
    assert(q - r == x);
}

/// The sine is odd, and the cosine of a sum.
proof fn lemma_sum_of_angles(
    c: spec_fn(real) -> real,
    s: spec_fn(real) -> real,
    q: real,
    x: real,
    y: real,
)
    requires
        turns(c, s, q),
    ensures
        s(0real - y) == 0real - s(y),
        c(x + y) == product(c(x), c(y)) - product(s(x), s(y)),
{
    lemma_places(c, s, q, y);
    lemma_places(c, s, q, 0real - y);
    lemma_places(c, s, q, 0real - q);
    lemma_places(c, s, q, q);
    // s(-y) = c(q + y) = c(y - (-q)) = s(y) s(-q)
    let l = s(0real - q);
    assert(c(y - (0real - q)) == product(c(y), c(0real - q)) + product(s(y), l));
    assert(y - (0real - q) == q - (0real - y));
    reals::lemma_product(c(y), 0real, 0real);
    assert(s(0real - y) == product(s(y), l));
    // and s(-q) = -1: the sine of the sum of a half and its opposite is 0.
    let h = 1real / 2real;
    lemma_places(c, s, q, h);
    lemma_places(c, s, q, 0real - h);
    assert(c(h - (0real - q)) == product(c(h), c(0real - q)) + product(s(h), l));
    assert(h - (0real - q) == q - (0real - h));
    reals::lemma_product(c(h), 0real, 0real);
    let m = s(0real - h);
    assert(m == product(s(h), l));
    let z = q - h;
    // c(z - (-h)) = c(q) = 0
    assert(c(z - (0real - h)) == product(c(z), c(0real - h)) + product(s(z), m));
    assert(z - (0real - h) == q);
    assert(c(z) == s(h) && s(z) == c(h));
    // s(h) c(h) + c(h) m = 0
    reals::lemma_product(s(h), c(h), c(h));
    reals::lemma_product(c(h), s(h), m);
    let k = s(h) + m;
    assert(product(c(h), k) == 0real);
    assert(s(h) <= h);
    assert(c(h) > 0real && product(h, c(h)) <= s(h));
    reals::lemma_product_sign(c(h), h);
    reals::lemma_product(h, c(h), h);
    assert(s(h) > 0real);
    reals::lemma_product(c(h), k, k);
    reals::lemma_product(c(h), 0real, k);
    reals::lemma_product(c(h), 0real - k, 0real - k);
    reals::lemma_product_sign(k, c(h));
    reals::lemma_product_sign(0real - k, c(h));
    assert(m == 0real - s(h));
    // s(h) * (l + 1) = 0
    let j = l + 1real;
    reals::lemma_product(s(h), l, 1real);
    reals::lemma_product(s(h), j, j);
    reals::lemma_product(s(h), 0real, j);
    reals::lemma_product(s(h), 0real - j, 0real - j);
    reals::lemma_product_sign(j, s(h));
    reals::lemma_product_sign(0real - j, s(h));
    assert(l == 0real - 1real);
    reals::lemma_product(s(y), 0real, 1real);
    assert(c(x - (0real - y)) == product(c(x), c(0real - y)) + product(s(x), s(0real - y)));
    reals::lemma_product(s(x), 0real, s(y));
    assert(x - (0real - y) == x + y);
}

/// Near 0 cosine and sine differ from their tangents by no more than the
/// square of the distance.
proof fn lemma_gap(c: spec_fn(real) -> real, s: spec_fn(real) -> real, q: real, k: real)
    requires
        turns(c, s, q),
        0real < k < 1real,
    ensures
        0real <= 1real - c(k) <= product(k, k),
        0real <= k - s(k) <= product(k, k),
{
    lemma_places(c, s, q, k);
    let x = c(k);
    let y = s(k);
    assert(s(k) <= k);
    assert(c(k) > 0real && product(k, c(k)) <= s(k));
    reals::lemma_product_sign(x, k);
    reals::lemma_product(k, x, k);
    assert(y > 0real);
    // y * y <= k * k
    reals::lemma_product_order(y, y, k);
    reals::lemma_product_order(k, y, k);
    reals::lemma_product(y, k, k);
    // x <= 1
    if x > 1real {
        reals::lemma_product_order(x, 1real, x);
        reals::lemma_product(x, 1real, 1real);
        reals::lemma_square(y);
    }
    // 1 - x <= 1 - x * x
    reals::lemma_product_order(x, x, 1real);
    reals::lemma_product(x, 1real, 1real);
    // k - y <= k * (1 - x) <= 1 - x
    reals::lemma_product(k, 1real, x);
    reals::lemma_product_order(1real - x, k, 1real);
    reals::lemma_product(1real - x, k, k);
    reals::lemma_product(1real - x, 1real, 1real);
    reals::lemma_product(k, 1real - x, 1real);
}

/// How far the cosine differs from its tangent, anywhere.
proof fn lemma_tangent_gap(
    c: spec_fn(real) -> real,
    s: spec_fn(real) -> real,
    q: real,
    x: real,
    k: real,
)
    requires
        turns(c, s, q),
        -1real < k < 1real,
    ensures
        size(c(x + k) - c(x) - product(0real - s(x), k)) <= product(k, k + k),
{
    lemma_sum_of_angles(c, s, q, x, k);
    lemma_places(c, s, q, x);
    lemma_places(c, s, q, k);
    let a = c(x);
    let b = s(x);
    let m = if k < 0real {
        0real - k
    } else {
        k
    };
    let u = c(k) - 1real;
    let v = s(k) - k;
    let kk = product(k, k);
    reals::lemma_square_of_opposite(k);
    reals::lemma_product(k, k, k);
    reals::lemma_square(k);
    assert(size(u) <= kk && size(v) <= kk) by {
        if m > 0real {
            lemma_gap(c, s, q, m);
            lemma_sum_of_angles(c, s, q, x, m);
            lemma_places(c, s, q, m);
            assert(k == m || k == 0real - m);
        }
    }
    // c(x + k) - c(x) + s(x) k = a u - b v
    reals::lemma_product(a, c(k), 1real);
    reals::lemma_product(b, s(k), k);
    reals::lemma_product(k, 0real, b);
    reals::lemma_product(0real - b, k, k);
    reals::lemma_product(b, k, k);
    assert(c(x + k) - a - product(0real - b, k) == product(a, u) - product(b, v));
    // both of size kk at most
    lemma_unit_share(a, b, u, kk);
    reals::lemma_product(b, b, a);
    reals::lemma_product(a, a, b);
    lemma_unit_share(b, a, v, kk);
}

/// A coordinate of a point of the unit circle times a number is no larger
/// than the number.
proof fn lemma_unit_share(a: real, b: real, u: real, m: real)
    requires
        product(a, a) + product(b, b) == 1real,
        size(u) <= m,
    ensures
        size(product(a, u)) <= m,
{
    reals::lemma_square(b);
    reals::lemma_square_of_opposite(a);
    let n = size(a);
    assert(product(n, n) <= 1real) by {
        assert(0real - a == -a);
    }
    if n > 1real {
        reals::lemma_product_order(n, 1real, n);
        reals::lemma_product(n, 1real, 1real);
    }
    limits::lemma_size_of_product(a, u);
    limits::lemma_size_of_product(u, a);
    reals::lemma_product_order(size(u), n, 1real);
    reals::lemma_product(size(u), 1real, 1real);
    reals::lemma_product(size(u), n, n);
}

/// A quarter turn, and the cosine and sine that it belongs to.
proof fn lemma_turns() -> (r: (spec_fn(real) -> real, real))
    requires
        reals::cosine_is_complete(),
    ensures
        turns(choose|c: spec_fn(real) -> real| reals::is_cosine(c), r.0, r.1),
        reals::ratio_pi() == r.1 + r.1,
        forall|x: real| #[trigger]
            cosine(x) == (choose|c: spec_fn(real) -> real| reals::is_cosine(c))(x),
{
    let c = choose|c: spec_fn(real) -> real| reals::is_cosine(c);
    let s = choose|s: spec_fn(real) -> real| reals::are_cosine_and_sine(c, s);
    let q = choose|x: real| reals::is_quarter_turn(x);
    assert(reals::is_quarter_turn(q));
    assert forall|y: real| 0real < y < q implies #[trigger] c(y) > 0real by {
        assert(cosine(y) > 0real);
    }
    (s, q)
}

/// At a half turn the cosine is -1.
pub proof fn lemma_cosine_of_half_turn()
    requires
        reals::cosine_is_complete(),
    ensures
        cosine(reals::ratio_pi()) == -1real,
{
    let c = choose|c: spec_fn(real) -> real| reals::is_cosine(c);
    let (s, q) = lemma_turns();
    lemma_sum_of_angles(c, s, q, q, q);
    lemma_places(c, s, q, q);
    reals::lemma_product(0real, 0real, 0real);
    reals::lemma_product(1real, 1real, 1real);
    assert(cosine(q + q) == c(q + q));
}

/// The slope of the cosine of a function is the cosine a quarter turn later.
pub proof fn lemma_slope_cosine(
    u: spec_fn(real) -> real,
    w: spec_fn(real) -> real,
    t: real,
    a: real,
)
    requires
        reals::cosine_is_complete(),
        has_slope(u, t, a),
        forall|x: real| #[trigger] w(x) == cosine(u(x)),
    ensures
        has_slope(w, t, product(cosine(u(t) + quotient(reals::ratio_pi(), 2real)), a)),
{
    let c = choose|c: spec_fn(real) -> real| reals::is_cosine(c);
    let (s, q) = lemma_turns();
    let x = u(t);
    // The cosine a quarter turn later is the opposite of the sine.
    let g = 0real - s(x);
    reals::lemma_product(q, 1real, 1real);
    assert(1real + 1real == 2real);
    reals::lemma_quotient_is(q + q, 2real, q);
    lemma_sum_of_angles(c, s, q, x, q);
    lemma_places(c, s, q, q);
    reals::lemma_product(c(x), 0real, 0real);
    reals::lemma_product(s(x), 1real, 1real);
    assert(cosine(x + q) == c(x + q));
    assert(cosine(x + quotient(reals::ratio_pi(), 2real)) == g);
    let f = difference_quotient(u, t);
    let k = |h: real| u(t + h) - u(t);
    limits::lemma_differences_vanish(u, k, t, a);
    let r = limits::lemma_stays(k, 0real, 1real);
    let error = |h: real| quotient(w(t + h) - w(t) - product(g, k(h)), h);
    assert forall|h: real| h != 0real && -r < h < r implies size(#[trigger] error(h)) <= size(
        quotient(product(k(h), k(h) + k(h)), h),
    ) by {
        assert(limits::near(k(h), 0real, 1real));
        lemma_tangent_gap(c, s, q, x, k(h));
        assert(w(t + h) == cosine(u(t + h)) && w(t) == cosine(x));
        assert(cosine(u(t + h)) == c(u(t + h)) && cosine(x) == c(x));
        assert(x + k(h) == u(t + h));
        calculus::lemma_quotient_sizes(
            w(t + h) - w(t) - product(g, k(h)),
            product(k(h), k(h) + k(h)),
            h,
        );
    }
    calculus::lemma_square_vanishes(k, f, error, a, r);
    let still = |h: real| g;
    limits::lemma_tends_constant(still, g);
    let first = |h: real| product(still(h), f(h));
    limits::lemma_tends_product(still, f, first, g, a);
    let all = |h: real| first(h) + error(h);
    limits::lemma_tends_sum(first, error, all, product(g, a), 0real);
    let d = difference_quotient(w, t);
    assert forall|h: real| h != 0real && -1real < h < 1real implies #[trigger] d(h) == all(h) by {
        let y = k(h);
        let z = w(t + h) - w(t);
        limits::lemma_quotient_of_sum(product(g, y), z - product(g, y), h);
        limits::lemma_quotient_of_multiple(g, y, h);
        assert(product(g, y) + (z - product(g, y)) == z);
    }
    limits::lemma_tends_same(all, d, product(g, a) + 0real, 1real);
    assert(product(g, a) + 0real == product(g, a));
}

} // verus!
