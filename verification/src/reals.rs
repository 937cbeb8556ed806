//! The real numbers as scalars.
//!
//! They are what rounded arithmetic approximates: a model that computes with
//! them has the properties that one with floating-point numbers has up to
//! rounding. Their values exist in specifications only.

use crate::scalar::{Number, Scalar};
use vstd::prelude::*;

verus! {

/// The product of two numbers.
#[verifier::opaque]
pub open spec fn product(x: real, y: real) -> real {
    x * y
}

/// The quotient of two numbers.
#[verifier::opaque]
pub open spec fn quotient(x: real, y: real) -> real {
    x / y
}

/// Whether `f` is the exponential function: it turns sums into products and
/// nowhere falls below its tangent at 0.
pub open spec fn is_exponential(f: spec_fn(real) -> real) -> bool {
    &&& forall|x: real, y: real| #[trigger] f(x + y) == product(f(x), f(y))
    &&& forall|x: real| #[trigger] f(x) >= 1real + x
    &&& forall|x: real| #[trigger] f(x) > 0real
}

/// The exponential function. (Were there none, it would be 1 everywhere, which
/// keeps what is shown of it free of conditions.)
pub open spec fn exponential(x: real) -> real {
    if exists|f: spec_fn(real) -> real| is_exponential(f) {
        (choose|f: spec_fn(real) -> real| is_exponential(f))(x)
    } else {
        1real
    }
}

/// The natural logarithm: where the exponential function takes the value `x`.
pub open spec fn logarithm(x: real) -> real {
    choose|y: real| exponential(y) == x
}

/// Whether a number has a logarithm, as every positive number does.
pub open spec fn has_logarithm(x: real) -> bool {
    exists|y: real| #[trigger] exponential(y) == x
}

/// Whether there is an exponential function and every positive number is one
/// of its values. It is so; to show it takes the completeness of the real
/// numbers, which proofs here do not have.
pub open spec fn exponential_is_complete() -> bool {
    &&& exists|f: spec_fn(real) -> real| is_exponential(f)
    &&& forall|x: real| x > 0real ==> #[trigger] has_logarithm(x)
}

/// The hyperbolic tangent.
pub open spec fn hyperbolic_tangent(x: real) -> real {
    quotient(exponential(x + x) - 1real, exponential(x + x) + 1real)
}

/// A number times itself.
pub open spec fn square(x: real) -> real {
    product(x, x)
}

/// The square root.
pub open spec fn square_root(x: real) -> real {
    choose|y: real| y >= 0real && #[trigger] square(y) == x
}

/// Whether `c` and `s` are cosine and sine: they obey the law of differences,
/// and near 0 the cosine is positive and the sine lies between its tangent
/// and the secant below.
pub open spec fn are_cosine_and_sine(c: spec_fn(real) -> real, s: spec_fn(real) -> real) -> bool {
    &&& forall|x: real, y: real| #[trigger] c(x - y) == product(c(x), c(y)) + product(s(x), s(y))
    &&& forall|x: real|
        0real < x < 1real ==> c(x) > 0real && product(x, c(x)) <= #[trigger] s(x) <= x
}

/// Whether `c` is the cosine.
pub open spec fn is_cosine(c: spec_fn(real) -> real) -> bool {
    exists|s: spec_fn(real) -> real| are_cosine_and_sine(c, s)
}

/// The cosine. (Were there none, it would be 1 everywhere, as above.)
pub open spec fn cosine(x: real) -> real {
    if exists|c: spec_fn(real) -> real| is_cosine(c) {
        (choose|c: spec_fn(real) -> real| is_cosine(c))(x)
    } else {
        1real
    }
}

/// Whether `x` is the first positive place where the cosine is 0.
pub open spec fn is_quarter_turn(x: real) -> bool {
    &&& x > 0real
    &&& cosine(x) == 0real
    &&& forall|y: real| 0real < y < x ==> #[trigger] cosine(y) > 0real
}

/// Whether there is a cosine and it comes to 0. It is so; to show it takes the
/// completeness of the real numbers, which proofs here do not have.
pub open spec fn cosine_is_complete() -> bool {
    &&& exists|c: spec_fn(real) -> real| is_cosine(c)
    &&& exists|x: real| is_quarter_turn(x)
}

/// The number pi: two quarters of a turn.
pub open spec fn ratio_pi() -> real {
    2real * (choose|x: real| is_quarter_turn(x))
}

/// Ten to the power of `n`.
pub open spec fn ten_to(n: nat) -> real
    decreases n,
{
    if n == 0 {
        1real
    } else {
        10real * ten_to((n - 1) as nat)
    }
}

/// A real number.
#[derive(Clone, Copy)]
pub struct Real {
    pub value: Ghost<real>,
}

impl Real {
    /// The value of the number.
    pub open spec fn val(self) -> real {
        self.value@
    }

    /// The number with a given value.
    pub open spec fn of(x: real) -> Real {
        Real { value: Ghost(x) }
    }
}

/// Products commute, associate and distribute.
pub proof fn lemma_product(a: real, b: real, c: real)
    ensures
        product(a, b) == product(b, a),
        product(product(a, b), c) == product(a, product(b, c)),
        product(a, b + c) == product(a, b) + product(a, c),
        product(a, b - c) == product(a, b) - product(a, c),
        product(a, 0real) == 0real,
        product(a, 1real) == a,
{
    reveal(product);
    assert(a * b == b * a) by (nonlinear_arith);
    assert((a * b) * c == a * (b * c)) by (nonlinear_arith);
    assert(a * (b + c) == a * b + a * c) by (nonlinear_arith);
    assert(a * (b - c) == a * b - a * c) by (nonlinear_arith);
    assert(a * 0real == 0real) by (nonlinear_arith);
    assert(a * 1real == a) by (nonlinear_arith);
}

/// A product of positive numbers is positive, and only numbers of one sign
/// have one that is.
pub proof fn lemma_product_sign(a: real, b: real)
    requires
        b > 0real,
    ensures
        product(a, b) > 0real <==> a > 0real,
{
    reveal(product);
    let p = a * b;
    if a > 0real {
        assert(a * b > 0real) by (nonlinear_arith)
            requires
                a > 0real,
                b > 0real,
        ;
    } else {
        assert(a * b <= 0real) by (nonlinear_arith)
            requires
                a <= 0real,
                b > 0real,
        ;
    }
}

/// A product of numbers that are not negative is not negative.
pub proof fn lemma_product_nonnegative(a: real, b: real)
    requires
        a >= 0real,
        b >= 0real,
    ensures
        product(a, b) >= 0real,
{
    if a > 0real && b > 0real {
        lemma_product_sign(a, b);
    } else if b == 0real {
        lemma_product(a, b, b);
    } else {
        lemma_product(b, a, a);
        lemma_product(a, b, b);
    }
}

/// A square is not negative.
pub proof fn lemma_square(a: real)
    ensures
        product(a, a) >= 0real,
{
    if a >= 0real {
        lemma_product_nonnegative(a, a);
    } else {
        lemma_product_nonnegative(0real - a, 0real - a);
        lemma_square_of_opposite(a);
    }
}

/// A number and its opposite have the same square.
pub proof fn lemma_square_of_opposite(a: real)
    ensures
        product(0real - a, 0real - a) == product(a, a),
{
    let b = 0real - a;
    lemma_product(b, 0real, a);
    lemma_product(a, 0real, a);
    lemma_product(b, a, a);
}

/// The square of a product is the product of the squares.
proof fn lemma_square_of_product(u: real, v: real)
    ensures
        product(product(u, v), product(u, v)) == product(product(u, u), product(v, v)),
{
    let w = product(u, v);
    lemma_product(u, v, w);
    lemma_product(v, u, u);
    lemma_product(v, v, u);
    lemma_product(product(v, v), u, u);
    lemma_product(u, u, product(v, v));
}

/// Positive numbers with the same square are the same.
pub proof fn lemma_same_square(x: real, y: real)
    requires
        x > 0real,
        y > 0real,
        product(x, x) == product(y, y),
    ensures
        x == y,
{
    // (x - y) * (x + y) = 0
    let sum = x + y;
    lemma_product(sum, x, y);
    lemma_product(x, x, y);
    lemma_product(y, x, y);
    lemma_product(x, sum, sum);
    lemma_product(y, sum, sum);
    lemma_product(sum, x - y, x - y);
    lemma_product(sum, y, x);
    lemma_product(sum, y - x, y - x);
    lemma_product_sign(x - y, sum);
    lemma_product_sign(y - x, sum);
}

/// A product with a number that is not negative keeps the order.
pub proof fn lemma_product_order(a: real, b: real, c: real)
    requires
        a >= 0real,
        b <= c,
    ensures
        product(a, b) <= product(a, c),
{
    lemma_product_nonnegative(a, c - b);
    lemma_product(a, c, b);
}

/// A quotient times the divisor is the dividend.
pub proof fn lemma_quotient(a: real, b: real)
    requires
        b != 0real,
    ensures
        product(quotient(a, b), b) == a,
{
    reveal(product);
    reveal(quotient);
    assert((a / b) * b == a) by (nonlinear_arith)
        requires
            b != 0real,
    ;
}

/// What gives the dividend when multiplied with the divisor is the quotient.
pub proof fn lemma_quotient_is(a: real, b: real, q: real)
    requires
        b != 0real,
        product(q, b) == a,
    ensures
        quotient(a, b) == q,
{
    lemma_quotient(a, b);
    let r = quotient(a, b);
    let n = if b > 0real {
        b
    } else {
        0real - b
    };
    // (r - q) * n = 0
    lemma_product(b, r, q);
    lemma_product(b, q, r);
    lemma_product(r, b, b);
    lemma_product(q, b, b);
    lemma_product(b, r - q, r - q);
    lemma_product(b, q - r, q - r);
    lemma_product(r - q, 0real, b);
    lemma_product(q - r, 0real, b);
    lemma_product_sign(r - q, n);
    lemma_product_sign(q - r, n);
}

/// The exponential function is positive and turns sums into products.
pub proof fn lemma_exponential(x: real, y: real)
    ensures
        exponential(x) > 0real,
        exponential(x + y) == product(exponential(x), exponential(y)),
        exponential(0real) == 1real,
{
    if exists|f: spec_fn(real) -> real| is_exponential(f) {
        let f = choose|f: spec_fn(real) -> real| is_exponential(f);
        assert(f(x) > 0real);
        assert(f(x + y) == product(f(x), f(y)));
        assert(f(0real + 0real) == product(f(0real), f(0real)));
        assert(f(0real) > 0real);
        let e = f(0real);
        // e * (e - 1) = 0
        lemma_product(e, e, 1real);
        lemma_product(e, e - 1real, 1real);
        lemma_product(e, 1real, e);
        lemma_product(e, 1real - e, 1real);
        lemma_product_sign(e - 1real, e);
        lemma_product_sign(1real - e, e);
    } else {
        lemma_product(1real, 1real, 1real);
    }
}

/// The exponential function nowhere falls below its tangent at 0.
pub proof fn lemma_exponential_tangent(x: real)
    requires
        exponential_is_complete(),
    ensures
        exponential(x) >= 1real + x,
{
    let f = choose|f: spec_fn(real) -> real| is_exponential(f);
    assert(f(x) >= 1real + x);
}

/// The exponential of a positive number is greater than 1.
proof fn lemma_exponential_grows(d: real)
    requires
        d > 0real,
        exists|f: spec_fn(real) -> real| is_exponential(f),
    ensures
        exponential(d) > 1real,
{
    let f = choose|f: spec_fn(real) -> real| is_exponential(f);
    assert(f(d) >= 1real + d);
}

/// Different numbers have different exponentials.
pub proof fn lemma_same_exponential(y: real, z: real)
    requires
        exponential(y) == exponential(z),
    ensures
        y == z || forall|x: real| #[trigger] exponential(x) == 1real,
{
    if exists|f: spec_fn(real) -> real| is_exponential(f) {
        if y != z {
            let (a, d) = if y < z {
                (y, z - y)
            } else {
                (z, y - z)
            };
            lemma_exponential_grows(d);
            lemma_exponential(a, d);
            let e = exponential(a);
            // e * exp(d) = e, though e > 0 and exp(d) > 1
            assert(a + d == y || a + d == z);
            lemma_product_sign(exponential(d) - 1real, e);
            lemma_product(e, exponential(d), 1real);
            lemma_product(e, exponential(d) - 1real, 1real);
        }
    }
}

/// The exponential of a greater number is no smaller.
pub proof fn lemma_exponential_order(y: real, z: real)
    requires
        y <= z,
    ensures
        exponential(y) <= exponential(z),
{
    if (exists|f: spec_fn(real) -> real| is_exponential(f)) && y < z {
        let d = z - y;
        lemma_exponential_grows(d);
        lemma_exponential(y, d);
        assert(y + d == z);
        let e = exponential(y);
        lemma_product_order(e, 1real, exponential(d));
        lemma_product(e, 1real, 1real);
    }
}

/// Two points of a circle around 0 that lie on one line through 0, on the
/// same side, are the same.
proof fn lemma_one_point(c1: real, s1: real, c2: real, s2: real, a: real, b: real)
    requires
        a != 0real,
        s1 > 0real,
        s2 > 0real,
        product(c1, a) == product(s1, b),
        product(c2, a) == product(s2, b),
        product(c1, c1) + product(s1, s1) == product(c2, c2) + product(s2, s2),
    ensures
        s1 == s2,
{
    let p = product(a, a);
    let q = product(b, b);
    let y1 = product(s1, s1);
    let y2 = product(s2, s2);
    assert(p > 0real) by {
        if a > 0real {
            lemma_product_sign(a, a);
        } else {
            lemma_product_sign(0real - a, 0real - a);
            lemma_square_of_opposite(a);
        }
    }
    lemma_square(b);
    lemma_scaled_circle(c1, s1, a, b);
    lemma_scaled_circle(c2, s2, a, b);
    let t = product(y1, p + q);
    lemma_quotient_is(t, p + q, y1);
    lemma_quotient_is(t, p + q, y2);
    lemma_same_square(s1, s2);
}

/// Where a point lies on a line through 0, its distance from 0 follows from
/// one coordinate.
proof fn lemma_scaled_circle(c: real, s: real, a: real, b: real)
    requires
        product(c, a) == product(s, b),
    ensures
        product(product(c, c) + product(s, s), product(a, a)) == product(
            product(s, s),
            product(a, a) + product(b, b),
        ),
{
    let p = product(a, a);
    let q = product(b, b);
    let x = product(c, c);
    let y = product(s, s);
    lemma_square_of_product(c, a);
    lemma_square_of_product(s, b);
    assert(product(x, p) == product(y, q));
    lemma_product(p, x, y);
    lemma_product(x, p, p);
    lemma_product(y, p, q);
    lemma_product(p, x + y, x + y);
}

/// The cosine is 1 at 0.
pub proof fn lemma_cosine_starts_at_one(c: spec_fn(real) -> real, s: spec_fn(real) -> real)
    requires
        are_cosine_and_sine(c, s),
    ensures
        c(0real) == 1real,
{
    let h = 1real / 2real;
    assert(s(h) <= h);
    assert(c(h) > 0real && product(h, c(h)) <= s(h));
    lemma_product_sign(c(h), h);
    lemma_product(h, c(h), h);
    assert(s(h) > 0real);
    let w = s(h) / 2real;
    assert(0real < w < 1real);
    assert(s(w) <= w);
    assert(c(w) > 0real && product(w, c(w)) <= s(w));
    lemma_product_sign(c(w), w);
    lemma_product(w, c(w), w);
    assert(s(w) > 0real);
    let a = 1real - c(0real);
    let b = s(0real);
    assert(c(h - 0real) == product(c(h), c(0real)) + product(s(h), b));
    assert(c(w - 0real) == product(c(w), c(0real)) + product(s(w), b));
    lemma_product(c(h), 1real, c(0real));
    lemma_product(c(w), 1real, c(0real));
    assert(c(h - h) == product(c(h), c(h)) + product(s(h), s(h)));
    assert(c(w - w) == product(c(w), c(w)) + product(s(w), s(w)));
    if a != 0real {
        lemma_one_point(c(h), s(h), c(w), s(w), a, b);
    }
}

/// The cosine is 1 at 0 and lies between -1 and 1 everywhere.
pub proof fn lemma_cosine(x: real)
    ensures
        cosine(0real) == 1real,
        -1real <= cosine(x) <= 1real,
{
    if exists|c: spec_fn(real) -> real| is_cosine(c) {
        let c = choose|c: spec_fn(real) -> real| is_cosine(c);
        let s = choose|s: spec_fn(real) -> real| are_cosine_and_sine(c, s);
        lemma_cosine_starts_at_one(c, s);
        assert(c(x - x) == product(c(x), c(x)) + product(s(x), s(x)));
        lemma_square(s(x));
        let y = c(x);
        let z = 0real - y;
        lemma_square_of_opposite(y);
        if y > 1real {
            lemma_product_order(y, 1real, y);
            lemma_product(y, 1real, 1real);
        }
        if z > 1real {
            lemma_product_order(z, 1real, z);
            lemma_product(z, 1real, 1real);
        }
    }
}

/// Numbers with the same value are the same.
pub proof fn lemma_same_value(a: Real, b: Real)
    requires
        a.val() == b.val(),
    ensures
        a == b,
{
}

impl Number for Real {
    open spec fn nought() -> Self {
        Real::of(0real)
    }

    open spec fn unit() -> Self {
        Real::of(1real)
    }

    open spec fn infimum() -> Self {
        Real::of(0real)
    }

    open spec fn supremum() -> Self {
        Real::of(0real)
    }

    open spec fn half_turn() -> Self {
        Real::of(ratio_pi())
    }

    open spec fn numeral(digits: u64, places: u32) -> Self {
        Real::of(quotient(digits as real, ten_to(places as nat)))
    }

    open spec fn natural(n: usize) -> Self {
        Real::of(n as real)
    }

    open spec fn plus(self, other: Self) -> Self {
        Real::of(self.val() + other.val())
    }

    open spec fn minus(self, other: Self) -> Self {
        Real::of(self.val() - other.val())
    }

    open spec fn times(self, other: Self) -> Self {
        Real::of(product(self.val(), other.val()))
    }

    open spec fn over(self, other: Self) -> Self {
        Real::of(quotient(self.val(), other.val()))
    }

    open spec fn opposite(self) -> Self {
        Real::of(-self.val())
    }

    open spec fn exp_of(self) -> Self {
        Real::of(exponential(self.val()))
    }

    open spec fn ln_of(self) -> Self {
        Real::of(logarithm(self.val()))
    }

    open spec fn tanh_of(self) -> Self {
        Real::of(hyperbolic_tangent(self.val()))
    }

    open spec fn cos_of(self) -> Self {
        Real::of(cosine(self.val()))
    }

    open spec fn sqrt_of(self) -> Self {
        Real::of(square_root(self.val()))
    }

    open spec fn power_of(self, exponent: Self) -> Self {
        Real::of(exponential(product(exponent.val(), logarithm(self.val()))))
    }

    /// No machine orders the real numbers, so that to be computed with they go
    /// without.
    open spec fn key(self) -> Option<real> {
        None
    }
}

impl Scalar for Real {
    fn zero() -> (r: Self) {
        Real { value: Ghost(0real) }
    }

    fn one() -> (r: Self) {
        Real { value: Ghost(1real) }
    }

    fn lowest() -> (r: Self) {
        Real { value: Ghost(0real) }
    }

    fn highest() -> (r: Self) {
        Real { value: Ghost(0real) }
    }

    fn pi() -> (r: Self) {
        Real { value: Ghost(ratio_pi()) }
    }

    fn decimal(digits: u64, places: u32) -> (r: Self) {
        Real { value: Ghost(quotient(digits as real, ten_to(places as nat))) }
    }

    fn from_count(n: usize) -> (r: Self) {
        Real { value: Ghost(n as real) }
    }

    fn add(self, other: Self) -> (r: Self) {
        Real { value: Ghost(self.val() + other.val()) }
    }

    fn sub(self, other: Self) -> (r: Self) {
        Real { value: Ghost(self.val() - other.val()) }
    }

    fn mul(self, other: Self) -> (r: Self) {
        Real { value: Ghost(product(self.val(), other.val())) }
    }

    fn div(self, other: Self) -> (r: Self) {
        Real { value: Ghost(quotient(self.val(), other.val())) }
    }

    fn neg(self) -> (r: Self) {
        Real { value: Ghost(-self.val()) }
    }

    fn exp(self) -> (r: Self) {
        Real { value: Ghost(exponential(self.val())) }
    }

    fn ln(self) -> (r: Self) {
        Real { value: Ghost(logarithm(self.val())) }
    }

    fn tanh(self) -> (r: Self) {
        Real { value: Ghost(hyperbolic_tangent(self.val())) }
    }

    fn cos(self) -> (r: Self) {
        Real { value: Ghost(cosine(self.val())) }
    }

    fn sqrt(self) -> (r: Self) {
        Real { value: Ghost(square_root(self.val())) }
    }

    fn powf(self, exponent: Self) -> (r: Self) {
        Real { value: Ghost(exponential(product(exponent.val(), logarithm(self.val())))) }
    }

    fn order_key(self) -> (r: Option<i64>) {
        None
    }
}

} // verus!
