//! Numbers that move: functions of time as scalars, computed with moment by
//! moment.

use crate::calculus;
use crate::dual::Dual;
use crate::limits;
use crate::reals;
use crate::reals::Real;
use crate::related::Relation;
use crate::scalar::{Number, Scalar};
use crate::trigonometry;
use vstd::prelude::*;

verus! {

/// A number that moves.
#[derive(Clone, Copy)]
pub struct Path {
    pub course: Ghost<spec_fn(real) -> Real>,
}

impl Path {
    /// Where the number is at a time.
    pub open spec fn at(self, s: real) -> Real {
        (self.course@)(s)
    }

    /// The number that moves along a course.
    pub open spec fn of(course: spec_fn(real) -> Real) -> Path {
        Path { course: Ghost(course) }
    }

    /// The values that the number passes through.
    pub open spec fn curve(self) -> spec_fn(real) -> real {
        |s: real| self.at(s).val()
    }
}

impl Number for Path {
    open spec fn nought() -> Self {
        Path::of(|s: real| Real::nought())
    }

    open spec fn unit() -> Self {
        Path::of(|s: real| Real::unit())
    }

    open spec fn infimum() -> Self {
        Path::of(|s: real| Real::infimum())
    }

    open spec fn supremum() -> Self {
        Path::of(|s: real| Real::supremum())
    }

    open spec fn half_turn() -> Self {
        Path::of(|s: real| Real::half_turn())
    }

    open spec fn numeral(digits: u64, places: u32) -> Self {
        Path::of(|s: real| Real::numeral(digits, places))
    }

    open spec fn natural(n: usize) -> Self {
        Path::of(|s: real| Real::natural(n))
    }

    open spec fn plus(self, other: Self) -> Self {
        Path::of(|s: real| self.at(s).plus(other.at(s)))
    }

    open spec fn minus(self, other: Self) -> Self {
        Path::of(|s: real| self.at(s).minus(other.at(s)))
    }

    open spec fn times(self, other: Self) -> Self {
        Path::of(|s: real| self.at(s).times(other.at(s)))
    }

    open spec fn over(self, other: Self) -> Self {
        Path::of(|s: real| self.at(s).over(other.at(s)))
    }

    open spec fn opposite(self) -> Self {
        Path::of(|s: real| self.at(s).opposite())
    }

    open spec fn exp_of(self) -> Self {
        Path::of(|s: real| self.at(s).exp_of())
    }

    open spec fn ln_of(self) -> Self {
        Path::of(|s: real| self.at(s).ln_of())
    }

    open spec fn tanh_of(self) -> Self {
        Path::of(|s: real| self.at(s).tanh_of())
    }

    open spec fn cos_of(self) -> Self {
        Path::of(|s: real| self.at(s).cos_of())
    }

    open spec fn sqrt_of(self) -> Self {
        Path::of(|s: real| self.at(s).sqrt_of())
    }

    open spec fn power_of(self, exponent: Self) -> Self {
        Path::of(|s: real| self.at(s).power_of(exponent.at(s)))
    }

    /// No machine orders the real numbers, so that to be computed with they go
    /// without.
    open spec fn key(self) -> Option<real> {
        None
    }
}

impl Scalar for Path {
    fn zero() -> (r: Self) {
        Path { course: Ghost(Self::nought().course@) }
    }

    fn one() -> (r: Self) {
        Path { course: Ghost(Self::unit().course@) }
    }

    fn lowest() -> (r: Self) {
        Path { course: Ghost(Self::infimum().course@) }
    }

    fn highest() -> (r: Self) {
        Path { course: Ghost(Self::supremum().course@) }
    }

    fn pi() -> (r: Self) {
        Path { course: Ghost(Self::half_turn().course@) }
    }

    fn decimal(digits: u64, places: u32) -> (r: Self) {
        Path { course: Ghost(Self::numeral(digits, places).course@) }
    }

    fn from_count(n: usize) -> (r: Self) {
        Path { course: Ghost(Self::natural(n).course@) }
    }

    fn add(self, other: Self) -> (r: Self) {
        Path { course: Ghost(self.plus(other).course@) }
    }

    fn sub(self, other: Self) -> (r: Self) {
        Path { course: Ghost(self.minus(other).course@) }
    }

    fn mul(self, other: Self) -> (r: Self) {
        Path { course: Ghost(self.times(other).course@) }
    }

    fn div(self, other: Self) -> (r: Self) {
        Path { course: Ghost(self.over(other).course@) }
    }

    fn neg(self) -> (r: Self) {
        Path { course: Ghost(self.opposite().course@) }
    }

    fn exp(self) -> (r: Self) {
        Path { course: Ghost(self.exp_of().course@) }
    }

    fn ln(self) -> (r: Self) {
        Path { course: Ghost(self.ln_of().course@) }
    }

    fn tanh(self) -> (r: Self) {
        Path { course: Ghost(self.tanh_of().course@) }
    }

    fn cos(self) -> (r: Self) {
        Path { course: Ghost(self.cos_of().course@) }
    }

    fn sqrt(self) -> (r: Self) {
        Path { course: Ghost(self.sqrt_of().course@) }
    }

    fn powf(self, exponent: Self) -> (r: Self) {
        Path { course: Ghost(self.power_of(exponent).course@) }
    }

    fn order_key(self) -> (r: Option<i64>) {
        None
    }
}

/// Where numbers that move are at a time.
pub struct At {
    pub time: real,
}

impl Relation<Path, Real> for At {
    open spec fn valid(self) -> bool {
        true
    }

    open spec fn rel(self, a: Path, b: Real) -> bool {
        a.at(self.time) == b
    }

    open spec fn positive(self, a: Path, b: Real) -> bool {
        true
    }

    proof fn constants(self) {
    }

    proof fn keys(self, a: Path, b: Real) {
    }

    proof fn sums(self, a: Path, b: Real, c: Path, d: Real) {
    }

    proof fn products(self, a: Path, b: Real, c: Path, d: Real) {
    }

    proof fn quotients(self, a: Path, b: Real, c: Path, d: Real) {
    }

    proof fn exponentials(self, a: Path, b: Real) {
    }

    proof fn logarithms(self, a: Path, b: Real) {
    }

    proof fn tangents(self, a: Path, b: Real) {
    }
}

/// Whether a dual number tells where a number that moves is at a time, and
/// how fast it moves there: its rate is the limit of the difference quotients.
pub open spec fn tracks(a: Path, time: real, b: Dual<Real>) -> bool {
    &&& a.at(time) == b.re
    &&& limits::has_slope(a.curve(), time, b.du.val())
}

/// A number that does not move has the rate 0.
pub proof fn lemma_tracks_constant(a: Path, time: real, c: Real)
    requires
        forall|s: real| #[trigger] a.at(s) == c,
    ensures
        tracks(a, time, Dual { re: c, du: Real::nought() }),
{
    let u = a.curve();
    assert forall|s: real| #[trigger] u(s) == c.val() by {
        assert(a.at(s) == c);
    }
    limits::lemma_slope_constant(u, time, c.val());
}

/// The rates that dual numbers carry are derivatives: sums.
pub proof fn law_rate_of_a_sum_is_its_slope(
    a: Path,
    b: Dual<Real>,
    c: Path,
    d: Dual<Real>,
    time: real,
)
    requires
        tracks(a, time, b),
        tracks(c, time, d),
    ensures
        tracks(a.plus(c), time, b.plus(d)),
{
    limits::lemma_slope_sum(
        a.curve(),
        c.curve(),
        a.plus(c).curve(),
        time,
        b.du.val(),
        d.du.val(),
    );
}

/// The rates that dual numbers carry are derivatives: opposites.
pub proof fn law_rate_of_an_opposite_is_its_slope(a: Path, b: Dual<Real>, time: real)
    requires
        tracks(a, time, b),
    ensures
        tracks(a.opposite(), time, b.opposite()),
{
    let minus_one = |s: real| 0real - 1real;
    let u = a.curve();
    let w = a.opposite().curve();
    limits::lemma_slope_constant(minus_one, time, 0real - 1real);
    assert forall|s: real| #[trigger] w(s) == reals::product(minus_one(s), u(s)) by {
        let x = u(s);
        reals::lemma_product(x, 0real, 1real);
        reals::lemma_product(0real - 1real, x, x);
    }
    limits::lemma_slope_product(minus_one, u, w, time, 0real, b.du.val());
    reals::lemma_product(b.du.val(), 0real, 1real);
    reals::lemma_product(0real - 1real, b.du.val(), 1real);
    reals::lemma_product(u(time), 0real, 0real);
    reals::lemma_product(0real, u(time), u(time));
    assert(reals::product(minus_one(time), b.du.val()) + reals::product(0real, u(time))
        == b.opposite().du.val());
}

/// The rates that dual numbers carry are derivatives: differences.
pub proof fn law_rate_of_a_difference_is_its_slope(
    a: Path,
    b: Dual<Real>,
    c: Path,
    d: Dual<Real>,
    time: real,
)
    requires
        tracks(a, time, b),
        tracks(c, time, d),
    ensures
        tracks(a.minus(c), time, b.minus(d)),
{
    law_rate_of_an_opposite_is_its_slope(c, d, time);
    law_rate_of_a_sum_is_its_slope(a, b, c.opposite(), d.opposite(), time);
    let u = a.plus(c.opposite()).curve();
    let w = a.minus(c).curve();
    assert forall|s: real| #[trigger] w(s) == u(s) by {}
    limits::lemma_slope_same(u, w, time, b.du.val() + (-d.du.val()));
    assert(b.du.val() + (-d.du.val()) == b.minus(d).du.val());
}

/// The rates that dual numbers carry are derivatives: products.
pub proof fn law_rate_of_a_product_is_its_slope(
    a: Path,
    b: Dual<Real>,
    c: Path,
    d: Dual<Real>,
    time: real,
)
    requires
        tracks(a, time, b),
        tracks(c, time, d),
    ensures
        tracks(a.times(c), time, b.times(d)),
{
    limits::lemma_slope_product(
        a.curve(),
        c.curve(),
        a.times(c).curve(),
        time,
        b.du.val(),
        d.du.val(),
    );
}

/// The rates that dual numbers carry are derivatives: quotients with a
/// positive divisor.
pub proof fn law_rate_of_a_quotient_is_its_slope(
    a: Path,
    b: Dual<Real>,
    c: Path,
    d: Dual<Real>,
    time: real,
)
    requires
        tracks(a, time, b),
        tracks(c, time, d),
        d.re.val() > 0real,
    ensures
        tracks(a.over(c), time, b.over(d)),
{
    limits::lemma_slope_quotient(
        a.curve(),
        c.curve(),
        a.over(c).curve(),
        time,
        b.du.val(),
        d.du.val(),
    );
}

/// The rates that dual numbers carry are derivatives: exponentials.
pub proof fn law_rate_of_an_exponential_is_its_slope(a: Path, b: Dual<Real>, time: real)
    requires
        reals::exponential_is_complete(),
        tracks(a, time, b),
    ensures
        tracks(a.exp_of(), time, b.exp_of()),
{
    calculus::lemma_slope_exponential(a.curve(), a.exp_of().curve(), time, b.du.val());
}

/// The rates that dual numbers carry are derivatives: logarithms of positive
/// numbers.
pub proof fn law_rate_of_a_logarithm_is_its_slope(a: Path, b: Dual<Real>, time: real)
    requires
        reals::exponential_is_complete(),
        tracks(a, time, b),
        b.re.val() > 0real,
    ensures
        tracks(a.ln_of(), time, b.ln_of()),
{
    calculus::lemma_slope_logarithm(a.curve(), a.ln_of().curve(), time, b.du.val());
}

/// The rates that dual numbers carry are derivatives: hyperbolic tangents.
pub proof fn law_rate_of_a_tangent_is_its_slope(a: Path, b: Dual<Real>, time: real)
    requires
        reals::exponential_is_complete(),
        tracks(a, time, b),
    ensures
        tracks(a.tanh_of(), time, b.tanh_of()),
{
    calculus::lemma_slope_tangent(a.curve(), a.tanh_of().curve(), time, b.du.val());
}

/// The rates that dual numbers carry are derivatives: square roots of positive
/// numbers.
pub proof fn law_rate_of_a_root_is_its_slope(a: Path, b: Dual<Real>, time: real)
    requires
        reals::exponential_is_complete(),
        tracks(a, time, b),
        b.re.val() > 0real,
    ensures
        tracks(a.sqrt_of(), time, b.sqrt_of()),
{
    calculus::lemma_slope_root(a.curve(), a.sqrt_of().curve(), time, b.du.val());
}

/// The rates that dual numbers carry are derivatives: powers with a positive
/// base.
pub proof fn law_rate_of_a_power_is_its_slope(
    a: Path,
    b: Dual<Real>,
    c: Path,
    d: Dual<Real>,
    time: real,
)
    requires
        reals::exponential_is_complete(),
        tracks(a, time, b),
        tracks(c, time, d),
        b.re.val() > 0real,
    ensures
        tracks(a.power_of(c), time, b.power_of(d)),
{
    calculus::lemma_slope_power(
        a.curve(),
        c.curve(),
        a.power_of(c).curve(),
        time,
        b.du.val(),
        d.du.val(),
    );
}

/// The rates that dual numbers carry are derivatives: cosines.
pub proof fn law_rate_of_a_cosine_is_its_slope(a: Path, b: Dual<Real>, time: real)
    requires
        reals::cosine_is_complete(),
        tracks(a, time, b),
    ensures
        tracks(a.cos_of(), time, b.cos_of()),
{
    trigonometry::lemma_slope_cosine(a.curve(), a.cos_of().curve(), time, b.du.val());
    reals::lemma_product(2real, 1real, 1real);
    reals::lemma_product(1real, 2real, 2real);
    reals::lemma_quotient_is(2real, 1real, 2real);
    assert(Real::numeral(2, 0).val() == 2real);
}

/// Numbers that move, and the dual numbers that track them at a time.
pub struct Followed {
    pub time: real,
}

impl Relation<Path, Dual<Real>> for Followed {
    open spec fn valid(self) -> bool {
        reals::exponential_is_complete()
    }

    open spec fn rel(self, a: Path, b: Dual<Real>) -> bool {
        tracks(a, self.time, b)
    }

    open spec fn positive(self, a: Path, b: Dual<Real>) -> bool {
        b.re.val() > 0real
    }

    proof fn constants(self) {
        lemma_tracks_constant(Path::nought(), self.time, Real::nought());
        lemma_tracks_constant(Path::unit(), self.time, Real::unit());
        lemma_tracks_constant(Path::infimum(), self.time, Real::infimum());
    }

    proof fn keys(self, a: Path, b: Dual<Real>) {
    }

    proof fn sums(self, a: Path, b: Dual<Real>, c: Path, d: Dual<Real>) {
        law_rate_of_a_sum_is_its_slope(a, b, c, d, self.time);
        law_rate_of_a_difference_is_its_slope(a, b, c, d, self.time);
        law_rate_of_an_opposite_is_its_slope(a, b, self.time);
    }

    proof fn products(self, a: Path, b: Dual<Real>, c: Path, d: Dual<Real>) {
        law_rate_of_a_product_is_its_slope(a, b, c, d, self.time);
    }

    proof fn quotients(self, a: Path, b: Dual<Real>, c: Path, d: Dual<Real>) {
        law_rate_of_a_quotient_is_its_slope(a, b, c, d, self.time);
        let x = b.re.val();
        let y = d.re.val();
        reals::lemma_quotient(x, y);
        reals::lemma_product_sign(reals::quotient(x, y), y);
    }

    proof fn exponentials(self, a: Path, b: Dual<Real>) {
        law_rate_of_an_exponential_is_its_slope(a, b, self.time);
        reals::lemma_exponential(b.re.val(), 0real);
    }

    proof fn logarithms(self, a: Path, b: Dual<Real>) {
        law_rate_of_a_logarithm_is_its_slope(a, b, self.time);
    }

    proof fn tangents(self, a: Path, b: Dual<Real>) {
        law_rate_of_a_tangent_is_its_slope(a, b, self.time);
    }
}

} // verus!
