//! Dual numbers: numbers that carry along how fast they change.
//!
//! A computation done with them yields, beside its value, the derivative of
//! that value in the direction in which its inputs change. They are what the
//! gradients of the models are held against.

use crate::scalar::{Number, Scalar};
use vstd::prelude::*;

verus! {

/// A number and the rate at which it changes.
#[derive(Clone, Copy)]
pub struct Dual<S> {
    pub re: S,
    pub du: S,
}

impl<S: Number> Number for Dual<S> {
    open spec fn nought() -> Self {
        Dual { re: S::nought(), du: S::nought() }
    }

    open spec fn unit() -> Self {
        Dual { re: S::unit(), du: S::nought() }
    }

    open spec fn infimum() -> Self {
        Dual { re: S::infimum(), du: S::nought() }
    }

    open spec fn supremum() -> Self {
        Dual { re: S::supremum(), du: S::nought() }
    }

    open spec fn half_turn() -> Self {
        Dual { re: S::half_turn(), du: S::nought() }
    }

    open spec fn numeral(digits: u64, places: u32) -> Self {
        Dual { re: S::numeral(digits, places), du: S::nought() }
    }

    open spec fn natural(n: usize) -> Self {
        Dual { re: S::natural(n), du: S::nought() }
    }

    open spec fn plus(self, other: Self) -> Self {
        Dual { re: self.re.plus(other.re), du: self.du.plus(other.du) }
    }

    open spec fn minus(self, other: Self) -> Self {
        Dual { re: self.re.minus(other.re), du: self.du.minus(other.du) }
    }

    open spec fn times(self, other: Self) -> Self {
        Dual {
            re: self.re.times(other.re),
            du: self.re.times(other.du).plus(self.du.times(other.re)),
        }
    }

    open spec fn over(self, other: Self) -> Self {
        let quotient = self.re.over(other.re);
        Dual { re: quotient, du: self.du.minus(quotient.times(other.du)).over(other.re) }
    }

    open spec fn opposite(self) -> Self {
        Dual { re: self.re.opposite(), du: self.du.opposite() }
    }

    open spec fn exp_of(self) -> Self {
        Dual { re: self.re.exp_of(), du: self.re.exp_of().times(self.du) }
    }

    open spec fn ln_of(self) -> Self {
        Dual { re: self.re.ln_of(), du: self.du.over(self.re) }
    }

    open spec fn tanh_of(self) -> Self {
        let t = self.re.tanh_of();
        Dual { re: t, du: S::unit().minus(t.times(t)).times(self.du) }
    }

    open spec fn cos_of(self) -> Self {
        let quarter = S::half_turn().over(S::numeral(2, 0));
        Dual { re: self.re.cos_of(), du: self.re.plus(quarter).cos_of().times(self.du) }
    }

    open spec fn sqrt_of(self) -> Self {
        let root = self.re.sqrt_of();
        Dual { re: root, du: self.du.over(root.plus(root)) }
    }

    open spec fn power_of(self, exponent: Self) -> Self {
        let power = self.re.power_of(exponent.re);
        let slope = exponent.re.times(self.re.power_of(exponent.re.minus(S::unit())));
        Dual {
            re: power,
            du: slope.times(self.du).plus(power.times(self.re.ln_of()).times(exponent.du)),
        }
    }

    open spec fn key(self) -> Option<real> {
        self.re.key()
    }
}

impl<S: Scalar> Scalar for Dual<S> {
    fn zero() -> (r: Self) {
        Dual { re: S::zero(), du: S::zero() }
    }

    fn one() -> (r: Self) {
        Dual { re: S::one(), du: S::zero() }
    }

    fn lowest() -> (r: Self) {
        Dual { re: S::lowest(), du: S::zero() }
    }

    fn highest() -> (r: Self) {
        Dual { re: S::highest(), du: S::zero() }
    }

    fn pi() -> (r: Self) {
        Dual { re: S::pi(), du: S::zero() }
    }

    fn decimal(digits: u64, places: u32) -> (r: Self) {
        Dual { re: S::decimal(digits, places), du: S::zero() }
    }

    fn from_count(n: usize) -> (r: Self) {
        Dual { re: S::from_count(n), du: S::zero() }
    }

    fn add(self, other: Self) -> (r: Self) {
        Dual { re: self.re.add(other.re), du: self.du.add(other.du) }
    }

    fn sub(self, other: Self) -> (r: Self) {
        Dual { re: self.re.sub(other.re), du: self.du.sub(other.du) }
    }

    fn mul(self, other: Self) -> (r: Self) {
        Dual {
            re: self.re.mul(other.re),
            du: self.re.mul(other.du).add(self.du.mul(other.re)),
        }
    }

    fn div(self, other: Self) -> (r: Self) {
        let quotient = self.re.div(other.re);
        Dual { re: quotient, du: self.du.sub(quotient.mul(other.du)).div(other.re) }
    }

    fn neg(self) -> (r: Self) {
        Dual { re: self.re.neg(), du: self.du.neg() }
    }

    fn exp(self) -> (r: Self) {
        let e = self.re.exp();
        Dual { re: e, du: e.mul(self.du) }
    }

    fn ln(self) -> (r: Self) {
        Dual { re: self.re.ln(), du: self.du.div(self.re) }
    }

    fn tanh(self) -> (r: Self) {
        let t = self.re.tanh();
        Dual { re: t, du: S::one().sub(t.mul(t)).mul(self.du) }
    }

    fn cos(self) -> (r: Self) {
        let quarter = S::pi().div(S::decimal(2, 0));
        Dual { re: self.re.cos(), du: self.re.add(quarter).cos().mul(self.du) }
    }

    fn sqrt(self) -> (r: Self) {
        let root = self.re.sqrt();
        Dual { re: root, du: self.du.div(root.add(root)) }
    }

    fn powf(self, exponent: Self) -> (r: Self) {
        let power = self.re.powf(exponent.re);
        let slope = exponent.re.mul(self.re.powf(exponent.re.sub(S::one())));
        Dual {
            re: power,
            du: slope.mul(self.du).add(power.mul(self.re.ln()).mul(exponent.du)),
        }
    }

    fn order_key(self) -> (r: Option<i64>) {
        self.re.order_key()
    }
}

/// The values of a list of dual numbers.
pub open spec fn values<S>(xs: Seq<Dual<S>>) -> Seq<S> {
    Seq::new(xs.len(), |i: int| xs[i].re)
}

/// The rates of a list of dual numbers.
pub open spec fn rates<S>(xs: Seq<Dual<S>>) -> Seq<S> {
    Seq::new(xs.len(), |i: int| xs[i].du)
}

/// The rules that dual numbers follow, whatever the numbers are that they are
/// made of: values are computed as they are, and rates by the rules of
/// differentiation.
pub proof fn law_dual_numbers_follow_the_rules<S: Number>(a: Dual<S>, b: Dual<S>)
    ensures
        a.plus(b).re == a.re.plus(b.re) && a.plus(b).du == a.du.plus(b.du),
        a.minus(b).re == a.re.minus(b.re) && a.minus(b).du == a.du.minus(b.du),
        a.times(b).re == a.re.times(b.re),
        a.times(b).du == a.re.times(b.du).plus(a.du.times(b.re)),
        a.over(b).re == a.re.over(b.re),
        a.over(b).du == a.du.minus(a.re.over(b.re).times(b.du)).over(b.re),
        a.opposite().re == a.re.opposite() && a.opposite().du == a.du.opposite(),
        a.exp_of().re == a.re.exp_of() && a.exp_of().du == a.re.exp_of().times(a.du),
        a.ln_of().re == a.re.ln_of() && a.ln_of().du == a.du.over(a.re),
        a.tanh_of().re == a.re.tanh_of(),
        a.tanh_of().du == S::unit().minus(a.re.tanh_of().times(a.re.tanh_of())).times(a.du),
        a.cos_of().re == a.re.cos_of(),
        a.cos_of().du == a.re.plus(S::half_turn().over(S::numeral(2, 0))).cos_of().times(a.du),
        a.sqrt_of().re == a.re.sqrt_of(),
        a.sqrt_of().du == a.du.over(a.re.sqrt_of().plus(a.re.sqrt_of())),
        a.power_of(b).re == a.re.power_of(b.re),
        a.power_of(b).du == b.re.times(a.re.power_of(b.re.minus(S::unit()))).times(a.du).plus(
            a.re.power_of(b.re).times(a.re.ln_of()).times(b.du),
        ),
        Dual::<S>::nought() == (Dual { re: S::nought(), du: S::nought() }),
        Dual::<S>::unit() == (Dual { re: S::unit(), du: S::nought() }),
        a.key() == a.re.key(),
{
}

} // verus!
