//! The numbers that the models compute with.
//!
//! Models are written once, over any type with the operations of [`Scalar`].
//! The contracts fix which operations are applied to which values and in which
//! order. A program instantiates them with its floating-point type: of such a
//! type, which Verus does not see, it is taken on trust that it keeps to
//! [`Scalar`], and the contracts hold as far as it does.

use vstd::prelude::*;

verus! {

/// What some function, the `which`th of a family of them, makes of an operand.
pub closed spec fn some_function<A, B>(which: nat, operand: A) -> B {
    arbitrary::<spec_fn(nat, A) -> B>()(which, operand)
}

/// A kind of number, as specifications see it: what its operations are. No law
/// of algebra is asked of them, since rounded arithmetic has hardly any.
///
/// A type that takes part in proofs says what the operations are. One that
/// does not, such as a floating-point type outside this crate, may leave them
/// as they stand here: functions of the operands of which nothing else is
/// known.
pub trait Number: Sized {
    closed spec fn nought() -> Self {
        some_function(0, ())
    }

    closed spec fn unit() -> Self {
        some_function(1, ())
    }

    closed spec fn infimum() -> Self {
        some_function(2, ())
    }

    closed spec fn supremum() -> Self {
        some_function(3, ())
    }

    closed spec fn half_turn() -> Self {
        some_function(4, ())
    }

    closed spec fn numeral(digits: u64, places: u32) -> Self {
        some_function(5, (digits, places))
    }

    closed spec fn natural(n: usize) -> Self {
        some_function(6, n)
    }

    closed spec fn plus(self, other: Self) -> Self {
        some_function(7, (self, other))
    }

    closed spec fn minus(self, other: Self) -> Self {
        some_function(8, (self, other))
    }

    closed spec fn times(self, other: Self) -> Self {
        some_function(9, (self, other))
    }

    closed spec fn over(self, other: Self) -> Self {
        some_function(10, (self, other))
    }

    closed spec fn opposite(self) -> Self {
        some_function(11, self)
    }

    closed spec fn exp_of(self) -> Self {
        some_function(12, self)
    }

    closed spec fn ln_of(self) -> Self {
        some_function(13, self)
    }

    closed spec fn tanh_of(self) -> Self {
        some_function(14, self)
    }

    closed spec fn cos_of(self) -> Self {
        some_function(15, self)
    }

    closed spec fn sqrt_of(self) -> Self {
        some_function(16, self)
    }

    closed spec fn power_of(self, exponent: Self) -> Self {
        some_function(17, (self, exponent))
    }

    closed spec fn key(self) -> Option<real> {
        some_function(18, self)
    }
}

/// The place of a number among the others that an integer stands for.
pub open spec fn place_of(key: Option<i64>) -> Option<real> {
    match key {
        Some(k) => Some(k as real),
        None => None,
    }
}

/// A kind of number to compute with. Every operation returns what its
/// counterpart among those of [`Number`] says; it is a function of its
/// operands. Nothing else is asked of it.
///
/// What is assumed of such a type outside this crate, and proved of none, is
/// that each of its operations returns the same value whenever it is given
/// the same operands, and the same key for the same number.
pub trait Scalar: Number + Copy {
    /// The number 0.
    fn zero() -> (r: Self)
        ensures
            r == Self::nought(),
    ;

    /// The number 1.
    fn one() -> (r: Self)
        ensures
            r == Self::unit(),
    ;

    /// A number that none is less than.
    fn lowest() -> (r: Self)
        ensures
            r == Self::infimum(),
    ;

    /// A number that none is greater than.
    fn highest() -> (r: Self)
        ensures
            r == Self::supremum(),
    ;

    /// The number pi.
    fn pi() -> (r: Self)
        ensures
            r == Self::half_turn(),
    ;

    /// The decimal number with the given digits, of which the last `places`
    /// stand behind the point.
    fn decimal(digits: u64, places: u32) -> (r: Self)
        ensures
            r == Self::numeral(digits, places),
    ;

    /// A count as a number.
    fn from_count(n: usize) -> (r: Self)
        ensures
            r == Self::natural(n),
    ;

    fn add(self, other: Self) -> (r: Self)
        ensures
            r == self.plus(other),
    ;

    fn sub(self, other: Self) -> (r: Self)
        ensures
            r == self.minus(other),
    ;

    fn mul(self, other: Self) -> (r: Self)
        ensures
            r == self.times(other),
    ;

    fn div(self, other: Self) -> (r: Self)
        ensures
            r == self.over(other),
    ;

    fn neg(self) -> (r: Self)
        ensures
            r == self.opposite(),
    ;

    fn exp(self) -> (r: Self)
        ensures
            r == self.exp_of(),
    ;

    fn ln(self) -> (r: Self)
        ensures
            r == self.ln_of(),
    ;

    fn tanh(self) -> (r: Self)
        ensures
            r == self.tanh_of(),
    ;

    fn cos(self) -> (r: Self)
        ensures
            r == self.cos_of(),
    ;

    fn sqrt(self) -> (r: Self)
        ensures
            r == self.sqrt_of(),
    ;

    fn powf(self, exponent: Self) -> (r: Self)
        ensures
            r == self.power_of(exponent),
    ;

    /// Where the number stands among the others: of two numbers with a key
    /// the one with the smaller key is the smaller. Something that is no
    /// number has no key and compares with nothing.
    fn order_key(self) -> (r: Option<i64>)
        ensures
            place_of(r) == self.key(),
    ;
}

/// Whether `a` is less than `b`.
pub open spec fn less<S: Number>(a: S, b: S) -> bool {
    match (a.key(), b.key()) {
        (Some(x), Some(y)) => x < y,
        _ => false,
    }
}

/// Whether `a` is less than `b` or equal to it.
pub open spec fn at_most<S: Number>(a: S, b: S) -> bool {
    match (a.key(), b.key()) {
        (Some(x), Some(y)) => x <= y,
        _ => false,
    }
}

/// The greater of two numbers; what is no number gives way to the other.
pub open spec fn greater_of<S: Number>(a: S, b: S) -> S {
    if a.key() is None || less(a, b) {
        b
    } else {
        a
    }
}

/// The smaller of two numbers; what is no number gives way to the other.
pub open spec fn smaller_of<S: Number>(a: S, b: S) -> S {
    if a.key() is None || less(b, a) {
        b
    } else {
        a
    }
}

/// The distance of a number from 0.
pub open spec fn magnitude<S: Number>(a: S) -> S {
    if less(a, S::nought()) {
        a.opposite()
    } else {
        a
    }
}

/// The sum of the first `n` numbers of a list, added up from the front.
pub open spec fn sum_to<S: Number>(xs: Seq<S>, n: nat) -> S
    decreases n,
{
    if n == 0 {
        S::nought()
    } else {
        sum_to(xs, (n - 1) as nat).plus(xs[n - 1])
    }
}

/// The sum of a list, added up from the front.
pub open spec fn sum_of<S: Number>(xs: Seq<S>) -> S {
    sum_to(xs, xs.len())
}

/// The greatest of the first `n` numbers of a list.
pub open spec fn greatest_to<S: Number>(xs: Seq<S>, n: nat) -> S
    decreases n,
{
    if n == 0 {
        S::infimum()
    } else {
        greater_of(greatest_to(xs, (n - 1) as nat), xs[n - 1])
    }
}

/// The greatest number of a list.
pub open spec fn greatest_of<S: Number>(xs: Seq<S>) -> S {
    greatest_to(xs, xs.len())
}

/// The smallest of the first `n` numbers of a list.
pub open spec fn smallest_to<S: Number>(xs: Seq<S>, n: nat) -> S
    decreases n,
{
    if n == 0 {
        S::supremum()
    } else {
        smaller_of(smallest_to(xs, (n - 1) as nat), xs[n - 1])
    }
}

/// The smallest number of a list.
pub open spec fn smallest_of<S: Number>(xs: Seq<S>) -> S {
    smallest_to(xs, xs.len())
}

/// `n` zeros.
pub open spec fn noughts<S: Number>(n: nat) -> Seq<S> {
    Seq::new(n, |i: int| S::nought())
}

/// Whether `a` is less than `b`.
pub fn is_less<S: Scalar>(a: S, b: S) -> (r: bool)
    ensures
        r == less(a, b),
{
    match (a.order_key(), b.order_key()) {
        (Some(x), Some(y)) => x < y,
        _ => false,
    }
}

/// Whether `a` is less than `b` or equal to it.
pub fn is_at_most<S: Scalar>(a: S, b: S) -> (r: bool)
    ensures
        r == at_most(a, b),
{
    match (a.order_key(), b.order_key()) {
        (Some(x), Some(y)) => x <= y,
        _ => false,
    }
}

/// The greater of two numbers; what is no number gives way to the other.
pub fn greater<S: Scalar>(a: S, b: S) -> (r: S)
    ensures
        r == greater_of(a, b),
{
    if a.order_key().is_none() || is_less(a, b) {
        b
    } else {
        a
    }
}

/// The smaller of two numbers; what is no number gives way to the other.
pub fn smaller<S: Scalar>(a: S, b: S) -> (r: S)
    ensures
        r == smaller_of(a, b),
{
    if a.order_key().is_none() || is_less(b, a) {
        b
    } else {
        a
    }
}

/// The distance of a number from 0.
pub fn abs<S: Scalar>(a: S) -> (r: S)
    ensures
        r == magnitude(a),
{
    if is_less(a, S::zero()) {
        a.neg()
    } else {
        a
    }
}

/// The sum of a list, added up from the front.
pub fn sum<S: Scalar>(xs: &[S]) -> (r: S)
    ensures
        r == sum_of(xs@),
{
    let mut total = S::zero();
    let mut i: usize = 0;
    while i < xs.len()
        invariant
            i <= xs@.len(),
            total == sum_to(xs@, i as nat),
        decreases xs@.len() - i,
    {
        total = total.add(xs[i]);
        i += 1;
    }
    total
}

/// The greatest number of a list.
pub fn greatest<S: Scalar>(xs: &[S]) -> (r: S)
    ensures
        r == greatest_of(xs@),
{
    let mut best = S::lowest();
    let mut i: usize = 0;
    while i < xs.len()
        invariant
            i <= xs@.len(),
            best == greatest_to(xs@, i as nat),
        decreases xs@.len() - i,
    {
        best = greater(best, xs[i]);
        i += 1;
    }
    best
}

/// The smallest number of a list.
pub fn smallest<S: Scalar>(xs: &[S]) -> (r: S)
    ensures
        r == smallest_of(xs@),
{
    let mut best = S::highest();
    let mut i: usize = 0;
    while i < xs.len()
        invariant
            i <= xs@.len(),
            best == smallest_to(xs@, i as nat),
        decreases xs@.len() - i,
    {
        best = smaller(best, xs[i]);
        i += 1;
    }
    best
}

/// `n` zeros.
pub fn zeros<S: Scalar>(n: usize) -> (v: Vec<S>)
    ensures
        v@ == noughts::<S>(n as nat),
{
    let mut v: Vec<S> = Vec::with_capacity(n);
    let mut i: usize = 0;
    while i < n
        invariant
            i <= n,
            v@ == noughts::<S>(i as nat),
        decreases n - i,
    {
        v.push(S::zero());
        i += 1;
        assert(v@ =~= noughts::<S>(i as nat));
    }
    v
}

/// A copy of a list.
pub fn copied<T: Copy>(xs: &[T]) -> (v: Vec<T>)
    ensures
        v@ == xs@,
{
    let mut v: Vec<T> = Vec::with_capacity(xs.len());
    let mut i: usize = 0;
    while i < xs.len()
        invariant
            i <= xs@.len(),
            v@ == xs@.take(i as int),
        decreases xs@.len() - i,
    {
        v.push(xs[i]);
        i += 1;
        assert(v@ =~= xs@.take(i as int));
    }
    assert(v@ =~= xs@);
    v
}

} // verus!
