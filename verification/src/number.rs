use vstd::prelude::*;

verus! {

/// The arithmetic that boosting needs from a number type.
///
/// Every operation is a function of its operands: the specification function
/// beside each method is the value that the method returns. Nothing is said
/// about rounding, so the contracts of this library fix the order of the
/// operations instead of their exact value.
pub trait Real: Copy + Send + Sync {
    /// Position of this number among the comparable numbers, or `None` for a
    /// number that compares with nothing (not-a-number).
    spec fn rank_of(self) -> Option<i64>;

    /// The quotient `num / den`, the only way to write a constant.
    spec fn ratio_of(num: u64, den: u64) -> Self;

    spec fn sum_of(self, other: Self) -> Self;

    spec fn difference_of(self, other: Self) -> Self;

    spec fn product_of(self, other: Self) -> Self;

    spec fn quotient_of(self, other: Self) -> Self;

    spec fn negation_of(self) -> Self;

    spec fn magnitude_of(self) -> Self;

    spec fn floor_of(self) -> Self;

    /// The number truncated to an `i32`, saturating at its ends.
    spec fn to_i32_of(self) -> i32;

    /// Two to the power `exponent`.
    spec fn power_of_two(exponent: i32) -> Self;

    spec fn exp_of(self) -> Self;

    spec fn ln_of(self) -> Self;

    fn rank(self) -> (r: Option<i64>)
        ensures
            r == self.rank_of(),
    ;

    fn ratio(num: u64, den: u64) -> (r: Self)
        requires
            den > 0,
        ensures
            r == Self::ratio_of(num, den),
    ;

    fn plus(self, other: Self) -> (r: Self)
        ensures
            r == self.sum_of(other),
    ;

    fn minus(self, other: Self) -> (r: Self)
        ensures
            r == self.difference_of(other),
    ;

    fn times(self, other: Self) -> (r: Self)
        ensures
            r == self.product_of(other),
    ;

    fn over(self, other: Self) -> (r: Self)
        ensures
            r == self.quotient_of(other),
    ;

    fn negate(self) -> (r: Self)
        ensures
            r == self.negation_of(),
    ;

    fn magnitude(self) -> (r: Self)
        ensures
            r == self.magnitude_of(),
    ;

    fn floor(self) -> (r: Self)
        ensures
            r == self.floor_of(),
    ;

    fn to_i32(self) -> (r: i32)
        ensures
            r == self.to_i32_of(),
    ;

    fn two_to(exponent: i32) -> (r: Self)
        ensures
            r == Self::power_of_two(exponent),
    ;

    fn exp(self) -> (r: Self)
        ensures
            r == self.exp_of(),
    ;

    fn ln(self) -> (r: Self)
        ensures
            r == self.ln_of(),
    ;
}

/// The largest term of a fraction that every number type holds exactly.
pub const EXACT_TERM: u64 = 0x20_0000_0000_0000;

/// A number cut to a fixed number of decimals, for display.
#[derive(Debug)]
pub enum Rounded {
    NotANumber,
    Infinite { negative: bool },
    /// The digits before and after the point, however many there are.
    Finite { negative: bool, whole: String, decimals: String },
}

/// What a [`Rounded`] number says.
pub enum Rounding {
    NotANumber,
    Infinite { negative: bool },
    Finite { negative: bool, whole: Seq<char>, decimals: Seq<char> },
}

impl View for Rounded {
    type V = Rounding;

    open spec fn view(&self) -> Rounding {
        match *self {
            Rounded::NotANumber => Rounding::NotANumber,
            Rounded::Infinite { negative } => Rounding::Infinite { negative },
            Rounded::Finite { negative, whole, decimals } => Rounding::Finite {
                negative,
                whole: whole@,
                decimals: decimals@,
            },
        }
    }
}

/// The wide number type that scores, sums and thresholds are kept in, with the
/// narrow type that labels, weights and per-row gradients are kept in.
pub trait Wide: Real {
    type Narrow: Real;

    spec fn widened(n: Self::Narrow) -> Self;

    spec fn narrowed(self) -> Self::Narrow;

    spec fn finite(self) -> bool;

    /// The number above every comparable number.
    spec fn infinite() -> Self;

    /// The bit pattern that identifies this number.
    spec fn bits_of(self) -> u64;

    /// The number that a bit pattern stands for.
    spec fn of_bits(bits: u64) -> Self;

    /// The number rounded up to a count, saturating at the ends of `usize`.
    spec fn ceil_of(self) -> usize;

    /// The number rounded to a fixed number of decimals.
    spec fn rounded_of(self, decimals: u8) -> Rounding;

    fn widen(n: Self::Narrow) -> (r: Self)
        ensures
            r == Self::widened(n),
    ;

    fn narrow(self) -> (r: Self::Narrow)
        ensures
            r == self.narrowed(),
    ;

    fn is_finite(self) -> (r: bool)
        ensures
            r == self.finite(),
    ;

    fn infinity() -> (r: Self)
        ensures
            r == Self::infinite(),
    ;

    fn to_bits(self) -> (r: u64)
        ensures
            r == self.bits_of(),
    ;

    fn from_bits(bits: u64) -> (r: Self)
        ensures
            r == Self::of_bits(bits),
    ;

    fn ceil_count(self) -> (r: usize)
        ensures
            r == self.ceil_of(),
    ;

    fn rounded(self, decimals: u8) -> (r: Rounded)
        requires
            decimals <= 18,
        ensures
            r@ == self.rounded_of(decimals),
    ;

    /// Finite numbers compare with each other.
    proof fn finite_compares(self)
        requires
            self.finite(),
        ensures
            self.rank_of() is Some,
    ;

    /// Constants stand in the order of the fractions they are written as, as long
    /// as the terms of the fractions need no more than 53 bits.
    proof fn constants_ordered(a: u64, b: u64, c: u64, d: u64)
        requires
            a <= EXACT_TERM,
            0 < b <= EXACT_TERM,
            c <= EXACT_TERM,
            0 < d <= EXACT_TERM,
            a * d <= c * b,
        ensures
            le(Self::ratio_of(a, b), Self::ratio_of(c, d)),
    ;

    /// A constant of at least a billionth is above zero.
    proof fn constant_positive(num: u64, den: u64)
        requires
            0 < den <= num * 1_000_000_000,
        ensures
            lt(whole::<Self>(0), Self::ratio_of(num, den)),
    ;

    /// A positive part of a finite number, up to all of it, is finite.
    proof fn part_is_finite(part: Self, of: Self)
        requires
            lt(whole(0), part),
            le(part, whole(1)),
            of.finite(),
        ensures
            part.product_of(of).finite(),
    ;

    /// Adding a finite number to a comparable one gives a comparable one.
    proof fn finite_step_compares(self, step: Self)
        requires
            self.rank_of() is Some,
            step.finite(),
        ensures
            self.sum_of(step).rank_of() is Some,
    ;

    /// Adding a number that is not negative does not make a number smaller: a sum
    /// that compares at all is at least the first summand, and the sum of two
    /// numbers that are not negative is at least either.
    proof fn sum_grows(a: Self, b: Self)
        requires
            a.rank_of() is Some,
            le(whole(0), b),
        ensures
            a.sum_of(b).rank_of() is Some ==> le(a, a.sum_of(b)),
            le(whole(0), a) ==> le(a, a.sum_of(b)) && le(b, a.sum_of(b)),
    ;

    /// Negation leads from above zero to below it.
    proof fn negation_flips(self)
        requires
            le(whole(0), self),
        ensures
            le(self.negation_of(), whole(0)),
    ;

    /// The exponential of a number that is not positive lies between zero and one.
    proof fn exp_within_one(self)
        requires
            le(self, whole(0)),
        ensures
            le(whole(0), self.exp_of()),
            le(self.exp_of(), whole(1)),
    ;

    /// A part that is at most one and at most the whole is between none and all of
    /// the whole.
    proof fn share_within_one(part: Self, of: Self)
        requires
            le(whole(0), part),
            le(part, whole(1)),
            le(part, of),
            lt(whole(0), of),
        ensures
            le(whole(0), part.quotient_of(of)),
            le(part.quotient_of(of), whole(1)),
    ;

    /// No comparable number lies above the infinite one.
    proof fn infinite_is_last(self)
        requires
            self.rank_of() is Some,
        ensures
            le(self, Self::infinite()),
    ;

    /// Halfway points keep the order of the points they lie between.
    proof fn midpoints_ascend(a: Self, b: Self, c: Self, d: Self)
        requires
            a.finite() && b.finite() && c.finite() && d.finite(),
            le(a, c),
            le(b, d),
        ensures
            le(midpoint(a, b), midpoint(c, d)),
    ;
}

/// The point halfway between two numbers.
pub open spec fn midpoint<R: Real>(a: R, b: R) -> R {
    a.sum_of(b).quotient_of(whole(2))
}

pub fn halfway<R: Real>(a: R, b: R) -> (r: R)
    ensures
        r == midpoint(a, b),
{
    a.plus(b).over(constant(2))
}

/// `a < b`; false when either number compares with nothing.
pub open spec fn lt<R: Real>(a: R, b: R) -> bool {
    a.rank_of() is Some && b.rank_of() is Some && a.rank_of()->0 < b.rank_of()->0
}

/// `a <= b`; false when either number compares with nothing.
pub open spec fn le<R: Real>(a: R, b: R) -> bool {
    a.rank_of() is Some && b.rank_of() is Some && a.rank_of()->0 <= b.rank_of()->0
}

/// `a == b` as numbers; false when either number compares with nothing.
pub open spec fn eq<R: Real>(a: R, b: R) -> bool {
    a.rank_of() is Some && b.rank_of() is Some && a.rank_of()->0 == b.rank_of()->0
}

pub fn less<R: Real>(a: R, b: R) -> (r: bool)
    ensures
        r == lt(a, b),
{
    match (a.rank(), b.rank()) {
        (Some(x), Some(y)) => x < y,
        _ => false,
    }
}

pub fn at_most<R: Real>(a: R, b: R) -> (r: bool)
    ensures
        r == le(a, b),
{
    match (a.rank(), b.rank()) {
        (Some(x), Some(y)) => x <= y,
        _ => false,
    }
}

pub fn same<R: Real>(a: R, b: R) -> (r: bool)
    ensures
        r == eq(a, b),
{
    match (a.rank(), b.rank()) {
        (Some(x), Some(y)) => x == y,
        _ => false,
    }
}

/// The constant `n`.
pub open spec fn whole<R: Real>(n: u64) -> R {
    R::ratio_of(n, 1)
}

pub fn constant<R: Real>(n: u64) -> (r: R)
    ensures
        r == whole::<R>(n),
{
    R::ratio(n, 1)
}

/// `x` brought into `[lo, hi]`; a number that compares with nothing is kept.
pub open spec fn clamped<R: Real>(x: R, lo: R, hi: R) -> R {
    if lt(x, lo) {
        lo
    } else if lt(hi, x) {
        hi
    } else {
        x
    }
}

pub fn clamp<R: Real>(x: R, lo: R, hi: R) -> (r: R)
    ensures
        r == clamped(x, lo, hi),
{
    if less(x, lo) {
        lo
    } else if less(hi, x) {
        hi
    } else {
        x
    }
}

/// The sum of `terms` from left to right, starting at zero.
pub open spec fn total<R: Real>(terms: Seq<R>) -> R
    decreases terms.len(),
{
    if terms.len() == 0 {
        whole(0)
    } else {
        total(terms.drop_last()).sum_of(terms.last())
    }
}

/// `n` times the same value.
pub fn repeated<T: Copy>(value: T, n: usize) -> (r: Vec<T>)
    ensures
        r@ == Seq::new(n as nat, |i: int| value),
{
    let mut r: Vec<T> = Vec::with_capacity(n);
    let mut i: usize = 0;
    while i < n
        invariant
            i <= n,
            r@ =~= Seq::new(i as nat, |i: int| value),
        decreases n - i,
    {
        r.push(value);
        i = i + 1;
    }
    r
}

/// Of two numbers that compare, exactly one is less or they are equal; with a number
/// that compares with nothing, none of this holds.
pub proof fn law_compare<R: Real>(a: R, b: R)
    ensures
        le(a, b) <==> lt(a, b) || eq(a, b),
        !(lt(a, b) && eq(a, b)),
        !(lt(a, b) && lt(b, a)),
        eq(a, b) == eq(b, a),
        a.rank_of() is Some && b.rank_of() is Some <==> lt(a, b) || eq(a, b) || lt(b, a),
{
}

/// A clamped number lies in the range, and it is the number itself if that lies in the
/// range, or else the end of the range on the side where the number lies.
pub proof fn law_clamped<R: Real>(x: R, lo: R, hi: R)
    requires
        le(lo, hi),
        x.rank_of() is Some,
    ensures
        le(lo, clamped(x, lo, hi)) && le(clamped(x, lo, hi), hi),
        le(lo, x) && le(x, hi) ==> clamped(x, lo, hi) == x,
        le(x, lo) ==> eq(clamped(x, lo, hi), lo),
        le(hi, x) ==> eq(clamped(x, lo, hi), hi),
{
}

} // verus!
