//! Fixed-point numbers.

use vstd::prelude::*;

use crate::number::{whole, Real, Rounded, Rounding, Wide};
use crate::text::{cut, decimal_of, digits_around_point, last_digits};

verus! {

/// A number with 32 fractional bits. Results that are out of range saturate at
/// the ends, so the order of two results is never inverted by an overflow.
#[derive(Debug, Clone, Copy, PartialEq, Eq, Structural)]
pub struct Fixed {
    /// The number in units of `1 / SCALE`.
    pub units: i64,
}

/// Units in one.
pub const SCALE: i64 = 0x1_0000_0000;

/// `x` brought into the range of the units.
pub open spec fn saturated(x: int) -> Fixed {
    Fixed {
        units: if x > i64::MAX {
            i64::MAX
        } else if x < i64::MIN {
            i64::MIN
        } else {
            x as i64
        },
    }
}

pub open spec fn absolute(x: int) -> int {
    if x < 0 {
        -x
    } else {
        x
    }
}

/// `a / b` rounded towards zero.
pub open spec fn toward_zero(a: int, b: int) -> int {
    let q = absolute(a) / absolute(b);
    if (a < 0) != (b < 0) {
        -q
    } else {
        q
    }
}

fn saturate(x: i128) -> (r: Fixed)
    ensures
        r == saturated(x as int),
{
    let units: i64 = if x > i64::MAX as i128 {
        i64::MAX
    } else if x < i64::MIN as i128 {
        i64::MIN
    } else {
        x as i64
    };
    Fixed { units }
}

fn divide(a: i128, b: i128) -> (r: i128)
    requires
        b != 0,
        a > i128::MIN,
        b > i128::MIN,
    ensures
        r == toward_zero(a as int, b as int),
{
    let x: u128 = if a < 0 {
        (-a) as u128
    } else {
        a as u128
    };
    let y: u128 = if b < 0 {
        (-b) as u128
    } else {
        b as u128
    };
    let q: u128 = x / y;
    proof {
        assert(q <= x) by (nonlinear_arith)
            requires
                q == x / y,
                y > 0,
        ;
    }
    if (a < 0) != (b < 0) {
        -(q as i128)
    } else {
        q as i128
    }
}

proof fn lemma_product_fits(a: int, b: int)
    requires
        i64::MIN <= a <= i64::MAX,
        i64::MIN <= b <= i64::MAX,
    ensures
        -0x4000_0000_0000_0000_0000_0000_0000_0000 <= a * b
            <= 0x4000_0000_0000_0000_0000_0000_0000_0000,
{
    assert(-0x4000_0000_0000_0000_0000_0000_0000_0000 <= a * b
        <= 0x4000_0000_0000_0000_0000_0000_0000_0000) by (nonlinear_arith)
        requires
            -0x8000_0000_0000_0000 <= a <= 0x8000_0000_0000_0000,
            -0x8000_0000_0000_0000 <= b <= 0x8000_0000_0000_0000,
    ;
}

/// `base` squared `n` times.
pub open spec fn squared_up(base: Fixed, n: nat) -> Fixed
    decreases n,
{
    if n == 0 {
        base
    } else {
        squared_up(base.product_of(base), (n - 1) as nat)
    }
}

/// `(1 + x / 1024) ^ 1024`, which is close to the exponential; zero far below
/// zero.
pub open spec fn power_of_e(x: Fixed) -> Fixed {
    if x.units < -23 * SCALE {
        Fixed { units: 0 }
    } else {
        squared_up(
            Fixed { units: SCALE }.sum_of(x.quotient_of(Fixed { units: (1024 * SCALE) as i64 })),
            10,
        )
    }
}

/// The largest number from `lo` on and below `hi` (in units) whose exponential
/// does not exceed `x`, by bisection.
pub open spec fn log_between(x: Fixed, lo: int, hi: int) -> Fixed
    decreases hi - lo,
{
    if hi - lo <= 1 {
        Fixed { units: lo as i64 }
    } else {
        let mid = lo + (hi - lo) / 2;
        if power_of_e(Fixed { units: mid as i64 }).units <= x.units {
            log_between(x, mid, hi)
        } else {
            log_between(x, lo, mid)
        }
    }
}

/// Two to the power `n`.
pub open spec fn doubled(n: nat) -> int
    decreases n,
{
    if n == 0 {
        1
    } else {
        2 * doubled((n - 1) as nat)
    }
}

pub proof fn lemma_doubled(n: nat)
    requires
        n <= 62,
    ensures
        1 <= doubled(n) <= 0x4000_0000_0000_0000,
{
    lemma_doubled_step(n, 62);
    assert(doubled(62) == 0x4000_0000_0000_0000) by {
        reveal_with_fuel(doubled, 63);
    }
}

proof fn lemma_doubled_step(n: nat, m: nat)
    requires
        n <= m,
    ensures
        1 <= doubled(n) <= doubled(m),
    decreases m,
{
    if n < m {
        lemma_doubled_step(n, (m - 1) as nat);
    } else if n > 0 {
        lemma_doubled_step((n - 1) as nat, (n - 1) as nat);
    }
}

impl Real for Fixed {
    open spec fn rank_of(self) -> Option<i64> {
        Some(self.units)
    }

    open spec fn ratio_of(num: u64, den: u64) -> Self {
        saturated(num * SCALE / den as int)
    }

    open spec fn sum_of(self, other: Self) -> Self {
        saturated(self.units + other.units)
    }

    open spec fn difference_of(self, other: Self) -> Self {
        saturated(self.units - other.units)
    }

    open spec fn product_of(self, other: Self) -> Self {
        saturated(toward_zero(self.units * other.units, SCALE as int))
    }

    open spec fn quotient_of(self, other: Self) -> Self {
        if other.units != 0 {
            saturated(toward_zero(self.units * SCALE, other.units as int))
        } else if self.units > 0 {
            Fixed { units: i64::MAX }
        } else if self.units < 0 {
            Fixed { units: i64::MIN }
        } else {
            Fixed { units: 0 }
        }
    }

    open spec fn negation_of(self) -> Self {
        saturated(-self.units)
    }

    open spec fn magnitude_of(self) -> Self {
        saturated(absolute(self.units as int))
    }

    open spec fn floor_of(self) -> Self {
        saturated(self.units - self.units as int % SCALE as int)
    }

    open spec fn to_i32_of(self) -> i32 {
        toward_zero(self.units as int, SCALE as int) as i32
    }

    open spec fn power_of_two(exponent: i32) -> Self {
        if exponent < -32 {
            Fixed { units: 0 }
        } else if exponent > 30 {
            Fixed { units: i64::MAX }
        } else {
            Fixed { units: doubled((exponent + 32) as nat) as i64 }
        }
    }

    open spec fn exp_of(self) -> Self {
        power_of_e(self)
    }

    open spec fn ln_of(self) -> Self {
        log_between(self, -23 * SCALE, 22 * SCALE)
    }

    fn rank(self) -> (r: Option<i64>) {
        Some(self.units)
    }

    fn ratio(num: u64, den: u64) -> (r: Self) {
        let top: u128 = num as u128 * 0x1_0000_0000;
        let q: u128 = top / den as u128;
        proof {
            assert(q <= top) by (nonlinear_arith)
                requires
                    q == top / den as u128,
                    den > 0,
            ;
        }
        saturate(q as i128)
    }

    fn plus(self, other: Self) -> (r: Self) {
        saturate(self.units as i128 + other.units as i128)
    }

    fn minus(self, other: Self) -> (r: Self) {
        saturate(self.units as i128 - other.units as i128)
    }

    fn times(self, other: Self) -> (r: Self) {
        proof {
            lemma_product_fits(self.units as int, other.units as int);
        }
        saturate(divide(self.units as i128 * other.units as i128, 0x1_0000_0000))
    }

    fn over(self, other: Self) -> (r: Self) {
        if other.units != 0 {
            saturate(divide(self.units as i128 * 0x1_0000_0000, other.units as i128))
        } else if self.units > 0 {
            Fixed { units: i64::MAX }
        } else if self.units < 0 {
            Fixed { units: i64::MIN }
        } else {
            Fixed { units: 0 }
        }
    }

    fn negate(self) -> (r: Self) {
        saturate(-(self.units as i128))
    }

    fn magnitude(self) -> (r: Self) {
        if self.units < 0 {
            saturate(-(self.units as i128))
        } else {
            self
        }
    }

    fn floor(self) -> (r: Self) {
        let offset: u64 = (self.units as i128 + 0x8000_0000_0000_0000) as u64;
        let above: u64 = offset % 0x1_0000_0000;
        saturate(self.units as i128 - above as i128)
    }

    fn to_i32(self) -> (r: i32) {
        let q: i128 = divide(self.units as i128, 0x1_0000_0000);
        q as i32
    }

    fn two_to(exponent: i32) -> (r: Self) {
        if exponent < -32 {
            return Fixed { units: 0 };
        }
        if exponent > 30 {
            return Fixed { units: i64::MAX };
        }
        let n: i32 = exponent + 32;
        let mut units: i64 = 1;
        let mut i: i32 = 0;
        while i < n
            invariant
                0 <= i <= n <= 62,
                units == doubled(i as nat),
            decreases n - i,
        {
            proof {
                lemma_doubled((i + 1) as nat);
            }
            units = 2 * units;
            i = i + 1;
        }
        Fixed { units }
    }

    fn exp(self) -> (r: Self) {
        if self.units < -23 * SCALE {
            return Fixed { units: 0 };
        }
        let mut r: Fixed = Fixed { units: SCALE }.plus(self.over(Fixed { units: 1024 * SCALE }));
        let ghost base = r;
        let mut i: u8 = 0;
        while i < 10
            invariant
                i <= 10,
                squared_up(base, 10) == squared_up(r, (10 - i) as nat),
            decreases 10 - i,
        {
            r = r.times(r);
            i = i + 1;
        }
        r
    }

    fn ln(self) -> (r: Self) {
        let mut lo: i64 = -23 * SCALE;
        let mut hi: i64 = 22 * SCALE;
        while hi - lo > 1
            invariant
                -23 * SCALE <= lo < hi <= 22 * SCALE,
                log_between(self, lo as int, hi as int) == self.ln_of(),
            decreases hi - lo,
        {
            let mid: i64 = lo + ((hi - lo) as u64 / 2) as i64;
            if (Fixed { units: mid }).exp().units <= self.units {
                lo = mid;
            } else {
                hi = mid;
            }
        }
        Fixed { units: lo }
    }
}

/// Squaring keeps a number between zero and one there.
proof fn lemma_squared_up(base: Fixed, n: nat)
    requires
        0 <= base.units <= SCALE,
    ensures
        0 <= squared_up(base, n).units <= SCALE,
    decreases n,
{
    if n > 0 {
        let u = base.units as int;
        assert(0 <= u * u / (SCALE as int) <= SCALE) by (nonlinear_arith)
            requires
                0 <= u <= SCALE,
                SCALE == 0x1_0000_0000,
        ;
        assert(u * u >= 0) by (nonlinear_arith);
        lemma_squared_up(base.product_of(base), (n - 1) as nat);
    }
}

/// Ten to the power `n`.
pub open spec fn ten_to(n: nat) -> int
    decreases n,
{
    if n == 0 {
        1
    } else {
        10 * ten_to((n - 1) as nat)
    }
}

proof fn lemma_ten_to(n: nat)
    requires
        n <= 18,
    ensures
        1 <= ten_to(n) <= 1_000_000_000_000_000_000,
{
    reveal_with_fuel(ten_to, 20);
}

fn power_of_ten(n: u8) -> (r: u64)
    requires
        n <= 18,
    ensures
        r == ten_to(n as nat),
{
    let mut r: u64 = 1;
    let mut i: u8 = 0;
    while i < n
        invariant
            i <= n <= 18,
            r == ten_to(i as nat),
        decreases n - i,
    {
        proof {
            lemma_ten_to((i + 1) as nat);
        }
        r = 10 * r;
        i = i + 1;
    }
    r
}

impl Wide for Fixed {
    type Narrow = Fixed;

    open spec fn widened(n: Fixed) -> Self {
        n
    }

    open spec fn narrowed(self) -> Fixed {
        self
    }

    open spec fn finite(self) -> bool {
        i64::MIN < self.units < i64::MAX
    }

    open spec fn infinite() -> Self {
        Fixed { units: i64::MAX }
    }

    open spec fn bits_of(self) -> u64 {
        (self.units + 0x8000_0000_0000_0000) as u64
    }

    open spec fn of_bits(bits: u64) -> Self {
        Fixed { units: (bits - 0x8000_0000_0000_0000) as i64 }
    }

    open spec fn ceil_of(self) -> usize {
        let c = (self.units + SCALE - 1) / SCALE as int;
        if self.units <= 0 {
            0
        } else if c > usize::MAX {
            usize::MAX
        } else {
            c as usize
        }
    }

    /// Rounded towards zero.
    open spec fn rounded_of(self, decimals: u8) -> Rounding {
        let units = absolute(self.units as int) * ten_to(decimals as nat) / SCALE as int;
        Rounding::Finite {
            negative: self.units < 0,
            whole: decimal_of(cut(units as nat, decimals as nat)),
            decimals: last_digits(units as nat, decimals as nat),
        }
    }

    fn widen(n: Fixed) -> (r: Self) {
        n
    }

    fn narrow(self) -> (r: Fixed) {
        self
    }

    fn is_finite(self) -> (r: bool) {
        i64::MIN < self.units && self.units < i64::MAX
    }

    fn infinity() -> (r: Self) {
        Fixed { units: i64::MAX }
    }

    fn to_bits(self) -> (r: u64) {
        (self.units as i128 + 0x8000_0000_0000_0000) as u64
    }

    fn from_bits(bits: u64) -> (r: Self) {
        Fixed { units: (bits as i128 - 0x8000_0000_0000_0000) as i64 }
    }

    fn ceil_count(self) -> (r: usize) {
        if self.units <= 0 {
            return 0;
        }
        let c: u64 = (self.units as u64 + 0xffff_ffff) / 0x1_0000_0000;
        if c > usize::MAX as u64 {
            usize::MAX
        } else {
            c as usize
        }
    }

    fn rounded(self, decimals: u8) -> (r: Rounded) {
        let size: u64 = if self.units < 0 {
            (-(self.units as i128)) as u64
        } else {
            self.units as u64
        };
        let factor: u64 = power_of_ten(decimals);
        proof {
            lemma_ten_to(decimals as nat);
            assert(size * factor <= 0x8000_0000_0000_0000 * 1_000_000_000_000_000_000)
                by (nonlinear_arith)
                requires
                    0 <= size <= 0x8000_0000_0000_0000,
                    0 <= factor <= 1_000_000_000_000_000_000,
            ;
        }
        let units: u128 = (size as u128 * factor as u128) / 0x1_0000_0000;
        let (whole, decimals) = digits_around_point(units, decimals);
        Rounded::Finite { negative: self.units < 0, whole, decimals }
    }

    proof fn finite_compares(self) {
    }

    proof fn constants_ordered(a: u64, b: u64, c: u64, d: u64) {
        let q = a * SCALE / b as int;
        assert(q <= c * SCALE / d as int) by (nonlinear_arith)
            requires
                q == a * SCALE / b as int,
                a >= 0,
                b > 0,
                c >= 0,
                d > 0,
                a * d <= c * b,
                SCALE == 0x1_0000_0000,
        {
            assert(q * b <= a * SCALE);
            assert(q * b * d <= a * SCALE * d);
            assert(a * SCALE * d == (a * d) * SCALE);
            assert((a * d) * SCALE <= (c * b) * SCALE);
            assert((c * b) * SCALE == (c * SCALE) * b);
            assert(q * b * d == (q * d) * b);
            assert(q * d <= c * SCALE);
        }
    }

    proof fn constant_positive(num: u64, den: u64) {
        assert(num * SCALE / den as int >= 1) by (nonlinear_arith)
            requires
                0 < den <= num * 1_000_000_000,
                SCALE == 0x1_0000_0000,
        ;
    }

    proof fn part_is_finite(part: Self, of: Self) {
        let p = part.units as int;
        let x = of.units as int;
        let size = absolute(x);
        assert(absolute(p * x) == p * size) by (nonlinear_arith)
            requires
                p > 0,
                size == absolute(x),
                absolute(x) == if x < 0 {
                    -x
                } else {
                    x
                },
                absolute(p * x) == if p * x < 0 {
                    -(p * x)
                } else {
                    p * x
                },
        ;
        assert(0 <= p * size / (SCALE as int) <= size) by (nonlinear_arith)
            requires
                0 < p <= SCALE,
                size >= 0,
                SCALE == 0x1_0000_0000,
        ;
        let units = toward_zero(part.units * of.units, SCALE as int);
        assert(absolute(SCALE as int) == SCALE);
        assert((p * x < 0) == (x < 0)) by (nonlinear_arith)
            requires
                p > 0,
        ;
        assert(if x < 0 {
            -size <= units <= 0
        } else {
            0 <= units <= size
        });
    }

    proof fn finite_step_compares(self, step: Self) {
    }

    proof fn sum_grows(a: Self, b: Self) {
    }

    proof fn negation_flips(self) {
    }

    proof fn exp_within_one(self) {
        if self.units >= -23 * SCALE {
            let base = Fixed { units: SCALE }.sum_of(
                self.quotient_of(Fixed { units: (1024 * SCALE) as i64 }),
            );
            let size = absolute(self.units as int);
            let step = size * SCALE / (1024 * SCALE as int);
            assert(absolute(self.units * SCALE) == size * SCALE);
            assert(0 <= step <= SCALE) by (nonlinear_arith)
                requires
                    step == size * SCALE / (1024 * SCALE as int),
                    0 <= size <= 23 * SCALE,
                    SCALE == 0x1_0000_0000,
            ;
            lemma_squared_up(base, 10);
        }
    }

    proof fn share_within_one(part: Self, of: Self) {
        let p = part.units as int;
        let q = of.units as int;
        assert(0 <= p * SCALE / q <= SCALE) by (nonlinear_arith)
            requires
                0 <= p <= q,
                q > 0,
                SCALE == 0x1_0000_0000,
        ;
        assert(p * SCALE >= 0);
    }

    proof fn infinite_is_last(self) {
    }

    proof fn midpoints_ascend(a: Self, b: Self, c: Self, d: Self) {
        lemma_half(a.sum_of(b));
        lemma_half(c.sum_of(d));
    }
}

/// Dividing by two halves the units, towards zero.
proof fn lemma_half(x: Fixed)
    ensures
        x.quotient_of(whole(2)).units == toward_zero(x.units as int, 2),
{
    let two = whole::<Fixed>(2);
    assert(two.units == 2 * SCALE);
    let a = absolute(x.units as int);
    assert(absolute(x.units * SCALE) == a * SCALE);
    assert((a * SCALE) / (2 * SCALE as int) == a / 2) by (nonlinear_arith)
        requires
            a >= 0,
            SCALE == 0x1_0000_0000,
    ;
    assert(toward_zero(x.units * SCALE, two.units as int) == toward_zero(x.units as int, 2));
}

} // verus!
