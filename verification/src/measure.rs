//! Measured quantities.
//!
//! A measurement is a double-precision number in the sense of IEEE 754, held by its
//! bit pattern. This module gives the pattern its mathematical value and orders,
//! rounds and builds such numbers by integer arithmetic alone.

use vstd::arithmetic::div_mod::{lemma_div_denominator, lemma_div_multiples_vanish};
use vstd::arithmetic::mul::{lemma_mul_is_commutative, lemma_mul_strict_inequality};
use vstd::arithmetic::power2::{lemma2_to64, lemma_pow2_adds, lemma_pow2_pos, pow2};
use vstd::bits::{lemma_u64_shl_is_mul, lemma_u64_shr_is_div};
use vstd::prelude::*;

verus! {

/// Weight of the sign bit; also one more than the largest magnitude field.
pub const SIGN_WEIGHT: u64 = 0x8000_0000_0000_0000;

/// Weight of the lowest exponent bit; also one more than the largest fraction field.
pub const FRACTION_SPAN: u64 = 0x10_0000_0000_0000;

/// Magnitude field of an infinity. Larger magnitude fields are not numbers.
pub const INFINITY_FIELD: u64 = 0x7ff0_0000_0000_0000;

/// A double-precision measurement, by its IEEE 754 bit pattern.
#[derive(Debug, Clone, Copy, PartialEq, Eq, Structural)]
pub struct Real {
    pub bits: u64,
}

/// How many of the smallest subnormal numbers make up one: two to the 1074.
pub open spec fn one() -> nat {
    pow2(1074)
}

/// What a magnitude field is worth, counted in smallest subnormal numbers. An infinity
/// is worth more than every finite field.
pub open spec fn field_worth(field: int) -> nat
    recommends
        0 <= field < SIGN_WEIGHT,
{
    let exponent = field / FRACTION_SPAN as int;
    let fraction = field % FRACTION_SPAN as int;
    if exponent == 0 {
        fraction as nat
    } else {
        (FRACTION_SPAN + fraction) as nat * pow2((exponent - 1) as nat)
    }
}

impl Real {
    /// The pattern without its sign bit.
    pub open spec fn field(self) -> int {
        self.bits as int % SIGN_WEIGHT as int
    }

    /// The pattern stands for no number.
    pub open spec fn is_nan(self) -> bool {
        self.field() > INFINITY_FIELD
    }

    /// The number's value, counted in smallest subnormal numbers: the value `x` of the
    /// number is `worth() / one()`. Both zeros are worth nothing.
    pub open spec fn worth(self) -> int {
        if self.bits >= SIGN_WEIGHT {
            -(field_worth(self.field()) as int)
        } else {
            field_worth(self.field()) as int
        }
    }

    /// Both are numbers and the first is the smaller one.
    pub open spec fn lt(self, other: Real) -> bool {
        !self.is_nan() && !other.is_nan() && self.worth() < other.worth()
    }

    /// Both are numbers and the first is not the larger one.
    pub open spec fn le(self, other: Real) -> bool {
        !self.is_nan() && !other.is_nan() && self.worth() <= other.worth()
    }

    /// The number is exactly the integer `n`.
    pub open spec fn equals(self, n: int) -> bool {
        !self.is_nan() && self.worth() == n * one()
    }

    /// The natural number `n`, where a pattern stands for it.
    pub open spec fn of(n: int) -> Real {
        choose|r: Real| r.bits < SIGN_WEIGHT && #[trigger] r.equals(n)
    }

    /// The number is smaller than the integer `n`.
    pub open spec fn below(self, n: int) -> bool {
        !self.is_nan() && self.worth() < n * one()
    }

    /// The number is smaller than one half.
    pub open spec fn below_half(self) -> bool {
        !self.is_nan() && 2 * self.worth() < one()
    }

    /// The number is larger than the integer `n`.
    pub open spec fn above(self, n: int) -> bool {
        !self.is_nan() && self.worth() > n * one()
    }

    /// The number is not smaller than the integer `n`.
    pub open spec fn at_least(self, n: int) -> bool {
        !self.is_nan() && self.worth() >= n * one()
    }

    /// The whole part, cut off at the ends of the 64-bit integers.
    pub open spec fn whole_i64(self) -> int {
        if self.whole_part() < i64::MIN {
            i64::MIN as int
        } else if self.whole_part() > i64::MAX {
            i64::MAX as int
        } else {
            self.whole_part()
        }
    }

    /// The whole part, cut off at the ends of the 32-bit integers.
    pub open spec fn whole_i32(self) -> int {
        if self.whole_part() < i32::MIN {
            i32::MIN as int
        } else if self.whole_part() > i32::MAX {
            i32::MAX as int
        } else {
            self.whole_part()
        }
    }

    /// The integer that is left when the digits behind the point are dropped; zero for
    /// what is not a number.
    pub open spec fn whole_part(self) -> int {
        if self.is_nan() {
            0
        } else if self.worth() < 0 {
            -((-self.worth()) / one() as int)
        } else {
            self.worth() / one() as int
        }
    }
}

/// The powers of two behind the bit fields.
proof fn lemma_powers()
    ensures
        pow2(0) == 1,
        pow2(1) == 2,
        pow2(10) == 1024,
        pow2(11) == 2048,
        pow2(52) == FRACTION_SPAN,
        pow2(53) == 2 * FRACTION_SPAN,
{
    lemma2_to64();
    lemma_pow2_adds(26, 26);
    lemma_pow2_adds(1, 52);
}

/// A larger magnitude field is worth more.
pub proof fn lemma_field_worth_increases(a: int, b: int)
    requires
        0 <= a < b < SIGN_WEIGHT,
    ensures
        field_worth(a) < field_worth(b),
{
    let span = FRACTION_SPAN as int;
    let ea = a / span;
    let eb = b / span;
    let fa = a % span;
    let fb = b % span;
    assert(a == ea * span + fa && b == eb * span + fb);
    assert(0 <= ea <= eb);
    if ea == eb {
        if ea > 0 {
            lemma_pow2_pos((ea - 1) as nat);
            lemma_mul_strict_inequality(span + fa, span + fb, pow2((ea - 1) as nat) as int);
        }
    } else {
        lemma_pow2_pos((eb - 1) as nat);
        let pb = pow2((eb - 1) as nat) as int;
        assert(span * pb <= (span + fb) * pb) by (nonlinear_arith)
            requires
                fb >= 0,
                pb > 0,
        ;
        if ea == 0 {
            assert(span <= span * pb) by (nonlinear_arith)
                requires
                    span > 0,
                    pb >= 1,
            ;
        } else {
            let pa = pow2((ea - 1) as nat) as int;
            lemma_pow2_pos((ea - 1) as nat);
            let gap = (eb - ea) as nat;
            lemma_pow2_adds((ea - 1) as nat, gap);
            lemma_pow2_adds(1, (gap - 1) as nat);
            lemma_pow2_pos((gap - 1) as nat);
            lemma_powers();
            let g = pow2(gap) as int;
            assert(g >= 2);
            assert(pb == pa * g);
            assert((span + fa) * pa < span * (pa * g)) by (nonlinear_arith)
                requires
                    0 <= fa < span,
                    pa > 0,
                    g >= 2,
            ;
        }
    }
}

/// Magnitude fields are in the order of what they are worth.
pub proof fn lemma_field_order(a: int, b: int)
    requires
        0 <= a < SIGN_WEIGHT,
        0 <= b < SIGN_WEIGHT,
    ensures
        a < b <==> field_worth(a) < field_worth(b),
        a == b <==> field_worth(a) == field_worth(b),
{
    if a < b {
        lemma_field_worth_increases(a, b);
    } else if b < a {
        lemma_field_worth_increases(b, a);
    }
}

/// The empty field is worth nothing.
pub proof fn lemma_zero_field()
    ensures
        field_worth(0) == 0,
{
}

/// Only one pattern without a sign stands for a natural number.
pub proof fn lemma_of_unique(r: Real, n: int)
    requires
        r.bits < SIGN_WEIGHT,
        r.equals(n),
    ensures
        r == Real::of(n),
{
    let chosen = Real::of(n);
    assert(chosen.bits < SIGN_WEIGHT && chosen.equals(n));
    lemma_field_order(r.field(), chosen.field());
}

/// Only one pattern is worth a positive amount.
pub proof fn lemma_worth_unique(a: Real, b: Real)
    requires
        a.worth() == b.worth(),
        a.worth() > 0,
    ensures
        a == b,
{
    lemma_field_order(a.field(), b.field());
}

/// Zero is below every positive integer.
pub proof fn lemma_zero_is_small(n: int)
    requires
        n > 0,
    ensures
        Real::of(0).below(n),
        Real::of(0).worth() == 0,
        Real::of(0) == (Real { bits: 0 }),
        !Real::of(0).is_nan(),
{
    let zero = Real { bits: 0 };
    assert(0 * one() == 0) by (nonlinear_arith);
    lemma_of_unique(zero, 0);
    lemma_pow2_pos(1074);
    assert(0 < n * one()) by (nonlinear_arith)
        requires
            n > 0,
            one() > 0,
    ;
}

impl Real {
    /// The pattern without its sign bit.
    fn magnitude(self) -> (r: u64)
        ensures
            r == self.field(),
    {
        self.bits % SIGN_WEIGHT
    }

    /// The number's place in the order of all numbers: the magnitude field, negative for
    /// a negative number.
    fn rank(self) -> (r: i128)
        ensures
            self.bits >= SIGN_WEIGHT ==> r == -self.field(),
            self.bits < SIGN_WEIGHT ==> r == self.field(),
    {
        let m: i128 = self.magnitude() as i128;
        if self.bits >= SIGN_WEIGHT {
            -m
        } else {
            m
        }
    }

    /// Zero.
    pub fn zero() -> (r: Real)
        ensures
            r.bits == 0,
            r.equals(0),
            r == Real::of(0),
    {
        let r = Real { bits: 0 };
        proof {
            assert(0 * one() == 0) by (nonlinear_arith);
            lemma_of_unique(r, 0);
        }
        r
    }

    /// Whether the pattern stands for no number.
    pub fn not_a_number(self) -> (r: bool)
        ensures
            r == self.is_nan(),
    {
        self.magnitude() > INFINITY_FIELD
    }

    /// `self < other`, false where one of them is not a number.
    pub fn is_less(self, other: Real) -> (r: bool)
        ensures
            r == self.lt(other),
    {
        proof {
            lemma_field_order(self.field(), other.field());
            lemma_field_order(self.field(), 0);
            lemma_field_order(other.field(), 0);
            lemma_zero_field();
        }
        !self.not_a_number() && !other.not_a_number() && self.rank() < other.rank()
    }

    /// `self <= other`, false where one of them is not a number.
    pub fn is_at_most(self, other: Real) -> (r: bool)
        ensures
            r == self.le(other),
    {
        proof {
            lemma_field_order(self.field(), other.field());
            lemma_field_order(self.field(), 0);
            lemma_field_order(other.field(), 0);
            lemma_zero_field();
        }
        !self.not_a_number() && !other.not_a_number() && self.rank() <= other.rank()
    }
}

impl Real {
    /// Whether the first is worth no more than the second. On numbers this is
    /// `self <= other`.
    pub fn is_worth_at_most(self, other: Real) -> (r: bool)
        ensures
            r == (self.worth() <= other.worth()),
    {
        proof {
            lemma_field_order(self.field(), other.field());
            lemma_field_order(self.field(), 0);
            lemma_field_order(other.field(), 0);
            lemma_zero_field();
        }
        self.rank() <= other.rank()
    }

    /// The same number with the other sign.
    pub fn negated(self) -> (r: Real)
        ensures
            r.worth() == -self.worth(),
            r.is_nan() == self.is_nan(),
    {
        let bits: u64 = if self.bits >= SIGN_WEIGHT {
            self.bits - SIGN_WEIGHT
        } else {
            self.bits + SIGN_WEIGHT
        };
        Real { bits }
    }

    /// The integer `n` as a number, without loss.
    pub fn whole(n: u64) -> (r: Real)
        requires
            n < 0x20_0000_0000_0000,
        ensures
            r.equals(n as int),
            r == Real::of(n as int),
    {
        proof {
            lemma_powers();
        }
        if n == 0 {
            return Real::zero();
        }
        let mut top: u64 = 1;
        let mut scale: u64 = FRACTION_SPAN;
        let mut place: u64 = 0;
        while n - top >= top
            invariant
                0 < top <= n < 0x20_0000_0000_0000,
                place <= 52,
                top == pow2(place as nat),
                scale == pow2((52 - place) as nat),
                pow2(52) == FRACTION_SPAN,
            decreases n - top,
        {
            proof {
                lemma_powers();
                lemma_pow2_adds(1, place as nat);
                if place == 52 {
                    assert(false);
                }
                lemma_pow2_adds(1, (51 - place) as nat);
            }
            top = top * 2;
            scale = scale / 2;
            place = place + 1;
        }
        let rest: u64 = n - top;
        proof {
            lemma_pow2_adds(place as nat, (52 - place) as nat);
            lemma_pow2_pos((52 - place) as nat);
            assert(top * scale == FRACTION_SPAN);
            assert(0 <= rest * scale < top * scale) by (nonlinear_arith)
                requires
                    0 <= rest < top,
                    scale > 0,
            ;
        }
        let bits: u64 = (1023 + place) * FRACTION_SPAN + rest * scale;
        proof {
            let span = FRACTION_SPAN as int;
            let e = 1023 + place as int;
            let f = rest * scale;
            assert(bits == e * span + f);
            assert(bits as int / span == e && bits as int % span == f);
            let p = pow2((e - 1) as nat) as int;
            lemma_pow2_adds((52 - place) as nat, (e - 1) as nat);
            assert(scale * p == one());
            assert((span + f) * p == n * (scale * p)) by (nonlinear_arith)
                requires
                    span == top * scale,
                    f == rest * scale,
                    n == top + rest,
            ;
            lemma_of_unique(Real { bits }, n as int);
        }
        Real { bits }
    }

    /// One half.
    pub fn half() -> (r: Real)
        ensures
            !r.is_nan(),
            2 * r.worth() == one(),
    {
        let r = Real { bits: 0x3fe0_0000_0000_0000 };
        proof {
            lemma_powers();
            lemma_pow2_adds(52, 1021);
            lemma_pow2_adds(1, 1073);
        }
        r
    }

    /// The largest finite number.
    pub fn largest() -> (r: Real)
        ensures
            r.bits == INFINITY_FIELD - 1,
            !r.is_nan(),
    {
        Real { bits: INFINITY_FIELD - 1 }
    }

    /// Whether the number is smaller than the integer `n`.
    pub fn is_below(self, n: u64) -> (r: bool)
        requires
            n < 0x20_0000_0000_0000,
        ensures
            r == self.below(n as int),
    {
        self.is_less(Real::whole(n))
    }

    /// Whether the number is smaller than one half.
    pub fn is_below_half(self) -> (r: bool)
        ensures
            r == self.below_half(),
    {
        self.is_less(Real::half())
    }

    /// Whether the number is larger than the integer `n`.
    pub fn is_above(self, n: u64) -> (r: bool)
        requires
            n < 0x20_0000_0000_0000,
        ensures
            r == self.above(n as int),
    {
        Real::whole(n).is_less(self)
    }

    /// Whether the number is not smaller than the integer `n`.
    pub fn is_at_least(self, n: u64) -> (r: bool)
        requires
            n < 0x20_0000_0000_0000,
        ensures
            r == self.at_least(n as int),
    {
        Real::whole(n).is_at_most(self)
    }

    /// Whether the number is smaller than the integer `-n`.
    pub fn is_below_minus(self, n: u64) -> (r: bool)
        requires
            n < 0x20_0000_0000_0000,
        ensures
            r == self.below(-n),
    {
        let bound = Real::whole(n).negated();
        proof {
            assert(-(n * one()) == (-n) * one()) by (nonlinear_arith);
        }
        self.is_less(bound)
    }

    /// The digits before the point, cut off at the ends of the integer type.
    pub fn to_i64(self) -> (r: i64)
        ensures
            r == self.whole_i64(),
    {
        if self.not_a_number() {
            return 0;
        }
        let field: u64 = self.magnitude();
        let exponent: u64 = field / FRACTION_SPAN;
        let fraction: u64 = field % FRACTION_SPAN;
        let digits: u64 = FRACTION_SPAN + fraction;
        proof {
            lemma_pow2_pos(1074);
            lemma_field_whole(field as int);
        }
        let n: u64 = if exponent < 1023 {
            0
        } else if exponent >= 1086 {
            SIGN_WEIGHT
        } else if exponent >= 1075 {
            let shift: u64 = exponent - 1075;
            proof {
                lemma_shifted_digits_fit(digits, shift);
                lemma_u64_shl_is_mul(digits, shift);
            }
            digits << shift
        } else {
            let shift: u64 = 1075 - exponent;
            proof {
                lemma_u64_shr_is_div(digits, shift);
            }
            digits >> shift
        };
        if self.bits >= SIGN_WEIGHT {
            if n >= SIGN_WEIGHT {
                i64::MIN
            } else {
                -(n as i64)
            }
        } else if n >= SIGN_WEIGHT {
            i64::MAX
        } else {
            n as i64
        }
    }

    /// The digits before the point, cut off at the ends of the integer type.
    pub fn to_i32(self) -> (r: i32)
        ensures
            r == self.whole_i32(),
    {
        let n: i64 = self.to_i64();
        if n < i32::MIN as i64 {
            i32::MIN
        } else if n > i32::MAX as i64 {
            i32::MAX
        } else {
            n as i32
        }
    }
}

/// Shifting up to ten places keeps the digits of a number inside 63 bits.
proof fn lemma_shifted_digits_fit(digits: u64, shift: u64)
    requires
        digits < 0x20_0000_0000_0000,
        shift <= 10,
    ensures
        digits * pow2(shift as nat) < SIGN_WEIGHT,
{
    lemma_powers();
    let p = pow2(shift as nat) as int;
    assert(p <= 1024) by {
        lemma_pow2_adds(shift as nat, (10 - shift) as nat);
        lemma_pow2_pos((10 - shift) as nat);
        let q = pow2((10 - shift) as nat) as int;
        assert(p <= p * q) by (nonlinear_arith)
            requires
                p >= 0,
                q >= 1,
        ;
    }
    assert(digits * p < SIGN_WEIGHT) by (nonlinear_arith)
        requires
            digits < 0x20_0000_0000_0000,
            0 <= p <= 1024,
    ;
}

/// The whole part of a field's worth, by its exponent.
proof fn lemma_field_whole(field: int)
    requires
        0 <= field < SIGN_WEIGHT,
    ensures
        ({
            let exponent = field / FRACTION_SPAN as int;
            let digits = FRACTION_SPAN + field % FRACTION_SPAN as int;
            let whole = field_worth(field) as int / one() as int;
            &&& exponent < 1023 ==> whole == 0
            &&& 1023 <= exponent < 1075 ==> whole == digits / pow2(
                (1075 - exponent) as nat,
            ) as int
            &&& exponent >= 1075 ==> whole == digits * pow2((exponent - 1075) as nat)
            &&& exponent >= 1086 ==> whole >= SIGN_WEIGHT
        }),
{
    let span = FRACTION_SPAN as int;
    let exponent = field / span;
    let fraction = field % span;
    let digits = span + fraction;
    let w = field_worth(field) as int;
    lemma_powers();
    lemma_pow2_pos(1074);
    if exponent >= 1075 {
        let up = pow2((exponent - 1075) as nat) as int;
        lemma_pow2_adds((exponent - 1075) as nat, 1074);
        assert(w == one() * (digits * up)) by (nonlinear_arith)
            requires
                w == digits * (up * one()),
        ;
        lemma_div_multiples_vanish(digits * up, one() as int);
        if exponent >= 1086 {
            lemma_pow2_adds(11, (exponent - 1086) as nat);
            lemma_pow2_pos((exponent - 1086) as nat);
            let more = pow2((exponent - 1086) as nat) as int;
            assert(up == 2048 * more);
            assert(digits * up >= span * 2048) by (nonlinear_arith)
                requires
                    digits >= span,
                    span > 0,
                    up == 2048 * more,
                    more >= 1,
            ;
        }
    } else {
        let down = (1075 - exponent) as nat;
        if exponent >= 1 {
            let p = pow2((exponent - 1) as nat) as int;
            lemma_pow2_pos((exponent - 1) as nat);
            lemma_pow2_pos(down);
            lemma_pow2_adds((exponent - 1) as nat, down);
            let d = pow2(down) as int;
            assert(one() == p * d);
            lemma_div_denominator(digits * p, p, d);
            lemma_mul_is_commutative(digits, p);
            lemma_div_multiples_vanish(digits, p);
            assert(w / one() as int == digits / d);
            if exponent < 1023 {
                lemma_pow2_adds(53, (down - 53) as nat);
                lemma_pow2_pos((down - 53) as nat);
                let more = pow2((down - 53) as nat) as int;
                assert(d >= 2 * span) by (nonlinear_arith)
                    requires
                        d == (2 * span) * more,
                        more >= 1,
                        span > 0,
                ;
                assert(digits / d == 0) by {
                    vstd::arithmetic::div_mod::lemma_basic_div(digits, d);
                }
            }
        } else {
            lemma_pow2_adds(52, 1022);
            lemma_pow2_pos(1022);
            let more = pow2(1022) as int;
            assert(one() >= span) by (nonlinear_arith)
                requires
                    one() == span * more,
                    more >= 1,
                    span > 0,
            ;
            vstd::arithmetic::div_mod::lemma_basic_div(w, one() as int);
        }
    }
}

/// A number that is below an integer is below every larger one and above none of these.
pub proof fn whole_numbers_are_spread(x: Real, m: int, n: int)
    requires
        m <= n,
    ensures
        x.below(m) ==> x.below(n) && !x.above(n) && !x.at_least(n),
        x.above(n) ==> x.above(m) && x.at_least(m),
        !x.is_nan() ==> (x.below(n) <==> !x.at_least(n)),
        x.above(n) ==> x.at_least(n),
        x.at_least(n) && !x.above(n) ==> x.equals(n),
        x.is_nan() ==> !x.below(n) && !x.above(n) && !x.at_least(n),
{
    lemma_pow2_pos(1074);
    assert(m * one() <= n * one()) by (nonlinear_arith)
        requires
            m <= n,
            one() > 0,
    ;
}

/// Numbers are ordered as their patterns are: those without a sign by the pattern, those
/// with a sign the other way round, and a number with a sign before one without, but for
/// the two zeros.
pub proof fn order_is_that_of_the_patterns(a: Real, b: Real)
    ensures
        a.bits <= INFINITY_FIELD && b.bits <= INFINITY_FIELD ==> (a.lt(b) <==> a.bits < b.bits),
        SIGN_WEIGHT <= a.bits <= SIGN_WEIGHT + INFINITY_FIELD && SIGN_WEIGHT <= b.bits
            <= SIGN_WEIGHT + INFINITY_FIELD ==> (a.lt(b) <==> b.bits < a.bits),
        SIGN_WEIGHT <= a.bits <= SIGN_WEIGHT + INFINITY_FIELD && b.bits <= INFINITY_FIELD ==> !b.lt(
            a,
        ) && (a.lt(b) <==> a.bits != SIGN_WEIGHT || b.bits != 0),
        a.lt(b) || b.lt(a) || a.worth() == b.worth() || a.is_nan() || b.is_nan(),
        a.le(b) <==> (a.lt(b) || (!a.is_nan() && !b.is_nan() && a.worth() == b.worth())),
        a.is_nan() || b.is_nan() ==> !a.lt(b) && !a.le(b),
        a.is_nan() <==> INFINITY_FIELD < a.bits < SIGN_WEIGHT || SIGN_WEIGHT + INFINITY_FIELD
            < a.bits,
{
    lemma_field_order(a.field(), b.field());
    lemma_field_order(0, a.field());
    lemma_field_order(0, b.field());
    lemma_zero_field();
}

/// The whole part is the integer next to the number on the side of zero.
pub proof fn whole_part_is_cut_off(x: Real)
    requires
        !x.is_nan(),
    ensures
        x.worth() >= 0 ==> x.whole_part() >= 0 && x.whole_part() * one() <= x.worth() < (
        x.whole_part() + 1) * one(),
        x.worth() <= 0 ==> x.whole_part() <= 0 && (x.whole_part() - 1) * one() < x.worth()
            <= x.whole_part() * one(),
{
    lemma_pow2_pos(1074);
    let d = one() as int;
    let w = if x.worth() < 0 {
        -x.worth()
    } else {
        x.worth()
    };
    vstd::arithmetic::div_mod::lemma_fundamental_div_mod(w, d);
    vstd::arithmetic::div_mod::lemma_mod_bound(w, d);
    vstd::arithmetic::div_mod::lemma_div_pos_is_pos(w, d);
    let q = w / d;
    assert(q * d <= w < (q + 1) * d && -q * d == -(q * d) && (-q - 1) * d == -((q + 1) * d))
        by (nonlinear_arith)
        requires
            w == d * q + w % d,
            0 <= w % d < d,
    ;
    if w == 0 {
        vstd::arithmetic::div_mod::lemma_div_of0(d);
    }
}

/// The whole part is taken as it is where it fits into 64 or 32 bits, and cut off at the
/// nearest end of the range where it does not. What is no number counts as zero.
pub proof fn whole_parts_are_cut_off_at_the_ends(x: Real)
    ensures
        i64::MIN <= x.whole_part() <= i64::MAX ==> x.whole_i64() == x.whole_part(),
        x.whole_part() < i64::MIN ==> x.whole_i64() == i64::MIN,
        x.whole_part() > i64::MAX ==> x.whole_i64() == i64::MAX,
        i32::MIN <= x.whole_part() <= i32::MAX ==> x.whole_i32() == x.whole_part(),
        x.whole_part() < i32::MIN ==> x.whole_i32() == i32::MIN,
        x.whole_part() > i32::MAX ==> x.whole_i32() == i32::MAX,
        x.is_nan() ==> x.whole_i64() == 0 && x.whole_i32() == 0,
{
}

/// A number is smaller than one half exactly where it comes before the pattern of one half.
pub proof fn one_half_has_its_pattern(x: Real)
    ensures
        x.below_half() <==> x.lt(Real { bits: 0x3fe0_0000_0000_0000 }),
        x.below_half() ==> x.below(1),
        x.is_nan() ==> !x.below_half(),
{
    lemma_powers();
    lemma_pow2_adds(52, 1021);
    lemma_pow2_adds(1, 1073);
    lemma_pow2_pos(1074);
}

/// The largest finite number is not below one hundred.
pub proof fn lemma_largest_is_large()
    ensures
        !(Real { bits: 0x7fef_ffff_ffff_ffff }).below(100),
{
    let x = Real { bits: 0x7fef_ffff_ffff_ffff };
    lemma_pow2_adds(1074, 971);
    lemma_pow2_pos(971);
    lemma_pow2_pos(1074);
    let span = FRACTION_SPAN as int;
    assert(x.field() / span == 2046);
    assert(x.worth() == (span + x.field() % span) * pow2(2045));
    let p = pow2(1074) as int;
    let q = pow2(971) as int;
    let r = x.field() % span;
    assert((span + r) * (p * q) >= 100 * p) by (nonlinear_arith)
        requires
            span >= 100,
            r >= 0,
            p > 0,
            q >= 1,
    ;
}

} // verus!
