//! Double-precision numbers as plain integers.
//!
//! A number is held as its bit pattern in the IEEE 754 binary64 format: a sign bit, eleven bits
//! of exponent, fifty-two bits of fraction. Comparing, and telling whole numbers from others,
//! needs no more than integer arithmetic on that pattern.
use vstd::arithmetic::div_mod::*;
use vstd::arithmetic::mul::*;
use vstd::arithmetic::power2::*;
use vstd::prelude::*;

verus! {

/// The bit pattern of a binary64 number.
#[derive(Clone, Copy, Debug, PartialEq, Eq, Structural, Hash)]
pub struct Number {
    pub bits: u64,
}

/// The weight of the sign bit.
pub const SIGN: u64 = 0x8000_0000_0000_0000;

/// The magnitude pattern of infinity; greater ones are not numbers.
pub const INFINITY: u64 = 0x7ff0_0000_0000_0000;

/// The weight of the lowest exponent bit.
pub const EXPONENT_STEP: u64 = 0x10_0000_0000_0000;

/// The magnitude pattern of 2^63.
pub const TWO_TO_63: u64 = 0x43e0_0000_0000_0000;

impl Number {
    /// The bits below the sign.
    pub open spec fn magnitude(self) -> int {
        self.bits as int % SIGN as int
    }

    /// The place of the number among all numbers: greater numbers have greater keys, and the two
    /// zeros share one.
    pub open spec fn key(self) -> int {
        if self.bits >= SIGN {
            -self.magnitude()
        } else {
            self.magnitude()
        }
    }

    /// The pattern stands for a finite number.
    pub open spec fn is_finite(self) -> bool {
        self.magnitude() < INFINITY
    }

    /// The pattern stands for no number.
    pub open spec fn is_nan(self) -> bool {
        self.magnitude() > INFINITY
    }

    /// The exact value of a finite number, counted in the smallest positive one, 2^-1074.
    pub open spec fn units(self) -> int {
        if self.bits >= SIGN {
            -magnitude_units(self.magnitude())
        } else {
            magnitude_units(self.magnitude())
        }
    }

    /// The finite number is a whole number.
    pub open spec fn is_whole(self) -> bool {
        self.units() % pow2(1074) as int == 0
    }

    /// The value of a whole number.
    pub open spec fn whole(self) -> int {
        self.units() / pow2(1074) as int
    }
}

/// The value of a magnitude pattern in units of 2^-1074: the fraction alone where the exponent is
/// zero, else the fraction with its implied leading bit, shifted by the exponent.
pub open spec fn magnitude_units(magnitude: int) -> int {
    let exponent = magnitude / EXPONENT_STEP as int;
    let fraction = magnitude % EXPONENT_STEP as int;
    if exponent == 0 {
        fraction
    } else {
        (EXPONENT_STEP + fraction) * pow2((exponent - 1) as nat)
    }
}

/// `a` is the lesser number.
pub open spec fn less(a: Number, b: Number) -> bool {
    !a.is_nan() && !b.is_nan() && a.key() < b.key()
}

/// `a` is the lesser number or equal to `b`.
pub open spec fn at_most(a: Number, b: Number) -> bool {
    !a.is_nan() && !b.is_nan() && a.key() <= b.key()
}

/// The two are equal in value. What is no number is equal to nothing, not even to itself.
pub open spec fn equal(a: Number, b: Number) -> bool {
    !a.is_nan() && !b.is_nan() && a.key() == b.key()
}

/// The lesser of two numbers; the first where they are equal. Where one is no number, the other.
pub open spec fn min_of(a: Number, b: Number) -> Number {
    if a.is_nan() || less(b, a) {
        b
    } else {
        a
    }
}

/// The greater of two numbers; the first where they are equal. Where one is no number, the other.
pub open spec fn max_of(a: Number, b: Number) -> Number {
    if a.is_nan() || less(a, b) {
        b
    } else {
        a
    }
}

proof fn lemma_magnitude_units_positive(magnitude: int)
    requires
        0 <= magnitude < INFINITY,
    ensures
        magnitude_units(magnitude) >= 0,
        magnitude > 0 ==> magnitude_units(magnitude) > 0,
{
    let exponent = magnitude / EXPONENT_STEP as int;
    let fraction = magnitude % EXPONENT_STEP as int;
    if exponent != 0 {
        lemma_pow2_pos((exponent - 1) as nat);
        assert((EXPONENT_STEP + fraction) * pow2((exponent - 1) as nat) > 0) by (nonlinear_arith)
            requires
                EXPONENT_STEP + fraction > 0,
                pow2((exponent - 1) as nat) > 0,
        ;
    }
}

proof fn lemma_magnitude_units_increase(a: int, b: int)
    requires
        0 <= a < b < INFINITY,
    ensures
        magnitude_units(a) < magnitude_units(b),
{
    let step = EXPONENT_STEP as int;
    let (ea, fa) = (a / step, a % step);
    let (eb, fb) = (b / step, b % step);
    assert(ea <= eb);
    if eb > 0 {
        let pb = pow2((eb - 1) as nat) as int;
        lemma_pow2_pos((eb - 1) as nat);
        assert((step + fb) * pb >= step * pb && step * pb >= step) by (nonlinear_arith)
            requires
                fb >= 0,
                pb >= 1,
                step >= 0,
        ;
        if ea == 0 {
            assert(fa < step);
        } else if ea == eb {
            assert(fa < fb);
            assert((step + fa) * pb < (step + fb) * pb) by (nonlinear_arith)
                requires
                    fa < fb,
                    pb >= 1,
            ;
        } else {
            let pa = pow2((ea - 1) as nat) as int;
            lemma_pow2_pos((ea - 1) as nat);
            lemma_pow2_unfold(ea as nat);
            if ea < eb - 1 {
                lemma_pow2_strictly_increases(ea as nat, (eb - 1) as nat);
            }
            assert(2 * pa <= pb);
            assert((step + fa) * pa < step * pb) by (nonlinear_arith)
                requires
                    0 <= fa < step,
                    pa >= 1,
                    2 * pa <= pb,
            ;
        }
    }
}

/// The order of the keys is the order of the values: of two finite numbers the one with the
/// smaller key is the lesser, and equal keys mean equal values.
pub proof fn law_keys_order_values(a: Number, b: Number)
    requires
        a.is_finite(),
        b.is_finite(),
    ensures
        less(a, b) <==> a.units() < b.units(),
        equal(a, b) <==> a.units() == b.units(),
{
    let (ma, mb) = (a.magnitude(), b.magnitude());
    lemma_magnitude_units_positive(ma);
    lemma_magnitude_units_positive(mb);
    if ma < mb {
        lemma_magnitude_units_increase(ma, mb);
    } else if mb < ma {
        lemma_magnitude_units_increase(mb, ma);
    }
}

/// 2^`n`.
fn power_of_two(n: u64) -> (power: u64)
    requires
        n <= 62,
    ensures
        power == pow2(n as nat),
        power >= 1,
{
    let mut power: u64 = 1;
    let mut k: u64 = 0;
    proof {
        lemma2_to64();
    }
    while k < n
        invariant
            k <= n <= 62,
            power == pow2(k as nat),
            power >= 1,
        decreases n - k,
    {
        proof {
            lemma_pow2_unfold((k + 1) as nat);
            lemma2_to64();
            lemma2_to64_rest();
            if k + 1 < 63 {
                lemma_pow2_strictly_increases((k + 1) as nat, 63);
            }
        }
        power = power * 2;
        k = k + 1;
    }
    power
}

proof fn lemma_mod_scaled(a: int, b: int, k: int)
    requires
        b > 0,
        k > 0,
    ensures
        (a * k) % (b * k) == (a % b) * k,
        (a * k) / (b * k) == a / b,
{
    let (q, r) = (a / b, a % b);
    lemma_fundamental_div_mod(a, b);
    assert(b * k > 0 && 0 <= r * k < b * k && a * k == q * (b * k) + r * k) by (nonlinear_arith)
        requires
            b > 0,
            k > 0,
            0 <= r < b,
            a == b * q + r,
    ;
    lemma_fundamental_div_mod_converse(a * k, b * k, q, r * k);
}

/// The exponent and the fraction of a pattern with a nonzero exponent, against its whole part.
proof fn lemma_whole_parts(magnitude: int)
    requires
        EXPONENT_STEP <= magnitude < INFINITY,
    ensures
        ({
            let exponent = magnitude / EXPONENT_STEP as int;
            let lead = EXPONENT_STEP + magnitude % EXPONENT_STEP as int;
            let units = magnitude_units(magnitude);
            let one = pow2(1074) as int;
            &&& exponent >= 1075 ==> units % one == 0 && units / one == lead * pow2(
                (exponent - 1075) as nat,
            )
            &&& 1023 <= exponent < 1075 ==> {
                let cut = pow2((1075 - exponent) as nat) as int;
                &&& units % one == 0 <==> lead % cut == 0
                &&& units / one == lead / cut
            }
            &&& exponent < 1023 ==> 0 < units < one
        }),
{
    let exponent = magnitude / EXPONENT_STEP as int;
    let lead = EXPONENT_STEP + magnitude % EXPONENT_STEP as int;
    let one = pow2(1074) as int;
    let shift = pow2((exponent - 1) as nat) as int;
    lemma_pow2_pos(1074);
    lemma_pow2_pos((exponent - 1) as nat);
    if exponent >= 1075 {
        let over = pow2((exponent - 1075) as nat) as int;
        lemma_pow2_adds((exponent - 1075) as nat, 1074);
        assert(lead * shift == (lead * over) * one + 0) by (nonlinear_arith)
            requires
                shift == over * one,
        ;
        lemma_fundamental_div_mod_converse(lead * shift, one, lead * over, 0);
    } else if exponent >= 1023 {
        let cut = pow2((1075 - exponent) as nat) as int;
        lemma_pow2_pos((1075 - exponent) as nat);
        lemma_pow2_adds((1075 - exponent) as nat, (exponent - 1) as nat);
        lemma_mod_scaled(lead, cut, shift);
        assert(((lead % cut) * shift == 0) <==> (lead % cut == 0)) by (nonlinear_arith)
            requires
                shift > 0,
        ;
    } else {
        lemma2_to64();
        lemma_pow2_adds(53, (exponent - 1) as nat);
        assert(53 + (exponent - 1) <= 1074);
        if 53 + (exponent - 1) < 1074 {
            lemma_pow2_strictly_increases((53 + (exponent - 1)) as nat, 1074);
        }
        assert(pow2(53) == 2 * EXPONENT_STEP) by {
            lemma2_to64_rest();
        }
        assert(0 < lead * shift && lead * shift < pow2(53) * shift) by (nonlinear_arith)
            requires
                0 < lead < pow2(53),
                shift > 0,
        ;
    }
}

/// The value of 2^63 in units.
proof fn lemma_two_to_63()
    ensures
        magnitude_units(TWO_TO_63 as int) == pow2(63) * pow2(1074),
{
    assert(TWO_TO_63 as int / EXPONENT_STEP as int == 1086);
    assert(TWO_TO_63 as int % EXPONENT_STEP as int == 0);
    lemma2_to64();
    lemma2_to64_rest();
    assert(pow2(52) == EXPONENT_STEP);
    lemma_pow2_adds(52, 1085);
    lemma_pow2_adds(63, 1074);
}

impl Number {
    /// The place of the number among all numbers.
    pub fn rank(self) -> (rank: i64)
        ensures
            rank == self.key(),
    {
        if self.bits >= SIGN {
            -((self.bits - SIGN) as i64)
        } else {
            self.bits as i64
        }
    }

    /// Whether the pattern stands for no number.
    pub fn not_a_number(self) -> (answer: bool)
        ensures
            answer == self.is_nan(),
    {
        self.bits % SIGN > INFINITY
    }

    /// Whether the number is less than another.
    pub fn less_than(self, other: Number) -> (answer: bool)
        ensures
            answer == less(self, other),
    {
        !self.not_a_number() && !other.not_a_number() && self.rank() < other.rank()
    }

    /// Whether the number is less than another or equal to it.
    pub fn no_more_than(self, other: Number) -> (answer: bool)
        ensures
            answer == at_most(self, other),
    {
        !self.not_a_number() && !other.not_a_number() && self.rank() <= other.rank()
    }

    /// Whether two numbers are equal in value.
    pub fn equals(self, other: Number) -> (answer: bool)
        ensures
            answer == equal(self, other),
    {
        !self.not_a_number() && !other.not_a_number() && self.rank() == other.rank()
    }

    /// The lesser of two numbers.
    pub fn min(self, other: Number) -> (least: Number)
        ensures
            least == min_of(self, other),
    {
        if self.not_a_number() || other.less_than(self) {
            other
        } else {
            self
        }
    }

    /// The greater of two numbers.
    pub fn max(self, other: Number) -> (greatest: Number)
        ensures
            greatest == max_of(self, other),
    {
        if self.not_a_number() || self.less_than(other) {
            other
        } else {
            self
        }
    }

    /// Whether a finite number is whole.
    pub fn integral(self) -> (answer: bool)
        requires
            self.is_finite(),
        ensures
            answer == self.is_whole(),
    {
        let magnitude: u64 = if self.bits >= SIGN {
            self.bits - SIGN
        } else {
            self.bits
        };
        let exponent: u64 = magnitude / EXPONENT_STEP;
        let lead: u64 = EXPONENT_STEP + magnitude % EXPONENT_STEP;
        proof {
            lemma_pow2_pos(1074);
            lemma_magnitude_units_positive(magnitude as int);
            if exponent >= 1 {
                lemma_whole_parts(magnitude as int);
            } else {
                lemma2_to64();
                lemma2_to64_rest();
                lemma_pow2_strictly_increases(52, 1074);
            }
            lemma_negated_remainder(magnitude_units(magnitude as int), pow2(1074) as int);
            if 0 < magnitude_units(magnitude as int) < pow2(1074) {
                lemma_small_mod(magnitude_units(magnitude as int) as nat, pow2(1074));
            }
        }
        if magnitude == 0 {
            proof {
                lemma_small_mod(0, pow2(1074));
            }
            true
        } else if exponent < 1023 {
            false
        } else if exponent >= 1075 {
            true
        } else {
            lead % power_of_two(1075 - exponent) == 0
        }
    }

    /// Whether a finite number lies between -2^63 and 2^63, the ends among them.
    pub fn within_64_bits(self) -> (answer: bool)
        requires
            self.is_finite(),
        ensures
            answer == (-(pow2(63) * pow2(1074)) <= self.units() <= pow2(63) * pow2(1074)),
    {
        let magnitude: u64 = if self.bits >= SIGN {
            self.bits - SIGN
        } else {
            self.bits
        };
        proof {
            lemma_two_to_63();
            lemma_magnitude_units_positive(magnitude as int);
            lemma_magnitude_units_positive(TWO_TO_63 as int);
            if (magnitude as int) < TWO_TO_63 {
                lemma_magnitude_units_increase(magnitude as int, TWO_TO_63 as int);
            } else if magnitude as int > TWO_TO_63 {
                lemma_magnitude_units_increase(TWO_TO_63 as int, magnitude as int);
            }
        }
        magnitude <= TWO_TO_63
    }

    /// The value of a whole number between -2^63 and 2^63; 2^63 itself, which no 64-bit integer
    /// is, becomes the greatest of them.
    pub fn to_integer(self) -> (value: i64)
        requires
            self.is_finite(),
            self.is_whole(),
            -(pow2(63) * pow2(1074)) <= self.units() <= pow2(63) * pow2(1074),
        ensures
            value == (if self.whole() > i64::MAX {
                i64::MAX as int
            } else {
                self.whole()
            }),
    {
        let magnitude: u64 = if self.bits >= SIGN {
            self.bits - SIGN
        } else {
            self.bits
        };
        let exponent: u64 = magnitude / EXPONENT_STEP;
        let lead: u64 = EXPONENT_STEP + magnitude % EXPONENT_STEP;
        let ghost units = magnitude_units(magnitude as int);
        let ghost one = pow2(1074) as int;
        proof {
            lemma_pow2_pos(1074);
            lemma_magnitude_units_positive(magnitude as int);
            lemma_negated_remainder(units, one);
            lemma_two_to_63();
            lemma2_to64();
            lemma2_to64_rest();
            if exponent >= 1 {
                lemma_whole_parts(magnitude as int);
            } else {
                lemma_pow2_strictly_increases(52, 1074);
                if magnitude > 0 {
                    lemma_small_mod(units as nat, pow2(1074));
                }
            }
            if magnitude == 0 {
                lemma_small_mod(0, pow2(1074));
                assert(0int / one == 0) by {
                    lemma_basic_div(0, one);
                }
            }
            if 0 < units < one {
                lemma_small_mod(units as nat, pow2(1074));
            }
            if magnitude > TWO_TO_63 {
                lemma_magnitude_units_increase(TWO_TO_63 as int, magnitude as int);
            }
            assert(magnitude <= TWO_TO_63);
            assert(exponent <= 1086);
        }
        if magnitude == TWO_TO_63 {
            proof {
                assert(pow2(63) * one == one * pow2(63) + 0) by (nonlinear_arith);
                lemma_fundamental_div_mod_converse(units, one, pow2(63) as int, 0);
            }
            return if self.bits >= SIGN {
                i64::MIN
            } else {
                i64::MAX
            };
        }
        let size: u64 = if magnitude == 0 {
            0
        } else if exponent >= 1075 {
            let over = power_of_two(exponent - 1075);
            proof {
                let e = (exponent - 1075) as nat;
                assert(exponent <= 1085);
                lemma_pow2_adds(53, e);
                if 53 + e < 63 {
                    lemma_pow2_strictly_increases(53 + e, 63);
                }
                assert(lead * over < pow2(53) * over) by (nonlinear_arith)
                    requires
                        lead < pow2(53),
                        over >= 1,
                ;
            }
            lead * over
        } else {
            lead / power_of_two(1075 - exponent)
        };
        proof {
            assert(size as int == units / one);
            assert(size < SIGN);
        }
        if self.bits >= SIGN {
            -(size as i64)
        } else {
            size as i64
        }
    }
}

/// A multiple and its negative leave no remainder; nothing else does.
proof fn lemma_negated_remainder(a: int, b: int)
    requires
        b > 0,
    ensures
        (-a) % b == 0 <==> a % b == 0,
        a % b == 0 ==> (-a) / b == -(a / b),
{
    lemma_fundamental_div_mod(a, b);
    lemma_fundamental_div_mod(-a, b);
    if a % b == 0 {
        assert(-a == (-(a / b)) * b + 0) by (nonlinear_arith)
            requires
                a == b * (a / b),
        ;
        lemma_fundamental_div_mod_converse(-a, b, -(a / b), 0);
    }
    if (-a) % b == 0 {
        assert(a == (-((-a) / b)) * b + 0) by (nonlinear_arith)
            requires
                -a == b * ((-a) / b),
        ;
        lemma_fundamental_div_mod_converse(a, b, -((-a) / b), 0);
    }
}

/// The lesser of two numbers is one of them and exceeds neither; the greater likewise. What is no
/// number gives way to the other.
pub proof fn law_extremes_of_two(a: Number, b: Number)
    ensures
        min_of(a, b) == a || min_of(a, b) == b,
        max_of(a, b) == a || max_of(a, b) == b,
        !a.is_nan() && !b.is_nan() ==> {
            &&& at_most(min_of(a, b), a) && at_most(min_of(a, b), b)
            &&& at_most(a, max_of(a, b)) && at_most(b, max_of(a, b))
        },
        a.is_nan() ==> min_of(a, b) == b && max_of(a, b) == b,
        !a.is_nan() && b.is_nan() ==> min_of(a, b) == a && max_of(a, b) == a,
        at_most(a, b) <==> less(a, b) || equal(a, b),
{
}

} // verus!
