//! Fixed-point conventions and exact integer arithmetic.
//!
//! Temperatures and capacities are stored as whole numbers of thousandths:
//! `17_000` is 17 degrees and `18_000_000` is 18000 Btu/h.  A capacity is
//! rounded to the thousandth towards negative infinity, and only after it
//! was multiplied by its quantity; a value that is shown is rounded to the
//! nearest whole unit, halves to even.  [`Wide`] holds what 64-bit readings
//! can give before it is known to fit 128 bits.

use vstd::prelude::*;
use vstd::arithmetic::div_mod::lemma_fundamental_div_mod;
use vstd::arithmetic::div_mod::lemma_fundamental_div_mod_converse;

verus! {

/// Number of stored units per whole degree or whole Btu/h.
pub const SCALE: i32 = 1000;

/// Quotient and remainder of `num` by a positive `den`, the quotient rounded
/// towards negative infinity: `num == q * den + r` with `0 <= r < den`.
pub fn floor_div_rem(num: i128, den: i128) -> (qr: (i128, i128))
    requires
        den > 0,
    ensures
        qr.0 == num as int / den as int,
        qr.1 == num as int % den as int,
{
    if num >= 0 {
        (num / den, num % den)
    } else {
        let below: i128 = -(num + 1);
        let k: i128 = below / den;
        let m: i128 = below % den;
        proof {
            lemma_fundamental_div_mod(below as int, den as int);
            assert(den * k == k * den) by (nonlinear_arith);
            assert((-k - 1) * den == -(k * den) - den) by (nonlinear_arith);
            lemma_fundamental_div_mod_converse(num as int, den as int, -k - 1, den - m - 1);
        }
        (-k - 1, den - m - 1)
    }
}

/// Quotient of `num` by a positive `den`, rounded towards negative infinity:
/// the greatest integer `q` with `q * den <= num`.
pub fn floor_div(num: i128, den: i128) -> (q: i128)
    requires
        den > 0,
    ensures
        q == num as int / den as int,
{
    floor_div_rem(num, den).0
}

/// The whole number nearest to `num / den`, for a positive `den`; a quotient
/// exactly halfway between two whole numbers goes to the even one.
pub open spec fn rounded_quotient(num: int, den: int) -> int {
    let whole = num / den;
    let rest = num % den;
    if 2 * rest < den || (2 * rest == den && whole % 2 == 0) {
        whole
    } else {
        whole + 1
    }
}

/// The whole number of units nearest to `value` thousandths; a value exactly
/// halfway between two whole numbers goes to the even one.
pub open spec fn rounded_units(value: int) -> int {
    rounded_quotient(value, 1000)
}

/// Rounds `num / den` to the nearest whole number, halves to even.
pub fn round_quotient(num: i128, den: i128) -> (nearest: i128)
    requires
        den > 0,
    ensures
        nearest == rounded_quotient(num as int, den as int),
{
    let (whole, rest) = floor_div_rem(num, den);
    let odd: i128 = floor_div_rem(whole, 2).1;
    proof {
        lemma_fundamental_div_mod(num as int, den as int);
        if rest > 0 {
            assert(whole < i128::MAX) by (nonlinear_arith)
                requires
                    num == den * whole + rest,
                    0 < rest < den,
                    num <= i128::MAX,
            ;
        }
    }
    let below: i128 = den - rest;
    if rest < below || (rest == below && odd == 0) {
        whole
    } else {
        whole + 1
    }
}

/// Rounds a value in thousandths to whole units, halves to even.
pub fn round_to_units(value: i128) -> (units: i128)
    ensures
        units == rounded_units(value as int),
{
    round_quotient(value, SCALE as i128)
}

/// Whether a value lies within the range of `i128`.
pub open spec fn fits(value: int) -> bool {
    i128::MIN <= value <= i128::MAX
}

/// A whole number held as a sign and a magnitude of 128 bits: wide enough
/// for every capacity that readings can give.
#[derive(Debug, Clone, Copy, PartialEq, Eq, Structural)]
pub struct Wide {
    pub negative: bool,
    pub magnitude: u128,
}

impl View for Wide {
    type V = int;

    open spec fn view(&self) -> int {
        if self.negative {
            -(self.magnitude as int)
        } else {
            self.magnitude as int
        }
    }
}

/// Minus a negative number is its magnitude times the divisor's share: the
/// quotient of a negative number, rounded towards negative infinity.
proof fn lemma_floor_of_negative(m: int, d: int)
    requires
        m >= 1,
        d >= 1,
    ensures
        (-m) / d == -((m - 1) / d) - 1,
{
    let k = (m - 1) / d;
    let r = (m - 1) % d;
    lemma_fundamental_div_mod(m - 1, d);
    assert(d * k == k * d) by (nonlinear_arith);
    assert((-k - 1) * d == -(k * d) - d) by (nonlinear_arith);
    lemma_fundamental_div_mod_converse(-m, d, -k - 1, d - r - 1);
}

impl Wide {
    /// Whether zero is held without a sign.
    pub open spec fn normal(&self) -> bool {
        self.magnitude == 0 ==> !self.negative
    }

    /// The number `value`.
    pub fn from_i64(value: i64) -> (wide: Wide)
        ensures
            wide@ == value,
            wide.normal(),
            wide.magnitude <= 0x8000_0000_0000_0000,
    {
        if value < 0 {
            Wide { negative: true, magnitude: (-(value as i128)) as u128 }
        } else {
            Wide { negative: false, magnitude: value as u128 }
        }
    }

    /// The number as an `i128`, if it is within its range.
    pub fn to_i128(&self) -> (value: Option<i128>)
        ensures
            match value {
                Some(v) => v == self@,
                None => !fits(self@),
            },
    {
        if !self.negative {
            if self.magnitude <= 0x7FFF_FFFF_FFFF_FFFF_FFFF_FFFF_FFFF_FFFF {
                Some(self.magnitude as i128)
            } else {
                None
            }
        } else if self.magnitude < 0x8000_0000_0000_0000_0000_0000_0000_0000 {
            Some(-(self.magnitude as i128))
        } else if self.magnitude == 0x8000_0000_0000_0000_0000_0000_0000_0000 {
            Some(i128::MIN)
        } else {
            None
        }
    }

    /// The number plus `value`.
    pub fn plus(&self, value: i64) -> (sum: Wide)
        requires
            self.normal(),
            self.magnitude <= u128::MAX - 0x8000_0000_0000_0000,
        ensures
            sum@ == self@ + value,
            sum.normal(),
    {
        let other = Wide::from_i64(value);
        if self.negative == other.negative {
            Wide { negative: self.negative, magnitude: self.magnitude + other.magnitude }
        } else if self.magnitude > other.magnitude {
            Wide { negative: self.negative, magnitude: self.magnitude - other.magnitude }
        } else if self.magnitude < other.magnitude {
            Wide { negative: other.negative, magnitude: other.magnitude - self.magnitude }
        } else {
            Wide { negative: false, magnitude: 0 }
        }
    }

    /// The number times `quantity`, if the product is within the range of
    /// `i128`.
    pub fn times(&self, quantity: u128) -> (product: Option<i128>)
        ensures
            match product {
                Some(p) => p == self@ * quantity,
                None => !fits(self@ * quantity),
            },
    {
        let ghost q = quantity as int;
        let ghost m = self.magnitude as int;
        proof {
            assert((-m) * q == -(m * q)) by (nonlinear_arith);
            assert(m * q >= 0) by (nonlinear_arith)
                requires
                    m >= 0,
                    q >= 0,
            ;
        }
        match self.magnitude.checked_mul(quantity) {
            Some(whole) => Wide { negative: self.negative, magnitude: whole }.to_i128(),
            None => None,
        }
    }

    /// The quotient of two magnitudes with the sign of their product, rounded
    /// towards negative infinity: `num / den`, or `-num / den` where
    /// `negative` is set.
    pub fn quotient(negative: bool, num: u128, den: u128) -> (wide: Wide)
        requires
            den > 0,
        ensures
            wide@ == if negative {
                (-(num as int)) / (den as int)
            } else {
                (num as int) / (den as int)
            },
            wide.normal(),
            wide.magnitude <= num,
    {
        if !negative || num == 0 {
            proof {
                assert(num as int / den as int <= num) by (nonlinear_arith)
                    requires
                        num >= 0,
                        den >= 1,
                ;
            }
            Wide { negative: false, magnitude: num / den }
        } else {
            proof {
                lemma_floor_of_negative(num as int, den as int);
                assert((num - 1) / (den as int) <= num - 1) by (nonlinear_arith)
                    requires
                        num >= 1,
                        den >= 1,
                ;
            }
            Wide { negative: true, magnitude: (num - 1) / den + 1 }
        }
    }
}

/// What `times_fraction` computes: the number `whole + rest / den`, taken
/// with `rest / den` subtracted where `negative` is set, times `quantity`,
/// rounded towards negative infinity.
pub open spec fn fraction_times(whole: int, negative: bool, rest: int, den: int, quantity: int) -> int {
    if negative {
        ((whole * den - rest) * quantity) / den
    } else {
        ((whole * den + rest) * quantity) / den
    }
}

/// The quotient of a multiple of the divisor plus a rest is the multiple's
/// factor plus the quotient of the rest.
pub proof fn lemma_quotient_splits(x: int, r: int, d: int)
    requires
        d > 0,
    ensures
        (x * d + r) / d == x + r / d,
{
    let k = r / d;
    let m = r % d;
    lemma_fundamental_div_mod(r, d);
    assert(x * d + r == (x + k) * d + m) by (nonlinear_arith)
        requires
            r == d * k + m,
    ;
    lemma_fundamental_div_mod_converse(x * d + r, d, x + k, m);
}

impl Wide {
    /// The number plus another, if the magnitude of the sum can be held.
    pub fn plus_wide(&self, other: &Wide) -> (sum: Option<Wide>)
        ensures
            match sum {
                Some(w) => w@ == self@ + other@,
                None => self@ + other@ > u128::MAX || self@ + other@ < -(u128::MAX as int),
            },
    {
        if self.negative == other.negative {
            match self.magnitude.checked_add(other.magnitude) {
                Some(m) => Some(Wide { negative: self.negative, magnitude: m }),
                None => None,
            }
        } else if self.magnitude >= other.magnitude {
            Some(Wide { negative: self.negative, magnitude: self.magnitude - other.magnitude })
        } else {
            Some(Wide { negative: other.negative, magnitude: other.magnitude - self.magnitude })
        }
    }

    /// The number `whole + rest / den`, or `whole - rest / den` where
    /// `negative` is set, times `quantity`, rounded towards negative infinity
    /// after the multiplication; `None` if that is beyond the range of
    /// `i128`.
    pub fn times_fraction(whole: &Wide, negative: bool, rest: u128, den: u128, quantity: u128) -> (product:
        Option<i128>)
        requires
            0 <= rest < den <= 0xFFFF_FFFF_FFFF_FFFF,
        ensures
            match product {
                Some(p) => p == fraction_times(
                    whole@,
                    negative,
                    rest as int,
                    den as int,
                    quantity as int,
                ),
                None => !fits(
                    fraction_times(whole@, negative, rest as int, den as int, quantity as int),
                ),
            },
    {
        let times: u128 = quantity / den;
        let over: u128 = quantity % den;
        let ghost w = whole@;
        let ghost r = rest as int;
        let ghost d = den as int;
        let ghost q = quantity as int;
        let ghost a = times as int;
        let ghost b = over as int;
        proof {
            lemma_fundamental_div_mod(q, d);
            assert(q == d * a + b);
            assert(0 <= r * b <= 0xFFFF_FFFF_FFFF_FFFF * 0xFFFF_FFFF_FFFF_FFFF) by (nonlinear_arith)
                requires
                    0 <= r <= 0xFFFF_FFFF_FFFF_FFFF,
                    0 <= b <= 0xFFFF_FFFF_FFFF_FFFF,
            ;
            assert(0 <= r * a && r * a + b <= q - a && r * b <= (d - 1) * b) by (nonlinear_arith)
                requires
                    0 <= r <= d - 1,
                    a >= 0,
                    b >= 0,
                    q == d * a + b,
            ;
        }
        let low: u128 = rest * over;
        let part = Wide::quotient(negative, low, den);
        proof {
            assert(part.magnitude <= b) by {
                if negative && low != 0 {
                    assert((r * b - 1) / d + 1 <= b) by (nonlinear_arith)
                        requires
                            1 <= r * b <= (d - 1) * b,
                            d >= 1,
                            b >= 0,
                    ;
                    lemma_floor_of_negative(r * b, d);
                } else {
                    assert((r * b) / d <= b) by (nonlinear_arith)
                        requires
                            0 <= r * b <= (d - 1) * b,
                            d >= 1,
                            b >= 0,
                    ;
                }
            }
        }
        let beside: u128 = rest * times;
        // The share of the fraction: at most `quantity - times`.
        let share = Wide {
            negative: negative && (beside != 0 || part.magnitude != 0),
            magnitude: beside + part.magnitude,
        };
        proof {
            // share@ == floor(s * r * q / d)
            let s: int = if negative {
                -1
            } else {
                1
            };
            assert(s * r * q == (s * r * a) * d + s * (r * b)) by (nonlinear_arith)
                requires
                    q == d * a + b,
            ;
            lemma_quotient_splits(s * r * a, s * (r * b), d);
            assert(low == r * b);
            assert(beside == r * a);
            assert((s * r * q) / d == s * r * a + (s * (r * b)) / d);
            if negative {
                assert(s * (r * b) == -(r * b)) by (nonlinear_arith)
                    requires
                        s == -1,
                ;
                assert(s * r * a == -(r * a)) by (nonlinear_arith)
                    requires
                        s == -1,
                ;
                assert(part@ == (-(r * b)) / d);
                assert((-(r * b)) / d <= 0) by (nonlinear_arith)
                    requires
                        r * b >= 0,
                        d > 0,
                ;
                assert(share@ == -(r * a) + part@);
            } else {
                assert(s * (r * b) == r * b) by (nonlinear_arith)
                    requires
                        s == 1,
                ;
                assert(s * r * a == r * a) by (nonlinear_arith)
                    requires
                        s == 1,
                ;
                assert(part@ == (r * b) / d);
                assert((r * b) / d >= 0) by (nonlinear_arith)
                    requires
                        r * b >= 0,
                        d > 0,
                ;
                assert(share@ == r * a + part@);
            }
            assert(share@ == (s * r * q) / d);
            // the whole product splits into whole * q and the share
            assert((w * d + s * r) * q == (w * q) * d + s * r * q) by (nonlinear_arith);
            lemma_quotient_splits(w * q, s * r * q, d);
            assert(w * d - r == w * d + s * r || !negative) by (nonlinear_arith)
                requires
                    negative ==> s == -1,
            ;
            assert(w * d + r == w * d + s * r || negative) by (nonlinear_arith)
                requires
                    !negative ==> s == 1,
            ;
            assert(fraction_times(w, negative, r, d, q) == w * q + share@);
        }
        let ghost m = whole.magnitude as int;
        proof {
            assert((-m) * q == -(m * q)) by (nonlinear_arith);
            assert(m * q >= 0) by (nonlinear_arith)
                requires
                    m >= 0,
                    q >= 0,
            ;
        }
        match whole.magnitude.checked_mul(quantity) {
            Some(most) => {
                let main = Wide { negative: whole.negative, magnitude: most };
                match main.plus_wide(&share) {
                    Some(sum) => sum.to_i128(),
                    None => None,
                }
            },
            None => {
                proof {
                    // |whole| * q is at least 2^128 and the share at most q - a
                    assert(m >= 2) by (nonlinear_arith)
                        requires
                            m * q > 0xFFFF_FFFF_FFFF_FFFF_FFFF_FFFF_FFFF_FFFF,
                            0 <= q <= 0xFFFF_FFFF_FFFF_FFFF_FFFF_FFFF_FFFF_FFFF,
                            m >= 0,
                    ;
                    assert(m * q - q + a > 0x8000_0000_0000_0000_0000_0000_0000_0000)
                        by (nonlinear_arith)
                        requires
                            m * q > 0xFFFF_FFFF_FFFF_FFFF_FFFF_FFFF_FFFF_FFFF,
                            m >= 2,
                            0 <= q <= 0xFFFF_FFFF_FFFF_FFFF_FFFF_FFFF_FFFF_FFFF,
                            q == d * a + b,
                            0 <= b < d,
                            d <= 0xFFFF_FFFF_FFFF_FFFF,
                            a >= 0,
                    ;
                }
                None
            },
        }
    }
}

} // verus!
