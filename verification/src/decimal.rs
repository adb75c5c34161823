use vstd::prelude::*;

verus! {

use crate::error::CalcError;
use vstd::arithmetic::power::{lemma_pow_adds, lemma_pow_positive};
use vstd::arithmetic::mul::{lemma_mul_is_associative, lemma_mul_inequality};
use vstd::arithmetic::div_mod::{lemma_fundamental_div_mod, lemma_mod_multiples_basic};

/// `10^e`, the denominator that a scale of `e` stands for.
pub open spec fn pow10(e: nat) -> int {
    vstd::arithmetic::power::pow(10, e)
}

/// The magnitude of a mathematical integer.
pub open spec fn mag(m: int) -> int {
    if m >= 0 {
        m
    } else {
        -m
    }
}

/// An exact scaled decimal.  The value it denotes is
/// `mantissa / 10^scale`; the fields alone are not the identity of the
/// number, since trailing zero digits of the mantissa can be traded
/// against the scale without changing the denoted value.
#[derive(Clone, Copy, Debug)]
pub struct Decimal {
    pub mantissa: i128,
    pub scale: u8,
}

/// The canonical form: zero is `{0, 0}`, and a nonzero mantissa keeps no
/// trailing zero digit that the scale could absorb.
pub open spec fn is_normal(d: Decimal) -> bool {
    &&& d.mantissa == 0 ==> d.scale == 0
    &&& d.scale > 0 ==> d.mantissa % 10 != 0
}

/// Two scaled decimals denote the same rational number:
/// `a.mantissa / 10^a.scale == b.mantissa / 10^b.scale`, cross-multiplied
/// so that only integers appear.
pub open spec fn same_value(a: Decimal, b: Decimal) -> bool {
    a.mantissa * pow10(b.scale as nat) == b.mantissa * pow10(a.scale as nat)
}

/// `x` lies in the range of the mantissa field.
pub open spec fn fits_mantissa(x: int) -> bool {
    i128::MIN <= x <= i128::MAX
}

impl Decimal {
    /// The canonical zero value.
    pub fn zero() -> (r: Self)
        ensures
            r.mantissa == 0,
            r.scale == 0,
    {
        Self { mantissa: 0, scale: 0 }
    }

    /// Whether the denoted value is zero, in any representation.
    pub fn is_zero(&self) -> (r: bool)
        ensures
            r == (self.mantissa == 0),
    {
        self.mantissa == 0
    }

    /// Whether the representation carries no fractional digits.
    pub fn is_integer(&self) -> (r: bool)
        ensures
            r == (self.scale == 0),
    {
        self.scale == 0
    }

    /// Whether the denoted value is zero or positive.
    pub fn is_nonnegative(&self) -> (r: bool)
        ensures
            r == (self.mantissa >= 0),
    {
        self.mantissa >= 0
    }

    /// Builds a decimal from raw parts, without normalizing.
    pub fn _new(mantissa: i128, scale: u8) -> (r: Self)
        ensures
            r.mantissa == mantissa,
            r.scale == scale,
    {
        Self { mantissa, scale }
    }
}

/// Splits a mantissa into its sign and its magnitude, so that the digit
/// loops below can work on unsigned values.
pub(crate) fn split_mag(m: i128) -> (r: (bool, u128))
    ensures
        r.0 == (m < 0),
        r.1 == mag(m as int),
{
    if m >= 0 {
        (false, m as u128)
    } else {
        (true, ((-(m + 1)) as u128) + 1)
    }
}

/// Reassembles a mantissa from its sign and its magnitude.
pub(crate) fn join_mag(neg: bool, m: u128) -> (r: i128)
    requires
        neg ==> m <= (i128::MAX as u128) + 1,
        !neg ==> m <= i128::MAX as u128,
    ensures
        r as int == if neg {
            -(m as int)
        } else {
            m as int
        },
{
    if !neg {
        m as i128
    } else if m == (i128::MAX as u128) + 1 {
        i128::MIN
    } else {
        -(m as i128)
    }
}

/// `pow10` of a larger exponent has at least the magnitude-scaling power
/// of a smaller one: `|m * 10^j| <= |m * 10^k|` for `j <= k`.
proof fn lemma_mag_pow10_monotone(m: int, j: nat, k: nat)
    requires
        j <= k,
    ensures
        mag(m * pow10(j)) <= mag(m * pow10(k)),
        pow10(j) >= 1,
        pow10(k) >= 1,
{
    lemma_pow_positive(10, j);
    lemma_pow_positive(10, k);
    vstd::arithmetic::power::lemma_pow_increases(10, j, k);
    lemma_pow_adds(10, j, (k - j) as nat);
    lemma_pow_positive(10, (k - j) as nat);
    let mj = m * pow10(j);
    let d = pow10((k - j) as nat);
    assert(m * pow10(k) == mj * d) by {
        lemma_mul_is_associative(m, pow10(j), d);
    }
    if mj >= 0 {
        lemma_mul_inequality(1, d, mj);
        assert(mj * 1 == mj) by {
            vstd::arithmetic::mul::lemma_mul_basics(mj);
        }
        assert(mj * d >= mj * 1) by {
            vstd::arithmetic::mul::lemma_mul_inequality(1, d, mj);
        }
    } else {
        assert(mj * d <= mj * 1) by {
            vstd::arithmetic::mul::lemma_mul_inequality(1, d, -mj);
            vstd::arithmetic::mul::lemma_mul_unary_negation(mj, d);
            vstd::arithmetic::mul::lemma_mul_basics(mj);
        }
    }
}

/// Negating an integer does not change whether ten divides it.
proof fn lemma_mod10_negate(x: int)
    ensures
        (x % 10 == 0) <==> ((-x) % 10 == 0),
{
    if x % 10 == 0 {
        lemma_fundamental_div_mod(x, 10);
        lemma_mod_multiples_basic(-(x / 10), 10);
        assert(-x == 10 * (-(x / 10)));
    }
    if (-x) % 10 == 0 {
        lemma_fundamental_div_mod(-x, 10);
        lemma_mod_multiples_basic(-((-x) / 10), 10);
        assert(x == 10 * (-((-x) / 10)));
    }
}

/// If widening `m` by one factor of ten already leaves the mantissa range,
/// every further widening does too.
proof fn lemma_pow10_overflow_monotone(m: int, j: nat, k: nat)
    requires
        j <= k,
        !fits_mantissa(m * pow10(j)),
    ensures
        !fits_mantissa(m * pow10(k)),
{
    lemma_mag_pow10_monotone(m, j, k);
    if m >= 0 {
        vstd::arithmetic::mul::lemma_mul_nonnegative(m, pow10(j));
        vstd::arithmetic::mul::lemma_mul_nonnegative(m, pow10(k));
    } else {
        vstd::arithmetic::mul::lemma_mul_unary_negation(m, pow10(j));
        vstd::arithmetic::mul::lemma_mul_unary_negation(m, pow10(k));
        vstd::arithmetic::mul::lemma_mul_nonnegative(-m, pow10(j));
        vstd::arithmetic::mul::lemma_mul_nonnegative(-m, pow10(k));
    }
}

/// The common scale that addition aligns both operands to.
pub open spec fn spec_max_scale(a: u8, b: u8) -> u8 {
    if a >= b {
        a
    } else {
        b
    }
}

/// The mantissa of `d` rewritten at the coarser scale `p`; meaningful
/// when `p >= d.scale`, where it denotes the same value as `d`.
pub open spec fn aligned_mantissa(d: Decimal, p: nat) -> int
    recommends
        d.scale <= p,
{
    d.mantissa * pow10((p - d.scale) as nat)
}

/// What addition returns: both operands aligned to the larger scale and
/// the mantissas added, or an overflow report when a widened mantissa or
/// the sum leaves the representable range.
pub open spec fn spec_add(a: Decimal, b: Decimal) -> Result<Decimal, CalcError> {
    let p = spec_max_scale(a.scale, b.scale);
    let wa = aligned_mantissa(a, p as nat);
    let wb = aligned_mantissa(b, p as nat);
    if fits_mantissa(wa) && fits_mantissa(wb) && fits_mantissa(wa + wb) {
        Ok(Decimal { mantissa: (wa + wb) as i128, scale: p })
    } else {
        Err(CalcError::ArithmeticOverflow)
    }
}

/// What negation returns: the mantissa sign flipped, the scale kept.
pub open spec fn spec_neg(a: Decimal) -> Result<Decimal, CalcError> {
    if a.mantissa == i128::MIN {
        Err(CalcError::ArithmeticOverflow)
    } else {
        Ok(Decimal { mantissa: (-(a.mantissa as int)) as i128, scale: a.scale })
    }
}

/// What subtraction returns: the sum with the negated second operand.
pub open spec fn spec_sub(a: Decimal, b: Decimal) -> Result<Decimal, CalcError> {
    match spec_neg(b) {
        Ok(nb) => spec_add(a, nb),
        Err(e) => Err(e),
    }
}

impl Decimal {
    /// Exact addition by scale alignment: the operand with the lower scale
    /// is widened by factors of ten until the scales match, then the
    /// mantissas are added.  Exact whenever it returns `Ok`.
    pub fn add(&self, rhs: &Decimal) -> (r: Result<Decimal, CalcError>)
        ensures
            r == spec_add(*self, *rhs),
    {
        let ghost p = spec_max_scale(self.scale, rhs.scale);
        let mut am = self.mantissa;
        let mut ae = self.scale;
        let mut bm = rhs.mantissa;
        let mut be = rhs.scale;
        proof {
            vstd::arithmetic::power::lemma_pow0(10);
            vstd::arithmetic::mul::lemma_mul_basics(am as int);
            vstd::arithmetic::mul::lemma_mul_basics(bm as int);
        }
        while ae != be
            invariant
                self.scale <= ae <= p,
                rhs.scale <= be <= p,
                ae == p || be == p,
                am as int == aligned_mantissa(*self, ae as nat),
                bm as int == aligned_mantissa(*rhs, be as nat),
                p == spec_max_scale(self.scale, rhs.scale),
            decreases (p - ae) + (p - be),
        {
            if ae < be {
                proof {
                    lemma_widen_step(*self, ae as nat);
                }
                match am.checked_mul(10) {
                    Some(w) => {
                        am = w;
                        ae = ae + 1;
                    },
                    None => {
                        proof {
                            lemma_pow10_overflow_monotone(
                                self.mantissa as int,
                                (ae + 1 - self.scale) as nat,
                                (p - self.scale) as nat,
                            );
                        }
                        return Err(CalcError::ArithmeticOverflow);
                    },
                }
            } else {
                proof {
                    lemma_widen_step(*rhs, be as nat);
                }
                match bm.checked_mul(10) {
                    Some(w) => {
                        bm = w;
                        be = be + 1;
                    },
                    None => {
                        proof {
                            lemma_pow10_overflow_monotone(
                                rhs.mantissa as int,
                                (be + 1 - rhs.scale) as nat,
                                (p - rhs.scale) as nat,
                            );
                        }
                        return Err(CalcError::ArithmeticOverflow);
                    },
                }
            }
        }
        match am.checked_add(bm) {
            Some(s) => Ok(Decimal { mantissa: s, scale: ae }),
            None => Err(CalcError::ArithmeticOverflow),
        }
    }

    /// Exact negation: the mantissa sign flips, the scale is unchanged.
    pub fn neg(&self) -> (r: Result<Decimal, CalcError>)
        ensures
            r == spec_neg(*self),
    {
        if self.mantissa == i128::MIN {
            Err(CalcError::ArithmeticOverflow)
        } else {
            Ok(Decimal { mantissa: -self.mantissa, scale: self.scale })
        }
    }

    /// Exact subtraction: addition of the negated second operand.
    pub fn sub(&self, rhs: &Decimal) -> (r: Result<Decimal, CalcError>)
        ensures
            r == spec_sub(*self, *rhs),
    {
        match rhs.neg() {
            Ok(nb) => self.add(&nb),
            Err(e) => Err(e),
        }
    }
}

/// What multiplication returns: the product of the mantissas at the sum of
/// the scales — the rule under which `m_a/10^s_a * m_b/10^s_b` is exactly
/// `(m_a * m_b) / 10^(s_a + s_b)` — or an overflow report when the product
/// leaves the mantissa range or the summed scale leaves the scale range.
pub open spec fn spec_mul(a: Decimal, b: Decimal) -> Result<Decimal, CalcError> {
    let prod = a.mantissa * b.mantissa;
    if fits_mantissa(prod) && a.scale + b.scale <= u8::MAX {
        Ok(Decimal { mantissa: prod as i128, scale: (a.scale + b.scale) as u8 })
    } else {
        Err(CalcError::ArithmeticOverflow)
    }
}

/// What exponentiation returns: only a non-negative integer exponent is
/// supported; the mantissa is raised to that power and the scale is
/// multiplied by it, each overflow reported.
pub open spec fn spec_pow(a: Decimal, b: Decimal) -> Result<Decimal, CalcError> {
    if b.scale != 0 || b.mantissa < 0 {
        Err(CalcError::UnsupportedExponent)
    } else {
        let m = vstd::arithmetic::power::pow(a.mantissa as int, b.mantissa as nat);
        let s = a.scale * b.mantissa;
        if fits_mantissa(m) && s <= u8::MAX {
            Ok(Decimal { mantissa: m as i128, scale: s as u8 })
        } else {
            Err(CalcError::ArithmeticOverflow)
        }
    }
}

/// The magnitude of a product is the product of the magnitudes.
pub(crate) proof fn lemma_mag_mul(x: int, y: int)
    ensures
        mag(x * y) == mag(x) * mag(y),
{
    vstd::arithmetic::mul::lemma_mul_unary_negation(x, y);
    vstd::arithmetic::mul::lemma_mul_unary_negation(-x, y);
    vstd::arithmetic::mul::lemma_mul_unary_negation(x, -y);
    vstd::arithmetic::mul::lemma_mul_unary_negation(-x, -y);
    if x >= 0 && y >= 0 {
        vstd::arithmetic::mul::lemma_mul_nonnegative(x, y);
    } else if x >= 0 && y < 0 {
        vstd::arithmetic::mul::lemma_mul_nonnegative(x, -y);
    } else if x < 0 && y >= 0 {
        vstd::arithmetic::mul::lemma_mul_nonnegative(-x, y);
    } else {
        vstd::arithmetic::mul::lemma_mul_nonnegative(-x, -y);
    }
}

/// The magnitude of a power is the power of the magnitude.
proof fn lemma_mag_pow(b: int, e: nat)
    ensures
        mag(vstd::arithmetic::power::pow(b, e)) == vstd::arithmetic::power::pow(mag(b), e),
    decreases e,
{
    reveal(vstd::arithmetic::power::pow);
    if e == 0 {
    } else {
        lemma_mag_pow(b, (e - 1) as nat);
        lemma_mag_mul(b, vstd::arithmetic::power::pow(b, (e - 1) as nat));
    }
}

/// For a base of magnitude at least two, once one power leaves the
/// mantissa range every later power does too.
proof fn lemma_pow_overflow_monotone(b: int, j: nat, k: nat)
    requires
        j <= k,
        mag(b) >= 2,
        !fits_mantissa(vstd::arithmetic::power::pow(b, j)),
    ensures
        !fits_mantissa(vstd::arithmetic::power::pow(b, k)),
{
    if j < k {
        lemma_mag_pow(b, j);
        lemma_mag_pow(b, k);
        vstd::arithmetic::power::lemma_pow_strictly_increases(mag(b) as nat, j, k);
    }
}

/// `pow(-1, e)` alternates between one and minus one with the parity of `e`.
proof fn lemma_neg1_pow(e: nat)
    ensures
        vstd::arithmetic::power::pow(-1, e) == if e % 2 == 0 {
            1int
        } else {
            -1int
        },
    decreases e,
{
    reveal(vstd::arithmetic::power::pow);
    if e > 0 {
        lemma_neg1_pow((e - 1) as nat);
    }
}

impl Decimal {
    /// Exact multiplication: mantissas multiply and scales add.
    pub fn mul(&self, rhs: &Decimal) -> (r: Result<Decimal, CalcError>)
        ensures
            r == spec_mul(*self, *rhs),
    {
        let scale_sum = (self.scale as u16) + (rhs.scale as u16);
        if scale_sum > u8::MAX as u16 {
            return Err(CalcError::ArithmeticOverflow);
        }
        match self.mantissa.checked_mul(rhs.mantissa) {
            Some(prod) => Ok(Decimal { mantissa: prod, scale: scale_sum as u8 }),
            None => Err(CalcError::ArithmeticOverflow),
        }
    }

    /// Exact exponentiation by a non-negative integer exponent; any other
    /// exponent is unsupported.
    pub fn pow(&self, rhs: &Self) -> (r: Result<Decimal, CalcError>)
        ensures
            r == spec_pow(*self, *rhs),
    {
        if rhs.scale != 0 || rhs.mantissa < 0 {
            return Err(CalcError::UnsupportedExponent);
        }
        let e = rhs.mantissa;
        let scale: u8;
        if self.scale == 0 {
            proof {
                vstd::arithmetic::mul::lemma_mul_basics(e as int);
            }
            scale = 0;
        } else {
            let cap = (u8::MAX / self.scale) as i128;
            if e > cap {
                proof {
                    lemma_scale_cap(self.scale as int, e as int);
                }
                return Err(CalcError::ArithmeticOverflow);
            }
            proof {
                lemma_scale_cap(self.scale as int, e as int);
            }
            scale = self.scale * (e as u8);
        }
        let base = self.mantissa;
        let mantissa: i128;
        if base == 0 {
            proof {
                if e > 0 {
                    vstd::arithmetic::power::lemma0_pow(e as nat);
                } else {
                    vstd::arithmetic::power::lemma_pow0(base as int);
                }
            }
            mantissa = if e == 0 {
                1
            } else {
                0
            };
        } else if base == 1 {
            proof {
                vstd::arithmetic::power::lemma1_pow(e as nat);
            }
            mantissa = 1;
        } else if base == -1 {
            proof {
                lemma_neg1_pow(e as nat);
            }
            mantissa = if (e as u128) % 2 == 0 {
                1
            } else {
                -1
            };
        } else {
            let mut result: i128 = 1;
            let mut i: i128 = 0;
            proof {
                vstd::arithmetic::power::lemma_pow0(base as int);
            }
            while i < e
                invariant
                    0 <= i <= e,
                    base == self.mantissa,
                    e == rhs.mantissa,
                    rhs.scale == 0,
                    result as int == vstd::arithmetic::power::pow(base as int, i as nat),
                    mag(base as int) >= 2,
                decreases e - i,
            {
                proof {
                    vstd::arithmetic::mul::lemma_mul_is_commutative(result as int, base as int);
                    lemma_pow_adds(base as int, i as nat, 1);
                    vstd::arithmetic::power::lemma_pow1(base as int);
                }
                match result.checked_mul(base) {
                    Some(w) => {
                        result = w;
                        i = i + 1;
                    },
                    None => {
                        proof {
                            lemma_pow_overflow_monotone(base as int, (i + 1) as nat, e as nat);
                        }
                        return Err(CalcError::ArithmeticOverflow);
                    },
                }
            }
            mantissa = result;
        }
        Ok(Decimal { mantissa, scale })
    }
}

/// For a positive scale, the exponent respects the scale bound exactly
/// when it is at most the floor quotient of the bound by the scale.
proof fn lemma_scale_cap(s: int, e: int)
    requires
        1 <= s,
        0 <= e,
    ensures
        (e <= u8::MAX as int / s) <==> (s * e <= u8::MAX as int),
{
    let cap = u8::MAX as int / s;
    lemma_fundamental_div_mod(u8::MAX as int, s);
    if e <= cap {
        vstd::arithmetic::mul::lemma_mul_inequality(e, cap, s);
        vstd::arithmetic::mul::lemma_mul_is_commutative(e, s);
        vstd::arithmetic::mul::lemma_mul_is_commutative(cap, s);
        vstd::arithmetic::div_mod::lemma_mod_division_less_than_divisor(u8::MAX as int, s);
    } else {
        vstd::arithmetic::mul::lemma_mul_inequality(cap + 1, e, s);
        vstd::arithmetic::mul::lemma_mul_is_commutative(e, s);
        vstd::arithmetic::mul::lemma_mul_is_commutative(cap + 1, s);
        vstd::arithmetic::mul::lemma_mul_is_distributive_add_other_way(s, cap, 1);
        vstd::arithmetic::div_mod::lemma_mod_division_less_than_divisor(u8::MAX as int, s);
    }
}

/// The exact integer quotient of `w` by `d`: the unique `q` with
/// `d * q == w`.  Meaningful when `d` is nonzero and divides `w`.
pub open spec fn exact_div(w: int, d: int) -> int {
    choose|q: int| #[trigger] (d * q) == w
}

/// Divisibility, stated over magnitudes so that the signs of the operands
/// play no part.
pub open spec fn divides_exactly(w: int, d: int) -> bool {
    mag(w) % mag(d) == 0
}

/// Whether widening the dividend's mantissa by `10^k` makes the division
/// come out exactly, with the widened mantissa, the quotient and the
/// resulting scale all representable.
pub open spec fn div_ok_at(a: Decimal, b: Decimal, k: nat) -> bool {
    let w = a.mantissa * pow10(k);
    &&& fits_mantissa(w)
    &&& divides_exactly(w, b.mantissa as int)
    &&& b.scale <= a.scale + k
    &&& a.scale + k - b.scale <= u8::MAX
    &&& fits_mantissa(exact_div(w, b.mantissa as int))
}

/// What division returns: a zero divisor is reported; a zero dividend
/// yields the canonical zero; otherwise the dividend's mantissa is widened
/// by the fewest factors of ten that make the quotient exact and the scale
/// non-negative, and the result is that quotient at scale
/// `a.scale + k - b.scale`.  When no representable widening reaches an
/// exact quotient, the division does not terminate exactly and is reported
/// as overflow.
pub open spec fn spec_div(a: Decimal, b: Decimal) -> Result<Decimal, CalcError> {
    if b.mantissa == 0 {
        Err(CalcError::DivisionByZero)
    } else if a.mantissa == 0 {
        Ok(Decimal { mantissa: 0, scale: 0 })
    } else if exists|k: nat| div_ok_at(a, b, k) {
        let k = choose|k: nat|
            div_ok_at(a, b, k) && (forall|j: nat| j < k ==> !div_ok_at(a, b, j));
        Ok(
            Decimal {
                mantissa: exact_div(a.mantissa * pow10(k), b.mantissa as int) as i128,
                scale: (a.scale + k - b.scale) as u8,
            },
        )
    } else {
        Err(CalcError::ArithmeticOverflow)
    }
}

/// Beyond the thirty-eighth widening the power of ten alone already
/// exceeds the mantissa range.
proof fn lemma_pow10_big(k: nat)
    requires
        k >= 39,
    ensures
        pow10(k) > i128::MAX as int + 1,
{
    assert(pow10(39) == 1000000000000000000000000000000000000000int) by {
        reveal_with_fuel(vstd::arithmetic::power::pow, 40);
    }
    vstd::arithmetic::power::lemma_pow_increases(10, 39, k);
}

/// The widened mantissa `m * 10^k` keeps the sign of `m`, and its
/// magnitude is the widened magnitude.
proof fn lemma_widen_shape(m: int, k: nat)
    ensures
        mag(m * pow10(k)) == mag(m) * pow10(k),
        m > 0 ==> m * pow10(k) > 0,
        m < 0 ==> m * pow10(k) < 0,
        m == 0 ==> m * pow10(k) == 0,
{
    lemma_pow_positive(10, k);
    lemma_mag_mul(m, pow10(k));
    if m > 0 {
        vstd::arithmetic::mul::lemma_mul_strictly_positive(m, pow10(k));
    }
    if m < 0 {
        vstd::arithmetic::mul::lemma_mul_unary_negation(m, pow10(k));
        vstd::arithmetic::mul::lemma_mul_strictly_positive(-m, pow10(k));
    }
    if m == 0 {
        vstd::arithmetic::mul::lemma_mul_basics(pow10(k));
    }
}

/// A nonzero `d` with `d * q == w` pins the exact quotient down to `q`.
proof fn lemma_exact_div_unique(w: int, d: int, q: int)
    requires
        d != 0,
        d * q == w,
    ensures
        exact_div(w, d) == q,
{
    assert(exists|x: int| #[trigger] (d * x) == w) by {
        assert(d * q == w);
    }
    let qc = exact_div(w, d);
    assert(d * qc == w);
    vstd::arithmetic::mul::lemma_mul_equality_converse(d, qc, q);
}

/// Widening an exactly divisible dividend widens its quotient by the same
/// power of ten.
proof fn lemma_quotient_scales(m: int, d: int, q: int, k: nat, j: nat)
    requires
        k <= j,
        d != 0,
        d * q == m * pow10(k),
    ensures
        d * (q * pow10((j - k) as nat)) == m * pow10(j),
        exact_div(m * pow10(j), d) == q * pow10((j - k) as nat),
{
    let t = (j - k) as nat;
    lemma_pow_adds(10, k, t);
    assert((m * pow10(k)) * pow10(t) == m * (pow10(k) * pow10(t))) by {
        lemma_mul_is_associative(m, pow10(k), pow10(t));
    }
    assert((d * q) * pow10(t) == d * (q * pow10(t))) by {
        lemma_mul_is_associative(d, q, pow10(t));
    }
    lemma_exact_div_unique(m * pow10(j), d, q * pow10(t));
}

/// Once the widened mantissa's magnitude exceeds the range that its sign
/// allows, every further widening is unrepresentable as well.
proof fn lemma_widen_overflow(m: int, j: nat, k: nat)
    requires
        j <= k,
        m != 0,
        mag(m) * pow10(j) > if m < 0 {
            i128::MAX as int + 1
        } else {
            i128::MAX as int
        },
    ensures
        !fits_mantissa(m * pow10(k)),
{
    lemma_widen_shape(m, j);
    lemma_widen_shape(m, k);
    lemma_mag_pow10_monotone(m, j, k);
}

impl Decimal {
    /// Exact division: the dividend's mantissa is widened by factors of
    /// ten, its scale rising in step, until the divisor's mantissa divides
    /// it exactly and the resulting scale is non-negative; the result is
    /// the integer quotient at scale `self.scale + k - rhs.scale`.
    /// Divisibility is decided by an integer remainder test.  A division
    /// that never comes out exactly within the mantissa range is reported
    /// as overflow.
    #[verifier::rlimit(60)]
    pub fn div(&self, rhs: &Decimal) -> (r: Result<Decimal, CalcError>)
        ensures
            r == spec_div(*self, *rhs),
    {
        if rhs.mantissa == 0 {
            return Err(CalcError::DivisionByZero);
        }
        if self.mantissa == 0 {
            return Ok(Decimal { mantissa: 0, scale: 0 });
        }
        let (aneg, mut amag) = split_mag(self.mantissa);
        let (bneg, bmag) = split_mag(rhs.mantissa);
        let alimit: u128 = if aneg {
            (i128::MAX as u128) + 1
        } else {
            i128::MAX as u128
        };
        let mut sc: u32 = self.scale as u32;
        let ghost mut k: nat = 0;
        proof {
            vstd::arithmetic::power::lemma_pow0(10);
            vstd::arithmetic::mul::lemma_mul_basics(mag(self.mantissa as int));
        }
        while !(amag % bmag == 0 && sc >= rhs.scale as u32)
            invariant
                self.mantissa != 0,
                rhs.mantissa != 0,
                aneg == (self.mantissa < 0),
                bneg == (rhs.mantissa < 0),
                bmag == mag(rhs.mantissa as int),
                1 <= bmag,
                alimit as int == if aneg {
                    i128::MAX as int + 1
                } else {
                    i128::MAX as int
                },
                sc == self.scale + k,
                amag as int == mag(self.mantissa as int) * pow10(k),
                1 <= amag <= alimit,
                k <= 38,
                forall|j: nat| j < k ==> !div_ok_at(*self, *rhs, j),
            decreases alimit - amag,
        {
            proof {
                lemma_widen_shape(self.mantissa as int, k);
                assert(!div_ok_at(*self, *rhs, k)) by {
                    if amag % bmag != 0 {
                        assert(!divides_exactly(
                            self.mantissa * pow10(k),
                            rhs.mantissa as int,
                        ));
                    }
                }
                lemma_widen_step_mag(self.mantissa as int, k);
            }
            let widened = match amag.checked_mul(10) {
                Some(w) => w,
                None => {
                    proof {
                        lemma_no_widening_fits(*self, *rhs, k, (amag as int) * 10);
                    }
                    return Err(CalcError::ArithmeticOverflow);
                },
            };
            if widened > alimit {
                proof {
                    lemma_no_widening_fits(*self, *rhs, k, widened as int);
                }
                return Err(CalcError::ArithmeticOverflow);
            }
            amag = widened;
            sc = sc + 1;
            proof {
                k = k + 1;
                if k > 38 {
                    lemma_pow10_big(k);
                    lemma_mul_inequality(1, mag(self.mantissa as int), pow10(k));
                    vstd::arithmetic::mul::lemma_mul_is_commutative(
                        mag(self.mantissa as int),
                        pow10(k),
                    );
                }
            }
        }
        proof {
            lemma_widen_shape(self.mantissa as int, k);
        }
        let qmag = amag / bmag;
        let qneg = aneg != bneg;
        let rscale = sc - (rhs.scale as u32);
        let ghost w = self.mantissa * pow10(k);
        let ghost d = rhs.mantissa as int;
        let ghost qsigned: int = if qneg {
            -(qmag as int)
        } else {
            qmag as int
        };
        proof {
            lemma_fundamental_div_mod(amag as int, bmag as int);
            lemma_signed_quotient(self.mantissa as int, rhs.mantissa as int, w, k, qsigned);
        }
        if rscale > u8::MAX as u32 {
            proof {
                assert forall|j: nat| !div_ok_at(*self, *rhs, j) by {
                    if j >= k {
                        assert(self.scale + j - rhs.scale > u8::MAX);
                    }
                }
            }
            return Err(CalcError::ArithmeticOverflow);
        }
        let qlimit: u128 = if qneg {
            (i128::MAX as u128) + 1
        } else {
            i128::MAX as u128
        };
        if qmag > qlimit {
            proof {
                assert(!fits_mantissa(qsigned));
                assert forall|j: nat| !div_ok_at(*self, *rhs, j) by {
                    if j >= k {
                        lemma_quotient_scales(self.mantissa as int, d, qsigned, k, j);
                        lemma_pow10_overflow_monotone(qsigned, 0, (j - k) as nat);
                        vstd::arithmetic::power::lemma_pow0(10);
                        vstd::arithmetic::mul::lemma_mul_basics(qsigned);
                    }
                }
            }
            return Err(CalcError::ArithmeticOverflow);
        }
        let q = join_mag(qneg, qmag);
        proof {
            lemma_exact_div_unique(w, d, qsigned);
            assert(div_ok_at(*self, *rhs, k));
            let kc = choose|kk: nat|
                div_ok_at(*self, *rhs, kk) && (forall|j: nat|
                    j < kk ==> !div_ok_at(*self, *rhs, j));
            assert(div_ok_at(*self, *rhs, k) && (forall|j: nat|
                j < k ==> !div_ok_at(*self, *rhs, j)));
            assert(kc == k) by {
                if kc < k {
                    assert(!div_ok_at(*self, *rhs, kc));
                } else if kc > k {
                    assert(!div_ok_at(*self, *rhs, k));
                }
            }
        }
        Ok(Decimal { mantissa: q, scale: rscale as u8 })
    }
}

/// Widening the magnitude by ten tracks widening the power of ten.
proof fn lemma_widen_step_mag(m: int, k: nat)
    ensures
        (mag(m) * pow10(k)) * 10 == mag(m) * pow10(k + 1),
{
    lemma_pow_adds(10, k, 1);
    vstd::arithmetic::power::lemma_pow1(10);
    lemma_mul_is_associative(mag(m), pow10(k), 10);
}

/// When even the next widening leaves the range the sign allows, no
/// widening anywhere satisfies the division characterization.
proof fn lemma_no_widening_fits(a: Decimal, b: Decimal, k: nat, next: int)
    requires
        a.mantissa != 0,
        b.mantissa != 0,
        next == mag(a.mantissa as int) * pow10(k) * 10,
        next > if a.mantissa < 0 {
            i128::MAX as int + 1
        } else {
            i128::MAX as int
        },
        forall|j: nat| j < k ==> !div_ok_at(a, b, j),
        !div_ok_at(a, b, k),
    ensures
        forall|j: nat| !div_ok_at(a, b, j),
        spec_div(a, b) == Err::<Decimal, CalcError>(CalcError::ArithmeticOverflow),
{
    lemma_widen_step_mag(a.mantissa as int, k);
    assert forall|j: nat| !div_ok_at(a, b, j) by {
        if j > k {
            lemma_widen_overflow(a.mantissa as int, k + 1, j);
        }
    }
}

/// Connects the magnitude computation of the quotient with the signed
/// mantissas: `d * qsigned == w`, so `qsigned` is the exact quotient.
proof fn lemma_signed_quotient(m: int, d: int, w: int, k: nat, qsigned: int)
    requires
        m != 0,
        d != 0,
        w == m * pow10(k),
        mag(w) == mag(m) * pow10(k),
        m > 0 ==> w > 0,
        m < 0 ==> w < 0,
        mag(w) == mag(d) * (mag(w) / mag(d)) + mag(w) % mag(d),
        mag(w) % mag(d) == 0,
        qsigned == if (m < 0) != (d < 0) {
            -(mag(w) / mag(d))
        } else {
            mag(w) / mag(d)
        },
    ensures
        d * qsigned == w,
        divides_exactly(w, d),
{
    let qm = mag(w) / mag(d);
    assert(mag(w) == qm * mag(d));
    vstd::arithmetic::mul::lemma_mul_is_commutative(qm, mag(d));
    vstd::arithmetic::mul::lemma_mul_unary_negation(mag(d), qm);
    vstd::arithmetic::mul::lemma_mul_unary_negation(-mag(d), qm);
    if m < 0 {
        assert(w == -(mag(w)));
    }
    if d < 0 {
        assert(d == -(mag(d)));
    }
}

/// Simplifying keeps the denoted value.
pub(crate) proof fn lemma_simplify_same_value(origin: Decimal, r: Decimal)
    requires
        r.scale <= origin.scale,
        origin.mantissa == r.mantissa * pow10((origin.scale - r.scale) as nat),
    ensures
        same_value(origin, r),
{
    let t = (origin.scale - r.scale) as nat;
    lemma_pow_adds(10, t, r.scale as nat);
    assert((r.mantissa * pow10(t)) * pow10(r.scale as nat) == r.mantissa * (pow10(t) * pow10(
        r.scale as nat,
    ))) by {
        lemma_mul_is_associative(r.mantissa as int, pow10(t), pow10(r.scale as nat));
    }
}

/// Denoting the same rational number is symmetric and transitive.
pub(crate) proof fn lemma_same_value_trans(x: Decimal, y: Decimal, z: Decimal)
    requires
        same_value(x, y),
        same_value(y, z),
    ensures
        same_value(x, z),
{
    let px = pow10(x.scale as nat);
    let py = pow10(y.scale as nat);
    let pz = pow10(z.scale as nat);
    lemma_pow_positive(10, y.scale as nat);
    assert((x.mantissa * py) * pz == (y.mantissa * px) * pz);
    assert((y.mantissa * pz) * px == (z.mantissa * py) * px);
    assert(py * (x.mantissa * pz) == py * (z.mantissa * px)) by {
        lemma_mul_is_associative(x.mantissa as int, py, pz);
        vstd::arithmetic::mul::lemma_mul_is_commutative(py, x.mantissa as int);
        lemma_mul_is_associative(py, x.mantissa as int, pz);
        lemma_mul_is_associative(y.mantissa as int, px, pz);
        lemma_mul_is_associative(y.mantissa as int, pz, px);
        vstd::arithmetic::mul::lemma_mul_is_commutative(px, pz);
        lemma_mul_is_associative(z.mantissa as int, py, px);
        vstd::arithmetic::mul::lemma_mul_is_commutative(py, z.mantissa as int);
        lemma_mul_is_associative(py, z.mantissa as int, px);
    }
    vstd::arithmetic::mul::lemma_mul_equality_converse(
        py,
        x.mantissa * pz,
        z.mantissa * px,
    );
}

/// The canonical form is unique: two normalized decimals that denote the
/// same rational number agree field by field.  This is what makes
/// equality well-defined modulo representation, and the canonical text of
/// a value unambiguous.
pub proof fn lemma_normal_unique(x: Decimal, y: Decimal)
    requires
        is_normal(x),
        is_normal(y),
        same_value(x, y),
    ensures
        x.mantissa == y.mantissa,
        x.scale == y.scale,
{
    let px = pow10(x.scale as nat);
    let py = pow10(y.scale as nat);
    lemma_pow_positive(10, x.scale as nat);
    lemma_pow_positive(10, y.scale as nat);
    if x.mantissa == 0 || y.mantissa == 0 {
        vstd::arithmetic::mul::lemma_mul_basics(px);
        vstd::arithmetic::mul::lemma_mul_basics(py);
        if x.mantissa == 0 {
            assert(y.mantissa * px == 0);
            vstd::arithmetic::mul::lemma_mul_nonzero(y.mantissa as int, px);
        } else {
            assert(x.mantissa * py == 0);
            vstd::arithmetic::mul::lemma_mul_nonzero(x.mantissa as int, py);
        }
    } else {
        if x.scale <= y.scale {
            lemma_normal_unique_nonzero(x, y);
        } else {
            lemma_same_value_sym(x, y);
            lemma_normal_unique_nonzero(y, x);
        }
    }
}

/// One direction of canonical-form uniqueness for nonzero values: the
/// scale of `x` cannot exceed the scale of `y`.
proof fn lemma_normal_unique_nonzero(x: Decimal, y: Decimal)
    requires
        is_normal(x),
        is_normal(y),
        same_value(x, y),
        x.mantissa != 0,
        y.mantissa != 0,
        x.scale <= y.scale,
    ensures
        x.scale == y.scale,
        x.mantissa == y.mantissa,
{
    let t = (y.scale - x.scale) as nat;
    let px = pow10(x.scale as nat);
    lemma_pow_positive(10, x.scale as nat);
    assert((x.mantissa * pow10(t)) * px == y.mantissa * px) by {
        lemma_pow_adds(10, t, x.scale as nat);
        lemma_mul_is_associative(x.mantissa as int, pow10(t), px);
    }
    vstd::arithmetic::mul::lemma_mul_equality_converse(
        px,
        x.mantissa * pow10(t),
        y.mantissa as int,
    );
    assert(x.mantissa * pow10(t) == y.mantissa);
    if t > 0 {
        assert(y.mantissa % 10 == 0) by {
            lemma_pow_adds(10, (t - 1) as nat, 1);
            vstd::arithmetic::power::lemma_pow1(10);
            lemma_mul_is_associative(x.mantissa as int, pow10((t - 1) as nat), 10);
            lemma_mod_multiples_basic(x.mantissa * pow10((t - 1) as nat), 10);
        }
        vstd::arithmetic::power::lemma_pow0(10);
        vstd::arithmetic::mul::lemma_mul_basics(x.mantissa as int);
    } else {
        vstd::arithmetic::power::lemma_pow0(10);
        vstd::arithmetic::mul::lemma_mul_basics(x.mantissa as int);
    }
}

impl PartialEq for Decimal {
    /// Equality of the denoted values: both sides are normalized and then
    /// compared field by field, so `1.00` and `1` compare equal.
    fn eq(&self, other: &Self) -> (r: bool) {
        let a = simplify(self);
        let b = simplify(other);
        proof {
            lemma_simplify_same_value(*self, a);
            lemma_simplify_same_value(*other, b);
            if a.mantissa == b.mantissa && a.scale == b.scale {
                lemma_same_value_sym(*other, b);
                lemma_same_value_trans(*self, a, *other)
            } else {
                if same_value(*self, *other) {
                    lemma_same_value_sym(*self, a);
                    lemma_same_value_sym(*other, b);
                    lemma_same_value_trans(a, *self, *other);
                    lemma_same_value_trans(a, *other, b);
                    lemma_normal_unique(a, b);
                }
            }
        }
        a.mantissa == b.mantissa && a.scale == b.scale
    }
}

impl vstd::std_specs::cmp::PartialEqSpecImpl for Decimal {
    open spec fn obeys_eq_spec() -> bool {
        true
    }

    open spec fn eq_spec(&self, other: &Self) -> bool {
        same_value(*self, *other)
    }
}

/// Addition is exact: when `spec_add` succeeds, the result denotes
/// precisely the rational sum of its operands — cross-multiplied onto the
/// common denominator `10^(a.scale + b.scale + c.scale)` so that only
/// integers appear.  No rounding ever happens, which is why a chain of
/// additions of decimal literals reproduces the mathematically exact sum.
pub proof fn lemma_add_exact(a: Decimal, b: Decimal, c: Decimal)
    requires
        spec_add(a, b) == Ok::<Decimal, CalcError>(c),
    ensures
        c.mantissa * (pow10(a.scale as nat) * pow10(b.scale as nat)) == (a.mantissa * pow10(
            b.scale as nat,
        ) + b.mantissa * pow10(a.scale as nat)) * pow10(c.scale as nat),
{
    let p = spec_max_scale(a.scale, b.scale) as nat;
    let pa = pow10(a.scale as nat);
    let pb = pow10(b.scale as nat);
    let pc = pow10(p);
    let wa = aligned_mantissa(a, p);
    let wb = aligned_mantissa(b, p);
    assert(wa * pa == a.mantissa * pc) by {
        lemma_mul_is_associative(a.mantissa as int, pow10((p - a.scale) as nat), pa);
        lemma_pow_adds(10, (p - a.scale) as nat, a.scale as nat);
    }
    assert(wb * pb == b.mantissa * pc) by {
        lemma_mul_is_associative(b.mantissa as int, pow10((p - b.scale) as nat), pb);
        lemma_pow_adds(10, (p - b.scale) as nat, b.scale as nat);
    }
    assert(c.mantissa * (pa * pb) == (wa + wb) * (pa * pb));
    assert((wa + wb) * (pa * pb) == wa * (pa * pb) + wb * (pa * pb)) by {
        vstd::arithmetic::mul::lemma_mul_is_distributive_add_other_way(pa * pb, wa, wb);
    }
    assert(wa * (pa * pb) == (a.mantissa * pb) * pc) by {
        lemma_mul_is_associative(wa, pa, pb);
        lemma_mul_is_associative(a.mantissa as int, pc, pb);
        vstd::arithmetic::mul::lemma_mul_is_commutative(pc, pb);
        lemma_mul_is_associative(a.mantissa as int, pb, pc);
    }
    assert(wb * (pa * pb) == (b.mantissa * pa) * pc) by {
        vstd::arithmetic::mul::lemma_mul_is_commutative(pa, pb);
        lemma_mul_is_associative(wb, pb, pa);
        lemma_mul_is_associative(b.mantissa as int, pc, pa);
        vstd::arithmetic::mul::lemma_mul_is_commutative(pc, pa);
        lemma_mul_is_associative(b.mantissa as int, pa, pc);
    }
    assert((a.mantissa * pb + b.mantissa * pa) * pc == (a.mantissa * pb) * pc + (b.mantissa * pa)
        * pc) by {
        vstd::arithmetic::mul::lemma_mul_is_distributive_add_other_way(
            pc,
            a.mantissa * pb,
            b.mantissa * pa,
        );
    }
}

/// A chain of two additions is exact: the final result denotes precisely
/// the rational sum of three operands, cross-multiplied onto the common
/// denominator `10^(a.scale + b.scale + c.scale)`.  With the uniqueness of
/// the canonical text this is why the sum of decimal literals always
/// formats as the mathematically exact sum, never a rounded neighbour.
#[verifier::rlimit(100)]
pub proof fn lemma_sum3_exact(a: Decimal, b: Decimal, c: Decimal, s1: Decimal, s2: Decimal)
    requires
        spec_add(a, b) == Ok::<Decimal, CalcError>(s1),
        spec_add(s1, c) == Ok::<Decimal, CalcError>(s2),
    ensures
        s2.mantissa * (pow10(a.scale as nat) * pow10(b.scale as nat) * pow10(c.scale as nat))
            == (a.mantissa * (pow10(b.scale as nat) * pow10(c.scale as nat)) + b.mantissa * (pow10(
            a.scale as nat,
        ) * pow10(c.scale as nat)) + c.mantissa * (pow10(a.scale as nat) * pow10(b.scale as nat)))
            * pow10(s2.scale as nat),
{
    let pa = pow10(a.scale as nat);
    let pb = pow10(b.scale as nat);
    let pc = pow10(c.scale as nat);
    let p1 = pow10(s1.scale as nat);
    let p2 = pow10(s2.scale as nat);
    lemma_add_exact(a, b, s1);
    lemma_add_exact(s1, c, s2);
    lemma_pow_positive(10, s1.scale as nat);
    let sa = a.mantissa as int;
    let sb = b.mantissa as int;
    let sc = c.mantissa as int;
    let m1 = s1.mantissa as int;
    let m2 = s2.mantissa as int;
    let q = pa * pb;
    let lhs = m2 * (pa * pb * pc);
    let rhs = (sa * (pb * pc) + sb * (pa * pc) + sc * (pa * pb)) * p2;
    let z = (sa * pb + sb * pa) * pc + sc * q;
    assert((m2 * (p1 * pc)) * q == p1 * lhs) by (nonlinear_arith)
        requires
            lhs == m2 * (pa * pb * pc),
            q == pa * pb,
    {
    }
    assert(((m1 * pc + sc * p1) * p2) * q == ((m1 * q) * pc + (sc * q) * p1) * p2)
        by (nonlinear_arith) {
    }
    assert((((sa * pb + sb * pa) * p1) * pc + (sc * q) * p1) * p2 == p1 * (z * p2))
        by (nonlinear_arith)
        requires
            z == (sa * pb + sb * pa) * pc + sc * q,
    {
    }
    assert(z * p2 == rhs) by (nonlinear_arith)
        requires
            z == (sa * pb + sb * pa) * pc + sc * q,
            q == pa * pb,
            rhs == (sa * (pb * pc) + sb * (pa * pc) + sc * (pa * pb)) * p2,
    {
    }
    vstd::arithmetic::mul::lemma_mul_equality_converse(p1, lhs, rhs);
}

/// A nonzero `d` that divides `w` exactly recovers `w` when multiplied by
/// the exact quotient.
proof fn lemma_divides_gives_quotient(w: int, d: int)
    requires
        d != 0,
        divides_exactly(w, d),
    ensures
        d * exact_div(w, d) == w,
{
    let qm = mag(w) / mag(d);
    lemma_fundamental_div_mod(mag(w), mag(d));
    assert(mag(w) == mag(d) * qm);
    vstd::arithmetic::mul::lemma_mul_unary_negation(mag(d), qm);
    vstd::arithmetic::mul::lemma_mul_unary_negation(-mag(d), qm);
    if w >= 0 {
        if d > 0 {
            lemma_exact_div_unique(w, d, qm);
        } else {
            lemma_exact_div_unique(w, d, -qm);
        }
    } else {
        if d > 0 {
            lemma_exact_div_unique(w, d, -qm);
        } else {
            lemma_exact_div_unique(w, d, qm);
        }
    }
}

/// A smallest exactly-divisible widening exists whenever any does.
proof fn lemma_exists_minimal_div(a: Decimal, b: Decimal, k0: nat)
    requires
        div_ok_at(a, b, k0),
    ensures
        exists|k: nat|
            div_ok_at(a, b, k) && (forall|j: nat| j < k ==> !div_ok_at(a, b, j)),
    decreases k0,
{
    if forall|j: nat| j < k0 ==> !div_ok_at(a, b, j) {
        assert(div_ok_at(a, b, k0) && (forall|j: nat| j < k0 ==> !div_ok_at(a, b, j)));
    } else {
        let j0 = choose|j: nat| j < k0 && div_ok_at(a, b, j);
        lemma_exists_minimal_div(a, b, j0);
    }
}

/// Division is the exact inverse of multiplication: whenever the division
/// terminates exactly and the product of quotient and divisor is
/// representable, that product denotes the dividend's value again.
pub proof fn lemma_div_mul_inverse(a: Decimal, b: Decimal, q: Decimal, r: Decimal)
    requires
        spec_div(a, b) == Ok::<Decimal, CalcError>(q),
        spec_mul(q, b) == Ok::<Decimal, CalcError>(r),
    ensures
        same_value(r, a),
{
    let pa = pow10(a.scale as nat);
    if a.mantissa == 0 {
        vstd::arithmetic::mul::lemma_mul_basics(b.mantissa as int);
        vstd::arithmetic::mul::lemma_mul_basics(pa);
        vstd::arithmetic::mul::lemma_mul_basics(pow10(r.scale as nat));
    } else {
        let k0 = choose|k: nat| div_ok_at(a, b, k);
        lemma_exists_minimal_div(a, b, k0);
        let k = choose|k: nat|
            div_ok_at(a, b, k) && (forall|j: nat| j < k ==> !div_ok_at(a, b, j));
        assert(div_ok_at(a, b, k));
        let w = a.mantissa * pow10(k);
        let d = b.mantissa as int;
        lemma_divides_gives_quotient(w, d);
        let ed = exact_div(w, d);
        assert(q.mantissa as int == ed);
        assert(r.mantissa as int == q.mantissa * b.mantissa);
        assert(r.mantissa as int == w) by {
            vstd::arithmetic::mul::lemma_mul_is_commutative(d, ed);
        }
        assert(r.scale == a.scale + k - b.scale + b.scale);
        assert(r.mantissa * pa == a.mantissa * pow10(r.scale as nat)) by {
            lemma_mul_is_associative(a.mantissa as int, pow10(k), pa);
            lemma_pow_adds(10, k, a.scale as nat);
        }
    }
}

/// Denoting the same rational number is symmetric.
pub(crate) proof fn lemma_same_value_sym(x: Decimal, y: Decimal)
    requires
        same_value(x, y),
    ensures
        same_value(y, x),
{
}

/// One widening step: multiplying the mantissa aligned at scale `e` by ten
/// aligns it at scale `e + 1`.
proof fn lemma_widen_step(d: Decimal, e: nat)
    requires
        d.scale <= e,
    ensures
        aligned_mantissa(d, e) * 10 == aligned_mantissa(d, e + 1),
{
    let k = (e - d.scale) as nat;
    assert(pow10(k + 1) == pow10(k) * 10) by {
        lemma_pow_adds(10, k, 1);
        vstd::arithmetic::power::lemma_pow1(10);
    }
    lemma_mul_is_associative(d.mantissa as int, pow10(k), 10);
}

/// Strips every trailing zero digit that the scale can absorb, yielding
/// the canonical representation of the same value; a zero mantissa comes
/// back as the canonical zero.
pub fn simplify(origin: &Decimal) -> (r: Decimal)
    ensures
        is_normal(r),
        r.scale <= origin.scale,
        origin.mantissa == r.mantissa * pow10((origin.scale - r.scale) as nat),
{
    let (neg, mut m) = split_mag(origin.mantissa);
    let mut p = origin.scale;
    proof {
        assert(mag(origin.mantissa as int) == m * pow10((origin.scale - p) as nat)) by {
            vstd::arithmetic::power::lemma_pow0(10);
            vstd::arithmetic::mul::lemma_mul_basics(m as int);
        }
    }
    while m % 10 == 0 && p > 0
        invariant
            p <= origin.scale,
            neg == (origin.mantissa < 0),
            m <= mag(origin.mantissa as int),
            mag(origin.mantissa as int) == m * pow10((origin.scale - p) as nat),
        decreases p,
    {
        proof {
            lemma_fundamental_div_mod(m as int, 10);
            let m2 = (m as int) / 10;
            assert(m == m2 * 10);
            let k = (origin.scale - p) as nat;
            assert(pow10(k + 1) == 10 * pow10(k)) by {
                lemma_pow_adds(10, 1, k);
                assert(pow10(1) == 10) by {
                    vstd::arithmetic::power::lemma_pow1(10);
                }
            }
            assert((m2 * 10) * pow10(k) == m2 * (10 * pow10(k))) by {
                lemma_mul_is_associative(m2, 10, pow10(k));
            }
            lemma_pow_positive(10, k);
        }
        m = m / 10;
        p = p - 1;
    }
    let mant = join_mag(neg, m);
    proof {
        let k = (origin.scale - p) as nat;
        lemma_pow_positive(10, k);
        if origin.mantissa != 0 {
            assert(m != 0) by {
                if m == 0 {
                    assert(mag(origin.mantissa as int) == 0);
                }
            }
        } else {
            assert(mag(0int) == 0);
            assert(m * pow10(k) == 0);
            assert(m == 0);
        }
        if neg {
            assert(origin.mantissa as int == (-(m as int)) * pow10(k)) by {
                vstd::arithmetic::mul::lemma_mul_unary_negation(m as int, pow10(k));
            }
        }
        if p > 0 {
            assert(mant as int % 10 != 0) by {
                if mant as int % 10 == 0 {
                    lemma_mod10_negate(mant as int);
                    assert(m as int % 10 == 0);
                }
            }
        }
    }
    Decimal { mantissa: mant, scale: p }
}

} // verus!
