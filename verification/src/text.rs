use vstd::prelude::*;

verus! {

use crate::decimal::{
    Decimal, pow10, mag, is_normal, fits_mantissa, simplify, same_value, lemma_normal_unique,
};
use crate::error::CalcError;
use vstd::arithmetic::power::{lemma_pow_adds, lemma_pow_positive};
use vstd::arithmetic::div_mod::lemma_fundamental_div_mod;

/// Whether `c` is a decimal digit.
pub open spec fn is_digit_char(c: char) -> bool {
    48 <= c as int <= 57
}

/// The numeric value of a digit character.
pub open spec fn char_digit(c: char) -> int {
    c as int - 48
}

/// The digit character for a value between zero and nine.
pub open spec fn digit_char(d: int) -> char {
    if d == 0 {
        '0'
    } else if d == 1 {
        '1'
    } else if d == 2 {
        '2'
    } else if d == 3 {
        '3'
    } else if d == 4 {
        '4'
    } else if d == 5 {
        '5'
    } else if d == 6 {
        '6'
    } else if d == 7 {
        '7'
    } else if d == 8 {
        '8'
    } else {
        '9'
    }
}

/// The decimal digit string of `n`, most significant digit first, with no
/// leading zero except for `n == 0` itself.
pub open spec fn dec_digits(n: nat) -> Seq<char>
    decreases n,
{
    if n < 10 {
        seq![digit_char(n as int)]
    } else {
        dec_digits(n / 10) + seq![digit_char((n % 10) as int)]
    }
}

/// Every character of `s` is a decimal digit.
pub open spec fn all_digits(s: Seq<char>) -> bool {
    forall|i: int| 0 <= i < s.len() ==> is_digit_char(#[trigger] s[i])
}

/// The number that the digit string `s` denotes.
pub open spec fn digits_val(s: Seq<char>) -> nat
    decreases s.len(),
{
    if s.len() == 0 {
        0
    } else {
        digits_val(s.drop_last()) * 10 + (char_digit(s.last()) as nat)
    }
}

/// `n` zero characters.
pub open spec fn zeroes(n: nat) -> Seq<char> {
    Seq::new(n, |i: int| '0')
}

/// The canonical text of a decimal: `0.0` for zero; otherwise the sign,
/// then the mantissa's digits with the point inserted `scale` places from
/// the right — zero-padded to `0.0…d` when the mantissa is shorter than
/// the scale, and given an explicit `.0` tail when the scale is zero.
pub open spec fn spec_format(d: Decimal) -> Seq<char> {
    if d.mantissa == 0 {
        seq!['0', '.', '0']
    } else {
        let sign: Seq<char> = if d.mantissa < 0 {
            seq!['-']
        } else {
            Seq::empty()
        };
        let ds = dec_digits(mag(d.mantissa as int) as nat);
        if d.scale == 0 {
            sign + ds + seq!['.', '0']
        } else if ds.len() <= d.scale {
            sign + seq!['0', '.'] + zeroes((d.scale as nat - ds.len()) as nat) + ds
        } else {
            sign + ds.take(ds.len() - d.scale as int) + seq!['.'] + ds.skip(
                ds.len() - d.scale as int,
            )
        }
    }
}

/// One left-to-right pass over the body of a literal (the text after any
/// sign): `None` when a second point or a foreign character appears,
/// otherwise the digits' value, how many digits there are, and how many
/// stand after the point.
pub open spec fn scan_literal(t: Seq<char>, i: int, seen: bool, val: nat, nd: nat, fd: nat) -> Option<
    (nat, nat, nat),
>
    decreases t.len() - i,
{
    if i < 0 || i >= t.len() {
        Some((val, nd, fd))
    } else if t[i] == '.' {
        if seen {
            None
        } else {
            scan_literal(t, i + 1, true, val, nd, fd)
        }
    } else if is_digit_char(t[i]) {
        scan_literal(
            t,
            i + 1,
            seen,
            val * 10 + (char_digit(t[i]) as nat),
            nd + 1,
            if seen {
                fd + 1
            } else {
                fd
            },
        )
    } else {
        None
    }
}

/// The normal form of a decimal: trailing zero digits of the mantissa move
/// into the scale until none is left or the scale is exhausted.
pub open spec fn strip_zeros(m: int, e: nat) -> (int, nat)
    decreases e,
{
    if e == 0 || m % 10 != 0 {
        (m, e)
    } else {
        strip_zeros(m / 10, (e - 1) as nat)
    }
}

/// What reading a literal returns: an optional leading minus sign, digits
/// with at most one point; the mantissa is the digits with the point
/// removed and the scale counts the digits after the point.  Text of any
/// other shape is malformed; a mantissa or scale beyond the representable
/// range is an overflow; a zero mantissa yields the canonical zero; any
/// other value is returned in normal form.
pub open spec fn spec_from_literal(s: Seq<char>) -> Result<Decimal, CalcError> {
    let neg = s.len() > 0 && s[0] == '-';
    let t = if neg {
        s.skip(1)
    } else {
        s
    };
    match scan_literal(t, 0, false, 0, 0, 0) {
        Option::None => Err(CalcError::MalformedNumber),
        Option::Some((val, nd, fd)) => {
            if nd == 0 {
                Err(CalcError::MalformedNumber)
            } else {
                let m: int = if neg {
                    -(val as int)
                } else {
                    val as int
                };
                if !fits_mantissa(m) {
                    Err(CalcError::ArithmeticOverflow)
                } else if fd > u8::MAX {
                    Err(CalcError::ArithmeticOverflow)
                } else if val == 0 {
                    Ok(Decimal { mantissa: 0, scale: 0 })
                } else {
                    let (m2, e2) = strip_zeros(m, fd);
                    Ok(Decimal { mantissa: m2 as i128, scale: e2 as u8 })
                }
            }
        },
    }
}

/// The result of stripping zeros keeps the value, stays representable, and
/// is normal.
proof fn lemma_strip_zeros_props(m: int, e: nat)
    requires
        m != 0,
        fits_mantissa(m),
    ensures
        strip_zeros(m, e).1 <= e,
        strip_zeros(m, e).0 != 0,
        fits_mantissa(strip_zeros(m, e).0),
        mag(strip_zeros(m, e).0) <= mag(m),
        m == strip_zeros(m, e).0 * pow10((e - strip_zeros(m, e).1) as nat),
        strip_zeros(m, e).1 > 0 ==> strip_zeros(m, e).0 % 10 != 0,
    decreases e,
{
    if e == 0 || m % 10 != 0 {
        vstd::arithmetic::power::lemma_pow0(10);
        vstd::arithmetic::mul::lemma_mul_basics(m);
    } else {
        let m1 = m / 10;
        lemma_fundamental_div_mod(m, 10);
        assert(m == m1 * 10) by {
            vstd::arithmetic::mul::lemma_mul_is_commutative(10, m1);
        }
        assert(m1 != 0) by {
            if m1 == 0 {
                vstd::arithmetic::mul::lemma_mul_basics(10);
            }
        }
        assert(mag(m1) <= mag(m)) by {
            crate::decimal::lemma_mag_mul(m1, 10);
        }
        lemma_strip_zeros_props(m1, (e - 1) as nat);
        let (m2, e2) = strip_zeros(m1, (e - 1) as nat);
        let t = ((e - 1) - e2) as nat;
        assert(m == m2 * pow10(t + 1)) by {
            lemma_pow_adds(10, t, 1);
            vstd::arithmetic::power::lemma_pow1(10);
            vstd::arithmetic::mul::lemma_mul_is_associative(m2, pow10(t), 10);
        }
    }
}

/// Converts one digit character to its value.
fn char_to_digit(c: char) -> (r: Option<u128>)
    ensures
        r is Some <==> is_digit_char(c),
        r is Some ==> r->0 == char_digit(c) && r->0 < 10,
{
    let cu = c as u32;
    if 48 <= cu && cu <= 57 {
        Some((cu - 48) as u128)
    } else {
        None
    }
}

impl Decimal {
    /// Reads a decimal literal: an optional leading minus sign, then
    /// digits with at most one point.  The mantissa is the digits with the
    /// point removed; the scale counts the digits after the point.  The
    /// result is normalized, a zero mantissa yielding the canonical zero.
    pub fn from_literal(s: &str) -> (r: Result<Decimal, CalcError>)
        ensures
            r == spec_from_literal(s@),
    {
        let n = s.unicode_len();
        let neg = n > 0 && s.get_char(0) == '-';
        let start: usize = if neg {
            1
        } else {
            0
        };
        let ghost t: Seq<char> = if neg {
            s@.skip(1)
        } else {
            s@
        };
        let mut i = start;
        let mut seen = false;
        let mut val: u128 = 0;
        let mut big = false;
        let ghost mut gval: nat = 0;
        let mut nd: usize = 0;
        let mut fd: usize = 0;
        while i < n
            invariant
                start <= i <= n,
                n == s@.len(),
                neg == (s@.len() > 0 && s@[0] == '-'),
                start == if neg {
                    1int
                } else {
                    0int
                },
                t == if neg {
                    s@.skip(1)
                } else {
                    s@
                },
                t.len() == n - start,
                scan_literal(t, 0, false, 0, 0, 0) == scan_literal(
                    t,
                    i - start,
                    seen,
                    gval,
                    nd as nat,
                    fd as nat,
                ),
                !big ==> val == gval,
                big ==> gval > i128::MAX as int + 1,
                nd <= i,
                fd <= i,
            decreases n - i,
        {
            let c = s.get_char(i);
            proof {
                assert(t[i - start] == s@[i as int]);
            }
            if c == '.' {
                if seen {
                    return Err(CalcError::MalformedNumber);
                }
                seen = true;
            } else {
                match char_to_digit(c) {
                    Some(d) => {
                        if !big {
                            let stepped = match val.checked_mul(10) {
                                Some(v10) => v10.checked_add(d),
                                None => None,
                            };
                            match stepped {
                                Some(v) => {
                                    val = v;
                                },
                                None => {
                                    big = true;
                                },
                            }
                        }
                        proof {
                            gval = gval * 10 + (char_digit(t[i - start]) as nat);
                        }
                        nd = nd + 1;
                        if seen {
                            fd = fd + 1;
                        }
                    },
                    None => {
                        return Err(CalcError::MalformedNumber);
                    },
                }
            }
            i = i + 1;
        }
        proof {
            assert(scan_literal(t, i - start, seen, gval, nd as nat, fd as nat) == Some(
                (gval, nd as nat, fd as nat),
            ));
        }
        if nd == 0 {
            return Err(CalcError::MalformedNumber);
        }
        if big {
            return Err(CalcError::ArithmeticOverflow);
        }
        if neg {
            if val > (i128::MAX as u128) + 1 {
                return Err(CalcError::ArithmeticOverflow);
            }
        } else {
            if val > i128::MAX as u128 {
                return Err(CalcError::ArithmeticOverflow);
            }
        }
        if fd > u8::MAX as usize {
            return Err(CalcError::ArithmeticOverflow);
        }
        if val == 0 {
            return Ok(Decimal { mantissa: 0, scale: 0 });
        }
        let m = crate::decimal::join_mag(neg, val);
        let d0 = Decimal { mantissa: m, scale: fd as u8 };
        let r = simplify(&d0);
        proof {
            lemma_strip_zeros_props(m as int, fd as nat);
            let (m2, e2) = strip_zeros(m as int, fd as nat);
            let sr = Decimal { mantissa: m2 as i128, scale: e2 as u8 };
            crate::decimal::lemma_simplify_same_value(d0, sr);
            crate::decimal::lemma_simplify_same_value(d0, r);
            crate::decimal::lemma_same_value_sym(d0, r);
            crate::decimal::lemma_same_value_trans(r, d0, sr);
            lemma_normal_unique(r, sr);
        }
        Ok(r)
    }
}

/// Appends one digit character to the output text.
pub(crate) fn push_digit(out: &mut String, c: char)
    requires
        is_digit_char(c),
    ensures
        final (out)@ == old(out)@.push(c),
{
    if c == '0' {
        out.append("0");
        proof {
            reveal_strlit("0");
            assert(out@ =~= old(out)@.push(c));
        }
    } else if c == '1' {
        out.append("1");
        proof {
            reveal_strlit("1");
            assert(out@ =~= old(out)@.push(c));
        }
    } else if c == '2' {
        out.append("2");
        proof {
            reveal_strlit("2");
            assert(out@ =~= old(out)@.push(c));
        }
    } else if c == '3' {
        out.append("3");
        proof {
            reveal_strlit("3");
            assert(out@ =~= old(out)@.push(c));
        }
    } else if c == '4' {
        out.append("4");
        proof {
            reveal_strlit("4");
            assert(out@ =~= old(out)@.push(c));
        }
    } else if c == '5' {
        out.append("5");
        proof {
            reveal_strlit("5");
            assert(out@ =~= old(out)@.push(c));
        }
    } else if c == '6' {
        out.append("6");
        proof {
            reveal_strlit("6");
            assert(out@ =~= old(out)@.push(c));
        }
    } else if c == '7' {
        out.append("7");
        proof {
            reveal_strlit("7");
            assert(out@ =~= old(out)@.push(c));
        }
    } else if c == '8' {
        out.append("8");
        proof {
            reveal_strlit("8");
            assert(out@ =~= old(out)@.push(c));
        }
    } else {
        out.append("9");
        proof {
            reveal_strlit("9");
            assert(out@ =~= old(out)@.push(c));
        }
    }
}

/// The character for a digit value.
fn digit_to_char(d: u128) -> (c: char)
    requires
        d < 10,
    ensures
        c == digit_char(d as int),
        is_digit_char(c),
{
    if d == 0 {
        '0'
    } else if d == 1 {
        '1'
    } else if d == 2 {
        '2'
    } else if d == 3 {
        '3'
    } else if d == 4 {
        '4'
    } else if d == 5 {
        '5'
    } else if d == 6 {
        '6'
    } else if d == 7 {
        '7'
    } else if d == 8 {
        '8'
    } else {
        '9'
    }
}

/// The decimal digit characters of `m`, most significant first.
fn digits_of(m: u128) -> (v: Vec<char>)
    ensures
        v@ == dec_digits(m as nat),
    decreases m,
{
    if m < 10 {
        let mut v: Vec<char> = Vec::new();
        v.push(digit_to_char(m));
        proof {
            assert(v@ =~= dec_digits(m as nat));
        }
        v
    } else {
        let mut v = digits_of(m / 10);
        v.push(digit_to_char(m % 10));
        proof {
            assert(v@ =~= dec_digits(m as nat));
        }
        v
    }
}

/// Every character that `dec_digits` produces is a digit, and there is at
/// least one.
proof fn lemma_dec_digits_shape(n: nat)
    ensures
        dec_digits(n).len() >= 1,
        all_digits(dec_digits(n)),
    decreases n,
{
    if n >= 10 {
        lemma_dec_digits_shape(n / 10);
        assert forall|i: int| 0 <= i < dec_digits(n).len() implies is_digit_char(
            #[trigger] dec_digits(n)[i],
        ) by {
            if i < dec_digits(n / 10).len() {
                assert(dec_digits(n)[i] == dec_digits(n / 10)[i]);
            }
        }
    }
}

/// Appends the digit characters `ds[from..to]` to the output text.
fn push_digits(out: &mut String, ds: &Vec<char>, from: usize, to: usize)
    requires
        from <= to <= ds@.len(),
        forall|i: int| from <= i < to ==> is_digit_char(#[trigger] ds@[i]),
    ensures
        final (out)@ == old(out)@ + ds@.subrange(from as int, to as int),
{
    let ghost base = out@;
    let mut i = from;
    while i < to
        invariant
            from <= i <= to <= ds@.len(),
            forall|j: int| from <= j < to ==> is_digit_char(#[trigger] ds@[j]),
            out@ == base + ds@.subrange(from as int, i as int),
        decreases to - i,
    {
        push_digit(out, ds[i]);
        proof {
            assert(out@ =~= base + ds@.subrange(from as int, i + 1));
        }
        i = i + 1;
    }
    proof {
        assert(out@ =~= base + ds@.subrange(from as int, to as int));
    }
}

impl Decimal {
    /// The canonical text of this decimal, as `spec_format` states it:
    /// `0.0` for zero, otherwise the mantissa's digits with the point
    /// placed `scale` digits from the right, zero-padded where the integer
    /// part would be empty and suffixed with `.0` where the scale is zero.
    pub fn format(&self) -> (r: String)
        ensures
            r@ == spec_format(*self),
    {
        if self.mantissa == 0 {
            let mut out = String::new();
            out.append("0.0");
            proof {
                reveal_strlit("0.0");
                assert(out@ =~= spec_format(*self));
            }
            return out;
        }
        let (neg, m) = crate::decimal::split_mag(self.mantissa);
        let ds = digits_of(m);
        proof {
            lemma_dec_digits_shape(m as nat);
        }
        let mut out = String::new();
        if neg {
            out.append("-");
        }
        proof {
            reveal_strlit("-");
        }
        let ghost sign: Seq<char> = if neg {
            seq!['-']
        } else {
            Seq::empty()
        };
        proof {
            assert(out@ =~= sign);
        }
        if self.scale == 0 {
            push_digits(&mut out, &ds, 0, ds.len());
            out.append(".0");
            proof {
                reveal_strlit(".0");
                assert(ds@.subrange(0, ds@.len() as int) =~= ds@);
                assert(out@ =~= spec_format(*self));
            }
            out
        } else if ds.len() <= self.scale as usize {
            out.append("0.");
            proof {
                reveal_strlit("0.");
            }
            let ghost mid = out@;
            let mut z: usize = ds.len();
            while z < self.scale as usize
                invariant
                    ds@.len() <= z <= self.scale as usize,
                    out@ == mid + zeroes((z - ds@.len()) as nat),
                    mid == sign + seq!['0', '.'],
                decreases self.scale as usize - z,
            {
                push_digit(&mut out, '0');
                proof {
                    assert(out@ =~= mid + zeroes((z + 1 - ds@.len()) as nat));
                }
                z = z + 1;
            }
            push_digits(&mut out, &ds, 0, ds.len());
            proof {
                assert(ds@.subrange(0, ds@.len() as int) =~= ds@);
                assert(out@ =~= spec_format(*self));
            }
            out
        } else {
            let cut = ds.len() - self.scale as usize;
            push_digits(&mut out, &ds, 0, cut);
            out.append(".");
            proof {
                reveal_strlit(".");
            }
            push_digits(&mut out, &ds, cut, ds.len());
            proof {
                assert(ds@.subrange(cut as int, ds@.len() as int) =~= ds@.skip(
                    ds@.len() - self.scale as int,
                ));
                assert(ds@.subrange(0, cut as int) =~= ds@.take(ds@.len() - self.scale as int));
                assert(out@ =~= spec_format(*self));
            }
            out
        }
    }
}

/// The digit characters and their values correspond one to one.
proof fn lemma_digit_char_val(dv: int)
    requires
        0 <= dv < 10,
    ensures
        char_digit(digit_char(dv)) == dv,
        is_digit_char(digit_char(dv)),
{
}

/// The digit string of `n` denotes `n`.
proof fn lemma_dec_digits_val(n: nat)
    ensures
        digits_val(dec_digits(n)) == n,
    decreases n,
{
    if n < 10 {
        let s = dec_digits(n);
        lemma_digit_char_val(n as int);
        assert(s.drop_last() =~= Seq::<char>::empty());
        assert(digits_val(Seq::<char>::empty()) == 0);
        vstd::arithmetic::mul::lemma_mul_basics(10);
    } else {
        lemma_dec_digits_val(n / 10);
        lemma_digit_char_val((n % 10) as int);
        let a = dec_digits(n / 10);
        let s = dec_digits(n);
        assert(s.drop_last() =~= a);
        assert(s.last() == digit_char((n % 10) as int));
        lemma_fundamental_div_mod(n as int, 10);
        vstd::arithmetic::mul::lemma_mul_is_commutative(10, n as int / 10);
    }
}

/// Splitting a digit string splits its value at the matching power of ten.
proof fn lemma_digits_val_split(a: Seq<char>, b: Seq<char>)
    ensures
        digits_val(a + b) == digits_val(a) * pow10(b.len()) + digits_val(b),
    decreases b.len(),
{
    if b.len() == 0 {
        assert(a + b =~= a);
        vstd::arithmetic::power::lemma_pow0(10);
        vstd::arithmetic::mul::lemma_mul_basics(digits_val(a) as int);
    } else {
        let b0 = b.drop_last();
        lemma_digits_val_split(a, b0);
        assert((a + b).drop_last() =~= a + b0);
        assert((a + b).last() == b.last());
        let p0 = pow10(b0.len());
        let c = char_digit(b.last()) as nat;
        assert(pow10(b.len()) == p0 * 10) by {
            lemma_pow_adds(10, b0.len(), 1);
            vstd::arithmetic::power::lemma_pow1(10);
        }
        let va = digits_val(a) as int;
        assert((va * p0 + digits_val(b0)) * 10 == va * (p0 * 10) + digits_val(b0) * 10) by {
            vstd::arithmetic::mul::lemma_mul_is_distributive_add_other_way(
                10,
                va * p0,
                digits_val(b0) as int,
            );
            vstd::arithmetic::mul::lemma_mul_is_associative(va, p0, 10);
        }
    }
}

/// A string of zero characters denotes zero.
proof fn lemma_zeroes_val(z: nat)
    ensures
        digits_val(zeroes(z)) == 0,
        all_digits(zeroes(z)),
    decreases z,
{
    if z > 0 {
        lemma_zeroes_val((z - 1) as nat);
        assert(zeroes(z).drop_last() =~= zeroes((z - 1) as nat));
        assert(zeroes(z).last() == '0');
    }
}

/// Scanning a block of digit characters multiplies the accumulator by the
/// matching power of ten and adds the block's value.
proof fn lemma_scan_digit_block(
    t: Seq<char>,
    i: int,
    seen: bool,
    val: nat,
    nd: nat,
    fd: nat,
    blen: nat,
)
    requires
        0 <= i,
        i + blen <= t.len(),
        forall|j: int| i <= j < i + blen ==> is_digit_char(#[trigger] t[j]),
    ensures
        scan_literal(t, i, seen, val, nd, fd) == scan_literal(
            t,
            i + blen,
            seen,
            (val * pow10(blen) + digits_val(t.subrange(i, i + blen))) as nat,
            nd + blen,
            if seen {
                fd + blen
            } else {
                fd
            },
        ),
    decreases blen,
{
    if blen == 0 {
        assert(t.subrange(i, i) =~= Seq::<char>::empty());
        vstd::arithmetic::power::lemma_pow0(10);
        vstd::arithmetic::mul::lemma_mul_basics(val as int);
    } else {
        let c = t[i];
        assert(is_digit_char(c));
        assert(c != '.');
        let val1 = val * 10 + (char_digit(c) as nat);
        lemma_scan_digit_block(t, i + 1, seen, val1, nd + 1, if seen { fd + 1 } else { fd }, (blen - 1) as nat);
        let block = t.subrange(i, i + blen);
        let rest = t.subrange(i + 1, i + blen);
        assert(block =~= seq![c] + rest);
        lemma_digits_val_split(seq![c], rest);
        assert(seq![c].drop_last() =~= Seq::<char>::empty());
        assert(digits_val(Seq::<char>::empty()) == 0);
        assert(digits_val(seq![c]) == char_digit(c));
        let p1 = pow10((blen - 1) as nat);
        assert(pow10(blen) == 10 * p1) by {
            lemma_pow_adds(10, 1, (blen - 1) as nat);
            vstd::arithmetic::power::lemma_pow1(10);
        }
        assert(val1 * p1 == val * pow10(blen) + (char_digit(c) as nat) * p1) by {
            vstd::arithmetic::mul::lemma_mul_is_distributive_add_other_way(
                p1,
                (val * 10) as int,
                char_digit(c),
            );
            vstd::arithmetic::mul::lemma_mul_is_associative(val as int, 10, p1);
        }
    }
}

/// One value, one text: two normalized decimals that denote the same
/// rational number format as the same canonical text, so the text of a
/// computed result is determined by its value alone, never by the
/// representation the computation happened to produce.
pub proof fn lemma_canonical_text_unique(x: Decimal, y: Decimal)
    requires
        is_normal(x),
        is_normal(y),
        same_value(x, y),
    ensures
        spec_format(x) == spec_format(y),
{
    lemma_normal_unique(x, y);
}

/// Reading back the canonical text returns the decimal unchanged: for
/// every normalized decimal whose text stays within the mantissa range
/// when the `.0` tail of a scale-zero value is absorbed, the literal of
/// its format is the decimal itself.
#[verifier::rlimit(100)]
pub proof fn lemma_format_round_trip(d: Decimal)
    requires
        is_normal(d),
        d.scale == 0 ==> fits_mantissa(d.mantissa * 10),
    ensures
        spec_from_literal(spec_format(d)) == Ok::<Decimal, CalcError>(d),
{
    let s = spec_format(d);
    if d.mantissa == 0 {
        assert(s[0] == '0' && s[1] == '.' && s[2] == '0');
        assert(s[0] != '-');
        assert(scan_literal(s, 0, false, 0, 0, 0) == scan_literal(s, 1, false, 0, 1, 0));
        assert(scan_literal(s, 1, false, 0, 1, 0) == scan_literal(s, 2, true, 0, 1, 0));
        assert(scan_literal(s, 2, true, 0, 1, 0) == scan_literal(s, 3, true, 0, 2, 1));
        assert(scan_literal(s, 3, true, 0, 2, 1) == Some((0nat, 2nat, 1nat)));
    } else {
        let neg = d.mantissa < 0;
        let mg = mag(d.mantissa as int) as nat;
        let ds = dec_digits(mg);
        lemma_dec_digits_shape(mg);
        lemma_dec_digits_val(mg);
        let sign: Seq<char> = if neg {
            seq!['-']
        } else {
            Seq::empty()
        };
        if d.scale == 0 {
            let body = ds + seq!['.', '0'];
            assert(s =~= sign + body);
            assert(scan_literal(body, 0, false, 0, 0, 0) == Some((mg * 10, (ds.len() + 1) as nat, 1nat))) by {
                lemma_scan_digit_block(body, 0, false, 0, 0, 0, ds.len());
                assert(body.subrange(0, ds.len() as int) =~= ds);
                vstd::arithmetic::mul::lemma_mul_basics(pow10(ds.len()) as int);
                assert(body[ds.len() as int] == '.');
                assert(scan_literal(body, ds.len() as int, false, mg, ds.len(), 0)
                    == scan_literal(body, ds.len() as int + 1, true, mg, ds.len(), 0));
                assert(body[ds.len() as int + 1] == '0');
                assert(scan_literal(body, ds.len() as int + 1, true, mg, ds.len(), 0)
                    == scan_literal(
                    body,
                    ds.len() as int + 2,
                    true,
                    mg * 10,
                    ds.len() + 1,
                    1,
                ));
            }
            lemma_round_trip_body(d, body, mg * 10, (ds.len() + 1) as nat, 1);
        } else if ds.len() <= d.scale {
            let z = (d.scale as nat - ds.len()) as nat;
            let body = seq!['0', '.'] + zeroes(z) + ds;
            assert(s =~= sign + body);
            lemma_zeroes_val(z);
            assert(scan_literal(body, 0, false, 0, 0, 0) == Some(
                (mg, (1 + z + ds.len()) as nat, d.scale as nat),
            )) by {
                assert(body[0] == '0');
                assert(scan_literal(body, 0, false, 0, 0, 0) == scan_literal(
                    body,
                    1,
                    false,
                    0,
                    1,
                    0,
                ));
                assert(body[1] == '.');
                assert(scan_literal(body, 1, false, 0, 1, 0) == scan_literal(body, 2, true, 0, 1, 0));
                assert(forall|j: int|
                    2 <= j < 2 + z ==> is_digit_char(#[trigger] body[j]));
                lemma_scan_digit_block(body, 2, true, 0, 1, 0, z);
                assert(body.subrange(2, 2 + z as int) =~= zeroes(z));
                vstd::arithmetic::mul::lemma_mul_basics(pow10(z) as int);
                lemma_scan_digit_block(body, 2 + z as int, true, 0, (1 + z) as nat, z, ds.len());
                assert(body.subrange(2 + z as int, 2 + z as int + ds.len() as int) =~= ds);
                vstd::arithmetic::mul::lemma_mul_basics(pow10(ds.len()) as int);
            }
            lemma_round_trip_body(d, body, mg, (1 + z + ds.len()) as nat, d.scale as nat);
        } else {
            let cut = ds.len() - d.scale as int;
            let pre = ds.take(cut);
            let post = ds.skip(cut);
            let body = pre + seq!['.'] + post;
            assert(s =~= sign + body);
            assert(pre + post =~= ds);
            lemma_digits_val_split(pre, post);
            assert(scan_literal(body, 0, false, 0, 0, 0) == Some((mg, ds.len(), d.scale as nat))) by {
                assert(forall|j: int|
                    0 <= j < pre.len() ==> is_digit_char(#[trigger] body[j]));
                lemma_scan_digit_block(body, 0, false, 0, 0, 0, pre.len());
                assert(body.subrange(0, pre.len() as int) =~= pre);
                vstd::arithmetic::mul::lemma_mul_basics(pow10(pre.len()) as int);
                assert(body[pre.len() as int] == '.');
                assert(scan_literal(body, pre.len() as int, false, digits_val(pre), pre.len(), 0)
                    == scan_literal(body, pre.len() as int + 1, true, digits_val(pre), pre.len(), 0));
                assert(forall|j: int|
                    pre.len() + 1 <= j < body.len() ==> is_digit_char(#[trigger] body[j]));
                lemma_scan_digit_block(
                    body,
                    pre.len() as int + 1,
                    true,
                    digits_val(pre),
                    pre.len(),
                    0,
                    post.len(),
                );
                assert(body.subrange(pre.len() as int + 1, pre.len() as int + 1 + post.len() as int)
                    =~= post);
            }
            lemma_round_trip_body(d, body, mg, ds.len(), d.scale as nat);
        }
    }
}

/// The common tail of the round-trip argument: once the scan of the body
/// is known to deliver the magnitude, the digit count and the scale, the
/// literal reader rebuilds exactly `d`.
proof fn lemma_round_trip_body(d: Decimal, body: Seq<char>, val: nat, nd: nat, fd: nat)
    requires
        is_normal(d),
        d.mantissa != 0,
        d.scale == 0 ==> fits_mantissa(d.mantissa * 10),
        body.len() > 0,
        body[0] != '-',
        scan_literal(body, 0, false, 0, 0, 0) == Some((val, nd, fd)),
        nd > 0,
        d.scale == 0 ==> val == mag(d.mantissa as int) * 10 && fd == 1,
        d.scale > 0 ==> val == mag(d.mantissa as int) && fd == d.scale,
        spec_format(d) == (if d.mantissa < 0 {
            seq!['-']
        } else {
            Seq::<char>::empty()
        }) + body,
    ensures
        spec_from_literal(spec_format(d)) == Ok::<Decimal, CalcError>(d),
{
    let s = spec_format(d);
    let neg = d.mantissa < 0;
    if neg {
        assert(s[0] == '-');
        assert(s.skip(1) =~= body);
    } else {
        assert(s =~= body);
        assert(s[0] != '-');
    }
    let m: int = if neg {
        -(val as int)
    } else {
        val as int
    };
    if d.scale == 0 {
        assert(m == d.mantissa * 10) by {
            if neg {
                assert(d.mantissa as int == -mag(d.mantissa as int));
                vstd::arithmetic::mul::lemma_mul_unary_negation(mag(d.mantissa as int), 10);
            }
        }
        assert(fits_mantissa(m));
        assert(val != 0) by {
            if mag(d.mantissa as int) * 10 == 0 {
                vstd::arithmetic::mul::lemma_mul_nonzero(mag(d.mantissa as int), 10);
            }
        }
        assert(m % 10 == 0) by {
            vstd::arithmetic::div_mod::lemma_mod_multiples_basic(d.mantissa as int, 10);
            vstd::arithmetic::mul::lemma_mul_is_commutative(d.mantissa as int, 10);
        }
        assert(m / 10 == d.mantissa) by {
            vstd::arithmetic::div_mod::lemma_div_multiples_vanish(d.mantissa as int, 10);
            vstd::arithmetic::mul::lemma_mul_is_commutative(d.mantissa as int, 10);
        }
        assert(strip_zeros(m, 1) == strip_zeros(m / 10, 0));
        assert(strip_zeros(m / 10, 0) == (m / 10, 0nat));
    } else {
        assert(m == d.mantissa as int) by {
            if neg {
                assert(d.mantissa as int == -mag(d.mantissa as int));
            }
        }
        assert(val != 0);
        assert(strip_zeros(m, d.scale as nat) == (d.mantissa as int, d.scale as nat));
    }
}

} // verus!
