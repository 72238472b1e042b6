//! Decimal parsing: tokenizing decimal text into sign, integral, fractional
//! and exponent parts, validating the grammar, and packing the digits into
//! base-10^9 groups.

use vstd::prelude::*;
use vstd::slice::slice_subrange;
use vstd::string::StringSliceAdditionalSpecFns;
use vstd::arithmetic::div_mod::lemma_fundamental_div_mod;
use vstd::arithmetic::div_mod::lemma_fundamental_div_mod_converse_div;
use vstd::arithmetic::div_mod::lemma_div_pos_is_pos;
use vstd::arithmetic::div_mod::lemma_div_is_ordered;
use vstd::arithmetic::div_mod::lemma_div_plus_one;
use vstd::arithmetic::div_mod::lemma_remainder;
use crate::decimal::Decimal;
use crate::decimal::DecModel;
use crate::decimal::ten_pow;
use crate::decimal::Sign;
use crate::error::DecimalParseError;

verus! {

/// ASCII whitespace, as `u8::is_ascii_whitespace` accepts it: space, tab,
/// line feed, form feed, carriage return.
pub open spec fn is_ws(b: u8) -> bool {
    b == 32 || b == 9 || b == 10 || b == 12 || b == 13
}

/// ASCII decimal digit.
pub open spec fn is_digit(b: u8) -> bool {
    48 <= b <= 57
}

/// Lower-cases one ASCII byte.
pub open spec fn to_lower(b: u8) -> u8 {
    if 65 <= b <= 90 {
        (b + 32) as u8
    } else {
        b
    }
}

/// Length of the leading whitespace run.
pub open spec fn ws_end(s: Seq<u8>) -> int
    decreases s.len(),
{
    if s.len() > 0 && is_ws(s[0]) {
        1 + ws_end(s.drop_first())
    } else {
        0
    }
}

/// Whether the whole sequence is whitespace.
pub open spec fn all_ws(s: Seq<u8>) -> bool {
    forall|i: int| 0 <= i < s.len() ==> is_ws(s[i])
}

/// Length of the leading run of ASCII digits.
pub open spec fn digits_end(s: Seq<u8>) -> int
    decreases s.len(),
{
    if s.len() > 0 && is_digit(s[0]) {
        1 + digits_end(s.drop_first())
    } else {
        0
    }
}

/// The input starts with the case-insensitive token `nan`.
pub open spec fn nan_prefix(s: Seq<u8>) -> bool {
    s.len() >= 3 && to_lower(s[0]) == 110 && to_lower(s[1]) == 97 && to_lower(s[2]) == 110
}

/// Sign denoted by an optional leading `+`/`-` (default positive).
pub open spec fn sign_of(s: Seq<u8>) -> Sign {
    if s.len() > 0 && s[0] == 45 {
        Sign::Negative
    } else {
        Sign::Positive
    }
}

/// The input with an optional leading `+`/`-` removed.
pub open spec fn after_sign(s: Seq<u8>) -> Seq<u8> {
    if s.len() > 0 && (s[0] == 43 || s[0] == 45) {
        s.skip(1)
    } else {
        s
    }
}

/// Leading zero digits removed, except that a final single digit is kept.
pub open spec fn trim_lead_zeros(s: Seq<u8>) -> Seq<u8>
    decreases s.len(),
{
    if s.len() > 1 && s[0] == 48 {
        trim_lead_zeros(s.drop_first())
    } else {
        s
    }
}

/// Trailing zero digits removed, possibly leaving the sequence empty.
pub open spec fn trim_trail_zeros(s: Seq<u8>) -> Seq<u8>
    decreases s.len(),
{
    if s.len() > 0 && s.last() == 48 {
        trim_trail_zeros(s.drop_last())
    } else {
        s
    }
}

/// All leading zero digits removed, possibly leaving the sequence empty.
pub open spec fn strip_zeros(s: Seq<u8>) -> Seq<u8>
    decreases s.len(),
{
    if s.len() > 0 && s[0] == 48 {
        strip_zeros(s.drop_first())
    } else {
        s
    }
}

/// Numeric value of a run of ASCII digit bytes, most significant first.
pub open spec fn digits_val(s: Seq<u8>) -> int
    decreases s.len(),
{
    if s.len() == 0 {
        0
    } else {
        digits_val(s.drop_last()) * 10 + (s.last() - 48)
    }
}

/// The digit run of a leading digit-run split is made of digits.
proof fn lemma_digits_end_digits(s: Seq<u8>)
    ensures
        0 <= digits_end(s) <= s.len(),
        forall|j: int| 0 <= j < digits_end(s) ==> is_digit(s[j]),
    decreases s.len(),
{
    if s.len() > 0 && is_digit(s[0]) {
        lemma_digits_end_digits(s.drop_first());
        assert forall|j: int| 0 <= j < digits_end(s) implies is_digit(s[j]) by {
            if j > 0 {
                assert(s.drop_first()[j - 1] == s[j]);
            }
        }
    }
}

/// Trimming leading zeros yields a suffix, so digit runs stay digit runs.
proof fn lemma_trim_lead_zeros_suffix(s: Seq<u8>)
    ensures
        trim_lead_zeros(s).len() <= s.len(),
        forall|j: int|
            0 <= j < trim_lead_zeros(s).len() ==> trim_lead_zeros(s)[j] == s[s.len()
                - trim_lead_zeros(s).len() + j],
        s.len() > 0 ==> trim_lead_zeros(s).len() >= 1,
    decreases s.len(),
{
    if s.len() > 1 && s[0] == 48 {
        lemma_trim_lead_zeros_suffix(s.drop_first());
    }
}

/// Trimming trailing zeros yields a prefix.
proof fn lemma_trim_trail_zeros_prefix(s: Seq<u8>)
    ensures
        trim_trail_zeros(s).len() <= s.len(),
        forall|j: int|
            0 <= j < trim_trail_zeros(s).len() ==> trim_trail_zeros(s)[j] == s[j],
        trim_trail_zeros(s).len() > 0 ==> trim_trail_zeros(s).last() != 48,
    decreases s.len(),
{
    if s.len() > 0 && s.last() == 48 {
        lemma_trim_trail_zeros_prefix(s.drop_last());
        assert forall|j: int| 0 <= j < trim_trail_zeros(s).len() implies trim_trail_zeros(s)[j]
            == s[j] by {
            assert(s.drop_last()[j] == s[j]);
        }
    }
}

/// Stripping leading zeros yields a suffix.
proof fn lemma_strip_zeros_suffix(s: Seq<u8>)
    ensures
        strip_zeros(s).len() <= s.len(),
        forall|j: int|
            0 <= j < strip_zeros(s).len() ==> strip_zeros(s)[j] == s[s.len() - strip_zeros(
                s,
            ).len() + j],
    decreases s.len(),
{
    if s.len() > 0 && s[0] == 48 {
        lemma_strip_zeros_suffix(s.drop_first());
    }
}

/// A digit run's value is bounded by 10 to its length.
proof fn lemma_digits_val_bounds(s: Seq<u8>)
    requires
        forall|j: int| 0 <= j < s.len() ==> is_digit(s[j]),
    ensures
        0 <= digits_val(s) < ten_pow(s.len()),
    decreases s.len(),
{
    if s.len() > 0 {
        lemma_digits_val_bounds(s.drop_last());
    }
}

/// Carves off whitespaces up to the first non-whitespace character.
fn eat_whitespaces(s: &[u8]) -> (r: &[u8])
    ensures
        r@ == s@.skip(ws_end(s@)),
{
    let mut i: usize = 0;
    proof {
        assert(s@.skip(0) =~= s@);
    }
    while i < s.len() && (s[i] == 32 || s[i] == 9 || s[i] == 10 || s[i] == 12 || s[i] == 13)
        invariant
            0 <= i <= s@.len(),
            ws_end(s@) == i + ws_end(s@.skip(i as int)),
        decreases s@.len() - i,
    {
        proof {
            assert(s@.skip(i as int)[0] == s@[i as int]);
            assert(s@.skip(i as int).drop_first() =~= s@.skip(i as int + 1));
        }
        i += 1;
    }
    proof {
        if i < s@.len() {
            assert(s@.skip(i as int)[0] == s@[i as int]);
        }
        assert(ws_end(s@.skip(i as int)) == 0);
    }
    slice_subrange(s, i, s.len())
}

/// Carves off decimal digits up to the first non-digit character.
fn eat_digits(s: &[u8]) -> (r: (&[u8], &[u8]))
    ensures
        r.0@ == s@.take(digits_end(s@)),
        r.1@ == s@.skip(digits_end(s@)),
{
    let mut i: usize = 0;
    proof {
        assert(s@.skip(0) =~= s@);
    }
    while i < s.len() && s[i] >= 48 && s[i] <= 57
        invariant
            0 <= i <= s@.len(),
            digits_end(s@) == i + digits_end(s@.skip(i as int)),
        decreases s@.len() - i,
    {
        proof {
            assert(s@.skip(i as int)[0] == s@[i as int]);
            assert(s@.skip(i as int).drop_first() =~= s@.skip(i as int + 1));
        }
        i += 1;
    }
    proof {
        if i < s@.len() {
            assert(s@.skip(i as int)[0] == s@[i as int]);
        }
        assert(digits_end(s@.skip(i as int)) == 0);
        assert(s@.take(i as int) =~= s@.subrange(0, i as int));
        assert(s@.skip(i as int) =~= s@.subrange(i as int, s@.len() as int));
    }
    (slice_subrange(s, 0, i), slice_subrange(s, i, s.len()))
}

/// Splits a decimal string bytes into sign and the rest, without inspecting
/// or validating the rest.
fn extract_sign(s: &[u8]) -> (r: (Sign, &[u8]))
    ensures
        r.0 == sign_of(s@),
        r.1@ == after_sign(s@),
{
    if s.len() > 0 && s[0] == 43 {
        proof {
            assert(s@.skip(1) =~= s@.subrange(1, s@.len() as int));
        }
        (Sign::Positive, slice_subrange(s, 1, s.len()))
    } else if s.len() > 0 && s[0] == 45 {
        proof {
            assert(s@.skip(1) =~= s@.subrange(1, s@.len() as int));
        }
        (Sign::Negative, slice_subrange(s, 1, s.len()))
    } else {
        (Sign::Positive, s)
    }
}

/// Extracts a case-insensitive `NaN` token, if present.
fn extract_nan(s: &[u8]) -> (r: (bool, &[u8]))
    ensures
        r.0 == nan_prefix(s@),
        r.1@ == if nan_prefix(s@) {
            s@.skip(3)
        } else {
            s@
        },
{
    if s.len() < 3 {
        (false, s)
    } else {
        let b0 = lower_byte(s[0]);
        let b1 = lower_byte(s[1]);
        let b2 = lower_byte(s[2]);
        if b0 == 110 && b1 == 97 && b2 == 110 {
            proof {
                assert(s@.skip(3) =~= s@.subrange(3, s@.len() as int));
            }
            (true, slice_subrange(s, 3, s.len()))
        } else {
            (false, s)
        }
    }
}

/// Lower-cases one ASCII byte.
fn lower_byte(b: u8) -> (r: u8)
    ensures
        r == to_lower(b),
{
    if b >= 65 && b <= 90 {
        b + 32
    } else {
        b
    }
}

/// Checks that the remainder holds only whitespace (trailing garbage check).
fn rest_is_whitespace(s: &[u8]) -> (r: bool)
    ensures
        r == all_ws(s@),
{
    let mut i: usize = 0;
    while i < s.len()
        invariant
            0 <= i <= s@.len(),
            forall|j: int| 0 <= j < i ==> is_ws(s@[j]),
        decreases s@.len() - i,
    {
        let b = s[i];
        if !(b == 32 || b == 9 || b == 10 || b == 12 || b == 13) {
            return false;
        }
        i += 1;
    }
    true
}

/// The interesting parts of a decimal string: sign, trimmed integral digit
/// run, trimmed fractional digit run, and exponent value.
pub(crate) struct Parts<'a> {
    pub sign: Sign,
    pub integral: &'a [u8],
    pub fractional: &'a [u8],
    pub exp: i16,
}

/// Ghost counterpart of `Parts`, together with the unconsumed remainder.
pub struct PartsSpec {
    pub sign: Sign,
    pub integral: Seq<u8>,
    pub fractional: Seq<u8>,
    pub exp: int,
    pub rest: Seq<u8>,
}

/// What extracting an exponent run returns: the signed exponent value and
/// the remainder, or the error classifying the first violation. An exponent
/// of a zero decimal is accepted at any magnitude and read as zero; a
/// nonzero decimal accepts at most three significant exponent digits, and
/// exceeding that is overflow for a positive exponent sign and underflow
/// for a negative one.
pub open spec fn exponent_spec(s: Seq<u8>, decimal_is_zero: bool) -> Result<
    (int, Seq<u8>),
    DecimalParseError,
> {
    let t = after_sign(s);
    let num = t.take(digits_end(t));
    let rest = t.skip(digits_end(t));
    if num.len() == 0 {
        Err(DecimalParseError::Invalid)
    } else if decimal_is_zero {
        Ok((0, rest))
    } else {
        let stripped = strip_zeros(num);
        if stripped.len() > 3 {
            if sign_of(s) is Negative {
                Err(DecimalParseError::Underflow)
            } else {
                Err(DecimalParseError::Overflow)
            }
        } else {
            if sign_of(s) is Negative {
                Ok((-digits_val(stripped), rest))
            } else {
                Ok((digits_val(stripped), rest))
            }
        }
    }
}

/// Extracts the exponent that follows an `e`/`E` marker.
fn extract_exponent(s: &[u8], decimal_is_zero: bool) -> (r: Result<
    (i16, &[u8]),
    DecimalParseError,
>)
    ensures
        match r {
            Ok(v) => exponent_spec(s@, decimal_is_zero) == Ok::<(int, Seq<u8>), DecimalParseError>(
                (v.0 as int, v.1@),
            ),
            Err(e) => exponent_spec(s@, decimal_is_zero) == Err::<(int, Seq<u8>), _>(e),
        },
{
    let (sign, s1) = extract_sign(s);
    let (number, s2) = eat_digits(s1);

    if number.is_empty() {
        return Err(DecimalParseError::Invalid);
    }

    if decimal_is_zero {
        return Ok((0, s2));
    }

    let number = strip_leading_zeros(number);
    proof {
        lemma_digits_end_digits(s1@);
        assert(forall|j: int| 0 <= j < number@.len() ==> is_digit(number@[j])) by {
            lemma_strip_zeros_suffix(s1@.take(digits_end(s1@)));
        }
    }

    if number.len() > 3 {
        return match sign {
            Sign::Negative => Err(DecimalParseError::Underflow),
            _ => Err(DecimalParseError::Overflow),
        };
    }

    let mut result: i16 = 0;
    let mut i: usize = 0;
    proof {
        assert(number@.take(0) =~= Seq::<u8>::empty());
        lemma_digits_val_bounds(number@);
    }
    while i < number.len()
        invariant
            0 <= i <= number@.len() <= 3,
            forall|j: int| 0 <= j < number@.len() ==> is_digit(number@[j]),
            result == digits_val(number@.take(i as int)),
            0 <= result < ten_pow(i as nat),
        decreases number@.len() - i,
    {
        proof {
            assert(ten_pow(0) == 1);
            assert(ten_pow(1) == 10);
            assert(ten_pow(2) == 100);
            assert(ten_pow(3) == 1000);
            assert(number@.take(i as int + 1).drop_last() =~= number@.take(i as int));
            assert(number@.take(i as int + 1).last() == number@[i as int]);
            lemma_digits_val_bounds(number@.take(i as int + 1));
        }
        let n = number[i];
        result = result * 10 + (n - 48) as i16;
        i += 1;
    }
    proof {
        assert(number@.take(number@.len() as int) =~= number@);
    }
    let exp = match sign {
        Sign::Negative => -result,
        _ => result,
    };
    Ok((exp, s2))
}

/// Strips every leading zero digit, possibly leaving nothing.
fn strip_leading_zeros(s: &[u8]) -> (r: &[u8])
    ensures
        r@ == strip_zeros(s@),
{
    let mut i: usize = 0;
    proof {
        assert(s@.skip(0) =~= s@);
    }
    while i < s.len() && s[i] == 48
        invariant
            0 <= i <= s@.len(),
            strip_zeros(s@) == strip_zeros(s@.skip(i as int)),
        decreases s@.len() - i,
    {
        proof {
            assert(s@.skip(i as int)[0] == s@[i as int]);
            assert(s@.skip(i as int).drop_first() =~= s@.skip(i as int + 1));
        }
        i += 1;
    }
    proof {
        if i < s@.len() {
            assert(s@.skip(i as int)[0] == s@[i as int]);
        }
        assert(s@.skip(i as int) =~= s@.subrange(i as int, s@.len() as int));
    }
    slice_subrange(s, i, s.len())
}

/// Trims leading zero digits but keeps a final single digit.
fn trim_integral_zeros(s: &[u8]) -> (r: &[u8])
    ensures
        r@ == trim_lead_zeros(s@),
{
    let mut i: usize = 0;
    proof {
        assert(s@.skip(0) =~= s@);
    }
    while i < s.len() && i + 1 < s.len() && s[i] == 48
        invariant
            0 <= i <= s@.len(),
            trim_lead_zeros(s@) == trim_lead_zeros(s@.skip(i as int)),
        decreases s@.len() - i,
    {
        proof {
            assert(s@.skip(i as int)[0] == s@[i as int]);
            assert(s@.skip(i as int).drop_first() =~= s@.skip(i as int + 1));
        }
        i += 1;
    }
    proof {
        if i < s@.len() {
            assert(s@.skip(i as int)[0] == s@[i as int]);
        }
        assert(s@.skip(i as int) =~= s@.subrange(i as int, s@.len() as int));
    }
    slice_subrange(s, i, s.len())
}

/// Trims trailing zero digits, possibly leaving nothing.
fn trim_fractional_zeros(s: &[u8]) -> (r: &[u8])
    ensures
        r@ == trim_trail_zeros(s@),
{
    let mut n: usize = s.len();
    proof {
        assert(s@.take(s@.len() as int) =~= s@);
    }
    while n > 0 && s[n - 1] == 48
        invariant
            0 <= n <= s@.len(),
            trim_trail_zeros(s@) == trim_trail_zeros(s@.take(n as int)),
        decreases n,
    {
        proof {
            assert(s@.take(n as int).last() == s@[n as int - 1]);
            assert(s@.take(n as int).drop_last() =~= s@.take(n as int - 1));
        }
        n -= 1;
    }
    proof {
        if n > 0 {
            assert(s@.take(n as int).last() == s@[n as int - 1]);
        }
        assert(s@.take(n as int) =~= s@.subrange(0, n as int));
    }
    slice_subrange(s, 0, n)
}

/// Where a valid decimal's parts lie in the input, or the error classifying
/// the first grammar violation: it is invalid to have nothing after the
/// sign, an empty integral run before an exponent marker, both digit runs
/// empty, or an exponent marker without digits.
pub open spec fn parse_decimal_spec(s: Seq<u8>) -> Result<PartsSpec, DecimalParseError> {
    let sg = sign_of(s);
    let t = after_sign(s);
    if t.len() == 0 {
        Err(DecimalParseError::Invalid)
    } else {
        let integral = trim_lead_zeros(t.take(digits_end(t)));
        let u = t.skip(digits_end(t));
        if u.len() > 0 && (u[0] == 101 || u[0] == 69) {
            if t.take(digits_end(t)).len() == 0 {
                Err(DecimalParseError::Invalid)
            } else {
                match exponent_spec(u.skip(1), integral[0] == 48) {
                    Err(e) => Err(e),
                    Ok(v) => Ok(
                        (PartsSpec {
                            sign: sg,
                            integral: integral,
                            fractional: Seq::empty(),
                            exp: v.0,
                            rest: v.1,
                        }),
                    ),
                }
            }
        } else if u.len() > 0 && u[0] == 46 {
            let frac_raw = u.skip(1).take(digits_end(u.skip(1)));
            let v = u.skip(1).skip(digits_end(u.skip(1)));
            if t.take(digits_end(t)).len() == 0 && frac_raw.len() == 0 {
                Err(DecimalParseError::Invalid)
            } else {
                let fractional = trim_trail_zeros(frac_raw);
                if v.len() > 0 && (v[0] == 101 || v[0] == 69) {
                    let diz = (integral.len() == 0 || integral[0] == 48) && fractional.len() == 0;
                    match exponent_spec(v.skip(1), diz) {
                        Err(e) => Err(e),
                        Ok(w) => Ok(
                            (PartsSpec {
                                sign: sg,
                                integral: integral,
                                fractional: fractional,
                                exp: w.0,
                                rest: w.1,
                            }),
                        ),
                    }
                } else {
                    Ok(
                        (PartsSpec {
                            sign: sg,
                            integral: integral,
                            fractional: fractional,
                            exp: 0,
                            rest: v,
                        }),
                    )
                }
            }
        } else {
            if t.take(digits_end(t)).len() == 0 {
                Err(DecimalParseError::Invalid)
            } else {
                Ok(
                    (PartsSpec {
                        sign: sg,
                        integral: integral,
                        fractional: Seq::empty(),
                        exp: 0,
                        rest: u,
                    }),
                )
            }
        }
    }
}

/// Checks that the input is a valid decimal and if so, locates the integral
/// part, the fractional part, and the exponent in it.
fn parse_decimal(s: &[u8]) -> (r: Result<(Parts, &[u8]), DecimalParseError>)
    ensures
        match r {
            Ok(v) => parse_decimal_spec(s@) == Ok::<PartsSpec, DecimalParseError>(
                (PartsSpec {
                    sign: v.0.sign,
                    integral: v.0.integral@,
                    fractional: v.0.fractional@,
                    exp: v.0.exp as int,
                    rest: v.1@,
                }),
            ),
            Err(e) => parse_decimal_spec(s@) == Err::<PartsSpec, _>(e),
        },
{
    let (sign, s1) = extract_sign(s);

    if s1.is_empty() {
        return Err(DecimalParseError::Invalid);
    }

    let (integral_raw, s2) = eat_digits(s1);
    let integral = trim_integral_zeros(integral_raw);

    if s2.len() > 0 && (s2[0] == 101 || s2[0] == 69) {
        // exponent marker directly after the integral part
        if integral_raw.is_empty() {
            return Err(DecimalParseError::Invalid);
        }
        proof {
            lemma_trim_lead_zeros_suffix(integral_raw@);
            assert(s2@.skip(1) =~= s2@.subrange(1, s2@.len() as int));
        }
        let decimal_is_zero = integral[0] == 48;
        match extract_exponent(slice_subrange(s2, 1, s2.len()), decimal_is_zero) {
            Err(e) => Err(e),
            Ok(v) => {
                let parts = Parts {
                    sign,
                    integral,
                    fractional: empty_run(),
                    exp: v.0,
                };
                Ok((parts, v.1))
            },
        }
    } else if s2.len() > 0 && s2[0] == 46 {
        // fractional part
        proof {
            assert(s2@.skip(1) =~= s2@.subrange(1, s2@.len() as int));
        }
        let (frac_raw, s3) = eat_digits(slice_subrange(s2, 1, s2.len()));
        if integral_raw.is_empty() && frac_raw.is_empty() {
            return Err(DecimalParseError::Invalid);
        }
        let fractional = trim_fractional_zeros(frac_raw);

        if s3.len() > 0 && (s3[0] == 101 || s3[0] == 69) {
            let decimal_is_zero = (integral.is_empty() || integral[0] == 48)
                && fractional.is_empty();
            proof {
                lemma_trim_lead_zeros_suffix(integral_raw@);
                assert(s3@.skip(1) =~= s3@.subrange(1, s3@.len() as int));
            }
            match extract_exponent(slice_subrange(s3, 1, s3.len()), decimal_is_zero) {
                Err(e) => Err(e),
                Ok(v) => {
                    let parts = Parts {
                        sign,
                        integral,
                        fractional,
                        exp: v.0,
                    };
                    Ok((parts, v.1))
                },
            }
        } else {
            let parts = Parts {
                sign,
                integral,
                fractional,
                exp: 0,
            };
            Ok((parts, s3))
        }
    } else {
        if integral_raw.is_empty() {
            return Err(DecimalParseError::Invalid);
        }
        let parts = Parts {
            sign,
            integral,
            fractional: empty_run(),
            exp: 0,
        };
        Ok((parts, s2))
    }
}

/// An empty digit run.
fn empty_run() -> (r: &'static [u8])
    ensures
        r@ == Seq::<u8>::empty(),
{
    let r: &[u8] = &[];
    proof {
        assert(r@ =~= Seq::<u8>::empty());
    }
    r
}

/// Small powers of ten, by unfolding.
proof fn lemma_p10_small()
    ensures
        ten_pow(0) == 1,
        ten_pow(1) == 10,
        ten_pow(2) == 100,
        ten_pow(3) == 1000,
        ten_pow(4) == 10000,
        ten_pow(5) == 100000,
        ten_pow(6) == 1000000,
        ten_pow(7) == 10000000,
        ten_pow(8) == 100000000,
        ten_pow(9) == 1_000_000_000,
{
    assert(ten_pow(0) == 1);
    assert(ten_pow(1) == 10);
    assert(ten_pow(2) == 100);
    assert(ten_pow(3) == 1000);
    assert(ten_pow(4) == 10000);
    assert(ten_pow(5) == 100000);
    assert(ten_pow(6) == 1000000);
    assert(ten_pow(7) == 10000000);
    assert(ten_pow(8) == 100000000);
    assert(ten_pow(9) == 1_000_000_000);
}

/// The digit value at position `p` of a digit-value run; positions outside
/// the run read as zero (they stand for alignment padding).
pub open spec fn digit_at(dd: Seq<u8>, p: int) -> int {
    if 0 <= p < dd.len() {
        dd[p] as int
    } else {
        0
    }
}

/// The value of the `n` digits of `dd` starting at position `p`, most
/// significant first: one base-10^n digit group read out of the padded run.
pub open spec fn digits_at_val(dd: Seq<u8>, p: int, n: nat) -> int
    decreases n,
{
    if n == 0 {
        0
    } else {
        digits_at_val(dd, p, (n - 1) as nat) * 10 + digit_at(dd, p + n - 1)
    }
}

/// A window over digit values below ten packs to a value below 10^n.
proof fn lemma_digits_at_val_bounds(dd: Seq<u8>, p: int, n: nat)
    requires
        forall|i: int| 0 <= i < dd.len() ==> dd[i] <= 9,
    ensures
        0 <= digits_at_val(dd, p, n) < ten_pow(n),
    decreases n,
{
    if n > 0 {
        lemma_digits_at_val_bounds(dd, p, (n - 1) as nat);
    }
}

/// A window holding some nonzero digit packs to a nonzero value.
proof fn lemma_digits_at_val_pos(dd: Seq<u8>, p: int, n: nat)
    requires
        forall|i: int| 0 <= i < dd.len() ==> dd[i] <= 9,
        exists|j: int| 0 <= j < n && #[trigger] digit_at(dd, p + j) != 0,
    ensures
        digits_at_val(dd, p, n) > 0,
    decreases n,
{
    let j = choose|j: int| 0 <= j < n && #[trigger] digit_at(dd, p + j) != 0;
    lemma_digits_at_val_bounds(dd, p, (n - 1) as nat);
    if j == n - 1 {
    } else {
        lemma_digits_at_val_pos(dd, p, (n - 1) as nat);
    }
}

#[verifier::external_type_specification]
#[verifier::external_body]
#[verifier::reject_recursive_types(T)]
pub struct ExStackVec<T, const N: usize>(stack_buf::StackVec<T, N>);

/// The digit bytes a parsing scratch buffer holds, in order.
pub uninterp spec fn scratch_view(v: stack_buf::StackVec<u8, 64>) -> Seq<u8>;

/// Relies on stack_buf::StackVec::new: a freshly created vector is empty.
#[verifier::external_body]
fn scratch_new() -> (r: stack_buf::StackVec<u8, 64>)
    ensures
        scratch_view(r) == Seq::<u8>::empty(),
{
    stack_buf::StackVec::new()
}

/// Relies on stack_buf::StackVec::push: appends one element at the end. It
/// panics when the vector is full, which the precondition rules out.
#[verifier::external_body]
fn scratch_push(v: &mut stack_buf::StackVec<u8, 64>, b: u8)
    requires
        scratch_view(*old(v)).len() < 64,
    ensures
        scratch_view(*final(v)) == scratch_view(*old(v)).push(b),
{
    v.push(b)
}

/// Relies on stack_buf::StackVec::as_slice: a slice of the stored elements.
#[verifier::external_body]
fn scratch_as_slice(v: &stack_buf::StackVec<u8, 64>) -> (r: &[u8])
    ensures
        r@ == scratch_view(*v),
{
    v.as_slice()
}

/// The decimal-digit values (0 to 9) of the integral and fractional runs,
/// concatenated: the contiguous digit run that is packed into groups.
pub open spec fn dec_digits_of(integral: Seq<u8>, fractional: Seq<u8>) -> Seq<u8> {
    (integral + fractional).map_values(|b: u8| (b - 48) as u8)
}

/// Decimal weight: the base-10 exponent of the most significant digit.
pub open spec fn dec_weight_of(int_len: int, e: int) -> int {
    int_len + e - 1
}

/// Group weight: the index of the base-10^9 group holding the most
/// significant decimal digit, by flooring division.
pub open spec fn group_weight_of(dw: int) -> int {
    dw / 9
}

/// Zero digits of left padding that align the digit run so that its first
/// digit falls at offset `pad_of(dw)` of the group at the group weight.
pub open spec fn pad_of(dw: int) -> int {
    (dw / 9 + 1) * 9 - (dw + 1)
}

/// Number of groups covering the left-padded digit run.
pub open spec fn ngroups_of(len: int, dw: int) -> int {
    (len + pad_of(dw) + 8) / 9
}

/// Display scale: fractional digits minus the exponent, clamped at zero.
pub open spec fn scale_of(frac_len: int, e: int) -> int {
    if frac_len - e >= 0 {
        frac_len - e
    } else {
        0
    }
}

/// The groups covering the left-padded digit run, before edge trimming.
pub open spec fn raw_groups(dd: Seq<u8>, o: int, nd: int) -> Seq<u32> {
    Seq::new(nd as nat, |k: int| digits_at_val(dd, 9 * k - o, 9) as u32)
}

/// Trailing all-zero digit groups removed; they are implied by the digit
/// count being shorter than the span the weight implies.
pub open spec fn trim_trail_zero_groups(g: Seq<u32>) -> Seq<u32>
    decreases g.len(),
{
    if g.len() > 0 && g.last() == 0 {
        trim_trail_zero_groups(g.drop_last())
    } else {
        g
    }
}

/// Count of leading all-zero digit groups; dropping one moves the weight
/// of the remaining groups down by one place.
pub open spec fn lead_zero_groups(g: Seq<u32>) -> int
    decreases g.len(),
{
    if g.len() > 0 && g[0] == 0 {
        1 + lead_zero_groups(g.drop_first())
    } else {
        0
    }
}

/// Trimming trailing zero groups yields a prefix; everything cut was zero.
proof fn lemma_trim_trail_zero_groups(g: Seq<u32>)
    ensures
        trim_trail_zero_groups(g).len() <= g.len(),
        forall|j: int|
            0 <= j < trim_trail_zero_groups(g).len() ==> trim_trail_zero_groups(g)[j] == g[j],
        forall|j: int| trim_trail_zero_groups(g).len() <= j < g.len() ==> g[j] == 0,
        trim_trail_zero_groups(g).len() > 0 ==> trim_trail_zero_groups(g).last() != 0,
    decreases g.len(),
{
    if g.len() > 0 && g.last() == 0 {
        lemma_trim_trail_zero_groups(g.drop_last());
        assert forall|j: int| 0 <= j < trim_trail_zero_groups(g).len() implies
            trim_trail_zero_groups(g)[j] == g[j] by {
            assert(g.drop_last()[j] == g[j]);
        }
        assert forall|j: int| trim_trail_zero_groups(g).len() <= j < g.len() implies g[j]
            == 0 by {
            if j < g.len() - 1 {
                assert(g.drop_last()[j] == g[j]);
            }
        }
    }
}

/// The leading zero-group count: all groups before it are zero, and the
/// group at it (when one remains) is nonzero.
proof fn lemma_lead_zero_groups(g: Seq<u32>)
    ensures
        0 <= lead_zero_groups(g) <= g.len(),
        forall|j: int| 0 <= j < lead_zero_groups(g) ==> g[j] == 0,
        lead_zero_groups(g) < g.len() ==> g[lead_zero_groups(g)] != 0,
    decreases g.len(),
{
    if g.len() > 0 && g[0] == 0 {
        lemma_lead_zero_groups(g.drop_first());
        assert forall|j: int| 0 <= j < lead_zero_groups(g) implies g[j] == 0 by {
            if j > 0 {
                assert(g.drop_first()[j - 1] == g[j]);
            }
        }
        if lead_zero_groups(g) < g.len() {
            assert(g.drop_first()[lead_zero_groups(g) - 1] == g[lead_zero_groups(g)]);
        }
    }
}

/// The model of the decimal packed from the given parts: the padded digit
/// run split into base-10^9 groups, then trimmed of all-zero groups at both
/// edges. A trailing trim only shortens the group count; a leading trim
/// also moves the weight down one place per dropped group, so the remaining
/// groups keep their positions.
pub open spec fn packed_model(p: PartsSpec) -> DecModel {
    let dd = dec_digits_of(p.integral, p.fractional);
    let dw = dec_weight_of(p.integral.len() as int, p.exp);
    let o = pad_of(dw);
    let nd = ngroups_of(dd.len() as int, dw);
    let t = trim_trail_zero_groups(raw_groups(dd, o, nd));
    let lz = lead_zero_groups(t);
    DecModel {
        sign: p.sign,
        weight: group_weight_of(dw) - lz,
        dscale: scale_of(p.fractional.len() as int, p.exp),
        groups: t.skip(lz),
    }
}

/// The model of the canonical zero.
pub open spec fn zero_model() -> DecModel {
    DecModel { sign: Sign::Positive, weight: 0, dscale: 0, groups: Seq::empty() }
}

/// The model of the canonical NaN.
pub open spec fn nan_model() -> DecModel {
    DecModel { sign: Sign::NaN, weight: 0, dscale: 0, groups: Seq::empty() }
}

/// What parsing a decimal (without surrounding whitespace or NaN handling)
/// returns: the packed value and the unconsumed remainder, or the error.
/// A decimal portion denoting zero short-circuits to the canonical zero
/// whatever its exponent; more than 36 significant digits is overflow,
/// unless non-whitespace trailing garbage follows the token, which the
/// grammar classifies as invalid before the precision is ever judged.
pub open spec fn parse_str_spec(s: Seq<u8>) -> Result<(DecModel, Seq<u8>), DecimalParseError> {
    match parse_decimal_spec(s) {
        Err(e) => Err(e),
        Ok(p) => {
            if (p.integral.len() == 0 || p.integral[0] == 48) && p.fractional.len() == 0 {
                Ok((zero_model(), p.rest))
            } else if p.integral.len() + p.fractional.len() > 36 {
                if all_ws(p.rest) {
                    Err(DecimalParseError::Overflow)
                } else {
                    Err(DecimalParseError::Invalid)
                }
            } else {
                Ok((packed_model(p), p.rest))
            }
        },
    }
}

/// Bounds on the exponent a successful exponent extraction returns.
proof fn lemma_exponent_spec_bounds(s: Seq<u8>, dz: bool)
    ensures
        exponent_spec(s, dz) is Ok ==> -999 <= exponent_spec(s, dz)->Ok_0.0 <= 999,
{
    if exponent_spec(s, dz) is Ok {
        let t = after_sign(s);
        let num = t.take(digits_end(t));
        lemma_digits_end_digits(t);
        lemma_strip_zeros_suffix(num);
        let st = strip_zeros(num);
        if !dz && num.len() > 0 {
            assert(forall|j: int| 0 <= j < st.len() ==> is_digit(st[j]));
            lemma_digits_val_bounds(st);
            lemma_p10_small();
            if st.len() == 0 {
            } else if st.len() == 1 {
            } else if st.len() == 2 {
            } else {
                assert(st.len() == 3);
            }
        }
    }
}

/// Properties of the parts a successful grammar split returns: both digit
/// runs hold only digits, the fractional run never ends in a zero digit,
/// and the exponent is within three significant digits.
proof fn lemma_parse_decimal_props(s: Seq<u8>, p: PartsSpec)
    requires
        parse_decimal_spec(s) == Ok::<PartsSpec, DecimalParseError>(p),
    ensures
        forall|j: int| 0 <= j < p.integral.len() ==> is_digit(#[trigger] p.integral[j]),
        forall|j: int| 0 <= j < p.fractional.len() ==> is_digit(#[trigger] p.fractional[j]),
        -999 <= p.exp <= 999,
        p.fractional.len() > 0 ==> p.fractional.last() != 48,
        !(p.sign is NaN),
{
    let t = after_sign(s);
    let int_raw = t.take(digits_end(t));
    lemma_digits_end_digits(t);
    lemma_trim_lead_zeros_suffix(int_raw);
    let integral = trim_lead_zeros(int_raw);
    assert forall|j: int| 0 <= j < integral.len() implies is_digit(#[trigger] integral[j]) by {
        assert(integral[j] == int_raw[int_raw.len() - integral.len() + j]);
        assert(int_raw[int_raw.len() - integral.len() + j] == t[int_raw.len() - integral.len()
            + j]);
    }
    let u = t.skip(digits_end(t));
    if u.len() > 0 && (u[0] == 101 || u[0] == 69) {
        lemma_exponent_spec_bounds(u.skip(1), integral[0] == 48);
    } else if u.len() > 0 && u[0] == 46 {
        let w = u.skip(1);
        let frac_raw = w.take(digits_end(w));
        lemma_digits_end_digits(w);
        lemma_trim_trail_zeros_prefix(frac_raw);
        let fractional = trim_trail_zeros(frac_raw);
        assert forall|j: int| 0 <= j < fractional.len() implies is_digit(
            #[trigger] fractional[j],
        ) by {
            assert(fractional[j] == frac_raw[j]);
            assert(frac_raw[j] == w[j]);
        }
        let v = w.skip(digits_end(w));
        if v.len() > 0 && (v[0] == 101 || v[0] == 69) {
            let diz = (integral.len() == 0 || integral[0] == 48) && fractional.len() == 0;
            lemma_exponent_spec_bounds(v.skip(1), diz);
        }
    }
}

/// Some packed group is nonzero when the digit run holds a nonzero digit.
proof fn lemma_some_group_nonzero(dd: Seq<u8>, o: int, nd: int)
    requires
        0 <= o <= 8,
        nd == (dd.len() + o + 8) / 9,
        forall|i: int| 0 <= i < dd.len() ==> dd[i] <= 9,
        exists|d: int| 0 <= d < dd.len() && dd[d] != 0,
    ensures
        exists|k: int| 0 <= k < nd && #[trigger] digits_at_val(dd, 9 * k - o, 9) != 0,
{
    let d = choose|d: int| 0 <= d < dd.len() && dd[d] != 0;
    let k = (d + o) / 9;
    lemma_div_pos_is_pos(d + o, 9);
    lemma_fundamental_div_mod(d + o, 9);
    lemma_remainder(d + o, 9);
    let j = d + o - 9 * k;
    assert(0 <= j < 9);
    assert(digit_at(dd, 9 * k - o + j) == dd[d] as int);
    lemma_digits_at_val_pos(dd, 9 * k - o, 9);
    lemma_div_is_ordered(d + o, dd.len() as int + o - 1, 9);
    lemma_div_plus_one(dd.len() as int + o - 1, 9);
    assert(k < nd);
}

/// Reads the `k`-th base-10^9 digit group out of the padded scratch run.
/// `s` is the scratch slice: nine zero bytes, the digit values `dd`, nine
/// zero bytes. The group covers padded positions `9k` to `9k+8`, where
/// padded position `p` holds digit `p - o` of the run (zero outside it).
fn read_decimal_digit(s: &[u8], o: usize, k: usize, dd: Ghost<Seq<u8>>) -> (g: u32)
    requires
        o <= 8,
        s@.len() == 18 + dd@.len(),
        forall|p: int| 0 <= p < s@.len() ==> s@[p] as int == digit_at(dd@, p - 9),
        forall|i: int| 0 <= i < dd@.len() ==> dd@[i] <= 9,
        dd@.len() <= 36,
        k <= 4,
        9 * k <= dd@.len() + o - 1,
    ensures
        g as int == digits_at_val(dd@, 9 * (k as int) - (o as int), 9),
        g < 1_000_000_000,
{
    proof {
        lemma_p10_small();
    }
    let start = 9 - o + 9 * k;
    let mut g: u32 = 0;
    let mut j: usize = 0;
    while j < 9
        invariant
            0 <= j <= 9,
            o <= 8,
            s@.len() == 18 + dd@.len(),
            dd@.len() <= 36,
            start == 9 - o + 9 * k,
            start + 9 <= s@.len(),
            forall|p: int| 0 <= p < s@.len() ==> s@[p] as int == digit_at(dd@, p - 9),
            forall|i: int| 0 <= i < dd@.len() ==> dd@[i] <= 9,
            g as int == digits_at_val(dd@, 9 * (k as int) - (o as int), j as nat),
            g < ten_pow(j as nat),
            ten_pow(9) == 1_000_000_000,
        decreases 9 - j,
    {
        proof {
            lemma_p10_small();
            lemma_digits_at_val_bounds(dd@, 9 * (k as int) - (o as int), (j + 1) as nat);
            assert(s@[start + j] as int == digit_at(dd@, 9 * (k as int) - (o as int) + j));
        }
        let b = s[start + j];
        g = g * 10 + b as u32;
        j += 1;
    }
    g
}

/// Computes the group weight by flooring division of the decimal weight.
fn group_weight(dw: i32) -> (w: i32)
    requires
        -1100 <= dw <= 1100,
    ensures
        w as int == group_weight_of(dw as int),
        -123 <= w <= 122,
{
    if dw >= 0 {
        let q = ((dw + 9) as u32) / 9;
        proof {
            lemma_fundamental_div_mod(dw + 9, 9);
            lemma_remainder(dw + 9, 9);
            lemma_fundamental_div_mod_converse_div(
                dw as int,
                9,
                q as int - 1,
                dw + 9 - 9 * (q as int),
            );
        }
        q as i32 - 1
    } else {
        let k = (-dw) as u32;
        let q = (k - 1) / 9 + 1;
        proof {
            lemma_fundamental_div_mod(k as int - 1, 9);
            lemma_remainder(k as int - 1, 9);
            lemma_fundamental_div_mod_converse_div(dw as int, 9, -(q as int), 9 * (q as int) + dw);
        }
        -(q as i32)
    }
}

/// Builds the contiguous digit-value run, padded on both sides with a full
/// group of zero digits so that every group window lies inside it.
fn fill_scratch(integral: &[u8], fractional: &[u8]) -> (buf: stack_buf::StackVec<u8, 64>)
    requires
        forall|j: int| 0 <= j < integral@.len() ==> is_digit(#[trigger] integral@[j]),
        forall|j: int| 0 <= j < fractional@.len() ==> is_digit(#[trigger] fractional@[j]),
        integral@.len() + fractional@.len() <= 36,
    ensures
        ({
            let dd = dec_digits_of(integral@, fractional@);
            &&& scratch_view(buf).len() == 18 + dd.len()
            &&& forall|q: int|
                0 <= q < scratch_view(buf).len() ==> #[trigger] scratch_view(buf)[q] as int
                    == digit_at(dd, q - 9)
            &&& forall|i: int| 0 <= i < dd.len() ==> #[trigger] dd[i] <= 9
        }),
{
    let ghost dd = dec_digits_of(integral@, fractional@);
    let ghost zeros9 = Seq::new(9, |i: int| 0u8);
    let mut buf = scratch_new();
    let mut i: usize = 0;
    while i < 9
        invariant
            0 <= i <= 9,
            scratch_view(buf).len() == i,
            forall|q: int| 0 <= q < i ==> scratch_view(buf)[q] == 0,
        decreases 9 - i,
    {
        scratch_push(&mut buf, 0);
        i += 1;
    }
    proof {
        assert(scratch_view(buf) =~= zeros9);
    }
    let mut i: usize = 0;
    while i < integral.len()
        invariant
            0 <= i <= integral@.len(),
            integral@.len() + fractional@.len() <= 36,
            forall|j: int| 0 <= j < integral@.len() ==> is_digit(#[trigger] integral@[j]),
            zeros9.len() == 9,
            scratch_view(buf) =~= zeros9 + integral@.take(i as int).map_values(
                |b: u8| (b - 48) as u8,
            ),
        decreases integral@.len() - i,
    {
        let b = integral[i];
        scratch_push(&mut buf, b - 48);
        proof {
            assert(scratch_view(buf) =~= zeros9 + integral@.take(i as int + 1).map_values(
                |b: u8| (b - 48) as u8,
            ));
        }
        i += 1;
    }
    proof {
        assert(integral@.take(integral@.len() as int) =~= integral@);
    }
    let mut i: usize = 0;
    while i < fractional.len()
        invariant
            0 <= i <= fractional@.len(),
            integral@.len() + fractional@.len() <= 36,
            forall|j: int| 0 <= j < fractional@.len() ==> is_digit(#[trigger] fractional@[j]),
            zeros9.len() == 9,
            scratch_view(buf) =~= zeros9 + integral@.map_values(|b: u8| (b - 48) as u8)
                + fractional@.take(i as int).map_values(|b: u8| (b - 48) as u8),
        decreases fractional@.len() - i,
    {
        let b = fractional[i];
        scratch_push(&mut buf, b - 48);
        proof {
            assert(scratch_view(buf) =~= zeros9 + integral@.map_values(|b: u8| (b - 48) as u8)
                + fractional@.take(i as int + 1).map_values(|b: u8| (b - 48) as u8));
        }
        i += 1;
    }
    proof {
        assert(fractional@.take(fractional@.len() as int) =~= fractional@);
        assert(integral@.map_values(|b: u8| (b - 48) as u8) + fractional@.map_values(
            |b: u8| (b - 48) as u8,
        ) =~= dd);
    }
    let ghost total = dd.len();
    let mut i: usize = 0;
    while i < 9
        invariant
            0 <= i <= 9,
            total <= 36,
            scratch_view(buf).len() == 9 + total + i,
            scratch_view(buf) =~= (zeros9 + dd) + Seq::new(i as nat, |q: int| 0u8),
        decreases 9 - i,
    {
        scratch_push(&mut buf, 0);
        proof {
            assert(scratch_view(buf) =~= (zeros9 + dd) + Seq::new(i as nat + 1, |q: int| 0u8));
        }
        i += 1;
    }
    proof {
        assert forall|q: int| 0 <= q < scratch_view(buf).len() implies #[trigger] scratch_view(
            buf,
        )[q] as int == digit_at(dd, q - 9) by {
            assert(scratch_view(buf) =~= (zeros9 + dd) + Seq::new(9, |z: int| 0u8));
        }
        assert forall|i: int| 0 <= i < dd.len() implies #[trigger] dd[i] <= 9 by {
            if i < integral@.len() {
                assert(dd[i] == (integral@[i] - 48) as u8);
            } else {
                assert(dd[i] == (fractional@[i - integral@.len()] - 48) as u8);
            }
        }
    }
    buf
}

/// Finds the trimmed window of the raw groups: the count that remains
/// after dropping trailing all-zero groups, and the number of leading
/// all-zero groups before the first nonzero one.
fn trim_group_window(garr: &[u32; 5], nd: u32, raw: Ghost<Seq<u32>>) -> (r: (u32, u32))
    requires
        0 < nd <= 5,
        raw@.len() == nd,
        forall|k: int| 0 <= k < nd ==> garr[k] == raw@[k],
        exists|j: int| 0 <= j < nd && raw@[j] != 0,
    ensures
        ({
            let tg = trim_trail_zero_groups(raw@);
            &&& r.0 == tg.len()
            &&& r.1 == lead_zero_groups(tg)
            &&& 0 <= r.1 < r.0 <= nd
            &&& tg == raw@.take(r.0 as int)
        }),
{
    let mut nd2: u32 = nd;
    proof {
        assert(raw@.take(nd as int) =~= raw@);
    }
    while nd2 > 0 && garr[(nd2 - 1) as usize] == 0
        invariant
            0 < nd <= 5,
            0 <= nd2 <= nd,
            raw@.len() == nd,
            forall|k: int| 0 <= k < nd ==> garr[k] == raw@[k],
            trim_trail_zero_groups(raw@) == trim_trail_zero_groups(raw@.take(nd2 as int)),
            exists|j: int| 0 <= j < nd2 && raw@[j] != 0,
        decreases nd2,
    {
        proof {
            assert(raw@.take(nd2 as int).last() == raw@[nd2 as int - 1]);
            assert(raw@.take(nd2 as int).drop_last() =~= raw@.take(nd2 as int - 1));
            let j = choose|j: int| 0 <= j < nd2 && raw@[j] != 0;
            assert(j < nd2 - 1);
        }
        nd2 -= 1;
    }
    proof {
        assert(nd2 > 0);
        assert(raw@.take(nd2 as int).last() == raw@[nd2 as int - 1]);
        assert(trim_trail_zero_groups(raw@) =~= raw@.take(nd2 as int));
    }
    let ghost tg = trim_trail_zero_groups(raw@);

    let mut lz: u32 = 0;
    proof {
        assert(tg.skip(0) =~= tg);
    }
    while garr[lz as usize] == 0
        invariant
            0 < nd <= 5,
            0 < nd2 <= nd,
            0 <= lz < nd2,
            raw@.len() == nd,
            tg == raw@.take(nd2 as int),
            forall|k: int| 0 <= k < nd ==> garr[k] == raw@[k],
            lead_zero_groups(tg) == lz + lead_zero_groups(tg.skip(lz as int)),
            exists|j: int| lz <= j < nd2 && raw@[j] != 0,
        decreases nd2 - lz,
    {
        proof {
            assert(tg.skip(lz as int)[0] == raw@[lz as int]);
            assert(tg.skip(lz as int).drop_first() =~= tg.skip(lz as int + 1));
            let j = choose|j: int| lz <= j < nd2 && raw@[j] != 0;
            assert(j > lz);
        }
        lz += 1;
    }
    proof {
        assert(tg.skip(lz as int)[0] == raw@[lz as int]);
        assert(lead_zero_groups(tg.skip(lz as int)) == 0);
        assert(lead_zero_groups(tg) == lz);
    }
    (nd2, lz)
}

/// Assembles a decimal from the trimmed window of the packed groups: the
/// stored groups are the window's, and each leading group dropped moves the
/// weight down one place.
fn build_decimal(
    sign: Sign,
    weight: i32,
    dscale: i16,
    garr: &[u32; 5],
    nd2: u32,
    lz: u32,
    raw: Ghost<Seq<u32>>,
) -> (d: Decimal)
    requires
        !(sign is NaN),
        raw@.len() <= 5,
        forall|k: int| 0 <= k < raw@.len() ==> garr[k] == raw@[k],
        forall|k: int| 0 <= k < raw@.len() ==> raw@[k] < 1_000_000_000,
        nd2 == trim_trail_zero_groups(raw@).len(),
        lz == lead_zero_groups(trim_trail_zero_groups(raw@)),
        0 <= lz < nd2 <= raw@.len(),
        -123 <= weight <= 122,
        dscale >= 0,
    ensures
        d.spec_sign() == sign,
        d.spec_weight() == weight - lz,
        d.spec_scale() == dscale,
        d.spec_groups() == trim_trail_zero_groups(raw@).skip(lz as int),
{
    let ghost tg = trim_trail_zero_groups(raw@);
    let nd3: u32 = nd2 - lz;
    let h0 = garr[lz as usize];
    let h1 = if nd3 > 1 {
        garr[(lz + 1) as usize]
    } else {
        0
    };
    let h2 = if nd3 > 2 {
        garr[(lz + 2) as usize]
    } else {
        0
    };
    let h3 = if nd3 > 3 {
        garr[(lz + 3) as usize]
    } else {
        0
    };
    let h4 = if nd3 > 4 {
        garr[(lz + 4) as usize]
    } else {
        0
    };
    let digits_arr: [u32; 5] = [h0, h1, h2, h3, h4];
    proof {
        lemma_trim_trail_zero_groups(raw@);
        lemma_lead_zero_groups(tg);
        assert forall|k: int| 0 <= k < nd3 implies digits_arr[k] == tg.skip(lz as int)[k] by {
            assert(tg[lz + k] == raw@[lz + k]);
            assert(tg.skip(lz as int)[k] == tg[lz + k]);
            if k == 0 {
                assert(digits_arr[0] == garr[lz as int]);
            } else if k == 1 {
                assert(digits_arr[1] == garr[lz as int + 1]);
            } else if k == 2 {
                assert(digits_arr[2] == garr[lz as int + 2]);
            } else if k == 3 {
                assert(digits_arr[3] == garr[lz as int + 3]);
            } else {
                assert(k == 4);
                assert(digits_arr[4] == garr[lz as int + 4]);
            }
        }
        assert(digits_arr[0] == raw@[lz as int] && digits_arr[0] != 0);
        assert(digits_arr[nd3 as int - 1] == raw@[nd2 as int - 1]);
        assert(digits_arr[nd3 as int - 1] != 0);
        assert(h0 < 1_000_000_000) by {
            assert(garr[lz as int] == raw@[lz as int]);
        };
        assert(h1 < 1_000_000_000) by {
            if nd3 > 1 {
                assert(garr[lz as int + 1] == raw@[lz as int + 1]);
            }
        };
        assert(h2 < 1_000_000_000) by {
            if nd3 > 2 {
                assert(garr[lz as int + 2] == raw@[lz as int + 2]);
            }
        };
        assert(h3 < 1_000_000_000) by {
            if nd3 > 3 {
                assert(garr[lz as int + 3] == raw@[lz as int + 3]);
            }
        };
        assert(h4 < 1_000_000_000) by {
            if nd3 > 4 {
                assert(garr[lz as int + 4] == raw@[lz as int + 4]);
            }
        };
        assert forall|i: int| 0 <= i < 5 implies digits_arr[i] < 1_000_000_000 by {
            if i == 0 {
            } else if i == 1 {
            } else if i == 2 {
            } else if i == 3 {
            } else {
                assert(i == 4);
            }
        }
        assert forall|i: int| nd3 <= i < 5 implies digits_arr[i] == 0 by {
            if i == 0 {
            } else if i == 1 {
            } else if i == 2 {
            } else if i == 3 {
            } else {
                assert(i == 4);
            }
        }
    }
    let d = Decimal {
        sign: sign,
        weight: (weight - lz as i32) as i8,
        dscale: dscale,
        ndigits: nd3 as u8,
        digits: digits_arr,
    };
    proof {
        assert(d.spec_groups() =~= tg.skip(lz as int));
    }
    d
}

/// Parses string bytes into a decimal. This function does not handle
/// leading or trailing spaces, and it does not accept `NaN` either. It
/// returns the remaining string bytes so that the caller can check for
/// trailing garbage if deemed necessary.
#[verifier::rlimit(100)]
fn parse_str<'a>(s: &'a [u8]) -> (r: Result<(Decimal, &'a [u8]), DecimalParseError>)
    ensures
        match r {
            Ok(v) => parse_str_spec(s@) == Ok::<(DecModel, Seq<u8>), DecimalParseError>(
                (v.0.model(), v.1@),
            ),
            Err(e) => parse_str_spec(s@) == Err::<(DecModel, Seq<u8>), _>(e),
        },
{
    let (parts, s1) = match parse_decimal(s) {
        Ok(v) => v,
        Err(e) => {
            return Err(e);
        },
    };
    let sign = parts.sign;
    let integral = parts.integral;
    let fractional = parts.fractional;
    let exp = parts.exp;
    let ghost p = PartsSpec {
        sign: sign,
        integral: integral@,
        fractional: fractional@,
        exp: exp as int,
        rest: s1@,
    };
    proof {
        lemma_parse_decimal_props(s@, p);
    }

    if (integral.is_empty() || integral[0] == 48) && fractional.is_empty() {
        let z = Decimal::zero();
        proof {
            assert(z.model().groups =~= Seq::<u32>::empty());
            assert(z.model() == zero_model());
        }
        return Ok((z, s1));
    }

    if integral.len() > 36 || fractional.len() > 36 - integral.len() {
        // Grammar violations come first: non-whitespace trailing garbage is
        // invalid before the precision is judged.
        if !rest_is_whitespace(s1) {
            return Err(DecimalParseError::Invalid);
        }
        return Err(DecimalParseError::Overflow);
    }

    let int_len = integral.len();
    let frac_len = fractional.len();
    let total = int_len + frac_len;
    let ghost dd = dec_digits_of(integral@, fractional@);

    // Weight and padding: the group weight is the floored division of the
    // decimal weight by nine; the padding realigns the run to the group
    // boundary it implies.
    let dw: i32 = int_len as i32 + exp as i32 - 1;
    let weight: i32 = group_weight(dw);
    let o: i32 = (weight + 1) * 9 - (dw + 1);
    proof {
        lemma_fundamental_div_mod(dw as int, 9);
    }
    assert(0 <= o <= 8);
    assert(o as int == pad_of(dw as int));
    let nd: u32 = ((total + o as usize + 8) as u32) / 9;
    proof {
        assert(dd.len() == total);
        assert(nd as int == ngroups_of(dd.len() as int, dw as int));
        assert(1 <= nd <= 5) by {
            lemma_div_pos_is_pos(total + o + 8, 9);
            lemma_div_is_ordered(9, total + o as int + 8, 9);
            lemma_div_is_ordered(total + o as int + 8, 52, 9);
        };
    }

    let buf = fill_scratch(integral, fractional);
    let slice = scratch_as_slice(&buf);

    let ou = o as usize;
    let g0 = if nd > 0 {
        read_decimal_digit(slice, ou, 0, Ghost(dd))
    } else {
        0
    };
    let g1 = if nd > 1 {
        read_decimal_digit(slice, ou, 1, Ghost(dd))
    } else {
        0
    };
    let g2 = if nd > 2 {
        read_decimal_digit(slice, ou, 2, Ghost(dd))
    } else {
        0
    };
    let g3 = if nd > 3 {
        read_decimal_digit(slice, ou, 3, Ghost(dd))
    } else {
        0
    };
    let g4 = if nd > 4 {
        read_decimal_digit(slice, ou, 4, Ghost(dd))
    } else {
        0
    };

    let scale_wide: i32 = frac_len as i32 - exp as i32;
    let dscale: i16 = if scale_wide < 0 {
        0
    } else {
        scale_wide as i16
    };

    let garr: [u32; 5] = [g0, g1, g2, g3, g4];
    let ghost raw = raw_groups(dd, o as int, nd as int);
    proof {
        assert forall|k: int| 0 <= k < nd implies garr[k] == raw[k] by {
            if k == 0 {
            } else if k == 1 {
            } else if k == 2 {
            } else if k == 3 {
            } else {
                assert(k == 4);
            }
        }
        // The run holds a nonzero digit: a non-"0" integral starts with one,
        // and otherwise the fractional run ends with one. So some group is
        // nonzero.
        if int_len > 0 && integral@[0] != 48 {
            assert(dd[0] != 0);
        } else {
            assert(frac_len > 0);
            assert(dd.last() == (fractional@.last() - 48) as u8);
            assert(dd[dd.len() - 1] != 0);
        }
        lemma_some_group_nonzero(dd, o as int, nd as int);
        let k = choose|k: int| 0 <= k < nd && #[trigger] digits_at_val(dd, 9 * k - o, 9) != 0;
        lemma_digits_at_val_bounds(dd, 9 * k - o, 9);
        lemma_p10_small();
        assert(raw[k] != 0);
    }

    let (nd2, lz) = trim_group_window(&garr, nd, Ghost(raw));
    let dec = build_decimal(sign, weight, dscale, &garr, nd2, lz, Ghost(raw));
    proof {
        assert(dec.model().groups =~= packed_model(p).groups);
        assert(dec.model() == packed_model(p));
    }
    Ok((dec, s1))
}

/// What parsing a whole input string returns: leading whitespace is
/// skipped, an all-whitespace input is empty, a case-insensitive `nan`
/// token (followed only by whitespace) is NaN, and anything after the
/// numeric grammar other than whitespace is invalid.
pub open spec fn from_str_spec(b: Seq<u8>) -> Result<DecModel, DecimalParseError> {
    let t = b.skip(ws_end(b));
    if t.len() == 0 {
        Err(DecimalParseError::Empty)
    } else if nan_prefix(t) {
        if all_ws(t.skip(3)) {
            Ok(nan_model())
        } else {
            Err(DecimalParseError::Invalid)
        }
    } else {
        match parse_str_spec(t) {
            Err(e) => Err(e),
            Ok(v) => {
                if all_ws(v.1) {
                    Ok(v.0)
                } else {
                    Err(DecimalParseError::Invalid)
                }
            },
        }
    }
}

/// Parses a string slice and creates a decimal.
///
/// This function handles leading or trailing spaces, and it accepts `NaN`
/// either.
pub fn from_str(s: &str) -> (r: Result<Decimal, DecimalParseError>)
    ensures
        match r {
            Ok(d) => from_str_spec(s.spec_bytes()) == Ok::<DecModel, DecimalParseError>(d.model()),
            Err(e) => from_str_spec(s.spec_bytes()) == Err::<DecModel, _>(e),
        },
{
    let b = s.as_bytes();
    let b = eat_whitespaces(b);
    if b.is_empty() {
        return Err(DecimalParseError::Empty);
    }

    let (is_nan, b2) = extract_nan(b);

    if is_nan {
        if !rest_is_whitespace(b2) {
            return Err(DecimalParseError::Invalid);
        }
        let n = Decimal::nan();
        proof {
            assert(n.model().groups =~= Seq::<u32>::empty());
            assert(n.model() == nan_model());
        }
        Ok(n)
    } else {
        match parse_str(b) {
            Err(e) => Err(e),
            Ok(v) => {
                if rest_is_whitespace(v.1) {
                    Ok(v.0)
                } else {
                    Err(DecimalParseError::Invalid)
                }
            },
        }
    }
}

impl core::str::FromStr for Decimal {
    type Err = DecimalParseError;

    fn from_str(s: &str) -> Result<Decimal, DecimalParseError> {
        from_str(s)
    }
}

/// Zero is unique and value-faithful: a successfully parsed non-NaN value
/// stores no digit groups exactly when it denotes the number zero, and a
/// parse that returns a digitless non-NaN value returns the one canonical
/// zero model (positive sign, weight zero, scale zero).
pub proof fn lemma_parsed_zero_unique(b: Seq<u8>)
    ensures
        from_str_spec(b) matches Ok(m) ==> (!(m.sign is NaN) ==> ((m.groups.len() == 0) <==> (
        crate::decimal::model_mag(m) == 0))),
        from_str_spec(b) matches Ok(m) ==> ((!(m.sign is NaN) && m.groups.len() == 0) ==> m
            == zero_model()),
{
    let t = b.skip(ws_end(b));
    if from_str_spec(b) is Ok {
        let m = from_str_spec(b)->Ok_0;
        if t.len() == 0 {
        } else if nan_prefix(t) {
        } else if !(m.sign is NaN) {
            let p = parse_decimal_spec(t)->Ok_0;
            lemma_parse_decimal_props(t, p);
            if (p.integral.len() == 0 || p.integral[0] == 48) && p.fractional.len() == 0 {
                assert(m == zero_model());
                assert(crate::decimal::model_mag(m) == 0);
            } else {
                assert(p.integral.len() + p.fractional.len() <= 36);
                let dd = dec_digits_of(p.integral, p.fractional);
                let dw = dec_weight_of(p.integral.len() as int, p.exp);
                let w = group_weight_of(dw);
                let o = pad_of(dw);
                let nd = ngroups_of(dd.len() as int, dw);
                lemma_fundamental_div_mod(dw, 9);
                assert(-1000 <= dw <= 1034);
                assert(-112 <= w <= 114);
                assert(0 <= o <= 8);
                assert(dd.len() == p.integral.len() + p.fractional.len());
                lemma_div_pos_is_pos(dd.len() as int + o + 8, 9);
                lemma_div_is_ordered(9, dd.len() as int + o + 8, 9);
                lemma_div_is_ordered(dd.len() as int + o + 8, 52, 9);
                assert(1 <= nd <= 5);
                assert forall|i: int| 0 <= i < dd.len() implies #[trigger] dd[i] <= 9 by {
                    if i < p.integral.len() {
                        assert(dd[i] == (p.integral[i] - 48) as u8);
                    } else {
                        assert(dd[i] == (p.fractional[i - p.integral.len()] - 48) as u8);
                    }
                }
                if p.integral.len() > 0 && p.integral[0] != 48 {
                    assert(dd[0] != 0);
                } else {
                    assert(p.fractional.len() > 0);
                    assert(dd.last() == (p.fractional.last() - 48) as u8);
                    assert(dd[dd.len() - 1] != 0);
                }
                lemma_some_group_nonzero(dd, o, nd);
                lemma_p10_small();
                let raw = raw_groups(dd, o, nd);
                assert forall|k: int| 0 <= k < nd implies #[trigger] raw[k] < 1_000_000_000 by {
                    lemma_digits_at_val_bounds(dd, 9 * k - o, 9);
                }
                let k0 = choose|k: int|
                    0 <= k < nd && #[trigger] digits_at_val(dd, 9 * k - o, 9) != 0;
                lemma_digits_at_val_bounds(dd, 9 * k0 - o, 9);
                assert(raw[k0] != 0);
                lemma_trim_trail_zero_groups(raw);
                let tg = trim_trail_zero_groups(raw);
                assert(k0 < tg.len());
                assert(tg[k0] != 0);
                lemma_lead_zero_groups(tg);
                let lz = lead_zero_groups(tg);
                assert(lz <= k0);
                let groups = m.groups;
                assert(m == packed_model(p));
                assert(groups == tg.skip(lz));
                assert(groups.len() >= 1);
                assert(groups[k0 - lz] == tg[k0]);
                assert forall|j: int| 0 <= j < groups.len() implies #[trigger] groups[j]
                    < 1_000_000_000 by {
                    assert(groups[j] == tg[j + lz]);
                    assert(tg[j + lz] == raw[j + lz]);
                }
                crate::decimal::lemma_seq_mag_pos(groups, w - lz);
                assert(crate::decimal::model_mag(m) > 0);
            }
        }
    }
}

/// Precision boundary: once the grammar is split, a nonzero decimal with up
/// to 36 significant digits (after trimming) parses; one with more is an
/// overflow when only whitespace follows the token, and invalid when
/// non-whitespace garbage does (grammar violations are classified first).
pub proof fn lemma_precision_boundary(s: Seq<u8>, p: PartsSpec)
    requires
        parse_decimal_spec(s) == Ok::<PartsSpec, DecimalParseError>(p),
        !((p.integral.len() == 0 || p.integral[0] == 48) && p.fractional.len() == 0),
    ensures
        p.integral.len() + p.fractional.len() <= 36 ==> parse_str_spec(s) is Ok,
        (p.integral.len() + p.fractional.len() > 36 && all_ws(p.rest)) ==> parse_str_spec(s)
            == Err::<(DecModel, Seq<u8>), DecimalParseError>(DecimalParseError::Overflow),
        (p.integral.len() + p.fractional.len() > 36 && !all_ws(p.rest)) ==> parse_str_spec(s)
            == Err::<(DecModel, Seq<u8>), DecimalParseError>(DecimalParseError::Invalid),
{
}

/// Exponent boundary: an exponent of a zero decimal is accepted at any
/// magnitude and read as zero; a nonzero decimal accepts at most three
/// significant exponent digits, and exceeding that is overflow when the
/// exponent sign is positive and underflow when it is negative.
pub proof fn lemma_exponent_boundary(s: Seq<u8>, dz: bool)
    requires
        after_sign(s).take(digits_end(after_sign(s))).len() > 0,
    ensures
        dz ==> exponent_spec(s, dz) == Ok::<(int, Seq<u8>), DecimalParseError>(
            (0, after_sign(s).skip(digits_end(after_sign(s)))),
        ),
        (!dz && strip_zeros(after_sign(s).take(digits_end(after_sign(s)))).len() <= 3)
            ==> exponent_spec(s, dz) is Ok,
        (!dz && strip_zeros(after_sign(s).take(digits_end(after_sign(s)))).len() > 3 && !(sign_of(
            s,
        ) is Negative)) ==> exponent_spec(s, dz) == Err::<(int, Seq<u8>), DecimalParseError>(
            DecimalParseError::Overflow,
        ),
        (!dz && strip_zeros(after_sign(s).take(digits_end(after_sign(s)))).len() > 3 && sign_of(
            s,
        ) is Negative) ==> exponent_spec(s, dz) == Err::<(int, Seq<u8>), DecimalParseError>(
            DecimalParseError::Underflow,
        ),
{
}

/// Round trip for the digitless values: rendering NaN or the canonical
/// zero and parsing the text back returns exactly the same model. (For
/// values with stored digits, re-parsing the rendered text gives a value
/// equal under the comparator whenever the rendered text stays within the
/// precision cap; a value such as ten to the 39th renders to more integral
/// digits than parse accepts.)
pub proof fn lemma_digitless_round_trip(d: Decimal)
    ensures
        d.model().sign is NaN ==> from_str_spec(
            vstd::utf8::encode_utf8(crate::decimal::format_spec(d)),
        ) == Ok::<DecModel, DecimalParseError>(nan_model()),
        d.model() == zero_model() ==> from_str_spec(
            vstd::utf8::encode_utf8(crate::decimal::format_spec(d)),
        ) == Ok::<DecModel, DecimalParseError>(zero_model()),
{
    if d.model().sign is NaN {
        let cs = crate::decimal::format_spec(d);
        assert(cs =~= seq!['N', 'a', 'N']);
        assert(vstd::utf8::is_ascii_chars(cs));
        vstd::utf8::is_ascii_chars_encode_utf8(cs);
        let b = vstd::utf8::encode_utf8(cs);
        assert(b =~= seq![78u8, 97u8, 78u8]);
        assert(ws_end(b) == 0);
        assert(b.skip(0) =~= b);
        assert(nan_prefix(b));
        assert(b.skip(3).len() == 0);
        assert(all_ws(b.skip(3)));
    }
    if d.model() == zero_model() {
        let cs = crate::decimal::format_spec(d);
        assert(cs =~= seq!['0']);
        assert(vstd::utf8::is_ascii_chars(cs));
        vstd::utf8::is_ascii_chars_encode_utf8(cs);
        let b = vstd::utf8::encode_utf8(cs);
        assert(b =~= seq![48u8]);
        assert(ws_end(b) == 0);
        let t = b.skip(ws_end(b));
        assert(t =~= b);
        assert(t.len() == 1);
        assert(!nan_prefix(t));
        assert(digits_end(t.drop_first()) == 0);
        assert(digits_end(t) == 1);
        let int_raw = t.take(digits_end(t));
        assert(int_raw =~= t);
        assert(trim_lead_zeros(int_raw) == int_raw);
        let u = t.skip(digits_end(t));
        assert(u.len() == 0);
        let p = parse_decimal_spec(t)->Ok_0;
        assert(p.integral[0] == 48);
        assert(p.fractional.len() == 0);
        assert(parse_str_spec(t) == Ok::<(DecModel, Seq<u8>), DecimalParseError>(
            (zero_model(), u),
        ));
        assert(all_ws(u));
    }
}

} // verus!
