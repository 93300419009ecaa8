//! Decimal numerals: what a run of ASCII bytes denotes, and the readers that
//! compute it within the range of a machine integer.
//!
//! A length is one or more decimal digits, without a sign. A signed
//! numeral is an optional `+` or `-` followed by one or more decimal digits;
//! read leniently, leading zeros are accepted and so is a sign before zero,
//! and read strictly only the canonical form is.

use vstd::prelude::*;

verus! {

/// The byte `0`.
pub const DIGIT_ZERO: u8 = 48;

/// The byte `9`.
pub const DIGIT_NINE: u8 = 57;

/// The byte `+`.
pub const PLUS: u8 = 43;

/// The byte `-`.
pub const MINUS: u8 = 45;

/// Whether `byte` is an ASCII decimal digit.
pub open spec fn is_digit(byte: u8) -> bool {
    DIGIT_ZERO <= byte <= DIGIT_NINE
}

/// Whether every byte of `s` is a decimal digit.
pub open spec fn all_digits(s: Seq<u8>) -> bool {
    forall|i: int| 0 <= i < s.len() ==> is_digit(#[trigger] s[i])
}

/// The number that a run of digits denotes in base ten.
pub open spec fn decimal_value(s: Seq<u8>) -> nat
    decreases s.len(),
{
    if s.len() == 0 {
        0
    } else {
        decimal_value(s.drop_last()) * 10 + (s.last() - DIGIT_ZERO) as nat
    }
}

/// The number denoted by one or more digits; `None` for anything else.
pub open spec fn digits_numeral(s: Seq<u8>) -> Option<nat> {
    if s.len() > 0 && all_digits(s) {
        Some(decimal_value(s))
    } else {
        None
    }
}

/// The number denoted by a signed numeral: an optional `+` or `-` and digits.
pub open spec fn signed_numeral(s: Seq<u8>) -> Option<int> {
    if s.len() > 0 && s[0] == MINUS {
        match digits_numeral(s.drop_first()) {
            Some(n) => Some(-(n as int)),
            None => None,
        }
    } else if s.len() > 0 && s[0] == PLUS {
        match digits_numeral(s.drop_first()) {
            Some(n) => Some(n as int),
            None => None,
        }
    } else {
        match digits_numeral(s) {
            Some(n) => Some(n as int),
            None => None,
        }
    }
}

/// The `usize` that `s` denotes: `None` where `s` is not one or more digits,
/// without a sign, or its number does not fit.
pub open spec fn usize_numeral(s: Seq<u8>) -> Option<usize> {
    match digits_numeral(s) {
        Some(n) if n <= usize::MAX => Some(n as usize),
        _ => None,
    }
}

/// The `i64` that `s` denotes: `None` where `s` is no signed numeral or its
/// number does not fit.
pub open spec fn i64_numeral(s: Seq<u8>) -> Option<i64> {
    match signed_numeral(s) {
        Some(n) if i64::MIN <= n <= i64::MAX => Some(n as i64),
        _ => None,
    }
}

/// A run of digits denotes at least what any of its prefixes denotes.
pub proof fn lemma_decimal_value_grows(s: Seq<u8>, k: int)
    requires
        all_digits(s),
        0 <= k <= s.len(),
    ensures
        decimal_value(s.take(k)) <= decimal_value(s),
    decreases s.len() - k,
{
    if k == s.len() {
        assert(s.take(k) =~= s);
    } else {
        lemma_decimal_value_grows(s, k + 1);
        assert(s.take(k + 1).drop_last() =~= s.take(k));
        assert(is_digit(s[k]));
    }
}

/// A run of digits denotes at least what its first digit says.
proof fn lemma_leading_digit(digits: Seq<u8>)
    requires
        digits.len() > 0,
        all_digits(digits),
    ensures
        decimal_value(digits) >= digits[0] - DIGIT_ZERO,
{
    let first = digits.take(1);
    lemma_decimal_value_grows(digits, 1);
    assert(first.drop_last() =~= Seq::<u8>::empty());
    assert(decimal_value(first.drop_last()) == 0);
    assert(first.last() == digits[0]);
}

/// Reads the digits `data[start..]` as a number no greater than `limit`.
fn read_digits(data: &[u8], start: usize, limit: u64) -> (number: Option<u64>)
    requires
        start <= data@.len(),
    ensures
        number == match digits_numeral(data@.skip(start as int)) {
            Some(n) if n <= limit => Some(n as u64),
            _ => None::<u64>,
        },
{
    let ghost digits = data@.skip(start as int);
    if start == data.len() {
        return None;
    }
    let mut value: u64 = 0;
    let mut i: usize = start;
    assert(digits.take(0) =~= Seq::<u8>::empty());
    while i < data.len()
        invariant
            start <= i <= data@.len(),
            digits == data@.skip(start as int),
            all_digits(digits.take(i - start)),
            value == decimal_value(digits.take(i - start)),
            value <= limit,
        decreases data@.len() - i,
    {
        let byte: u8 = data[i];
        assert(byte == digits[i - start]);
        if byte < DIGIT_ZERO || byte > DIGIT_NINE {
            return None;
        }
        let ghost longer = digits.take(i - start + 1);
        assert(longer.drop_last() =~= digits.take(i - start));
        assert(longer.last() == byte);
        let next: u128 = value as u128 * 10 + (byte - DIGIT_ZERO) as u128;
        assert(next == decimal_value(longer));
        if next > limit as u128 {
            proof {
                if all_digits(digits) {
                    lemma_decimal_value_grows(digits, i - start + 1);
                }
            }
            return None;
        }
        value = next as u64;
        i += 1;
    }
    assert(digits.take(i - start) =~= digits);
    Some(value)
}

/// Reads one or more digits, without a sign, as a `usize`.
pub fn parse_usize(data: &[u8]) -> (number: Option<usize>)
    ensures
        number == usize_numeral(data@),
{
    assert(data@.skip(0) =~= data@);
    match read_digits(data, 0, usize::MAX as u64) {
        Some(n) => Some(n as usize),
        None => None,
    }
}

/// Reads a signed numeral as an `i64`.
pub fn parse_i64(data: &[u8]) -> (number: Option<i64>)
    ensures
        number == i64_numeral(data@),
{
    assert(data@.skip(0) =~= data@);
    assert(data@.skip(1) =~= data@.drop_first());
    if data.len() > 0 && data[0] == MINUS {
        match read_digits(data, 1, 0x8000_0000_0000_0000) {
            Some(n) => {
                if n == 0x8000_0000_0000_0000 {
                    Some(i64::MIN)
                } else {
                    Some(-(n as i64))
                }
            },
            None => None,
        }
    } else {
        let start: usize = if data.len() > 0 && data[0] == PLUS {
            1
        } else {
            0
        };
        match read_digits(data, start, 0x7fff_ffff_ffff_ffff) {
            Some(n) => Some(n as i64),
            None => None,
        }
    }
}

/// How the numeral of an integer is read.
#[derive(Clone, Copy, Debug, PartialEq, Eq, Structural)]
pub enum NumeralMode {
    /// Every signed numeral is read: leading zeros, `+`, and a sign before
    /// zero are accepted.
    Lenient,
    /// Only a numeral in canonical form is read: no leading zeros, no `+`,
    /// no sign before zero.
    Strict,
}

/// The `i64` that `s` denotes when read in `mode`: what [`i64_numeral`]
/// gives, and in strict mode `None` for a numeral that is not in canonical
/// form.
pub open spec fn i64_numeral_in(s: Seq<u8>, mode: NumeralMode) -> Option<i64> {
    if mode == NumeralMode::Strict && !is_canonical_numeral(s) {
        None
    } else {
        i64_numeral(s)
    }
}

/// Whether `data` is a numeral in canonical form.
pub fn is_canonical(data: &[u8]) -> (canonical: bool)
    ensures
        canonical == is_canonical_numeral(data@),
{
    let start: usize = if data.len() > 0 && data[0] == MINUS {
        1
    } else {
        0
    };
    let ghost digits = if data@.len() > 0 && data@[0] == MINUS {
        data@.drop_first()
    } else {
        data@
    };
    assert(digits =~= data@.skip(start as int));
    if start == data.len() {
        return false;
    }
    assert(digits[0] == data@[start as int]);
    if data[start] == DIGIT_ZERO && data.len() != 1 {
        return false;
    }
    let mut i: usize = start;
    while i < data.len()
        invariant
            start <= i <= data@.len(),
            digits == data@.skip(start as int),
            is_canonical_numeral(data@) == all_digits(digits),
            forall|j: int| start <= j < i ==> is_digit(data@[j]),
        decreases data@.len() - i,
    {
        if data[i] < DIGIT_ZERO || data[i] > DIGIT_NINE {
            assert(digits[i - start] == data@[i as int]);
            return false;
        }
        i += 1;
    }
    assert forall|j: int| 0 <= j < digits.len() implies is_digit(#[trigger] digits[j]) by {
        assert(is_digit(data@[j + start]));
    }
    true
}

/// Reads a signed numeral as an `i64`, leniently or strictly.
pub fn parse_i64_in(data: &[u8], mode: NumeralMode) -> (number: Option<i64>)
    ensures
        number == i64_numeral_in(data@, mode),
{
    match mode {
        NumeralMode::Lenient => parse_i64(data),
        NumeralMode::Strict => if is_canonical(data) {
            parse_i64(data)
        } else {
            None
        },
    }
}

/// The digits of `n` in base ten, without leading zeros.
pub open spec fn decimal_digits(n: nat) -> Seq<u8>
    decreases n,
{
    if n < 10 {
        seq![(DIGIT_ZERO + n) as u8]
    } else {
        decimal_digits(n / 10).push((DIGIT_ZERO + n % 10) as u8)
    }
}

/// The canonical numeral of `n`: its digits without leading zeros, after a
/// `-` where `n` is negative. Zero has no sign.
pub open spec fn canonical_numeral(n: int) -> Seq<u8> {
    if n < 0 {
        seq![MINUS] + decimal_digits((-n) as nat)
    } else {
        decimal_digits(n as nat)
    }
}

/// Whether `s` is a numeral in canonical form: digits, after a `-` or
/// without a sign, that start with `0` only where `0` is all there is. So
/// there are no leading zeros, no `+`, and no sign before zero.
pub open spec fn is_canonical_numeral(s: Seq<u8>) -> bool {
    let digits = if s.len() > 0 && s[0] == MINUS {
        s.drop_first()
    } else {
        s
    };
    &&& digits.len() > 0
    &&& all_digits(digits)
    &&& digits[0] == DIGIT_ZERO ==> s.len() == 1
}

/// The digits of a number are digits, and they denote that number. They
/// start with `0` only for zero.
pub proof fn lemma_decimal_digits(n: nat)
    ensures
        decimal_digits(n).len() > 0,
        all_digits(decimal_digits(n)),
        decimal_value(decimal_digits(n)) == n,
        decimal_digits(n)[0] == DIGIT_ZERO ==> n == 0 && decimal_digits(n).len() == 1,
    decreases n,
{
    if n < 10 {
        let s = decimal_digits(n);
        assert(s.drop_last() =~= Seq::<u8>::empty());
        assert(decimal_value(s.drop_last()) == 0);
    } else {
        lemma_decimal_digits(n / 10);
        let s = decimal_digits(n);
        assert(s.drop_last() =~= decimal_digits(n / 10));
    }
}

/// The canonical numeral of a number is in canonical form, and reading it
/// gives the number back.
pub proof fn lemma_canonical_numeral(n: int)
    ensures
        canonical_numeral(n).len() > 0,
        is_canonical_numeral(canonical_numeral(n)),
        signed_numeral(canonical_numeral(n)) == Some(n),
        forall|i: int|
            0 <= i < canonical_numeral(n).len() ==> {
                let byte = #[trigger] canonical_numeral(n)[i];
                is_digit(byte) || byte == MINUS
            },
{
    let s = canonical_numeral(n);
    if n < 0 {
        lemma_decimal_digits((-n) as nat);
        assert(s.drop_first() =~= decimal_digits((-n) as nat));
    } else {
        lemma_decimal_digits(n as nat);
        assert(is_digit(s[0]));
    }
}

/// Digits without a leading zero are the digits of the number that they
/// denote.
pub proof fn lemma_digits_of_value(digits: Seq<u8>)
    requires
        digits.len() > 0,
        all_digits(digits),
        digits[0] == DIGIT_ZERO ==> digits.len() == 1,
    ensures
        decimal_digits(decimal_value(digits)) == digits,
    decreases digits.len(),
{
    let front = digits.drop_last();
    let unit = (digits.last() - DIGIT_ZERO) as nat;
    assert(is_digit(digits.last()));
    if front.len() == 0 {
        assert(decimal_value(front) == 0);
        assert(decimal_digits(unit) =~= digits);
    } else {
        // The digits before the last one denote a number that is not zero,
        // and they are its digits. The last digit makes ten times that
        // number and some units.
        assert(front[0] == digits[0]);
        assert(all_digits(front));
        lemma_digits_of_value(front);
        lemma_leading_digit(front);
        let value = decimal_value(digits);
        assert(value == decimal_value(front) * 10 + unit);
        assert(value / 10 == decimal_value(front) && value % 10 == unit);
        assert(decimal_digits(value) =~= digits);
    }
}

/// There is one canonical numeral for each number: a numeral in canonical
/// form is the canonical numeral of the number that it denotes.
pub proof fn lemma_canonical_numeral_is_unique(s: Seq<u8>)
    requires
        is_canonical_numeral(s),
    ensures
        signed_numeral(s) matches Some(n) && canonical_numeral(n) == s,
{
    if s[0] == MINUS {
        // The digits after the sign denote a number that is not zero.
        let digits = s.drop_first();
        lemma_digits_of_value(digits);
        assert(is_digit(digits[0]));
        lemma_leading_digit(digits);
        assert(decimal_value(digits) > 0);
        assert(seq![MINUS] + digits =~= s);
    } else {
        assert(is_digit(s[0]));
        lemma_digits_of_value(s);
    }
}

} // verus!
