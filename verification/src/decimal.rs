//! Decimal numbers as they stand on the wire: an optional minus sign and
//! ASCII digits.

use vstd::prelude::*;

verus! {

/// The byte `-`.
pub const MINUS: u8 = 45;

/// The byte `0`.
pub const ZERO: u8 = 48;

/// The byte `9`.
pub const NINE: u8 = 57;

/// Whether `b` is one of the ASCII digits `0` to `9`.
pub open spec fn is_digit(b: u8) -> bool {
    ZERO <= b <= NINE
}

/// Whether every byte of `s` is an ASCII digit.
pub open spec fn all_digits(s: Seq<u8>) -> bool {
    forall|i: int| 0 <= i < s.len() ==> is_digit(#[trigger] s[i])
}

/// The number that a run of ASCII digits writes, most significant digit first.
pub open spec fn digits_value(s: Seq<u8>) -> nat
    decreases s.len(),
{
    if s.len() == 0 {
        0
    } else {
        10 * digits_value(s.drop_last()) + (s.last() - ZERO) as nat
    }
}

/// The signed 64-bit number that a line writes in decimal, if it writes one:
/// at least one digit, before them at most a minus sign, nothing else, and a
/// value within the range of `i64`.
pub open spec fn parse_decimal(s: Seq<u8>) -> Option<i64> {
    if s.len() > 0 && s[0] == MINUS {
        let d = s.skip(1);
        if d.len() > 0 && all_digits(d) && i64::MIN <= -(digits_value(d) as int) {
            Some((-(digits_value(d) as int)) as i64)
        } else {
            None
        }
    } else if s.len() > 0 && all_digits(s) && digits_value(s) <= i64::MAX {
        Some(digits_value(s) as i64)
    } else {
        None
    }
}

/// The digits of `n` in decimal, without leading zeros.
pub open spec fn decimal_digits(n: nat) -> Seq<u8>
    decreases n,
{
    if n < 10 {
        seq![(ZERO + n) as u8]
    } else {
        decimal_digits(n / 10).push((ZERO + n % 10) as u8)
    }
}

/// The decimal text of `n`: a minus sign if it is negative, then its digits.
pub open spec fn format_decimal(n: int) -> Seq<u8> {
    if n < 0 {
        seq![MINUS] + decimal_digits((-n) as nat)
    } else {
        decimal_digits(n as nat)
    }
}

/// A prefix of a run of digits writes no larger a number than the whole run.
pub proof fn lemma_digits_value_prefix(s: Seq<u8>, k: int)
    requires
        0 <= k <= s.len(),
    ensures
        digits_value(s.take(k)) <= digits_value(s),
    decreases s.len() - k,
{
    if k == s.len() {
        assert(s.take(k) =~= s);
    } else {
        lemma_digits_value_prefix(s, k + 1);
        assert(s.take(k + 1).drop_last() =~= s.take(k));
    }
}

/// The digits of a number are digits, at least one of them.
pub proof fn lemma_decimal_digits_shape(n: nat)
    ensures
        decimal_digits(n).len() >= 1,
        all_digits(decimal_digits(n)),
    decreases n,
{
    if n >= 10 {
        lemma_decimal_digits_shape(n / 10);
    }
}

/// Reading the digits of a number gives the number back.
pub proof fn lemma_digits_value_of_decimal_digits(n: nat)
    ensures
        digits_value(decimal_digits(n)) == n,
    decreases n,
{
    if n < 10 {
        let s = decimal_digits(n);
        assert(s.drop_last() =~= Seq::<u8>::empty());
        assert(digits_value(s.drop_last()) == 0);
    } else {
        lemma_digits_value_of_decimal_digits(n / 10);
        let s = decimal_digits(n);
        assert(s.drop_last() =~= decimal_digits(n / 10));
    }
}

/// Parsing the decimal text of a 64-bit number gives that number.
pub proof fn lemma_parse_format(n: i64)
    ensures
        parse_decimal(format_decimal(n as int)) == Some(n),
{
    let s = format_decimal(n as int);
    if n < 0 {
        let m = (-(n as int)) as nat;
        lemma_decimal_digits_shape(m);
        lemma_digits_value_of_decimal_digits(m);
        assert(s.skip(1) =~= decimal_digits(m));
    } else {
        lemma_decimal_digits_shape(n as nat);
        lemma_digits_value_of_decimal_digits(n as nat);
        assert(is_digit(s[0]));
    }
}

/// The decimal text of a number holds only digits and the minus sign.
pub proof fn lemma_format_bytes(n: int)
    ensures
        format_decimal(n).len() >= 1,
        forall|i: int|
            0 <= i < format_decimal(n).len() ==> {
                let b = #[trigger] format_decimal(n)[i];
                is_digit(b) || b == MINUS
            },
{
    if n < 0 {
        lemma_decimal_digits_shape((-n) as nat);
    } else {
        lemma_decimal_digits_shape(n as nat);
    }
}

/// Reads a whole line as a decimal number.
pub fn parse_i64(line: &[u8]) -> (r: Option<i64>)
    ensures
        r == parse_decimal(line@),
{
    let n: usize = line.len();
    if n == 0 {
        return None;
    }
    let negative: bool = line[0] == MINUS;
    let start: usize = if negative { 1 } else { 0 };
    if start == n {
        return None;
    }
    let limit: u64 = if negative { 0x8000_0000_0000_0000u64 } else { 0x7fff_ffff_ffff_ffffu64 };
    let ghost d = line@.skip(start as int);
    proof {
        if !negative {
            assert(d =~= line@);
        }
    }
    let mut acc: u64 = 0;
    let mut i: usize = start;
    while i < n
        invariant
            start <= i <= n,
            n == line@.len(),
            d == line@.skip(start as int),
            forall|j: int| 0 <= j < i - start ==> is_digit(#[trigger] d[j]),
            acc == digits_value(d.take(i - start)),
            acc <= limit,
            n > 0,
            negative == (line@[0] == MINUS),
            negative ==> start == 1 && limit == 0x8000_0000_0000_0000u64,
            !negative ==> start == 0 && limit == 0x7fff_ffff_ffff_ffffu64 && d == line@,
        ensures
            i == n,
        decreases n - i,
    {
        let b: u8 = line[i];
        assert(d[i - start] == b);
        if b < ZERO || b > NINE {
            assert(!all_digits(d));
            return None;
        }
        let digit: u64 = (b - ZERO) as u64;
        proof {
            assert(d.take(i - start + 1).drop_last() =~= d.take(i - start));
            assert(d.take(i - start + 1).last() == b);
            assert(digits_value(d.take(i - start + 1)) == 10 * acc + digit);
            lemma_digits_value_prefix(d, i - start + 1);
        }
        if acc > (limit - digit) / 10 {
            assert(digits_value(d) > limit);
            return None;
        }
        acc = acc * 10 + digit;
        i = i + 1;
    }
    proof {
        assert(d.take(n - start) =~= d);
        assert(all_digits(d));
    }
    if negative {
        if acc == 0x8000_0000_0000_0000u64 {
            Some(i64::MIN)
        } else {
            Some(-(acc as i64))
        }
    } else {
        Some(acc as i64)
    }
}

/// Appends the decimal digits of `n` to `out`.
pub fn push_digits(out: &mut Vec<u8>, n: u64)
    ensures
        final(out)@ == old(out)@ + decimal_digits(n as nat),
    decreases n,
{
    if n >= 10 {
        push_digits(out, n / 10);
    }
    let digit: u8 = (n % 10) as u8;
    out.push(ZERO + digit);
    assert(final(out)@ =~= old(out)@ + decimal_digits(n as nat));
}

/// Appends the decimal text of `n` to `out`.
pub fn push_i64(out: &mut Vec<u8>, n: i64)
    ensures
        final(out)@ == old(out)@ + format_decimal(n as int),
{
    if n < 0 {
        out.push(MINUS);
        let magnitude: u64 = ((-(n + 1)) as u64) + 1;
        push_digits(out, magnitude);
        assert(final(out)@ =~= old(out)@ + format_decimal(n as int));
    } else {
        push_digits(out, n as u64);
    }
}

} // verus!
