//! Decimal integers: parsing text the way `str::parse` does for unsigned
//! integer types, and writing numbers out in decimal.

use vstd::prelude::*;
use crate::text::chars_of;

verus! {

/// Why text is not an unsigned integer, as `core::num::IntErrorKind` tells it.
#[derive(Debug, PartialEq, Eq, Structural, Clone, Copy)]
pub enum IntErrorKind {
    /// The text is empty.
    Empty,
    /// The text holds a character that is not a decimal digit where one is due.
    InvalidDigit,
    /// The number is larger than the type can hold.
    PosOverflow,
}

/// Whether `c` is one of `'0'..='9'`.
pub open spec fn is_digit(c: char) -> bool {
    '0' <= c && c <= '9'
}

/// The value of the digit `c`.
pub open spec fn digit_value(c: char) -> int {
    (c as u32) - ('0' as u32)
}

/// The digits of `s` from position `i` on, read into the accumulated value
/// `acc`: the first position where a digit is missing or the value would
/// pass `max` decides the error.
pub open spec fn read_digits(s: Seq<char>, max: int, acc: int, i: int) -> Result<int, IntErrorKind>
    decreases s.len() - i,
{
    if i >= s.len() || i < 0 {
        Ok(acc)
    } else if !is_digit(s[i]) {
        Err(IntErrorKind::InvalidDigit)
    } else if acc * 10 > max {
        Err(IntErrorKind::PosOverflow)
    } else if acc * 10 + digit_value(s[i]) > max {
        Err(IntErrorKind::PosOverflow)
    } else {
        read_digits(s, max, acc * 10 + digit_value(s[i]), i + 1)
    }
}

/// What `str::parse` gives for an unsigned type whose largest value is
/// `max`: an optional `+`, then at least one decimal digit.
pub open spec fn parse_unsigned(s: Seq<char>, max: int) -> Result<int, IntErrorKind> {
    if s.len() == 0 {
        Err(IntErrorKind::Empty)
    } else if s.len() == 1 && (s[0] == '+' || s[0] == '-') {
        Err(IntErrorKind::InvalidDigit)
    } else if s[0] == '+' {
        read_digits(s, max, 0, 1)
    } else {
        read_digits(s, max, 0, 0)
    }
}

/// The value of the decimal digits `s`.
pub open spec fn decimal_value(s: Seq<char>) -> int
    decreases s.len(),
{
    if s.len() == 0 {
        0
    } else {
        decimal_value(s.drop_last()) * 10 + digit_value(s.last())
    }
}

/// The decimal digits of `n`, without leading zeros.
pub open spec fn decimal(n: nat) -> Seq<char>
    decreases n,
{
    if n < 10 {
        seq![digit_char(n)]
    } else {
        decimal(n / 10).push(digit_char(n % 10))
    }
}

/// The character of the digit `d`.
pub open spec fn digit_char(d: nat) -> char {
    if d == 0 { '0' }
    else if d == 1 { '1' }
    else if d == 2 { '2' }
    else if d == 3 { '3' }
    else if d == 4 { '4' }
    else if d == 5 { '5' }
    else if d == 6 { '6' }
    else if d == 7 { '7' }
    else if d == 8 { '8' }
    else { '9' }
}

fn read_digits_exec(s: &Vec<char>, max: u128, start: usize) -> (r: Result<u128, IntErrorKind>)
    requires
        start <= s.len(),
    ensures
        match r {
            Ok(v) => read_digits(s@, max as int, 0, start as int) == Ok::<int, IntErrorKind>(v as int),
            Err(e) => read_digits(s@, max as int, 0, start as int) == Err::<int, IntErrorKind>(e),
        },
        r matches Ok(v) ==> v <= max,
{
    let mut acc: u128 = 0;
    let mut i = start;
    while i < s.len()
        invariant
            start <= i <= s.len(),
            acc <= max,
            read_digits(s@, max as int, 0, start as int) == read_digits(
                s@,
                max as int,
                acc as int,
                i as int,
            ),
        decreases s.len() - i,
    {
        let c = s[i];
        if !('0' <= c && c <= '9') {
            return Err(IntErrorKind::InvalidDigit);
        }
        let d = (c as u32 - '0' as u32) as u128;
        if acc > max / 10 {
            return Err(IntErrorKind::PosOverflow);
        }
        assert(acc * 10 <= max) by (nonlinear_arith)
            requires
                acc <= max / 10,
        ;
        let scaled = acc * 10;
        if d > max - scaled {
            return Err(IntErrorKind::PosOverflow);
        }
        acc = scaled + d;
        i = i + 1;
    }
    Ok(acc)
}

/// Reads `s` as `str::parse` reads an unsigned integer no larger than `max`.
pub fn parse_unsigned_chars(s: &Vec<char>, max: u128) -> (r: Result<u128, IntErrorKind>)
    ensures
        match r {
            Ok(v) => parse_unsigned(s@, max as int) == Ok::<int, IntErrorKind>(v as int),
            Err(e) => parse_unsigned(s@, max as int) == Err::<int, IntErrorKind>(e),
        },
        r matches Ok(v) ==> v <= max,
{
    if s.len() == 0 {
        Err(IntErrorKind::Empty)
    } else if s.len() == 1 && (s[0] == '+' || s[0] == '-') {
        Err(IntErrorKind::InvalidDigit)
    } else if s[0] == '+' {
        read_digits_exec(s, max, 1)
    } else {
        read_digits_exec(s, max, 0)
    }
}

/// `s.parse::<u32>()`.
pub fn parse_u32(s: &str) -> (r: Result<u32, IntErrorKind>)
    ensures
        match r {
            Ok(v) => parse_unsigned(s@, u32::MAX as int) == Ok::<int, IntErrorKind>(v as int),
            Err(e) => parse_unsigned(s@, u32::MAX as int) == Err::<int, IntErrorKind>(e),
        },
{
    let cs = chars_of(s);
    match parse_unsigned_chars(&cs, u32::MAX as u128) {
        Ok(v) => Ok(v as u32),
        Err(e) => Err(e),
    }
}

/// `s.parse::<u128>()`.
pub fn parse_u128(s: &str) -> (r: Result<u128, IntErrorKind>)
    ensures
        match r {
            Ok(v) => parse_unsigned(s@, u128::MAX as int) == Ok::<int, IntErrorKind>(v as int),
            Err(e) => parse_unsigned(s@, u128::MAX as int) == Err::<int, IntErrorKind>(e),
        },
{
    let cs = chars_of(s);
    parse_unsigned_chars(&cs, u128::MAX)
}

fn digit_str(d: u32) -> (r: &'static str)
    requires
        d < 10,
    ensures
        r@ == seq![digit_char(d as nat)],
{
    proof {
        reveal_strlit("0");
        reveal_strlit("1");
        reveal_strlit("2");
        reveal_strlit("3");
        reveal_strlit("4");
        reveal_strlit("5");
        reveal_strlit("6");
        reveal_strlit("7");
        reveal_strlit("8");
        reveal_strlit("9");
    }
    let r = if d == 0 { "0" }
    else if d == 1 { "1" }
    else if d == 2 { "2" }
    else if d == 3 { "3" }
    else if d == 4 { "4" }
    else if d == 5 { "5" }
    else if d == 6 { "6" }
    else if d == 7 { "7" }
    else if d == 8 { "8" }
    else { "9" };
    assert(r@ =~= seq![digit_char(d as nat)]);
    r
}

/// Appends the decimal digits of `n` to `out`.
pub fn push_decimal(out: &mut String, n: u32)
    ensures
        final(out)@ == old(out)@ + decimal(n as nat),
    decreases n,
{
    if n >= 10 {
        push_decimal(out, n / 10);
    }
    out.append(digit_str(n % 10));
    assert(decimal(n as nat) =~= if n < 10 {
        seq![digit_char(n as nat)]
    } else {
        decimal((n / 10) as nat).push(digit_char((n % 10) as nat))
    });
}

// ---------------------------------------------------------------------------
// Laws of decimal text
// ---------------------------------------------------------------------------

/// Whether every character of `s` is a decimal digit.
pub open spec fn all_digits(s: Seq<char>) -> bool {
    forall|i: int| 0 <= i < s.len() ==> is_digit(#[trigger] s[i])
}

proof fn lemma_digit_char(d: nat)
    requires
        d < 10,
    ensures
        is_digit(digit_char(d)),
        digit_value(digit_char(d)) == d,
{
}

/// The decimal text of `n` is made of digits and has the value `n`.
pub proof fn lemma_decimal(n: nat)
    ensures
        all_digits(decimal(n)),
        decimal(n).len() >= 1,
        decimal_value(decimal(n)) == n,
    decreases n,
{
    if n < 10 {
        lemma_digit_char(n);
        assert(decimal(n).drop_last() =~= Seq::<char>::empty());
        assert(decimal_value(decimal(n)) == decimal_value(Seq::<char>::empty()) * 10 + digit_value(
            digit_char(n),
        ));
    } else {
        lemma_decimal(n / 10);
        lemma_digit_char(n % 10);
        let s = decimal(n);
        assert(s.drop_last() =~= decimal(n / 10));
        assert(s.last() == digit_char(n % 10));
        assert(decimal_value(s) == decimal_value(decimal(n / 10)) * 10 + digit_value(
            digit_char(n % 10),
        ));
        assert((n / 10) * 10 + n % 10 == n) by (nonlinear_arith);
    }
}

proof fn lemma_prefix_value(s: Seq<char>, k: int)
    requires
        all_digits(s),
        0 <= k <= s.len(),
    ensures
        0 <= decimal_value(s.take(k)) <= decimal_value(s),
    decreases s.len(),
{
    lemma_value_nonneg(s);
    lemma_value_nonneg(s.take(k));
    if k < s.len() {
        let t = s.drop_last();
        assert(s.take(k) =~= t.take(k));
        lemma_prefix_value(t, k);
        lemma_value_nonneg(t);
    } else {
        assert(s.take(k) =~= s);
    }
}

proof fn lemma_value_nonneg(s: Seq<char>)
    requires
        all_digits(s),
    ensures
        decimal_value(s) >= 0,
    decreases s.len(),
{
    if s.len() > 0 {
        lemma_value_nonneg(s.drop_last());
    }
}

proof fn lemma_read_digits(s: Seq<char>, max: int, i: int)
    requires
        all_digits(s),
        0 <= i <= s.len(),
        decimal_value(s) <= max,
    ensures
        read_digits(s, max, decimal_value(s.take(i)), i) == Ok::<int, IntErrorKind>(decimal_value(s)),
    decreases s.len() - i,
{
    if i < s.len() {
        let acc = decimal_value(s.take(i));
        assert(s.take(i + 1).drop_last() =~= s.take(i));
        assert(s.take(i + 1).last() == s[i]);
        lemma_prefix_value(s, i + 1);
        lemma_prefix_value(s, i);
        assert(is_digit(s[i]));
        assert(decimal_value(s.take(i + 1)) == acc * 10 + digit_value(s[i]));
        lemma_read_digits(s, max, i + 1);
    } else {
        assert(s.take(i) =~= s);
    }
}

/// The decimal text of a number that fits parses back to that number.
pub proof fn lemma_parse_decimal(n: nat, max: int)
    requires
        n <= max,
    ensures
        parse_unsigned(decimal(n), max) == Ok::<int, IntErrorKind>(n as int),
{
    lemma_decimal(n);
    let s = decimal(n);
    assert(is_digit(s[0]));
    assert(s.take(0) =~= Seq::<char>::empty());
    lemma_read_digits(s, max, 0);
}

} // verus!
