//! Decimal numbers as text.

use vstd::prelude::*;
#[allow(unused_imports)]
use vstd::string::*;
use crate::text::chars_of;

verus! {

/// Why a text is not a number in range.
#[derive(Debug, Clone, Copy, PartialEq, Eq, Structural)]
pub enum NumberError {
    /// The text is empty.
    Empty,
    /// The text holds something that is not a decimal digit.
    InvalidDigit,
    /// The number is too large.
    Overflow,
}

/// Whether `c` is a decimal digit.
pub open spec fn is_digit(c: char) -> bool {
    '0' <= c <= '9'
}

/// The value of the decimal digit `c`.
pub open spec fn digit_value(c: char) -> nat {
    ((c as u32) - 48) as nat
}

/// The number that the digits `s` write, read from the left. The first
/// character that is no digit, or that takes the number over `max`, decides
/// the error.
pub open spec fn digits_number(s: Seq<char>, max: nat) -> Result<nat, NumberError>
    decreases s.len(),
{
    if s.len() == 0 {
        Ok(0)
    } else {
        match digits_number(s.drop_last(), max) {
            Err(e) => Err(e),
            Ok(v) => if !is_digit(s.last()) {
                Err(NumberError::InvalidDigit)
            } else if v * 10 + digit_value(s.last()) > max {
                Err(NumberError::Overflow)
            } else {
                Ok(v * 10 + digit_value(s.last()))
            },
        }
    }
}

/// The unsigned number that `s` writes: digits, with one `+` before them if
/// wanted, of a value up to `max`.
pub open spec fn unsigned_number(s: Seq<char>, max: nat) -> Result<nat, NumberError> {
    if s.len() == 0 {
        Err(NumberError::Empty)
    } else if s[0] == '+' {
        if s.len() == 1 {
            Err(NumberError::InvalidDigit)
        } else {
            digits_number(s.drop_first(), max)
        }
    } else {
        digits_number(s, max)
    }
}

/// Digits are read from the left: what is wrong with the first of them is what is
/// wrong with all.
pub proof fn lemma_digits_error(s: Seq<char>, n: int, max: nat)
    requires
        0 <= n <= s.len(),
        digits_number(s.take(n), max) is Err,
    ensures
        digits_number(s, max) == digits_number(s.take(n), max),
    decreases s.len() - n,
{
    if n < s.len() {
        assert(s.take(n + 1).drop_last() =~= s.take(n));
        lemma_digits_error(s, n + 1, max);
    } else {
        assert(s.take(n) =~= s);
    }
}

/// The value of `c` as a decimal digit.
fn digit_of(c: char) -> (res: Option<u64>)
    ensures
        res is Some <==> is_digit(c),
        res matches Some(d) ==> d == digit_value(c),
{
    let n: u32 = c as u32;
    if 48 <= n && n <= 57 {
        Some((n - 48) as u64)
    } else {
        None
    }
}

/// Parses an unsigned decimal number of at most `max`.
pub fn parse_unsigned(s: &str, max: u64) -> (res: Result<u64, NumberError>)
    ensures
        match unsigned_number(s@, max as nat) {
            Ok(v) => res matches Ok(n) && n == v,
            Err(e) => res == Err::<u64, NumberError>(e),
        },
{
    let chars = chars_of(s);
    if chars.len() == 0 {
        return Err(NumberError::Empty);
    }
    let start: usize = if chars[0] == '+' {
        1
    } else {
        0
    };
    if start == 1 && chars.len() == 1 {
        return Err(NumberError::InvalidDigit);
    }
    let ghost digits = s@.skip(start as int);
    assert(s@.skip(0) =~= s@);
    assert(s@.skip(1) =~= s@.drop_first());
    assert(unsigned_number(s@, max as nat) == digits_number(digits, max as nat));
    let mut value: u64 = 0;
    let mut i: usize = start;
    while i < chars.len()
        invariant
            start <= i <= chars.len(),
            chars@ == s@,
            digits == s@.skip(start as int),
            unsigned_number(s@, max as nat) == digits_number(digits, max as nat),
            digits_number(digits.take(i - start), max as nat) == Ok::<nat, NumberError>(value as nat),
            value <= max,
        decreases chars.len() - i,
    {
        let c = chars[i];
        proof {
            assert(digits.take(i - start + 1).drop_last() =~= digits.take(i - start));
            assert(digits.take(i - start + 1).last() == c);
            if digits_number(digits.take(i - start + 1), max as nat) is Err {
                lemma_digits_error(digits, i - start + 1, max as nat);
            }
        }
        let d = match digit_of(c) {
            Some(d) => d,
            None => {
                return Err(NumberError::InvalidDigit);
            },
        };
        if d > max || value > (max - d) / 10 {
            return Err(NumberError::Overflow);
        }
        value = value * 10 + d;
        i += 1;
    }
    assert(digits.take(i - start) =~= digits);
    Ok(value)
}

/// The decimal notation of `n`.
pub open spec fn decimal(n: nat) -> Seq<char>
    decreases n,
{
    if n < 10 {
        seq![(48 + n) as char]
    } else {
        decimal(n / 10).push((48 + n % 10) as char)
    }
}

/// The one-character text of the digit `d`.
fn digit_text(d: u64) -> (res: &'static str)
    requires
        d < 10,
    ensures
        res@ == seq![(48 + d) as char],
{
    proof {
        reveal_strlit("0");
        reveal_strlit("1");
        reveal_strlit("2");
        reveal_strlit("3");
        reveal_strlit("4");
        reveal_strlit("5");
        reveal_strlit("6");
        reveal_strlit("7");
        reveal_strlit("8");
        reveal_strlit("9");
    }
    match d {
        0 => "0",
        1 => "1",
        2 => "2",
        3 => "3",
        4 => "4",
        5 => "5",
        6 => "6",
        7 => "7",
        8 => "8",
        _ => "9",
    }
}

/// Writes `n` in decimal notation.
pub fn decimal_text(n: u64) -> (res: String)
    ensures
        res@ == decimal(n as nat),
    decreases n,
{
    if n < 10 {
        digit_text(n).to_owned()
    } else {
        let mut out = decimal_text(n / 10);
        out.append(digit_text(n % 10));
        assert(out@ =~= decimal((n / 10) as nat).push((48 + n % 10) as char));
        out
    }
}

/// The decimal notation of a number consists of digits, at least one.
pub proof fn lemma_decimal_digits(n: nat)
    ensures
        decimal(n).len() > 0,
        forall|i: int| 0 <= i < decimal(n).len() ==> is_digit(#[trigger] decimal(n)[i]),
    decreases n,
{
    if n >= 10 {
        lemma_decimal_digits(n / 10);
    }
}

/// Reading the decimal notation of a number gives the number back.
pub proof fn lemma_decimal_read_back(n: nat, max: nat)
    requires
        n <= max,
    ensures
        digits_number(decimal(n), max) == Ok::<nat, NumberError>(n),
        unsigned_number(decimal(n), max) == Ok::<nat, NumberError>(n),
    decreases n,
{
    lemma_decimal_digits(n);
    if n < 10 {
        assert(decimal(n).drop_last() =~= Seq::<char>::empty());
        assert(digits_number(Seq::<char>::empty(), max) == Ok::<nat, NumberError>(0));
        assert(digit_value(decimal(n).last()) == n);
    } else {
        lemma_decimal_read_back(n / 10, max);
        assert(digit_value(decimal(n).last()) == n % 10);
        assert(decimal(n).drop_last() =~= decimal(n / 10));
    }
}

/// A zero before some digits changes nothing.
pub proof fn lemma_leading_zero(s: Seq<char>, max: nat)
    ensures
        digits_number(seq!['0'] + s, max) == digits_number(s, max),
    decreases s.len(),
{
    let longer = seq!['0'] + s;
    if s.len() == 0 {
        assert(longer.drop_last() =~= s);
        assert(digit_value('0') == 0);
    } else {
        lemma_leading_zero(s.drop_last(), max);
        assert(longer.drop_last() =~= seq!['0'] + s.drop_last());
        assert(longer.last() == s.last());
    }
}

/// A `+` before a number changes nothing, but there must be something behind it
/// and not another.
pub proof fn lemma_plus(s: Seq<char>, max: nat)
    ensures
        s.len() > 0 && s[0] != '+' ==> unsigned_number(seq!['+'] + s, max) == unsigned_number(s, max),
        s.len() == 0 ==> unsigned_number(seq!['+'] + s, max) == Err::<nat, NumberError>(
            NumberError::InvalidDigit,
        ),
        s.len() > 0 && s[0] == '+' ==> unsigned_number(seq!['+'] + s, max) == Err::<
            nat,
            NumberError,
        >(NumberError::InvalidDigit),
{
    let longer = seq!['+'] + s;
    assert(longer.drop_first() =~= s);
    if s.len() > 0 && s[0] == '+' {
        assert(s.take(1).drop_last() =~= Seq::<char>::empty());
        assert(digits_number(Seq::<char>::empty(), max) == Ok::<nat, NumberError>(0));
        assert(digits_number(s.take(1), max) == Err::<nat, NumberError>(NumberError::InvalidDigit));
        lemma_digits_error(s, 1, max);
    }
}

/// A number is at most the largest that is allowed.
pub proof fn lemma_number_bound(s: Seq<char>, max: nat)
    ensures
        unsigned_number(s, max) matches Ok(n) ==> n <= max,
        s.len() == 0 <==> unsigned_number(s, max) == Err::<nat, NumberError>(NumberError::Empty),
{
    lemma_digits_bound(s, max);
    lemma_digits_bound(s.drop_first(), max);
}

proof fn lemma_digits_bound(s: Seq<char>, max: nat)
    ensures
        digits_number(s, max) matches Ok(n) ==> n <= max,
        digits_number(s, max) != Err::<nat, NumberError>(NumberError::Empty),
    decreases s.len(),
{
    if s.len() > 0 {
        lemma_digits_bound(s.drop_last(), max);
    }
}

/// A text with a character that is no digit, but for a `+` at its front, is no
/// number. It is refused for that character where the digits before it are a
/// number.
pub proof fn lemma_not_digits(s: Seq<char>, max: nat, i: int)
    requires
        0 <= i < s.len(),
        !is_digit(s[i]),
        i > 0 || s[0] != '+',
    ensures
        unsigned_number(s, max) is Err,
        i > 0 && unsigned_number(s.take(i), max) is Ok ==> unsigned_number(s, max) == Err::<
            nat,
            NumberError,
        >(NumberError::InvalidDigit),
        i == 0 ==> unsigned_number(s, max) == Err::<nat, NumberError>(NumberError::InvalidDigit),
{
    if s[0] == '+' {
        let t = s.drop_first();
        assert(t[i - 1] == s[i]);
        assert(s.take(i).drop_first() =~= t.take(i - 1));
        lemma_digits_only(t, max, i - 1);
    } else {
        lemma_digits_only(s, max, i);
        assert(s.take(0) =~= Seq::<char>::empty());
    }
}

proof fn lemma_digits_only(s: Seq<char>, max: nat, i: int)
    requires
        0 <= i < s.len(),
        !is_digit(s[i]),
    ensures
        digits_number(s, max) is Err,
        digits_number(s.take(i), max) is Ok ==> digits_number(s, max) == Err::<nat, NumberError>(
            NumberError::InvalidDigit,
        ),
{
    let first = s.take(i + 1);
    assert(first.drop_last() =~= s.take(i));
    assert(first.last() == s[i]);
    lemma_digits_error(s, i + 1, max);
}

/// The decimal notation of a number that is larger than allowed is refused as too
/// large.
pub proof fn lemma_too_large(n: nat, max: nat)
    requires
        n > max,
    ensures
        unsigned_number(decimal(n), max) == Err::<nat, NumberError>(NumberError::Overflow),
{
    lemma_decimal_digits(n);
    lemma_too_large_digits(n, max);
}

proof fn lemma_too_large_digits(n: nat, max: nat)
    requires
        n > max,
    ensures
        digits_number(decimal(n), max) == Err::<nat, NumberError>(NumberError::Overflow),
    decreases n,
{
    lemma_decimal_digits(n);
    if n < 10 {
        assert(decimal(n).drop_last() =~= Seq::<char>::empty());
        assert(digits_number(Seq::<char>::empty(), max) == Ok::<nat, NumberError>(0));
        assert(digit_value(decimal(n).last()) == n);
    } else {
        assert(decimal(n).drop_last() =~= decimal(n / 10));
        assert(digit_value(decimal(n).last()) == n % 10);
        if n / 10 > max {
            lemma_too_large_digits(n / 10, max);
        } else {
            lemma_decimal_read_back(n / 10, max);
        }
    }
}

/// No two numbers have the same decimal notation, and the notation begins with a
/// zero for zero alone.
pub proof fn lemma_decimal_distinct(m: nat, n: nat)
    ensures
        decimal(m) == decimal(n) ==> m == n,
        decimal(n)[0] == '0' <==> n == 0,
{
    let max = if m < n {
        n
    } else {
        m
    };
    lemma_decimal_read_back(m, max);
    lemma_decimal_read_back(n, max);
    lemma_decimal_first(n);
}

proof fn lemma_decimal_first(n: nat)
    ensures
        decimal(n).len() > 0,
        decimal(n)[0] == '0' <==> n == 0,
    decreases n,
{
    if n >= 10 {
        lemma_decimal_first(n / 10);
    }
}

/// A digit more makes of a number its tenfold and the digit.
pub proof fn lemma_digit_more(n: nat, d: nat)
    requires
        n > 0,
        d < 10,
    ensures
        decimal(10 * n + d) == decimal(n) + decimal(d),
{
    assert((10 * n + d) / 10 == n && (10 * n + d) % 10 == d);
    assert(decimal(10 * n + d) =~= decimal(n) + decimal(d));
}

/// The digits are the ten characters that write the numbers below ten, and each
/// has the value of the number that it writes.
pub proof fn lemma_digits(c: char)
    ensures
        is_digit(c) <==> exists|d: nat| d < 10 && #[trigger] decimal(d) == seq![c],
        forall|d: nat| d < 10 && #[trigger] decimal(d) == seq![c] ==> digit_value(c) == d,
        decimal(0) == seq!['0'],
        decimal(9) == seq!['9'],
{
    assert forall|d: nat| d < 10 && #[trigger] decimal(d) == seq![c] implies is_digit(c)
        && digit_value(c) == d by {
        assert(seq![c][0] == decimal(d)[0]);
    }
    if is_digit(c) {
        let d = (c as u32 - 48) as nat;
        assert(decimal(d) =~= seq![c]);
    }
}

} // verus!
