//! Decimal numbers and the characters of a name.

use vstd::prelude::*;
use vstd::string::StringExecFns;

verus! {

/// The character of a decimal digit.
pub open spec fn digit_char(d: nat) -> char {
    (48 + d) as char
}

/// A number in decimal, without leading zeros.
pub open spec fn decimal(n: nat) -> Seq<char>
    decreases n,
{
    if n < 10 {
        seq![digit_char(n)]
    } else {
        decimal(n / 10).push(digit_char(n % 10))
    }
}

/// A decimal digit.
pub open spec fn is_digit(c: char) -> bool {
    '0' <= c <= '9'
}

/// Nothing but decimal digits.
pub open spec fn all_digits(s: Seq<char>) -> bool {
    forall|i: int| 0 <= i < s.len() ==> is_digit(#[trigger] s[i])
}

/// The number that a sequence of digits stands for.
pub open spec fn digits_value(s: Seq<char>) -> nat
    decreases s.len(),
{
    if s.len() == 0 {
        0
    } else {
        digits_value(s.drop_last()) * 10 + (s.last() as nat - 48) as nat
    }
}

/// The digits of a number as it may be written: a plus sign may stand in front.
pub open spec fn unsigned_digits(s: Seq<char>) -> Seq<char> {
    if s.len() > 0 && s[0] == '+' {
        s.skip(1)
    } else {
        s
    }
}

/// The 64-bit number that a text stands for: an optional plus sign, then digits, at
/// least one, leading zeros allowed. `None` for any other text and for a number that
/// does not fit.
pub open spec fn parsed(s: Seq<char>) -> Option<u64> {
    let digits = unsigned_digits(s);
    if digits.len() > 0 && all_digits(digits) && digits_value(digits) <= u64::MAX {
        Some(digits_value(digits) as u64)
    } else {
        None
    }
}

/// Every character of a decimal is a digit, it has at least one, and it stands for
/// the number it was made from.
pub proof fn decimal_stands_for_itself(n: nat)
    ensures
        decimal(n).len() > 0,
        all_digits(decimal(n)),
        digits_value(decimal(n)) == n,
    decreases n,
{
    reveal_with_fuel(digits_value, 2);
    if n >= 10 {
        decimal_stands_for_itself(n / 10);
        assert(decimal(n).drop_last() =~= decimal(n / 10));
    } else {
        assert(decimal(n).drop_last() =~= Seq::empty());
    }
}

/// Reading back a number that was written in decimal gives the number.
pub proof fn parsed_decimal(n: u64)
    ensures
        parsed(decimal(n as nat)) == Some(n),
{
    decimal_stands_for_itself(n as nat);
    assert(is_digit(decimal(n as nat)[0]));
}

/// A leading zero and a leading plus sign change nothing about a number.
pub proof fn leading_zeros_do_not_count(s: Seq<char>)
    requires
        s.len() > 0,
        forall|i: int| 0 <= i < s.len() ==> '0' <= #[trigger] s[i] <= '9',
    ensures
        parsed(seq!['0'] + s) == parsed(s),
        parsed(seq!['+'] + s) == parsed(s),
{
    let zero = seq!['0'];
    assert(all_digits(s));
    assert forall|i: int| 0 <= i < (zero + s).len() implies is_digit(#[trigger] (zero + s)[i]) by {
        if i > 0 {
            assert(is_digit(s[i - 1]));
        }
    }
    assert(is_digit(s[0]));
    assert((zero + s)[0] == '0');
    zero_in_front(s);
    assert((seq!['+'] + s)[0] == '+');
    assert((seq!['+'] + s).skip(1) =~= s);
}

/// A zero in front of digits stands for nothing.
proof fn zero_in_front(s: Seq<char>)
    ensures
        digits_value(seq!['0'] + s) == digits_value(s),
    decreases s.len(),
{
    let zero = seq!['0'];
    if s.len() == 0 {
        assert(zero + s =~= zero);
        assert(zero.drop_last() =~= Seq::empty());
        reveal_with_fuel(digits_value, 2);
    } else {
        zero_in_front(s.drop_last());
        assert((zero + s).drop_last() =~= zero + s.drop_last());
        assert((zero + s).last() == s.last());
    }
}

/// One more digit behind a number is ten times the number and the digit.
pub proof fn one_more_digit(s: Seq<char>, n: u64, digit: char)
    requires
        parsed(s) == Some(n),
        '0' <= digit <= '9',
    ensures
        parsed(s.push(digit)) == if n * 10 + (digit as int - 48) <= u64::MAX {
            Some((n * 10 + (digit as int - 48)) as u64)
        } else {
            None
        },
{
    let digits = unsigned_digits(s);
    let more = unsigned_digits(s.push(digit));
    assert(s.push(digit)[0] == s[0]);
    assert(more =~= digits.push(digit));
    assert(digits.push(digit).drop_last() =~= digits);
    assert forall|i: int| 0 <= i < more.len() implies is_digit(#[trigger] more[i]) by {
        if i < digits.len() {
            assert(is_digit(digits[i]));
        }
    }
}

/// Digits that stand for too large a number do so whatever digit follows.
pub proof fn too_large_stays_too_large(s: Seq<char>, digit: char)
    requires
        s.len() > 0,
        forall|i: int| 0 <= i < s.len() ==> '0' <= #[trigger] s[i] <= '9',
        parsed(s) is None,
        '0' <= digit <= '9',
    ensures
        parsed(s.push(digit)) is None,
{
    assert(all_digits(s));
    assert(is_digit(s[0]));
    assert(s.push(digit)[0] == s[0]);
    assert(s.push(digit).drop_last() =~= s);
}

/// A single digit is its number.
pub proof fn one_digit(digit: char)
    requires
        '0' <= digit <= '9',
    ensures
        parsed(seq![digit]) == Some((digit as int - 48) as u64),
{
    reveal_with_fuel(digits_value, 2);
    let s = seq![digit];
    assert(s.drop_last() =~= Seq::empty());
    assert(s.last() == digit);
}

/// Nothing but digits, behind at most one plus sign, is a number, and there is at least one.
pub proof fn numbers_are_digits(s: Seq<char>)
    requires
        parsed(s) is Some,
    ensures
        s.len() > 0,
        s[0] == '+' ==> s.len() > 1,
        forall|i: int|
            0 <= i < s.len() ==> ('0' <= #[trigger] s[i] <= '9') || (i == 0 && s[i] == '+'),
{
    let digits = unsigned_digits(s);
    assert forall|i: int| 0 <= i < s.len() implies ('0' <= #[trigger] s[i] <= '9') || (i == 0
        && s[i] == '+') by {
        if s[0] == '+' {
            if i > 0 {
                assert(digits[i - 1] == s[i]);
                assert(is_digit(digits[i - 1]));
            }
        } else {
            assert(is_digit(digits[i]));
        }
    }
}

/// A number is written without a leading zero, unless it is zero.
pub proof fn decimals_have_no_leading_zero(n: nat)
    ensures
        decimal(n)[0] == '0' <==> n == 0,
        n == 0 ==> decimal(n) == seq!['0'],
    decreases n,
{
    if n >= 10 {
        decimals_have_no_leading_zero(n / 10);
        decimal_stands_for_itself(n / 10);
        assert(decimal(n)[0] == decimal(n / 10)[0]);
    }
}

/// The characters of a text.
pub(crate) fn chars_of(s: &str) -> (chars: Vec<char>)
    ensures
        chars@ == s@,
{
    let mut chars: Vec<char> = Vec::new();
    for c in it: s.chars()
        invariant
            it.seq() == s@,
            chars@ == s@.take(it.index()),
            it.index() == it.seq().len() ==> chars@ == s@,
    {
        proof {
            let i = it.index();
            assert(s@.take(i + 1) =~= s@.take(i).push(s@[i]));
            assert(i + 1 == s@.len() ==> s@.take(i + 1) =~= s@);
        }
        chars.push(c);
    }
    chars
}

/// A decimal digit as text.
fn digit_text(d: u64) -> (s: &'static str)
    requires
        d < 10,
    ensures
        s@ == seq![digit_char(d as nat)],
{
    proof {
        reveal_strlit("0");
        reveal_strlit("1");
        reveal_strlit("2");
        reveal_strlit("3");
        reveal_strlit("4");
        reveal_strlit("5");
        reveal_strlit("6");
        reveal_strlit("7");
        reveal_strlit("8");
        reveal_strlit("9");
    }
    match d {
        0 => "0",
        1 => "1",
        2 => "2",
        3 => "3",
        4 => "4",
        5 => "5",
        6 => "6",
        7 => "7",
        8 => "8",
        _ => "9",
    }
}

/// Appends a number in decimal.
pub(crate) fn push_decimal(s: &mut String, n: u64)
    ensures
        final(s)@ == old(s)@ + decimal(n as nat),
    decreases n,
{
    if n >= 10 {
        push_decimal(s, n / 10);
    }
    let ghost head = s@;
    s.append(digit_text(n % 10));
    assert(s@ =~= old(s)@ + decimal(n as nat));
}

/// Digits in front of others make the number no smaller.
proof fn digits_value_grows(s: Seq<char>, i: int)
    requires
        0 <= i <= s.len(),
    ensures
        digits_value(s.take(i)) <= digits_value(s),
    decreases s.len() - i,
{
    if i < s.len() {
        digits_value_grows(s, i + 1);
        assert(s.take(i + 1).drop_last() =~= s.take(i));
    } else {
        assert(s.take(i) =~= s);
    }
}

/// The number that the characters from `from` up to `to` stand for.
pub(crate) fn parse_range(chars: &Vec<char>, from: usize, to: usize) -> (n: Option<u64>)
    requires
        from <= to <= chars@.len(),
    ensures
        n == parsed(chars@.subrange(from as int, to as int)),
{
    let ghost text = chars@.subrange(from as int, to as int);
    let start: usize = if from < to && chars[from] == '+' {
        from + 1
    } else {
        from
    };
    let ghost digits = unsigned_digits(text);
    assert(digits =~= chars@.subrange(start as int, to as int));
    if start == to {
        return None;
    }
    let mut value: u64 = 0;
    let mut i: usize = start;
    assert(digits.take(0) =~= Seq::empty());
    while i < to
        invariant
            start <= i <= to <= chars@.len(),
            digits == chars@.subrange(start as int, to as int),
            digits == unsigned_digits(text),
            text == chars@.subrange(from as int, to as int),
            value == digits_value(digits.take(i - start)),
            forall|k: int| 0 <= k < i - start ==> is_digit(#[trigger] digits[k]),
        decreases to - i,
    {
        let c = chars[i];
        assert(c == digits[i - start]);
        proof {
            assert(digits.take(i - start + 1).drop_last() =~= digits.take(i - start));
            digits_value_grows(digits, i - start + 1);
        }
        if c < '0' || c > '9' {
            assert(!is_digit(digits[i - start]));
            return None;
        }
        let d: u64 = c as u64 - 48;
        if value > (u64::MAX - d) / 10 {
            return None;
        }
        value = value * 10 + d;
        i += 1;
    }
    assert(digits.take(i - start) =~= digits);
    Some(value)
}

/// Whether the characters start with a text.
pub(crate) fn starts_with(chars: &Vec<char>, prefix: &str) -> (n: Option<usize>)
    ensures
        match n {
            Some(k) => k == prefix@.len() && k <= chars@.len() && chars@.take(k as int) == prefix@,
            None => !(prefix@.len() <= chars@.len() && chars@.take(prefix@.len() as int)
                == prefix@),
        },
{
    let wanted = chars_of(prefix);
    if chars.len() < wanted.len() {
        return None;
    }
    let mut i: usize = 0;
    while i < wanted.len()
        invariant
            i <= wanted@.len() <= chars@.len(),
            wanted@ == prefix@,
            forall|k: int| 0 <= k < i ==> chars@[k] == #[trigger] prefix@[k],
        decreases wanted@.len() - i,
    {
        if chars[i] != wanted[i] {
            assert(chars@.take(prefix@.len() as int)[i as int] != prefix@[i as int]);
            return None;
        }
        i += 1;
    }
    assert(chars@.take(i as int) =~= prefix@);
    Some(i)
}

/// `needle` stands somewhere in `s`.
pub open spec fn occurs(needle: Seq<char>, s: Seq<char>) -> bool {
    exists|i: int|
        0 <= i && i + needle.len() <= s.len() && #[trigger] s.subrange(i, i + needle.len())
            == needle
}

/// Whether `wanted` stands in `chars` at `at`.
fn stands_at(chars: &Vec<char>, at: usize, wanted: &Vec<char>) -> (found: bool)
    requires
        at + wanted@.len() <= chars@.len(),
    ensures
        found == (chars@.subrange(at as int, at + wanted@.len()) == wanted@),
{
    let ghost here = chars@.subrange(at as int, at + wanted@.len());
    let mut k: usize = 0;
    while k < wanted.len()
        invariant
            k <= wanted@.len(),
            at + wanted@.len() <= chars@.len(),
            here == chars@.subrange(at as int, at + wanted@.len()),
            forall|j: int| 0 <= j < k ==> #[trigger] here[j] == wanted@[j],
        decreases wanted@.len() - k,
    {
        assert(here[k as int] == chars@[at + k]);
        assert(chars.len() == chars@.len());
        if chars[at + k] != wanted[k] {
            return false;
        }
        k += 1;
    }
    assert(here =~= wanted@);
    true
}

/// Whether `needle` stands somewhere in `s`.
pub(crate) fn contains_text(s: &str, needle: &str) -> (found: bool)
    ensures
        found == occurs(needle@, s@),
{
    let chars = chars_of(s);
    let wanted = chars_of(needle);
    if chars.len() < wanted.len() {
        return false;
    }
    let last: usize = chars.len() - wanted.len();
    let mut i: usize = 0;
    while i < last && !stands_at(&chars, i, &wanted)
        invariant
            i <= last,
            last + wanted@.len() == chars@.len(),
            forall|k: int|
                0 <= k < i ==> #[trigger] chars@.subrange(k, k + wanted@.len()) != wanted@,
        decreases last - i,
    {
        i += 1;
    }
    stands_at(&chars, i, &wanted)
}

} // verus!
