//! Whole numbers written in decimal digits.

use crate::text::collect_chars;
use vstd::prelude::*;

verus! {

/// Whether `c` is one of the digits `0` to `9`.
pub open spec fn is_digit(c: char) -> bool {
    '0' <= c <= '9'
}

/// The value of a digit.
pub open spec fn digit_value(c: char) -> int {
    c as int - '0' as int
}

/// The digit for a value below ten.
pub open spec fn digit_char(d: int) -> char {
    if d == 0 {
        '0'
    } else if d == 1 {
        '1'
    } else if d == 2 {
        '2'
    } else if d == 3 {
        '3'
    } else if d == 4 {
        '4'
    } else if d == 5 {
        '5'
    } else if d == 6 {
        '6'
    } else if d == 7 {
        '7'
    } else if d == 8 {
        '8'
    } else {
        '9'
    }
}

/// Whether `s` holds digits only.
pub open spec fn all_digits(s: Seq<char>) -> bool {
    forall|i: int| 0 <= i < s.len() ==> is_digit(#[trigger] s[i])
}

/// The number that a row of digits spells.
pub open spec fn number(digits: Seq<char>) -> int
    decreases digits.len(),
{
    if digits.len() == 0 {
        0
    } else {
        number(digits.drop_last()) * 10 + digit_value(digits.last())
    }
}

/// The number that `s` spells as an `i64`: an optional `+` or `-`, then at
/// least one digit and nothing but digits, with a value that an `i64` holds.
pub open spec fn parse_int(s: Seq<char>) -> Option<int> {
    let signed = s.len() > 0 && (s[0] == '-' || s[0] == '+');
    let digits = if signed {
        s.drop_first()
    } else {
        s
    };
    let value = if s.len() > 0 && s[0] == '-' {
        -number(digits)
    } else {
        number(digits)
    };
    if digits.len() > 0 && all_digits(digits) && i64::MIN <= value <= i64::MAX {
        Some(value)
    } else {
        None
    }
}

/// The digits of a natural number, without leading zeros.
pub open spec fn digits_of(n: nat) -> Seq<char>
    decreases n,
{
    if n < 10 {
        seq![digit_char(n as int)]
    } else {
        digits_of(n / 10).push(digit_char((n % 10) as int))
    }
}

/// A whole number written in decimal, with `-` in front if it is negative.
pub open spec fn decimal(n: int) -> Seq<char> {
    if n < 0 {
        seq!['-'] + digits_of((-n) as nat)
    } else {
        digits_of(n as nat)
    }
}

/// The value of a digit character, or `None` for any other character.
fn digit_of(c: char) -> (d: Option<u8>)
    ensures
        is_digit(c) <==> d is Some,
        d matches Some(v) ==> v == digit_value(c) && v < 10,
{
    let n: u32 = c as u32;
    if 48 <= n && n <= 57 {
        Some((n - 48) as u8)
    } else {
        None
    }
}

/// The digit for a value below ten.
fn char_of_digit(d: u8) -> (c: char)
    requires
        d < 10,
    ensures
        c == digit_char(d as int),
        is_digit(c),
        digit_value(c) == d,
{
    match d {
        0 => '0',
        1 => '1',
        2 => '2',
        3 => '3',
        4 => '4',
        5 => '5',
        6 => '6',
        7 => '7',
        8 => '8',
        _ => '9',
    }
}

/// A row of digits spells no negative number, and a longer row of which it is
/// the beginning spells no smaller one.
pub proof fn lemma_number_grows(digits: Seq<char>, n: int)
    requires
        all_digits(digits),
        0 <= n <= digits.len(),
    ensures
        0 <= number(digits.take(n)) <= number(digits),
    decreases digits.len() - n,
{
    lemma_number_bounds(digits.take(n));
    if n < digits.len() {
        lemma_number_grows(digits, n + 1);
        let longer = digits.take(n + 1);
        assert(longer.drop_last() =~= digits.take(n));
        assert(longer.last() == digits[n]);
    } else {
        assert(digits.take(n) =~= digits);
    }
}

/// A row of digits spells no negative number.
pub proof fn lemma_number_bounds(digits: Seq<char>)
    requires
        all_digits(digits),
    ensures
        0 <= number(digits),
    decreases digits.len(),
{
    if digits.len() > 0 {
        let shorter = digits.drop_last();
        assert forall|i: int| 0 <= i < shorter.len() implies is_digit(#[trigger] shorter[i]) by {
            assert(shorter[i] == digits[i]);
        }
        lemma_number_bounds(shorter);
    }
}

/// Reads an `i64` from its decimal text.
pub fn parse_i64(text: &str) -> (r: Option<i64>)
    ensures
        match r {
            Some(v) => parse_int(text@) == Some(v as int),
            None => parse_int(text@) is None,
        },
{
    let chars = collect_chars(text);
    let n = chars.len();
    if n == 0 {
        return None;
    }
    let negative = chars[0] == '-';
    let start: usize = if chars[0] == '-' || chars[0] == '+' {
        1
    } else {
        0
    };
    if start == n {
        return None;
    }
    let ghost digits = chars@.skip(start as int);
    assert(start == 1 ==> digits =~= chars@.drop_first());
    assert(start == 0 ==> digits =~= chars@);
    let limit: u128 = if negative {
        9223372036854775808
    } else {
        9223372036854775807
    };
    let mut value: u128 = 0;
    let mut i: usize = start;
    assert(digits.take(0) =~= Seq::<char>::empty());
    while i < n
        invariant
            start <= i <= n,
            0 < n == chars.len(),
            chars@ == text@,
            negative == (chars@[0] == '-'),
            start == 1 <==> (chars@[0] == '-' || chars@[0] == '+'),
            start == 1 ==> digits == chars@.drop_first(),
            start == 0 ==> digits == chars@,
            start <= 1,
            limit == if negative { 9223372036854775808u128 } else { 9223372036854775807u128 },
            digits == chars@.skip(start as int),
            all_digits(digits.take(i - start)),
            value == number(digits.take(i - start)),
            value <= limit,
            limit <= 9223372036854775808,
        decreases n - i,
    {
        let ghost before = digits.take(i - start);
        let ghost next = digits.take(i - start + 1);
        assert(next.drop_last() =~= before);
        assert(next.last() == chars@[i as int]);
        match digit_of(chars[i]) {
            None => {
                assert(!all_digits(digits)) by {
                    assert(digits[i - start] == chars@[i as int]);
                }
                return None;
            },
            Some(d) => {
                assert(all_digits(next)) by {
                    assert forall|k: int| 0 <= k < next.len() implies is_digit(
                        #[trigger] next[k],
                    ) by {
                        if k < before.len() {
                            assert(next[k] == before[k]);
                        }
                    }
                }
                let bigger: u128 = value * 10 + d as u128;
                if bigger > limit {
                    proof {
                        if all_digits(digits) {
                            lemma_number_grows(digits, i - start + 1);
                        }
                    }
                    return None;
                }
                value = bigger;
            },
        }
        i += 1;
    }
    assert(digits.take(n - start) =~= digits);
    if negative {
        if value == 9223372036854775808 {
            Some(i64::MIN)
        } else {
            Some(-(value as i64))
        }
    } else {
        Some(value as i64)
    }
}

/// Writes an `i64` in decimal.
pub fn int_text(n: i64) -> (out: String)
    ensures
        out@ == decimal(n as int),
{
    let negative = n < 0;
    let magnitude: u64 = if negative {
        if n == i64::MIN {
            9223372036854775808
        } else {
            (-n) as u64
        }
    } else {
        n as u64
    };
    let mut m: u64 = magnitude;
    let mut low: Vec<char> = Vec::new();
    let ghost mut suffix: Seq<char> = Seq::empty();
    while m >= 10
        invariant
            digits_of(magnitude as nat) == digits_of(m as nat) + suffix,
            suffix.len() == low.len(),
            forall|j: int| 0 <= j < low.len() ==> #[trigger] low@[j] == suffix[low.len() - 1 - j],
        decreases m,
    {
        let c = char_of_digit((m % 10) as u8);
        low.push(c);
        proof {
            assert(digits_of(m as nat) == digits_of((m / 10) as nat).push(c));
            let longer = seq![c] + suffix;
            assert(digits_of((m / 10) as nat).push(c) + suffix =~= digits_of((m / 10) as nat)
                + longer);
            assert forall|j: int| 0 <= j < low.len() implies #[trigger] low@[j] == longer[low.len()
                - 1 - j] by {
                if j < low.len() - 1 {
                    assert(longer[low.len() - 1 - j] == suffix[low.len() - 2 - j]);
                }
            }
            suffix = longer;
        }
        m = m / 10;
    }
    let mut out = String::new();
    if negative {
        out.push('-');
    }
    out.push(char_of_digit(m as u8));
    let ghost head = out@;
    assert(head + suffix =~= decimal(n as int));
    let mut k: usize = low.len();
    while k > 0
        invariant
            k <= low.len(),
            suffix.len() == low.len(),
            forall|j: int| 0 <= j < low.len() ==> #[trigger] low@[j] == suffix[low.len() - 1 - j],
            out@ == head + suffix.take(low.len() - k),
        decreases k,
    {
        k -= 1;
        out.push(low[k]);
        assert(suffix.take(low.len() - k) =~= suffix.take(low.len() - k - 1).push(
            suffix[low.len() - k - 1],
        ));
        assert(low@[k as int] == suffix[low.len() - 1 - k]);
    }
    assert(suffix.take(low.len() as int) =~= suffix);
    out
}

/// The digits of a number are digits, start with no sign, and spell it.
pub proof fn lemma_digits_of(n: nat)
    ensures
        digits_of(n).len() > 0,
        all_digits(digits_of(n)),
        number(digits_of(n)) == n,
    decreases n,
{
    let d = digits_of(n);
    if n < 10 {
        assert(d.drop_last() =~= Seq::<char>::empty());
        assert(number(d.drop_last()) == 0);
    } else {
        lemma_digits_of(n / 10);
        let shorter = digits_of(n / 10);
        assert(d.drop_last() =~= shorter);
        assert forall|i: int| 0 <= i < d.len() implies is_digit(#[trigger] d[i]) by {
            if i < shorter.len() {
                assert(d[i] == shorter[i]);
            }
        }
    }
}

/// Reading what was written gives the number back: for every `i64`, its
/// decimal text is read as that number.
pub proof fn lemma_decimal_round_trip(n: int)
    requires
        i64::MIN <= n <= i64::MAX,
    ensures
        parse_int(decimal(n)) == Some(n),
{
    let text = decimal(n);
    if n < 0 {
        lemma_digits_of((-n) as nat);
        assert(text.drop_first() =~= digits_of((-n) as nat));
    } else {
        lemma_digits_of(n as nat);
        assert(is_digit(text[0]));
    }
}

} // verus!
