//! Numbers in decimal notation.

use vstd::prelude::*;

use crate::text::to_chars;

verus! {

/// The digit for a value below ten.
pub open spec fn digit_char(d: nat) -> char {
    (48 + d) as char
}

/// Whether a character is an ASCII digit.
pub open spec fn is_digit(c: char) -> bool {
    '0' <= c <= '9'
}

/// The value of an ASCII digit.
pub open spec fn digit_value(c: char) -> nat {
    (c as int - 48) as nat
}

/// `n` in decimal notation.
pub open spec fn decimal(n: nat) -> Seq<char>
    decreases n,
{
    if n < 10 {
        seq![digit_char(n)]
    } else {
        decimal(n / 10).push(digit_char(n % 10))
    }
}

/// The number that a sequence of digits stands for.
pub open spec fn digits_value(s: Seq<char>) -> nat
    decreases s.len(),
{
    if s.len() == 0 {
        0
    } else {
        10 * digits_value(s.drop_last()) + digit_value(s.last())
    }
}

/// Whether every character of `s` is an ASCII digit.
pub open spec fn all_digits(s: Seq<char>) -> bool {
    forall|i: int| 0 <= i < s.len() ==> is_digit(#[trigger] s[i])
}

/// A text without one leading plus sign.
pub open spec fn strip_plus(s: Seq<char>) -> Seq<char> {
    if s.len() > 0 && s[0] == '+' {
        s.drop_first()
    } else {
        s
    }
}

/// The number that a text stands for as a whole: digits, at least one, after at most one
/// plus sign, with a value of at most `max`.
pub open spec fn parse_number(s: Seq<char>, max: nat) -> Option<nat> {
    let digits = strip_plus(s);
    if digits.len() > 0 && all_digits(digits) && digits_value(digits) <= max {
        Some(digits_value(digits))
    } else {
        None
    }
}

/// Decimal notation is one or more digits that stand for the number.
pub proof fn lemma_decimal(n: nat)
    ensures
        decimal(n).len() > 0,
        all_digits(decimal(n)),
        digits_value(decimal(n)) == n,
    decreases n,
{
    if n < 10 {
        let s = decimal(n);
        assert(s.drop_last() =~= Seq::<char>::empty());
        assert(digits_value(s.drop_last()) == 0);
        assert(digit_value(digit_char(n)) == n);
    } else {
        lemma_decimal(n / 10);
        let s = decimal(n);
        assert(s.drop_last() =~= decimal(n / 10));
        assert(digit_value(digit_char(n % 10)) == n % 10);
        assert(is_digit(digit_char(n % 10)));
    }
}

/// Reading a number back from its decimal notation gives the number.
pub proof fn law_parse_reads_decimal(n: nat, max: nat)
    requires
        n <= max,
    ensures
        parse_number(decimal(n), max) == Some(n),
{
    lemma_decimal(n);
    assert(is_digit(decimal(n)[0]));
}

/// Different numbers have different decimal notations.
pub proof fn law_decimal_is_injective(a: nat, b: nat)
    requires
        decimal(a) == decimal(b),
    ensures
        a == b,
{
    lemma_decimal(a);
    lemma_decimal(b);
}

fn digit_to_char(d: usize) -> (c: char)
    requires
        d < 10,
    ensures
        c == digit_char(d as nat),
{
    (48 + d as u8) as char
}

/// A number in decimal notation.
pub fn decimal_text(n: usize) -> (text: String)
    ensures
        text@ == decimal(n as nat),
    decreases n,
{
    if n < 10 {
        let mut s = String::new();
        s.push(digit_to_char(n));
        assert(s@ =~= seq![digit_char(n as nat)]);
        s
    } else {
        let mut s = decimal_text(n / 10);
        s.push(digit_to_char(n % 10));
        s
    }
}

/// More digits stand for a number at least as large.
proof fn lemma_digits_monotone(s: Seq<char>, n: int)
    requires
        0 <= n <= s.len(),
    ensures
        digits_value(s.take(n)) <= digits_value(s),
    decreases s.len() - n,
{
    if n < s.len() {
        lemma_digits_monotone(s.drop_last(), n);
        assert(s.drop_last().take(n) =~= s.take(n));
    } else {
        assert(s.take(n) =~= s);
    }
}

/// The number that a text stands for, if it is one and fits.
pub fn parse_usize(s: &str) -> (number: Option<usize>)
    ensures
        match number {
            Some(n) => parse_number(s@, usize::MAX as nat) == Some(n as nat),
            None => parse_number(s@, usize::MAX as nat) is None,
        },
{
    let chars = to_chars(s);
    let from: usize = if chars.len() > 0 && chars[0] == '+' {
        1
    } else {
        0
    };
    let ghost digits = strip_plus(s@);
    assert(digits =~= chars@.skip(from as int));
    if from == chars.len() {
        return None;
    }
    let mut value: usize = 0;
    assert(digits.take(0) =~= Seq::<char>::empty());
    for i in from..chars.len()
        invariant
            chars@ == s@,
            digits == strip_plus(s@),
            digits == chars@.skip(from as int),
            from <= chars@.len(),
            forall|j: int| 0 <= j < i - from ==> is_digit(#[trigger] digits[j]),
            value == digits_value(digits.take(i - from)),
    {
        let c = chars[i];
        assert(digits[i - from] == c);
        if !('0' <= c && c <= '9') {
            return None;
        }
        let d: usize = (c as u32 - 48) as usize;
        proof {
            let next = digits.take(i - from + 1);
            assert(next.drop_last() =~= digits.take(i - from));
            assert(next.last() == c);
            assert(digits_value(next) == 10 * value + d);
            lemma_digits_monotone(digits, i - from + 1);
        }
        match value.checked_mul(10) {
            Some(shifted) => match shifted.checked_add(d) {
                Some(sum) => {
                    value = sum;
                },
                None => {
                    return None;
                },
            },
            None => {
                return None;
            },
        }
    }
    assert(digits.take(chars@.len() - from) =~= digits);
    Some(value)
}

/// Decimal notation is positional: the notation of a number is that of its tenth with the
/// last digit behind it, and a number below ten is a digit.
pub proof fn law_decimal_is_positional(n: nat, d: nat)
    requires
        d < 10,
    ensures
        decimal(d) == seq![('0' as int + d) as char],
        n > 0 ==> decimal(10 * n + d) == decimal(n).push(('0' as int + d) as char),
{
    if n > 0 {
        assert((10 * n + d) / 10 == n && (10 * n + d) % 10 == d);
    }
}

/// Reading goes on digit by digit: behind a number another digit makes it ten times as
/// large and adds the digit, unless that is too large.
pub proof fn law_numbers_are_read_by_digits(s: Seq<char>, d: nat, max: nat)
    requires
        d < 10,
    ensures
        parse_number(seq![('0' as int + d) as char], max) == if d <= max {
            Some(d)
        } else {
            None
        },
        parse_number(seq!['+', ('0' as int + d) as char], max) == if d <= max {
            Some(d)
        } else {
            None
        },
        parse_number(s, max) matches Some(n) ==> parse_number(
            s.push(('0' as int + d) as char),
            max,
        ) == if 10 * n + d <= max {
            Some((10 * n + d) as nat)
        } else {
            None
        },
{
    let c = ('0' as int + d) as char;
    let one = seq![c];
    let signed = seq!['+', c];
    assert(one.drop_last() =~= Seq::<char>::empty());
    assert(digits_value(one.drop_last()) == 0);
    assert(strip_plus(one) == one);
    assert(signed.drop_first() =~= one);
    assert(digits_value(one) == d);
    if parse_number(s, max) is Some {
        let digits = strip_plus(s);
        let more = s.push(c);
        assert(strip_plus(more) =~= digits.push(c));
        assert(digits.push(c).drop_last() =~= digits);
        assert forall|i: int| 0 <= i < digits.push(c).len() implies is_digit(
            #[trigger] digits.push(c)[i],
        ) by {
            if i < digits.len() {
                assert(is_digit(digits[i]));
            }
        }
    }
}

/// What is no number: nothing, a sign alone, what holds a character that is neither a digit
/// nor a sign in front, and what goes on from a number that is too large.
pub proof fn law_other_texts_are_no_numbers(s: Seq<char>, c: char, max: nat)
    ensures
        parse_number(Seq::empty(), max) is None,
        parse_number(seq!['+'], max) is None,
        !('0' <= c <= '9') ==> parse_number(s.push(c), max) is None,
        s.len() > 0 && s != seq!['+'] && parse_number(s, max) is None ==> parse_number(
            s.push(c),
            max,
        ) is None,
{
    assert(seq!['+'].drop_first() =~= Seq::<char>::empty());
    let more = s.push(c);
    let digits = strip_plus(s);
    if s.len() > 0 {
        assert(strip_plus(more) =~= digits.push(c));
        assert(digits.push(c).last() == c);
        assert(digits.push(c).drop_last() =~= digits);
        if s != seq!['+'] && parse_number(s, max) is None && parse_number(more, max) is Some {
            assert(digits.len() > 0) by {
                if digits.len() == 0 {
                    assert(s =~= seq!['+']);
                }
            }
            assert forall|i: int| 0 <= i < digits.len() implies is_digit(#[trigger] digits[i]) by {
                assert(is_digit(digits.push(c)[i]));
            }
        }
        if parse_number(more, max) is Some {
            assert(is_digit(digits.push(c)[digits.len() as int]));
        }
    } else {
        assert(more =~= seq![c]);
        if c == '+' {
            assert(strip_plus(more) =~= Seq::<char>::empty());
        } else {
            assert(strip_plus(more)[0] == c);
        }
    }
}

} // verus!
