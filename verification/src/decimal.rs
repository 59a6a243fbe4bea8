//! Decimal text: what `str::parse::<u128>` accepts and the value it gives, and
//! the decimal rendering of unsigned integers.

use vstd::prelude::*;

verus! {

/// An ASCII decimal digit.
pub open spec fn is_digit(c: char) -> bool {
    '0' <= c && c <= '9'
}

/// The value of an ASCII decimal digit.
pub open spec fn digit_value(c: char) -> int {
    (c as int) - ('0' as int)
}

/// The value of a sequence of decimal digits, most significant first.
pub open spec fn digits_value(s: Seq<char>) -> int
    decreases s.len(),
{
    if s.len() == 0 {
        0
    } else {
        digits_value(s.drop_last()) * 10 + digit_value(s.last())
    }
}

/// The digits part of an unsigned number: the text without one leading `+`.
pub open spec fn unsigned_digits(s: Seq<char>) -> Seq<char> {
    if s.len() > 0 && s[0] == '+' {
        s.drop_first()
    } else {
        s
    }
}

/// The text is an unsigned decimal number (an optional `+`, then at least one
/// digit and nothing else) whose value fits in `bound`.
pub open spec fn is_decimal_within(s: Seq<char>, bound: int) -> bool {
    let d = unsigned_digits(s);
    &&& d.len() > 0
    &&& forall|i: int| 0 <= i < d.len() ==> is_digit(#[trigger] d[i])
    &&& digits_value(d) <= bound
}

/// What `str::parse::<u128>` returns on the text: its value when it is an
/// unsigned decimal number that fits in a `u128`, else nothing.
pub open spec fn spec_parse_u128(s: Seq<char>) -> Option<u128> {
    if is_decimal_within(s, u128::MAX as int) {
        Some(digits_value(unsigned_digits(s)) as u128)
    } else {
        None
    }
}

proof fn lemma_digits_value_nonneg(s: Seq<char>)
    requires
        forall|i: int| 0 <= i < s.len() ==> is_digit(#[trigger] s[i]),
    ensures
        digits_value(s) >= 0,
    decreases s.len(),
{
    if s.len() > 0 {
        lemma_digits_value_nonneg(s.drop_last());
    }
}

/// A longer prefix of a digit sequence never has a smaller value.
proof fn lemma_digits_value_prefix_monotone(s: Seq<char>, i: int, j: int)
    requires
        0 <= i <= j <= s.len(),
        forall|k: int| 0 <= k < s.len() ==> is_digit(#[trigger] s[k]),
    ensures
        digits_value(s.take(i)) <= digits_value(s.take(j)),
    decreases j - i,
{
    if i < j {
        lemma_digits_value_prefix_monotone(s, i, j - 1);
        let t = s.take(j);
        assert(t.drop_last() =~= s.take(j - 1));
        assert forall|k: int| 0 <= k < s.take(j - 1).len() implies is_digit(
            #[trigger] s.take(j - 1)[k],
        ) by {
            assert(s.take(j - 1)[k] == s[k]);
        }
        lemma_digits_value_nonneg(s.take(j - 1));
        assert(t.last() == s[j - 1]);
    }
}

/// Parses an unsigned decimal number as `str::parse::<u128>` does: an optional
/// `+` followed by one or more digits; `None` on anything else or on overflow.
pub fn parse_u128(s: &str) -> (res: Option<u128>)
    ensures
        res == spec_parse_u128(s@),
{
    let n = s.unicode_len();
    let ghost text = s@;
    if n == 0 {
        return None;
    }
    let mut start: usize = 0;
    if s.get_char(0) == '+' {
        start = 1;
    }
    let ghost d = unsigned_digits(text);
    assert(d =~= text.skip(start as int));
    if start == n {
        return None;
    }
    let mut value: u128 = 0;
    let mut i: usize = start;
    while i < n
        invariant
            text == s@,
            n == text.len(),
            start <= i <= n,
            start < n,
            d == text.skip(start as int),
            d == unsigned_digits(text),
            forall|k: int| 0 <= k < i - start ==> is_digit(#[trigger] d[k]),
            value as int == digits_value(d.take(i - start)),
        decreases n - i,
    {
        let c = s.get_char(i);
        assert(c == d[i - start]);
        if c < '0' || c > '9' {
            assert(!is_digit(d[i - start]));
            return None;
        }
        let digit: u128 = ((c as u32) - ('0' as u32)) as u128;
        let ghost prefix = d.take(i - start + 1);
        assert(prefix.drop_last() =~= d.take(i - start));
        assert(prefix.last() == c);
        if value > (u128::MAX - digit) / 10 {
            proof {
                assert(digits_value(prefix) > u128::MAX) by (nonlinear_arith)
                    requires
                        digits_value(prefix) == value * 10 + digit,
                        value > (u128::MAX - digit) / 10,
                        0 <= digit <= 9,
                ;
                assert(is_digit(c));
                if forall|k: int| 0 <= k < d.len() ==> is_digit(#[trigger] d[k]) {
                    lemma_digits_value_prefix_monotone(d, i - start + 1, d.len() as int);
                    assert(d.take(d.len() as int) =~= d);
                }
            }
            return None;
        }
        proof {
            assert(value * 10 + digit <= u128::MAX) by (nonlinear_arith)
                requires
                    value <= (u128::MAX - digit) / 10,
                    0 <= digit <= 9,
            ;
        }
        value = value * 10 + digit;
        i = i + 1;
    }
    assert(d.take(n - start) =~= d);
    Some(value)
}

/// The character of a decimal digit.
pub open spec fn digit_char(d: int) -> char {
    (('0' as int) + d) as char
}

/// The decimal text of a number, without leading zeros.
pub open spec fn decimal_text(n: nat) -> Seq<char>
    decreases n,
{
    if n < 10 {
        seq![digit_char(n as int)]
    } else {
        decimal_text(n / 10).push(digit_char((n % 10) as int))
    }
}

/// The one-character text of a decimal digit.
fn digit_str(d: u64) -> (s: &'static str)
    requires
        d < 10,
    ensures
        s@ == seq![digit_char(d as int)],
{
    let digits = "0123456789";
    proof {
        reveal_strlit("0123456789");
    }
    let s = digits.substring_char(d as usize, (d + 1) as usize);
    assert(s@ =~= seq![digit_char(d as int)]);
    s
}

/// The decimal text of `n`, as `n.to_string()` writes it.
pub fn decimal_string(n: u64) -> (text: String)
    ensures
        text@ == decimal_text(n as nat),
    decreases n,
{
    if n < 10 {
        String::from_str(digit_str(n))
    } else {
        let mut text = decimal_string(n / 10);
        text.append(digit_str(n % 10));
        text
    }
}

/// Decimal text is made of digits, its first character is a digit, and it
/// stands for the number it was written from.
proof fn lemma_decimal_text_digits(n: nat)
    ensures
        decimal_text(n).len() > 0,
        forall|i: int| 0 <= i < decimal_text(n).len() ==> is_digit(#[trigger] decimal_text(n)[i]),
        digits_value(decimal_text(n)) == n,
    decreases n,
{
    if n >= 10 {
        lemma_decimal_text_digits(n / 10);
        let s = decimal_text(n / 10);
        let d = (n % 10) as int;
        assert(decimal_text(n) == s.push(digit_char(d)));
        assert(s.push(digit_char(d)).drop_last() =~= s);
        assert(digit_value(digit_char(d)) == d);
        assert(s.push(digit_char(d)).last() == digit_char(d));
        assert((n / 10) * 10 + n % 10 == n);
        assert(digits_value(s.push(digit_char(d))) == digits_value(s) * 10 + digit_value(
            digit_char(d),
        ));
    } else {
        let t = seq![digit_char(n as int)];
        assert(decimal_text(n) =~= t);
        assert(t.drop_last() =~= Seq::<char>::empty());
        assert(digit_value(digit_char(n as int)) == n);
        assert(digits_value(t) == digits_value(t.drop_last()) * 10 + digit_value(t.last()));
    }
}

/// Writing a number in decimal and parsing the text gives the number back.
pub proof fn lemma_decimal_text_parses_back(n: u128)
    ensures
        spec_parse_u128(decimal_text(n as nat)) == Some(n),
{
    lemma_decimal_text_digits(n as nat);
    let s = decimal_text(n as nat);
    assert(is_digit(s[0]));
    assert(unsigned_digits(s) == s);
}

} // verus!
