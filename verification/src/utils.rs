//! Amounts of money as text. An amount is a signed count of minor currency
//! units (cents); its text is `["-"]<units>.<two-digit cents>`.

use vstd::prelude::*;
use vstd::string::StringExecFns;
use crate::text::chars_of;

verus! {

/// The character that writes the decimal digit `d`, for `0 <= d <= 9`.
pub open spec fn digit(d: int) -> char {
    ('0' as int + d) as char
}

/// Whether `c` is one of the ten decimal digits.
pub open spec fn is_digit(c: char) -> bool {
    '0' <= c <= '9'
}

/// The number that the decimal digit `c` writes.
pub open spec fn digit_value(c: char) -> int {
    c as int - '0' as int
}

/// Whether `s` holds decimal digits only.
pub open spec fn all_digits(s: Seq<char>) -> bool {
    forall|i: int| 0 <= i < s.len() ==> is_digit(#[trigger] s[i])
}

/// The decimal text of `n`: no leading zero, but one digit for zero.
pub open spec fn decimal(n: nat) -> Seq<char>
    decreases n,
{
    if n < 10 {
        seq![digit(n as int)]
    } else {
        decimal(n / 10).push(digit((n % 10) as int))
    }
}

/// The number that a run of decimal digits writes, leading zeros allowed; the
/// empty run writes zero.
pub open spec fn decimal_value(s: Seq<char>) -> nat
    decreases s.len(),
{
    if s.len() == 0 {
        0
    } else {
        (decimal_value(s.drop_last()) * 10 + digit_value(s.last())) as nat
    }
}

/// The text of an amount: a minus sign for a negative amount only, the whole
/// units in decimal, a point, and the cents in exactly two digits.
pub open spec fn formatted_amount(amount: int) -> Seq<char> {
    let magnitude = if amount < 0 { -amount } else { amount };
    let sign = if amount < 0 { seq!['-'] } else { Seq::<char>::empty() };
    sign + decimal((magnitude / 100) as nat) + seq![
        '.',
        digit(magnitude % 100 / 10),
        digit(magnitude % 10),
    ]
}

/// The whole units that a text writes: an optional `+` or `-`, then one or more
/// decimal digits, leading zeros allowed. The units must be zero or more and fit
/// in an `i32`; a text of any other shape, or of any other value, writes none.
/// A negative zero is zero.
pub open spec fn units_of(s: Seq<char>) -> Option<int> {
    let signed = s.len() > 0 && (s[0] == '+' || s[0] == '-');
    let digits = if signed { s.skip(1) } else { s };
    let negative = signed && s[0] == '-';
    if digits.len() == 0 || !all_digits(digits) {
        None
    } else if negative && decimal_value(digits) != 0 {
        None
    } else if decimal_value(digits) > i32::MAX {
        None
    } else {
        Some(decimal_value(digits) as int)
    }
}

/// The cents that the text after the point writes: exactly one decimal digit,
/// which counts tenths, or exactly two. Any other text writes none.
pub open spec fn cents_of(s: Seq<char>) -> Option<int> {
    if s.len() == 1 && is_digit(s[0]) {
        Some(digit_value(s[0]) * 10)
    } else if s.len() == 2 && is_digit(s[0]) && is_digit(s[1]) {
        Some(digit_value(s[0]) * 10 + digit_value(s[1]))
    } else {
        None
    }
}

/// The amount, in minor units, that a text writes: `<units>`, `<units>.<d>` or
/// `<units>.<dd>`, where the amount must fit in an `i32`. Every other text
/// writes none.
pub open spec fn parsed_amount(txt: Seq<char>) -> Option<int> {
    match txt.index_of_first('.') {
        None => match units_of(txt) {
            Some(units) if units * 100 <= i32::MAX => Some(units * 100),
            _ => None,
        },
        Some(point) => match (units_of(txt.take(point)), cents_of(txt.skip(point + 1))) {
            (Some(units), Some(cents)) if units * 100 + cents <= i32::MAX => Some(
                units * 100 + cents,
            ),
            _ => None,
        },
    }
}

/// The one-character text of the decimal digit `d`.
fn digit_text(d: u8) -> (s: &'static str)
    requires
        d < 10,
    ensures
        s@ == seq![digit(d as int)],
{
    proof {
        reveal_strlit("0");
        reveal_strlit("1");
        reveal_strlit("2");
        reveal_strlit("3");
        reveal_strlit("4");
        reveal_strlit("5");
        reveal_strlit("6");
        reveal_strlit("7");
        reveal_strlit("8");
        reveal_strlit("9");
    }
    match d {
        0 => "0",
        1 => "1",
        2 => "2",
        3 => "3",
        4 => "4",
        5 => "5",
        6 => "6",
        7 => "7",
        8 => "8",
        _ => "9",
    }
}

/// Appends the decimal text of `n` to `out`.
fn push_decimal(out: &mut String, n: u32)
    ensures
        final(out)@ == old(out)@ + decimal(n as nat),
    decreases n,
{
    if n >= 10 {
        push_decimal(out, n / 10);
    }
    out.append(digit_text((n % 10) as u8));
}

/// Renders an amount of minor units as `["-"]<units>.<cents>`, the cents in two
/// digits.
pub fn format_amount(amount: i32) -> (text: String)
    ensures
        text@ == formatted_amount(amount as int),
{
    let negative = amount < 0;
    let magnitude: u32 = if negative {
        (-(amount as i64)) as u32
    } else {
        amount as u32
    };
    let mut text = String::new();
    if negative {
        proof {
            reveal_strlit("-");
        }
        text.append("-");
    }
    push_decimal(&mut text, magnitude / 100);
    proof {
        reveal_strlit(".");
    }
    text.append(".");
    text.append(digit_text((magnitude % 100 / 10) as u8));
    text.append(digit_text((magnitude % 10) as u8));
    text
}

/// Whether `c` is a decimal digit.
fn is_digit_char(c: char) -> (r: bool)
    ensures
        r == is_digit(c),
{
    '0' <= c && c <= '9'
}

/// The number that the decimal digit `c` writes.
fn value_of_digit(c: char) -> (d: u32)
    requires
        is_digit(c),
    ensures
        d == digit_value(c),
{
    c as u32 - '0' as u32
}

/// Reads the whole units from the first `end` characters of `chars`.
fn parse_units(chars: &Vec<char>, end: usize) -> (r: Option<u32>)
    requires
        end <= chars.len(),
    ensures
        match r {
            Some(units) => units_of(chars@.take(end as int)) == Some(units as int),
            None => units_of(chars@.take(end as int)) == None::<int>,
        },
{
    let ghost s = chars@.take(end as int);
    let signed = end > 0 && (chars[0] == '+' || chars[0] == '-');
    let negative = signed && chars[0] == '-';
    let start: usize = if signed { 1 } else { 0 };
    let ghost digits = if signed { s.skip(1) } else { s };
    if start == end {
        return None;
    }
    let mut value: u32 = 0;
    let mut too_large = false;
    let mut i: usize = start;
    while i < end
        invariant
            start <= i <= end <= chars.len(),
            s == chars@.take(end as int),
            digits == s.skip(start as int),
            digits == if s.len() > 0 && (s[0] == '+' || s[0] == '-') { s.skip(1) } else { s },
            negative == (s.len() > 0 && s[0] == '-'),
            all_digits(digits.take(i - start)),
            !too_large ==> value == decimal_value(digits.take(i - start)) && value <= i32::MAX,
            too_large ==> decimal_value(digits.take(i - start)) > i32::MAX,
        decreases end - i,
    {
        let c = chars[i];
        assert(c == digits[i - start]);
        if !is_digit_char(c) {
            return None;
        }
        proof {
            // One more digit is read: what the digits so far write, times ten,
            // and the digit.
            let longer = digits.take(i - start + 1);
            assert(longer.drop_last() =~= digits.take(i - start));
            assert forall|j: int| 0 <= j < longer.len() implies is_digit(#[trigger] longer[j]) by {
                if j < i - start {
                    assert(longer[j] == digits.take(i - start)[j]);
                }
            }
        }
        if !too_large {
            let next: u64 = value as u64 * 10 + value_of_digit(c) as u64;
            if next > i32::MAX as u64 {
                too_large = true;
            } else {
                value = next as u32;
            }
        }
        i += 1;
    }
    assert(digits.take(end - start) =~= digits);
    if too_large || (negative && value != 0) {
        None
    } else {
        Some(value)
    }
}

/// Reads an amount of minor units from `<units>`, `<units>.<d>` or
/// `<units>.<dd>`.
///
/// The units are an optional sign and decimal digits, and must not be negative;
/// one digit after the point counts tenths. A text of any other shape gives
/// `None`, and so does an amount too large for an `i32`.
pub fn parse_amount(txt: &str) -> (r: Option<i32>)
    ensures
        match r {
            Some(amount) => parsed_amount(txt@) == Some(amount as int) && amount >= 0,
            None => parsed_amount(txt@) == None::<int>,
        },
{
    let chars = chars_of(txt);
    let n = chars.len();
    let mut point: usize = 0;
    while point < n && chars[point] != '.'
        invariant
            n == chars.len(),
            point <= n,
            forall|j: int| 0 <= j < point ==> chars@[j] != '.',
        decreases n - point,
    {
        point += 1;
    }
    proof {
        // `point` is the place of the first point, or the end of a text without.
        chars@.index_of_first_ensures('.');
        if point == n {
            assert(chars@.take(n as int) =~= chars@);
        }
    }
    let units = match parse_units(&chars, point) {
        Some(units) => units,
        None => {
            return None;
        },
    };
    let cents: u32 = if point == n {
        0
    } else {
        if n - point == 2 && is_digit_char(chars[point + 1]) {
            value_of_digit(chars[point + 1]) * 10
        } else if n - point == 3 && is_digit_char(chars[point + 1]) && is_digit_char(
            chars[point + 2],
        ) {
            value_of_digit(chars[point + 1]) * 10 + value_of_digit(chars[point + 2])
        } else {
            return None;
        }
    };
    let amount: u64 = units as u64 * 100 + cents as u64;
    if amount > i32::MAX as u64 {
        None
    } else {
        Some(amount as i32)
    }
}

/// An amount that is read from a text is not negative, and fits in an `i32`.
pub proof fn lemma_parsed_amount_is_not_negative(txt: Seq<char>)
    ensures
        parsed_amount(txt) matches Some(amount) ==> 0 <= amount <= i32::MAX,
{
}

/// The decimal text of a number is a non-empty run of digits that writes the
/// number.
pub proof fn lemma_decimal_value_of_decimal(n: nat)
    ensures
        decimal(n).len() > 0,
        all_digits(decimal(n)),
        decimal_value(decimal(n)) == n,
    decreases n,
{
    if n < 10 {
        assert(decimal_value(decimal(n).drop_last()) == 0);
    } else {
        lemma_decimal_value_of_decimal(n / 10);
        assert(decimal(n).drop_last() =~= decimal(n / 10));
    }
}

/// Parsing gives back every amount that is not negative from its own text.
pub proof fn lemma_parse_format_round_trip(amount: int)
    requires
        0 <= amount <= i32::MAX,
    ensures
        parsed_amount(formatted_amount(amount)) == Some(amount),
{
    let units = (amount / 100) as nat;
    let cents = amount % 100;
    let whole = decimal(units);
    let fraction = seq![digit(cents / 10), digit(amount % 10)];
    let text = formatted_amount(amount);
    lemma_decimal_value_of_decimal(units);
    assert(text =~= whole + seq!['.'] + fraction);
    // The first point of the text is the one after the units.
    let point = whole.len() as int;
    assert(text[point] == '.');
    assert forall|j: int| 0 <= j < point implies text[j] != '.' by {
        assert(is_digit(whole[j]));
    }
    text.index_of_first_ensures('.');
    assert(text.take(point) =~= whole);
    assert(text.skip(point + 1) =~= fraction);
    assert(units_of(whole) == Some(units as int));
    assert(cents_of(fraction) == Some(cents));
}

} // verus!
