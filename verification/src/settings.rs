//! What to make of the settings that the bot is started with.

use crate::text;
use vstd::prelude::*;
use vstd::string::*;

verus! {

/// A number written in decimal digits, the empty text being zero.
pub open spec fn digits_value(digits: Seq<char>) -> nat
    decreases digits.len(),
{
    if digits.len() == 0 {
        0
    } else {
        10 * digits_value(digits.drop_last()) + (digits.last() as nat - '0' as nat) as nat
    }
}

/// One or more decimal digits and nothing else.
pub open spec fn is_decimal(digits: Seq<char>) -> bool {
    &&& digits.len() > 0
    &&& forall|i: int| 0 <= i < digits.len() ==> '0' <= #[trigger] digits[i] <= '9'
}

/// The number that a text stands for: decimal digits behind an optional plus sign, in the range
/// of `u32`.
pub open spec fn u32_in(text: Seq<char>) -> Option<u32> {
    let digits = if text.len() > 0 && text[0] == '+' {
        text.skip(1)
    } else {
        text
    };
    if is_decimal(digits) && digits_value(digits) <= u32::MAX {
        Some(digits_value(digits) as u32)
    } else {
        None
    }
}

/// What `str::parse` says of a text that is no `u32`.
pub uninterp spec fn u32_complaint(text: Seq<char>) -> Seq<char>;

/// `str::parse` reads a `u32`: an optional `+` sign followed by decimal digits only, in range.
/// What it says of any other text depends on that text alone.
#[verifier::external_body]
fn parse_u32(text: &str) -> (parsed: Result<u32, String>)
    ensures
        match parsed {
            Ok(n) => u32_in(text@) == Some(n),
            Err(why) => u32_in(text@) is None && why@ == u32_complaint(text@),
        },
{
    match text.parse::<u32>() {
        Ok(n) => Ok(n),
        Err(e) => Err(e.to_string()),
    }
}

/// What a setting holds, trimmed; a setting that is absent or blank holds nothing.
pub open spec fn setting(value: Option<Seq<char>>) -> Option<Seq<char>> {
    match value {
        Some(raw) => if text::trimmed(raw).len() > 0 {
            Some(text::trimmed(raw))
        } else {
            None
        },
        None => None,
    }
}

/// What an optional setting holds, if it holds anything.
pub fn optional_setting(value: Option<&str>) -> (held: Option<&str>)
    ensures
        match held {
            Some(text) => value is Some && setting(Some(value->0@)) == Some(text@),
            None => value is None || setting(Some(value->0@)) is None,
        },
{
    match value {
        Some(raw) => {
            let text = text::trim(raw);
            if text.is_empty() {
                None
            } else {
                Some(text)
            }
        },
        None => None,
    }
}

/// Says that a required setting is missing.
pub fn missing_setting(key: &str) -> (said: String)
    ensures
        said@ == "missing required env var "@ + key@,
{
    let mut said = "missing required env var ".to_owned();
    said.append(key);
    said
}

/// What is said of a setting that cannot be read.
pub open spec fn invalid(key: Seq<char>, why: Seq<char>) -> Seq<char> {
    "invalid "@ + key + ": "@ + why
}

/// Says that a setting cannot be read, and why.
pub fn invalid_setting(key: &str, why: &str) -> (said: String)
    ensures
        said@ == invalid(key@, why@),
        said@ == "invalid "@ + key@ + ": "@ + why@,
{
    let mut said = "invalid ".to_owned();
    said.append(key);
    said.append(": ");
    said.append(why);
    said
}

/// Reads an optional number, and complains only if it is set but invalid.
pub fn optional_u32(key: &str, value: Option<&str>) -> (number: Result<Option<u32>, String>)
    ensures
        ({
            let held = match value {
                Some(raw) => setting(Some(raw@)),
                None => None,
            };
            match number {
                Ok(Some(n)) => held is Some && u32_in(held->0) == Some(n),
                Ok(None) => held is None,
                Err(said) => {
                    &&& held is Some
                    &&& u32_in(held->0) is None
                    &&& said@ == invalid(key@, u32_complaint(held->0))
                    &&& said@ == "invalid "@ + key@ + ": "@ + u32_complaint(held->0)
                },
            }
        }),
{
    match optional_setting(value) {
        Some(text) => match parse_u32(text) {
            Ok(n) => Ok(Some(n)),
            Err(why) => Err(invalid_setting(key, why.as_str())),
        },
        None => Ok(None),
    }
}

/// A setting that shows anything holds what it shows, without the white space around it; one that
/// is absent or blank holds nothing.
pub proof fn law_setting_holds_what_it_shows(raw: Seq<char>)
    ensures
        setting(Some(raw)) is Some <==> exists|i: int|
            0 <= i < raw.len() && !text::is_white_space(#[trigger] raw[i]),
        setting(Some(raw)) matches Some(held) ==> held == text::trimmed(raw),
        setting(None) is None,
{
    text::law_only_blank_text_is_trimmed_away(raw);
}

/// One more digit behind a number makes it ten times as much and the digit, as long as that is in
/// range; beyond the range it is no number.
pub proof fn law_digits_count_in_tens(digits: Seq<char>, digit: char)
    requires
        '0' <= digit <= '9',
        u32_in(digits) is Some,
    ensures
        ({
            let n = 10 * u32_in(digits)->0 + (digit as int - '0' as int);
            u32_in(digits.push(digit)) == (if n <= u32::MAX {
                Some(n as u32)
            } else {
                None
            })
        }),
{
    let more = digits.push(digit);
    let from = if digits.len() > 0 && digits[0] == '+' {
        digits.skip(1)
    } else {
        digits
    };
    let to = if more.len() > 0 && more[0] == '+' {
        more.skip(1)
    } else {
        more
    };
    assert(to =~= from.push(digit));
    assert(to.drop_last() =~= from);
    assert(is_decimal(from));
    assert forall|i: int| 0 <= i < to.len() implies '0' <= #[trigger] to[i] <= '9' by {
        if i < from.len() {
            assert(to[i] == from[i]);
        }
    }
}

/// A digit alone is its number, and a plus sign in front of digits makes no difference.
pub proof fn law_numbers_begin_with_a_digit(digit: char, digits: Seq<char>)
    requires
        '0' <= digit <= '9',
        digits.len() > 0,
        digits[0] != '+',
    ensures
        u32_in(seq![digit]) == Some((digit as int - '0' as int) as u32),
        u32_in(seq!['+'] + digits) == u32_in(digits),
{
    let one = seq![digit];
    assert(one.drop_last() =~= Seq::<char>::empty());
    reveal_with_fuel(digits_value, 2);
    assert(is_decimal(one));
    assert((seq!['+'] + digits).skip(1) =~= digits);
}

/// A text that holds anything but digits behind an optional plus sign is no number, nor is one
/// without digits.
pub proof fn law_only_digits_make_a_number(text: Seq<char>)
    ensures
        u32_in(text) is Some ==> {
            &&& text.len() > 0
            &&& text[0] == '+' ==> text.len() > 1
            &&& text[0] == '+' || '0' <= text[0] <= '9'
            &&& forall|i: int| 0 < i < text.len() ==> '0' <= #[trigger] text[i] <= '9'
        },
{
    if u32_in(text) is Some {
        if text[0] == '+' {
            assert forall|i: int| 0 < i < text.len() implies '0' <= #[trigger] text[i] <= '9' by {
                assert(text[i] == text.skip(1)[i - 1]);
            }
        }
    }
}

} // verus!
