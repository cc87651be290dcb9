//! Character classes, trimming and shortening.

use vstd::prelude::*;
use vstd::string::*;

verus! {

/// The `White_Space` property of Unicode: the characters that the Unicode Character Database lists
/// under it.
pub open spec fn is_white_space(c: char) -> bool {
    ||| '\t' <= c <= '\r'
    ||| c == ' '
    ||| c == '\u{85}'
    ||| c == '\u{a0}'
    ||| c == '\u{1680}'
    ||| '\u{2000}' <= c <= '\u{200a}'
    ||| c == '\u{2028}'
    ||| c == '\u{2029}'
    ||| c == '\u{202f}'
    ||| c == '\u{205f}'
    ||| c == '\u{3000}'
}

/// The general category `Cc` of Unicode: the C0 and C1 control codes and delete.
pub open spec fn is_control(c: char) -> bool {
    c <= '\u{1f}' || '\u{7f}' <= c <= '\u{9f}'
}

/// What `char::is_alphanumeric` answers.
pub uninterp spec fn is_unicode_alphanumeric(c: char) -> bool;

/// An ASCII letter or digit.
pub open spec fn is_ascii_alphanumeric(c: char) -> bool {
    'a' <= c <= 'z' || 'A' <= c <= 'Z' || '0' <= c <= '9'
}

/// A letter or a number.
pub open spec fn is_alphanumeric(c: char) -> bool {
    if c <= '\u{7f}' {
        is_ascii_alphanumeric(c)
    } else {
        is_unicode_alphanumeric(c)
    }
}

/// `char::is_whitespace` tests for the `White_Space` property of Unicode.
pub assume_specification[ char::is_whitespace ](c: char) -> (answer: bool)
    ensures
        answer == is_white_space(c),
;

/// `char::is_control` tests for the general category of control codes, which Unicode has fixed
/// for good.
pub assume_specification[ char::is_control ](c: char) -> (answer: bool)
    ensures
        answer == is_control(c),
;

/// `char::is_alphanumeric` tests for the Unicode properties of letters and numbers: of the ASCII
/// characters, letters and digits have them.
pub assume_specification[ char::is_alphanumeric ](c: char) -> (answer: bool)
    ensures
        answer == is_unicode_alphanumeric(c),
        c <= '\u{7f}' ==> answer == is_ascii_alphanumeric(c),
;

/// `String::push` appends one character.
pub assume_specification[ String::push ](s: &mut String, c: char)
    ensures
        final(s)@ == old(s)@.push(c),
;

/// The text without its leading white space.
pub open spec fn trimmed_start(text: Seq<char>) -> Seq<char>
    decreases text.len(),
{
    if text.len() > 0 && is_white_space(text[0]) {
        trimmed_start(text.drop_first())
    } else {
        text
    }
}

/// The text without its trailing white space.
pub open spec fn trimmed_end(text: Seq<char>) -> Seq<char>
    decreases text.len(),
{
    if text.len() > 0 && is_white_space(text.last()) {
        trimmed_end(text.drop_last())
    } else {
        text
    }
}

/// The text without its leading and trailing white space.
pub open spec fn trimmed(text: Seq<char>) -> Seq<char> {
    trimmed_end(trimmed_start(text))
}

/// The characters of a text, in order.
pub fn chars_of(text: &str) -> (chars: Vec<char>)
    ensures
        chars@ == text@,
{
    let mut chars: Vec<char> = Vec::new();
    for c in it: text.chars()
        invariant
            it.seq() == text@,
            chars@ == text@.take(it.index() as int),
    {
        chars.push(c);
    }
    assert(text@.take(text@.len() as int) =~= text@);
    chars
}

/// How many characters of leading white space there are.
fn white_prefix(chars: &Vec<char>) -> (n: usize)
    ensures
        n <= chars@.len(),
        trimmed_start(chars@) == chars@.skip(n as int),
{
    let mut n: usize = 0;
    assert(chars@.skip(0) =~= chars@);
    while n < chars.len() && chars[n].is_whitespace()
        invariant
            n <= chars@.len(),
            trimmed_start(chars@) == trimmed_start(chars@.skip(n as int)),
        decreases chars@.len() - n,
    {
        assert(chars@.skip(n as int).drop_first() =~= chars@.skip(n + 1));
        n += 1;
    }
    n
}

/// The text without its leading white space.
pub fn trim_start(text: &str) -> (rest: &str)
    ensures
        rest@ == trimmed_start(text@),
{
    let chars = chars_of(text);
    let from: usize = white_prefix(&chars);
    assert(text@.skip(from as int) =~= text@.subrange(from as int, text@.len() as int));
    text.substring_char(from, chars.len())
}

/// The text without its leading and trailing white space.
pub fn trim(text: &str) -> (rest: &str)
    ensures
        rest@ == trimmed(text@),
{
    let chars = chars_of(text);
    let from: usize = white_prefix(&chars);
    let mut to: usize = chars.len();
    assert(text@.skip(from as int) =~= text@.subrange(from as int, to as int));
    while to > from && chars[to - 1].is_whitespace()
        invariant
            chars@ == text@,
            from <= to <= text@.len(),
            trimmed(text@) == trimmed_end(text@.subrange(from as int, to as int)),
        decreases to - from,
    {
        assert(text@.subrange(from as int, to as int).drop_last() =~= text@.subrange(
            from as int,
            to - 1,
        ));
        to -= 1;
    }
    text.substring_char(from, to)
}

/// The text, or its first `max` characters and an ellipsis where it has more than `max`.
pub open spec fn truncated(text: Seq<char>, max: nat) -> Seq<char> {
    if text.len() > max {
        text.take(max as int).push('\u{2026}')
    } else {
        text
    }
}

/// Shortens a text to at most `max` characters, and marks the cut with an ellipsis.
pub fn truncate(text: &str, max: usize) -> (short: String)
    ensures
        short@ == truncated(text@, max as nat),
{
    let mut short = String::new();
    let mut kept: usize = 0;
    for c in it: text.chars()
        invariant
            it.seq() == text@,
            it.index() <= max,
            kept == it.index(),
            short@ == text@.take(it.index() as int),
    {
        if kept == max {
            short.push('\u{2026}');
            return short;
        }
        short.push(c);
        kept += 1;
    }
    assert(text@.take(text@.len() as int) =~= text@);
    short
}

/// The text without the slashes at its end.
pub open spec fn without_end_slashes(text: Seq<char>) -> Seq<char>
    decreases text.len(),
{
    if text.len() > 0 && text.last() == '/' {
        without_end_slashes(text.drop_last())
    } else {
        text
    }
}

/// Removes every slash at the end of a text.
pub fn trim_end_slashes(text: &str) -> (rest: &str)
    ensures
        rest@ == without_end_slashes(text@),
{
    let chars = chars_of(text);
    let mut to: usize = chars.len();
    assert(text@.subrange(0, to as int) =~= text@);
    while to > 0 && chars[to - 1] == '/'
        invariant
            chars@ == text@,
            to <= text@.len(),
            without_end_slashes(text@) == without_end_slashes(text@.subrange(0, to as int)),
        decreases to,
    {
        assert(text@.subrange(0, to as int).drop_last() =~= text@.subrange(0, to - 1));
        to -= 1;
    }
    text.substring_char(0, to)
}

/// What trimming keeps is one stretch of the text: it neither begins nor ends with white space,
/// and there is only white space in front of it and behind it.
pub proof fn law_trim_keeps_the_core(text: Seq<char>) -> (core: (int, int))
    ensures
        0 <= core.0 <= core.1 <= text.len(),
        trimmed(text) == text.subrange(core.0, core.1),
        forall|i: int| 0 <= i < core.0 ==> is_white_space(#[trigger] text[i]),
        forall|i: int| core.1 <= i < text.len() ==> is_white_space(#[trigger] text[i]),
        core.0 < core.1 ==> !is_white_space(text[core.0]) && !is_white_space(text[core.1 - 1]),
{
    let from = lemma_trimmed_start(text);
    let rest = trimmed_start(text);
    let kept = lemma_trimmed_end(rest);
    assert forall|i: int| from + kept <= i < text.len() implies is_white_space(
        #[trigger] text[i],
    ) by {
        assert(rest[i - from] == text[i]);
    }
    assert(trimmed(text) =~= text.subrange(from, from + kept));
    (from, from + kept)
}

/// Trimming what was trimmed changes nothing.
pub proof fn law_trim_twice(text: Seq<char>)
    ensures
        trimmed(trimmed(text)) == trimmed(text),
{
    let core = law_trim_keeps_the_core(text);
}

/// How much leading white space there is.
pub proof fn lemma_trimmed_start(text: Seq<char>) -> (from: int)
    ensures
        0 <= from <= text.len(),
        trimmed_start(text) == text.skip(from),
        forall|i: int| 0 <= i < from ==> is_white_space(#[trigger] text[i]),
        from < text.len() ==> !is_white_space(text[from]),
    decreases text.len(),
{
    if text.len() > 0 && is_white_space(text[0]) {
        let rest = text.drop_first();
        let from = lemma_trimmed_start(rest);
        assert(rest.skip(from) =~= text.skip(from + 1));
        assert forall|i: int| 0 <= i < from + 1 implies is_white_space(#[trigger] text[i]) by {
            if i > 0 {
                assert(rest[i - 1] == text[i]);
            }
        }
        from + 1
    } else {
        assert(text.skip(0) =~= text);
        0
    }
}

/// How much is left in front of the trailing white space.
proof fn lemma_trimmed_end(text: Seq<char>) -> (kept: int)
    ensures
        0 <= kept <= text.len(),
        trimmed_end(text) == text.take(kept),
        forall|i: int| kept <= i < text.len() ==> is_white_space(#[trigger] text[i]),
        kept > 0 ==> !is_white_space(text[kept - 1]),
    decreases text.len(),
{
    if text.len() > 0 && is_white_space(text.last()) {
        let rest = text.drop_last();
        let kept = lemma_trimmed_end(rest);
        assert(rest.take(kept) =~= text.take(kept));
        assert forall|i: int| kept <= i < text.len() implies is_white_space(
            #[trigger] text[i],
        ) by {
            if i < text.len() - 1 {
                assert(rest[i] == text[i]);
            }
        }
        kept
    } else {
        assert(text.take(text.len() as int) =~= text);
        text.len() as int
    }
}

/// A shortened text has at most `max` characters and the ellipsis, and begins as the text does.
pub proof fn law_truncate_bounds(text: Seq<char>, max: nat)
    ensures
        truncated(text, max).len() <= max + 1,
        text.len() <= max ==> truncated(text, max) == text,
        text.len() > max ==> truncated(text, max).len() == max + 1 && truncated(text, max).last()
            == '\u{2026}',
        forall|i: int| 0 <= i < max && i < text.len() ==> truncated(text, max)[i] == text[i],
{
}

/// White space in front of a text makes no difference to what is left behind it.
pub proof fn lemma_trimmed_start_skips(white: Seq<char>, rest: Seq<char>)
    requires
        forall|i: int| 0 <= i < white.len() ==> is_white_space(#[trigger] white[i]),
    ensures
        trimmed_start(white + rest) == trimmed_start(rest),
    decreases white.len(),
{
    if white.len() == 0 {
        assert(white + rest =~= rest);
    } else {
        assert((white + rest)[0] == white[0]);
        assert((white + rest).drop_first() =~= white.drop_first() + rest);
        assert forall|i: int| 0 <= i < white.drop_first().len() implies is_white_space(
            #[trigger] white.drop_first()[i],
        ) by {
            assert(white.drop_first()[i] == white[i + 1]);
        }
        lemma_trimmed_start_skips(white.drop_first(), rest);
    }
}

/// A text is blank exactly where it holds nothing but white space.
pub proof fn law_only_blank_text_is_trimmed_away(text: Seq<char>)
    ensures
        trimmed(text).len() > 0 <==> exists|i: int|
            0 <= i < text.len() && !is_white_space(#[trigger] text[i]),
{
    let core = law_trim_keeps_the_core(text);
    if core.0 < core.1 {
        assert(!is_white_space(text[core.0]));
    }
}

/// White space around a text is dropped, however much there is, and nothing else.
pub proof fn law_trim_drops_the_white_space_around(
    front: Seq<char>,
    core: Seq<char>,
    back: Seq<char>,
)
    requires
        forall|i: int| 0 <= i < front.len() ==> is_white_space(#[trigger] front[i]),
        forall|i: int| 0 <= i < back.len() ==> is_white_space(#[trigger] back[i]),
        core.len() > 0 ==> !is_white_space(core[0]) && !is_white_space(core.last()),
    ensures
        trimmed(front + core + back) == core,
{
    let text = front + core + back;
    let (a, b) = law_trim_keeps_the_core(text);
    let n = front.len() as int;
    let m = n + core.len();
    assert forall|i: int| 0 <= i < n || m <= i < text.len() implies is_white_space(
        #[trigger] text[i],
    ) by {
        if i < n {
            assert(text[i] == front[i]);
        } else {
            assert(text[i] == back[i - m]);
        }
    }
    if core.len() > 0 {
        assert(text[n] == core[0]);
        assert(text[m - 1] == core.last());
    }
    assert(trimmed(text) =~= core);
}

/// Of the slashes at the end of a text none is left, and of the rest nothing is lost.
pub proof fn law_only_end_slashes_are_dropped(text: Seq<char>) -> (kept: int)
    ensures
        0 <= kept <= text.len(),
        without_end_slashes(text) == text.take(kept),
        kept > 0 ==> text[kept - 1] != '/',
        forall|i: int| kept <= i < text.len() ==> #[trigger] text[i] == '/',
    decreases text.len(),
{
    if text.len() > 0 && text.last() == '/' {
        let rest = text.drop_last();
        let kept = law_only_end_slashes_are_dropped(rest);
        assert(rest.take(kept) =~= text.take(kept));
        assert forall|i: int| kept <= i < text.len() implies #[trigger] text[i] == '/' by {
            if i < rest.len() {
                assert(rest[i] == text[i]);
            }
        }
        kept
    } else {
        assert(text.take(text.len() as int) =~= text);
        text.len() as int
    }
}

/// Among the ASCII characters the letters and the digits are alphanumeric, all of them and no
/// other; outside ASCII, what Unicode says is.
pub proof fn law_ascii_letters_and_digits_are_alphanumeric(c: char)
    ensures
        c <= '\u{7f}' ==> (is_alphanumeric(c) <==> 'a' <= c <= 'z' || 'A' <= c <= 'Z' || '0' <= c
            <= '9'),
        c > '\u{7f}' ==> is_alphanumeric(c) == is_unicode_alphanumeric(c),
{
}

/// The white space of Unicode, by number.
pub proof fn law_white_space_by_number(c: char)
    ensures
        is_white_space(c) <==> {
            let n = c as int;
            ||| 9 <= n <= 13
            ||| n == 32
            ||| n == 0x85
            ||| n == 0xa0
            ||| n == 0x1680
            ||| 0x2000 <= n <= 0x200a
            ||| n == 0x2028
            ||| n == 0x2029
            ||| n == 0x202f
            ||| n == 0x205f
            ||| n == 0x3000
        },
{
}

/// The control characters of Unicode, by number.
pub proof fn law_controls_by_number(c: char)
    ensures
        is_control(c) <==> (c as int) < 32 || 127 <= (c as int) < 160,
{
}

} // verus!
