//! Search for a text inside another, whatever the case of ASCII letters.

use crate::utf8;
use vstd::prelude::*;
use vstd::string::*;
use vstd::utf8::*;

verus! {

/// A byte with ASCII capitals made small.
pub open spec fn lower_byte(b: u8) -> u8 {
    if 0x41 <= b <= 0x5a {
        (b + 32) as u8
    } else {
        b
    }
}

/// A character with ASCII capitals made small.
pub open spec fn lower_char(c: char) -> char {
    if 'A' <= c <= 'Z' {
        ((c as u32) + 32) as char
    } else {
        c
    }
}

/// The needle stands at this place of the haystack, but for the case of ASCII letters.
pub open spec fn bytes_occur_at(haystack: Seq<u8>, needle: Seq<u8>, at: int) -> bool {
    &&& 0 <= at <= haystack.len() - needle.len()
    &&& forall|j: int|
        0 <= j < needle.len() ==> lower_byte(#[trigger] haystack[at + j]) == lower_byte(needle[j])
}

/// The first place, from `from` on, at which the needle stands.
pub open spec fn first_bytes_from(haystack: Seq<u8>, needle: Seq<u8>, from: int) -> Option<int>
    decreases haystack.len() - from,
{
    if from + needle.len() > haystack.len() {
        None
    } else if bytes_occur_at(haystack, needle, from) {
        Some(from)
    } else {
        first_bytes_from(haystack, needle, from + 1)
    }
}

/// The needle stands at this place of the text, but for the case of ASCII letters.
pub open spec fn occurs_at(text: Seq<char>, needle: Seq<char>, at: int) -> bool {
    &&& 0 <= at <= text.len() - needle.len()
    &&& forall|j: int|
        0 <= j < needle.len() ==> lower_char(#[trigger] text[at + j]) == lower_char(needle[j])
}

/// The first place, from `from` on, at which the needle stands.
pub open spec fn first_from(text: Seq<char>, needle: Seq<char>, from: int) -> Option<int>
    decreases text.len() - from,
{
    if from + needle.len() > text.len() {
        None
    } else if occurs_at(text, needle, from) {
        Some(from)
    } else {
        first_from(text, needle, from + 1)
    }
}

/// The first place at which the needle stands in the text.
pub open spec fn first_of(text: Seq<char>, needle: Seq<char>) -> Option<int> {
    first_from(text, needle, 0)
}

/// What is found from a place on is the first occurrence from there.
pub proof fn lemma_first_from(text: Seq<char>, needle: Seq<char>, from: int)
    requires
        0 <= from,
    ensures
        match first_from(text, needle, from) {
            Some(at) => {
                &&& from <= at
                &&& occurs_at(text, needle, at)
                &&& forall|i: int| from <= i < at ==> !occurs_at(text, needle, i)
            },
            None => forall|i: int| from <= i ==> !occurs_at(text, needle, i),
        },
    decreases text.len() - from,
{
    if from + needle.len() <= text.len() && !occurs_at(text, needle, from) {
        lemma_first_from(text, needle, from + 1);
    }
}

/// An occurrence with none before it is the one that is found.
pub proof fn lemma_first_is(text: Seq<char>, needle: Seq<char>, from: int, at: int)
    requires
        0 <= from <= at,
        occurs_at(text, needle, at),
        forall|i: int| from <= i < at ==> !occurs_at(text, needle, i),
    ensures
        first_from(text, needle, from) == Some(at),
{
    lemma_first_from(text, needle, from);
}

/// Where nothing occurs, nothing is found.
pub proof fn lemma_first_is_none(text: Seq<char>, needle: Seq<char>, from: int)
    requires
        0 <= from,
        forall|i: int| from <= i ==> !occurs_at(text, needle, i),
    ensures
        first_from(text, needle, from) == None::<int>,
{
    lemma_first_from(text, needle, from);
}

/// As [`lemma_first_from`], of bytes.
proof fn lemma_first_bytes_from(haystack: Seq<u8>, needle: Seq<u8>, from: int)
    requires
        0 <= from,
    ensures
        match first_bytes_from(haystack, needle, from) {
            Some(at) => {
                &&& from <= at
                &&& bytes_occur_at(haystack, needle, at)
                &&& forall|i: int| from <= i < at ==> !bytes_occur_at(haystack, needle, i)
            },
            None => forall|i: int| from <= i ==> !bytes_occur_at(haystack, needle, i),
        },
    decreases haystack.len() - from,
{
    if from + needle.len() <= haystack.len() && !bytes_occur_at(haystack, needle, from) {
        lemma_first_bytes_from(haystack, needle, from + 1);
    }
}

/// A capital ASCII letter made small, and every other byte as it is.
fn to_lower(b: u8) -> (lower: u8)
    ensures
        lower == lower_byte(b),
{
    if 0x41 <= b && b <= 0x5a {
        b + 32
    } else {
        b
    }
}

/// Finds the first place at which a needle stands in a haystack, whatever the case of ASCII
/// letters in either, and gives the index of the byte at which it begins. An empty needle is
/// never found.
pub fn find_ci(haystack: &str, needle: &str) -> (found: Option<usize>)
    ensures
        match found {
            Some(at) => needle@.len() > 0 && first_bytes_from(
                encode_utf8(haystack@),
                encode_utf8(needle@),
                0,
            ) == Some(at as int),
            None => needle@.len() == 0 || first_bytes_from(
                encode_utf8(haystack@),
                encode_utf8(needle@),
                0,
            ) is None,
        },
{
    let hay = haystack.as_bytes();
    let pin = needle.as_bytes();
    proof {
        utf8::lemma_byte_len_bounds(needle@);
    }
    if pin.len() == 0 || hay.len() < pin.len() {
        return None;
    }
    let last: usize = hay.len() - pin.len();
    let mut at: usize = 0;
    while at <= last
        invariant
            hay@ == encode_utf8(haystack@),
            pin@ == encode_utf8(needle@),
            needle@.len() > 0,
            hay@.len() == last + pin@.len(),
            0 < pin@.len() <= hay@.len() <= usize::MAX,
            at <= last + 1,
            first_bytes_from(hay@, pin@, 0) == first_bytes_from(hay@, pin@, at as int),
        decreases last + 1 - at,
    {
        let mut j: usize = 0;
        while j < pin.len() && to_lower(hay[at + j]) == to_lower(pin[j])
            invariant
                at <= last,
                hay@.len() == last + pin@.len(),
                hay@.len() <= usize::MAX,
                j <= pin@.len(),
                forall|i: int|
                    0 <= i < j ==> lower_byte(#[trigger] hay@[at + i]) == lower_byte(pin@[i]),
            decreases pin@.len() - j,
        {
            j += 1;
        }
        if j == pin.len() {
            assert(bytes_occur_at(hay@, pin@, at as int));
            return Some(at);
        }
        assert(!bytes_occur_at(hay@, pin@, at as int)) by {
            assert(lower_byte(hay@[at + j]) != lower_byte(pin@[j as int]));
        }
        at += 1;
    }
    None
}

/// Two characters, the second ASCII, agree but for case exactly when both are ASCII and their
/// bytes agree but for case.
proof fn lemma_lower_agrees(c: char, d: char)
    requires
        (d as u32) < 0x80,
    ensures
        lower_char(c) == lower_char(d) <==> (c as u32) < 0x80 && lower_byte(c as u8) == lower_byte(
            d as u8,
        ),
{
    let cv = c as u32;
    let dv = d as u32;
    assert(dv as u8 == dv) by (bit_vector)
        requires
            dv < 0x80,
    ;
    if cv < 0x80 {
        assert(cv as u8 == cv) by (bit_vector)
            requires
                cv < 0x80,
        ;
    }
}

/// An ASCII needle stands at a character exactly when its bytes stand at that character's offset.
proof fn lemma_occurs_bytes(text: Seq<char>, needle: Seq<char>, k: int)
    requires
        is_ascii_chars(needle),
        0 <= k <= text.len(),
    ensures
        occurs_at(text, needle, k) <==> bytes_occur_at(
            encode_utf8(text),
            encode_utf8(needle),
            utf8::byte_len(text.take(k)) as int,
        ),
{
    let hay = encode_utf8(text);
    let pin = encode_utf8(needle);
    let off = utf8::byte_len(text.take(k)) as int;
    is_ascii_chars_encode_utf8(needle);
    utf8::lemma_encode_split(text, k);
    if occurs_at(text, needle, k) {
        lemma_run_bytes(text, needle, k, needle.len() as int);
        utf8::lemma_encode_split(text, k + needle.len());
        assert forall|j: int| 0 <= j < pin.len() implies lower_byte(#[trigger] hay[off + j])
            == lower_byte(pin[j]) by {
            assert(lower_char(text[k + j]) == lower_char(needle[j]));
            lemma_lower_agrees(text[k + j], needle[j]);
        }
    }
    if bytes_occur_at(hay, pin, off) {
        lemma_run_chars(text, needle, k, needle.len() as int);
        assert forall|j: int| 0 <= j < needle.len() implies lower_char(#[trigger] text[k + j])
            == lower_char(needle[j]) by {
            lemma_lower_agrees(text[k + j], needle[j]);
        }
    }
}

/// Along an occurrence of an ASCII needle, character by character, the bytes follow.
pub proof fn lemma_run_bytes(text: Seq<char>, needle: Seq<char>, k: int, n: int)
    requires
        is_ascii_chars(needle),
        occurs_at(text, needle, k),
        0 <= n <= needle.len(),
    ensures
        utf8::byte_len(text.take(k + n)) == utf8::byte_len(text.take(k)) + n,
        utf8::byte_len(text.take(k + n)) <= utf8::byte_len(text),
        forall|j: int|
            0 <= j < n ==> #[trigger] encode_utf8(text)[utf8::byte_len(text.take(k)) + j] == text[k
                + j] as u8,
    decreases n,
{
    if n == 0 {
        utf8::lemma_encode_split(text, k);
    } else {
        lemma_run_bytes(text, needle, k, n - 1);
        let c = text[k + n - 1];
        assert(lower_char(text[k + (n - 1)]) == lower_char(needle[n - 1]));
        lemma_lower_agrees(c, needle[n - 1]);
        utf8::lemma_scalar_bytes(c);
        utf8::lemma_char_at_offset(text, k + n - 1);
        let at = utf8::byte_len(text.take(k + n - 1)) as int;
        assert(encode_utf8(text).subrange(at, at + 1)[0] == c as u8);
    }
}

/// Along an occurrence of an ASCII needle's bytes, byte by byte, the characters follow.
proof fn lemma_run_chars(text: Seq<char>, needle: Seq<char>, k: int, n: int)
    requires
        is_ascii_chars(needle),
        0 <= k <= text.len(),
        bytes_occur_at(
            encode_utf8(text),
            encode_utf8(needle),
            utf8::byte_len(text.take(k)) as int,
        ),
        0 <= n <= needle.len(),
    ensures
        k + n <= text.len(),
        utf8::byte_len(text.take(k + n)) == utf8::byte_len(text.take(k)) + n,
        forall|j: int|
            0 <= j < n ==> (#[trigger] text[k + j] as u32) < 0x80 && lower_byte(text[k + j] as u8)
                == lower_byte(needle[j] as u8),
    decreases n,
{
    if n > 0 {
        lemma_run_chars(text, needle, k, n - 1);
        let hay = encode_utf8(text);
        let pin = encode_utf8(needle);
        let off = utf8::byte_len(text.take(k)) as int;
        is_ascii_chars_encode_utf8(needle);
        let at = off + (n - 1);
        assert(lower_byte(hay[off + (n - 1)]) == lower_byte(pin[n - 1]));
        assert(needle[n - 1] as u8 == pin[n - 1]);
        if k + n - 1 == text.len() {
            assert(text.take(k + n - 1) =~= text);
        }
        let c = text[k + n - 1];
        utf8::lemma_char_at_offset(text, k + n - 1);
        utf8::lemma_scalar_bytes(c);
        let bytes = encode_scalar(c as u32);
        assert(hay.subrange(at, at + bytes.len())[0] == hay[at]);
        let nv = needle[n - 1] as u32;
        assert((nv as u8) < 0x80) by (bit_vector)
            requires
                nv < 0x80,
        ;
        assert(hay[at] < 0x80);
    }
}

/// An ASCII needle is found among the bytes of a text exactly where it is found among its
/// characters: the index of the byte is the offset of a character.
pub proof fn law_ascii_needle_is_found_at_a_character(text: Seq<char>, needle: Seq<char>)
    requires
        is_ascii_chars(needle),
        needle.len() > 0,
    ensures
        match first_of(text, needle) {
            Some(k) => {
                &&& 0 <= k <= text.len() - needle.len()
                &&& first_bytes_from(encode_utf8(text), encode_utf8(needle), 0) == Some(
                    utf8::byte_len(text.take(k)) as int,
                )
                &&& is_char_boundary(encode_utf8(text), utf8::byte_len(text.take(k)) as int)
            },
            None => first_bytes_from(encode_utf8(text), encode_utf8(needle), 0) is None,
        },
{
    let hay = encode_utf8(text);
    let pin = encode_utf8(needle);
    lemma_first_from(text, needle, 0);
    lemma_first_bytes_from(hay, pin, 0);
    if first_of(text, needle) is Some {
        utf8::lemma_offset_is_boundary(text, first_of(text, needle)->0);
    }
    is_ascii_chars_encode_utf8(needle);
    if first_bytes_from(hay, pin, 0) is Some {
        let p = first_bytes_from(hay, pin, 0)->0;
        assert(lower_byte(hay[p + 0]) == lower_byte(pin[0]));
        let nv = needle[0] as u32;
        assert((nv as u8) < 0x80) by (bit_vector)
            requires
                nv < 0x80,
        ;
        assert(needle[0] as u8 == pin[0]);
        let k = utf8::lemma_ascii_byte_is_char(text, p);
        lemma_occurs_bytes(text, needle, k);
        assert(occurs_at(text, needle, k));
        let first = first_of(text, needle)->0;
        lemma_occurs_bytes(text, needle, first);
        if first < k {
            utf8::lemma_offset_increases(text, first, k);
        }
    } else if first_of(text, needle) is Some {
        lemma_occurs_bytes(text, needle, first_of(text, needle)->0);
    }
}

/// The same text but for the case of ASCII letters.
pub open spec fn same_but_case(a: Seq<char>, b: Seq<char>) -> bool {
    &&& a.len() == b.len()
    &&& forall|i: int| 0 <= i < a.len() ==> lower_char(#[trigger] a[i]) == lower_char(b[i])
}

/// The search does not look at the case of ASCII letters.
pub proof fn law_search_ignores_case(a: Seq<char>, b: Seq<char>, needle: Seq<char>)
    requires
        same_but_case(a, b),
    ensures
        first_of(a, needle) == first_of(b, needle),
{
    assert forall|i: int| occurs_at(a, needle, i) == occurs_at(b, needle, i) by {
        if 0 <= i <= a.len() - needle.len() {
            assert forall|j: int| 0 <= j < needle.len() implies lower_char(#[trigger] a[i + j])
                == lower_char(b[i + j]) by {}
            if occurs_at(a, needle, i) {
                assert forall|j: int| 0 <= j < needle.len() implies lower_char(#[trigger] b[i + j])
                    == lower_char(needle[j]) by {
                    assert(lower_char(a[i + j]) == lower_char(needle[j]));
                }
            }
            if occurs_at(b, needle, i) {
                assert forall|j: int| 0 <= j < needle.len() implies lower_char(#[trigger] a[i + j])
                    == lower_char(needle[j]) by {
                    assert(lower_char(b[i + j]) == lower_char(needle[j]));
                }
            }
        }
    }
    lemma_first_from(a, needle, 0);
    lemma_first_from(b, needle, 0);
}

/// The needle stands nowhere in the text.
pub open spec fn absent(text: Seq<char>, needle: Seq<char>) -> bool {
    forall|i: int| !occurs_at(text, needle, i)
}

/// The first character of the needle comes at no other place of it.
pub open spec fn starts_unlike_rest(needle: Seq<char>) -> bool {
    &&& needle.len() > 0
    &&& forall|j: int|
        0 < j < needle.len() ==> lower_char(#[trigger] needle[j]) != lower_char(needle[0])
}

/// Behind a text in which it is absent, a needle is found where it was put.
pub proof fn lemma_found_behind(a: Seq<char>, tag: Seq<char>, z: Seq<char>, needle: Seq<char>)
    requires
        absent(a, needle),
        same_but_case(tag, needle),
        starts_unlike_rest(needle),
    ensures
        first_of(a + tag + z, needle) == Some(a.len() as int),
{
    let text = a + tag + z;
    let n = a.len() as int;
    assert forall|j: int| 0 <= j < needle.len() implies lower_char(#[trigger] text[n + j])
        == lower_char(needle[j]) by {
        assert(text[n + j] == tag[j]);
    }
    assert(occurs_at(text, needle, n));
    assert forall|i: int| 0 <= i < n implies !occurs_at(text, needle, i) by {
        if occurs_at(text, needle, i) {
            if i + needle.len() <= n {
                assert forall|j: int| 0 <= j < needle.len() implies lower_char(#[trigger] a[i + j])
                    == lower_char(needle[j]) by {
                    assert(text[i + j] == a[i + j]);
                }
                assert(occurs_at(a, needle, i));
            } else {
                assert(lower_char(text[i + (n - i)]) == lower_char(needle[n - i]));
                assert(text[n] == tag[0]);
                assert(lower_char(tag[0]) == lower_char(needle[0]));
            }
        }
    }
    lemma_first_is(text, needle, 0, n);
}

/// Tells whether a text begins with an ASCII prefix, whatever the case of ASCII letters.
pub fn starts_with_ci(text: &str, prefix: &str) -> (answer: bool)
    requires
        is_ascii_chars(prefix@),
    ensures
        answer == occurs_at(text@, prefix@, 0),
{
    let hay = text.as_bytes();
    let pin = prefix.as_bytes();
    proof {
        lemma_occurs_bytes(text@, prefix@, 0);
        assert(text@.take(0) =~= Seq::<char>::empty());
    }
    if hay.len() < pin.len() {
        return false;
    }
    let mut j: usize = 0;
    while j < pin.len()
        invariant
            j <= pin@.len() <= hay@.len(),
            hay@ == encode_utf8(text@),
            pin@ == encode_utf8(prefix@),
            occurs_at(text@, prefix@, 0) == bytes_occur_at(hay@, pin@, 0),
            forall|i: int| 0 <= i < j ==> lower_byte(#[trigger] hay@[0 + i]) == lower_byte(pin@[i]),
        decreases pin@.len() - j,
    {
        if to_lower(hay[j]) != to_lower(pin[j]) {
            assert(lower_byte(hay@[0 + j]) != lower_byte(pin@[j as int]));
            return false;
        }
        j += 1;
    }
    true
}

/// Two characters count as the same exactly where they are, or where one is an ASCII capital and
/// the other its small letter.
pub proof fn law_only_ascii_case_is_ignored(a: char, b: char)
    ensures
        lower_char(a) == lower_char(b) <==> {
            ||| a == b
            ||| 'A' <= a <= 'Z' && b as int == a as int + 32
            ||| 'A' <= b <= 'Z' && a as int == b as int + 32
        },
{
}

/// As [`law_only_ascii_case_is_ignored`], of bytes.
pub proof fn law_only_ascii_case_of_bytes_is_ignored(a: u8, b: u8)
    ensures
        lower_byte(a) == lower_byte(b) <==> {
            ||| a == b
            ||| 0x41 <= a <= 0x5a && b == a + 32
            ||| 0x41 <= b <= 0x5a && a == b + 32
        },
{
}

/// A needle stands where the stretch of its length is the needle but for case.
pub proof fn law_occurrence_is_the_needle(text: Seq<char>, needle: Seq<char>, at: int)
    ensures
        occurs_at(text, needle, at) <==> 0 <= at && at + needle.len() <= text.len()
            && same_but_case(text.subrange(at, at + needle.len()), needle),
{
    if 0 <= at && at + needle.len() <= text.len() {
        let part = text.subrange(at, at + needle.len());
        assert forall|j: int| 0 <= j < needle.len() implies #[trigger] part[j] == text[at + j] by {}
        if same_but_case(part, needle) {
            assert forall|j: int| 0 <= j < needle.len() implies lower_char(#[trigger] text[at + j])
                == lower_char(needle[j]) by {
                assert(lower_char(part[j]) == lower_char(needle[j]));
            }
        }
    }
}

/// The bytes of a needle stand where the stretch of their length is the needle but for case.
pub proof fn law_occurrence_is_the_needles_bytes(haystack: Seq<u8>, needle: Seq<u8>, at: int)
    ensures
        bytes_occur_at(haystack, needle, at) <==> 0 <= at && at + needle.len() <= haystack.len()
            && haystack.subrange(at, at + needle.len()).map_values(|b: u8| lower_byte(b))
            == needle.map_values(|b: u8| lower_byte(b)),
{
    if 0 <= at && at + needle.len() <= haystack.len() {
        let part = haystack.subrange(at, at + needle.len()).map_values(|b: u8| lower_byte(b));
        let pin = needle.map_values(|b: u8| lower_byte(b));
        assert forall|j: int| 0 <= j < needle.len() implies #[trigger] part[j] == lower_byte(
            haystack[at + j],
        ) by {}
        if bytes_occur_at(haystack, needle, at) {
            assert(part =~= pin);
        }
        if part == pin {
            assert forall|j: int| 0 <= j < needle.len() implies lower_byte(
                #[trigger] haystack[at + j],
            ) == lower_byte(needle[j]) by {
                assert(part[j] == pin[j]);
            }
        }
    }
}

/// What is found stands there, and nowhere before; where nothing is found, it stands nowhere.
pub proof fn law_first_occurrence_is_found(haystack: Seq<u8>, needle: Seq<u8>)
    ensures
        match first_bytes_from(haystack, needle, 0) {
            Some(at) => {
                &&& bytes_occur_at(haystack, needle, at)
                &&& forall|i: int| 0 <= i < at ==> !#[trigger] bytes_occur_at(haystack, needle, i)
            },
            None => forall|i: int| !#[trigger] bytes_occur_at(haystack, needle, i),
        },
{
    lemma_first_bytes_from(haystack, needle, 0);
}

/// In front of its first occurrence a needle is absent.
pub proof fn lemma_absent_before(text: Seq<char>, needle: Seq<char>, at: int)
    requires
        0 <= at <= text.len(),
        forall|i: int| 0 <= i < at ==> !occurs_at(text, needle, i),
        needle.len() > 0,
    ensures
        absent(text.take(at), needle),
{
    let front = text.take(at);
    assert forall|i: int| !occurs_at(front, needle, i) by {
        if occurs_at(front, needle, i) {
            assert forall|j: int| 0 <= j < needle.len() implies lower_char(#[trigger] text[i + j])
                == lower_char(needle[j]) by {
                assert(front[i + j] == text[i + j]);
            }
            assert(occurs_at(text, needle, i));
        }
    }
}

} // verus!
