//! How the characters of a text and the bytes of its UTF-8 encoding line up.

use vstd::prelude::*;
use vstd::utf8::*;

verus! {

/// How many bytes a text takes in UTF-8.
pub open spec fn byte_len(text: Seq<char>) -> nat {
    encode_utf8(text).len()
}

/// The encoding of a concatenation is the concatenation of the encodings.
pub proof fn lemma_encode_concat(a: Seq<char>, b: Seq<char>)
    ensures
        encode_utf8(a + b) == encode_utf8(a) + encode_utf8(b),
        byte_len(a + b) == byte_len(a) + byte_len(b),
    decreases a.len(),
{
    if a.len() == 0 {
        assert(a + b =~= b);
        assert(encode_utf8(a) + encode_utf8(b) =~= encode_utf8(b));
    } else {
        lemma_encode_concat(a.drop_first(), b);
        assert((a + b).drop_first() =~= a.drop_first() + b);
        assert(encode_utf8(a + b) =~= encode_utf8(a) + encode_utf8(b));
    }
}

/// Two texts with the same encoding are the same text.
pub proof fn lemma_encode_injective(a: Seq<char>, b: Seq<char>)
    requires
        encode_utf8(a) == encode_utf8(b),
    ensures
        a == b,
{
    encode_utf8_decode_utf8(a);
    encode_utf8_decode_utf8(b);
}

/// The encoding of one character alone.
pub proof fn lemma_encode_single(c: char)
    ensures
        encode_utf8(seq![c]) == encode_scalar(c as u32),
        byte_len(seq![c]) == encode_scalar(c as u32).len(),
        1 <= byte_len(seq![c]) <= 4,
{
    reveal_with_fuel(encode_utf8, 2);
    assert(seq![c].drop_first() =~= Seq::<char>::empty());
    assert(encode_utf8(seq![c]) =~= encode_scalar(c as u32));
}

/// A text takes at least one byte per character, and only the empty text takes none.
pub proof fn lemma_byte_len_bounds(text: Seq<char>)
    ensures
        text.len() <= byte_len(text),
        byte_len(text) == 0 <==> text.len() == 0,
    decreases text.len(),
{
    if text.len() > 0 {
        lemma_byte_len_bounds(text.drop_first());
    }
}

/// The encoding splits where the text splits.
pub proof fn lemma_encode_split(text: Seq<char>, k: int)
    requires
        0 <= k <= text.len(),
    ensures
        encode_utf8(text) == encode_utf8(text.take(k)) + encode_utf8(text.skip(k)),
        byte_len(text) == byte_len(text.take(k)) + byte_len(text.skip(k)),
{
    assert(text =~= text.take(k) + text.skip(k));
    lemma_encode_concat(text.take(k), text.skip(k));
}

/// The offset of a character is less than that of any later one.
pub proof fn lemma_offset_increases(text: Seq<char>, j: int, k: int)
    requires
        0 <= j < k <= text.len(),
    ensures
        byte_len(text.take(j)) < byte_len(text.take(k)),
{
    let upto = text.take(k);
    assert(upto.take(j) =~= text.take(j));
    lemma_encode_split(upto, j);
    lemma_byte_len_bounds(upto.skip(j));
}

/// At the offset of a character stand the bytes of that character, and the next character's
/// offset comes right behind them.
pub proof fn lemma_char_at_offset(text: Seq<char>, k: int)
    requires
        0 <= k < text.len(),
    ensures
        ({
            let at = byte_len(text.take(k)) as int;
            let bytes = encode_scalar(text[k] as u32);
            &&& at + bytes.len() <= byte_len(text)
            &&& encode_utf8(text).subrange(at, at + bytes.len()) == bytes
            &&& byte_len(text.take(k + 1)) == at + bytes.len()
        }),
{
    let bytes = encode_scalar(text[k] as u32);
    lemma_encode_split(text, k);
    assert(text.skip(k)[0] == text[k]);
    assert(encode_utf8(text.skip(k)) == bytes + encode_utf8(text.skip(k).drop_first()));
    let at = byte_len(text.take(k)) as int;
    assert(encode_utf8(text).subrange(at, at + bytes.len()) =~= bytes);
    assert(text.take(k + 1) =~= text.take(k) + seq![text[k]]);
    lemma_encode_concat(text.take(k), seq![text[k]]);
    lemma_encode_single(text[k]);
}

/// Which bytes the encoding of one character holds: the character itself where it is ASCII, and
/// no ASCII byte otherwise.
pub proof fn lemma_scalar_bytes(c: char)
    ensures
        (c as u32) < 0x80 ==> encode_scalar(c as u32) == seq![c as u8],
        (c as u32) >= 0x80 ==> encode_scalar(c as u32).len() >= 2 && forall|i: int|
            0 <= i < encode_scalar(c as u32).len() ==> #[trigger] encode_scalar(c as u32)[i] >= 0x80,
{
    let v = c as u32;
    char_is_scalar(c);
    if v < 0x80 {
        assert((v & 0x7f) as u8 == v as u8) by (bit_vector)
            requires
                v < 0x80,
        ;
    } else {
        assert(0xC0u8 | ((v >> 6) & 0x1F) as u8 >= 0x80) by (bit_vector);
        assert(0xE0u8 | ((v >> 12) & 0x0F) as u8 >= 0x80) by (bit_vector);
        assert(0xF0u8 | ((v >> 18) & 0x7) as u8 >= 0x80) by (bit_vector);
        assert(0x80u8 | (v & 0x3F) as u8 >= 0x80) by (bit_vector);
        assert(0x80u8 | ((v >> 6) & 0x3F) as u8 >= 0x80) by (bit_vector);
        assert(0x80u8 | ((v >> 12) & 0x3F) as u8 >= 0x80) by (bit_vector);
    }
}

/// An ASCII byte in an encoding is an ASCII character of the text, at that character's offset.
pub proof fn lemma_ascii_byte_is_char(text: Seq<char>, p: int) -> (k: int)
    requires
        0 <= p < byte_len(text),
        encode_utf8(text)[p] < 0x80,
    ensures
        0 <= k < text.len(),
        byte_len(text.take(k)) == p,
        (text[k] as u32) < 0x80,
        text[k] as u8 == encode_utf8(text)[p],
    decreases text.len(),
{
    let first = encode_scalar(text[0] as u32);
    lemma_scalar_bytes(text[0]);
    if p < first.len() {
        assert(encode_utf8(text)[p] == first[p]);
        assert(text.take(0) =~= Seq::<char>::empty());
        0
    } else {
        let rest = text.drop_first();
        assert(encode_utf8(text)[p] == encode_utf8(rest)[p - first.len()]);
        let k = lemma_ascii_byte_is_char(rest, p - first.len());
        assert(text.take(k + 1)[0] == text[0]);
        assert(text.take(k + 1).drop_first() =~= rest.take(k));
        k + 1
    }
}

/// The offset of a character is a boundary between characters.
pub proof fn lemma_offset_is_boundary(text: Seq<char>, k: int)
    requires
        0 <= k <= text.len(),
    ensures
        is_char_boundary(encode_utf8(text), byte_len(text.take(k)) as int),
    decreases k,
{
    encode_utf8_valid_utf8(text);
    if k == 0 {
        assert(text.take(0) =~= Seq::<char>::empty());
    } else {
        let rest = text.drop_first();
        lemma_offset_is_boundary(rest, k - 1);
        encode_utf8_first_scalar(text);
        assert(pop_first_scalar(encode_utf8(text)) =~= encode_utf8(rest));
        assert(text.take(k).drop_first() =~= rest.take(k - 1));
        assert(text.take(k)[0] == text[0]);
        lemma_encode_split(text, k);
    }
}

/// How many bytes a character takes in UTF-8.
pub fn char_width(c: char) -> (width: usize)
    ensures
        width == byte_len(seq![c]),
        1 <= width <= 4,
{
    proof {
        lemma_encode_single(c);
        char_is_scalar(c);
    }
    let v: u32 = c as u32;
    if v < 0x80 {
        1
    } else if v < 0x800 {
        2
    } else if v < 0x10000 {
        3
    } else {
        4
    }
}

/// Cuts a text at a character's offset.
pub(crate) fn split_chars<'a>(text: &'a str, at: usize, Ghost(k): Ghost<int>) -> (parts: (&'a str, &'a str))
    requires
        0 <= k <= text@.len(),
        at == byte_len(text@.take(k)),
    ensures
        parts.0@ == text@.take(k),
        parts.1@ == text@.skip(k),
{
    proof {
        lemma_offset_is_boundary(text@, k);
        lemma_encode_split(text@, k);
    }
    let parts = text.split_at(at);
    proof {
        let bytes = encode_utf8(text@);
        assert(bytes.subrange(0, at as int) =~= encode_utf8(text@.take(k)));
        assert(bytes.subrange(at as int, bytes.len() as int) =~= encode_utf8(text@.skip(k)));
        lemma_encode_injective(parts.0@, text@.take(k));
        lemma_encode_injective(parts.1@, text@.skip(k));
    }
    parts
}

} // verus!
