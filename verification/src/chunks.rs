//! Division of a long reply into messages that the chat service takes.

use crate::text;
use crate::utf8;
use vstd::prelude::*;
use vstd::string::*;
use vstd::utf8::*;

verus! {

/// Discord rejects messages longer than this; the bot counts bytes.
pub const DISCORD_MAX_LEN: usize = 2000;

/// A part of a text that goes into a message as a whole.
pub ghost struct Piece {
    /// The characters of the part.
    pub text: Seq<char>,
    /// Whether the part has to begin a message.
    pub fresh: bool,
}

/// How many characters the first line of a text has, its line feed included.
pub open spec fn first_line_len(text: Seq<char>) -> nat
    decreases text.len(),
{
    if text.len() == 0 {
        0
    } else if text[0] == '\n' {
        1
    } else {
        1 + first_line_len(text.drop_first())
    }
}

/// The parts of one line: the line itself where it fits into a message, else each character of
/// it, the first of them in a message of its own.
pub open spec fn line_pieces(line: Seq<char>) -> Seq<Piece> {
    if utf8::byte_len(line) <= DISCORD_MAX_LEN {
        seq![Piece { text: line, fresh: false }]
    } else {
        Seq::new(line.len(), |i: int| Piece { text: seq![line[i]], fresh: i == 0 })
    }
}

/// The parts of a text, line after line.
pub open spec fn pieces(text: Seq<char>) -> Seq<Piece>
    decreases text.len(),
{
    if text.len() == 0 {
        seq![]
    } else {
        let n = first_line_len(text) as int;
        proof {
            lemma_first_line(text);
        }
        line_pieces(text.take(n)) + pieces(text.skip(n))
    }
}

/// Puts a part at the end of the last message, if it may go there and fits; else it begins a
/// message.
pub open spec fn place(chunks: Seq<Seq<char>>, piece: Piece) -> Seq<Seq<char>> {
    if chunks.len() > 0 && !piece.fresh && utf8::byte_len(chunks.last()) + utf8::byte_len(
        piece.text,
    ) <= DISCORD_MAX_LEN {
        chunks.drop_last().push(chunks.last() + piece.text)
    } else {
        chunks.push(piece.text)
    }
}

/// Puts the parts behind the messages that there are, one after the other.
pub open spec fn pack(chunks: Seq<Seq<char>>, parts: Seq<Piece>) -> Seq<Seq<char>>
    decreases parts.len(),
{
    if parts.len() == 0 {
        chunks
    } else {
        pack(place(chunks, parts[0]), parts.drop_first())
    }
}

/// The messages that a text is sent as.
pub open spec fn messages(text: Seq<char>) -> Seq<Seq<char>> {
    if utf8::byte_len(text) <= DISCORD_MAX_LEN {
        seq![text]
    } else {
        pack(seq![], pieces(text))
    }
}

/// A first line ends at the first line feed, or at the end of the text.
pub proof fn lemma_first_line(text: Seq<char>)
    ensures
        first_line_len(text) <= text.len(),
        text.len() > 0 ==> first_line_len(text) > 0,
        forall|i: int| 0 <= i < first_line_len(text) - 1 ==> text[i] != '\n',
        first_line_len(text) < text.len() ==> text[first_line_len(text) - 1] == '\n',
    decreases text.len(),
{
    if text.len() > 0 && text[0] != '\n' {
        let rest = text.drop_first();
        lemma_first_line(rest);
        assert forall|i: int| 0 <= i < first_line_len(text) - 1 implies text[i] != '\n' by {
            if i > 0 {
                assert(rest[i - 1] == text[i]);
            }
        }
    }
}

/// Parts can be put in two goes.
proof fn lemma_pack_concat(chunks: Seq<Seq<char>>, a: Seq<Piece>, b: Seq<Piece>)
    ensures
        pack(chunks, a + b) == pack(pack(chunks, a), b),
    decreases a.len(),
{
    if a.len() == 0 {
        assert(a + b =~= b);
    } else {
        assert((a + b).drop_first() =~= a.drop_first() + b);
        lemma_pack_concat(place(chunks, a[0]), a.drop_first(), b);
    }
}

/// The views of a vector of texts.
pub open spec fn views(texts: Seq<String>) -> Seq<Seq<char>> {
    texts.map_values(|t: String| t@)
}

/// The messages that are done, and the one that is being filled if there is anything in it.
spec fn with_current(chunks: Seq<String>, current: Seq<char>) -> Seq<Seq<char>> {
    if current.len() == 0 {
        views(chunks)
    } else {
        views(chunks).push(current)
    }
}

/// Where the first line from `from` on ends, and how many bytes it takes.
fn line_end(chars: &Vec<char>, from: usize) -> (line: (usize, usize))
    requires
        from < chars@.len(),
        utf8::byte_len(chars@.skip(from as int)) <= usize::MAX,
    ensures
        line.0 == from + first_line_len(chars@.skip(from as int)),
        from < line.0 <= chars@.len(),
        line.1 == utf8::byte_len(chars@.subrange(from as int, line.0 as int)),
{
    let mut to: usize = from;
    let mut width: usize = 0;
    let ghost all = chars@.skip(from as int);
    proof {
        lemma_first_line(all);
        assert(chars@.subrange(from as int, from as int) =~= Seq::<char>::empty());
    }
    loop
        invariant_except_break
            from <= to < chars.len(),
            first_line_len(all) == (to - from) + first_line_len(chars@.skip(to as int)),
        invariant
            all == chars@.skip(from as int),
            utf8::byte_len(all) <= usize::MAX,
            width == utf8::byte_len(chars@.subrange(from as int, to as int)),
        ensures
            to == from + first_line_len(all),
            from < to <= chars@.len(),
            width == utf8::byte_len(chars@.subrange(from as int, to as int)),
        decreases chars@.len() - to,
    {
        let c: char = chars[to];
        let w: usize = utf8::char_width(c);
        proof {
            let k = to - from;
            assert(all.take(k + 1) =~= chars@.subrange(from as int, to as int) + seq![c]);
            assert(all.take(k + 1) =~= chars@.subrange(from as int, to + 1));
            utf8::lemma_encode_concat(chars@.subrange(from as int, to as int), seq![c]);
            utf8::lemma_encode_split(all, k + 1);
            assert(chars@.skip(to as int)[0] == c);
            assert(chars@.skip(to as int).drop_first() =~= chars@.skip(to + 1));
            reveal_with_fuel(first_line_len, 2);
        }
        width += w;
        to += 1;
        if c == '\n' || to == chars.len() {
            break;
        }
    }
    (to, width)
}

/// Appends the characters from `from` up to `to`.
fn push_range(current: &mut String, chars: &Vec<char>, from: usize, to: usize)
    requires
        from <= to <= chars@.len(),
    ensures
        final(current)@ == old(current)@ + chars@.subrange(from as int, to as int),
{
    let ghost before = current@;
    let mut i: usize = from;
    assert(before + chars@.subrange(from as int, from as int) =~= before);
    while i < to
        invariant
            from <= i <= to <= chars@.len(),
            current@ == before + chars@.subrange(from as int, i as int),
        decreases to - i,
    {
        current.push(chars[i]);
        assert(before + chars@.subrange(from as int, i + 1) =~= (before + chars@.subrange(
            from as int,
            i as int,
        )).push(chars@[i as int]));
        i += 1;
    }
}

/// Puts a line that is too long for a message into messages, character after character. The
/// message in which it ends stays open.
fn split_line(
    chars: &Vec<char>,
    from: usize,
    to: usize,
    chunks: &mut Vec<String>,
    current: &mut String,
)
    requires
        from < to <= chars@.len(),
        utf8::byte_len(chars@.subrange(from as int, to as int)) > DISCORD_MAX_LEN,
        old(current)@.len() == 0,
    ensures
        with_current(final(chunks)@, final(current)@) == pack(
            with_current(old(chunks)@, old(current)@),
            line_pieces(chars@.subrange(from as int, to as int)),
        ),
        0 < utf8::byte_len(final(current)@) <= DISCORD_MAX_LEN,
{
    let ghost line = chars@.subrange(from as int, to as int);
    let ghost parts = line_pieces(line);
    let ghost before = with_current(chunks@, current@);
    let mut used: usize = 0;
    let mut i: usize = from;
    proof {
        assert(parts.skip(0) =~= parts);
        utf8::lemma_byte_len_bounds(current@);
    }
    while i < to
        invariant
            from <= i <= to <= chars@.len(),
            line == chars@.subrange(from as int, to as int),
            utf8::byte_len(line) > DISCORD_MAX_LEN,
            parts == line_pieces(line),
            used == utf8::byte_len(current@),
            used <= DISCORD_MAX_LEN,
            i == from <==> current@.len() == 0,
            pack(before, parts) == pack(
                with_current(chunks@, current@),
                parts.skip(i - from),
            ),
        decreases to - i,
    {
        let c: char = chars[i];
        let w: usize = utf8::char_width(c);
        let ghost was = with_current(chunks@, current@);
        let ghost piece = parts[i - from];
        proof {
            assert(piece.text == seq![c]);
            assert(parts.skip(i - from)[0] == piece);
            assert(parts.skip(i - from).drop_first() =~= parts.skip(i - from + 1));
            utf8::lemma_byte_len_bounds(current@);
        }
        if used + w > DISCORD_MAX_LEN {
            let mut full = String::new();
            std::mem::swap(&mut full, current);
            chunks.push(full);
            used = 0;
            assert(with_current(chunks@, current@) =~= was);
        }
        let ghost held = current@;
        current.push(c);
        used += w;
        proof {
            assert(held.push(c) =~= held + seq![c]);
            utf8::lemma_encode_concat(held, seq![c]);
            assert(with_current(chunks@, current@) =~= place(was, piece));
        }
        i += 1;
    }
    proof {
        utf8::lemma_byte_len_bounds(current@);
    }
}

/// Splits a reply into messages of at most [`DISCORD_MAX_LEN`] bytes, without cutting a line
/// unless the line alone is too long for a message.
pub fn split_message(text: &str) -> (parts: Vec<String>)
    ensures
        views(parts@) == messages(text@),
{
    let mut chunks: Vec<String> = Vec::new();
    if text.as_bytes().len() <= DISCORD_MAX_LEN {
        chunks.push(text.to_owned());
        assert(views(chunks@) =~= messages(text@));
        return chunks;
    }
    let chars = text::chars_of(text);
    let mut current = String::new();
    let mut used: usize = 0;
    let mut at: usize = 0;
    proof {
        assert(chars@.skip(0) =~= chars@);
        assert(with_current(chunks@, current@) =~= Seq::<Seq<char>>::empty());
    }
    while at < chars.len()
        invariant
            chars@ == text@,
            utf8::byte_len(text@) <= usize::MAX,
            at <= chars@.len(),
            used == utf8::byte_len(current@),
            used <= DISCORD_MAX_LEN,
            used == 0 ==> chunks@.len() == 0,
            pack(seq![], pieces(text@)) == pack(
                with_current(chunks@, current@),
                pieces(chars@.skip(at as int)),
            ),
        decreases chars@.len() - at,
    {
        proof {
            utf8::lemma_encode_split(text@, at as int);
            utf8::lemma_byte_len_bounds(current@);
        }
        let (end, width) = line_end(&chars, at);
        let ghost line = chars@.subrange(at as int, end as int);
        let ghost rest = chars@.skip(at as int);
        let ghost before = with_current(chunks@, current@);
        proof {
            assert(rest.take(end - at) =~= line);
            assert(rest.skip(end - at) =~= chars@.skip(end as int));
            lemma_pack_concat(before, line_pieces(line), pieces(chars@.skip(end as int)));
            utf8::lemma_byte_len_bounds(line);
        }
        if width > DISCORD_MAX_LEN - used && used > 0 {
            chunks.push(current);
            current = String::new();
            used = 0;
            assert(with_current(chunks@, current@) =~= before);
        }
        if width > DISCORD_MAX_LEN {
            split_line(&chars, at, end, &mut chunks, &mut current);
            used = current.as_str().as_bytes().len();
        } else {
            let ghost held = current@;
            push_range(&mut current, &chars, at, end);
            used += width;
            proof {
                utf8::lemma_encode_concat(held, line);
                let piece = Piece { text: line, fresh: false };
                assert(line_pieces(line) == seq![piece]);
                assert(with_current(chunks@, current@) =~= place(before, piece));
                assert(seq![piece].drop_first() =~= Seq::<Piece>::empty());
                reveal_with_fuel(pack, 2);
            }
        }
        at = end;
    }
    if used > 0 {
        chunks.push(current);
    }
    chunks
}

/// The characters from `a` up to `b` are a whole line, its line feed included.
pub open spec fn is_line(text: Seq<char>, a: int, b: int) -> bool {
    &&& 0 <= a < b <= text.len()
    &&& a == 0 || text[a - 1] == '\n'
    &&& forall|i: int| a <= i < b - 1 ==> text[i] != '\n'
    &&& b == text.len() || text[b - 1] == '\n'
}

/// Between two lines, or inside a line that is too long for one message.
pub open spec fn may_cut_at(text: Seq<char>, p: int) -> bool {
    ||| 0 < p <= text.len() && text[p - 1] == '\n'
    ||| exists|a: int, b: int|
        a < p < b && #[trigger] is_line(text, a, b) && utf8::byte_len(text.subrange(a, b))
            > DISCORD_MAX_LEN
}

/// Where the message of this index begins in the text.
pub open spec fn start_of(chunks: Seq<Seq<char>>, i: int) -> int {
    chunks.take(i).flatten().len() as int
}

/// What comes at `p` would not have fitted behind this: the next line where a line begins there,
/// else the next character.
pub open spec fn next_does_not_fit(chunk: Seq<char>, text: Seq<char>, p: int) -> bool {
    let next = if 0 < p && text[p - 1] == '\n' {
        text.subrange(p, p + first_line_len(text.skip(p)))
    } else {
        seq![text[p]]
    };
    utf8::byte_len(chunk) + utf8::byte_len(next) > DISCORD_MAX_LEN
}

/// The messages hold the text up to `done`, each of them something and none too much, and they
/// are cut where they may be and no earlier than they must be.
spec fn sound(text: Seq<char>, done: int, chunks: Seq<Seq<char>>) -> bool {
    &&& 0 <= done <= text.len()
    &&& chunks.flatten() == text.take(done)
    &&& forall|i: int|
        0 <= i < chunks.len() ==> 0 < utf8::byte_len(#[trigger] chunks[i]) <= DISCORD_MAX_LEN
    &&& forall|i: int|
        0 < i < chunks.len() ==> may_cut_at(text, #[trigger] start_of(chunks, i))
            && next_does_not_fit(chunks[i - 1], text, start_of(chunks, i))
}

proof fn lemma_place_sound(text: Seq<char>, done: int, chunks: Seq<Seq<char>>, piece: Piece)
    requires
        sound(text, done, chunks),
        0 < piece.text.len(),
        done + piece.text.len() <= text.len(),
        piece.text == text.subrange(done, done + piece.text.len()),
        utf8::byte_len(piece.text) <= DISCORD_MAX_LEN,
        done == 0 || may_cut_at(text, done),
        chunks.len() > 0 && (piece.fresh || utf8::byte_len(chunks.last()) + utf8::byte_len(
            piece.text,
        ) > DISCORD_MAX_LEN) ==> next_does_not_fit(chunks.last(), text, done),
    ensures
        sound(text, done + piece.text.len(), place(chunks, piece)),
{
    let placed = place(chunks, piece);
    let now = done + piece.text.len();
    utf8::lemma_byte_len_bounds(piece.text);
    assert(text.take(now) =~= text.take(done) + piece.text);
    if chunks.len() > 0 {
        assert(chunks.drop_last().push(chunks.last()) =~= chunks);
        chunks.drop_last().lemma_flatten_push(chunks.last());
        let last = chunks.last();
        assert(0 < utf8::byte_len(chunks[chunks.len() - 1]));
        utf8::lemma_byte_len_bounds(last);
        utf8::lemma_encode_concat(last, piece.text);
        chunks.drop_last().lemma_flatten_push(last + piece.text);
        assert(chunks.drop_last().flatten() + (last + piece.text) =~= chunks.drop_last().flatten()
            + last + piece.text);
        assert(chunks.flatten().len() > 0);
    }
    chunks.lemma_flatten_push(piece.text);
    assert(placed.flatten() =~= text.take(now));
    assert forall|i: int| 0 <= i < placed.len() implies 0 < utf8::byte_len(#[trigger] placed[i])
        <= DISCORD_MAX_LEN by {
        if i < placed.len() - 1 {
            assert(placed[i] == chunks[i]);
        }
    }
    assert forall|i: int| 0 < i < placed.len() implies may_cut_at(
        text,
        #[trigger] start_of(placed, i),
    ) && next_does_not_fit(placed[i - 1], text, start_of(placed, i)) by {
        assert(placed.take(i) =~= chunks.take(i));
        assert(placed[i - 1] == chunks[i - 1]);
        if i < chunks.len() {
            assert(may_cut_at(text, start_of(chunks, i)));
        } else {
            assert(chunks.take(i) =~= chunks);
        }
    }
}

/// Where there are messages, some of the text is done.
proof fn lemma_chunks_fill(text: Seq<char>, done: int, chunks: Seq<Seq<char>>)
    requires
        sound(text, done, chunks),
    ensures
        chunks.len() > 0 ==> done > 0,
{
    if chunks.len() > 0 {
        assert(0 < utf8::byte_len(chunks[0]));
        utf8::lemma_byte_len_bounds(chunks[0]);
        assert(chunks.flatten() == chunks.first() + chunks.drop_first().flatten());
    }
}

/// A line is as long as the first line of what begins where it begins.
proof fn lemma_line_at(text: Seq<char>, a: int, b: int)
    requires
        is_line(text, a, b),
    ensures
        b == a + first_line_len(text.skip(a)),
{
    let rest = text.skip(a);
    let n = first_line_len(rest) as int;
    lemma_first_line(rest);
    if n < b - a {
        assert(rest[n - 1] == text[a + n - 1]);
    } else if n > b - a {
        assert(rest[b - a - 1] == text[b - 1]);
    }
}

/// Packing the characters of a long line from its character `i` on.
proof fn lemma_long_line_sound(
    text: Seq<char>,
    a: int,
    b: int,
    i: int,
    chunks: Seq<Seq<char>>,
    parts: Seq<Piece>,
)
    requires
        is_line(text, a, b),
        utf8::byte_len(text.subrange(a, b)) > DISCORD_MAX_LEN,
        a <= i <= b,
        parts == line_pieces(text.subrange(a, b)).skip(i - a),
        sound(text, i, chunks),
    ensures
        sound(text, b, pack(chunks, parts)),
    decreases b - i,
{
    if i < b {
        let line = text.subrange(a, b);
        let piece = parts[0];
        assert(piece == line_pieces(line)[i - a]);
        assert(piece.text =~= text.subrange(i, i + 1));
        utf8::lemma_encode_single(text[i]);
        assert(piece.text =~= seq![text[i]]);
        if i > a {
            assert(a < i < b && is_line(text, a, b));
        } else {
            lemma_line_at(text, a, b);
        }
        lemma_chunks_fill(text, i, chunks);
        lemma_place_sound(text, i, chunks, piece);
        assert(parts.drop_first() =~= line_pieces(line).skip(i + 1 - a));
        lemma_long_line_sound(text, a, b, i + 1, place(chunks, piece), parts.drop_first());
    }
}

/// Packing the line that begins at `a`, up to its end.
proof fn lemma_line_sound(text: Seq<char>, a: int, chunks: Seq<Seq<char>>) -> (b: int)
    requires
        sound(text, a, chunks),
        a < text.len(),
        a == 0 || text[a - 1] == '\n',
    ensures
        is_line(text, a, b),
        b == a + first_line_len(text.skip(a)),
        text.skip(a).take(b - a) == text.subrange(a, b),
        text.skip(a).skip(b - a) == text.skip(b),
        sound(text, b, pack(chunks, line_pieces(text.subrange(a, b)))),
        pack(chunks, pieces(text.skip(a))) == pack(
            pack(chunks, line_pieces(text.subrange(a, b))),
            pieces(text.skip(b)),
        ),
{
    let rest = text.skip(a);
    lemma_first_line(rest);
    let n = first_line_len(rest) as int;
    let b = a + n;
    let line = text.subrange(a, b);
    assert(rest.take(n) =~= line);
    assert(rest.skip(n) =~= text.skip(b));
    assert forall|i: int| a <= i < b - 1 implies text[i] != '\n' by {
        assert(rest[i - a] == text[i]);
    }
    if b < text.len() {
        assert(rest[n - 1] == text[b - 1]);
    }
    assert(is_line(text, a, b));
    let parts = line_pieces(line);
    lemma_pack_concat(chunks, parts, pieces(text.skip(b)));
    lemma_chunks_fill(text, a, chunks);
    if utf8::byte_len(line) <= DISCORD_MAX_LEN {
        lemma_place_sound(text, a, chunks, parts[0]);
        assert(parts.drop_first() =~= Seq::<Piece>::empty());
        reveal_with_fuel(pack, 2);
    } else {
        assert(parts.skip(0) =~= parts);
        lemma_long_line_sound(text, a, b, a, chunks, parts);
    }
    b
}

/// Packing what stands behind a line's end.
proof fn lemma_pack_sound(text: Seq<char>, a: int, chunks: Seq<Seq<char>>)
    requires
        sound(text, a, chunks),
        a == 0 || a == text.len() || text[a - 1] == '\n',
    ensures
        sound(text, text.len() as int, pack(chunks, pieces(text.skip(a)))),
    decreases text.len() - a,
{
    if a < text.len() {
        let b = lemma_line_sound(text, a, chunks);
        lemma_pack_sound(text, b, pack(chunks, line_pieces(text.subrange(a, b))));
    }
}

proof fn lemma_messages_sound(text: Seq<char>)
    requires
        text.len() > 0,
    ensures
        sound(text, text.len() as int, messages(text)),
{
    assert(text.take(text.len() as int) =~= text);
    utf8::lemma_byte_len_bounds(text);
    if utf8::byte_len(text) <= DISCORD_MAX_LEN {
        seq![text].lemma_flatten_one_element();
    } else {
        assert(text.skip(0) =~= text);
        assert(Seq::<Seq<char>>::empty().flatten() =~= text.take(0));
        lemma_pack_sound(text, 0, seq![]);
    }
}

/// The messages, one after the other, are the text: nothing is lost, added or moved.
pub proof fn law_split_preserves_content(text: Seq<char>)
    ensures
        messages(text).flatten() == text,
{
    if text.len() > 0 {
        lemma_messages_sound(text);
        assert(text.take(text.len() as int) =~= text);
    } else {
        seq![text].lemma_flatten_one_element();
    }
}

/// No message is longer than the limit, in bytes or in characters.
pub proof fn law_split_respects_limit(text: Seq<char>)
    ensures
        forall|i: int|
            0 <= i < messages(text).len() ==> utf8::byte_len(#[trigger] messages(text)[i])
                <= DISCORD_MAX_LEN && messages(text)[i].len() <= DISCORD_MAX_LEN,
{
    if text.len() > 0 {
        lemma_messages_sound(text);
    }
    assert forall|i: int| 0 <= i < messages(text).len() implies utf8::byte_len(
        #[trigger] messages(text)[i],
    ) <= DISCORD_MAX_LEN && messages(text)[i].len() <= DISCORD_MAX_LEN by {
        utf8::lemma_byte_len_bounds(messages(text)[i]);
    }
}

/// There is always a message, and none is empty unless the text is.
pub proof fn law_split_sends_something(text: Seq<char>)
    ensures
        messages(text).len() > 0,
        text.len() > 0 ==> forall|i: int|
            0 <= i < messages(text).len() ==> (#[trigger] messages(text)[i]).len() > 0,
{
    if text.len() > 0 {
        lemma_messages_sound(text);
        law_split_preserves_content(text);
        assert forall|i: int| 0 <= i < messages(text).len() implies (#[trigger] messages(
            text,
        )[i]).len() > 0 by {
            assert(utf8::byte_len(messages(text)[i]) > 0);
            utf8::lemma_byte_len_bounds(messages(text)[i]);
        }
    }
}

/// A message begins inside a line only where that line is too long for one message.
pub proof fn law_split_cuts_only_long_lines(text: Seq<char>)
    ensures
        forall|i: int|
            0 < i < messages(text).len() ==> may_cut_at(
                text,
                #[trigger] start_of(messages(text), i),
            ),
{
    if text.len() > 0 {
        lemma_messages_sound(text);
    }
}

/// No message ends early: the next line would not have fitted behind it, or, inside a line that is
/// too long, the next character.
pub proof fn law_split_fills_messages(text: Seq<char>)
    ensures
        forall|i: int|
            0 < i < messages(text).len() ==> next_does_not_fit(
                messages(text)[i - 1],
                text,
                #[trigger] start_of(messages(text), i),
            ),
{
    if text.len() > 0 {
        lemma_messages_sound(text);
    }
}

/// A text that fits into a message is sent as it is.
pub proof fn law_short_text_is_one_message(text: Seq<char>)
    requires
        encode_utf8(text).len() <= 2000,
    ensures
        messages(text) == seq![text],
{
}

/// No message has more than 2000 bytes, and together they are the text.
pub proof fn law_messages_fit_and_make_up_the_text(text: Seq<char>)
    ensures
        messages(text).flatten() == text,
        forall|i: int|
            0 <= i < messages(text).len() ==> encode_utf8(#[trigger] messages(text)[i]).len()
                <= 2000,
{
    law_split_preserves_content(text);
    law_split_respects_limit(text);
}

/// Where a message begins with a line, that line would not have fitted into the message before;
/// where it begins inside a line, not even the next character would have.
pub proof fn law_messages_are_full(text: Seq<char>, i: int, p: int)
    requires
        0 < i < messages(text).len(),
        p == messages(text).take(i).flatten().len(),
    ensures
        0 < p < text.len(),
        text[p - 1] == '\n' ==> forall|b: int| #[trigger]
            is_line(text, p, b) ==> encode_utf8(messages(text)[i - 1]).len() + encode_utf8(
                text.subrange(p, b),
            ).len() > 2000,
        text[p - 1] != '\n' ==> encode_utf8(messages(text)[i - 1]).len() + encode_utf8(
            seq![text[p]],
        ).len() > 2000,
{
    let all = messages(text);
    if text.len() == 0 {
        assert(encode_utf8(text).len() == 0) by {
            utf8::lemma_byte_len_bounds(text);
        }
    }
    law_split_fills_messages(text);
    law_split_sends_something(text);
    law_split_preserves_content(text);
    assert(p == start_of(all, i));
    assert(all =~= all.take(i) + all.skip(i));
    vstd::seq_lib::lemma_flatten_concat(all.take(i), all.skip(i));
    assert(all.take(i).first() == all[0]);
    assert(all.skip(i).first() == all[i]);
    assert(all.take(i).flatten() == all.take(i).first() + all.take(i).drop_first().flatten());
    assert(all.skip(i).flatten() == all.skip(i).first() + all.skip(i).drop_first().flatten());
    assert forall|b: int| #[trigger] is_line(text, p, b) implies b == p + first_line_len(
        text.skip(p),
    ) by {
        lemma_line_at(text, p, b);
    }
}

/// Messages that are done stay as they are.
proof fn lemma_pack_keeps(chunks: Seq<Seq<char>>, parts: Seq<Piece>, k: int)
    requires
        0 <= k < chunks.len(),
    ensures
        k < pack(chunks, parts).len(),
        pack(chunks, parts).take(k) == chunks.take(k),
    decreases parts.len(),
{
    if parts.len() > 0 {
        let placed = place(chunks, parts[0]);
        assert(placed.take(k) =~= chunks.take(k));
        lemma_pack_keeps(placed, parts.drop_first(), k);
    }
}

proof fn lemma_long_line_begins(
    text: Seq<char>,
    p: int,
    chunks: Seq<Seq<char>>,
    a: int,
    b: int,
) -> (k: int)
    requires
        sound(text, p, chunks),
        p == 0 || text[p - 1] == '\n',
        p <= a,
        is_line(text, a, b),
        utf8::byte_len(text.subrange(a, b)) > DISCORD_MAX_LEN,
    ensures
        0 <= k < pack(chunks, pieces(text.skip(p))).len(),
        start_of(pack(chunks, pieces(text.skip(p))), k) == a,
    decreases a - p,
{
    let q = lemma_line_sound(text, p, chunks);
    let parts = line_pieces(text.subrange(p, q));
    if p == a {
        lemma_line_at(text, a, b);
        let k = chunks.len() as int;
        let piece = parts[0];
        let placed = place(chunks, piece);
        assert(placed == chunks.push(piece.text));
        assert(placed.take(k) =~= chunks);
        let rest = pieces(text.skip(q));
        lemma_pack_concat(chunks, parts, rest);
        assert((parts + rest).drop_first() =~= parts.drop_first() + rest);
        lemma_pack_keeps(placed, parts.drop_first() + rest, k);
        k
    } else {
        if q > a {
            assert(text[a - 1] == '\n');
        }
        lemma_long_line_begins(text, q, pack(chunks, parts), a, b)
    }
}

/// A line that is too long for one message begins a message.
pub proof fn law_long_line_begins_a_message(text: Seq<char>, a: int, b: int) -> (k: int)
    requires
        is_line(text, a, b),
        encode_utf8(text.subrange(a, b)).len() > 2000,
    ensures
        0 <= k < messages(text).len(),
        messages(text).take(k).flatten().len() == a,
{
    utf8::lemma_encode_split(text, b);
    assert(text.take(b).skip(a) =~= text.subrange(a, b));
    utf8::lemma_encode_split(text.take(b), a);
    assert(text.skip(0) =~= text);
    assert(Seq::<Seq<char>>::empty().flatten() =~= text.take(0));
    lemma_long_line_begins(text, 0, seq![], a, b)
}

/// The texts are viewed one by one, in order.
pub proof fn law_every_text_is_viewed(texts: Seq<String>)
    ensures
        views(texts).len() == texts.len(),
        forall|i: int| 0 <= i < texts.len() ==> #[trigger] views(texts)[i] == texts[i]@,
{
}

/// A line that fits into a message is never cut: no message begins inside it.
pub proof fn law_line_that_fits_stays_whole(text: Seq<char>, a: int, b: int, i: int)
    requires
        is_line(text, a, b),
        encode_utf8(text.subrange(a, b)).len() <= 2000,
        0 < i < messages(text).len(),
    ensures
        messages(text).take(i).flatten().len() <= a || b <= messages(text).take(i).flatten().len(),
{
    law_split_cuts_only_long_lines(text);
    let p = start_of(messages(text), i);
    assert(may_cut_at(text, p));
    if a < p < b {
        assert(text[p - 1] != '\n');
        let (c, d) = choose|c: int, d: int|
            c < p < d && #[trigger] is_line(text, c, d) && utf8::byte_len(text.subrange(c, d))
                > DISCORD_MAX_LEN;
        if c < a {
            assert(text[a - 1] == '\n');
        } else if a < c {
            assert(text[c - 1] == '\n');
        }
        lemma_line_at(text, a, b);
        lemma_line_at(text, c, d);
    }
}

} // verus!
