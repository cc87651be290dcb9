//! Removal of the reasoning that some models put in front of their answer, between
//! `<think>` and `</think>`.

use crate::search;
use crate::text;
use crate::utf8;
use vstd::prelude::*;
use vstd::string::*;
use vstd::utf8::*;

verus! {

/// The tag that opens a block of reasoning.
pub const OPEN_TAG: &'static str = "<think>";

/// The tag that closes a block of reasoning.
pub const CLOSE_TAG: &'static str = "</think>";

/// The two tags are ASCII, and this long.
pub proof fn lemma_tags()
    ensures
        OPEN_TAG@.len() == 7,
        CLOSE_TAG@.len() == 8,
        is_ascii_chars(OPEN_TAG@),
        is_ascii_chars(CLOSE_TAG@),
        search::starts_unlike_rest(OPEN_TAG@),
        search::starts_unlike_rest(CLOSE_TAG@),
{
    reveal_strlit("<think>");
    reveal_strlit("</think>");
}

/// The text without its blocks of reasoning: from each opening tag up to the next closing tag,
/// or up to the end where no closing tag follows.
pub open spec fn without_blocks(text: Seq<char>) -> Seq<char>
    decreases text.len(),
{
    match search::first_of(text, OPEN_TAG@) {
        None => text,
        Some(open) => {
            let after = text.skip(open + OPEN_TAG@.len());
            match search::first_of(after, CLOSE_TAG@) {
                None => text.take(open),
                Some(close) => {
                    let rest = after.skip(close + CLOSE_TAG@.len());
                    proof {
                        lemma_tags();
                        search::lemma_first_from(text, OPEN_TAG@, 0);
                        search::lemma_first_from(after, CLOSE_TAG@, 0);
                    }
                    text.take(open) + without_blocks(rest)
                },
            }
        },
    }
}

/// The text behind its first closing tag, or the whole text where it has none.
pub open spec fn after_lone_close(text: Seq<char>) -> Seq<char> {
    match search::first_of(text, CLOSE_TAG@) {
        None => text,
        Some(close) => text.skip(close + CLOSE_TAG@.len()),
    }
}

/// What is left of a reply once its reasoning is gone.
pub open spec fn stripped(text: Seq<char>) -> Seq<char> {
    text::trimmed(after_lone_close(without_blocks(text)))
}

/// Cuts a text in front of the first occurrence of a tag and behind it.
fn cut_at_tag<'a>(text: &'a str, tag: &str) -> (cut: Option<(&'a str, &'a str)>)
    requires
        is_ascii_chars(tag@),
        tag@.len() > 0,
    ensures
        match search::first_of(text@, tag@) {
            None => cut is None,
            Some(at) => {
                &&& 0 <= at <= text@.len() - tag@.len()
                &&& cut matches Some((before, behind))
                &&& before@ == text@.take(at)
                &&& behind@ == text@.skip(at + tag@.len())
            },
        },
{
    proof {
        search::law_ascii_needle_is_found_at_a_character(text@, tag@);
    }
    match search::find_ci(text, tag) {
        None => None,
        Some(at) => {
            let ghost k = search::first_of(text@, tag@)->0;
            let width: usize = tag.as_bytes().len();
            proof {
                is_ascii_chars_encode_utf8(tag@);
                search::lemma_first_from(text@, tag@, 0);
                search::lemma_run_bytes(text@, tag@, k, tag@.len() as int);
                assert(text@.take(k + tag@.len()).take(k) =~= text@.take(k));
                assert(text@.skip(k).take(tag@.len() as int) =~= text@.take(k + tag@.len()).skip(k));
                utf8::lemma_encode_split(text@.take(k + tag@.len()), k);
            }
            let (before, tagged) = utf8::split_chars(text, at, Ghost(k));
            let (_, behind) = utf8::split_chars(tagged, width, Ghost(tag@.len() as int));
            assert(text@.skip(k).skip(tag@.len() as int) =~= text@.skip(k + tag@.len()));
            Some((before, behind))
        },
    }
}

/// Removes every block of reasoning from a reply, and the white space around what is left.
///
/// A block that is never closed loses everything to the end; a closing tag without an opening
/// one loses everything in front of it.
pub fn strip_reasoning(text: &str) -> (reply: String)
    ensures
        reply@ == stripped(text@),
{
    let mut out = String::new();
    let mut rest: &str = text;
    let mut open: bool = true;
    proof {
        lemma_tags();
    }
    assert(out@ + without_blocks(rest@) =~= without_blocks(text@));
    while open
        invariant
            is_ascii_chars(OPEN_TAG@),
            is_ascii_chars(CLOSE_TAG@),
            OPEN_TAG@.len() == 7,
            CLOSE_TAG@.len() == 8,
            open ==> out@ + without_blocks(rest@) == without_blocks(text@),
            !open ==> out@ == without_blocks(text@),
        decreases (if open { rest@.len() + 1 } else { 0 }),
    {
        let ghost done = out@;
        match cut_at_tag(rest, OPEN_TAG) {
            None => {
                out.append(rest);
                open = false;
            },
            Some((before, block)) => {
                out.append(before);
                match cut_at_tag(block, CLOSE_TAG) {
                    None => {
                        open = false;
                    },
                    Some((_, behind)) => {
                        assert(done + (before@ + without_blocks(behind@)) =~= (done + before@)
                            + without_blocks(behind@));
                        rest = behind;
                    },
                }
            },
        }
    }
    match cut_at_tag(out.as_str(), CLOSE_TAG) {
        None => text::trim(out.as_str()).to_owned(),
        Some((_, behind)) => text::trim(behind).to_owned(),
    }
}

/// A reply without tags loses only the white space around it.
pub proof fn law_untagged_reply_is_kept(text: Seq<char>)
    requires
        search::absent(text, OPEN_TAG@),
        search::absent(text, CLOSE_TAG@),
    ensures
        stripped(text) == text::trimmed(text),
{
    search::lemma_first_is_none(text, OPEN_TAG@, 0);
    search::lemma_first_is_none(text, CLOSE_TAG@, 0);
}

/// A closed block is cut out, tags and all, whatever the case of the tags; what stands behind it
/// is treated in the same way, so any number of blocks goes.
pub proof fn law_closed_block_is_removed(
    front: Seq<char>,
    open: Seq<char>,
    thoughts: Seq<char>,
    close: Seq<char>,
    rest: Seq<char>,
)
    requires
        search::absent(front, OPEN_TAG@),
        search::same_but_case(open, OPEN_TAG@),
        search::absent(thoughts, CLOSE_TAG@),
        search::same_but_case(close, CLOSE_TAG@),
    ensures
        without_blocks(front + open + thoughts + close + rest) == front + without_blocks(rest),
        front.len() == 0 ==> stripped(front + open + thoughts + close + rest) == stripped(rest),
{
    lemma_tags();
    let text = front + open + thoughts + close + rest;
    let after = thoughts + close + rest;
    assert(text =~= front + open + after);
    search::lemma_found_behind(front, open, after, OPEN_TAG@);
    assert(text.skip((front.len() + OPEN_TAG@.len()) as int) =~= after);
    search::lemma_found_behind(thoughts, close, rest, CLOSE_TAG@);
    assert(after.skip((thoughts.len() + CLOSE_TAG@.len()) as int) =~= rest);
    assert(text.take(front.len() as int) =~= front);
    assert(front.len() == 0 ==> front + without_blocks(rest) =~= without_blocks(rest));
}

/// A block that is never closed is cut out up to the end.
pub proof fn law_unclosed_block_is_removed(front: Seq<char>, open: Seq<char>, thoughts: Seq<char>)
    requires
        search::absent(front, OPEN_TAG@),
        search::same_but_case(open, OPEN_TAG@),
        search::absent(thoughts, CLOSE_TAG@),
    ensures
        without_blocks(front + open + thoughts) == front,
        search::absent(front, CLOSE_TAG@) ==> stripped(front + open + thoughts) == text::trimmed(
            front,
        ),
{
    lemma_tags();
    let text = front + open + thoughts;
    search::lemma_found_behind(front, open, thoughts, OPEN_TAG@);
    assert(text.skip((front.len() + OPEN_TAG@.len()) as int) =~= thoughts);
    search::lemma_first_is_none(thoughts, CLOSE_TAG@, 0);
    assert(text.take(front.len() as int) =~= front);
    if search::absent(front, CLOSE_TAG@) {
        search::lemma_first_is_none(front, CLOSE_TAG@, 0);
    }
}

/// Where the opening tag was left out, everything up to the closing tag is reasoning.
pub proof fn law_implicit_block_is_removed(
    thoughts: Seq<char>,
    close: Seq<char>,
    answer: Seq<char>,
)
    requires
        search::absent(thoughts + close + answer, OPEN_TAG@),
        search::absent(thoughts, CLOSE_TAG@),
        search::same_but_case(close, CLOSE_TAG@),
    ensures
        stripped(thoughts + close + answer) == text::trimmed(answer),
{
    lemma_tags();
    let text = thoughts + close + answer;
    search::lemma_first_is_none(text, OPEN_TAG@, 0);
    search::lemma_found_behind(thoughts, close, answer, CLOSE_TAG@);
    assert(text.skip((thoughts.len() + CLOSE_TAG@.len()) as int) =~= answer);
}

/// The stretches of a text that stand outside its blocks of reasoning.
pub open spec fn kept_pieces(text: Seq<char>) -> Seq<Seq<char>>
    decreases text.len(),
{
    match search::first_of(text, OPEN_TAG@) {
        None => seq![text],
        Some(open) => {
            let after = text.skip(open + OPEN_TAG@.len());
            match search::first_of(after, CLOSE_TAG@) {
                None => seq![text.take(open)],
                Some(close) => {
                    let rest = after.skip(close + CLOSE_TAG@.len());
                    proof {
                        lemma_tags();
                        search::lemma_first_from(text, OPEN_TAG@, 0);
                        search::lemma_first_from(after, CLOSE_TAG@, 0);
                    }
                    seq![text.take(open)] + kept_pieces(rest)
                },
            }
        },
    }
}

/// What is kept is made of stretches of the text none of which holds an opening tag. (Joining
/// two of them can make one: `<thi<think></think>nk>`.)
pub proof fn law_kept_pieces_hold_no_opening_tag(text: Seq<char>)
    ensures
        kept_pieces(text).flatten() == without_blocks(text),
        forall|i: int|
            0 <= i < kept_pieces(text).len() ==> search::absent(
                #[trigger] kept_pieces(text)[i],
                OPEN_TAG@,
            ),
    decreases text.len(),
{
    lemma_tags();
    search::lemma_first_from(text, OPEN_TAG@, 0);
    match search::first_of(text, OPEN_TAG@) {
        None => {
            seq![text].lemma_flatten_one_element();
        },
        Some(open) => {
            let front = text.take(open);
            assert forall|i: int| !search::occurs_at(front, OPEN_TAG@, i) by {
                if search::occurs_at(front, OPEN_TAG@, i) {
                    assert forall|j: int|
                        0 <= j < OPEN_TAG@.len() implies search::lower_char(#[trigger] text[i + j])
                        == search::lower_char(OPEN_TAG@[j]) by {
                        assert(front[i + j] == text[i + j]);
                    }
                    assert(search::occurs_at(text, OPEN_TAG@, i));
                }
            }
            seq![front].lemma_flatten_one_element();
            let after = text.skip(open + OPEN_TAG@.len());
            search::lemma_first_from(after, CLOSE_TAG@, 0);
            if let Some(close) = search::first_of(after, CLOSE_TAG@) {
                let rest = after.skip(close + CLOSE_TAG@.len());
                law_kept_pieces_hold_no_opening_tag(rest);
                let pieces = seq![front] + kept_pieces(rest);
                assert(pieces.drop_first() =~= kept_pieces(rest));
                assert(pieces[0] == front);
                assert forall|i: int| 0 <= i < pieces.len() implies search::absent(
                    #[trigger] pieces[i],
                    OPEN_TAG@,
                ) by {
                    if i > 0 {
                        assert(pieces[i] == kept_pieces(rest)[i - 1]);
                    }
                }
            }
        },
    }
}

/// The shown reply neither begins nor ends with white space.
pub proof fn law_stripped_reply_is_trimmed(text: Seq<char>)
    ensures
        text::trimmed(stripped(text)) == stripped(text),
{
    text::law_trim_twice(after_lone_close(without_blocks(text)));
}

/// Replies that differ only in the case of ASCII letters are stripped alike.
pub proof fn law_strip_ignores_case(a: Seq<char>, b: Seq<char>)
    requires
        search::same_but_case(a, b),
    ensures
        search::same_but_case(stripped(a), stripped(b)),
{
    lemma_blocks_ignore_case(a, b);
    let x = without_blocks(a);
    let y = without_blocks(b);
    search::law_search_ignores_case(x, y, CLOSE_TAG@);
    search::lemma_first_from(x, CLOSE_TAG@, 0);
    let p = after_lone_close(x);
    let q = after_lone_close(y);
    assert(search::same_but_case(p, q));
    let i = text::law_trim_keeps_the_core(p);
    let j = text::law_trim_keeps_the_core(q);
    assert forall|k: int| 0 <= k < p.len() implies text::is_white_space(#[trigger] p[k])
        == text::is_white_space(q[k]) by {
        assert(search::lower_char(p[k]) == search::lower_char(q[k]));
    }
    if i.0 < i.1 {
        assert(text::is_white_space(p[i.0]) == text::is_white_space(q[i.0]));
        assert(text::is_white_space(p[i.1 - 1]) == text::is_white_space(q[i.1 - 1]));
    }
    if j.0 < j.1 {
        assert(text::is_white_space(p[j.0]) == text::is_white_space(q[j.0]));
        assert(text::is_white_space(p[j.1 - 1]) == text::is_white_space(q[j.1 - 1]));
    }
}

proof fn lemma_blocks_ignore_case(a: Seq<char>, b: Seq<char>)
    requires
        search::same_but_case(a, b),
    ensures
        search::same_but_case(without_blocks(a), without_blocks(b)),
    decreases a.len(),
{
    lemma_tags();
    search::law_search_ignores_case(a, b, OPEN_TAG@);
    search::lemma_first_from(a, OPEN_TAG@, 0);
    if let Some(open) = search::first_of(a, OPEN_TAG@) {
        let p = a.skip(open + OPEN_TAG@.len());
        let q = b.skip(open + OPEN_TAG@.len());
        search::law_search_ignores_case(p, q, CLOSE_TAG@);
        search::lemma_first_from(p, CLOSE_TAG@, 0);
        if let Some(close) = search::first_of(p, CLOSE_TAG@) {
            lemma_blocks_ignore_case(
                p.skip(close + CLOSE_TAG@.len()),
                q.skip(close + CLOSE_TAG@.len()),
            );
        }
    }
}

/// A closed block of reasoning and what stands behind it, up to the next block.
pub ghost struct Block {
    /// The tag that opens it.
    pub open: Seq<char>,
    /// What is inside.
    pub thoughts: Seq<char>,
    /// The tag that closes it.
    pub close: Seq<char>,
    /// What stands behind it.
    pub rest: Seq<char>,
}

impl Block {
    /// The tags are the two tags in any case, the first closing tag ends the block, and no block
    /// opens in what stands behind it.
    pub open spec fn wf(self) -> bool {
        &&& search::same_but_case(self.open, "<think>"@)
        &&& search::absent(self.thoughts, "</think>"@)
        &&& search::same_but_case(self.close, "</think>"@)
        &&& search::absent(self.rest, "<think>"@)
    }
}

/// Nothing, or a block that is opened and never closed.
pub open spec fn is_unclosed(tail: Seq<char>) -> bool {
    ||| tail.len() == 0
    ||| {
        &&& tail.len() >= 7
        &&& search::same_but_case(tail.take(7), "<think>"@)
        &&& search::absent(tail.skip(7), "</think>"@)
    }
}

/// A reply as the model wrote it: some text, then the blocks each with what stands behind it, then
/// the end.
pub open spec fn written(front: Seq<char>, blocks: Seq<Block>, tail: Seq<char>) -> Seq<char>
    decreases blocks.len(),
{
    if blocks.len() == 0 {
        front + tail
    } else {
        front + blocks[0].open + blocks[0].thoughts + blocks[0].close + written(
            blocks[0].rest,
            blocks.drop_first(),
            tail,
        )
    }
}

/// What stands outside the blocks.
pub open spec fn outside(front: Seq<char>, blocks: Seq<Block>) -> Seq<char>
    decreases blocks.len(),
{
    if blocks.len() == 0 {
        front
    } else {
        front + outside(blocks[0].rest, blocks.drop_first())
    }
}

/// The parts of a reply are what their names say.
pub open spec fn is_reply(front: Seq<char>, blocks: Seq<Block>, tail: Seq<char>) -> bool {
    &&& search::absent(front, "<think>"@)
    &&& forall|i: int| 0 <= i < blocks.len() ==> (#[trigger] blocks[i]).wf()
    &&& is_unclosed(tail)
}

proof fn lemma_outside(front: Seq<char>, blocks: Seq<Block>, tail: Seq<char>)
    requires
        is_reply(front, blocks, tail),
    ensures
        without_blocks(written(front, blocks, tail)) == outside(front, blocks),
    decreases blocks.len(),
{
    if blocks.len() > 0 {
        let first = blocks[0];
        let more = blocks.drop_first();
        assert forall|i: int| 0 <= i < more.len() implies (#[trigger] more[i]).wf() by {
            assert(more[i] == blocks[i + 1]);
        }
        assert(first.wf());
        lemma_outside(first.rest, more, tail);
        law_closed_block_is_removed(
            front,
            first.open,
            first.thoughts,
            first.close,
            written(first.rest, more, tail),
        );
    } else if tail.len() > 0 {
        assert(tail =~= tail.take(7) + tail.skip(7));
        assert(front + tail =~= front + tail.take(7) + tail.skip(7));
        law_unclosed_block_is_removed(front, tail.take(7), tail.skip(7));
    } else {
        assert(front + tail =~= front);
        search::lemma_first_is_none(front, OPEN_TAG@, 0);
    }
}

/// Every text is a reply made of such parts, so that what is said of these is said of all.
pub proof fn law_every_text_is_a_reply(text: Seq<char>) -> (parts: (
    Seq<char>,
    Seq<Block>,
    Seq<char>,
))
    ensures
        is_reply(parts.0, parts.1, parts.2),
        written(parts.0, parts.1, parts.2) == text,
    decreases text.len(),
{
    lemma_tags();
    search::lemma_first_from(text, OPEN_TAG@, 0);
    match search::first_of(text, OPEN_TAG@) {
        None => {
            assert(text + Seq::<char>::empty() =~= text);
            assert forall|i: int| !search::occurs_at(text, OPEN_TAG@, i) by {}
            (text, Seq::<Block>::empty(), Seq::<char>::empty())
        },
        Some(at) => {
            let front = text.take(at);
            search::lemma_absent_before(text, OPEN_TAG@, at);
            let open = text.subrange(at, at + 7);
            search::law_occurrence_is_the_needle(text, OPEN_TAG@, at);
            let after = text.skip(at + 7);
            search::lemma_first_from(after, CLOSE_TAG@, 0);
            match search::first_of(after, CLOSE_TAG@) {
                None => {
                    let tail = text.skip(at);
                    assert(tail.take(7) =~= open);
                    assert(tail.skip(7) =~= after);
                    assert(front + tail =~= text);
                    assert forall|i: int| !search::occurs_at(after, CLOSE_TAG@, i) by {}
                    (front, Seq::<Block>::empty(), tail)
                },
                Some(end) => {
                    let thoughts = after.take(end);
                    let close = after.subrange(end, end + 8);
                    search::lemma_absent_before(after, CLOSE_TAG@, end);
                    search::law_occurrence_is_the_needle(after, CLOSE_TAG@, end);
                    let (rest, more, tail) = law_every_text_is_a_reply(after.skip(end + 8));
                    let first = Block { open, thoughts, close, rest };
                    let blocks = seq![first] + more;
                    assert(blocks.drop_first() =~= more);
                    assert forall|i: int| 0 <= i < blocks.len() implies (
                    #[trigger] blocks[i]).wf() by {
                        if i > 0 {
                            assert(blocks[i] == more[i - 1]);
                        }
                    }
                    assert(front + open + thoughts + close + after.skip(end + 8) =~= text);
                    (front, blocks, tail)
                },
            }
        },
    }
}

/// What is shown of a reply is what stands outside its blocks of reasoning, in order and without
/// the white space around it, where no closing tag is left in it.
pub proof fn law_what_stands_outside_is_shown(
    front: Seq<char>,
    blocks: Seq<Block>,
    tail: Seq<char>,
)
    requires
        is_reply(front, blocks, tail),
        search::absent(outside(front, blocks), "</think>"@),
    ensures
        stripped(written(front, blocks, tail)) == text::trimmed(outside(front, blocks)),
{
    lemma_outside(front, blocks, tail);
    search::lemma_first_is_none(outside(front, blocks), CLOSE_TAG@, 0);
}

/// Where a closing tag is left outside the blocks, only what stands behind the first such tag is
/// shown.
pub proof fn law_what_stands_behind_a_lone_close_is_shown(
    front: Seq<char>,
    blocks: Seq<Block>,
    tail: Seq<char>,
    thoughts: Seq<char>,
    close: Seq<char>,
    answer: Seq<char>,
)
    requires
        is_reply(front, blocks, tail),
        outside(front, blocks) == thoughts + close + answer,
        search::absent(thoughts, "</think>"@),
        search::same_but_case(close, "</think>"@),
    ensures
        stripped(written(front, blocks, tail)) == text::trimmed(answer),
{
    lemma_tags();
    lemma_outside(front, blocks, tail);
    search::lemma_found_behind(thoughts, close, answer, CLOSE_TAG@);
    assert((thoughts + close + answer).skip((thoughts.len() + CLOSE_TAG@.len()) as int)
        =~= answer);
}

} // verus!
