//! Recognition of the word that calls the bot.

use crate::search;
use crate::text;
use crate::utf8;
use vstd::prelude::*;
use vstd::string::*;
use vstd::utf8::*;

verus! {

/// Word that triggers the bot, e.g. `ataulfo what is the capital of France?`.
pub const TRIGGER: &'static str = "ataulfo";

/// What follows the trigger word, where the text begins with it as a whole word: at the end of
/// the text, or in front of something that is neither a letter nor a number.
pub open spec fn prompt_of(content: Seq<char>) -> Option<Seq<char>> {
    let start = text::trimmed_start(content);
    let rest = start.skip(TRIGGER@.len() as int);
    if !search::occurs_at(start, TRIGGER@, 0) {
        None
    } else if rest.len() > 0 && text::is_alphanumeric(rest[0]) {
        None
    } else {
        Some(text::trimmed(rest))
    }
}

proof fn lemma_trigger()
    ensures
        TRIGGER@.len() == 7,
        is_ascii_chars(TRIGGER@),
{
    reveal_strlit("ataulfo");
}

/// The prompt in what follows the trigger, given whether that goes on with the same word.
pub fn prompt_behind(rest: &str, continues: bool) -> (prompt: Option<&str>)
    ensures
        match prompt {
            Some(said) => !continues && said@ == text::trimmed(rest@),
            None => continues,
        },
{
    if continues {
        None
    } else {
        Some(text::trim(rest))
    }
}

/// If the text begins with the trigger word, in any case and as a whole word, gives what follows
/// it, trimmed.
pub fn extract_prompt(content: &str) -> (prompt: Option<&str>)
    ensures
        match prompt {
            Some(rest) => prompt_of(content@) == Some(rest@),
            None => prompt_of(content@) is None,
        },
{
    proof {
        lemma_trigger();
    }
    let start = text::trim_start(content);
    if !search::starts_with_ci(start, TRIGGER) {
        return None;
    }
    proof {
        search::lemma_run_bytes(start@, TRIGGER@, 0, TRIGGER@.len() as int);
        assert(start@.take(0) =~= Seq::<char>::empty());
        is_ascii_chars_encode_utf8(TRIGGER@);
    }
    let (_, rest) = utf8::split_chars(start, TRIGGER.as_bytes().len(), Ghost(TRIGGER@.len() as int));
    let continues: bool = !rest.is_empty() && rest.get_char(0).is_alphanumeric();
    prompt_behind(rest, continues)
}

/// The trigger word is recognised in any case, behind any white space, at the end of the text or
/// in front of anything but a letter or a number; the prompt is what follows.
pub proof fn law_trigger_word_is_recognised(white: Seq<char>, word: Seq<char>, rest: Seq<char>)
    requires
        forall|i: int| 0 <= i < white.len() ==> text::is_white_space(#[trigger] white[i]),
        search::same_but_case(word, TRIGGER@),
        rest.len() > 0 ==> !text::is_alphanumeric(rest[0]),
    ensures
        prompt_of(white + word + rest) == Some(text::trimmed(rest)),
{
    lemma_start(white, word, rest);
}

/// A longer word that begins like the trigger does not call the bot.
pub proof fn law_longer_word_is_not_the_trigger(
    white: Seq<char>,
    word: Seq<char>,
    rest: Seq<char>,
)
    requires
        forall|i: int| 0 <= i < white.len() ==> text::is_white_space(#[trigger] white[i]),
        search::same_but_case(word, TRIGGER@),
        rest.len() > 0,
        text::is_alphanumeric(rest[0]),
    ensures
        prompt_of(white + word + rest) is None,
{
    lemma_start(white, word, rest);
}

/// Only a text whose first word is the trigger calls the bot: it is white space, the trigger,
/// and the rest from which the prompt is taken.
pub proof fn law_prompt_needs_the_trigger(content: Seq<char>) -> (at: int)
    requires
        prompt_of(content) is Some,
    ensures
        0 <= at <= content.len() - TRIGGER@.len(),
        forall|i: int| 0 <= i < at ==> text::is_white_space(#[trigger] content[i]),
        search::same_but_case(content.subrange(at, at + TRIGGER@.len()), TRIGGER@),
        ({
            let rest = content.skip(at + TRIGGER@.len());
            &&& rest.len() > 0 ==> !text::is_alphanumeric(rest[0])
            &&& prompt_of(content) == Some(text::trimmed(rest))
        }),
{
    let at = text::lemma_trimmed_start(content);
    let start = text::trimmed_start(content);
    let word = content.subrange(at, at + TRIGGER@.len());
    assert forall|i: int| 0 <= i < word.len() implies search::lower_char(#[trigger] word[i])
        == search::lower_char(TRIGGER@[i]) by {
        assert(start[0 + i] == word[i]);
    }
    assert(start.skip(TRIGGER@.len() as int) =~= content.skip(at + TRIGGER@.len()));
    at
}

/// The prompt neither begins nor ends with white space.
pub proof fn law_prompt_is_trimmed(content: Seq<char>)
    requires
        prompt_of(content) is Some,
    ensures
        text::trimmed(prompt_of(content)->0) == prompt_of(content)->0,
{
    text::law_trim_twice(text::trimmed_start(content).skip(TRIGGER@.len() as int));
}

proof fn lemma_start(white: Seq<char>, word: Seq<char>, rest: Seq<char>)
    requires
        forall|i: int| 0 <= i < white.len() ==> text::is_white_space(#[trigger] white[i]),
        search::same_but_case(word, TRIGGER@),
    ensures
        text::trimmed_start(white + word + rest) == word + rest,
        search::occurs_at(word + rest, TRIGGER@, 0),
        (word + rest).skip(TRIGGER@.len() as int) == rest,
{
    lemma_trigger();
    reveal_strlit("ataulfo");
    let start = word + rest;
    assert(white + word + rest =~= white + start);
    text::lemma_trimmed_start_skips(white, start);
    assert(search::lower_char(word[0]) == search::lower_char(TRIGGER@[0]));
    assert(start[0] == word[0]);
    assert forall|j: int| 0 <= j < TRIGGER@.len() implies search::lower_char(
        #[trigger] start[0 + j],
    ) == search::lower_char(TRIGGER@[j]) by {
        assert(start[j] == word[j]);
    }
    assert(start.skip(TRIGGER@.len() as int) =~= rest);
}

/// Behind any white space, `ataulfo` in any case calls the bot unless a letter or a number follows
/// it, and the prompt is the rest without the white space around it.
pub proof fn law_ataulfo_calls_the_bot(white: Seq<char>, word: Seq<char>, rest: Seq<char>)
    requires
        forall|i: int| 0 <= i < white.len() ==> text::is_white_space(#[trigger] white[i]),
        search::same_but_case(word, "ataulfo"@),
    ensures
        prompt_of(white + word + rest) == (if rest.len() > 0 && text::is_alphanumeric(rest[0]) {
            None
        } else {
            Some(text::trimmed(rest))
        }),
{
    lemma_start(white, word, rest);
}

} // verus!
