//! Messages as they arrive, and the turns of conversation that they are remembered as.

use crate::text;
use vstd::prelude::*;
use vstd::string::*;

verus! {

/// Cap on how much of a replied-to message is quoted into a turn, in characters.
pub const QUOTE_MAX_LEN: usize = 280;

/// Cap on how much of a speaker's name is kept in a turn, in characters.
pub const NAME_MAX_LEN: usize = 32;

/// Who wrote a message.
pub struct Author {
    /// The account's identifier.
    pub id: u64,
    /// Whether the account is a bot's.
    pub bot: bool,
    /// The account's user name.
    pub name: String,
    /// The name that the account shows everywhere, if it has one.
    pub global_name: Option<String>,
}

/// A message of a channel.
pub struct Message {
    /// The channel that it was written in.
    pub channel_id: u64,
    /// Who wrote it.
    pub author: Author,
    /// The name that the author has on this server, if they have one.
    pub nick: Option<String>,
    /// Its text.
    pub content: String,
    /// The accounts that it mentions.
    pub mentions: Vec<u64>,
    /// The message that it replies to, if it is a reply.
    pub referenced_message: Option<Box<Message>>,
}

/// The name with a space for each control character, trimmed and shortened.
pub open spec fn sanitized(name: Seq<char>) -> Seq<char> {
    text::truncated(text::trimmed(without_controls(name)), NAME_MAX_LEN as nat)
}

/// The text with a space for each control character.
pub open spec fn without_controls(name: Seq<char>) -> Seq<char> {
    name.map_values(|c: char| if text::is_control(c) { ' ' } else { c })
}

/// The best name for the author: that on the server, then that shown everywhere, then the user
/// name.
pub open spec fn raw_name(msg: Message) -> Seq<char> {
    match msg.nick {
        Some(nick) => nick@,
        None => match msg.author.global_name {
            Some(name) => name@,
            None => msg.author.name@,
        },
    }
}

/// The text of the message that this one replies to, trimmed, if there is any.
pub open spec fn quoted(msg: Message) -> Option<Seq<char>> {
    match msg.referenced_message {
        Some(referenced) => if text::trimmed(referenced.content@).len() > 0 {
            Some(text::trimmed(referenced.content@))
        } else {
            None
        },
        None => None,
    }
}

/// The message as a turn of conversation.
pub open spec fn turn_text(msg: Message, said: Seq<char>) -> Seq<char> {
    let author = sanitized(raw_name(msg));
    match quoted(msg) {
        Some(quote) => author + " (en respuesta a "@ + sanitized(
            raw_name(*msg.referenced_message->0),
        ) + ": \""@ + text::truncated(quote, QUOTE_MAX_LEN as nat) + "\"): "@ + said,
        None => author + ": "@ + said,
    }
}

/// Replaces control characters and clamps the length, so that a crafted name cannot forge a turn.
pub fn sanitize_name(name: &str) -> (clean: String)
    ensures
        clean@ == sanitized(name@),
{
    let mut cleaned = String::new();
    for c in it: name.chars()
        invariant
            it.seq() == name@,
            cleaned@ == without_controls(name@.take(it.index() as int)),
    {
        let ghost done = it.index() as int;
        assert(name@.take(done + 1) =~= name@.take(done).push(c));
        assert(without_controls(name@.take(done + 1)) =~= without_controls(name@.take(done)).push(
            if text::is_control(c) {
                ' '
            } else {
                c
            },
        ));
        if c.is_control() {
            cleaned.push(' ');
        } else {
            cleaned.push(c);
        }
    }
    assert(name@.take(name@.len() as int) =~= name@);
    text::truncate(text::trim(cleaned.as_str()), NAME_MAX_LEN)
}

/// The name under which a message's author appears in a turn.
pub fn display_name(msg: &Message) -> (name: String)
    ensures
        name@ == sanitized(raw_name(*msg)),
{
    match &msg.nick {
        Some(nick) => sanitize_name(nick.as_str()),
        None => match &msg.author.global_name {
            Some(name) => sanitize_name(name.as_str()),
            None => sanitize_name(msg.author.name.as_str()),
        },
    }
}

/// Renders a message as a turn: `author: text`, with a note of the message that it replied to,
/// if any, so that the model can follow references.
pub fn format_turn(msg: &Message, said: &str) -> (turn: String)
    ensures
        turn@ == turn_text(*msg, said@),
{
    let mut turn = display_name(msg);
    if let Some(referenced) = &msg.referenced_message {
        let quote = text::trim(referenced.content.as_str());
        if !quote.is_empty() {
            turn.append(" (en respuesta a ");
            turn.append(display_name(referenced).as_str());
            turn.append(": \"");
            turn.append(text::truncate(quote, QUOTE_MAX_LEN).as_str());
            turn.append("\"): ");
            turn.append(said);
            return turn;
        }
    }
    turn.append(": ");
    turn.append(said);
    turn
}

/// No name, however crafted, brings a control character (a line feed above all) into a turn, and
/// none is longer than the cap and the ellipsis.
pub proof fn law_sanitized_name_is_tame(name: Seq<char>)
    ensures
        forall|i: int|
            0 <= i < sanitized(name).len() ==> !text::is_control(#[trigger] sanitized(name)[i]),
        forall|i: int| 0 <= i < sanitized(name).len() ==> #[trigger] sanitized(name)[i] != '\n',
        sanitized(name).len() <= NAME_MAX_LEN + 1,
{
    let clean = without_controls(name);
    let core = text::law_trim_keeps_the_core(clean);
    let kept = text::trimmed(clean);
    text::law_truncate_bounds(kept, NAME_MAX_LEN as nat);
    assert forall|i: int| 0 <= i < sanitized(name).len() implies !text::is_control(
        #[trigger] sanitized(name)[i],
    ) by {
        if i < NAME_MAX_LEN && i < kept.len() {
            assert(sanitized(name)[i] == clean[core.0 + i]);
        }
    }
}

/// A clean short name is kept as it is.
pub proof fn law_tame_name_is_kept(name: Seq<char>)
    requires
        name.len() <= NAME_MAX_LEN,
        forall|i: int| 0 <= i < name.len() ==> !text::is_control(#[trigger] name[i]),
        text::trimmed(name) == name,
    ensures
        sanitized(name) == name,
{
    assert(without_controls(name) =~= name);
}

/// Every turn begins with the sanitized name of its speaker and ends with what was said.
pub proof fn law_turn_names_its_speaker(msg: Message, said: Seq<char>)
    ensures
        ({
            let turn = turn_text(msg, said);
            let name = sanitized(raw_name(msg));
            &&& name.len() + said.len() <= turn.len()
            &&& turn.take(name.len() as int) == name
            &&& turn.skip(turn.len() - said.len()) == said
        }),
{
    let turn = turn_text(msg, said);
    let name = sanitized(raw_name(msg));
    assert(turn.take(name.len() as int) =~= name);
    assert(turn.skip(turn.len() - said.len()) =~= said);
}

/// However long the names and the quoted message, a turn is longer than what was said by no more
/// than two capped names, a capped quote and the words between them.
pub proof fn law_turn_overhead_is_capped(msg: Message, said: Seq<char>)
    ensures
        turn_text(msg, said).len() <= said.len() + 2 * (NAME_MAX_LEN + 1) + (QUOTE_MAX_LEN + 1)
            + " (en respuesta a "@.len() + ": \""@.len() + "\"): "@.len(),
{
    reveal_strlit(" (en respuesta a ");
    reveal_strlit(": \"");
    reveal_strlit("\"): ");
    reveal_strlit(": ");
    law_sanitized_name_is_tame(raw_name(msg));
    if let Some(quote) = quoted(msg) {
        law_sanitized_name_is_tame(raw_name(*msg.referenced_message->0));
        text::law_truncate_bounds(quote, QUOTE_MAX_LEN as nat);
    }
}

/// Sanitizing a name that was sanitized changes nothing, whether it was cut or not.
pub proof fn law_sanitize_twice(name: Seq<char>)
    ensures
        sanitized(sanitized(name)) == sanitized(name),
{
    let once = sanitized(name);
    law_sanitized_name_is_tame(name);
    assert(without_controls(once) =~= once);
    let kept = text::trimmed(without_controls(name));
    let outer = text::law_trim_keeps_the_core(without_controls(name));
    let inner = text::law_trim_keeps_the_core(once);
    if once.len() > 0 {
        assert(!text::is_white_space(once[0])) by {
            assert(once[0] == kept[0]);
        }
        assert(!text::is_white_space(once.last())) by {
            if kept.len() <= NAME_MAX_LEN {
                assert(once.last() == kept.last());
            }
        }
        assert(inner.0 == 0 && inner.1 == once.len());
    }
    assert(text::trimmed(once) =~= once);
    assert(sanitized(once) =~= once);
}

/// An author goes by the name on the server; without one, by that shown everywhere; without either,
/// by the user name.
pub proof fn law_best_name_is_used(msg: Message)
    ensures
        msg.nick matches Some(nick) ==> raw_name(msg) == nick@,
        msg.nick is None ==> (msg.author.global_name matches Some(name) ==> raw_name(msg) == name@),
        msg.nick is None && msg.author.global_name is None ==> raw_name(msg) == msg.author.name@,
{
}

/// A name is kept from the first to the last character that shows, with a space for each control
/// character between; of more than 32 characters the first 32 stay, and an ellipsis.
pub proof fn law_name_keeps_what_shows(name: Seq<char>) -> (core: (int, int))
    ensures
        0 <= core.0 <= core.1 <= name.len(),
        forall|i: int|
            0 <= i < core.0 || core.1 <= i < name.len() ==> text::is_white_space(#[trigger] name[i])
                || text::is_control(name[i]),
        core.0 < core.1 ==> {
            &&& !text::is_white_space(name[core.0]) && !text::is_control(name[core.0])
            &&& !text::is_white_space(name[core.1 - 1]) && !text::is_control(name[core.1 - 1])
        },
        sanitized(name).len() == (if core.1 - core.0 <= 32 {
            core.1 - core.0
        } else {
            33
        }),
        core.1 - core.0 > 32 ==> sanitized(name)[32] == '\u{2026}',
        forall|i: int|
            0 <= i < 32 && i < core.1 - core.0 ==> #[trigger] sanitized(name)[i] == (
            if text::is_control(name[core.0 + i]) {
                ' '
            } else {
                name[core.0 + i]
            }),
{
    let clean = without_controls(name);
    let core = text::law_trim_keeps_the_core(clean);
    assert forall|i: int| 0 <= i < core.0 || core.1 <= i < name.len() implies text::is_white_space(
        #[trigger] name[i],
    ) || text::is_control(name[i]) by {
        assert(text::is_white_space(clean[i]));
    }
    text::law_truncate_bounds(text::trimmed(clean), NAME_MAX_LEN as nat);
    core
}

/// A message that replies to one that says something quotes it, whoever wrote either: the other's
/// name, and of what they said, trimmed, no more than 280 characters.
pub proof fn law_reply_quotes_what_it_replies_to(
    msg: Message,
    referenced: Message,
    said: Seq<char>,
    at: int,
)
    requires
        msg.referenced_message is Some,
        *msg.referenced_message->0 == referenced,
        0 <= at < referenced.content@.len(),
        !text::is_white_space(referenced.content@[at]),
    ensures
        turn_text(msg, said) == sanitized(raw_name(msg)) + " (en respuesta a "@ + sanitized(
            raw_name(referenced),
        ) + ": \""@ + text::truncated(text::trimmed(referenced.content@), 280) + "\"): "@ + said,
{
    text::law_only_blank_text_is_trimmed_away(referenced.content@);
}

/// A message that replies to none, or to one that says nothing, is its author's name and what was
/// said.
pub proof fn law_other_messages_quote_nothing(msg: Message, said: Seq<char>)
    requires
        msg.referenced_message matches Some(referenced) ==> forall|i: int|
            0 <= i < referenced.content@.len() ==> text::is_white_space(
                #[trigger] referenced.content@[i],
            ),
    ensures
        turn_text(msg, said) == sanitized(raw_name(msg)) + ": "@ + said,
{
    if let Some(referenced) = msg.referenced_message {
        text::law_only_blank_text_is_trimmed_away(referenced.content@);
    }
}

} // verus!
