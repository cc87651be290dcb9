//! The bot's side of a conversation: what to remember, when to answer and what to send.

use crate::ai;
use crate::ai::ChatTurn;
use crate::ai::CompletionEvent;
use crate::chunks;
use crate::memory;
use crate::memory::Memory;
use crate::message;
use crate::message::Message;
use crate::outbox::Outbox;
use crate::prompt;
use crate::text;
use vstd::prelude::*;
use vstd::string::*;

verus! {

/// Personality to fall back on where the file is missing or empty.
pub const DEFAULT_PERSONALITY: &'static str = "You are Ataulfo, a helpful and friendly assistant.";

/// What is said to someone who calls the bot and says nothing.
pub const NOTHING_SAID: &'static str = "¿Sí? Dime algo después de `ataulfo`.";

/// What is said where there is no reply to give.
pub const NO_ANSWER: &'static str = "Ahora mismo no puedo responder. 🤕";

/// A file's contents, and when the file had last been changed when they were read.
pub struct CachedFile {
    modified: Option<i128>,
    text: String,
}

/// A file's contents, and when the file had last been changed when they were read.
pub ghost struct CachedView {
    /// The time of the change, if it was known.
    pub modified: Option<i128>,
    /// The contents.
    pub text: Seq<char>,
}

impl View for CachedFile {
    type V = CachedView;

    closed spec fn view(&self) -> CachedView {
        CachedView { modified: self.modified, text: self.text@ }
    }
}

/// The state of the bot.
pub struct Handler {
    bot_id: Option<u64>,
    personality: Option<CachedFile>,
    history: Memory,
}

/// The state of the bot.
pub ghost struct HandlerView {
    /// The bot's own account, once it is known.
    pub bot_id: Option<u64>,
    /// The personality as it was last read.
    pub personality: Option<CachedView>,
    /// What is remembered of each channel.
    pub history: Map<u64, memory::ChannelView>,
    /// The reading of the clock from which the times in the memory are counted.
    pub counts_from: std::time::Instant,
}

impl View for Handler {
    type V = HandlerView;

    closed spec fn view(&self) -> HandlerView {
        HandlerView {
            bot_id: self.bot_id,
            personality: match self.personality {
                Some(cached) => Some(cached@),
                None => None,
            },
            history: self.history@,
            counts_from: self.history.counts_from(),
        }
    }
}

/// What happened while the personality was being loaded.
pub enum PersonalityEvent {
    /// The time of the file's last change was looked up, or could not be.
    Stat(Option<i128>),
    /// The file, last changed at this time, was read, or could not be.
    Read { modified: Option<i128>, text: Option<String> },
}

/// What to do next for the personality.
pub enum PersonalityStep {
    /// Read the file and report it.
    Read,
    /// This is the personality.
    Use(String),
}

/// What to do about a message.
pub enum MessageStep {
    /// Nothing.
    Ignore,
    /// Reply with this text.
    Say(String),
    /// Ask the model the question of this channel, and report what it said for this channel.
    Respond { channel: u64 },
}

/// The personality that a file holds: its text, unless it is blank or could not be read.
pub open spec fn personality_in(text: Option<Seq<char>>) -> Seq<char> {
    match text {
        Some(held) => if text::trimmed(held).len() > 0 {
            held
        } else {
            DEFAULT_PERSONALITY@
        },
        None => DEFAULT_PERSONALITY@,
    }
}

/// What is kept of a file that was just read.
pub open spec fn just_read(modified: Option<i128>, text: Option<Seq<char>>) -> CachedView {
    CachedView { modified, text: personality_in(text) }
}

/// The personality as it was last read, if the file is known not to have changed since.
pub open spec fn still_good(
    cached: Option<CachedView>,
    modified: Option<i128>,
) -> Option<Seq<char>> {
    match cached {
        Some(file) => if modified is Some && file.modified == modified {
            Some(file.text)
        } else {
            None
        },
        None => None,
    }
}

/// The message replies to the bot; while the bot does not know its own account, any bot will do.
pub open spec fn replies_to_bot(bot_id: Option<u64>, msg: Message) -> bool {
    match msg.referenced_message {
        Some(referenced) => match bot_id {
            Some(id) => referenced.author.id == id,
            None => referenced.author.bot,
        },
        None => false,
    }
}

/// The message mentions the bot, and the bot knows that it is meant.
pub open spec fn mentions_bot(bot_id: Option<u64>, msg: Message) -> bool {
    match bot_id {
        Some(id) => msg.mentions@.contains(id),
        None => false,
    }
}

/// The message is worth remembering: a human wrote it and it says something.
pub open spec fn is_worth_noting(msg: Message) -> bool {
    !msg.author.bot && text::trimmed(msg.content@).len() > 0
}

/// The message wants an answer: it says something behind the trigger word, or it lacks the
/// trigger word but replies to the bot or mentions it.
pub open spec fn wants_answer(bot_id: Option<u64>, msg: Message) -> bool {
    match prompt::prompt_of(msg.content@) {
        Some(said) => said.len() > 0,
        None => replies_to_bot(bot_id, msg) || mentions_bot(bot_id, msg),
    }
}

/// The turn that a message is remembered as.
pub open spec fn user_turn(msg: Message) -> ai::TurnView {
    ai::TurnView {
        role: "user"@,
        content: message::turn_text(msg, text::trimmed(msg.content@)),
    }
}

impl Handler {
    /// The memory keeps to its bounds, and the personality is not blank.
    pub open spec fn wf(self) -> bool {
        &&& memory::bounded(self@.history)
        &&& self@.personality matches Some(cached) ==> text::trimmed(cached.text).len() > 0
    }

    /// A bot that knows nothing yet.
    pub fn new() -> (handler: Self)
        ensures
            handler.wf(),
            handler@.bot_id is None,
            handler@.personality is None,
            handler@.history == Map::<u64, memory::ChannelView>::empty(),
    {
        Handler { bot_id: None, personality: None, history: Memory::new() }
    }

    /// Tells whether a message is a reply to one of the bot's own messages.
    pub fn is_reply_to_self(&self, msg: &Message) -> (answer: bool)
        ensures
            answer == replies_to_bot(self@.bot_id, *msg),
            answer == (msg.referenced_message is Some && match self@.bot_id {
                Some(id) => msg.referenced_message->0.author.id == id,
                None => msg.referenced_message->0.author.bot,
            }),
    {
        match &msg.referenced_message {
            Some(referenced) => match self.bot_id {
                Some(id) => referenced.author.id == id,
                None => referenced.author.bot,
            },
            None => false,
        }
    }

    /// Tells whether a message mentions the bot, once the bot knows its own account.
    pub fn is_mentioned(&self, msg: &Message) -> (answer: bool)
        ensures
            answer == mentions_bot(self@.bot_id, *msg),
            answer == (self@.bot_id is Some && exists|i: int|
                0 <= i < msg.mentions@.len() && #[trigger] msg.mentions@[i] == self@.bot_id->0),
    {
        match self.bot_id {
            Some(id) => {
                let mut i: usize = 0;
                while i < msg.mentions.len()
                    invariant
                        self.bot_id == Some(id),
                        i <= msg.mentions@.len(),
                        forall|j: int| 0 <= j < i ==> msg.mentions@[j] != id,
                    decreases msg.mentions@.len() - i,
                {
                    if msg.mentions[i] == id {
                        return true;
                    }
                    i += 1;
                }
                false
            },
            None => false,
        }
    }

    /// Appends a turn to a channel's short-term memory.
    pub fn remember(&mut self, channel: u64, turn: ChatTurn)
        requires
            old(self).wf(),
        ensures
            final(self).wf(),
            final(self)@.bot_id == old(self)@.bot_id,
            final(self)@.counts_from == old(self)@.counts_from,
            final(self)@.personality == old(self)@.personality,
            memory::remembered_now(
                old(self)@.history,
                channel,
                turn@,
                final(self)@.history,
            ),
    {
        self.history.remember(channel, turn);
    }

    /// A copy of the turns that are remembered of a channel, oldest first.
    pub fn history_snapshot(&self, channel: u64) -> (turns: Vec<ChatTurn>)
        ensures
            ai::turn_views(turns@) == memory::turns_of(self@.history, channel),
    {
        self.history.snapshot(channel)
    }

    /// What the model is asked for a message of this channel: this personality, and the turns that
    /// are remembered of the channel.
    pub fn question(&self, channel: u64, personality: String) -> (event: CompletionEvent)
        ensures
            event matches CompletionEvent::Start { system, history } && system@ == personality@
                && ai::turn_views(history@) == memory::turns_of(self@.history, channel),
    {
        CompletionEvent::Start { system: personality, history: self.history_snapshot(channel) }
    }

    /// What to do next for the personality, now that this has happened. The file is read again
    /// only when it has changed, so that edits apply without a restart.
    pub fn load_personality(&mut self, event: PersonalityEvent) -> (step: PersonalityStep)
        requires
            old(self).wf(),
        ensures
            final(self).wf(),
            final(self)@.bot_id == old(self)@.bot_id,
            final(self)@.counts_from == old(self)@.counts_from,
            final(self)@.history == old(self)@.history,
            match event {
                PersonalityEvent::Stat(modified) => {
                    &&& final(self)@.personality == old(self)@.personality
                    &&& match still_good(old(self)@.personality, modified) {
                        Some(held) => step matches PersonalityStep::Use(text) && text@ == held,
                        None => step is Read,
                    }
                },
                PersonalityEvent::Read { modified, text } => {
                    let read = match text {
                        Some(read) => Some(read@),
                        None => None,
                    };
                    &&& final(self)@.personality == Some(just_read(modified, read))
                    &&& step matches PersonalityStep::Use(text) && text@ == personality_in(read)
                },
            },
    {
        match event {
            PersonalityEvent::Stat(modified) => {
                if let Some(at) = modified {
                    if let Some(cached) = &self.personality {
                        if let Some(then) = cached.modified {
                            if then == at {
                                return PersonalityStep::Use(cached.text.clone());
                            }
                        }
                    }
                }
                PersonalityStep::Read
            },
            PersonalityEvent::Read { modified, text } => {
                let held = match text {
                    Some(read) => if text::trim(read.as_str()).is_empty() {
                        DEFAULT_PERSONALITY.to_owned()
                    } else {
                        read
                    },
                    None => DEFAULT_PERSONALITY.to_owned(),
                };
                proof {
                    lemma_default_personality();
                }
                self.personality = Some(CachedFile { modified, text: held.clone() });
                PersonalityStep::Use(held)
            },
        }
    }

    /// Remembers a message, unless a bot wrote it or it is blank, and decides what to do about
    /// it.
    pub fn message(&mut self, msg: &Message) -> (step: MessageStep)
        requires
            old(self).wf(),
        ensures
            final(self).wf(),
            final(self)@.bot_id == old(self)@.bot_id,
            final(self)@.counts_from == old(self)@.counts_from,
            final(self)@.personality == old(self)@.personality,
            !is_worth_noting(*msg) ==> step is Ignore && final(self)@.history
                == old(self)@.history,
            is_worth_noting(*msg) ==> {
                &&& memory::remembered_now(
                    old(self)@.history,
                    msg.channel_id,
                    user_turn(*msg),
                    final(self)@.history,
                )
                &&& match step {
                    MessageStep::Respond { channel } => {
                        &&& wants_answer(old(self)@.bot_id, *msg)
                        &&& channel == msg.channel_id
                    },
                    MessageStep::Say(said) => {
                        &&& prompt::prompt_of(msg.content@) == Some(Seq::<char>::empty())
                        &&& said@ == NOTHING_SAID@
                        &&& said@ == "¿Sí? Dime algo después de `ataulfo`."@
                    },
                    MessageStep::Ignore => {
                        &&& prompt::prompt_of(msg.content@) is None
                        &&& !wants_answer(old(self)@.bot_id, *msg)
                    },
                }
            },
    {
        if msg.author.bot {
            return MessageStep::Ignore;
        }
        let said = text::trim(msg.content.as_str());
        if said.is_empty() {
            return MessageStep::Ignore;
        }
        self.remember(msg.channel_id, ChatTurn::user(message::format_turn(msg, said)));
        match prompt::extract_prompt(msg.content.as_str()) {
            Some(after_keyword) => if after_keyword.is_empty() {
                assert(after_keyword@ =~= Seq::<char>::empty());
                MessageStep::Say(NOTHING_SAID.to_owned())
            } else {
                MessageStep::Respond { channel: msg.channel_id }
            },
            None => if self.is_reply_to_self(msg) || self.is_mentioned(msg) {
                MessageStep::Respond { channel: msg.channel_id }
            } else {
                MessageStep::Ignore
            },
        }
    }

    /// Remembers the reply to a message of this channel, if there is one, and gives the messages
    /// to send, in order.
    pub fn finish(&mut self, channel: u64, reply: Option<String>) -> (sent: Outbox)
        requires
            old(self).wf(),
        ensures
            final(self).wf(),
            final(self)@.bot_id == old(self)@.bot_id,
            final(self)@.counts_from == old(self)@.counts_from,
            final(self)@.personality == old(self)@.personality,
            match reply {
                Some(reply) => {
                    &&& memory::remembered_now(
                        old(self)@.history,
                        channel,
                        ai::TurnView { role: "assistant"@, content: reply@ },
                        final(self)@.history,
                    )
                    &&& sent@ == chunks::messages(reply@)
                },
                None => {
                    &&& final(self)@.history == old(self)@.history
                    &&& sent@ == seq![NO_ANSWER@]
                    &&& sent@ == seq!["Ahora mismo no puedo responder. 🤕"@]
                },
            },
    {
        match reply {
            Some(reply) => {
                self.remember(channel, ChatTurn::assistant(reply.clone()));
                Outbox::new(chunks::split_message(reply.as_str()))
            },
            None => {
                let mut sent: Vec<String> = Vec::new();
                sent.push(NO_ANSWER.to_owned());
                assert(chunks::views(sent@) =~= seq![NO_ANSWER@]);
                Outbox::new(sent)
            },
        }
    }

    /// Learns the bot's own account. What was learnt first stays.
    pub fn ready(&mut self, id: u64)
        requires
            old(self).wf(),
        ensures
            final(self).wf(),
            final(self)@ == (HandlerView {
                bot_id: match old(self)@.bot_id {
                    Some(known) => Some(known),
                    None => Some(id),
                },
                ..old(self)@
            }),
    {
        if self.bot_id.is_none() {
            self.bot_id = Some(id);
        }
    }
}

/// The personality to fall back on is not blank.
proof fn lemma_default_personality()
    ensures
        text::trimmed(DEFAULT_PERSONALITY@).len() > 0,
{
    reveal_strlit("You are Ataulfo, a helpful and friendly assistant.");
    let core = text::law_trim_keeps_the_core(DEFAULT_PERSONALITY@);
    assert(!text::is_white_space(DEFAULT_PERSONALITY@[0]));
}

/// A file that has not changed since it was read is not read again.
pub proof fn law_unchanged_file_is_not_read_again(at: i128, text: Option<Seq<char>>)
    ensures
        still_good(Some(just_read(Some(at), text)), Some(at)) == Some(personality_in(text)),
{
}

/// A file that has changed since it was read, or may have, is read again.
pub proof fn law_changed_file_is_read_again(
    before: Option<i128>,
    text: Option<Seq<char>>,
    now: Option<i128>,
)
    requires
        now is None || now != before,
    ensures
        still_good(Some(just_read(before, text)), now) is None,
{
}

/// The model always gets a personality that says something.
pub proof fn law_personality_is_never_blank(text: Option<Seq<char>>)
    ensures
        text::trimmed(personality_in(text)).len() > 0,
{
    lemma_default_personality();
}

/// A reply to the bot, or a mention of it, is answered without the trigger word, once the bot
/// knows its own account.
pub proof fn law_conversation_needs_no_trigger(id: u64, msg: Message)
    requires
        prompt::prompt_of(msg.content@) is None,
        msg.mentions@.contains(id) || (msg.referenced_message is Some
            && msg.referenced_message->0.author.id == id),
    ensures
        wants_answer(Some(id), msg),
{
}

/// The turn that was just remembered is what the model is asked to answer, where it is asked with
/// the turns of that channel, as [`Handler::question`] does.
pub proof fn law_latest_turn_is_asked(
    client: ai::AiClientView,
    system: Seq<char>,
    before: Map<u64, memory::ChannelView>,
    channel: u64,
    turn: ai::TurnView,
    after: Map<u64, memory::ChannelView>,
)
    requires
        memory::remembered_now(before, channel, turn, after),
    ensures
        client.call(system, memory::turns_of(after, channel)).messages.last() == turn,
{
    let now = choose|now: int|
        memory::is_not_past(before, now) && memory::is_later(before, now) && #[trigger] memory::remembered(
            before,
            channel,
            turn,
            now,
            after,
        );
    memory::law_touched_channel_keeps_its_turn(before, channel, turn, now, after);
}

/// A message and the reply to it are the next message's context, in this order.
pub proof fn law_exchange_is_remembered(
    before: Map<u64, memory::ChannelView>,
    channel: u64,
    asked: ai::TurnView,
    between: Map<u64, memory::ChannelView>,
    answered: ai::TurnView,
    after: Map<u64, memory::ChannelView>,
)
    requires
        memory::remembered_now(before, channel, asked, between),
        memory::remembered_now(between, channel, answered, after),
    ensures
        ({
            let turns = memory::turns_of(after, channel);
            &&& turns.len() >= 2
            &&& turns[turns.len() - 2] == asked
            &&& turns.last() == answered
        }),
{
    let then = choose|now: int|
        memory::is_not_past(before, now) && memory::is_later(before, now) && #[trigger] memory::remembered(
            before,
            channel,
            asked,
            now,
            between,
        );
    let now = choose|now: int|
        memory::is_not_past(between, now) && memory::is_later(between, now) && #[trigger] memory::remembered(
            between,
            channel,
            answered,
            now,
            after,
        );
    memory::law_touched_channel_keeps_its_turn(before, channel, asked, then, between);
    memory::law_touched_channel_keeps_its_turn(between, channel, answered, now, after);
}

/// Without the trigger word the bot answers those who reply to its account or mention it, and
/// nobody else, whatever others are mentioned or replied to. With the trigger word it answers
/// whoever says something behind it.
pub proof fn law_only_who_means_the_bot_is_answered(id: u64, msg: Message)
    ensures
        wants_answer(Some(id), msg) <==> match prompt::prompt_of(msg.content@) {
            Some(said) => said.len() > 0,
            None => {
                ||| msg.referenced_message is Some && msg.referenced_message->0.author.id == id
                ||| exists|i: int| 0 <= i < msg.mentions@.len() && #[trigger] msg.mentions@[i] == id
            },
        },
{
}

/// A message without the trigger word that neither replies to the bot nor mentions it is not
/// answered.
pub proof fn law_talk_among_others_is_not_answered(id: u64, msg: Message)
    requires
        prompt::prompt_of(msg.content@) is None,
        forall|i: int| 0 <= i < msg.mentions@.len() ==> #[trigger] msg.mentions@[i] != id,
        msg.referenced_message matches Some(referenced) ==> referenced.author.id != id,
    ensures
        !wants_answer(Some(id), msg),
        !replies_to_bot(Some(id), msg),
        !mentions_bot(Some(id), msg),
{
}

/// While the bot does not know its own account, a reply to any bot is taken for one to it, and a
/// mention for none.
pub proof fn law_unknown_bot_answers_replies_to_bots(msg: Message)
    ensures
        !mentions_bot(None, msg),
        replies_to_bot(None, msg) <==> msg.referenced_message is Some
            && msg.referenced_message->0.author.bot,
        wants_answer(None, msg) <==> match prompt::prompt_of(msg.content@) {
            Some(said) => said.len() > 0,
            None => msg.referenced_message is Some && msg.referenced_message->0.author.bot,
        },
{
}

/// What a human wrote is remembered if it shows anything, and what a bot wrote never is.
pub proof fn law_what_humans_say_is_noted(msg: Message)
    ensures
        is_worth_noting(msg) <==> !msg.author.bot && exists|i: int|
            0 <= i < msg.content@.len() && !text::is_white_space(#[trigger] msg.content@[i]),
{
    text::law_only_blank_text_is_trimmed_away(msg.content@);
}

/// A message is remembered as said by a user: what it says, trimmed, rendered as a turn.
pub proof fn law_message_is_remembered_as_a_turn(msg: Message)
    ensures
        user_turn(msg).role == "user"@,
        user_turn(msg).content == message::turn_text(msg, text::trimmed(msg.content@)),
{
}

/// A file that shows anything is the personality as it stands, however long; any other leaves the
/// one to fall back on.
pub proof fn law_personality_is_the_whole_file(held: Seq<char>)
    ensures
        (exists|i: int| 0 <= i < held.len() && !text::is_white_space(#[trigger] held[i]))
            ==> personality_in(Some(held)) == held,
        (forall|i: int| 0 <= i < held.len() ==> text::is_white_space(#[trigger] held[i]))
            ==> personality_in(Some(held)) == personality_in(None),
        personality_in(None) == "You are Ataulfo, a helpful and friendly assistant."@,
{
    text::law_only_blank_text_is_trimmed_away(held);
}

/// What is kept of a file is the personality in it and the time at which it had been changed.
pub proof fn law_what_is_used_is_kept(modified: Option<i128>, text: Option<Seq<char>>)
    ensures
        just_read(modified, text).text == personality_in(text),
        just_read(modified, text).modified == modified,
{
}

/// What was kept is used where the time of the file's last change is known and is the one that was
/// kept with it, and nowhere else.
pub proof fn law_kept_personality_is_used_while_the_file_stands(
    cached: Option<CachedView>,
    modified: Option<i128>,
)
    ensures
        still_good(cached, modified) is Some <==> cached is Some && modified is Some
            && cached->0.modified == modified,
        still_good(cached, modified) matches Some(text) ==> text == cached->0.text,
{
}

} // verus!
