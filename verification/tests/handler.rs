use ataulfo::ai::AiClient;
use ataulfo::ai::ChatTurn;
use ataulfo::ai::CompletionEvent;
use ataulfo::ai::CompletionStep;
use ataulfo::handler::Handler;
use ataulfo::handler::MessageStep;
use ataulfo::handler::PersonalityEvent;
use ataulfo::handler::PersonalityStep;
use ataulfo::memory::Memory;
use ataulfo::memory::HISTORY_LIMIT;
use ataulfo::memory::MAX_TRACKED_CHANNELS;
use ataulfo::message::Author;
use ataulfo::message::Message;
use ataulfo::outbox::Outbox;

fn message(name: &str, content: &str) -> Message {
    Message {
        channel_id: 5,
        author: Author {
            id: 7,
            bot: false,
            name: name.to_string(),
            global_name: None,
        },
        nick: None,
        content: content.to_string(),
        mentions: Vec::new(),
        referenced_message: None,
    }
}

fn said(turns: &[ChatTurn]) -> Vec<String> {
    turns
        .iter()
        .map(|t| format!("{}|{}", t.role(), t.content()))
        .collect()
}

fn all_parts(mut outbox: Outbox) -> Vec<String> {
    let mut parts: Vec<String> = Vec::new();
    while let Some(part) = outbox.next_part(true) {
        parts.push(part);
    }
    parts
}

#[test]
fn memory_keeps_the_last_turns() {
    let mut memory = Memory::new();
    for i in 0..20u128 {
        memory.remember_at(1, ChatTurn::user(format!("{i}")), i);
    }
    let turns = memory.snapshot(1);
    assert_eq!(turns.len(), HISTORY_LIMIT);
    assert_eq!(turns[0].content(), "8");
    assert_eq!(turns[HISTORY_LIMIT - 1].content(), "19");
    assert!(memory.snapshot(2).is_empty());
}

#[test]
fn memory_forgets_the_longest_silent_channel() {
    let mut memory = Memory::new();
    for id in 0..MAX_TRACKED_CHANNELS as u64 {
        memory.remember_at(id, ChatTurn::user("x".to_string()), 10 + id as u128);
    }
    memory.remember_at(0, ChatTurn::user("y".to_string()), 5000);
    assert_eq!(memory.snapshot(0).len(), 2);
    memory.remember_at(9999, ChatTurn::user("z".to_string()), 5001);
    assert!(memory.snapshot(1).is_empty());
    assert_eq!(memory.snapshot(0).len(), 2);
    assert_eq!(memory.snapshot(2).len(), 1);
    assert_eq!(memory.snapshot(9999).len(), 1);
}

#[test]
fn memory_never_forgets_the_channel_just_touched() {
    let mut memory = Memory::new();
    for id in 0..MAX_TRACKED_CHANNELS as u64 {
        memory.remember_at(id, ChatTurn::user("x".to_string()), 3);
    }
    memory.remember_at(9999, ChatTurn::user("z".to_string()), 3);
    assert_eq!(memory.snapshot(9999).len(), 1);
    let mut kept: usize = 0;
    for id in 0..MAX_TRACKED_CHANNELS as u64 {
        kept += memory.snapshot(id).len();
    }
    assert_eq!(kept, MAX_TRACKED_CHANNELS - 1);
}

#[test]
fn the_clock_orders_channels() {
    let mut memory = Memory::new();
    for id in 0..=MAX_TRACKED_CHANNELS as u64 {
        memory.remember(id, ChatTurn::user("x".to_string()));
    }
    assert_eq!(memory.snapshot(MAX_TRACKED_CHANNELS as u64).len(), 1);
    let mut kept: usize = 0;
    for id in 0..=MAX_TRACKED_CHANNELS as u64 {
        kept += memory.snapshot(id).len();
    }
    assert_eq!(kept, MAX_TRACKED_CHANNELS);
}

#[test]
fn bots_and_blank_messages_are_ignored() {
    let mut handler = Handler::new();
    let mut bot = message("bot", "ataulfo hola");
    bot.author.bot = true;
    assert!(matches!(handler.message(&bot), MessageStep::Ignore));
    assert!(matches!(handler.message(&message("ana", " \n ")), MessageStep::Ignore));
    assert!(handler.history_snapshot(5).is_empty());
}

#[test]
fn every_human_message_is_remembered() {
    let mut handler = Handler::new();
    assert!(matches!(handler.message(&message("ana", " hola ")), MessageStep::Ignore));
    assert!(matches!(handler.message(&message("beto", "ataulfo ¿qué?")), MessageStep::Respond { .. }));
    assert_eq!(
        said(&handler.history_snapshot(5)),
        vec!["user|ana: hola", "user|beto: ataulfo ¿qué?"]
    );
}

#[test]
fn the_bare_trigger_gets_a_hint() {
    let mut handler = Handler::new();
    match handler.message(&message("ana", "  Ataulfo ")) {
        MessageStep::Say(text) => assert_eq!(text, "¿Sí? Dime algo después de `ataulfo`."),
        _ => panic!("no hint"),
    }
    assert_eq!(handler.history_snapshot(5).len(), 1);
}

#[test]
fn a_reply_to_the_bot_is_answered() {
    let mut handler = Handler::new();
    let mut reply = message("ana", "y eso?");
    let mut earlier = message("bot", "hola");
    earlier.author.id = 99;
    earlier.author.bot = true;
    reply.referenced_message = Some(Box::new(earlier));
    assert!(handler.is_reply_to_self(&reply));
    handler.ready(42);
    assert!(!handler.is_reply_to_self(&reply));
    assert!(matches!(handler.message(&reply), MessageStep::Ignore));
    let mut known = Handler::new();
    known.ready(99);
    assert!(matches!(known.message(&reply), MessageStep::Respond { .. }));
}

#[test]
fn a_mention_is_answered_once_the_bot_is_known() {
    let mut handler = Handler::new();
    let mut msg = message("ana", "hola");
    msg.mentions = vec![3, 42];
    assert!(!handler.is_mentioned(&msg));
    assert!(matches!(handler.message(&msg), MessageStep::Ignore));
    handler.ready(42);
    handler.ready(1);
    assert!(handler.is_mentioned(&msg));
    assert!(matches!(handler.message(&msg), MessageStep::Respond { .. }));
}

#[test]
fn an_exchange_is_remembered() {
    let mut handler = Handler::new();
    handler.message(&message("ana", "ataulfo hola"));
    let sent = all_parts(handler.finish(5, Some("¡Hola!".to_string())));
    assert_eq!(sent, vec!["¡Hola!".to_string()]);
    assert_eq!(
        said(&handler.history_snapshot(5)),
        vec!["user|ana: ataulfo hola", "assistant|¡Hola!"]
    );
}

#[test]
fn a_long_reply_is_sent_in_parts_and_remembered_whole() {
    let mut handler = Handler::new();
    let reply = "x".repeat(4500);
    let sent = all_parts(handler.finish(5, Some(reply.clone())));
    assert_eq!(sent.len(), 3);
    handler.remember(6, ChatTurn::user("other".to_string()));
    assert_eq!(handler.history_snapshot(5)[0].content(), reply);
}

#[test]
fn a_failure_is_apologised_for_and_not_remembered() {
    let mut handler = Handler::new();
    let sent = all_parts(handler.finish(5, None));
    assert_eq!(sent, vec!["Ahora mismo no puedo responder. 🤕".to_string()]);
    assert!(handler.history_snapshot(5).is_empty());
}

fn used(step: PersonalityStep) -> String {
    match step {
        PersonalityStep::Use(text) => text,
        PersonalityStep::Read => panic!("nothing to use"),
    }
}

#[test]
fn the_personality_is_read_again_only_after_a_change() {
    let mut handler = Handler::new();
    assert!(matches!(
        handler.load_personality(PersonalityEvent::Stat(Some(1))),
        PersonalityStep::Read
    ));
    let first = handler.load_personality(PersonalityEvent::Read {
        modified: Some(1),
        text: Some(" Sé amable.\n".to_string()),
    });
    assert_eq!(used(first), " Sé amable.\n");
    let again = handler.load_personality(PersonalityEvent::Stat(Some(1)));
    assert_eq!(used(again), " Sé amable.\n");
    assert!(matches!(
        handler.load_personality(PersonalityEvent::Stat(Some(2))),
        PersonalityStep::Read
    ));
    assert!(matches!(
        handler.load_personality(PersonalityEvent::Stat(None)),
        PersonalityStep::Read
    ));
}

#[test]
fn a_file_of_unknown_age_is_always_read() {
    let mut handler = Handler::new();
    handler.load_personality(PersonalityEvent::Read {
        modified: None,
        text: Some("x".to_string()),
    });
    assert!(matches!(
        handler.load_personality(PersonalityEvent::Stat(None)),
        PersonalityStep::Read
    ));
}

#[test]
fn a_missing_or_blank_file_falls_back() {
    let mut handler = Handler::new();
    for text in [None, Some(" \n\t".to_string()), Some(String::new())] {
        let step = handler.load_personality(PersonalityEvent::Read {
            modified: Some(3),
            text,
        });
        assert_eq!(used(step), "You are Ataulfo, a helpful and friendly assistant.");
    }
    let cached = handler.load_personality(PersonalityEvent::Stat(Some(3)));
    assert_eq!(used(cached), "You are Ataulfo, a helpful and friendly assistant.");
}

#[test]
fn the_latest_turn_is_what_is_asked() {
    let mut handler = Handler::new();
    for i in 0..15 {
        handler.message(&message("ana", &format!("uno más {i}")));
    }
    handler.message(&message("beto", "ataulfo ¿cuántos?"));
    let client = AiClient::new("u".to_string(), "k".to_string(), "m".to_string(), None, None);
    let messages = match client.complete(handler.question(5, "sé breve".to_string())) {
        CompletionStep::Send(call) => call.body.messages,
        _ => panic!("nothing to send"),
    };
    assert_eq!(messages.len(), HISTORY_LIMIT + 1);
    assert_eq!(messages[0].role(), "system");
    assert_eq!(messages[0].content(), "sé breve");
    assert_eq!(messages[1].content(), "ana: uno más 4");
    assert_eq!(messages[HISTORY_LIMIT].content(), "beto: ataulfo ¿cuántos?");
}

#[test]
fn a_question_holds_the_turns_of_its_channel() {
    let mut handler = Handler::new();
    handler.message(&message("ana", "ataulfo hola"));
    handler.remember(6, ChatTurn::user("otra".to_string()));
    match handler.question(5, "p".to_string()) {
        CompletionEvent::Start { system, history } => {
            assert_eq!(system, "p");
            assert_eq!(said(&history), vec!["user|ana: ataulfo hola"]);
        }
        _ => panic!("no question"),
    }
    match handler.question(77, "p".to_string()) {
        CompletionEvent::Start { history, .. } => assert!(history.is_empty()),
        _ => panic!("no question"),
    }
}

#[test]
fn nothing_is_sent_after_a_failure() {
    let parts = vec!["a".to_string(), "b".to_string(), "c".to_string()];
    let mut outbox = Outbox::new(parts);
    assert_eq!(outbox.next_part(true), Some("a".to_string()));
    assert_eq!(outbox.next_part(true), Some("b".to_string()));
    assert_eq!(outbox.next_part(false), None);
    assert_eq!(outbox.next_part(true), None);
    assert_eq!(Outbox::new(Vec::new()).next_part(true), None);
}

#[test]
fn channels_do_not_mix() {
    let mut memory = Memory::new();
    for i in 0..30u128 {
        memory.remember_at((i % 2) as u64, ChatTurn::user(format!("{i}")), i);
    }
    let even = memory.snapshot(0);
    let odd = memory.snapshot(1);
    assert_eq!((even[0].content(), even[11].content()), ("6", "28"));
    assert_eq!((odd[0].content(), odd[11].content()), ("7", "29"));
}

#[test]
fn a_forgotten_channel_starts_over() {
    let mut memory = Memory::new();
    for id in 0..=MAX_TRACKED_CHANNELS as u64 {
        memory.remember_at(id, ChatTurn::user("old".to_string()), id as u128);
    }
    assert!(memory.snapshot(0).is_empty());
    memory.remember_at(0, ChatTurn::user("new".to_string()), 9000);
    assert_eq!(said(&memory.snapshot(0)), vec!["user|new"]);
}

#[test]
fn a_clock_that_runs_behind_does_not_reorder_channels() {
    let mut memory = Memory::new();
    memory.remember_at(0, ChatTurn::user("x".to_string()), 100);
    memory.remember_at(1, ChatTurn::user("x".to_string()), 200);
    for id in 2..=MAX_TRACKED_CHANNELS as u64 {
        memory.remember_at(id, ChatTurn::user("x".to_string()), 50);
    }
    assert!(memory.snapshot(0).is_empty());
    for id in 1..=MAX_TRACKED_CHANNELS as u64 {
        assert_eq!(memory.snapshot(id).len(), 1);
    }
}

#[test]
fn what_the_clock_shows_comes_after_what_was_noted() {
    let mut memory = Memory::new();
    memory.remember_at(0, ChatTurn::user("x".to_string()), u128::MAX - 1);
    memory.remember_at(1, ChatTurn::user("x".to_string()), u128::MAX);
    for id in 2..=MAX_TRACKED_CHANNELS as u64 {
        memory.remember(id, ChatTurn::user("x".to_string()));
    }
    assert!(memory.snapshot(0).is_empty());
    assert_eq!(memory.snapshot(1).len(), 1);
    assert_eq!(memory.snapshot(2).len(), 1);
}

#[test]
fn the_answer_belongs_to_the_channel_of_the_message() {
    let mut handler = Handler::new();
    let mut msg = message("ana", "ataulfo hola");
    msg.channel_id = 31;
    let channel = match handler.message(&msg) {
        MessageStep::Respond { channel } => channel,
        _ => panic!("no answer"),
    };
    assert_eq!(channel, 31);
    handler.finish(channel, Some("hola".to_string()));
    assert_eq!(said(&handler.history_snapshot(31)), vec!["user|ana: ataulfo hola", "assistant|hola"]);
}

#[test]
fn every_part_is_tried_up_to_the_first_failure() {
    let outcomes = vec![true, true, false, true];
    let parts: Vec<String> = vec!["a", "b", "c", "d"].iter().map(|p| p.to_string()).collect();
    let mut outbox = Outbox::new(parts);
    let mut sent: Vec<String> = Vec::new();
    let mut delivered = true;
    while let Some(part) = outbox.next_part(delivered) {
        delivered = outcomes[sent.len()];
        sent.push(part);
    }
    assert_eq!(sent, vec!["a", "b", "c"]);
}
