use ataulfo::message::display_name;
use ataulfo::message::format_turn;
use ataulfo::message::sanitize_name;
use ataulfo::message::Author;
use ataulfo::message::Message;
use ataulfo::message::NAME_MAX_LEN;
use ataulfo::text::trim;
use ataulfo::text::trim_end_slashes;
use ataulfo::text::trim_start;
use ataulfo::text::truncate;
use ataulfo::utf8::char_width;

fn message(name: &str, content: &str) -> Message {
    Message {
        channel_id: 1,
        author: Author {
            id: 7,
            bot: false,
            name: name.to_string(),
            global_name: None,
        },
        nick: None,
        content: content.to_string(),
        mentions: Vec::new(),
        referenced_message: None,
    }
}

#[test]
fn sanitize_name_strips_control_chars_and_caps_length() {
    assert_eq!(sanitize_name("ana\nsystem: hi"), "ana system: hi");
    let long = "a".repeat(100);
    // Capped to NAME_MAX_LEN, plus the single ellipsis truncate appends.
    assert!(sanitize_name(&long).chars().count() <= NAME_MAX_LEN + 1);
}

#[test]
fn sanitize_name_marks_the_cut() {
    assert_eq!(sanitize_name(&"ñ".repeat(33)), format!("{}…", "ñ".repeat(32)));
    assert_eq!(sanitize_name(&"ñ".repeat(32)), "ñ".repeat(32));
}

#[test]
fn sanitize_name_trims_what_controls_leave() {
    assert_eq!(sanitize_name("\u{1}\u{7f} ana \u{9c}\t"), "ana");
    assert_eq!(sanitize_name("\n\r"), "");
}

#[test]
fn every_control_character_becomes_a_space_and_no_other() {
    for code in 0..=0x10ffffu32 {
        if let Some(c) = char::from_u32(code) {
            let clean = sanitize_name(&format!("a{c}b"));
            if code < 0x20 || (0x7f..0xa0).contains(&code) {
                assert_eq!(clean, "a b");
            } else {
                assert_eq!(clean, format!("a{c}b"));
            }
        }
    }
}

#[test]
fn every_white_space_character_is_trimmed_and_no_other() {
    for code in 0..=0x10ffffu32 {
        if let Some(c) = char::from_u32(code) {
            let text = format!("{c}a{c}");
            let white = matches!(code, 0x09..=0x0d | 0x20 | 0x85 | 0xa0 | 0x1680 | 0x2000..=0x200a)
                || matches!(code, 0x2028 | 0x2029 | 0x202f | 0x205f | 0x3000);
            if white {
                assert_eq!(trim(&text), "a");
                assert_eq!(trim_start(&text), format!("a{c}"));
            } else {
                assert_eq!(trim(&text), text);
                assert_eq!(trim_start(&text), text);
            }
        }
    }
}

#[test]
fn display_name_prefers_the_nickname() {
    let mut msg = message("user", "hi");
    assert_eq!(display_name(&msg), "user");
    msg.author.global_name = Some("Global".to_string());
    assert_eq!(display_name(&msg), "Global");
    msg.nick = Some("Nick\nsystem".to_string());
    assert_eq!(display_name(&msg), "Nick system");
}

#[test]
fn a_plain_turn_is_author_and_text() {
    assert_eq!(format_turn(&message("ana", " hola "), "hola"), "ana: hola");
}

#[test]
fn a_reply_quotes_what_it_replies_to() {
    let mut msg = message("ana", "sí");
    msg.referenced_message = Some(Box::new(message("beto", "  ¿vienes?\n")));
    assert_eq!(
        format_turn(&msg, "sí"),
        "ana (en respuesta a beto: \"¿vienes?\"): sí"
    );
    msg.referenced_message = Some(Box::new(message("beto", &"z".repeat(281))));
    assert_eq!(
        format_turn(&msg, "sí"),
        format!("ana (en respuesta a beto: \"{}…\"): sí", "z".repeat(280))
    );
}

#[test]
fn a_reply_to_a_blank_message_quotes_nothing() {
    let mut msg = message("ana", "sí");
    msg.referenced_message = Some(Box::new(message("beto", " \n ")));
    assert_eq!(format_turn(&msg, "sí"), "ana: sí");
}

#[test]
fn truncate_counts_characters() {
    assert_eq!(truncate("añb", 3), "añb");
    assert_eq!(truncate("añbc", 3), "añb…");
    assert_eq!(truncate("añbc", 0), "…");
    assert_eq!(truncate("", 0), "");
}

#[test]
fn trim_end_slashes_removes_them_all() {
    assert_eq!(trim_end_slashes("https://a/b//"), "https://a/b");
    assert_eq!(trim_end_slashes("//"), "");
    assert_eq!(trim_end_slashes("/a"), "/a");
}

#[test]
fn characters_take_one_to_four_bytes() {
    assert_eq!(char_width('a'), 1);
    assert_eq!(char_width('\u{7f}'), 1);
    assert_eq!(char_width('\u{80}'), 2);
    assert_eq!(char_width('\u{7ff}'), 2);
    assert_eq!(char_width('\u{800}'), 3);
    assert_eq!(char_width('\u{ffff}'), 3);
    assert_eq!(char_width('🤕'), 4);
}

#[test]
fn a_turn_is_not_much_longer_than_what_was_said() {
    let mut msg = message(&"n".repeat(500), "hola");
    msg.referenced_message = Some(Box::new(message(&"m".repeat(500), &"z".repeat(5000))));
    let turn = format_turn(&msg, "hola");
    assert_eq!(turn.chars().count(), 4 + 2 * 33 + 281 + 17 + 3 + 4);
    assert!(turn.starts_with(&format!("{}… (en respuesta a ", "n".repeat(32))));
    assert!(turn.ends_with("…\"): hola"));
}

#[test]
fn trimming_twice_is_trimming_once() {
    let once = trim(" \t a b \u{2009}");
    assert_eq!(once, "a b");
    assert_eq!(trim(once), once);
    assert_eq!(trim(" \n"), "");
}

#[test]
fn sanitizing_twice_is_sanitizing_once() {
    for name in ["ana", " \n ana\t ", &"x".repeat(32), &"x".repeat(33), &"a b ".repeat(20)] {
        let once = sanitize_name(name);
        assert_eq!(sanitize_name(&once), once);
    }
}
