use ataulfo::chunks::split_message;
use ataulfo::chunks::DISCORD_MAX_LEN;

#[test]
fn split_message_keeps_short_text_intact() {
    let s = "una línea corta";
    assert_eq!(split_message(s), vec![s.to_string()]);
}

#[test]
fn split_message_respects_limit_and_preserves_content() {
    let line = "abcdefghij ".repeat(300); // ~3.3k chars, no internal newline
    let text = format!("{line}\n{line}\n{line}");
    let chunks = split_message(&text);
    assert!(chunks.len() > 1);
    for c in &chunks {
        assert!(c.len() <= DISCORD_MAX_LEN, "chunk too long: {}", c.len());
    }
    assert_eq!(chunks.concat(), text);
}

#[test]
fn split_message_hard_splits_a_single_long_line() {
    let text = "x".repeat(DISCORD_MAX_LEN * 2 + 5);
    let chunks = split_message(&text);
    assert!(chunks.len() >= 3);
    for c in &chunks {
        assert!(c.len() <= DISCORD_MAX_LEN);
    }
    assert_eq!(chunks.concat(), text);
}

#[test]
fn an_empty_reply_is_one_empty_message() {
    assert_eq!(split_message(""), vec![String::new()]);
}

#[test]
fn a_reply_of_just_the_limit_is_one_message() {
    let text = "x".repeat(DISCORD_MAX_LEN);
    assert_eq!(split_message(&text), vec![text.clone()]);
    let longer = "x".repeat(DISCORD_MAX_LEN + 1);
    assert_eq!(split_message(&longer), vec![text, "x".to_string()]);
}

#[test]
fn lines_are_packed_whole() {
    let line = format!("{}\n", "a".repeat(899));
    let text = line.repeat(5);
    let chunks = split_message(&text);
    assert_eq!(chunks, vec![line.repeat(2), line.repeat(2), line]);
}

#[test]
fn a_long_line_begins_a_message_and_its_end_is_filled_up() {
    let text = format!("short\n{}\nend\n", "y".repeat(2500));
    let chunks = split_message(&text);
    assert_eq!(
        chunks,
        vec![
            "short\n".to_string(),
            "y".repeat(2000),
            format!("{}\nend\n", "y".repeat(500)),
        ]
    );
}

#[test]
fn characters_are_never_torn() {
    let text = "é".repeat(1500);
    let chunks = split_message(&text);
    assert_eq!(chunks, vec!["é".repeat(1000), "é".repeat(500)]);
    let odd = format!("x{}", "🤕".repeat(600));
    let parts = split_message(&odd);
    assert_eq!(parts, vec![format!("x{}", "🤕".repeat(499)), "🤕".repeat(101)]);
}

#[test]
fn a_message_is_filled_to_the_limit() {
    let text = format!("{}\n{}\n{}\n", "a".repeat(999), "b".repeat(999), "c".repeat(3));
    let chunks = split_message(&text);
    assert_eq!(chunks.len(), 2);
    assert_eq!(chunks[0].len(), DISCORD_MAX_LEN);
    assert_eq!(chunks[1], "ccc\n");
}
