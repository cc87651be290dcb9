use ataulfo::reasoning::strip_reasoning;
use ataulfo::search::find_ci;
use ataulfo::search::starts_with_ci;

#[test]
fn strips_complete_block() {
    assert_eq!(
        strip_reasoning("<think>let me think...</think>The answer is 42."),
        "The answer is 42."
    );
}

#[test]
fn strips_multiline_and_whitespace() {
    let input = "<think>\nreasoning\nover lines\n</think>\n\nHola, ¿qué tal?";
    assert_eq!(strip_reasoning(input), "Hola, ¿qué tal?");
}

#[test]
fn handles_implicit_opening_tag() {
    assert_eq!(
        strip_reasoning("internal reasoning</think>Visible reply."),
        "Visible reply."
    );
}

#[test]
fn leaves_normal_text_untouched() {
    assert_eq!(
        strip_reasoning("  just a normal reply  "),
        "just a normal reply"
    );
}

#[test]
fn is_case_insensitive() {
    assert_eq!(strip_reasoning("<THINK>x</THINK>answer"), "answer");
}

#[test]
fn strips_several_blocks() {
    assert_eq!(
        strip_reasoning("uno <think>a</think>dos <Think>ñ</tHINK>tres"),
        "uno dos tres"
    );
}

#[test]
fn drops_an_unclosed_block() {
    assert_eq!(strip_reasoning("antes <think>y nunca más"), "antes");
    assert_eq!(strip_reasoning("<think>nada"), "");
}

#[test]
fn drops_up_to_the_first_lone_closing_tag_only() {
    assert_eq!(strip_reasoning("a</think>b</think>c"), "b</think>c");
}

#[test]
fn joined_pieces_are_not_searched_again() {
    assert_eq!(strip_reasoning("<thi<think>x</think>nk>y"), "<think>y");
}

#[test]
fn a_closing_tag_in_front_of_a_block_counts_as_lone() {
    assert_eq!(strip_reasoning("x</think>y<think>z</think>w"), "yw");
}

#[test]
fn strips_nothing_from_an_empty_reply() {
    assert_eq!(strip_reasoning(""), "");
    assert_eq!(strip_reasoning(" \u{a0}\n\u{3000}"), "");
}

#[test]
fn strips_what_is_around_multibyte_text() {
    assert_eq!(
        strip_reasoning("\u{2003}é🤕<think>¿?</think>ñ\u{2028}"),
        "é🤕ñ"
    );
}

#[test]
fn finds_the_first_byte_whatever_the_case() {
    assert_eq!(find_ci("aBcaBC", "bc"), Some(1));
    assert_eq!(find_ci("ñandú <TAG>", "<tag>"), Some(8));
    assert_eq!(find_ci("abc", "abcd"), None);
    assert_eq!(find_ci("abc", ""), None);
    assert_eq!(find_ci("", ""), None);
    assert_eq!(find_ci("abc", "x"), None);
    assert_eq!(find_ci("abc", "C"), Some(2));
}

#[test]
fn only_ascii_letters_lose_their_case() {
    assert_eq!(find_ci("AÑO", "año"), None);
    assert_eq!(find_ci("AÑO", "aÑo"), Some(0));
    assert_eq!(find_ci("[", "{"), None);
    assert_eq!(find_ci("@", "`"), None);
}

#[test]
fn recognises_a_prefix_whatever_the_case() {
    assert!(starts_with_ci("ATAulfo!", "ataulfo"));
    assert!(!starts_with_ci("ataulf", "ataulfo"));
    assert!(!starts_with_ci("ñataulfo", "ataulfo"));
    assert!(starts_with_ci("x", ""));
}

#[test]
fn an_ascii_needle_is_found_between_characters() {
    let text = "ñé🤕</THINK>ü";
    let at = find_ci(text, "</think>").unwrap();
    assert_eq!(at, 8);
    assert!(text.is_char_boundary(at));
    assert_eq!(&text[at + 8..], "ü");
}

#[test]
fn the_case_of_the_tags_makes_no_difference() {
    let reply = strip_reasoning("Uno <think>x</think>DOS</p>");
    let shouted = strip_reasoning("UNO <THINK>X</THINK>DOS</P>");
    assert_eq!(reply, "Uno DOS</p>");
    assert!(reply.eq_ignore_ascii_case(&shouted));
}
