use ataulfo::prompt::extract_prompt;
use ataulfo::prompt::prompt_behind;

#[test]
fn extract_prompt_returns_remainder() {
    assert_eq!(extract_prompt("ataulfo hola"), Some("hola"));
    assert_eq!(extract_prompt("  ATAULFO   hey "), Some("hey"));
    assert_eq!(extract_prompt("ataulfo"), Some(""));
}

#[test]
fn extract_prompt_requires_trigger_as_first_whole_word() {
    assert_eq!(extract_prompt("ataulfos"), None);
    assert_eq!(extract_prompt("hola ataulfo"), None);
    assert_eq!(extract_prompt("xataulfo y"), None);
}

#[test]
fn extract_prompt_allows_punctuation_after_trigger() {
    // "Ataulfo, ¿qué tal?" should still count as a (non-empty) trigger.
    assert!(matches!(extract_prompt("Ataulfo, ¿qué tal?"), Some(s) if !s.is_empty()));
}

#[test]
fn the_punctuation_stays_in_the_prompt() {
    assert_eq!(extract_prompt("Ataulfo, ¿qué tal?"), Some(", ¿qué tal?"));
    assert_eq!(extract_prompt("ataulfo¿sí?"), Some("¿sí?"));
    assert_eq!(extract_prompt("ataulfo_x"), Some("_x"));
}

#[test]
fn letters_and_digits_of_any_script_make_another_word() {
    assert_eq!(extract_prompt("ataulfo2"), None);
    assert_eq!(extract_prompt("ataulfoñ"), None);
    assert_eq!(extract_prompt("ataulfo越"), None);
    assert_eq!(extract_prompt("ataulfo½"), None);
}

#[test]
fn unicode_white_space_is_skipped() {
    assert_eq!(extract_prompt("\u{3000}ataulfo\u{a0}hola\u{2003}"), Some("hola"));
    assert_eq!(extract_prompt("ataulfo \t\r\n"), Some(""));
}

#[test]
fn a_short_or_odd_text_has_no_prompt() {
    assert_eq!(extract_prompt(""), None);
    assert_eq!(extract_prompt("ataulf"), None);
    assert_eq!(extract_prompt("ataulfó"), None);
    assert_eq!(extract_prompt("ññññ"), None);
}

#[test]
fn what_goes_on_with_the_word_is_no_prompt() {
    assert_eq!(prompt_behind(" hola \n", false), Some("hola"));
    assert_eq!(prompt_behind("", false), Some(""));
    assert_eq!(prompt_behind("s hola", true), None);
}
