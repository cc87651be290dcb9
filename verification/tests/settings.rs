use ataulfo::settings::invalid_setting;
use ataulfo::settings::missing_setting;
use ataulfo::settings::optional_setting;
use ataulfo::settings::optional_u32;

#[test]
fn blank_settings_hold_nothing() {
    assert_eq!(optional_setting(None), None);
    assert_eq!(optional_setting(Some("")), None);
    assert_eq!(optional_setting(Some(" \t\n")), None);
    assert_eq!(optional_setting(Some(" 0.7 ")), Some("0.7"));
}

#[test]
fn optional_numbers_are_read() {
    assert_eq!(optional_u32("N", None), Ok(None));
    assert_eq!(optional_u32("N", Some("  ")), Ok(None));
    assert_eq!(optional_u32("N", Some(" 512\n")), Ok(Some(512)));
    assert_eq!(optional_u32("N", Some("+7")), Ok(Some(7)));
    assert_eq!(optional_u32("N", Some("007")), Ok(Some(7)));
    assert_eq!(optional_u32("N", Some("4294967295")), Ok(Some(4294967295)));
}

#[test]
fn invalid_numbers_are_refused() {
    for text in ["-1", "+", "1_000", "12a", "4294967296", "1.5", "1 2", "++1", "٣"] {
        match optional_u32("AI_MAX_TOKENS", Some(text)) {
            Err(said) => {
                let why = text.parse::<u32>().unwrap_err().to_string();
                assert_eq!(said, format!("invalid AI_MAX_TOKENS: {why}"));
            }
            Ok(_) => panic!("{text} was accepted"),
        }
    }
}

#[test]
fn settings_are_named_in_complaints() {
    assert_eq!(missing_setting("AI_MODEL"), "missing required env var AI_MODEL");
    assert_eq!(invalid_setting("K", "no"), "invalid K: no");
}
