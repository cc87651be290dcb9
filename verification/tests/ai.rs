use ataulfo::ai::read_reply;
use ataulfo::ai::refusal_text;
use ataulfo::ai::AiClient;
use ataulfo::ai::AiError;
use ataulfo::ai::ChatResponse;
use ataulfo::ai::ChatTurn;
use ataulfo::ai::Choice;
use ataulfo::ai::CompletionEvent;
use ataulfo::ai::CompletionStep;
use ataulfo::ai::ResponseMessage;

fn client(base_url: &str) -> AiClient {
    AiClient::new(
        base_url.to_string(),
        "key".to_string(),
        "model".to_string(),
        Some(300),
        Some(0.5f32.to_bits()),
    )
}

fn answer(contents: Vec<Option<&str>>) -> ChatResponse {
    ChatResponse {
        choices: contents
            .into_iter()
            .map(|content| Choice {
                message: ResponseMessage {
                    content: content.map(|c| c.to_string()),
                },
            })
            .collect(),
    }
}

#[test]
fn turns_know_their_role() {
    let user = ChatTurn::user("hola".to_string());
    assert_eq!((user.role(), user.content()), ("user", "hola"));
    let bot = ChatTurn::assistant("adiós".to_string());
    assert_eq!((bot.role(), bot.content()), ("assistant", "adiós"));
    let copy = bot.clone();
    assert_eq!((copy.role(), copy.content()), ("assistant", "adiós"));
}

#[test]
fn a_request_holds_personality_and_history() {
    let history = vec![
        ChatTurn::user("ana: hola".to_string()),
        ChatTurn::assistant("hola".to_string()),
    ];
    let call = client("https://ai.example//").clone().request("be kind", &history);
    assert_eq!(call.url, "https://ai.example/v1/chat/completions");
    assert_eq!(call.api_key, "key");
    assert_eq!(call.timeout_secs, 60);
    assert_eq!(call.body.model, "model");
    assert_eq!(call.body.max_tokens, Some(300));
    assert_eq!(call.body.temperature.map(f32::from_bits), Some(0.5));
    let said: Vec<(&str, &str)> = call
        .body
        .messages
        .iter()
        .map(|t| (t.role(), t.content()))
        .collect();
    assert_eq!(
        said,
        vec![
            ("system", "be kind"),
            ("user", "ana: hola"),
            ("assistant", "hola"),
        ]
    );
}

#[test]
fn unset_caps_stay_unset() {
    let plain = AiClient::new("u".to_string(), "k".to_string(), "m".to_string(), None, None);
    let call = plain.request("", &[]);
    assert_eq!(call.url, "u/v1/chat/completions");
    assert_eq!(call.body.max_tokens, None);
    assert_eq!(call.body.temperature, None);
    assert_eq!(call.body.messages.len(), 1);
}

#[test]
fn a_completion_starts_with_the_request() {
    let step = client("u").complete(CompletionEvent::Start {
        system: "s".to_string(),
        history: vec![ChatTurn::user("x".to_string())],
    });
    match step {
        CompletionStep::Send(call) => assert_eq!(call.body.messages.len(), 2),
        _ => panic!("nothing to send"),
    }
}

#[test]
fn only_a_success_is_read_as_an_answer() {
    let client = client("u");
    for status in [200u16, 204, 299] {
        assert!(matches!(
            client.complete(CompletionEvent::Status(status)),
            CompletionStep::ReadCompletion
        ));
    }
    for status in [0u16, 100, 199, 300, 404, 500, 999, 1000] {
        assert!(matches!(
            client.complete(CompletionEvent::Status(status)),
            CompletionStep::ReadErrorText
        ));
    }
}

#[test]
fn a_refusal_is_reported_with_its_text() {
    let step = client("u").complete(CompletionEvent::ErrorText {
        status: 404,
        text: Some("no such model".to_string()),
    });
    match step {
        CompletionStep::Done(Err(error)) => {
            assert!(matches!(&error, AiError::Refused { status: 404, .. }));
            assert_eq!(
                error.message(),
                "AI provider returned 404 Not Found: no such model"
            );
        }
        _ => panic!("not a refusal"),
    }
}

#[test]
fn a_refusal_without_text_is_still_reported() {
    let step = client("u").complete(CompletionEvent::ErrorText {
        status: 599,
        text: None,
    });
    match step {
        CompletionStep::Done(Err(error)) => assert_eq!(
            error.message(),
            "AI provider returned 599 <unknown status code>: "
        ),
        _ => panic!("not a refusal"),
    }
}

#[test]
fn a_refusal_in_words() {
    assert_eq!(refusal_text("418 I'm a teapot", "tea"), "AI provider returned 418 I'm a teapot: tea");
}

#[test]
fn the_first_choice_is_the_reply() {
    let step = client("u").complete(CompletionEvent::Parsed(answer(vec![
        Some("<think>hm</think> sí "),
        Some("no"),
    ])));
    match step {
        CompletionStep::Done(Ok(reply)) => assert_eq!(reply, "sí"),
        _ => panic!("no reply"),
    }
}

#[test]
fn an_answer_without_choices_is_an_error() {
    match read_reply(&answer(Vec::new())) {
        Err(error) => {
            assert!(matches!(error, AiError::NoChoices));
            assert_eq!(error.message(), "AI response contained no choices");
        }
        Ok(_) => panic!("a reply out of nothing"),
    }
}

#[test]
fn an_empty_reply_is_an_error() {
    for content in [None, Some(""), Some("  \n"), Some("<think>only thoughts")] {
        match read_reply(&answer(vec![content, Some("unused")])) {
            Err(error) => {
                assert!(matches!(error, AiError::EmptyReply));
                assert_eq!(error.message(), "AI returned an empty reply");
            }
            Ok(_) => panic!("a reply out of nothing"),
        }
    }
}

#[test]
fn a_request_that_does_not_get_through_is_an_error() {
    let step = client("u").complete(CompletionEvent::SendFailed("timed out".to_string()));
    match step {
        CompletionStep::Done(Err(error)) => {
            assert!(matches!(&error, AiError::Unreachable(_)));
            assert_eq!(error.message(), "failed to reach AI provider: timed out");
        }
        _ => panic!("not an error"),
    }
}

#[test]
fn an_unreadable_answer_is_an_error() {
    let step = client("u").complete(CompletionEvent::ParseFailed("bad JSON".to_string()));
    match step {
        CompletionStep::Done(Err(error)) => {
            assert!(matches!(&error, AiError::Unreadable(_)));
            assert_eq!(error.message(), "failed to parse AI response: bad JSON");
        }
        _ => panic!("not an error"),
    }
}
