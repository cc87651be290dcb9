//! Minimal client for an OpenAI-compatible chat endpoint.
//!
//! The client decides what to send and what to make of the answer; whoever drives it does the
//! sending and the reading.

use crate::reasoning;
use crate::search;
use crate::text;
use vstd::prelude::*;
use vstd::string::*;

verus! {

/// How long to wait for the provider before giving up, so that a hung endpoint cannot leave a
/// request pending forever.
pub const REQUEST_TIMEOUT_SECS: u64 = 60;

/// One turn of conversation sent to the model.
pub struct ChatTurn {
    role: &'static str,
    content: String,
}

/// What a turn of conversation says, and in which role.
pub ghost struct TurnView {
    /// The role of the speaker.
    pub role: Seq<char>,
    /// What was said.
    pub content: Seq<char>,
}

impl View for ChatTurn {
    type V = TurnView;

    closed spec fn view(&self) -> TurnView {
        TurnView { role: self.role@, content: self.content@ }
    }
}

impl Clone for ChatTurn {
    fn clone(&self) -> (copy: Self)
        ensures
            copy@ == self@,
    {
        ChatTurn { role: self.role, content: self.content.clone() }
    }
}

impl ChatTurn {
    /// The personality that the model is given.
    fn system(content: String) -> (turn: Self)
        ensures
            turn@ == (TurnView { role: "system"@, content: content@ }),
    {
        ChatTurn { role: "system", content }
    }

    /// A message from a human in the chat (prefix `content` with their name so that the model
    /// can tell speakers apart).
    pub fn user(content: String) -> (turn: Self)
        ensures
            turn@ == (TurnView { role: "user"@, content: content@ }),
    {
        ChatTurn { role: "user", content }
    }

    /// A message that the bot itself previously sent.
    pub fn assistant(content: String) -> (turn: Self)
        ensures
            turn@ == (TurnView { role: "assistant"@, content: content@ }),
    {
        ChatTurn { role: "assistant", content }
    }

    /// The role of the speaker.
    pub fn role(&self) -> (role: &'static str)
        ensures
            role@ == self@.role,
    {
        self.role
    }

    /// What was said.
    pub fn content(&self) -> (content: &str)
        ensures
            content@ == self@.content,
    {
        self.content.as_str()
    }
}

/// The views of a sequence of turns.
pub open spec fn turn_views(turns: Seq<ChatTurn>) -> Seq<TurnView> {
    turns.map_values(|t: ChatTurn| t@)
}

/// Client for an OpenAI-compatible `/v1/chat/completions` endpoint.
pub struct AiClient {
    base_url: String,
    api_key: String,
    model: String,
    max_tokens: Option<u32>,
    temperature: Option<u32>,
}

/// What a client was made with.
pub ghost struct AiClientView {
    /// The provider's address, without slashes at its end.
    pub base_url: Seq<char>,
    /// The key that the provider gave out.
    pub api_key: Seq<char>,
    /// The model that is asked.
    pub model: Seq<char>,
    /// The cap on the length of an answer, if there is one.
    pub max_tokens: Option<u32>,
    /// The bits of the sampling temperature, if there is one.
    pub temperature: Option<u32>,
}

impl View for AiClient {
    type V = AiClientView;

    closed spec fn view(&self) -> AiClientView {
        AiClientView {
            base_url: self.base_url@,
            api_key: self.api_key@,
            model: self.model@,
            max_tokens: self.max_tokens,
            temperature: self.temperature,
        }
    }
}

impl Clone for AiClient {
    fn clone(&self) -> (copy: Self)
        ensures
            copy@ == self@,
    {
        AiClient {
            base_url: self.base_url.clone(),
            api_key: self.api_key.clone(),
            model: self.model.clone(),
            max_tokens: self.max_tokens,
            temperature: self.temperature,
        }
    }
}

/// What is sent to the provider as the body of a request.
pub struct ChatRequest {
    /// The model that is asked.
    pub model: String,
    /// The personality, then the conversation, oldest turn first.
    pub messages: Vec<ChatTurn>,
    /// The cap on the length of the answer; left out of the request where unset.
    pub max_tokens: Option<u32>,
    /// The bits of the sampling temperature; left out of the request where unset.
    pub temperature: Option<u32>,
}

/// A request to the provider.
pub struct ChatCall {
    /// Where it goes.
    pub url: String,
    /// The key that it shows.
    pub api_key: String,
    /// How many seconds it may take, the reading of the answer included.
    pub timeout_secs: u64,
    /// What it says.
    pub body: ChatRequest,
}

/// A request to the provider, as plain values.
pub ghost struct CallView {
    /// Where it goes.
    pub url: Seq<char>,
    /// The key that it shows.
    pub api_key: Seq<char>,
    /// How many seconds it may take.
    pub timeout_secs: u64,
    /// The model that is asked.
    pub model: Seq<char>,
    /// The personality, then the conversation.
    pub messages: Seq<TurnView>,
    /// The cap on the length of the answer.
    pub max_tokens: Option<u32>,
    /// The bits of the sampling temperature.
    pub temperature: Option<u32>,
}

impl View for ChatCall {
    type V = CallView;

    open spec fn view(&self) -> CallView {
        CallView {
            url: self.url@,
            api_key: self.api_key@,
            timeout_secs: self.timeout_secs,
            model: self.body.model@,
            messages: turn_views(self.body.messages@),
            max_tokens: self.body.max_tokens,
            temperature: self.body.temperature,
        }
    }
}

/// The answer of the provider.
pub struct ChatResponse {
    /// The answers to choose from.
    pub choices: Vec<Choice>,
}

/// One of the provider's answers.
pub struct Choice {
    /// What the model said.
    pub message: ResponseMessage,
}

/// What the model said.
pub struct ResponseMessage {
    /// The text; a provider may leave it out.
    pub content: Option<String>,
}

/// Why there is no reply.
pub enum AiError {
    /// The request did not get through, for this reason.
    Unreachable(String),
    /// The provider answered with a status other than success.
    Refused { status: u16, body: String },
    /// The provider's answer could not be read, for this reason.
    Unreadable(String),
    /// The provider's answer held nothing to choose from.
    NoChoices,
    /// Nothing was left of the answer.
    EmptyReply,
}

/// What happened while a completion was under way.
pub enum CompletionEvent {
    /// A completion is wanted: the personality, and the conversation so far, oldest turn first.
    Start { system: String, history: Vec<ChatTurn> },
    /// The request did not get through, for this reason.
    SendFailed(String),
    /// The provider answered with this status.
    Status(u16),
    /// The text of a refusal was read, or could not be.
    ErrorText { status: u16, text: Option<String> },
    /// The answer could not be read, for this reason.
    ParseFailed(String),
    /// An answer was read.
    Parsed(ChatResponse),
}

/// What to do next for a completion.
pub enum CompletionStep {
    /// Send this request and report the status of the answer, or that it did not get through.
    Send(ChatCall),
    /// Read the text of the refusal and report it.
    ReadErrorText,
    /// Read the answer and report it, or that it could not be read.
    ReadCompletion,
    /// It is over.
    Done(Result<String, AiError>),
}

/// A status of the class that stands for success.
pub open spec fn is_success(status: u16) -> bool {
    200 <= status < 300
}

/// What `reqwest::StatusCode` writes for a status: its number and the phrase that goes with it.
pub uninterp spec fn status_line(status: u16) -> Seq<char>;

/// `reqwest::StatusCode::is_success` tests whether a status is within 200-299; a number that is
/// no status is none of these.
#[verifier::external_body]
fn status_is_success(status: u16) -> (answer: bool)
    ensures
        answer == is_success(status),
{
    match reqwest::StatusCode::from_u16(status) {
        Ok(code) => code.is_success(),
        Err(_) => false,
    }
}

/// The `Display` of `reqwest::StatusCode` writes a text that depends on the status alone; a
/// status has three digits.
#[verifier::external_body]
fn status_display(status: u16) -> (line: String)
    requires
        100 <= status <= 999,
    ensures
        line@ == status_line(status),
{
    reqwest::StatusCode::from_u16(status).unwrap().to_string()
}

/// What is said of a refusal, given how its status is written.
pub open spec fn refusal(line: Seq<char>, body: Seq<char>) -> Seq<char> {
    "AI provider returned "@ + line + ": "@ + body
}

/// Says that the provider refused, with the status as it is written and the text that came with
/// it.
pub fn refusal_text(line: &str, body: &str) -> (said: String)
    ensures
        said@ == refusal(line@, body@),
        said@ == "AI provider returned "@ + line@ + ": "@ + body@,
{
    let mut said = "AI provider returned ".to_owned();
    said.append(line);
    said.append(": ");
    said.append(body);
    said
}

impl AiError {
    /// The status of a refusal is one that the provider can have sent.
    pub open spec fn wf(self) -> bool {
        self matches AiError::Refused { status, .. } ==> 100 <= status <= 999
    }

    /// The error in words.
    pub open spec fn words(self) -> Seq<char> {
        match self {
            AiError::Unreachable(why) => "failed to reach AI provider: "@ + why@,
            AiError::Refused { status, body } => refusal(status_line(status), body@),
            AiError::Unreadable(why) => "failed to parse AI response: "@ + why@,
            AiError::NoChoices => "AI response contained no choices"@,
            AiError::EmptyReply => "AI returned an empty reply"@,
        }
    }

    /// Says what went wrong.
    pub fn message(&self) -> (said: String)
        requires
            self.wf(),
        ensures
            said@ == self.words(),
            match *self {
                AiError::Unreachable(why) => said@ == "failed to reach AI provider: "@ + why@,
                AiError::Refused { status, body } => said@ == "AI provider returned "@
                    + status_line(status) + ": "@ + body@,
                AiError::Unreadable(why) => said@ == "failed to parse AI response: "@ + why@,
                AiError::NoChoices => said@ == "AI response contained no choices"@,
                AiError::EmptyReply => said@ == "AI returned an empty reply"@,
            },
    {
        match self {
            AiError::Unreachable(why) => {
                let mut said = "failed to reach AI provider: ".to_owned();
                said.append(why.as_str());
                said
            },
            AiError::Unreadable(why) => {
                let mut said = "failed to parse AI response: ".to_owned();
                said.append(why.as_str());
                said
            },
            AiError::Refused { status, body } => {
                let line = status_display(*status);
                refusal_text(line.as_str(), body.as_str())
            },
            AiError::NoChoices => "AI response contained no choices".to_owned(),
            AiError::EmptyReply => "AI returned an empty reply".to_owned(),
        }
    }
}

/// What the model said first, or nothing where the provider left it out.
pub open spec fn first_content(choices: Seq<Choice>) -> Seq<char> {
    match choices[0].message.content {
        Some(content) => content@,
        None => seq![],
    }
}

/// The reply in an answer of the provider: the first choice without its reasoning.
pub open spec fn reply_in(choices: Seq<Choice>) -> Seq<char> {
    reasoning::stripped(first_content(choices))
}

/// Takes the reply out of an answer of the provider.
pub fn read_reply(response: &ChatResponse) -> (reply: Result<String, AiError>)
    ensures
        match reply {
            Ok(said) => {
                &&& response.choices@.len() > 0
                &&& said@ == reply_in(response.choices@)
                &&& said@.len() > 0
            },
            Err(AiError::NoChoices) => response.choices@.len() == 0,
            Err(AiError::EmptyReply) => {
                &&& response.choices@.len() > 0
                &&& reply_in(response.choices@).len() == 0
            },
            Err(_) => false,
        },
{
    if response.choices.len() == 0 {
        return Err(AiError::NoChoices);
    }
    let reply = match &response.choices[0].message.content {
        Some(content) => reasoning::strip_reasoning(content.as_str()),
        None => reasoning::strip_reasoning(String::new().as_str()),
    };
    if reply.as_str().is_empty() {
        return Err(AiError::EmptyReply);
    }
    Ok(reply)
}

/// The address of the endpoint of a provider at this address.
pub open spec fn endpoint(base_url: Seq<char>) -> Seq<char> {
    base_url + "/v1/chat/completions"@
}

impl AiClientView {
    /// The request for a completion.
    pub open spec fn call(self, system: Seq<char>, history: Seq<TurnView>) -> CallView {
        CallView {
            url: endpoint(self.base_url),
            api_key: self.api_key,
            timeout_secs: REQUEST_TIMEOUT_SECS,
            model: self.model,
            messages: seq![TurnView { role: "system"@, content: system }] + history,
            max_tokens: self.max_tokens,
            temperature: self.temperature,
        }
    }
}

impl AiClient {
    /// A client for the provider at this address; slashes at the end of the address make no
    /// difference. The temperature is given by its bits.
    pub fn new(
        base_url: String,
        api_key: String,
        model: String,
        max_tokens: Option<u32>,
        temperature: Option<u32>,
    ) -> (client: Self)
        ensures
            client@ == (AiClientView {
                base_url: text::without_end_slashes(base_url@),
                api_key: api_key@,
                model: model@,
                max_tokens,
                temperature,
            }),
    {
        AiClient {
            base_url: text::trim_end_slashes(base_url.as_str()).to_owned(),
            api_key,
            model,
            max_tokens,
            temperature,
        }
    }

    /// The request for a completion. `system` is the personality and `history` is the recent
    /// conversation, oldest turn first, the last entry being the message to answer.
    pub fn request(&self, system: &str, history: &[ChatTurn]) -> (call: ChatCall)
        ensures
            call@ == self@.call(system@, turn_views(history@)),
            call.url@ == self@.base_url + "/v1/chat/completions"@,
            call.api_key@ == self@.api_key,
            call.timeout_secs == 60,
            call.body.model@ == self@.model,
            call.body.max_tokens == self@.max_tokens,
            call.body.temperature == self@.temperature,
            call.body.messages@.len() == history@.len() + 1,
            call.body.messages@[0]@ == (TurnView { role: "system"@, content: system@ }),
            forall|i: int|
                0 <= i < history@.len() ==> #[trigger] call.body.messages@[i + 1]@ == history@[i]@,
    {
        let mut url = self.base_url.clone();
        url.append("/v1/chat/completions");
        let mut messages: Vec<ChatTurn> = Vec::new();
        messages.push(ChatTurn::system(system.to_owned()));
        let ghost first = TurnView { role: "system"@, content: system@ };
        let mut i: usize = 0;
        assert(turn_views(messages@) =~= seq![first] + turn_views(history@.take(0)));
        while i < history.len()
            invariant
                i <= history@.len(),
                turn_views(messages@) == seq![first] + turn_views(history@.take(i as int)),
            decreases history@.len() - i,
        {
            let ghost sent = messages@;
            messages.push(history[i].clone());
            proof {
                assert(turn_views(messages@) =~= turn_views(sent).push(history@[i as int]@));
                assert(turn_views(history@.take(i + 1)) =~= turn_views(history@.take(i as int)).push(
                    history@[i as int]@,
                ));
            }
            i += 1;
        }
        assert(history@.take(history@.len() as int) =~= history@);
        let ghost sent = messages@;
        assert forall|i: int| 0 <= i < history@.len() implies #[trigger] sent[i + 1]@
            == history@[i]@ by {
            assert(turn_views(sent)[i + 1] == turn_views(history@)[i]);
        }
        assert(turn_views(sent)[0] == sent[0]@);
        assert(turn_views(sent).len() == sent.len());
        ChatCall {
            url,
            api_key: self.api_key.clone(),
            timeout_secs: REQUEST_TIMEOUT_SECS,
            body: ChatRequest {
                model: self.model.clone(),
                messages,
                max_tokens: self.max_tokens,
                temperature: self.temperature,
            },
        }
    }

    /// What to do next for a completion, now that this has happened. Only an answer that was read
    /// can end in a reply.
    pub fn complete(&self, event: CompletionEvent) -> (step: CompletionStep)
        ensures
            step matches CompletionStep::Done(Ok(_)) ==> event is Parsed,
            match event {
                CompletionEvent::Start { system, history } => {
                    &&& step matches CompletionStep::Send(call)
                    &&& call@ == self@.call(system@, turn_views(history@))
                    &&& call.url@ == self@.base_url + "/v1/chat/completions"@
                    &&& call.api_key@ == self@.api_key
                    &&& call.timeout_secs == 60
                    &&& call.body.model@ == self@.model
                    &&& call.body.max_tokens == self@.max_tokens
                    &&& call.body.temperature == self@.temperature
                    &&& call.body.messages@.len() == history@.len() + 1
                    &&& call.body.messages@[0]@ == (TurnView {
                        role: "system"@,
                        content: system@,
                    })
                    &&& forall|i: int|
                        0 <= i < history@.len() ==> #[trigger] call.body.messages@[i + 1]@
                            == history@[i]@
                },
                CompletionEvent::SendFailed(why) => {
                    &&& step matches CompletionStep::Done(Err(AiError::Unreachable(reason)))
                    &&& reason@ == why@
                },
                CompletionEvent::ParseFailed(why) => {
                    &&& step matches CompletionStep::Done(Err(AiError::Unreadable(reason)))
                    &&& reason@ == why@
                },
                CompletionEvent::Status(status) => {
                    &&& step is ReadCompletion <==> is_success(status)
                    &&& step is ReadCompletion <==> 200 <= status <= 299
                    &&& step is ReadErrorText <==> status < 200 || status > 299
                },
                CompletionEvent::ErrorText { status, text } => {
                    &&& step matches CompletionStep::Done(Err(AiError::Refused { status: s, body }))
                    &&& s == status
                    &&& body@ == (match text {
                        Some(said) => said@,
                        None => seq![],
                    })
                },
                CompletionEvent::Parsed(response) => {
                    &&& step matches CompletionStep::Done(reply)
                    &&& reply is Ok <==> response.choices@.len() > 0 && reply_in(
                        response.choices@,
                    ).len() > 0
                    &&& match reply {
                        Ok(said) => said@ == reply_in(response.choices@),
                        Err(AiError::NoChoices) => response.choices@.len() == 0,
                        Err(AiError::EmptyReply) => response.choices@.len() > 0,
                        Err(_) => false,
                    }
                },
            },
    {
        match event {
            CompletionEvent::Start { system, history } => CompletionStep::Send(
                self.request(system.as_str(), history.as_slice()),
            ),
            CompletionEvent::SendFailed(why) => CompletionStep::Done(
                Err(AiError::Unreachable(why)),
            ),
            CompletionEvent::ParseFailed(why) => CompletionStep::Done(
                Err(AiError::Unreadable(why)),
            ),
            CompletionEvent::Status(status) => if status_is_success(status) {
                CompletionStep::ReadCompletion
            } else {
                CompletionStep::ReadErrorText
            },
            CompletionEvent::ErrorText { status, text } => {
                let body = match text {
                    Some(said) => said,
                    None => String::new(),
                };
                CompletionStep::Done(Err(AiError::Refused { status, body }))
            },
            CompletionEvent::Parsed(response) => CompletionStep::Done(read_reply(&response)),
        }
    }
}

/// A provider's address may end in any number of slashes: the endpoint is the same, and there is
/// one slash between the two parts.
pub proof fn law_end_slashes_make_no_difference(base_url: Seq<char>)
    ensures
        endpoint(text::without_end_slashes(base_url.push('/'))) == endpoint(
            text::without_end_slashes(base_url),
        ),
        text::without_end_slashes(base_url).len() > 0 ==> text::without_end_slashes(base_url).last()
            != '/',
    decreases base_url.len(),
{
    assert(base_url.push('/').drop_last() =~= base_url);
    if base_url.len() > 0 && base_url.last() == '/' {
        law_end_slashes_make_no_difference(base_url.drop_last());
    }
}

/// A request opens with the personality, and the conversation follows as it is: the last turn,
/// the one to answer, comes last.
pub proof fn law_request_holds_the_conversation(
    client: AiClientView,
    system: Seq<char>,
    history: Seq<TurnView>,
)
    ensures
        ({
            let messages = client.call(system, history).messages;
            &&& messages.len() == history.len() + 1
            &&& messages[0] == TurnView { role: "system"@, content: system }
            &&& messages.skip(1) == history
            &&& history.len() > 0 ==> messages.last() == history.last()
        }),
{
    assert(client.call(system, history).messages.skip(1) =~= history);
}

/// A reply has no white space around it.
pub proof fn law_reply_is_trimmed(choices: Seq<Choice>)
    ensures
        text::trimmed(reply_in(choices)) == reply_in(choices),
{
    reasoning::law_stripped_reply_is_trimmed(first_content(choices));
}

/// Only the first choice is looked at: however many follow it, answers that agree on what it says
/// give the same reply.
pub proof fn law_only_the_first_choice_counts(a: Seq<Choice>, b: Seq<Choice>)
    requires
        a.len() > 0,
        b.len() > 0,
        match (a[0].message.content, b[0].message.content) {
            (Some(x), Some(y)) => x@ == y@,
            (None, None) => true,
            (Some(x), None) => x@.len() == 0,
            (None, Some(y)) => y@.len() == 0,
        },
    ensures
        reply_in(a) == reply_in(b),
{
    assert(first_content(a) =~= first_content(b));
}

/// A choice without text gives no reply.
pub proof fn law_missing_text_gives_no_reply(choices: Seq<Choice>)
    requires
        choices.len() > 0,
        choices[0].message.content is None,
    ensures
        reply_in(choices).len() == 0,
{
    let empty = Seq::<char>::empty();
    assert(first_content(choices) =~= empty);
    reasoning::lemma_tags();
    reasoning::law_untagged_reply_is_kept(empty);
}

/// However many choices there are, a block of reasoning in front of the first one's answer is not
/// part of the reply.
pub proof fn law_reasoning_is_not_in_the_reply(
    choices: Seq<Choice>,
    open: Seq<char>,
    thoughts: Seq<char>,
    close: Seq<char>,
    rest: Seq<char>,
)
    requires
        choices.len() > 0,
        choices[0].message.content matches Some(content) && content@ == open + thoughts + close
            + rest,
        search::same_but_case(open, "<think>"@),
        search::absent(thoughts, "</think>"@),
        search::same_but_case(close, "</think>"@),
        search::absent(rest, "<think>"@),
        search::absent(rest, "</think>"@),
    ensures
        reply_in(choices) == text::trimmed(rest),
{
    let none = Seq::<char>::empty();
    reasoning::lemma_tags();
    assert(none + open + thoughts + close + rest =~= open + thoughts + close + rest);
    reasoning::law_closed_block_is_removed(none, open, thoughts, close, rest);
    reasoning::law_untagged_reply_is_kept(rest);
}

/// The reply is what stands outside the reasoning of the first choice, in order and without the
/// white space around it, where no closing tag is left in it.
pub proof fn law_reply_is_what_stands_outside(
    choices: Seq<Choice>,
    front: Seq<char>,
    blocks: Seq<reasoning::Block>,
    tail: Seq<char>,
)
    requires
        choices.len() > 0,
        choices[0].message.content matches Some(content) && content@ == reasoning::written(
            front,
            blocks,
            tail,
        ),
        reasoning::is_reply(front, blocks, tail),
        search::absent(reasoning::outside(front, blocks), "</think>"@),
    ensures
        reply_in(choices) == text::trimmed(reasoning::outside(front, blocks)),
{
    reasoning::law_what_stands_outside_is_shown(front, blocks, tail);
}

/// Where a closing tag is left outside the reasoning of the first choice, the reply is what stands
/// behind the first such tag.
pub proof fn law_reply_is_what_stands_behind_a_lone_close(
    choices: Seq<Choice>,
    front: Seq<char>,
    blocks: Seq<reasoning::Block>,
    tail: Seq<char>,
    thoughts: Seq<char>,
    close: Seq<char>,
    answer: Seq<char>,
)
    requires
        choices.len() > 0,
        choices[0].message.content matches Some(content) && content@ == reasoning::written(
            front,
            blocks,
            tail,
        ),
        reasoning::is_reply(front, blocks, tail),
        reasoning::outside(front, blocks) == thoughts + close + answer,
        search::absent(thoughts, "</think>"@),
        search::same_but_case(close, "</think>"@),
    ensures
        reply_in(choices) == text::trimmed(answer),
{
    reasoning::law_what_stands_behind_a_lone_close_is_shown(
        front,
        blocks,
        tail,
        thoughts,
        close,
        answer,
    );
}

/// A request goes to the endpoint below the provider's address, with the client's own key, model
/// and caps, and may take a minute.
pub proof fn law_request_is_the_clients(
    client: AiClientView,
    system: Seq<char>,
    history: Seq<TurnView>,
)
    ensures
        ({
            let call = client.call(system, history);
            &&& call.url == client.base_url + "/v1/chat/completions"@
            &&& call.api_key == client.api_key
            &&& call.model == client.model
            &&& call.max_tokens == client.max_tokens
            &&& call.temperature == client.temperature
            &&& call.timeout_secs == 60
        }),
{
}

/// The turns are viewed one by one, in order.
pub proof fn law_every_turn_is_viewed(turns: Seq<ChatTurn>)
    ensures
        turn_views(turns).len() == turns.len(),
        forall|i: int| 0 <= i < turns.len() ==> #[trigger] turn_views(turns)[i] == turns[i]@,
{
}

} // verus!
