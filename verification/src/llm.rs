//! OpenAI-compatible chat completions (Z.ai). Wire conversion is hand-rolled to keep the request
//! shape perfectly stable for prefix caching: one system string head, a constant tools array, then
//! messages.
use crate::json;
use crate::json::{Json, JsonView};
use crate::search;
use crate::search::contains;
use crate::session;
use crate::session::{Message, MessageView, Role, ToolCall, ToolCallView};
use crate::text;
use crate::tg;
use crate::unicode;
use crate::unicode::to_lowercase;
use crate::web;
use crate::web::{is_server_error, is_success, status_text};
use vstd::prelude::*;

verus! {

broadcast use vstd::seq::group_seq_axioms;

/// Requests that are made for one reply before the last error stands.
pub const MAX_ATTEMPTS: u32 = 3;

/// Seconds after which a request is given up.
pub const REQUEST_TIMEOUT_SECS: u64 = 600;

/// A chat-completions service.
pub struct Llm {
    pub base_url: String,
    pub api_key: String,
}

/// How a reply is to be made.
pub struct ChatOptions<'a> {
    pub model: &'a str,
    pub max_tokens: u32,
    /// Sampling temperature, as a JSON number.
    pub temperature: Option<&'a str>,
    /// Z.ai `reasoning_effort` (takes effect with thinking enabled). `None` omits both it and the
    /// `thinking` switch: provider defaults.
    pub effort: Option<&'a str>,
    /// Preserved thinking: send `clear_thinking: false` so prior-turn `reasoning_content` stays in
    /// context instead of being stripped.
    pub preserve_thinking: bool,
}

/// What the model replies.
#[derive(Debug)]
pub struct Reply {
    pub text: String,
    /// Chain-of-thought of this response; kept only in preserve mode.
    pub reasoning: String,
    pub tool_calls: Vec<ToolCall>,
    pub finish_reason: Option<String>,
    /// The provider's own count of the tokens of the request.
    pub prompt_tokens: Option<u64>,
}

/// What a [`Reply`] holds.
pub struct ReplyView {
    pub text: Seq<char>,
    pub reasoning: Seq<char>,
    pub tool_calls: Seq<ToolCallView>,
    pub finish_reason: Option<Seq<char>>,
    pub prompt_tokens: Option<u64>,
}

impl View for Reply {
    type V = ReplyView;

    open spec fn view(&self) -> ReplyView {
        ReplyView {
            text: self.text@,
            reasoning: self.reasoning@,
            tool_calls: session::calls_view(self.tool_calls@),
            finish_reason: text::opt_str(self.finish_reason),
            prompt_tokens: self.prompt_tokens,
        }
    }
}

/// What the provider reports of a request's size.
#[derive(Debug, Clone, Copy)]
pub struct Usage {
    pub prompt_tokens: u64,
    pub completion_tokens: u64,
    pub cached_tokens: u64,
}

/// Why there is no reply.
#[derive(Debug)]
pub enum ChatError {
    /// Provider refused the request because the context does not fit.
    ContextOverflow(String),
    /// Non-retryable client error.
    Fatal(String),
    /// Network / 5xx / 429 — already retried, still failing.
    Transient(String),
}

/// What a [`ChatError`] holds.
pub enum ChatErrorView {
    ContextOverflow(Seq<char>),
    Fatal(Seq<char>),
    Transient(Seq<char>),
}

impl View for ChatError {
    type V = ChatErrorView;

    open spec fn view(&self) -> ChatErrorView {
        match self {
            ChatError::ContextOverflow(e) => ChatErrorView::ContextOverflow(e@),
            ChatError::Fatal(e) => ChatErrorView::Fatal(e@),
            ChatError::Transient(e) => ChatErrorView::Transient(e@),
        }
    }
}

impl ChatErrorView {
    /// What is said of the error.
    pub open spec fn text(self) -> Seq<char> {
        match self {
            ChatErrorView::ContextOverflow(e) => e,
            ChatErrorView::Fatal(e) => e,
            ChatErrorView::Transient(e) => e,
        }
    }
}

impl ChatError {
    /// What is said of the error.
    pub fn message(&self) -> (r: &str)
        ensures
            r@ == self@.text(),
    {
        match self {
            ChatError::ContextOverflow(e) => e.as_str(),
            ChatError::Fatal(e) => e.as_str(),
            ChatError::Transient(e) => e.as_str(),
        }
    }
}

/// What an outcome holds.
pub open spec fn outcome_view(r: Result<Reply, ChatError>) -> Result<ReplyView, ChatErrorView> {
    match r {
        Ok(reply) => Ok(reply@),
        Err(e) => Err(e@),
    }
}

/// A request to the service.
pub struct ChatRequest {
    pub url: String,
    pub api_key: String,
    pub body: Json,
}

// ---------------------------------------------------------------------------------------------
// Wire form
// ---------------------------------------------------------------------------------------------

/// A message with a text and nothing else.
pub open spec fn wire_text(role: Seq<char>, content: JsonView) -> Seq<(Seq<char>, JsonView)> {
    tg::field("role"@, JsonView::Text(role)) + tg::field("content"@, content)
}

/// The text part of a message with images.
pub open spec fn wire_text_part(text: Seq<char>) -> JsonView {
    JsonView::Object(tg::field("type"@, JsonView::Text("text"@)) + tg::field("text"@, JsonView::Text(text)))
}

/// An image part of a message.
pub open spec fn wire_image_part(url: Seq<char>) -> JsonView {
    JsonView::Object(
        tg::field("type"@, JsonView::Text("image_url"@)) + tg::field(
            "image_url"@,
            JsonView::Object(tg::field("url"@, JsonView::Text(url))),
        ),
    )
}

/// A tool call.
pub open spec fn wire_call(call: ToolCallView) -> JsonView {
    JsonView::Object(
        tg::field("id"@, JsonView::Text(call.id)) + tg::field("type"@, JsonView::Text("function"@)) + tg::field(
            "function"@,
            JsonView::Object(
                tg::field("name"@, JsonView::Text(call.name)) + tg::field(
                    "arguments"@,
                    JsonView::Text(call.arguments),
                ),
            ),
        ),
    )
}

/// What a user message holds.
pub open spec fn wire_user_content(m: MessageView) -> JsonView {
    if m.images.len() == 0 {
        JsonView::Text(m.text)
    } else {
        JsonView::Array(
            seq![wire_text_part(m.text)] + Seq::new(m.images.len(), |i: int| wire_image_part(m.images[i])),
        )
    }
}

/// A message as the service takes it. Text-less turns send "" — never null: some gateways reject
/// null outright and the official samples replay "" verbatim. Chain-of-thought is passed back on
/// every turn that carries some (required for interleaved thinking with tools; must stay verbatim,
/// in order).
pub open spec fn wire(m: MessageView) -> JsonView {
    match m.role {
        Role::System => JsonView::Object(wire_text("system"@, JsonView::Text(m.text))),
        Role::Tool => JsonView::Object(
            wire_text("tool"@, JsonView::Text(m.text)) + tg::field(
                "tool_call_id"@,
                JsonView::Text(
                    match m.tool_call_id {
                        Some(id) => id,
                        None => Seq::empty(),
                    },
                ),
            ),
        ),
        Role::User => JsonView::Object(wire_text("user"@, wire_user_content(m))),
        Role::Assistant => JsonView::Object(
            wire_text("assistant"@, JsonView::Text(m.text)) + (if m.reasoning.len() > 0 {
                tg::field("reasoning_content"@, JsonView::Text(m.reasoning))
            } else {
                Seq::empty()
            }) + (if m.tool_calls.len() > 0 {
                tg::field(
                    "tool_calls"@,
                    JsonView::Array(Seq::new(m.tool_calls.len(), |i: int| wire_call(m.tool_calls[i]))),
                )
            } else {
                Seq::empty()
            }),
        ),
    }
}

/// Messages as the service takes them.
pub open spec fn wire_all(msgs: Seq<MessageView>) -> Seq<JsonView> {
    Seq::new(msgs.len(), |i: int| wire(msgs[i]))
}

fn text_message(role: &str, content: Json) -> (r: Vec<(String, Json)>)
    ensures
        json::members_view(r@) == wire_text(role@, content@),
{
    let mut m = json::no_members();
    json::put(&mut m, "role", json::text(role));
    json::put(&mut m, "content", content);
    proof {
        assert(json::members_view(m@) =~= wire_text(role@, content@));
    }
    m
}

fn text_part(text: &str) -> (r: Json)
    ensures
        r@ == wire_text_part(text@),
{
    let mut m = json::no_members();
    json::put(&mut m, "type", json::text("text"));
    json::put(&mut m, "text", json::text(text));
    proof {
        assert(json::members_view(m@) =~= wire_text_part(text@)->Object_0);
    }
    json::object(m)
}

fn image_part(url: &str) -> (r: Json)
    ensures
        r@ == wire_image_part(url@),
{
    let mut inner = json::no_members();
    json::put(&mut inner, "url", json::text(url));
    proof {
        assert(json::members_view(inner@) =~= tg::field("url"@, JsonView::Text(url@)));
    }
    let mut m = json::no_members();
    json::put(&mut m, "type", json::text("image_url"));
    json::put(&mut m, "image_url", json::object(inner));
    proof {
        assert(json::members_view(m@) =~= wire_image_part(url@)->Object_0);
    }
    json::object(m)
}

fn call_part(call: &ToolCall) -> (r: Json)
    ensures
        r@ == wire_call(call@),
{
    let mut f = json::no_members();
    json::put(&mut f, "name", json::text(call.name.as_str()));
    json::put(&mut f, "arguments", json::text(call.arguments.as_str()));
    proof {
        assert(json::members_view(f@) =~= tg::field("name"@, JsonView::Text(call.name@)) + tg::field(
            "arguments"@,
            JsonView::Text(call.arguments@),
        ));
    }
    let mut m = json::no_members();
    json::put(&mut m, "id", json::text(call.id.as_str()));
    json::put(&mut m, "type", json::text("function"));
    json::put(&mut m, "function", json::object(f));
    proof {
        assert(json::members_view(m@) =~= wire_call(call@)->Object_0);
    }
    json::object(m)
}

fn user_content(m: &Message) -> (r: Json)
    ensures
        r@ == wire_user_content(m@),
{
    if m.images.len() == 0 {
        return json::text(m.text.as_str());
    }
    let mut parts: Vec<Json> = Vec::new();
    parts.push(text_part(m.text.as_str()));
    let mut i: usize = 0;
    while i < m.images.len()
        invariant
            i <= m.images@.len(),
            parts@.len() == i + 1,
            parts@[0]@ == wire_text_part(m.text@),
            forall|k: int| 0 <= k < i ==> (#[trigger] parts@[k + 1])@ == wire_image_part(m.images@[k]@),
        decreases m.images@.len() - i,
    {
        let ghost before = parts@;
        parts.push(image_part(m.images[i].as_str()));
        proof {
            assert forall|k: int| 0 <= k < i + 1 implies (#[trigger] parts@[k + 1])@ == wire_image_part(
                m.images@[k]@,
            ) by {
                if k < i {
                    assert(parts@[k + 1] == before[k + 1]);
                }
            }
        }
        i += 1;
    }
    proof {
        let goal = seq![wire_text_part(m.text@)] + Seq::new(
            m@.images.len(),
            |i: int| wire_image_part(m@.images[i]),
        );
        assert forall|k: int| 0 <= k < goal.len() implies json::items_view(parts@)[k] == goal[k] by {
            if k > 0 {
                assert(parts@[(k - 1) + 1]@ == wire_image_part(m.images@[k - 1]@));
            }
        }
        assert(json::items_view(parts@) =~= goal);
    }
    json::array(parts)
}

/// A message as the service takes it.
pub fn to_wire_msg(m: &Message) -> (r: Json)
    ensures
        r@ == wire(m@),
{
    match m.role {
        Role::System => json::object(text_message("system", json::text(m.text.as_str()))),
        Role::Tool => {
            let mut v = text_message("tool", json::text(m.text.as_str()));
            match &m.tool_call_id {
                Some(id) => json::put(&mut v, "tool_call_id", json::text(id.as_str())),
                None => {
                    proof {
                        reveal_strlit("");
                        assert(""@ =~= Seq::<char>::empty());
                    }
                    json::put(&mut v, "tool_call_id", json::text(""))
                },
            }
            proof {
                assert(json::members_view(v@) =~= wire(m@)->Object_0);
            }
            json::object(v)
        },
        Role::User => json::object(text_message("user", user_content(m))),
        Role::Assistant => {
            let mut v = text_message("assistant", json::text(m.text.as_str()));
            if !m.reasoning.as_str().is_empty() {
                json::put(&mut v, "reasoning_content", json::text(m.reasoning.as_str()));
            }
            if m.tool_calls.len() > 0 {
                let mut calls: Vec<Json> = Vec::new();
                let mut i: usize = 0;
                while i < m.tool_calls.len()
                    invariant
                        i <= m.tool_calls@.len(),
                        calls@.len() == i,
                        forall|k: int| 0 <= k < i ==> (#[trigger] calls@[k])@ == wire_call(m.tool_calls@[k]@),
                    decreases m.tool_calls@.len() - i,
                {
                    calls.push(call_part(&m.tool_calls[i]));
                    i += 1;
                }
                proof {
                    assert(json::items_view(calls@) =~= Seq::new(
                        m@.tool_calls.len(),
                        |i: int| wire_call(m@.tool_calls[i]),
                    ));
                }
                json::put(&mut v, "tool_calls", json::array(calls));
            }
            proof {
                assert(json::members_view(v@) =~= wire(m@)->Object_0);
            }
            json::object(v)
        },
    }
}

/// Messages as the service takes them.
pub fn to_wire(msgs: &[Message]) -> (r: Vec<Json>)
    ensures
        json::items_view(r@) == wire_all(session::views(msgs@)),
{
    let mut out: Vec<Json> = Vec::new();
    let mut i: usize = 0;
    while i < msgs.len()
        invariant
            i <= msgs@.len(),
            out@.len() == i,
            forall|k: int| 0 <= k < i ==> (#[trigger] out@[k])@ == wire(msgs@[k]@),
        decreases msgs@.len() - i,
    {
        out.push(to_wire_msg(&msgs[i]));
        i += 1;
    }
    proof {
        assert(json::items_view(out@) =~= wire_all(session::views(msgs@)));
    }
    out
}

/// The wire form of a conversation stays what it was when the conversation goes on: what is added
/// only comes behind it, so the provider's prefix cache stays warm.
pub proof fn law_wire_prefix_is_stable(msgs: Seq<MessageView>, more: Seq<MessageView>)
    ensures
        wire_all(msgs + more) == wire_all(msgs) + wire_all(more),
{
    assert(wire_all(msgs + more) =~= wire_all(msgs) + wire_all(more));
}

/// Every message sends content, and never null.
pub proof fn law_content_is_never_null(m: MessageView)
    ensures
        wire(m).get("content"@) is Some,
        wire(m).get("content"@)->0 != JsonView::Null,
{
    reveal_strlit("role");
    reveal_strlit("content");
    assert("role"@.len() != "content"@.len());
    let members = wire(m)->Object_0;
    assert(members.len() >= 2);
    assert(members[0].0 == "role"@);
    assert(members.drop_first()[0] == members[1]);
    assert(members[1].0 == "content"@);
    assert(json::member(members, "content"@) == json::member(members.drop_first(), "content"@));
}

proof fn lemma_member_names()
    ensures
        "role"@ != "content"@,
        "role"@ != "tool_call_id"@,
        "role"@ != "reasoning_content"@,
        "role"@ != "tool_calls"@,
        "content"@ != "tool_call_id"@,
        "content"@ != "reasoning_content"@,
        "content"@ != "tool_calls"@,
        "tool_call_id"@ != "reasoning_content"@,
        "tool_call_id"@ != "tool_calls"@,
        "reasoning_content"@ != "tool_calls"@,
        "type"@ != "text"@,
        "type"@ != "image_url"@,
        "type"@ != "function"@,
        "id"@ != "type"@,
        "id"@ != "function"@,
        "name"@ != "arguments"@,
        "system"@ != "user"@,
        "system"@ != "assistant"@,
        "system"@ != "tool"@,
        "user"@ != "assistant"@,
        "user"@ != "tool"@,
        "assistant"@ != "tool"@,
{
    reveal_strlit("role");
    reveal_strlit("content");
    reveal_strlit("tool_call_id");
    reveal_strlit("reasoning_content");
    reveal_strlit("tool_calls");
    reveal_strlit("type");
    reveal_strlit("text");
    reveal_strlit("image_url");
    reveal_strlit("function");
    reveal_strlit("id");
    reveal_strlit("name");
    reveal_strlit("arguments");
    reveal_strlit("system");
    reveal_strlit("user");
    reveal_strlit("assistant");
    reveal_strlit("tool");
    assert("role"@.len() == 4);
    assert("content"@.len() == 7);
    assert("tool_call_id"@.len() == 12);
    assert("reasoning_content"@.len() == 17);
    assert("tool_calls"@.len() == 10);
    assert("type"@.len() == 4);
    assert("image_url"@.len() == 9);
    assert("function"@.len() == 8);
    assert("id"@.len() == 2);
    assert("name"@.len() == 4);
    assert("arguments"@.len() == 9);
    assert("system"@.len() == 6);
    assert("assistant"@.len() == 9);
    assert("type"@[1] != "text"@[1]);
    assert("user"@[0] != "tool"@[0]);
}

proof fn lemma_one_field(name: Seq<char>, value: JsonView, key: Seq<char>)
    ensures
        json::member(tg::field(name, value), key) == (if name == key {
            Some(value)
        } else {
            None
        }),
{
    let one = tg::field(name, value);
    assert(one.drop_first() =~= Seq::<(Seq<char>, JsonView)>::empty());
    assert(json::member(one.drop_first(), key) is None);
}

proof fn lemma_two_fields(a: Seq<char>, x: JsonView, b: Seq<char>, y: JsonView, key: Seq<char>)
    ensures
        json::member(tg::field(a, x) + tg::field(b, y), key) == (if a == key {
            Some(x)
        } else if b == key {
            Some(y)
        } else {
            None
        }),
{
    lemma_one_field(a, x, key);
    lemma_one_field(b, y, key);
    json::lemma_get_of_parts(tg::field(a, x), tg::field(b, y), key);
}

proof fn lemma_assistant_members(m: MessageView, key: Seq<char>)
    requires
        m.role == Role::Assistant,
    ensures
        key == "role"@ ==> wire(m).get(key) == Some(JsonView::Text("assistant"@)),
        key == "content"@ ==> wire(m).get(key) == Some(JsonView::Text(m.text)),
        key == "reasoning_content"@ ==> wire(m).get(key) == (if m.reasoning.len() > 0 {
            Some(JsonView::Text(m.reasoning))
        } else {
            None
        }),
        key == "tool_calls"@ ==> wire(m).get(key) == (if m.tool_calls.len() > 0 {
            Some(JsonView::Array(Seq::new(m.tool_calls.len(), |i: int| wire_call(m.tool_calls[i]))))
        } else {
            None
        }),
        key == "tool_call_id"@ ==> wire(m).get(key) is None,
{
    lemma_member_names();
    let base = wire_text("assistant"@, JsonView::Text(m.text));
    let reasoning = if m.reasoning.len() > 0 {
        tg::field("reasoning_content"@, JsonView::Text(m.reasoning))
    } else {
        Seq::empty()
    };
    let list = JsonView::Array(Seq::new(m.tool_calls.len(), |i: int| wire_call(m.tool_calls[i])));
    let calls = if m.tool_calls.len() > 0 {
        tg::field("tool_calls"@, list)
    } else {
        Seq::empty()
    };
    lemma_two_fields("role"@, JsonView::Text("assistant"@), "content"@, JsonView::Text(m.text), key);
    lemma_one_field("reasoning_content"@, JsonView::Text(m.reasoning), key);
    lemma_one_field("tool_calls"@, list, key);
    json::lemma_get_of_parts(base, reasoning, key);
    json::lemma_get_of_parts(base + reasoning, calls, key);
}

proof fn lemma_plain_members(m: MessageView, key: Seq<char>)
    requires
        m.role != Role::Assistant,
    ensures
        key == "role"@ ==> wire(m).get(key) == Some(
            JsonView::Text(
                match m.role {
                    Role::System => "system"@,
                    Role::User => "user"@,
                    _ => "tool"@,
                },
            ),
        ),
        key == "content"@ ==> wire(m).get(key) == Some(
            if m.role == Role::User {
                wire_user_content(m)
            } else {
                JsonView::Text(m.text)
            },
        ),
        key == "tool_call_id"@ && m.role != Role::Tool ==> wire(m).get(key) is None,
        key == "tool_call_id"@ && m.role == Role::Tool ==> wire(m).get(key) == Some(
            JsonView::Text(
                if m.tool_call_id is Some {
                    m.tool_call_id->0
                } else {
                    Seq::empty()
                },
            ),
        ),
        key == "tool_calls"@ || key == "reasoning_content"@ ==> wire(m).get(key) is None,
{
    lemma_member_names();
    match m.role {
        Role::System => {
            lemma_two_fields("role"@, JsonView::Text("system"@), "content"@, JsonView::Text(m.text), key);
        },
        Role::User => {
            lemma_two_fields("role"@, JsonView::Text("user"@), "content"@, wire_user_content(m), key);
        },
        _ => {
            let id = JsonView::Text(
                match m.tool_call_id {
                    Some(id) => id,
                    None => Seq::empty(),
                },
            );
            lemma_two_fields("role"@, JsonView::Text("tool"@), "content"@, JsonView::Text(m.text), key);
            lemma_one_field("tool_call_id"@, id, key);
            json::lemma_get_of_parts(
                wire_text("tool"@, JsonView::Text(m.text)),
                tg::field("tool_call_id"@, id),
                key,
            );
        },
    }
}

/// The role member names the message's own role, and each of the four roles has a name of its own.
pub proof fn law_wire_names_the_role(m: MessageView)
    ensures
        m.role == Role::System <==> wire(m).get("role"@) == Some(JsonView::Text("system"@)),
        m.role == Role::User <==> wire(m).get("role"@) == Some(JsonView::Text("user"@)),
        m.role == Role::Assistant <==> wire(m).get("role"@) == Some(JsonView::Text("assistant"@)),
        m.role == Role::Tool <==> wire(m).get("role"@) == Some(JsonView::Text("tool"@)),
{
    lemma_member_names();
    if m.role == Role::Assistant {
        lemma_assistant_members(m, "role"@);
    } else {
        lemma_plain_members(m, "role"@);
    }
}

/// The text of a message is sent as it stands: as the content itself, or, where a user shows images,
/// as the first part of it, with the images behind it in order.
pub proof fn law_wire_carries_text_and_images(m: MessageView)
    ensures
        !(m.role == Role::User && m.images.len() > 0) ==> wire(m).get("content"@) == Some(JsonView::Text(m.text)),
        m.role == Role::User && m.images.len() > 0 ==> {
            &&& wire(m).get("content"@) matches Some(JsonView::Array(parts))
            &&& parts.len() == m.images.len() + 1
            &&& parts[0].get("type"@) == Some(JsonView::Text("text"@))
            &&& parts[0].get("text"@) == Some(JsonView::Text(m.text))
            &&& forall|i: int|
                0 <= i < m.images.len() ==> {
                    let part = parts[i + 1];
                    &&& part.get("type"@) == Some(JsonView::Text("image_url"@))
                    &&& part.get("image_url"@) is Some
                    &&& part.get("image_url"@)->0.get("url"@) == Some(JsonView::Text(#[trigger] m.images[i]))
                }
        },
{
    lemma_member_names();
    if m.role == Role::Assistant {
        lemma_assistant_members(m, "content"@);
    } else {
        lemma_plain_members(m, "content"@);
    }
    if m.role == Role::User && m.images.len() > 0 {
        let parts = seq![wire_text_part(m.text)] + Seq::new(m.images.len(), |i: int| wire_image_part(m.images[i]));
        assert(wire(m).get("content"@) == Some(JsonView::Array(parts)));
        let (kind, own) = (JsonView::Text("text"@), JsonView::Text(m.text));
        lemma_two_fields("type"@, kind, "text"@, own, "type"@);
        lemma_two_fields("type"@, kind, "text"@, own, "text"@);
        assert(parts[0] == wire_text_part(m.text));
        assert forall|i: int| 0 <= i < m.images.len() implies {
            let part = parts[i + 1];
            &&& part.get("type"@) == Some(JsonView::Text("image_url"@))
            &&& part.get("image_url"@) is Some
            &&& part.get("image_url"@)->0.get("url"@) == Some(JsonView::Text(#[trigger] m.images[i]))
        } by {
            let url = JsonView::Text(m.images[i]);
            let inner = JsonView::Object(tg::field("url"@, url));
            assert(parts[i + 1] == wire_image_part(m.images[i]));
            lemma_one_field("url"@, url, "url"@);
            lemma_two_fields("type"@, JsonView::Text("image_url"@), "image_url"@, inner, "type"@);
            lemma_two_fields("type"@, JsonView::Text("image_url"@), "image_url"@, inner, "image_url"@);
        }
    }
}

/// The calls of the assistant are sent in order, each with its id, name and arguments, a tool result
/// with the id of its call, and chain-of-thought verbatim; what there is none of is not sent.
pub proof fn law_wire_carries_calls(m: MessageView)
    ensures
        m.role == Role::Tool && m.tool_call_id is Some ==> wire(m).get("tool_call_id"@) == Some(
            JsonView::Text(m.tool_call_id->0),
        ),
        m.role != Role::Tool ==> wire(m).get("tool_call_id"@) is None,
        m.role == Role::Assistant && m.reasoning.len() > 0 ==> wire(m).get("reasoning_content"@) == Some(
            JsonView::Text(m.reasoning),
        ),
        m.role != Role::Assistant || m.reasoning.len() == 0 ==> wire(m).get("reasoning_content"@) is None,
        m.role != Role::Assistant || m.tool_calls.len() == 0 ==> wire(m).get("tool_calls"@) is None,
        m.role == Role::Assistant && m.tool_calls.len() > 0 ==> {
            &&& wire(m).get("tool_calls"@) matches Some(JsonView::Array(calls))
            &&& calls.len() == m.tool_calls.len()
            &&& forall|i: int|
                0 <= i < calls.len() ==> {
                    let call = #[trigger] calls[i];
                    &&& call.get("id"@) == Some(JsonView::Text(m.tool_calls[i].id))
                    &&& call.get("type"@) == Some(JsonView::Text("function"@))
                    &&& call.get("function"@) is Some
                    &&& call.get("function"@)->0.get("name"@) == Some(JsonView::Text(m.tool_calls[i].name))
                    &&& call.get("function"@)->0.get("arguments"@) == Some(
                        JsonView::Text(m.tool_calls[i].arguments),
                    )
                }
        },
{
    lemma_member_names();
    if m.role == Role::Assistant {
        lemma_assistant_members(m, "tool_call_id"@);
        lemma_assistant_members(m, "reasoning_content"@);
        lemma_assistant_members(m, "tool_calls"@);
        let calls = Seq::new(m.tool_calls.len(), |i: int| wire_call(m.tool_calls[i]));
        assert forall|i: int| 0 <= i < calls.len() implies {
            let call = #[trigger] calls[i];
            &&& call.get("id"@) == Some(JsonView::Text(m.tool_calls[i].id))
            &&& call.get("type"@) == Some(JsonView::Text("function"@))
            &&& call.get("function"@) is Some
            &&& call.get("function"@)->0.get("name"@) == Some(JsonView::Text(m.tool_calls[i].name))
            &&& call.get("function"@)->0.get("arguments"@) == Some(JsonView::Text(m.tool_calls[i].arguments))
        } by {
            let c = m.tool_calls[i];
            let (id, kind) = (JsonView::Text(c.id), JsonView::Text("function"@));
            let (name, arguments) = (JsonView::Text(c.name), JsonView::Text(c.arguments));
            let function = tg::field("name"@, name) + tg::field("arguments"@, arguments);
            let inner = JsonView::Object(function);
            lemma_two_fields("name"@, name, "arguments"@, arguments, "name"@);
            lemma_two_fields("name"@, name, "arguments"@, arguments, "arguments"@);
            let front = tg::field("id"@, id) + tg::field("type"@, kind);
            let back = tg::field("function"@, inner);
            lemma_two_fields("id"@, id, "type"@, kind, "id"@);
            lemma_two_fields("id"@, id, "type"@, kind, "type"@);
            lemma_two_fields("id"@, id, "type"@, kind, "function"@);
            lemma_one_field("function"@, inner, "function"@);
            json::lemma_get_of_parts(front, back, "id"@);
            json::lemma_get_of_parts(front, back, "type"@);
            json::lemma_get_of_parts(front, back, "function"@);
        }
    } else {
        lemma_plain_members(m, "tool_call_id"@);
        lemma_plain_members(m, "reasoning_content"@);
        lemma_plain_members(m, "tool_calls"@);
    }
}

/// Whether a message holds nothing but what its role has to say: images are the user's, calls and
/// chain-of-thought the assistant's, and a result, and only a result, names its call.
pub open spec fn in_role(m: MessageView) -> bool {
    &&& m.role != Role::User ==> m.images.len() == 0
    &&& m.role != Role::Assistant ==> m.tool_calls.len() == 0 && m.reasoning.len() == 0
    &&& m.role == Role::Tool <==> m.tool_call_id is Some
}

/// No two different messages are sent alike.
pub proof fn law_wire_tells_messages_apart(a: MessageView, b: MessageView)
    requires
        in_role(a),
        in_role(b),
        wire(a) == wire(b),
    ensures
        a == b,
{
    law_wire_names_the_role(a);
    law_wire_names_the_role(b);
    law_wire_carries_text_and_images(a);
    law_wire_carries_text_and_images(b);
    law_wire_carries_calls(a);
    law_wire_carries_calls(b);
    assert(a.role == b.role);
    if a.role == Role::User && a.images.len() > 0 {
        let parts = wire(a).get("content"@)->0->Array_0;
        assert(b.images.len() > 0);
        assert(a.images.len() == b.images.len());
        assert forall|i: int| 0 <= i < a.images.len() implies a.images[i] == b.images[i] by {
            let own = a.images[i];
            let other = b.images[i];
            assert(parts[i + 1].get("image_url"@)->0.get("url"@) == Some(JsonView::Text(own)));
            assert(parts[i + 1].get("image_url"@)->0.get("url"@) == Some(JsonView::Text(other)));
        }
    }
    assert(a.images =~= b.images);
    if a.role == Role::Assistant && a.tool_calls.len() > 0 {
        let calls = wire(a).get("tool_calls"@)->0->Array_0;
        assert forall|i: int| 0 <= i < a.tool_calls.len() implies a.tool_calls[i] == b.tool_calls[i] by {
            assert(calls[i].get("id"@) == Some(JsonView::Text(b.tool_calls[i].id)));
        }
    }
    assert(a.tool_calls =~= b.tool_calls);
    assert(a.text == b.text);
    assert(a.reasoning =~= b.reasoning);
    assert(a.tool_call_id == b.tool_call_id);
}

// ---------------------------------------------------------------------------------------------
// Requests
// ---------------------------------------------------------------------------------------------

/// Body of a request.
pub open spec fn chat_body(msgs: Seq<MessageView>, tools: JsonView, opts: ChatOptions<'_>) -> JsonView {
    JsonView::Object(
        tg::field("model"@, JsonView::Text(opts.model@)) + tg::field("messages"@, JsonView::Array(wire_all(msgs)))
            + tg::field("tools"@, tools) + tg::field("tool_choice"@, JsonView::Text("auto"@)) + tg::field(
            "max_tokens"@,
            json::int_view(opts.max_tokens as int),
        ) + (match opts.temperature {
            Some(t) => tg::field("temperature"@, JsonView::Number(t@)),
            None => Seq::empty(),
        }) + (match opts.effort {
            Some(effort) => tg::field(
                "thinking"@,
                JsonView::Object(tg::field("type"@, JsonView::Text("enabled"@))),
            ) + tg::field("reasoning_effort"@, JsonView::Text(effort@)),
            None => Seq::empty(),
        }) + (if opts.preserve_thinking {
            tg::field("clear_thinking"@, JsonView::Bool(false))
        } else {
            Seq::empty()
        }),
    )
}

impl Llm {
    /// The service at `base_url`.
    pub fn new(base_url: &str, api_key: &str) -> (r: Self)
        ensures
            r.base_url@ == base_url@,
            r.api_key@ == api_key@,
    {
        Llm { base_url: base_url.to_owned(), api_key: api_key.to_owned() }
    }

    /// A request for a reply to `msgs`.
    pub fn chat(&self, msgs: &[Message], tools: Json, opts: &ChatOptions<'_>) -> (r: ChatRequest)
        ensures
            r.url@ == self.base_url@ + "/chat/completions"@,
            r.api_key@ == self.api_key@,
            r.body@ == chat_body(session::views(msgs@), tools@, *opts),
    {
        let mut body = json::no_members();
        json::put(&mut body, "model", json::text(opts.model));
        json::put(&mut body, "messages", json::array(to_wire(msgs)));
        json::put(&mut body, "tools", tools);
        json::put(&mut body, "tool_choice", json::text("auto"));
        json::put(&mut body, "max_tokens", json::integer(opts.max_tokens as i64));
        if let Some(t) = opts.temperature {
            json::put(&mut body, "temperature", Json::Number(t.to_owned()));
        }
        if let Some(effort) = opts.effort {
            let mut thinking = json::no_members();
            json::put(&mut thinking, "type", json::text("enabled"));
            proof {
                assert(json::members_view(thinking@) =~= tg::field("type"@, JsonView::Text("enabled"@)));
            }
            json::put(&mut body, "thinking", json::object(thinking));
            json::put(&mut body, "reasoning_effort", json::text(effort));
        }
        if opts.preserve_thinking {
            json::put(&mut body, "clear_thinking", Json::Bool(false));
        }
        proof {
            assert(json::members_view(body@) =~= chat_body(session::views(msgs@), tools@, *opts)->Object_0);
        }
        let mut url = self.base_url.clone();
        url.append("/chat/completions");
        ChatRequest { url, api_key: self.api_key.clone(), body: json::object(body) }
    }
}

/// Seconds to wait before the request is made again, where it is: a transient error is retried
/// until the attempts are used up, each time after twice as long a pause.
pub fn retry_delay(attempt: u32, outcome: &Result<Reply, ChatError>) -> (r: Option<u64>)
    ensures
        match r {
            Some(secs) => {
                &&& attempt < MAX_ATTEMPTS
                &&& outcome is Err && outcome->Err_0 is Transient
                &&& secs == (if attempt <= 1 {
                    2u64
                } else {
                    4u64
                })
            },
            None => attempt >= MAX_ATTEMPTS || outcome is Ok || !(outcome->Err_0 is Transient),
        },
{
    if attempt >= MAX_ATTEMPTS {
        return None;
    }
    match outcome {
        Err(ChatError::Transient(_)) => if attempt <= 1 {
            Some(2)
        } else {
            Some(4)
        },
        _ => None,
    }
}

// ---------------------------------------------------------------------------------------------
// Replies
// ---------------------------------------------------------------------------------------------

/// What the service answers.
#[derive(Debug)]
pub struct ApiResponse {
    pub choices: Vec<Choice>,
    pub usage: Option<Usage>,
}

/// One of the replies that the service offers.
#[derive(Debug)]
pub struct Choice {
    pub message: RespMessage,
    pub finish_reason: Option<String>,
}

/// A message of the service.
#[derive(Debug)]
pub struct RespMessage {
    pub content: Option<Json>,
    /// Chain-of-thought of the response (thinking models).
    pub reasoning_content: Option<String>,
    pub tool_calls: Option<Vec<RespToolCall>>,
}

/// A tool call of the service.
#[derive(Debug)]
pub struct RespToolCall {
    pub id: String,
    pub function: RespFunction,
}

/// The function of a tool call.
#[derive(Debug)]
pub struct RespFunction {
    pub name: String,
    pub arguments: Option<String>,
}

/// Text of one part of a content list: the part itself, or what it holds as text.
pub open spec fn part_text(part: JsonView) -> Seq<char> {
    match part.text() {
        Some(s) => s,
        None => match part.get("text"@) {
            Some(v) => match v.text() {
                Some(s) => s,
                None => Seq::empty(),
            },
            None => Seq::empty(),
        },
    }
}

/// Text of a content list.
pub open spec fn parts_text(parts: Seq<JsonView>) -> Seq<char>
    decreases parts.len(),
{
    if parts.len() == 0 {
        Seq::empty()
    } else {
        parts_text(parts.drop_last()) + part_text(parts.last())
    }
}

/// Text of a content: a plain string, or a list of typed parts.
pub open spec fn text_of(content: Option<JsonView>) -> Seq<char> {
    match content {
        Some(JsonView::Text(s)) => s,
        Some(JsonView::Array(parts)) => parts_text(parts),
        _ => Seq::empty(),
    }
}

/// What a value that may be missing holds.
pub open spec fn opt_json(o: Option<Json>) -> Option<JsonView> {
    match o {
        Some(v) => Some(v@),
        None => None,
    }
}

fn add_part(out: &mut String, part: &Json)
    ensures
        final(out)@ == old(out)@ + part_text(part@),
{
    if let Some(s) = part.as_text() {
        out.append(s);
        return;
    }
    if let Some(v) = part.get("text") {
        if let Some(s) = v.as_text() {
            out.append(s);
            return;
        }
    }
    proof {
        assert(out@ =~= old(out)@ + part_text(part@));
    }
}

/// Content may arrive as a plain string or as a list of typed parts.
pub fn content_text(content: &Option<Json>) -> (r: String)
    ensures
        r@ == text_of(opt_json(*content)),
{
    match content {
        Some(Json::Text(s)) => s.clone(),
        Some(Json::Array(parts)) => {
            let mut out = String::new();
            let mut i: usize = 0;
            let ghost all = json::items_view(parts@);
            proof {
                assert(content->0@->Array_0 =~= all);
                assert(all.take(0) =~= Seq::<JsonView>::empty());
                reveal_strlit("");
                assert(out@ =~= Seq::<char>::empty());
            }
            while i < parts.len()
                invariant
                    i <= parts@.len(),
                    all == json::items_view(parts@),
                    out@ == parts_text(all.take(i as int)),
                decreases parts@.len() - i,
            {
                proof {
                    assert(all.take(i + 1).drop_last() =~= all.take(i as int));
                    assert(all.take(i + 1).last() == parts@[i as int]@);
                }
                add_part(&mut out, &parts[i]);
                i += 1;
            }
            proof {
                assert(all.take(i as int) =~= all);
            }
            out
        },
        _ => {
            proof {
                reveal_strlit("");
            }
            let r = String::new();
            proof {
                assert(r@ =~= Seq::<char>::empty());
            }
            r
        },
    }
}

/// The calls that the service asks for; missing arguments are none.
pub open spec fn calls_of(calls: Option<Vec<RespToolCall>>) -> Seq<ToolCallView> {
    match calls {
        Some(list) => Seq::new(
            list@.len(),
            |i: int|
                ToolCallView {
                    id: list@[i].id@,
                    name: list@[i].function.name@,
                    arguments: match list@[i].function.arguments {
                        Some(a) => a@,
                        None => "{}"@,
                    },
                },
        ),
        None => Seq::empty(),
    }
}

/// The reply of a choice.
pub open spec fn reply_of(choice: Choice, usage: Option<Usage>) -> ReplyView {
    ReplyView {
        text: text_of(opt_json(choice.message.content)),
        reasoning: match choice.message.reasoning_content {
            Some(s) => s@,
            None => Seq::empty(),
        },
        tool_calls: calls_of(choice.message.tool_calls),
        finish_reason: text::opt_str(choice.finish_reason),
        prompt_tokens: match usage {
            Some(u) => Some(u.prompt_tokens),
            None => None,
        },
    }
}

/// What an answer that was read, or could not be read, comes to: the first choice, if any.
pub open spec fn read_as(parsed: Result<ApiResponse, String>) -> Result<ReplyView, ChatErrorView> {
    match parsed {
        Err(e) => Err(ChatErrorView::Fatal("malformed response: "@ + e@)),
        Ok(response) => if response.choices@.len() == 0 {
            Err(ChatErrorView::Fatal("empty choices"@))
        } else {
            Ok(reply_of(response.choices@[0], response.usage))
        },
    }
}

fn read_calls(calls: &Option<Vec<RespToolCall>>) -> (r: Vec<ToolCall>)
    ensures
        session::calls_view(r@) == calls_of(*calls),
{
    let mut out: Vec<ToolCall> = Vec::new();
    match calls {
        Some(list) => {
            let mut i: usize = 0;
            while i < list.len()
                invariant
                    i <= list@.len(),
                    calls is Some && calls->0 == *list,
                    out@.len() == i,
                    forall|k: int| 0 <= k < i ==> (#[trigger] out@[k])@ == calls_of(*calls)[k],
                decreases list@.len() - i,
            {
                let c = &list[i];
                let arguments = match &c.function.arguments {
                    Some(a) => a.clone(),
                    None => "{}".to_owned(),
                };
                out.push(ToolCall { id: c.id.clone(), name: c.function.name.clone(), arguments });
                i += 1;
            }
        },
        None => {},
    }
    proof {
        assert(session::calls_view(out@) =~= calls_of(*calls));
    }
    out
}

/// The reply that an answer holds.
pub fn read_reply(parsed: Result<ApiResponse, String>) -> (r: Result<Reply, ChatError>)
    ensures
        outcome_view(r) == read_as(parsed),
{
    let response = match parsed {
        Ok(response) => response,
        Err(e) => {
            let mut message = "malformed response: ".to_owned();
            message.append(e.as_str());
            return Err(ChatError::Fatal(message));
        },
    };
    if response.choices.len() == 0 {
        return Err(ChatError::Fatal("empty choices".to_owned()));
    }
    let choice = &response.choices[0];
    let reasoning = match &choice.message.reasoning_content {
        Some(s) => s.clone(),
        None => String::new(),
    };
    let finish_reason = match &choice.finish_reason {
        Some(s) => Some(s.clone()),
        None => None,
    };
    let prompt_tokens: Option<u64> = match response.usage {
        Some(u) => Some(u.prompt_tokens),
        None => None,
    };
    let reply = Reply {
        text: content_text(&choice.message.content),
        reasoning,
        tool_calls: read_calls(&choice.message.tool_calls),
        finish_reason,
        prompt_tokens,
    };
    proof {
        reveal_strlit("");
        assert(reply@.reasoning =~= reply_of(*choice, response.usage).reasoning);
    }
    Ok(reply)
}

/// Whether the provider says, in lower case, that the context does not fit.
pub open spec fn speaks_of_context(lower: Seq<char>) -> bool {
    search::has(lower, "context"@) || search::has(lower, "too long"@) || search::has(lower, "maximum"@)
}

/// The error of a request that failed, where `lower` is the body in lower case.
pub open spec fn error_of(status: u16, lower: Seq<char>, message: Seq<char>) -> ChatErrorView {
    if status == 400 && speaks_of_context(lower) {
        ChatErrorView::ContextOverflow(message)
    } else if 500 <= status < 600 || status == 429 {
        ChatErrorView::Transient(message)
    } else {
        ChatErrorView::Fatal(message)
    }
}

/// The error of a request that failed.
pub open spec fn classified(status: u16, body: Seq<char>) -> ChatErrorView {
    error_of(status, unicode::lowercase(body), web::status_line(status) + ": "@ + body)
}

/// The error of a request that failed, where `lower` is the body in lower case.
pub fn error_kind(status: u16, lower: &str, message: String) -> (r: ChatError)
    ensures
        r@ == error_of(status, lower@, message@),
{
    if status == 400 && (contains(lower, "context") || contains(lower, "too long") || contains(lower, "maximum")) {
        ChatError::ContextOverflow(message)
    } else if is_server_error(status) || status == 429 {
        ChatError::Transient(message)
    } else {
        ChatError::Fatal(message)
    }
}

/// The error of a request that failed.
pub fn classify_error(status: u16, body: &str) -> (r: ChatError)
    ensures
        r@ == classified(status, body@),
{
    let lower = to_lowercase(body);
    let mut message = status_text(status);
    message.append(": ");
    message.append(body);
    error_kind(status, lower.as_str(), message)
}

/// What a request comes to: an error where the service says so, else the reply that its answer
/// holds. `parsed` is what the body was read as.
pub fn chat_outcome(status: u16, body: &str, parsed: Result<ApiResponse, String>) -> (r: Result<Reply, ChatError>)
    ensures
        outcome_view(r) == (if 200 <= status < 300 {
            read_as(parsed)
        } else {
            Err(classified(status, body@))
        }),
{
    if is_success(status) {
        read_reply(parsed)
    } else {
        Err(classify_error(status, body))
    }
}

proof fn lemma_chat_body(msgs: Seq<MessageView>, tools: JsonView, opts: ChatOptions<'_>, key: Seq<char>)
    ensures
        chat_body(msgs, tools, opts).get(key) == (if key == "model"@ {
            Some(JsonView::Text(opts.model@))
        } else if key == "messages"@ {
            Some(JsonView::Array(wire_all(msgs)))
        } else if key == "tools"@ {
            Some(tools)
        } else if key == "tool_choice"@ {
            Some(JsonView::Text("auto"@))
        } else if key == "max_tokens"@ {
            Some(json::int_view(opts.max_tokens as int))
        } else if key == "temperature"@ && opts.temperature is Some {
            Some(JsonView::Number(opts.temperature->0@))
        } else if key == "thinking"@ && opts.effort is Some {
            Some(JsonView::Object(tg::field("type"@, JsonView::Text("enabled"@))))
        } else if key == "reasoning_effort"@ && opts.effort is Some {
            Some(JsonView::Text(opts.effort->0@))
        } else if key == "clear_thinking"@ && opts.preserve_thinking {
            Some(JsonView::Bool(false))
        } else {
            None
        }),
{
    let none = Seq::<(Seq<char>, JsonView)>::empty();
    let a = tg::field("model"@, JsonView::Text(opts.model@));
    let b = a + tg::field("messages"@, JsonView::Array(wire_all(msgs)));
    let c = b + tg::field("tools"@, tools);
    let d = c + tg::field("tool_choice"@, JsonView::Text("auto"@));
    let e = d + tg::field("max_tokens"@, json::int_view(opts.max_tokens as int));
    let temperature = match opts.temperature {
        Some(t) => tg::field("temperature"@, JsonView::Number(t@)),
        None => none,
    };
    let f = e + temperature;
    let enabled = JsonView::Object(tg::field("type"@, JsonView::Text("enabled"@)));
    let thinking = match opts.effort {
        Some(effort) => tg::field("thinking"@, enabled) + tg::field("reasoning_effort"@, JsonView::Text(effort@)),
        None => none,
    };
    let g = f + thinking;
    lemma_one_field("model"@, JsonView::Text(opts.model@), key);
    tg::lemma_field(a, "messages"@, JsonView::Array(wire_all(msgs)), key);
    tg::lemma_field(b, "tools"@, tools, key);
    tg::lemma_field(c, "tool_choice"@, JsonView::Text("auto"@), key);
    tg::lemma_field(d, "max_tokens"@, json::int_view(opts.max_tokens as int), key);
    match opts.temperature {
        Some(t) => tg::lemma_field(e, "temperature"@, JsonView::Number(t@), key),
        None => {
            assert(f =~= e);
        },
    }
    match opts.effort {
        Some(effort) => {
            let part = f + tg::field("thinking"@, enabled);
            tg::lemma_field(f, "thinking"@, enabled, key);
            tg::lemma_field(part, "reasoning_effort"@, JsonView::Text(effort@), key);
            assert(g =~= part + tg::field("reasoning_effort"@, JsonView::Text(effort@)));
        },
        None => {
            assert(g =~= f);
        },
    }
    if opts.preserve_thinking {
        tg::lemma_field(g, "clear_thinking"@, JsonView::Bool(false), key);
    } else {
        assert(g + none =~= g);
    }
}

proof fn lemma_request_names()
    ensures
        "model"@ != "messages"@,
        "model"@ != "tools"@,
        "messages"@ != "tools"@,
        "tool_choice"@ != "model"@,
        "tool_choice"@ != "messages"@,
        "tool_choice"@ != "tools"@,
        "max_tokens"@ != "model"@,
        "max_tokens"@ != "messages"@,
        "max_tokens"@ != "tools"@,
        "max_tokens"@ != "tool_choice"@,
        "temperature"@ != "model"@,
        "temperature"@ != "messages"@,
        "temperature"@ != "tools"@,
        "temperature"@ != "tool_choice"@,
        "temperature"@ != "max_tokens"@,
        "thinking"@ != "model"@,
        "thinking"@ != "messages"@,
        "thinking"@ != "tools"@,
        "thinking"@ != "tool_choice"@,
        "thinking"@ != "max_tokens"@,
        "thinking"@ != "temperature"@,
        "reasoning_effort"@.len() == 16,
        "clear_thinking"@.len() == 14,
        "model"@.len() == 5,
        "messages"@.len() == 8,
        "tools"@.len() == 5,
        "tool_choice"@.len() == 11,
        "max_tokens"@.len() == 10,
        "temperature"@.len() == 11,
        "thinking"@.len() == 8,
{
    reveal_strlit("model");
    reveal_strlit("messages");
    reveal_strlit("tools");
    reveal_strlit("tool_choice");
    reveal_strlit("max_tokens");
    reveal_strlit("temperature");
    reveal_strlit("thinking");
    reveal_strlit("reasoning_effort");
    reveal_strlit("clear_thinking");
    assert("model"@.len() == 5);
    assert("messages"@.len() == 8);
    assert("tools"@.len() == 5);
    assert("tool_choice"@.len() == 11);
    assert("max_tokens"@.len() == 10);
    assert("temperature"@.len() == 11);
    assert("thinking"@.len() == 8);
    assert("model"@[0] != "tools"@[0]);
    assert("tool_choice"@[1] != "temperature"@[1]);
    assert("thinking"@[0] != "messages"@[0]);
}

/// A request names the model and holds each message in order, the tools, which the model may choose
/// from, and how much it may say. A temperature is sent where one is set, thinking is switched on with
/// the effort where one is set, and the provider is told to keep it just where it is preserved.
pub proof fn law_requests_say_what_is_set(msgs: Seq<MessageView>, tools: JsonView, opts: ChatOptions<'_>)
    ensures
        ({
            let body = chat_body(msgs, tools, opts);
            &&& body.get("model"@) == Some(JsonView::Text(opts.model@))
            &&& body.get("messages"@) matches Some(JsonView::Array(list)) && list.len() == msgs.len() && forall|i: int|
                0 <= i < msgs.len() ==> #[trigger] list[i] == wire(msgs[i])
            &&& body.get("tools"@) == Some(tools)
            &&& body.get("tool_choice"@) == Some(JsonView::Text("auto"@))
            &&& body.get("max_tokens"@) == Some(json::int_view(opts.max_tokens as int))
            &&& opts.temperature matches Some(t) ==> body.get("temperature"@) == Some(JsonView::Number(t@))
            &&& opts.temperature is None ==> body.get("temperature"@) is None
            &&& opts.effort matches Some(effort) ==> body.get("reasoning_effort"@) == Some(JsonView::Text(effort@))
                && (body.get("thinking"@) matches Some(thinking) && thinking.get("type"@) == Some(
                JsonView::Text("enabled"@),
            ))
            &&& opts.effort is None ==> body.get("reasoning_effort"@) is None && body.get("thinking"@) is None
            &&& opts.preserve_thinking ==> body.get("clear_thinking"@) == Some(JsonView::Bool(false))
            &&& !opts.preserve_thinking ==> body.get("clear_thinking"@) is None
        }),
{
    lemma_request_names();
    lemma_chat_body(msgs, tools, opts, "model"@);
    lemma_chat_body(msgs, tools, opts, "messages"@);
    lemma_chat_body(msgs, tools, opts, "tools"@);
    lemma_chat_body(msgs, tools, opts, "tool_choice"@);
    lemma_chat_body(msgs, tools, opts, "max_tokens"@);
    lemma_chat_body(msgs, tools, opts, "temperature"@);
    lemma_chat_body(msgs, tools, opts, "thinking"@);
    lemma_chat_body(msgs, tools, opts, "reasoning_effort"@);
    lemma_chat_body(msgs, tools, opts, "clear_thinking"@);
    lemma_one_field("type"@, JsonView::Text("enabled"@), "type"@);
}

proof fn lemma_parts_text_adds(a: Seq<JsonView>, b: Seq<JsonView>)
    ensures
        parts_text(a + b) == parts_text(a) + parts_text(b),
    decreases b.len(),
{
    if b.len() == 0 {
        assert(a + b =~= a);
        assert(parts_text(a) + parts_text(b) =~= parts_text(a));
    } else {
        lemma_parts_text_adds(a, b.drop_last());
        assert((a + b).drop_last() =~= a + b.drop_last());
        assert(parts_text(a + b) =~= parts_text(a) + parts_text(b));
    }
}

/// The text of a reply is all of its text, in order, whether it comes as one string or in parts, which
/// are strings or hold one; other parts have none.
pub proof fn law_reply_text_is_all_its_parts(
    a: Seq<JsonView>,
    b: Seq<JsonView>,
    s: Seq<char>,
    others: Seq<(Seq<char>, JsonView)>,
    n: Seq<char>,
)
    ensures
        text_of(Some(JsonView::Text(s))) == s,
        text_of(Some(JsonView::Array(a + b))) == text_of(Some(JsonView::Array(a))) + text_of(
            Some(JsonView::Array(b)),
        ),
        text_of(Some(JsonView::Array(seq![JsonView::Text(s)]))) == s,
        json::member(others, "text"@) is None ==> text_of(
            Some(JsonView::Array(seq![JsonView::Object(others + tg::field("text"@, JsonView::Text(s)))])),
        ) == s,
        json::member(others, "text"@) is None ==> text_of(
            Some(JsonView::Array(seq![JsonView::Object(others)])),
        ).len() == 0,
        text_of(Some(JsonView::Array(seq![JsonView::Number(n)]))).len() == 0,
        text_of(Some(JsonView::Null)).len() == 0,
        text_of(None).len() == 0,
{
    lemma_parts_text_adds(a, b);
    tg::lemma_field(others, "text"@, JsonView::Text(s), "text"@);
    let p = JsonView::Text(s);
    let q = JsonView::Object(others + tg::field("text"@, JsonView::Text(s)));
    let r = JsonView::Object(others);
    let m = JsonView::Number(n);
    let none = Seq::<JsonView>::empty();
    assert(parts_text(none).len() == 0);
    assert(seq![p].drop_last() =~= none);
    assert(seq![q].drop_last() =~= none);
    assert(seq![r].drop_last() =~= none);
    assert(seq![m].drop_last() =~= none);
    assert(parts_text(seq![p]) =~= s);
    assert(json::member(others, "text"@) is None ==> parts_text(seq![q]) =~= s);
    assert(json::member(others, "text"@) is None ==> parts_text(seq![r]).len() == 0);
    assert(parts_text(seq![m]).len() == 0);
}

/// A response is read as its first choice: its calls in order, each with its own id, name and
/// arguments, which are empty where there are none, its chain-of-thought, and the provider's count.
/// One without a choice is an error, and so is one that cannot be read.
pub proof fn law_the_first_choice_is_the_reply(response: ApiResponse, e: String)
    ensures
        response.choices@.len() > 0 ==> (read_as(Ok(response)) matches Ok(reply) && {
            let message = response.choices@[0].message;
            &&& message.content matches Some(c) ==> reply.text == text_of(Some(c@))
            &&& message.content is None ==> reply.text.len() == 0
            &&& message.reasoning_content matches Some(s) ==> reply.reasoning == s@
            &&& message.reasoning_content is None ==> reply.reasoning.len() == 0
            &&& response.choices@[0].finish_reason matches Some(f) ==> reply.finish_reason == Some(f@)
            &&& response.choices@[0].finish_reason is None ==> reply.finish_reason is None
            &&& response.usage matches Some(u) ==> reply.prompt_tokens == Some(u.prompt_tokens)
            &&& response.usage is None ==> reply.prompt_tokens is None
            &&& message.tool_calls is None ==> reply.tool_calls.len() == 0
            &&& message.tool_calls matches Some(calls) ==> reply.tool_calls.len() == calls@.len() && forall|i: int|
                0 <= i < calls@.len() ==> (#[trigger] reply.tool_calls[i]).id == calls@[i].id@
                    && reply.tool_calls[i].name == calls@[i].function.name@ && (match calls@[i].function.arguments {
                    Some(arguments) => reply.tool_calls[i].arguments == arguments@,
                    None => reply.tool_calls[i].arguments == "{}"@,
                })
        }),
        response.choices@.len() == 0 ==> read_as(Ok(response)) == Err::<ReplyView, ChatErrorView>(
            ChatErrorView::Fatal("empty choices"@),
        ),
        read_as(Err(e)) == Err::<ReplyView, ChatErrorView>(ChatErrorView::Fatal("malformed response: "@ + e@)),
{
}

/// A request that was refused as too long, by a status of 400 and an answer that speaks of the
/// context, of a maximum or of being too long, in capitals or not, has overflowed the context. One
/// that failed at the server, or came too soon, may be made again, and no other. What is said of it is
/// the status and the answer.
pub proof fn law_errors_are_told_apart(status: u16, body: Seq<char>, a: Seq<char>, b: Seq<char>)
    ensures
        ({
            let lower = unicode::lowercase(body);
            let said = web::status_line(status) + ": "@ + body;
            let e = classified(status, body);
            &&& status == 400 && (lower == a + "context"@ + b || lower == a + "too long"@ + b || lower == a
                + "maximum"@ + b) ==> e == ChatErrorView::ContextOverflow(said)
            &&& status == 400 && !search::has(lower, "context"@) && !search::has(lower, "too long"@) && !search::has(
                lower,
                "maximum"@,
            ) ==> e == ChatErrorView::Fatal(said)
            &&& status == 429 || 500 <= status <= 599 ==> e == ChatErrorView::Transient(said)
            &&& status != 400 && status != 429 && !(500 <= status <= 599) ==> e == ChatErrorView::Fatal(said)
        }),
{
    search::law_parts_are_found(a, "context"@, b, body);
    search::law_parts_are_found(a, "too long"@, b, body);
    search::law_parts_are_found(a, "maximum"@, b, body);
}

/// A request is made at most three times and may take ten minutes.
pub proof fn law_request_limits()
    ensures
        MAX_ATTEMPTS == 3,
        REQUEST_TIMEOUT_SECS == 600,
{
}

} // verus!
