use rp_agent::json::Json;
use rp_agent::llm::{
    chat_outcome, classify_error, content_text, error_kind, read_reply, retry_delay, to_wire, ApiResponse, ChatError,
    ChatOptions, Choice, Llm, Reply, RespFunction, RespMessage, RespToolCall, Usage,
};
use rp_agent::session::{Message, ToolCall};
use rp_agent::web::{show_status, status_text};

fn text(v: Option<&Json>) -> &str {
    v.unwrap().as_text().unwrap()
}

fn item(v: Option<&Json>, i: usize) -> &Json {
    match v {
        Some(Json::Array(items)) => &items[i],
        other => panic!("{other:?}"),
    }
}

#[test]
fn wire_shape_stable_prefix() {
    let msgs = vec![
        Message::system("sys"),
        Message::user_with_images("look", vec!["data:image/png;base64,AAA".into()]),
        Message::assistant_with_calls(
            "",
            vec![ToolCall { id: "c1".into(), name: "bash".into(), arguments: "{\"command\":\"ls\"}".into() }],
        )
        .with_reasoning("need to list files"),
        Message::tool_result("c1", "out"),
    ];
    let wire = to_wire(&msgs);
    assert_eq!(text(wire[0].get("role")), "system");
    assert_eq!(text(wire[0].get("content")), "sys");
    assert!(matches!(&wire[0], Json::Object(m) if m.len() == 2));
    assert_eq!(text(item(wire[1].get("content"), 0).get("type")), "text");
    assert_eq!(
        text(item(wire[1].get("content"), 1).get("image_url").unwrap().get("url")),
        "data:image/png;base64,AAA"
    );
    assert_eq!(text(wire[2].get("content")), "");
    assert_eq!(text(wire[2].get("reasoning_content")), "need to list files");
    assert_eq!(text(item(wire[2].get("tool_calls"), 0).get("function").unwrap().get("name")), "bash");
    assert_eq!(text(wire[3].get("tool_call_id")), "c1");
}

#[test]
fn wire_omits_empty_reasoning() {
    let wire = to_wire(&[Message::assistant_with_calls("hi", vec![])]);
    assert!(wire[0].get("reasoning_content").is_none());
}

#[test]
fn content_parts_concat() {
    let v = Json::Array(vec![
        Json::Text("text".into()),
        Json::Object(vec![
            ("type".into(), Json::Text("text".into())),
            ("text".into(), Json::Text(" tail".into())),
        ]),
    ]);
    assert_eq!(content_text(&Some(v)), "text tail");
}

#[test]
fn content_of_other_kinds_is_empty() {
    assert_eq!(content_text(&None), "");
    assert_eq!(content_text(&Some(Json::Null)), "");
    assert_eq!(content_text(&Some(Json::Text("plain".into()))), "plain");
    let odd = Json::Array(vec![Json::Number("1".into()), Json::Object(vec![]), Json::Text("x".into())]);
    assert_eq!(content_text(&Some(odd)), "x");
}

#[test]
fn requests_carry_their_options() {
    let llm = Llm::new("https://m/v4", "K");
    let opts = ChatOptions {
        model: "glm",
        max_tokens: 64,
        temperature: Some("0.7"),
        effort: Some("high"),
        preserve_thinking: true,
    };
    let r = llm.chat(&[Message::user("hi")], Json::Array(vec![]), &opts);
    assert_eq!((r.url.as_str(), r.api_key.as_str()), ("https://m/v4/chat/completions", "K"));
    assert_eq!(text(r.body.get("model")), "glm");
    assert_eq!(text(r.body.get("tool_choice")), "auto");
    assert_eq!(r.body.get("max_tokens").unwrap().as_int(), Some(64));
    assert!(matches!(r.body.get("temperature"), Some(Json::Number(n)) if n == "0.7"));
    assert_eq!(text(r.body.get("thinking").unwrap().get("type")), "enabled");
    assert_eq!(text(r.body.get("reasoning_effort")), "high");
    assert!(matches!(r.body.get("clear_thinking"), Some(Json::Bool(false))));
    let opts = ChatOptions { temperature: None, effort: None, preserve_thinking: false, ..opts };
    let r = llm.chat(&[], Json::Array(vec![]), &opts);
    assert!(matches!(&r.body, Json::Object(m) if m.len() == 5));
}

fn response(choices: Vec<Choice>) -> ApiResponse {
    ApiResponse {
        choices,
        usage: Some(Usage { prompt_tokens: 12, completion_tokens: 3, cached_tokens: 0 }),
    }
}

fn choice(text: &str) -> Choice {
    Choice {
        message: RespMessage {
            content: Some(Json::Text(text.into())),
            reasoning_content: None,
            tool_calls: Some(vec![RespToolCall {
                id: "c".into(),
                function: RespFunction { name: "bash".into(), arguments: None },
            }]),
        },
        finish_reason: Some("stop".into()),
    }
}

#[test]
fn replies_are_read() {
    let r = read_reply(Ok(response(vec![choice("first"), choice("second")]))).ok().unwrap();
    assert_eq!(r.text, "first");
    assert_eq!(r.reasoning, "");
    assert_eq!((r.tool_calls[0].id.as_str(), r.tool_calls[0].arguments.as_str()), ("c", "{}"));
    assert_eq!(r.finish_reason.as_deref(), Some("stop"));
    assert_eq!(r.prompt_tokens, Some(12));
    let e = read_reply(Ok(response(vec![]))).err().unwrap();
    assert!(matches!(&e, ChatError::Fatal(m) if m == "empty choices"));
    let e = read_reply(Err("eof".into())).err().unwrap();
    assert_eq!(e.message(), "malformed response: eof");
    assert!(chat_outcome(200, "", Ok(response(vec![choice("x")]))).is_ok());
    assert!(matches!(
        chat_outcome(503, "down", Err("x".into())),
        Err(ChatError::Transient(m)) if m == "503 Service Unavailable: down"
    ));
}

#[test]
fn errors_are_classified() {
    assert!(matches!(
        classify_error(400, "Maximum CONTEXT length"),
        ChatError::ContextOverflow(m) if m == "400 Bad Request: Maximum CONTEXT length"
    ));
    assert!(matches!(classify_error(400, "prompt is Too Long"), ChatError::ContextOverflow(_)));
    assert!(matches!(classify_error(400, "контекст: MAXIMUM"), ChatError::ContextOverflow(_)));
    assert!(matches!(classify_error(400, "bad key"), ChatError::Fatal(_)));
    assert!(matches!(classify_error(401, "context"), ChatError::Fatal(_)));
    assert!(matches!(classify_error(429, "slow"), ChatError::Transient(_)));
    assert!(matches!(classify_error(500, ""), ChatError::Transient(_)));
    assert!(matches!(classify_error(599, ""), ChatError::Transient(_)));
    assert!(matches!(classify_error(600, ""), ChatError::Fatal(_)));
    assert!(matches!(error_kind(400, "context", "m".into()), ChatError::ContextOverflow(m) if m == "m"));
    assert_eq!(status_text(404), "404 Not Found");
    assert_eq!(status_text(299), "299 <unknown status code>");
    assert_eq!(show_status(200, Some("Fine".into())), "200 Fine");
}

#[test]
fn transient_errors_are_retried_with_growing_pauses() {
    let transient = Err(ChatError::Transient("x".into()));
    assert_eq!(retry_delay(1, &transient), Some(2));
    assert_eq!(retry_delay(2, &transient), Some(4));
    assert_eq!(retry_delay(3, &transient), None);
    assert_eq!(retry_delay(1, &Err(ChatError::Fatal("x".into()))), None);
    assert_eq!(retry_delay(1, &Err(ChatError::ContextOverflow("x".into()))), None);
    let ok = Ok(Reply {
        text: "".into(),
        reasoning: "".into(),
        tool_calls: vec![],
        finish_reason: None,
        prompt_tokens: None,
    });
    assert_eq!(retry_delay(1, &ok), None);
}
