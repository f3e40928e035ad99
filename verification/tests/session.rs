use rp_agent::session::{
    apply_op, message_tokens, repair_dangling_calls, replay, shadow_count, summary_message, Message, Op, Role,
    Session, ToolCall, SUMMARY_PREAMBLE,
};
use rp_agent::naming::{first_free_name, session_file_name};

fn call(id: &str) -> ToolCall {
    ToolCall { id: id.into(), name: "bash".into(), arguments: "{}".into() }
}

fn tool_pair(i: usize) -> Vec<Message> {
    vec![
        Message::assistant_with_calls("", vec![call(&format!("c{i}"))]),
        Message::tool_result(&format!("c{i}"), "ok"),
    ]
}

#[test]
fn replay_roundtrip() {
    let ops = vec![
        Op::Append { message: Message::system("sys") },
        Op::Append { message: Message::user("hi") },
        Op::Append { message: Message::assistant_with_calls("hello", vec![]) },
        Op::Compact { shadowed: 1, summary: "user said hi".into() },
        Op::Append { message: Message::user("more") },
    ];
    let surface = replay(ops);
    assert_eq!(surface.len(), 4);
    assert_eq!(surface[0].role, Role::System);
    assert!(surface[1].text.contains("<compacted-summary>"));
    assert_eq!(surface[2].text, "hello");
    assert_eq!(surface[3].text, "more");
}

#[test]
fn tail_tokens_counts_only_the_tail() {
    let ops = vec![
        Op::Append { message: Message::user(&"0123456789".repeat(40)) },
        Op::Append { message: Message::user("x") },
    ];
    let (session, fresh) = Session::load(Some(ops), None);
    assert!(!fresh);
    let (head, tail) = (session.tail_tokens(1), session.tail_tokens(0));
    assert!(head < tail);
    assert_eq!(head, message_tokens(&Message::user("x")));
    assert_eq!(session.tail_tokens(99), 0);
}

#[test]
fn repair_inserts_missing_tool_results() {
    let mut surface = vec![
        Message::system("s"),
        Message::assistant_with_calls("", vec![call("c1")]),
        Message::user("next"),
    ];
    repair_dangling_calls(&mut surface);
    assert_eq!(surface.len(), 4);
    assert_eq!(surface[2].role, Role::Tool);
    assert_eq!(surface[2].tool_call_id.as_deref(), Some("c1"));
}

#[test]
fn repair_keeps_answered_pairs() {
    let mut surface = vec![Message::system("s")];
    surface.extend(tool_pair(1));
    repair_dangling_calls(&mut surface);
    assert_eq!(surface.len(), 3);
}

#[test]
fn shadow_respects_retain_and_pairs() {
    let msgs: Vec<_> = (0..10)
        .map(|i| Message::user(&format!("u{i}{}", "x".repeat(400))))
        .collect();
    let shadowed = shadow_count(&msgs, 200).unwrap();
    assert!(shadowed > 0 && shadowed < 10);

    // A boundary landing between a call and its result moves back.
    let mut msgs = Vec::new();
    for i in 0..3 {
        msgs.extend(tool_pair(i));
    }
    msgs.push(Message::user("tail"));
    let shadowed = shadow_count(&msgs, 1).unwrap();
    assert_ne!(msgs[shadowed].role, Role::Tool);
}

#[test]
fn shadow_none_when_nothing_to_shadow() {
    assert_eq!(shadow_count(&[Message::user("only")], 1), None);
    assert_eq!(shadow_count(&[], 1000), None);
}

#[test]
fn compaction_rotates_to_a_fresh_session_file() {
    let (mut s, _) = Session::load(None, None);
    s.append(Message::user("hi"));
    s.append(Message::user("hello"));
    s.compact(2, "user said hi");
    assert_eq!(s.surface().len(), 1);
    assert!(s.surface()[0].text.contains("<compacted-summary>"));
    // The fresh log begins with the checkpoint; what is appended since goes to it too.
    let mut log = s.carried();
    assert_eq!(log.len(), 1);
    s.append(Message::user("more"));
    log.push(Op::Append { message: Message::user("more") });
    let (s, migrated) = Session::load(Some(log), Some(vec![]));
    assert!(!migrated);
    assert_eq!(s.surface().len(), 2);
    assert!(s.surface()[0].text.contains("<compacted-summary>"));
    assert_eq!(s.surface()[1].text, "more");
}

#[test]
fn legacy_log_migrates_and_drops_stored_prompt() {
    let ops = vec![
        Op::Append { message: Message::system("old prompt") },
        Op::Append { message: Message::user("hi") },
        Op::Append { message: Message::user("hello") },
        Op::Compact { shadowed: 2, summary: "greeted".into() },
        Op::Append { message: Message::user("more") },
    ];
    let (s, migrated) = Session::load(None, Some(ops));
    assert!(migrated);
    assert_eq!(s.surface().len(), 2);
    assert!(s.surface().iter().all(|m| m.role != Role::System));
    assert!(s.surface()[0].text.contains("<compacted-summary>"));
    assert_eq!(s.surface()[1].text, "more");
    // Migration is one-shot: the next load reads the fresh log.
    let (s, migrated) = Session::load(Some(s.carried()), None);
    assert!(!migrated);
    assert_eq!(s.surface().len(), 2);
}

#[test]
fn shadowing_keeps_a_tail_worth_enough() {
    // 402 characters make 100 tokens, and 8 more for the message.
    let msgs: Vec<_> = (0..10)
        .map(|i| Message::user(&format!("u{i}{}", "x".repeat(400))))
        .collect();
    assert_eq!(message_tokens(&msgs[0]), 108);
    assert_eq!(shadow_count(&msgs, 108), Some(9));
    assert_eq!(shadow_count(&msgs, 109), Some(8));
    assert_eq!(shadow_count(&msgs, 200), Some(8));
    assert_eq!(shadow_count(&msgs, 0), Some(9));
    assert_eq!(shadow_count(&msgs, 1_000_000), None);
    assert_eq!(shadow_count(&msgs, u64::MAX), None);
}

#[test]
fn shadowing_moves_off_tool_results() {
    let mut msgs = vec![Message::user("start")];
    msgs.extend(tool_pair(1));
    // The result alone would do, but it is not parted from its call.
    assert_eq!(shadow_count(&msgs, 1), Some(1));
}

#[test]
fn tokens_count_text_reasoning_and_images() {
    let m = Message::user_with_images("12345678", vec!["a".into(), "b".into()]);
    assert_eq!(message_tokens(&m), 2 + 8 + 3000);
    let m = Message::assistant_with_calls("1234567", vec![]).with_reasoning("1");
    assert_eq!(message_tokens(&m), 2 + 8);
    assert_eq!(message_tokens(&Message::user("ыыыы")), 1 + 8);
}

#[test]
fn repair_answers_calls_in_order() {
    let mut surface = vec![
        Message::assistant_with_calls("", vec![call("a"), call("b"), call("c")]),
        Message::tool_result("b", "second"),
    ];
    repair_dangling_calls(&mut surface);
    let ids: Vec<_> = surface.iter().skip(1).map(|m| m.tool_call_id.clone().unwrap()).collect();
    assert_eq!(ids, vec!["a", "b", "c"]);
    assert_eq!(surface[1].text, "Error: tool call was interrupted before a result was recorded.");
    assert_eq!(surface[2].text, "second");
    let before = surface.len();
    repair_dangling_calls(&mut surface);
    assert_eq!(surface.len(), before);
}

#[test]
fn repair_leaves_user_calls_alone() {
    let mut surface = vec![Message::user("x"), Message::tool_result("stray", "y")];
    repair_dangling_calls(&mut surface);
    assert_eq!(surface.len(), 2);
}

#[test]
fn compact_operations_keep_the_head() {
    let mut surface = Vec::new();
    apply_op(&mut surface, Op::Compact { shadowed: 5, summary: "s".into() });
    assert_eq!(surface.len(), 1);
    let mut surface = vec![Message::system("head"), Message::user("a"), Message::user("b")];
    apply_op(&mut surface, Op::Compact { shadowed: usize::MAX, summary: "s".into() });
    assert_eq!(surface.len(), 2);
    assert_eq!(surface[0].text, "head");
    assert_eq!(
        surface[1].text,
        format!("{SUMMARY_PREAMBLE}\n\n<compacted-summary>\ns\n</compacted-summary>")
    );
    let m = summary_message("s");
    assert_eq!(m.text, surface[1].text);
    assert_eq!(m.role, Role::User);
}

#[test]
fn head_is_set_and_replaced() {
    let (mut s, _) = Session::load(None, None);
    assert!(s.head().is_none());
    s.set_head(Message::user("one"));
    s.set_head(Message::user("two"));
    assert_eq!(s.head().unwrap().text, "two");
    assert!(s.surface().is_empty());
}

#[test]
fn session_files_never_collide() {
    let none: Vec<String> = vec![];
    assert_eq!(session_file_name("20250916T052000000", &none), "20250916T052000000.jsonl");
    let taken: Vec<String> = vec!["t.jsonl".into(), "t.1.jsonl".into(), "t.3.jsonl".into()];
    assert_eq!(session_file_name("t", &taken), "t.2.jsonl");
    assert_eq!(first_free_name(&taken, "t.", ".jsonl", 3), "t.4.jsonl");
    assert_eq!(first_free_name(&taken, "u.", ".jsonl", 3), "u.3.jsonl");
}
