use rp_agent::channels::Channels;
use rp_agent::json::Json;
use rp_agent::output::{
    floor_char_boundary, render_read, render_stream, replace_snippet, show_page, show_tail, split_text,
};
use rp_agent::session::ToolCall;
use rp_agent::tg::{Telegram, TgChat, TgMessage, TgUser};
use rp_agent::tools::{
    arguments_from, bash_report, edit_report, err_arg, parse_arguments, read_report, schemas, send_typing_schema,
    typing_report, write_report, ArgValue, Args, BashOutcome, Exit, ToolStep, Tools,
};

fn store() -> Channels {
    Channels::empty("state", "w")
}

fn known_store() -> Channels {
    let mut channels = store();
    let msg = TgMessage {
        message_id: 1,
        from: Some(TgUser {
            id: 1,
            is_bot: false,
            first_name: "Luna".into(),
            last_name: "Spirito".into(),
            username: None,
        }),
        chat: TgChat {
            id: 5,
            kind: "private".into(),
            title: None,
            first_name: "Luna".into(),
            last_name: "Spirito".into(),
            username: None,
        },
        message_thread_id: None,
        date: 0,
        text: Some("hi".into()),
        caption: None,
        photo: vec![],
        document: None,
        reply_to_message: None,
        forum_topic_created: None,
        forum_topic_edited: None,
    };
    channels.observe_message(&msg, false);
    channels
}

fn offline(channels: &Channels) -> Tools<'_> {
    Tools { tg: None, channels, workspace: "/w" }
}

fn run(t: &Tools<'_>, name: &str, raw: &str) -> ToolStep {
    t.dispatch(&ToolCall { id: "c".into(), name: name.into(), arguments: raw.into() })
}

fn answer(step: ToolStep) -> String {
    match step {
        ToolStep::Answer(s) => s,
        other => panic!("{other:?}"),
    }
}

#[test]
fn schemas_list_every_tool() {
    let all = schemas();
    let Json::Array(list) = &all else { unreachable!() };
    for name in ["bash", "read_file", "write_file", "edit_file", "send_message", "edit_message"] {
        assert!(
            list.iter()
                .any(|t| t.get("function").unwrap().get("name").unwrap().as_text() == Some(name)),
            "missing {name}"
        );
    }
    assert_eq!(list.len(), 6);
    let send = list[4].get("function").unwrap();
    let parameters = send.get("parameters").unwrap();
    assert_eq!(parameters.get("type").unwrap().as_text(), Some("object"));
    assert_eq!(
        parameters.get("properties").unwrap().get("text").unwrap().get("description").unwrap().as_text(),
        Some("Message text, Markdown.")
    );
    assert!(matches!(parameters.get("required"), Some(Json::Array(v)) if v.len() == 2));
    assert_eq!(
        send_typing_schema().get("function").unwrap().get("name").unwrap().as_text(),
        Some("send_typing")
    );
}

#[test]
fn send_message_addresses_channels_by_name() {
    let channels = store();
    let t = offline(&channels);
    // Unknown names fail with the known list, before any Telegram call.
    let out = answer(run(&t, "send_message", r#"{"channel": "OOC", "text": "hi"}"#));
    assert!(out.contains("unknown channel `OOC`"), "{out}");
    let channels = known_store();
    let out = answer(run(&offline(&channels), "send_message", r#"{"channel": "OOC", "text": "hi"}"#));
    assert_eq!(out, "Error: unknown channel `OOC`. Known channels: Luna Spirito.");
}

#[test]
fn read_render_pages_and_caps_lines() {
    let bytes = b"one\ntwo\nthree".as_slice();
    let out = render_read(bytes, 1, 2);
    assert!(out.contains("1: one"));
    assert!(out.contains("2: two"));
    assert!(out.contains("Use offset=3 to continue"));
    let out = render_read(bytes, 3, 5);
    assert!(out.contains("3: three"));
    assert!(out.contains("End of file"));
}

#[test]
fn reading_on_shows_every_line_once() {
    let content: String = (1..=7).map(|n| format!("line {n}\n")).collect();
    let mut shown = String::new();
    let mut offset = 1;
    loop {
        let page = show_page(&content, offset, 3);
        shown.push_str(page.split("<content>\n").nth(1).unwrap().split("</content>\n").next().unwrap());
        let Some(next) = page.split("Use offset=").nth(1) else { break };
        offset = next.split(' ').next().unwrap().parse().unwrap();
    }
    assert_eq!(offset, 7);
    let whole: String = (1..=7).map(|n| format!("{n}: line {n}\n")).collect();
    assert_eq!(shown, whole);
}

#[test]
fn edit_requires_unique_match() {
    let out = replace_snippet("aa bb aa", "aa", "cc", false).unwrap_err();
    assert!(out.contains("occurs 2 times"), "{out}");
    assert_eq!(replace_snippet("aa bb aa", "aa", "cc", true).unwrap(), "cc bb cc");
    assert_eq!(edit_report(Ok(())), "Edited.");
}

#[test]
fn write_then_read_roundtrip() {
    let channels = store();
    let t = offline(&channels);
    let ToolStep::WriteFile { path, content } =
        run(&t, "write_file", r##"{"path": "notes/a.md", "content": "# Notes"}"##)
    else {
        unreachable!()
    };
    assert_eq!(path, "/w/notes/a.md");
    let out = write_report(&path, &content, Ok(()));
    assert_eq!(out, "Wrote 7 bytes to /w/notes/a.md.");
    let ToolStep::ReadFile { path, offset, limit } = run(&t, "read_file", r#"{"path": "notes/a.md"}"#) else {
        unreachable!()
    };
    assert_eq!((path.as_str(), offset, limit), ("/w/notes/a.md", 1, 2000));
    let out = read_report(Ok(content.into_bytes()), offset, limit);
    assert!(out.contains("1: # Notes"), "{out}");
}

#[test]
fn telegram_tools_offline_report_error() {
    let channels = known_store();
    let t = offline(&channels);
    let out = edit_report(Err("No such file or directory".into()));
    assert!(out.starts_with("Error:"));
    let out = answer(run(&t, "send_typing", r#"{"chat_id": 1}"#));
    assert!(out.contains("unavailable"), "{out}");
    let out = answer(run(&t, "send_message", r#"{"channel": "Luna Spirito", "text": "hi"}"#));
    assert!(out.contains("unavailable"), "{out}");
    let out = answer(run(&t, "edit_message", r#"{"channel": "Luna Spirito", "message_id": 3, "text": "hi"}"#));
    assert!(out.contains("unavailable"), "{out}");
}

#[test]
fn splitting_prefers_newlines() {
    let text = "a\n".repeat(2000);
    for chunk in split_text(&text, 4000) {
        assert!(chunk.len() <= 4000);
    }
    assert_eq!(split_text("short", 4000).len(), 1);
}

#[test]
fn splitting_survives_multibyte_text() {
    // "ы" is 2 bytes in UTF-8; a naive byte-cut at `limit` would panic.
    let text = "ы".repeat(5000);
    let chunks = split_text(&text, 4000);
    assert!(chunks.len() >= 2);
    assert_eq!(chunks.concat().len(), 10_000);
}

#[test]
fn invalid_arguments_reported() {
    let e = parse_arguments("{not json").unwrap_err();
    assert!(e.to_string().contains("not valid JSON"));
}

#[test]
fn splitting_cuts_at_the_last_line_break() {
    let text = format!("{}\n{}", "a".repeat(3700), "b".repeat(1000));
    let chunks = split_text(&text, 4000);
    assert_eq!(chunks.len(), 2);
    assert_eq!(chunks[0], "a".repeat(3700));
    assert_eq!(chunks[1], "b".repeat(1000));
    // A break further back than the window does not count.
    let text = format!("{}\n{}", "a".repeat(3000), "b".repeat(2000));
    let chunks = split_text(&text, 4000);
    assert_eq!(chunks[0].len(), 4000);
    assert_eq!(chunks[1].len(), 1001);
    // Whitespace at a cut is dropped, and nothing else.
    assert_eq!(split_text("ab  \ncd", 5), vec!["ab", "cd"]);
    assert_eq!(split_text("abcde ", 5), vec!["abcde"]);
    assert_eq!(split_text("", 5), vec![""]);
    assert_eq!(split_text("  ", 5), vec!["  "]);
}

#[test]
fn boundaries_are_floored() {
    assert_eq!(floor_char_boundary("ыы", 0), 0);
    assert_eq!(floor_char_boundary("ыы", 1), 0);
    assert_eq!(floor_char_boundary("ыы", 2), 2);
    assert_eq!(floor_char_boundary("ыы", 3), 2);
    assert_eq!(floor_char_boundary("ыы", 9), 4);
    assert_eq!(floor_char_boundary("a🔥€", 6), 5);
}

#[test]
fn streams_show_their_tail() {
    assert_eq!(render_stream(b"ok\n", "[stderr]\n"), "[stderr]\nok\n");
    assert_eq!(render_stream(&[0xff, b'a'], ""), "\u{fffd}a");
    let long = vec![b'x'; 65_536 + 10];
    let out = render_stream(&long, "");
    assert!(out.starts_with("[... 10 earlier bytes truncated ...]\nxxx"), "{}", &out[..60]);
    assert_eq!(out.len(), "[... 10 earlier bytes truncated ...]\n".len() + 65_536);
    // A cut inside a character moves before it.
    let odd = format!("aы{}", "x".repeat(65_536 - 1));
    assert_eq!(odd.len(), 65_536 + 2);
    let out = render_stream(odd.as_bytes(), "");
    assert!(out.starts_with("[... 1 earlier bytes truncated ...]\nыx"), "{}", &out[..60]);
    assert_eq!(show_tail("abc", 3), "abc");
}

#[test]
fn pages_are_framed() {
    assert_eq!(show_page("one\r\ntwo\n", 1, 5), "<content>\n1: one\n2: two\n</content>\n");
    assert_eq!(
        show_page("one\ntwo\n", 2, 5),
        "<content>\n2: two\n</content>\n(End of file - total 2 lines.)\n"
    );
    assert_eq!(
        show_page("one\ntwo\nthree", 2, 1),
        "<content>\n2: two\n</content>\n(Showing lines 2-2 of 3. Use offset=3 to continue.)\n"
    );
    assert_eq!(show_page("", 1, 5), "<content>\n</content>\n");
    assert_eq!(show_page("x", 7, 5), "<content>\n</content>\n(End of file - total 1 lines.)\n");
    let long = show_page(&"y".repeat(3000), 1, 1);
    assert!(long.contains(&format!("1: {}…\n", "y".repeat(2000))));
    // 26 lines of 2001 bytes each exceed a page.
    let big = format!("{}\n", "z".repeat(2000)).repeat(30);
    let out = show_page(&big, 1, 2000);
    assert!(out.ends_with("(Showing lines 1-25 of 30. Use offset=26 to continue.)\n"), "{}", &out[out.len() - 80..]);
}

#[test]
fn replacement_is_literal() {
    assert_eq!(replace_snippet("abc", "x", "y", false).unwrap_err(), "Error: old_string not found in file.");
    assert_eq!(replace_snippet("a.c abc", "a.c", "X", false).unwrap(), "X abc");
    assert_eq!(replace_snippet("aaa", "aa", "b", true).unwrap(), "ba");
    assert_eq!(
        replace_snippet("ab", "", "-", false).unwrap_err(),
        "Error: old_string occurs 3 times; make it unique or set replace_all."
    );
    assert_eq!(replace_snippet("ab", "", "-", true).unwrap(), "-a-b-");
    assert_eq!(replace_snippet("", "", "-", false).unwrap(), "-");
}

#[test]
fn calls_are_planned() {
    let channels = known_store();
    let t = offline(&channels);
    assert_eq!(answer(run(&t, "bash", "[1]")), "Error: tool arguments must be a JSON object.");
    assert_eq!(answer(run(&t, "fly", "{}")), "Error: unknown tool `fly`.");
    assert_eq!(answer(run(&t, "bash", "{}")), "Error: missing or invalid argument(s): command.");
    assert!(answer(run(&t, "bash", "{")).starts_with("Error: arguments were not valid JSON: "));
    assert!(matches!(
        run(&t, "bash", r#"{"command": "ls"}"#),
        ToolStep::Bash { command, timeout_ms: 120_000 } if command == "ls"
    ));
    assert!(matches!(
        run(&t, "bash", r#"{"command": "ls", "timeout_ms": 9000000}"#),
        ToolStep::Bash { timeout_ms: 600_000, .. }
    ));
    assert!(matches!(
        run(&t, "bash", r#"{"command": "ls", "timeout_ms": 5}"#),
        ToolStep::Bash { timeout_ms: 5, .. }
    ));
    assert!(matches!(
        run(&t, "bash", r#"{"command": "ls", "timeout_ms": -5}"#),
        ToolStep::Bash { timeout_ms: 120_000, .. }
    ));
    assert!(matches!(
        run(&t, "read_file", r#"{"path": "/etc/x", "offset": 0, "limit": 3}"#),
        ToolStep::ReadFile { path, offset: 1, limit: 3 } if path == "/etc/x"
    ));
    assert_eq!(answer(run(&t, "read_file", r#"{"path": 3}"#)), err_arg("path"));
    assert_eq!(answer(run(&t, "write_file", r#"{"path": "x"}"#)), err_arg("path, content"));
    assert_eq!(answer(run(&t, "edit_file", r#"{"path": "x"}"#)), err_arg("path, old_string, new_string"));
    assert_eq!(
        answer(run(&t, "edit_file", r#"{"path": "x", "old_string": "a", "new_string": "a"}"#)),
        "Error: old_string and new_string are identical."
    );
    assert!(matches!(
        run(&t, "edit_file", r#"{"path": "x", "old_string": "a", "new_string": "b", "replace_all": true}"#),
        ToolStep::EditFile { path, all: true, .. } if path == "/w/x"
    ));
    assert_eq!(answer(run(&t, "send_message", r#"{"text": "x"}"#)), err_arg("channel, text"));
    assert_eq!(
        answer(run(&t, "edit_message", r#"{"text": "x", "channel": "y"}"#)),
        err_arg("channel, message_id, text")
    );
}

#[test]
fn arguments_are_carried_over() {
    let members = vec![("command".to_string(), ArgValue::Text("ls".into()))];
    assert!(matches!(arguments_from(Ok(Some(members))), Ok(Args::Members(m)) if m.len() == 1));
    assert!(matches!(arguments_from(Ok(None)), Ok(Args::NotAnObject)));
    assert_eq!(arguments_from(Err("oops".into())).unwrap_err(), "arguments were not valid JSON: oops");
    let Ok(Args::Members(m)) = parse_arguments(r#"{"a": 3, "b": "x", "c": true, "d": [1], "e": -2, "f": 1.5}"#) else {
        unreachable!()
    };
    assert!(matches!(m[0].1, ArgValue::Number { signed: Some(3), unsigned: Some(3) }));
    assert!(matches!(&m[1].1, ArgValue::Text(s) if s == "x"));
    assert!(matches!(m[2].1, ArgValue::Flag(true)));
    assert!(matches!(m[3].1, ArgValue::Other));
    assert!(matches!(m[4].1, ArgValue::Number { signed: Some(-2), unsigned: None }));
    assert!(matches!(m[5].1, ArgValue::Number { signed: None, unsigned: None }));
}

#[test]
fn messages_are_delivered_chunk_by_chunk() {
    let tg = Telegram::new("https://a", "T");
    let channels = known_store();
    let t = Tools { tg: Some(&tg), channels: &channels, workspace: "/w" };
    let long = "x".repeat(4001);
    let raw = format!(r#"{{"channel": "luna spirito", "text": "**b** {long}", "reply_to_message_id": 8}}"#);
    let ToolStep::SendMessage(mut d) = run(&t, "send_message", &raw) else { unreachable!() };
    assert_eq!(d.key, (5, None));
    assert_eq!(d.chunks.len(), 2);
    let r = d.request(&tg);
    assert_eq!(r.method, "sendMessage");
    assert!(r.body.get("text").unwrap().as_text().unwrap().starts_with("<b>b</b> xxx"));
    assert_eq!(r.body.get("reply_to_message_id").unwrap().as_int(), Some(8));
    let (line, done) = d.advance(Ok(100), &channels, 1_758_000_000);
    assert!(done.is_none());
    let line = line.unwrap();
    assert_eq!(line.path, "w/chat/Luna Spirito.log");
    assert!(line.line.starts_with("[2025-09-16 05:20:00 UTC] SENT #100: **b** xxx"), "{}", line.line);
    let (_, done) = d.advance(Ok(101), &channels, 0);
    assert_eq!(done.unwrap(), "Sent 2 message(s) to luna spirito: #100, #101.");

    let ToolStep::SendMessage(mut d) = run(&t, "send_message", r#"{"channel": "Luna Spirito", "text": "x"}"#) else {
        unreachable!()
    };
    let (line, done) = d.advance(Err("boom".into()), &channels, 0);
    assert!(line.is_none());
    assert_eq!(done.unwrap(), "Error: boom");
}

#[test]
fn messages_are_corrected() {
    let tg = Telegram::new("https://a", "T");
    let channels = known_store();
    let t = Tools { tg: Some(&tg), channels: &channels, workspace: "/w" };
    let raw = r#"{"channel": "Luna Spirito", "message_id": 55, "text": "*new*"}"#;
    let ToolStep::EditMessage(c) = run(&t, "edit_message", raw) else { unreachable!() };
    let r = c.request(&tg);
    assert_eq!(r.body.get("text").unwrap().as_text(), Some("<i>new</i>"));
    assert_eq!(r.body.get("chat_id").unwrap().as_int(), Some(5));
    let (line, report) = c.finish(Ok(()), &channels, 0);
    assert_eq!(line.unwrap().line, "[1970-01-01 00:00:00 UTC] EDIT #55: *new*");
    assert_eq!(report, "Edited message #55 in Luna Spirito.");
    let (line, report) = c.finish(Err("nope".into()), &channels, 0);
    assert!(line.is_none());
    assert_eq!(report, "Error: nope");
    let raw = format!(r#"{{"channel": "Luna Spirito", "message_id": 55, "text": "{}"}}"#, "x".repeat(4001));
    assert_eq!(
        answer(run(&t, "edit_message", &raw)),
        "Error: text is 4001 bytes, a single message holds at most 4000. Shorten it or send a new message instead."
    );
    assert!(matches!(run(&t, "send_typing", r#"{"chat_id": 9}"#), ToolStep::SendTyping { chat_id: 9 }));
    assert_eq!(answer(run(&t, "send_typing", "{}")), err_arg("chat_id"));
    assert_eq!(typing_report(Ok(())), "Typing indicator shown.");
    assert_eq!(typing_report(Err("x".into())), "Error: x");
}

#[test]
fn commands_are_reported() {
    let done = |out: &str, err: &str, exit| BashOutcome::Finished {
        stdout: out.as_bytes().to_vec(),
        stderr: err.as_bytes().to_vec(),
        exit,
    };
    assert_eq!(bash_report(1, &done("out", "", Exit::Success)), "out");
    assert_eq!(bash_report(1, &done("out", "bad", Exit::Code(Some(2)))), "out\n[stderr]\nbad\n[exit code: 2]");
    assert_eq!(bash_report(1, &done("", "", Exit::Code(None))), "\n[exit code: -1]");
    assert_eq!(bash_report(1, &done("o", "", Exit::Lost("gone".into()))), "o\nError: gone");
    assert_eq!(bash_report(250, &BashOutcome::TimedOut), "[timed out after 250ms]");
    assert_eq!(bash_report(1, &BashOutcome::NotSpawned("x".into())), "Error: failed to spawn bash: x");
    assert_eq!(read_report(Err("gone".into()), 1, 1), "Error: gone");
    assert_eq!(write_report("p", "c", Err("full".into())), "Error: full");
}
