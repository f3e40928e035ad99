use rp_agent::channels::{
    candidate_name, is_fallback, sanitize, unique_log, unique_name, Channels, Legacy, LegacyChat, LegacyEntry,
    LegacyHistory, Row,
};
use rp_agent::tg::{ForumTopicCreated, ForumTopicEdited, MessageReaction, ReactionType, TgChat, TgMessage, TgUser};

fn rp() -> TgChat {
    TgChat {
        id: -100,
        kind: "supergroup".into(),
        title: Some("RP".into()),
        first_name: String::new(),
        last_name: String::new(),
        username: None,
    }
}

fn luna() -> TgChat {
    TgChat {
        id: 3,
        kind: "private".into(),
        title: None,
        first_name: "Luna".into(),
        last_name: "Spirito".into(),
        username: None,
    }
}

fn alice() -> TgUser {
    TgUser { id: 1, is_bot: false, first_name: "Alice".into(), last_name: String::new(), username: None }
}

fn msg(id: i64, thread: Option<i64>, text: &str) -> TgMessage {
    TgMessage {
        message_id: id,
        from: Some(alice()),
        chat: rp(),
        message_thread_id: thread,
        date: 1_758_000_000,
        text: Some(text.into()),
        caption: None,
        photo: vec![],
        document: None,
        reply_to_message: None,
        forum_topic_created: None,
        forum_topic_edited: None,
    }
}

fn store() -> Channels {
    Channels::empty("d/state", "d")
}

fn titled(id: i64, thread: i64, title: &str) -> TgMessage {
    let mut m = msg(id, Some(thread), "titled");
    m.forum_topic_edited = Some(ForumTopicEdited { name: Some(title.into()) });
    m
}

#[test]
fn threads_become_named_channels_with_logs() {
    let mut channels = store();
    // A message in a topic whose title rides in via reply_to_message.
    let mut m = msg(5, Some(42), "scene text");
    m.reply_to_message = Some(Box::new(TgMessage {
        forum_topic_created: Some(ForumTopicCreated { name: "IC".into() }),
        ..msg(2, None, "")
    }));
    let first = channels.observe_message(&m, false);
    let second = channels.observe_message(&msg(6, Some(42), "reply"), false);
    assert!(first.save && !second.save);
    assert_eq!(channels.resolve("IC"), Some((-100, Some(42))));
    assert_eq!(channels.resolve("ic"), Some((-100, Some(42))));
    assert_eq!(channels.resolve("OOC"), None);
    let log = first.line.unwrap();
    assert_eq!(log.path, "d/chat/IC.log");
    assert_eq!(log.line, "[2025-09-16 05:20:00 UTC] #5 Alice: scene text");
    let log = second.line.unwrap();
    assert_eq!(log.path, "d/chat/IC.log");
    assert!(log.line.contains("#6 Alice: reply"));
}

#[test]
fn edits_are_new_lines_and_registry_persists() {
    let mut channels = store();
    let a = channels.observe_message(&msg(7, None, "hello"), false);
    let b = channels.observe_message(&msg(7, None, "hello edited"), true);
    let rows = channels.save();
    let (channels, lines) = Channels::load("d/state", "d", Some(rows), None);
    assert!(lines.is_empty());
    // A topic-less supergroup registers under its title.
    assert_eq!(channels.resolve("RP"), Some((-100, None)));
    assert_eq!(a.line.unwrap().path, "d/chat/RP.log");
    assert!(b.line.unwrap().line.contains("EDIT #7 Alice: hello edited"));
    assert_eq!(channels.path(), "d/state/channels.json");
}

fn reaction(old: Vec<ReactionType>, new: Vec<ReactionType>) -> MessageReaction {
    MessageReaction {
        chat: rp(),
        message_id: 11,
        user: Some(alice()),
        actor_chat: None,
        date: 1_758_000_002,
        old_reaction: old,
        new_reaction: new,
    }
}

fn fire() -> ReactionType {
    ReactionType { kind: "emoji".into(), emoji: Some("🔥".into()) }
}

#[test]
fn reactions_land_on_the_chat_level_channel() {
    let mut channels = store();
    let done = channels.observe_reaction(&reaction(vec![], vec![fire()]));
    assert!(done.save);
    assert_eq!(channels.resolve("RP"), Some((-100, None)));
    let log = done.line.unwrap();
    assert_eq!(log.path, "d/chat/RP.log");
    assert!(log.line.contains("REACT #11 by Alice: 🔥 (was: (none))"), "{}", log.line);
    let done = channels.observe_reaction(&reaction(vec![fire()], vec![]));
    assert!(!done.save);
    assert_eq!(done.line.unwrap().line, "[2025-09-16 05:20:02 UTC] UNREACT #11 by Alice: 🔥");
    let mut anonymous = reaction(vec![], vec![fire()]);
    anonymous.user = None;
    let line = channels.observe_reaction(&anonymous).line.unwrap().line;
    assert!(line.contains("by someone: 🔥"));
    anonymous.actor_chat = Some(luna());
    let line = channels.observe_reaction(&anonymous).line.unwrap().line;
    assert!(line.contains("by Luna Spirito: 🔥"));
}

#[test]
fn own_sends_are_logged() {
    let mut channels = store();
    channels.observe_message(&msg(7, Some(42), "hi"), false);
    let key = (-100, Some(42));
    let log = channels.log_sent(key, 555, "my turn", 0).unwrap();
    assert_eq!(log.path, "d/chat/topic 42.log");
    assert!(log.line.contains("SENT #555: my turn"));
    let log = channels.log_edited(key, 555, "my turn, fixed", 0).unwrap();
    assert!(log.line.contains("EDIT #555: my turn, fixed"));
    assert!(channels.log_sent((9, None), 1, "x", 0).is_none());
}

#[test]
fn colliding_names_get_distinct_files() {
    let mut channels = store();
    let a = channels.observe_message(&msg(7, None, "group one"), false);
    let mut other = msg(8, None, "group two");
    other.chat.id = -200;
    let b = channels.observe_message(&other, false);
    assert_eq!(channels.names(), vec!["RP", "RP-2"]);
    assert_eq!(a.line.unwrap().path, "d/chat/RP.log");
    assert_eq!(b.line.unwrap().path, "d/chat/RP-2.log");
}

#[test]
fn learned_names_stick_and_later_renames_are_ignored() {
    let mut channels = store();
    // First sight without a topic title: fallback name, upgraded once
    // the real title is learned.
    channels.observe_message(&msg(7, Some(42), "hi"), false);
    assert_eq!(channels.name_of((-100, Some(42))), "topic 42");
    assert!(channels.observe_message(&titled(8, 42, "IC"), false).save);
    assert_eq!(channels.name_of((-100, Some(42))), "IC");
    // A rename of a real-named channel changes nothing.
    assert!(!channels.observe_message(&titled(9, 42, "IC"), false).save);
    assert_eq!(channels.name_of((-100, Some(42))), "IC");
    let done = channels.observe_message(&titled(10, 42, "Other"), false);
    assert!(!done.save);
    assert_eq!(channels.name_of((-100, Some(42))), "IC");
    // The log file keeps the name of first sight.
    assert_eq!(done.line.unwrap().path, "d/chat/topic 42.log");
}

#[test]
fn learned_titles_stay_unique() {
    let mut channels = store();
    channels.observe_message(&titled(1, 41, "IC"), false);
    channels.observe_message(&msg(2, Some(42), "hi"), false);
    channels.observe_message(&titled(3, 42, "IC"), false);
    assert_eq!(channels.name_of((-100, Some(41))), "IC");
    assert_eq!(channels.name_of((-100, Some(42))), "IC-2");
    assert_eq!(channels.resolve("IC"), Some((-100, Some(41))));
    assert_eq!(channels.resolve("IC-2"), Some((-100, Some(42))));
}

#[test]
fn legacy_history_is_dumped_and_source_renamed() {
    let legacy = Legacy {
        chats: vec![LegacyChat { chat_id: -100, kind: "supergroup".into(), title: Some("RP".into()) }],
        history: vec![LegacyHistory {
            chat_id: -100,
            entries: vec![
                LegacyEntry { date: 1758000000, message_id: 1, author: "Alice".into(), text: "old one".into() },
                LegacyEntry { date: 1758000001, message_id: 2, author: "Alice".into(), text: "old two".into() },
            ],
        }],
    };
    let (channels, lines) = Channels::load("d/state", "d", None, Some(legacy));
    assert_eq!(channels.resolve("RP"), Some((-100, None)));
    assert_eq!(lines.len(), 2);
    assert_eq!(lines[0].path, "d/chat/RP.legacy.log");
    assert_eq!(lines[0].line, "[2025-09-16 05:20:00 UTC] #1 Alice: old one");
    // Migration is one-shot; the registry itself persists.
    let (channels, lines) = Channels::load("d/state", "d", Some(channels.save()), None);
    assert!(lines.is_empty());
    assert_eq!(channels.names(), vec!["RP"]);
}

#[test]
fn legacy_histories_have_files_of_their_own() {
    let row = |chat_id, name: &str| Row {
        chat_id,
        thread: None,
        name: name.into(),
        kind: "supergroup".into(),
        log: format!("{name}.log"),
    };
    let chat = |chat_id, title: Option<&str>| LegacyChat {
        chat_id,
        kind: "supergroup".into(),
        title: title.map(str::to_string),
    };
    let history = |chat_id| LegacyHistory {
        chat_id,
        entries: vec![LegacyEntry { date: 0, message_id: 4, author: "A".into(), text: "t".into() }],
    };
    let legacy = Legacy {
        chats: vec![chat(-3, None), chat(-2, Some("RP")), chat(-1, Some("other"))],
        history: vec![history(-1)],
    };
    let (channels, lines) = Channels::load("s", "w", Some(vec![row(-1, "RP")]), Some(legacy));
    assert_eq!(channels.names(), vec!["chat -3", "RP", "RP-2"]);
    assert_eq!(lines.len(), 1);
    assert_eq!(lines[0].path, "w/chat/other.legacy.log");
    // What was registered goes on as before.
    let sent = channels.log_sent((-1, None), 5, "x", 0).unwrap();
    assert_eq!(sent.path, "w/chat/RP.log");
    let sent = channels.log_sent((-2, None), 5, "x", 0).unwrap();
    assert_eq!(sent.path, "w/chat/RP.legacy.log");
    // Chats of the same title do not share a file, registered or not.
    let legacy = Legacy {
        chats: vec![chat(-3, Some("RP")), chat(-2, Some("RP")), chat(-1, Some("RP"))],
        history: vec![history(-3), history(-2), history(-1)],
    };
    let rows = vec![row(-3, "RP"), row(-2, "RP-2")];
    let (channels, lines) = Channels::load("s", "w", Some(rows), Some(legacy));
    let paths: Vec<&str> = lines.iter().map(|l| l.path.as_str()).collect();
    assert_eq!(
        paths,
        vec!["w/chat/RP.legacy.log", "w/chat/RP.legacy-2.log", "w/chat/RP.legacy-3.log"]
    );
    assert_eq!(channels.name_of((-1, None)), "RP-3");
}

#[test]
fn list_sections_are_sorted() {
    let mut channels = store();
    assert_eq!(channels.list(), "No channels observed yet.");
    channels.observe_message(&msg(7, Some(42), "a"), false);
    channels.observe_message(&msg(8, None, "b"), false);
    let mut dm = msg(9, None, "dm");
    dm.chat = luna();
    channels.observe_message(&dm, false);
    let list = channels.list();
    assert!(list.contains("DM channels:\n* Luna Spirito\n"), "{list}");
    let groups = list.split("Group channels:\n").nth(1).unwrap();
    assert!(groups.find("RP").unwrap() < groups.find("topic 42").unwrap(), "{list}");
    assert_eq!(list, "DM channels:\n* Luna Spirito\n\nGroup channels:\n* RP\n* topic 42");
}

#[test]
fn sanitize_keeps_names_readably_safe() {
    assert_eq!(sanitize("IC"), "IC");
    assert_eq!(sanitize("a/b:c?"), "a_b_c");
    assert_eq!(sanitize("///"), "unnamed");
}

#[test]
fn sanitize_keeps_letters_of_any_script() {
    assert_eq!(sanitize("Чат №1 — «x»"), "Чат _1 _ _x");
    assert_eq!(sanitize(" .hidden. "), "hidden");
    assert_eq!(sanitize("RP-2"), "RP-2");
    assert_eq!(sanitize("日本/語-12"), "日本_語-12");
}

#[test]
fn probing_finds_the_first_free_name() {
    let taken: Vec<String> = vec!["a".into(), "a-2".into(), "a-4".into()];
    assert_eq!(unique_name(&taken, "b"), "b");
    assert_eq!(unique_name(&taken, "a"), "a-3");
    let logs: Vec<String> = vec!["a.log".into(), "a-2.log".into()];
    assert_eq!(unique_log(&logs, "a"), "a-3.log");
    assert_eq!(unique_log(&logs, "c"), "c.log");
}

#[test]
fn fallback_names_are_known() {
    assert!(is_fallback(&Some(42), "topic 42"));
    assert!(!is_fallback(&Some(42), "General"));
    assert!(is_fallback(&Some(1), "General"));
    assert!(is_fallback(&Some(1), "topic 1"));
    assert!(!is_fallback(&None, "topic 1"));
}

#[test]
fn candidates_follow_the_kind_of_channel() {
    assert_eq!(candidate_name(&msg(1, Some(1), "x")), "General");
    assert_eq!(candidate_name(&msg(1, Some(7), "x")), "topic 7");
    assert_eq!(candidate_name(&titled(1, 7, "IC")), "IC");
    assert_eq!(candidate_name(&msg(1, None, "x")), "RP");
    let mut dm = msg(9, None, "dm");
    dm.chat = luna();
    assert_eq!(candidate_name(&dm), "Luna Spirito");
    dm.chat.first_name = String::new();
    dm.chat.last_name = String::new();
    assert_eq!(candidate_name(&dm), "chat 3");
}

#[test]
fn names_resolve_without_regard_to_case_where_unique() {
    let row = |chat_id, thread, name: &str| Row {
        chat_id,
        thread,
        name: name.into(),
        kind: "supergroup".into(),
        log: format!("{name}.log"),
    };
    let rows = vec![row(2, Some(3), "ooc"), row(2, None, "OOC"), row(-1, None, "Чат"), row(2, Some(3), "Ooc")];
    let (channels, _) = Channels::load("s", "w", Some(rows), None);
    assert_eq!(channels.resolve("OOC"), Some((2, None)));
    assert_eq!(channels.resolve("Ooc"), Some((2, Some(3))));
    assert_eq!(channels.resolve("oOC"), None);
    assert_eq!(channels.resolve("ЧАТ"), Some((-1, None)));
    // Of two rows with the same address the later one counts; rows come back in order.
    let rows = channels.save();
    let keys: Vec<_> = rows.iter().map(|r| (r.chat_id, r.thread)).collect();
    assert_eq!(keys, vec![(-1, None), (2, None), (2, Some(3))]);
    assert_eq!(rows[2].name, "Ooc");
    assert_eq!(channels.name_of((9, None)), "chat 9");
    assert_eq!(channels.name_of((9, Some(4))), "topic 4");
}

#[test]
fn service_messages_without_text_leave_no_line() {
    let mut channels = store();
    let mut m = msg(1, Some(42), "");
    m.text = None;
    let done = channels.observe_message(&m, false);
    assert!(done.save && done.line.is_none());
    m.caption = Some("look".into());
    m.from = None;
    let done = channels.observe_message(&m, false);
    assert!(done.line.unwrap().line.ends_with("#1 topic 42: look"));
}

#[test]
fn unseen_channels_are_named_as_registration_would() {
    let mut channels = store();
    assert_eq!(channels.name_of((-100, Some(1))), "General");
    assert_eq!(channels.name_of((-100, Some(42))), "topic 42");
    assert_eq!(channels.name_of((-100, None)), "chat -100");
    channels.observe_message(&msg(1, Some(1), "hi"), false);
    assert_eq!(channels.name_of((-100, Some(1))), "General");
}
