use rp_agent::chats::{Chats, Persisted, HISTORY_CAP};
use rp_agent::tg::{TgChat, TgMessage, TgUser};

fn msg(id: i64, text: &str) -> TgMessage {
    TgMessage {
        message_id: id,
        from: Some(TgUser {
            id: 1,
            is_bot: false,
            first_name: "Alice".into(),
            last_name: String::new(),
            username: None,
        }),
        chat: TgChat {
            id: -100,
            kind: "supergroup".into(),
            title: Some("RP".into()),
            first_name: String::new(),
            last_name: String::new(),
            username: None,
        },
        message_thread_id: None,
        date: 0,
        text: Some(text.into()),
        caption: None,
        photo: vec![],
        document: None,
        reply_to_message: None,
        forum_topic_created: None,
        forum_topic_edited: None,
    }
}

#[test]
fn messages_record_and_edits_upsert() {
    let mut chats = Chats::load("state", None);
    chats.observe_message(&msg(1, "hello"));
    chats.observe_message(&msg(2, "world"));
    chats.observe_message(&msg(1, "hello edited"));
    let recent = chats.recent(-100, 10).unwrap();
    assert_eq!(recent.len(), 2);
    assert_eq!(recent[0].text, "hello edited");
    assert_eq!(recent[0].author, "Alice");
    // The chat registered itself under its title.
    assert_eq!(chats.known().get(&-100).unwrap().title.as_deref(), Some("RP"));
    assert_eq!(chats.path(), "state/chats.json");
}

#[test]
fn history_is_capped_and_persisted() {
    let mut chats = Chats::load("state", None);
    for id in 0..(HISTORY_CAP as i64 + 10) {
        chats.observe_message(&msg(id, "m"));
    }
    let saved = Persisted { chats: chats.save().chats.clone(), history: chats.save().history.clone() };
    // A fresh load reads back what was persisted.
    let chats = Chats::load("state", Some(saved));
    let recent = chats.recent(-100, usize::MAX).unwrap();
    assert_eq!(recent.len(), HISTORY_CAP);
    assert_eq!(recent[0].message_id, 10);
}

#[test]
fn recent_entries_are_the_newest() {
    let mut chats = Chats::load("state", None);
    assert!(chats.recent(-100, 3).is_none());
    let mut m = msg(5, "x");
    m.text = None;
    chats.observe_message(&m);
    assert!(chats.recent(-100, 3).is_none());
    assert_eq!(chats.known()[&-100].kind, "supergroup");
    m.caption = Some("cap".into());
    m.from = None;
    chats.observe_message(&m);
    chats.observe_message(&msg(6, "y"));
    let recent = chats.recent(-100, 1).unwrap();
    assert_eq!((recent.len(), recent[0].message_id), (1, 6));
    let all = chats.recent(-100, 9).unwrap();
    assert_eq!((all[0].author.as_str(), all[0].text.as_str()), ("RP", "cap"));
    let mut other = msg(1, "z").chat;
    other.id = 4;
    other.title = None;
    chats.observe_chat(&other);
    assert_eq!(chats.known()[&4].title, None);
    assert_eq!(chats.known().len(), 2);
}
