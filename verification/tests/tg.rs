use rp_agent::json::Json;
use rp_agent::markdown::render_markdown;
use rp_agent::tg::{
    call_outcome, classify, is_admitted, is_encodable, known_time, render_reactions, timestamp, Event, EventKind,
    ForumTopicCreated, ForumTopicEdited, MessageReaction, ReactionType, Telegram, TgChat, TgDocument, TgFile,
    TgMessage, TgPhotoSize, TgResponse, TgUser, Update, Verdict, WatchList,
};

fn chat(id: i64, kind: &str) -> TgChat {
    TgChat {
        id,
        kind: kind.into(),
        title: None,
        first_name: String::new(),
        last_name: String::new(),
        username: None,
    }
}

fn alice(id: i64) -> TgUser {
    TgUser {
        id,
        is_bot: false,
        first_name: "Alice".into(),
        last_name: String::new(),
        username: Some("alice".into()),
    }
}

fn message(from: Option<TgUser>, chat: TgChat, thread: Option<i64>, text: &str) -> TgMessage {
    TgMessage {
        message_id: 10,
        from,
        chat,
        message_thread_id: thread,
        date: 0,
        text: Some(text.into()),
        caption: None,
        photo: vec![],
        document: None,
        reply_to_message: None,
        forum_topic_created: None,
        forum_topic_edited: None,
    }
}

fn update(from_id: Option<i64>, chat_kind: &str, chat_id: i64, thread: Option<i64>, text: &str) -> Update {
    Update {
        update_id: 1,
        message: Some(message(from_id.map(alice), chat(chat_id, chat_kind), thread, text)),
        edited_message: None,
        message_reaction: None,
    }
}

fn reaction(from_id: Option<i64>, chat_kind: &str, chat_id: i64) -> Update {
    Update {
        update_id: 1,
        message: None,
        edited_message: None,
        message_reaction: Some(MessageReaction {
            chat: chat(chat_id, chat_kind),
            message_id: 10,
            user: from_id.map(alice),
            actor_chat: None,
            date: 0,
            old_reaction: vec![],
            new_reaction: vec![ReactionType { kind: "emoji".into(), emoji: Some("🔥".into()) }],
        }),
    }
}

fn watch() -> WatchList {
    WatchList {
        allowed_users: vec![1],
        subscribed_topics: vec![(-100, 42)],
        bot_id: 7,
        bot_username: "rp_bot".into(),
    }
}

#[test]
fn markdown_renders_to_telegram_html() {
    assert_eq!(
        render_markdown("**b** *i* ~~s~~ `c`"),
        "<b>b</b> <i>i</i> <s>s</s> <code>c</code>"
    );
    assert_eq!(
        render_markdown("[x](https://e.x)"),
        "<a href=\"https://e.x\">x</a>"
    );
    assert_eq!(render_markdown("- a\n- b\n1. c"), "• a\n• b\n1. c");
    assert_eq!(render_markdown("# Head\ntext"), "<b>Head</b>\ntext");
    assert_eq!(
        render_markdown("> quoted"),
        "<blockquote>\nquoted\n</blockquote>"
    );
    assert_eq!(render_markdown("```\n<x>\n```"), "<pre>&lt;x&gt;\n</pre>");
    // Raw HTML and special chars never pass through unescaped.
    assert_eq!(render_markdown("a <b> & c"), "a &lt;b&gt; &amp; c");
    assert_eq!(render_markdown("<u>raw</u>"), "&lt;u&gt;raw&lt;/u&gt;");
    // Unbalanced markers stay literal instead of producing broken HTML.
    assert_eq!(render_markdown("2 * 3 ** 4"), "2 * 3 ** 4");
}

#[test]
fn markdown_spacing() {
    assert_eq!(render_markdown("Hi\nHello"), "Hi\nHello");
    assert_eq!(render_markdown("Hi\n\nHello"), "Hi\n\nHello");
    // Runs of blank lines collapse to a single blank line, like markdown
    // itself treats them.
    assert_eq!(render_markdown("Hi\n\n\n\nHello"), "Hi\n\nHello");
    // Gaps come from the source, they are not forced between every block.
    assert_eq!(render_markdown("# Head\ntext"), "<b>Head</b>\ntext");
    assert_eq!(render_markdown("# Head\n\ntext"), "<b>Head</b>\n\ntext");
    assert_eq!(render_markdown("a\n- x"), "a\n• x");
    assert_eq!(render_markdown("a\n\n- x"), "a\n\n• x");
    assert_eq!(
        render_markdown("> quoted\n\ntail"),
        "<blockquote>\nquoted\n</blockquote>\n\ntail"
    );
}

#[test]
fn disallowed_users_never_pass() {
    let w = watch();
    assert_eq!(
        classify(&update(Some(2), "supergroup", -100, Some(42), "injected"), &w),
        Verdict::Drop
    );
    assert_eq!(classify(&update(Some(2), "private", 2, None, "hi"), &w), Verdict::Drop);
}

#[test]
fn priority_channels_wake() {
    let w = watch();
    assert_eq!(classify(&update(Some(1), "private", 1, None, "hi"), &w), Verdict::Wake);
    assert_eq!(
        classify(&update(Some(1), "supergroup", -100, Some(42), "scene"), &w),
        Verdict::Wake
    );
    assert_eq!(
        classify(&update(Some(1), "supergroup", -100, Some(9), "/ping"), &w),
        Verdict::Wake
    );
    assert_eq!(
        classify(&update(Some(1), "supergroup", -100, Some(9), "@rp_bot yo"), &w),
        Verdict::Wake
    );
    let mut reply = update(Some(1), "supergroup", -100, Some(9), "answer me");
    let bot = TgUser {
        id: 7,
        is_bot: true,
        first_name: "Bot".into(),
        last_name: String::new(),
        username: None,
    };
    let mut said = message(Some(bot), chat(-100, "supergroup"), Some(9), "bot said");
    said.message_id = 1;
    reply.message.as_mut().unwrap().reply_to_message = Some(Box::new(said));
    assert_eq!(classify(&reply, &w), Verdict::Wake);
}

#[test]
fn side_channels_queue_without_wake() {
    let w = watch();
    assert_eq!(
        classify(&update(Some(1), "supergroup", -100, Some(9), "idle chat"), &w),
        Verdict::Queue
    );
}

#[test]
fn reactions_follow_chat_rules() {
    let w = watch();
    // Allowed user: subscribed chat wakes, others queue, private wakes.
    assert_eq!(classify(&reaction(Some(1), "supergroup", -100), &w), Verdict::Wake);
    assert_eq!(classify(&reaction(Some(1), "supergroup", -999), &w), Verdict::Queue);
    assert_eq!(classify(&reaction(Some(1), "private", 1), &w), Verdict::Wake);
    // Strangers and bots never pass.
    assert_eq!(classify(&reaction(Some(2), "private", 2), &w), Verdict::Drop);
}

#[test]
fn service_messages_queue() {
    let w = watch();
    assert_eq!(
        classify(&update(None, "supergroup", -100, Some(42), ""), &w),
        Verdict::Queue
    );
}

#[test]
fn bots_and_anonymous_actors_are_told_apart() {
    let w = watch();
    let mut u = update(Some(1), "private", 1, None, "hi");
    u.message.as_mut().unwrap().from.as_mut().unwrap().is_bot = true;
    assert_eq!(classify(&u, &w), Verdict::Drop);
    assert!(!is_admitted(&u, &w));
    let mut r = reaction(None, "supergroup", -100);
    assert_eq!(classify(&r, &w), Verdict::Drop);
    r.message_reaction.as_mut().unwrap().actor_chat = Some(chat(1, "supergroup"));
    assert_eq!(classify(&r, &w), Verdict::Wake);
    assert!(is_admitted(&r, &w));
    let empty = Update { update_id: 3, message: None, edited_message: None, message_reaction: None };
    assert_eq!(classify(&empty, &w), Verdict::Drop);
    assert!(!is_admitted(&empty, &w));
}

#[test]
fn updates_name_their_message() {
    let mut u = update(Some(1), "private", 1, None, "hi");
    assert_eq!(u.msg().unwrap().text.as_deref(), Some("hi"));
    assert!(!u.edited());
    u.edited_message = u.message.take();
    assert_eq!(u.msg().unwrap().text.as_deref(), Some("hi"));
    assert!(u.edited());
}

#[test]
fn names_are_composed() {
    let mut u = alice(1);
    assert_eq!(u.display_name(), "Alice");
    u.last_name = "Liddell".into();
    assert_eq!(u.display_name(), "Alice Liddell");
    let mut c = chat(-5, "supergroup");
    assert_eq!(c.label(), "chat -5");
    assert_eq!(c.display_name(), "chat -5");
    c.title = Some("RP".into());
    assert_eq!(c.label(), "RP");
    c.first_name = "Luna".into();
    c.last_name = "Spirito".into();
    assert_eq!(c.display_name(), "Luna Spirito");
}

#[test]
fn topic_titles_are_found() {
    let mut m = message(None, chat(1, "supergroup"), Some(42), "x");
    assert_eq!(m.topic_title(), None);
    let mut first = message(None, chat(1, "supergroup"), Some(42), "y");
    first.forum_topic_created = Some(ForumTopicCreated { name: "IC".into() });
    assert_eq!(first.topic_title(), Some("IC"));
    m.reply_to_message = Some(Box::new(first));
    assert_eq!(m.topic_title(), Some("IC"));
    m.forum_topic_edited = Some(ForumTopicEdited { name: None });
    assert_eq!(m.topic_title(), Some("IC"));
    m.forum_topic_edited = Some(ForumTopicEdited { name: Some("OOC".into()) });
    assert_eq!(m.topic_title(), Some("OOC"));
}

#[test]
fn events_have_a_chat_and_a_channel() {
    let e = Event {
        kind: EventKind::Message {
            msg: message(None, chat(3, "supergroup"), Some(4), "x"),
            edited: false,
            attachments: vec![],
        },
    };
    assert_eq!(e.chat().id, 3);
    assert_eq!(e.channel_key(), (3, Some(4)));
    let e = Event { kind: EventKind::Reaction(reaction(None, "supergroup", 5).message_reaction.unwrap()) };
    assert_eq!(e.chat().id, 5);
    assert_eq!(e.channel_key(), (5, None));
}

#[test]
fn reactions_are_listed() {
    assert_eq!(render_reactions(&vec![]), "(none)");
    let list = vec![
        ReactionType { kind: "emoji".into(), emoji: Some("🔥".into()) },
        ReactionType { kind: "custom_emoji".into(), emoji: None },
    ];
    assert_eq!(render_reactions(&list), "🔥 custom_emoji");
}

#[test]
fn times_are_utc() {
    assert_eq!(timestamp(1_758_000_000), "2025-09-16 05:20:00 UTC");
    assert_eq!(timestamp(0), "1970-01-01 00:00:00 UTC");
    assert_eq!(timestamp(-1), "1969-12-31 23:59:59 UTC");
    assert_eq!(timestamp(i64::MAX), "");
    assert_eq!(known_time(None), "");
    assert_eq!(known_time(Some("then".into())), "then");
}

#[test]
fn images_become_data_urls() {
    assert_eq!(Telegram::image_data_url(b"hello", "image/png"), "data:image/png;base64,aGVsbG8=");
    assert_eq!(Telegram::image_data_url(&[], "image/gif"), "data:image/gif;base64,");
    assert!(is_encodable(20 * 1024 * 1024));
    assert!(!is_encodable(usize::MAX));
}

fn text(v: &Json) -> &str {
    v.as_text().unwrap()
}

#[test]
fn requests_have_their_shape() {
    let tg = Telegram::new("https://api.example", "TOKEN");
    assert_eq!(tg.api, "https://api.example/botTOKEN");
    assert_eq!(tg.files, "https://api.example/file/botTOKEN");
    let r = tg.get_me();
    assert_eq!((r.method.as_str(), r.url.as_str()), ("getMe", "https://api.example/botTOKEN/getMe"));
    assert!(matches!(r.body, Json::Object(ref m) if m.is_empty()));

    let r = tg.get_updates(Some(12));
    assert_eq!(r.body.get("offset").unwrap().as_int(), Some(12));
    assert_eq!(r.body.get("timeout").unwrap().as_int(), Some(50));
    assert!(matches!(r.body.get("allowed_updates"), Some(Json::Array(v)) if v.len() == 3));
    let r = tg.get_updates(None);
    assert!(matches!(r.body.get("offset"), Some(Json::Null)));

    let r = tg.send_message(-100, Some(42), "hi", Some("HTML"), Some(7));
    assert_eq!(r.body.get("chat_id").unwrap().as_int(), Some(-100));
    assert_eq!(r.body.get("message_thread_id").unwrap().as_int(), Some(42));
    assert_eq!(text(r.body.get("text").unwrap()), "hi");
    assert_eq!(text(r.body.get("parse_mode").unwrap()), "HTML");
    assert_eq!(r.body.get("reply_to_message_id").unwrap().as_int(), Some(7));
    assert!(matches!(r.body.get("allow_sending_without_reply"), Some(Json::Bool(true))));
    let r = tg.send_message(1, None, "hi", None, None);
    assert!(matches!(r.body, Json::Object(ref m) if m.len() == 2));

    let r = tg.edit_message_text(1, 2, "new", None);
    assert_eq!(r.method, "editMessageText");
    assert_eq!(r.body.get("message_id").unwrap().as_int(), Some(2));
    let r = tg.send_typing(1);
    assert_eq!(text(r.body.get("action").unwrap()), "typing");
    let r = tg.get_file("abc");
    assert_eq!(text(r.body.get("file_id").unwrap()), "abc");
    assert_eq!(Telegram::timeout_secs(), 80);
}

#[test]
fn sent_ids_are_read() {
    let sent = Json::Object(vec![("message_id".into(), Json::Number("77".into()))]);
    assert_eq!(Telegram::sent_id(&sent), 77);
    assert_eq!(Telegram::sent_id(&Json::Null), 0);
    let odd = Json::Object(vec![("message_id".into(), Json::Number("7.5".into()))]);
    assert_eq!(Telegram::sent_id(&odd), 0);
}

#[test]
fn large_or_lost_files_are_refused() {
    let tg = Telegram::new("https://a", "T");
    let file = |path: Option<&str>, size| TgFile { file_path: path.map(str::to_string), file_size: size };
    assert_eq!(tg.download(&file(Some("p/x.jpg"), Some(20_971_520))).unwrap(), "https://a/file/botT/p/x.jpg");
    assert_eq!(
        tg.download(&file(Some("p"), Some(20_971_521))).unwrap_err(),
        "file too large: 20971521 bytes"
    );
    assert_eq!(tg.download(&file(None, None)).unwrap_err(), "getFile returned no file_path");
}

#[test]
fn attachments_are_named_after_the_message() {
    let mut m = message(None, chat(1, "private"), None, "x");
    assert!(Telegram::fetch_attachments(&m, "w/downloads").is_empty());
    m.photo = vec![TgPhotoSize { file_id: "small".into() }, TgPhotoSize { file_id: "large".into() }];
    m.document = Some(TgDocument { file_id: "doc".into(), file_name: Some("../../etc/x.pdf".into()) });
    let d = Telegram::fetch_attachments(&m, "w/downloads");
    assert_eq!(d.len(), 2);
    assert_eq!((d[0].file_id.as_str(), d[0].path.as_str(), d[0].is_image), ("large", "w/downloads/photo_10.jpg", true));
    assert_eq!((d[1].file_id.as_str(), d[1].path.as_str(), d[1].is_image), ("doc", "w/downloads/10_x.pdf", false));
    m.document = Some(TgDocument { file_id: "doc".into(), file_name: None });
    assert_eq!(Telegram::fetch_attachments(&m, "/d/")[1].path, "/d/10_file_10");
}

#[test]
fn answers_of_the_bot_api_are_read() {
    let ok = TgResponse { ok: true, result: Some(5), description: None };
    assert_eq!(call_outcome("getMe", 200, "", Some(ok)), Ok(5));
    let bad = TgResponse::<i32> { ok: false, result: None, description: Some("Bad Request".into()) };
    assert_eq!(
        call_outcome("sendMessage", 400, "", Some(bad)).unwrap_err(),
        "sendMessage failed (400 Bad Request): Bad Request"
    );
    let hollow = TgResponse::<i32> { ok: true, result: None, description: None };
    assert_eq!(call_outcome("x", 299, "", Some(hollow)).unwrap_err(), "x failed (299 <unknown status code>): ");
    assert_eq!(
        call_outcome::<i32>("x", 200, "<html>", None).unwrap_err(),
        "x: malformed response <html>"
    );
}

#[test]
fn rendering_degrades_what_telegram_cannot_show() {
    assert_eq!(render_markdown("![alt](https://i.x/p.png)"), "[<a href=\"https://i.x/p.png\">alt</a>]");
    assert_eq!(render_markdown("[x](https://e.x/?a=1&b=\"2\")"), "<a href=\"https://e.x/?a=1&amp;b=&quot;2&quot;\">x</a>");
    assert_eq!(render_markdown("[x](<https://e.x/?a=1&b=2>)"), "<a href=\"https://e.x/?a=1&amp;b=2\">x</a>");
    assert_eq!(render_markdown("***"), "—");
    assert_eq!(render_markdown("3. a\n4. b"), "3. a\n4. b");
    assert_eq!(render_markdown(""), "");
}
