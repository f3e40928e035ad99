use rp_agent::agent::{
    collect, describe_event, format_events, format_user, image_data_url, image_mime, is_model_command,
    parse_model_command, sort_out, valid_model_name, Agent, ModelChoice, ModelCommand, HEARTBEAT, MODEL_USAGE,
};
use rp_agent::channels::Channels;
use rp_agent::config::{AgentCfg, AllowedUser, Config, LlmCfg, TelegramCfg, TopicCfg};
use rp_agent::llm::{ChatError, Llm, Reply};
use rp_agent::poller;
use rp_agent::session::{Message, Role, Session, ToolCall};
use rp_agent::tg::{
    Attachment, Event, EventKind, MessageReaction, ReactionType, Telegram, TgChat, TgMessage, TgUser, Update,
    Verdict, WatchList,
};
use rp_agent::turn::{Action, Settings, Turn, COMPACTION_INSTRUCTION};

fn command(text: &str) -> Result<ModelCommand, String> {
    parse_model_command(text)
}

fn event_with_text(text: &str) -> Event {
    Event {
        kind: EventKind::Message {
            msg: TgMessage {
                message_id: 1,
                from: None,
                chat: TgChat {
                    id: -100,
                    kind: "supergroup".into(),
                    title: None,
                    first_name: String::new(),
                    last_name: String::new(),
                    username: None,
                },
                message_thread_id: Some(42),
                date: 0,
                text: Some(text.into()),
                caption: None,
                photo: vec![],
                document: None,
                reply_to_message: None,
                forum_topic_created: None,
                forum_topic_edited: None,
            },
            edited: false,
            attachments: vec![],
        },
    }
}

fn reaction_event(chat_title: Option<&str>, emoji: &str) -> Event {
    Event {
        kind: EventKind::Reaction(MessageReaction {
            chat: TgChat {
                id: -100,
                kind: "supergroup".into(),
                title: chat_title.map(str::to_string),
                first_name: String::new(),
                last_name: String::new(),
                username: None,
            },
            message_id: 7,
            user: Some(TgUser {
                id: 1,
                is_bot: false,
                first_name: "Alice".into(),
                last_name: String::new(),
                username: Some("alice".into()),
            }),
            actor_chat: None,
            date: 0,
            old_reaction: vec![],
            new_reaction: vec![ReactionType { kind: "emoji".into(), emoji: Some(emoji.into()) }],
        }),
    }
}

fn channels() -> Channels {
    Channels::empty("d/state", "d")
}

#[test]
fn model_command_parsing() {
    assert_eq!(command("/model"), Ok(ModelCommand::Status));
    assert_eq!(command("/model@rp_bot"), Ok(ModelCommand::Status));
    assert_eq!(
        command("/model glm-5.3"),
        Ok(ModelCommand::Change { model: Some("glm-5.3".into()), effort: None })
    );
    assert_eq!(
        command("/model glm-5.3-flash:high"),
        Ok(ModelCommand::Change { model: Some("glm-5.3-flash".into()), effort: Some("high".into()) })
    );
    assert_eq!(
        command("/model glm-5.3:max"),
        Ok(ModelCommand::Change { model: Some("glm-5.3".into()), effort: Some("max".into()) })
    );
    // Bare effort change keeps the model.
    assert_eq!(
        command("/model :low"),
        Ok(ModelCommand::Change { model: None, effort: Some("low".into()) })
    );
    assert!(command("/model glm 5.3").is_err());
    assert!(command("/model glm-5.3:ultra").is_err());
    assert!(command("/model ../etc:low").is_err());
}

#[test]
fn model_command_detection() {
    assert!(is_model_command(&event_with_text("/model glm-5.3")));
    assert!(is_model_command(&event_with_text("/model@rp_bot :low")));
    assert!(!is_model_command(&event_with_text("/modelx low")));
    assert!(!is_model_command(&event_with_text("story text /model")));
    assert!(!is_model_command(&event_with_text("/ping")));
}

#[test]
fn image_embedding_is_extension_gated() {
    let att = |p: &str, bytes: &[u8]| Attachment {
        path: p.into(),
        is_image: false,
        size: bytes.len() as u64,
        content: Some(bytes.to_vec()),
    };
    assert!(
        image_data_url(&att("d/pic.PNG", b"not really png but bytes"))
            .unwrap()
            .starts_with("data:image/png;base64,")
    );
    assert_eq!(image_data_url(&att("d/note.txt", b"plain text")), None);
}

#[test]
fn header_names_source_channels() {
    let mut channels = channels();
    let a = event_with_text("one");
    let EventKind::Message { msg, .. } = &a.kind else { unreachable!() };
    channels.observe_message(msg, false);
    let b = reaction_event(Some("News"), "🔥");
    let EventKind::Reaction(r) = &b.kind else { unreachable!() };
    channels.observe_reaction(r);
    let (text, _) = format_events(&vec![a, b], 30, &channels);
    let text = text.unwrap();
    assert!(
        text.starts_with("[Telegram: 2 new update(s) from News, topic 42;"),
        "{text}"
    );
}

#[test]
fn events_are_described_with_channel_names() {
    let mut channels = channels();
    let text = describe_event(&event_with_text("scene"), &channels);
    assert!(text.contains("in topic 42, message #1"), "{text}");
    assert!(!text.contains("chat id"), "{text}");
    assert!(!text.contains("user id"), "{text}");
    // A DM resolves to the person's name, not a bare id.
    let mut dm = event_with_text("hi");
    let EventKind::Message { msg, .. } = &mut dm.kind else { unreachable!() };
    msg.chat = TgChat {
        id: 5,
        kind: "private".into(),
        title: None,
        first_name: "Luna".into(),
        last_name: "Spirito".into(),
        username: None,
    };
    msg.message_thread_id = None;
    channels.observe_message(msg, false);
    let text = describe_event(&dm, &channels);
    assert!(text.contains("in Luna Spirito, message #1"), "{text}");
}

#[test]
fn reactions_are_described_for_the_model() {
    let mut channels = channels();
    let reaction = reaction_event(Some("News"), "🔥");
    let EventKind::Reaction(r) = &reaction.kind else { unreachable!() };
    channels.observe_reaction(r);
    let text = describe_event(&reaction, &channels);
    assert!(text.contains("Alice (@alice) reacted to message #7 in News"), "{text}");
    assert!(text.contains("🔥 (was: (none))"), "{text}");
    // Empty new_reaction reads as removal.
    let removed = Event {
        kind: EventKind::Reaction(MessageReaction {
            chat: TgChat {
                id: 1,
                kind: "private".into(),
                title: None,
                first_name: String::new(),
                last_name: String::new(),
                username: None,
            },
            message_id: 7,
            user: None,
            actor_chat: None,
            date: 0,
            old_reaction: vec![ReactionType { kind: "emoji".into(), emoji: Some("👍".into()) }],
            new_reaction: vec![],
        }),
    };
    let text = describe_event(&removed, &channels);
    assert!(text.contains("removed reaction on message #7"), "{text}");
    assert!(text.contains("(was: 👍)"), "{text}");
}

#[test]
fn command_mistakes_are_named() {
    assert_eq!(command("hello").unwrap_err(), "не команда /model");
    assert_eq!(command("  ").unwrap_err(), "не команда /model");
    assert_eq!(command("/model a b c").unwrap_err(), MODEL_USAGE);
    assert_eq!(command("/model bad!name").unwrap_err(), "Неверное имя модели «bad!name».");
    assert_eq!(
        command("/model m:ultra").unwrap_err(),
        "Неизвестный effort «ultra». Допустимо: max, xhigh, high, medium, low, minimal, none."
    );
    assert!(valid_model_name(&"m".repeat(64)));
    assert!(!valid_model_name(&"m".repeat(65)));
    assert!(!valid_model_name(""));
    assert!(!valid_model_name("модель"));
}

#[test]
fn images_are_told_by_extension() {
    assert_eq!(image_mime("a/b.JPG"), Some("image/jpeg"));
    assert_eq!(image_mime("b.jpeg"), Some("image/jpeg"));
    assert_eq!(image_mime("x.webp"), Some("image/webp"));
    assert_eq!(image_mime("x.tar.gif"), Some("image/gif"));
    assert_eq!(image_mime(".png"), None);
    assert_eq!(image_mime("png"), None);
    assert_eq!(image_mime("dir.png/.."), None);
    assert_eq!(image_mime("dir.png/"), Some("image/png"));
    assert_eq!(image_mime("dir.png/.//"), Some("image/png"));
    assert_eq!(image_mime("x."), None);
}

fn sample_update(user: i64, text: &str) -> Update {
    let EventKind::Message { mut msg, .. } = event_with_text(text).kind else { unreachable!() };
    msg.from = Some(TgUser {
        id: user,
        is_bot: false,
        first_name: "Bob".into(),
        last_name: "B".into(),
        username: None,
    });
    Update { update_id: 9, message: Some(msg), edited_message: None, message_reaction: None }
}

fn watch() -> WatchList {
    WatchList { allowed_users: vec![1], subscribed_topics: vec![], bot_id: 7, bot_username: "rp_bot".into() }
}

#[test]
fn strangers_leave_no_trace() {
    let mut channels = channels();
    let done = collect(&mut channels, &watch(), sample_update(2, "hi"), vec![]);
    assert!(done.event.is_none() && done.recorded.is_none());
    assert_eq!(channels.list(), "No channels observed yet.");
    let done = collect(&mut channels, &watch(), sample_update(1, "hi"), vec![]);
    assert!(matches!(done.event.unwrap().kind, EventKind::Message { edited: false, .. }));
    let recorded = done.recorded.unwrap();
    assert!(recorded.save);
    assert_eq!(recorded.line.unwrap().line, "[1970-01-01 00:00:00 UTC] #1 Bob B: hi");
    let mut edit = sample_update(1, "hi!");
    edit.edited_message = edit.message.take();
    let done = collect(&mut channels, &watch(), edit, vec![]);
    assert!(matches!(done.event.unwrap().kind, EventKind::Message { edited: true, .. }));
    let EventKind::Reaction(r) = reaction_event(Some("News"), "🔥").kind else { unreachable!() };
    let update = Update { update_id: 1, message: None, edited_message: None, message_reaction: Some(r) };
    let done = collect(&mut channels, &watch(), update, vec![]);
    assert!(matches!(done.event.unwrap().kind, EventKind::Reaction(_)));
}

#[test]
fn commands_are_sorted_out() {
    let events = vec![
        event_with_text("one"),
        event_with_text("/model"),
        event_with_text("two"),
        event_with_text("/model :low"),
    ];
    let (orders, others) = sort_out(events);
    assert_eq!((orders.len(), others.len()), (2, 2));
    assert!(orders.iter().all(is_model_command));
    assert!(!others.iter().any(is_model_command));
}

#[test]
fn events_are_shown_in_full() {
    let channels = channels();
    let mut e = event_with_text("body");
    let EventKind::Message { msg, edited, attachments } = &mut e.kind else { unreachable!() };
    let EventKind::Message { msg: mut first, .. } = event_with_text("x").kind else { unreachable!() };
    first.message_id = 3;
    msg.reply_to_message = Some(Box::new(first));
    *edited = true;
    attachments.push(Attachment {
        path: "d/p.jpg".into(),
        is_image: true,
        size: 5,
        content: Some(b"hello".to_vec()),
    });
    attachments.push(Attachment { path: "d/q.png".into(), is_image: false, size: 0, content: None });
    attachments.push(Attachment { path: "d/r.txt".into(), is_image: false, size: 2, content: None });
    let (text, images) = format_events(&vec![e], 7, &channels);
    assert_eq!(
        text.unwrap(),
        "[Telegram: 1 new update(s) from topic 42; you were asleep for ~7s]\n\n\
         --- [1970-01-01 00:00:00 UTC] service in topic 42, message #1 (edited), reply to #3\n\
         body\n\
         [attachment: image saved to d/p.jpg (5 bytes)]\n\
         [attachment: file saved to d/q.png (0 bytes)]\n\
         [attachment: file saved to d/r.txt (2 bytes)]\n\
         \n\
         [could not load image d/q.png]\n"
    );
    assert_eq!(images, vec!["data:image/jpeg;base64,aGVsbG8="]);
    let (text, images) = format_events(&vec![], 7, &channels);
    assert!(text.is_none() && images.is_empty());
    let user = TgUser { id: 1, is_bot: false, first_name: "A".into(), last_name: "".into(), username: None };
    assert_eq!(format_user(&user), "A");
}

fn config(heartbeat: bool) -> Config {
    Config {
        telegram: TelegramCfg {
            token: None,
            api_url: "https://a".into(),
            bot_username: Some("cfg_bot".into()),
            allowed_users: vec![
                AllowedUser { id: 1, name: Some("Alice".into()) },
                AllowedUser { id: 2, name: None },
            ],
            subscribed_topics: vec![TopicCfg { chat_id: -100, thread_id: 42 }],
        },
        llm: LlmCfg {
            api_key: None,
            base_url: "https://m".into(),
            model: "glm".into(),
            max_output_tokens: 100,
            temperature: Some("0.5".into()),
            reasoning_effort: None,
            preserve_thinking: false,
            compaction_threshold_tokens: 1000,
            compaction_retain_tokens: 50,
        },
        agent: AgentCfg {
            system_prompt: Some("be kind".into()),
            system_prompt_file: None,
            workspace_dir: "w".into(),
            state_dir: "s".into(),
            idle_wake_secs: 1,
            heartbeat,
        },
    }
}

fn agent(heartbeat: bool) -> Agent {
    let (session, _) = Session::load(None, None);
    Agent::new(
        config(heartbeat),
        Llm::new("https://m", "K"),
        Telegram::new("https://a", "T"),
        session,
        watch(),
        channels(),
        None,
    )
}

#[test]
fn commands_change_the_choice() {
    let mut a = agent(true);
    assert_eq!(a.choice.describe(), "Модель: glm, effort: (по умолчанию провайдера)");
    let r = a.handle_model_command(&event_with_text("/model :low")).unwrap();
    assert!(r.save);
    assert_eq!(r.text, "Модель: glm, effort: low");
    assert_eq!(r.key, (-100, Some(42)));
    assert_eq!(r.request.body.get("reply_to_message_id").unwrap().as_int(), Some(1));
    let r = a.handle_model_command(&event_with_text("/model big")).unwrap();
    assert_eq!(r.text, "Модель: big, effort: low");
    let r = a.handle_model_command(&event_with_text("/model x:y")).unwrap();
    assert!(!r.save);
    assert_eq!(a.choice.model, "big");
    let r = a.handle_model_command(&event_with_text("/model")).unwrap();
    assert!(!r.save);
    assert!(a.handle_model_command(&reaction_event(None, "x")).is_none());
    let kept = ModelChoice { model: "old".into(), effort: None };
    assert_eq!(ModelChoice::load(Some(kept), "new", &None).model, "old");
    assert_eq!(ModelChoice::load(None, "new", &Some("max".into())).effort.as_deref(), Some("max"));
}

#[test]
fn the_model_is_woken() {
    let a = agent(true);
    let wake = a.wake_message(&vec![], 5).unwrap();
    assert_eq!((wake.role, wake.text.as_str()), (Role::User, HEARTBEAT));
    let wake = a.wake_message(&vec![event_with_text("x")], 5).unwrap();
    assert!(wake.text.starts_with("[Telegram: 1 new update(s)"));
    assert!(agent(false).wake_message(&vec![], 5).is_none());
    let o = a.chat_options();
    assert_eq!((o.model, o.max_tokens, o.temperature, o.effort), ("glm", 100, Some("0.5"), None));
    assert!(a.tools().tg.is_some());
    assert_eq!(a.tools().resolve("x"), "w/x");
    let msgs = a.turn.composed();
    assert_eq!(msgs.len(), 2);
    assert_eq!((msgs[0].role, msgs[0].text.as_str()), (Role::System, "be kind"));
    assert!(msgs[1].text.starts_with("[Telegram channels] Address send_message/edit_message by these exact names. "));
    assert!(msgs[1].text.ends_with("\n\nNo channels observed yet."));
}

fn turn(threshold: u64, retain: u64) -> Turn {
    let (session, _) = Session::load(None, None);
    let settings = Settings {
        system_prompt: "sys".into(),
        preserve_thinking: true,
        compaction_threshold_tokens: threshold,
        compaction_retain_tokens: retain,
    };
    Turn::new(settings, session)
}

fn reply(text: &str, calls: &[&str], prompt_tokens: Option<u64>) -> Result<Reply, ChatError> {
    Ok(Reply {
        text: text.into(),
        reasoning: "because".into(),
        tool_calls: calls
            .iter()
            .map(|id| ToolCall { id: id.to_string(), name: "bash".into(), arguments: "{}".into() })
            .collect(),
        finish_reason: None,
        prompt_tokens,
    })
}

#[test]
fn a_turn_runs_its_tools_in_order() {
    let mut t = turn(1_000_000, 10);
    assert!(t.is_idle());
    assert!(matches!(t.begin(Message::user("hi")), Action::Append(_)));
    assert!(t.awaits_log());
    assert!(matches!(t.logged(Ok(()), ""), Action::Ask(m) if m.len() == 2));
    assert!(t.awaits_reply());
    assert!(matches!(t.reply(reply("", &["a", "b"], Some(5))), Action::Append(_)));
    assert!(matches!(t.logged(Ok(()), ""), Action::Run(c) if c.id == "a"));
    assert!(t.awaits_tool());
    assert!(matches!(t.tool_result("one"), Action::Append(_)));
    assert!(matches!(t.logged(Ok(()), ""), Action::Run(c) if c.id == "b"));
    assert!(matches!(t.tool_result("two"), Action::Append(_)));
    assert!(matches!(t.logged(Ok(()), ""), Action::Ask(m) if m.len() == 5));
    assert!(matches!(t.reply(reply("done", &[], Some(6))), Action::Append(_)));
    assert!(matches!(t.logged(Ok(()), ""), Action::Done));
    let s = t.session().surface();
    assert_eq!(s.len(), 5);
    assert_eq!(s[1].reasoning, "because");
    assert_eq!((s[2].tool_call_id.as_deref(), s[2].text.as_str()), (Some("a"), "one"));
    assert_eq!(s[4].text, "done");
}

#[test]
fn requests_begin_as_the_last_one_did() {
    let texts = |msgs: Vec<Message>| msgs.into_iter().map(|m| m.text).collect::<Vec<_>>();
    let mut t = turn(1_000_000, 10);
    t.seed_channels("IC");
    t.begin(Message::user("hi"));
    let Action::Ask(first) = t.logged(Ok(()), "other") else { panic!("no request") };
    t.reply(reply("", &["a"], None));
    t.logged(Ok(()), "other");
    t.tool_result("one");
    let Action::Ask(second) = t.logged(Ok(()), "other") else { panic!("no request") };
    let (first, second) = (texts(first), texts(second));
    assert_eq!((first.len(), second.len()), (3, 5));
    assert!(first[1].ends_with("\n\nIC"));
    assert_eq!(first[..], second[..3]);
}

#[test]
fn a_lost_log_ends_the_turn() {
    let mut t = turn(1_000_000, 10);
    t.begin(Message::user("hi"));
    assert!(matches!(t.logged(Err("disk full".into()), ""), Action::Failed(e) if e == "disk full"));
    assert!(t.is_idle());
    assert!(t.session().surface().is_empty());
}

#[test]
fn overflow_is_retried_once() {
    let overflow = || Err(ChatError::ContextOverflow("400: too long".into()));
    let mut t = turn(1_000_000, 10);
    t.begin(Message::user("hi"));
    t.logged(Ok(()), "");
    // There is nothing to shadow, so the request is made again right away.
    assert!(matches!(t.reply(overflow()), Action::Ask(m) if m.len() == 2));
    assert!(matches!(t.reply(overflow()), Action::Failed(e) if e == "llm request failed: 400: too long"));
    assert!(t.is_idle());
    t.begin(Message::user("hi"));
    t.logged(Ok(()), "");
    assert!(matches!(t.reply(Err(ChatError::Fatal("x".into()))), Action::Failed(_)));
}

fn filled(threshold: u64) -> Turn {
    let mut t = turn(threshold, 50);
    for i in 0..3 {
        t.begin(Message::user(&format!("{i}{}", "x".repeat(399))));
        t.logged(Ok(()), "");
        t.reply(reply(&"y".repeat(400), &[], None));
        let last = t.logged(Ok(()), "");
        if i < 2 {
            assert!(matches!(last, Action::Done));
        } else {
            // The threshold is crossed: the summarizer is asked.
            let Action::Ask(m) = last else { panic!("{last:?}") };
            assert_eq!(m.len(), 8);
            assert_eq!(m[7].text, COMPACTION_INSTRUCTION);
        }
    }
    t
}

#[test]
fn compaction_replaces_what_it_shadows() {
    let mut t = filled(600);
    // The summarizer may use tools.
    assert!(matches!(t.reply(reply("", &["n"], Some(1))), Action::Run(c) if c.id == "n"));
    assert!(matches!(t.tool_result("noted"), Action::Ask(m) if m.len() == 10));
    let Action::Rotate(ops) = t.reply(reply("short summary", &[], None)) else { unreachable!() };
    assert_eq!(ops.len(), 2);
    assert_eq!(t.session().surface().len(), 6);
    assert!(matches!(t.logged(Ok(()), "the list"), Action::Done));
    let s = t.session();
    assert_eq!(s.surface().len(), 2);
    assert!(s.surface()[0].text.contains("short summary"));
    assert!(s.head().unwrap().text.ends_with("\n\nthe list"));
}

#[test]
fn failed_compaction_leaves_the_conversation() {
    let mut t = filled(600);
    assert!(matches!(t.reply(Err(ChatError::Transient("x".into()))), Action::Done));
    assert_eq!(t.session().surface().len(), 6);
    let mut t = filled(600);
    assert!(matches!(t.reply(reply("  \n", &[], None)), Action::Done));
    assert_eq!(t.session().surface().len(), 6);
    let mut t = filled(600);
    assert!(matches!(t.reply(reply(&"z".repeat(5000), &[], None)), Action::Done));
    assert_eq!(t.session().surface().len(), 6);
    let mut t = filled(600);
    assert!(matches!(t.reply(reply("short", &[], None)), Action::Rotate(_)));
    assert!(matches!(t.logged(Err("disk full".into()), ""), Action::Done));
    assert_eq!(t.session().surface().len(), 6);
    assert!(t.is_idle());
}

#[test]
fn summaries_are_held_against_the_shadowed_span() {
    // A small first message and a large second one, which is kept. As many messages as are shadowed
    // are counted, from the second one on: the large one with its 109 tokens.
    let begun = || {
        let mut t = turn(100, 50);
        t.begin(Message::user("a"));
        t.logged(Ok(()), "");
        t.reply(reply(&"y".repeat(400), &[], None));
        assert!(matches!(t.logged(Ok(()), ""), Action::Ask(_)));
        assert_eq!(t.plan_compaction(false), Some(1));
        t
    };
    let mut t = begun();
    assert!(matches!(t.reply(reply("longer than a", &[], None)), Action::Rotate(_)));
    let mut t = begun();
    assert!(matches!(t.reply(reply(&"z".repeat(403), &[], None)), Action::Rotate(_)));
    let mut t = begun();
    assert!(matches!(t.reply(reply(&"z".repeat(404), &[], None)), Action::Done));
    assert_eq!(t.session().surface().len(), 2);
}

#[test]
fn overflow_compacts_and_asks_again() {
    let mut t = filled(600);
    t.reply(Err(ChatError::Transient("x".into())));
    t.begin(Message::user("next"));
    t.logged(Ok(()), "");
    let Action::Ask(m) = t.reply(Err(ChatError::ContextOverflow("400".into()))) else { unreachable!() };
    assert_eq!(m.last().unwrap().text, COMPACTION_INSTRUCTION);
    assert!(matches!(t.reply(reply("sum", &[], None)), Action::Rotate(_)));
    let Action::Ask(m) = t.logged(Ok(()), "list") else { unreachable!() };
    assert!(m.iter().any(|m| m.text.contains("<compacted-summary>")));
    assert!(matches!(t.reply(Err(ChatError::ContextOverflow("400".into()))), Action::Failed(_)));
}

#[test]
fn the_anchor_counts_real_tokens() {
    let mut t = turn(100, 1);
    t.begin(Message::user("a"));
    t.logged(Ok(()), "");
    t.reply(reply("b", &[], Some(1_000)));
    // The provider says that the prompt was large, whatever the estimate.
    assert!(matches!(t.logged(Ok(()), ""), Action::Ask(_)));
    assert_eq!(t.plan_compaction(false), Some(1));
    let mut t = turn(100, 1);
    t.begin(Message::user(&"a".repeat(1000)));
    t.logged(Ok(()), "");
    t.reply(reply("b", &[], Some(10)));
    assert!(matches!(t.logged(Ok(()), ""), Action::Done));
}

#[test]
fn start_up_is_decided() {
    let cfg = config(true);
    let me = TgUser { id: 7, is_bot: true, first_name: "Bot".into(), last_name: "".into(), username: None };
    let name = poller::bot_username(&me, &cfg.telegram).unwrap();
    assert_eq!(name, "cfg_bot");
    let known = TgUser { username: Some("me_bot".into()), ..me };
    assert_eq!(poller::bot_username(&known, &cfg.telegram).unwrap(), "me_bot");
    let w = poller::watch_list(&cfg.telegram, &known, &name);
    assert_eq!((w.allowed_users, w.subscribed_topics), (vec![1, 2], vec![(-100, 42)]));
    assert_eq!((w.bot_id, w.bot_username.as_str()), (7, "cfg_bot"));
    assert_eq!(poller::show_allowlist(&cfg.telegram.allowed_users), "Alice (#1), #2");
    let mut bare = config(true).telegram;
    bare.bot_username = None;
    let nameless = TgUser { username: None, ..known };
    assert_eq!(
        poller::bot_username(&nameless, &bare).unwrap_err(),
        "bot username unknown: set `telegram.bot_username`"
    );
}

#[test]
fn offsets_survive_restarts() {
    assert_eq!(poller::read_offset(None), 0);
    assert_eq!(poller::read_offset(Some(" 17\n")), 17);
    assert_eq!(poller::read_offset(Some("x")), 0);
    for n in [0, 5, -3, i64::MAX, i64::MIN] {
        assert_eq!(poller::read_offset(Some(&poller::show_offset(n))), n);
    }
    assert_eq!(poller::poll_offset(0), None);
    assert_eq!(poller::poll_offset(-1), None);
    assert_eq!(poller::poll_offset(5), Some(6));
    assert_eq!(poller::ingest(4, &sample_update(1, "/x"), &watch()), (9, Verdict::Wake));
    assert_eq!(poller::ingest(40, &sample_update(2, "/x"), &watch()), (40, Verdict::Drop));
}

#[test]
fn configurations_are_completed() {
    let some = |s: &str| Some(s.to_string());
    let cfg = config(true).load(some("T"), some("K"), None).ok().unwrap();
    assert_eq!(cfg.telegram.token.as_deref(), Some("T"));
    assert_eq!(cfg.llm.api_key.as_deref(), Some("K"));
    assert_eq!(cfg.agent.system_prompt.as_deref(), Some("be kind"));
    let mut own = config(true);
    own.telegram.token = some("own");
    own.llm.api_key = some("key");
    let cfg = own.load(some("T"), None, None).ok().unwrap();
    assert_eq!(cfg.telegram.token.as_deref(), Some("own"));
    let e = config(true).load(None, some("K"), None).err().unwrap();
    assert_eq!(e, "telegram token missing: set `telegram.token` or $TELEGRAM_BOT_TOKEN");
    let e = config(true).load(some("T"), None, None).err().unwrap();
    assert_eq!(e, "llm api key missing: set `llm.api_key` or $ZAI_API_KEY");
    let mut filed = config(true);
    filed.agent.system_prompt_file = some("p.md");
    let e = filed.load(some("T"), some("K"), None).err().unwrap();
    assert_eq!(e, "read system prompt p.md");
    let mut filed = config(true);
    filed.agent.system_prompt_file = some("p.md");
    let cfg = filed.load(some("T"), some("K"), some("from file")).ok().unwrap();
    assert_eq!(cfg.agent.system_prompt.as_deref(), Some("from file"));
    let mut bare = config(true);
    bare.agent.system_prompt = None;
    let e = bare.load(some("T"), some("K"), None).err().unwrap();
    assert_eq!(e, "system prompt missing: set `agent.system_prompt` or `agent.system_prompt_file`");
}
