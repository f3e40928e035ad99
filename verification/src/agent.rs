//! The agent: which updates it takes in, the `/model` command, how events are shown to the model,
//! and the messages that wake it.
//!
//! Wake model: priority updates (DMs, subscribed topics, pings there, reactions in them) signal an
//! immediate wake; everything else waits for the idle tick. On every wake the whole buffered queue
//! is replayed into the conversation as one user message, then a normal turn runs (LLM <-> tools)
//! until the model stops calling tools.
use crate::channels;
use crate::channels::{Channels, ChannelsView, Key, Recorded};
use crate::config::Config;
use crate::llm::{ChatOptions, Llm};
use crate::number;
use crate::number::{dec_signed, dec_unsigned};
use crate::order;
use crate::order::{deduped, sort_keyed, Keyed};
use crate::paths;
use crate::paths::path_extension;
use crate::search;
use crate::search::joined;
use crate::session;
use crate::session::{Message, MessageView, Role, Session};
use crate::text;
use crate::text::{from_chars, split_words, str_eq, text_size, to_chars};
use crate::tg;
use crate::tg::{
    render_reactions, timestamp, Attachment, Event, EventKind, MessageReaction, Request, Telegram,
    TgMessage, TgUser, Update, WatchList,
};
use crate::tools::Tools;
use crate::turn;
use crate::turn::{Settings, Turn, TurnView};
use crate::unicode;
use crate::unicode::{is_ascii_alphanumeric, to_ascii_lowercase};
use vstd::prelude::*;

verus! {

broadcast use vstd::seq::group_seq_axioms;

/// What the model is told on a scheduled wake.
pub const HEARTBEAT: &'static str = "[tick] Scheduled wake, no new Telegram messages. You may take autonomous actions (advance a scene, act for NPCs, tidy up your notes) or do nothing at all. You probably shouldn't overthink and just do nothing at all.";

/// What is said of a command that is not understood.
pub const MODEL_USAGE: &'static str = "Использование: /model — показать; /model <модель>[:low|high|max] — сменить.";

/// The effort levels, for display.
pub const EFFORT_LIST: &'static str = "max, xhigh, high, medium, low, minimal, none";

// ---------------------------------------------------------------------------------------------
// Model choice
// ---------------------------------------------------------------------------------------------

/// Model + reasoning effort currently driving the main loop. Overridable at runtime via `/model`,
/// persisted in the state dir across restarts.
#[derive(Debug)]
pub struct ModelChoice {
    pub model: String,
    pub effort: Option<String>,
}

/// What a [`ModelChoice`] holds.
pub struct ModelChoiceView {
    pub model: Seq<char>,
    pub effort: Option<Seq<char>>,
}

impl View for ModelChoice {
    type V = ModelChoiceView;

    open spec fn view(&self) -> ModelChoiceView {
        ModelChoiceView { model: self.model@, effort: text::opt_str(self.effort) }
    }
}

impl ModelChoiceView {
    /// How the choice is shown.
    pub open spec fn shown(self) -> Seq<char> {
        "Модель: "@ + self.model + ", effort: "@ + (match self.effort {
            Some(e) => e,
            None => "(по умолчанию провайдера)"@,
        })
    }
}

fn copy_option(o: &Option<String>) -> (r: Option<String>)
    ensures
        text::opt_str(r) == text::opt_str(*o),
{
    match o {
        Some(s) => Some(s.clone()),
        None => None,
    }
}

impl ModelChoice {
    /// The persisted choice, else the configured one.
    pub fn load(persisted: Option<ModelChoice>, cfg_model: &str, cfg_effort: &Option<String>) -> (r: Self)
        ensures
            r@ == (match persisted {
                Some(p) => p@,
                None => ModelChoiceView { model: cfg_model@, effort: text::opt_str(*cfg_effort) },
            }),
    {
        match persisted {
            Some(p) => p,
            None => ModelChoice { model: cfg_model.to_owned(), effort: copy_option(cfg_effort) },
        }
    }

    /// How the choice is shown.
    pub fn describe(&self) -> (r: String)
        ensures
            r@ == self@.shown(),
    {
        let mut s = "Модель: ".to_owned();
        s.append(self.model.as_str());
        s.append(", effort: ");
        match &self.effort {
            Some(e) => s.append(e.as_str()),
            None => s.append("(по умолчанию провайдера)"),
        }
        s
    }
}

/// `/model` command outcome, parsed from an update's text.
#[derive(Debug, PartialEq, Eq)]
pub enum ModelCommand {
    Status,
    Change { model: Option<String>, effort: Option<String> },
}

/// What a [`ModelCommand`] holds.
pub enum ModelCommandView {
    Status,
    Change(Option<Seq<char>>, Option<Seq<char>>),
}

impl View for ModelCommand {
    type V = ModelCommandView;

    open spec fn view(&self) -> ModelCommandView {
        match self {
            ModelCommand::Status => ModelCommandView::Status,
            ModelCommand::Change { model, effort } => ModelCommandView::Change(
                text::opt_str(*model),
                text::opt_str(*effort),
            ),
        }
    }
}

/// What a command that was read, or not, holds.
pub open spec fn command_view(r: Result<ModelCommand, String>) -> Result<ModelCommandView, Seq<char>> {
    match r {
        Ok(c) => Ok(c@),
        Err(e) => Err(e@),
    }
}

/// Number of characters before the first `c`.
pub open spec fn before_len(s: Seq<char>, c: char) -> nat
    decreases s.len(),
{
    if s.len() == 0 || s[0] == c {
        0
    } else {
        1 + before_len(s.drop_first(), c)
    }
}

/// What stands before the first `c`.
pub open spec fn before(s: Seq<char>, c: char) -> Seq<char> {
    s.take(before_len(s, c) as int)
}

/// Whether a text is a `/model` command, in the plain form or in the `/model@bot_name` mention form
/// Telegram uses in groups.
pub open spec fn is_command(text: Seq<char>) -> bool {
    let words = text::words(text);
    words.len() > 0 && before(words[0], '@') == "/model"@
}

/// Effort levels accepted by Z.ai `reasoning_effort`. GLM-5.3* only honors `low`/`high`/`max`; the
/// rest exist for older models and are passed through for the server to validate.
pub open spec fn is_effort(s: Seq<char>) -> bool {
    ||| s == "max"@
    ||| s == "xhigh"@
    ||| s == "high"@
    ||| s == "medium"@
    ||| s == "low"@
    ||| s == "minimal"@
    ||| s == "none"@
}

/// Whether a name may be one of a model: 1 to 64 letters, digits, dots, dashes and underscores of
/// ASCII.
pub open spec fn valid_name(name: Seq<char>) -> bool {
    &&& 1 <= text::size(name) <= 64
    &&& forall|i: int|
        0 <= i < name.len() ==> {
            let c = #[trigger] name[i];
            unicode::ascii_alphanumeric(c) || c == '.' || c == '-' || c == '_'
        }
}

/// What is said of a name that no model may have.
pub open spec fn bad_name(name: Seq<char>) -> Seq<char> {
    "Неверное имя модели «"@ + name + "»."@
}

/// What is said of an effort level that is none.
pub open spec fn bad_effort(effort: Seq<char>) -> Seq<char> {
    "Неизвестный effort «"@ + effort + "». Допустимо: "@ + EFFORT_LIST@ + "."@
}

/// What the argument of a command sets: a model, an effort level behind a colon, or both.
pub open spec fn setting(argument: Seq<char>) -> Result<ModelCommandView, Seq<char>> {
    let n = before_len(argument, ':');
    if n < argument.len() {
        let model = argument.take(n as int);
        let effort = argument.skip(n as int + 1);
        if model.len() > 0 && !valid_name(model) {
            Err(bad_name(model))
        } else if !is_effort(effort) {
            Err(bad_effort(effort))
        } else {
            Ok(
                ModelCommandView::Change(
                    if model.len() > 0 {
                        Some(model)
                    } else {
                        None
                    },
                    Some(effort),
                ),
            )
        }
    } else if !valid_name(argument) {
        Err(bad_name(argument))
    } else {
        Ok(ModelCommandView::Change(Some(argument), None))
    }
}

/// What a text says as a `/model` command.
pub open spec fn command(text: Seq<char>) -> Result<ModelCommandView, Seq<char>> {
    let words = text::words(text);
    if !is_command(text) {
        Err("не команда /model"@)
    } else if words.len() == 1 {
        Ok(ModelCommandView::Status)
    } else if words.len() > 2 {
        Err(MODEL_USAGE@)
    } else {
        setting(words[1])
    }
}

fn count_before(v: &[char], c: char) -> (n: usize)
    ensures
        n == before_len(v@, c),
        n <= v@.len(),
        n < v@.len() ==> v@[n as int] == c,
{
    let mut n: usize = 0;
    proof {
        assert(v@.skip(0) =~= v@);
    }
    while n < v.len() && v[n] != c
        invariant
            n <= v@.len(),
            before_len(v@, c) == n + before_len(v@.skip(n as int), c),
        decreases v@.len() - n,
    {
        proof {
            assert(v@.skip(n as int)[0] == v@[n as int]);
            assert(v@.skip(n as int).drop_first() =~= v@.skip(n + 1));
        }
        n += 1;
    }
    proof {
        if n < v@.len() {
            assert(v@.skip(n as int)[0] == v@[n as int]);
        }
    }
    n
}

fn names_command(word: &str) -> (r: bool)
    ensures
        r == (before(word@, '@') == "/model"@),
{
    let v = to_chars(word);
    let n: usize = count_before(v.as_slice(), '@');
    let name = from_chars(v.as_slice(), 0, n);
    proof {
        assert(name@ =~= before(word@, '@'));
    }
    str_eq(name.as_str(), "/model")
}

fn known_effort(s: &str) -> (r: bool)
    ensures
        r == is_effort(s@),
{
    str_eq(s, "max") || str_eq(s, "xhigh") || str_eq(s, "high") || str_eq(s, "medium") || str_eq(s, "low")
        || str_eq(s, "minimal") || str_eq(s, "none")
}

/// Whether a name may be one of a model.
pub fn valid_model_name(name: &str) -> (r: bool)
    ensures
        r == valid_name(name@),
{
    let bytes: usize = text_size(name);
    if bytes < 1 || bytes > 64 {
        return false;
    }
    let v = to_chars(name);
    let mut i: usize = 0;
    while i < v.len()
        invariant
            i <= v@.len(),
            v@ == name@,
            forall|k: int|
                0 <= k < i ==> {
                    let c = #[trigger] v@[k];
                    unicode::ascii_alphanumeric(c) || c == '.' || c == '-' || c == '_'
                },
        decreases v@.len() - i,
    {
        let c = v[i];
        if !(is_ascii_alphanumeric(c) || c == '.' || c == '-' || c == '_') {
            return false;
        }
        i += 1;
    }
    true
}

fn name_error(name: &str) -> (r: String)
    ensures
        r@ == bad_name(name@),
{
    let mut e = "Неверное имя модели «".to_owned();
    e.append(name);
    e.append("».");
    e
}

fn parse_setting(argument: &str) -> (r: Result<ModelCommand, String>)
    ensures
        command_view(r) == setting(argument@),
{
    let v = to_chars(argument);
    let n: usize = count_before(v.as_slice(), ':');
    if n < v.len() {
        let model = from_chars(v.as_slice(), 0, n);
        let effort = from_chars(v.as_slice(), n + 1, v.len());
        proof {
            assert(model@ =~= argument@.take(n as int));
            assert(effort@ =~= argument@.skip(n + 1));
        }
        if n > 0 && !valid_model_name(model.as_str()) {
            return Err(name_error(model.as_str()));
        }
        if !known_effort(effort.as_str()) {
            let mut e = "Неизвестный effort «".to_owned();
            e.append(effort.as_str());
            e.append("». Допустимо: ");
            e.append(EFFORT_LIST);
            e.append(".");
            return Err(e);
        }
        let model = if n > 0 {
            Some(model)
        } else {
            None
        };
        Ok(ModelCommand::Change { model, effort: Some(effort) })
    } else {
        if !valid_model_name(argument) {
            return Err(name_error(argument));
        }
        Ok(ModelCommand::Change { model: Some(argument.to_owned()), effort: None })
    }
}

/// Read a `/model` command.
pub fn parse_model_command(text: &str) -> (r: Result<ModelCommand, String>)
    ensures
        command_view(r) == command(text@),
{
    let parts = split_words(text);
    let ghost words = text::words(text@);
    proof {
        assert(words.len() == parts@.len());
        assert(forall|i: int| 0 <= i < parts@.len() ==> text::strs(parts@)[i] == #[trigger] parts@[i]@);
    }
    if parts.len() == 0 || !names_command(parts[0].as_str()) {
        return Err("не команда /model".to_owned());
    }
    if parts.len() == 1 {
        return Ok(ModelCommand::Status);
    }
    if parts.len() > 2 {
        return Err(MODEL_USAGE.to_owned());
    }
    parse_setting(parts[1].as_str())
}

/// Whether an event is a message with a `/model` command.
pub open spec fn commands(event: Event) -> bool {
    match event.kind {
        EventKind::Message { msg, .. } => msg.text is Some && is_command(msg.text->0@),
        EventKind::Reaction(_) => false,
    }
}

/// Whether an event is a message with a `/model` command.
pub fn is_model_command(event: &Event) -> (r: bool)
    ensures
        r == commands(*event),
{
    match &event.kind {
        EventKind::Message { msg, .. } => match &msg.text {
            Some(t) => {
                let parts = split_words(t.as_str());
                proof {
                    assert(text::words(t@).len() == parts@.len());
                    if parts@.len() > 0 {
                        assert(text::strs(parts@)[0] == parts@[0]@);
                    }
                }
                parts.len() > 0 && names_command(parts[0].as_str())
            },
            None => false,
        },
        EventKind::Reaction(_) => false,
    }
}

/// The choice after a command.
pub open spec fn chosen(choice: ModelChoiceView, c: Result<ModelCommandView, Seq<char>>) -> ModelChoiceView {
    match c {
        Ok(ModelCommandView::Change(model, effort)) => ModelChoiceView {
            model: match model {
                Some(m) => m,
                None => choice.model,
            },
            effort: match effort {
                Some(e) => Some(e),
                None => choice.effort,
            },
        },
        _ => choice,
    }
}

/// What a command is answered: the choice as it stands then, or what is wrong with the command.
pub open spec fn command_answer(choice: ModelChoiceView, c: Result<ModelCommandView, Seq<char>>) -> Seq<char> {
    match c {
        Ok(_) => chosen(choice, c).shown(),
        Err(e) => e,
    }
}

/// Whether a command sets something, so that the choice has to be persisted.
pub open spec fn sets(c: Result<ModelCommandView, Seq<char>>) -> bool {
    c matches Ok(ModelCommandView::Change(_, _))
}

/// A command with a mistake, or one that only asks, leaves the choice as it is; a bare effort change
/// keeps the model, and a bare model change keeps the effort.
pub proof fn law_commands_set_what_they_say(choice: ModelChoiceView, c: Result<ModelCommandView, Seq<char>>)
    ensures
        !sets(c) ==> chosen(choice, c) == choice,
        c matches Ok(ModelCommandView::Change(None, effort)) ==> chosen(choice, c).model == choice.model,
        c matches Ok(ModelCommandView::Change(model, None)) ==> chosen(choice, c).effort == choice.effort,
{
}

/// Whatever a command sets is a name that a model may have and an effort level that there is.
pub proof fn law_commands_set_valid_values(text: Seq<char>)
    ensures
        command(text) matches Ok(ModelCommandView::Change(Some(model), effort)) ==> valid_name(model),
        command(text) matches Ok(ModelCommandView::Change(model, Some(effort))) ==> is_effort(effort),
{
}

// ---------------------------------------------------------------------------------------------
// Taking updates in
// ---------------------------------------------------------------------------------------------

/// What an update came to: an event for the agent, and what is to be done for the registry. Neither
/// where the update is not taken in.
#[derive(Debug)]
pub struct Collected {
    pub event: Option<Event>,
    pub recorded: Option<Recorded>,
}

/// The event of an update that is taken in.
pub open spec fn event_of(update: Update, attachments: Vec<Attachment>) -> Event {
    match update.message_reaction {
        Some(r) => Event { kind: EventKind::Reaction(r) },
        None => Event {
            kind: EventKind::Message {
                msg: update.subject()->0,
                edited: update.edited_message is Some,
                attachments,
            },
        },
    }
}

/// The registry after an update that is taken in.
pub open spec fn registry_after(c: ChannelsView, update: Update) -> ChannelsView {
    ChannelsView {
        entries: match update.message_reaction {
            Some(r) => channels::reacted(c.entries, r),
            None => channels::observed(c.entries, update.subject()->0),
        },
        ..c
    }
}

/// What is to be done for the registry after an update that is taken in.
pub open spec fn effect_of(c: ChannelsView, update: Update) -> (Option<channels::LogLineView>, bool) {
    match update.message_reaction {
        Some(r) => channels::reaction_effect(c, r),
        None => channels::message_effect(c, update.subject()->0, update.edited_message is Some),
    }
}

/// Take an update in: what comes from others than those whom the agent listens to is dropped; every
/// passing update feeds the channel registry and its log.
pub fn collect(registry: &mut Channels, watch: &WatchList, update: Update, attachments: Vec<Attachment>) -> (r:
    Collected)
    requires
        old(registry).wf(),
    ensures
        final(registry).wf(),
        if tg::admitted(update, *watch) {
            &&& r.event == Some(event_of(update, attachments))
            &&& final(registry)@ == registry_after(old(registry)@, update)
            &&& r.recorded is Some
            &&& channels::recorded_view(r.recorded->0) == effect_of(old(registry)@, update)
        } else {
            &&& r.event is None
            &&& final(registry)@ == old(registry)@
            &&& r.recorded is None
        },
{
    if !tg::is_admitted(&update, watch) {
        return Collected { event: None, recorded: None };
    }
    let edited = update.edited();
    match update.message_reaction {
        Some(reaction) => {
            let recorded = registry.observe_reaction(&reaction);
            Collected { event: Some(Event { kind: EventKind::Reaction(reaction) }), recorded: Some(recorded) }
        },
        None => {
            let found = match update.message {
                Some(m) => Some(m),
                None => update.edited_message,
            };
            match found {
                Some(msg) => {
                    let recorded = registry.observe_message(&msg, edited);
                    Collected {
                        event: Some(Event { kind: EventKind::Message { msg, edited, attachments } }),
                        recorded: Some(recorded),
                    }
                },
                None => Collected { event: None, recorded: None },
            }
        },
    }
}

/// The events that are commands, in order.
pub open spec fn control(events: Seq<Event>) -> Seq<Event>
    decreases events.len(),
{
    if events.len() == 0 {
        Seq::empty()
    } else if commands(events[0]) {
        seq![events[0]] + control(events.drop_first())
    } else {
        control(events.drop_first())
    }
}

/// The events that are none, in order.
pub open spec fn roleplay(events: Seq<Event>) -> Seq<Event>
    decreases events.len(),
{
    if events.len() == 0 {
        Seq::empty()
    } else if commands(events[0]) {
        roleplay(events.drop_first())
    } else {
        seq![events[0]] + roleplay(events.drop_first())
    }
}

/// Control-plane commands never reach the model's context: no event that is shown to the model is
/// one, and every event that is none is shown.
pub proof fn law_commands_never_reach_the_model(events: Seq<Event>)
    ensures
        forall|i: int| 0 <= i < roleplay(events).len() ==> !commands(#[trigger] roleplay(events)[i]),
        forall|i: int| 0 <= i < events.len() && !commands(#[trigger] events[i]) ==> roleplay(events).contains(events[i]),
        control(events).len() + roleplay(events).len() == events.len(),
    decreases events.len(),
{
    if events.len() > 0 {
        let rest = events.drop_first();
        law_commands_never_reach_the_model(rest);
        let all = roleplay(events);
        if !commands(events[0]) {
            assert(all[0] == events[0]);
            assert forall|i: int| 0 <= i < all.len() implies !commands(#[trigger] all[i]) by {
                if i > 0 {
                    assert(all[i] == roleplay(rest)[i - 1]);
                }
            }
        }
        assert forall|i: int| 0 <= i < events.len() && !commands(#[trigger] events[i]) implies all.contains(events[i]) by {
            if i > 0 {
                assert(rest[i - 1] == events[i]);
                let k = choose|k: int| 0 <= k < roleplay(rest).len() && roleplay(rest)[k] == events[i];
                if commands(events[0]) {
                    assert(all[k] == events[i]);
                } else {
                    assert(all[k + 1] == events[i]);
                }
            }
        }
    }
}

/// Part the commands from the other events.
pub fn sort_out(events: Vec<Event>) -> (r: (Vec<Event>, Vec<Event>))
    ensures
        r.0@ == control(events@),
        r.1@ == roleplay(events@),
{
    let ghost all = events@;
    let mut events = events;
    let mut orders: Vec<Event> = Vec::new();
    let mut others: Vec<Event> = Vec::new();
    while events.len() > 0
        invariant
            orders@ + control(events@) == control(all),
            others@ + roleplay(events@) == roleplay(all),
        decreases events@.len(),
    {
        let ghost before = events@;
        let ghost done = orders@;
        let ghost kept = others@;
        let e = events.remove(0);
        proof {
            assert(events@ =~= before.drop_first());
            assert(e == before[0]);
        }
        if is_model_command(&e) {
            orders.push(e);
            proof {
                assert(done + control(before) =~= orders@ + control(events@));
            }
        } else {
            others.push(e);
            proof {
                assert(kept + roleplay(before) =~= others@ + roleplay(events@));
            }
        }
    }
    proof {
        assert(orders@ + control(events@) =~= orders@);
        assert(others@ + roleplay(events@) =~= others@);
    }
    (orders, others)
}

// ---------------------------------------------------------------------------------------------
// Showing events
// ---------------------------------------------------------------------------------------------

/// How a user is shown.
pub open spec fn user_text(u: TgUser) -> Seq<char> {
    match u.username {
        Some(handle) => u.name() + " (@"@ + handle@ + ")"@,
        None => u.name(),
    }
}

/// How a user is shown.
pub fn format_user(u: &TgUser) -> (r: String)
    ensures
        r@ == user_text(*u),
{
    let mut s = u.display_name();
    if let Some(handle) = &u.username {
        s.append(" (@");
        s.append(handle.as_str());
        s.append(")");
    }
    s
}

/// How an attachment is shown.
pub open spec fn attachment_text(a: Attachment) -> Seq<char> {
    "[attachment: "@ + (if a.is_image {
        "image"@
    } else {
        "file"@
    }) + " saved to "@ + a.path@ + " ("@ + number::dec(a.size as nat) + " bytes)]\n"@
}

/// How attachments are shown.
pub open spec fn attachments_text(list: Seq<Attachment>) -> Seq<char>
    decreases list.len(),
{
    if list.len() == 0 {
        Seq::empty()
    } else {
        attachments_text(list.drop_last()) + attachment_text(list.last())
    }
}

/// How a message is shown.
pub open spec fn message_text(
    s: Seq<(Key, channels::ChannelView)>,
    m: TgMessage,
    edited: bool,
    attachments: Seq<Attachment>,
) -> Seq<char> {
    "--- ["@ + tg::stamp(m.date) + "] "@ + (match m.from {
        Some(u) => user_text(u),
        None => "service"@,
    }) + " in "@ + channels::shown_name(s, channels::key_of(m)) + ", message #"@ + number::dec_int(
        m.message_id as int,
    ) + (if edited {
        " (edited)"@
    } else {
        ""@
    }) + (match m.reply_to_message {
        Some(r) => ", reply to #"@ + number::dec_int(r.message_id as int),
        None => ""@,
    }) + "\n"@ + (match m.body() {
        Some(body) => body,
        None => "(no text)"@,
    }) + "\n"@ + attachments_text(attachments)
}

/// How a reaction is shown.
pub open spec fn reaction_text(s: Seq<(Key, channels::ChannelView)>, r: MessageReaction) -> Seq<char> {
    "--- ["@ + tg::stamp(r.date) + "] "@ + (match r.user {
        Some(u) => user_text(u),
        None => match r.actor_chat {
            Some(c) => c.name(),
            None => "someone"@,
        },
    }) + " "@ + (if r.new_reaction@.len() == 0 {
        "removed reaction on"@
    } else {
        "reacted to"@
    }) + " message #"@ + number::dec_int(r.message_id as int) + " in "@ + channels::shown_name(
        s,
        (r.chat.id, None),
    ) + ": "@ + tg::reactions_text(r.new_reaction@) + " (was: "@ + tg::reactions_text(r.old_reaction@) + ")\n"@
}

/// How an event is shown.
pub open spec fn event_text(s: Seq<(Key, channels::ChannelView)>, e: Event) -> Seq<char> {
    match e.kind {
        EventKind::Message { msg, edited, attachments } => message_text(s, msg, edited, attachments@),
        EventKind::Reaction(r) => reaction_text(s, r),
    }
}

fn show_attachments(list: &Vec<Attachment>) -> (r: String)
    ensures
        r@ == attachments_text(list@),
{
    let mut out = String::new();
    let mut i: usize = 0;
    proof {
        reveal_strlit("");
        assert(out@ =~= attachments_text(list@.take(0)));
    }
    while i < list.len()
        invariant
            i <= list@.len(),
            out@ == attachments_text(list@.take(i as int)),
        decreases list@.len() - i,
    {
        let a = &list[i];
        let mut line = "[attachment: ".to_owned();
        if a.is_image {
            line.append("image");
        } else {
            line.append("file");
        }
        line.append(" saved to ");
        line.append(a.path.as_str());
        line.append(" (");
        let size = dec_unsigned(a.size as u128);
        line.append(size.as_str());
        line.append(" bytes)]\n");
        proof {
            assert(list@.take(i + 1).drop_last() =~= list@.take(i as int));
            assert(list@.take(i + 1).last() == *a);
        }
        out.append(line.as_str());
        i += 1;
    }
    proof {
        assert(list@.take(i as int) =~= list@);
    }
    out
}

/// How a message is shown.
pub fn describe_message(m: &TgMessage, edited: bool, attachments: &Vec<Attachment>, registry: &Channels) -> (r: String)
    requires
        registry.wf(),
    ensures
        r@ == message_text(registry@.entries, *m, edited, attachments@),
{
    let mut out = "--- [".to_owned();
    let time = timestamp(m.date);
    out.append(time.as_str());
    out.append("] ");
    let author = match &m.from {
        Some(u) => format_user(u),
        None => "service".to_owned(),
    };
    out.append(author.as_str());
    out.append(" in ");
    let channel = registry.name_of((m.chat.id, m.message_thread_id));
    out.append(channel.as_str());
    out.append(", message #");
    let id = dec_signed(m.message_id);
    out.append(id.as_str());
    if edited {
        out.append(" (edited)");
    } else {
        out.append("");
    }
    let note = match &m.reply_to_message {
        Some(r) => {
            let mut note = ", reply to #".to_owned();
            let to = dec_signed(r.message_id);
            note.append(to.as_str());
            note
        },
        None => "".to_owned(),
    };
    out.append(note.as_str());
    out.append("\n");
    match m.text_or_caption() {
        Some(body) => out.append(body),
        None => out.append("(no text)"),
    }
    out.append("\n");
    let files = show_attachments(attachments);
    out.append(files.as_str());
    out
}

/// How a reaction is shown.
pub fn describe_reaction(r: &MessageReaction, registry: &Channels) -> (s: String)
    requires
        registry.wf(),
    ensures
        s@ == reaction_text(registry@.entries, *r),
{
    let mut out = "--- [".to_owned();
    let time = timestamp(r.date);
    out.append(time.as_str());
    out.append("] ");
    let actor = match &r.user {
        Some(u) => format_user(u),
        None => match &r.actor_chat {
            Some(c) => c.display_name(),
            None => "someone".to_owned(),
        },
    };
    out.append(actor.as_str());
    out.append(" ");
    if r.new_reaction.len() == 0 {
        out.append("removed reaction on");
    } else {
        out.append("reacted to");
    }
    out.append(" message #");
    let id = dec_signed(r.message_id);
    out.append(id.as_str());
    out.append(" in ");
    let channel = registry.name_of((r.chat.id, None));
    out.append(channel.as_str());
    out.append(": ");
    let after = render_reactions(&r.new_reaction);
    out.append(after.as_str());
    out.append(" (was: ");
    let before = render_reactions(&r.old_reaction);
    out.append(before.as_str());
    out.append(")\n");
    out
}

/// How an event is shown.
pub fn describe_event(e: &Event, registry: &Channels) -> (r: String)
    requires
        registry.wf(),
    ensures
        r@ == event_text(registry@.entries, *e),
{
    match &e.kind {
        EventKind::Message { msg, edited, attachments } => describe_message(msg, *edited, attachments, registry),
        EventKind::Reaction(r) => describe_reaction(r, registry),
    }
}

/// The media type of an image, by its extension.
pub open spec fn mime(path: Seq<char>) -> Option<Seq<char>> {
    match paths::extension(path) {
        None => None,
        Some(ext) => {
            let lower = ext.map_values(|c: char| unicode::ascii_lower(c));
            if lower == "jpg"@ || lower == "jpeg"@ {
                Some("image/jpeg"@)
            } else if lower == "png"@ {
                Some("image/png"@)
            } else if lower == "webp"@ {
                Some("image/webp"@)
            } else if lower == "gif"@ {
                Some("image/gif"@)
            } else {
                None
            }
        },
    }
}

/// The media type of an image, by its extension.
pub fn image_mime(path: &str) -> (r: Option<&'static str>)
    ensures
        tg::opt_view(r) == mime(path@),
{
    match path_extension(path) {
        None => None,
        Some(ext) => {
            let lower = to_ascii_lowercase(ext.as_str());
            let l = lower.as_str();
            if str_eq(l, "jpg") || str_eq(l, "jpeg") {
                Some("image/jpeg")
            } else if str_eq(l, "png") {
                Some("image/png")
            } else if str_eq(l, "webp") {
                Some("image/webp")
            } else if str_eq(l, "gif") {
                Some("image/gif")
            } else {
                None
            }
        },
    }
}

/// An attachment as a data URL; none for what is no image or could not be read.
pub open spec fn embedded(a: Attachment) -> Option<Seq<char>> {
    match (mime(a.path@), a.content) {
        (Some(m), Some(bytes)) => Some(tg::data_url(bytes@, m)),
        _ => None,
    }
}

/// Whether the content of an attachment can be a data URL.
pub open spec fn embeddable(a: Attachment) -> bool {
    a.content is Some ==> tg::encodable(a.content->0@.len())
}

/// Embed an attachment as a vision data URL; `None` for non-image files (they stay file-tool-only)
/// or unreadable ones.
pub fn image_data_url(attachment: &Attachment) -> (r: Option<String>)
    requires
        embeddable(*attachment),
    ensures
        text::opt_str(r) == embedded(*attachment),
{
    match image_mime(attachment.path.as_str()) {
        None => None,
        Some(m) => match &attachment.content {
            Some(bytes) => Some(Telegram::image_data_url(bytes.as_slice(), m)),
            None => None,
        },
    }
}

/// What is said of images that could not be loaded.
pub open spec fn unloaded_text(list: Seq<Attachment>) -> Seq<char>
    decreases list.len(),
{
    if list.len() == 0 {
        Seq::empty()
    } else {
        unloaded_text(list.drop_last()) + (if mime(list.last().path@) is Some && embedded(list.last()) is None {
            "[could not load image "@ + list.last().path@ + "]\n"@
        } else {
            Seq::empty()
        })
    }
}

/// The images that could be loaded, as data URLs.
pub open spec fn loaded(list: Seq<Attachment>) -> Seq<Seq<char>>
    decreases list.len(),
{
    if list.len() == 0 {
        Seq::empty()
    } else {
        match embedded(list.last()) {
            Some(url) => loaded(list.drop_last()).push(url),
            None => loaded(list.drop_last()),
        }
    }
}

/// The attachments of an event.
pub open spec fn attachments_of(e: Event) -> Seq<Attachment> {
    match e.kind {
        EventKind::Message { attachments, .. } => attachments@,
        EventKind::Reaction(_) => Seq::empty(),
    }
}

/// How events are shown, one after the other.
pub open spec fn events_text(s: Seq<(Key, channels::ChannelView)>, events: Seq<Event>) -> Seq<char>
    decreases events.len(),
{
    if events.len() == 0 {
        Seq::empty()
    } else {
        events_text(s, events.drop_last()) + event_text(s, events.last()) + "\n"@ + unloaded_text(
            attachments_of(events.last()),
        )
    }
}

/// The images of events.
pub open spec fn events_images(events: Seq<Event>) -> Seq<Seq<char>>
    decreases events.len(),
{
    if events.len() == 0 {
        Seq::empty()
    } else {
        events_images(events.drop_last()) + loaded(attachments_of(events.last()))
    }
}

/// The channels that events come from, each once, sorted.
pub open spec fn sources(s: Seq<(Key, channels::ChannelView)>, events: Seq<Event>) -> Seq<Seq<char>> {
    let named = Seq::new(
        events.len(),
        |i: int|
            (
                channels::shown_name(s, events[i].channel()),
                channels::shown_name(s, events[i].channel()),
            ),
    );
    order::dedup(order::values(order::in_order(named)))
}

/// What the model is shown of events. The header names the source channels so the agent sees at a
/// glance which channel each burst came from.
pub open spec fn wake_text(s: Seq<(Key, channels::ChannelView)>, events: Seq<Event>, asleep_secs: u64) -> Seq<char> {
    "[Telegram: "@ + number::dec(events.len()) + " new update(s) from "@ + search::join(sources(s, events), ", "@)
        + "; you were asleep for ~"@ + number::dec(asleep_secs as nat) + "s]\n\n"@ + events_text(s, events)
}

/// Whether the content of each attachment can be a data URL.
pub open spec fn all_embeddable(events: Seq<Event>) -> bool {
    forall|i: int, j: int|
        0 <= i < events.len() && 0 <= j < attachments_of(events[i]).len() ==> embeddable(
            #[trigger] attachments_of(events[i])[j],
        )
}

fn source_names(events: &Vec<Event>, registry: &Channels) -> (r: Vec<String>)
    requires
        registry.wf(),
    ensures
        text::strs(r@) == sources(registry@.entries, events@),
{
    let mut list: Vec<Keyed> = Vec::new();
    let mut i: usize = 0;
    while i < events.len()
        invariant
            registry.wf(),
            i <= events@.len(),
            list@.len() == i,
            forall|k: int|
                0 <= k < i ==> (#[trigger] list@[k]).key@ == channels::shown_name(
                    registry@.entries,
                    events@[k].channel(),
                ) && list@[k].value@ == list@[k].key@,
        decreases events@.len() - i,
    {
        let name = registry.name_of(events[i].channel_key());
        list.push(Keyed { key: name.clone(), value: name });
        i += 1;
    }
    proof {
        let s = registry@.entries;
        assert(order::keyed(list@) =~= Seq::new(
            events@.len(),
            |i: int|
                (
                    channels::shown_name(s, events@[i].channel()),
                    channels::shown_name(s, events@[i].channel()),
                ),
        ));
    }
    let sorted = sort_keyed(list);
    deduped(&sorted)
}

fn add_images(list: &Vec<Attachment>, text: &mut String, images: &mut Vec<String>)
    requires
        forall|j: int| 0 <= j < list@.len() ==> embeddable(#[trigger] list@[j]),
    ensures
        final(text)@ == old(text)@ + unloaded_text(list@),
        text::strs(final(images)@) == text::strs(old(images)@) + loaded(list@),
{
    let ghost first_text = text@;
    let ghost first_images = text::strs(images@);
    let mut i: usize = 0;
    proof {
        assert(list@.take(0) =~= Seq::<Attachment>::empty());
        assert(text@ =~= first_text + unloaded_text(list@.take(0)));
        assert(text::strs(images@) =~= first_images + loaded(list@.take(0)));
    }
    while i < list.len()
        invariant
            i <= list@.len(),
            forall|j: int| 0 <= j < list@.len() ==> embeddable(#[trigger] list@[j]),
            text@ == first_text + unloaded_text(list@.take(i as int)),
            text::strs(images@) == first_images + loaded(list@.take(i as int)),
        decreases list@.len() - i,
    {
        let a = &list[i];
        let ghost t = list@.take(i + 1);
        let ghost before_text = text@;
        let ghost before_images = text::strs(images@);
        proof {
            assert(t.drop_last() =~= list@.take(i as int));
            assert(t.last() == *a);
        }
        if image_mime(a.path.as_str()).is_some() {
            match image_data_url(a) {
                Some(url) => {
                    let ghost u = url@;
                    images.push(url);
                    proof {
                        assert(text::strs(images@) =~= before_images.push(u));
                    }
                },
                None => {
                    let mut line = "[could not load image ".to_owned();
                    line.append(a.path.as_str());
                    line.append("]\n");
                    text.append(line.as_str());
                },
            }
        }
        proof {
            assert(text@ =~= first_text + unloaded_text(t));
            assert(text::strs(images@) =~= first_images + loaded(t));
        }
        i += 1;
    }
    proof {
        assert(list@.take(i as int) =~= list@);
    }
}

/// Render drained events as one user message: a single text block plus the downloaded images as
/// vision blocks. `None` when nothing arrived.
pub fn format_events(events: &Vec<Event>, asleep_secs: u64, registry: &Channels) -> (r: (Option<String>, Vec<String>))
    requires
        registry.wf(),
        all_embeddable(events@),
    ensures
        text::opt_str(r.0) == (if events@.len() == 0 {
            None
        } else {
            Some(wake_text(registry@.entries, events@, asleep_secs))
        }),
        text::strs(r.1@) == events_images(events@),
{
    let mut images: Vec<String> = Vec::new();
    proof {
        assert(text::strs(images@) =~= Seq::<Seq<char>>::empty());
    }
    if events.len() == 0 {
        return (None, images);
    }
    let ghost s = registry@.entries;
    let mut text = "[Telegram: ".to_owned();
    let count = dec_unsigned(events.len() as u128);
    text.append(count.as_str());
    text.append(" new update(s) from ");
    let names = source_names(events, registry);
    let from = joined(&names, ", ");
    text.append(from.as_str());
    text.append("; you were asleep for ~");
    let secs = dec_unsigned(asleep_secs as u128);
    text.append(secs.as_str());
    text.append("s]\n\n");
    let ghost header = text@;
    let mut i: usize = 0;
    proof {
        assert(events@.take(0) =~= Seq::<Event>::empty());
        assert(text@ =~= header + events_text(s, events@.take(0)));
        assert(text::strs(images@) =~= events_images(events@.take(0)));
    }
    while i < events.len()
        invariant
            registry.wf(),
            s == registry@.entries,
            all_embeddable(events@),
            i <= events@.len(),
            text@ == header + events_text(s, events@.take(i as int)),
            text::strs(images@) == events_images(events@.take(i as int)),
        decreases events@.len() - i,
    {
        let e = &events[i];
        let ghost t = events@.take(i + 1);
        proof {
            assert(t.drop_last() =~= events@.take(i as int));
            assert(t.last() == *e);
            assert forall|j: int| 0 <= j < attachments_of(*e).len() implies embeddable(
                #[trigger] attachments_of(*e)[j],
            ) by {
                assert(embeddable(attachments_of(events@[i as int])[j]));
            }
        }
        let shown = describe_event(e, registry);
        text.append(shown.as_str());
        text.append("\n");
        if let EventKind::Message { attachments, .. } = &e.kind {
            add_images(attachments, &mut text, &mut images);
        }
        proof {
            assert(text@ =~= header + events_text(s, t));
            assert(text::strs(images@) =~= events_images(t));
        }
        i += 1;
    }
    proof {
        assert(events@.take(i as int) =~= events@);
    }
    (Some(text), images)
}

// ---------------------------------------------------------------------------------------------
// The agent
// ---------------------------------------------------------------------------------------------

/// The agent: its configuration, the services that it talks to, and what it knows.
pub struct Agent {
    pub cfg: Config,
    pub llm: Llm,
    pub tg: Telegram,
    pub watch: WatchList,
    pub channels: Channels,
    pub choice: ModelChoice,
    pub turn: Turn,
}

/// The answer to a `/model` command.
pub struct CommandReply {
    /// Where the command came from.
    pub key: Key,
    pub text: String,
    /// The request that sends the answer.
    pub request: Request,
    /// Whether the choice has changed and has to be persisted.
    pub save: bool,
}

/// The settings that turns go by under a configuration.
pub open spec fn follows(settings: Settings, cfg: Config) -> bool {
    &&& settings.system_prompt@ == (match cfg.agent.system_prompt {
        Some(p) => p@,
        None => Seq::empty(),
    })
    &&& settings.preserve_thinking == cfg.llm.preserve_thinking
    &&& settings.compaction_threshold_tokens == cfg.llm.compaction_threshold_tokens
    &&& settings.compaction_retain_tokens == cfg.llm.compaction_retain_tokens
}

fn settings_of(cfg: &Config) -> (r: Settings)
    ensures
        follows(r, *cfg),
{
    let system_prompt = match &cfg.agent.system_prompt {
        Some(p) => p.clone(),
        None => String::new(),
    };
    proof {
        reveal_strlit("");
        if cfg.agent.system_prompt is None {
            assert(system_prompt@ =~= Seq::<char>::empty());
        }
    }
    Settings {
        system_prompt,
        preserve_thinking: cfg.llm.preserve_thinking,
        compaction_threshold_tokens: cfg.llm.compaction_threshold_tokens,
        compaction_retain_tokens: cfg.llm.compaction_retain_tokens,
    }
}

/// The message that wakes the model: what arrived, else a tick where there are to be ticks.
pub open spec fn wake(
    s: Seq<(Key, channels::ChannelView)>,
    events: Seq<Event>,
    asleep_secs: u64,
    heartbeat: bool,
) -> Option<MessageView> {
    if events.len() > 0 {
        Some(
            MessageView {
                images: events_images(events),
                ..session::plain(Role::User, wake_text(s, events, asleep_secs))
            },
        )
    } else if heartbeat {
        Some(session::plain(Role::User, HEARTBEAT@))
    } else {
        None
    }
}

/// What a message that may be missing holds.
pub open spec fn opt_message(m: Option<Message>) -> Option<MessageView> {
    match m {
        Some(m) => Some(m@),
        None => None,
    }
}

fn opt_str_ref<'a>(o: &'a Option<String>) -> (r: Option<&'a str>)
    ensures
        tg::opt_view(r) == text::opt_str(*o),
{
    match o {
        Some(s) => Some(s.as_str()),
        None => None,
    }
}

impl Agent {
    /// Whether the registry is well-formed and the turn in course.
    pub open spec fn wf(self) -> bool {
        self.channels.wf() && turn::in_course(self.turn@)
    }

    /// An agent at rest, with the channel list frozen into the session head.
    pub fn new(
        cfg: Config,
        llm: Llm,
        tg: Telegram,
        session: Session,
        watch: WatchList,
        channels: Channels,
        persisted: Option<ModelChoice>,
    ) -> (r: Self)
        requires
            channels.wf(),
        ensures
            r.wf(),
            r.cfg == cfg,
            r.llm == llm,
            r.tg == tg,
            r.watch == watch,
            r.channels == channels,
            r.choice@ == (match persisted {
                Some(p) => p@,
                None => ModelChoiceView {
                    model: cfg.llm.model@,
                    effort: text::opt_str(cfg.llm.reasoning_effort),
                },
            }),
            follows(r.turn@.settings, cfg),
            r.turn@ == (TurnView {
                settings: r.turn@.settings,
                surface: session@.surface,
                head: Some(turn::channels_head(channels::channel_list(channels@.entries))),
                prompt_anchor: None,
                phase: turn::PhaseView::Idle,
            }),
    {
        let choice = ModelChoice::load(persisted, cfg.llm.model.as_str(), &cfg.llm.reasoning_effort);
        let mut turn = Turn::new(settings_of(&cfg), session);
        let list = channels.list();
        turn.seed_channels(list.as_str());
        Agent { cfg, llm, tg, watch, channels, choice, turn }
    }

    /// How replies are to be made.
    pub fn chat_options(&self) -> (r: ChatOptions<'_>)
        ensures
            r.model@ == self.choice.model@,
            r.max_tokens == self.cfg.llm.max_output_tokens,
            tg::opt_view(r.temperature) == text::opt_str(self.cfg.llm.temperature),
            tg::opt_view(r.effort) == text::opt_str(self.choice.effort),
            r.preserve_thinking == self.cfg.llm.preserve_thinking,
    {
        ChatOptions {
            model: self.choice.model.as_str(),
            max_tokens: self.cfg.llm.max_output_tokens,
            temperature: opt_str_ref(&self.cfg.llm.temperature),
            effort: opt_str_ref(&self.choice.effort),
            preserve_thinking: self.cfg.llm.preserve_thinking,
        }
    }

    /// The tools, all of them, including Telegram's.
    pub fn tools(&self) -> (r: Tools<'_>)
        ensures
            r.tg == Some(&self.tg),
            r.channels == &self.channels,
            r.workspace@ == self.cfg.agent.workspace_dir@,
    {
        Tools {
            tg: Some(&self.tg),
            channels: &self.channels,
            workspace: self.cfg.agent.workspace_dir.as_str(),
        }
    }

    /// Carry out a `/model` command. The answer goes to where the command came from, as a reply to
    /// it. Nothing happens for an event that is no message.
    pub fn handle_model_command(&mut self, event: &Event) -> (r: Option<CommandReply>)
        requires
            old(self).wf(),
        ensures
            final(self).wf(),
            final(self).cfg == old(self).cfg,
            final(self).llm == old(self).llm,
            final(self).tg == old(self).tg,
            final(self).watch == old(self).watch,
            final(self).channels == old(self).channels,
            final(self).turn == old(self).turn,
            match event.kind {
                EventKind::Reaction(_) => r is None && final(self).choice == old(self).choice,
                EventKind::Message { msg, .. } => {
                    let c = command(
                        match msg.text {
                            Some(t) => t@,
                            None => Seq::empty(),
                        },
                    );
                    &&& final(self).choice@ == chosen(old(self).choice@, c)
                    &&& r is Some
                    &&& r->0.key == channels::key_of(msg)
                    &&& r->0.text@ == command_answer(old(self).choice@, c)
                    &&& r->0.save == sets(c)
                    &&& r->0.request.calls(
                        old(self).tg,
                        "sendMessage"@,
                        tg::send_body(
                            msg.chat.id,
                            msg.message_thread_id,
                            r->0.text@,
                            None,
                            Some(msg.message_id),
                        ),
                    )
                },
            },
    {
        match &event.kind {
            EventKind::Reaction(_) => None,
            EventKind::Message { msg, .. } => {
                let body = match &msg.text {
                    Some(t) => t.as_str(),
                    None => "",
                };
                proof {
                    reveal_strlit("");
                    if msg.text is None {
                        assert(body@ =~= Seq::<char>::empty());
                    }
                }
                let (text, save) = match parse_model_command(body) {
                    Ok(ModelCommand::Status) => (self.choice.describe(), false),
                    Ok(ModelCommand::Change { model, effort }) => {
                        if let Some(model) = model {
                            self.choice.model = model;
                        }
                        if let Some(effort) = effort {
                            self.choice.effort = Some(effort);
                        }
                        (self.choice.describe(), true)
                    },
                    Err(e) => (e, false),
                };
                let request = self.tg.send_message(
                    msg.chat.id,
                    msg.message_thread_id,
                    text.as_str(),
                    None,
                    Some(msg.message_id),
                );
                Some(CommandReply { key: (msg.chat.id, msg.message_thread_id), text, request, save })
            },
        }
    }

    /// Take an update in.
    pub fn collect(&mut self, update: Update, attachments: Vec<Attachment>) -> (r: Collected)
        requires
            old(self).wf(),
        ensures
            final(self).wf(),
            final(self).cfg == old(self).cfg,
            final(self).llm == old(self).llm,
            final(self).tg == old(self).tg,
            final(self).watch == old(self).watch,
            final(self).choice == old(self).choice,
            final(self).turn == old(self).turn,
            if tg::admitted(update, old(self).watch) {
                &&& r.event == Some(event_of(update, attachments))
                &&& final(self).channels@ == registry_after(old(self).channels@, update)
                &&& r.recorded is Some
                &&& channels::recorded_view(r.recorded->0) == effect_of(old(self).channels@, update)
            } else {
                &&& r.event is None
                &&& final(self).channels@ == old(self).channels@
                &&& r.recorded is None
            },
    {
        collect(&mut self.channels, &self.watch, update, attachments)
    }

    /// The message that wakes the model, where there is something to wake it for.
    pub fn wake_message(&self, events: &Vec<Event>, asleep_secs: u64) -> (r: Option<Message>)
        requires
            self.wf(),
            all_embeddable(events@),
        ensures
            opt_message(r) == wake(self.channels@.entries, events@, asleep_secs, self.cfg.agent.heartbeat),
    {
        let (text, images) = format_events(events, asleep_secs, &self.channels);
        match text {
            Some(text) => Some(Message::user_with_images(text.as_str(), images)),
            None => if self.cfg.agent.heartbeat {
                Some(Message::user(HEARTBEAT))
            } else {
                None
            },
        }
    }
}

/// Whatever wakes the model is a user message that calls nothing.
pub proof fn law_wakes_are_user_messages(
    s: Seq<(Key, channels::ChannelView)>,
    events: Seq<Event>,
    asleep_secs: u64,
    heartbeat: bool,
)
    ensures
        wake(s, events, asleep_secs, heartbeat) matches Some(m) ==> m.role == Role::User && session::calls_of(m).len()
            == 0,
        wake(s, events, asleep_secs, heartbeat) is None <==> events.len() == 0 && !heartbeat,
{
}

// ---------------------------------------------------------------------------------------------
// Laws
// ---------------------------------------------------------------------------------------------

proof fn lemma_before_len(a: Seq<char>, c: char, b: Seq<char>)
    requires
        !a.contains(c),
        b.len() == 0 || b[0] == c,
    ensures
        before_len(a + b, c) == a.len(),
    decreases a.len(),
{
    if a.len() == 0 {
        assert(a + b =~= b);
    } else {
        let rest = a.drop_first();
        assert(a.contains(a[0]));
        assert forall|i: int| 0 <= i < rest.len() implies rest[i] != c by {
            assert(a.contains(a[i + 1]));
        }
        assert((a + b).drop_first() =~= rest + b);
        lemma_before_len(rest, c, b);
    }
}

/// What stands before the first of a character is all that comes before it, and everything where it
/// does not occur.
pub proof fn law_before_the_first(a: Seq<char>, c: char, b: Seq<char>)
    requires
        !a.contains(c),
    ensures
        before(a + seq![c] + b, c) == a,
        before(a, c) == a,
{
    let tail = seq![c] + b;
    let none = Seq::<char>::empty();
    lemma_before_len(a, c, tail);
    lemma_before_len(a, c, none);
    assert(a + tail =~= a + seq![c] + b);
    assert(a + none =~= a);
    assert((a + tail).take(a.len() as int) =~= a);
    assert(a.take(a.len() as int) =~= a);
}

/// The command is `/model`, also where it is addressed to a bot, and only as the first word.
pub proof fn law_model_commands_are_known(text: Seq<char>, bot: Seq<char>)
    ensures
        text::words(text).len() > 0 && text::words(text)[0] == "/model"@ ==> is_command(text),
        text::words(text).len() > 0 && text::words(text)[0] == "/model@"@ + bot ==> is_command(text),
        text::words(text).len() == 0 ==> !is_command(text),
        text::words(text).len() > 0 && !text::words(text)[0].contains('@') && text::words(text)[0] != "/model"@
            ==> !is_command(text),
        !is_command(text) ==> command(text) == Err::<ModelCommandView, Seq<char>>("не команда /model"@),
{
    reveal_strlit("/model");
    reveal_strlit("/model@");
    let name = "/model"@;
    assert(!name.contains('@'));
    law_before_the_first(name, '@', bot);
    assert("/model@"@ + bot =~= name + seq!['@'] + bot);
    if text::words(text).len() > 0 && !text::words(text)[0].contains('@') {
        law_before_the_first(text::words(text)[0], '@', bot);
    }
}

/// Without an argument the command asks for the model. With one it sets the model, the effort behind a
/// colon, or both, to what stands there; a name that no model can have and an effort that there is not
/// are refused by name, and so is a second argument.
pub proof fn law_model_commands_are_read(text: Seq<char>, model: Seq<char>, effort: Seq<char>)
    requires
        is_command(text),
        !model.contains(':'),
    ensures
        ({
            let words = text::words(text);
            let known = seq!["max"@, "xhigh"@, "high"@, "medium"@, "low"@, "minimal"@, "none"@].contains(effort);
            let fine = 1 <= text::size(model) <= 64 && forall|i: int|
                0 <= i < model.len() ==> {
                    let c = #[trigger] model[i];
                    'a' <= c <= 'z' || 'A' <= c <= 'Z' || '0' <= c <= '9' || c == '.' || c == '-' || c == '_'
                };
            &&& words.len() == 1 ==> command(text) == Ok::<ModelCommandView, Seq<char>>(ModelCommandView::Status)
            &&& words.len() > 2 ==> command(text) == Err::<ModelCommandView, Seq<char>>(MODEL_USAGE@)
            &&& words.len() == 2 && words[1] == model && fine ==> command(text) == Ok::<ModelCommandView, Seq<char>>(
                ModelCommandView::Change(Some(model), None),
            )
            &&& words.len() == 2 && words[1] == model && !fine ==> command(text) == Err::<
                ModelCommandView,
                Seq<char>,
            >("Неверное имя модели «"@ + model + "»."@)
            &&& words.len() == 2 && words[1] == model.push(':') + effort && fine && known ==> command(text) == Ok::<
                ModelCommandView,
                Seq<char>,
            >(ModelCommandView::Change(Some(model), Some(effort)))
            &&& words.len() == 2 && words[1] == seq![':'] + effort && known ==> command(text) == Ok::<
                ModelCommandView,
                Seq<char>,
            >(ModelCommandView::Change(None, Some(effort)))
            &&& words.len() == 2 && words[1] == model.push(':') + effort && fine && !known ==> command(text) == Err::<
                ModelCommandView,
                Seq<char>,
            >("Неизвестный effort «"@ + effort + "». Допустимо: "@ + EFFORT_LIST@ + "."@)
            &&& words.len() == 2 && words[1] == seq![':'] + effort && !known ==> command(text) is Err
            &&& words.len() == 2 && words[1] == model.push(':') + effort && model.len() > 0 && !fine ==> command(text)
                is Err
        }),
{
    let words = text::words(text);
    let list = seq!["max"@, "xhigh"@, "high"@, "medium"@, "low"@, "minimal"@, "none"@];
    assert(list[0] == "max"@ && list[1] == "xhigh"@ && list[2] == "high"@ && list[3] == "medium"@ && list[4] == "low"@
        && list[5] == "minimal"@ && list[6] == "none"@);
    assert(is_effort(effort) <==> list.contains(effort));
    let fine = 1 <= text::size(model) <= 64 && forall|i: int|
        0 <= i < model.len() ==> {
            let c = #[trigger] model[i];
            'a' <= c <= 'z' || 'A' <= c <= 'Z' || '0' <= c <= '9' || c == '.' || c == '-' || c == '_'
        };
    assert(fine <==> valid_name(model));
    let none = Seq::<char>::empty();
    lemma_before_len(model, ':', none);
    assert(model + none =~= model);
    let tail = seq![':'] + effort;
    lemma_before_len(model, ':', tail);
    assert(model + tail =~= model.push(':') + effort);
    assert((model + tail).take(model.len() as int) =~= model);
    assert((model + tail).skip(model.len() as int + 1) =~= effort);
    assert(!none.contains(':'));
    lemma_before_len(none, ':', tail);
    assert(none + tail =~= tail);
    assert(tail.take(0) =~= none);
    assert(tail.skip(1) =~= effort);
    if fine {
        assert(model.len() > 0) by {
            if model.len() == 0 {
                assert(text::size(model) == 0);
            }
        }
    }
}

/// What a command sets is in effect from then on, and is what is answered; what it does not set stays.
pub proof fn law_choices_take_effect(choice: ModelChoiceView, model: Seq<char>, effort: Seq<char>, why: Seq<char>)
    ensures
        chosen(choice, Ok(ModelCommandView::Change(Some(model), Some(effort)))) == (ModelChoiceView {
            model,
            effort: Some(effort),
        }),
        chosen(choice, Ok(ModelCommandView::Change(Some(model), None))) == (ModelChoiceView {
            model,
            effort: choice.effort,
        }),
        chosen(choice, Ok(ModelCommandView::Change(None, Some(effort)))) == (ModelChoiceView {
            model: choice.model,
            effort: Some(effort),
        }),
        chosen(choice, Ok(ModelCommandView::Status)) == choice,
        chosen(choice, Err(why)) == choice,
        command_answer(choice, Err(why)) == why,
        command_answer(choice, Ok(ModelCommandView::Change(Some(model), Some(effort)))) == "Модель: "@ + model
            + ", effort: "@ + effort,
        choice.effort == Some(effort) ==> command_answer(choice, Ok(ModelCommandView::Status)) == "Модель: "@
            + choice.model + ", effort: "@ + effort,
        choice.effort is None ==> command_answer(choice, Ok(ModelCommandView::Status)) == "Модель: "@ + choice.model
            + ", effort: "@ + "(по умолчанию провайдера)"@,
{
}

/// Commands and other events are parted in order: each event goes to one side, behind those that came
/// before it.
pub proof fn law_events_are_parted_in_order(events: Seq<Event>, e: Event)
    ensures
        commands(e) ==> control(events.push(e)) == control(events).push(e) && roleplay(events.push(e)) == roleplay(
            events,
        ),
        !commands(e) ==> roleplay(events.push(e)) == roleplay(events).push(e) && control(events.push(e)) == control(
            events,
        ),
        control(Seq::empty()).len() == 0,
        roleplay(Seq::empty()).len() == 0,
        e.kind is Reaction ==> !commands(e),
        e.kind matches EventKind::Message { msg, .. } ==> (msg.text matches Some(t) ==> (commands(e) <==> is_command(
            t@,
        ))),
        e.kind matches EventKind::Message { msg, .. } ==> (msg.text is None ==> !commands(e)),
    decreases events.len(),
{
    let all = events.push(e);
    if events.len() == 0 {
        assert(all.drop_first() =~= events);
        assert(control(events) =~= Seq::empty());
        assert(roleplay(events) =~= Seq::empty());
    } else {
        law_events_are_parted_in_order(events.drop_first(), e);
        assert(all.drop_first() =~= events.drop_first().push(e));
        assert(all[0] == events[0]);
        if commands(events[0]) {
            assert(seq![events[0]] + control(events.drop_first()).push(e) =~= control(events).push(e));
        } else {
            assert(seq![events[0]] + roleplay(events.drop_first()).push(e) =~= roleplay(events).push(e));
        }
    }
}

/// An update is taken in as the reaction it brings, as the message, or as the edited message, which is
/// said to be one.
pub proof fn law_updates_become_events(update: Update, attachments: Vec<Attachment>)
    ensures
        update.message_reaction matches Some(r) ==> event_of(update, attachments).kind == EventKind::Reaction(r),
        update.message_reaction is None && update.edited_message is None ==> (update.message matches Some(m)
            ==> event_of(update, attachments).kind == (EventKind::Message { msg: m, edited: false, attachments })),
        update.message_reaction is None && update.message is None ==> (update.edited_message matches Some(m)
            ==> event_of(update, attachments).kind == (EventKind::Message { msg: m, edited: true, attachments })),
{
}

proof fn lemma_attachments_add(a: Seq<Attachment>, b: Seq<Attachment>)
    ensures
        attachments_text(a + b) == attachments_text(a) + attachments_text(b),
        unloaded_text(a + b) == unloaded_text(a) + unloaded_text(b),
        loaded(a + b) == loaded(a) + loaded(b),
    decreases b.len(),
{
    if b.len() == 0 {
        assert(a + b =~= a);
        assert(attachments_text(a) + attachments_text(b) =~= attachments_text(a));
        assert(unloaded_text(a) + unloaded_text(b) =~= unloaded_text(a));
        assert(loaded(a) + loaded(b) =~= loaded(a));
    } else {
        lemma_attachments_add(a, b.drop_last());
        assert((a + b).drop_last() =~= a + b.drop_last());
        assert((a + b).last() == b.last());
        assert(attachments_text(a + b) =~= attachments_text(a) + attachments_text(b));
        assert(unloaded_text(a + b) =~= unloaded_text(a) + unloaded_text(b));
        assert(loaded(a + b) =~= loaded(a) + loaded(b));
    }
}

proof fn lemma_attachment_alone(x: Attachment)
    ensures
        attachments_text(seq![x]) == attachment_text(x),
        unloaded_text(seq![x]) == (if mime(x.path@) is Some && embedded(x) is None {
            "[could not load image "@ + x.path@ + "]\n"@
        } else {
            Seq::empty()
        }),
        loaded(seq![x]) == (match embedded(x) {
            Some(url) => seq![url],
            None => Seq::empty(),
        }),
{
    let none = Seq::<Attachment>::empty();
    assert(seq![x].drop_last() =~= none);
    assert(attachments_text(none).len() == 0 && unloaded_text(none).len() == 0 && loaded(none).len() == 0);
    assert(attachments_text(seq![x]) =~= attachment_text(x));
    assert(loaded(seq![x]) =~= (match embedded(x) {
        Some(url) => seq![url],
        None => Seq::empty(),
    }));
    assert(unloaded_text(seq![x]) =~= (if mime(x.path@) is Some && embedded(x) is None {
        "[could not load image "@ + x.path@ + "]\n"@
    } else {
        Seq::empty()
    }));
}

/// Each attachment gets a line of its own with where it was saved and how large it is, in order; each
/// image that could be read is shown, in order, and each that could not be is named.
pub proof fn law_attachments_are_listed(a: Seq<Attachment>, x: Attachment, bytes: Vec<u8>)
    ensures
        attachments_text(Seq::empty()).len() == 0,
        x.is_image ==> attachments_text(a.push(x)) == attachments_text(a) + ("[attachment: image saved to "@ + x.path@
            + " ("@ + number::dec(x.size as nat) + " bytes)]\n"@),
        !x.is_image ==> attachments_text(a.push(x)) == attachments_text(a) + ("[attachment: file saved to "@ + x.path@
            + " ("@ + number::dec(x.size as nat) + " bytes)]\n"@),
        mime(x.path@) matches Some(kind) ==> x.content == Some(bytes) ==> loaded(a.push(x)) == loaded(a).push(
            tg::data_url(bytes@, kind),
        ) && unloaded_text(a.push(x)) == unloaded_text(a),
        mime(x.path@) is Some && x.content is None ==> loaded(a.push(x)) == loaded(a) && unloaded_text(a.push(x))
            == unloaded_text(a) + ("[could not load image "@ + x.path@ + "]\n"@),
        mime(x.path@) is None ==> loaded(a.push(x)) == loaded(a) && unloaded_text(a.push(x)) == unloaded_text(a),
{
    reveal_strlit("[attachment: ");
    reveal_strlit("image");
    reveal_strlit("file");
    reveal_strlit(" saved to ");
    reveal_strlit("[attachment: image saved to ");
    reveal_strlit("[attachment: file saved to ");
    lemma_attachments_add(a, seq![x]);
    lemma_attachment_alone(x);
    assert(a + seq![x] =~= a.push(x));
    let tail = x.path@ + " ("@ + number::dec(x.size as nat) + " bytes)]\n"@;
    assert("[attachment: "@ + "image"@ + " saved to "@ =~= "[attachment: image saved to "@);
    assert("[attachment: "@ + "file"@ + " saved to "@ =~= "[attachment: file saved to "@);
    assert(loaded(a) + Seq::<Seq<char>>::empty() =~= loaded(a));
    assert(unloaded_text(a) + Seq::<char>::empty() =~= unloaded_text(a));
    if let Some(kind) = mime(x.path@) {
        if x.content == Some(bytes) {
            assert(loaded(a) + seq![tg::data_url(bytes@, kind)] =~= loaded(a).push(tg::data_url(bytes@, kind)));
        }
    }
}

/// Images are told by what stands behind the last dot of the file name, in capitals or not: JPEG, PNG,
/// WebP and GIF, and no others.
pub proof fn law_images_are_told_by_extension(dir: Seq<char>, stem: Seq<char>, ext: Seq<char>)
    requires
        stem.len() > 0,
        !stem.contains('/'),
        !ext.contains('/'),
        !ext.contains('.'),
        ext.len() > 0,
    ensures
        ({
            let path = dir.push('/') + (stem.push('.') + ext);
            let lower = ext.map_values(|c: char| unicode::ascii_lower(c));
            &&& lower == "jpg"@ || lower == "jpeg"@ ==> mime(path) == Some("image/jpeg"@)
            &&& lower == "png"@ ==> mime(path) == Some("image/png"@)
            &&& lower == "webp"@ ==> mime(path) == Some("image/webp"@)
            &&& lower == "gif"@ ==> mime(path) == Some("image/gif"@)
            &&& lower != "jpg"@ && lower != "jpeg"@ && lower != "png"@ && lower != "webp"@ && lower != "gif"@ ==> mime(
                path,
            ) is None
        }),
{
    reveal_strlit("jpg");
    reveal_strlit("jpeg");
    reveal_strlit("png");
    reveal_strlit("webp");
    reveal_strlit("gif");
    let name = stem.push('.') + ext;
    assert("jpg"@[0] == 'j' && "jpeg"@[0] == 'j' && "png"@[0] == 'p' && "webp"@[0] == 'w' && "gif"@[0] == 'g');
    assert("jpg"@.len() == 3 && "jpeg"@.len() == 4 && "png"@.len() == 3 && "webp"@.len() == 4 && "gif"@.len() == 3);
    assert forall|i: int| 0 <= i < name.len() implies name[i] != '/' by {
        if i < stem.len() {
            assert(stem.contains(stem[i]));
        } else if i > stem.len() {
            assert(ext.contains(ext[i - stem.len() - 1]));
        }
    }
    assert(name.len() >= 3);
    paths::law_file_name_is_the_last_part(dir, name);
    paths::law_extension_is_behind_the_last_dot(stem, ext);
}

/// A message is shown by when it was written, by whom and where, by its number, by whether it was
/// edited and what it answers, and by its text, verbatim and on lines of its own, with its attachments
/// below.
pub proof fn law_messages_are_shown(
    s: Seq<(Key, channels::ChannelView)>,
    m: TgMessage,
    edited: bool,
    attachments: Seq<Attachment>,
)
    ensures
        ({
            let who = match m.from {
                Some(u) => match u.username {
                    Some(handle) => u.name() + " (@"@ + handle@ + ")"@,
                    None => u.name(),
                },
                None => "service"@,
            };
            let head = "--- ["@ + tg::stamp(m.date) + "] "@ + who + " in "@ + channels::shown_name(
                s,
                (m.chat.id, m.message_thread_id),
            ) + ", message #"@ + number::dec_int(m.message_id as int);
            let marked = if edited {
                head + " (edited)"@
            } else {
                head
            };
            let linked = match m.reply_to_message {
                Some(r) => marked + ", reply to #"@ + number::dec_int(r.message_id as int),
                None => marked,
            };
            let said = if m.text is Some {
                m.text->0@
            } else if m.caption is Some {
                m.caption->0@
            } else {
                "(no text)"@
            };
            message_text(s, m, edited, attachments) == linked + "\n"@ + said + "\n"@ + attachments_text(attachments)
        }),
{
    reveal_strlit("");
    let head = "--- ["@ + tg::stamp(m.date) + "] "@ + (match m.from {
        Some(u) => user_text(u),
        None => "service"@,
    }) + " in "@ + channels::shown_name(s, channels::key_of(m)) + ", message #"@ + number::dec_int(
        m.message_id as int,
    );
    let marked = if edited {
        head + " (edited)"@
    } else {
        head
    };
    assert(head + ""@ =~= head);
    assert(marked + ""@ =~= marked);
    if let Some(r) = m.reply_to_message {
        assert(marked + (", reply to #"@ + number::dec_int(r.message_id as int)) =~= marked + ", reply to #"@
            + number::dec_int(r.message_id as int));
    }
}

/// A reaction is shown by when, by whom and on which message it was set or removed, and by what it is
/// now and what it was before.
pub proof fn law_reactions_are_shown(s: Seq<(Key, channels::ChannelView)>, r: MessageReaction)
    ensures
        ({
            let who = match r.user {
                Some(u) => match u.username {
                    Some(handle) => u.name() + " (@"@ + handle@ + ")"@,
                    None => u.name(),
                },
                None => match r.actor_chat {
                    Some(c) => c.name(),
                    None => "someone"@,
                },
            };
            let head = "--- ["@ + tg::stamp(r.date) + "] "@ + who + " "@;
            let tail = " message #"@ + number::dec_int(r.message_id as int) + " in "@ + channels::shown_name(
                s,
                (r.chat.id, None),
            ) + ": "@ + tg::reactions_text(r.new_reaction@) + " (was: "@ + tg::reactions_text(r.old_reaction@)
                + ")\n"@;
            &&& r.new_reaction@.len() > 0 ==> reaction_text(s, r) == head + "reacted to"@ + tail
            &&& r.new_reaction@.len() == 0 ==> reaction_text(s, r) == head + "removed reaction on"@ + tail
        }),
{
    let head = "--- ["@ + tg::stamp(r.date) + "] "@ + (match r.user {
        Some(u) => user_text(u),
        None => match r.actor_chat {
            Some(c) => c.name(),
            None => "someone"@,
        },
    }) + " "@;
    let verb = if r.new_reaction@.len() == 0 {
        "removed reaction on"@
    } else {
        "reacted to"@
    };
    let (id, place) = (number::dec_int(r.message_id as int), channels::shown_name(s, (r.chat.id, None)));
    let (new, was) = (tg::reactions_text(r.new_reaction@), tg::reactions_text(r.old_reaction@));
    let tail = " message #"@ + id + " in "@ + place + ": "@ + new + " (was: "@ + was + ")\n"@;
    assert(head + verb + " message #"@ + id + " in "@ + place + ": "@ + new + " (was: "@ + was + ")\n"@ =~= head + verb
        + tail);
}

proof fn lemma_before_or_equal(a: Seq<char>, b: Seq<char>)
    ensures
        !order::before(b, a) && a != b ==> order::before(a, b),
{
    order::lemma_before_strict(a, b);
}

proof fn lemma_dedup_ascends(v: Seq<Seq<char>>)
    requires
        forall|i: int, j: int| 0 <= i <= j < v.len() ==> !order::before(#[trigger] v[j], #[trigger] v[i]),
    ensures
        forall|i: int, j: int|
            0 <= i < j < order::dedup(v).len() ==> order::before(
                #[trigger] order::dedup(v)[i],
                #[trigger] order::dedup(v)[j],
            ),
    decreases v.len(),
{
    let d = order::dedup(v);
    if v.len() >= 2 {
        let front = v.drop_last();
        let e = order::dedup(front);
        assert forall|i: int, j: int| 0 <= i <= j < front.len() implies !order::before(
            #[trigger] front[j],
            #[trigger] front[i],
        ) by {
            assert(!order::before(v[j], v[i]));
        }
        lemma_dedup_ascends(front);
        order::law_dedup_keeps_each(front, Seq::empty());
        if v.last() != v[v.len() - 2] {
            lemma_before_or_equal(v[v.len() - 2], v.last());
            assert(!order::before(v[v.len() - 1], v[v.len() - 2]));
            assert(e.last() == front.last());
            assert(order::before(e.last(), v.last()));
            assert forall|i: int, j: int| 0 <= i < j < d.len() implies order::before(#[trigger] d[i], #[trigger] d[j]) by {
                if j < e.len() {
                    assert(order::before(e[i], e[j]));
                } else if i < e.len() - 1 {
                    assert(order::before(e[i], e[e.len() - 1]));
                    order::lemma_before_strict(e[i], e.last());
                    order::lemma_before_strict(e.last(), v.last());
                    order::lemma_before_transitive(e[i], e.last(), v.last());
                    order::lemma_before_strict(e[i], v.last());
                }
            }
        }
    }
}

/// The sources of events are named once each, in order: every channel that an event came from, and no
/// other.
pub proof fn law_sources_are_named_once(s: Seq<(Key, channels::ChannelView)>, events: Seq<Event>, x: Seq<char>)
    ensures
        forall|i: int|
            0 <= i < events.len() ==> sources(s, events).contains(
                channels::shown_name(s, (#[trigger] events[i]).channel()),
            ),
        sources(s, events).contains(x) ==> exists|i: int|
            0 <= i < events.len() && channels::shown_name(s, (#[trigger] events[i]).channel()) == x,
        forall|i: int, j: int|
            0 <= i < j < sources(s, events).len() ==> order::before(
                #[trigger] sources(s, events)[i],
                #[trigger] sources(s, events)[j],
            ),
{
    broadcast use vstd::seq_lib::group_to_multiset_ensures;

    let named = Seq::new(
        events.len(),
        |i: int| (channels::shown_name(s, events[i].channel()), channels::shown_name(s, events[i].channel())),
    );
    let sorted = order::in_order(named);
    let v = order::values(sorted);
    order::law_sorting(named);
    assert forall|k: int| 0 <= k < sorted.len() implies named.contains(#[trigger] sorted[k]) by {
        assert(sorted.contains(sorted[k]));
        assert(sorted.to_multiset().count(sorted[k]) > 0);
    }
    assert forall|i: int, j: int| 0 <= i <= j < v.len() implies !order::before(#[trigger] v[j], #[trigger] v[i]) by {
        assert(named.contains(sorted[i]) && named.contains(sorted[j]));
        assert(sorted[i].0 == sorted[i].1 && sorted[j].0 == sorted[j].1);
    }
    lemma_dedup_ascends(v);
    assert forall|i: int| 0 <= i < events.len() implies order::dedup(v).contains(
        channels::shown_name(s, (#[trigger] events[i]).channel()),
    ) by {
        let name = channels::shown_name(s, events[i].channel());
        assert(named[i] == (name, name));
        assert(named.contains((name, name)));
        assert(named.to_multiset().count((name, name)) > 0);
        assert(sorted.contains((name, name)));
        let k = choose|k: int| 0 <= k < sorted.len() && sorted[k] == (name, name);
        assert(v[k] == name);
        order::law_dedup_keeps_each(v, name);
    }
    if sources(s, events).contains(x) {
        order::law_dedup_keeps_each(v, x);
        let k = choose|k: int| 0 <= k < v.len() && v[k] == x;
        assert(named.contains(sorted[k]));
        let i = choose|i: int| 0 <= i < named.len() && named[i] == sorted[k];
        assert(channels::shown_name(s, events[i].channel()) == x);
    }
}

/// A wake says how many updates there are, where they came from and how long it has been, and then
/// shows each of them, in order, with an empty line behind it; all their images go with it. A heartbeat
/// says that it is one.
pub proof fn law_wakes_show_every_event(
    s: Seq<(Key, channels::ChannelView)>,
    events: Seq<Event>,
    e: Event,
    asleep_secs: u64,
    heartbeat: bool,
)
    ensures
        events.len() > 0 ==> (wake(s, events, asleep_secs, heartbeat) matches Some(m) && m.text == "[Telegram: "@
            + number::dec(events.len()) + " new update(s) from "@ + search::join(sources(s, events), ", "@)
            + "; you were asleep for ~"@ + number::dec(asleep_secs as nat) + "s]\n\n"@ + events_text(s, events)
            && m.images == events_images(events) && m.role == Role::User),
        events_text(s, Seq::empty()).len() == 0,
        events_text(s, events.push(e)) == events_text(s, events) + event_text(s, e) + "\n"@ + unloaded_text(
            attachments_of(e),
        ),
        events_images(events.push(e)) == events_images(events) + loaded(attachments_of(e)),
        events_images(Seq::empty()).len() == 0,
        e.kind matches EventKind::Message { msg, edited, attachments } ==> event_text(s, e) == message_text(
            s,
            msg,
            edited,
            attachments@,
        ) && attachments_of(e) == attachments@,
        e.kind matches EventKind::Reaction(r) ==> event_text(s, e) == reaction_text(s, r) && attachments_of(e).len()
            == 0,
        wake(s, Seq::empty(), asleep_secs, true) matches Some(m) && m.text == HEARTBEAT@ && m.images.len() == 0
            && m.role == Role::User,
        wake(s, Seq::empty(), asleep_secs, false) is None,
{
    assert(events.push(e).drop_last() =~= events);
}

/// A turn goes by the configuration: its prompt, whether thinking is preserved, and when and how much
/// is compacted.
pub proof fn law_turns_follow_the_configuration(settings: Settings, cfg: Config)
    requires
        follows(settings, cfg),
    ensures
        cfg.agent.system_prompt matches Some(p) ==> settings.system_prompt@ == p@,
        cfg.agent.system_prompt is None ==> settings.system_prompt@.len() == 0,
        settings.preserve_thinking == cfg.llm.preserve_thinking,
        settings.compaction_threshold_tokens == cfg.llm.compaction_threshold_tokens,
        settings.compaction_retain_tokens == cfg.llm.compaction_retain_tokens,
{
}

/// An update is recorded as what it is: a reaction as one, a message as one, and an edit as an edit.
pub proof fn law_updates_are_recorded(c: ChannelsView, update: Update)
    ensures
        registry_after(c, update).path == c.path,
        registry_after(c, update).chat_dir == c.chat_dir,
        update.message_reaction matches Some(r) ==> registry_after(c, update).entries == channels::reacted(c.entries, r)
            && effect_of(c, update) == channels::reaction_effect(c, r),
        update.message_reaction is None && update.edited_message is None ==> (update.message matches Some(m)
            ==> registry_after(c, update).entries == channels::observed(c.entries, m) && effect_of(c, update)
            == channels::message_effect(c, m, false)),
        update.message_reaction is None && update.message is None ==> (update.edited_message matches Some(m)
            ==> registry_after(c, update).entries == channels::observed(c.entries, m) && effect_of(c, update)
            == channels::message_effect(c, m, true)),
{
}

} // verus!
