//! Telegram Bot API: its objects, the requests that go to it, and the strict ingress filter.
//! Updates from users outside the allowlist never leave this module — they are dropped before
//! anything can observe them, which is the first line of defense against prompt injection.
use crate::json;
use crate::json::{Json, JsonView};
use crate::number;
use crate::number::dec_signed;
use crate::paths;
use crate::paths::{last_segment, path_join};
use crate::search;
use crate::search::{contains, joined, starts_with};
use crate::text;
use crate::text::{str_eq, trimmed_end};
use crate::web;
use crate::web::status_text;
use vstd::prelude::*;

verus! {

broadcast use vstd::seq::group_seq_axioms;

/// Seconds that the Bot API may hold a poll for updates open.
pub const LONG_POLL_SECS: u64 = 50;

/// Size in bytes beyond which an attachment is not downloaded.
pub const MAX_DOWNLOAD_BYTES: i64 = 20_971_520;

/// A change that the Bot API reports.
#[derive(Debug)]
pub struct Update {
    pub update_id: i64,
    pub message: Option<TgMessage>,
    pub edited_message: Option<TgMessage>,
    pub message_reaction: Option<MessageReaction>,
}

/// A change of somebody's reactions to a message.
#[derive(Debug)]
pub struct MessageReaction {
    pub chat: TgChat,
    pub message_id: i64,
    /// The reacting user; absent for anonymous (admin) reactions, where `actor_chat` identifies
    /// the chat acting instead.
    pub user: Option<TgUser>,
    pub actor_chat: Option<TgChat>,
    pub date: i64,
    pub old_reaction: Vec<ReactionType>,
    pub new_reaction: Vec<ReactionType>,
}

/// One reaction: an emoji, or another kind that carries none.
#[derive(Debug)]
pub struct ReactionType {
    pub kind: String,
    pub emoji: Option<String>,
}

/// A message.
#[derive(Debug)]
pub struct TgMessage {
    pub message_id: i64,
    pub from: Option<TgUser>,
    pub chat: TgChat,
    pub message_thread_id: Option<i64>,
    pub date: i64,
    pub text: Option<String>,
    pub caption: Option<String>,
    pub photo: Vec<TgPhotoSize>,
    pub document: Option<TgDocument>,
    pub reply_to_message: Option<Box<TgMessage>>,
    /// Set on the service message that opens a forum topic.
    pub forum_topic_created: Option<ForumTopicCreated>,
    /// Set on the service message that changes a forum topic.
    pub forum_topic_edited: Option<ForumTopicEdited>,
}

/// The title that a forum topic is opened with.
#[derive(Debug)]
pub struct ForumTopicCreated {
    pub name: String,
}

/// The title that a forum topic is changed to, where the change is one of the title.
#[derive(Debug)]
pub struct ForumTopicEdited {
    pub name: Option<String>,
}

/// A user or a bot.
#[derive(Debug)]
pub struct TgUser {
    pub id: i64,
    pub is_bot: bool,
    pub first_name: String,
    pub last_name: String,
    pub username: Option<String>,
}

/// A chat: a conversation with one user, a group or a channel.
#[derive(Debug)]
pub struct TgChat {
    pub id: i64,
    pub kind: String,
    pub title: Option<String>,
    pub first_name: String,
    pub last_name: String,
    pub username: Option<String>,
}

/// One size of a photo.
#[derive(Debug)]
pub struct TgPhotoSize {
    pub file_id: String,
}

/// A file sent as it is.
#[derive(Debug)]
pub struct TgDocument {
    pub file_id: String,
    pub file_name: Option<String>,
}

/// Outcome of the ingress filter.
#[derive(Debug, Clone, Copy, PartialEq, Eq, Structural)]
pub enum Verdict {
    /// Never enters the system.
    Drop,
    /// Buffered for the next wake, whenever that is.
    Queue,
    /// Buffered and the agent wakes up right now.
    Wake,
}

/// Whom the agent listens to, and where it listens closely.
#[derive(Debug)]
pub struct WatchList {
    pub allowed_users: Vec<i64>,
    pub subscribed_topics: Vec<(i64, i64)>,
    pub bot_id: i64,
    pub bot_username: String,
}

/// A downloaded attachment referenced by the formatted wake message.
#[derive(Debug)]
pub struct Attachment {
    pub path: String,
    pub is_image: bool,
    /// Size of the file in bytes; zero where it cannot be told.
    pub size: u64,
    /// Content of the file, where it could be read.
    pub content: Option<Vec<u8>>,
}

/// One filtered update prepared for the agent: either a (possibly edited) message with
/// attachments on disk, or a reaction notification.
#[derive(Debug)]
pub struct Event {
    pub kind: EventKind,
}

/// What happened.
#[derive(Debug)]
pub enum EventKind {
    Message { msg: TgMessage, edited: bool, attachments: Vec<Attachment> },
    Reaction(MessageReaction),
}

// ---------------------------------------------------------------------------------------------
// Objects
// ---------------------------------------------------------------------------------------------

/// A person's name: first and last name, as far as they are known.
pub open spec fn person_name(first_name: Seq<char>, last_name: Seq<char>) -> Seq<char> {
    text::trim_end(first_name + " "@ + last_name)
}

fn full_name(first_name: &str, last_name: &str) -> (r: String)
    ensures
        r@ == person_name(first_name@, last_name@),
{
    let mut name = first_name.to_owned();
    name.append(" ");
    name.append(last_name);
    trimmed_end(name.as_str())
}

impl TgUser {
    /// Name of the user.
    pub open spec fn name(self) -> Seq<char> {
        person_name(self.first_name@, self.last_name@)
    }

    /// Name of the user.
    pub fn display_name(&self) -> (r: String)
        ensures
            r@ == self.name(),
    {
        full_name(self.first_name.as_str(), self.last_name.as_str())
    }
}

impl TgChat {
    /// Displayable chat name: title when known, else the bare id.
    pub open spec fn caption(self) -> Seq<char> {
        match self.title {
            Some(title) => title@,
            None => "chat "@ + number::dec_int(self.id as int),
        }
    }

    /// Name of the person whom the chat is with, where there is one, else the chat's label.
    pub open spec fn name(self) -> Seq<char> {
        let person = person_name(self.first_name@, self.last_name@);
        if person.len() == 0 {
            self.caption()
        } else {
            person
        }
    }

    /// Whether the chat is one with a single user.
    pub open spec fn private(self) -> bool {
        self.kind@ == "private"@
    }

    /// Displayable chat name: title when known, else the bare id.
    pub fn label(&self) -> (r: String)
        ensures
            r@ == self.caption(),
    {
        match &self.title {
            Some(title) => title.clone(),
            None => {
                let mut s = "chat ".to_owned();
                let id = dec_signed(self.id);
                s.append(id.as_str());
                s
            },
        }
    }

    /// Name of the person whom the chat is with, where there is one, else the chat's label.
    pub fn display_name(&self) -> (r: String)
        ensures
            r@ == self.name(),
    {
        let person = full_name(self.first_name.as_str(), self.last_name.as_str());
        if person.as_str().is_empty() {
            self.label()
        } else {
            person
        }
    }

    /// Whether the chat is one with a single user.
    pub fn is_private(&self) -> (r: bool)
        ensures
            r == self.private(),
    {
        str_eq(self.kind.as_str(), "private")
    }
}

impl TgMessage {
    /// Title of the message's forum topic, as far as the message tells it: the one that it changes
    /// the topic to, else the one that it opens the topic with, else the one that the message
    /// replied to opened the topic with.
    pub open spec fn topic(self) -> Option<Seq<char>> {
        if self.forum_topic_edited is Some && self.forum_topic_edited->0.name is Some {
            Some(self.forum_topic_edited->0.name->0@)
        } else if self.forum_topic_created is Some {
            Some(self.forum_topic_created->0.name@)
        } else if self.reply_to_message is Some && self.reply_to_message->0.forum_topic_created is Some {
            Some(self.reply_to_message->0.forum_topic_created->0.name@)
        } else {
            None
        }
    }

    /// Text of the message, or its caption where it has none.
    pub open spec fn body(self) -> Option<Seq<char>> {
        if self.text is Some {
            Some(self.text->0@)
        } else if self.caption is Some {
            Some(self.caption->0@)
        } else {
            None
        }
    }

    /// Title of the message's forum topic, as far as the message tells it.
    pub fn topic_title(&self) -> (r: Option<&str>)
        ensures
            match r {
                Some(t) => self.topic() == Some(t@),
                None => self.topic() is None,
            },
    {
        if let Some(edited) = &self.forum_topic_edited {
            if let Some(name) = &edited.name {
                return Some(name.as_str());
            }
        }
        if let Some(created) = &self.forum_topic_created {
            return Some(created.name.as_str());
        }
        if let Some(reply) = &self.reply_to_message {
            if let Some(created) = &reply.forum_topic_created {
                return Some(created.name.as_str());
            }
        }
        None
    }

    /// Text of the message, or its caption where it has none.
    pub fn text_or_caption(&self) -> (r: Option<&str>)
        ensures
            match r {
                Some(t) => self.body() == Some(t@),
                None => self.body() is None,
            },
    {
        match &self.text {
            Some(t) => Some(t.as_str()),
            None => match &self.caption {
                Some(t) => Some(t.as_str()),
                None => None,
            },
        }
    }
}

impl Update {
    /// The message that is new or was edited.
    pub open spec fn subject(self) -> Option<TgMessage> {
        if self.message is Some {
            self.message
        } else {
            self.edited_message
        }
    }

    /// The message that is new or was edited.
    pub fn msg(&self) -> (r: Option<&TgMessage>)
        ensures
            match r {
                Some(m) => self.subject() == Some(*m),
                None => self.subject() is None,
            },
    {
        match &self.message {
            Some(m) => Some(m),
            None => match &self.edited_message {
                Some(m) => Some(m),
                None => None,
            },
        }
    }

    /// Whether the update is an edit.
    pub fn edited(&self) -> (r: bool)
        ensures
            r == (self.edited_message is Some),
    {
        self.edited_message.is_some()
    }
}

impl Event {
    /// The chat that the event comes from.
    pub open spec fn origin(self) -> TgChat {
        match self.kind {
            EventKind::Message { msg, .. } => msg.chat,
            EventKind::Reaction(r) => r.chat,
        }
    }

    /// The channel that the event belongs to. Reactions carry no topic, so they belong to the
    /// channel of the whole chat.
    pub open spec fn channel(self) -> (i64, Option<i64>) {
        match self.kind {
            EventKind::Message { msg, .. } => (msg.chat.id, msg.message_thread_id),
            EventKind::Reaction(r) => (r.chat.id, None),
        }
    }

    /// The chat that the event comes from.
    pub fn chat(&self) -> (r: &TgChat)
        ensures
            *r == self.origin(),
    {
        match &self.kind {
            EventKind::Message { msg, .. } => &msg.chat,
            EventKind::Reaction(r) => &r.chat,
        }
    }

    /// The channel that the event belongs to.
    pub fn channel_key(&self) -> (r: (i64, Option<i64>))
        ensures
            r == self.channel(),
    {
        match &self.kind {
            EventKind::Message { msg, .. } => (msg.chat.id, msg.message_thread_id),
            EventKind::Reaction(r) => (r.chat.id, None),
        }
    }
}

/// How one reaction is shown: the emoji, or the kind where it carries none.
pub open spec fn reaction_text(r: ReactionType) -> Seq<char> {
    match r.emoji {
        Some(emoji) => emoji@,
        None => r.kind@,
    }
}

/// How reactions are shown.
pub open spec fn reactions_text(list: Seq<ReactionType>) -> Seq<char> {
    if list.len() == 0 {
        "(none)"@
    } else {
        search::join(Seq::new(list.len(), |i: int| reaction_text(list[i])), " "@)
    }
}

/// Show reactions in the order in which they were given.
pub fn render_reactions(list: &Vec<ReactionType>) -> (r: String)
    ensures
        r@ == reactions_text(list@),
{
    if list.len() == 0 {
        return "(none)".to_owned();
    }
    let mut shown: Vec<String> = Vec::new();
    let mut i: usize = 0;
    while i < list.len()
        invariant
            i <= list@.len(),
            shown@.len() == i,
            forall|k: int| 0 <= k < i ==> (#[trigger] shown@[k])@ == reaction_text(list@[k]),
        decreases list@.len() - i,
    {
        let one = match &list[i].emoji {
            Some(emoji) => emoji.clone(),
            None => list[i].kind.clone(),
        };
        shown.push(one);
        i += 1;
    }
    proof {
        assert(text::strs(shown@) =~= Seq::new(list@.len(), |k: int| reaction_text(list@[k])));
    }
    joined(&shown, " ")
}

// ---------------------------------------------------------------------------------------------
// Ingress filter
// ---------------------------------------------------------------------------------------------

/// Whether `v` holds `id`.
pub fn has_id(v: &Vec<i64>, id: i64) -> (r: bool)
    ensures
        r == v@.contains(id),
{
    let mut i: usize = 0;
    while i < v.len()
        invariant
            i <= v@.len(),
            forall|k: int| 0 <= k < i ==> v@[k] != id,
        decreases v@.len() - i,
    {
        if v[i] == id {
            return true;
        }
        i += 1;
    }
    false
}

impl WatchList {
    /// Whether the agent listens to a user: one on the allowlist, and no bot.
    pub open spec fn admits_user(self, user: TgUser) -> bool {
        !user.is_bot && self.allowed_users@.contains(user.id)
    }

    /// Whether the agent listens to whoever reacted.
    pub open spec fn admits_reaction(self, reaction: MessageReaction) -> bool {
        if reaction.user is Some {
            self.admits_user(reaction.user->0)
        } else if reaction.actor_chat is Some {
            self.allowed_users@.contains(reaction.actor_chat->0.id)
        } else {
            false
        }
    }

    /// Whether the agent listens to whoever wrote the message. Service messages (joins, pins) and
    /// channel posts carry no author.
    pub open spec fn admits_message(self, msg: TgMessage) -> bool {
        msg.from is Some ==> self.admits_user(msg.from->0)
    }

    /// Whether a message that the agent listens to is addressed to it: in a private chat, in a
    /// subscribed topic, as a command, by mention or as a reply to the bot.
    pub open spec fn addressed(self, msg: TgMessage) -> bool {
        let topic = match msg.message_thread_id {
            Some(t) => t,
            None => 0,
        };
        let text = match msg.text {
            Some(t) => t@,
            None => Seq::empty(),
        };
        ||| msg.chat.private()
        ||| self.subscribed_topics@.contains((msg.chat.id, topic))
        ||| search::starts(text, "/"@)
        ||| search::has(text, "@"@ + self.bot_username@)
        ||| (msg.reply_to_message is Some && msg.reply_to_message->0.from is Some
            && msg.reply_to_message->0.from->0.id == self.bot_id)
    }

    /// Whether a topic of the chat is subscribed to.
    pub open spec fn subscribed_chat(self, chat_id: i64) -> bool {
        exists|i: int| 0 <= i < self.subscribed_topics@.len() && (#[trigger] self.subscribed_topics@[i]).0 == chat_id
    }

    /// Whether the agent listens to a user.
    pub fn allows_user(&self, user: &TgUser) -> (r: bool)
        ensures
            r == self.admits_user(*user),
    {
        !user.is_bot && has_id(&self.allowed_users, user.id)
    }

    /// Whether the agent listens to whoever reacted.
    pub fn allows_reaction(&self, reaction: &MessageReaction) -> (r: bool)
        ensures
            r == self.admits_reaction(*reaction),
    {
        match &reaction.user {
            Some(u) => self.allows_user(u),
            None => match &reaction.actor_chat {
                Some(c) => has_id(&self.allowed_users, c.id),
                None => false,
            },
        }
    }

    /// Whether the agent listens to whoever wrote the message.
    pub fn allows_message(&self, msg: &TgMessage) -> (r: bool)
        ensures
            r == self.admits_message(*msg),
    {
        match &msg.from {
            Some(u) => self.allows_user(u),
            None => true,
        }
    }
}

/// What becomes of a reaction: private chats and subscribed chats wake, everything else buffers.
/// Actors outside the allowlist are dropped. Reactions carry no topic, so a subscription matches
/// on chat id alone.
pub open spec fn reaction_verdict(reaction: MessageReaction, watch: WatchList) -> Verdict {
    if !watch.admits_reaction(reaction) {
        Verdict::Drop
    } else if reaction.chat.private() || watch.subscribed_chat(reaction.chat.id) {
        Verdict::Wake
    } else {
        Verdict::Queue
    }
}

/// What becomes of an update.
pub open spec fn verdict(update: Update, watch: WatchList) -> Verdict {
    if update.message_reaction is Some {
        reaction_verdict(update.message_reaction->0, watch)
    } else if update.subject() is None {
        Verdict::Drop
    } else {
        let msg = update.subject()->0;
        if !watch.admits_message(msg) {
            Verdict::Drop
        } else if msg.from is Some && watch.addressed(msg) {
            Verdict::Wake
        } else {
            Verdict::Queue
        }
    }
}

/// Whether the agent takes an update in.
pub open spec fn admitted(update: Update, watch: WatchList) -> bool {
    if update.message_reaction is Some {
        watch.admits_reaction(update.message_reaction->0)
    } else {
        update.subject() is Some && watch.admits_message(update.subject()->0)
    }
}

/// The ingress filter.
pub fn classify(update: &Update, watch: &WatchList) -> (r: Verdict)
    ensures
        r == verdict(*update, *watch),
{
    if let Some(reaction) = &update.message_reaction {
        return classify_reaction(reaction, watch);
    }
    let msg = match update.msg() {
        Some(msg) => msg,
        None => {
            return Verdict::Drop;
        },
    };
    let from = match &msg.from {
        Some(from) => from,
        None => {
            // Service messages (joins, pins) and channel posts carry no author: pass without wake.
            return Verdict::Queue;
        },
    };
    if !watch.allows_user(from) {
        return Verdict::Drop;
    }
    let topic: i64 = match msg.message_thread_id {
        Some(t) => t,
        None => 0,
    };
    let mut i: usize = 0;
    while i < watch.subscribed_topics.len()
        invariant
            i <= watch.subscribed_topics@.len(),
            forall|k: int| 0 <= k < i ==> watch.subscribed_topics@[k] != (msg.chat.id, topic),
            update.message_reaction is None,
            update.subject() == Some(*msg),
            msg.from == Some(*from),
            watch.admits_user(*from),
            topic == (match msg.message_thread_id {
                Some(t) => t,
                None => 0,
            }),
        decreases watch.subscribed_topics@.len() - i,
    {
        if watch.subscribed_topics[i].0 == msg.chat.id && watch.subscribed_topics[i].1 == topic {
            proof {
                assert(watch.subscribed_topics@[i as int] == (msg.chat.id, topic));
            }
            return Verdict::Wake;
        }
        i += 1;
    }
    if msg.chat.is_private() {
        return Verdict::Wake;
    }
    let body = match &msg.text {
        Some(t) => t.as_str(),
        None => "",
    };
    proof {
        reveal_strlit("");
        assert(msg.text is None ==> body@ =~= Seq::<char>::empty());
    }
    if starts_with(body, "/") {
        return Verdict::Wake;
    }
    let mut mention = "@".to_owned();
    mention.append(watch.bot_username.as_str());
    if contains(body, mention.as_str()) {
        return Verdict::Wake;
    }
    if let Some(reply) = &msg.reply_to_message {
        if let Some(author) = &reply.from {
            if author.id == watch.bot_id {
                return Verdict::Wake;
            }
        }
    }
    Verdict::Queue
}

/// The ingress filter for reactions.
pub fn classify_reaction(reaction: &MessageReaction, watch: &WatchList) -> (r: Verdict)
    ensures
        r == reaction_verdict(*reaction, *watch),
{
    if !watch.allows_reaction(reaction) {
        return Verdict::Drop;
    }
    if reaction.chat.is_private() {
        return Verdict::Wake;
    }
    let mut i: usize = 0;
    while i < watch.subscribed_topics.len()
        invariant
            i <= watch.subscribed_topics@.len(),
            forall|k: int| 0 <= k < i ==> (#[trigger] watch.subscribed_topics@[k]).0 != reaction.chat.id,
            watch.admits_reaction(*reaction),
        decreases watch.subscribed_topics@.len() - i,
    {
        if watch.subscribed_topics[i].0 == reaction.chat.id {
            return Verdict::Wake;
        }
        i += 1;
    }
    Verdict::Queue
}

/// Whether the agent takes an update in; updates are filtered at ingress already, and checked again
/// as defense in depth.
pub fn is_admitted(update: &Update, watch: &WatchList) -> (r: bool)
    ensures
        r == admitted(*update, *watch),
{
    match &update.message_reaction {
        Some(reaction) => watch.allows_reaction(reaction),
        None => match update.msg() {
            Some(msg) => watch.allows_message(msg),
            None => false,
        },
    }
}

/// Whether `user` wrote the message that an update is about.
pub open spec fn written_by(update: Update, msg: TgMessage, user: TgUser) -> bool {
    &&& update.message_reaction is None
    &&& update.message == Some(msg) || (update.message is None && update.edited_message == Some(msg))
    &&& msg.from == Some(user)
}

/// The topic that a message stands in; zero where it stands in none.
pub open spec fn topic_id(msg: TgMessage) -> i64 {
    if msg.message_thread_id is Some {
        msg.message_thread_id->0
    } else {
        0
    }
}

/// Whoever mentions the bot wakes it: for every author on the allowlist and all texts `a` and `b`, a
/// message that reads `a`, then the bot's name behind an at sign, then `b`, is a wake.
pub proof fn law_mentions_wake(
    update: Update,
    watch: WatchList,
    msg: TgMessage,
    author: TgUser,
    a: Seq<char>,
    b: Seq<char>,
)
    requires
        written_by(update, msg, author),
        !author.is_bot,
        watch.allowed_users@.contains(author.id),
        msg.text is Some,
        msg.text->0@ == a + "@"@ + watch.bot_username@ + b,
    ensures
        verdict(update, watch) == Verdict::Wake,
{
    let name = "@"@ + watch.bot_username@;
    let body = msg.text->0@;
    assert(body.subrange(a.len() as int, a.len() as int + name.len()) =~= name);
    assert(search::occurs_at(body, name, a.len() as int));
}

/// Whoever writes in private, in a subscribed topic, a command, or a reply to the bot wakes it.
pub proof fn law_priority_messages_wake(
    update: Update,
    watch: WatchList,
    msg: TgMessage,
    author: TgUser,
    b: Seq<char>,
)
    requires
        written_by(update, msg, author),
        !author.is_bot,
        watch.allowed_users@.contains(author.id),
        ({
            ||| msg.chat.kind@ == "private"@
            ||| exists|i: int|
                0 <= i < watch.subscribed_topics@.len() && #[trigger] watch.subscribed_topics@[i] == (
                    msg.chat.id,
                    topic_id(msg),
                )
            ||| msg.text is Some && msg.text->0@ == seq!['/'] + b
            ||| msg.reply_to_message is Some && msg.reply_to_message->0.from is Some
                && msg.reply_to_message->0.from->0.id == watch.bot_id
        }),
    ensures
        verdict(update, watch) == Verdict::Wake,
{
    reveal_strlit("/");
    if msg.text is Some && msg.text->0@ == seq!['/'] + b {
        assert(msg.text->0@.take(1) =~= "/"@);
    }
}

/// Everything else that an author of the allowlist writes waits: a message in a group, outside the
/// subscribed topics, that neither begins with a slash nor holds the bot's name behind an at sign
/// anywhere, and replies to nobody or to somebody else. So does whatever has no author.
pub proof fn law_other_messages_wait(update: Update, watch: WatchList, msg: TgMessage)
    requires
        update.message_reaction is None,
        update.message == Some(msg) || (update.message is None && update.edited_message == Some(msg)),
        msg.from is Some ==> {
            let name = seq!['@'] + watch.bot_username@;
            &&& !msg.from->0.is_bot
            &&& watch.allowed_users@.contains(msg.from->0.id)
            &&& msg.chat.kind@ != "private"@
            &&& forall|i: int|
                0 <= i < watch.subscribed_topics@.len() ==> #[trigger] watch.subscribed_topics@[i] != (
                    msg.chat.id,
                    topic_id(msg),
                )
            &&& msg.text is Some ==> {
                &&& msg.text->0@.len() > 0 ==> msg.text->0@[0] != '/'
                &&& forall|i: int|
                    0 <= i && i + name.len() <= msg.text->0@.len() ==> #[trigger] msg.text->0@.subrange(
                        i,
                        i + name.len(),
                    ) != name
            }
            &&& msg.reply_to_message is Some && msg.reply_to_message->0.from is Some
                ==> msg.reply_to_message->0.from->0.id != watch.bot_id
        },
    ensures
        verdict(update, watch) == Verdict::Queue,
{
    reveal_strlit("/");
    reveal_strlit("@");
    assert("@"@ =~= seq!['@']);
    if msg.from is Some {
        let name = seq!['@'] + watch.bot_username@;
        let body = if msg.text is Some {
            msg.text->0@
        } else {
            Seq::empty()
        };
        if search::has(body, name) {
            let i = choose|i: int| search::occurs_at(body, name, i);
            assert(body.subrange(i, i + name.len()) == name);
        }
        if search::starts(body, "/"@) {
            assert(body.take(1)[0] == '/');
        }
        if watch.subscribed_topics@.contains((msg.chat.id, topic_id(msg))) {
            let i = choose|i: int|
                0 <= i < watch.subscribed_topics@.len() && watch.subscribed_topics@[i] == (msg.chat.id, topic_id(msg));
            assert(watch.subscribed_topics@[i] != (msg.chat.id, topic_id(msg)));
        }
    }
}

/// A reaction of somebody on the allowlist wakes the bot in private and in every chat with a
/// subscribed topic, and waits anywhere else. A message beside it does not count.
pub proof fn law_reactions_wake_by_chat(update: Update, watch: WatchList, reaction: MessageReaction)
    requires
        update.message_reaction == Some(reaction),
        match (reaction.user, reaction.actor_chat) {
            (Some(user), _) => !user.is_bot && watch.allowed_users@.contains(user.id),
            (None, Some(chat)) => watch.allowed_users@.contains(chat.id),
            (None, None) => false,
        },
    ensures
        (verdict(update, watch) == Verdict::Wake) == (reaction.chat.kind@ == "private"@ || exists|i: int|
            0 <= i < watch.subscribed_topics@.len() && (#[trigger] watch.subscribed_topics@[i]).0 == reaction.chat.id),
        verdict(update, watch) != Verdict::Drop,
{
}

/// What a user outside the allowlist, or a bot, writes or reacts never passes, wherever and
/// whatever it is.
pub proof fn law_strangers_never_pass(update: Update, watch: WatchList, user: TgUser)
    requires
        user.is_bot || !watch.allowed_users@.contains(user.id),
        match update.message_reaction {
            Some(reaction) => reaction.user == Some(user),
            None => match update.message {
                Some(msg) => msg.from == Some(user),
                None => update.edited_message is Some && update.edited_message->0.from == Some(user),
            },
        },
    ensures
        verdict(update, watch) == Verdict::Drop,
        !admitted(update, watch),
{
}

/// What somebody reacts who is not named passes only on behalf of a chat of the allowlist.
pub proof fn law_anonymous_strangers_never_pass(update: Update, watch: WatchList, reaction: MessageReaction)
    requires
        update.message_reaction == Some(reaction),
        reaction.user is None,
        reaction.actor_chat matches Some(chat) ==> !watch.allowed_users@.contains(chat.id),
    ensures
        verdict(update, watch) == Verdict::Drop,
        !admitted(update, watch),
{
}

/// The check made when an update is taken in agrees with the ingress filter: what the filter lets
/// pass is taken in, and nothing else.
pub proof fn law_filters_agree(update: Update, watch: WatchList)
    ensures
        admitted(update, watch) <==> verdict(update, watch) != Verdict::Drop,
{
}

// ---------------------------------------------------------------------------------------------
// Time
// ---------------------------------------------------------------------------------------------

/// What `chrono` shows of a Unix time, in UTC and by a format string; none for a time that it
/// cannot hold.
pub uninterp spec fn formatted_time(date: i64, format: Seq<char>) -> Option<Seq<char>>;

/// `chrono::DateTime::from_timestamp` without nanoseconds, and `format`. What is shown is named and
/// nothing else is said of it. Formatting fails on a malformed format string, so there is but the
/// one.
#[verifier::external_body]
fn format_time(date: i64, format: &str) -> (r: Option<String>)
    requires
        format@ == "%Y-%m-%d %H:%M:%S UTC"@,
    ensures
        text::opt_str(r) == formatted_time(date, format@),
{
    chrono::DateTime::from_timestamp(date, 0).map(|t| t.format(format).to_string())
}

/// A time that may be unknown.
pub open spec fn time_or_nothing(time: Option<Seq<char>>) -> Seq<char> {
    match time {
        Some(t) => t,
        None => Seq::empty(),
    }
}

/// UTC rendering of a Unix time.
pub open spec fn stamp(date: i64) -> Seq<char> {
    time_or_nothing(formatted_time(date, "%Y-%m-%d %H:%M:%S UTC"@))
}

/// A time that may be unknown.
pub fn known_time(time: Option<String>) -> (r: String)
    ensures
        r@ == time_or_nothing(text::opt_str(time)),
{
    match time {
        Some(t) => t,
        None => {
            proof {
                reveal_strlit("");
            }
            String::new()
        },
    }
}

/// UTC rendering of a Telegram unix date, shared by the event formatter and the channel logs.
pub fn timestamp(date: i64) -> (r: String)
    ensures
        r@ == stamp(date),
{
    known_time(format_time(date, "%Y-%m-%d %H:%M:%S UTC"))
}

// ---------------------------------------------------------------------------------------------
// Requests
// ---------------------------------------------------------------------------------------------

/// The Bot API as seen by one bot.
pub struct Telegram {
    /// Where methods are called.
    pub api: String,
    /// Where files are downloaded.
    pub files: String,
}

/// A call of a method of the Bot API.
pub struct Request {
    pub method: String,
    pub url: String,
    pub body: Json,
}

/// What the Bot API answers.
#[derive(Debug)]
pub struct TgResponse<T> {
    pub ok: bool,
    pub result: Option<T>,
    pub description: Option<String>,
}

/// A file of the Bot API.
#[derive(Debug)]
pub struct TgFile {
    pub file_path: Option<String>,
    pub file_size: Option<i64>,
}

/// A file to fetch, and where to keep it.
#[derive(Debug)]
pub struct Download {
    pub file_id: String,
    pub path: String,
    pub is_image: bool,
}

/// What a [`Download`] holds.
pub struct DownloadView {
    pub file_id: Seq<char>,
    pub path: Seq<char>,
    pub is_image: bool,
}

impl View for Download {
    type V = DownloadView;

    open spec fn view(&self) -> DownloadView {
        DownloadView { file_id: self.file_id@, path: self.path@, is_image: self.is_image }
    }
}

/// What a list of downloads holds.
pub open spec fn downloads_view(list: Seq<Download>) -> Seq<DownloadView> {
    Seq::new(list.len(), |i: int| list[i]@)
}

/// A member of a request body.
pub open spec fn field(name: Seq<char>, value: JsonView) -> Seq<(Seq<char>, JsonView)> {
    seq![(name, value)]
}

/// A member of a request body that is there where its value is known.
pub open spec fn number_field(name: Seq<char>, value: Option<i64>) -> Seq<(Seq<char>, JsonView)> {
    match value {
        Some(n) => field(name, json::int_view(n as int)),
        None => Seq::empty(),
    }
}

/// A member of a request body that is there where its value is known.
pub open spec fn text_field(name: Seq<char>, value: Option<Seq<char>>) -> Seq<(Seq<char>, JsonView)> {
    match value {
        Some(t) => field(name, JsonView::Text(t)),
        None => Seq::empty(),
    }
}

/// What a string that may be missing holds.
pub open spec fn opt_view(o: Option<&str>) -> Option<Seq<char>> {
    match o {
        Some(s) => Some(s@),
        None => None,
    }
}

/// Body of a poll for updates.
pub open spec fn updates_body(offset: Option<i64>) -> JsonView {
    JsonView::Object(
        field(
            "offset"@,
            match offset {
                Some(n) => json::int_view(n as int),
                None => JsonView::Null,
            },
        ) + field("timeout"@, json::int_view(LONG_POLL_SECS as int)) + field(
            "allowed_updates"@,
            JsonView::Array(
                seq![
                    JsonView::Text("message"@),
                    JsonView::Text("edited_message"@),
                    JsonView::Text("message_reaction"@),
                ],
            ),
        ),
    )
}

/// Body of a message to send. A message that is to be a reply is sent also where the other one is
/// gone.
pub open spec fn send_body(
    chat_id: i64,
    thread_id: Option<i64>,
    text: Seq<char>,
    parse_mode: Option<Seq<char>>,
    reply_to: Option<i64>,
) -> JsonView {
    JsonView::Object(
        field("chat_id"@, json::int_view(chat_id as int)) + field("text"@, JsonView::Text(text)) + number_field(
            "message_thread_id"@,
            thread_id,
        ) + text_field("parse_mode"@, parse_mode) + number_field("reply_to_message_id"@, reply_to) + (
        if reply_to is Some {
            field("allow_sending_without_reply"@, JsonView::Bool(true))
        } else {
            Seq::empty()
        }),
    )
}

/// Body of a change of a message.
pub open spec fn edit_body(
    chat_id: i64,
    message_id: i64,
    text: Seq<char>,
    parse_mode: Option<Seq<char>>,
) -> JsonView {
    JsonView::Object(
        field("chat_id"@, json::int_view(chat_id as int)) + field("message_id"@, json::int_view(message_id as int))
            + field("text"@, JsonView::Text(text)) + text_field("parse_mode"@, parse_mode),
    )
}

/// Body of a typing indicator.
pub open spec fn typing_body(chat_id: i64) -> JsonView {
    JsonView::Object(
        field("chat_id"@, json::int_view(chat_id as int)) + field("action"@, JsonView::Text("typing"@)),
    )
}

/// Id of a message that was sent, as the reply to the request tells it; zero where it does not.
pub open spec fn sent_message_id(sent: JsonView) -> i64 {
    match sent.get("message_id"@) {
        Some(v) => match v.number() {
            Some(n) => n,
            None => 0,
        },
        None => 0,
    }
}

impl Request {
    /// Whether the request calls `method` on `tg` with `body`.
    pub open spec fn calls(self, tg: Telegram, method: Seq<char>, body: JsonView) -> bool {
        &&& self.method@ == method
        &&& self.url@ == tg.api@ + "/"@ + method
        &&& self.body@ == body
    }
}

impl Telegram {
    /// The Bot API at `api_url`, for the bot with `token`.
    pub fn new(api_url: &str, token: &str) -> (r: Self)
        ensures
            r.api@ == api_url@ + "/bot"@ + token@,
            r.files@ == api_url@ + "/file/bot"@ + token@,
    {
        let mut api = api_url.to_owned();
        api.append("/bot");
        api.append(token);
        let mut files = api_url.to_owned();
        files.append("/file/bot");
        files.append(token);
        Telegram { api, files }
    }

    /// Seconds after which a request is given up: a poll, with some time to spare.
    pub fn timeout_secs() -> (r: u64)
        ensures
            r == LONG_POLL_SECS + 30,
    {
        LONG_POLL_SECS + 30
    }

    /// A call of a method.
    pub fn call(&self, method: &str, body: Json) -> (r: Request)
        ensures
            r.calls(*self, method@, body@),
    {
        let mut url = self.api.clone();
        url.append("/");
        url.append(method);
        Request { method: method.to_owned(), url, body }
    }

    /// Ask who the bot is.
    pub fn get_me(&self) -> (r: Request)
        ensures
            r.calls(*self, "getMe"@, JsonView::Object(Seq::empty())),
    {
        self.call("getMe", json::object(json::no_members()))
    }

    /// Poll for updates from `offset` on.
    pub fn get_updates(&self, offset: Option<i64>) -> (r: Request)
        ensures
            r.calls(*self, "getUpdates"@, updates_body(offset)),
    {
        let mut body = json::no_members();
        json::put(
            &mut body,
            "offset",
            match offset {
                Some(n) => json::integer(n),
                None => Json::Null,
            },
        );
        json::put(&mut body, "timeout", json::integer(LONG_POLL_SECS as i64));
        let mut kinds: Vec<Json> = Vec::new();
        kinds.push(json::text("message"));
        kinds.push(json::text("edited_message"));
        kinds.push(json::text("message_reaction"));
        proof {
            assert(json::items_view(kinds@) =~= seq![
                JsonView::Text("message"@),
                JsonView::Text("edited_message"@),
                JsonView::Text("message_reaction"@),
            ]);
        }
        json::put(&mut body, "allowed_updates", json::array(kinds));
        proof {
            assert(json::members_view(body@) =~= updates_body(offset)->Object_0);
        }
        self.call("getUpdates", json::object(body))
    }

    /// Send a message.
    pub fn send_message(
        &self,
        chat_id: i64,
        thread_id: Option<i64>,
        text: &str,
        parse_mode: Option<&str>,
        reply_to: Option<i64>,
    ) -> (r: Request)
        ensures
            r.calls(
                *self,
                "sendMessage"@,
                send_body(chat_id, thread_id, text@, opt_view(parse_mode), reply_to),
            ),
    {
        let mut body = json::no_members();
        json::put(&mut body, "chat_id", json::integer(chat_id));
        json::put(&mut body, "text", json::text(text));
        if let Some(t) = thread_id {
            json::put(&mut body, "message_thread_id", json::integer(t));
        }
        if let Some(p) = parse_mode {
            json::put(&mut body, "parse_mode", json::text(p));
        }
        if let Some(r) = reply_to {
            json::put(&mut body, "reply_to_message_id", json::integer(r));
            json::put(&mut body, "allow_sending_without_reply", Json::Bool(true));
        }
        proof {
            assert(json::members_view(body@) =~= send_body(
                chat_id,
                thread_id,
                text@,
                opt_view(parse_mode),
                reply_to,
            )->Object_0);
        }
        self.call("sendMessage", json::object(body))
    }

    /// The id of the sent message, so that the agent can edit it later.
    pub fn sent_id(sent: &Json) -> (r: i64)
        ensures
            r == sent_message_id(sent@),
    {
        match sent.get("message_id") {
            Some(v) => match v.as_int() {
                Some(n) => n,
                None => 0,
            },
            None => 0,
        }
    }

    /// Replace the text of an existing message (only the bot's own).
    pub fn edit_message_text(&self, chat_id: i64, message_id: i64, text: &str, parse_mode: Option<&str>) -> (r:
        Request)
        ensures
            r.calls(*self, "editMessageText"@, edit_body(chat_id, message_id, text@, opt_view(parse_mode))),
    {
        let mut body = json::no_members();
        json::put(&mut body, "chat_id", json::integer(chat_id));
        json::put(&mut body, "message_id", json::integer(message_id));
        json::put(&mut body, "text", json::text(text));
        if let Some(p) = parse_mode {
            json::put(&mut body, "parse_mode", json::text(p));
        }
        proof {
            assert(json::members_view(body@) =~= edit_body(
                chat_id,
                message_id,
                text@,
                opt_view(parse_mode),
            )->Object_0);
        }
        self.call("editMessageText", json::object(body))
    }

    /// Show a typing indicator.
    pub fn send_typing(&self, chat_id: i64) -> (r: Request)
        ensures
            r.calls(*self, "sendChatAction"@, typing_body(chat_id)),
    {
        let mut body = json::no_members();
        json::put(&mut body, "chat_id", json::integer(chat_id));
        json::put(&mut body, "action", json::text("typing"));
        proof {
            assert(json::members_view(body@) =~= typing_body(chat_id)->Object_0);
        }
        self.call("sendChatAction", json::object(body))
    }

    /// Ask where a file is.
    pub fn get_file(&self, file_id: &str) -> (r: Request)
        ensures
            r.calls(*self, "getFile"@, JsonView::Object(field("file_id"@, JsonView::Text(file_id@)))),
    {
        let mut body = json::no_members();
        json::put(&mut body, "file_id", json::text(file_id));
        proof {
            assert(json::members_view(body@) =~= field("file_id"@, JsonView::Text(file_id@)));
        }
        self.call("getFile", json::object(body))
    }

    /// Where to download a file from, unless it is too large or has no path.
    pub fn download(&self, file: &TgFile) -> (r: Result<String, String>)
        ensures
            match r {
                Ok(url) => {
                    &&& known_size(*file) <= MAX_DOWNLOAD_BYTES
                    &&& file.file_path is Some
                    &&& url@ == self.files@ + "/"@ + file.file_path->0@
                },
                Err(e) => if known_size(*file) > MAX_DOWNLOAD_BYTES {
                    e@ == "file too large: "@ + number::dec_int(known_size(*file) as int) + " bytes"@
                } else {
                    file.file_path is None && e@ == "getFile returned no file_path"@
                },
            },
    {
        let size: i64 = match file.file_size {
            Some(n) => n,
            None => 0,
        };
        if size > MAX_DOWNLOAD_BYTES {
            let mut e = "file too large: ".to_owned();
            let n = dec_signed(size);
            e.append(n.as_str());
            e.append(" bytes");
            return Err(e);
        }
        match &file.file_path {
            Some(path) => {
                let mut url = self.files.clone();
                url.append("/");
                url.append(path.as_str());
                Ok(url)
            },
            None => Err("getFile returned no file_path".to_owned()),
        }
    }

    /// The photo and document of a message and where to keep them in `downloads_dir`; text-only
    /// messages have none.
    pub fn fetch_attachments(msg: &TgMessage, downloads_dir: &str) -> (r: Vec<Download>)
        ensures
            downloads_view(r@) == photo_download(*msg, downloads_dir@) + document_download(*msg, downloads_dir@),
    {
        let mut out: Vec<Download> = Vec::new();
        let n: usize = msg.photo.len();
        if n > 0 {
            let mut name = "photo_".to_owned();
            let id = dec_signed(msg.message_id);
            name.append(id.as_str());
            name.append(".jpg");
            out.push(
                Download {
                    file_id: msg.photo[n - 1].file_id.clone(),
                    path: path_join(downloads_dir, name.as_str()),
                    is_image: true,
                },
            );
        }
        if let Some(doc) = &msg.document {
            let id = dec_signed(msg.message_id);
            let mut name = id.clone();
            name.append("_");
            match &doc.file_name {
                Some(given) => {
                    let last = last_segment(given.as_str());
                    name.append(last.as_str());
                },
                None => {
                    let mut own = "file_".to_owned();
                    own.append(id.as_str());
                    name.append(own.as_str());
                },
            }
            out.push(
                Download {
                    file_id: doc.file_id.clone(),
                    path: path_join(downloads_dir, name.as_str()),
                    is_image: false,
                },
            );
        }
        proof {
            assert(downloads_view(out@) =~= photo_download(*msg, downloads_dir@) + document_download(
                *msg,
                downloads_dir@,
            ));
        }
        out
    }

    /// Embed an image as a data URL.
    pub fn image_data_url(bytes: &[u8], mime: &str) -> (r: String)
        requires
            encodable(bytes@.len()),
        ensures
            r@ == data_url(bytes@, mime@),
    {
        let mut url = "data:".to_owned();
        url.append(mime);
        url.append(";base64,");
        let encoded = base64_encode(bytes);
        url.append(encoded.as_str());
        url
    }
}

/// Size of a file as far as it is known.
pub open spec fn known_size(file: TgFile) -> i64 {
    match file.file_size {
        Some(n) => n,
        None => 0,
    }
}

/// The largest size of a message's photo, if it has one.
pub open spec fn photo_download(msg: TgMessage, dir: Seq<char>) -> Seq<DownloadView> {
    if msg.photo@.len() == 0 {
        Seq::empty()
    } else {
        seq![
            DownloadView {
                file_id: msg.photo@.last().file_id@,
                path: paths::join(dir, "photo_"@ + number::dec_int(msg.message_id as int) + ".jpg"@),
                is_image: true,
            },
        ]
    }
}

/// A message's document, if it has one. It keeps the last part of its name behind the message's id.
pub open spec fn document_download(msg: TgMessage, dir: Seq<char>) -> Seq<DownloadView> {
    match msg.document {
        None => Seq::empty(),
        Some(doc) => {
            let id = number::dec_int(msg.message_id as int);
            let name = match doc.file_name {
                Some(given) => paths::after_last(given@, '/'),
                None => "file_"@ + id,
            };
            seq![
                DownloadView {
                    file_id: doc.file_id@,
                    path: paths::join(dir, id + "_"@ + name),
                    is_image: false,
                },
            ]
        },
    }
}

/// Base64 of bytes, with the standard alphabet and padding.
pub uninterp spec fn base64_text(bytes: Seq<u8>) -> Seq<char>;

/// `base64::engine::general_purpose::STANDARD.encode`. The text is named and nothing else is said
/// of it. Encoding fails where the text is larger than any allocation.
#[verifier::external_body]
fn base64_encode(bytes: &[u8]) -> (r: String)
    requires
        encodable(bytes@.len()),
    ensures
        r@ == base64_text(bytes@),
{
    base64::Engine::encode(&base64::engine::general_purpose::STANDARD, bytes)
}

/// Whether base64 of that many bytes is no larger than any allocation.
pub open spec fn encodable(len: nat) -> bool {
    (len + 2) / 3 * 4 <= isize::MAX
}

/// Whether base64 of that many bytes is no larger than any allocation.
pub fn is_encodable(len: usize) -> (r: bool)
    ensures
        r == encodable(len as nat),
{
    (len as u128 + 2) / 3 * 4 <= isize::MAX as u128
}

/// A data URL of bytes.
pub open spec fn data_url(bytes: Seq<u8>, mime: Seq<char>) -> Seq<char> {
    "data:"@ + mime + ";base64,"@ + base64_text(bytes)
}

/// What a call of a method comes to: the result that the Bot API reports, else an error that names
/// the method. `raw` is the answer as it came, `response` what it was read as.
pub fn call_outcome<T>(method: &str, status: u16, raw: &str, response: Option<TgResponse<T>>) -> (r: Result<
    T,
    String,
>)
    ensures
        match response {
            None => r is Err && r->Err_0@ == method@ + ": malformed response "@ + raw@,
            Some(answer) => if answer.ok && answer.result is Some {
                r == Ok::<T, String>(answer.result->0)
            } else {
                r is Err && r->Err_0@ == method@ + " failed ("@ + web::status_line(status) + "): "@ + (
                match answer.description {
                    Some(d) => d@,
                    None => Seq::empty(),
                })
            },
        },
{
    let answer = match response {
        Some(answer) => answer,
        None => {
            let mut e = method.to_owned();
            e.append(": malformed response ");
            e.append(raw);
            return Err(e);
        },
    };
    let description = match answer.description {
        Some(d) => d,
        None => {
            proof {
                reveal_strlit("");
            }
            String::new()
        },
    };
    if answer.ok {
        if let Some(result) = answer.result {
            return Ok(result);
        }
    }
    let mut e = method.to_owned();
    e.append(" failed (");
    let status_shown = status_text(status);
    e.append(status_shown.as_str());
    e.append("): ");
    e.append(description.as_str());
    Err(e)
}

// ---------------------------------------------------------------------------------------------
// What requests hold
// ---------------------------------------------------------------------------------------------

/// A member that is put behind others is found where there is none of its name before it.
pub proof fn lemma_field(members: Seq<(Seq<char>, JsonView)>, name: Seq<char>, value: JsonView, key: Seq<char>)
    ensures
        json::member(members + field(name, value), key) == (if json::member(members, key) is Some {
            json::member(members, key)
        } else if name == key {
            Some(value)
        } else {
            None
        }),
{
    json::law_put_member_is_found(members, name, value, key);
    assert(members + field(name, value) =~= members.push((name, value)));
    if json::member(members, key) is None && name != key {
        assert(JsonView::Object(members.push((name, value))).get(key) == JsonView::Object(members).get(key));
    }
}

proof fn lemma_first_field(name: Seq<char>, value: JsonView, key: Seq<char>)
    ensures
        json::member(field(name, value), key) == (if name == key {
            Some(value)
        } else {
            None
        }),
{
    let none = Seq::<(Seq<char>, JsonView)>::empty();
    lemma_field(none, name, value, key);
    assert(none + field(name, value) =~= field(name, value));
    assert(json::member(none, key) is None);
}

proof fn lemma_number_field(members: Seq<(Seq<char>, JsonView)>, name: Seq<char>, value: Option<i64>, key: Seq<char>)
    ensures
        json::member(members + number_field(name, value), key) == (if json::member(members, key) is Some {
            json::member(members, key)
        } else if name == key && value is Some {
            Some(json::int_view(value->0 as int))
        } else {
            None
        }),
{
    match value {
        Some(n) => lemma_field(members, name, json::int_view(n as int), key),
        None => {
            assert(members + number_field(name, value) =~= members);
        },
    }
}

proof fn lemma_text_field(
    members: Seq<(Seq<char>, JsonView)>,
    name: Seq<char>,
    value: Option<Seq<char>>,
    key: Seq<char>,
)
    ensures
        json::member(members + text_field(name, value), key) == (if json::member(members, key) is Some {
            json::member(members, key)
        } else if name == key && value is Some {
            Some(JsonView::Text(value->0))
        } else {
            None
        }),
{
    match value {
        Some(t) => lemma_field(members, name, JsonView::Text(t), key),
        None => {
            assert(members + text_field(name, value) =~= members);
        },
    }
}

proof fn lemma_send_body(
    chat_id: i64,
    thread_id: Option<i64>,
    text: Seq<char>,
    parse_mode: Option<Seq<char>>,
    reply_to: Option<i64>,
    key: Seq<char>,
)
    ensures
        send_body(chat_id, thread_id, text, parse_mode, reply_to).get(key) == (if key == "chat_id"@ {
            Some(json::int_view(chat_id as int))
        } else if key == "text"@ {
            Some(JsonView::Text(text))
        } else if key == "message_thread_id"@ && thread_id is Some {
            Some(json::int_view(thread_id->0 as int))
        } else if key == "parse_mode"@ && parse_mode is Some {
            Some(JsonView::Text(parse_mode->0))
        } else if key == "reply_to_message_id"@ && reply_to is Some {
            Some(json::int_view(reply_to->0 as int))
        } else if key == "allow_sending_without_reply"@ && reply_to is Some {
            Some(JsonView::Bool(true))
        } else {
            None
        }),
{
    let a = field("chat_id"@, json::int_view(chat_id as int));
    let b = a + field("text"@, JsonView::Text(text));
    let c = b + number_field("message_thread_id"@, thread_id);
    let d = c + text_field("parse_mode"@, parse_mode);
    let e = d + number_field("reply_to_message_id"@, reply_to);
    lemma_first_field("chat_id"@, json::int_view(chat_id as int), key);
    lemma_field(a, "text"@, JsonView::Text(text), key);
    lemma_number_field(b, "message_thread_id"@, thread_id, key);
    lemma_text_field(c, "parse_mode"@, parse_mode, key);
    lemma_number_field(d, "reply_to_message_id"@, reply_to, key);
    if reply_to is Some {
        lemma_field(e, "allow_sending_without_reply"@, JsonView::Bool(true), key);
    } else {
        assert(e + Seq::<(Seq<char>, JsonView)>::empty() =~= e);
    }
}

proof fn lemma_request_names()
    ensures
        "chat_id"@ != "text"@,
        "chat_id"@ != "message_thread_id"@,
        "chat_id"@ != "parse_mode"@,
        "chat_id"@ != "reply_to_message_id"@,
        "chat_id"@ != "allow_sending_without_reply"@,
        "chat_id"@ != "message_id"@,
        "chat_id"@ != "action"@,
        "text"@ != "message_thread_id"@,
        "text"@ != "parse_mode"@,
        "text"@ != "reply_to_message_id"@,
        "text"@ != "allow_sending_without_reply"@,
        "text"@ != "message_id"@,
        "message_thread_id"@ != "parse_mode"@,
        "message_thread_id"@ != "reply_to_message_id"@,
        "message_thread_id"@ != "allow_sending_without_reply"@,
        "parse_mode"@ != "reply_to_message_id"@,
        "parse_mode"@ != "allow_sending_without_reply"@,
        "parse_mode"@ != "message_id"@,
        "reply_to_message_id"@ != "allow_sending_without_reply"@,
        "offset"@ != "timeout"@,
        "offset"@ != "allowed_updates"@,
        "timeout"@ != "allowed_updates"@,
{
    reveal_strlit("chat_id");
    reveal_strlit("text");
    reveal_strlit("message_thread_id");
    reveal_strlit("parse_mode");
    reveal_strlit("reply_to_message_id");
    reveal_strlit("allow_sending_without_reply");
    reveal_strlit("message_id");
    reveal_strlit("action");
    reveal_strlit("offset");
    reveal_strlit("timeout");
    reveal_strlit("allowed_updates");
    assert("chat_id"@.len() == 7);
    assert("text"@.len() == 4);
    assert("message_thread_id"@.len() == 17);
    assert("parse_mode"@.len() == 10);
    assert("reply_to_message_id"@.len() == 19);
    assert("allow_sending_without_reply"@.len() == 27);
    assert("message_id"@.len() == 10);
    assert("parse_mode"@[0] != "message_id"@[0]);
    assert("action"@.len() == 6);
    assert("offset"@.len() == 6);
    assert("timeout"@.len() == 7);
    assert("allowed_updates"@.len() == 15);
}

/// A message is sent to its chat and topic with its text as it stands, in the mode it is in, and as a
/// reply, which may also be sent where the other message is gone, just where it is one.
pub proof fn law_messages_are_sent_as_given(
    chat_id: i64,
    thread_id: Option<i64>,
    text: Seq<char>,
    parse_mode: Option<Seq<char>>,
    reply_to: Option<i64>,
)
    ensures
        ({
            let body = send_body(chat_id, thread_id, text, parse_mode, reply_to);
            &&& body.get("chat_id"@) == Some(json::int_view(chat_id as int))
            &&& body.get("text"@) == Some(JsonView::Text(text))
            &&& thread_id matches Some(n) ==> body.get("message_thread_id"@) == Some(json::int_view(n as int))
            &&& thread_id is None ==> body.get("message_thread_id"@) is None
            &&& parse_mode matches Some(mode) ==> body.get("parse_mode"@) == Some(JsonView::Text(mode))
            &&& parse_mode is None ==> body.get("parse_mode"@) is None
            &&& reply_to matches Some(n) ==> body.get("reply_to_message_id"@) == Some(json::int_view(n as int))
                && body.get("allow_sending_without_reply"@) == Some(JsonView::Bool(true))
            &&& reply_to is None ==> body.get("reply_to_message_id"@) is None && body.get(
                "allow_sending_without_reply"@,
            ) is None
        }),
{
    lemma_request_names();
    lemma_send_body(chat_id, thread_id, text, parse_mode, reply_to, "chat_id"@);
    lemma_send_body(chat_id, thread_id, text, parse_mode, reply_to, "text"@);
    lemma_send_body(chat_id, thread_id, text, parse_mode, reply_to, "message_thread_id"@);
    lemma_send_body(chat_id, thread_id, text, parse_mode, reply_to, "parse_mode"@);
    lemma_send_body(chat_id, thread_id, text, parse_mode, reply_to, "reply_to_message_id"@);
    lemma_send_body(chat_id, thread_id, text, parse_mode, reply_to, "allow_sending_without_reply"@);
}

proof fn lemma_edit_body(
    chat_id: i64,
    message_id: i64,
    text: Seq<char>,
    parse_mode: Option<Seq<char>>,
    key: Seq<char>,
)
    ensures
        edit_body(chat_id, message_id, text, parse_mode).get(key) == (if key == "chat_id"@ {
            Some(json::int_view(chat_id as int))
        } else if key == "message_id"@ {
            Some(json::int_view(message_id as int))
        } else if key == "text"@ {
            Some(JsonView::Text(text))
        } else if key == "parse_mode"@ && parse_mode is Some {
            Some(JsonView::Text(parse_mode->0))
        } else {
            None
        }),
{
    let a = field("chat_id"@, json::int_view(chat_id as int));
    let b = a + field("message_id"@, json::int_view(message_id as int));
    let c = b + field("text"@, JsonView::Text(text));
    lemma_first_field("chat_id"@, json::int_view(chat_id as int), key);
    lemma_field(a, "message_id"@, json::int_view(message_id as int), key);
    lemma_field(b, "text"@, JsonView::Text(text), key);
    lemma_text_field(c, "parse_mode"@, parse_mode, key);
}

/// An edit names the message that it is of, and holds the new text as it stands; the typing indicator
/// is one of its chat.
pub proof fn law_edits_are_sent_as_given(
    chat_id: i64,
    message_id: i64,
    text: Seq<char>,
    parse_mode: Option<Seq<char>>,
)
    ensures
        ({
            let body = edit_body(chat_id, message_id, text, parse_mode);
            &&& body.get("chat_id"@) == Some(json::int_view(chat_id as int))
            &&& body.get("message_id"@) == Some(json::int_view(message_id as int))
            &&& body.get("text"@) == Some(JsonView::Text(text))
            &&& parse_mode matches Some(mode) ==> body.get("parse_mode"@) == Some(JsonView::Text(mode))
            &&& parse_mode is None ==> body.get("parse_mode"@) is None
        }),
        typing_body(chat_id).get("chat_id"@) == Some(json::int_view(chat_id as int)),
        typing_body(chat_id).get("action"@) == Some(JsonView::Text("typing"@)),
{
    lemma_request_names();
    lemma_edit_body(chat_id, message_id, text, parse_mode, "chat_id"@);
    lemma_edit_body(chat_id, message_id, text, parse_mode, "message_id"@);
    lemma_edit_body(chat_id, message_id, text, parse_mode, "text"@);
    lemma_edit_body(chat_id, message_id, text, parse_mode, "parse_mode"@);
    let a = field("chat_id"@, json::int_view(chat_id as int));
    lemma_first_field("chat_id"@, json::int_view(chat_id as int), "chat_id"@);
    lemma_first_field("chat_id"@, json::int_view(chat_id as int), "action"@);
    lemma_field(a, "action"@, JsonView::Text("typing"@), "chat_id"@);
    lemma_field(a, "action"@, JsonView::Text("typing"@), "action"@);
}

proof fn lemma_updates_body(offset: Option<i64>, key: Seq<char>)
    ensures
        updates_body(offset).get(key) == (if key == "offset"@ {
            Some(
                match offset {
                    Some(n) => json::int_view(n as int),
                    None => JsonView::Null,
                },
            )
        } else if key == "timeout"@ {
            Some(json::int_view(50))
        } else if key == "allowed_updates"@ {
            Some(
                JsonView::Array(
                    seq![
                        JsonView::Text("message"@),
                        JsonView::Text("edited_message"@),
                        JsonView::Text("message_reaction"@),
                    ],
                ),
            )
        } else {
            None
        }),
{
    let first = match offset {
        Some(n) => json::int_view(n as int),
        None => JsonView::Null,
    };
    let kinds = JsonView::Array(
        seq![JsonView::Text("message"@), JsonView::Text("edited_message"@), JsonView::Text("message_reaction"@)],
    );
    let a = field("offset"@, first);
    let b = a + field("timeout"@, json::int_view(LONG_POLL_SECS as int));
    lemma_first_field("offset"@, first, key);
    lemma_field(a, "timeout"@, json::int_view(LONG_POLL_SECS as int), key);
    lemma_field(b, "allowed_updates"@, kinds, key);
}

/// Updates are asked for from the offset on, for 50 seconds, and of all three kinds that are looked
/// at: messages, edits and reactions.
pub proof fn law_updates_are_asked_for(offset: Option<i64>)
    ensures
        offset matches Some(n) ==> updates_body(offset).get("offset"@) == Some(json::int_view(n as int)),
        offset is None ==> updates_body(offset).get("offset"@) == Some(JsonView::Null),
        updates_body(offset).get("timeout"@) == Some(json::int_view(50)),
        updates_body(offset).get("allowed_updates"@) matches Some(JsonView::Array(kinds)) && kinds.contains(
            JsonView::Text("message"@),
        ) && kinds.contains(JsonView::Text("edited_message"@)) && kinds.contains(
            JsonView::Text("message_reaction"@),
        ),
{
    lemma_request_names();
    lemma_updates_body(offset, "offset"@);
    lemma_updates_body(offset, "timeout"@);
    lemma_updates_body(offset, "allowed_updates"@);
    let kinds = updates_body(offset).get("allowed_updates"@)->0->Array_0;
    assert(kinds[0] == JsonView::Text("message"@));
    assert(kinds[1] == JsonView::Text("edited_message"@));
    assert(kinds[2] == JsonView::Text("message_reaction"@));
}

/// The id of a message that was sent is the one in the answer, and 0 where the answer has none.
pub proof fn law_sent_ids_are_read(n: i64, others: Seq<(Seq<char>, JsonView)>)
    ensures
        json::member(others, "message_id"@) is None ==> sent_message_id(
            JsonView::Object(others + field("message_id"@, json::int_view(n as int))),
        ) == n,
        json::member(others, "message_id"@) is None ==> sent_message_id(JsonView::Object(others)) == 0,
        sent_message_id(JsonView::Null) == 0,
{
    lemma_field(others, "message_id"@, json::int_view(n as int), "message_id"@);
    number::law_number_roundtrip(n);
}

// ---------------------------------------------------------------------------------------------
// What updates say
// ---------------------------------------------------------------------------------------------

/// A person goes by the first and the last name with a space in between, or by the first alone.
pub proof fn law_people_go_by_both_names(first: Seq<char>, last: Seq<char>)
    ensures
        last.len() > 0 && !text::white(last[last.len() - 1]) ==> person_name(first, last) == first.push(' ') + last,
        first.len() > 0 && !text::white(first[first.len() - 1]) && last.len() == 0 ==> person_name(first, last)
            == first,
        first.len() == 0 && last.len() == 0 ==> person_name(first, last).len() == 0,
{
    reveal_strlit(" ");
    let all = first + " "@ + last;
    if last.len() > 0 {
        assert(all =~= first.push(' ') + last);
        assert(all.last() == last.last());
    } else {
        assert(all =~= first.push(' '));
        assert(all.drop_last() =~= first);
        assert(text::white(' '));
        assert(text::trim_end(all) == text::trim_end(first));
    }
}

/// A chat goes by the person it is with, else by its title, else by its number.
pub proof fn law_chats_go_by_what_is_known(chat: TgChat)
    ensures
        chat.last_name@.len() > 0 && !text::white(chat.last_name@[chat.last_name@.len() - 1]) ==> chat.name()
            == chat.first_name@.push(' ') + chat.last_name@,
        chat.first_name@.len() > 0 && !text::white(chat.first_name@[chat.first_name@.len() - 1])
            && chat.last_name@.len() == 0 ==> chat.name() == chat.first_name@,
        chat.first_name@.len() == 0 && chat.last_name@.len() == 0 ==> (chat.title matches Some(title) ==> chat.name()
            == title@),
        chat.first_name@.len() == 0 && chat.last_name@.len() == 0 && chat.title is None ==> chat.name() == "chat "@
            + number::dec_int(chat.id as int),
{
    law_people_go_by_both_names(chat.first_name@, chat.last_name@);
}

/// The title of a topic is what it was renamed to, else what it was created with, else what the topic
/// that the message belongs to was created with.
pub proof fn law_topics_are_titled(msg: TgMessage)
    ensures
        msg.forum_topic_edited matches Some(edit) ==> (edit.name matches Some(name) ==> msg.topic() == Some(name@)),
        msg.forum_topic_edited is None ==> (msg.forum_topic_created matches Some(topic) ==> msg.topic() == Some(
            topic.name@,
        )),
        msg.forum_topic_edited is None && msg.forum_topic_created is None ==> (msg.reply_to_message matches Some(r)
            ==> (r.forum_topic_created matches Some(topic) ==> msg.topic() == Some(topic.name@))),
        msg.forum_topic_edited is None && msg.forum_topic_created is None && msg.reply_to_message is None
            ==> msg.topic() is None,
        msg.text matches Some(t) ==> msg.body() == Some(t@),
        msg.text is None ==> (msg.caption matches Some(t) ==> msg.body() == Some(t@)),
        msg.text is None && msg.caption is None ==> msg.body() is None,
{
}

/// Reactions are listed in order with a space between each two, each by its emoji or, where it has
/// none, by its kind.
pub proof fn law_reactions_are_listed(list: Seq<ReactionType>, r: ReactionType)
    ensures
        list.len() == 0 ==> reactions_text(list) == "(none)"@,
        list.len() == 0 ==> reactions_text(list.push(r)) == reaction_text(r),
        list.len() > 0 ==> reactions_text(list.push(r)) == reactions_text(list).push(' ') + reaction_text(r),
        r.emoji matches Some(emoji) ==> reaction_text(r) == emoji@,
        r.emoji is None ==> reaction_text(r) == r.kind@,
{
    reveal_strlit(" ");
    let each = Seq::new(list.len(), |i: int| reaction_text(list[i]));
    let all = Seq::new(list.push(r).len(), |i: int| reaction_text(list.push(r)[i]));
    assert(all =~= each.push(reaction_text(r)));
    if list.len() > 0 {
        search::law_joined_in_order(reaction_text(r), each, " "@);
        assert(reactions_text(list) + " "@ + reaction_text(r) =~= reactions_text(list).push(' ') + reaction_text(r));
    }
}

/// Of the sizes of a photo the last one is fetched, into a JPEG file that bears the number of the
/// message; a document is fetched into a file that bears it too, with the name that it was given.
pub proof fn law_downloads_are_named(msg: TgMessage, dir: Seq<char>)
    ensures
        ({
            let photo = photo_download(msg, dir);
            let document = document_download(msg, dir);
            let id = number::dec_int(msg.message_id as int);
            &&& msg.photo@.len() == 0 ==> photo.len() == 0
            &&& msg.photo@.len() > 0 ==> photo.len() == 1 && photo[0].file_id == msg.photo@[msg.photo@.len()
                - 1].file_id@ && photo[0].is_image && photo[0].path == paths::join(dir, "photo_"@ + id + ".jpg"@)
            &&& msg.document is None ==> document.len() == 0
            &&& msg.document matches Some(doc) ==> document.len() == 1 && document[0].file_id == doc.file_id@
                && !document[0].is_image
            &&& msg.document matches Some(doc) ==> (doc.file_name is None ==> document[0].path == paths::join(
                dir,
                id + "_file_"@ + id,
            ))
            &&& msg.document matches Some(doc) ==> (doc.file_name matches Some(name) ==> (!name@.contains('/')
                ==> document[0].path == paths::join(dir, id.push('_') + name@)))
        }),
{
    reveal_strlit("_");
    reveal_strlit("file_");
    reveal_strlit("_file_");
    let id = number::dec_int(msg.message_id as int);
    if let Some(doc) = msg.document {
        match doc.file_name {
            None => {
                assert(id + "_"@ + ("file_"@ + id) =~= id + "_file_"@ + id);
            },
            Some(name) => {
                if !name@.contains('/') {
                    paths::law_behind_the_last(Seq::empty(), '/', name@);
                    assert(id + "_"@ + name@ =~= id.push('_') + name@);
                }
            },
        }
    }
}

/// Whatever directories a document claims, its file gets into the given one: of its name only what
/// stands behind the last slash is used.
pub proof fn law_documents_stay_in_the_directory(msg: TgMessage, dir: Seq<char>, a: Seq<char>, b: Seq<char>)
    requires
        !b.contains('/'),
    ensures
        msg.document matches Some(doc) ==> (doc.file_name matches Some(name) ==> (name@ == a.push('/') + b
            ==> document_download(msg, dir)[0].path == paths::join(
            dir,
            number::dec_int(msg.message_id as int).push('_') + b,
        ))),
{
    reveal_strlit("_");
    paths::law_behind_the_last(a, '/', b);
    let id = number::dec_int(msg.message_id as int);
    assert(id + "_"@ + b =~= id.push('_') + b);
}

/// Times are shown to the second, in UTC; a time that cannot be shown is left out. Bytes are embedded
/// with their kind before them.
pub proof fn law_times_and_images_are_shown(date: i64, bytes: Seq<u8>, mime: Seq<char>)
    ensures
        formatted_time(date, "%Y-%m-%d %H:%M:%S UTC"@) matches Some(t) ==> stamp(date) == t,
        formatted_time(date, "%Y-%m-%d %H:%M:%S UTC"@) is None ==> stamp(date).len() == 0,
        data_url(bytes, mime) == "data:"@ + mime + ";base64,"@ + base64_text(bytes),
{
}

/// An event belongs to the chat and topic of its message, or to the chat of the message reacted to.
pub proof fn law_events_belong_to_their_chat(event: Event)
    ensures
        event.kind matches EventKind::Message { msg, .. } ==> event.channel() == (msg.chat.id, msg.message_thread_id)
            && event.origin() == msg.chat,
        event.kind matches EventKind::Reaction(r) ==> event.channel() == (r.chat.id, None::<i64>) && event.origin()
            == r.chat,
{
}

/// A request may wait for updates for 50 seconds, and no file of more than 20 MiB is fetched; a file
/// whose size is not known counts as empty.
pub proof fn law_telegram_limits(file: TgFile)
    ensures
        LONG_POLL_SECS == 50,
        MAX_DOWNLOAD_BYTES == 20 * 1024 * 1024,
        file.file_size matches Some(n) ==> known_size(file) == n,
        file.file_size is None ==> known_size(file) == 0,
{
}

/// A user goes by the first and the last name too, and only a chat of the kind `private` is private.
pub proof fn law_users_go_by_both_names(user: TgUser, chat: TgChat)
    ensures
        user.last_name@.len() > 0 && !text::white(user.last_name@[user.last_name@.len() - 1]) ==> user.name()
            == user.first_name@.push(' ') + user.last_name@,
        user.first_name@.len() > 0 && !text::white(user.first_name@[user.first_name@.len() - 1])
            && user.last_name@.len() == 0 ==> user.name() == user.first_name@,
        chat.private() <==> chat.kind@ == "private"@,
        chat.title matches Some(title) ==> chat.caption() == title@,
        chat.title is None ==> chat.caption() == "chat "@ + number::dec_int(chat.id as int),
{
    law_people_go_by_both_names(user.first_name@, user.last_name@);
}

} // verus!
