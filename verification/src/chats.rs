//! Registry of chats the bot has seen and a per-chat ring buffer of recent messages. The Bot API
//! can neither enumerate chats nor fetch history, so both are accumulated from updates that passed
//! the ingress filter.
use crate::paths;
use crate::paths::path_join;
use crate::text;
use crate::tg::{TgChat, TgMessage};
use std::collections::BTreeMap;
use vstd::prelude::*;

verus! {

broadcast use {vstd::seq::group_seq_axioms, vstd::std_specs::btree::group_btree_axioms};

/// Recent messages kept per chat.
pub const HISTORY_CAP: usize = 50;

/// What is known of a chat.
#[derive(Debug, Clone)]
pub struct ChatInfo {
    pub kind: String,
    pub title: Option<String>,
}

/// What a [`ChatInfo`] holds.
pub struct ChatInfoView {
    pub kind: Seq<char>,
    pub title: Option<Seq<char>>,
}

impl View for ChatInfo {
    type V = ChatInfoView;

    open spec fn view(&self) -> ChatInfoView {
        ChatInfoView { kind: self.kind@, title: text::opt_str(self.title) }
    }
}

/// A message of a chat's history.
#[derive(Debug, Clone)]
pub struct HistoryEntry {
    pub date: i64,
    pub message_id: i64,
    pub author: String,
    pub text: String,
}

/// What a [`HistoryEntry`] holds.
pub struct HistoryEntryView {
    pub date: i64,
    pub message_id: i64,
    pub author: Seq<char>,
    pub text: Seq<char>,
}

impl View for HistoryEntry {
    type V = HistoryEntryView;

    open spec fn view(&self) -> HistoryEntryView {
        HistoryEntryView {
            date: self.date,
            message_id: self.message_id,
            author: self.author@,
            text: self.text@,
        }
    }
}

/// What a history holds.
pub open spec fn history_view(h: Seq<HistoryEntry>) -> Seq<HistoryEntryView> {
    Seq::new(h.len(), |i: int| h[i]@)
}

/// What is persisted.
#[derive(Debug)]
pub struct Persisted {
    pub chats: BTreeMap<i64, ChatInfo>,
    pub history: BTreeMap<i64, Vec<HistoryEntry>>,
}

/// What is known of the chats of a map.
pub open spec fn chats_view(m: Map<i64, ChatInfo>) -> Map<i64, ChatInfoView> {
    m.map_values(|c: ChatInfo| c@)
}

/// The histories of a map.
pub open spec fn histories_view(m: Map<i64, Vec<HistoryEntry>>) -> Map<i64, Seq<HistoryEntryView>> {
    m.map_values(|h: Vec<HistoryEntry>| history_view(h@))
}

/// Owned by the agent (single writer).
#[derive(Debug)]
pub struct Chats {
    path: String,
    data: Persisted,
}

/// What [`Chats`] holds: where it is persisted, the chats and their histories.
pub struct ChatsView {
    pub path: Seq<char>,
    pub chats: Map<i64, ChatInfoView>,
    pub history: Map<i64, Seq<HistoryEntryView>>,
}

impl View for Chats {
    type V = ChatsView;

    closed spec fn view(&self) -> ChatsView {
        ChatsView {
            path: self.path@,
            chats: chats_view(self.data.chats@),
            history: histories_view(self.data.history@),
        }
    }
}

/// What is known of a chat.
pub open spec fn info(chat: TgChat) -> ChatInfoView {
    ChatInfoView { kind: chat.kind@, title: text::opt_str(chat.title) }
}

/// Entry of a message. Channel posts are authored by the channel itself.
pub open spec fn entry(msg: TgMessage) -> HistoryEntryView {
    HistoryEntryView {
        date: msg.date,
        message_id: msg.message_id,
        author: match msg.from {
            Some(u) => u.name(),
            None => msg.chat.caption(),
        },
        text: msg.body()->0,
    }
}

/// Index of the first entry of that message; the length where there is none.
pub open spec fn index_of(h: Seq<HistoryEntryView>, message_id: i64) -> int
    decreases h.len(),
{
    if h.len() == 0 || h[0].message_id == message_id {
        0
    } else {
        1 + index_of(h.drop_first(), message_id)
    }
}

/// The newest entries, as many as are kept.
pub open spec fn newest(h: Seq<HistoryEntryView>, limit: nat) -> Seq<HistoryEntryView> {
    if h.len() <= limit {
        h
    } else {
        h.skip(h.len() - limit)
    }
}

/// A history with one more entry, or with an entry in place of the one of the same message.
pub open spec fn upserted(h: Seq<HistoryEntryView>, e: HistoryEntryView) -> Seq<HistoryEntryView> {
    let i = index_of(h, e.message_id);
    if i < h.len() {
        h.update(i, e)
    } else {
        newest(h.push(e), HISTORY_CAP as nat)
    }
}

/// The history of a chat as far as there is one.
pub open spec fn history_of(m: Map<i64, Seq<HistoryEntryView>>, chat_id: i64) -> Seq<HistoryEntryView> {
    if m.contains_key(chat_id) {
        m[chat_id]
    } else {
        Seq::empty()
    }
}

proof fn lemma_index_of(h: Seq<HistoryEntryView>, message_id: i64)
    ensures
        0 <= index_of(h, message_id) <= h.len(),
        index_of(h, message_id) < h.len() ==> h[index_of(h, message_id)].message_id == message_id,
        forall|k: int| 0 <= k < index_of(h, message_id) ==> (#[trigger] h[k]).message_id != message_id,
    decreases h.len(),
{
    if h.len() > 0 && h[0].message_id != message_id {
        let t = h.drop_first();
        lemma_index_of(t, message_id);
        assert forall|k: int| 0 <= k < index_of(h, message_id) implies (#[trigger] h[k]).message_id != message_id by {
            if k > 0 {
                assert(t[k - 1] == h[k]);
            }
        }
        if index_of(h, message_id) < h.len() {
            assert(t[index_of(t, message_id)] == h[index_of(h, message_id)]);
        }
    }
}

/// A history never outgrows its cap.
pub proof fn law_history_is_capped(h: Seq<HistoryEntryView>, e: HistoryEntryView)
    requires
        h.len() <= HISTORY_CAP,
    ensures
        upserted(h, e).len() <= HISTORY_CAP,
{
    lemma_index_of(h, e.message_id);
}

/// An edit replaces the stored text in place: a second entry of the same message leaves as many
/// entries as the first one, and only the second is left of the two.
pub proof fn law_edits_replace(h: Seq<HistoryEntryView>, e: HistoryEntryView, edit: HistoryEntryView)
    requires
        edit.message_id == e.message_id,
    ensures
        upserted(upserted(h, e), edit).len() == upserted(h, e).len(),
        upserted(upserted(h, e), edit) == upserted(h, edit),
{
    let id = e.message_id;
    lemma_index_of(h, id);
    let i = index_of(h, id);
    let once = upserted(h, e);
    lemma_index_of(once, id);
    let j = index_of(once, id);
    if i < h.len() {
        assert(once[i].message_id == id);
        assert(j <= i);
        if j < i {
            assert(once[j] == h[j]);
        }
        assert(once.update(i, edit) =~= h.update(i, edit));
    } else {
        let all = h.push(e);
        let dropped = if all.len() <= HISTORY_CAP {
            0
        } else {
            all.len() - HISTORY_CAP
        };
        assert(once =~= all.skip(dropped));
        let last = once.len() - 1;
        assert(once[last] == e);
        assert(j <= last);
        if j < last {
            assert(once[j] == h[j + dropped]);
        }
        assert(once.update(last, edit) =~= h.push(edit).skip(dropped));
        assert(h.push(edit).skip(0) =~= h.push(edit));
    }
}

impl Chats {
    /// What was persisted in the state directory, if there is any.
    pub fn load(state_dir: &str, data: Option<Persisted>) -> (r: Self)
        ensures
            r@.path == paths::join(state_dir@, "chats.json"@),
            match data {
                Some(d) => r@.chats == chats_view(d.chats@) && r@.history == histories_view(d.history@),
                None => r@.chats == Map::<i64, ChatInfoView>::empty() && r@.history == Map::<
                    i64,
                    Seq<HistoryEntryView>,
                >::empty(),
            },
    {
        let path = path_join(state_dir, "chats.json");
        match data {
            Some(data) => Chats { path, data },
            None => {
                let r = Chats { path, data: Persisted { chats: BTreeMap::new(), history: BTreeMap::new() } };
                proof {
                    assert(r@.chats =~= Map::<i64, ChatInfoView>::empty());
                    assert(r@.history =~= Map::<i64, Seq<HistoryEntryView>>::empty());
                }
                r
            },
        }
    }

    /// Where the registry is persisted.
    pub fn path(&self) -> (r: &str)
        ensures
            r@ == self@.path,
    {
        self.path.as_str()
    }

    /// What is to be persisted after each change.
    pub fn save(&self) -> (r: &Persisted)
        ensures
            chats_view(r.chats@) == self@.chats,
            histories_view(r.history@) == self@.history,
    {
        &self.data
    }

    fn record_chat(&mut self, chat: &TgChat)
        ensures
            final(self)@ == (ChatsView { chats: old(self)@.chats.insert(chat.id, info(*chat)), ..old(self)@ }),
    {
        let title = match &chat.title {
            Some(t) => Some(t.clone()),
            None => None,
        };
        let known = ChatInfo { kind: chat.kind.clone(), title };
        let _ = self.data.chats.insert(chat.id, known);
        proof {
            assert(self@.chats =~= old(self)@.chats.insert(chat.id, info(*chat)));
        }
    }

    /// Record a chat.
    pub fn observe_chat(&mut self, chat: &TgChat)
        ensures
            final(self)@ == (ChatsView { chats: old(self)@.chats.insert(chat.id, info(*chat)), ..old(self)@ }),
    {
        self.record_chat(chat);
    }

    /// Record a message in its chat's history; an edit replaces the stored text in place. Media
    /// without caption has nothing to re-read later.
    pub fn observe_message(&mut self, msg: &TgMessage)
        ensures
            final(self)@ == (ChatsView {
                chats: old(self)@.chats.insert(msg.chat.id, info(msg.chat)),
                history: if msg.body() is Some {
                    old(self)@.history.insert(
                        msg.chat.id,
                        upserted(history_of(old(self)@.history, msg.chat.id), entry(*msg)),
                    )
                } else {
                    old(self)@.history
                },
                ..old(self)@
            }),
    {
        self.record_chat(&msg.chat);
        let ghost before = self@;
        let body = match msg.text_or_caption() {
            Some(t) => t.to_owned(),
            None => {
                return;
            },
        };
        let author = match &msg.from {
            Some(u) => u.display_name(),
            None => msg.chat.label(),
        };
        let new = HistoryEntry { date: msg.date, message_id: msg.message_id, author, text: body };
        let mut history = match self.data.history.remove(&msg.chat.id) {
            Some(h) => h,
            None => Vec::new(),
        };
        let ghost h = history_view(history@);
        proof {
            assert(h =~= history_of(before.history, msg.chat.id));
            assert(new@ == entry(*msg));
            lemma_index_of(h, msg.message_id);
        }
        let n: usize = history.len();
        let mut i: usize = 0;
        while i < n && history[i].message_id != msg.message_id
            invariant
                i <= n,
                n == history@.len(),
                h == history_view(history@),
                i <= index_of(h, msg.message_id) <= h.len(),
                index_of(h, msg.message_id) < h.len() ==> h[index_of(h, msg.message_id)].message_id == msg.message_id,
                forall|k: int|
                    0 <= k < index_of(h, msg.message_id) ==> (#[trigger] h[k]).message_id != msg.message_id,
            decreases n - i,
        {
            proof {
                assert(h[i as int] == history@[i as int]@);
            }
            i += 1;
        }
        proof {
            if i < n {
                assert(h[i as int] == history@[i as int]@);
            }
            assert(i == index_of(h, msg.message_id));
        }
        let ghost e = new@;
        if i < n {
            history.set(i, new);
            proof {
                assert(history_view(history@) =~= h.update(i as int, e));
            }
        } else {
            history.push(new);
            proof {
                assert(history_view(history@) =~= h.push(e));
            }
            if history.len() > HISTORY_CAP {
                let excess: usize = history.len() - HISTORY_CAP;
                let kept = history.split_off(excess);
                history = kept;
                proof {
                    assert(history_view(history@) =~= h.push(e).skip(excess as int));
                }
            }
        }
        proof {
            assert(history_view(history@) == upserted(h, e));
        }
        let _ = self.data.history.insert(msg.chat.id, history);
        proof {
            assert(self@.history =~= before.history.insert(msg.chat.id, upserted(h, e)));
        }
    }

    /// The chats that the bot has seen.
    pub fn known(&self) -> (r: &BTreeMap<i64, ChatInfo>)
        ensures
            chats_view(r@) == self@.chats,
    {
        &self.data.chats
    }

    /// The `limit` newest entries, oldest first.
    pub fn recent(&self, chat_id: i64, limit: usize) -> (r: Option<&[HistoryEntry]>)
        ensures
            match r {
                Some(h) => self@.history.contains_key(chat_id) && history_view(h@) == newest(
                    self@.history[chat_id],
                    limit as nat,
                ),
                None => !self@.history.contains_key(chat_id),
            },
    {
        match self.data.history.get(&chat_id) {
            Some(history) => {
                let n: usize = history.len();
                let start: usize = if n > limit { n - limit } else { 0 };
                let part = vstd::slice::slice_subrange(history.as_slice(), start, n);
                proof {
                    assert(history_view(part@) =~= newest(self@.history[chat_id], limit as nat));
                }
                Some(part)
            },
            None => None,
        }
    }
}

/// A new message stands at the end of the history, behind the 49 newest of those before it, in order.
pub proof fn law_new_messages_come_last(h: Seq<HistoryEntryView>, e: HistoryEntryView)
    requires
        forall|i: int| 0 <= i < h.len() ==> (#[trigger] h[i]).message_id != e.message_id,
    ensures
        upserted(h, e).len() > 0,
        upserted(h, e).last() == e,
        h.len() < 50 ==> upserted(h, e).drop_last() == h,
        h.len() >= 50 ==> upserted(h, e).drop_last() == h.skip(h.len() - 49),
{
    lemma_index_of(h, e.message_id);
    let now = upserted(h, e);
    if h.len() < 50 {
        assert(now.drop_last() =~= h);
    } else {
        assert(now.drop_last() =~= h.skip(h.len() - 49));
    }
}

/// The newest entries are the last ones, as many as were asked for or as there are.
pub proof fn law_newest_are_the_last(h: Seq<HistoryEntryView>, limit: nat)
    ensures
        newest(h, limit).len() == (if h.len() < limit {
            h.len()
        } else {
            limit
        }),
        h.skip(h.len() - newest(h, limit).len()) == newest(h, limit),
{
    assert(h.skip(0) =~= h);
}

/// A history entry holds the message's own date, number and text, and the name of its author, or of
/// the chat where it has none.
pub proof fn law_entries_hold_the_message(msg: TgMessage)
    ensures
        entry(msg).date == msg.date,
        entry(msg).message_id == msg.message_id,
        msg.text matches Some(t) ==> entry(msg).text == t@,
        msg.text is None ==> (msg.caption matches Some(t) ==> entry(msg).text == t@),
        msg.from matches Some(u) ==> entry(msg).author == u.name(),
        msg.from is None ==> (msg.chat.title matches Some(t) ==> entry(msg).author == t@),
{
}

/// What is kept of a chat is its kind and its title; a chat that nothing was said in has no history.
pub proof fn law_chats_are_kept(chat: TgChat, m: Map<i64, Seq<HistoryEntryView>>, id: i64)
    ensures
        info(chat).kind == chat.kind@,
        chat.title matches Some(t) ==> info(chat).title == Some(t@),
        chat.title is None ==> info(chat).title is None,
        m.contains_key(id) ==> history_of(m, id) == m[id],
        !m.contains_key(id) ==> history_of(m, id).len() == 0,
{
}

} // verus!
