//! Registry of Telegram channels the agent addresses by name — every DM, group and forum topic is
//! its own channel — and the lines of the append-only event logs in `workspace/chat/`. The Bot API
//! can neither enumerate chats nor fetch a topic's name on demand, so names are learned from
//! updates that passed the ingress filter and frozen at first sight (a later rename changes
//! nothing, which also keeps log file names stable).
use crate::naming;
use crate::naming::{first_free_name, is_taken};
use crate::number;
use crate::number::dec_signed;
use crate::order;
use crate::order::{sort_keyed, Keyed};
use crate::paths;
use crate::paths::path_join;
use crate::search;
use crate::search::joined;
use crate::session::copy_strings;
use crate::text;
use crate::text::{from_chars, str_eq, to_chars, trimmed_end};
use crate::tg;
use crate::tg::{render_reactions, timestamp, MessageReaction, TgChat, TgMessage};
use crate::unicode;
use crate::unicode::{is_alphanumeric, to_lowercase};
use vstd::prelude::*;

verus! {

broadcast use vstd::seq::group_seq_axioms;

/// Channel address: chat id plus the forum topic it belongs to, if any.
pub type Key = (i64, Option<i64>);

/// A channel.
#[derive(Debug)]
pub struct Channel {
    /// Display name shown to the model; unique across channels.
    pub name: String,
    pub kind: String,
    /// Log file name inside `workspace/chat/`, derived from the name.
    pub log: String,
}

/// What a [`Channel`] holds.
pub struct ChannelView {
    pub name: Seq<char>,
    pub kind: Seq<char>,
    pub log: Seq<char>,
}

impl View for Channel {
    type V = ChannelView;

    open spec fn view(&self) -> ChannelView {
        ChannelView { name: self.name@, kind: self.kind@, log: self.log@ }
    }
}

/// Row of the persisted registry.
#[derive(Debug)]
pub struct Row {
    pub chat_id: i64,
    pub thread: Option<i64>,
    pub name: String,
    pub kind: String,
    pub log: String,
}

impl View for Row {
    type V = (Key, ChannelView);

    open spec fn view(&self) -> (Key, ChannelView) {
        (
            (self.chat_id, self.thread),
            ChannelView { name: self.name@, kind: self.kind@, log: self.log@ },
        )
    }
}

/// What rows hold.
pub open spec fn rows_view(rows: Seq<Row>) -> Seq<(Key, ChannelView)> {
    Seq::new(rows.len(), |i: int| rows[i]@)
}

/// A line to append to a file.
#[derive(Debug)]
pub struct LogLine {
    pub path: String,
    pub line: String,
}

/// What a [`LogLine`] holds.
pub struct LogLineView {
    pub path: Seq<char>,
    pub line: Seq<char>,
}

impl View for LogLine {
    type V = LogLineView;

    open spec fn view(&self) -> LogLineView {
        LogLineView { path: self.path@, line: self.line@ }
    }
}

/// What a line that may be missing holds.
pub open spec fn line_view(line: Option<LogLine>) -> Option<LogLineView> {
    match line {
        Some(l) => Some(l@),
        None => None,
    }
}

/// What lines hold.
pub open spec fn lines_view(lines: Seq<LogLine>) -> Seq<LogLineView> {
    Seq::new(lines.len(), |i: int| lines[i]@)
}

/// What is to be done after something was recorded: a line to append, and whether the registry has
/// changed and has to be persisted.
#[derive(Debug)]
pub struct Recorded {
    pub line: Option<LogLine>,
    pub save: bool,
}

/// What a [`Recorded`] holds.
pub open spec fn recorded_view(r: Recorded) -> (Option<LogLineView>, bool) {
    (line_view(r.line), r.save)
}

// ---------------------------------------------------------------------------------------------
// Entries in the order of their addresses
// ---------------------------------------------------------------------------------------------

/// Whether the address `a` comes before `b`: by chat, then the chat itself before its topics.
pub open spec fn key_before(a: Key, b: Key) -> bool {
    a.0 < b.0 || (a.0 == b.0 && (match (a.1, b.1) {
        (None, Some(_)) => true,
        (Some(x), Some(y)) => x < y,
        _ => false,
    }))
}

/// Whether entries stand in the order of their addresses, each address once.
pub open spec fn in_key_order(s: Seq<(Key, ChannelView)>) -> bool {
    forall|i: int, j: int| 0 <= i < j < s.len() ==> key_before((#[trigger] s[i]).0, (#[trigger] s[j]).0)
}

/// The channel at an address.
pub open spec fn lookup(s: Seq<(Key, ChannelView)>, key: Key) -> Option<ChannelView>
    decreases s.len(),
{
    if s.len() == 0 {
        None
    } else if s[0].0 == key {
        Some(s[0].1)
    } else {
        lookup(s.drop_first(), key)
    }
}

/// The entries with `c` at `key`, in place of what stood there.
pub open spec fn put(s: Seq<(Key, ChannelView)>, key: Key, c: ChannelView) -> Seq<(Key, ChannelView)>
    decreases s.len(),
{
    if s.len() == 0 {
        seq![(key, c)]
    } else if s[0].0 == key {
        s.update(0, (key, c))
    } else if key_before(key, s[0].0) {
        seq![(key, c)] + s
    } else {
        seq![s[0]] + put(s.drop_first(), key, c)
    }
}

/// The entries that rows stand for; of two with the same address the later one counts.
pub open spec fn from_rows(rows: Seq<(Key, ChannelView)>) -> Seq<(Key, ChannelView)>
    decreases rows.len(),
{
    if rows.len() == 0 {
        Seq::empty()
    } else {
        put(from_rows(rows.drop_last()), rows.last().0, rows.last().1)
    }
}

/// The names of all channels.
pub open spec fn names_of(s: Seq<(Key, ChannelView)>) -> Seq<Seq<char>> {
    Seq::new(s.len(), |i: int| s[i].1.name)
}

/// The log files of all channels.
pub open spec fn logs_of(s: Seq<(Key, ChannelView)>) -> Seq<Seq<char>> {
    Seq::new(s.len(), |i: int| s[i].1.log)
}

proof fn lemma_put_at(s: Seq<(Key, ChannelView)>, key: Key, c: ChannelView, i: int)
    requires
        0 <= i <= s.len(),
        forall|k: int| 0 <= k < i ==> (#[trigger] s[k]).0 != key && !key_before(key, s[k].0),
        i < s.len() ==> s[i].0 == key || key_before(key, s[i].0),
    ensures
        put(s, key, c) == (if i < s.len() && s[i].0 == key {
            s.update(i, (key, c))
        } else {
            s.insert(i, (key, c))
        }),
    decreases s.len(),
{
    if i == 0 {
        if s.len() == 0 || s[0].0 != key {
            assert(put(s, key, c) =~= s.insert(0, (key, c)));
        }
    } else {
        let t = s.drop_first();
        assert(s[0].0 != key && !key_before(key, s[0].0));
        assert forall|k: int| 0 <= k < i - 1 implies (#[trigger] t[k]).0 != key && !key_before(key, t[k].0) by {
            assert(t[k] == s[k + 1]);
        }
        lemma_put_at(t, key, c, i - 1);
        if i < s.len() && s[i].0 == key {
            assert(seq![s[0]] + t.update(i - 1, (key, c)) =~= s.update(i, (key, c)));
        } else {
            assert(seq![s[0]] + t.insert(i - 1, (key, c)) =~= s.insert(i, (key, c)));
        }
    }
}

proof fn lemma_lookup_at(s: Seq<(Key, ChannelView)>, key: Key, i: int)
    requires
        0 <= i <= s.len(),
        forall|k: int| 0 <= k < i ==> (#[trigger] s[k]).0 != key,
    ensures
        lookup(s, key) == lookup(s.skip(i), key),
        i < s.len() && s[i].0 == key ==> lookup(s, key) == Some(s[i].1),
    decreases i,
{
    if i == 0 {
        assert(s.skip(0) =~= s);
    } else {
        let t = s.drop_first();
        assert(s[0].0 != key);
        assert forall|k: int| 0 <= k < i - 1 implies (#[trigger] t[k]).0 != key by {
            assert(t[k] == s[k + 1]);
        }
        lemma_lookup_at(t, key, i - 1);
        assert(t.skip(i - 1) =~= s.skip(i));
    }
}

/// Where an address goes: the index of its entry, or where one would be inserted.
proof fn lemma_place_exists(s: Seq<(Key, ChannelView)>, key: Key) -> (i: int)
    requires
        in_key_order(s),
    ensures
        0 <= i <= s.len(),
        forall|k: int| 0 <= k < i ==> (#[trigger] s[k]).0 != key && !key_before(key, s[k].0),
        i < s.len() ==> s[i].0 == key || key_before(key, s[i].0),
    decreases s.len(),
{
    if s.len() == 0 || s[0].0 == key || key_before(key, s[0].0) {
        0
    } else {
        let t = s.drop_first();
        assert forall|i: int, j: int| 0 <= i < j < t.len() implies key_before((#[trigger] t[i]).0, (#[trigger] t[j]).0) by {
            assert(t[i] == s[i + 1] && t[j] == s[j + 1]);
        }
        let i = lemma_place_exists(t, key);
        assert forall|k: int| 0 <= k < i + 1 implies (#[trigger] s[k]).0 != key && !key_before(key, s[k].0) by {
            if k > 0 {
                assert(t[k - 1] == s[k]);
            }
        }
        assert(i < t.len() ==> t[i] == s[i + 1]);
        i + 1
    }
}

/// Putting a channel in keeps the order of the addresses; it is found there, and everything else is
/// found as before.
pub proof fn law_put(s: Seq<(Key, ChannelView)>, key: Key, c: ChannelView, other: Key)
    requires
        in_key_order(s),
    ensures
        in_key_order(put(s, key, c)),
        lookup(put(s, key, c), key) == Some(c),
        other != key ==> lookup(put(s, key, c), other) == lookup(s, other),
{
    let i = lemma_place_exists(s, key);
    lemma_put_at(s, key, c, i);
    let t = put(s, key, c);
    assert forall|a: int, b: int| 0 <= a < b < t.len() implies key_before((#[trigger] t[a]).0, (#[trigger] t[b]).0) by {
        let found = i < s.len() && s[i].0 == key;
        let x = if found || a < i { a } else { a - 1 };
        let y = if found || b < i { b } else { b - 1 };
        if a != i {
            assert(t[a].0 == s[x].0);
        }
        if b != i {
            assert(t[b].0 == s[y].0);
        }
        if !found && i < s.len() && b > i {
            assert(y == i || key_before(s[i].0, s[y].0));
        }
    }
    assert forall|k: int| 0 <= k < i implies (#[trigger] t[k]).0 != key by {
        assert(t[k] == s[k]);
    }
    lemma_lookup_at(t, key, i);
    if other != key {
        lemma_lookup_other(s, key, c, other);
    }
}

proof fn lemma_lookup_other(s: Seq<(Key, ChannelView)>, key: Key, c: ChannelView, other: Key)
    requires
        other != key,
    ensures
        lookup(put(s, key, c), other) == lookup(s, other),
    decreases s.len(),
{
    if s.len() == 0 {
        assert(put(s, key, c).drop_first() =~= s);
    } else if s[0].0 == key {
        assert(put(s, key, c).drop_first() =~= s.drop_first());
    } else if key_before(key, s[0].0) {
        assert(put(s, key, c).drop_first() =~= s);
    } else {
        lemma_lookup_other(s.drop_first(), key, c, other);
        assert(put(s, key, c).drop_first() =~= put(s.drop_first(), key, c));
    }
}

/// The registry that is persisted is the one that is read back.
pub proof fn law_registry_roundtrip(s: Seq<(Key, ChannelView)>)
    requires
        in_key_order(s),
    ensures
        from_rows(s) == s,
    decreases s.len(),
{
    if s.len() == 0 {
        assert(from_rows(s) =~= s);
    } else {
        let t = s.drop_last();
        assert forall|i: int, j: int| 0 <= i < j < t.len() implies key_before((#[trigger] t[i]).0, (#[trigger] t[j]).0) by {
            assert(t[i] == s[i] && t[j] == s[j]);
        }
        law_registry_roundtrip(t);
        assert forall|k: int| 0 <= k < t.len() implies (#[trigger] t[k]).0 != s.last().0 && !key_before(
            s.last().0,
            t[k].0,
        ) by {
            assert(t[k] == s[k]);
            assert(key_before(s[k].0, s[s.len() - 1].0));
        }
        lemma_put_at(t, s.last().0, s.last().1, t.len() as int);
        assert(t.insert(t.len() as int, s.last()) =~= s);
    }
}

// ---------------------------------------------------------------------------------------------
// Names
// ---------------------------------------------------------------------------------------------

/// `name`, or `name` with the first number from two on where it is taken.
pub open spec fn unique(taken: Seq<Seq<char>>, name: Seq<char>) -> Seq<char> {
    if taken.contains(name) {
        naming::first_free(taken, name + "-"@, ""@, 2)
    } else {
        name
    }
}

/// Log file of a stem, with the first number from two on where it is taken.
pub open spec fn unique_file(taken: Seq<Seq<char>>, stem: Seq<char>) -> Seq<char> {
    if taken.contains(stem + ".log"@) {
        naming::first_free(taken, stem + "-"@, ".log"@, 2)
    } else {
        stem + ".log"@
    }
}

/// A name that nobody has, made of `name`. A dash suffix survives `sanitize` unchanged, so the
/// display name and the log file stem stay in sync.
pub fn unique_name(taken: &Vec<String>, name: &str) -> (r: String)
    ensures
        r@ == unique(text::strs(taken@), name@),
{
    if !is_taken(taken, name) {
        return name.to_owned();
    }
    let mut prefix = name.to_owned();
    prefix.append("-");
    first_free_name(taken, prefix.as_str(), "", 2)
}

/// A log file that nobody has, made of `stem`.
pub fn unique_log(taken: &Vec<String>, stem: &str) -> (r: String)
    ensures
        r@ == unique_file(text::strs(taken@), stem@),
{
    let mut file = stem.to_owned();
    file.append(".log");
    if !is_taken(taken, file.as_str()) {
        return file;
    }
    let mut prefix = stem.to_owned();
    prefix.append("-");
    first_free_name(taken, prefix.as_str(), ".log", 2)
}

/// What is made unique is taken by nobody.
pub proof fn law_unique_is_free(taken: Seq<Seq<char>>, name: Seq<char>)
    ensures
        !taken.contains(unique(taken, name)),
        !taken.contains(unique_file(taken, name)),
{
    naming::law_first_free(taken, name + "-"@, ""@, 2);
    naming::law_first_free(taken, name + "-"@, ".log"@, 2);
}

/// A character that is safe in a file name, in place of `c`.
pub open spec fn safe(c: char) -> char {
    if unicode::alphanumeric(c) || c == ' ' || c == '-' || c == '_' || c == '.' {
        c
    } else {
        '_'
    }
}

/// Whether `c` is cut off the ends of a file name.
pub open spec fn fringe(c: char) -> bool {
    c == ' ' || c == '.' || c == '_'
}

/// `s` without the fringe at its end.
pub open spec fn cut_end(s: Seq<char>) -> Seq<char>
    decreases s.len(),
{
    if s.len() > 0 && fringe(s.last()) {
        cut_end(s.drop_last())
    } else {
        s
    }
}

/// `s` without the fringe at its front.
pub open spec fn cut_start(s: Seq<char>) -> Seq<char>
    decreases s.len(),
{
    if s.len() > 0 && fringe(s[0]) {
        cut_start(s.drop_first())
    } else {
        s
    }
}

/// Filesystem-safe rendering of a name.
pub open spec fn sanitized(name: Seq<char>) -> Seq<char> {
    let cut = cut_end(cut_start(name.map_values(|c: char| safe(c))));
    if cut.len() == 0 {
        "unnamed"@
    } else {
        cut
    }
}

/// Filesystem-safe rendering of a channel name for log file names; display names themselves are
/// never sanitized.
pub fn sanitize(name: &str) -> (r: String)
    ensures
        r@ == sanitized(name@),
{
    let v = to_chars(name);
    let mut cleaned: Vec<char> = Vec::new();
    let mut i: usize = 0;
    while i < v.len()
        invariant
            i <= v@.len(),
            v@ == name@,
            cleaned@.len() == i,
            forall|k: int| 0 <= k < i ==> #[trigger] cleaned@[k] == safe(v@[k]),
        decreases v@.len() - i,
    {
        let c = v[i];
        cleaned.push(
            if is_alphanumeric(c) || c == ' ' || c == '-' || c == '_' || c == '.' {
                c
            } else {
                '_'
            },
        );
        i += 1;
    }
    let ghost all = name@.map_values(|c: char| safe(c));
    proof {
        assert(cleaned@ =~= all);
        assert(all.skip(0) =~= all);
    }
    let n: usize = cleaned.len();
    let mut from: usize = 0;
    while from < n && (cleaned[from] == ' ' || cleaned[from] == '.' || cleaned[from] == '_')
        invariant
            from <= n,
            n == cleaned@.len(),
            cleaned@ == all,
            cut_start(all) == cut_start(all.skip(from as int)),
        decreases n - from,
    {
        proof {
            assert(all.skip(from as int)[0] == all[from as int]);
            assert(all.skip(from as int).drop_first() =~= all.skip(from + 1));
        }
        from += 1;
    }
    let ghost rest = all.skip(from as int);
    proof {
        if from < n {
            assert(rest[0] == all[from as int]);
        }
        assert(cut_start(all) == rest);
        assert(all.subrange(from as int, n as int) =~= rest);
    }
    let mut to: usize = n;
    while to > from && (cleaned[to - 1] == ' ' || cleaned[to - 1] == '.' || cleaned[to - 1] == '_')
        invariant
            from <= to <= n,
            n == cleaned@.len(),
            cleaned@ == all,
            cut_end(rest) == cut_end(all.subrange(from as int, to as int)),
        decreases to,
    {
        proof {
            let t = all.subrange(from as int, to as int);
            assert(t.last() == all[to - 1]);
            assert(t.drop_last() =~= all.subrange(from as int, to - 1));
        }
        to -= 1;
    }
    proof {
        let t = all.subrange(from as int, to as int);
        if to > from {
            assert(t.last() == all[to - 1]);
        }
        assert(cut_end(t) == t);
    }
    if from == to {
        "unnamed".to_owned()
    } else {
        from_chars(cleaned.as_slice(), from, to)
    }
}

proof fn lemma_cut_end_keeps(s: Seq<char>, t: Seq<char>)
    requires
        t.len() > 0,
        !fringe(t.last()),
    ensures
        cut_end(s + t) == s + t,
{
    assert((s + t).last() == t.last());
}

proof fn lemma_cut_start_keeps_end(s: Seq<char>, t: Seq<char>)
    requires
        t.len() > 0,
        !fringe(t[0]),
    ensures
        cut_start(s + t) == cut_start(s) + t,
    decreases s.len(),
{
    if s.len() == 0 {
        assert(s + t =~= t);
    } else {
        assert((s + t)[0] == s[0]);
        assert((s + t).drop_first() =~= s.drop_first() + t);
        if fringe(s[0]) {
            lemma_cut_start_keeps_end(s.drop_first(), t);
        }
    }
}

proof fn lemma_safe_suffix(n: nat)
    ensures
        ("-"@ + number::dec(n)).map_values(|c: char| safe(c)) == "-"@ + number::dec(n),
        ("-"@ + number::dec(n)).len() > 0,
        ("-"@ + number::dec(n))[0] == '-',
        !fringe(("-"@ + number::dec(n)).last()),
{
    reveal_strlit("-");
    number::lemma_value_of_dec(n);
    let t = "-"@ + number::dec(n);
    let d = number::dec(n);
    assert forall|i: int| 0 <= i < t.len() implies safe(t[i]) == t[i] by {
        if i > 0 {
            assert(t[i] == d[i - 1]);
            assert(number::is_digit(d[i - 1]));
        }
    }
    assert(t.map_values(|c: char| safe(c)) =~= t);
    assert(t.last() == d[d.len() - 1]);
    assert(number::is_digit(d[d.len() - 1]));
}

/// A number behind a dash survives sanitizing: the file name ends with it. Where the name without
/// it is safe as it stands, so is the name with it.
pub proof fn law_suffix_survives(name: Seq<char>, n: nat)
    ensures
        exists|front: Seq<char>| #[trigger] (front + ("-"@ + number::dec(n))) == sanitized(name + ("-"@ + number::dec(n))),
        sanitized(name) == name ==> sanitized(name + ("-"@ + number::dec(n))) == name + ("-"@ + number::dec(n)),
{
    let t = "-"@ + number::dec(n);
    let f = |c: char| safe(c);
    lemma_safe_suffix(n);
    let clean = name.map_values(f);
    assert((name + t).map_values(f) =~= clean + t) by {
        assert(t.map_values(f) == t);
        assert forall|i: int| 0 <= i < (name + t).len() implies (name + t).map_values(f)[i] == (clean + t)[i] by {
            if i >= name.len() {
                assert(t.map_values(f)[i - name.len()] == t[i - name.len()]);
            }
        }
    }
    lemma_cut_start_keeps_end(clean, t);
    lemma_cut_end_keeps(cut_start(clean), t);
    let front = cut_start(clean);
    assert(front + t == sanitized(name + t));
    if sanitized(name) == name {
        lemma_sanitized_is_clean(name);
    }
}

proof fn lemma_sanitized_is_clean(name: Seq<char>)
    requires
        sanitized(name) == name,
    ensures
        cut_start(name.map_values(|c: char| safe(c))) == name,
{
    let clean = name.map_values(|c: char| safe(c));
    lemma_cut_start_short(clean);
    lemma_cut_end_short(cut_start(clean));
    let cut = cut_end(cut_start(clean));
    if cut.len() == 0 {
        // A name that reads as the stand-in for an empty one holds letters only.
        reveal_strlit("unnamed");
        assert(name.len() == 7);
        assert(clean[0] == safe(name[0]));
        assert(name[0] == 'u');
        assert(!fringe(clean[0]));
        assert(cut_start(clean) == clean);
        assert(name[6] == 'd');
        assert(clean.last() == safe(name[6]));
        assert(cut_end(clean) == clean);
        assert(false);
    } else {
        assert(cut.len() == name.len());
        assert(clean.len() == name.len());
    }
}

proof fn lemma_cut_start_short(s: Seq<char>)
    ensures
        cut_start(s).len() <= s.len(),
        cut_start(s).len() == s.len() ==> cut_start(s) == s,
    decreases s.len(),
{
    if s.len() > 0 && fringe(s[0]) {
        lemma_cut_start_short(s.drop_first());
    }
}

proof fn lemma_cut_end_short(s: Seq<char>)
    ensures
        cut_end(s).len() <= s.len(),
        cut_end(s).len() == s.len() ==> cut_end(s) == s,
    decreases s.len(),
{
    if s.len() > 0 && fringe(s.last()) {
        lemma_cut_end_short(s.drop_last());
    }
}

proof fn lemma_cut_start_is_tail(s: Seq<char>) -> (k: int)
    ensures
        0 <= k <= s.len(),
        cut_start(s) == s.skip(k),
        cut_start(s).len() > 0 ==> !fringe(cut_start(s)[0]),
    decreases s.len(),
{
    if s.len() > 0 && fringe(s[0]) {
        let k = lemma_cut_start_is_tail(s.drop_first());
        assert(s.drop_first().skip(k) =~= s.skip(k + 1));
        k + 1
    } else {
        assert(s.skip(0) =~= s);
        0
    }
}

proof fn lemma_cut_end_is_front(s: Seq<char>) -> (k: int)
    ensures
        0 <= k <= s.len(),
        cut_end(s) == s.take(k),
        cut_end(s).len() > 0 ==> !fringe(cut_end(s).last()),
    decreases s.len(),
{
    if s.len() > 0 && fringe(s.last()) {
        let k = lemma_cut_end_is_front(s.drop_last());
        assert(s.drop_last().take(k) =~= s.take(k));
        k
    } else {
        assert(s.take(s.len() as int) =~= s);
        s.len() as int
    }
}

/// Whatever a channel is called, its file name is one: not empty, made of safe characters, with no
/// separator among them, and neither hidden nor ended by a dot, a space or an underscore.
pub proof fn law_sanitized_is_safe(name: Seq<char>)
    ensures
        sanitized(name).len() > 0,
        !fringe(sanitized(name)[0]),
        !fringe(sanitized(name).last()),
        forall|i: int|
            0 <= i < sanitized(name).len() ==> safe(#[trigger] sanitized(name)[i]) == sanitized(name)[i]
                && sanitized(name)[i] != '/',
{
    let clean = name.map_values(|c: char| safe(c));
    let from = lemma_cut_start_is_tail(clean);
    let tail = cut_start(clean);
    let to = lemma_cut_end_is_front(tail);
    let cut = cut_end(tail);
    let r = sanitized(name);
    if cut.len() == 0 {
        reveal_strlit("unnamed");
    } else {
        assert(cut[0] == tail[0]);
        assert forall|i: int| 0 <= i < r.len() implies safe(#[trigger] r[i]) == r[i] && r[i] != '/' by {
            assert(r[i] == clean[i + from]);
            assert(clean[i + from] == safe(name[i + from]));
        }
    }
}

/// Whether a topic's name is one that it was given for want of a title.
pub open spec fn fallback(thread: Option<i64>, name: Seq<char>) -> bool {
    match thread {
        Some(t) => name == "topic "@ + number::dec_int(t as int) || (t == 1 && name == "General"@),
        None => false,
    }
}

/// A thread's name is still an auto fallback if it was never learned.
pub fn is_fallback(thread: &Option<i64>, name: &str) -> (r: bool)
    ensures
        r == fallback(*thread, name@),
{
    match *thread {
        Some(t) => {
            let auto = topic_name(t);
            str_eq(name, auto.as_str()) || (t == 1 && str_eq(name, "General"))
        },
        None => false,
    }
}

fn topic_name(t: i64) -> (r: String)
    ensures
        r@ == "topic "@ + number::dec_int(t as int),
{
    let mut s = "topic ".to_owned();
    let n = dec_signed(t);
    s.append(n.as_str());
    s
}

/// Name of the channel of a whole chat: the person's in a private chat, else the chat's label.
pub open spec fn chat_name(chat: TgChat) -> Seq<char> {
    if chat.private() {
        chat.name()
    } else {
        chat.caption()
    }
}

fn name_of_chat(chat: &TgChat) -> (r: String)
    ensures
        r@ == chat_name(*chat),
{
    if chat.is_private() {
        chat.display_name()
    } else {
        chat.label()
    }
}

/// Name of a topic whose title is not known. Thread 1 is the always-present General topic of a
/// forum.
pub open spec fn untitled(thread: i64) -> Seq<char> {
    if thread == 1 {
        "General"@
    } else {
        "topic "@ + number::dec_int(thread as int)
    }
}

fn untitled_name(thread: i64) -> (r: String)
    ensures
        r@ == untitled(thread),
{
    if thread == 1 {
        "General".to_owned()
    } else {
        topic_name(thread)
    }
}

/// Name a new channel would get, before registration: the learned topic title, else well-known
/// fallbacks.
pub open spec fn candidate(msg: TgMessage) -> Seq<char> {
    match msg.message_thread_id {
        Some(t) => match msg.topic() {
            Some(title) => title,
            None => untitled(t),
        },
        None => chat_name(msg.chat),
    }
}

/// Name a new channel would get, before registration.
pub fn candidate_name(msg: &TgMessage) -> (r: String)
    ensures
        r@ == candidate(*msg),
{
    match msg.message_thread_id {
        Some(t) => match msg.topic_title() {
            Some(title) => title.to_owned(),
            None => untitled_name(t),
        },
        None => name_of_chat(&msg.chat),
    }
}

// ---------------------------------------------------------------------------------------------
// What updates do to the registry
// ---------------------------------------------------------------------------------------------

/// A new channel under `name`, or what of it is free.
pub open spec fn new_channel(s: Seq<(Key, ChannelView)>, name: Seq<char>, kind: Seq<char>) -> ChannelView {
    let own = unique(names_of(s), name);
    ChannelView { name: own, kind, log: unique_file(logs_of(s), sanitized(own)) }
}

/// The registry with a channel at `key`: the one that is there, else a new one.
pub open spec fn registered(
    s: Seq<(Key, ChannelView)>,
    key: Key,
    name: Seq<char>,
    kind: Seq<char>,
) -> Seq<(Key, ChannelView)> {
    if lookup(s, key) is Some {
        s
    } else {
        put(s, key, new_channel(s, name, kind))
    }
}

/// Whether the title of a topic is news: the channel has but a fallback name.
pub open spec fn is_news(s: Seq<(Key, ChannelView)>, key: Key, title: Seq<char>) -> bool {
    match lookup(s, key) {
        Some(c) => fallback(key.1, c.name) && c.name != title,
        None => false,
    }
}

/// The registry after the title of a topic was seen.
pub open spec fn learned(s: Seq<(Key, ChannelView)>, key: Key, title: Seq<char>) -> Seq<(Key, ChannelView)> {
    if is_news(s, key, title) {
        put(s, key, ChannelView { name: unique(names_of(s), title), ..lookup(s, key)->0 })
    } else {
        s
    }
}

/// The address of a message's channel.
pub open spec fn key_of(msg: TgMessage) -> Key {
    (msg.chat.id, msg.message_thread_id)
}

/// The registry after a message was seen, before its topic's title is looked at.
pub open spec fn met(s: Seq<(Key, ChannelView)>, msg: TgMessage) -> Seq<(Key, ChannelView)> {
    registered(s, key_of(msg), candidate(msg), msg.chat.kind@)
}

/// The registry after a message was seen.
pub open spec fn observed(s: Seq<(Key, ChannelView)>, msg: TgMessage) -> Seq<(Key, ChannelView)> {
    match msg.topic() {
        Some(title) => learned(met(s, msg), key_of(msg), title),
        None => met(s, msg),
    }
}

/// Whether a message changes the registry.
pub open spec fn changes(s: Seq<(Key, ChannelView)>, msg: TgMessage) -> bool {
    ||| lookup(s, key_of(msg)) is None
    ||| (msg.topic() is Some && is_news(met(s, msg), key_of(msg), msg.topic()->0))
}

/// The registry after a reaction was seen. Reactions carry no topic (API limitation), so they
/// belong to the channel of the whole chat.
pub open spec fn reacted(s: Seq<(Key, ChannelView)>, r: MessageReaction) -> Seq<(Key, ChannelView)> {
    registered(s, (r.chat.id, None), chat_name(r.chat), r.chat.kind@)
}

/// Name shown to the model for an address; mirrors the registration fallbacks for channels not
/// observed yet.
pub open spec fn shown_name(s: Seq<(Key, ChannelView)>, key: Key) -> Seq<char> {
    match lookup(s, key) {
        Some(c) => c.name,
        None => match key.1 {
            Some(t) => untitled(t),
            None => "chat "@ + number::dec_int(key.0 as int),
        },
    }
}

/// A channel that is not registered is shown under the name that it would get if a message without
/// a title were seen there: as an untitled topic, or as a chat that is known by its id alone.
pub proof fn law_shown_name_mirrors_registration(s: Seq<(Key, ChannelView)>, msg: TgMessage)
    requires
        lookup(s, key_of(msg)) is None,
        msg.topic() is None,
        msg.message_thread_id is None ==> !msg.chat.private() && msg.chat.title is None,
    ensures
        shown_name(s, key_of(msg)) == candidate(msg),
{
}

/// Who wrote a message. Channel posts are authored by the channel itself.
pub open spec fn author(s: Seq<(Key, ChannelView)>, msg: TgMessage) -> Seq<char> {
    match msg.from {
        Some(u) => u.name(),
        None => shown_name(s, key_of(msg)),
    }
}

/// The log line of a message in the registry `s`.
pub open spec fn message_line(s: Seq<(Key, ChannelView)>, msg: TgMessage, edited: bool) -> Seq<char> {
    "["@ + tg::stamp(msg.date) + "] "@ + (if edited {
        "EDIT "@
    } else {
        ""@
    }) + "#"@ + number::dec_int(msg.message_id as int) + " "@ + author(s, msg) + ": "@ + msg.body()->0
}

/// Who reacted.
pub open spec fn actor(r: MessageReaction) -> Seq<char> {
    if r.user is Some {
        r.user->0.name()
    } else if r.actor_chat is Some {
        r.actor_chat->0.name()
    } else {
        "someone"@
    }
}

/// The log line of a reaction.
pub open spec fn reaction_line(r: MessageReaction) -> Seq<char> {
    let stamp = "["@ + tg::stamp(r.date) + "] "@;
    let whom = "#"@ + number::dec_int(r.message_id as int) + " by "@ + actor(r) + ": "@;
    if r.new_reaction@.len() == 0 {
        stamp + "UNREACT "@ + whom + tg::reactions_text(r.old_reaction@)
    } else {
        stamp + "REACT "@ + whom + tg::reactions_text(r.new_reaction@) + " (was: "@ + tg::reactions_text(
            r.old_reaction@,
        ) + ")"@
    }
}

/// The log line of a message of the agent's own.
pub open spec fn own_line(now: i64, verb: Seq<char>, message_id: i64, text: Seq<char>) -> Seq<char> {
    "["@ + tg::stamp(now) + "] "@ + verb + " #"@ + number::dec_int(message_id as int) + ": "@ + text
}

/// The file and line that a line goes to, where the channel is known.
pub open spec fn logged(
    dir: Seq<char>,
    s: Seq<(Key, ChannelView)>,
    key: Key,
    line: Seq<char>,
) -> Option<LogLineView> {
    match lookup(s, key) {
        Some(c) => Some(LogLineView { path: paths::join(dir, c.log), line }),
        None => None,
    }
}

/// What is to be done after a message was seen: its line, in the registry as it stands then, and
/// whether the registry has changed.
pub open spec fn message_effect(c: ChannelsView, msg: TgMessage, edited: bool) -> (Option<LogLineView>, bool) {
    let after = observed(c.entries, msg);
    (
        if msg.body() is Some {
            logged(c.chat_dir, after, key_of(msg), message_line(after, msg, edited))
        } else {
            None
        },
        changes(c.entries, msg),
    )
}

/// What is to be done after a reaction was seen.
pub open spec fn reaction_effect(c: ChannelsView, r: MessageReaction) -> (Option<LogLineView>, bool) {
    (
        logged(c.chat_dir, reacted(c.entries, r), (r.chat.id, None), reaction_line(r)),
        lookup(c.entries, (r.chat.id, None)) is None,
    )
}

/// Whether no two of a list are the same.
pub open spec fn distinct(s: Seq<Seq<char>>) -> bool {
    forall|i: int, j: int| 0 <= i < s.len() && 0 <= j < s.len() && i != j ==> #[trigger] s[i] != #[trigger] s[j]
}

proof fn lemma_put_distinct(s: Seq<(Key, ChannelView)>, key: Key, c: ChannelView)
    requires
        in_key_order(s),
    ensures
        distinct(names_of(s)) && !names_of(s).contains(c.name) ==> distinct(names_of(put(s, key, c))),
        distinct(logs_of(s)) && (!logs_of(s).contains(c.log) || (lookup(s, key) is Some && lookup(s, key)->0.log == c.log))
            ==> distinct(logs_of(put(s, key, c))),
{
    let i = lemma_place_exists(s, key);
    lemma_put_at(s, key, c, i);
    let t = put(s, key, c);
    let found = i < s.len() && s[i].0 == key;
    assert forall|k: int| 0 <= k < i implies (#[trigger] s[k]).0 != key by {}
    lemma_lookup_at(s, key, i);
    if !found {
        if i < s.len() {
            assert forall|k: int| 0 <= k < s.len() implies (#[trigger] s[k]).0 != key by {
                if k > i {
                    assert(key_before(s[i].0, s[k].0));
                }
            }
        }
        lemma_lookup_at(s, key, s.len() as int);
    }
    let old_at = |a: int| if found || a < i { a } else { a - 1 };
    if distinct(names_of(s)) && !names_of(s).contains(c.name) {
        assert forall|a: int, b: int|
            0 <= a < t.len() && 0 <= b < t.len() && a != b implies #[trigger] names_of(t)[a] != #[trigger] names_of(t)[b] by {
            if a != i {
                assert(names_of(t)[a] == names_of(s)[old_at(a)]);
            }
            if b != i {
                assert(names_of(t)[b] == names_of(s)[old_at(b)]);
            }
        }
    }
    if distinct(logs_of(s)) && (!logs_of(s).contains(c.log) || (lookup(s, key) is Some && lookup(s, key)->0.log
        == c.log)) {
        assert forall|a: int, b: int|
            0 <= a < t.len() && 0 <= b < t.len() && a != b implies #[trigger] logs_of(t)[a] != #[trigger] logs_of(t)[b] by {
            if a != i {
                assert(logs_of(t)[a] == logs_of(s)[old_at(a)]);
            }
            if b != i {
                assert(logs_of(t)[b] == logs_of(s)[old_at(b)]);
            }
            if found {
                assert(logs_of(s)[i] == s[i].1.log);
            }
        }
    }
}

/// Names stay unique across channels, and so do log files, whatever messages are seen.
pub proof fn law_names_stay_unique(s: Seq<(Key, ChannelView)>, msg: TgMessage)
    requires
        in_key_order(s),
        distinct(names_of(s)),
        distinct(logs_of(s)),
    ensures
        distinct(names_of(observed(s, msg))),
        distinct(logs_of(observed(s, msg))),
{
    let key = key_of(msg);
    let c = new_channel(s, candidate(msg), msg.chat.kind@);
    law_unique_is_free(names_of(s), candidate(msg));
    law_unique_is_free(logs_of(s), sanitized(c.name));
    lemma_put_distinct(s, key, c);
    law_put(s, key, c, key);
    if let Some(title) = msg.topic() {
        let m = met(s, msg);
        law_unique_is_free(names_of(m), title);
        if is_news(m, key, title) {
            lemma_put_distinct(m, key, ChannelView { name: unique(names_of(m), title), ..lookup(m, key)->0 });
        }
    }
}

/// Names and log files stay unique across channels, whatever reactions are seen.
pub proof fn law_names_stay_unique_with_reactions(s: Seq<(Key, ChannelView)>, r: MessageReaction)
    requires
        in_key_order(s),
        distinct(names_of(s)),
        distinct(logs_of(s)),
    ensures
        distinct(names_of(reacted(s, r))),
        distinct(logs_of(reacted(s, r))),
{
    let c = new_channel(s, chat_name(r.chat), r.chat.kind@);
    law_unique_is_free(names_of(s), chat_name(r.chat));
    law_unique_is_free(logs_of(s), sanitized(c.name));
    lemma_put_distinct(s, (r.chat.id, None), c);
}

/// A channel stays registered, and its log file and kind stay what they were at first sight. Its
/// name stays too, unless it is a fallback: a later rename changes nothing.
pub proof fn law_channels_are_frozen(s: Seq<(Key, ChannelView)>, msg: TgMessage, key: Key)
    requires
        in_key_order(s),
        lookup(s, key) is Some,
    ensures
        lookup(observed(s, msg), key) is Some,
        lookup(observed(s, msg), key)->0.log == lookup(s, key)->0.log,
        lookup(observed(s, msg), key)->0.kind == lookup(s, key)->0.kind,
        !fallback(key.1, lookup(s, key)->0.name) ==> lookup(observed(s, msg), key) == lookup(s, key),
{
    let at = key_of(msg);
    law_put(s, at, new_channel(s, candidate(msg), msg.chat.kind@), key);
    let m = met(s, msg);
    law_put(s, at, new_channel(s, candidate(msg), msg.chat.kind@), at);
    if let Some(title) = msg.topic() {
        if is_news(m, at, title) {
            law_put(m, at, ChannelView { name: unique(names_of(m), title), ..lookup(m, at)->0 }, key);
        }
    }
}

/// A reaction leaves every channel that is there as it is.
pub proof fn law_reactions_keep_channels(s: Seq<(Key, ChannelView)>, r: MessageReaction, key: Key)
    requires
        in_key_order(s),
        lookup(s, key) is Some,
    ensures
        lookup(reacted(s, r), key) == lookup(s, key),
{
    law_put(s, (r.chat.id, None), new_channel(s, chat_name(r.chat), r.chat.kind@), key);
}

/// Once a topic's title is seen on a channel with a fallback name, the channel goes by that title,
/// with a number behind it where the title is taken.
pub proof fn law_titles_are_learned(s: Seq<(Key, ChannelView)>, msg: TgMessage)
    requires
        in_key_order(s),
        lookup(s, key_of(msg)) is Some,
        fallback(msg.message_thread_id, lookup(s, key_of(msg))->0.name),
        msg.topic() is Some,
        lookup(s, key_of(msg))->0.name != msg.topic()->0,
    ensures
        shown_name(observed(s, msg), key_of(msg)) == unique(names_of(s), msg.topic()->0),
{
    let key = key_of(msg);
    law_put(s, key, ChannelView { name: unique(names_of(s), msg.topic()->0), ..lookup(s, key)->0 }, key);
}

// ---------------------------------------------------------------------------------------------
// Looking channels up by name
// ---------------------------------------------------------------------------------------------

/// The first channel that goes by exactly that name.
pub open spec fn named(s: Seq<(Key, ChannelView)>, name: Seq<char>) -> Option<Key>
    decreases s.len(),
{
    if s.len() == 0 {
        None
    } else if s[0].1.name == name {
        Some(s[0].0)
    } else {
        named(s.drop_first(), name)
    }
}

/// The channels that go by that name in lower case.
pub open spec fn named_loosely(s: Seq<(Key, ChannelView)>, lower: Seq<char>) -> Seq<Key>
    decreases s.len(),
{
    if s.len() == 0 {
        Seq::empty()
    } else if unicode::lowercase(s.last().1.name) == lower {
        named_loosely(s.drop_last(), lower).push(s.last().0)
    } else {
        named_loosely(s.drop_last(), lower)
    }
}

/// The channel that a name means: exact match first, then a unique case-insensitive one.
pub open spec fn resolved(s: Seq<(Key, ChannelView)>, name: Seq<char>) -> Option<Key> {
    match named(s, name) {
        Some(key) => Some(key),
        None => {
            let hits = named_loosely(s, unicode::lowercase(name));
            if hits.len() == 1 {
                Some(hits[0])
            } else {
                None
            }
        },
    }
}

proof fn lemma_named_at(s: Seq<(Key, ChannelView)>, name: Seq<char>, i: int)
    requires
        0 <= i <= s.len(),
        forall|k: int| 0 <= k < i ==> (#[trigger] s[k]).1.name != name,
    ensures
        named(s, name) == named(s.skip(i), name),
        i < s.len() && s[i].1.name == name ==> named(s, name) == Some(s[i].0),
    decreases i,
{
    if i == 0 {
        assert(s.skip(0) =~= s);
    } else {
        let t = s.drop_first();
        assert(s[0].1.name != name);
        assert forall|k: int| 0 <= k < i - 1 implies (#[trigger] t[k]).1.name != name by {
            assert(t[k] == s[k + 1]);
        }
        lemma_named_at(t, name, i - 1);
        assert(t.skip(i - 1) =~= s.skip(i));
    }
}

/// Whoever addresses a channel by the name that it is shown under reaches that channel.
pub proof fn law_shown_names_resolve(s: Seq<(Key, ChannelView)>, key: Key)
    requires
        distinct(names_of(s)),
        lookup(s, key) is Some,
    ensures
        resolved(s, shown_name(s, key)) == Some(key),
{
    let i = lemma_entry_of(s, key);
    let name = s[i].1.name;
    assert forall|k: int| 0 <= k < i implies (#[trigger] s[k]).1.name != name by {
        assert(names_of(s)[k] != names_of(s)[i]);
    }
    lemma_named_at(s, name, i);
}

proof fn lemma_entry_of(s: Seq<(Key, ChannelView)>, key: Key) -> (i: int)
    requires
        lookup(s, key) is Some,
    ensures
        0 <= i < s.len(),
        s[i].0 == key,
        lookup(s, key) == Some(s[i].1),
    decreases s.len(),
{
    if s[0].0 == key {
        0
    } else {
        let i = lemma_entry_of(s.drop_first(), key);
        assert(s.drop_first()[i] == s[i + 1]);
        i + 1
    }
}

/// Names with their lower case, by which they are sorted.
pub open spec fn sort_keys(names: Seq<Seq<char>>) -> Seq<(Seq<char>, Seq<char>)> {
    Seq::new(names.len(), |i: int| (unicode::lowercase(names[i]), names[i]))
}

/// Names sorted for display, without regard to case.
pub open spec fn sorted_names(names: Seq<Seq<char>>) -> Seq<Seq<char>> {
    order::values(order::in_order(sort_keys(names)))
}

/// The names of the channels that are private chats, or of those that are not.
pub open spec fn names_of_kind(s: Seq<(Key, ChannelView)>, private: bool) -> Seq<Seq<char>>
    decreases s.len(),
{
    if s.len() == 0 {
        Seq::empty()
    } else if (s.last().1.kind == "private"@) == private {
        names_of_kind(s.drop_last(), private).push(s.last().1.name)
    } else {
        names_of_kind(s.drop_last(), private)
    }
}

/// A section of the channel list; nothing where it has no channel.
pub open spec fn section(s: Seq<(Key, ChannelView)>, label: Seq<char>, private: bool) -> Seq<char> {
    let names = names_of_kind(s, private);
    if names.len() == 0 {
        Seq::empty()
    } else {
        label + ":\n* "@ + search::join(sorted_names(names), "\n* "@) + "\n"@
    }
}

/// The channel list.
pub open spec fn channel_list(s: Seq<(Key, ChannelView)>) -> Seq<char> {
    if s.len() == 0 {
        "No channels observed yet."@
    } else {
        text::trim_end(section(s, "DM channels"@, true) + "\n"@ + section(s, "Group channels"@, false))
    }
}

fn sort_names(names: &Vec<String>) -> (r: Vec<String>)
    ensures
        text::strs(r@) == sorted_names(text::strs(names@)),
{
    let mut list: Vec<Keyed> = Vec::new();
    let mut i: usize = 0;
    while i < names.len()
        invariant
            i <= names@.len(),
            list@.len() == i,
            forall|k: int|
                0 <= k < i ==> (#[trigger] list@[k]).key@ == unicode::lowercase(names@[k]@) && list@[k].value@
                    == names@[k]@,
        decreases names@.len() - i,
    {
        list.push(Keyed { key: to_lowercase(names[i].as_str()), value: names[i].clone() });
        i += 1;
    }
    proof {
        assert(order::keyed(list@) =~= sort_keys(text::strs(names@)));
    }
    let sorted = sort_keyed(list);
    let mut out: Vec<String> = Vec::new();
    let mut j: usize = 0;
    while j < sorted.len()
        invariant
            j <= sorted@.len(),
            out@.len() == j,
            forall|k: int| 0 <= k < j ==> (#[trigger] out@[k])@ == sorted@[k].value@,
        decreases sorted@.len() - j,
    {
        out.push(sorted[j].value.clone());
        j += 1;
    }
    proof {
        assert(text::strs(out@) =~= order::values(order::keyed(sorted@)));
    }
    out
}

// ---------------------------------------------------------------------------------------------
// The registry
// ---------------------------------------------------------------------------------------------

/// An entry of the registry.
#[derive(Debug)]
struct Entry {
    key: Key,
    channel: Channel,
}

/// Owned by the agent (single writer); mutated when events are collected and read by tools.
#[derive(Debug)]
pub struct Channels {
    path: String,
    chat_dir: String,
    entries: Vec<Entry>,
}

/// What [`Channels`] holds: where the registry is persisted, where the logs are, and the channels.
pub struct ChannelsView {
    pub path: Seq<char>,
    pub chat_dir: Seq<char>,
    pub entries: Seq<(Key, ChannelView)>,
}

impl View for Channels {
    type V = ChannelsView;

    closed spec fn view(&self) -> ChannelsView {
        ChannelsView {
            path: self.path@,
            chat_dir: self.chat_dir@,
            entries: entries_view(self.entries@),
        }
    }
}

spec fn entries_view(entries: Seq<Entry>) -> Seq<(Key, ChannelView)> {
    Seq::new(entries.len(), |i: int| (entries[i].key, entries[i].channel@))
}

/// A chat of the legacy registry.
#[derive(Debug)]
pub struct LegacyChat {
    pub chat_id: i64,
    pub kind: String,
    pub title: Option<String>,
}

/// A message of the legacy history.
#[derive(Debug)]
pub struct LegacyEntry {
    pub date: i64,
    pub message_id: i64,
    pub author: String,
    pub text: String,
}

/// The legacy history of a chat.
#[derive(Debug)]
pub struct LegacyHistory {
    pub chat_id: i64,
    pub entries: Vec<LegacyEntry>,
}

/// The legacy registry: per-chat ring buffers without a topic dimension.
#[derive(Debug)]
pub struct Legacy {
    pub chats: Vec<LegacyChat>,
    pub history: Vec<LegacyHistory>,
}

/// Name of a chat of the legacy registry.
pub open spec fn legacy_name(chat: LegacyChat) -> Seq<char> {
    match chat.title {
        Some(title) => title@,
        None => "chat "@ + number::dec_int(chat.chat_id as int),
    }
}

fn name_of_legacy(chat: &LegacyChat) -> (r: String)
    ensures
        r@ == legacy_name(*chat),
{
    match &chat.title {
        Some(title) => title.clone(),
        None => {
            let mut s = "chat ".to_owned();
            let id = dec_signed(chat.chat_id);
            s.append(id.as_str());
            s
        },
    }
}

/// The legacy history of a chat, where there is one.
pub open spec fn history_of(history: Seq<LegacyHistory>, chat_id: i64) -> Seq<LegacyEntry>
    decreases history.len(),
{
    if history.len() == 0 {
        Seq::empty()
    } else if history[0].chat_id == chat_id {
        history[0].entries@
    } else {
        history_of(history.drop_first(), chat_id)
    }
}

/// The log line of a message of the legacy history.
pub open spec fn legacy_line(e: LegacyEntry) -> Seq<char> {
    "["@ + tg::stamp(e.date) + "] #"@ + number::dec_int(e.message_id as int) + " "@ + e.author@ + ": "@ + e.text@
}

/// A migration in progress.
pub struct Migration {
    /// The registry with the chats that were taken over so far.
    pub entries: Seq<(Key, ChannelView)>,
    /// The files that hold the histories of chats that were registered already.
    pub files: Seq<Seq<char>>,
    /// The lines that histories are dumped as.
    pub lines: Seq<LogLineView>,
}

/// The file that the history of a chat goes to: no channel's log, and no file that another history
/// went to.
pub open spec fn legacy_file(m: Migration, chat: LegacyChat) -> Seq<char> {
    unique_file(logs_of(m.entries) + m.files, sanitized(legacy_name(chat)) + ".legacy"@)
}

/// The registry with a chat of the legacy one, which logs to `file`; a channel that is there stays
/// as it is.
pub open spec fn adopted(s: Seq<(Key, ChannelView)>, chat: LegacyChat, file: Seq<char>) -> Seq<(Key, ChannelView)> {
    let key: Key = (chat.chat_id, None);
    if lookup(s, key) is Some {
        s
    } else {
        put(s, key, ChannelView { name: unique(names_of(s), legacy_name(chat)), kind: chat.kind@, log: file })
    }
}

/// The lines that a history is dumped as, into `file`.
pub open spec fn dumped(dir: Seq<char>, file: Seq<char>, entries: Seq<LegacyEntry>) -> Seq<LogLineView> {
    Seq::new(entries.len(), |i: int| LogLineView { path: paths::join(dir, file), line: legacy_line(entries[i]) })
}

/// The migration with one more chat and its history.
pub open spec fn taken_over(
    dir: Seq<char>,
    m: Migration,
    chat: LegacyChat,
    history: Seq<LegacyEntry>,
) -> Migration {
    let file = legacy_file(m, chat);
    Migration {
        entries: adopted(m.entries, chat, file),
        files: if lookup(m.entries, (chat.chat_id, None)) is Some && history.len() > 0 {
            m.files.push(file)
        } else {
            m.files
        },
        lines: m.lines + dumped(dir, file, history),
    }
}

/// The migration of the first `n` chats of the legacy registry into the registry `s`.
pub open spec fn migrated(dir: Seq<char>, s: Seq<(Key, ChannelView)>, legacy: Legacy, n: nat) -> Migration
    decreases n,
{
    if n == 0 {
        Migration { entries: s, files: Seq::empty(), lines: Seq::empty() }
    } else {
        let chat = legacy.chats@[n - 1];
        taken_over(
            dir,
            migrated(dir, s, legacy, (n - 1) as nat),
            chat,
            history_of(legacy.history@, chat.chat_id),
        )
    }
}

/// The entries that persisted rows stand for, if there are any.
pub open spec fn persisted(rows: Option<Vec<Row>>) -> Seq<(Key, ChannelView)> {
    match rows {
        Some(list) => from_rows(rows_view(list@)),
        None => Seq::empty(),
    }
}

proof fn lemma_from_rows_in_order(rows: Seq<(Key, ChannelView)>)
    ensures
        in_key_order(from_rows(rows)),
    decreases rows.len(),
{
    if rows.len() > 0 {
        lemma_from_rows_in_order(rows.drop_last());
        law_put(from_rows(rows.drop_last()), rows.last().0, rows.last().1, rows.last().0);
    }
}

impl Channels {
    /// Entries stand in the order of their addresses, each address once.
    pub open spec fn wf(self) -> bool {
        in_key_order(self@.entries)
    }

    /// A registry without persisted state.
    pub fn empty(state_dir: &str, workspace_dir: &str) -> (r: Self)
        ensures
            r.wf(),
            r@ == (ChannelsView {
                path: paths::join(state_dir@, "channels.json"@),
                chat_dir: paths::join(workspace_dir@, "chat"@),
                entries: Seq::empty(),
            }),
    {
        let r = Channels {
            path: path_join(state_dir, "channels.json"),
            chat_dir: path_join(workspace_dir, "chat"),
            entries: Vec::new(),
        };
        proof {
            assert(r@.entries =~= Seq::<(Key, ChannelView)>::empty());
        }
        r
    }

    /// The persisted registry, with the legacy one merged into it. The lines that the legacy history
    /// is dumped as come with it.
    pub fn load(state_dir: &str, workspace_dir: &str, rows: Option<Vec<Row>>, legacy: Option<Legacy>) -> (r: (
        Self,
        Vec<LogLine>,
    ))
        ensures
            r.0.wf(),
            r.0@.path == paths::join(state_dir@, "channels.json"@),
            r.0@.chat_dir == paths::join(workspace_dir@, "chat"@),
            match legacy {
                Some(found) => {
                    let done = migrated(
                        paths::join(workspace_dir@, "chat"@),
                        persisted(rows),
                        found,
                        found.chats@.len(),
                    );
                    &&& r.0@.entries == done.entries
                    &&& lines_view(r.1@) == done.lines
                },
                None => r.0@.entries == persisted(rows) && r.1@.len() == 0,
            },
    {
        let mut channels = Channels::empty(state_dir, workspace_dir);
        if let Some(list) = rows {
            channels.add_rows(list);
        }
        match legacy {
            Some(found) => {
                let lines = channels.migrate_legacy(&found);
                (channels, lines)
            },
            None => (channels, Vec::new()),
        }
    }

    fn add_rows(&mut self, rows: Vec<Row>)
        requires
            old(self)@.entries == Seq::<(Key, ChannelView)>::empty(),
        ensures
            final(self).wf(),
            final(self)@ == (ChannelsView { entries: from_rows(rows_view(rows@)), ..old(self)@ }),
    {
        let mut i: usize = 0;
        let ghost all = rows_view(rows@);
        let ghost start = self@;
        proof {
            assert(all.take(0) =~= Seq::<(Key, ChannelView)>::empty());
            assert(start.entries =~= from_rows(all.take(0)));
        }
        while i < rows.len()
            invariant
                i <= rows@.len(),
                all == rows_view(rows@),
                self.wf(),
                self@ == (ChannelsView { entries: from_rows(all.take(i as int)), ..start }),
            decreases rows@.len() - i,
        {
            let row = &rows[i];
            proof {
                assert(all.take(i + 1).drop_last() =~= all.take(i as int));
                assert(all.take(i + 1).last() == rows@[i as int]@);
            }
            self.store(
                (row.chat_id, row.thread),
                Channel { name: row.name.clone(), kind: row.kind.clone(), log: row.log.clone() },
            );
            i += 1;
        }
        proof {
            assert(all.take(i as int) =~= all);
        }
    }

    /// The rows to persist.
    pub fn save(&self) -> (r: Vec<Row>)
        ensures
            rows_view(r@) == self@.entries,
    {
        let mut rows: Vec<Row> = Vec::new();
        let mut i: usize = 0;
        while i < self.entries.len()
            invariant
                i <= self.entries@.len(),
                rows@.len() == i,
                forall|k: int|
                    0 <= k < i ==> (#[trigger] rows@[k])@ == (self.entries@[k].key, self.entries@[k].channel@),
            decreases self.entries@.len() - i,
        {
            let e = &self.entries[i];
            rows.push(
                Row {
                    chat_id: e.key.0,
                    thread: e.key.1,
                    name: e.channel.name.clone(),
                    kind: e.channel.kind.clone(),
                    log: e.channel.log.clone(),
                },
            );
            i += 1;
        }
        proof {
            assert(rows_view(rows@) =~= self@.entries);
        }
        rows
    }

    /// Where the registry is persisted.
    pub fn path(&self) -> (r: &str)
        ensures
            r@ == self@.path,
    {
        self.path.as_str()
    }

    /// Index of the entry of `key`, or of where one belongs.
    fn place(&self, key: Key) -> (i: usize)
        requires
            self.wf(),
        ensures
            i <= self@.entries.len(),
            self@.entries.len() == self.entries@.len(),
            forall|k: int| 0 <= k < i ==> (#[trigger] self@.entries[k]).0 != key && !key_before(key, self@.entries[k].0),
            i < self@.entries.len() ==> self@.entries[i as int].0 == key || key_before(key, self@.entries[i as int].0),
    {
        let ghost s = self@.entries;
        let mut i: usize = 0;
        while i < self.entries.len()
            invariant
                s == self@.entries,
                s.len() == self.entries@.len(),
                i <= s.len(),
                forall|k: int| 0 <= k < i ==> (#[trigger] s[k]).0 != key && !key_before(key, s[k].0),
            decreases s.len() - i,
        {
            let at = self.entries[i].key;
            proof {
                assert(s[i as int].0 == at);
            }
            let reached = if key.0 != at.0 {
                key.0 < at.0
            } else {
                match (key.1, at.1) {
                    (None, _) => true,
                    (Some(_), None) => false,
                    (Some(x), Some(y)) => x <= y,
                }
            };
            if reached {
                return i;
            }
            i += 1;
        }
        i
    }

    /// The channel at an address.
    fn find(&self, key: Key) -> (r: Option<&Channel>)
        requires
            self.wf(),
        ensures
            match r {
                Some(c) => lookup(self@.entries, key) == Some(c@),
                None => lookup(self@.entries, key) is None,
            },
    {
        let i: usize = self.place(key);
        let ghost s = self@.entries;
        proof {
            lemma_lookup_at(s, key, i as int);
        }
        if i < self.entries.len() {
            let at = self.entries[i].key;
            proof {
                assert(s[i as int] == (self.entries@[i as int].key, self.entries@[i as int].channel@));
            }
            let same = at.0 == key.0 && (match (at.1, key.1) {
                (None, None) => true,
                (Some(x), Some(y)) => x == y,
                _ => false,
            });
            if same {
                return Some(&self.entries[i].channel);
            }
            proof {
                assert forall|k: int| 0 <= k < s.len() implies (#[trigger] s[k]).0 != key by {
                    if k > i {
                        assert(key_before(s[i as int].0, s[k].0));
                    }
                }
            }
        }
        proof {
            lemma_lookup_at(s, key, s.len() as int);
            assert(s.skip(s.len() as int) =~= Seq::<(Key, ChannelView)>::empty());
        }
        None
    }

    /// Put a channel at an address, in place of what stood there.
    fn store(&mut self, key: Key, channel: Channel)
        requires
            old(self).wf(),
        ensures
            final(self).wf(),
            final(self)@ == (ChannelsView { entries: put(old(self)@.entries, key, channel@), ..old(self)@ }),
    {
        let i: usize = self.place(key);
        let ghost s = self@.entries;
        let ghost c = channel@;
        proof {
            lemma_put_at(s, key, c, i as int);
            law_put(s, key, c, key);
            if i < s.len() {
                assert(s[i as int].0 == self.entries@[i as int].key);
            }
        }
        let same = i < self.entries.len() && self.entries[i].key.0 == key.0 && (match (
            self.entries[i].key.1,
            key.1,
        ) {
            (None, None) => true,
            (Some(x), Some(y)) => x == y,
            _ => false,
        });
        if same {
            self.entries.set(i, Entry { key, channel });
            proof {
                assert(self@.entries =~= s.update(i as int, (key, c)));
            }
        } else {
            self.entries.insert(i, Entry { key, channel });
            proof {
                assert(self@.entries =~= s.insert(i as int, (key, c)));
            }
        }
    }

    fn all_names(&self) -> (r: Vec<String>)
        ensures
            text::strs(r@) == names_of(self@.entries),
    {
        let mut out: Vec<String> = Vec::new();
        let mut i: usize = 0;
        while i < self.entries.len()
            invariant
                i <= self.entries@.len(),
                out@.len() == i,
                forall|k: int| 0 <= k < i ==> (#[trigger] out@[k])@ == self.entries@[k].channel.name@,
            decreases self.entries@.len() - i,
        {
            out.push(self.entries[i].channel.name.clone());
            i += 1;
        }
        proof {
            assert(text::strs(out@) =~= names_of(self@.entries));
        }
        out
    }

    fn all_logs(&self) -> (r: Vec<String>)
        ensures
            text::strs(r@) == logs_of(self@.entries),
    {
        let mut out: Vec<String> = Vec::new();
        let mut i: usize = 0;
        while i < self.entries.len()
            invariant
                i <= self.entries@.len(),
                out@.len() == i,
                forall|k: int| 0 <= k < i ==> (#[trigger] out@[k])@ == self.entries@[k].channel.log@,
            decreases self.entries@.len() - i,
        {
            out.push(self.entries[i].channel.log.clone());
            i += 1;
        }
        proof {
            assert(text::strs(out@) =~= logs_of(self@.entries));
        }
        out
    }

    /// Register a channel at an address that has none.
    fn insert(&mut self, key: Key, name: &str, kind: &str)
        requires
            old(self).wf(),
            lookup(old(self)@.entries, key) is None,
        ensures
            final(self).wf(),
            final(self)@ == (ChannelsView { entries: registered(old(self)@.entries, key, name@, kind@), ..old(self)@ }),
    {
        let names = self.all_names();
        let logs = self.all_logs();
        let own = unique_name(&names, name);
        let stem = sanitize(own.as_str());
        let log = unique_log(&logs, stem.as_str());
        self.store(key, Channel { name: own, kind: kind.to_owned(), log });
    }

    /// A freshly seen topic title replaces only an auto fallback name; a real name stays (renames
    /// are ignored by design).
    fn learn_topic(&mut self, key: Key, title: &str) -> (r: bool)
        requires
            old(self).wf(),
        ensures
            final(self).wf(),
            final(self)@ == (ChannelsView { entries: learned(old(self)@.entries, key, title@), ..old(self)@ }),
            r == is_news(old(self)@.entries, key, title@),
    {
        let (news, kind, log) = match self.find(key) {
            Some(c) => (
                is_fallback(&key.1, c.name.as_str()) && !str_eq(c.name.as_str(), title),
                c.kind.clone(),
                c.log.clone(),
            ),
            None => (false, String::new(), String::new()),
        };
        if news {
            let names = self.all_names();
            let name = unique_name(&names, title);
            self.store(key, Channel { name, kind, log });
        }
        news
    }

    /// Record a passing message: register the channel, learn its topic title, and give the log
    /// line. Edits are new lines, not replacements — the log is append-only history.
    pub fn observe_message(&mut self, msg: &TgMessage, edited: bool) -> (r: Recorded)
        requires
            old(self).wf(),
        ensures
            final(self).wf(),
            final(self)@ == (ChannelsView { entries: observed(old(self)@.entries, *msg), ..old(self)@ }),
            recorded_view(r) == message_effect(old(self)@, *msg, edited),
    {
        let key: Key = (msg.chat.id, msg.message_thread_id);
        let mut changed = false;
        if self.find(key).is_none() {
            let name = candidate_name(msg);
            self.insert(key, name.as_str(), msg.chat.kind.as_str());
            changed = true;
        }
        if let Some(title) = msg.topic_title() {
            if self.learn_topic(key, title) {
                changed = true;
            }
        }
        let line = match msg.text_or_caption() {
            Some(body) => {
                let who = match &msg.from {
                    Some(u) => u.display_name(),
                    None => self.name_of(key),
                };
                let mut line = "[".to_owned();
                let time = timestamp(msg.date);
                line.append(time.as_str());
                line.append("] ");
                if edited {
                    line.append("EDIT ");
                } else {
                    line.append("");
                }
                line.append("#");
                let id = dec_signed(msg.message_id);
                line.append(id.as_str());
                line.append(" ");
                line.append(who.as_str());
                line.append(": ");
                line.append(body);
                self.append_log(key, line)
            },
            None => None,
        };
        Recorded { line, save: changed }
    }

    /// Record a reaction. Reactions carry no topic (API limitation), so they are logged on the
    /// chat-level channel.
    pub fn observe_reaction(&mut self, r: &MessageReaction) -> (done: Recorded)
        requires
            old(self).wf(),
        ensures
            final(self).wf(),
            final(self)@ == (ChannelsView { entries: reacted(old(self)@.entries, *r), ..old(self)@ }),
            recorded_view(done) == reaction_effect(old(self)@, *r),
    {
        let key: Key = (r.chat.id, None);
        let mut changed = false;
        if self.find(key).is_none() {
            let name = name_of_chat(&r.chat);
            self.insert(key, name.as_str(), r.chat.kind.as_str());
            changed = true;
        }
        let who = match &r.user {
            Some(u) => u.display_name(),
            None => match &r.actor_chat {
                Some(c) => c.display_name(),
                None => "someone".to_owned(),
            },
        };
        let mut line = "[".to_owned();
        let time = timestamp(r.date);
        line.append(time.as_str());
        line.append("] ");
        let mut whom = "#".to_owned();
        let id = dec_signed(r.message_id);
        whom.append(id.as_str());
        whom.append(" by ");
        whom.append(who.as_str());
        whom.append(": ");
        let before = render_reactions(&r.old_reaction);
        if r.new_reaction.len() == 0 {
            line.append("UNREACT ");
            line.append(whom.as_str());
            line.append(before.as_str());
        } else {
            line.append("REACT ");
            line.append(whom.as_str());
            let after = render_reactions(&r.new_reaction);
            line.append(after.as_str());
            line.append(" (was: ");
            line.append(before.as_str());
            line.append(")");
        }
        let line = self.append_log(key, line);
        Recorded { line, save: changed }
    }

    fn own_entry(&self, key: Key, now: i64, verb: &str, message_id: i64, text: &str) -> (r: Option<LogLine>)
        requires
            self.wf(),
        ensures
            line_view(r) == logged(self@.chat_dir, self@.entries, key, own_line(now, verb@, message_id, text@)),
    {
        let mut line = "[".to_owned();
        let time = timestamp(now);
        line.append(time.as_str());
        line.append("] ");
        line.append(verb);
        line.append(" #");
        let id = dec_signed(message_id);
        line.append(id.as_str());
        line.append(": ");
        line.append(text);
        self.append_log(key, line)
    }

    /// The line of the agent's own outgoing message, so the log holds the full scene text
    /// including the bot's lines.
    pub fn log_sent(&self, key: Key, message_id: i64, text: &str, now: i64) -> (r: Option<LogLine>)
        requires
            self.wf(),
        ensures
            line_view(r) == logged(self@.chat_dir, self@.entries, key, own_line(now, "SENT"@, message_id, text@)),
    {
        self.own_entry(key, now, "SENT", message_id, text)
    }

    /// The line of the replacement text of an edited outgoing message.
    pub fn log_edited(&self, key: Key, message_id: i64, text: &str, now: i64) -> (r: Option<LogLine>)
        requires
            self.wf(),
        ensures
            line_view(r) == logged(self@.chat_dir, self@.entries, key, own_line(now, "EDIT"@, message_id, text@)),
    {
        self.own_entry(key, now, "EDIT", message_id, text)
    }

    fn append_log(&self, key: Key, line: String) -> (r: Option<LogLine>)
        requires
            self.wf(),
        ensures
            line_view(r) == logged(self@.chat_dir, self@.entries, key, line@),
    {
        match self.find(key) {
            Some(channel) => Some(
                LogLine { path: path_join(self.chat_dir.as_str(), channel.log.as_str()), line },
            ),
            None => None,
        }
    }

    /// Live resolution of a model-supplied channel name: exact match first, then a unique
    /// case-insensitive one.
    pub fn resolve(&self, name: &str) -> (r: Option<Key>)
        ensures
            r == resolved(self@.entries, name@),
    {
        let ghost s = self@.entries;
        let mut i: usize = 0;
        while i < self.entries.len()
            invariant
                s == self@.entries,
                s.len() == self.entries@.len(),
                i <= s.len(),
                forall|k: int| 0 <= k < i ==> (#[trigger] s[k]).1.name != name@,
            decreases s.len() - i,
        {
            proof {
                assert(s[i as int] == (self.entries@[i as int].key, self.entries@[i as int].channel@));
            }
            if str_eq(self.entries[i].channel.name.as_str(), name) {
                proof {
                    lemma_named_at(s, name@, i as int);
                }
                return Some(self.entries[i].key);
            }
            i += 1;
        }
        proof {
            lemma_named_at(s, name@, i as int);
            assert(s.skip(i as int) =~= Seq::<(Key, ChannelView)>::empty());
            assert(s.take(0) =~= Seq::<(Key, ChannelView)>::empty());
        }
        let lower = to_lowercase(name);
        let mut hits: Vec<Key> = Vec::new();
        let mut j: usize = 0;
        while j < self.entries.len()
            invariant
                s == self@.entries,
                s.len() == self.entries@.len(),
                j <= s.len(),
                hits@ == named_loosely(s.take(j as int), lower@),
            decreases s.len() - j,
        {
            proof {
                assert(s[j as int] == (self.entries@[j as int].key, self.entries@[j as int].channel@));
                assert(s.take(j + 1).drop_last() =~= s.take(j as int));
                assert(s.take(j + 1).last() == s[j as int]);
            }
            let own = to_lowercase(self.entries[j].channel.name.as_str());
            if str_eq(own.as_str(), lower.as_str()) {
                hits.push(self.entries[j].key);
            }
            j += 1;
        }
        proof {
            assert(s.take(j as int) =~= s);
        }
        if hits.len() == 1 {
            Some(hits[0])
        } else {
            None
        }
    }

    /// Name shown to the model for an event from `key`; mirrors the registration fallbacks for
    /// channels not observed yet.
    pub fn name_of(&self, key: Key) -> (r: String)
        requires
            self.wf(),
        ensures
            r@ == shown_name(self@.entries, key),
    {
        match self.find(key) {
            Some(c) => c.name.clone(),
            None => match key.1 {
                Some(t) => untitled_name(t),
                None => {
                    let mut s = "chat ".to_owned();
                    let id = dec_signed(key.0);
                    s.append(id.as_str());
                    s
                },
            },
        }
    }

    /// All channel names, sorted for display.
    pub fn names(&self) -> (r: Vec<String>)
        ensures
            text::strs(r@) == sorted_names(names_of(self@.entries)),
    {
        let names = self.all_names();
        sort_names(&names)
    }

    fn section_of(&self, label: &str, private: bool) -> (r: String)
        ensures
            r@ == section(self@.entries, label@, private),
    {
        let ghost s = self@.entries;
        let mut names: Vec<String> = Vec::new();
        let mut i: usize = 0;
        proof {
            assert(s.take(0) =~= Seq::<(Key, ChannelView)>::empty());
            assert(text::strs(names@) =~= Seq::<Seq<char>>::empty());
        }
        while i < self.entries.len()
            invariant
                s == self@.entries,
                s.len() == self.entries@.len(),
                i <= s.len(),
                text::strs(names@) == names_of_kind(s.take(i as int), private),
            decreases s.len() - i,
        {
            proof {
                assert(s[i as int] == (self.entries@[i as int].key, self.entries@[i as int].channel@));
                assert(s.take(i + 1).drop_last() =~= s.take(i as int));
                assert(s.take(i + 1).last() == s[i as int]);
            }
            if str_eq(self.entries[i].channel.kind.as_str(), "private") == private {
                let ghost before = names@;
                names.push(self.entries[i].channel.name.clone());
                proof {
                    assert(text::strs(names@) =~= text::strs(before).push(s[i as int].1.name));
                }
            }
            i += 1;
        }
        proof {
            assert(s.take(i as int) =~= s);
        }
        if names.len() == 0 {
            proof {
                reveal_strlit("");
                assert(text::strs(names@).len() == 0);
            }
            return String::new();
        }
        proof {
            assert(text::strs(names@).len() != 0);
        }
        let sorted = sort_names(&names);
        let mut out = label.to_owned();
        out.append(":\n* ");
        let list = joined(&sorted, "\n* ");
        out.append(list.as_str());
        out.append("\n");
        out
    }

    /// The channel list seeded into the session head at startup and after every compaction.
    pub fn list(&self) -> (r: String)
        ensures
            r@ == channel_list(self@.entries),
    {
        if self.entries.len() == 0 {
            return "No channels observed yet.".to_owned();
        }
        let mut out = self.section_of("DM channels", true);
        out.append("\n");
        let groups = self.section_of("Group channels", false);
        out.append(groups.as_str());
        trimmed_end(out.as_str())
    }

    /// One-time conversion of the legacy registry (per-chat ring buffer without a topic dimension):
    /// each chat's history is dumped into `<name>.legacy.log`. A chat that is not registered yet
    /// becomes a channel that goes on logging there.
    pub fn migrate_legacy(&mut self, legacy: &Legacy) -> (lines: Vec<LogLine>)
        requires
            old(self).wf(),
        ensures
            final(self).wf(),
            ({
                let done = migrated(old(self)@.chat_dir, old(self)@.entries, *legacy, legacy.chats@.len());
                &&& final(self)@ == (ChannelsView { entries: done.entries, ..old(self)@ })
                &&& lines_view(lines@) == done.lines
            }),
    {
        let ghost start = self@;
        let mut lines: Vec<LogLine> = Vec::new();
        let mut files: Vec<String> = Vec::new();
        let mut i: usize = 0;
        proof {
            assert(lines_view(lines@) =~= Seq::<LogLineView>::empty());
            assert(text::strs(files@) =~= Seq::<Seq<char>>::empty());
        }
        while i < legacy.chats.len()
            invariant
                i <= legacy.chats@.len(),
                self.wf(),
                self@.path == start.path,
                self@.chat_dir == start.chat_dir,
                (Migration {
                    entries: self@.entries,
                    files: text::strs(files@),
                    lines: lines_view(lines@),
                }) == migrated(start.chat_dir, start.entries, *legacy, i as nat),
            decreases legacy.chats@.len() - i,
        {
            let chat = &legacy.chats[i];
            let ghost m = migrated(start.chat_dir, start.entries, *legacy, i as nat);
            let ghost history = history_of(legacy.history@, chat.chat_id);
            let file = self.file_for(chat, &files);
            let registered = self.find((chat.chat_id, None)).is_some();
            self.adopt(chat, file.as_str());
            let mut dump = self.dump(file.as_str(), chat.chat_id, &legacy.history);
            let ghost before = lines_view(lines@);
            let ghost more = lines_view(dump@);
            let ghost reserved = text::strs(files@);
            let ghost own = file@;
            proof {
                assert(more.len() == history.len());
            }
            if registered && dump.len() > 0 {
                files.push(file);
                proof {
                    assert(text::strs(files@) =~= reserved.push(own));
                }
            }
            lines.append(&mut dump);
            proof {
                assert(lines_view(lines@) =~= before + more);
                assert(migrated(start.chat_dir, start.entries, *legacy, (i + 1) as nat) == taken_over(
                    start.chat_dir,
                    m,
                    *chat,
                    history,
                ));
            }
            i += 1;
        }
        lines
    }

    /// The file that the history of a chat goes to, where `files` are taken beside the logs.
    fn file_for(&self, chat: &LegacyChat, files: &Vec<String>) -> (r: String)
        ensures
            r@ == unique_file(
                logs_of(self@.entries) + text::strs(files@),
                sanitized(legacy_name(*chat)) + ".legacy"@,
            ),
    {
        let mut taken = self.all_logs();
        let ghost logs = text::strs(taken@);
        let mut others = copy_strings(files);
        let ghost reserved = text::strs(others@);
        taken.append(&mut others);
        proof {
            assert(text::strs(taken@) =~= logs + reserved);
        }
        let name = name_of_legacy(chat);
        let mut stem = sanitize(name.as_str());
        stem.append(".legacy");
        unique_log(&taken, stem.as_str())
    }

    fn adopt(&mut self, chat: &LegacyChat, file: &str)
        requires
            old(self).wf(),
        ensures
            final(self).wf(),
            final(self)@ == (ChannelsView { entries: adopted(old(self)@.entries, *chat, file@), ..old(self)@ }),
    {
        let key: Key = (chat.chat_id, None);
        if self.find(key).is_some() {
            return;
        }
        let given = name_of_legacy(chat);
        let names = self.all_names();
        let name = unique_name(&names, given.as_str());
        self.store(key, Channel { name, kind: chat.kind.clone(), log: file.to_owned() });
    }

    fn dump(&self, file: &str, chat_id: i64, history: &Vec<LegacyHistory>) -> (lines: Vec<LogLine>)
        ensures
            lines_view(lines@) == dumped(self@.chat_dir, file@, history_of(history@, chat_id)),
    {
        let mut lines: Vec<LogLine> = Vec::new();
        let mut i: usize = 0;
        proof {
            assert(history@.skip(0) =~= history@);
        }
        while i < history.len() && history[i].chat_id != chat_id
            invariant
                i <= history@.len(),
                history_of(history@, chat_id) == history_of(history@.skip(i as int), chat_id),
            decreases history@.len() - i,
        {
            proof {
                assert(history@.skip(i as int)[0] == history@[i as int]);
                assert(history@.skip(i as int).drop_first() =~= history@.skip(i + 1));
            }
            i += 1;
        }
        if i >= history.len() {
            proof {
                assert(history@.skip(i as int).len() == 0);
                assert(lines_view(lines@) =~= dumped(self@.chat_dir, file@, history_of(history@, chat_id)));
            }
            return lines;
        }
        proof {
            assert(history@.skip(i as int)[0] == history@[i as int]);
        }
        let entries = &history[i].entries;
        let ghost goal = dumped(self@.chat_dir, file@, entries@);
        let mut j: usize = 0;
        while j < entries.len()
            invariant
                j <= entries@.len(),
                goal == dumped(self@.chat_dir, file@, entries@),
                lines@.len() == j,
                forall|k: int| 0 <= k < j ==> (#[trigger] lines@[k])@ == goal[k],
            decreases entries@.len() - j,
        {
            let e = &entries[j];
            let mut line = "[".to_owned();
            let time = timestamp(e.date);
            line.append(time.as_str());
            line.append("] #");
            let id = dec_signed(e.message_id);
            line.append(id.as_str());
            line.append(" ");
            line.append(e.author.as_str());
            line.append(": ");
            line.append(e.text.as_str());
            lines.push(LogLine { path: path_join(self.chat_dir.as_str(), file), line });
            j += 1;
        }
        proof {
            assert(lines_view(lines@) =~= goal);
        }
        lines
    }
}

/// Merging the legacy registry in keeps names and log files unique across channels.
pub proof fn law_migration_keeps_names_unique(dir: Seq<char>, s: Seq<(Key, ChannelView)>, legacy: Legacy, n: nat)
    requires
        in_key_order(s),
        distinct(names_of(s)),
        distinct(logs_of(s)),
    ensures
        in_key_order(migrated(dir, s, legacy, n).entries),
        distinct(names_of(migrated(dir, s, legacy, n).entries)),
        distinct(logs_of(migrated(dir, s, legacy, n).entries)),
    decreases n,
{
    if n > 0 {
        law_migration_keeps_names_unique(dir, s, legacy, (n - 1) as nat);
        let m = migrated(dir, s, legacy, (n - 1) as nat);
        let chat = legacy.chats@[n - 1];
        let key: Key = (chat.chat_id, None);
        let name = unique(names_of(m.entries), legacy_name(chat));
        let log = legacy_file(m, chat);
        law_unique_is_free(names_of(m.entries), legacy_name(chat));
        lemma_legacy_file_is_free(m, chat);
        lemma_put_distinct(m.entries, key, ChannelView { name, kind: chat.kind@, log });
        law_put(m.entries, key, ChannelView { name, kind: chat.kind@, log }, key);
    }
}

proof fn lemma_legacy_file_is_free(m: Migration, chat: LegacyChat)
    ensures
        !logs_of(m.entries).contains(legacy_file(m, chat)),
        !m.files.contains(legacy_file(m, chat)),
{
    let file = legacy_file(m, chat);
    let logs = logs_of(m.entries);
    let taken = logs + m.files;
    law_unique_is_free(taken, sanitized(legacy_name(chat)) + ".legacy"@);
    if logs.contains(file) {
        let i = logs.index_of(file);
        assert(taken[i] == file);
    }
    if m.files.contains(file) {
        let i = m.files.index_of(file);
        assert(taken[logs.len() + i] == file);
    }
}

/// A channel that is registered keeps its name, kind and log through the migration, and its log gets
/// no line of a legacy history: every line goes to a file that was nobody's log.
pub proof fn law_migration_keeps_channels(
    dir: Seq<char>,
    s: Seq<(Key, ChannelView)>,
    legacy: Legacy,
    n: nat,
    key: Key,
)
    requires
        in_key_order(s),
        lookup(s, key) is Some,
    ensures
        lookup(migrated(dir, s, legacy, n).entries, key) == lookup(s, key),
        forall|i: int|
            0 <= i < migrated(dir, s, legacy, n).lines.len() ==> goes_elsewhere(
                dir,
                lookup(s, key)->0.log,
                #[trigger] migrated(dir, s, legacy, n).lines[i],
            ),
    decreases n,
{
    lemma_migrated_in_order(dir, s, legacy, n);
    if n > 0 {
        law_migration_keeps_channels(dir, s, legacy, (n - 1) as nat, key);
        lemma_migrated_in_order(dir, s, legacy, (n - 1) as nat);
        let m = migrated(dir, s, legacy, (n - 1) as nat);
        let chat = legacy.chats@[n - 1];
        let file = legacy_file(m, chat);
        let history = history_of(legacy.history@, chat.chat_id);
        law_put(
            m.entries,
            (chat.chat_id, None),
            ChannelView { name: unique(names_of(m.entries), legacy_name(chat)), kind: chat.kind@, log: file },
            key,
        );
        lemma_legacy_file_is_free(m, chat);
        let k = lemma_entry_of(m.entries, key);
        assert(logs_of(m.entries)[k] == lookup(s, key)->0.log);
        let all = migrated(dir, s, legacy, n).lines;
        assert forall|i: int| 0 <= i < all.len() implies goes_elsewhere(dir, lookup(s, key)->0.log, #[trigger] all[i]) by {
            if i < m.lines.len() {
                assert(all[i] == m.lines[i]);
            } else {
                assert(all[i] == dumped(dir, file, history)[i - m.lines.len()]);
                assert(all[i].path == paths::join(dir, file));
            }
        }
    }
}

/// Whether a line goes to a file of the directory other than `log`.
pub open spec fn goes_elsewhere(dir: Seq<char>, log: Seq<char>, line: LogLineView) -> bool {
    exists|file: Seq<char>| file != log && line.path == #[trigger] paths::join(dir, file)
}

proof fn lemma_migrated_in_order(dir: Seq<char>, s: Seq<(Key, ChannelView)>, legacy: Legacy, n: nat)
    requires
        in_key_order(s),
    ensures
        in_key_order(migrated(dir, s, legacy, n).entries),
    decreases n,
{
    if n > 0 {
        lemma_migrated_in_order(dir, s, legacy, (n - 1) as nat);
        let m = migrated(dir, s, legacy, (n - 1) as nat);
        let chat = legacy.chats@[n - 1];
        let key: Key = (chat.chat_id, None);
        let c = ChannelView {
            name: unique(names_of(m.entries), legacy_name(chat)),
            kind: chat.kind@,
            log: legacy_file(m, chat),
        };
        law_put(m.entries, key, c, key);
    }
}

/// A file that holds a chat's history holds no other chat's: whatever file is next was taken by no
/// channel and by no history before.
pub proof fn law_histories_are_kept_apart(dir: Seq<char>, m: Migration, chat: LegacyChat, history: Seq<LegacyEntry>)
    ensures
        !logs_of(m.entries).contains(legacy_file(m, chat)),
        !m.files.contains(legacy_file(m, chat)),
        history.len() > 0 ==> {
            let after = taken_over(dir, m, chat, history);
            logs_of(after.entries).contains(legacy_file(m, chat)) || after.files.contains(legacy_file(m, chat))
        },
{
    lemma_legacy_file_is_free(m, chat);
    let file = legacy_file(m, chat);
    let key: Key = (chat.chat_id, None);
    let after = taken_over(dir, m, chat, history);
    if lookup(m.entries, key) is Some {
        if history.len() > 0 {
            assert(after.files.last() == file);
        }
    } else {
        let c = ChannelView { name: unique(names_of(m.entries), legacy_name(chat)), kind: chat.kind@, log: file };
        let i = lemma_put_holds(m.entries, key, c);
        assert(logs_of(after.entries)[i] == file);
    }
}

proof fn lemma_put_holds(s: Seq<(Key, ChannelView)>, key: Key, c: ChannelView) -> (i: int)
    ensures
        0 <= i < put(s, key, c).len(),
        put(s, key, c)[i] == (key, c),
    decreases s.len(),
{
    if s.len() == 0 || s[0].0 == key || key_before(key, s[0].0) {
        0
    } else {
        let i = lemma_put_holds(s.drop_first(), key, c);
        assert(put(s, key, c)[i + 1] == put(s.drop_first(), key, c)[i]);
        i + 1
    }
}

/// What is persisted is what is loaded again: the rows that a registry gives stand for it.
pub proof fn law_saved_registry_loads(channels: Channels, rows: Vec<Row>)
    requires
        channels.wf(),
        rows_view(rows@) == channels@.entries,
    ensures
        persisted(Some(rows)) == channels@.entries,
{
    law_registry_roundtrip(channels@.entries);
}

// ---------------------------------------------------------------------------------------------
// What the registry and the logs say
// ---------------------------------------------------------------------------------------------

/// Channels are in the order of their chats; in a chat the chat itself comes first, then its topics by
/// number.
pub proof fn law_channels_are_ordered(a: i64, b: i64, x: i64, y: i64)
    ensures
        a < b ==> key_before((a, Some(x)), (b, None)) && key_before((a, None), (b, Some(y))) && !key_before(
            (b, None),
            (a, Some(x)),
        ),
        key_before((a, None), (a, Some(x))),
        !key_before((a, Some(x)), (a, None)),
        key_before((a, Some(x)), (a, Some(y))) <==> x < y,
        !key_before((a, None), (a, None)),
{
}

/// Of rows with the same key the last one counts, whatever else there is.
pub proof fn law_last_row_counts(rows: Seq<(Key, ChannelView)>, key: Key, c: ChannelView, other: Key)
    ensures
        lookup(from_rows(rows.push((key, c))), key) == Some(c),
        other != key ==> lookup(from_rows(rows.push((key, c))), other) == lookup(from_rows(rows), other),
        lookup(from_rows(Seq::empty()), key) is None,
{
    assert(rows.push((key, c)).drop_last() =~= rows);
    lemma_from_rows_in_order(rows);
    law_put(from_rows(rows), key, c, other);
}

/// A name that is taken gets the lowest number from 2 on that makes it free, behind a hyphen; a name
/// that is free stays as it is. So do the names of log files.
pub proof fn law_taken_names_are_numbered(taken: Seq<Seq<char>>, name: Seq<char>)
    ensures
        !taken.contains(name) ==> unique(taken, name) == name,
        taken.contains(name) ==> exists|m: nat|
            2 <= m && unique(taken, name) == #[trigger] naming::numbered(name.push('-'), m, Seq::empty()) && forall|
                l: nat,
            |
                2 <= l < m ==> taken.contains(#[trigger] naming::numbered(name.push('-'), l, Seq::empty())),
        !taken.contains(name + ".log"@) ==> unique_file(taken, name) == name + ".log"@,
        taken.contains(name + ".log"@) ==> exists|m: nat|
            2 <= m && unique_file(taken, name) == #[trigger] naming::numbered(name.push('-'), m, ".log"@) && forall|
                l: nat,
            |
                2 <= l < m ==> taken.contains(#[trigger] naming::numbered(name.push('-'), l, ".log"@)),
{
    reveal_strlit("-");
    reveal_strlit("");
    assert(name + "-"@ =~= name.push('-'));
    assert(""@ =~= Seq::<char>::empty());
    naming::law_first_free(taken, name + "-"@, ""@, 2);
    naming::law_first_free(taken, name + "-"@, ".log"@, 2);
}

proof fn lemma_nothing_left(s: Seq<char>)
    requires
        forall|i: int| 0 <= i < s.len() ==> fringe(#[trigger] s[i]),
    ensures
        cut_start(s).len() == 0,
    decreases s.len(),
{
    if s.len() > 0 {
        let rest = s.drop_first();
        assert(fringe(s[0]));
        assert forall|i: int| 0 <= i < rest.len() implies fringe(#[trigger] rest[i]) by {
            assert(fringe(s[i + 1]));
        }
        lemma_nothing_left(rest);
    }
}

/// A file name is the channel's name with each character that is not safe in one replaced by an
/// underscore, without the spaces, dots and underscores at its ends; where nothing is left, it is a
/// name all the same.
pub proof fn law_file_names_stay_close(name: Seq<char>, i: int)
    requires
        0 <= i < name.len(),
    ensures
        !fringe(safe(name[0])) && !fringe(safe(name[name.len() - 1])) ==> sanitized(name).len() == name.len()
            && sanitized(name)[i] == safe(name[i]),
        (forall|k: int| 0 <= k < name.len() ==> fringe(#[trigger] safe(name[k]))) ==> sanitized(name) == "unnamed"@,
        unicode::alphanumeric(name[i]) || name[i] == ' ' || name[i] == '-' || name[i] == '_' || name[i] == '.' ==> safe(
            name[i],
        ) == name[i],
        safe(name[i]) != name[i] ==> safe(name[i]) == '_',
        safe('/') == '_',
{
    let clean = name.map_values(|c: char| safe(c));
    assert(clean.len() == name.len());
    assert(clean[0] == safe(name[0]) && clean.last() == safe(name[name.len() - 1]));
    if !fringe(safe(name[0])) && !fringe(safe(name[name.len() - 1])) {
        assert(cut_start(clean) == clean);
        assert(cut_end(clean) == clean);
    }
    if forall|k: int| 0 <= k < name.len() ==> fringe(#[trigger] safe(name[k])) {
        assert forall|k: int| 0 <= k < clean.len() implies fringe(#[trigger] clean[k]) by {
            assert(fringe(safe(name[k])));
        }
        lemma_nothing_left(clean);
        assert(cut_end(cut_start(clean)) == cut_start(clean));
    }
    unicode::law_ascii_alphanumeric('/');
}

/// A topic goes by its title, or by its number where it has none, and the first one is the general
/// one; outside of topics a private chat goes by its person and a group by its title.
pub proof fn law_channels_are_named(msg: TgMessage, n: i64)
    ensures
        msg.message_thread_id is Some ==> (msg.topic() matches Some(title) ==> candidate(msg) == title),
        msg.message_thread_id == Some(n) && msg.topic() is None && n != 1 ==> candidate(msg) == "topic "@
            + number::dec_int(n as int),
        msg.message_thread_id == Some(1i64) && msg.topic() is None ==> candidate(msg) == "General"@,
        msg.message_thread_id is None && msg.chat.kind@ == "private"@ ==> candidate(msg) == msg.chat.name(),
        msg.message_thread_id is None && msg.chat.kind@ != "private"@ ==> (msg.chat.title matches Some(title)
            ==> candidate(msg) == title@),
        msg.message_thread_id is None && msg.chat.kind@ != "private"@ && msg.chat.title is None ==> candidate(msg)
            == "chat "@ + number::dec_int(msg.chat.id as int),
{
}

/// A channel that is met for the first time is entered under a free name, with the kind of its chat
/// and a log file of its own that is called after it.
pub proof fn law_new_channels_are_entered(s: Seq<(Key, ChannelView)>, msg: TgMessage)
    requires
        in_key_order(s),
        lookup(s, (msg.chat.id, msg.message_thread_id)) is None,
        msg.topic() is None,
    ensures
        lookup(observed(s, msg), (msg.chat.id, msg.message_thread_id)) matches Some(c) && {
            &&& c.name == unique(names_of(s), candidate(msg))
            &&& c.kind == msg.chat.kind@
            &&& c.log == unique_file(logs_of(s), sanitized(c.name))
            &&& !names_of(s).contains(c.name)
            &&& !logs_of(s).contains(c.log)
        },
{
    let key = key_of(msg);
    let c = new_channel(s, candidate(msg), msg.chat.kind@);
    law_put(s, key, c, key);
    law_unique_is_free(names_of(s), candidate(msg));
    law_unique_is_free(logs_of(s), sanitized(c.name));
}

proof fn lemma_known_name(s: Seq<(Key, ChannelView)>, key: Key)
    requires
        lookup(s, key) is Some,
    ensures
        names_of(s).contains(lookup(s, key)->0.name),
{
    let i = lemma_entry_of(s, key);
    assert(names_of(s)[i] == s[i].1.name);
}

/// The registry is to be saved just where a message or a reaction has changed it.
pub proof fn law_changes_are_saved(c: ChannelsView, msg: TgMessage, edited: bool, r: MessageReaction)
    requires
        in_key_order(c.entries),
    ensures
        message_effect(c, msg, edited).1 <==> observed(c.entries, msg) != c.entries,
        reaction_effect(c, r).1 <==> reacted(c.entries, r) != c.entries,
{
    let s = c.entries;
    let key = key_of(msg);
    let first = met(s, msg);
    if lookup(s, key) is None {
        law_put(s, key, new_channel(s, candidate(msg), msg.chat.kind@), key);
        assert(lookup(first, key) is Some);
        if let Some(title) = msg.topic() {
            if is_news(first, key, title) {
                law_put(first, key, ChannelView { name: unique(names_of(first), title), ..lookup(first, key)->0 }, key);
            }
        }
        assert(lookup(observed(s, msg), key) is Some);
    } else if let Some(title) = msg.topic() {
        if is_news(s, key, title) {
            let new = unique(names_of(s), title);
            law_put(s, key, ChannelView { name: new, ..lookup(s, key)->0 }, key);
            law_unique_is_free(names_of(s), title);
            lemma_known_name(s, key);
            assert(lookup(observed(s, msg), key)->0.name != lookup(s, key)->0.name);
        }
    }
    let chat: Key = (r.chat.id, None);
    if lookup(s, chat) is None {
        law_put(s, chat, new_channel(s, chat_name(r.chat), r.chat.kind@), chat);
    }
}

/// A message is logged with its time, number and author and its text, verbatim, in the log of its
/// channel, and an edit as one; a message without text is not.
pub proof fn law_messages_are_logged(c: ChannelsView, msg: TgMessage, text: Seq<char>)
    ensures
        ({
            let after = observed(c.entries, msg);
            let key = (msg.chat.id, msg.message_thread_id);
            let who = match msg.from {
                Some(u) => u.name(),
                None => shown_name(after, key),
            };
            let line = "#"@ + number::dec_int(msg.message_id as int) + " "@ + who + ": "@ + text;
            &&& msg.body() == Some(text) ==> (lookup(after, key) matches Some(ch) ==> (message_effect(c, msg, false).0
                matches Some(l) && l.path == paths::join(c.chat_dir, ch.log) && l.line == "["@ + tg::stamp(msg.date)
                + "] "@ + line))
            &&& msg.body() == Some(text) ==> (lookup(after, key) matches Some(ch) ==> (message_effect(c, msg, true).0
                matches Some(l) && l.path == paths::join(c.chat_dir, ch.log) && l.line == "["@ + tg::stamp(msg.date)
                + "] EDIT "@ + line))
            &&& msg.body() is None ==> message_effect(c, msg, false).0 is None && message_effect(c, msg, true).0
                is None
        }),
{
    reveal_strlit("");
    reveal_strlit("] ");
    reveal_strlit("EDIT ");
    reveal_strlit("] EDIT ");
    let after = observed(c.entries, msg);
    let who = author(after, msg);
    let id = number::dec_int(msg.message_id as int);
    let line = "#"@ + id + " "@ + who + ": "@ + text;
    let stamp = "["@ + tg::stamp(msg.date);
    assert(stamp + "] "@ + ""@ + "#"@ + id + " "@ + who + ": "@ + text =~= stamp + "] "@ + line);
    assert(stamp + "] "@ + "EDIT "@ + "#"@ + id + " "@ + who + ": "@ + text =~= stamp + "] EDIT "@ + line);
}

/// A reaction is logged in the log of its chat with its time, the message and who it is by, and with
/// what it is now and what it was; one that was removed with what it was. What the agent itself sends
/// is logged with its number and text.
pub proof fn law_reactions_are_logged(c: ChannelsView, r: MessageReaction, now: i64, id: i64, text: Seq<char>)
    ensures
        ({
            let after = reacted(c.entries, r);
            let who = match r.user {
                Some(u) => u.name(),
                None => match r.actor_chat {
                    Some(chat) => chat.name(),
                    None => "someone"@,
                },
            };
            let whom = "#"@ + number::dec_int(r.message_id as int) + " by "@ + who + ": "@;
            let stamp = "["@ + tg::stamp(r.date) + "] "@;
            &&& lookup(after, (r.chat.id, None)) matches Some(ch) ==> (reaction_effect(c, r).0 matches Some(l) && l.path
                == paths::join(c.chat_dir, ch.log) && (r.new_reaction@.len() > 0 ==> l.line == stamp + "REACT "@ + whom
                + tg::reactions_text(r.new_reaction@) + " (was: "@ + tg::reactions_text(r.old_reaction@) + ")"@) && (
            r.new_reaction@.len() == 0 ==> l.line == stamp + "UNREACT "@ + whom + tg::reactions_text(r.old_reaction@)))
        }),
        own_line(now, "SENT"@, id, text) == "["@ + tg::stamp(now) + "] SENT #"@ + number::dec_int(id as int) + ": "@
            + text,
        own_line(now, "EDIT"@, id, text) == "["@ + tg::stamp(now) + "] EDIT #"@ + number::dec_int(id as int) + ": "@
            + text,
{
    reveal_strlit("] ");
    reveal_strlit(" #");
    reveal_strlit("SENT");
    reveal_strlit("EDIT");
    reveal_strlit("] SENT #");
    reveal_strlit("] EDIT #");
    let stamp = "["@ + tg::stamp(now);
    assert(stamp + "] "@ + "SENT"@ + " #"@ =~= stamp + "] SENT #"@);
    assert(stamp + "] "@ + "EDIT"@ + " #"@ =~= stamp + "] EDIT #"@);
}

proof fn lemma_named_is_first(s: Seq<(Key, ChannelView)>, name: Seq<char>)
    ensures
        named(s, name) is None <==> forall|i: int| 0 <= i < s.len() ==> (#[trigger] s[i]).1.name != name,
    decreases s.len(),
{
    if s.len() > 0 {
        let rest = s.drop_first();
        lemma_named_is_first(rest, name);
        if s[0].1.name != name {
            if named(s, name) is None {
                assert forall|i: int| 0 <= i < s.len() implies (#[trigger] s[i]).1.name != name by {
                    if i > 0 {
                        assert(rest[i - 1] == s[i]);
                    }
                }
            }
            if forall|i: int| 0 <= i < s.len() ==> (#[trigger] s[i]).1.name != name {
                assert forall|i: int| 0 <= i < rest.len() implies (#[trigger] rest[i]).1.name != name by {
                    assert(s[i + 1].1.name != name);
                }
            }
        }
    }
}

proof fn lemma_loosely(s: Seq<(Key, ChannelView)>, lower: Seq<char>, n: int)
    requires
        0 <= n < s.len(),
        unicode::lowercase(s[n].1.name) == lower,
    ensures
        named_loosely(s, lower).len() >= 1,
        (forall|i: int| 0 <= i < s.len() && i != n ==> unicode::lowercase((#[trigger] s[i]).1.name) != lower)
            ==> named_loosely(s, lower) == seq![s[n].0],
        forall|k: int|
            0 <= k < s.len() && k != n && unicode::lowercase((#[trigger] s[k]).1.name) == lower ==> named_loosely(
                s,
                lower,
            ).len() >= 2,
    decreases s.len(),
{
    let front = s.drop_last();
    if n == s.len() - 1 {
        if forall|i: int| 0 <= i < s.len() && i != n ==> unicode::lowercase((#[trigger] s[i]).1.name) != lower {
            assert forall|i: int| 0 <= i < front.len() implies unicode::lowercase((#[trigger] front[i]).1.name)
                != lower by {
                assert(front[i] == s[i]);
            }
            lemma_none_loosely(front, lower);
            assert(named_loosely(s, lower) =~= seq![s[n].0]);
        }
        assert forall|k: int|
            0 <= k < s.len() && k != n && unicode::lowercase((#[trigger] s[k]).1.name) == lower implies named_loosely(
            s,
            lower,
        ).len() >= 2 by {
            assert(front[k] == s[k]);
            lemma_loosely(front, lower, k);
        }
    } else {
        lemma_loosely(front, lower, n);
        assert(front[n] == s[n]);
        if forall|i: int| 0 <= i < s.len() && i != n ==> unicode::lowercase((#[trigger] s[i]).1.name) != lower {
            assert(unicode::lowercase(s[s.len() - 1].1.name) != lower);
            assert forall|i: int| 0 <= i < front.len() && i != n implies unicode::lowercase(
                (#[trigger] front[i]).1.name,
            ) != lower by {
                assert(front[i] == s[i]);
            }
        }
        assert forall|k: int|
            0 <= k < s.len() && k != n && unicode::lowercase((#[trigger] s[k]).1.name) == lower implies named_loosely(
            s,
            lower,
        ).len() >= 2 by {
            if k < front.len() {
                assert(front[k] == s[k]);
            }
        }
    }
}

proof fn lemma_none_loosely(s: Seq<(Key, ChannelView)>, lower: Seq<char>)
    requires
        forall|i: int| 0 <= i < s.len() ==> unicode::lowercase((#[trigger] s[i]).1.name) != lower,
    ensures
        named_loosely(s, lower).len() == 0,
    decreases s.len(),
{
    if s.len() > 0 {
        let front = s.drop_last();
        assert(unicode::lowercase(s[s.len() - 1].1.name) != lower);
        assert forall|i: int| 0 <= i < front.len() implies unicode::lowercase((#[trigger] front[i]).1.name) != lower by {
            assert(front[i] == s[i]);
        }
        lemma_none_loosely(front, lower);
    }
}

/// A name that no channel has is also looked for in other case: it is that of the channel that it fits
/// so, as long as it fits no other, and nobody's where it fits none.
pub proof fn law_names_resolve_in_other_case(s: Seq<(Key, ChannelView)>, name: Seq<char>, n: int, k: int)
    requires
        forall|i: int| 0 <= i < s.len() ==> (#[trigger] s[i]).1.name != name,
    ensures
        0 <= n < s.len() && unicode::lowercase(s[n].1.name) == unicode::lowercase(name) && (forall|i: int|
            0 <= i < s.len() && i != n ==> unicode::lowercase((#[trigger] s[i]).1.name) != unicode::lowercase(name))
            ==> resolved(s, name) == Some(s[n].0),
        0 <= n < s.len() && 0 <= k < s.len() && n != k && unicode::lowercase(s[n].1.name) == unicode::lowercase(name)
            && unicode::lowercase(s[k].1.name) == unicode::lowercase(name) ==> resolved(s, name) is None,
        (forall|i: int| 0 <= i < s.len() ==> unicode::lowercase((#[trigger] s[i]).1.name) != unicode::lowercase(name))
            ==> resolved(s, name) is None,
{
    let lower = unicode::lowercase(name);
    lemma_named_is_first(s, name);
    if 0 <= n < s.len() && unicode::lowercase(s[n].1.name) == lower {
        lemma_loosely(s, lower, n);
    }
    if forall|i: int| 0 <= i < s.len() ==> unicode::lowercase((#[trigger] s[i]).1.name) != lower {
        lemma_none_loosely(s, lower);
    }
}

/// Names are listed by their lower case, none is lost and none is added.
pub proof fn law_names_are_listed_in_order(names: Seq<Seq<char>>, x: Seq<char>)
    ensures
        sorted_names(names).len() == names.len(),
        sorted_names(names).contains(x) <==> names.contains(x),
        forall|i: int, j: int|
            0 <= i <= j < sorted_names(names).len() ==> !order::before(
                unicode::lowercase(#[trigger] sorted_names(names)[j]),
                unicode::lowercase(#[trigger] sorted_names(names)[i]),
            ),
{
    broadcast use vstd::seq_lib::group_to_multiset_ensures;

    let keyed = sort_keys(names);
    let sorted = order::in_order(keyed);
    let v = sorted_names(names);
    order::law_sorting(keyed);
    assert forall|k: int| 0 <= k < sorted.len() implies keyed.contains(#[trigger] sorted[k]) by {
        assert(sorted.contains(sorted[k]));
        assert(sorted.to_multiset().count(sorted[k]) > 0);
    }
    assert forall|i: int, j: int| 0 <= i <= j < v.len() implies !order::before(
        unicode::lowercase(#[trigger] v[j]),
        unicode::lowercase(#[trigger] v[i]),
    ) by {
        assert(keyed.contains(sorted[i]) && keyed.contains(sorted[j]));
        assert(sorted[i].0 == unicode::lowercase(v[i]) && sorted[j].0 == unicode::lowercase(v[j]));
    }
    if names.contains(x) {
        let i = choose|i: int| 0 <= i < names.len() && names[i] == x;
        let p = (unicode::lowercase(x), x);
        assert(keyed[i] == p);
        assert(keyed.contains(p));
        assert(keyed.to_multiset().count(p) > 0);
        assert(sorted.contains(p));
        let k = choose|k: int| 0 <= k < sorted.len() && sorted[k] == p;
        assert(v[k] == x);
    }
    if v.contains(x) {
        let k = choose|k: int| 0 <= k < v.len() && v[k] == x;
        assert(keyed.contains(sorted[k]));
        let i = choose|i: int| 0 <= i < keyed.len() && keyed[i] == sorted[k];
        assert(names[i] == x);
    }
}

/// Each channel is listed with the direct messages or with the groups, by the kind of its chat.
pub proof fn law_channels_are_listed_by_kind(s: Seq<(Key, ChannelView)>, key: Key, c: ChannelView)
    ensures
        c.kind == "private"@ ==> names_of_kind(s.push((key, c)), true) == names_of_kind(s, true).push(c.name)
            && names_of_kind(s.push((key, c)), false) == names_of_kind(s, false),
        c.kind != "private"@ ==> names_of_kind(s.push((key, c)), false) == names_of_kind(s, false).push(c.name)
            && names_of_kind(s.push((key, c)), true) == names_of_kind(s, true),
        names_of_kind(Seq::empty(), true).len() == 0,
        names_of_kind(Seq::empty(), false).len() == 0,
        s.len() == 0 ==> channel_list(s) == "No channels observed yet."@,
        s.len() > 0 && names_of_kind(s, false).len() == 0 && names_of_kind(s, true).len() > 0 ==> channel_list(s)
            == text::trim_end(
            "DM channels:\n* "@ + search::join(sorted_names(names_of_kind(s, true)), "\n* "@) + "\n\n"@,
        ),
        s.len() > 0 && names_of_kind(s, true).len() == 0 && names_of_kind(s, false).len() > 0 ==> channel_list(s)
            == text::trim_end(
            "\nGroup channels:\n* "@ + search::join(sorted_names(names_of_kind(s, false)), "\n* "@) + "\n"@,
        ),
        s.len() > 0 && names_of_kind(s, true).len() > 0 && names_of_kind(s, false).len() > 0 ==> channel_list(s)
            == text::trim_end(
            "DM channels:\n* "@ + search::join(sorted_names(names_of_kind(s, true)), "\n* "@)
                + "\n\nGroup channels:\n* "@ + search::join(sorted_names(names_of_kind(s, false)), "\n* "@) + "\n"@,
        ),
{
    reveal_strlit("DM channels");
    reveal_strlit("Group channels");
    reveal_strlit(":\n* ");
    reveal_strlit("\n");
    reveal_strlit("\n\n");
    reveal_strlit("DM channels:\n* ");
    reveal_strlit("\nGroup channels:\n* ");
    reveal_strlit("\n\nGroup channels:\n* ");
    assert(s.push((key, c)).drop_last() =~= s);
    let dms = search::join(sorted_names(names_of_kind(s, true)), "\n* "@);
    let groups = search::join(sorted_names(names_of_kind(s, false)), "\n* "@);
    let none = Seq::<char>::empty();
    assert("DM channels"@ + ":\n* "@ + dms + "\n"@ + "\n"@ + none =~= "DM channels:\n* "@ + dms + "\n\n"@);
    assert(none + "\n"@ + ("Group channels"@ + ":\n* "@ + groups + "\n"@) =~= "\nGroup channels:\n* "@ + groups
        + "\n"@);
    assert("DM channels"@ + ":\n* "@ + dms + "\n"@ + "\n"@ + ("Group channels"@ + ":\n* "@ + groups + "\n"@)
        =~= "DM channels:\n* "@ + dms + "\n\nGroup channels:\n* "@ + groups + "\n"@);
}

/// What was kept of a chat before there were channel logs is taken over line by line: each entry with
/// its time, number, author and text, in order, behind what was taken over before, and the chat under
/// its title and its kind.
pub proof fn law_histories_are_taken_over(
    dir: Seq<char>,
    m: Migration,
    chat: LegacyChat,
    history: Seq<LegacyEntry>,
    i: int,
)
    requires
        in_key_order(m.entries),
        0 <= i < history.len(),
    ensures
        ({
            let after = taken_over(dir, m, chat, history);
            let title = match chat.title {
                Some(title) => title@,
                None => "chat "@ + number::dec_int(chat.chat_id as int),
            };
            let e = history[i];
            &&& after.lines.len() == m.lines.len() + history.len()
            &&& after.lines.take(m.lines.len() as int) == m.lines
            &&& after.lines[m.lines.len() + i].line == "["@ + tg::stamp(e.date) + "] #"@ + number::dec_int(
                e.message_id as int,
            ) + " "@ + e.author@ + ": "@ + e.text@
            &&& after.lines[m.lines.len() + i].path == after.lines[m.lines.len() as int].path
            &&& lookup(m.entries, (chat.chat_id, None)) is None ==> (lookup(after.entries, (chat.chat_id, None))
                matches Some(c) && c.kind == chat.kind@ && c.name == unique(names_of(m.entries), title)
                && after.lines[m.lines.len() + i].path == paths::join(dir, c.log))
            &&& lookup(m.entries, (chat.chat_id, None)) is Some ==> after.entries == m.entries
        }),
{
    let after = taken_over(dir, m, chat, history);
    let file = legacy_file(m, chat);
    assert(after.lines.take(m.lines.len() as int) =~= m.lines);
    assert(after.lines[m.lines.len() + i] == dumped(dir, file, history)[i]);
    assert(after.lines[m.lines.len() as int] == dumped(dir, file, history)[0]);
    let key: Key = (chat.chat_id, None);
    if lookup(m.entries, key) is None {
        law_put(
            m.entries,
            key,
            ChannelView { name: unique(names_of(m.entries), legacy_name(chat)), kind: chat.kind@, log: file },
            key,
        );
    }
}

/// The entries of a chat are those that are kept under its number.
pub proof fn law_histories_are_found(history: Seq<LegacyHistory>, i: int, chat_id: i64)
    requires
        0 <= i < history.len(),
        forall|j: int| 0 <= j < i ==> (#[trigger] history[j]).chat_id != history[i].chat_id,
    ensures
        history_of(history, history[i].chat_id) == history[i].entries@,
        (forall|j: int| 0 <= j < history.len() ==> (#[trigger] history[j]).chat_id != chat_id) ==> history_of(
            history,
            chat_id,
        ).len() == 0,
    decreases history.len(),
{
    let rest = history.drop_first();
    if i > 0 {
        assert(history[0].chat_id != history[i].chat_id);
        assert forall|j: int| 0 <= j < i - 1 implies (#[trigger] rest[j]).chat_id != rest[i - 1].chat_id by {
            assert(history[j + 1].chat_id != history[i].chat_id);
        }
        law_histories_are_found(rest, i - 1, chat_id);
    }
    if forall|j: int| 0 <= j < history.len() ==> (#[trigger] history[j]).chat_id != chat_id {
        lemma_no_history(history, chat_id);
    }
}

proof fn lemma_no_history(history: Seq<LegacyHistory>, chat_id: i64)
    requires
        forall|j: int| 0 <= j < history.len() ==> (#[trigger] history[j]).chat_id != chat_id,
    ensures
        history_of(history, chat_id).len() == 0,
    decreases history.len(),
{
    if history.len() > 0 {
        let rest = history.drop_first();
        assert(history[0].chat_id != chat_id);
        assert forall|j: int| 0 <= j < rest.len() implies (#[trigger] rest[j]).chat_id != chat_id by {
            assert(history[j + 1].chat_id != chat_id);
        }
        lemma_no_history(rest, chat_id);
    }
}

/// A topic is known by a stand-in for its title, and may still learn it, where it is called after its
/// number, or is the first one and called the general one; a chat as a whole never is.
pub proof fn law_stand_in_names(t: i64, name: Seq<char>)
    ensures
        fallback(Some(t), "topic "@ + number::dec_int(t as int)),
        fallback(Some(1i64), "General"@),
        t != 1 && name != "topic "@ + number::dec_int(t as int) ==> !fallback(Some(t), name),
        !fallback(None, name),
{
}

/// A chat that is first met by a reaction is entered too, under the name of the person it is with or
/// under its title.
pub proof fn law_reactions_enter_the_chat(s: Seq<(Key, ChannelView)>, r: MessageReaction)
    requires
        in_key_order(s),
        lookup(s, (r.chat.id, None)) is None,
    ensures
        lookup(reacted(s, r), (r.chat.id, None)) matches Some(c) && {
            &&& r.chat.kind@ == "private"@ ==> c.name == unique(names_of(s), r.chat.name())
            &&& r.chat.kind@ != "private"@ ==> c.name == unique(names_of(s), r.chat.caption())
            &&& c.kind == r.chat.kind@
            &&& c.log == unique_file(logs_of(s), sanitized(c.name))
        },
{
    let key: Key = (r.chat.id, None);
    law_put(s, key, new_channel(s, chat_name(r.chat), r.chat.kind@), key);
}

/// A topic that learns its title keeps its kind and its log, and one that has a title of its own keeps
/// that too.
pub proof fn law_renamed_channels_keep_their_log(s: Seq<(Key, ChannelView)>, msg: TgMessage)
    requires
        in_key_order(s),
    ensures
        lookup(s, (msg.chat.id, msg.message_thread_id)) matches Some(was) ==> (lookup(
            observed(s, msg),
            (msg.chat.id, msg.message_thread_id),
        ) matches Some(now) && now.log == was.log && now.kind == was.kind && (!fallback(
            msg.message_thread_id,
            was.name,
        ) ==> now.name == was.name) && (msg.topic() is None ==> now.name == was.name)),
{
    let key = key_of(msg);
    if lookup(s, key) is Some && msg.topic() is Some && is_news(s, key, msg.topic()->0) {
        law_put(s, key, ChannelView { name: unique(names_of(s), msg.topic()->0), ..lookup(s, key)->0 }, key);
    }
}

/// A channel is shown by its name, and one that is not known by the number of its topic or chat.
pub proof fn law_channels_are_shown(s: Seq<(Key, ChannelView)>, chat_id: i64, t: i64, key: Key)
    ensures
        lookup(s, key) matches Some(c) ==> shown_name(s, key) == c.name,
        lookup(s, (chat_id, None)) is None ==> shown_name(s, (chat_id, None)) == "chat "@ + number::dec_int(
            chat_id as int,
        ),
        lookup(s, (chat_id, Some(t))) is None && t != 1 ==> shown_name(s, (chat_id, Some(t))) == "topic "@
            + number::dec_int(t as int),
        lookup(s, (chat_id, Some(1i64))) is None ==> shown_name(s, (chat_id, Some(1i64))) == "General"@,
{
}

proof fn lemma_cut_parts(s: Seq<char>)
    ensures
        ({
            let r = cut_end(cut_start(s));
            let n = s.len() - cut_start(s).len();
            &&& 0 <= n
            &&& n + r.len() <= s.len()
            &&& r == s.subrange(n, n + r.len())
            &&& forall|i: int| 0 <= i < s.len() && !(n <= i < n + r.len()) ==> fringe(#[trigger] s[i])
        }),
    decreases s.len(),
{
    if s.len() > 0 && fringe(s[0]) {
        let rest = s.drop_first();
        lemma_cut_parts(rest);
        let r = cut_end(cut_start(s));
        let n = s.len() - cut_start(s).len();
        assert(r =~= s.subrange(n, n + r.len()));
        assert forall|i: int| 0 <= i < s.len() && !(n <= i < n + r.len()) implies fringe(#[trigger] s[i]) by {
            if i > 0 {
                assert(rest[i - 1] == s[i]);
            }
        }
    } else {
        lemma_cut_back(s);
    }
}

proof fn lemma_cut_back(s: Seq<char>)
    ensures
        cut_end(s).len() <= s.len(),
        cut_end(s) == s.subrange(0, cut_end(s).len() as int),
        forall|i: int| cut_end(s).len() <= i < s.len() ==> fringe(#[trigger] s[i]),
    decreases s.len(),
{
    if s.len() > 0 && fringe(s.last()) {
        let front = s.drop_last();
        lemma_cut_back(front);
        assert(cut_end(s) =~= s.subrange(0, cut_end(s).len() as int));
        assert forall|i: int| cut_end(s).len() <= i < s.len() implies fringe(#[trigger] s[i]) by {
            if i < front.len() {
                assert(front[i] == s[i]);
            }
        }
    } else {
        assert(s.subrange(0, s.len() as int) =~= s);
    }
}

/// Whether `r` is what is left of a name, with its characters made safe, from `n` on when spaces, dots
/// and underscores are cut off its ends.
pub open spec fn cuts_to(name: Seq<char>, r: Seq<char>, n: int) -> bool {
    let s = Seq::new(name.len(), |i: int| safe(name[i]));
    &&& 0 <= n
    &&& n + r.len() <= s.len()
    &&& r == s.subrange(n, n + r.len())
    &&& forall|i: int|
        0 <= i < s.len() && !(n <= i < n + r.len()) ==> #[trigger] s[i] == ' ' || s[i] == '.' || s[i] == '_'
    &&& r.len() > 0 ==> r[0] != ' ' && r[0] != '.' && r[0] != '_'
    &&& r.len() > 0 ==> r.last() != ' ' && r.last() != '.' && r.last() != '_'
}

/// Only the ends of a name are cut for its file: everything in between is kept, in order.
pub proof fn law_only_ends_are_cut(name: Seq<char>)
    ensures
        exists|n: int, r: Seq<char>|
            #[trigger] cuts_to(name, r, n) && sanitized(name) == (if r.len() > 0 {
                r
            } else {
                "unnamed"@
            }),
{
    let clean = name.map_values(|c: char| safe(c));
    let r = cut_end(cut_start(clean));
    let n = clean.len() - cut_start(clean).len();
    lemma_cut_parts(clean);
    let from = lemma_cut_start_is_tail(clean);
    let to = lemma_cut_end_is_front(cut_start(clean));
    if r.len() > 0 {
        assert(r[0] == cut_start(clean)[0]);
    }
    assert(clean =~= Seq::new(name.len(), |i: int| safe(name[i])));
    assert(cuts_to(name, r, n));
}

/// What was kept of a chat goes into a file of its own, which is called after the chat and is as old.
pub proof fn law_old_files_are_called_so(m: Migration, chat: LegacyChat)
    ensures
        ({
            let title = match chat.title {
                Some(title) => title@,
                None => "chat "@ + number::dec_int(chat.chat_id as int),
            };
            let name = sanitized(title) + ".legacy.log"@;
            !(logs_of(m.entries) + m.files).contains(name) ==> legacy_file(m, chat) == name
        }),
{
    reveal_strlit(".legacy");
    reveal_strlit(".log");
    reveal_strlit(".legacy.log");
    let stem = sanitized(legacy_name(chat));
    assert(stem + ".legacy"@ + ".log"@ =~= stem + ".legacy.log"@);
}

/// Every chat that was kept is entered, and every line of what was kept of it is written.
pub proof fn law_every_chat_is_taken_over(
    dir: Seq<char>,
    s: Seq<(Key, ChannelView)>,
    legacy: Legacy,
    n: nat,
    i: int,
    k: int,
)
    requires
        in_key_order(s),
        n <= legacy.chats@.len(),
        0 <= i < n,
    ensures
        lookup(migrated(dir, s, legacy, n).entries, (legacy.chats@[i].chat_id, None)) is Some,
        ({
            let entries = history_of(legacy.history@, legacy.chats@[i].chat_id);
            0 <= k < entries.len() ==> exists|j: int|
                0 <= j < migrated(dir, s, legacy, n).lines.len() && (#[trigger] migrated(
                    dir,
                    s,
                    legacy,
                    n,
                ).lines[j]).line == "["@ + tg::stamp(entries[k].date) + "] #"@ + number::dec_int(
                    entries[k].message_id as int,
                ) + " "@ + entries[k].author@ + ": "@ + entries[k].text@
        }),
    decreases n,
{
    let m = migrated(dir, s, legacy, (n - 1) as nat);
    let all = migrated(dir, s, legacy, n);
    let chat = legacy.chats@[n - 1];
    let key: Key = (chat.chat_id, None);
    let id: Key = (legacy.chats@[i].chat_id, None);
    let history = history_of(legacy.history@, chat.chat_id);
    let entries = history_of(legacy.history@, legacy.chats@[i].chat_id);
    lemma_migrated_in_order(dir, s, legacy, (n - 1) as nat);
    if lookup(m.entries, key) is None {
        law_put(
            m.entries,
            key,
            ChannelView {
                name: unique(names_of(m.entries), legacy_name(chat)),
                kind: chat.kind@,
                log: legacy_file(m, chat),
            },
            id,
        );
    }
    if i < n - 1 {
        law_every_chat_is_taken_over(dir, s, legacy, (n - 1) as nat, i, k);
        if 0 <= k < entries.len() {
            let line = legacy_line(entries[k]);
            let j = choose|j: int| 0 <= j < m.lines.len() && (#[trigger] m.lines[j]).line == line;
            assert(all.lines[j] == m.lines[j]);
        }
    } else if 0 <= k < entries.len() {
        assert(all.lines[m.lines.len() + k] == dumped(dir, legacy_file(m, chat), history)[k]);
    }
}

/// A file that takes in a history counts as taken from then on: as the log of the channel that is
/// entered with it, or else as one of the files in use, where anything was written to it.
pub proof fn law_files_in_use_are_noted(dir: Seq<char>, m: Migration, chat: LegacyChat, history: Seq<LegacyEntry>)
    ensures
        lookup(m.entries, (chat.chat_id, None)) is None || history.len() == 0 ==> taken_over(
            dir,
            m,
            chat,
            history,
        ).files == m.files,
        lookup(m.entries, (chat.chat_id, None)) is Some && history.len() > 0 ==> taken_over(
            dir,
            m,
            chat,
            history,
        ).files == m.files.push(legacy_file(m, chat)),
{
}

} // verus!
