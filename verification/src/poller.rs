//! Start-up and polling: who the bot is, whom it listens to, and how far updates were read.
use crate::config::{AllowedUser, TelegramCfg, TopicCfg};
use crate::number;
use crate::number::{dec_signed, parse_i64};
use crate::search;
use crate::search::joined;
use crate::text;
use crate::text::trimmed;
use crate::tg;
use crate::tg::{classify, TgUser, Update, Verdict, WatchList};
use vstd::prelude::*;

verus! {

broadcast use vstd::seq::group_seq_axioms;

/// The bot's user name: what the Bot API says, else what is configured.
pub fn bot_username(me: &TgUser, cfg: &TelegramCfg) -> (r: Result<String, String>)
    ensures
        match r {
            Ok(name) => Some(name@) == (if me.username is Some {
                text::opt_str(me.username)
            } else {
                text::opt_str(cfg.bot_username)
            }),
            Err(e) => {
                &&& me.username is None && cfg.bot_username is None
                &&& e@ == "bot username unknown: set `telegram.bot_username`"@
            },
        },
{
    match &me.username {
        Some(name) => Ok(name.clone()),
        None => match &cfg.bot_username {
            Some(name) => Ok(name.clone()),
            None => Err("bot username unknown: set `telegram.bot_username`".to_owned()),
        },
    }
}

/// The ids of users.
pub open spec fn ids_of(users: Seq<AllowedUser>) -> Seq<i64> {
    Seq::new(users.len(), |i: int| users[i].id)
}

/// Topics as pairs.
pub open spec fn topics_of(topics: Seq<TopicCfg>) -> Seq<(i64, i64)> {
    Seq::new(topics.len(), |i: int| (topics[i].chat_id, topics[i].thread_id))
}

/// Whom the agent listens to, and where it listens closely.
pub fn watch_list(cfg: &TelegramCfg, me: &TgUser, bot_username: &str) -> (r: WatchList)
    ensures
        r.allowed_users@ == ids_of(cfg.allowed_users@),
        r.subscribed_topics@ == topics_of(cfg.subscribed_topics@),
        r.bot_id == me.id,
        r.bot_username@ == bot_username@,
{
    let mut allowed_users: Vec<i64> = Vec::new();
    let mut i: usize = 0;
    while i < cfg.allowed_users.len()
        invariant
            i <= cfg.allowed_users@.len(),
            allowed_users@ == ids_of(cfg.allowed_users@).take(i as int),
        decreases cfg.allowed_users@.len() - i,
    {
        allowed_users.push(cfg.allowed_users[i].id);
        i += 1;
        proof {
            assert(allowed_users@ =~= ids_of(cfg.allowed_users@).take(i as int));
        }
    }
    let mut subscribed_topics: Vec<(i64, i64)> = Vec::new();
    let mut j: usize = 0;
    while j < cfg.subscribed_topics.len()
        invariant
            j <= cfg.subscribed_topics@.len(),
            subscribed_topics@ == topics_of(cfg.subscribed_topics@).take(j as int),
        decreases cfg.subscribed_topics@.len() - j,
    {
        subscribed_topics.push((cfg.subscribed_topics[j].chat_id, cfg.subscribed_topics[j].thread_id));
        j += 1;
        proof {
            assert(subscribed_topics@ =~= topics_of(cfg.subscribed_topics@).take(j as int));
        }
    }
    proof {
        assert(allowed_users@ =~= ids_of(cfg.allowed_users@));
        assert(subscribed_topics@ =~= topics_of(cfg.subscribed_topics@));
    }
    WatchList { allowed_users, subscribed_topics, bot_id: me.id, bot_username: bot_username.to_owned() }
}

/// The name of the first user with that id, where there is such a user and the name is known.
pub open spec fn name_of(users: Seq<AllowedUser>, id: i64) -> Option<Seq<char>>
    decreases users.len(),
{
    if users.len() == 0 {
        None
    } else if users[0].id == id {
        text::opt_str(users[0].name)
    } else {
        name_of(users.drop_first(), id)
    }
}

/// How a user of the allowlist is shown.
pub open spec fn allowed_text(users: Seq<AllowedUser>, id: i64) -> Seq<char> {
    match name_of(users, id) {
        Some(name) => name + " (#"@ + number::dec_int(id as int) + ")"@,
        None => "#"@ + number::dec_int(id as int),
    }
}

/// How the allowlist is shown.
pub open spec fn allowlist_text(users: Seq<AllowedUser>) -> Seq<char> {
    search::join(Seq::new(users.len(), |i: int| allowed_text(users, users[i].id)), ", "@)
}

fn show_allowed(users: &Vec<AllowedUser>, id: i64) -> (r: String)
    ensures
        r@ == allowed_text(users@, id),
{
    let mut i: usize = 0;
    proof {
        assert(users@.skip(0) =~= users@);
    }
    while i < users.len() && users[i].id != id
        invariant
            i <= users@.len(),
            name_of(users@, id) == name_of(users@.skip(i as int), id),
        decreases users@.len() - i,
    {
        proof {
            assert(users@.skip(i as int)[0] == users@[i as int]);
            assert(users@.skip(i as int).drop_first() =~= users@.skip(i + 1));
        }
        i += 1;
    }
    proof {
        if i < users@.len() {
            assert(users@.skip(i as int)[0] == users@[i as int]);
        }
    }
    let digits = dec_signed(id);
    if i < users.len() {
        if let Some(name) = &users[i].name {
            let mut s = name.clone();
            s.append(" (#");
            s.append(digits.as_str());
            s.append(")");
            return s;
        }
    }
    let mut s = "#".to_owned();
    s.append(digits.as_str());
    s
}

/// How the allowlist is shown.
pub fn show_allowlist(users: &Vec<AllowedUser>) -> (r: String)
    ensures
        r@ == allowlist_text(users@),
{
    let mut shown: Vec<String> = Vec::new();
    let mut i: usize = 0;
    while i < users.len()
        invariant
            i <= users@.len(),
            shown@.len() == i,
            forall|k: int| 0 <= k < i ==> (#[trigger] shown@[k])@ == allowed_text(users@, users@[k].id),
        decreases users@.len() - i,
    {
        shown.push(show_allowed(users, users[i].id));
        i += 1;
    }
    proof {
        assert(text::strs(shown@) =~= Seq::new(users@.len(), |i: int| allowed_text(users@, users@[i].id)));
    }
    joined(&shown, ", ")
}

/// The id of the last update that was read, as it was persisted; zero where it was not.
pub open spec fn persisted_offset(stored: Option<Seq<char>>) -> i64 {
    match stored {
        Some(s) => match number::i64_value(text::trim(s)) {
            Some(n) => n,
            None => 0,
        },
        None => 0,
    }
}

/// The id of the last update that was read, as it was persisted.
pub fn read_offset(stored: Option<&str>) -> (r: i64)
    ensures
        r == persisted_offset(tg::opt_view(stored)),
{
    match stored {
        Some(s) => {
            let inner = trimmed(s);
            match parse_i64(inner.as_str()) {
                Some(n) => n,
                None => 0,
            }
        },
        None => 0,
    }
}

/// The id of the last update that was read, as it is persisted.
pub fn show_offset(offset: i64) -> (r: String)
    ensures
        r@ == number::dec_int(offset as int),
{
    dec_signed(offset)
}

/// From which update on to poll: behind the last one that was read.
pub fn poll_offset(offset: i64) -> (r: Option<i64>)
    requires
        offset < i64::MAX,
    ensures
        r == (if offset > 0 {
            Some((offset + 1) as i64)
        } else {
            None
        }),
{
    if offset > 0 {
        Some(offset + 1)
    } else {
        None
    }
}

/// The id of the last update that was read, after one more.
pub open spec fn offset_after(offset: i64, update_id: i64) -> i64 {
    if update_id > offset {
        update_id
    } else {
        offset
    }
}

/// Take note of an update: how far updates were read, and what becomes of it.
pub fn ingest(offset: i64, update: &Update, watch: &WatchList) -> (r: (i64, Verdict))
    ensures
        r.0 == offset_after(offset, update.update_id),
        r.1 == tg::verdict(*update, *watch),
{
    let last: i64 = if update.update_id > offset { update.update_id } else { offset };
    (last, classify(update, watch))
}

proof fn lemma_trim_keeps_digits(s: Seq<char>)
    requires
        s.len() > 0,
        !text::white(s[0]),
        !text::white(s.last()),
    ensures
        text::trim(s) == s,
{
    assert(text::trim_start(s) == s);
    assert(text::trim_end(s) == s);
}

/// Reading goes on where it stopped: the offset that is persisted is the one that is read back, and
/// taking note of an update never lets it fall behind that update or behind where it was.
pub proof fn law_offset_survives_restart(offset: i64, update_id: i64)
    ensures
        persisted_offset(Some(number::dec_int(offset as int))) == offset,
        offset_after(offset, update_id) >= offset,
        offset_after(offset, update_id) >= update_id,
{
    let s = number::dec_int(offset as int);
    if offset < 0 {
        number::lemma_value_of_dec((-(offset as int)) as nat);
        let d = number::dec((-(offset as int)) as nat);
        assert(s[0] == '-');
        assert(s.last() == d[d.len() - 1]);
        assert(number::is_digit(d[d.len() - 1]));
    } else {
        number::lemma_value_of_dec(offset as nat);
        assert(number::is_digit(s[0]));
        assert(number::is_digit(s[s.len() - 1]));
    }
    lemma_trim_keeps_digits(s);
    number::law_number_roundtrip(offset);
}

/// The offset never falls, and covers each update that was seen.
pub proof fn law_offset_covers_what_was_seen(offset: i64, update_id: i64)
    ensures
        offset_after(offset, update_id) >= offset,
        offset_after(offset, update_id) >= update_id,
        offset_after(offset, update_id) == offset || offset_after(offset, update_id) == update_id,
        persisted_offset(None) == 0,
{
}

/// A user of the allow-list is shown by the name given with the first entry of that id and by the id,
/// or by the id alone.
pub proof fn law_allowed_users_are_shown(users: Seq<AllowedUser>, i: int)
    requires
        0 <= i < users.len(),
        forall|j: int| 0 <= j < i ==> (#[trigger] users[j]).id != users[i].id,
    ensures
        users[i].name matches Some(name) ==> allowed_text(users, users[i].id) == name@ + " (#"@ + number::dec_int(
            users[i].id as int,
        ) + ")"@,
        users[i].name is None ==> allowed_text(users, users[i].id) == "#"@ + number::dec_int(users[i].id as int),
        users.len() == 1 ==> allowlist_text(users) == allowed_text(users, users[0].id),
    decreases i,
{
    if i > 0 {
        let rest = users.drop_first();
        assert(users[0].id != users[i].id);
        assert forall|j: int| 0 <= j < i - 1 implies (#[trigger] rest[j]).id != rest[i - 1].id by {
            assert(users[j + 1].id != users[i].id);
        }
        law_allowed_users_are_shown(rest, i - 1);
    }
    if users.len() == 1 {
        let one = Seq::new(users.len(), |i: int| allowed_text(users, users[i].id));
        assert(one.len() == 1);
    }
}

/// The users that are let through are those of the list, and the topics that are followed those that
/// are configured, each in its place.
pub proof fn law_the_watch_follows_the_configuration(users: Seq<AllowedUser>, topics: Seq<TopicCfg>, i: int)
    ensures
        ids_of(users).len() == users.len(),
        0 <= i < users.len() ==> ids_of(users)[i] == users[i].id,
        topics_of(topics).len() == topics.len(),
        0 <= i < topics.len() ==> topics_of(topics)[i] == (topics[i].chat_id, topics[i].thread_id),
{
}

proof fn lemma_name_of_more(users: Seq<AllowedUser>, u: AllowedUser, i: int)
    requires
        0 <= i < users.len(),
    ensures
        name_of(users.push(u), users[i].id) == name_of(users, users[i].id),
    decreases users.len(),
{
    let all = users.push(u);
    assert(all[0] == users[0]);
    if users[0].id != users[i].id {
        let rest = users.drop_first();
        assert(all.drop_first() =~= rest.push(u));
        assert(rest[i - 1] == users[i]);
        lemma_name_of_more(rest, u, i - 1);
    }
}

/// The allow-list is shown user by user, in order, with a comma between each two.
pub proof fn law_the_allowlist_is_shown_in_order(users: Seq<AllowedUser>, u: AllowedUser)
    ensures
        users.len() > 0 ==> allowlist_text(users.push(u)) == allowlist_text(users) + ", "@ + allowed_text(
            users.push(u),
            u.id,
        ),
        allowlist_text(Seq::empty()).len() == 0,
{
    let all = users.push(u);
    let each = Seq::new(users.len(), |i: int| allowed_text(users, users[i].id));
    let more = Seq::new(all.len(), |i: int| allowed_text(all, all[i].id));
    assert forall|i: int| 0 <= i < users.len() implies more[i] == #[trigger] each[i] by {
        lemma_name_of_more(users, u, i);
        assert(all[i] == users[i]);
    }
    let last = allowed_text(all, u.id);
    assert(more =~= each.push(last));
    search::law_joined_in_order(last, each, ", "@);
}

} // verus!
