//! JSON values as plain data, for the request bodies and replies of the two web services.
use crate::number;
use crate::number::{dec_signed, parse_i64};
use crate::text::str_eq;
use vstd::prelude::*;

verus! {

broadcast use vstd::seq::group_seq_axioms;

/// A JSON value. A number is kept as its literal, an object as its members in order.
#[derive(Debug)]
pub enum Json {
    Null,
    Bool(bool),
    Number(String),
    Text(String),
    Array(Vec<Json>),
    Object(Vec<(String, Json)>),
}

/// What a [`Json`] value holds.
pub enum JsonView {
    Null,
    Bool(bool),
    Number(Seq<char>),
    Text(Seq<char>),
    Array(Seq<JsonView>),
    Object(Seq<(Seq<char>, JsonView)>),
}

impl View for Json {
    type V = JsonView;

    open spec fn view(&self) -> JsonView
        decreases self,
    {
        match self {
            Json::Null => JsonView::Null,
            Json::Bool(b) => JsonView::Bool(*b),
            Json::Number(s) => JsonView::Number(s@),
            Json::Text(s) => JsonView::Text(s@),
            Json::Array(items) => JsonView::Array(
                Seq::new(
                    items@.len(),
                    |i: int|
                        if 0 <= i < items@.len() {
                            items@[i].view()
                        } else {
                            JsonView::Null
                        },
                ),
            ),
            Json::Object(members) => JsonView::Object(members_view(members@)),
        }
    }
}

/// What the members of an object hold.
pub open spec fn members_view(members: Seq<(String, Json)>) -> Seq<(Seq<char>, JsonView)>
    decreases members,
{
    if members.len() == 0 {
        Seq::empty()
    } else {
        members_view(members.drop_last()).push((members.last().0@, members.last().1.view()))
    }
}

/// What the items of an array hold.
pub open spec fn items_view(items: Seq<Json>) -> Seq<JsonView> {
    Seq::new(items.len(), |i: int| items[i]@)
}

/// The literal of an integer.
pub open spec fn int_view(n: int) -> JsonView {
    JsonView::Number(number::dec_int(n))
}

/// The value of the first member of that name.
pub open spec fn member(members: Seq<(Seq<char>, JsonView)>, key: Seq<char>) -> Option<JsonView>
    decreases members.len(),
{
    if members.len() == 0 {
        None
    } else if members[0].0 == key {
        Some(members[0].1)
    } else {
        member(members.drop_first(), key)
    }
}

impl JsonView {
    /// The value of a member of an object; nothing for any other value.
    pub open spec fn get(self, key: Seq<char>) -> Option<JsonView> {
        match self {
            JsonView::Object(members) => member(members, key),
            _ => None,
        }
    }

    /// The content of a text; nothing for any other value.
    pub open spec fn text(self) -> Option<Seq<char>> {
        match self {
            JsonView::Text(s) => Some(s),
            _ => None,
        }
    }

    /// The number, where it is an integer of 64 bits; nothing for any other value.
    pub open spec fn number(self) -> Option<i64> {
        match self {
            JsonView::Number(s) => number::i64_value(s),
            _ => None,
        }
    }
}

/// What an object holds are its members, in order.
proof fn lemma_members_view(members: Seq<(String, Json)>)
    ensures
        members_view(members).len() == members.len(),
        forall|i: int|
            0 <= i < members.len() ==> #[trigger] members_view(members)[i] == (
                members[i].0@,
                members[i].1@,
            ),
    decreases members.len(),
{
    if members.len() > 0 {
        lemma_members_view(members.drop_last());
        let l = members_view(members.drop_last());
        assert(members_view(members) == l.push((members.last().0@, members.last().1@)));
    } else {
        assert(members_view(members) == Seq::<(Seq<char>, JsonView)>::empty());
    }
}

/// Of the members one after the other, the first of a name is the one that is found.
pub proof fn law_first_member_counts(members: Seq<(Seq<char>, JsonView)>, key: Seq<char>, value: JsonView, other: Seq<char>)
    ensures
        JsonView::Object(seq![(key, value)] + members).get(key) == Some(value),
        other != key ==> JsonView::Object(seq![(key, value)] + members).get(other) == JsonView::Object(members).get(
            other,
        ),
        JsonView::Object(Seq::empty()).get(key) is None,
{
    let all = seq![(key, value)] + members;
    assert(all.drop_first() =~= members);
}

/// What is put behind members leaves them as they are found, and is found where there was none of
/// its name.
pub proof fn law_put_member_is_found(members: Seq<(Seq<char>, JsonView)>, key: Seq<char>, value: JsonView, other: Seq<char>)
    ensures
        JsonView::Object(members).get(key) is None ==> JsonView::Object(members.push((key, value))).get(key) == Some(
            value,
        ),
        JsonView::Object(members).get(key) is Some ==> JsonView::Object(members.push((key, value))).get(key)
            == JsonView::Object(members).get(key),
        other != key ==> JsonView::Object(members.push((key, value))).get(other) == JsonView::Object(members).get(
            other,
        ),
    decreases members.len(),
{
    let all = members.push((key, value));
    if members.len() == 0 {
        assert(all.drop_first() =~= members);
    } else {
        law_put_member_is_found(members.drop_first(), key, value, other);
        assert(all.drop_first() =~= members.drop_first().push((key, value)));
    }
}

/// The members of two objects, one after the other: what the first lacks is found in the second.
pub proof fn lemma_get_of_parts(a: Seq<(Seq<char>, JsonView)>, b: Seq<(Seq<char>, JsonView)>, key: Seq<char>)
    ensures
        member(a + b, key) == (if member(a, key) is Some {
            member(a, key)
        } else {
            member(b, key)
        }),
    decreases a.len(),
{
    if a.len() == 0 {
        assert(a + b =~= b);
    } else {
        lemma_get_of_parts(a.drop_first(), b, key);
        assert((a + b).drop_first() =~= a.drop_first() + b);
    }
}

/// Only objects have members, only texts are read as texts, and an integer of 64 bits is read back
/// from its literal.
pub proof fn law_values_read_back(n: i64, s: Seq<char>, items: Seq<JsonView>, key: Seq<char>, b: bool)
    ensures
        int_view(n as int).number() == Some(n),
        int_view(n as int).text() is None,
        int_view(n as int).get(key) is None,
        JsonView::Text(s).text() == Some(s),
        JsonView::Text(s).number() is None,
        JsonView::Text(s).get(key) is None,
        JsonView::Array(items).get(key) is None,
        JsonView::Array(items).text() is None,
        JsonView::Array(items).number() is None,
        JsonView::Bool(b).number() is None,
        JsonView::Bool(b).text() is None,
        JsonView::Null.number() is None,
        JsonView::Null.text() is None,
{
    number::law_number_roundtrip(n);
}

/// A text.
pub fn text(s: &str) -> (r: Json)
    ensures
        r@ == JsonView::Text(s@),
{
    Json::Text(s.to_owned())
}

/// An integer.
pub fn integer(n: i64) -> (r: Json)
    ensures
        r@ == int_view(n as int),
{
    Json::Number(dec_signed(n))
}

/// An array.
pub fn array(items: Vec<Json>) -> (r: Json)
    ensures
        r@ == JsonView::Array(items_view(items@)),
{
    let r = Json::Array(items);
    proof {
        assert(r@->Array_0 =~= items_view(items@));
    }
    r
}

/// An object.
pub fn object(members: Vec<(String, Json)>) -> (r: Json)
    ensures
        r@ == JsonView::Object(members_view(members@)),
{
    Json::Object(members)
}

/// An object's members, with one more.
pub fn put(members: &mut Vec<(String, Json)>, key: &str, value: Json)
    ensures
        members_view(final(members)@) == members_view(old(members)@).push((key@, value@)),
{
    members.push((key.to_owned(), value));
    proof {
        assert(members@.drop_last() =~= old(members)@);
    }
}

/// No members yet.
pub fn no_members() -> (r: Vec<(String, Json)>)
    ensures
        members_view(r@) == Seq::<(Seq<char>, JsonView)>::empty(),
{
    Vec::new()
}

impl Json {
    /// The value of a member of an object; nothing for any other value.
    pub fn get(&self, key: &str) -> (r: Option<&Json>)
        ensures
            match r {
                Some(v) => self@.get(key@) == Some(v@),
                None => self@.get(key@) is None,
            },
    {
        match self {
            Json::Object(members) => {
                let ghost all = members_view(members@);
                proof {
                    lemma_members_view(members@);
                }
                let mut i: usize = 0;
                proof {
                    assert(all.skip(0) =~= all);
                }
                while i < members.len()
                    invariant
                        i <= members@.len(),
                        all.len() == members@.len(),
                        forall|k: int|
                            0 <= k < members@.len() ==> #[trigger] all[k] == (members@[k].0@, members@[k].1@),
                        self@.get(key@) == member(all.skip(i as int), key@),
                    decreases members@.len() - i,
                {
                    proof {
                        assert(all.skip(i as int)[0] == (members@[i as int].0@, members@[i as int].1@));
                        assert(all.skip(i as int).drop_first() =~= all.skip(i + 1));
                    }
                    if str_eq(members[i].0.as_str(), key) {
                        return Some(&members[i].1);
                    }
                    i += 1;
                }
                None
            },
            _ => None,
        }
    }

    /// The content of a text; nothing for any other value.
    pub fn as_text(&self) -> (r: Option<&str>)
        ensures
            match r {
                Some(s) => self@.text() == Some(s@),
                None => self@.text() is None,
            },
    {
        match self {
            Json::Text(s) => Some(s.as_str()),
            _ => None,
        }
    }

    /// The number, where it is an integer of 64 bits; nothing for any other value.
    pub fn as_int(&self) -> (r: Option<i64>)
        ensures
            r == self@.number(),
    {
        match self {
            Json::Number(s) => parse_i64(s.as_str()),
            _ => None,
        }
    }
}

} // verus!
