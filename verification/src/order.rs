//! Order of texts, and sorting by it.
use crate::text;
use crate::text::{str_eq, to_chars};
use vstd::prelude::*;

verus! {

broadcast use vstd::seq::group_seq_axioms;

/// Whether `a` comes before `b`: at the first difference it has the smaller code point, or it is
/// a proper beginning of `b`.
pub open spec fn before(a: Seq<char>, b: Seq<char>) -> bool
    decreases a.len(),
{
    if b.len() == 0 {
        false
    } else if a.len() == 0 {
        true
    } else if a[0] != b[0] {
        a[0] < b[0]
    } else {
        before(a.drop_first(), b.drop_first())
    }
}

/// Whether `a` comes before `b`.
pub fn is_before(a: &str, b: &str) -> (r: bool)
    ensures
        r == before(a@, b@),
{
    let v = to_chars(a);
    let w = to_chars(b);
    let mut i: usize = 0;
    proof {
        assert(v@.skip(0) =~= v@);
        assert(w@.skip(0) =~= w@);
    }
    while i < v.len() && i < w.len()
        invariant
            i <= v@.len(),
            i <= w@.len(),
            before(a@, b@) == before(v@.skip(i as int), w@.skip(i as int)),
        decreases v@.len() - i,
    {
        proof {
            assert(v@.skip(i as int)[0] == v@[i as int]);
            assert(w@.skip(i as int)[0] == w@[i as int]);
            assert(v@.skip(i as int).drop_first() =~= v@.skip(i + 1));
            assert(w@.skip(i as int).drop_first() =~= w@.skip(i + 1));
        }
        if v[i] != w[i] {
            return v[i] < w[i];
        }
        i += 1;
    }
    i < w.len()
}

/// A text with the key that it is sorted by.
pub struct Keyed {
    pub key: String,
    pub value: String,
}

/// The keys and values of a list.
pub open spec fn keyed(v: Seq<Keyed>) -> Seq<(Seq<char>, Seq<char>)> {
    Seq::new(v.len(), |i: int| (v[i].key@, v[i].value@))
}

/// `x` put into a sorted list, behind everything that does not come after it.
pub open spec fn place(
    t: Seq<(Seq<char>, Seq<char>)>,
    x: (Seq<char>, Seq<char>),
) -> Seq<(Seq<char>, Seq<char>)>
    decreases t.len(),
{
    if t.len() > 0 && before(x.0, t.last().0) {
        place(t.drop_last(), x).push(t.last())
    } else {
        t.push(x)
    }
}

/// The list in the order of its keys; what has the same key keeps its order.
pub open spec fn in_order(s: Seq<(Seq<char>, Seq<char>)>) -> Seq<(Seq<char>, Seq<char>)>
    decreases s.len(),
{
    if s.len() == 0 {
        s
    } else {
        place(in_order(s.drop_last()), s.last())
    }
}

/// The values of a list of keys and values.
pub open spec fn values(s: Seq<(Seq<char>, Seq<char>)>) -> Seq<Seq<char>> {
    Seq::new(s.len(), |i: int| s[i].1)
}

/// Putting `x` in place is inserting it at the first index from which on everything comes after
/// it.
proof fn lemma_place_inserts(t: Seq<(Seq<char>, Seq<char>)>, x: (Seq<char>, Seq<char>), p: int)
    requires
        0 <= p <= t.len(),
        forall|i: int| p <= i < t.len() ==> before(x.0, (#[trigger] t[i]).0),
        p > 0 ==> !before(x.0, t[p - 1].0),
    ensures
        place(t, x) == t.insert(p, x),
    decreases t.len(),
{
    if p == t.len() {
        assert(t.insert(p, x) =~= t.push(x));
    } else {
        assert(before(x.0, t[t.len() - 1].0));
        lemma_place_inserts(t.drop_last(), x, p);
        assert(t.drop_last().insert(p, x).push(t.last()) =~= t.insert(p, x));
    }
}

/// Sort by key; what has the same key keeps its order.
pub fn sort_keyed(list: Vec<Keyed>) -> (r: Vec<Keyed>)
    ensures
        keyed(r@) == in_order(keyed(list@)),
{
    let mut list = list;
    let mut out: Vec<Keyed> = Vec::new();
    let ghost all = keyed(list@);
    // Taken from the back into `rev`, then from there in the first order.
    let mut rev: Vec<Keyed> = Vec::new();
    while list.len() > 0
        invariant
            list@.len() + rev@.len() == all.len(),
            keyed(list@) == all.take(list@.len() as int),
            forall|i: int|
                0 <= i < rev@.len() ==> (#[trigger] rev@[i]).key@ == all[all.len() - 1 - i].0
                    && rev@[i].value@ == all[all.len() - 1 - i].1,
        decreases list@.len(),
    {
        let ghost n = list@.len();
        let ghost before_pop = list@;
        let x = list.pop();
        match x {
            Some(x) => {
                proof {
                    assert(keyed(before_pop)[n - 1] == all[n - 1]);
                    assert(keyed(list@) =~= all.take(n - 1)) by {
                        assert forall|i: int| 0 <= i < n - 1 implies keyed(list@)[i] == all[i] by {
                            assert(keyed(before_pop)[i] == all.take(n as int)[i]);
                        }
                    }
                }
                rev.push(x);
            },
            None => {},
        }
    }
    proof {
        assert(all.take(0) =~= Seq::<(Seq<char>, Seq<char>)>::empty());
        assert(keyed(out@) =~= in_order(all.take(0)));
    }
    while rev.len() > 0
        invariant
            rev@.len() <= all.len(),
            forall|i: int|
                0 <= i < rev@.len() ==> (#[trigger] rev@[i]).key@ == all[all.len() - 1 - i].0
                    && rev@[i].value@ == all[all.len() - 1 - i].1,
            keyed(out@) == in_order(all.take(all.len() - rev@.len())),
        decreases rev@.len(),
    {
        let ghost n = all.len() - rev@.len();
        let ghost last = rev@[rev@.len() - 1];
        let x = rev.pop();
        match x {
            Some(x) => {
                proof {
                    assert(x == last);
                    assert((x.key@, x.value@) == all[n]);
                }
                let mut p: usize = out.len();
                while p > 0 && is_before(x.key.as_str(), out[p - 1].key.as_str())
                    invariant
                        p <= out@.len(),
                        forall|i: int| p <= i < out@.len() ==> before(x.key@, (#[trigger] out@[i]).key@),
                    decreases p,
                {
                    p -= 1;
                }
                let ghost old_out = out@;
                let ghost xv = (x.key@, x.value@);
                out.insert(p, x);
                proof {
                    let t = keyed(old_out);
                    assert forall|i: int| p <= i < t.len() implies before(xv.0, (#[trigger] t[i]).0) by {
                        assert(before(xv.0, old_out[i].key@));
                    }
                    lemma_place_inserts(t, xv, p as int);
                    assert(keyed(out@) =~= t.insert(p as int, xv));
                    assert(all.take(n + 1).drop_last() =~= all.take(n));
                    assert(all.take(n + 1).last() == xv);
                }
            },
            None => {},
        }
    }
    proof {
        assert(all.take(all.len() as int) =~= all);
    }
    out
}

/// Nothing comes before itself, and of two texts that do not come before each other both are the
/// same.
pub proof fn lemma_before_strict(a: Seq<char>, b: Seq<char>)
    ensures
        !before(a, a),
        before(a, b) ==> !before(b, a),
        !before(a, b) && !before(b, a) ==> a == b,
    decreases a.len(),
{
    if a.len() == 0 {
        if b.len() == 0 {
            assert(a =~= b);
        }
    } else {
        lemma_before_strict(a.drop_first(), a.drop_first());
        if b.len() > 0 && a[0] == b[0] {
            lemma_before_strict(a.drop_first(), b.drop_first());
            if !before(a, b) && !before(b, a) {
                assert(a =~= seq![a[0]] + a.drop_first());
                assert(b =~= seq![b[0]] + b.drop_first());
            }
        }
    }
}

/// The order of texts is transitive.
pub proof fn lemma_before_transitive(a: Seq<char>, b: Seq<char>, c: Seq<char>)
    requires
        !before(b, a),
        !before(c, b),
    ensures
        !before(c, a),
    decreases a.len(),
{
    if a.len() > 0 && b.len() > 0 && c.len() > 0 {
        if a[0] == b[0] && b[0] == c[0] {
            lemma_before_transitive(a.drop_first(), b.drop_first(), c.drop_first());
        }
    }
}

/// Whether no element of `s` comes before an earlier one, by key.
pub open spec fn is_sorted(s: Seq<(Seq<char>, Seq<char>)>) -> bool {
    forall|i: int, j: int| 0 <= i <= j < s.len() ==> !before((#[trigger] s[j]).0, (#[trigger] s[i]).0)
}

proof fn lemma_place_sorted(t: Seq<(Seq<char>, Seq<char>)>, x: (Seq<char>, Seq<char>))
    requires
        is_sorted(t),
    ensures
        is_sorted(place(t, x)),
        place(t, x).to_multiset() =~= t.to_multiset().insert(x),
        place(t, x).len() == t.len() + 1,
        t.len() > 0 && before(x.0, t.last().0) ==> forall|i: int|
            0 <= i < place(t, x).len() ==> !before(t.last().0, (#[trigger] place(t, x)[i]).0),
    decreases t.len(),
{
    broadcast use vstd::seq_lib::group_to_multiset_ensures;

    if t.len() > 0 && before(x.0, t.last().0) {
        let u = t.drop_last();
        let r = place(u, x);
        lemma_place_sorted(u, x);
        let last = t.last();
        lemma_before_strict(x.0, last.0);
        assert forall|i: int| 0 <= i < r.len() implies !before(last.0, (#[trigger] r[i]).0) by {
            if u.len() > 0 && before(x.0, u.last().0) {
                assert(!before(u.last().0, r[i].0));
                assert(!before(t[t.len() - 1].0, t[t.len() - 2].0));
                lemma_before_transitive(r[i].0, u.last().0, last.0);
            } else {
                assert(r == u.push(x));
                if i < u.len() {
                    assert(r[i] == t[i]);
                    assert(!before(t[t.len() - 1].0, t[i].0));
                }
            }
        }
        assert forall|i: int, j: int| 0 <= i <= j < r.push(last).len() implies !before(
            (#[trigger] r.push(last)[j]).0,
            (#[trigger] r.push(last)[i]).0,
        ) by {
            if j == r.len() {
                if i == j {
                    lemma_before_strict(last.0, last.0);
                }
            } else {
                assert(!before(r[j].0, r[i].0));
            }
        }
        lemma_before_strict(last.0, last.0);
        assert(t =~= u.push(last));
    } else {
        assert forall|i: int, j: int| 0 <= i <= j < t.push(x).len() implies !before(
            (#[trigger] t.push(x)[j]).0,
            (#[trigger] t.push(x)[i]).0,
        ) by {
            if j == t.len() {
                if i == j {
                    lemma_before_strict(x.0, x.0);
                } else {
                    assert(!before(t[t.len() - 1].0, t[i].0));
                    lemma_before_transitive(t[i].0, t.last().0, x.0);
                }
            } else {
                assert(!before(t[j].0, t[i].0));
            }
        }
    }
}

/// Sorting gives the same elements, each as often, in the order of their keys.
pub proof fn law_sorting(s: Seq<(Seq<char>, Seq<char>)>)
    ensures
        is_sorted(in_order(s)),
        in_order(s).to_multiset() == s.to_multiset(),
        in_order(s).len() == s.len(),
    decreases s.len(),
{
    broadcast use vstd::seq_lib::group_to_multiset_ensures;

    if s.len() > 0 {
        law_sorting(s.drop_last());
        lemma_place_sorted(in_order(s.drop_last()), s.last());
        assert(s =~= s.drop_last().push(s.last()));
    }
}

/// `s` without the elements that are the same as the one before them.
pub open spec fn dedup(s: Seq<Seq<char>>) -> Seq<Seq<char>>
    decreases s.len(),
{
    if s.len() < 2 {
        s
    } else if s.last() == s[s.len() - 2] {
        dedup(s.drop_last())
    } else {
        dedup(s.drop_last()).push(s.last())
    }
}

/// The values of a list, in order, without neighbours that are the same.
pub fn deduped(list: &Vec<Keyed>) -> (r: Vec<String>)
    ensures
        text::strs(r@) == dedup(values(keyed(list@))),
{
    let mut out: Vec<String> = Vec::new();
    let ghost all = values(keyed(list@));
    let mut i: usize = 0;
    proof {
        assert(text::strs(out@) =~= dedup(all.take(0)));
    }
    while i < list.len()
        invariant
            i <= list@.len(),
            all == values(keyed(list@)),
            all.len() == list@.len(),
            text::strs(out@) == dedup(all.take(i as int)),
        decreases list@.len() - i,
    {
        let ghost t = all.take(i + 1);
        proof {
            assert(t.drop_last() =~= all.take(i as int));
        }
        if i > 0 && str_eq(list[i].value.as_str(), list[i - 1].value.as_str()) {
        } else {
            let ghost old_out = out@;
            out.push(list[i].value.clone());
            proof {
                assert(text::strs(out@) =~= text::strs(old_out).push(all[i as int]));
                if i == 0 {
                    assert(text::strs(out@) =~= t);
                }
            }
        }
        i += 1;
    }
    proof {
        assert(all.take(i as int) =~= all);
    }
    out
}

/// Texts are in the order of the first characters in which they differ, and a text comes before those
/// that go on from it.
pub proof fn law_first_difference_decides(p: Seq<char>, x: char, y: char, a: Seq<char>, b: Seq<char>)
    ensures
        x != y ==> (before(p + seq![x] + a, p + seq![y] + b) <==> x < y),
        before(p, p + seq![x] + a),
        !before(p + seq![x] + a, p),
        !before(p, p),
    decreases p.len(),
{
    let l = p + seq![x] + a;
    let r = p + seq![y] + b;
    if p.len() == 0 {
        assert(l[0] == x && r[0] == y);
    } else {
        let rest = p.drop_first();
        law_first_difference_decides(rest, x, y, a, b);
        assert(l.drop_first() =~= rest + seq![x] + a);
        assert(r.drop_first() =~= rest + seq![y] + b);
        assert(l[0] == p[0] && r[0] == p[0]);
    }
}

/// Dropping repeats loses no text and leaves no two equal ones next to each other.
pub proof fn law_dedup_keeps_each(s: Seq<Seq<char>>, x: Seq<char>)
    ensures
        dedup(s).contains(x) <==> s.contains(x),
        forall|i: int| 0 < i < dedup(s).len() ==> #[trigger] dedup(s)[i] != dedup(s)[i - 1],
        s.len() > 0 ==> dedup(s).len() > 0 && dedup(s).last() == s.last(),
        dedup(s).len() <= s.len(),
    decreases s.len(),
{
    if s.len() >= 2 {
        let front = s.drop_last();
        let d = dedup(front);
        law_dedup_keeps_each(front, x);
        assert(front.last() == s[s.len() - 2]);
        assert(s =~= front.push(s.last()));
        if s.contains(x) {
            let i = choose|i: int| 0 <= i < s.len() && s[i] == x;
            if i < front.len() {
                assert(front[i] == x);
                assert(front.contains(x));
                let k = choose|k: int| 0 <= k < d.len() && d[k] == x;
                assert(dedup(s)[k] == x);
            } else {
                assert(dedup(s).last() == x);
                assert(dedup(s)[dedup(s).len() - 1] == x);
            }
        }
        if dedup(s).contains(x) {
            let k = choose|k: int| 0 <= k < dedup(s).len() && dedup(s)[k] == x;
            if k < d.len() {
                assert(d[k] == x);
                assert(d.contains(x));
                let i = choose|i: int| 0 <= i < front.len() && front[i] == x;
                assert(s[i] == x);
            } else {
                assert(s[s.len() - 1] == x);
            }
        }
        assert forall|i: int| 0 < i < dedup(s).len() implies #[trigger] dedup(s)[i] != dedup(s)[i - 1] by {
            if i < d.len() {
                assert(d[i] != d[i - 1]);
            }
        }
    }
}

/// What of a list goes by one key, in its order.
pub open spec fn of_key(s: Seq<(Seq<char>, Seq<char>)>, key: Seq<char>) -> Seq<(Seq<char>, Seq<char>)>
    decreases s.len(),
{
    if s.len() == 0 {
        s
    } else if s.last().0 == key {
        of_key(s.drop_last(), key).push(s.last())
    } else {
        of_key(s.drop_last(), key)
    }
}

proof fn lemma_place_of_key(t: Seq<(Seq<char>, Seq<char>)>, x: (Seq<char>, Seq<char>), key: Seq<char>)
    ensures
        of_key(place(t, x), key) == (if x.0 == key {
            of_key(t, key).push(x)
        } else {
            of_key(t, key)
        }),
    decreases t.len(),
{
    if t.len() > 0 && before(x.0, t.last().0) {
        let front = t.drop_last();
        let placed = place(front, x);
        lemma_place_of_key(front, x, key);
        lemma_before_strict(x.0, t.last().0);
        assert(placed.push(t.last()).drop_last() =~= placed);
        assert(x.0 != t.last().0);
    } else {
        assert(t.push(x).drop_last() =~= t);
    }
}

/// Sorting leaves what goes by the same key in the order in which it came.
pub proof fn law_sorting_is_stable(s: Seq<(Seq<char>, Seq<char>)>, key: Seq<char>)
    ensures
        of_key(in_order(s), key) == of_key(s, key),
    decreases s.len(),
{
    if s.len() > 0 {
        law_sorting_is_stable(s.drop_last(), key);
        lemma_place_of_key(in_order(s.drop_last()), s.last(), key);
    }
}

} // verus!
