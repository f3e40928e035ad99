//! Finding and replacing pieces of text, and cutting text into lines.
use crate::text;
use crate::text::{from_chars, to_chars};
use vstd::prelude::*;

verus! {

broadcast use vstd::seq::group_seq_axioms;

/// Whether `p` stands in `s` at index `i`.
pub open spec fn occurs_at(s: Seq<char>, p: Seq<char>, i: int) -> bool {
    0 <= i && i + p.len() <= s.len() && s.subrange(i, i + p.len()) == p
}

/// Whether `p` stands somewhere in `s`.
pub open spec fn has(s: Seq<char>, p: Seq<char>) -> bool {
    exists|i: int| occurs_at(s, p, i)
}

/// Whether `s` starts with `p`.
pub open spec fn starts(s: Seq<char>, p: Seq<char>) -> bool {
    p.len() <= s.len() && s.take(p.len() as int) == p
}

/// Number of places where `p` stands in `s`, read from the left without overlap. An empty `p`
/// stands before every character and at the end.
pub open spec fn count_of(s: Seq<char>, p: Seq<char>) -> nat
    decreases s.len(),
{
    if p.len() == 0 {
        s.len() + 1
    } else if s.len() < p.len() {
        0
    } else if starts(s, p) {
        1 + count_of(s.skip(p.len() as int), p)
    } else {
        count_of(s.drop_first(), p)
    }
}

/// `s` with `q` in place of every `p` that [`count_of`] counts.
pub open spec fn replace_all(s: Seq<char>, p: Seq<char>, q: Seq<char>) -> Seq<char>
    decreases s.len(),
{
    if p.len() == 0 {
        if s.len() == 0 {
            q
        } else {
            q + seq![s[0]] + replace_all(s.drop_first(), p, q)
        }
    } else if s.len() < p.len() {
        s
    } else if starts(s, p) {
        q + replace_all(s.skip(p.len() as int), p, q)
    } else {
        seq![s[0]] + replace_all(s.drop_first(), p, q)
    }
}

/// `s` with `q` in place of the first `p`.
pub open spec fn replace_first(s: Seq<char>, p: Seq<char>, q: Seq<char>) -> Seq<char>
    decreases s.len(),
{
    if starts(s, p) {
        q + s.skip(p.len() as int)
    } else if s.len() == 0 {
        s
    } else {
        seq![s[0]] + replace_first(s.drop_first(), p, q)
    }
}

/// Whether `p` stands in `v` at index `i`.
pub fn stands_at(v: &[char], p: &[char], i: usize) -> (r: bool)
    requires
        i <= v@.len(),
    ensures
        r == starts(v@.skip(i as int), p@),
        r == occurs_at(v@, p@, i as int),
{
    let n: usize = v.len();
    if n - i < p.len() {
        return false;
    }
    let ghost t = v@.skip(i as int);
    proof {
        assert(t.take(p@.len() as int) =~= v@.subrange(i as int, i + p@.len()));
    }
    let mut k: usize = 0;
    while k < p.len()
        invariant
            i + p@.len() <= v@.len(),
            v@.len() == n,
            k <= p@.len(),
            t == v@.skip(i as int),
            t.take(p@.len() as int) == v@.subrange(i as int, i + p@.len()),
            forall|j: int| 0 <= j < k ==> t[j] == p@[j],
        decreases p@.len() - k,
    {
        if v[i + k] != p[k] {
            proof {
                assert(t.take(p@.len() as int)[k as int] != p@[k as int]);
            }
            return false;
        }
        k += 1;
    }
    proof {
        assert(t.take(p@.len() as int) =~= p@);
    }
    true
}

/// Whether `s` starts with `p`.
pub fn starts_with(s: &str, p: &str) -> (r: bool)
    ensures
        r == starts(s@, p@),
{
    let v = to_chars(s);
    let w = to_chars(p);
    proof {
        assert(v@.skip(0) =~= v@);
    }
    stands_at(v.as_slice(), w.as_slice(), 0)
}

/// Whether `p` stands somewhere in `s`.
pub fn contains(s: &str, p: &str) -> (r: bool)
    ensures
        r == has(s@, p@),
{
    let v = to_chars(s);
    let w = to_chars(p);
    let mut i: usize = 0;
    while i < v.len()
        invariant
            i <= v@.len(),
            v@ == s@,
            w@ == p@,
            forall|k: int| 0 <= k < i ==> !occurs_at(s@, p@, k),
        decreases v@.len() - i,
    {
        if stands_at(v.as_slice(), w.as_slice(), i) {
            return true;
        }
        i += 1;
    }
    stands_at(v.as_slice(), w.as_slice(), i)
}

/// Number of places where `p` stands in `s`, from the left without overlap.
pub fn count_matches(s: &str, p: &str) -> (n: u128)
    ensures
        n == count_of(s@, p@),
{
    let v = to_chars(s);
    let w = to_chars(p);
    if w.len() == 0 {
        return v.len() as u128 + 1;
    }
    let mut i: usize = 0;
    let mut n: u128 = 0;
    proof {
        assert(v@.skip(0) =~= v@);
    }
    while v.len() - i >= w.len()
        invariant
            i <= v@.len(),
            v@ == s@,
            w@ == p@,
            w@.len() > 0,
            n <= i,
            count_of(s@, p@) == n + count_of(v@.skip(i as int), p@),
        decreases v@.len() - i,
    {
        if stands_at(v.as_slice(), w.as_slice(), i) {
            proof {
                assert(v@.skip(i as int).skip(w@.len() as int) =~= v@.skip(i + w@.len()));
            }
            n += 1;
            i += w.len();
        } else {
            proof {
                assert(v@.skip(i as int).drop_first() =~= v@.skip(i + 1));
            }
            i += 1;
        }
    }
    n
}

/// `s` with `q` in place of every `p`.
pub fn replaced_all(s: &str, p: &str, q: &str) -> (r: String)
    ensures
        r@ == replace_all(s@, p@, q@),
{
    let v = to_chars(s);
    let w = to_chars(p);
    let mut out = String::new();
    let mut i: usize = 0;
    proof {
        assert(v@.skip(0) =~= v@);
        assert(out@ + replace_all(v@, p@, q@) =~= replace_all(s@, p@, q@));
    }
    if w.len() == 0 {
        while i < v.len()
            invariant
                i <= v@.len(),
                v@ == s@,
                p@.len() == 0,
                out@ + replace_all(v@.skip(i as int), p@, q@) == replace_all(s@, p@, q@),
            decreases v@.len() - i,
        {
            let ghost before = out@;
            let ghost rest = v@.skip(i as int);
            out.append(q);
            out.push(v[i]);
            proof {
                assert(rest.drop_first() =~= v@.skip(i + 1));
                assert(out@ + replace_all(v@.skip(i + 1), p@, q@) =~= before + replace_all(rest, p@, q@));
            }
            i += 1;
        }
        out.append(q);
        return out;
    }
    while v.len() - i >= w.len()
        invariant
            i <= v@.len(),
            v@ == s@,
            w@ == p@,
            w@.len() > 0,
            out@ + replace_all(v@.skip(i as int), p@, q@) == replace_all(s@, p@, q@),
        decreases v@.len() - i,
    {
        let ghost before = out@;
        let ghost rest = v@.skip(i as int);
        if stands_at(v.as_slice(), w.as_slice(), i) {
            out.append(q);
            proof {
                assert(rest.skip(w@.len() as int) =~= v@.skip(i + w@.len()));
                assert(out@ + replace_all(v@.skip(i + w@.len()), p@, q@) =~= before + replace_all(rest, p@, q@));
            }
            i += w.len();
        } else {
            out.push(v[i]);
            proof {
                assert(rest.drop_first() =~= v@.skip(i + 1));
                assert(out@ + replace_all(v@.skip(i + 1), p@, q@) =~= before + replace_all(rest, p@, q@));
            }
            i += 1;
        }
    }
    let tail = from_chars(v.as_slice(), i, v.len());
    proof {
        assert(tail@ =~= v@.skip(i as int));
    }
    out.append(tail.as_str());
    out
}

/// `s` with `q` in place of the first `p`.
pub fn replaced_first(s: &str, p: &str, q: &str) -> (r: String)
    ensures
        r@ == replace_first(s@, p@, q@),
{
    let v = to_chars(s);
    let w = to_chars(p);
    let mut out = String::new();
    let mut i: usize = 0;
    proof {
        assert(v@.skip(0) =~= v@);
        assert(out@ + replace_first(v@, p@, q@) =~= replace_first(s@, p@, q@));
    }
    while i < v.len()
        invariant
            i <= v@.len(),
            v@ == s@,
            w@ == p@,
            out@ + replace_first(v@.skip(i as int), p@, q@) == replace_first(s@, p@, q@),
        decreases v@.len() - i,
    {
        let ghost before = out@;
        let ghost rest = v@.skip(i as int);
        if stands_at(v.as_slice(), w.as_slice(), i) {
            out.append(q);
            let tail = from_chars(v.as_slice(), i + w.len(), v.len());
            out.append(tail.as_str());
            proof {
                assert(tail@ =~= rest.skip(w@.len() as int));
                assert(out@ =~= before + replace_first(rest, p@, q@));
            }
            return out;
        }
        out.push(v[i]);
        proof {
            assert(rest.drop_first() =~= v@.skip(i + 1));
            assert(out@ + replace_first(v@.skip(i + 1), p@, q@) =~= before + replace_first(rest, p@, q@));
        }
        i += 1;
    }
    proof {
        assert(v@.skip(i as int) =~= Seq::<char>::empty());
    }
    if w.len() == 0 {
        let ghost before = out@;
        out.append(q);
        proof {
            assert(starts(v@.skip(i as int), p@)) by {
                assert(v@.skip(i as int).take(0) =~= p@);
            }
            assert(v@.skip(i as int).skip(0) =~= Seq::<char>::empty());
            assert(q@ + v@.skip(i as int).skip(0) =~= q@);
        }
    } else {
        proof {
            assert(out@ + v@.skip(i as int) =~= out@);
        }
    }
    out
}

// ---------------------------------------------------------------------------------------------
// Lines
// ---------------------------------------------------------------------------------------------

/// Number of characters before the first line feed.
pub open spec fn line_len(s: Seq<char>) -> nat
    decreases s.len(),
{
    if s.len() == 0 || s[0] == '\n' {
        0
    } else {
        1 + line_len(s.drop_first())
    }
}

/// A line that a line feed ended, without the carriage return that may stand before it.
pub open spec fn without_cr(line: Seq<char>) -> Seq<char> {
    if line.len() > 0 && line.last() == '\r' {
        line.drop_last()
    } else {
        line
    }
}

/// The lines of `s`. A line ends with a line feed, or with a carriage return and a line feed; the
/// ending of the last line is optional.
pub open spec fn lines(s: Seq<char>) -> Seq<Seq<char>>
    decreases s.len(),
{
    let n = line_len(s) as int;
    if s.len() == 0 {
        Seq::empty()
    } else if n >= s.len() {
        seq![s]
    } else {
        seq![without_cr(s.take(n))] + lines(s.skip(n + 1))
    }
}

/// The lines of `v`.
pub fn split_lines(v: &[char]) -> (r: Vec<Vec<char>>)
    ensures
        r@.len() == lines(v@).len(),
        forall|i: int| 0 <= i < r@.len() ==> (#[trigger] r@[i])@ == lines(v@)[i],
{
    let mut out: Vec<Vec<char>> = Vec::new();
    let mut i: usize = 0;
    let ghost mut done: Seq<Seq<char>> = Seq::empty();
    proof {
        assert(v@.skip(0) =~= v@);
        assert(done + lines(v@.skip(0)) =~= lines(v@));
    }
    while i < v.len()
        invariant
            i <= v@.len(),
            done + lines(v@.skip(i as int)) == lines(v@),
            out@.len() == done.len(),
            forall|k: int| 0 <= k < done.len() ==> (#[trigger] out@[k])@ == done[k],
        decreases v@.len() - i,
    {
        let ghost rest = v@.skip(i as int);
        let from: usize = i;
        while i < v.len() && v[i] != '\n'
            invariant
                from <= i <= v@.len(),
                from < v@.len(),
                line_len(rest) == (i - from) + line_len(v@.skip(i as int)),
            decreases v@.len() - i,
        {
            proof {
                assert(v@.skip(i as int)[0] == v@[i as int]);
                assert(v@.skip(i as int).drop_first() =~= v@.skip(i + 1));
            }
            i += 1;
        }
        proof {
            if i < v@.len() {
                assert(v@.skip(i as int)[0] == v@[i as int]);
            }
            assert(line_len(rest) == i - from);
        }
        let ended = i < v.len();
        let to: usize = if ended && i > from && v[i - 1] == '\r' { i - 1 } else { i };
        let mut line: Vec<char> = Vec::new();
        let mut k: usize = from;
        while k < to
            invariant
                from <= k <= to <= v@.len(),
                line@ == v@.subrange(from as int, k as int),
            decreases to - k,
        {
            line.push(v[k]);
            proof {
                assert(v@.subrange(from as int, k + 1) =~= v@.subrange(from as int, k as int).push(v@[k as int]));
            }
            k += 1;
        }
        proof {
            if ended {
                let full = rest.take(i - from);
                assert(full =~= v@.subrange(from as int, i as int));
                if i > from {
                    assert(full.last() == v@[i - 1]);
                    assert(full.drop_last() =~= v@.subrange(from as int, i - 1));
                }
                assert(line@ =~= without_cr(full));
                assert(rest.skip(i - from + 1) =~= v@.skip(i + 1));
                assert(done.push(line@) + lines(v@.skip(i + 1)) =~= done + lines(rest));
            } else {
                assert(line@ =~= rest);
                assert(lines(rest) =~= seq![rest]);
                assert(v@.skip(v@.len() as int) =~= Seq::<char>::empty());
                assert(done.push(line@) + lines(v@.skip(i as int)) =~= done + lines(rest));
            }
            done = done.push(line@);
        }
        out.push(line);
        if ended {
            i += 1;
        }
    }
    proof {
        assert(v@.skip(i as int) =~= Seq::<char>::empty());
        assert(done + lines(v@.skip(i as int)) =~= done);
    }
    out
}

// ---------------------------------------------------------------------------------------------
// Joining
// ---------------------------------------------------------------------------------------------

/// The texts of `list` one after the other, with `sep` between them.
pub open spec fn join(list: Seq<Seq<char>>, sep: Seq<char>) -> Seq<char>
    decreases list.len(),
{
    if list.len() == 0 {
        Seq::empty()
    } else if list.len() == 1 {
        list[0]
    } else {
        join(list.drop_last(), sep) + sep + list.last()
    }
}

/// The texts of `list` one after the other, with `sep` between them.
pub fn joined(list: &Vec<String>, sep: &str) -> (r: String)
    ensures
        r@ == join(text::strs(list@), sep@),
{
    let mut out = String::new();
    let mut i: usize = 0;
    while i < list.len()
        invariant
            i <= list@.len(),
            out@ == join(text::strs(list@).take(i as int), sep@),
        decreases list@.len() - i,
    {
        if i > 0 {
            out.append(sep);
        }
        out.append(list[i].as_str());
        proof {
            let t = text::strs(list@).take(i + 1);
            assert(t.drop_last() =~= text::strs(list@).take(i as int));
            assert(t.last() == list@[i as int]@);
            if i == 0 {
                assert(out@ =~= t[0]);
            }
        }
        i += 1;
    }
    proof {
        assert(text::strs(list@).take(i as int) =~= text::strs(list@));
    }
    out
}

/// A text has in it what it is put together from, and what it has in it, it can be taken apart at.
pub proof fn law_parts_are_found(a: Seq<char>, p: Seq<char>, b: Seq<char>, s: Seq<char>)
    ensures
        has(a + p + b, p),
        starts(p + b, p),
        starts(s, p) ==> s == p + s.skip(p.len() as int),
        has(s, p) ==> exists|front: Seq<char>, back: Seq<char>| s == #[trigger] (front + p + back),
{
    let all = a + p + b;
    assert(all.subrange(a.len() as int, a.len() as int + p.len()) =~= p);
    assert(occurs_at(all, p, a.len() as int));
    assert((p + b).take(p.len() as int) =~= p);
    if starts(s, p) {
        assert(s =~= p + s.skip(p.len() as int));
    }
    if has(s, p) {
        let i = choose|i: int| occurs_at(s, p, i);
        let front = s.take(i);
        let back = s.skip(i + p.len());
        assert(s =~= front + p + back);
    }
}

proof fn lemma_without_occurrence(s: Seq<char>, p: Seq<char>, q: Seq<char>)
    requires
        p.len() > 0,
        forall|i: int| 0 <= i && i + p.len() <= s.len() ==> #[trigger] s.subrange(i, i + p.len()) != p,
    ensures
        count_of(s, p) == 0,
        replace_all(s, p, q) == s,
        replace_first(s, p, q) == s,
    decreases s.len(),
{
    if s.len() >= p.len() {
        assert(s.take(p.len() as int) =~= s.subrange(0, 0int + p.len()));
        assert(s.subrange(0, 0int + p.len()) != p);
        let rest = s.drop_first();
        assert forall|i: int| 0 <= i && i + p.len() <= rest.len() implies #[trigger] rest.subrange(i, i + p.len())
            != p by {
            assert(rest.subrange(i, i + p.len()) =~= s.subrange(i + 1, i + 1 + p.len()));
        }
        lemma_without_occurrence(rest, p, q);
        assert(seq![s[0]] + rest =~= s);
    } else {
        if s.len() > 0 {
            let rest = s.drop_first();
            assert forall|i: int| 0 <= i && i + p.len() <= rest.len() implies #[trigger] rest.subrange(
                i,
                i + p.len(),
            ) != p by {}
            lemma_without_occurrence(rest, p, q);
            assert(seq![s[0]] + rest =~= s);
        }
    }
}

/// Occurrences are counted and replaced from the left, each once: with the first occurrence between
/// `a` and `b`, it is one more than in `b`, and what is replaced is that one, or that one and those in
/// `b`. Where there is none, there is nothing to count or replace.
pub proof fn law_first_occurrence(a: Seq<char>, p: Seq<char>, b: Seq<char>, q: Seq<char>)
    requires
        p.len() > 0,
    ensures
        (forall|i: int| 0 <= i < a.len() ==> #[trigger] (a + p + b).subrange(i, i + p.len()) != p) ==> {
            &&& count_of(a + p + b, p) == 1 + count_of(b, p)
            &&& replace_first(a + p + b, p, q) == a + q + b
            &&& replace_all(a + p + b, p, q) == a + q + replace_all(b, p, q)
        },
        (forall|i: int| 0 <= i && i + p.len() <= a.len() ==> #[trigger] a.subrange(i, i + p.len()) != p) ==> {
            &&& count_of(a, p) == 0
            &&& replace_first(a, p, q) == a
            &&& replace_all(a, p, q) == a
        },
    decreases a.len(),
{
    let all = a + p + b;
    if forall|i: int| 0 <= i && i + p.len() <= a.len() ==> #[trigger] a.subrange(i, i + p.len()) != p {
        lemma_without_occurrence(a, p, q);
    }
    if forall|i: int| 0 <= i < a.len() ==> #[trigger] all.subrange(i, i + p.len()) != p {
        if a.len() == 0 {
            assert(all =~= p + b);
            assert(all.take(p.len() as int) =~= p);
            assert(all.skip(p.len() as int) =~= b);
            assert(a + q + b =~= q + b);
            assert(a + q + replace_all(b, p, q) =~= q + replace_all(b, p, q));
        } else {
            let rest = a.drop_first();
            assert(all.drop_first() =~= rest + p + b);
            assert(all.take(p.len() as int) =~= all.subrange(0, 0int + p.len()));
            assert(all.subrange(0, 0int + p.len()) != p);
            assert forall|i: int| 0 <= i < rest.len() implies #[trigger] (rest + p + b).subrange(i, i + p.len())
                != p by {
                assert((rest + p + b).subrange(i, i + p.len()) =~= all.subrange(i + 1, i + 1 + p.len()));
            }
            law_first_occurrence(rest, p, b, q);
            assert(seq![all[0]] + (rest + q + b) =~= a + q + b);
            assert(seq![all[0]] + (rest + q + replace_all(b, p, q)) =~= a + q + replace_all(b, p, q));
        }
    }
}

proof fn lemma_line_len_of(a: Seq<char>, b: Seq<char>)
    requires
        !a.contains('\n'),
        b.len() == 0 || b[0] == '\n',
    ensures
        line_len(a + b) == a.len(),
    decreases a.len(),
{
    if a.len() == 0 {
        assert(a + b =~= b);
    } else {
        let rest = a.drop_first();
        assert((a + b).drop_first() =~= rest + b);
        assert(a.contains(a[0]));
        assert forall|i: int| 0 <= i < rest.len() implies rest[i] != '\n' by {
            assert(a.contains(a[i + 1]));
        }
        lemma_line_len_of(rest, b);
    }
}

/// Line breaks end lines: in front of one stands a line, without the carriage return that may end it,
/// and behind it the other lines. What no line break ends is a line as it stands, unless it is empty.
pub proof fn law_line_breaks_end_lines(a: Seq<char>, b: Seq<char>)
    requires
        !a.contains('\n'),
    ensures
        lines(a + seq!['\n'] + b) == seq![
            if a.len() > 0 && a[a.len() - 1] == '\r' {
                a.take(a.len() - 1)
            } else {
                a
            },
        ] + lines(b),
        a.len() > 0 ==> lines(a) == seq![a],
        lines(Seq::empty()).len() == 0,
{
    let all = a + seq!['\n'] + b;
    let tail = seq!['\n'] + b;
    lemma_line_len_of(a, tail);
    assert(a + tail =~= all);
    assert(all.take(a.len() as int) =~= a);
    assert(all.skip(a.len() as int + 1) =~= b);
    if a.len() > 0 {
        assert(a.drop_last() =~= a.take(a.len() - 1));
    }
    let none = Seq::<char>::empty();
    lemma_line_len_of(a, none);
    assert(a + none =~= a);
}

proof fn lemma_join_front(x: Seq<char>, list: Seq<Seq<char>>, sep: Seq<char>)
    requires
        list.len() > 0,
    ensures
        join(seq![x] + list, sep) == x + sep + join(list, sep),
    decreases list.len(),
{
    let all = seq![x] + list;
    if list.len() == 1 {
        assert(all.drop_last() =~= seq![x]);
        assert(join(all.drop_last(), sep) == x);
        assert(all.last() == list[0]);
    } else {
        lemma_join_front(x, list.drop_last(), sep);
        assert(all.drop_last() =~= seq![x] + list.drop_last());
        assert(x + sep + join(list, sep) =~= x + sep + join(list.drop_last(), sep) + sep + list.last());
    }
}

/// Texts are joined in order, with the separator between each two and nowhere else.
pub proof fn law_joined_in_order(x: Seq<char>, list: Seq<Seq<char>>, sep: Seq<char>)
    ensures
        list.len() > 0 ==> join(seq![x] + list, sep) == x + sep + join(list, sep),
        list.len() > 0 ==> join(list.push(x), sep) == join(list, sep) + sep + x,
        join(seq![x], sep) == x,
        join(Seq::empty(), sep).len() == 0,
{
    if list.len() > 0 {
        lemma_join_front(x, list, sep);
        assert(list.push(x).drop_last() =~= list);
    }
}

proof fn lemma_line_has_no_break(s: Seq<char>)
    ensures
        line_len(s) <= s.len(),
        forall|i: int| 0 <= i < line_len(s) ==> #[trigger] s[i] != '\n',
    decreases s.len(),
{
    if s.len() > 0 && s[0] != '\n' {
        let rest = s.drop_first();
        lemma_line_has_no_break(rest);
        assert forall|i: int| 0 <= i < line_len(s) implies #[trigger] s[i] != '\n' by {
            if i > 0 {
                assert(rest[i - 1] == s[i]);
            }
        }
    }
}

/// No line holds a line break.
pub proof fn law_lines_hold_no_breaks(s: Seq<char>, i: int)
    requires
        0 <= i < lines(s).len(),
    ensures
        !lines(s)[i].contains('\n'),
    decreases s.len(),
{
    let n = line_len(s) as int;
    lemma_line_has_no_break(s);
    if s.len() > 0 {
        if n >= s.len() {
            assert(lines(s)[0] == s);
        } else if i == 0 {
            let line = s.take(n);
            assert forall|k: int| 0 <= k < line.len() implies line[k] != '\n' by {
                assert(s[k] != '\n');
            }
            assert(lines(s)[0] == without_cr(line));
        } else {
            let rest = s.skip(n + 1);
            assert(lines(s)[i] == lines(rest)[i - 1]);
            law_lines_hold_no_breaks(rest, i - 1);
        }
    }
}

/// The empty text occurs before each character and at the end, and is replaced there.
pub proof fn law_empty_text_is_everywhere(s: Seq<char>, c: char, q: Seq<char>)
    ensures
        ({
            let none = Seq::<char>::empty();
            &&& count_of(s, none) == s.len() + 1
            &&& replace_first(s, none, q) == q + s
            &&& replace_all(none, none, q) == q
            &&& replace_all(seq![c] + s, none, q) == q.push(c) + replace_all(s, none, q)
        }),
{
    let none = Seq::<char>::empty();
    let more = seq![c] + s;
    assert(s.take(0) =~= none);
    assert(s.skip(0) =~= s);
    assert(more.drop_first() =~= s);
    assert(q + seq![c] + replace_all(s, none, q) =~= q.push(c) + replace_all(s, none, q));
}

} // verus!
