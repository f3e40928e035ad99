//! Character-level text operations, stated over sequences of `char`.
use vstd::prelude::*;
use vstd::utf8::*;

verus! {

broadcast use vstd::seq::group_seq_axioms;

/// `String::push`: the character is appended at the end.
pub assume_specification[ String::push ](s: &mut String, c: char)
    ensures
        final(s)@ == old(s)@.push(c),
;

/// The contents of a list of strings.
pub open spec fn strs(v: Seq<String>) -> Seq<Seq<char>> {
    Seq::new(v.len(), |i: int| v[i]@)
}

/// The content of an optional string.
pub open spec fn opt_str(o: Option<String>) -> Option<Seq<char>> {
    match o {
        Some(s) => Some(s@),
        None => None,
    }
}

/// All characters of `s`, in order.
pub fn to_chars(s: &str) -> (v: Vec<char>)
    ensures
        v@ == s@,
{
    let mut v: Vec<char> = Vec::new();
    for c in it: s.chars()
        invariant
            it.seq() == s@,
            v@ == s@.take(it.index() as int),
    {
        v.push(c);
    }
    v
}

/// The characters of `v` from index `from` up to `to` as a string.
pub fn from_chars(v: &[char], from: usize, to: usize) -> (s: String)
    requires
        from <= to <= v@.len(),
    ensures
        s@ == v@.subrange(from as int, to as int),
{
    let mut s = String::new();
    let mut i: usize = from;
    while i < to
        invariant
            from <= i <= to <= v@.len(),
            s@ == v@.subrange(from as int, i as int),
        decreases to - i,
    {
        s.push(v[i]);
        proof {
            assert(v@.subrange(from as int, i + 1) =~= v@.subrange(from as int, i as int).push(v@[i as int]));
        }
        i += 1;
    }
    s
}

/// Whether two slices hold the same characters.
pub fn chars_eq(a: &[char], b: &[char]) -> (r: bool)
    ensures
        r == (a@ == b@),
{
    if a.len() != b.len() {
        return false;
    }
    let mut i: usize = 0;
    while i < a.len()
        invariant
            a@.len() == b@.len(),
            i <= a@.len(),
            forall|k: int| 0 <= k < i ==> a@[k] == b@[k],
        decreases a@.len() - i,
    {
        if a[i] != b[i] {
            return false;
        }
        i += 1;
    }
    proof {
        assert(a@ =~= b@);
    }
    true
}

/// Whether two strings hold the same characters.
pub fn str_eq(a: &str, b: &str) -> (r: bool)
    ensures
        r == (a@ == b@),
{
    let x = to_chars(a);
    let y = to_chars(b);
    chars_eq(x.as_slice(), y.as_slice())
}

/// Length of `s` in bytes of UTF-8.
pub fn byte_len(s: &str) -> (n: usize)
    ensures
        n == encode_utf8(s@).len(),
{
    s.as_bytes().len()
}

// ---------------------------------------------------------------------------------------------
// Whitespace
// ---------------------------------------------------------------------------------------------

/// Characters with the Unicode property `White_Space`.
pub open spec fn white(c: char) -> bool {
    let u = c as u32;
    ||| 0x9 <= u <= 0xd
    ||| u == 0x20
    ||| u == 0x85
    ||| u == 0xa0
    ||| u == 0x1680
    ||| 0x2000 <= u <= 0x200a
    ||| u == 0x2028
    ||| u == 0x2029
    ||| u == 0x202f
    ||| u == 0x205f
    ||| u == 0x3000
}

/// Whether `c` is whitespace.
pub fn is_white(c: char) -> (r: bool)
    ensures
        r == white(c),
{
    let u: u32 = c as u32;
    (0x9 <= u && u <= 0xd) || u == 0x20 || u == 0x85 || u == 0xa0 || u == 0x1680 || (0x2000 <= u && u
        <= 0x200a) || u == 0x2028 || u == 0x2029 || u == 0x202f || u == 0x205f || u == 0x3000
}

/// `s` without its trailing whitespace.
pub open spec fn trim_end(s: Seq<char>) -> Seq<char>
    decreases s.len(),
{
    if s.len() > 0 && white(s.last()) {
        trim_end(s.drop_last())
    } else {
        s
    }
}

/// `s` without its leading whitespace.
pub open spec fn trim_start(s: Seq<char>) -> Seq<char>
    decreases s.len(),
{
    if s.len() > 0 && white(s[0]) {
        trim_start(s.drop_first())
    } else {
        s
    }
}

/// `s` without whitespace at either end.
pub open spec fn trim(s: Seq<char>) -> Seq<char> {
    trim_end(trim_start(s))
}

/// Number of characters that are left of `v` when its trailing whitespace is gone.
pub fn trimmed_len(v: &[char]) -> (n: usize)
    ensures
        n <= v@.len(),
        trim_end(v@) == v@.take(n as int),
{
    let mut n: usize = v.len();
    proof {
        assert(v@.take(n as int) =~= v@);
    }
    while n > 0 && is_white(v[n - 1])
        invariant
            n <= v@.len(),
            trim_end(v@) == trim_end(v@.take(n as int)),
        decreases n,
    {
        proof {
            assert(v@.take(n as int).drop_last() =~= v@.take(n - 1));
        }
        n -= 1;
    }
    n
}

/// Number of leading whitespace characters of `v`.
pub fn leading_white(v: &[char]) -> (n: usize)
    ensures
        n <= v@.len(),
        trim_start(v@) == v@.skip(n as int),
{
    let mut n: usize = 0;
    proof {
        assert(v@.skip(0) =~= v@);
    }
    while n < v.len() && is_white(v[n])
        invariant
            n <= v@.len(),
            trim_start(v@) == trim_start(v@.skip(n as int)),
        decreases v@.len() - n,
    {
        proof {
            assert(v@.skip(n as int).drop_first() =~= v@.skip(n + 1));
        }
        n += 1;
    }
    n
}

/// `s` without its trailing whitespace.
pub fn trimmed_end(s: &str) -> (r: String)
    ensures
        r@ == trim_end(s@),
{
    let v = to_chars(s);
    let n: usize = trimmed_len(v.as_slice());
    from_chars(v.as_slice(), 0, n)
}

/// `s` without whitespace at either end.
pub fn trimmed(s: &str) -> (r: String)
    ensures
        r@ == trim(s@),
{
    let v = to_chars(s);
    let a: usize = leading_white(v.as_slice());
    let rest = from_chars(v.as_slice(), a, v.len());
    trimmed_end(rest.as_str())
}

/// Number of characters before the first whitespace.
pub open spec fn word_len(s: Seq<char>) -> nat
    decreases s.len(),
{
    if s.len() == 0 || white(s[0]) {
        0
    } else {
        1 + word_len(s.drop_first())
    }
}

/// The maximal runs of characters that are not whitespace, in order.
pub open spec fn words(s: Seq<char>) -> Seq<Seq<char>>
    decreases s.len(),
    via words_decreases
{
    let t = trim_start(s);
    if t.len() == 0 {
        Seq::empty()
    } else {
        seq![t.take(word_len(t) as int)] + words(t.skip(word_len(t) as int))
    }
}

#[via_fn]
proof fn words_decreases(s: Seq<char>) {
    lemma_trim_start_short(s);
    let t = trim_start(s);
    if t.len() > 0 {
        lemma_word_len_bound(t);
        lemma_trim_start_first(s);
    }
}

/// Trimming never makes a text longer.
pub proof fn lemma_trim_start_short(s: Seq<char>)
    ensures
        trim_start(s).len() <= s.len(),
    decreases s.len(),
{
    if s.len() > 0 && white(s[0]) {
        lemma_trim_start_short(s.drop_first());
    }
}

/// A trimmed text does not start with whitespace.
pub proof fn lemma_trim_start_first(s: Seq<char>)
    ensures
        trim_start(s).len() > 0 ==> !white(trim_start(s)[0]),
    decreases s.len(),
{
    if s.len() > 0 && white(s[0]) {
        lemma_trim_start_first(s.drop_first());
    }
}

/// A word is no longer than the text that it starts, and is not empty where the text starts
/// with something else than whitespace.
pub proof fn lemma_word_len_bound(s: Seq<char>)
    ensures
        word_len(s) <= s.len(),
        s.len() > 0 && !white(s[0]) ==> word_len(s) > 0,
    decreases s.len(),
{
    if s.len() > 0 && !white(s[0]) {
        lemma_word_len_bound(s.drop_first());
    }
}

/// The words of `s`.
pub fn split_words(s: &str) -> (r: Vec<String>)
    ensures
        strs(r@) == words(s@),
{
    let v = to_chars(s);
    let mut out: Vec<String> = Vec::new();
    let mut i: usize = 0;
    proof {
        assert(v@.skip(0) =~= v@);
        assert(strs(out@) + words(v@.skip(0)) =~= words(s@));
    }
    loop
        invariant
            i <= v@.len(),
            v@ == s@,
            strs(out@) + words(v@.skip(i as int)) == words(s@),
        ensures
            strs(out@) == words(s@),
        decreases v@.len() - i,
    {
        let ghost rest = v@.skip(i as int);
        let ghost first = i;
        while i < v.len() && is_white(v[i])
            invariant
                first <= i <= v@.len(),
                trim_start(rest) == trim_start(v@.skip(i as int)),
            decreases v@.len() - i,
        {
            proof {
                assert(v@.skip(i as int).drop_first() =~= v@.skip(i + 1));
            }
            i += 1;
        }
        let ghost t = v@.skip(i as int);
        if i >= v.len() {
            proof {
                assert(words(rest) =~= Seq::<Seq<char>>::empty());
                assert(strs(out@) + words(rest) =~= strs(out@));
            }
            break;
        }
        let from: usize = i;
        proof {
            assert(v@.skip(i as int)[0] == v@[i as int]);
            assert(trim_start(t) == t);
            assert(t.skip(0) =~= t);
        }
        while i < v.len() && !is_white(v[i])
            invariant
                from <= i <= v@.len(),
                word_len(t) == (i - from) + word_len(v@.skip(i as int)),
            decreases v@.len() - i,
        {
            proof {
                assert(v@.skip(i as int).drop_first() =~= v@.skip(i + 1));
            }
            i += 1;
        }
        proof {
            if i < v@.len() {
                assert(v@.skip(i as int)[0] == v@[i as int]);
            }
            assert(word_len(t) == i - from);
            assert(i > from) by {
                lemma_word_len_bound(t);
            }
            assert(t.take(i - from) =~= v@.subrange(from as int, i as int));
            assert(t.skip(i - from) =~= v@.skip(i as int));
        }
        let word = from_chars(v.as_slice(), from, i);
        let ghost before = out@;
        out.push(word);
        proof {
            assert(strs(out@) =~= strs(before).push(word@));
            assert(strs(out@) + words(v@.skip(i as int)) =~= strs(before) + words(rest));
        }
    }
    out
}

// ---------------------------------------------------------------------------------------------
// Bytes
// ---------------------------------------------------------------------------------------------

/// Number of bytes of a character in UTF-8.
pub open spec fn width(c: char) -> nat {
    let u = c as u32;
    if u < 0x80 {
        1
    } else if u < 0x800 {
        2
    } else if u < 0x10000 {
        3
    } else {
        4
    }
}

/// Number of bytes of a text in UTF-8.
pub open spec fn size(s: Seq<char>) -> nat
    decreases s.len(),
{
    if s.len() == 0 {
        0
    } else {
        width(s[0]) + size(s.drop_first())
    }
}

/// Number of leading characters that take up at most `room` bytes.
pub open spec fn fits(s: Seq<char>, room: nat) -> nat
    decreases s.len(),
{
    if s.len() == 0 || width(s[0]) > room {
        0
    } else {
        1 + fits(s.drop_first(), (room - width(s[0])) as nat)
    }
}

/// The size of a text is the length of its encoding.
pub proof fn lemma_size_of_encoding(s: Seq<char>)
    ensures
        size(s) == encode_utf8(s).len(),
    decreases s.len(),
{
    if s.len() > 0 {
        lemma_size_of_encoding(s.drop_first());
        char_is_scalar(s[0]);
    }
}

/// Sizes of parts add up.
pub proof fn lemma_size_of_parts(a: Seq<char>, b: Seq<char>)
    ensures
        size(a + b) == size(a) + size(b),
    decreases a.len(),
{
    if a.len() == 0 {
        assert(a + b =~= b);
    } else {
        lemma_size_of_parts(a.drop_first(), b);
        assert((a + b).drop_first() =~= a.drop_first() + b);
    }
}

/// A part up to an index takes as many bytes as the one before and the character between.
pub proof fn lemma_size_of_next(s: Seq<char>, i: int)
    requires
        0 <= i < s.len(),
    ensures
        size(s.take(i + 1)) == size(s.take(i)) + width(s[i]),
{
    let one = seq![s[i]];
    assert(s.take(i + 1) =~= s.take(i) + one);
    lemma_size_of_parts(s.take(i), one);
    assert(size(one.drop_first()) == 0);
    assert(size(one) == width(s[i]));
}

/// Cutting a text short makes it no larger.
pub proof fn lemma_size_of_prefix(s: Seq<char>, i: int, j: int)
    requires
        0 <= i <= j <= s.len(),
    ensures
        size(s.take(i)) <= size(s.take(j)),
{
    assert(s.take(j) =~= s.take(i) + s.subrange(i, j));
    lemma_size_of_parts(s.take(i), s.subrange(i, j));
}

/// What fits is within the room, and one character more is not.
pub proof fn lemma_fits(s: Seq<char>, room: nat)
    ensures
        fits(s, room) <= s.len(),
        size(s.take(fits(s, room) as int)) <= room,
        fits(s, room) < s.len() ==> size(s.take(fits(s, room) as int + 1)) > room,
    decreases s.len(),
{
    let n = fits(s, room);
    if s.len() == 0 || width(s[0]) > room {
        assert(s.take(0) =~= Seq::<char>::empty());
        if s.len() > 0 {
            lemma_size_of_next(s, 0);
        }
    } else {
        let t = s.drop_first();
        let left = (room - width(s[0])) as nat;
        lemma_fits(t, left);
        assert(s.take(n as int) =~= seq![s[0]] + t.take(n - 1));
        assert(s.take(n as int).drop_first() =~= t.take(n - 1));
        if n < s.len() {
            assert(s.take(n as int + 1).drop_first() =~= t.take(n as int));
        }
    }
}

/// What fits is the longest part within the room.
pub proof fn lemma_fits_is(s: Seq<char>, room: nat, n: int)
    requires
        0 <= n <= s.len(),
        size(s.take(n)) <= room,
        n < s.len() ==> size(s.take(n + 1)) > room,
    ensures
        fits(s, room) == n,
{
    lemma_fits(s, room);
    let f = fits(s, room) as int;
    if f < n {
        lemma_size_of_prefix(s, f + 1, n);
    }
    if n < f {
        lemma_size_of_prefix(s, n + 1, f);
    }
}

/// Number of bytes of a character in UTF-8.
pub fn char_width(c: char) -> (n: usize)
    ensures
        n == width(c),
        1 <= n <= 4,
{
    let u: u32 = c as u32;
    if u < 0x80 {
        1
    } else if u < 0x800 {
        2
    } else if u < 0x10000 {
        3
    } else {
        4
    }
}

/// Number of bytes of a text in UTF-8.
pub fn text_size(s: &str) -> (n: usize)
    ensures
        n == size(s@),
{
    proof {
        lemma_size_of_encoding(s@);
    }
    byte_len(s)
}

/// Cutting whitespace off the end takes nothing else and leaves none there.
pub proof fn law_trim_end_cuts_white(s: Seq<char>)
    ensures
        trim_end(s).len() <= s.len(),
        trim_end(s) == s.take(trim_end(s).len() as int),
        forall|i: int| trim_end(s).len() <= i < s.len() ==> white(#[trigger] s[i]),
        trim_end(s).len() > 0 ==> !white(trim_end(s).last()),
    decreases s.len(),
{
    if s.len() > 0 && white(s.last()) {
        let front = s.drop_last();
        law_trim_end_cuts_white(front);
        assert(trim_end(s) =~= s.take(trim_end(s).len() as int));
        assert forall|i: int| trim_end(s).len() <= i < s.len() implies white(#[trigger] s[i]) by {
            if i < front.len() {
                assert(front[i] == s[i]);
            }
        }
    } else {
        assert(s.take(s.len() as int) =~= s);
    }
}

/// Cutting whitespace off the beginning takes nothing else and leaves none there.
pub proof fn law_trim_start_cuts_white(s: Seq<char>)
    ensures
        trim_start(s).len() <= s.len(),
        trim_start(s) == s.skip(s.len() - trim_start(s).len()),
        forall|i: int| 0 <= i < s.len() - trim_start(s).len() ==> white(#[trigger] s[i]),
        trim_start(s).len() > 0 ==> !white(trim_start(s)[0]),
    decreases s.len(),
{
    if s.len() > 0 && white(s[0]) {
        let rest = s.drop_first();
        law_trim_start_cuts_white(rest);
        assert(trim_start(s) =~= s.skip(s.len() - trim_start(s).len()));
        assert forall|i: int| 0 <= i < s.len() - trim_start(s).len() implies white(#[trigger] s[i]) by {
            if i > 0 {
                assert(rest[i - 1] == s[i]);
            }
        }
    } else {
        assert(s.skip(0) =~= s);
    }
}

/// Whether `r` stands in `s` from `n` on with whitespace around it and none at its own ends.
pub open spec fn trims_to(s: Seq<char>, r: Seq<char>, n: int) -> bool {
    &&& 0 <= n
    &&& n + r.len() <= s.len()
    &&& r == s.subrange(n, n + r.len())
    &&& forall|i: int| 0 <= i < s.len() && !(n <= i < n + r.len()) ==> white(#[trigger] s[i])
    &&& r.len() > 0 ==> !white(r[0]) && !white(r.last())
}

/// Trimming cuts whitespace off both ends and nothing else: a text is blank where nothing is left.
pub proof fn law_trim_cuts_white_ends(s: Seq<char>)
    ensures
        exists|n: int| trims_to(s, trim(s), n),
        trim(s).len() == 0 <==> forall|i: int| 0 <= i < s.len() ==> white(#[trigger] s[i]),
{
    let a = trim_start(s);
    let r = trim(s);
    law_trim_start_cuts_white(s);
    law_trim_end_cuts_white(a);
    let n = s.len() - a.len();
    assert(r =~= s.subrange(n, n + r.len()));
    assert forall|i: int| 0 <= i < s.len() && !(n <= i < n + r.len()) implies white(#[trigger] s[i]) by {
        if i >= n {
            assert(a[i - n] == s[i]);
        }
    }
    if r.len() > 0 {
        assert(r[0] == a[0]);
    }
    assert(trims_to(s, r, n));
    if r.len() > 0 {
        assert(s[n] == r[0]);
    }
}

proof fn lemma_trim_start_again(s: Seq<char>, t: Seq<char>)
    requires
        forall|i: int| 0 <= i < s.len() ==> white(#[trigger] s[i]),
    ensures
        trim_start(s + t) == trim_start(t),
    decreases s.len(),
{
    if s.len() == 0 {
        assert(s + t =~= t);
    } else {
        let rest = s.drop_first();
        assert((s + t).drop_first() =~= rest + t);
        assert(white((s + t)[0])) by {
            assert((s + t)[0] == s[0]);
        }
        assert forall|i: int| 0 <= i < rest.len() implies white(#[trigger] rest[i]) by {
            assert(rest[i] == s[i + 1]);
        }
        lemma_trim_start_again(rest, t);
    }
}

proof fn lemma_words_of_blank_start(s: Seq<char>, t: Seq<char>)
    requires
        forall|i: int| 0 <= i < s.len() ==> white(#[trigger] s[i]),
    ensures
        words(s + t) == words(t),
{
    lemma_trim_start_again(s, t);
}

proof fn lemma_word_len_ends(t: Seq<char>, c: char, b: Seq<char>)
    requires
        white(c),
    ensures
        word_len(t + seq![c] + b) == word_len(t),
    decreases t.len(),
{
    let all = t + seq![c] + b;
    if t.len() == 0 {
        assert(all[0] == c);
    } else if !white(t[0]) {
        assert(all.drop_first() =~= t.drop_first() + seq![c] + b);
        assert(all[0] == t[0]);
        lemma_word_len_ends(t.drop_first(), c, b);
    } else {
        assert(all[0] == t[0]);
    }
}

proof fn lemma_word_len_whole(w: Seq<char>)
    requires
        forall|i: int| 0 <= i < w.len() ==> !white(#[trigger] w[i]),
    ensures
        word_len(w) == w.len(),
    decreases w.len(),
{
    if w.len() > 0 {
        let rest = w.drop_first();
        assert(!white(w[0]));
        assert forall|i: int| 0 <= i < rest.len() implies !white(#[trigger] rest[i]) by {
            assert(rest[i] == w[i + 1]);
        }
        lemma_word_len_whole(rest);
    }
}

/// Whitespace, and only whitespace, separates words: the words of two texts with whitespace between
/// them are those of the one and then those of the other, and a text without any is one word.
pub proof fn law_words_are_separated_by_white(a: Seq<char>, c: char, b: Seq<char>, w: Seq<char>)
    requires
        white(c),
        w.len() > 0,
        forall|i: int| 0 <= i < w.len() ==> !white(#[trigger] w[i]),
    ensures
        words(a + seq![c] + b) == words(a) + words(b),
        words(w) == seq![w],
        words(Seq::empty()).len() == 0,
    decreases a.len(),
{
    let t = trim_start(a);
    let all = a + seq![c] + b;
    law_trim_start_cuts_white(a);
    let n = a.len() - t.len();
    let blank = a.take(n);
    assert(forall|i: int| 0 <= i < blank.len() ==> white(#[trigger] blank[i]));
    if t.len() == 0 {
        let front = a + seq![c];
        assert(forall|i: int| 0 <= i < front.len() ==> white(#[trigger] front[i])) by {
            assert forall|i: int| 0 <= i < front.len() implies white(#[trigger] front[i]) by {
                if i < a.len() {
                    assert(front[i] == a[i]);
                }
            }
        }
        lemma_words_of_blank_start(front, b);
        assert(words(a) + words(b) =~= words(b));
    } else {
        let k = word_len(t) as int;
        let rest = t.skip(k);
        let tail = t + seq![c] + b;
        assert(all =~= blank + tail);
        lemma_words_of_blank_start(blank, tail);
        lemma_word_len_bound(t);
        lemma_word_len_ends(t, c, b);
        assert(!white(tail[0])) by {
            assert(tail[0] == t[0]);
        }
        assert(trim_start(tail) == tail);
        assert(tail.take(k) =~= t.take(k));
        assert(tail.skip(k) =~= rest + seq![c] + b);
        assert(k > 0);
        law_words_are_separated_by_white(rest, c, b, w);
        assert(words(tail) =~= words(a) + words(b));
    }
    lemma_word_len_whole(w);
    assert(!white(w[0]));
    assert(trim_start(w) == w);
    assert(w.take(w.len() as int) =~= w);
    let none = w.skip(w.len() as int);
    assert(none.len() == 0);
    assert(trim_start(none) == none);
    assert(words(none) =~= Seq::empty());
    assert(words(w) =~= seq![w]);
    let empty = Seq::<char>::empty();
    assert(trim_start(empty) == empty);
}

/// Of the ASCII characters the space and those that move on in the line or down the page are
/// whitespace, and no others.
pub proof fn law_ascii_white(c: char)
    requires
        c as u32 <= 0x7f,
    ensures
        white(c) <==> c == ' ' || c == '\t' || c == '\n' || c == '\r' || c as u32 == 0xb || c as u32 == 0xc,
{
}

/// A character takes as many bytes as its encoding has, and texts one after the other take those of
/// both.
pub proof fn law_size_is_additive(a: Seq<char>, c: char, b: Seq<char>)
    ensures
        size(a + b) == size(a) + size(b),
        size(seq![c]) == encode_utf8(seq![c]).len(),
        size(Seq::empty()) == 0,
{
    lemma_size_of_parts(a, b);
    lemma_size_of_encoding(seq![c]);
}

/// Beyond ASCII, whitespace are the next-line character and the spaces and separators that Unicode has.
pub proof fn law_other_white(c: char)
    requires
        c as u32 > 0x7f,
    ensures
        white(c) <==> c == '\u{85}' || c == '\u{a0}' || c == '\u{1680}' || '\u{2000}' <= c <= '\u{200a}' || c
            == '\u{2028}' || c == '\u{2029}' || c == '\u{202f}' || c == '\u{205f}' || c == '\u{3000}',
{
}

} // verus!
