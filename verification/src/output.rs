//! Text that tools show: long texts in chunks, streams by their tail, files by the page, and
//! literal replacement.
use crate::number;
use crate::number::dec_unsigned;
use crate::search;
use crate::search::{count_matches, replaced_all, replaced_first, split_lines};
use crate::text;
use crate::text::{char_width, from_chars, text_size, to_chars, trimmed_len};
use crate::unicode;
use crate::unicode::from_utf8_lossy;
use vstd::prelude::*;
use vstd::utf8::*;

verus! {

broadcast use vstd::seq::group_seq_axioms;

/// Bytes of a stream that are shown.
pub const STREAM_TAIL_BYTES: usize = 65_536;

/// Characters of a line that are shown.
pub const READ_MAX_LINE_CHARS: usize = 2000;

/// Bytes of a file that are shown at once.
pub const READ_MAX_BYTES: usize = 51_200;

/// Bytes before the end of a chunk in which a line break is looked for.
pub const BREAK_WINDOW: usize = 500;

// ---------------------------------------------------------------------------------------------
// Chunks
// ---------------------------------------------------------------------------------------------

/// Number of characters up to and with the last line break between the characters `low` and `high`;
/// `high` where there is none.
pub open spec fn after_break(s: Seq<char>, low: nat, high: nat) -> nat {
    let n = last_break(s, low, high);
    if n > low {
        n
    } else {
        high
    }
}

/// Number of characters up to and with the last line break between the characters `low` and `high`;
/// `low` where there is none.
pub open spec fn last_break(s: Seq<char>, low: nat, high: nat) -> nat
    decreases high,
{
    if high <= low {
        low
    } else if s[high - 1] == '\n' {
        high
    } else {
        last_break(s, low, (high - 1) as nat)
    }
}

/// Number of characters of the first chunk of a text that is too large: as many as fit, or up to the
/// last line break shortly before.
pub open spec fn chunk_len(s: Seq<char>, limit: nat) -> nat {
    let hard = text::fits(s, limit);
    let reach = text::size(s.take(hard as int));
    let low = text::fits(
        s,
        if reach > BREAK_WINDOW {
            (reach - BREAK_WINDOW) as nat
        } else {
            0
        },
    );
    after_break(s, low, hard)
}

/// The chunks of what is left of a text that is too large, each without trailing whitespace; a last
/// one that would be empty is left out.
pub open spec fn pieces(s: Seq<char>, limit: nat) -> Seq<Seq<char>>
    decreases s.len(),
{
    let n = chunk_len(s, limit);
    if text::size(s) > limit && 0 < n <= s.len() {
        seq![text::trim_end(s.take(n as int))] + pieces(s.skip(n as int), limit)
    } else if text::trim_end(s).len() > 0 {
        seq![text::trim_end(s)]
    } else {
        Seq::empty()
    }
}

/// The chunks of a text: the text itself where it is small enough.
pub open spec fn chunks(s: Seq<char>, limit: nat) -> Seq<Seq<char>> {
    if text::size(s) <= limit {
        seq![s]
    } else {
        pieces(s, limit)
    }
}

/// Whether each character alone is within the limit.
pub open spec fn splittable(s: Seq<char>, limit: nat) -> bool {
    forall|i: int| 0 <= i < s.len() ==> text::width(#[trigger] s[i]) <= limit
}

proof fn lemma_last_break(s: Seq<char>, low: nat, high: nat)
    requires
        low <= high,
    ensures
        low <= last_break(s, low, high) <= high,
    decreases high,
{
    if high > low && s[high - 1] != '\n' {
        lemma_last_break(s, low, (high - 1) as nat);
    }
}

proof fn lemma_fits_grows(s: Seq<char>, a: nat, b: nat)
    requires
        a <= b,
    ensures
        text::fits(s, a) <= text::fits(s, b),
    decreases s.len(),
{
    if s.len() > 0 && text::width(s[0]) <= a {
        lemma_fits_grows(s.drop_first(), (a - text::width(s[0])) as nat, (b - text::width(s[0])) as nat);
    }
}

proof fn lemma_chunk_len(s: Seq<char>, limit: nat)
    ensures
        chunk_len(s, limit) <= text::fits(s, limit) <= s.len(),
        s.len() > 0 && splittable(s, limit) ==> chunk_len(s, limit) > 0,
{
    let hard = text::fits(s, limit);
    let reach = text::size(s.take(hard as int));
    let room = if reach > BREAK_WINDOW {
        (reach - BREAK_WINDOW) as nat
    } else {
        0
    };
    text::lemma_fits(s, limit);
    lemma_fits_grows(s, room, limit);
    lemma_last_break(s, text::fits(s, room), hard);
    if s.len() > 0 && splittable(s, limit) {
        assert(text::width(s[0]) <= limit);
    }
}

proof fn lemma_trim_end_size(s: Seq<char>)
    ensures
        text::size(text::trim_end(s)) <= text::size(s),
    decreases s.len(),
{
    if s.len() > 0 && text::white(s.last()) {
        lemma_trim_end_size(s.drop_last());
        text::lemma_size_of_next(s, s.len() - 1);
        assert(s.take(s.len() as int) =~= s);
        assert(s.take(s.len() - 1) =~= s.drop_last());
    }
}

proof fn lemma_pieces_fit(s: Seq<char>, limit: nat)
    requires
        splittable(s, limit),
    ensures
        forall|i: int| 0 <= i < pieces(s, limit).len() ==> text::size(#[trigger] pieces(s, limit)[i]) <= limit,
    decreases s.len(),
{
    let n = chunk_len(s, limit);
    lemma_chunk_len(s, limit);
    lemma_trim_end_size(s);
    if text::size(s) > limit && 0 < n <= s.len() {
        let rest = s.skip(n as int);
        assert forall|i: int| 0 <= i < rest.len() implies text::width(#[trigger] rest[i]) <= limit by {
            assert(rest[i] == s[i + n]);
        }
        lemma_pieces_fit(rest, limit);
        text::lemma_fits(s, limit);
        text::lemma_size_of_prefix(s, n as int, text::fits(s, limit) as int);
        lemma_trim_end_size(s.take(n as int));
        let all = pieces(s, limit);
        assert forall|i: int| 0 <= i < all.len() implies text::size(#[trigger] all[i]) <= limit by {
            if i > 0 {
                assert(all[i] == pieces(rest, limit)[i - 1]);
            }
        }
    } else {
        assert(text::size(s) <= limit) by {
            if text::size(s) > limit {
                assert(s.len() > 0);
            }
        }
    }
}

/// There is a chunk at least, and none is larger than the limit.
pub proof fn law_chunks_fit(s: Seq<char>, limit: nat)
    requires
        splittable(s, limit),
    ensures
        chunks(s, limit).len() >= 1,
        forall|i: int| 0 <= i < chunks(s, limit).len() ==> text::size(#[trigger] chunks(s, limit)[i]) <= limit,
{
    lemma_pieces_fit(s, limit);
    lemma_chunk_len(s, limit);
}

/// Whether a text is nothing but whitespace.
pub open spec fn blank(s: Seq<char>) -> bool {
    forall|i: int| 0 <= i < s.len() ==> text::white(#[trigger] s[i])
}

/// Chunks one after the other, each with its gap behind it.
pub open spec fn spaced(chunks: Seq<Seq<char>>, gaps: Seq<Seq<char>>) -> Seq<char>
    decreases chunks.len(),
{
    if chunks.len() == 0 {
        Seq::empty()
    } else {
        chunks[0] + gaps[0] + spaced(chunks.drop_first(), gaps.drop_first())
    }
}

/// Whether gaps are blank, one for each chunk, and with them the chunks make up the text.
pub open spec fn gaps_of(s: Seq<char>, chunks: Seq<Seq<char>>, gaps: Seq<Seq<char>>) -> bool {
    &&& gaps.len() == chunks.len()
    &&& forall|i: int| 0 <= i < gaps.len() ==> blank(#[trigger] gaps[i])
    &&& spaced(chunks, gaps) == s
}

proof fn lemma_trimmed_tail(s: Seq<char>)
    ensures
        text::trim_end(s).len() <= s.len(),
        text::trim_end(s) == s.take(text::trim_end(s).len() as int),
        blank(s.skip(text::trim_end(s).len() as int)),
    decreases s.len(),
{
    let n = text::trim_end(s).len() as int;
    if s.len() > 0 && text::white(s.last()) {
        let front = s.drop_last();
        lemma_trimmed_tail(front);
        assert(front.take(n) =~= s.take(n));
        let tail = s.skip(n);
        assert forall|i: int| 0 <= i < tail.len() implies text::white(#[trigger] tail[i]) by {
            if i < tail.len() - 1 {
                assert(tail[i] == front.skip(n)[i]);
            }
        }
    } else {
        assert(s.take(n) =~= s);
    }
}

proof fn lemma_single_chunk(chunk: Seq<char>, gap: Seq<char>)
    requires
        blank(gap),
    ensures
        gaps_of(chunk + gap, seq![chunk], seq![gap]),
{
    let none = Seq::<Seq<char>>::empty();
    assert(seq![chunk].drop_first() =~= none);
    assert(spaced(none, seq![gap].drop_first()) =~= Seq::<char>::empty());
    assert(spaced(seq![chunk], seq![gap]) =~= chunk + gap);
}

proof fn lemma_gaps_of_pieces(s: Seq<char>, limit: nat) -> (gaps: Seq<Seq<char>>)
    requires
        pieces(s, limit).len() > 0,
    ensures
        gaps_of(s, pieces(s, limit), gaps),
    decreases s.len(),
{
    let n = chunk_len(s, limit);
    let all = pieces(s, limit);
    lemma_trimmed_tail(s);
    if text::size(s) > limit && 0 < n <= s.len() {
        let head = s.take(n as int);
        let rest = s.skip(n as int);
        let chunk = text::trim_end(head);
        let gap = head.skip(chunk.len() as int);
        lemma_trimmed_tail(head);
        lemma_trimmed_tail(rest);
        assert(head =~= chunk + gap);
        assert(s =~= head + rest);
        if pieces(rest, limit).len() == 0 {
            assert(rest.skip(0) =~= rest);
            assert(blank(gap + rest));
            lemma_single_chunk(chunk, gap + rest);
            assert(all =~= seq![chunk]);
            assert(chunk + (gap + rest) =~= s);
            seq![gap + rest]
        } else {
            let more = lemma_gaps_of_pieces(rest, limit);
            let gaps = seq![gap] + more;
            assert(all.drop_first() =~= pieces(rest, limit));
            assert(gaps.drop_first() =~= more);
            assert forall|i: int| 0 <= i < gaps.len() implies blank(#[trigger] gaps[i]) by {
                if i > 0 {
                    assert(gaps[i] == more[i - 1]);
                }
            }
            assert(spaced(all, gaps) == chunk + gap + rest);
            assert(chunk + gap + rest =~= s);
            gaps
        }
    } else {
        let chunk = text::trim_end(s);
        let gap = s.skip(chunk.len() as int);
        lemma_single_chunk(chunk, gap);
        assert(chunk + gap =~= s);
        seq![gap]
    }
}

/// Nothing but whitespace is lost, and only between chunks: the text is the chunks in order, each
/// followed by whitespace only.
pub proof fn law_chunks_keep_text(s: Seq<char>, limit: nat)
    requires
        splittable(s, limit),
    ensures
        exists|gaps: Seq<Seq<char>>| #[trigger] gaps_of(s, chunks(s, limit), gaps),
{
    if text::size(s) <= limit {
        lemma_single_chunk(s, Seq::empty());
        assert(s + Seq::<char>::empty() =~= s);
        assert(gaps_of(s, chunks(s, limit), seq![Seq::<char>::empty()]));
    } else {
        law_chunks_fit(s, limit);
        let gaps = lemma_gaps_of_pieces(s, limit);
        assert(gaps_of(s, chunks(s, limit), gaps));
    }
}

/// Number of leading characters of `v` from index `from` on that take up at most `room` bytes, and
/// how many bytes they take up.
fn fitting(v: &[char], from: usize, room: usize) -> (r: (usize, usize))
    requires
        from <= v@.len(),
    ensures
        r.0 == text::fits(v@.skip(from as int), room as nat),
        from + r.0 <= v@.len(),
        r.1 == text::size(v@.skip(from as int).take(r.0 as int)),
        r.1 <= room,
{
    let ghost s = v@.skip(from as int);
    let len: usize = v.len();
    let mut n: usize = 0;
    let mut used: usize = 0;
    proof {
        assert(s.take(0) =~= Seq::<char>::empty());
    }
    while n < len - from
        invariant
            from <= len,
            len == v@.len(),
            s == v@.skip(from as int),
            n <= s.len(),
            used == text::size(s.take(n as int)),
            used <= room,
        decreases len - from - n,
    {
        let w: usize = char_width(v[from + n]);
        proof {
            text::lemma_size_of_next(s, n as int);
        }
        if w > room - used {
            proof {
                text::lemma_fits_is(s, room as nat, n as int);
            }
            return (n, used);
        }
        used += w;
        n += 1;
    }
    proof {
        text::lemma_fits_is(s, room as nat, n as int);
    }
    (n, used)
}

/// Byte index of the last character boundary that is not behind `i`.
pub fn floor_char_boundary(s: &str, i: usize) -> (r: usize)
    ensures
        r == text::size(s@.take(text::fits(s@, i as nat) as int)),
        r <= i,
{
    let v = to_chars(s);
    proof {
        assert(v@.skip(0) =~= v@);
    }
    let (_, bytes) = fitting(v.as_slice(), 0, i);
    bytes
}

/// The size of the characters of `v` from index `from` on, as far as it is told apart from the
/// limit.
fn exceeds(v: &[char], from: usize, limit: usize) -> (r: bool)
    requires
        from <= v@.len(),
    ensures
        r == (text::size(v@.skip(from as int)) > limit),
{
    let (n, _) = fitting(v, from, limit);
    let ghost s = v@.skip(from as int);
    proof {
        text::lemma_fits(s, limit as nat);
        assert(s.take(s.len() as int) =~= s);
        if n < s.len() {
            text::lemma_size_of_prefix(s, n + 1, s.len() as int);
        }
    }
    n < v.len() - from
}

fn first_chunk(v: &[char], from: usize, limit: usize) -> (n: usize)
    requires
        from <= v@.len(),
    ensures
        n == chunk_len(v@.skip(from as int), limit as nat),
        from + n <= v@.len(),
{
    let ghost s = v@.skip(from as int);
    let (hard, reach) = fitting(v, from, limit);
    let back: usize = if reach > BREAK_WINDOW { reach - BREAK_WINDOW } else { 0 };
    let (low, _) = fitting(v, from, back);
    let mut high: usize = hard;
    let end: usize = v.len();
    proof {
        lemma_chunk_len(s, limit as nat);
        lemma_fits_grows(s, back as nat, limit as nat);
    }
    while high > low && v[from + high - 1] != '\n'
        invariant
            low <= high <= hard,
            from + hard <= end,
            end == v@.len(),
            s == v@.skip(from as int),
            last_break(s, low as nat, hard as nat) == last_break(s, low as nat, high as nat),
        decreases high,
    {
        proof {
            assert(s[high - 1] == v@[from + high - 1]);
        }
        high -= 1;
    }
    proof {
        if high > low {
            assert(s[high - 1] == v@[from + high - 1]);
        }
    }
    if high > low {
        high
    } else {
        hard
    }
}

/// Split a text into chunks of at most `limit` bytes, preferably at line breaks.
pub fn split_text(text: &str, limit: usize) -> (r: Vec<String>)
    requires
        splittable(text@, limit as nat),
    ensures
        text::strs(r@) == chunks(text@, limit as nat),
        forall|i: int| 0 <= i < r@.len() ==> text::size((#[trigger] r@[i])@) <= limit,
{
    let v = to_chars(text);
    let n: usize = v.len();
    let ghost s = v@;
    let ghost lim = limit as nat;
    let mut out: Vec<String> = Vec::new();
    proof {
        law_chunks_fit(s, lim);
        assert(s.skip(0) =~= s);
    }
    if !exceeds(v.as_slice(), 0, limit) {
        out.push(text.to_owned());
        proof {
            assert(text::strs(out@) =~= chunks(s, lim));
            assert(chunks(s, lim)[0] == s);
        }
        return out;
    }
    let mut from: usize = 0;
    let ghost all = pieces(s, lim);
    proof {
        assert(text::strs(out@) + all =~= all);
    }
    while exceeds(v.as_slice(), from, limit)
        invariant
            from <= n,
            n == v@.len(),
            s == v@,
            lim == limit,
            splittable(s, lim),
            text::strs(out@) + pieces(s.skip(from as int), lim) == all,
        decreases n - from,
    {
        let ghost rest = s.skip(from as int);
        proof {
            assert forall|i: int| 0 <= i < rest.len() implies text::width(#[trigger] rest[i]) <= lim by {
                assert(rest[i] == s[i + from]);
            }
            lemma_chunk_len(rest, lim);
        }
        let len: usize = first_chunk(v.as_slice(), from, limit);
        let head = vstd::slice::slice_subrange(v.as_slice(), from, from + len);
        let kept: usize = trimmed_len(head);
        let chunk = from_chars(head, 0, kept);
        let ghost before = out@;
        out.push(chunk);
        proof {
            assert(head@ =~= rest.take(len as int));
            assert(chunk@ =~= text::trim_end(rest.take(len as int)));
            assert(rest.skip(len as int) =~= s.skip(from + len));
            assert(text::strs(out@) =~= text::strs(before).push(chunk@));
            assert(text::strs(before) + pieces(rest, lim) =~= text::strs(out@) + pieces(s.skip(from + len), lim));
        }
        from += len;
    }
    let tail = vstd::slice::slice_subrange(v.as_slice(), from, n);
    let kept: usize = trimmed_len(tail);
    proof {
        assert(tail@ =~= s.skip(from as int));
        assert(text::trim_end(tail@).len() == kept);
    }
    if kept > 0 {
        let chunk = from_chars(tail, 0, kept);
        let ghost before = out@;
        out.push(chunk);
        proof {
            assert(chunk@ =~= text::trim_end(tail@));
            assert(text::strs(out@) =~= text::strs(before) + pieces(s.skip(from as int), lim));
        }
    } else {
        proof {
            assert(text::strs(out@) =~= text::strs(out@) + pieces(s.skip(from as int), lim));
        }
    }
    proof {
        assert(text::strs(out@) == chunks(s, lim));
        assert forall|i: int| 0 <= i < out@.len() implies text::size((#[trigger] out@[i])@) <= limit by {
            assert(out@[i]@ == chunks(s, lim)[i]);
        }
    }
    out
}

// ---------------------------------------------------------------------------------------------
// Streams
// ---------------------------------------------------------------------------------------------

/// What is shown of a stream of `len` bytes that reads as `content`: all of it, or the tail from the
/// last character boundary before it on.
pub open spec fn stream_tail(content: Seq<char>, len: nat) -> Seq<char> {
    if len > STREAM_TAIL_BYTES {
        let n = text::fits(content, (len - STREAM_TAIL_BYTES) as nat) as int;
        "[... "@ + number::dec(text::size(content.take(n))) + " earlier bytes truncated ...]\n"@ + content.skip(n)
    } else {
        content
    }
}

/// What is shown of a stream.
pub open spec fn stream_text(bytes: Seq<u8>, prefix: Seq<char>) -> Seq<char> {
    prefix + stream_tail(unicode::lossy(bytes), bytes.len())
}

/// What is shown of a stream of `len` bytes that reads as `content`.
pub fn show_tail(content: &str, len: usize) -> (r: String)
    ensures
        r@ == stream_tail(content@, len as nat),
{
    if len <= STREAM_TAIL_BYTES {
        return content.to_owned();
    }
    let v = to_chars(content);
    proof {
        assert(v@.skip(0) =~= v@);
    }
    let (n, cut) = fitting(v.as_slice(), 0, len - STREAM_TAIL_BYTES);
    let mut out = "[... ".to_owned();
    let bytes = dec_unsigned(cut as u128);
    out.append(bytes.as_str());
    out.append(" earlier bytes truncated ...]\n");
    let tail = from_chars(v.as_slice(), n, v.len());
    proof {
        assert(tail@ =~= content@.skip(n as int));
    }
    out.append(tail.as_str());
    out
}

/// What is shown of a stream.
pub fn render_stream(bytes: &[u8], prefix: &str) -> (r: String)
    ensures
        r@ == stream_text(bytes@, prefix@),
{
    let content = from_utf8_lossy(bytes);
    let shown = show_tail(content.as_str(), bytes.len());
    let mut out = prefix.to_owned();
    out.append(shown.as_str());
    out
}

// ---------------------------------------------------------------------------------------------
// Pages
// ---------------------------------------------------------------------------------------------

/// What is shown of a line: its beginning, where it is long.
pub open spec fn shown_line(line: Seq<char>) -> Seq<char> {
    if line.len() > READ_MAX_LINE_CHARS {
        line.take(READ_MAX_LINE_CHARS as int).push('…')
    } else {
        line
    }
}

/// A page of a file: the numbered lines, how many they are, and whether more follow.
pub struct Page {
    pub text: Seq<char>,
    pub shown: nat,
    pub capped: bool,
}

/// The page that starts with `lines`, the first of which has number `n`, where `room` lines more and
/// no more than a page's bytes are shown, `used` of them already.
pub open spec fn page(lines: Seq<Seq<char>>, n: nat, room: nat, used: nat) -> Page
    decreases lines.len(),
{
    if lines.len() == 0 {
        Page { text: Seq::empty(), shown: 0, capped: false }
    } else {
        let line = shown_line(lines[0]);
        let after = used + text::size(line) + 1;
        if room == 0 || after > READ_MAX_BYTES {
            Page { text: Seq::empty(), shown: 0, capped: true }
        } else {
            let more = page(lines.drop_first(), n + 1, (room - 1) as nat, after);
            Page {
                text: number::dec(n) + ": "@ + line + "\n"@ + more.text,
                shown: more.shown + 1,
                capped: more.capped,
            }
        }
    }
}

/// What is said below a page that starts with line `offset`, of a file of `total` lines.
pub open spec fn page_footer(p: Page, offset: nat, total: nat) -> Seq<char> {
    if p.capped {
        "(Showing lines "@ + number::dec(offset) + "-"@ + number::dec((offset + p.shown - 1) as nat) + " of "@
            + number::dec(total) + ". Use offset="@ + number::dec(offset + p.shown) + " to continue.)\n"@
    } else if offset > 1 {
        "(End of file - total "@ + number::dec(total) + " lines.)\n"@
    } else {
        ""@
    }
}

/// What is shown of a file that reads as `content`, from line `offset` on.
pub open spec fn page_of(content: Seq<char>, offset: nat, limit: nat) -> Seq<char> {
    let lines = search::lines(content);
    let rest = if offset - 1 < lines.len() {
        lines.skip(offset - 1)
    } else {
        Seq::empty()
    };
    let p = page(rest, offset, limit, 0);
    "<content>\n"@ + p.text + "</content>\n"@ + page_footer(p, offset, lines.len())
}

/// A page shows no more lines than there are or than are asked for, and fewer where more follow.
pub proof fn lemma_page(lines: Seq<Seq<char>>, n: nat, room: nat, used: nat)
    ensures
        page(lines, n, room, used).shown <= lines.len(),
        page(lines, n, room, used).capped ==> page(lines, n, room, used).shown < lines.len(),
        page(lines, n, room, used).shown <= room,
    decreases lines.len(),
{
    if lines.len() > 0 {
        let after = used + text::size(shown_line(lines[0])) + 1;
        if !(room == 0 || after > READ_MAX_BYTES) {
            lemma_page(lines.drop_first(), n + 1, (room - 1) as nat, after);
        }
    }
}

proof fn lemma_page_grows(lines: Seq<Seq<char>>, n: nat, room: nat, used: nat, done: Seq<char>)
    requires
        lines.len() > 0,
        room > 0,
        used + text::size(shown_line(lines[0])) + 1 <= READ_MAX_BYTES,
    ensures
        done + page(lines, n, room, used).text == (done + number::dec(n) + ": "@ + shown_line(lines[0]) + "\n"@)
            + page(
            lines.drop_first(),
            n + 1,
            (room - 1) as nat,
            (used + text::size(shown_line(lines[0])) + 1) as nat,
        ).text,
{
    let line = shown_line(lines[0]);
    let more = page(lines.drop_first(), n + 1, (room - 1) as nat, (used + text::size(line) + 1) as nat);
    assert(done + (number::dec(n) + ": "@ + line + "\n"@ + more.text) =~= (done + number::dec(n) + ": "@ + line
        + "\n"@) + more.text);
}

/// A page that starts within the file shows a line at least.
pub proof fn law_pages_advance(content: Seq<char>, offset: nat, limit: nat)
    requires
        1 <= offset <= search::lines(content).len(),
        limit >= 1,
    ensures
        page(search::lines(content).skip(offset - 1), offset, limit, 0).shown >= 1,
{
    let line = shown_line(search::lines(content).skip(offset - 1)[0]);
    lemma_size_bound(line);
}

/// Lines as they are shown, numbered from `n` on.
pub open spec fn numbered(lines: Seq<Seq<char>>, n: nat) -> Seq<char>
    decreases lines.len(),
{
    if lines.len() == 0 {
        Seq::empty()
    } else {
        number::dec(n) + ": "@ + shown_line(lines[0]) + "\n"@ + numbered(lines.drop_first(), n + 1)
    }
}

/// What the pages of a file show one after the other from line `offset` on, each begun where the
/// footer of the one before says.
pub open spec fn pages(lines: Seq<Seq<char>>, offset: nat, limit: nat) -> Seq<char>
    decreases lines.len() + 1 - offset,
{
    if 1 <= offset <= lines.len() {
        let p = page(lines.skip(offset - 1), offset, limit, 0);
        if p.capped && p.shown > 0 {
            proof {
                lemma_page(lines.skip(offset - 1), offset, limit, 0);
            }
            p.text + pages(lines, offset + p.shown, limit)
        } else {
            p.text
        }
    } else {
        Seq::empty()
    }
}

proof fn lemma_numbered_parts(a: Seq<Seq<char>>, b: Seq<Seq<char>>, n: nat)
    ensures
        numbered(a + b, n) == numbered(a, n) + numbered(b, n + a.len()),
    decreases a.len(),
{
    if a.len() == 0 {
        assert(a + b =~= b);
        assert(numbered(a, n) + numbered(b, n) =~= numbered(b, n));
    } else {
        let line = number::dec(n) + ": "@ + shown_line(a[0]) + "\n"@;
        assert((a + b).drop_first() =~= a.drop_first() + b);
        lemma_numbered_parts(a.drop_first(), b, n + 1);
        let (x, y) = (numbered(a.drop_first(), n + 1), numbered(b, n + a.len()));
        assert(line + (x + y) =~= (line + x) + y);
    }
}

proof fn lemma_page_text(lines: Seq<Seq<char>>, n: nat, room: nat, used: nat)
    ensures
        page(lines, n, room, used).shown <= lines.len(),
        page(lines, n, room, used).text == numbered(lines.take(page(lines, n, room, used).shown as int), n),
        !page(lines, n, room, used).capped ==> page(lines, n, room, used).shown == lines.len(),
    decreases lines.len(),
{
    let p = page(lines, n, room, used);
    let front = lines.take(p.shown as int);
    if lines.len() > 0 {
        let after = used + text::size(shown_line(lines[0])) + 1;
        if !(room == 0 || after > READ_MAX_BYTES) {
            let rest = lines.drop_first();
            lemma_page_text(rest, n + 1, (room - 1) as nat, after);
            let more = page(rest, n + 1, (room - 1) as nat, after);
            assert(front.drop_first() =~= rest.take(more.shown as int));
        }
    }
}

proof fn lemma_pages(content: Seq<char>, offset: nat, limit: nat)
    requires
        1 <= offset <= search::lines(content).len() + 1,
        limit >= 1,
    ensures
        pages(search::lines(content), offset, limit) == numbered(search::lines(content).skip(offset - 1), offset),
    decreases search::lines(content).len() + 1 - offset,
{
    let lines = search::lines(content);
    if offset <= lines.len() {
        let rest = lines.skip(offset - 1);
        let p = page(rest, offset, limit, 0);
        law_pages_advance(content, offset, limit);
        lemma_page_text(rest, offset, limit, 0);
        if p.capped {
            lemma_page(rest, offset, limit, 0);
            lemma_pages(content, offset + p.shown, limit);
            let (shown, left) = (rest.take(p.shown as int), lines.skip(offset + p.shown - 1));
            lemma_numbered_parts(shown, left, offset);
            assert(shown + left =~= rest);
        } else {
            assert(rest.take(p.shown as int) =~= rest);
        }
    }
}

/// Reading on gets to the end of the file: the pages from the first line on, each begun where the
/// footer of the one before says, show every numbered line once and in order.
pub proof fn law_pages_show_the_file(content: Seq<char>, limit: nat)
    requires
        limit >= 1,
    ensures
        pages(search::lines(content), 1, limit) == numbered(search::lines(content), 1),
{
    lemma_pages(content, 1, limit);
    assert(search::lines(content).skip(0) =~= search::lines(content));
}

fn line_to_show(line: &[char]) -> (r: (String, usize))
    ensures
        r.0@ == shown_line(line@),
        r.1 == text::size(shown_line(line@)),
        r.1 <= 4 * READ_MAX_LINE_CHARS + 4,
{
    let s = if line.len() > READ_MAX_LINE_CHARS {
        let mut head = from_chars(line, 0, READ_MAX_LINE_CHARS);
        head.push('…');
        head
    } else {
        from_chars(line, 0, line.len())
    };
    proof {
        assert(s@ =~= shown_line(line@));
        lemma_size_bound(s@);
    }
    let n: usize = text_size(s.as_str());
    (s, n)
}

proof fn lemma_size_bound(s: Seq<char>)
    ensures
        text::size(s) <= 4 * s.len(),
    decreases s.len(),
{
    if s.len() > 0 {
        lemma_size_bound(s.drop_first());
    }
}

/// What is shown of a file that reads as `content`, from line `offset` on.
pub fn show_page(content: &str, offset: usize, limit: usize) -> (r: String)
    requires
        offset >= 1,
    ensures
        r@ == page_of(content@, offset as nat, limit as nat),
{
    let v = to_chars(content);
    let lines = split_lines(v.as_slice());
    let total: usize = lines.len();
    let ghost all = search::lines(content@);
    let ghost first: Seq<Seq<char>> = if offset - 1 < total {
        all.skip(offset - 1)
    } else {
        Seq::empty()
    };
    let ghost goal = page(first, offset as nat, limit as nat, 0);
    let mut out = "<content>\n".to_owned();
    let ghost head = out@;
    let mut i: usize = offset - 1;
    let mut shown: usize = 0;
    let mut size: usize = 0;
    let mut capped = false;
    let ghost mut rest = first;
    proof {
        lemma_page(first, offset as nat, limit as nat, 0);
    }
    while i < total && !capped
        invariant
            total == lines@.len(),
            all == search::lines(content@),
            all.len() == total,
            forall|k: int| 0 <= k < total ==> (#[trigger] lines@[k])@ == all[k],
            i == offset - 1 + shown,
            offset >= 1,
            shown <= limit,
            i < total ==> rest == all.skip(i as int),
            i >= total ==> rest.len() == 0,
            size <= READ_MAX_BYTES,
            goal.shown == shown + page(rest, (offset + shown) as nat, (limit - shown) as nat, size as nat).shown,
            goal.capped == page(rest, (offset + shown) as nat, (limit - shown) as nat, size as nat).capped,
            head + goal.text == out@ + page(rest, (offset + shown) as nat, (limit - shown) as nat, size as nat).text,
            capped ==> i < total && page(rest, (offset + shown) as nat, (limit - shown) as nat, size as nat) == (Page {
                text: Seq::empty(),
                shown: 0,
                capped: true,
            }),
        decreases (if capped {
            0int
        } else {
            1 + total - i
        }),
    {
        if shown >= limit {
            capped = true;
        } else {
            let (line, bytes) = line_to_show(lines[i].as_slice());
            proof {
                assert(rest[0] == all[i as int]);
                assert(line@ == shown_line(rest[0]));
            }
            if size + bytes + 1 > READ_MAX_BYTES {
                capped = true;
            } else {
                proof {
                    lemma_page_grows(rest, (offset + shown) as nat, (limit - shown) as nat, size as nat, out@);
                    assert(rest.drop_first() =~= all.skip(i + 1));
                }
                size = size + bytes + 1;
                let number = dec_unsigned(i as u128 + 1);
                out.append(number.as_str());
                out.append(": ");
                out.append(line.as_str());
                out.append("\n");
                shown += 1;
                i += 1;
                proof {
                    rest = rest.drop_first();
                }
            }
        }
    }
    proof {
        assert(capped == goal.capped);
        assert(shown == goal.shown);
        assert(out@ =~= head + goal.text);
    }
    out.append("</content>\n");
    if capped {
        out.append("(Showing lines ");
        let from = dec_unsigned(offset as u128);
        out.append(from.as_str());
        out.append("-");
        let to = dec_unsigned(offset as u128 + shown as u128 - 1);
        out.append(to.as_str());
        out.append(" of ");
        let count = dec_unsigned(total as u128);
        out.append(count.as_str());
        out.append(". Use offset=");
        let next = dec_unsigned(offset as u128 + shown as u128);
        out.append(next.as_str());
        out.append(" to continue.)\n");
    } else if offset > 1 {
        out.append("(End of file - total ");
        let count = dec_unsigned(total as u128);
        out.append(count.as_str());
        out.append(" lines.)\n");
    } else {
        out.append("");
    }
    proof {
        let footer = page_footer(goal, offset as nat, all.len());
        assert(out@ =~= head + goal.text + "</content>\n"@ + footer);
    }
    out
}

/// What is shown of a file, from line `offset` on.
pub fn render_read(bytes: &[u8], offset: usize, limit: usize) -> (r: String)
    requires
        offset >= 1,
    ensures
        r@ == page_of(unicode::lossy(bytes@), offset as nat, limit as nat),
{
    let content = from_utf8_lossy(bytes);
    show_page(content.as_str(), offset, limit)
}

// ---------------------------------------------------------------------------------------------
// Replacement
// ---------------------------------------------------------------------------------------------

/// What a replacement in a file comes to: the new content, or why there is none.
pub open spec fn replacement(content: Seq<char>, snippet: Seq<char>, new: Seq<char>, all: bool) -> Result<
    Seq<char>,
    Seq<char>,
> {
    let n = search::count_of(content, snippet);
    if n == 0 {
        Err("Error: old_string not found in file."@)
    } else if n > 1 && !all {
        Err("Error: old_string occurs "@ + number::dec(n) + " times; make it unique or set replace_all."@)
    } else if all {
        Ok(search::replace_all(content, snippet, new))
    } else {
        Ok(search::replace_first(content, snippet, new))
    }
}

/// What a result holds.
pub open spec fn result_view(r: Result<String, String>) -> Result<Seq<char>, Seq<char>> {
    match r {
        Ok(s) => Ok(s@),
        Err(e) => Err(e@),
    }
}

/// Replace an exact literal snippet, which must occur exactly once unless all are to be replaced.
pub fn replace_snippet(content: &str, snippet: &str, new: &str, all: bool) -> (r: Result<String, String>)
    ensures
        result_view(r) == replacement(content@, snippet@, new@, all),
{
    let n: u128 = count_matches(content, snippet);
    if n == 0 {
        return Err("Error: old_string not found in file.".to_owned());
    }
    if n > 1 && !all {
        let mut e = "Error: old_string occurs ".to_owned();
        let times = dec_unsigned(n);
        e.append(times.as_str());
        e.append(" times; make it unique or set replace_all.");
        return Err(e);
    }
    if all {
        Ok(replaced_all(content, snippet, new))
    } else {
        Ok(replaced_first(content, snippet, new))
    }
}

proof fn lemma_nothing_to_replace(s: Seq<char>, p: Seq<char>, q: Seq<char>)
    requires
        p.len() > 0,
        search::count_of(s, p) == 0,
    ensures
        search::replace_all(s, p, q) == s,
    decreases s.len(),
{
    if s.len() >= p.len() {
        lemma_nothing_to_replace(s.drop_first(), p, q);
        assert(seq![s[0]] + s.drop_first() =~= s);
    }
}

/// Where a snippet occurs exactly once, replacing every occurrence and replacing the first are the
/// same.
pub proof fn law_unique_replacement(s: Seq<char>, p: Seq<char>, q: Seq<char>)
    requires
        p.len() > 0,
        search::count_of(s, p) == 1,
    ensures
        search::replace_all(s, p, q) == search::replace_first(s, p, q),
    decreases s.len(),
{
    if search::starts(s, p) {
        lemma_nothing_to_replace(s.skip(p.len() as int), p, q);
    } else {
        law_unique_replacement(s.drop_first(), p, q);
    }
}

/// A line of at most 2000 characters is shown verbatim, whitespace included. Of a longer one the first
/// 2000 characters are, with a mark behind them.
pub proof fn law_short_lines_are_verbatim(line: Seq<char>)
    ensures
        line.len() <= 2000 ==> shown_line(line) == line,
        line.len() > 2000 ==> shown_line(line).len() == 2001 && shown_line(line).take(2000) == line.take(2000)
            && shown_line(line).last() == '…',
{
    if line.len() > 2000 {
        assert(shown_line(line).take(2000) =~= line.take(2000));
    }
}

/// What lines take in bytes, with their line breaks.
pub open spec fn weight(lines: Seq<Seq<char>>) -> nat
    decreases lines.len(),
{
    if lines.len() == 0 {
        0
    } else {
        weight(lines.drop_last()) + text::size(lines.last()) + 1
    }
}

proof fn lemma_weight_front(line: Seq<char>, rest: Seq<Seq<char>>)
    ensures
        weight(seq![line] + rest) == text::size(line) + 1 + weight(rest),
    decreases rest.len(),
{
    let all = seq![line] + rest;
    if rest.len() == 0 {
        assert(all.drop_last() =~= Seq::empty());
        assert(weight(all.drop_last()) == 0);
    } else {
        lemma_weight_front(line, rest.drop_last());
        assert(all.drop_last() =~= seq![line] + rest.drop_last());
    }
}

/// Lines as they stand in a page: the number, `: ` and the characters of the line.
pub open spec fn listing(lines: Seq<Seq<char>>, n: nat) -> Seq<Seq<char>> {
    Seq::new(lines.len(), |i: int| number::dec((n + i) as nat) + ": "@ + lines[i] + "\n"@)
}

/// Lines as a page shows them.
pub open spec fn as_shown(lines: Seq<Seq<char>>) -> Seq<Seq<char>> {
    Seq::new(lines.len(), |i: int| shown_line(lines[i]))
}

proof fn lemma_listing(lines: Seq<Seq<char>>, n: nat)
    ensures
        numbered(lines, n) == listing(as_shown(lines), n).flatten(),
    decreases lines.len(),
{
    let l = listing(as_shown(lines), n);
    if lines.len() > 0 {
        let rest = lines.drop_first();
        lemma_listing(rest, n + 1);
        assert(l.drop_first() =~= listing(as_shown(rest), n + 1));
        assert(l[0] == number::dec(n) + ": "@ + shown_line(lines[0]) + "\n"@);
        assert(l.flatten() == l.first() + l.drop_first().flatten());
    }
}

proof fn lemma_page_room(lines: Seq<Seq<char>>, n: nat, room: nat, used: nat)
    ensures
        ({
            let p = page(lines, n, room, used);
            &&& p.shown <= lines.len()
            &&& p.shown <= room
            &&& p.capped <==> p.shown < lines.len()
            &&& p.shown > 0 ==> used + weight(as_shown(lines.take(p.shown as int))) <= 51_200
            &&& p.shown < lines.len() && p.shown < room ==> used + weight(
                as_shown(lines.take(p.shown as int + 1)),
            ) > 51_200
        }),
    decreases lines.len(),
{
    if lines.len() > 0 {
        let line = shown_line(lines[0]);
        let after = used + text::size(line) + 1;
        let p = page(lines, n, room, used);
        let none = Seq::<Seq<char>>::empty();
        lemma_weight_front(line, none);
        assert(seq![line] + none =~= as_shown(lines.take(1)));
        if !(room == 0 || after > READ_MAX_BYTES) {
            let rest = lines.drop_first();
            let more = page(rest, n + 1, (room - 1) as nat, after);
            lemma_page_room(rest, n + 1, (room - 1) as nat, after);
            let k = more.shown as int;
            let shown = as_shown(rest.take(k));
            lemma_weight_front(line, shown);
            assert(as_shown(lines.take(k + 1)) =~= seq![line] + shown);
            if k == 0 {
                assert(shown =~= none);
            }
            if k < rest.len() {
                let longer = as_shown(rest.take(k + 1));
                lemma_weight_front(line, longer);
                assert(as_shown(lines.take(k + 2)) =~= seq![line] + longer);
            }
        }
    }
}

/// Whether `shown` is a page of `k` of the lines from `offset` on: they are numbered from there, no
/// more than there are, than the limit allows and than 51200 bytes hold, and no fewer. Where lines are
/// left, the page says which were shown and where to go on; where none are, a page that does not begin
/// at the first line says so.
pub open spec fn shows(shown: Seq<char>, lines: Seq<Seq<char>>, offset: nat, limit: nat, k: nat) -> bool {
    let rest = if offset <= lines.len() {
        lines.skip(offset - 1)
    } else {
        Seq::empty()
    };
    let body = "<content>\n"@ + listing(as_shown(rest.take(k as int)), offset).flatten() + "</content>\n"@;
    &&& k <= rest.len() && k <= limit
    &&& k > 0 ==> weight(as_shown(rest.take(k as int))) <= 51_200
    &&& k < rest.len() && k < limit ==> weight(as_shown(rest.take(k as int + 1))) > 51_200
    &&& k < rest.len() ==> shown == body + ("(Showing lines "@ + number::dec(offset) + "-"@ + number::dec(
        (offset + k - 1) as nat,
    ) + " of "@ + number::dec(lines.len()) + ". Use offset="@ + number::dec(offset + k) + " to continue.)\n"@)
    &&& k == rest.len() && offset > 1 ==> shown == body + ("(End of file - total "@ + number::dec(lines.len())
        + " lines.)\n"@)
    &&& k == rest.len() && offset == 1 ==> shown == body
}

/// A page shows what fits: as many lines as the limit and the bytes allow.
pub proof fn law_page_shows_what_fits(content: Seq<char>, offset: nat, limit: nat)
    requires
        offset >= 1,
    ensures
        exists|k: nat| shows(page_of(content, offset, limit), search::lines(content), offset, limit, k),
{
    let lines = search::lines(content);
    let rest = if offset <= lines.len() {
        lines.skip(offset - 1)
    } else {
        Seq::empty()
    };
    let p = page(rest, offset, limit, 0);
    lemma_page_room(rest, offset, limit, 0);
    lemma_page_text(rest, offset, limit, 0);
    let k = p.shown;
    let front = rest.take(k as int);
    lemma_listing(front, offset);
    let body = listing(as_shown(front), offset).flatten();
    assert(p.text == body);
    if k == rest.len() && offset == 1 {
        reveal_strlit("");
        assert("<content>\n"@ + body + "</content>\n"@ + ""@ =~= "<content>\n"@ + body + "</content>\n"@);
    }
    assert(shows(page_of(content, offset, limit), lines, offset, limit, k));
}

/// A file whose lines have at most 2000 characters each is read back from its pages: reading on from
/// the first line gives, line by line, the number, `: ` and exactly the characters of the line.
pub proof fn law_small_files_are_shown_verbatim(content: Seq<char>, limit: nat)
    requires
        limit >= 1,
        forall|i: int|
            0 <= i < search::lines(content).len() ==> (#[trigger] search::lines(content)[i]).len() <= 2000,
    ensures
        pages(search::lines(content), 1, limit) == Seq::new(
            search::lines(content).len(),
            |i: int| number::dec((i + 1) as nat) + ": "@ + search::lines(content)[i] + "\n"@,
        ).flatten(),
{
    let lines = search::lines(content);
    law_pages_show_the_file(content, limit);
    lemma_listing(lines, 1);
    assert(as_shown(lines) =~= lines);
    assert(listing(lines, 1) =~= Seq::new(
        lines.len(),
        |i: int| number::dec((i + 1) as nat) + ": "@ + lines[i] + "\n"@,
    ));
}

/// A stream of at most 65536 bytes is reported as it is. Of a longer one the end is, behind a line
/// with the number of bytes that were left out: as many as are over, or fewer by part of a character.
pub proof fn law_long_streams_keep_their_end(bytes: Seq<u8>, s: Seq<char>, prefix: Seq<char>)
    requires
        bytes == encode_utf8(s),
    ensures
        bytes.len() <= 65_536 ==> stream_text(bytes, prefix) == prefix + s,
        bytes.len() > 65_536 ==> exists|n: int|
            0 <= n < s.len() && text::size(s.take(n)) <= bytes.len() - 65_536 < text::size(s.take(n + 1))
                && stream_text(bytes, prefix) == prefix + ("[... "@ + number::dec(text::size(s.take(n)))
                + " earlier bytes truncated ...]\n"@ + #[trigger] s.skip(n)),
{
    unicode::law_utf8_is_read_exactly(s);
    if bytes.len() > 65_536 {
        let room = (bytes.len() - STREAM_TAIL_BYTES) as nat;
        let n = text::fits(s, room) as int;
        text::lemma_fits(s, room);
        text::lemma_size_of_encoding(s);
        if n == s.len() {
            assert(s.take(n) =~= s);
        }
        assert(s.skip(n) == s.skip(n));
    }
}

proof fn lemma_last_break_is(s: Seq<char>, low: nat, high: nat)
    requires
        low <= high <= s.len(),
    ensures
        low <= last_break(s, low, high) <= high,
        last_break(s, low, high) > low ==> s[last_break(s, low, high) - 1] == '\n',
        forall|j: int| last_break(s, low, high) <= j < high ==> s[j] != '\n' || j < low,
    decreases high,
{
    if high > low && s[high - 1] != '\n' {
        lemma_last_break_is(s, low, (high - 1) as nat);
    }
}

/// A chunk ends behind the last line break in its last 500 bytes, where there is one, and is as long as
/// fits otherwise.
pub proof fn law_chunks_end_at_line_breaks(s: Seq<char>, limit: nat, j: int)
    ensures
        ({
            let n = chunk_len(s, limit);
            let hard = text::fits(s, limit);
            &&& n <= hard <= s.len()
            &&& text::size(s.take(hard as int)) <= limit
            &&& hard < s.len() ==> text::size(s.take(hard as int + 1)) > limit
            &&& 0 <= j < hard && s[j] == '\n' && text::size(s.take(j)) + 500 >= text::size(s.take(hard as int)) ==> j < n
                && s[n - 1] == '\n'
            &&& (forall|k: int|
                0 <= k < hard && #[trigger] s[k] == '\n' ==> text::size(s.take(k)) + 500 < text::size(
                    s.take(hard as int),
                )) ==> n == hard
        }),
{
    let hard = text::fits(s, limit);
    let reach = text::size(s.take(hard as int));
    let room = if reach > 500 {
        (reach - 500) as nat
    } else {
        0
    };
    let low = text::fits(s, room);
    text::lemma_fits(s, limit);
    text::lemma_fits(s, room);
    if room <= limit {
        lemma_fits_grows(s, room, limit);
    }
    assert(low <= hard);
    lemma_last_break_is(s, low, hard);
    let n = last_break(s, low, hard);
    if 0 <= j < hard && s[j] == '\n' && text::size(s.take(j)) + 500 >= reach {
        if j < low {
            text::lemma_size_of_next(s, j);
            text::lemma_size_of_prefix(s, j + 1, low as int);
        }
        assert(j >= low);
        assert(n > j);
    }
    if forall|k: int| 0 <= k < hard && #[trigger] s[k] == '\n' ==> text::size(s.take(k)) + 500 < reach {
        if n > low {
            let k = n - 1;
            assert(s[k] == '\n');
            text::lemma_size_of_prefix(s, low as int, k);
            text::lemma_size_of_next(s, low as int);
            if k > low {
                text::lemma_size_of_prefix(s, low as int + 1, k);
            }
            assert(false);
        }
    }
}

/// A text that fits is one chunk, as it stands. Any other begins with the chunk that ends where the
/// first one has to, without the whitespace at its end, and goes on with the chunks of the rest; a rest
/// that fits is the last one, without the whitespace at its end, if anything is left of it.
pub proof fn law_chunks_follow_each_other(s: Seq<char>, limit: nat)
    ensures
        text::size(s) <= limit ==> chunks(s, limit) == seq![s],
        text::size(s) > limit && 0 < chunk_len(s, limit) <= s.len() ==> ({
            let first = text::trim_end(s.take(chunk_len(s, limit) as int));
            let rest = s.skip(chunk_len(s, limit) as int);
            &&& text::size(rest) > limit ==> chunks(s, limit) == seq![first] + chunks(rest, limit)
            &&& text::size(rest) <= limit && !blank(rest) ==> chunks(s, limit) == seq![first, text::trim_end(rest)]
            &&& text::size(rest) <= limit && blank(rest) ==> chunks(s, limit) == seq![first]
        }),
{
    if text::size(s) > limit && 0 < chunk_len(s, limit) <= s.len() {
        let rest = s.skip(chunk_len(s, limit) as int);
        text::law_trim_end_cuts_white(rest);
        if blank(rest) && text::trim_end(rest).len() > 0 {
            let k = text::trim_end(rest).len() - 1;
            assert(text::trim_end(rest)[k] == rest[k]);
            assert(text::white(rest[k]));
        }
        let first = text::trim_end(s.take(chunk_len(s, limit) as int));
        assert(pieces(s, limit) == seq![first] + pieces(rest, limit));
        if text::size(rest) <= limit {
            if text::trim_end(rest).len() > 0 {
                assert(pieces(rest, limit) =~= seq![text::trim_end(rest)]);
                assert(pieces(s, limit) =~= seq![first, text::trim_end(rest)]);
            } else {
                assert(pieces(rest, limit) =~= Seq::empty());
                assert(pieces(s, limit) =~= seq![first]);
            }
        }
    }
}

/// What does not occur is not replaced, and that is said; what occurs more than once is replaced only
/// where all of it is to be, and how often it occurs is said otherwise. What is replaced is the first
/// occurrence, or every one.
pub proof fn law_edits_replace_what_they_should(a: Seq<char>, p: Seq<char>, b: Seq<char>, q: Seq<char>, all: bool)
    requires
        p.len() > 0,
    ensures
        (forall|i: int| 0 <= i && i + p.len() <= a.len() ==> #[trigger] a.subrange(i, i + p.len()) != p) ==> replacement(
            a,
            p,
            q,
            all,
        ) == Err::<Seq<char>, Seq<char>>("Error: old_string not found in file."@),
        (forall|i: int| 0 <= i < a.len() ==> #[trigger] (a + p + b).subrange(i, i + p.len()) != p) ==> {
            &&& search::count_of(b, p) == 0 ==> replacement(a + p + b, p, q, all) == Ok::<Seq<char>, Seq<char>>(
                a + q + b,
            )
            &&& search::count_of(b, p) > 0 && all ==> replacement(a + p + b, p, q, all) == Ok::<Seq<char>, Seq<char>>(
                a + q + search::replace_all(b, p, q),
            )
            &&& search::count_of(b, p) > 0 && !all ==> replacement(a + p + b, p, q, all) == Err::<
                Seq<char>,
                Seq<char>,
            >(
                "Error: old_string occurs "@ + number::dec(1 + search::count_of(b, p))
                    + " times; make it unique or set replace_all."@,
            )
        },
{
    search::law_first_occurrence(a, p, b, q);
    if search::count_of(b, p) == 0 {
        lemma_nothing_to_replace(b, p, q);
    }
}

proof fn lemma_line_read_back(prefix: Seq<char>, x: Seq<char>, a: Seq<char>, y: Seq<char>, b: Seq<char>)
    requires
        prefix + x + "\n"@ + a == prefix + y + "\n"@ + b,
        !x.contains('\n'),
        !y.contains('\n'),
    ensures
        x == y,
        a == b,
{
    reveal_strlit("\n");
    let l = prefix + x + "\n"@ + a;
    let r = prefix + y + "\n"@ + b;
    let p = prefix.len() as int;
    assert(l[p + x.len()] == '\n');
    assert(r[p + y.len()] == '\n');
    if x.len() < y.len() {
        assert(r[p + x.len()] == y[x.len() as int]);
        assert(y.contains(y[x.len() as int]));
    } else if y.len() < x.len() {
        assert(l[p + y.len()] == x[y.len() as int]);
        assert(x.contains(x[y.len() as int]));
    }
    assert forall|i: int| 0 <= i < x.len() implies x[i] == y[i] by {
        assert(l[p + i] == x[i]);
        assert(r[p + i] == y[i]);
    }
    assert(x =~= y);
    assert("\n"@.len() == 1);
    assert(l.len() == p + x.len() + 1 + a.len());
    assert(r.len() == p + y.len() + 1 + b.len());
    assert(a.len() == b.len());
    assert forall|i: int| 0 <= i < a.len() implies a[i] == b[i] by {
        assert(l[p + x.len() + 1 + i] == a[i]);
        assert(r[p + y.len() + 1 + i] == b[i]);
    }
    assert(a =~= b);
}

proof fn lemma_listing_read_back(a: Seq<Seq<char>>, b: Seq<Seq<char>>, n: nat)
    requires
        listing(a, n).flatten() == listing(b, n).flatten(),
        forall|i: int| 0 <= i < a.len() ==> !(#[trigger] a[i]).contains('\n'),
        forall|i: int| 0 <= i < b.len() ==> !(#[trigger] b[i]).contains('\n'),
    ensures
        a == b,
    decreases a.len(),
{
    reveal_strlit("\n");
    let l = listing(a, n);
    let r = listing(b, n);
    let prefix = number::dec(n) + ": "@;
    if a.len() > 0 {
        assert(l.flatten() == l.first() + l.drop_first().flatten());
        assert(l[0] == prefix + a[0] + "\n"@);
    }
    if b.len() > 0 {
        assert(r.flatten() == r.first() + r.drop_first().flatten());
        assert(r[0] == prefix + b[0] + "\n"@);
    }
    if a.len() == 0 {
        assert(l.flatten().len() == 0);
        assert(b.len() == 0);
        assert(a =~= b);
    } else {
        assert(l.flatten().len() > 0);
        assert(b.len() > 0) by {
            if b.len() == 0 {
                assert(r.flatten().len() == 0);
            }
        }
        let (x, y) = (a.drop_first(), b.drop_first());
        assert(l.drop_first() =~= listing(x, n + 1));
        assert(r.drop_first() =~= listing(y, n + 1));
        assert(!a[0].contains('\n') && !b[0].contains('\n'));
        lemma_line_read_back(
            prefix,
            a[0],
            listing(x, n + 1).flatten(),
            b[0],
            listing(y, n + 1).flatten(),
        );
        assert forall|i: int| 0 <= i < x.len() implies !(#[trigger] x[i]).contains('\n') by {
            assert(!a[i + 1].contains('\n'));
        }
        assert forall|i: int| 0 <= i < y.len() implies !(#[trigger] y[i]).contains('\n') by {
            assert(!b[i + 1].contains('\n'));
        }
        lemma_listing_read_back(x, y, n + 1);
        assert(a =~= seq![a[0]] + x);
        assert(b =~= seq![b[0]] + y);
    }
}

/// The lines of a file can be told from its pages: two files whose lines have at most 2000 characters
/// each and whose pages are the same have the same lines.
pub proof fn law_pages_tell_the_lines(a: Seq<char>, b: Seq<char>, limit: nat)
    requires
        limit >= 1,
        forall|i: int| 0 <= i < search::lines(a).len() ==> (#[trigger] search::lines(a)[i]).len() <= 2000,
        forall|i: int| 0 <= i < search::lines(b).len() ==> (#[trigger] search::lines(b)[i]).len() <= 2000,
        pages(search::lines(a), 1, limit) == pages(search::lines(b), 1, limit),
    ensures
        search::lines(a) == search::lines(b),
{
    let (x, y) = (search::lines(a), search::lines(b));
    law_pages_show_the_file(a, limit);
    law_pages_show_the_file(b, limit);
    lemma_listing(x, 1);
    lemma_listing(y, 1);
    assert(as_shown(x) =~= x);
    assert(as_shown(y) =~= y);
    assert forall|i: int| 0 <= i < x.len() implies !(#[trigger] x[i]).contains('\n') by {
        search::law_lines_hold_no_breaks(a, i);
    }
    assert forall|i: int| 0 <= i < y.len() implies !(#[trigger] y[i]).contains('\n') by {
        search::law_lines_hold_no_breaks(b, i);
    }
    lemma_listing_read_back(x, y, 1);
}

} // verus!
