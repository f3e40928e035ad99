//! Well-formed HTML of the dialect that Telegram accepts, and the proof that rendered Markdown is
//! of that form.
use crate::markdown;
use crate::markdown::{MdEventView, MdTagEnd, MdTagView, Render};
use crate::number;
use crate::text;
use vstd::prelude::*;

verus! {

broadcast use vstd::seq::group_seq_axioms;

/// The elements that are rendered.
pub enum Element {
    Bold,
    Italic,
    Strike,
    Quote,
    Pre,
    Code,
    Link,
}

/// A piece of HTML.
pub enum Piece {
    /// Text, with what is special in HTML escaped.
    Text(Seq<char>),
    /// Opening tag without attributes.
    Open(Element),
    /// Opening tag of a link, with its destination escaped.
    OpenLink(Seq<char>),
    /// Closing tag.
    Close(Element),
}

/// The opening tag of an element.
pub open spec fn opening(e: Element) -> Seq<char> {
    match e {
        Element::Bold => "<b>"@,
        Element::Italic => "<i>"@,
        Element::Strike => "<s>"@,
        Element::Quote => "<blockquote>"@,
        Element::Pre => "<pre>"@,
        Element::Code => "<code>"@,
        Element::Link => "<a>"@,
    }
}

/// The closing tag of an element.
pub open spec fn closing(e: Element) -> Seq<char> {
    match e {
        Element::Bold => "</b>"@,
        Element::Italic => "</i>"@,
        Element::Strike => "</s>"@,
        Element::Quote => "</blockquote>"@,
        Element::Pre => "</pre>"@,
        Element::Code => "</code>"@,
        Element::Link => "</a>"@,
    }
}

/// The HTML of a piece.
pub open spec fn piece_html(p: Piece) -> Seq<char> {
    match p {
        Piece::Text(t) => markdown::escaped(t),
        Piece::Open(e) => opening(e),
        Piece::OpenLink(url) => "<a href=\""@ + markdown::escaped_attr(url) + "\">"@,
        Piece::Close(e) => closing(e),
    }
}

/// The HTML of pieces, one after the other.
pub open spec fn html(ps: Seq<Piece>) -> Seq<char>
    decreases ps.len(),
{
    if ps.len() == 0 {
        Seq::empty()
    } else {
        html(ps.drop_last()) + piece_html(ps.last())
    }
}

/// The elements that are open after the pieces, or nothing where a closing tag does not close the
/// element opened last.
pub open spec fn open_after(ps: Seq<Piece>) -> Option<Seq<Element>>
    decreases ps.len(),
{
    if ps.len() == 0 {
        Some(Seq::empty())
    } else {
        match open_after(ps.drop_last()) {
            None => None,
            Some(open) => match ps.last() {
                Piece::Text(_) => Some(open),
                // A link is opened with its destination only.
                Piece::Open(e) => if e is Link {
                    None
                } else {
                    Some(open.push(e))
                },
                Piece::OpenLink(_) => Some(open.push(Element::Link)),
                Piece::Close(e) => if open.len() > 0 && open.last() == e {
                    Some(open.drop_last())
                } else {
                    None
                },
            },
        }
    }
}

/// Whether `s` is escaped text and tags in which every element that is opened is closed, in the
/// right order.
pub open spec fn balanced(s: Seq<char>) -> bool {
    exists|ps: Seq<Piece>| #[trigger] html(ps) == s && open_after(ps) == Some(Seq::<Element>::empty())
}

/// The element that a kind of Markdown element is rendered as.
spec fn element_of(kind: MdTagEnd) -> Option<Element> {
    match kind {
        MdTagEnd::Heading => Some(Element::Bold),
        MdTagEnd::Emphasis => Some(Element::Italic),
        MdTagEnd::Strong => Some(Element::Bold),
        MdTagEnd::Strikethrough => Some(Element::Strike),
        MdTagEnd::BlockQuote => Some(Element::Quote),
        MdTagEnd::CodeBlock => Some(Element::Pre),
        MdTagEnd::Link => Some(Element::Link),
        MdTagEnd::Image => Some(Element::Link),
        _ => None,
    }
}

/// The elements that open Markdown elements are rendered as.
spec fn elements_of(open: Seq<MdTagEnd>) -> Seq<Element>
    decreases open.len(),
{
    if open.len() == 0 {
        Seq::empty()
    } else {
        match element_of(open.last()) {
            Some(e) => elements_of(open.drop_last()).push(e),
            None => elements_of(open.drop_last()),
        }
    }
}

proof fn lemma_push(ps: Seq<Piece>, p: Piece)
    ensures
        html(ps.push(p)) == html(ps) + piece_html(p),
        open_after(ps) matches Some(open) ==> (match p {
            Piece::Text(_) => open_after(ps.push(p)) == Some(open),
            Piece::Open(e) => !(e is Link) ==> open_after(ps.push(p)) == Some(open.push(e)),
            Piece::OpenLink(_) => open_after(ps.push(p)) == Some(open.push(Element::Link)),
            Piece::Close(e) => open.len() > 0 && open.last() == e ==> open_after(ps.push(p)) == Some(
                open.drop_last(),
            ),
        }),
{
    assert(ps.push(p).drop_last() =~= ps);
}

/// Text without special characters is escaped as it stands.
proof fn lemma_plain(t: Seq<char>)
    requires
        forall|i: int| 0 <= i < t.len() ==> t[i] != '&' && t[i] != '<' && t[i] != '>',
    ensures
        markdown::escaped(t) == t,
    decreases t.len(),
{
    if t.len() > 0 {
        lemma_plain(t.drop_last());
        assert(markdown::escaped(t) =~= t);
    }
}

/// Append text without special characters.
proof fn add_plain(ps: Seq<Piece>, t: Seq<char>) -> (r: Seq<Piece>)
    requires
        open_after(ps) is Some,
        forall|i: int| 0 <= i < t.len() ==> t[i] != '&' && t[i] != '<' && t[i] != '>',
    ensures
        html(r) == html(ps) + t,
        open_after(r) == open_after(ps),
{
    lemma_plain(t);
    lemma_push(ps, Piece::Text(t));
    ps.push(Piece::Text(t))
}

/// Append a line feed.
proof fn add_newline(ps: Seq<Piece>) -> (r: Seq<Piece>)
    requires
        open_after(ps) is Some,
    ensures
        html(r) == html(ps).push('\n'),
        open_after(r) == open_after(ps),
{
    let r = add_plain(ps, seq!['\n']);
    assert(html(ps) + seq!['\n'] =~= html(ps).push('\n'));
    r
}

/// Append the gap before a block.
proof fn add_gap(ps: Seq<Piece>, gap_lines: nat) -> (r: Seq<Piece>)
    requires
        open_after(ps) is Some,
    ensures
        html(r) == markdown::with_gap(html(ps), gap_lines),
        open_after(r) == open_after(ps),
{
    let out = html(ps);
    if out.len() == 0 || (out.last() == '\n' && gap_lines < 2) {
        ps
    } else if out.last() == '\n' || gap_lines < 2 {
        add_newline(ps)
    } else {
        let a = add_newline(ps);
        add_newline(a)
    }
}

/// Append what puts the next text on a new line.
proof fn add_new_line_start(ps: Seq<Piece>) -> (r: Seq<Piece>)
    requires
        open_after(ps) is Some,
    ensures
        html(r) == markdown::on_new_line(html(ps)),
        open_after(r) == open_after(ps),
{
    if html(ps).len() > 0 && html(ps).last() != '\n' {
        add_newline(ps)
    } else {
        ps
    }
}

/// Append a piece.
proof fn add_piece(ps: Seq<Piece>, p: Piece) -> (r: Seq<Piece>)
    requires
        open_after(ps) is Some,
        p matches Piece::Open(e) ==> !(e is Link),
        p matches Piece::Close(e) ==> open_after(ps)->0.len() > 0 && open_after(ps)->0.last() == e,
    ensures
        r == ps.push(p),
        html(r) == html(ps) + piece_html(p),
        open_after(r) == Some(
            match p {
                Piece::Text(_) => open_after(ps)->0,
                Piece::Open(e) => open_after(ps)->0.push(e),
                Piece::OpenLink(_) => open_after(ps)->0.push(Element::Link),
                Piece::Close(e) => open_after(ps)->0.drop_last(),
            },
        ),
{
    lemma_push(ps, p);
    ps.push(p)
}

/// Pieces for the opening of an element.
proof fn pieces_of_start(ps: Seq<Piece>, st: Render, tag: MdTagView, gap_lines: nat) -> (r: Seq<Piece>)
    requires
        html(ps) == st.out,
        open_after(ps) is Some,
    ensures
        html(r) == markdown::render_start(st, tag, gap_lines).out,
        open_after(r) == Some(
            match element_of(markdown::kind_of(tag)) {
                Some(e) => open_after(ps)->0.push(e),
                None => open_after(ps)->0,
            },
        ),
{
    match tag {
        MdTagView::Paragraph => add_gap(ps, gap_lines),
        MdTagView::Heading => {
            let a = add_gap(ps, gap_lines);
            add_piece(a, Piece::Open(Element::Bold))
        },
        MdTagView::Emphasis => add_piece(ps, Piece::Open(Element::Italic)),
        MdTagView::Strong => add_piece(ps, Piece::Open(Element::Bold)),
        MdTagView::Strikethrough => add_piece(ps, Piece::Open(Element::Strike)),
        MdTagView::BlockQuote => {
            let a = add_gap(ps, gap_lines);
            add_piece(a, Piece::Open(Element::Quote))
        },
        MdTagView::CodeBlock => {
            let a = add_gap(ps, gap_lines);
            add_piece(a, Piece::Open(Element::Pre))
        },
        MdTagView::List(_) => add_gap(ps, gap_lines),
        MdTagView::Item => {
            let a = add_new_line_start(ps);
            if st.lists.len() > 0 && st.lists.last() is Some {
                let n = st.lists.last()->0;
                number::lemma_value_of_dec(n);
                assert forall|i: int| 0 <= i < number::dec(n).len() implies number::dec(n)[i] != '&' && number::dec(n)[i] != '<'
                    && number::dec(n)[i] != '>' by {
                    assert(number::is_digit(number::dec(n)[i]));
                }
                reveal_strlit(". ");
                let b = add_plain(a, number::dec(n));
                add_plain(b, ". "@)
            } else {
                reveal_strlit("• ");
                add_plain(a, "• "@)
            }
        },
        MdTagView::Link(url) => {
            let r = add_piece(ps, Piece::OpenLink(url));
            assert(html(r) =~= markdown::render_start(st, tag, gap_lines).out);
            r
        },
        MdTagView::Image(url) => {
            reveal_strlit("[<a href=\"");
            reveal_strlit("<a href=\"");
            let a = add_plain(ps, seq!['[']);
            let r = add_piece(a, Piece::OpenLink(url));
            assert("[<a href=\""@ =~= seq!['['] + "<a href=\""@);
            assert(html(r) =~= markdown::render_start(st, tag, gap_lines).out);
            r
        },
        MdTagView::Other => ps,
    }
}

/// Pieces for the closing of an element.
proof fn pieces_of_end(ps: Seq<Piece>, st: Render, end: MdTagEnd) -> (r: Seq<Piece>)
    requires
        html(ps) == st.out,
        open_after(ps) is Some,
        element_of(end) matches Some(e) ==> open_after(ps)->0.len() > 0 && open_after(ps)->0.last() == e,
    ensures
        html(r) == markdown::render_end(st, end).out,
        open_after(r) == Some(
            match element_of(end) {
                Some(e) => open_after(ps)->0.drop_last(),
                None => open_after(ps)->0,
            },
        ),
{
    match end {
        MdTagEnd::Paragraph => add_newline(ps),
        MdTagEnd::Heading => {
            reveal_strlit("</b>\n");
            reveal_strlit("</b>");
            let a = add_piece(ps, Piece::Close(Element::Bold));
            let r = add_newline(a);
            assert(html(r) =~= st.out + "</b>\n"@);
            r
        },
        MdTagEnd::Emphasis => add_piece(ps, Piece::Close(Element::Italic)),
        MdTagEnd::Strong => add_piece(ps, Piece::Close(Element::Bold)),
        MdTagEnd::Strikethrough => add_piece(ps, Piece::Close(Element::Strike)),
        MdTagEnd::BlockQuote => {
            reveal_strlit("</blockquote>\n");
            reveal_strlit("</blockquote>");
            let a = add_piece(ps, Piece::Close(Element::Quote));
            let r = add_newline(a);
            assert(html(r) =~= st.out + "</blockquote>\n"@);
            r
        },
        MdTagEnd::CodeBlock => {
            reveal_strlit("</pre>\n");
            reveal_strlit("</pre>");
            let a = add_piece(ps, Piece::Close(Element::Pre));
            let r = add_newline(a);
            assert(html(r) =~= st.out + "</pre>\n"@);
            r
        },
        MdTagEnd::Item => add_new_line_start(ps),
        MdTagEnd::List => ps,
        MdTagEnd::Link => add_piece(ps, Piece::Close(Element::Link)),
        MdTagEnd::Image => {
            reveal_strlit("</a>]");
            reveal_strlit("</a>");
            let a = add_piece(ps, Piece::Close(Element::Link));
            let r = add_plain(a, seq![']']);
            assert(html(r) =~= st.out + "</a>]"@);
            r
        },
        MdTagEnd::Other => ps,
    }
}

/// Pieces for an event that neither opens nor closes an element.
proof fn pieces_of_leaf(ps: Seq<Piece>, src: Seq<char>, st: Render, event: (MdEventView, usize, usize)) -> (r: Seq<
    Piece,
>)
    requires
        html(ps) == st.out,
        open_after(ps) is Some,
        !(event.0 is Start),
        !(event.0 is End),
    ensures
        html(r) == markdown::render_event(src, st, event).out,
        open_after(r) == open_after(ps),
{
    let from = if st.content_end <= event.1 {
        st.content_end
    } else {
        event.1 as int
    };
    let gap_lines = markdown::newlines(vstd::utf8::encode_utf8(src), from, event.1 as int);
    match event.0 {
        MdEventView::Code(t) => {
            let a = add_piece(ps, Piece::Open(Element::Code));
            let b = add_piece(a, Piece::Text(t));
            let r = add_piece(b, Piece::Close(Element::Code));
            assert(open_after(r)->0 =~= open_after(ps)->0);
            r
        },
        MdEventView::Text(t) => add_piece(ps, Piece::Text(t)),
        MdEventView::SoftBreak => add_newline(ps),
        MdEventView::HardBreak => add_newline(ps),
        MdEventView::Rule => {
            reveal_strlit("—\n");
            let a = add_gap(ps, gap_lines);
            add_plain(a, "—\n"@)
        },
        MdEventView::TaskListMarker(done) => {
            reveal_strlit("[x] ");
            reveal_strlit("[ ] ");
            if done {
                add_plain(ps, "[x] "@)
            } else {
                add_plain(ps, "[ ] "@)
            }
        },
        MdEventView::Html(t) => add_piece(ps, Piece::Text(t)),
        MdEventView::InlineHtml(t) => add_piece(ps, Piece::Text(t)),
        _ => ps,
    }
}

/// Pieces for a list of events.
proof fn pieces_of(src: Seq<char>, events: Seq<(MdEventView, usize, usize)>) -> (r: Seq<Piece>)
    requires
        markdown::open_elements(events) is Some,
    ensures
        html(r) == markdown::render_steps(src, events).out,
        open_after(r) == Some(elements_of(markdown::open_elements(events)->0)),
    decreases events.len(),
{
    if events.len() == 0 {
        Seq::empty()
    } else {
        let before = events.drop_last();
        let ps = pieces_of(src, before);
        let st = markdown::render_steps(src, before);
        let open = markdown::open_elements(before)->0;
        let event = events.last();
        let from = if st.content_end <= event.1 {
            st.content_end
        } else {
            event.1 as int
        };
        match event.0 {
            MdEventView::Start(tag) => {
                assert(open.push(markdown::kind_of(tag)).drop_last() =~= open);
                pieces_of_start(
                    ps,
                    st,
                    tag,
                    markdown::newlines(vstd::utf8::encode_utf8(src), from, event.1 as int),
                )
            },
            MdEventView::End(end) => {
                let r = pieces_of_end(ps, st, end);
                assert(element_of(end) is Some ==> elements_of(open).drop_last() =~= elements_of(open.drop_last()));
                r
            },
            _ => pieces_of_leaf(ps, src, st, event),
        }
    }
}

// ---------------------------------------------------------------------------------------------
// Trimming
// ---------------------------------------------------------------------------------------------

proof fn lemma_escaped_front(c: char, t: Seq<char>)
    ensures
        markdown::escaped(seq![c] + t) == markdown::escape_char(c) + markdown::escaped(t),
    decreases t.len(),
{
    let s = seq![c] + t;
    if t.len() == 0 {
        assert(s.drop_last() =~= Seq::<char>::empty());
        assert(markdown::escaped(s.drop_last()) =~= Seq::<char>::empty());
        assert(markdown::escaped(t) =~= Seq::<char>::empty());
        assert(s.last() == c);
        assert(markdown::escaped(s) =~= markdown::escape_char(c) + markdown::escaped(t));
    } else {
        lemma_escaped_front(c, t.drop_last());
        assert(s.drop_last() =~= seq![c] + t.drop_last());
        assert(s.last() == t.last());
        assert(markdown::escaped(s) =~= markdown::escape_char(c) + markdown::escaped(t));
    }
}

proof fn lemma_html_front(ps: Seq<Piece>)
    requires
        ps.len() > 0,
    ensures
        html(ps) == piece_html(ps[0]) + html(ps.drop_first()),
        ps[0] is Text ==> open_after(ps.drop_first()) == open_after(ps),
    decreases ps.len(),
{
    if ps.len() == 1 {
        assert(ps.drop_last() =~= Seq::<Piece>::empty());
        assert(ps.drop_first() =~= Seq::<Piece>::empty());
        assert(html(ps) =~= piece_html(ps[0]) + html(ps.drop_first()));
    } else {
        lemma_html_front(ps.drop_last());
        assert(ps.drop_last().drop_first() =~= ps.drop_first().drop_last());
        assert(html(ps) =~= piece_html(ps[0]) + html(ps.drop_first()));
    }
}

proof fn lemma_tag_ends(p: Piece)
    requires
        !(p is Text),
    ensures
        piece_html(p).len() > 0,
        piece_html(p)[0] == '<',
        piece_html(p).last() == '>',
{
    reveal_strlit("<b>");
    reveal_strlit("<i>");
    reveal_strlit("<s>");
    reveal_strlit("<blockquote>");
    reveal_strlit("<pre>");
    reveal_strlit("<code>");
    reveal_strlit("<a>");
    reveal_strlit("</b>");
    reveal_strlit("</i>");
    reveal_strlit("</s>");
    reveal_strlit("</blockquote>");
    reveal_strlit("</pre>");
    reveal_strlit("</code>");
    reveal_strlit("</a>");
    reveal_strlit("<a href=\"");
    reveal_strlit("\">");
}

proof fn lemma_escape_char_ends(c: char)
    ensures
        markdown::escape_char(c).len() > 0,
        text::white(markdown::escape_char(c)[0]) == text::white(c),
        text::white(markdown::escape_char(c).last()) == text::white(c),
        text::white(c) ==> markdown::escape_char(c) == seq![c],
{
    reveal_strlit("&amp;");
    reveal_strlit("&lt;");
    reveal_strlit("&gt;");
}

/// The pieces without leading whitespace.
proof fn trim_front(ps: Seq<Piece>) -> (r: Seq<Piece>)
    ensures
        html(r) == text::trim_start(html(ps)),
        open_after(r) == open_after(ps),
    decreases
            ps.len(),
            if ps.len() > 0 && ps[0] is Text {
                ps[0]->Text_0.len()
            } else {
                0
            },
{
    if ps.len() == 0 {
        ps
    } else {
    lemma_html_front(ps);
    let rest = ps.drop_first();
    match ps[0] {
        Piece::Text(t) => {
            if t.len() == 0 {
                assert(html(ps) =~= html(rest));
                trim_front(rest)
            } else {
                let u = t.drop_first();
                assert(t =~= seq![t[0]] + u);
                lemma_escaped_front(t[0], u);
                lemma_escape_char_ends(t[0]);
                if text::white(t[0]) {
                    let qs = seq![Piece::Text(u)] + rest;
                    assert(qs.drop_first() =~= rest);
                    lemma_html_front(qs);
                    assert(html(ps) =~= seq![t[0]] + html(qs));
                    assert(html(ps).drop_first() =~= html(qs));
                    trim_front(qs)
                } else {
                    assert(html(ps)[0] == markdown::escape_char(t[0])[0]);
                    ps
                }
            }
        },
        _ => {
            lemma_tag_ends(ps[0]);
            assert(html(ps)[0] == '<');
            ps
        },
    }
    }
}

/// The pieces without trailing whitespace.
proof fn trim_back(ps: Seq<Piece>) -> (r: Seq<Piece>)
    ensures
        html(r) == text::trim_end(html(ps)),
        open_after(r) == open_after(ps),
    decreases
            ps.len(),
            if ps.len() > 0 && ps.last() is Text {
                ps.last()->Text_0.len()
            } else {
                0
            },
{
    if ps.len() == 0 {
        ps
    } else {
    let rest = ps.drop_last();
    match ps.last() {
        Piece::Text(t) => {
            if t.len() == 0 {
                assert(html(ps) =~= html(rest));
                trim_back(rest)
            } else {
                let u = t.drop_last();
                lemma_escape_char_ends(t.last());
                if text::white(t.last()) {
                    let qs = rest.push(Piece::Text(u));
                    assert(qs.drop_last() =~= rest);
                    assert(html(ps) =~= html(qs) + seq![t.last()]);
                    assert(html(ps).drop_last() =~= html(qs));
                    trim_back(qs)
                } else {
                    assert(html(ps).last() == markdown::escape_char(t.last()).last());
                    ps
                }
            }
        },
        _ => {
            lemma_tag_ends(ps.last());
            assert(html(ps).last() == '>');
            ps
        },
    }
    }
}

/// The rendering of well-nested events is balanced, whatever the source was.
pub proof fn law_render_balanced(src: Seq<char>, events: Seq<(MdEventView, usize, usize)>)
    requires
        markdown::well_nested(events),
    ensures
        balanced(markdown::rendered(src, events)),
{
    let ps = pieces_of(src, events);
    let front = trim_front(ps);
    let r = trim_back(front);
    assert(html(r) == markdown::rendered(src, events));
    assert(open_after(r) == Some(elements_of(Seq::<MdTagEnd>::empty())));
}

} // verus!
