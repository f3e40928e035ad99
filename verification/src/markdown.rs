//! Model-authored Markdown, read by `pulldown-cmark` and rendered into the HTML dialect that
//! Telegram accepts.
use crate::html;
use crate::number;
use crate::number::dec_unsigned;
use crate::text;
use crate::text::{from_chars, leading_white, to_chars, trimmed_len};
use pulldown_cmark::Event as RawEvent;
use vstd::prelude::*;
use vstd::utf8::*;

verus! {

broadcast use vstd::seq::group_seq_axioms;

/// Opening of a Markdown element, with what its rendering needs.
#[derive(Debug)]
pub enum MdTag {
    Paragraph,
    Heading,
    Emphasis,
    Strong,
    Strikethrough,
    BlockQuote,
    CodeBlock,
    /// A list; an ordered one carries the number of its first item.
    List(Option<u64>),
    Item,
    /// A link with its destination.
    Link(String),
    /// An inline image with its address.
    Image(String),
    /// Any element without a rendering of its own.
    Other,
}

/// What a [`MdTag`] holds.
pub enum MdTagView {
    Paragraph,
    Heading,
    Emphasis,
    Strong,
    Strikethrough,
    BlockQuote,
    CodeBlock,
    List(Option<u64>),
    Item,
    Link(Seq<char>),
    Image(Seq<char>),
    Other,
}

impl View for MdTag {
    type V = MdTagView;

    open spec fn view(&self) -> MdTagView {
        match self {
            MdTag::Paragraph => MdTagView::Paragraph,
            MdTag::Heading => MdTagView::Heading,
            MdTag::Emphasis => MdTagView::Emphasis,
            MdTag::Strong => MdTagView::Strong,
            MdTag::Strikethrough => MdTagView::Strikethrough,
            MdTag::BlockQuote => MdTagView::BlockQuote,
            MdTag::CodeBlock => MdTagView::CodeBlock,
            MdTag::List(first) => MdTagView::List(*first),
            MdTag::Item => MdTagView::Item,
            MdTag::Link(url) => MdTagView::Link(url@),
            MdTag::Image(url) => MdTagView::Image(url@),
            MdTag::Other => MdTagView::Other,
        }
    }
}

/// Kind of a Markdown element, as its closing names it.
#[derive(Debug, Clone, Copy, PartialEq, Eq, Structural)]
pub enum MdTagEnd {
    Paragraph,
    Heading,
    Emphasis,
    Strong,
    Strikethrough,
    BlockQuote,
    CodeBlock,
    List,
    Item,
    Link,
    Image,
    Other,
}

/// One step through a Markdown document.
#[derive(Debug)]
pub enum MdEvent {
    Start(MdTag),
    End(MdTagEnd),
    Code(String),
    Text(String),
    SoftBreak,
    HardBreak,
    Rule,
    TaskListMarker(bool),
    Html(String),
    InlineHtml(String),
    Other,
}

/// What a [`MdEvent`] holds.
pub enum MdEventView {
    Start(MdTagView),
    End(MdTagEnd),
    Code(Seq<char>),
    Text(Seq<char>),
    SoftBreak,
    HardBreak,
    Rule,
    TaskListMarker(bool),
    Html(Seq<char>),
    InlineHtml(Seq<char>),
    Other,
}

impl View for MdEvent {
    type V = MdEventView;

    open spec fn view(&self) -> MdEventView {
        match self {
            MdEvent::Start(tag) => MdEventView::Start(tag@),
            MdEvent::End(end) => MdEventView::End(*end),
            MdEvent::Code(t) => MdEventView::Code(t@),
            MdEvent::Text(t) => MdEventView::Text(t@),
            MdEvent::SoftBreak => MdEventView::SoftBreak,
            MdEvent::HardBreak => MdEventView::HardBreak,
            MdEvent::Rule => MdEventView::Rule,
            MdEvent::TaskListMarker(done) => MdEventView::TaskListMarker(*done),
            MdEvent::Html(t) => MdEventView::Html(t@),
            MdEvent::InlineHtml(t) => MdEventView::InlineHtml(t@),
            MdEvent::Other => MdEventView::Other,
        }
    }
}

/// An event with the range of bytes of the source that it stands for.
#[derive(Debug)]
pub struct Span {
    pub event: MdEvent,
    pub start: usize,
    pub end: usize,
}

/// What a list of events with their ranges holds.
pub open spec fn spans_view(spans: Seq<Span>) -> Seq<(MdEventView, usize, usize)> {
    Seq::new(spans.len(), |i: int| (spans[i].event@, spans[i].start, spans[i].end))
}

// ---------------------------------------------------------------------------------------------
// Reading
// ---------------------------------------------------------------------------------------------

/// `pulldown_cmark::Event`, carried as it comes.
#[verifier::external_type_specification]
#[verifier::external_body]
pub struct ExMdEvent<'a>(RawEvent<'a>);

/// What a `pulldown_cmark::Event` holds.
pub uninterp spec fn event_content(event: RawEvent<'_>) -> MdEventView;

/// The events, with their ranges, that `pulldown-cmark` reads a source as when strikethrough is
/// the only extension.
pub uninterp spec fn markdown_events(src: Seq<char>) -> Seq<(MdEventView, usize, usize)>;

/// What a list of `pulldown_cmark` events with their ranges holds.
pub open spec fn contents(events: Seq<(RawEvent<'_>, usize, usize)>) -> Seq<
    (MdEventView, usize, usize),
> {
    Seq::new(events.len(), |i: int| (event_content(events[i].0), events[i].1, events[i].2))
}

/// The kind of element that a tag opens.
pub open spec fn kind_of(tag: MdTagView) -> MdTagEnd {
    match tag {
        MdTagView::Paragraph => MdTagEnd::Paragraph,
        MdTagView::Heading => MdTagEnd::Heading,
        MdTagView::Emphasis => MdTagEnd::Emphasis,
        MdTagView::Strong => MdTagEnd::Strong,
        MdTagView::Strikethrough => MdTagEnd::Strikethrough,
        MdTagView::BlockQuote => MdTagEnd::BlockQuote,
        MdTagView::CodeBlock => MdTagEnd::CodeBlock,
        MdTagView::List(_) => MdTagEnd::List,
        MdTagView::Item => MdTagEnd::Item,
        MdTagView::Link(_) => MdTagEnd::Link,
        MdTagView::Image(_) => MdTagEnd::Image,
        MdTagView::Other => MdTagEnd::Other,
    }
}

/// The elements that are open after `events`, or nothing where an end does not close the element
/// opened last.
pub open spec fn open_elements(events: Seq<(MdEventView, usize, usize)>) -> Option<Seq<MdTagEnd>>
    decreases events.len(),
{
    if events.len() == 0 {
        Some(Seq::empty())
    } else {
        match open_elements(events.drop_last()) {
            None => None,
            Some(open) => match events.last().0 {
                MdEventView::Start(tag) => Some(open.push(kind_of(tag))),
                MdEventView::End(end) => if open.len() > 0 && open.last() == end {
                    Some(open.drop_last())
                } else {
                    None
                },
                _ => Some(open),
            },
        }
    }
}

/// Whether every element is closed, and no earlier than what it holds.
pub open spec fn well_nested(events: Seq<(MdEventView, usize, usize)>) -> bool {
    open_elements(events) == Some(Seq::<MdTagEnd>::empty())
}

/// `pulldown_cmark::Parser::new_ext` and `into_offset_iter`, with strikethrough as the only
/// extension. The events and their ranges are named; starts and ends are balanced, as the
/// documentation of `Event::Start` guarantees.
#[verifier::external_body]
fn parse_events(src: &str) -> (events: Vec<(RawEvent<'_>, usize, usize)>)
    ensures
        contents(events@) == markdown_events(src@),
        well_nested(contents(events@)),
{
    pulldown_cmark::Parser::new_ext(src, pulldown_cmark::Options::ENABLE_STRIKETHROUGH)
        .into_offset_iter()
        .map(|(event, range)| (event, range.start, range.end))
        .collect()
}

/// The tag of a `pulldown_cmark::Event::Start`, variant by variant; nothing for another event.
#[verifier::external_body]
fn start_of(event: &RawEvent<'_>) -> (tag: Option<MdTag>)
    ensures
        match tag {
            Some(t) => event_content(*event) == MdEventView::Start(t@),
            None => !(event_content(*event) is Start),
        },
{
    let RawEvent::Start(tag) = event else { return None };
    Some(match tag {
        pulldown_cmark::Tag::Paragraph => MdTag::Paragraph,
        pulldown_cmark::Tag::Heading { .. } => MdTag::Heading,
        pulldown_cmark::Tag::Emphasis => MdTag::Emphasis,
        pulldown_cmark::Tag::Strong => MdTag::Strong,
        pulldown_cmark::Tag::Strikethrough => MdTag::Strikethrough,
        pulldown_cmark::Tag::BlockQuote(_) => MdTag::BlockQuote,
        pulldown_cmark::Tag::CodeBlock(_) => MdTag::CodeBlock,
        pulldown_cmark::Tag::List(first) => MdTag::List(*first),
        pulldown_cmark::Tag::Item => MdTag::Item,
        pulldown_cmark::Tag::Link { dest_url, .. } => MdTag::Link(dest_url.to_string()),
        pulldown_cmark::Tag::Image { dest_url, .. } => MdTag::Image(dest_url.to_string()),
        _ => MdTag::Other,
    })
}

/// The kind in a `pulldown_cmark::Event::End`, variant by variant; nothing for another event.
#[verifier::external_body]
fn end_of(event: &RawEvent<'_>) -> (end: Option<MdTagEnd>)
    ensures
        match end {
            Some(e) => event_content(*event) == MdEventView::End(e),
            None => !(event_content(*event) is End),
        },
{
    let RawEvent::End(end) = event else { return None };
    Some(match end {
        pulldown_cmark::TagEnd::Paragraph => MdTagEnd::Paragraph,
        pulldown_cmark::TagEnd::Heading(_) => MdTagEnd::Heading,
        pulldown_cmark::TagEnd::Emphasis => MdTagEnd::Emphasis,
        pulldown_cmark::TagEnd::Strong => MdTagEnd::Strong,
        pulldown_cmark::TagEnd::Strikethrough => MdTagEnd::Strikethrough,
        pulldown_cmark::TagEnd::BlockQuote(_) => MdTagEnd::BlockQuote,
        pulldown_cmark::TagEnd::CodeBlock => MdTagEnd::CodeBlock,
        pulldown_cmark::TagEnd::List(_) => MdTagEnd::List,
        pulldown_cmark::TagEnd::Item => MdTagEnd::Item,
        pulldown_cmark::TagEnd::Link => MdTagEnd::Link,
        pulldown_cmark::TagEnd::Image => MdTagEnd::Image,
        _ => MdTagEnd::Other,
    })
}

/// A `pulldown_cmark::Event` that neither opens nor closes an element, variant by variant.
#[verifier::external_body]
fn leaf_of(event: &RawEvent<'_>) -> (leaf: MdEvent)
    requires
        !(event_content(*event) is Start),
        !(event_content(*event) is End),
    ensures
        leaf@ == event_content(*event),
{
    match event {
        RawEvent::Code(t) => MdEvent::Code(t.to_string()),
        RawEvent::Text(t) => MdEvent::Text(t.to_string()),
        RawEvent::SoftBreak => MdEvent::SoftBreak,
        RawEvent::HardBreak => MdEvent::HardBreak,
        RawEvent::Rule => MdEvent::Rule,
        RawEvent::TaskListMarker(done) => MdEvent::TaskListMarker(*done),
        RawEvent::Html(t) => MdEvent::Html(t.to_string()),
        RawEvent::InlineHtml(t) => MdEvent::InlineHtml(t.to_string()),
        _ => MdEvent::Other,
    }
}

/// The events of a Markdown source with their ranges, in order.
pub fn read_markdown(src: &str) -> (spans: Vec<Span>)
    ensures
        spans_view(spans@) == markdown_events(src@),
        well_nested(spans_view(spans@)),
{
    let events = parse_events(src);
    let mut spans: Vec<Span> = Vec::new();
    let mut i: usize = 0;
    while i < events.len()
        invariant
            i <= events@.len(),
            spans_view(spans@) == contents(events@).take(i as int),
        decreases events@.len() - i,
    {
        let event = match start_of(&events[i].0) {
            Some(tag) => MdEvent::Start(tag),
            None => match end_of(&events[i].0) {
                Some(end) => MdEvent::End(end),
                None => leaf_of(&events[i].0),
            },
        };
        let ghost before = spans@;
        spans.push(Span { event, start: events[i].1, end: events[i].2 });
        proof {
            assert(spans_view(spans@) =~= spans_view(before).push(contents(events@)[i as int]));
            assert(contents(events@).take(i + 1) =~= contents(events@).take(i as int).push(contents(events@)[i as int]));
        }
        i += 1;
    }
    proof {
        assert(contents(events@).take(i as int) =~= contents(events@));
    }
    spans
}

// ---------------------------------------------------------------------------------------------
// Escaping
// ---------------------------------------------------------------------------------------------

/// A character of text as HTML.
pub open spec fn escape_char(c: char) -> Seq<char> {
    if c == '&' {
        "&amp;"@
    } else if c == '<' {
        "&lt;"@
    } else if c == '>' {
        "&gt;"@
    } else {
        seq![c]
    }
}

/// A text as HTML.
pub open spec fn escaped(t: Seq<char>) -> Seq<char>
    decreases t.len(),
{
    if t.len() == 0 {
        t
    } else {
        escaped(t.drop_last()) + escape_char(t.last())
    }
}

/// A character of an attribute's value as HTML.
pub open spec fn escape_attr_char(c: char) -> Seq<char> {
    if c == '"' {
        "&quot;"@
    } else {
        escape_char(c)
    }
}

/// The value of an attribute as HTML.
pub open spec fn escaped_attr(t: Seq<char>) -> Seq<char>
    decreases t.len(),
{
    if t.len() == 0 {
        t
    } else {
        escaped_attr(t.drop_last()) + escape_attr_char(t.last())
    }
}

/// Escaped text opens and closes no tag, and an escaped value ends no attribute: whatever the model
/// writes as raw HTML is shown literally.
pub proof fn law_escaped_is_inert(t: Seq<char>)
    ensures
        forall|i: int| 0 <= i < escaped(t).len() ==> (#[trigger] escaped(t)[i]) != '<' && escaped(t)[i] != '>',
        forall|i: int|
            0 <= i < escaped_attr(t).len() ==> (#[trigger] escaped_attr(t)[i]) != '<' && escaped_attr(t)[i] != '>'
                && escaped_attr(t)[i] != '"',
    decreases t.len(),
{
    if t.len() > 0 {
        law_escaped_is_inert(t.drop_last());
        reveal_strlit("&amp;");
        reveal_strlit("&lt;");
        reveal_strlit("&gt;");
        reveal_strlit("&quot;");
        let s = escaped(t);
        let front = escaped(t.drop_last());
        assert forall|i: int| 0 <= i < s.len() implies (#[trigger] s[i]) != '<' && s[i] != '>' by {
            if i < front.len() {
                assert(s[i] == front[i]);
            } else {
                assert(s[i] == escape_char(t.last())[i - front.len()]);
            }
        }
        let a = escaped_attr(t);
        let before = escaped_attr(t.drop_last());
        assert forall|i: int| 0 <= i < a.len() implies (#[trigger] a[i]) != '<' && a[i] != '>' && a[i] != '"' by {
            if i < before.len() {
                assert(a[i] == before[i]);
            } else {
                assert(a[i] == escape_attr_char(t.last())[i - before.len()]);
            }
        }
    }
}

/// A text as HTML.
pub fn escape(text: &str) -> (r: String)
    ensures
        r@ == escaped(text@),
{
    let v = to_chars(text);
    let mut out = String::new();
    let mut i: usize = 0;
    while i < v.len()
        invariant
            i <= v@.len(),
            v@ == text@,
            out@ == escaped(text@.take(i as int)),
        decreases v@.len() - i,
    {
        let c = v[i];
        if c == '&' {
            out.append("&amp;");
        } else if c == '<' {
            out.append("&lt;");
        } else if c == '>' {
            out.append("&gt;");
        } else {
            out.push(c);
        }
        proof {
            assert(text@.take(i + 1).drop_last() =~= text@.take(i as int));
            assert(out@ =~= escaped(text@.take(i as int)) + escape_char(c));
        }
        i += 1;
    }
    proof {
        assert(text@.take(i as int) =~= text@);
    }
    out
}

/// The value of an attribute as HTML.
pub fn escape_attr(text: &str) -> (r: String)
    ensures
        r@ == escaped_attr(text@),
{
    let v = to_chars(text);
    let mut out = String::new();
    let mut i: usize = 0;
    while i < v.len()
        invariant
            i <= v@.len(),
            v@ == text@,
            out@ == escaped_attr(text@.take(i as int)),
        decreases v@.len() - i,
    {
        let c = v[i];
        if c == '"' {
            out.append("&quot;");
        } else if c == '&' {
            out.append("&amp;");
        } else if c == '<' {
            out.append("&lt;");
        } else if c == '>' {
            out.append("&gt;");
        } else {
            out.push(c);
        }
        proof {
            assert(text@.take(i + 1).drop_last() =~= text@.take(i as int));
            assert(out@ =~= escaped_attr(text@.take(i as int)) + escape_attr_char(c));
        }
        i += 1;
    }
    proof {
        assert(text@.take(i as int) =~= text@);
    }
    out
}

// ---------------------------------------------------------------------------------------------
// Rendering
// ---------------------------------------------------------------------------------------------

/// Number of line feeds among the bytes from index `from` up to `to`.
pub open spec fn newlines(bytes: Seq<u8>, from: int, to: int) -> nat
    decreases to - from,
{
    if to <= from {
        0
    } else {
        newlines(bytes, from, to - 1) + (if 0 <= to - 1 < bytes.len() && bytes[to - 1] == 10 {
            1nat
        } else {
            0nat
        })
    }
}

/// `out`, ended by a line feed unless it is empty.
pub open spec fn on_new_line(out: Seq<char>) -> Seq<char> {
    if out.len() > 0 && out.last() != '\n' {
        out.push('\n')
    } else {
        out
    }
}

/// `out`, set off from a block that the source has `gap_lines` line feeds before: on a new line,
/// with one blank line between where the source has any.
pub open spec fn with_gap(out: Seq<char>, gap_lines: nat) -> Seq<char> {
    if out.len() == 0 {
        out
    } else if out.last() == '\n' {
        if gap_lines >= 2 {
            out.push('\n')
        } else {
            out
        }
    } else if gap_lines >= 2 {
        out.push('\n').push('\n')
    } else {
        out.push('\n')
    }
}

/// A rendering in progress.
pub struct Render {
    /// What is rendered so far.
    pub out: Seq<char>,
    /// The lists that are open; an ordered one with the number of its next item.
    pub lists: Seq<Option<nat>>,
    /// Where the last piece of content ended in the source.
    pub content_end: int,
}

/// What the opening of an element appends.
pub open spec fn render_start(st: Render, tag: MdTagView, gap_lines: nat) -> Render {
    let gapped = with_gap(st.out, gap_lines);
    match tag {
        MdTagView::Paragraph => Render { out: gapped, ..st },
        MdTagView::Heading => Render { out: gapped + "<b>"@, ..st },
        MdTagView::Emphasis => Render { out: st.out + "<i>"@, ..st },
        MdTagView::Strong => Render { out: st.out + "<b>"@, ..st },
        MdTagView::Strikethrough => Render { out: st.out + "<s>"@, ..st },
        MdTagView::BlockQuote => Render { out: gapped + "<blockquote>"@, ..st },
        MdTagView::CodeBlock => Render { out: gapped + "<pre>"@, ..st },
        MdTagView::List(first) => Render {
            out: gapped,
            lists: st.lists.push(
                match first {
                    Some(n) => Some(n as nat),
                    None => None,
                },
            ),
            ..st
        },
        MdTagView::Item => if st.lists.len() > 0 && st.lists.last() is Some {
            let n = st.lists.last()->0;
            Render {
                out: on_new_line(st.out) + number::dec(n) + ". "@,
                lists: st.lists.drop_last().push(Some(n + 1)),
                ..st
            }
        } else {
            Render { out: on_new_line(st.out) + "• "@, ..st }
        },
        MdTagView::Link(url) => Render {
            out: st.out + "<a href=\""@ + escaped_attr(url) + "\">"@,
            ..st
        },
        MdTagView::Image(url) => Render {
            out: st.out + "[<a href=\""@ + escaped_attr(url) + "\">"@,
            ..st
        },
        MdTagView::Other => st,
    }
}

/// What the closing of an element appends.
pub open spec fn render_end(st: Render, end: MdTagEnd) -> Render {
    match end {
        MdTagEnd::Paragraph => Render { out: st.out.push('\n'), ..st },
        MdTagEnd::Heading => Render { out: st.out + "</b>\n"@, ..st },
        MdTagEnd::Emphasis => Render { out: st.out + "</i>"@, ..st },
        MdTagEnd::Strong => Render { out: st.out + "</b>"@, ..st },
        MdTagEnd::Strikethrough => Render { out: st.out + "</s>"@, ..st },
        MdTagEnd::BlockQuote => Render { out: st.out + "</blockquote>\n"@, ..st },
        MdTagEnd::CodeBlock => Render { out: st.out + "</pre>\n"@, ..st },
        MdTagEnd::Item => Render { out: on_new_line(st.out), ..st },
        MdTagEnd::List => if st.lists.len() > 0 {
            Render { lists: st.lists.drop_last(), ..st }
        } else {
            st
        },
        MdTagEnd::Link => Render { out: st.out + "</a>"@, ..st },
        MdTagEnd::Image => Render { out: st.out + "</a>]"@, ..st },
        MdTagEnd::Other => st,
    }
}

/// What an event appends.
pub open spec fn render_event(src: Seq<char>, st: Render, event: (MdEventView, usize, usize)) -> Render {
    let from = if st.content_end <= event.1 {
        st.content_end
    } else {
        event.1 as int
    };
    let gap_lines = newlines(encode_utf8(src), from, event.1 as int);
    let here = Render { content_end: event.2 as int, ..st };
    match event.0 {
        MdEventView::Start(tag) => render_start(st, tag, gap_lines),
        MdEventView::End(end) => render_end(st, end),
        MdEventView::Code(t) => Render { out: st.out + "<code>"@ + escaped(t) + "</code>"@, ..here },
        MdEventView::Text(t) => Render { out: st.out + escaped(t), ..here },
        MdEventView::SoftBreak => Render { out: st.out.push('\n'), ..here },
        MdEventView::HardBreak => Render { out: st.out.push('\n'), ..here },
        MdEventView::Rule => Render { out: with_gap(st.out, gap_lines) + "—\n"@, ..here },
        MdEventView::TaskListMarker(done) => Render {
            out: st.out + (if done {
                "[x] "@
            } else {
                "[ ] "@
            }),
            ..here
        },
        MdEventView::Html(t) => Render { out: st.out + escaped(t), ..here },
        MdEventView::InlineHtml(t) => Render { out: st.out + escaped(t), ..here },
        MdEventView::Other => here,
    }
}

/// What a list of events appends, one after the other.
pub open spec fn render_steps(src: Seq<char>, events: Seq<(MdEventView, usize, usize)>) -> Render
    decreases events.len(),
{
    if events.len() == 0 {
        Render { out: Seq::empty(), lists: Seq::empty(), content_end: 0 }
    } else {
        render_event(src, render_steps(src, events.drop_last()), events.last())
    }
}

/// The HTML of a source that was read as `events`.
pub open spec fn rendered(src: Seq<char>, events: Seq<(MdEventView, usize, usize)>) -> Seq<char> {
    text::trim(render_steps(src, events).out)
}

/// Append `s` to `out`.
fn push_text(out: &mut Vec<char>, s: &str)
    ensures
        final(out)@ == old(out)@ + s@,
{
    let v = to_chars(s);
    let mut i: usize = 0;
    while i < v.len()
        invariant
            i <= v@.len(),
            out@ == old(out)@ + v@.take(i as int),
        decreases v@.len() - i,
    {
        out.push(v[i]);
        proof {
            assert(out@ =~= old(out)@ + v@.take(i + 1));
        }
        i += 1;
    }
    proof {
        assert(v@.take(i as int) =~= v@);
    }
}

/// End `out` with a line feed unless it is empty.
pub fn ensure_newline(out: &mut Vec<char>)
    ensures
        final(out)@ == on_new_line(old(out)@),
{
    if out.len() > 0 && out[out.len() - 1] != '\n' {
        out.push('\n');
    }
}

/// Blank-line separation before a block element, taken from the source: the previous block's end
/// already emitted one newline, so at most one more is added — runs of newlines are a single
/// break. Mid-line (right after an opening tag like `<blockquote>`) at least one newline is still
/// guaranteed.
pub fn block_gap(out: &mut Vec<char>, gap_lines: usize)
    ensures
        final(out)@ == with_gap(old(out)@, gap_lines as nat),
{
    if out.len() == 0 {
        return;
    }
    if out[out.len() - 1] == '\n' {
        if gap_lines >= 2 {
            out.push('\n');
        }
    } else {
        out.push('\n');
        if gap_lines >= 2 {
            out.push('\n');
        }
    }
}

/// Number of line feeds in `bytes` from index `from` up to `to`.
fn count_newlines(bytes: &[u8], from: usize, to: usize) -> (n: usize)
    ensures
        n == newlines(bytes@, from as int, to as int),
{
    if to <= from {
        return 0;
    }
    let mut i: usize = from;
    let mut n: usize = 0;
    while i < to
        invariant
            from <= i <= to,
            n == newlines(bytes@, from as int, i as int),
            n <= i - from,
        decreases to - i,
    {
        if i < bytes.len() && bytes[i] == 10 {
            n += 1;
        }
        i += 1;
    }
    n
}

/// The numbers of the open lists.
pub open spec fn list_numbers(lists: Seq<Option<u128>>) -> Seq<Option<nat>> {
    Seq::new(
        lists.len(),
        |i: int|
            match lists[i] {
                Some(n) => Some(n as nat),
                None => None,
            },
    )
}

/// A rendering in progress.
struct Renderer {
    out: Vec<char>,
    lists: Vec<Option<u128>>,
    content_end: usize,
    /// Number of events rendered so far; no list has counted further than that.
    seen: usize,
}

impl View for Renderer {
    type V = Render;

    closed spec fn view(&self) -> Render {
        Render {
            out: self.out@,
            lists: list_numbers(self.lists@),
            content_end: self.content_end as int,
        }
    }
}

impl Renderer {
    /// No list number can be out of range of its type.
    spec fn wf(&self) -> bool {
        forall|i: int|
            0 <= i < self.lists@.len() ==> ((#[trigger] self.lists@[i]) matches Some(n) ==> n
                <= u64::MAX + self.seen)
    }

    /// Append the opening of an element.
    fn start(&mut self, tag: &MdTag, gap_lines: usize)
        requires
            old(self).wf(),
            old(self).seen < usize::MAX,
        ensures
            final(self)@ == render_start(old(self)@, tag@, gap_lines as nat),
            final(self).seen == old(self).seen + 1,
            final(self).wf(),
    {
        self.seen += 1;
        match tag {
            MdTag::Paragraph => block_gap(&mut self.out, gap_lines),
            MdTag::Heading => {
                block_gap(&mut self.out, gap_lines);
                push_text(&mut self.out, "<b>");
            },
            MdTag::Emphasis => push_text(&mut self.out, "<i>"),
            MdTag::Strong => push_text(&mut self.out, "<b>"),
            MdTag::Strikethrough => push_text(&mut self.out, "<s>"),
            MdTag::BlockQuote => {
                block_gap(&mut self.out, gap_lines);
                push_text(&mut self.out, "<blockquote>");
            },
            MdTag::CodeBlock => {
                block_gap(&mut self.out, gap_lines);
                push_text(&mut self.out, "<pre>");
            },
            MdTag::List(first) => {
                block_gap(&mut self.out, gap_lines);
                let number: Option<u128> = match first {
                    Some(n) => Some(*n as u128),
                    None => None,
                };
                self.lists.push(number);
                proof {
                    assert(self@.lists =~= render_start(old(self)@, tag@, gap_lines as nat).lists);
                }
            },
            MdTag::Item => self.start_item(),
            MdTag::Link(url) => {
                push_text(&mut self.out, "<a href=\"");
                let value = escape_attr(url.as_str());
                push_text(&mut self.out, value.as_str());
                push_text(&mut self.out, "\">");
            },
            MdTag::Image(url) => {
                push_text(&mut self.out, "[<a href=\"");
                let value = escape_attr(url.as_str());
                push_text(&mut self.out, value.as_str());
                push_text(&mut self.out, "\">");
            },
            MdTag::Other => {},
        }
    }

    /// Append the mark of a list item and count it.
    fn start_item(&mut self)
        requires
            old(self).seen > 0,
            forall|i: int|
                0 <= i < old(self).lists@.len() ==> ((#[trigger] old(self).lists@[i]) matches Some(n)
                    ==> n <= u64::MAX + old(self).seen - 1),
        ensures
            final(self)@ == render_start(old(self)@, MdTagView::Item, 0),
            final(self).seen == old(self).seen,
            final(self).wf(),
    {
        ensure_newline(&mut self.out);
        let mut next: Option<u128> = None;
        if self.lists.len() > 0 {
            next = self.lists[self.lists.len() - 1];
        }
        proof {
            if self.lists@.len() > 0 {
                assert(old(self)@.lists.last() == list_numbers(self.lists@)[self.lists@.len() - 1]);
            }
        }
        match next {
            Some(n) => {
                let number = dec_unsigned(n);
                push_text(&mut self.out, number.as_str());
                push_text(&mut self.out, ". ");
                let last: usize = self.lists.len() - 1;
                self.lists.truncate(last);
                self.lists.push(Some(n + 1));
                proof {
                    assert(self@.lists =~= old(self)@.lists.drop_last().push(Some((n + 1) as nat)));
                }
            },
            None => {
                push_text(&mut self.out, "• ");
            },
        }
    }

    /// Append the closing of an element.
    fn end(&mut self, end: MdTagEnd)
        requires
            old(self).wf(),
            old(self).seen < usize::MAX,
        ensures
            final(self)@ == render_end(old(self)@, end),
            final(self).seen == old(self).seen + 1,
            final(self).wf(),
    {
        self.seen += 1;
        match end {
            MdTagEnd::Paragraph => self.out.push('\n'),
            MdTagEnd::Heading => push_text(&mut self.out, "</b>\n"),
            MdTagEnd::Emphasis => push_text(&mut self.out, "</i>"),
            MdTagEnd::Strong => push_text(&mut self.out, "</b>"),
            MdTagEnd::Strikethrough => push_text(&mut self.out, "</s>"),
            MdTagEnd::BlockQuote => push_text(&mut self.out, "</blockquote>\n"),
            MdTagEnd::CodeBlock => push_text(&mut self.out, "</pre>\n"),
            MdTagEnd::Item => ensure_newline(&mut self.out),
            MdTagEnd::List => {
                let _ = self.lists.pop();
                proof {
                    assert(self@.lists =~= render_end(old(self)@, end).lists);
                }
            },
            MdTagEnd::Link => push_text(&mut self.out, "</a>"),
            MdTagEnd::Image => push_text(&mut self.out, "</a>]"),
            MdTagEnd::Other => {},
        }
    }

    /// Append one event.
    fn event(&mut self, src: &str, span: &Span)
        requires
            old(self).wf(),
            old(self).seen < usize::MAX,
        ensures
            final(self)@ == render_event(src@, old(self)@, (span.event@, span.start, span.end)),
            final(self).seen == old(self).seen + 1,
            final(self).wf(),
    {
        let from: usize = if self.content_end <= span.start {
            self.content_end
        } else {
            span.start
        };
        let gap_lines: usize = count_newlines(src.as_bytes(), from, span.start);
        match &span.event {
            MdEvent::Start(tag) => {
                self.start(tag, gap_lines);
                return;
            },
            MdEvent::End(end) => {
                self.end(*end);
                return;
            },
            MdEvent::Code(t) => {
                push_text(&mut self.out, "<code>");
                let text = escape(t.as_str());
                push_text(&mut self.out, text.as_str());
                push_text(&mut self.out, "</code>");
            },
            MdEvent::Text(t) => {
                let text = escape(t.as_str());
                push_text(&mut self.out, text.as_str());
            },
            MdEvent::SoftBreak => self.out.push('\n'),
            MdEvent::HardBreak => self.out.push('\n'),
            MdEvent::Rule => {
                block_gap(&mut self.out, gap_lines);
                push_text(&mut self.out, "—\n");
            },
            MdEvent::TaskListMarker(done) => {
                if *done {
                    push_text(&mut self.out, "[x] ");
                } else {
                    push_text(&mut self.out, "[ ] ");
                }
            },
            // Raw HTML is shown literally, never passed through: unknown tags would make Telegram
            // reject the whole message.
            MdEvent::Html(t) => {
                let text = escape(t.as_str());
                push_text(&mut self.out, text.as_str());
            },
            MdEvent::InlineHtml(t) => {
                let text = escape(t.as_str());
                push_text(&mut self.out, text.as_str());
            },
            MdEvent::Other => {},
        }
        self.content_end = span.end;
        self.seen += 1;
    }
}

/// The HTML of a source that was read as `spans`.
pub fn render_spans(src: &str, spans: &Vec<Span>) -> (html: String)
    ensures
        html@ == rendered(src@, spans_view(spans@)),
{
    let mut r = Renderer { out: Vec::new(), lists: Vec::new(), content_end: 0, seen: 0 };
    let ghost events = spans_view(spans@);
    let mut i: usize = 0;
    proof {
        assert(events.take(0) =~= Seq::<(MdEventView, usize, usize)>::empty());
        assert(r@.lists =~= Seq::<Option<nat>>::empty());
    }
    while i < spans.len()
        invariant
            i <= spans@.len(),
            events == spans_view(spans@),
            r@ == render_steps(src@, events.take(i as int)),
            r.seen == i,
            r.wf(),
        decreases spans@.len() - i,
    {
        r.event(src, &spans[i]);
        proof {
            assert(events.take(i + 1).drop_last() =~= events.take(i as int));
        }
        i += 1;
    }
    proof {
        assert(events.take(i as int) =~= events);
    }
    let from: usize = leading_white(r.out.as_slice());
    let rest = to_chars(from_chars(r.out.as_slice(), from, r.out.len()).as_str());
    let to: usize = trimmed_len(rest.as_slice());
    from_chars(rest.as_slice(), 0, to)
}

/// Render model-authored Markdown into the HTML dialect Telegram accepts (`parse_mode: "HTML"`).
/// The output is always balanced regardless of what the model wrote, so sendMessage never fails on
/// entity parsing; constructs Telegram cannot display (tables, raw HTML, inline images) degrade to
/// text. Line spacing is preserved from the source: single breaks stay single and paragraph breaks
/// keep their blank line.
pub fn render_markdown(src: &str) -> (html: String)
    ensures
        html@ == rendered(src@, markdown_events(src@)),
        html::balanced(html@),
{
    let spans = read_markdown(src);
    proof {
        html::law_render_balanced(src@, markdown_events(src@));
    }
    render_spans(src, &spans)
}

// ---------------------------------------------------------------------------------------------
// Laws
// ---------------------------------------------------------------------------------------------

/// The lists that are open behind events, outermost first: the indices of the events that begin them.
pub open spec fn enclosing(events: Seq<(MdEventView, usize, usize)>) -> Seq<int>
    decreases events.len(),
{
    if events.len() == 0 {
        Seq::empty()
    } else {
        let before = enclosing(events.drop_last());
        match events.last().0 {
            MdEventView::Start(MdTagView::List(_)) => before.push(events.len() - 1),
            MdEventView::End(MdTagEnd::List) => if before.len() > 0 {
                before.drop_last()
            } else {
                before
            },
            _ => before,
        }
    }
}

/// Whether the event of an index begins an item of the list that the event of another begins: that
/// list is the innermost one around it.
pub open spec fn item_of(events: Seq<(MdEventView, usize, usize)>, i: int, list: int) -> bool {
    let open = enclosing(events.take(i));
    &&& events[i].0 == MdEventView::Start(MdTagView::Item)
    &&& open.len() > 0
    &&& open.last() == list
}

/// How many items of the list that the event of that index begins come before the event `end`.
pub open spec fn items_of(events: Seq<(MdEventView, usize, usize)>, end: int, list: int) -> nat
    decreases end,
{
    if end <= 0 {
        0
    } else {
        items_of(events, end - 1, list) + (if item_of(events, end - 1, list) {
            1nat
        } else {
            0nat
        })
    }
}

/// The number that a list begins with, where it is ordered.
pub open spec fn first_number(event: MdEventView) -> Option<u64> {
    match event {
        MdEventView::Start(MdTagView::List(first)) => first,
        _ => None,
    }
}

proof fn lemma_enclosing(events: Seq<(MdEventView, usize, usize)>)
    ensures
        forall|j: int| 0 <= j < enclosing(events).len() ==> 0 <= #[trigger] enclosing(events)[j] < events.len(),
        forall|j: int, k: int|
            0 <= j < k < enclosing(events).len() ==> #[trigger] enclosing(events)[j] < #[trigger] enclosing(
                events,
            )[k],
    decreases events.len(),
{
    if events.len() > 0 {
        let before = events.drop_last();
        let was = enclosing(before);
        let open = enclosing(events);
        lemma_enclosing(before);
        assert forall|j: int| 0 <= j < open.len() implies 0 <= #[trigger] open[j] < events.len() by {
            if j < was.len() {
                assert(open[j] == was[j]);
            }
        }
        assert forall|j: int, k: int| 0 <= j < k < open.len() implies #[trigger] open[j] < #[trigger] open[k] by {
            assert(open[j] == was[j]);
            if k < was.len() {
                assert(open[k] == was[k]);
            }
        }
    }
}

proof fn lemma_no_items_yet(events: Seq<(MdEventView, usize, usize)>, end: int, list: int)
    requires
        0 <= end <= events.len(),
        end <= list,
    ensures
        items_of(events, end, list) == 0,
    decreases end,
{
    if end > 0 {
        lemma_no_items_yet(events, end - 1, list);
        lemma_enclosing(events.take(end - 1));
    }
}

proof fn lemma_items_of_front(events: Seq<(MdEventView, usize, usize)>, end: int, list: int)
    requires
        0 <= end < events.len(),
    ensures
        items_of(events.drop_last(), end, list) == items_of(events, end, list),
    decreases end,
{
    if end > 0 {
        lemma_items_of_front(events, end - 1, list);
        assert(events.drop_last().take(end - 1) =~= events.take(end - 1));
    }
}

/// Whether the numbers that are kept are those of the open lists, each moved on by its items.
spec fn lists_agree(events: Seq<(MdEventView, usize, usize)>, lists: Seq<Option<nat>>) -> bool {
    let open = enclosing(events);
    &&& lists.len() == open.len()
    &&& forall|j: int|
        0 <= j < open.len() ==> #[trigger] lists[j] == (match first_number(events[open[j]].0) {
            Some(n) => Some(n as nat + items_of(events, events.len() as int, open[j])),
            None => None,
        })
}

proof fn lemma_lists_agree(src: Seq<char>, events: Seq<(MdEventView, usize, usize)>)
    ensures
        lists_agree(events, render_steps(src, events).lists),
    decreases events.len(),
{
    if events.len() > 0 {
        let before = events.drop_last();
        let n = before.len() as int;
        let was = enclosing(before);
        let open = enclosing(events);
        let lists = render_steps(src, events).lists;
        lemma_lists_agree(src, before);
        lemma_enclosing(before);
        lemma_enclosing(events);
        assert(events.take(n) =~= before);
        assert forall|j: int| 0 <= j < open.len() implies #[trigger] lists[j] == (match first_number(
            events[open[j]].0,
        ) {
            Some(k) => Some(k as nat + items_of(events, events.len() as int, open[j])),
            None => None,
        }) by {
            if open[j] == n {
                lemma_no_items_yet(events, n, n);
                assert(!item_of(events, n, n));
            } else {
                lemma_items_of_front(events, n, open[j]);
                assert(before[open[j]] == events[open[j]]);
                assert(was[j] == open[j]);
                assert(render_steps(src, before).lists[j] == (match first_number(events[open[j]].0) {
                    Some(k) => Some(k as nat + items_of(before, n, open[j])),
                    None => None,
                }));
                if j < was.len() - 1 {
                    assert(was[j] < was[was.len() - 1]);
                }
            }
        }
    }
}

/// An item stands on a line of its own and is marked as the innermost list around it says, whatever
/// lists the items before it contain: in an ordered list that begins with `n`, the item that has `k`
/// items of that list before it is marked `n + k`; in any other list, and outside of lists, with a
/// bullet.
pub proof fn law_items_are_marked_by_their_list(src: Seq<char>, events: Seq<(MdEventView, usize, usize)>)
    requires
        events.len() > 0,
        events.last().0 == MdEventView::Start(MdTagView::Item),
    ensures
        ({
            let open = enclosing(events.drop_last());
            let was = render_steps(src, events.drop_last()).out;
            let line = if was.len() > 0 && was.last() != '\n' {
                was.push('\n')
            } else {
                was
            };
            let list = open.last();
            let ordered = open.len() > 0 && first_number(events[list].0) is Some;
            &&& ordered ==> render_steps(src, events).out == line + number::dec(
                first_number(events[list].0)->0 as nat + items_of(events, events.len() - 1, list),
            ) + ". "@
            &&& !ordered ==> render_steps(src, events).out == line + "• "@
        }),
{
    let before = events.drop_last();
    let open = enclosing(before);
    lemma_lists_agree(src, before);
    lemma_enclosing(before);
    if open.len() > 0 {
        let j = open.len() - 1;
        let lists = render_steps(src, before).lists;
        lemma_items_of_front(events, before.len() as int, open[j]);
        assert(before[open[j]] == events[open[j]]);
        assert(lists[j] == lists.last());
    }
}

/// A text with its references to characters read.
pub open spec fn unescaped(s: Seq<char>) -> Seq<char>
    decreases s.len(),
{
    if s.len() == 0 {
        s
    } else if s.len() >= 5 && s.take(5) == "&amp;"@ {
        seq!['&'] + unescaped(s.skip(5))
    } else if s.len() >= 4 && s.take(4) == "&lt;"@ {
        seq!['<'] + unescaped(s.skip(4))
    } else if s.len() >= 4 && s.take(4) == "&gt;"@ {
        seq!['>'] + unescaped(s.skip(4))
    } else if s.len() >= 6 && s.take(6) == "&quot;"@ {
        seq!['"'] + unescaped(s.skip(6))
    } else {
        seq![s[0]] + unescaped(s.drop_first())
    }
}

proof fn lemma_unescaped_char(c: char, rest: Seq<char>)
    ensures
        unescaped(escape_char(c) + rest) == seq![c] + unescaped(rest),
        unescaped(escape_attr_char(c) + rest) == seq![c] + unescaped(rest),
{
    reveal_strlit("&amp;");
    reveal_strlit("&lt;");
    reveal_strlit("&gt;");
    reveal_strlit("&quot;");
    assert("&amp;"@[0] == '&' && "&lt;"@[0] == '&' && "&gt;"@[0] == '&' && "&quot;"@[0] == '&');
    if c == '&' {
        let s = "&amp;"@ + rest;
        assert(s.take(5) =~= "&amp;"@);
        assert(s.skip(5) =~= rest);
    } else if c == '<' {
        let s = "&lt;"@ + rest;
        assert(s[1] == 'l');
        assert(s.len() >= 5 ==> s.take(5)[1] == 'l');
        assert("&amp;"@[1] == 'a');
        assert(s.take(4) =~= "&lt;"@);
        assert(s.skip(4) =~= rest);
    } else if c == '>' {
        let s = "&gt;"@ + rest;
        assert(s[1] == 'g');
        assert(s.len() >= 5 ==> s.take(5)[1] == 'g');
        assert(s.take(4)[1] == 'g');
        assert("&amp;"@[1] == 'a');
        assert("&lt;"@[1] == 'l');
        assert(s.take(4) =~= "&gt;"@);
        assert(s.skip(4) =~= rest);
    } else {
        let s = seq![c] + rest;
        assert(s[0] == c);
        assert(s.len() >= 5 ==> s.take(5)[0] == c);
        assert(s.len() >= 4 ==> s.take(4)[0] == c);
        assert(s.len() >= 6 ==> s.take(6)[0] == c);
        assert(s.drop_first() =~= rest);
        if c == '"' {
            let q = "&quot;"@ + rest;
            assert(q[1] == 'q');
            assert(q.take(5)[1] == 'q');
            assert(q.take(4)[1] == 'q');
            assert("&amp;"@[1] == 'a');
            assert("&lt;"@[1] == 'l');
            assert("&gt;"@[1] == 'g');
            assert(q.take(6) =~= "&quot;"@);
            assert(q.skip(6) =~= rest);
        }
    }
}

proof fn lemma_unescaped_front(t: Seq<char>, rest: Seq<char>)
    ensures
        unescaped(escaped(t) + rest) == t + unescaped(rest),
        unescaped(escaped_attr(t) + rest) == t + unescaped(rest),
    decreases t.len(),
{
    if t.len() == 0 {
        assert(t + rest =~= rest);
        assert(t + unescaped(rest) =~= unescaped(rest));
    } else {
        let front = t.drop_last();
        let c = t.last();
        lemma_unescaped_front(front, escape_char(c) + rest);
        lemma_unescaped_front(front, escape_attr_char(c) + rest);
        lemma_unescaped_char(c, rest);
        assert(escaped(t) + rest =~= escaped(front) + (escape_char(c) + rest));
        assert(escaped_attr(t) + rest =~= escaped_attr(front) + (escape_attr_char(c) + rest));
        assert(front + (seq![c] + unescaped(rest)) =~= t + unescaped(rest));
    }
}

/// Escaping loses nothing: the text is read back from what stands for it, in running text and in an
/// attribute, where no quote is left that could end it.
pub proof fn law_escaping_is_undone(t: Seq<char>)
    ensures
        unescaped(escaped(t)) == t,
        unescaped(escaped_attr(t)) == t,
        forall|i: int| 0 <= i < escaped_attr(t).len() ==> #[trigger] escaped_attr(t)[i] != '"',
    decreases t.len(),
{
    let none = Seq::<char>::empty();
    lemma_unescaped_front(t, none);
    assert(escaped(t) + none =~= escaped(t));
    assert(escaped_attr(t) + none =~= escaped_attr(t));
    assert(t + unescaped(none) =~= t);
    if t.len() > 0 {
        law_escaping_is_undone(t.drop_last());
        reveal_strlit("&amp;");
        reveal_strlit("&lt;");
        reveal_strlit("&gt;");
        reveal_strlit("&quot;");
    }
}

/// Whether a text opens no tag and closes none, and reads as `t`.
pub open spec fn stands_for(x: Seq<char>, t: Seq<char>) -> bool {
    &&& forall|i: int| 0 <= i < x.len() ==> #[trigger] x[i] != '<' && x[i] != '>'
    &&& unescaped(x) == t
}

/// Text, code and raw HTML show up as exactly the characters they stand for, code between its tags.
pub proof fn law_text_is_shown(src: Seq<char>, events: Seq<(MdEventView, usize, usize)>, t: Seq<char>)
    requires
        events.len() > 0,
    ensures
        ({
            let was = render_steps(src, events.drop_last()).out;
            let now = render_steps(src, events).out;
            let event = events.last().0;
            &&& event == MdEventView::Text(t) || event == MdEventView::Html(t) || event == MdEventView::InlineHtml(t)
                ==> exists|x: Seq<char>| #[trigger] stands_for(x, t) && now == was + x
            &&& event == MdEventView::Code(t) ==> exists|x: Seq<char>| #[trigger]
                stands_for(x, t) && now == was + "<code>"@ + x + "</code>"@
            &&& event is SoftBreak || event is HardBreak ==> now == was.push('\n')
            &&& event == MdEventView::TaskListMarker(true) ==> now == was + "[x] "@
            &&& event == MdEventView::TaskListMarker(false) ==> now == was + "[ ] "@
        }),
{
    law_escaping_is_undone(t);
    law_escaped_is_inert(t);
    assert(stands_for(escaped(t), t));
}

/// Each element is shown by the tags that Telegram has for it, a link with its target as the
/// attribute, and an image as a link in square brackets.
pub proof fn law_elements_are_tagged(
    src: Seq<char>,
    events: Seq<(MdEventView, usize, usize)>,
    url: Seq<char>,
)
    requires
        events.len() > 0,
    ensures
        ({
            let was = render_steps(src, events.drop_last()).out;
            let now = render_steps(src, events).out;
            let event = events.last().0;
            &&& event == MdEventView::Start(MdTagView::Emphasis) ==> now == was + "<i>"@
            &&& event == MdEventView::End(MdTagEnd::Emphasis) ==> now == was + "</i>"@
            &&& event == MdEventView::Start(MdTagView::Strong) ==> now == was + "<b>"@
            &&& event == MdEventView::End(MdTagEnd::Strong) ==> now == was + "</b>"@
            &&& event == MdEventView::Start(MdTagView::Strikethrough) ==> now == was + "<s>"@
            &&& event == MdEventView::End(MdTagEnd::Strikethrough) ==> now == was + "</s>"@
            &&& event == MdEventView::End(MdTagEnd::Heading) ==> now == was + "</b>\n"@
            &&& event == MdEventView::End(MdTagEnd::BlockQuote) ==> now == was + "</blockquote>\n"@
            &&& event == MdEventView::End(MdTagEnd::CodeBlock) ==> now == was + "</pre>\n"@
            &&& event == MdEventView::End(MdTagEnd::Paragraph) ==> now == was.push('\n')
            &&& event == MdEventView::End(MdTagEnd::List) ==> now == was
            &&& event == MdEventView::End(MdTagEnd::Link) ==> now == was + "</a>"@
            &&& event == MdEventView::End(MdTagEnd::Image) ==> now == was + "</a>]"@
            &&& event == MdEventView::Start(MdTagView::Link(url)) ==> exists|x: Seq<char>|
                unescaped(x) == url && !x.contains('"') && now == #[trigger] (was + "<a href=\""@ + x + "\">"@)
            &&& event == MdEventView::Start(MdTagView::Image(url)) ==> exists|x: Seq<char>|
                unescaped(x) == url && !x.contains('"') && now == #[trigger] (was + "[<a href=\""@ + x + "\">"@)
        }),
{
    law_escaping_is_undone(url);
    let was = render_steps(src, events.drop_last()).out;
    let x = escaped_attr(url);
    assert(!x.contains('"'));
    assert(was + "<a href=\""@ + x + "\">"@ == was + "<a href=\""@ + x + "\">"@);
    assert(was + "[<a href=\""@ + x + "\">"@ == was + "[<a href=\""@ + x + "\">"@);
}

/// Where the last content of events ends in the source.
pub open spec fn content_end_of(events: Seq<(MdEventView, usize, usize)>) -> int
    decreases events.len(),
{
    if events.len() == 0 {
        0
    } else if events.last().0 is Start || events.last().0 is End {
        content_end_of(events.drop_last())
    } else {
        events.last().2 as int
    }
}

proof fn lemma_content_end(src: Seq<char>, events: Seq<(MdEventView, usize, usize)>)
    ensures
        render_steps(src, events).content_end == content_end_of(events),
    decreases events.len(),
{
    if events.len() > 0 {
        lemma_content_end(src, events.drop_last());
    }
}

proof fn lemma_no_breaks(bytes: Seq<u8>, from: int, to: int)
    requires
        forall|i: int| from <= i < to && 0 <= i < bytes.len() ==> #[trigger] bytes[i] != 10,
    ensures
        newlines(bytes, from, to) == 0,
    decreases to - from,
{
    if to > from {
        lemma_no_breaks(bytes, from, to - 1);
    }
}

proof fn lemma_breaks_add(bytes: Seq<u8>, from: int, mid: int, to: int)
    requires
        from <= mid <= to,
    ensures
        newlines(bytes, from, to) == newlines(bytes, from, mid) + newlines(bytes, mid, to),
    decreases to - mid,
{
    if to > mid {
        lemma_breaks_add(bytes, from, mid, to - 1);
    }
}

/// A block begins on a line of its own. Where two line breaks at least stand in the source between it
/// and the last content, an empty line is left before it; where there are fewer, none is.
pub proof fn law_blocks_keep_their_distance(
    src: Seq<char>,
    events: Seq<(MdEventView, usize, usize)>,
    i: int,
    j: int,
)
    requires
        events.len() > 0,
        events.last().0 is Start || events.last().0 is Rule,
    ensures
        ({
            let bytes = encode_utf8(src);
            let was = render_steps(src, events.drop_last()).out;
            let now = render_steps(src, events).out;
            let from = content_end_of(events.drop_last());
            let to = events.last().1 as int;
            let wide = from <= i < j < to && i >= 0 && j < bytes.len() && bytes[i] == 10 && bytes[j] == 10;
            let narrow = from <= to && forall|k: int| from <= k < to && 0 <= k < bytes.len() ==> #[trigger] bytes[k] != 10;
            let line = if was.len() > 0 && was.last() != '\n' {
                was.push('\n')
            } else {
                was
            };
            let gap = if was.len() > 0 {
                line.push('\n')
            } else {
                line
            };
            let mark = match events.last().0 {
                MdEventView::Start(MdTagView::Paragraph) => Some(""@),
                MdEventView::Start(MdTagView::Heading) => Some("<b>"@),
                MdEventView::Start(MdTagView::BlockQuote) => Some("<blockquote>"@),
                MdEventView::Start(MdTagView::CodeBlock) => Some("<pre>"@),
                MdEventView::Start(MdTagView::List(_)) => Some(""@),
                MdEventView::Rule => Some("—\n"@),
                _ => None,
            };
            &&& mark matches Some(m) ==> now == line + m || now == gap + m
            &&& wide ==> (mark matches Some(m) ==> now == gap + m)
            &&& narrow ==> (mark matches Some(m) ==> now == line + m)
        }),
{
    reveal_strlit("");
    let bytes = encode_utf8(src);
    let before = events.drop_last();
    let was = render_steps(src, before).out;
    let from = content_end_of(before);
    let to = events.last().1 as int;
    lemma_content_end(src, before);
    assert(was.push('\n') + ""@ =~= was.push('\n'));
    assert(was.push('\n').push('\n') + ""@ =~= was.push('\n').push('\n'));
    assert(was + ""@ =~= was);
    if from <= i < j < to && i >= 0 && j < bytes.len() && bytes[i] == 10 && bytes[j] == 10 {
        lemma_breaks_add(bytes, from, i, to);
        lemma_breaks_add(bytes, i, i + 1, to);
        lemma_breaks_add(bytes, i + 1, j, to);
        lemma_breaks_add(bytes, j, j + 1, to);
        assert(newlines(bytes, i, i + 1) == 1) by {
            assert(newlines(bytes, i, i) == 0);
        }
        assert(newlines(bytes, j, j + 1) == 1) by {
            assert(newlines(bytes, j, j) == 0);
        }
        assert(newlines(bytes, from, to) >= 2);
    }
    if from <= to && (forall|k: int| from <= k < to && 0 <= k < bytes.len() ==> #[trigger] bytes[k] != 10) {
        lemma_no_breaks(bytes, from, to);
    }
}

/// What comes out is what the events come to, in order, without the whitespace at its ends.
pub proof fn law_rendering_is_trimmed(src: Seq<char>, events: Seq<(MdEventView, usize, usize)>)
    ensures
        exists|n: int| text::trims_to(render_steps(src, events).out, rendered(src, events), n),
        render_steps(src, Seq::empty()).out.len() == 0,
{
    let out = render_steps(src, events).out;
    text::law_trim_cuts_white_ends(out);
    let n = choose|n: int| text::trims_to(out, text::trim(out), n);
    assert(text::trims_to(out, rendered(src, events), n));
}

} // verus!
