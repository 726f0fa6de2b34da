//! The Markdown event stream: the library's own form of the events that
//! `pulldown_cmark` produces, and the trusted calls that produce them.

use vstd::prelude::*;
use pulldown_cmark::{CodeBlockKind, DefaultBrokenLinkCallback, Event, Options, Parser, Tag, TagEnd};

verus! {

/// Start of a Markdown element, as far as the renderers look at it.
#[derive(Clone, Debug, PartialEq, Eq)]
pub enum MdTag {
    Paragraph,
    /// A heading with its level (1 to 6).
    Heading(u8),
    BlockQuote,
    /// A code block: `Some(info)` for a fenced block, `None` for an indented one.
    CodeBlock(Option<String>),
    /// A list: `Some(first number)` for an ordered list.
    List(Option<u64>),
    Item,
    Table,
    TableHead,
    TableRow,
    TableCell,
    Emphasis,
    Strong,
    Strikethrough,
    Link,
    /// Any other element.
    Other,
}

/// End of a Markdown element.
#[derive(Clone, Copy, Debug, PartialEq, Eq)]
pub enum MdTagEnd {
    Paragraph,
    Heading,
    BlockQuote,
    CodeBlock,
    List,
    Item,
    Table,
    TableHead,
    TableRow,
    TableCell,
    Emphasis,
    Strong,
    Strikethrough,
    Link,
    Other,
}

/// One Markdown event.
#[derive(Clone, Debug, PartialEq, Eq)]
pub enum MdEvent {
    Start(MdTag),
    End(MdTagEnd),
    Text(String),
    Code(String),
    SoftBreak,
    HardBreak,
    Rule,
    /// Any other event (HTML, math, footnotes, task markers).
    Other,
}

pub enum TagView {
    Paragraph,
    Heading(u8),
    BlockQuote,
    CodeBlock(Option<Seq<char>>),
    List(Option<u64>),
    Item,
    Table,
    TableHead,
    TableRow,
    TableCell,
    Emphasis,
    Strong,
    Strikethrough,
    Link,
    Other,
}

pub enum EventView {
    Start(TagView),
    End(MdTagEnd),
    Text(Seq<char>),
    Code(Seq<char>),
    SoftBreak,
    HardBreak,
    Rule,
    Other,
}

impl View for MdTag {
    type V = TagView;

    open spec fn view(&self) -> TagView {
        match self {
            MdTag::Paragraph => TagView::Paragraph,
            MdTag::Heading(l) => TagView::Heading(*l),
            MdTag::BlockQuote => TagView::BlockQuote,
            MdTag::CodeBlock(info) => TagView::CodeBlock(
                match info {
                    Some(s) => Some(s@),
                    None => None,
                },
            ),
            MdTag::List(n) => TagView::List(*n),
            MdTag::Item => TagView::Item,
            MdTag::Table => TagView::Table,
            MdTag::TableHead => TagView::TableHead,
            MdTag::TableRow => TagView::TableRow,
            MdTag::TableCell => TagView::TableCell,
            MdTag::Emphasis => TagView::Emphasis,
            MdTag::Strong => TagView::Strong,
            MdTag::Strikethrough => TagView::Strikethrough,
            MdTag::Link => TagView::Link,
            MdTag::Other => TagView::Other,
        }
    }
}

impl View for MdEvent {
    type V = EventView;

    open spec fn view(&self) -> EventView {
        match self {
            MdEvent::Start(t) => EventView::Start(t@),
            MdEvent::End(e) => EventView::End(*e),
            MdEvent::Text(s) => EventView::Text(s@),
            MdEvent::Code(s) => EventView::Code(s@),
            MdEvent::SoftBreak => EventView::SoftBreak,
            MdEvent::HardBreak => EventView::HardBreak,
            MdEvent::Rule => EventView::Rule,
            MdEvent::Other => EventView::Other,
        }
    }
}

impl MdTag {
    /// A copy of the tag.
    pub fn duplicate(&self) -> (t: MdTag)
        ensures
            t@ == self@,
    {
        match self {
            MdTag::Paragraph => MdTag::Paragraph,
            MdTag::Heading(l) => MdTag::Heading(*l),
            MdTag::BlockQuote => MdTag::BlockQuote,
            MdTag::CodeBlock(info) => MdTag::CodeBlock(
                match info {
                    Some(s) => Some(s.clone()),
                    None => None,
                },
            ),
            MdTag::List(n) => MdTag::List(*n),
            MdTag::Item => MdTag::Item,
            MdTag::Table => MdTag::Table,
            MdTag::TableHead => MdTag::TableHead,
            MdTag::TableRow => MdTag::TableRow,
            MdTag::TableCell => MdTag::TableCell,
            MdTag::Emphasis => MdTag::Emphasis,
            MdTag::Strong => MdTag::Strong,
            MdTag::Strikethrough => MdTag::Strikethrough,
            MdTag::Link => MdTag::Link,
            MdTag::Other => MdTag::Other,
        }
    }
}

impl MdEvent {
    /// A copy of the event.
    pub fn duplicate(&self) -> (e: MdEvent)
        ensures
            e@ == self@,
    {
        match self {
            MdEvent::Start(t) => MdEvent::Start(t.duplicate()),
            MdEvent::End(t) => MdEvent::End(*t),
            MdEvent::Text(s) => MdEvent::Text(s.clone()),
            MdEvent::Code(s) => MdEvent::Code(s.clone()),
            MdEvent::SoftBreak => MdEvent::SoftBreak,
            MdEvent::HardBreak => MdEvent::HardBreak,
            MdEvent::Rule => MdEvent::Rule,
            MdEvent::Other => MdEvent::Other,
        }
    }
}

pub open spec fn events_view(v: Seq<MdEvent>) -> Seq<EventView> {
    v.map_values(|e: MdEvent| e@)
}

/// `pulldown_cmark`'s option bit enabling tables.
pub const ENABLE_TABLES: u32 = 2;

/// `pulldown_cmark`'s option bit enabling strikethrough.
pub const ENABLE_STRIKETHROUGH: u32 = 8;

/// The Markdown extensions the renderers read: tables and strikethrough.
pub fn parser_options() -> (o: u32)
    ensures
        o == ENABLE_TABLES | ENABLE_STRIKETHROUGH,
{
    ENABLE_TABLES | ENABLE_STRIKETHROUGH
}

#[verifier::external_type_specification]
#[verifier::external_body]
#[verifier::reject_recursive_types(F)]
pub struct ExMarkdownParser<'input, F>(Parser<'input, F>);

#[verifier::external_type_specification]
#[verifier::external_body]
pub struct ExDefaultBrokenLinkCallback(DefaultBrokenLinkCallback);

#[verifier::external_type_specification]
#[verifier::external_body]
pub struct ExMarkdownEvent<'a>(Event<'a>);

#[verifier::external_type_specification]
#[verifier::external_body]
pub struct ExMarkdownTag<'a>(Tag<'a>);

#[verifier::external_type_specification]
#[verifier::external_body]
pub struct ExMarkdownTagEnd(TagEnd);

/// The events `pulldown_cmark` produces for `text` with the option bits
/// `options`, in order.
pub uninterp spec fn markdown_events(text: Seq<char>, options: u32) -> Seq<EventView>;

/// The events a parser has yet to produce.
pub uninterp spec fn pending_events(p: Parser<'_, DefaultBrokenLinkCallback>) -> Seq<EventView>;

/// Calls `pulldown_cmark::Parser::new_ext` with the options given as bits.
/// Trusted: the parser will produce exactly the events named
/// `markdown_events(text, options)`, a function of its arguments alone.
#[verifier::external_body]
pub(crate) fn open_parser<'a>(text: &'a str, options: u32) -> (p: Parser<'a, DefaultBrokenLinkCallback>)
    ensures
        pending_events(p) == markdown_events(text@, options),
{
    Parser::new_ext(text, Options::from_bits_truncate(options))
}

/// Converts a tag of `pulldown_cmark` that carries data to the library's
/// form; the others go to `plain_tag_of`.
#[verifier::external_body]
fn tag_of(t: Tag) -> MdTag {
    match t {
        Tag::Heading { level, .. } => MdTag::Heading(level as u8),
        Tag::CodeBlock(CodeBlockKind::Fenced(info)) => MdTag::CodeBlock(Some(info.to_string())),
        Tag::CodeBlock(CodeBlockKind::Indented) => MdTag::CodeBlock(None),
        Tag::List(n) => MdTag::List(n),
        other => plain_tag_of(other),
    }
}

/// Converts a tag of `pulldown_cmark` without data to the library's form.
#[verifier::external_body]
fn plain_tag_of(t: Tag) -> MdTag {
    match t {
        Tag::Paragraph => MdTag::Paragraph,
        Tag::BlockQuote(_) => MdTag::BlockQuote,
        Tag::Item => MdTag::Item,
        Tag::Table(_) => MdTag::Table,
        Tag::TableHead => MdTag::TableHead,
        Tag::TableRow => MdTag::TableRow,
        Tag::TableCell => MdTag::TableCell,
        Tag::Emphasis => MdTag::Emphasis,
        Tag::Strong => MdTag::Strong,
        Tag::Strikethrough => MdTag::Strikethrough,
        Tag::Link { .. } => MdTag::Link,
        _ => MdTag::Other,
    }
}

/// Converts the end of a block element of `pulldown_cmark` to the library's
/// form; the others go to `inline_tag_end_of`.
#[verifier::external_body]
fn tag_end_of(t: TagEnd) -> MdTagEnd {
    match t {
        TagEnd::Paragraph => MdTagEnd::Paragraph,
        TagEnd::Heading(_) => MdTagEnd::Heading,
        TagEnd::BlockQuote(_) => MdTagEnd::BlockQuote,
        TagEnd::CodeBlock => MdTagEnd::CodeBlock,
        TagEnd::List(_) => MdTagEnd::List,
        TagEnd::Item => MdTagEnd::Item,
        TagEnd::Table => MdTagEnd::Table,
        TagEnd::TableHead => MdTagEnd::TableHead,
        TagEnd::TableRow => MdTagEnd::TableRow,
        TagEnd::TableCell => MdTagEnd::TableCell,
        other => inline_tag_end_of(other),
    }
}

/// Converts the end of an inline element of `pulldown_cmark` to the
/// library's form.
#[verifier::external_body]
fn inline_tag_end_of(t: TagEnd) -> MdTagEnd {
    match t {
        TagEnd::Emphasis => MdTagEnd::Emphasis,
        TagEnd::Strong => MdTagEnd::Strong,
        TagEnd::Strikethrough => MdTagEnd::Strikethrough,
        TagEnd::Link => MdTagEnd::Link,
        _ => MdTagEnd::Other,
    }
}

/// Converts an event of `pulldown_cmark` to the library's form.
#[verifier::external_body]
fn event_of(e: Event) -> MdEvent {
    match e {
        Event::Start(t) => MdEvent::Start(tag_of(t)),
        Event::End(t) => MdEvent::End(tag_end_of(t)),
        Event::Text(s) => MdEvent::Text(s.to_string()),
        Event::Code(s) => MdEvent::Code(s.to_string()),
        Event::SoftBreak => MdEvent::SoftBreak,
        Event::HardBreak => MdEvent::HardBreak,
        Event::Rule => MdEvent::Rule,
        _ => MdEvent::Other,
    }
}

/// Calls `Iterator::next` on a `pulldown_cmark::Parser`. Trusted: it hands
/// out the first pending event and drops it from the pending ones, or
/// `None` when none is pending.
#[verifier::external_body]
pub(crate) fn next_event(p: &mut Parser<'_, DefaultBrokenLinkCallback>) -> (e: Option<MdEvent>)
    ensures
        pending_events(*old(p)).len() == 0 ==> e is None && pending_events(*final(p))
            == pending_events(*old(p)),
        pending_events(*old(p)).len() > 0 ==> (e matches Some(ev) && ev@ == pending_events(
            *old(p),
        )[0] && pending_events(*final(p)) == pending_events(*old(p)).drop_first()),
{
    match p.next() {
        Some(ev) => Some(event_of(ev)),
        None => None,
    }
}

/// All the events `pulldown_cmark` produces for `text` with the option bits
/// `options`, in order.
pub fn markdown_event_list(text: &str, options: u32) -> (evs: Vec<MdEvent>)
    ensures
        events_view(evs@) == markdown_events(text@, options),
{
    let ghost all = markdown_events(text@, options);
    let mut p = open_parser(text, options);
    let mut evs: Vec<MdEvent> = Vec::new();
    loop
        invariant
            all == markdown_events(text@, options),
            events_view(evs@) + pending_events(p) == all,
        decreases pending_events(p).len(),
    {
        let ghost pend = pending_events(p);
        match next_event(&mut p) {
            Some(ev) => {
                let ghost before = evs@;
                evs.push(ev);
                assert(events_view(evs@) =~= events_view(before).push(pend[0]));
                assert(events_view(evs@) + pending_events(p) =~= events_view(before) + pend);
            },
            None => {
                assert(pend.len() == 0);
                assert(events_view(evs@) + pend =~= events_view(evs@));
                return evs;
            },
        }
    }
}

} // verus!
