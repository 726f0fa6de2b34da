//! Markdown to blocks: a document becomes a list of text blocks (runs of
//! styled spans), code blocks, tables, blank separators and rules.

use vstd::prelude::*;
use crate::events::{
    events_view, markdown_events, next_event, open_parser, parser_options, pending_events, EventView,
    MdEvent, MdTag, MdTagEnd, TagView, ENABLE_STRIKETHROUGH, ENABLE_TABLES,
};
use crate::text::{decimal, push_char, push_decimal, push_str, repeat};

verus! {

/// Inline attributes in force for a span.
#[derive(Clone, Copy, Debug, Default, PartialEq, Eq)]
pub struct InlineStyle {
    pub bold: bool,
    pub italic: bool,
    pub strikethrough: bool,
    pub link: bool,
    pub code: bool,
    pub blockquote: bool,
}

/// A run of text with one style.
#[derive(Clone, Debug)]
pub struct InlineSpan {
    pub text: String,
    pub style: InlineStyle,
}

/// Block-level attributes of a text block.
#[derive(Clone, Copy, Debug, Default, PartialEq, Eq)]
pub struct BlockStyle {
    pub heading_level: Option<u8>,
}

/// One block of the parsed document.
#[derive(Clone, Debug)]
pub enum ParsedBlock {
    Text { spans: Vec<InlineSpan>, style: BlockStyle },
    CodeBlock { lang: String, content: String },
    Table { rows: Vec<Vec<Vec<InlineSpan>>> },
    Empty,
    Rule,
}

/// A span as text and style.
pub struct SpanView {
    pub text: Seq<char>,
    pub style: InlineStyle,
}

/// A block with its text as character sequences.
pub enum BlockView {
    Text { spans: Seq<SpanView>, style: BlockStyle },
    CodeBlock { lang: Seq<char>, content: Seq<char> },
    Table { rows: Seq<Seq<Seq<SpanView>>> },
    Empty,
    Rule,
}

impl View for InlineSpan {
    type V = SpanView;

    open spec fn view(&self) -> SpanView {
        SpanView { text: self.text@, style: self.style }
    }
}

pub open spec fn spans_view(v: Seq<InlineSpan>) -> Seq<SpanView> {
    v.map_values(|s: InlineSpan| s@)
}

pub open spec fn row_view(v: Seq<Vec<InlineSpan>>) -> Seq<Seq<SpanView>> {
    v.map_values(|c: Vec<InlineSpan>| spans_view(c@))
}

pub open spec fn rows_view(v: Seq<Vec<Vec<InlineSpan>>>) -> Seq<Seq<Seq<SpanView>>> {
    v.map_values(|r: Vec<Vec<InlineSpan>>| row_view(r@))
}

impl View for ParsedBlock {
    type V = BlockView;

    open spec fn view(&self) -> BlockView {
        match self {
            ParsedBlock::Text { spans, style } => BlockView::Text {
                spans: spans_view(spans@),
                style: *style,
            },
            ParsedBlock::CodeBlock { lang, content } => BlockView::CodeBlock {
                lang: lang@,
                content: content@,
            },
            ParsedBlock::Table { rows } => BlockView::Table { rows: rows_view(rows@) },
            ParsedBlock::Empty => BlockView::Empty,
            ParsedBlock::Rule => BlockView::Rule,
        }
    }
}

pub open spec fn blocks_view(v: Seq<ParsedBlock>) -> Seq<BlockView> {
    v.map_values(|b: ParsedBlock| b@)
}

} // verus!

verus! {

/// Nesting depths of the inline elements open at a point of the document.
#[derive(Clone, Copy, Debug, Default, PartialEq, Eq)]
pub struct InlineState {
    pub bold: usize,
    pub italic: usize,
    pub strikethrough: usize,
    pub link: usize,
    pub blockquote: usize,
}

/// The style of text at a point: an attribute is on when its element is open.
pub open spec fn style_of(s: InlineState) -> InlineStyle {
    InlineStyle {
        bold: s.bold > 0,
        italic: s.italic > 0,
        strikethrough: s.strikethrough > 0,
        link: s.link > 0,
        blockquote: s.blockquote > 0,
        code: false,
    }
}

impl InlineState {
    /// The style of text at this point (see `style_of`).
    pub fn current_style(&self) -> (s: InlineStyle)
        ensures
            s == style_of(*self),
    {
        InlineStyle {
            bold: self.bold > 0,
            italic: self.italic > 0,
            strikethrough: self.strikethrough > 0,
            link: self.link > 0,
            blockquote: self.blockquote > 0,
            code: false,
        }
    }
}

/// An open list: bulleted, or numbered with the number of its next item.
#[derive(Clone, Copy, Debug, PartialEq, Eq)]
pub enum ListKind {
    Unordered,
    Ordered(u64),
}

/// Everything the parser keeps while it reads events.
pub struct ParseState {
    pub blocks: Vec<ParsedBlock>,
    pub in_code_block: bool,
    pub code_lang: String,
    pub code_content: String,
    pub in_table: bool,
    pub table_rows: Vec<Vec<Vec<InlineSpan>>>,
    pub current_row: Vec<Vec<InlineSpan>>,
    pub current_spans: Vec<InlineSpan>,
    pub block_style: BlockStyle,
    pub inline_state: InlineState,
    pub list_stack: Vec<ListKind>,
}

#[verifier::ext_equal]
pub struct ParseView {
    pub blocks: Seq<BlockView>,
    pub in_code_block: bool,
    pub code_lang: Seq<char>,
    pub code_content: Seq<char>,
    pub in_table: bool,
    pub table_rows: Seq<Seq<Seq<SpanView>>>,
    pub current_row: Seq<Seq<SpanView>>,
    pub current_spans: Seq<SpanView>,
    pub block_style: BlockStyle,
    pub inline_state: InlineState,
    pub list_stack: Seq<ListKind>,
}

impl View for ParseState {
    type V = ParseView;

    open spec fn view(&self) -> ParseView {
        ParseView {
            blocks: blocks_view(self.blocks@),
            in_code_block: self.in_code_block,
            code_lang: self.code_lang@,
            code_content: self.code_content@,
            in_table: self.in_table,
            table_rows: rows_view(self.table_rows@),
            current_row: row_view(self.current_row@),
            current_spans: spans_view(self.current_spans@),
            block_style: self.block_style,
            inline_state: self.inline_state,
            list_stack: self.list_stack@,
        }
    }
}

/// The state before the first event.
pub open spec fn initial_parse() -> ParseView {
    ParseView {
        blocks: seq![],
        in_code_block: false,
        code_lang: seq![],
        code_content: seq![],
        in_table: false,
        table_rows: seq![],
        current_row: seq![],
        current_spans: seq![],
        block_style: BlockStyle { heading_level: None },
        inline_state: InlineState { bold: 0, italic: 0, strikethrough: 0, link: 0, blockquote: 0 },
        list_stack: seq![],
    }
}

/// Closes the pending spans into a text block with the current block style;
/// nothing happens when no span is pending.
pub open spec fn flush_spans(st: ParseView) -> ParseView {
    if st.current_spans.len() == 0 {
        st
    } else {
        ParseView {
            blocks: st.blocks.push(
                BlockView::Text { spans: st.current_spans, style: st.block_style },
            ),
            current_spans: seq![],
            ..st
        }
    }
}

pub open spec fn add_span(st: ParseView, text: Seq<char>, style: InlineStyle) -> ParseView {
    ParseView { current_spans: st.current_spans.push(SpanView { text, style }), ..st }
}

pub open spec fn sat_inc(n: usize) -> usize {
    if n < usize::MAX {
        (n + 1) as usize
    } else {
        n
    }
}

pub open spec fn sat_dec(n: usize) -> usize {
    if n > 0 {
        (n - 1) as usize
    } else {
        0
    }
}

/// The marker of a new list item: two spaces per enclosing list, then the
/// item's number and a dot, or a bullet.
pub open spec fn item_marker(lists: Seq<ListKind>) -> Seq<char> {
    let indent = repeat(' ', (2 * (lists.len() - 1)) as nat);
    match lists.last() {
        ListKind::Ordered(n) => indent + decimal(n as nat) + seq!['.', ' '],
        ListKind::Unordered => indent + seq!['•', ' '],
    }
}

/// The parser's response to the start of an element.
pub open spec fn start_step(st: ParseView, tag: TagView) -> ParseView {
    let is = st.inline_state;
    match tag {
        TagView::CodeBlock(info) => ParseView {
            in_code_block: true,
            code_lang: match info {
                Some(l) => l,
                None => seq![],
            },
            code_content: seq![],
            ..flush_spans(st)
        },
        TagView::Table => ParseView { in_table: true, table_rows: seq![], ..flush_spans(st) },
        TagView::TableHead => ParseView { current_row: seq![], ..st },
        TagView::TableRow => ParseView { current_row: seq![], ..st },
        TagView::List(start) => ParseView {
            list_stack: st.list_stack.push(
                match start {
                    Some(n) => ListKind::Ordered(n),
                    None => ListKind::Unordered,
                },
            ),
            ..st
        },
        TagView::Item => if st.list_stack.len() == 0 {
            st
        } else {
            let marked = add_span(st, item_marker(st.list_stack), style_of(is));
            match st.list_stack.last() {
                ListKind::Ordered(n) => ParseView {
                    list_stack: st.list_stack.update(
                        st.list_stack.len() - 1,
                        ListKind::Ordered(
                            if n < u64::MAX {
                                (n + 1) as u64
                            } else {
                                n
                            },
                        ),
                    ),
                    ..marked
                },
                ListKind::Unordered => marked,
            }
        },
        TagView::Heading(l) => ParseView {
            block_style: BlockStyle { heading_level: Some(l) },
            ..flush_spans(st)
        },
        TagView::Strong => ParseView {
            inline_state: InlineState { bold: sat_inc(is.bold), ..is },
            ..st
        },
        TagView::Emphasis => ParseView {
            inline_state: InlineState { italic: sat_inc(is.italic), ..is },
            ..st
        },
        TagView::Strikethrough => ParseView {
            inline_state: InlineState { strikethrough: sat_inc(is.strikethrough), ..is },
            ..st
        },
        TagView::Link => ParseView {
            inline_state: InlineState { link: sat_inc(is.link), ..is },
            ..st
        },
        TagView::BlockQuote => {
            let is2 = InlineState { blockquote: sat_inc(is.blockquote), ..is };
            add_span(ParseView { inline_state: is2, ..st }, seq!['>', ' '], style_of(is2))
        },
        _ => st,
    }
}

/// The parser's response to the end of an element.
pub open spec fn end_step(st: ParseView, tag: MdTagEnd) -> ParseView {
    let is = st.inline_state;
    match tag {
        MdTagEnd::CodeBlock => ParseView {
            in_code_block: false,
            blocks: st.blocks.push(
                BlockView::CodeBlock { lang: st.code_lang, content: st.code_content },
            ),
            code_content: seq![],
            code_lang: seq![],
            ..st
        },
        MdTagEnd::Table => {
            let rows = if st.current_row.len() > 0 {
                st.table_rows.push(st.current_row)
            } else {
                st.table_rows
            };
            ParseView {
                in_table: false,
                current_row: seq![],
                blocks: st.blocks.push(BlockView::Table { rows }),
                table_rows: seq![],
                ..st
            }
        },
        MdTagEnd::TableHead => if st.current_row.len() > 0 {
            ParseView {
                table_rows: st.table_rows.push(st.current_row),
                current_row: seq![],
                ..st
            }
        } else {
            st
        },
        MdTagEnd::TableRow => ParseView {
            table_rows: st.table_rows.push(st.current_row),
            current_row: seq![],
            ..st
        },
        MdTagEnd::TableCell => ParseView {
            current_row: st.current_row.push(st.current_spans),
            current_spans: seq![],
            ..st
        },
        MdTagEnd::List => ParseView {
            list_stack: if st.list_stack.len() > 0 {
                st.list_stack.drop_last()
            } else {
                st.list_stack
            },
            ..st
        },
        MdTagEnd::Item => flush_spans(st),
        MdTagEnd::Heading => ParseView {
            block_style: BlockStyle { heading_level: None },
            ..flush_spans(st)
        },
        MdTagEnd::Paragraph => {
            let f = flush_spans(st);
            ParseView { blocks: f.blocks.push(BlockView::Empty), ..f }
        },
        MdTagEnd::Strong => ParseView {
            inline_state: InlineState { bold: sat_dec(is.bold), ..is },
            ..st
        },
        MdTagEnd::Emphasis => ParseView {
            inline_state: InlineState { italic: sat_dec(is.italic), ..is },
            ..st
        },
        MdTagEnd::Strikethrough => ParseView {
            inline_state: InlineState { strikethrough: sat_dec(is.strikethrough), ..is },
            ..st
        },
        MdTagEnd::Link => ParseView {
            inline_state: InlineState { link: sat_dec(is.link), ..is },
            ..st
        },
        MdTagEnd::BlockQuote => ParseView {
            inline_state: InlineState { blockquote: sat_dec(is.blockquote), ..is },
            ..st
        },
        _ => st,
    }
}

/// The parser's response to one event.
pub open spec fn parse_step(st: ParseView, ev: EventView) -> ParseView {
    match ev {
        EventView::Start(tag) => start_step(st, tag),
        EventView::End(tag) => end_step(st, tag),
        EventView::Text(t) => if st.in_code_block {
            ParseView { code_content: st.code_content + t, ..st }
        } else {
            add_span(st, t, style_of(st.inline_state))
        },
        EventView::Code(c) => add_span(st, c, InlineStyle { code: true, ..style_of(st.inline_state) }),
        EventView::SoftBreak => add_span(st, seq![' '], style_of(st.inline_state)),
        EventView::HardBreak => if st.in_table {
            add_span(st, seq![' '], style_of(st.inline_state))
        } else {
            flush_spans(st)
        },
        EventView::Rule => ParseView { blocks: st.blocks.push(BlockView::Rule), ..st },
        EventView::Other => st,
    }
}

/// The state after reading `events` from `st`.
pub open spec fn parse_from(st: ParseView, events: Seq<EventView>) -> ParseView
    decreases events.len(),
{
    if events.len() == 0 {
        st
    } else {
        parse_from(parse_step(st, events[0]), events.drop_first())
    }
}

/// The blocks of a document given as its event stream.
pub open spec fn blocks_of_events(events: Seq<EventView>) -> Seq<BlockView> {
    flush_spans(parse_from(initial_parse(), events)).blocks
}

} // verus!

verus! {

/// The parser of Markdown documents.
pub struct MarkdownParser;

proof fn lemma_spans_push(v: Seq<InlineSpan>, s: InlineSpan)
    ensures
        spans_view(v.push(s)) == spans_view(v).push(s@),
{
    assert(spans_view(v.push(s)) =~= spans_view(v).push(s@));
}

proof fn lemma_blocks_push(v: Seq<ParsedBlock>, b: ParsedBlock)
    ensures
        blocks_view(v.push(b)) == blocks_view(v).push(b@),
{
    assert(blocks_view(v.push(b)) =~= blocks_view(v).push(b@));
}

proof fn lemma_row_push(v: Seq<Vec<InlineSpan>>, c: Vec<InlineSpan>)
    ensures
        row_view(v.push(c)) == row_view(v).push(spans_view(c@)),
{
    assert(row_view(v.push(c)) =~= row_view(v).push(spans_view(c@)));
}

proof fn lemma_rows_push(v: Seq<Vec<Vec<InlineSpan>>>, r: Vec<Vec<InlineSpan>>)
    ensures
        rows_view(v.push(r)) == rows_view(v).push(row_view(r@)),
{
    assert(rows_view(v.push(r)) =~= rows_view(v).push(row_view(r@)));
}

impl MarkdownParser {
    pub fn new() -> (p: MarkdownParser) {
        MarkdownParser
    }

    /// The Markdown extensions read: tables and strikethrough.
    pub fn parser_options() -> (o: u32)
        ensures
            o == ENABLE_TABLES | ENABLE_STRIKETHROUGH,
    {
        parser_options()
    }

    /// Moves the pending spans into a text block of the given style; does
    /// nothing when no span is pending.
    pub fn push_text_block(blocks: &mut Vec<ParsedBlock>, spans: &mut Vec<InlineSpan>, style: &BlockStyle)
        ensures
            old(spans)@.len() == 0 ==> final(blocks)@ == old(blocks)@ && final(spans)@ == old(spans)@,
            old(spans)@.len() > 0 ==> final(spans)@.len() == 0 && blocks_view(final(blocks)@)
                == blocks_view(old(blocks)@).push(
                BlockView::Text { spans: spans_view(old(spans)@), style: *style },
            ),
    {
        if spans.len() == 0 {
            return;
        }
        let mut taken: Vec<InlineSpan> = Vec::new();
        std::mem::swap(&mut taken, spans);
        let b = ParsedBlock::Text { spans: taken, style: *style };
        proof {
            lemma_blocks_push(blocks@, b);
        }
        blocks.push(b);
    }
}

impl ParseState {
    pub fn new() -> (st: ParseState)
        ensures
            st@ == initial_parse(),
    {
        let st = ParseState {
            blocks: Vec::new(),
            in_code_block: false,
            code_lang: String::new(),
            code_content: String::new(),
            in_table: false,
            table_rows: Vec::new(),
            current_row: Vec::new(),
            current_spans: Vec::new(),
            block_style: BlockStyle { heading_level: None },
            inline_state: InlineState { bold: 0, italic: 0, strikethrough: 0, link: 0, blockquote: 0 },
            list_stack: Vec::new(),
        };
        assert(st@ =~= initial_parse());
        st
    }

    fn flush(&mut self)
        ensures
            final(self)@ == flush_spans(old(self)@),
    {
        MarkdownParser::push_text_block(&mut self.blocks, &mut self.current_spans, &self.block_style);
        assert(self@ =~= flush_spans(old(self)@));
    }

    fn add_span(&mut self, text: String, style: InlineStyle)
        ensures
            final(self)@ == add_span(old(self)@, text@, style),
    {
        let sp = InlineSpan { text, style };
        proof {
            lemma_spans_push(self.current_spans@, sp);
        }
        self.current_spans.push(sp);
        assert(self@ =~= add_span(old(self)@, text@, style));
    }

    fn push_block(&mut self, b: ParsedBlock)
        ensures
            final(self)@ == (ParseView { blocks: old(self)@.blocks.push(b@), ..old(self)@ }),
    {
        proof {
            lemma_blocks_push(self.blocks@, b);
        }
        self.blocks.push(b);
        assert(self@ =~= ParseView { blocks: old(self)@.blocks.push(b@), ..old(self)@ });
    }
}

} // verus!

verus! {

fn sat_inc_exec(n: usize) -> (r: usize)
    ensures
        r == sat_inc(n),
{
    n.saturating_add(1)
}

fn sat_dec_exec(n: usize) -> (r: usize)
    ensures
        r == sat_dec(n),
{
    n.saturating_sub(1)
}

pub(crate) fn item_marker_string(lists: &Vec<ListKind>) -> (s: String)
    requires
        lists@.len() > 0,
    ensures
        s@ == item_marker(lists@),
{
    let mut s = String::new();
    let depth = lists.len() - 1;
    let mut k: usize = 0;
    while k < depth
        invariant
            k <= depth,
            depth == lists@.len() - 1,
            s@ == repeat(' ', (2 * k) as nat),
        decreases depth - k,
    {
        push_char(&mut s, ' ');
        push_char(&mut s, ' ');
        k += 1;
        assert(s@ =~= repeat(' ', (2 * k) as nat));
    }
    let ghost indent = s@;
    match lists[lists.len() - 1] {
        ListKind::Ordered(n) => {
            push_decimal(&mut s, n as u128);
            push_char(&mut s, '.');
            push_char(&mut s, ' ');
            assert(s@ =~= indent + decimal(n as nat) + seq!['.', ' ']);
        },
        ListKind::Unordered => {
            push_char(&mut s, '•');
            push_char(&mut s, ' ');
            assert(s@ =~= indent + seq!['•', ' ']);
        },
    }
    s
}

impl ParseState {
    fn start(&mut self, tag: MdTag)
        ensures
            final(self)@ =~= start_step(old(self)@, tag@),
    {
        match tag {
            MdTag::CodeBlock(info) => {
                self.flush();
                self.in_code_block = true;
                self.code_lang = match info {
                    Some(l) => l,
                    None => String::new(),
                };
                self.code_content = String::new();
            },
            MdTag::Table => {
                self.flush();
                self.in_table = true;
                self.table_rows = Vec::new();
                assert(rows_view(self.table_rows@) =~= Seq::<Seq<Seq<SpanView>>>::empty());
            },
            MdTag::TableHead => {
                self.current_row = Vec::new();
                assert(row_view(self.current_row@) =~= Seq::<Seq<SpanView>>::empty());
            },
            MdTag::TableRow => {
                self.current_row = Vec::new();
                assert(row_view(self.current_row@) =~= Seq::<Seq<SpanView>>::empty());
            },
            MdTag::List(start) => {
                let kind = match start {
                    Some(n) => ListKind::Ordered(n),
                    None => ListKind::Unordered,
                };
                self.list_stack.push(kind);
            },
            MdTag::Item => {
                if self.list_stack.len() > 0 {
                    let marker = item_marker_string(&self.list_stack);
                    let style = self.inline_state.current_style();
                    self.add_span(marker, style);
                    let last = self.list_stack.len() - 1;
                    match self.list_stack[last] {
                        ListKind::Ordered(n) => {
                            self.list_stack.set(last, ListKind::Ordered(n.saturating_add(1)));
                        },
                        ListKind::Unordered => {},
                    }
                }
            },
            MdTag::Heading(l) => {
                self.flush();
                self.block_style = BlockStyle { heading_level: Some(l) };
            },
            MdTag::Strong => {
                self.inline_state.bold = sat_inc_exec(self.inline_state.bold);
            },
            MdTag::Emphasis => {
                self.inline_state.italic = sat_inc_exec(self.inline_state.italic);
            },
            MdTag::Strikethrough => {
                self.inline_state.strikethrough = sat_inc_exec(self.inline_state.strikethrough);
            },
            MdTag::Link => {
                self.inline_state.link = sat_inc_exec(self.inline_state.link);
            },
            MdTag::BlockQuote => {
                self.inline_state.blockquote = sat_inc_exec(self.inline_state.blockquote);
                let style = self.inline_state.current_style();
                let mut q = String::new();
                push_char(&mut q, '>');
                push_char(&mut q, ' ');
                assert(q@ =~= seq!['>', ' ']);
                self.add_span(q, style);
            },
            _ => {},
        }
    }
}

} // verus!

verus! {

impl ParseState {
    fn end(&mut self, tag: MdTagEnd)
        ensures
            final(self)@ =~= end_step(old(self)@, tag),
    {
        match tag {
            MdTagEnd::CodeBlock => {
                self.in_code_block = false;
                let mut lang = String::new();
                let mut content = String::new();
                std::mem::swap(&mut lang, &mut self.code_lang);
                std::mem::swap(&mut content, &mut self.code_content);
                self.push_block(ParsedBlock::CodeBlock { lang, content });
            },
            MdTagEnd::Table => {
                self.in_table = false;
                if self.current_row.len() > 0 {
                    let mut row: Vec<Vec<InlineSpan>> = Vec::new();
                    std::mem::swap(&mut row, &mut self.current_row);
                    proof {
                        lemma_rows_push(self.table_rows@, row);
                    }
                    self.table_rows.push(row);
                }
                self.current_row = Vec::new();
                assert(row_view(self.current_row@) =~= Seq::<Seq<SpanView>>::empty());
                let mut rows: Vec<Vec<Vec<InlineSpan>>> = Vec::new();
                std::mem::swap(&mut rows, &mut self.table_rows);
                assert(rows_view(self.table_rows@) =~= Seq::<Seq<Seq<SpanView>>>::empty());
                self.push_block(ParsedBlock::Table { rows });
            },
            MdTagEnd::TableHead => {
                if self.current_row.len() > 0 {
                    let mut row: Vec<Vec<InlineSpan>> = Vec::new();
                    std::mem::swap(&mut row, &mut self.current_row);
                    proof {
                        lemma_rows_push(self.table_rows@, row);
                    }
                    self.table_rows.push(row);
                    assert(row_view(self.current_row@) =~= Seq::<Seq<SpanView>>::empty());
                }
            },
            MdTagEnd::TableRow => {
                let mut row: Vec<Vec<InlineSpan>> = Vec::new();
                std::mem::swap(&mut row, &mut self.current_row);
                proof {
                    lemma_rows_push(self.table_rows@, row);
                }
                self.table_rows.push(row);
                assert(row_view(self.current_row@) =~= Seq::<Seq<SpanView>>::empty());
            },
            MdTagEnd::TableCell => {
                let mut cell: Vec<InlineSpan> = Vec::new();
                std::mem::swap(&mut cell, &mut self.current_spans);
                proof {
                    lemma_row_push(self.current_row@, cell);
                }
                self.current_row.push(cell);
                assert(spans_view(self.current_spans@) =~= Seq::<SpanView>::empty());
            },
            MdTagEnd::List => {
                if self.list_stack.len() > 0 {
                    self.list_stack.pop();
                    assert(self.list_stack@ =~= old(self)@.list_stack.drop_last());
                }
            },
            MdTagEnd::Item => {
                self.flush();
            },
            MdTagEnd::Heading => {
                self.flush();
                self.block_style = BlockStyle { heading_level: None };
            },
            MdTagEnd::Paragraph => {
                self.flush();
                self.push_block(ParsedBlock::Empty);
            },
            MdTagEnd::Strong => {
                self.inline_state.bold = sat_dec_exec(self.inline_state.bold);
            },
            MdTagEnd::Emphasis => {
                self.inline_state.italic = sat_dec_exec(self.inline_state.italic);
            },
            MdTagEnd::Strikethrough => {
                self.inline_state.strikethrough = sat_dec_exec(self.inline_state.strikethrough);
            },
            MdTagEnd::Link => {
                self.inline_state.link = sat_dec_exec(self.inline_state.link);
            },
            MdTagEnd::BlockQuote => {
                self.inline_state.blockquote = sat_dec_exec(self.inline_state.blockquote);
            },
            MdTagEnd::Other => {},
        }
    }

    /// Reads one event.
    pub fn step(&mut self, ev: MdEvent)
        ensures
            final(self)@ =~= parse_step(old(self)@, ev@),
    {
        match ev {
            MdEvent::Start(tag) => self.start(tag),
            MdEvent::End(tag) => self.end(tag),
            MdEvent::Text(t) => {
                if self.in_code_block {
                    push_str(&mut self.code_content, t.as_str());
                } else {
                    let style = self.inline_state.current_style();
                    self.add_span(t, style);
                }
            },
            MdEvent::Code(c) => {
                let base = self.inline_state.current_style();
                let style = InlineStyle { code: true, ..base };
                self.add_span(c, style);
            },
            MdEvent::SoftBreak => {
                let style = self.inline_state.current_style();
                let mut sp = String::new();
                push_char(&mut sp, ' ');
                assert(sp@ =~= seq![' ']);
                self.add_span(sp, style);
            },
            MdEvent::HardBreak => {
                if self.in_table {
                    let style = self.inline_state.current_style();
                    let mut sp = String::new();
                    push_char(&mut sp, ' ');
                    assert(sp@ =~= seq![' ']);
                    self.add_span(sp, style);
                } else {
                    self.flush();
                }
            },
            MdEvent::Rule => self.push_block(ParsedBlock::Rule),
            MdEvent::Other => {},
        }
    }

    /// The blocks read so far, with the pending spans closed into a last block.
    pub fn finish(self) -> (blocks: Vec<ParsedBlock>)
        ensures
            blocks_view(blocks@) == flush_spans(self@).blocks,
    {
        let mut st = self;
        st.flush();
        st.blocks
    }
}

impl MarkdownParser {
    /// The blocks of a document given as its event stream.
    pub fn parse_events(&self, events: &[MdEvent]) -> (blocks: Vec<ParsedBlock>)
        ensures
            blocks_view(blocks@) == blocks_of_events(events_view(events@)),
    {
        let ghost evs = events_view(events@);
        let mut st = ParseState::new();
        let mut i: usize = 0;
        assert(evs.skip(0) =~= evs);
        while i < events.len()
            invariant
                i <= events@.len(),
                evs == events_view(events@),
                parse_from(st@, evs.skip(i as int)) == parse_from(initial_parse(), evs),
            decreases events.len() - i,
        {
            st.step(events[i].duplicate());
            assert(evs.skip(i as int).drop_first() =~= evs.skip(i + 1));
            assert(evs.skip(i as int)[0] == events@[i as int]@);
            i += 1;
        }
        assert(evs.skip(i as int) =~= Seq::<EventView>::empty());
        st.finish()
    }

    /// Parses a Markdown document into blocks, reading the events
    /// `pulldown_cmark` produces for it with tables and strikethrough enabled.
    pub fn parse(&self, text: &str) -> (blocks: Vec<ParsedBlock>)
        ensures
            blocks_view(blocks@) == blocks_of_events(
                markdown_events(text@, ENABLE_TABLES | ENABLE_STRIKETHROUGH),
            ),
    {
        let ghost evs = markdown_events(text@, ENABLE_TABLES | ENABLE_STRIKETHROUGH);
        let mut st = ParseState::new();
        let mut p = open_parser(text, MarkdownParser::parser_options());
        let mut done = false;
        while !done
            invariant
                !done ==> parse_from(st@, pending_events(p)) == parse_from(initial_parse(), evs),
                done ==> st@ == parse_from(initial_parse(), evs),
            decreases pending_events(p).len() + (if done {
                0int
            } else {
                1int
            }),
        {
            match next_event(&mut p) {
                Some(ev) => {
                    st.step(ev);
                },
                None => {
                    done = true;
                },
            }
        }
        st.finish()
    }
}

} // verus!

verus! {

/// Every text block among `bs` has at least one span.
pub open spec fn text_blocks_nonempty(bs: Seq<BlockView>) -> bool {
    forall|i: int| 0 <= i < bs.len() ==> (#[trigger] bs[i] matches BlockView::Text { spans, .. } ==> spans.len() > 0)
}

proof fn lemma_flush_keeps(st: ParseView)
    requires
        text_blocks_nonempty(st.blocks),
    ensures
        text_blocks_nonempty(flush_spans(st).blocks),
{
    let f = flush_spans(st);
    assert forall|i: int| 0 <= i < f.blocks.len() implies (#[trigger] f.blocks[i] matches BlockView::Text {
        spans,
        ..
    } ==> spans.len() > 0) by {
        if i < st.blocks.len() {
            assert(f.blocks[i] == st.blocks[i]);
        }
    }
}

proof fn lemma_push_keeps(bs: Seq<BlockView>, b: BlockView)
    requires
        text_blocks_nonempty(bs),
        b matches BlockView::Text { spans, .. } ==> spans.len() > 0,
    ensures
        text_blocks_nonempty(bs.push(b)),
{
    assert forall|i: int| 0 <= i < bs.push(b).len() implies (#[trigger] bs.push(b)[i] matches BlockView::Text {
        spans,
        ..
    } ==> spans.len() > 0) by {
        if i < bs.len() {
            assert(bs.push(b)[i] == bs[i]);
        }
    }
}

proof fn lemma_parse_step_keeps(st: ParseView, ev: EventView)
    requires
        text_blocks_nonempty(st.blocks),
    ensures
        text_blocks_nonempty(parse_step(st, ev).blocks),
{
    lemma_flush_keeps(st);
    let f = flush_spans(st);
    match ev {
        EventView::End(tag) => {
            lemma_push_keeps(st.blocks, BlockView::CodeBlock { lang: st.code_lang, content: st.code_content });
            let rows = if st.current_row.len() > 0 {
                st.table_rows.push(st.current_row)
            } else {
                st.table_rows
            };
            lemma_push_keeps(st.blocks, BlockView::Table { rows });
            lemma_push_keeps(f.blocks, BlockView::Empty);
        },
        EventView::Rule => {
            lemma_push_keeps(st.blocks, BlockView::Rule);
        },
        _ => {},
    }
}

proof fn lemma_parse_from_keeps(st: ParseView, evs: Seq<EventView>)
    requires
        text_blocks_nonempty(st.blocks),
    ensures
        text_blocks_nonempty(parse_from(st, evs).blocks),
    decreases evs.len(),
{
    if evs.len() > 0 {
        lemma_parse_step_keeps(st, evs[0]);
        lemma_parse_from_keeps(parse_step(st, evs[0]), evs.drop_first());
    }
}

/// The parser never yields an empty text block: every text block of a
/// document has at least one span.
pub proof fn lemma_no_empty_text_blocks(evs: Seq<EventView>)
    ensures
        text_blocks_nonempty(blocks_of_events(evs)),
{
    lemma_parse_from_keeps(initial_parse(), evs);
    lemma_flush_keeps(parse_from(initial_parse(), evs));
}


/// How many strong elements are open after reading `evs` with `d` open: one
/// more at each start of one, one fewer at each end of one (never fewer
/// than none).
pub open spec fn strong_depth(d: nat, evs: Seq<EventView>) -> nat
    decreases evs.len(),
{
    if evs.len() == 0 {
        d
    } else {
        let next: nat = match evs[0] {
            EventView::Start(TagView::Strong) => d + 1,
            EventView::End(MdTagEnd::Strong) => if d > 0 {
                (d - 1) as nat
            } else {
                0
            },
            _ => d,
        };
        strong_depth(next, evs.drop_first())
    }
}

/// One event moves the bold depth as `strong_depth` counts it.
proof fn lemma_step_bold(st: ParseView, ev: EventView)
    requires
        st.inline_state.bold < usize::MAX,
    ensures
        parse_step(st, ev).inline_state.bold == strong_depth(st.inline_state.bold as nat, seq![ev]),
{
    let one = seq![ev];
    assert(one[0] == ev);
    assert(one.drop_first() =~= Seq::<EventView>::empty());
    reveal_with_fuel(strong_depth, 2);
    assert(flush_spans(st).inline_state == st.inline_state);
    let d = st.inline_state.bold as nat;
    match ev {
        EventView::Start(tag) => {
            if tag is Strong {
                assert(strong_depth(d, one) == d + 1);
            } else {
                assert(strong_depth(d, one) == d);
                assert(start_step(st, tag).inline_state.bold == st.inline_state.bold);
            }
        },
        EventView::End(tag) => {
            if tag is Strong {
                assert(strong_depth(d, one) == (if d > 0 { (d - 1) as nat } else { 0 }));
            } else {
                assert(strong_depth(d, one) == d);
                assert(end_step(st, tag).inline_state.bold == st.inline_state.bold);
            }
        },
        _ => {
            assert(strong_depth(d, one) == d);
        },
    }
}

/// The bold depth of the parser is the number of strong elements open.
proof fn lemma_parse_from_bold(st: ParseView, evs: Seq<EventView>)
    requires
        st.inline_state.bold + evs.len() <= usize::MAX,
    ensures
        parse_from(st, evs).inline_state.bold == strong_depth(st.inline_state.bold as nat, evs),
    decreases evs.len(),
{
    if evs.len() > 0 {
        let ev = evs[0];
        let st2 = parse_step(st, ev);
        lemma_step_bold(st, ev);
        assert(seq![ev].drop_first() =~= Seq::<EventView>::empty());
        assert(st2.inline_state.bold <= st.inline_state.bold + 1);
        lemma_parse_from_bold(st2, evs.drop_first());
    }
}

/// Reading one more event is one more step.
proof fn lemma_parse_from_push(st: ParseView, evs: Seq<EventView>, ev: EventView)
    ensures
        parse_from(st, evs.push(ev)) == parse_step(parse_from(st, evs), ev),
    decreases evs.len(),
{
    if evs.len() == 0 {
        assert(evs.push(ev).drop_first() =~= Seq::<EventView>::empty());
        assert(evs.push(ev)[0] == ev);
        assert(parse_from(parse_step(st, ev), Seq::<EventView>::empty()) == parse_step(st, ev));
    } else {
        assert(evs.push(ev).drop_first() =~= evs.drop_first().push(ev));
        assert(evs.push(ev)[0] == evs[0]);
        lemma_parse_from_push(parse_step(st, evs[0]), evs.drop_first(), ev);
    }
}

/// Bold follows the strong elements: a piece of text outside a code block
/// becomes a span that is bold exactly when more strong elements have been
/// opened than closed before it (an end closes the innermost, and an end
/// with none open closes nothing).
pub proof fn lemma_text_bold(evs: Seq<EventView>, t: Seq<char>)
    requires
        evs.len() < usize::MAX,
        !parse_from(initial_parse(), evs).in_code_block,
    ensures
        parse_from(initial_parse(), evs.push(EventView::Text(t))).current_spans.last().text == t,
        parse_from(initial_parse(), evs.push(EventView::Text(t))).current_spans.last().style.bold == (
        strong_depth(0, evs) > 0),
{
    lemma_parse_from_push(initial_parse(), evs, EventView::Text(t));
    lemma_parse_from_bold(initial_parse(), evs);
}

} // verus!
