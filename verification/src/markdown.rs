//! The line-oriented renderer: Markdown drawn straight from its event stream
//! into styled lines, without the intermediate blocks of `parser`.

use vstd::prelude::*;
use syntect::highlighting::ThemeSet;
use syntect::parsing::SyntaxSet;
use crate::ansi::{
    closed, lemma_code_invisible, lemma_strip_plain, lemma_visible_code_concat, lemma_visible_code_end,
    lemma_visible_concat, lemma_visible_plain_end, no_esc,
};
use crate::ansi::{
    apply_opacity_to_code, apply_opacity_to_table, apply_opacity_to_text, code_seq, dimmed_table, dimmed_text,
    flat_gray, gray_code_for, gray_for, push_code, visible, Code,
};
use crate::events::{
    events_view, markdown_event_list, markdown_events, parser_options, EventView, MdEvent, MdTag, MdTagEnd, TagView,
    ENABLE_STRIKETHROUGH, ENABLE_TABLES,
};
use crate::parser::{item_marker, item_marker_string, ListKind};
use crate::highlight::{
    code_block_lines, code_block_text, load_syntax_set, load_theme_set, ocean_dark_name, plain_text_name,
    str_views, syntax_names, theme_names,
};
use crate::renderer::{cyan, gray, heading_code, heading_color, lemma_max_cols_uniform, rule_text, width_at, yellow};
use crate::table::{
    border, border_line, col_widths, compute_col_widths, grid_view, grid_width, join, lemma_border_width,
    lemma_col_width_bound, lemma_col_width_covers, lemma_join_visible, lemma_visible_total_pointwise, max_cell_width,
    nat_widths, strings_view, visible_len,
};
use crate::text::{chars_of, is_whitespace, is_ws, push_char, push_repeat, push_str, repeat};

verus! {

/// How a line is to be drawn.
#[derive(Clone, Copy, Debug, PartialEq, Eq)]
pub struct Style {
    pub is_heading: bool,
    pub heading_level: u8,
    pub is_code_block: bool,
    pub is_table: bool,
    pub is_table_head: bool,
}

pub open spec fn plain_style() -> Style {
    Style { is_heading: false, heading_level: 0, is_code_block: false, is_table: false, is_table_head: false }
}

impl Default for Style {
    fn default() -> (s: Style)
        ensures
            s == plain_style(),
    {
        Style { is_heading: false, heading_level: 0, is_code_block: false, is_table: false, is_table_head: false }
    }
}

/// The kind of a line.
#[derive(Clone, Copy, Debug, PartialEq, Eq, Structural)]
pub enum LineType {
    Text,
    Heading,
    CodeBlock,
    Table,
    Empty,
}

impl Default for LineType {
    fn default() -> (t: LineType)
        ensures
            t == LineType::Text,
    {
        LineType::Text
    }
}

/// One line of output, with its escape sequences.
#[derive(Clone, Debug)]
pub struct RenderedLine {
    pub content: String,
    pub style: Style,
    pub line_type: LineType,
}

/// A line with its content as characters.
pub struct LineView {
    pub content: Seq<char>,
    pub style: Style,
    pub line_type: LineType,
}

impl View for RenderedLine {
    type V = LineView;

    open spec fn view(&self) -> LineView {
        LineView { content: self.content@, style: self.style, line_type: self.line_type }
    }
}

pub open spec fn lines_view(v: Seq<RenderedLine>) -> Seq<LineView> {
    v.map_values(|l: RenderedLine| l@)
}

pub open spec fn text_line(content: Seq<char>) -> LineView {
    LineView { content, style: plain_style(), line_type: LineType::Text }
}

pub open spec fn styled_line(content: Seq<char>, style: Style) -> LineView {
    LineView {
        content,
        style,
        line_type: if style.is_heading {
            LineType::Heading
        } else {
            LineType::Text
        },
    }
}

pub open spec fn code_line(content: Seq<char>) -> LineView {
    LineView { content, style: Style { is_code_block: true, ..plain_style() }, line_type: LineType::CodeBlock }
}

pub open spec fn table_line(content: Seq<char>) -> LineView {
    LineView { content, style: Style { is_table: true, ..plain_style() }, line_type: LineType::Table }
}

pub open spec fn empty_line() -> LineView {
    LineView { content: seq![], style: plain_style(), line_type: LineType::Empty }
}

impl RenderedLine {
    /// A plain text line.
    pub fn text(content: String) -> (l: RenderedLine)
        ensures
            l@ == text_line(content@),
    {
        RenderedLine { content, style: Style::default(), line_type: LineType::Text }
    }

    /// A line with the given style; a heading style makes it a heading line.
    pub fn styled(content: String, style: Style) -> (l: RenderedLine)
        ensures
            l@ == styled_line(content@, style),
    {
        let line_type = if style.is_heading {
            LineType::Heading
        } else {
            LineType::Text
        };
        RenderedLine { content, style, line_type }
    }

    /// A line of a code block.
    pub fn code_block(content: String) -> (l: RenderedLine)
        ensures
            l@ == code_line(content@),
    {
        RenderedLine {
            content,
            style: Style { is_code_block: true, ..Style::default() },
            line_type: LineType::CodeBlock,
        }
    }

    /// A line of a table.
    pub fn table(content: String) -> (l: RenderedLine)
        ensures
            l@ == table_line(content@),
    {
        RenderedLine { content, style: Style { is_table: true, ..Style::default() }, line_type: LineType::Table }
    }

    /// A blank line.
    pub fn empty() -> (l: RenderedLine)
        ensures
            l@ == empty_line(),
    {
        RenderedLine { content: String::new(), style: Style::default(), line_type: LineType::Empty }
    }

    /// A copy of the line.
    pub fn duplicate(&self) -> (l: RenderedLine)
        ensures
            l@ == self@,
    {
        RenderedLine { content: self.content.clone(), style: self.style, line_type: self.line_type }
    }
}

/// The content of `line` as drawn at `opacity`: unchanged at full opacity,
/// else in a gray tone (code lines flat, table lines keeping their grid).
pub open spec fn line_at_opacity(line: LineView, opacity: u8) -> Seq<char> {
    if opacity >= 255 {
        line.content
    } else if line.style.is_code_block {
        flat_gray(line.content, gray_for(opacity))
    } else if line.style.is_table {
        dimmed_table(line.content, gray_for(opacity))
    } else {
        dimmed_text(line.content, gray_for(opacity))
    }
}

/// Draws `line` at `opacity` (255 is fully opaque).
pub fn apply_opacity_to_line(line: &RenderedLine, opacity: u8) -> (r: String)
    ensures
        r@ == line_at_opacity(line@, opacity),
{
    if opacity >= 255 {
        return line.content.clone();
    }
    let gray = gray_code_for(opacity);
    if line.style.is_code_block {
        apply_opacity_to_code(line.content.as_str(), gray)
    } else if line.style.is_table {
        apply_opacity_to_table(line.content.as_str(), gray)
    } else {
        apply_opacity_to_text(line.content.as_str(), gray)
    }
}

/// Text in a heading style: bold, in the heading's colour, then a reset;
/// other text as it is.
pub open spec fn inline_styled(text: Seq<char>, style: Style) -> Seq<char> {
    if style.is_heading {
        code_seq(Code::Bold) + code_seq(heading_code(style.heading_level)) + text + code_seq(Code::Reset)
    } else {
        text
    }
}

/// What the start of an element adds to a line.
pub open spec fn start_text(t: TagView) -> Seq<char> {
    match t {
        TagView::Strong => code_seq(Code::Bold),
        TagView::Emphasis => code_seq(Code::Italic),
        TagView::Strikethrough => code_seq(Code::Strikethrough),
        TagView::Link => code_seq(cyan()),
        TagView::Heading(l) => code_seq(Code::Bold) + code_seq(heading_code(l)),
        TagView::BlockQuote => code_seq(gray()) + seq!['>', ' '],
        TagView::Item => seq![' ', ' ', '•', ' '],
        TagView::Table => code_seq(Code::Bold),
        TagView::TableCell => seq![' '],
        TagView::TableHead => code_seq(Code::Bold) + code_seq(yellow()),
        _ => seq![],
    }
}

/// What the end of an element adds to a line: a reset after the styled ones.
pub open spec fn end_text(t: MdTagEnd) -> Seq<char> {
    match t {
        MdTagEnd::Strong | MdTagEnd::Emphasis | MdTagEnd::Strikethrough | MdTagEnd::Heading
        | MdTagEnd::TableHead | MdTagEnd::Table | MdTagEnd::Link => code_seq(Code::Reset),
        _ => seq![],
    }
}

/// What one event adds to a line.
pub open spec fn event_inline(e: EventView) -> Seq<char> {
    match e {
        EventView::Text(t) => t,
        EventView::Code(c) => code_seq(Code::BgGray) + c + code_seq(Code::Reset),
        EventView::Start(t) => start_text(t),
        EventView::End(t) => end_text(t),
        EventView::SoftBreak | EventView::HardBreak => seq![' '],
        EventView::Rule => rule_text(),
        EventView::Other => seq![],
    }
}

/// The events of a line drawn one after another.
pub open spec fn inline_events(evs: Seq<EventView>) -> Seq<char>
    decreases evs.len(),
{
    if evs.len() == 0 {
        seq![]
    } else {
        inline_events(evs.drop_last()) + event_inline(evs.last())
    }
}

/// `line` holds nothing but whitespace.
pub open spec fn blank(line: Seq<char>) -> bool {
    forall|i: int| 0 <= i < line.len() ==> is_ws(#[trigger] line[i])
}

/// A single line drawn from its events: nothing for a blank line, else the
/// drawn events, or the line itself when they draw nothing.
pub open spec fn line_rendering(line: Seq<char>, evs: Seq<EventView>) -> Seq<char> {
    if blank(line) {
        seq![]
    } else {
        let o = inline_events(evs);
        if o.len() == 0 {
            line
        } else {
            o
        }
    }
}

fn is_blank(line: &str) -> (b: bool)
    ensures
        b == blank(line@),
{
    let cs = chars_of(line);
    let mut i: usize = 0;
    while i < cs.len()
        invariant
            i <= cs@.len(),
            cs@ == line@,
            forall|j: int| 0 <= j < i ==> is_ws(#[trigger] cs@[j]),
        decreases cs.len() - i,
    {
        if !is_whitespace(cs[i]) {
            return false;
        }
        i += 1;
    }
    true
}

/// The renderer: syntax definitions and colour themes for code blocks.
pub struct MarkdownRenderer {
    syntax_set: SyntaxSet,
    theme_set: ThemeSet,
}

impl Default for MarkdownRenderer {
    fn default() -> (r: MarkdownRenderer) {
        MarkdownRenderer::new()
    }
}

impl MarkdownRenderer {
    #[verifier::type_invariant]
    spec fn well_formed(self) -> bool {
        &&& syntax_names(self.syntax_set).contains(plain_text_name())
        &&& theme_names(self.theme_set).contains(ocean_dark_name())
    }

    /// The syntax definitions code blocks are highlighted with.
    pub closed spec fn syntaxes(&self) -> SyntaxSet {
        self.syntax_set
    }

    /// The colour themes code blocks are highlighted with.
    pub closed spec fn themes(&self) -> ThemeSet {
        self.theme_set
    }

    /// A renderer with syntect's default syntaxes and themes.
    pub fn new() -> (r: MarkdownRenderer) {
        MarkdownRenderer { syntax_set: load_syntax_set(), theme_set: load_theme_set() }
    }

    /// The Markdown extensions read: tables and strikethrough.
    pub fn parser_options() -> (o: u32)
        ensures
            o == ENABLE_TABLES | ENABLE_STRIKETHROUGH,
    {
        parser_options()
    }

    /// Adds what the start of `tag` draws to `output`.
    pub fn handle_start_tag(&self, output: &mut String, tag: &MdTag)
        ensures
            final(output)@ == old(output)@ + start_text(tag@),
    {
        match tag {
            MdTag::Strong => push_code(output, Code::Bold),
            MdTag::Emphasis => push_code(output, Code::Italic),
            MdTag::Strikethrough => push_code(output, Code::Strikethrough),
            MdTag::Link => push_code(output, Code::Fg(73)),
            MdTag::Heading(level) => {
                push_code(output, Code::Bold);
                push_code(output, heading_color(*level));
            },
            MdTag::BlockQuote => {
                push_code(output, Code::Fg(245));
                push_char(output, '>');
                push_char(output, ' ');
            },
            MdTag::Item => {
                push_char(output, ' ');
                push_char(output, ' ');
                push_char(output, '•');
                push_char(output, ' ');
            },
            MdTag::Table => push_code(output, Code::Bold),
            MdTag::TableCell => push_char(output, ' '),
            MdTag::TableHead => {
                push_code(output, Code::Bold);
                push_code(output, Code::Fg(221));
            },
            _ => {},
        }
        assert(final(output)@ =~= old(output)@ + start_text(tag@));
    }

    /// Adds what the end of `tag` draws to `output`.
    pub fn handle_end_tag(&self, output: &mut String, tag_end: &MdTagEnd)
        ensures
            final(output)@ == old(output)@ + end_text(*tag_end),
    {
        match tag_end {
            MdTagEnd::Strong | MdTagEnd::Emphasis | MdTagEnd::Strikethrough | MdTagEnd::Heading
            | MdTagEnd::TableHead | MdTagEnd::Table | MdTagEnd::Link => {
                push_code(output, Code::Reset);
            },
            _ => {
                assert(old(output)@ + end_text(*tag_end) =~= old(output)@);
            },
        }
    }

    /// Draws heading text in its heading's style (see `inline_styled`).
    pub fn apply_inline_styles(&self, text: &str, style: &Style) -> (r: String)
        ensures
            r@ == inline_styled(text@, *style),
    {
        let mut r = String::new();
        if style.is_heading {
            push_code(&mut r, Code::Bold);
            push_code(&mut r, heading_color(style.heading_level));
            push_str(&mut r, text);
            push_code(&mut r, Code::Reset);
        } else {
            push_str(&mut r, text);
        }
        assert(r@ =~= inline_styled(text@, *style));
        r
    }

    /// Draws a single line given as its event stream (see `line_rendering`).
    pub fn render_line_events(&self, line: &str, events: &[MdEvent]) -> (r: String)
        ensures
            r@ == line_rendering(line@, events_view(events@)),
    {
        if is_blank(line) {
            return String::new();
        }
        let ghost evs = events_view(events@);
        let mut output = String::new();
        let mut i: usize = 0;
        assert(evs.take(0) =~= Seq::<EventView>::empty());
        while i < events.len()
            invariant
                i <= events@.len(),
                evs == events_view(events@),
                output@ == inline_events(evs.take(i as int)),
            decreases events.len() - i,
        {
            let ghost before = output@;
            match &events[i] {
                MdEvent::Text(t) => push_str(&mut output, t.as_str()),
                MdEvent::Code(c) => {
                    push_code(&mut output, Code::BgGray);
                    push_str(&mut output, c.as_str());
                    push_code(&mut output, Code::Reset);
                },
                MdEvent::Start(tag) => self.handle_start_tag(&mut output, tag),
                MdEvent::End(tag_end) => self.handle_end_tag(&mut output, tag_end),
                MdEvent::SoftBreak | MdEvent::HardBreak => push_char(&mut output, ' '),
                MdEvent::Rule => {
                    push_code(&mut output, Code::Fg(245));
                    push_repeat(&mut output, '─', 30);
                    push_code(&mut output, Code::Reset);
                },
                MdEvent::Other => {},
            }
            assert(evs.take(i + 1).drop_last() =~= evs.take(i as int));
            assert(evs.take(i + 1).last() == events@[i as int]@);
            assert(output@ =~= before + event_inline(events@[i as int]@));
            i += 1;
        }
        assert(evs.take(events@.len() as int) =~= evs);
        if output.as_str().is_empty() {
            let mut r = String::new();
            push_str(&mut r, line);
            return r;
        }
        output
    }

    /// Draws a single line of Markdown, reading the events `pulldown_cmark`
    /// produces for it with tables and strikethrough enabled.
    pub fn render_line(&self, line: &str) -> (r: String)
        ensures
            r@ == line_rendering(line@, markdown_events(line@, ENABLE_TABLES | ENABLE_STRIKETHROUGH)),
    {
        if is_blank(line) {
            return String::new();
        }
        let events = markdown_event_list(line, MarkdownRenderer::parser_options());
        self.render_line_events(line, events.as_slice())
    }

    /// Draws a code block (see `code_block_lines`).
    pub fn render_code_block(&self, lang: &str, code: &str) -> (lines: Vec<String>)
        ensures
            str_views(lines@) == code_block_text(self.syntaxes(), self.themes(), lang@, code@),
    {
        proof {
            use_type_invariant(self);
        }
        code_block_lines(&self.syntax_set, &self.theme_set, lang, code)
    }
}

} // verus!

verus! {

/// A cell of a table row padded to its column's width `w` (no cut): a
/// space, a gray space, the text (bold yellow in the header row) and the
/// padding, then gray again.
pub open spec fn cell_text(cell: Seq<char>, w: nat, header: bool) -> Seq<char> {
    let d = visible(cell).len();
    let pad = repeat(
        ' ',
        if w >= d {
            (w - d) as nat
        } else {
            0
        },
    );
    seq![' '] + code_seq(gray()) + seq![' '] + (if header {
        code_seq(Code::Bold) + code_seq(yellow()) + cell + code_seq(Code::Reset) + pad
    } else {
        cell + pad + code_seq(Code::Reset)
    }) + code_seq(gray())
}

pub open spec fn cell_texts(cells: Seq<Seq<char>>, ws: Seq<nat>, header: bool) -> Seq<Seq<char>> {
    Seq::new(cells.len(), |i: int| cell_text(cells[i], width_at(ws, i), header))
}

/// A table row: its cells between vertical bars.
pub open spec fn table_row_text(cells: Seq<Seq<char>>, ws: Seq<nat>, header: bool) -> Seq<char> {
    code_seq(gray()) + seq!['│'] + join(cell_texts(cells, ws, header), '│') + seq!['│'] + code_seq(Code::Reset)
}

/// The lines of the first `k` rows: the first row is the header, followed
/// by a separator when more rows come.
pub open spec fn table_rows_text(g: Seq<Seq<Seq<char>>>, ws: Seq<nat>, k: nat) -> Seq<Seq<char>>
    decreases k,
{
    if k == 0 {
        seq![]
    } else {
        let prev = table_rows_text(g, ws, (k - 1) as nat);
        let line = table_row_text(g[k - 1], ws, k == 1);
        if k == 1 && g.len() > 1 {
            prev.push(line).push(border_line('├', '┼', '┤', ws))
        } else {
            prev.push(line)
        }
    }
}

/// A table of cell texts as grid lines; no lines for no rows.
pub open spec fn table_text(g: Seq<Seq<Seq<char>>>) -> Seq<Seq<char>> {
    if g.len() == 0 {
        seq![]
    } else {
        let ws = col_widths(g);
        seq![border_line('┌', '┬', '┐', ws)] + table_rows_text(g, ws, g.len()) + seq![
            border_line('└', '┴', '┘', ws),
        ]
    }
}

fn push_cell(s: &mut String, cell: &str, w: usize, header: bool)
    ensures
        final(s)@ == old(s)@ + cell_text(cell@, w as nat, header),
{
    let d = visible_len(cell);
    let padding = w.saturating_sub(d);
    push_char(s, ' ');
    push_code(s, Code::Fg(245));
    push_char(s, ' ');
    if header {
        push_code(s, Code::Bold);
        push_code(s, Code::Fg(221));
        push_str(s, cell);
        push_code(s, Code::Reset);
        push_repeat(s, ' ', padding);
    } else {
        push_str(s, cell);
        push_repeat(s, ' ', padding);
        push_code(s, Code::Reset);
    }
    push_code(s, Code::Fg(245));
    assert(s@ =~= old(s)@ + cell_text(cell@, w as nat, header));
}

fn table_row_string(cells: &Vec<String>, widths: &Vec<usize>, header: bool) -> (s: String)
    ensures
        s@ == table_row_text(strings_view(cells@), nat_widths(widths@), header),
{
    let ghost ws = nat_widths(widths@);
    let ghost parts = cell_texts(strings_view(cells@), ws, header);
    let mut s = String::new();
    push_code(&mut s, Code::Fg(245));
    push_char(&mut s, '│');
    let ghost start = s@;
    let mut i: usize = 0;
    while i < cells.len()
        invariant
            i <= cells@.len(),
            ws == nat_widths(widths@),
            parts == cell_texts(strings_view(cells@), ws, header),
            s@ == start + join(parts.take(i as int), '│'),
        decreases cells.len() - i,
    {
        let w = if i < widths.len() {
            widths[i]
        } else {
            10
        };
        assert(w == width_at(ws, i as int));
        if i > 0 {
            push_char(&mut s, '│');
        }
        push_cell(&mut s, cells[i].as_str(), w, header);
        assert(parts.take(i + 1).drop_last() =~= parts.take(i as int));
        assert(parts[i as int] == cell_text(cells@[i as int]@, w as nat, header));
        if i == 0 {
            assert(join(parts.take(1), '│') == parts[0]);
        }
        assert(s@ =~= start + join(parts.take(i + 1), '│'));
        i += 1;
    }
    assert(parts.take(cells@.len() as int) =~= parts);
    push_char(&mut s, '│');
    push_code(&mut s, Code::Reset);
    assert(s@ =~= table_row_text(strings_view(cells@), ws, header));
    s
}

impl MarkdownRenderer {
    /// Draws a table of cell texts (see `table_text`).
    pub fn render_table(&self, rows: &[Vec<String>]) -> (lines: Vec<String>)
        ensures
            strings_view(lines@) == table_text(grid_view(rows@)),
    {
        let mut lines: Vec<String> = Vec::new();
        if rows.len() == 0 {
            assert(strings_view(lines@) =~= Seq::<Seq<char>>::empty());
            return lines;
        }
        let ghost g = grid_view(rows@);
        let widths = compute_col_widths(rows);
        let ghost ws = col_widths(g);
        assert(nat_widths(widths@) =~= ws);
        proof {
            assert forall|i: int| 0 <= i < widths@.len() implies widths@[i] <= max_cell_width() by {
                lemma_col_width_bound(g, i);
            }
        }
        lines.push(border('┌', '┬', '┐', &widths));
        let mut r: usize = 0;
        while r < rows.len()
            invariant
                r <= rows@.len(),
                g == grid_view(rows@),
                g.len() == rows@.len(),
                g.len() > 0,
                nat_widths(widths@) == ws,
                ws == col_widths(g),
                forall|i: int| 0 <= i < widths@.len() ==> widths@[i] <= max_cell_width(),
                strings_view(lines@) == seq![border_line('┌', '┬', '┐', ws)] + table_rows_text(g, ws, r as nat),
            decreases rows.len() - r,
        {
            let line = table_row_string(&rows[r], &widths, r == 0);
            assert(g[r as int] == strings_view(rows@[r as int]@));
            let ghost prev = strings_view(lines@);
            lines.push(line);
            assert(strings_view(lines@) =~= prev.push(table_row_text(g[r as int], ws, r == 0)));
            if r == 0 && rows.len() > 1 {
                let ghost prev2 = strings_view(lines@);
                let b = border('├', '┼', '┤', &widths);
                lines.push(b);
                assert(strings_view(lines@) =~= prev2.push(border_line('├', '┼', '┤', ws)));
            }
            assert(strings_view(lines@) =~= seq![border_line('┌', '┬', '┐', ws)] + table_rows_text(
                g,
                ws,
                (r + 1) as nat,
            ));
            r += 1;
        }
        lines.push(border('└', '┴', '┘', &widths));
        assert(strings_view(lines@) =~= table_text(g));
        lines
    }
}

} // verus!

verus! {

/// A piece of a drawn document: a finished line, or a code block (language,
/// content) still to be highlighted.
pub enum Piece {
    Line(LineView),
    Code(Seq<char>, Seq<char>),
}

/// A piece of a drawn document, as the renderer holds it.
pub enum DocPiece {
    Line(RenderedLine),
    Code(String, String),
}

impl View for DocPiece {
    type V = Piece;

    open spec fn view(&self) -> Piece {
        match self {
            DocPiece::Line(l) => Piece::Line(l@),
            DocPiece::Code(lang, code) => Piece::Code(lang@, code@),
        }
    }
}

pub open spec fn pieces_view(v: Seq<DocPiece>) -> Seq<Piece> {
    v.map_values(|p: DocPiece| p@)
}

/// What the renderer knows while it reads the events of a document.
#[verifier::ext_equal]
pub struct DrawView {
    pub pieces: Seq<Piece>,
    pub in_code_block: bool,
    pub code_lang: Seq<char>,
    pub code_content: Seq<char>,
    pub in_table: bool,
    pub table_rows: Seq<Seq<Seq<char>>>,
    pub current_row: Seq<Seq<char>>,
    pub in_table_head: bool,
    /// The open lists, a numbered one with the number of its next item.
    pub list_stack: Seq<ListKind>,
    pub current_text: Seq<char>,
    pub current_style: Style,
}

pub open spec fn draw_start() -> DrawView {
    DrawView {
        pieces: seq![],
        in_code_block: false,
        code_lang: seq![],
        code_content: seq![],
        in_table: false,
        table_rows: seq![],
        current_row: seq![],
        in_table_head: false,
        list_stack: seq![],
        current_text: seq![],
        current_style: plain_style(),
    }
}

/// Ends the text in progress as a plain line, if there is any.
pub open spec fn flush_text(st: DrawView) -> DrawView {
    if st.current_text.len() > 0 {
        DrawView { pieces: st.pieces.push(Piece::Line(text_line(st.current_text))), current_text: seq![], ..st }
    } else {
        st
    }
}

/// `st` with `t` added to the text in progress.
pub open spec fn add_text(st: DrawView, t: Seq<char>) -> DrawView {
    DrawView { current_text: st.current_text + t, ..st }
}

/// The open lists once an item of the innermost one has begun: a numbered
/// list counts on to its next number.
pub open spec fn item_begun(lists: Seq<ListKind>) -> Seq<ListKind> {
    match lists.last() {
        ListKind::Ordered(n) => lists.update(
            lists.len() - 1,
            ListKind::Ordered(
                if n < u64::MAX {
                    (n + 1) as u64
                } else {
                    n
                },
            ),
        ),
        ListKind::Unordered => lists,
    }
}

/// What one event does to what the renderer knows.
pub open spec fn draw_step(st: DrawView, ev: EventView) -> DrawView {
    match ev {
        EventView::Start(tag) => match tag {
            TagView::CodeBlock(kind) => DrawView {
                in_code_block: true,
                code_lang: match kind {
                    Some(l) => l,
                    None => seq![],
                },
                code_content: seq![],
                ..flush_text(st)
            },
            TagView::Table => DrawView { in_table: true, table_rows: seq![], ..flush_text(st) },
            TagView::TableHead => DrawView { in_table_head: true, current_row: seq![], ..st },
            TagView::TableRow => DrawView { current_row: seq![], ..st },
            TagView::TableCell => DrawView {
                current_style: Style { is_table_head: st.in_table_head, ..st.current_style },
                ..st
            },
            TagView::List(n) => DrawView {
                list_stack: st.list_stack.push(
                    match n {
                        Some(k) => ListKind::Ordered(k),
                        None => ListKind::Unordered,
                    },
                ),
                ..st
            },
            TagView::Item => if st.list_stack.len() == 0 {
                st
            } else {
                DrawView { list_stack: item_begun(st.list_stack), ..add_text(st, item_marker(st.list_stack)) }
            },
            TagView::Heading(l) => {
                let s = flush_text(st);
                DrawView { current_style: Style { is_heading: true, heading_level: l, ..s.current_style }, ..s }
            },
            TagView::Strong => add_text(st, code_seq(Code::Bold)),
            TagView::Emphasis => add_text(st, code_seq(Code::Italic)),
            TagView::Link => add_text(st, code_seq(cyan())),
            TagView::BlockQuote => add_text(st, code_seq(gray()) + seq!['>', ' ']),
            _ => st,
        },
        EventView::End(tag) => match tag {
            MdTagEnd::CodeBlock => DrawView {
                in_code_block: false,
                pieces: st.pieces.push(Piece::Code(st.code_lang, st.code_content)),
                code_content: seq![],
                code_lang: seq![],
                ..st
            },
            MdTagEnd::Table => DrawView {
                in_table: false,
                pieces: st.pieces + table_text(st.table_rows).map_values(|l: Seq<char>| Piece::Line(table_line(l))),
                ..st
            },
            MdTagEnd::TableHead => DrawView {
                in_table_head: false,
                table_rows: st.table_rows.push(st.current_row),
                ..st
            },
            MdTagEnd::TableRow => DrawView { table_rows: st.table_rows.push(st.current_row), ..st },
            MdTagEnd::TableCell => DrawView {
                current_row: st.current_row.push(st.current_text),
                current_text: seq![],
                ..st
            },
            MdTagEnd::List => DrawView {
                list_stack: if st.list_stack.len() > 0 {
                    st.list_stack.drop_last()
                } else {
                    st.list_stack
                },
                ..st
            },
            MdTagEnd::Item => flush_text(st),
            MdTagEnd::Heading => DrawView {
                pieces: st.pieces.push(Piece::Line(styled_line(st.current_text, st.current_style))),
                current_text: seq![],
                current_style: plain_style(),
                ..st
            },
            MdTagEnd::Paragraph => {
                let s = flush_text(st);
                DrawView { pieces: s.pieces.push(Piece::Line(empty_line())), ..s }
            },
            MdTagEnd::Strong | MdTagEnd::Emphasis | MdTagEnd::Link | MdTagEnd::BlockQuote => add_text(
                st,
                code_seq(Code::Reset),
            ),
            _ => st,
        },
        EventView::Text(t) => if st.in_code_block {
            DrawView { code_content: st.code_content + t, ..st }
        } else if st.in_table {
            add_text(st, t)
        } else {
            add_text(st, inline_styled(t, st.current_style))
        },
        EventView::Code(c) => add_text(st, code_seq(Code::BgGray) + c + code_seq(Code::Reset)),
        EventView::SoftBreak => add_text(st, seq![' ']),
        EventView::HardBreak => DrawView {
            pieces: st.pieces.push(Piece::Line(text_line(st.current_text))),
            current_text: seq![],
            ..st
        },
        EventView::Rule => DrawView { pieces: st.pieces.push(Piece::Line(text_line(rule_text()))), ..st },
        EventView::Other => st,
    }
}

/// What the renderer knows after reading `evs` from the start.
pub open spec fn draw_events(evs: Seq<EventView>) -> DrawView
    decreases evs.len(),
{
    if evs.len() == 0 {
        draw_start()
    } else {
        draw_step(draw_events(evs.drop_last()), evs.last())
    }
}

/// The pieces of the document drawn from `evs`: the text still in progress
/// at the end becomes a last line.
pub open spec fn doc_pieces(evs: Seq<EventView>) -> Seq<Piece> {
    flush_text(draw_events(evs)).pieces
}

/// The lines drawn for piece `p`, code blocks highlighted with the syntaxes
/// `ss` and the themes `ts`: the line itself, or the framed, highlighted
/// lines of a code block.
pub open spec fn piece_lines(ss: SyntaxSet, ts: ThemeSet, p: Piece) -> Seq<LineView> {
    match p {
        Piece::Line(l) => seq![l],
        Piece::Code(lang, code) => code_block_text(ss, ts, lang, code).map_values(|c: Seq<char>| code_line(c)),
    }
}

/// The lines of the pieces `ps`, drawn one after another.
pub open spec fn pieces_lines(ss: SyntaxSet, ts: ThemeSet, ps: Seq<Piece>) -> Seq<LineView> {
    ps.map_values(|p: Piece| piece_lines(ss, ts, p)).flatten()
}

} // verus!

verus! {

/// What the renderer knows while it reads the events of a document.
struct DrawState {
    pieces: Vec<DocPiece>,
    in_code_block: bool,
    code_lang: String,
    code_content: String,
    in_table: bool,
    table_rows: Vec<Vec<String>>,
    current_row: Vec<String>,
    in_table_head: bool,
    list_stack: Vec<ListKind>,
    current_text: String,
    current_style: Style,
}

impl View for DrawState {
    type V = DrawView;

    closed spec fn view(&self) -> DrawView {
        DrawView {
            pieces: pieces_view(self.pieces@),
            in_code_block: self.in_code_block,
            code_lang: self.code_lang@,
            code_content: self.code_content@,
            in_table: self.in_table,
            table_rows: grid_view(self.table_rows@),
            current_row: strings_view(self.current_row@),
            in_table_head: self.in_table_head,
            list_stack: self.list_stack@,
            current_text: self.current_text@,
            current_style: self.current_style,
        }
    }
}

impl DrawState {
    fn new() -> (st: DrawState)
        ensures
            st@ == draw_start(),
    {
        let st = DrawState {
            pieces: Vec::new(),
            in_code_block: false,
            code_lang: String::new(),
            code_content: String::new(),
            in_table: false,
            table_rows: Vec::new(),
            current_row: Vec::new(),
            in_table_head: false,
            list_stack: Vec::new(),
            current_text: String::new(),
            current_style: Style::default(),
        };
        assert(st@ =~= draw_start());
        st
    }

    fn push_piece(&mut self, p: DocPiece)
        ensures
            final(self)@ == (DrawView { pieces: old(self)@.pieces.push(p@), ..old(self)@ }),
    {
        let ghost before = self.pieces@;
        self.pieces.push(p);
        assert(pieces_view(self.pieces@) =~= pieces_view(before).push(p@));
    }

    fn take_text(&mut self) -> (t: String)
        ensures
            t@ == old(self)@.current_text,
            final(self)@ == (DrawView { current_text: seq![], ..old(self)@ }),
    {
        let mut t = String::new();
        std::mem::swap(&mut t, &mut self.current_text);
        t
    }

    fn flush(&mut self)
        ensures
            final(self)@ == flush_text(old(self)@),
    {
        if !self.current_text.as_str().is_empty() {
            let t = self.take_text();
            self.push_piece(DocPiece::Line(RenderedLine::text(t)));
        }
    }

    fn add(&mut self, t: &str)
        ensures
            final(self)@ == add_text(old(self)@, t@),
    {
        push_str(&mut self.current_text, t);
    }

    fn add_code(&mut self, c: Code)
        ensures
            final(self)@ == add_text(old(self)@, code_seq(c)),
    {
        push_code(&mut self.current_text, c);
    }

    fn begin_item(&mut self)
        ensures
            final(self)@ == draw_step(old(self)@, EventView::Start(TagView::Item)),
    {
        let n = self.list_stack.len();
        if n == 0 {
            return;
        }
        let marker = item_marker_string(&self.list_stack);
        self.add(marker.as_str());
        match self.list_stack[n - 1] {
            ListKind::Ordered(k) => {
                let next = if k < u64::MAX {
                    k + 1
                } else {
                    k
                };
                self.list_stack.set(n - 1, ListKind::Ordered(next));
            },
            ListKind::Unordered => {},
        }
        assert(self@ =~= draw_step(old(self)@, EventView::Start(TagView::Item)));
    }

    fn end_table(&mut self, r: &MarkdownRenderer)
        ensures
            final(self)@ == (DrawView {
                in_table: false,
                pieces: old(self)@.pieces + table_text(old(self)@.table_rows).map_values(
                    |l: Seq<char>| Piece::Line(table_line(l)),
                ),
                ..old(self)@
            }),
    {
        let tl = r.render_table(self.table_rows.as_slice());
        let ghost tv = strings_view(tl@);
        let ghost add = tv.map_values(|l: Seq<char>| Piece::Line(table_line(l)));
        let mut more: Vec<DocPiece> = Vec::new();
        let mut i: usize = 0;
        while i < tl.len()
            invariant
                i <= tl@.len(),
                tv == strings_view(tl@),
                add == tv.map_values(|l: Seq<char>| Piece::Line(table_line(l))),
                pieces_view(more@) == add.take(i as int),
            decreases tl.len() - i,
        {
            let ghost before = more@;
            more.push(DocPiece::Line(RenderedLine::table(tl[i].clone())));
            assert(pieces_view(more@) =~= pieces_view(before).push(add[i as int]));
            assert(add.take(i + 1) =~= add.take(i as int).push(add[i as int]));
            i += 1;
        }
        assert(add.take(tl@.len() as int) =~= add);
        let ghost before = self.pieces@;
        let ghost extra = more@;
        self.pieces.append(&mut more);
        assert(pieces_view(self.pieces@) =~= pieces_view(before) + pieces_view(extra));
        self.in_table = false;
    }

    fn start(&mut self, tag: MdTag)
        ensures
            final(self)@ == draw_step(old(self)@, EventView::Start(tag@)),
    {
        match tag {
            MdTag::CodeBlock(kind) => {
                self.flush();
                self.in_code_block = true;
                self.code_lang = match kind {
                    Some(l) => l,
                    None => String::new(),
                };
                self.code_content = String::new();
            },
            MdTag::Table => {
                self.flush();
                self.in_table = true;
                self.table_rows = Vec::new();
                assert(grid_view(self.table_rows@) =~= Seq::<Seq<Seq<char>>>::empty());
            },
            MdTag::TableHead => {
                self.in_table_head = true;
                self.current_row = Vec::new();
                assert(strings_view(self.current_row@) =~= Seq::<Seq<char>>::empty());
            },
            MdTag::TableRow => {
                self.current_row = Vec::new();
                assert(strings_view(self.current_row@) =~= Seq::<Seq<char>>::empty());
            },
            MdTag::TableCell => {
                self.current_style.is_table_head = self.in_table_head;
            },
            MdTag::List(n) => {
                self.list_stack.push(
                    match n {
                        Some(k) => ListKind::Ordered(k),
                        None => ListKind::Unordered,
                    },
                );
            },
            MdTag::Item => self.begin_item(),
            MdTag::Heading(level) => {
                self.flush();
                self.current_style.is_heading = true;
                self.current_style.heading_level = level;
            },
            MdTag::Strong => self.add_code(Code::Bold),
            MdTag::Emphasis => self.add_code(Code::Italic),
            MdTag::Link => self.add_code(Code::Fg(73)),
            MdTag::BlockQuote => {
                let ghost before = self@;
                push_code(&mut self.current_text, Code::Fg(245));
                push_char(&mut self.current_text, '>');
                push_char(&mut self.current_text, ' ');
                assert(self@.current_text =~= before.current_text + (code_seq(gray()) + seq!['>', ' ']));
            },
            _ => {},
        }
        assert(self@ =~= draw_step(old(self)@, EventView::Start(tag@)));
    }

    fn end(&mut self, r: &MarkdownRenderer, tag: MdTagEnd)
        ensures
            final(self)@ == draw_step(old(self)@, EventView::End(tag)),
    {
        match tag {
            MdTagEnd::CodeBlock => {
                self.in_code_block = false;
                let mut lang = String::new();
                let mut content = String::new();
                std::mem::swap(&mut lang, &mut self.code_lang);
                std::mem::swap(&mut content, &mut self.code_content);
                self.push_piece(DocPiece::Code(lang, content));
            },
            MdTagEnd::Table => self.end_table(r),
            MdTagEnd::TableHead => {
                self.in_table_head = false;
                let row = self.current_row.clone();
                proof {
                    assert(strings_view(row@) == strings_view(self.current_row@)) by {
                        assert(strings_view(row@) =~= strings_view(self.current_row@)) by {
                            assert forall|q: int| 0 <= q < row@.len() implies row@[q]@ == self.current_row@[q]@ by {
                                assert(vstd::pervasive::cloned::<String>(self.current_row@[q], row@[q]));
                            }
                        }
                    }
                }
                let ghost before = self.table_rows@;
                self.table_rows.push(row);
                assert(grid_view(self.table_rows@) =~= grid_view(before).push(strings_view(row@)));
            },
            MdTagEnd::TableRow => {
                let row = self.current_row.clone();
                proof {
                    assert(strings_view(row@) =~= strings_view(self.current_row@)) by {
                        assert forall|q: int| 0 <= q < row@.len() implies row@[q]@ == self.current_row@[q]@ by {
                            assert(vstd::pervasive::cloned::<String>(self.current_row@[q], row@[q]));
                        }
                    }
                }
                let ghost before = self.table_rows@;
                self.table_rows.push(row);
                assert(grid_view(self.table_rows@) =~= grid_view(before).push(strings_view(row@)));
            },
            MdTagEnd::TableCell => {
                let t = self.take_text();
                let ghost before = self.current_row@;
                self.current_row.push(t);
                assert(strings_view(self.current_row@) =~= strings_view(before).push(t@));
            },
            MdTagEnd::List => {
                if self.list_stack.len() > 0 {
                    self.list_stack.pop();
                }
            },
            MdTagEnd::Item => self.flush(),
            MdTagEnd::Heading => {
                let t = self.take_text();
                let style = self.current_style;
                self.push_piece(DocPiece::Line(RenderedLine::styled(t, style)));
                self.current_style = Style::default();
            },
            MdTagEnd::Paragraph => {
                self.flush();
                self.push_piece(DocPiece::Line(RenderedLine::empty()));
            },
            MdTagEnd::Strong | MdTagEnd::Emphasis | MdTagEnd::Link | MdTagEnd::BlockQuote => {
                self.add_code(Code::Reset);
            },
            _ => {},
        }
        assert(self@ =~= draw_step(old(self)@, EventView::End(tag)));
    }

    /// Reads one event.
    fn step(&mut self, r: &MarkdownRenderer, ev: MdEvent)
        ensures
            final(self)@ == draw_step(old(self)@, ev@),
    {
        match ev {
            MdEvent::Start(tag) => self.start(tag),
            MdEvent::End(tag) => self.end(r, tag),
            MdEvent::Text(t) => {
                if self.in_code_block {
                    push_str(&mut self.code_content, t.as_str());
                } else if self.in_table {
                    self.add(t.as_str());
                } else {
                    let styled = r.apply_inline_styles(t.as_str(), &self.current_style);
                    self.add(styled.as_str());
                }
            },
            MdEvent::Code(c) => {
                let ghost before = self@;
                push_code(&mut self.current_text, Code::BgGray);
                push_str(&mut self.current_text, c.as_str());
                push_code(&mut self.current_text, Code::Reset);
                assert(self@.current_text =~= before.current_text + (code_seq(Code::BgGray) + c@ + code_seq(
                    Code::Reset,
                )));
            },
            MdEvent::SoftBreak => {
                push_char(&mut self.current_text, ' ');
            },
            MdEvent::HardBreak => {
                let t = self.take_text();
                self.push_piece(DocPiece::Line(RenderedLine::text(t)));
            },
            MdEvent::Rule => {
                let mut rule = String::new();
                push_code(&mut rule, Code::Fg(245));
                push_repeat(&mut rule, '─', 30);
                push_code(&mut rule, Code::Reset);
                assert(rule@ =~= rule_text());
                self.push_piece(DocPiece::Line(RenderedLine::text(rule)));
            },
            MdEvent::Other => {},
        }
        assert(self@ =~= draw_step(old(self)@, ev@));
    }

    /// The pieces drawn so far, with the text in progress ended as a last line.
    fn finish(self) -> (pieces: Vec<DocPiece>)
        ensures
            pieces_view(pieces@) == flush_text(self@).pieces,
    {
        let mut st = self;
        st.flush();
        st.pieces
    }
}

} // verus!

verus! {

impl MarkdownRenderer {
    /// The pieces of a document given as its event stream (see `doc_pieces`).
    pub fn document_pieces(&self, events: &[MdEvent]) -> (pieces: Vec<DocPiece>)
        ensures
            pieces_view(pieces@) == doc_pieces(events_view(events@)),
    {
        let ghost evs = events_view(events@);
        let mut st = DrawState::new();
        let mut i: usize = 0;
        assert(evs.take(0) =~= Seq::<EventView>::empty());
        while i < events.len()
            invariant
                i <= events@.len(),
                evs == events_view(events@),
                st@ == draw_events(evs.take(i as int)),
            decreases events.len() - i,
        {
            st.step(self, events[i].duplicate());
            assert(evs.take(i + 1).drop_last() =~= evs.take(i as int));
            assert(evs.take(i + 1).last() == events@[i as int]@);
            i += 1;
        }
        assert(evs.take(events@.len() as int) =~= evs);
        st.finish()
    }

    /// Draws the pieces one after another, highlighting the code blocks.
    pub fn draw_pieces(&self, pieces: &Vec<DocPiece>) -> (lines: Vec<RenderedLine>)
        ensures
            lines_view(lines@) == pieces_lines(self.syntaxes(), self.themes(), pieces_view(pieces@)),
    {
        let ghost ps = pieces_view(pieces@);
        let ghost mut parts: Seq<Seq<LineView>> = seq![];
        let mut lines: Vec<RenderedLine> = Vec::new();
        let mut i: usize = 0;
        while i < pieces.len()
            invariant
                i <= pieces@.len(),
                ps == pieces_view(pieces@),
                parts.len() == i,
                forall|j: int| 0 <= j < i ==> #[trigger] parts[j] == piece_lines(self.syntaxes(), self.themes(), ps[j]),
                lines_view(lines@) == parts.flatten(),
            decreases pieces.len() - i,
        {
            let ghost base = lines_view(lines@);
            let ghost part: Seq<LineView>;
            match &pieces[i] {
                DocPiece::Line(l) => {
                    lines.push(l.duplicate());
                    proof {
                        part = seq![l@];
                        assert(lines_view(lines@) =~= base + part);
                    }
                },
                DocPiece::Code(lang, code) => {
                    let cl = self.render_code_block(lang.as_str(), code.as_str());
                    let ghost cv = str_views(cl@);
                    let mut k: usize = 0;
                    while k < cl.len()
                        invariant
                            k <= cl@.len(),
                            cv == str_views(cl@),
                            lines_view(lines@) == base + cv.take(k as int).map_values(|c: Seq<char>| code_line(c)),
                        decreases cl.len() - k,
                    {
                        let ghost before = lines_view(lines@);
                        lines.push(RenderedLine::code_block(cl[k].clone()));
                        assert(lines_view(lines@) =~= before.push(code_line(cv[k as int])));
                        assert(cv.take(k + 1).map_values(|c: Seq<char>| code_line(c)) =~= cv.take(k as int).map_values(
                            |c: Seq<char>| code_line(c),
                        ).push(code_line(cv[k as int])));
                        k += 1;
                    }
                    assert(cv.take(cl@.len() as int) =~= cv);
                    proof {
                        part = cv.map_values(|c: Seq<char>| code_line(c));
                    }
                },
            }
            proof {
                assert(ps[i as int] == pieces@[i as int]@);
                parts.lemma_flatten_push(part);
                parts = parts.push(part);
            }
            i += 1;
        }
        assert(parts =~= ps.map_values(|p: Piece| piece_lines(self.syntaxes(), self.themes(), p)));
        lines
    }

    /// Draws a document given as its event stream: its pieces (see
    /// `doc_pieces`) drawn one after another.
    pub fn render_events(&self, events: &[MdEvent]) -> (lines: Vec<RenderedLine>)
        ensures
            lines_view(lines@) == pieces_lines(self.syntaxes(), self.themes(), doc_pieces(events_view(events@))),
    {
        let pieces = self.document_pieces(events);
        self.draw_pieces(&pieces)
    }

    /// Draws a Markdown document, reading the events `pulldown_cmark`
    /// produces for it with tables and strikethrough enabled.
    pub fn parse_and_render(&self, text: &str) -> (lines: Vec<RenderedLine>)
        ensures
            lines_view(lines@) == pieces_lines(
                self.syntaxes(),
                self.themes(),
                doc_pieces(markdown_events(text@, ENABLE_TABLES | ENABLE_STRIKETHROUGH)),
            ),
    {
        let events = markdown_event_list(text, MarkdownRenderer::parser_options());
        self.render_events(events.as_slice())
    }
}

} // verus!

verus! {

/// A closed cell that fits its column is, padded, exactly two wider than it.
proof fn lemma_cell_text_width(cell: Seq<char>, w: nat, header: bool)
    requires
        closed(cell),
        visible(cell).len() <= w,
    ensures
        closed(cell_text(cell, w, header)),
        visible(cell_text(cell, w, header)).len() == w + 2,
{
    let d = visible(cell).len();
    let pad = repeat(' ', (w - d) as nat);
    assert(no_esc(pad));
    let g = code_seq(gray());
    assert(no_esc(seq![' ']));
    lemma_strip_plain(seq![' ']);
    lemma_visible_code_end(seq![' '], gray());
    lemma_visible_plain_end(seq![' '] + g, seq![' ']);
    let a = seq![' '] + g + seq![' '];
    let x = if header {
        code_seq(Code::Bold) + code_seq(yellow()) + cell + code_seq(Code::Reset) + pad
    } else {
        cell + pad + code_seq(Code::Reset)
    };
    if header {
        lemma_code_invisible(Code::Bold, false);
        lemma_visible_code_concat(Code::Bold, code_seq(yellow()));
        lemma_visible_code_end(code_seq(Code::Bold), yellow());
        let b = code_seq(Code::Bold) + code_seq(yellow());
        lemma_visible_concat(b, cell);
        lemma_visible_code_end(b + cell, Code::Reset);
        lemma_visible_plain_end(b + cell + code_seq(Code::Reset), pad);
        assert(visible(x) =~= visible(cell) + pad);
    } else {
        lemma_visible_plain_end(cell, pad);
        lemma_visible_code_end(cell + pad, Code::Reset);
        assert(visible(x) =~= visible(cell) + pad);
    }
    lemma_visible_concat(a, x);
    lemma_visible_code_end(a + x, gray());
    assert(visible(a) =~= seq![' ', ' ']);
    assert(seq![' '] + g + seq![' '] + x + g =~= a + x + g);
}

/// A row of closed cells, one per column and each fitting it, is as wide as
/// the grid.
proof fn lemma_table_row_width(cells: Seq<Seq<char>>, ws: Seq<nat>, header: bool)
    requires
        cells.len() == ws.len(),
        forall|i: int| 0 <= i < cells.len() ==> closed(#[trigger] cells[i]) && visible(cells[i]).len() <= ws[i],
    ensures
        visible(table_row_text(cells, ws, header)).len() == grid_width(ws),
{
    let parts = cell_texts(cells, ws, header);
    assert forall|i: int| 0 <= i < parts.len() implies closed(#[trigger] parts[i]) && visible(parts[i]).len()
        == ws[i] + 2 by {
        assert(parts[i] == cell_text(cells[i], width_at(ws, i), header));
        lemma_cell_text_width(cells[i], width_at(ws, i), header);
    }
    lemma_join_visible(parts, '│');
    lemma_visible_total_pointwise(parts, ws);
    let j = join(parts, '│');
    let g = code_seq(gray());
    assert(no_esc(seq!['│']));
    lemma_strip_plain(seq!['│']);
    lemma_visible_code_concat(gray(), seq!['│']);
    lemma_visible_concat(g + seq!['│'], j);
    lemma_visible_plain_end(g + seq!['│'] + j, seq!['│']);
    lemma_visible_code_end(g + seq!['│'] + j + seq!['│'], Code::Reset);
}

proof fn lemma_table_rows_width(g: Seq<Seq<Seq<char>>>, ws: Seq<nat>, k: nat)
    requires
        k <= g.len(),
        ws == col_widths(g),
        forall|r: int| 0 <= r < g.len() ==> #[trigger] g[r].len() == ws.len(),
        forall|r: int, i: int|
            0 <= r < g.len() && 0 <= i < g[r].len() ==> closed(#[trigger] g[r][i]) && visible(g[r][i]).len()
                <= max_cell_width(),
    ensures
        forall|i: int|
            0 <= i < table_rows_text(g, ws, k).len() ==> visible(#[trigger] table_rows_text(g, ws, k)[i]).len()
                == grid_width(ws),
    decreases k,
{
    if k > 0 {
        let k1 = (k - 1) as nat;
        lemma_table_rows_width(g, ws, k1);
        let row = g[k1 as int];
        assert forall|i: int| 0 <= i < row.len() implies closed(#[trigger] row[i]) && visible(row[i]).len()
            <= ws[i] by {
            assert(closed(g[k1 as int][i]));
            lemma_col_width_covers(g, k1 as int, i);
        }
        lemma_table_row_width(row, ws, k == 1);
        lemma_border_width('├', '┼', '┤', ws);
        let prev = table_rows_text(g, ws, k1);
        let body = table_rows_text(g, ws, k);
        assert forall|i: int| 0 <= i < body.len() implies visible(#[trigger] body[i]).len() == grid_width(ws) by {
            if i < prev.len() {
                assert(body[i] == prev[i]);
            } else if i == prev.len() {
                assert(body[i] == table_row_text(row, ws, k == 1));
            } else {
                assert(body[i] == border_line('├', '┼', '┤', ws));
            }
        }
    }
}

/// Aligned grid: when every row of a table has the same number of cells and
/// every cell is closed and shows at most `max_cell_width()` characters,
/// every line drawn for it shows the same number of characters. (Longer
/// cells are not cut here, so they push their row past the grid.)
pub proof fn lemma_table_text_aligned(g: Seq<Seq<Seq<char>>>)
    requires
        forall|r: int| 0 <= r < g.len() ==> #[trigger] g[r].len() == g[0].len(),
        forall|r: int, i: int|
            0 <= r < g.len() && 0 <= i < g[r].len() ==> closed(#[trigger] g[r][i]) && visible(g[r][i]).len()
                <= max_cell_width(),
    ensures
        ({
            let lines = table_text(g);
            forall|i: int, j: int|
                0 <= i < lines.len() && 0 <= j < lines.len() ==> visible(#[trigger] lines[i]).len() == visible(
                    #[trigger] lines[j],
                ).len()
        }),
{
    if g.len() > 0 {
        let ws = col_widths(g);
        assert forall|r: int| 0 <= r < g.len() implies #[trigger] g[r].len() == ws.len() by {
            lemma_max_cols_uniform(g);
        }
        lemma_table_rows_width(g, ws, g.len());
        lemma_border_width('┌', '┬', '┐', ws);
        lemma_border_width('└', '┴', '┘', ws);
        let lines = table_text(g);
        let body = table_rows_text(g, ws, g.len());
        assert forall|i: int| 0 <= i < lines.len() implies visible(#[trigger] lines[i]).len() == grid_width(ws) by {
            if i > 0 && i < lines.len() - 1 {
                assert(lines[i] == body[i - 1]);
            }
        }
    }
}

} // verus!

verus! {

/// Fading a line never changes what it shows: at any opacity the drawn
/// line shows the same characters as the line itself.
pub proof fn lemma_line_at_opacity_visible(line: LineView, opacity: u8)
    ensures
        visible(line_at_opacity(line, opacity)) == visible(line.content),
{
    if opacity < 255 {
        if line.style.is_code_block {
            crate::ansi::lemma_flat_gray_visible(line.content, gray_for(opacity));
        } else if line.style.is_table {
            crate::ansi::lemma_dimmed_table_visible(line.content, gray_for(opacity));
        } else {
            crate::ansi::lemma_dimmed_text_visible(line.content, gray_for(opacity));
        }
    }
}

} // verus!
