//! Blocks to styled terminal lines, and the dimming of a line by opacity.

use vstd::prelude::*;
use crate::ansi::{
    apply_opacity_to_code, apply_opacity_to_table, apply_opacity_to_text, code_seq, dimmed_table,
    dimmed_text, flat_gray, gray_code_for, gray_for, push_code, Code,
};
use crate::ansi::{
    closed, lemma_strip_plain, lemma_truncated_closed, lemma_truncated_visible, lemma_visible_code_concat,
    lemma_visible_code_end, lemma_visible_concat, lemma_visible_plain_end, no_esc, truncate_visible,
    truncated, visible,
};
use crate::highlight::{
    code_block_lines, code_block_text, load_syntax_set, load_theme_set, ocean_dark_name,
    plain_text_name, str_views, syntax_names, theme_names,
};
use crate::parser::{BlockStyle, BlockView, InlineSpan, InlineStyle, ParsedBlock, SpanView, blocks_view, rows_view, spans_view};
use syntect::highlighting::ThemeSet;
use syntect::parsing::SyntaxSet;
use crate::table::{
    border, border_line, col_widths, compute_col_widths, grid_view, grid_width, join,
    lemma_border_width, lemma_col_width_bound, lemma_join_visible, lemma_visible_total_pointwise,
    max_cell_width, max_cols, nat_widths,
    strings_view, visible_len,
};
use crate::text::{push_char, push_repeat, push_str, repeat};

verus! {

/// How a rendered line is to be drawn.
#[derive(Clone, Copy, Debug, Default, PartialEq, Eq)]
pub struct Style {
    pub is_heading: bool,
    pub is_code_block: bool,
    pub is_table: bool,
}

/// The kind of a rendered line.
#[derive(Clone, Copy, Debug, PartialEq, Eq, Structural)]
pub enum LineType {
    Text,
    Heading,
    CodeBlock,
    Table,
    Empty,
}

impl Default for LineType {
    fn default() -> (t: LineType)
        ensures
            t == LineType::Text,
    {
        LineType::Text
    }
}

/// One line of output, with its escape sequences.
#[derive(Clone, Debug)]
pub struct RenderedLine {
    pub content: String,
    pub style: Style,
    pub line_type: LineType,
}

/// A rendered line with its content as characters.
pub struct LineView {
    pub content: Seq<char>,
    pub style: Style,
    pub line_type: LineType,
}

impl View for RenderedLine {
    type V = LineView;

    open spec fn view(&self) -> LineView {
        LineView { content: self.content@, style: self.style, line_type: self.line_type }
    }
}

pub open spec fn plain_style() -> Style {
    Style { is_heading: false, is_code_block: false, is_table: false }
}

impl RenderedLine {
    /// A plain text line.
    pub fn text(content: String) -> (l: RenderedLine)
        ensures
            l@ == (LineView { content: content@, style: plain_style(), line_type: LineType::Text }),
    {
        RenderedLine {
            content,
            style: Style { is_heading: false, is_code_block: false, is_table: false },
            line_type: LineType::Text,
        }
    }

    /// A line with the given style; a heading style makes it a heading line.
    pub fn styled(content: String, style: Style) -> (l: RenderedLine)
        ensures
            l@ == (LineView {
                content: content@,
                style,
                line_type: if style.is_heading {
                    LineType::Heading
                } else {
                    LineType::Text
                },
            }),
    {
        let line_type = if style.is_heading {
            LineType::Heading
        } else {
            LineType::Text
        };
        RenderedLine { content, style, line_type }
    }

    /// A line of a code block.
    pub fn code_block(content: String) -> (l: RenderedLine)
        ensures
            l@ == (LineView {
                content: content@,
                style: Style { is_code_block: true, ..plain_style() },
                line_type: LineType::CodeBlock,
            }),
    {
        RenderedLine {
            content,
            style: Style { is_heading: false, is_code_block: true, is_table: false },
            line_type: LineType::CodeBlock,
        }
    }

    /// A line of a table.
    pub fn table(content: String) -> (l: RenderedLine)
        ensures
            l@ == (LineView {
                content: content@,
                style: Style { is_table: true, ..plain_style() },
                line_type: LineType::Table,
            }),
    {
        RenderedLine {
            content,
            style: Style { is_heading: false, is_code_block: false, is_table: true },
            line_type: LineType::Table,
        }
    }

    /// A blank line.
    pub fn empty() -> (l: RenderedLine)
        ensures
            l@ == (LineView {
                content: Seq::<char>::empty(),
                style: plain_style(),
                line_type: LineType::Empty,
            }),
    {
        RenderedLine {
            content: String::new(),
            style: Style { is_heading: false, is_code_block: false, is_table: false },
            line_type: LineType::Empty,
        }
    }
}

/// The content of `line` as drawn at `opacity`: unchanged at full opacity,
/// else in a gray tone (code lines flat, table lines keeping their grid).
pub open spec fn line_at_opacity(line: LineView, opacity: u8) -> Seq<char> {
    if opacity >= 255 {
        line.content
    } else if line.style.is_code_block {
        flat_gray(line.content, gray_for(opacity))
    } else if line.style.is_table {
        dimmed_table(line.content, gray_for(opacity))
    } else {
        dimmed_text(line.content, gray_for(opacity))
    }
}

/// Draws `line` at `opacity` (255 is fully opaque).
pub fn apply_opacity_to_line(line: &RenderedLine, opacity: u8) -> (r: String)
    ensures
        r@ == line_at_opacity(line@, opacity),
{
    if opacity >= 255 {
        return line.content.clone();
    }
    let gray = gray_code_for(opacity);
    if line.style.is_code_block {
        apply_opacity_to_code(line.content.as_str(), gray)
    } else if line.style.is_table {
        apply_opacity_to_table(line.content.as_str(), gray)
    } else {
        apply_opacity_to_text(line.content.as_str(), gray)
    }
}

/// The colour of a heading of the given level.
pub open spec fn heading_code(level: u8) -> Code {
    if level == 1 {
        Code::Fg(203)
    } else if level == 2 {
        Code::Fg(221)
    } else if level == 3 {
        Code::Fg(114)
    } else if level == 4 {
        Code::Fg(73)
    } else if level == 5 {
        Code::Fg(75)
    } else if level == 6 {
        Code::Fg(176)
    } else {
        Code::White
    }
}

/// The colour of a heading of the given level (see `heading_code`).
pub fn heading_color(level: u8) -> (c: Code)
    ensures
        c == heading_code(level),
{
    if level == 1 {
        Code::Fg(203)
    } else if level == 2 {
        Code::Fg(221)
    } else if level == 3 {
        Code::Fg(114)
    } else if level == 4 {
        Code::Fg(73)
    } else if level == 5 {
        Code::Fg(75)
    } else if level == 6 {
        Code::Fg(176)
    } else {
        Code::White
    }
}

pub open spec fn gray() -> Code {
    Code::Fg(245)
}

pub open spec fn cyan() -> Code {
    Code::Fg(73)
}

pub open spec fn yellow() -> Code {
    Code::Fg(221)
}

pub open spec fn when(b: bool, s: Seq<char>) -> Seq<char> {
    if b {
        s
    } else {
        seq![]
    }
}

pub open spec fn head_codes(heading: Option<u8>) -> Seq<char> {
    match heading {
        Some(l) => code_seq(Code::Bold) + code_seq(heading_code(l)),
        None => seq![],
    }
}

/// Attribute codes of a non-code span.
pub open spec fn attr_codes(sp: SpanView) -> Seq<char> {
    when(sp.style.bold, code_seq(Code::Bold)) + when(sp.style.italic, code_seq(Code::Italic))
        + when(sp.style.strikethrough, code_seq(Code::Strikethrough)) + when(
        sp.style.link,
        code_seq(cyan()),
    )
}

/// A span's own codes, its text and a reset.
pub open spec fn span_body(sp: SpanView) -> Seq<char> {
    if sp.style.code {
        code_seq(Code::BgGray) + sp.text + code_seq(Code::Reset)
    } else {
        attr_codes(sp) + sp.text + code_seq(Code::Reset)
    }
}

/// One span as drawn inside a block with the given heading level.
pub open spec fn span_segment(sp: SpanView, heading: Option<u8>) -> Seq<char> {
    head_codes(heading) + when(sp.style.blockquote, code_seq(gray())) + span_body(sp)
}

/// The spans of a block drawn one after another.
pub open spec fn inline_text(spans: Seq<SpanView>, heading: Option<u8>) -> Seq<char>
    decreases spans.len(),
{
    if spans.len() == 0 {
        seq![]
    } else {
        inline_text(spans.drop_last(), heading) + span_segment(spans.last(), heading)
    }
}

fn push_when(s: &mut String, b: bool, c: Code)
    ensures
        final(s)@ == old(s)@ + when(b, code_seq(c)),
{
    if b {
        push_code(s, c);
    } else {
        assert(s@ =~= old(s)@ + when(b, code_seq(c)));
    }
}

fn push_head(output: &mut String, heading: Option<u8>)
    ensures
        final(output)@ == old(output)@ + head_codes(heading),
{
    match heading {
        Some(l) => {
            push_code(output, Code::Bold);
            push_code(output, heading_color(l));
            assert(output@ =~= old(output)@ + (code_seq(Code::Bold) + code_seq(heading_code(l))));
        },
        None => {
            assert(output@ =~= old(output)@ + head_codes(heading));
        },
    }
}

fn push_attrs(output: &mut String, span: &InlineSpan)
    ensures
        final(output)@ == old(output)@ + attr_codes(span@),
{
    push_when(output, span.style.bold, Code::Bold);
    push_when(output, span.style.italic, Code::Italic);
    push_when(output, span.style.strikethrough, Code::Strikethrough);
    push_when(output, span.style.link, Code::Fg(73));
    assert(output@ =~= old(output)@ + attr_codes(span@));
}

fn push_span_body(output: &mut String, span: &InlineSpan)
    ensures
        final(output)@ == old(output)@ + span_body(span@),
{
    if span.style.code {
        push_code(output, Code::BgGray);
        crate::text::push_str(output, span.text.as_str());
        push_code(output, Code::Reset);
        assert(output@ =~= old(output)@ + span_body(span@));
    } else {
        push_attrs(output, span);
        crate::text::push_str(output, span.text.as_str());
        push_code(output, Code::Reset);
        assert(output@ =~= old(output)@ + span_body(span@));
    }
}

fn push_span_segment(output: &mut String, span: &InlineSpan, heading: Option<u8>)
    ensures
        final(output)@ == old(output)@ + span_segment(span@, heading),
{
    push_head(output, heading);
    push_when(output, span.style.blockquote, Code::Fg(245));
    push_span_body(output, span);
    assert(output@ =~= old(output)@ + span_segment(span@, heading));
}

/// Draws the spans of a block, each closed by a reset.
pub fn render_inline_spans(spans: &[InlineSpan], style: &BlockStyle) -> (r: String)
    ensures
        r@ == inline_text(spans_view(spans@), style.heading_level),
{
    let mut output = String::new();
    let mut i: usize = 0;
    let ghost sv = spans_view(spans@);
    while i < spans.len()
        invariant
            i <= spans@.len(),
            sv == spans_view(spans@),
            output@ == inline_text(sv.take(i as int), style.heading_level),
        decreases spans.len() - i,
    {
        push_span_segment(&mut output, &spans[i], style.heading_level);
        assert(sv.take(i + 1).drop_last() =~= sv.take(i as int));
        assert(sv[i as int] == spans@[i as int]@);
        i += 1;
    }
    assert(sv.take(spans@.len() as int) =~= sv);
    output
}

} // verus!

verus! {

/// The drawn text of every cell of a table.
pub open spec fn cell_grid(rows: Seq<Seq<Seq<SpanView>>>) -> Seq<Seq<Seq<char>>> {
    rows.map_values(
        |r: Seq<Seq<SpanView>>| r.map_values(|c: Seq<SpanView>| inline_text(c, None)),
    )
}

/// Width of column `i`, or 10 past the known columns.
pub open spec fn width_at(ws: Seq<nat>, i: int) -> nat {
    if 0 <= i < ws.len() {
        ws[i]
    } else {
        10
    }
}

/// Number of spaces after a cell's text: one more than it falls short of `w`.
pub open spec fn cell_padding(t: Seq<char>, w: nat) -> nat {
    let d = visible(t).len();
    ((if w >= d {
        w - d
    } else {
        0
    }) + 1) as nat
}

/// A cell cut to its column width and padded: a space, the text (bold
/// yellow in the header row) and the padding.
pub open spec fn padded_cell(cell: Seq<char>, w: nat, header: bool) -> Seq<char> {
    let t = truncated(cell, w);
    let pad = repeat(' ', cell_padding(t, w));
    seq![' '] + code_seq(gray()) + (if header {
        code_seq(Code::Bold) + code_seq(yellow()) + t + code_seq(Code::Reset) + pad
    } else {
        t + pad + code_seq(Code::Reset)
    }) + code_seq(gray())
}

pub open spec fn padded_cells(cells: Seq<Seq<char>>, ws: Seq<nat>, header: bool) -> Seq<Seq<char>> {
    Seq::new(cells.len(), |i: int| padded_cell(cells[i], width_at(ws, i), header))
}

/// A table row: its cells between vertical bars.
pub open spec fn row_line(cells: Seq<Seq<char>>, ws: Seq<nat>, header: bool) -> Seq<char> {
    code_seq(gray()) + seq!['│'] + join(padded_cells(cells, ws, header), '│') + seq!['│'] + code_seq(
        Code::Reset,
    )
}

/// The lines of the first `k` rows: the first row is the header, followed
/// by a separator when more rows come.
pub open spec fn table_body(g: Seq<Seq<Seq<char>>>, ws: Seq<nat>, k: nat) -> Seq<Seq<char>>
    decreases k,
{
    if k == 0 {
        seq![]
    } else {
        let prev = table_body(g, ws, (k - 1) as nat);
        let line = row_line(g[k - 1], ws, k == 1);
        if k == 1 && g.len() > 1 {
            prev.push(line).push(border_line('├', '┼', '┤', ws))
        } else {
            prev.push(line)
        }
    }
}

/// A table of drawn cells as grid lines.
pub open spec fn table_lines(g: Seq<Seq<Seq<char>>>) -> Seq<Seq<char>> {
    if g.len() == 0 {
        seq![]
    } else {
        let ws = col_widths(g);
        seq![border_line('┌', '┬', '┐', ws)] + table_body(g, ws, g.len()) + seq![
            border_line('└', '┴', '┘', ws),
        ]
    }
}

fn render_cells(rows: &[Vec<Vec<InlineSpan>>]) -> (g: Vec<Vec<String>>)
    ensures
        grid_view(g@) == cell_grid(rows_view(rows@)),
{
    let ghost want = cell_grid(rows_view(rows@));
    let mut out: Vec<Vec<String>> = Vec::new();
    let mut r: usize = 0;
    while r < rows.len()
        invariant
            r <= rows@.len(),
            want == cell_grid(rows_view(rows@)),
            grid_view(out@) == want.take(r as int),
            out@.len() == r,
            want.len() == rows@.len(),
        decreases rows.len() - r,
    {
        let row = &rows[r];
        let ghost wr = want[r as int];
        proof {
            assert(rows_view(rows@)[r as int] == crate::parser::row_view(row@));
            assert(wr.len() == row@.len());
        }
        let mut cells: Vec<String> = Vec::new();
        let mut i: usize = 0;
        while i < row.len()
            invariant
                i <= row@.len(),
                r < rows@.len(),
                row == rows@[r as int],
                wr == want[r as int],
                want == cell_grid(rows_view(rows@)),
                strings_view(cells@) == wr.take(i as int),
                cells@.len() == i,
                wr.len() == row@.len(),
            decreases row.len() - i,
        {
            let cell = render_inline_spans(row[i].as_slice(), &BlockStyle { heading_level: None });
            proof {
                assert(rows_view(rows@)[r as int] == crate::parser::row_view(row@));
                assert(crate::parser::row_view(row@)[i as int] == spans_view(row@[i as int]@));
                assert(wr[i as int] == inline_text(spans_view(row@[i as int]@), None));
            }
            let ghost before = cells@;
            let ghost cview = cell@;
            assert(cview == wr[i as int]);
            cells.push(cell);
            assert(cells@[i as int]@ == cview);
            assert(strings_view(cells@) =~= wr.take(i + 1)) by {
                assert forall|q: int| 0 <= q < i + 1 implies strings_view(cells@)[q] == wr.take(
                    i + 1,
                )[q] by {
                    if q < i {
                        assert(cells@[q] == before[q]);
                        assert(strings_view(before)[q] == wr.take(i as int)[q]);
                    }
                }
            }
            i += 1;
        }
        proof {
            assert(rows_view(rows@)[r as int] == crate::parser::row_view(row@));
            assert(wr.len() == row@.len());
        }
        assert(wr.take(row@.len() as int) =~= wr);
        let ghost before_out = out@;
        out.push(cells);
        assert(grid_view(out@) =~= want.take(r + 1)) by {
            assert forall|q: int| 0 <= q < r + 1 implies grid_view(out@)[q] == want.take(r + 1)[q] by {
                if q < r {
                    assert(out@[q] == before_out[q]);
                    assert(grid_view(before_out)[q] == want.take(r as int)[q]);
                } else {
                    assert(out@[q]@ == cells@);
                }
            }
        }
        assert(grid_view(out@) =~= want.take(r + 1));
        r += 1;
    }
    assert(want.take(rows@.len() as int) =~= want);
    out
}

fn push_padded_cell(s: &mut String, cell: &str, w: usize, header: bool)
    requires
        w <= 1000,
    ensures
        final(s)@ == old(s)@ + padded_cell(cell@, w as nat, header),
{
    let t = truncate_visible(cell, w);
    let d = visible_len(t.as_str());
    let padding = w.saturating_sub(d).saturating_add(1);
    assert(padding == cell_padding(t@, w as nat));
    push_char(s, ' ');
    push_code(s, Code::Fg(245));
    let ghost a = s@;
    if header {
        push_code(s, Code::Bold);
        push_code(s, Code::Fg(221));
        push_str(s, t.as_str());
        push_code(s, Code::Reset);
        push_repeat(s, ' ', padding);
    } else {
        push_str(s, t.as_str());
        push_repeat(s, ' ', padding);
        push_code(s, Code::Reset);
    }
    let ghost b = s@;
    assert(b =~= a + (if header {
        code_seq(Code::Bold) + code_seq(yellow()) + t@ + code_seq(Code::Reset) + repeat(
            ' ',
            padding as nat,
        )
    } else {
        t@ + repeat(' ', padding as nat) + code_seq(Code::Reset)
    }));
    push_code(s, Code::Fg(245));
    assert(s@ =~= old(s)@ + padded_cell(cell@, w as nat, header));
}

/// Draws one table row.
fn render_row_line(cells: &Vec<String>, widths: &Vec<usize>, header: bool) -> (s: String)
    requires
        forall|i: int| 0 <= i < widths@.len() ==> widths@[i] <= max_cell_width(),
    ensures
        s@ == row_line(strings_view(cells@), nat_widths(widths@), header),
{
    let ghost ws = nat_widths(widths@);
    let ghost parts = padded_cells(strings_view(cells@), ws, header);
    let mut s = String::new();
    push_code(&mut s, Code::Fg(245));
    push_char(&mut s, '│');
    let ghost start = s@;
    let mut i: usize = 0;
    while i < cells.len()
        invariant
            i <= cells@.len(),
            ws == nat_widths(widths@),
            parts == padded_cells(strings_view(cells@), ws, header),
            forall|q: int| 0 <= q < widths@.len() ==> widths@[q] <= max_cell_width(),
            s@ == start + join(parts.take(i as int), '│'),
        decreases cells.len() - i,
    {
        let w = if i < widths.len() {
            widths[i]
        } else {
            10
        };
        assert(w == width_at(ws, i as int));
        if i > 0 {
            push_char(&mut s, '│');
        }
        push_padded_cell(&mut s, cells[i].as_str(), w, header);
        assert(parts.take(i + 1).drop_last() =~= parts.take(i as int));
        assert(parts[i as int] == padded_cell(cells@[i as int]@, w as nat, header));
        if i == 0 {
            assert(join(parts.take(1), '│') == parts[0]);
        }
        assert(s@ =~= start + join(parts.take(i + 1), '│'));
        i += 1;
    }
    assert(parts.take(cells@.len() as int) =~= parts);
    push_char(&mut s, '│');
    push_code(&mut s, Code::Reset);
    assert(s@ =~= row_line(strings_view(cells@), ws, header));
    s
}

/// Draws a table whose cells are runs of spans.
pub fn render_table_rows(rows: &[Vec<Vec<InlineSpan>>]) -> (lines: Vec<String>)
    ensures
        strings_view(lines@) == table_lines(cell_grid(rows_view(rows@))),
{
    let mut lines: Vec<String> = Vec::new();
    if rows.len() == 0 {
        assert(strings_view(lines@) =~= Seq::<Seq<char>>::empty());
        return lines;
    }
    let grid = render_cells(rows);
    let ghost g = grid_view(grid@);
    let widths = compute_col_widths(grid.as_slice());
    let ghost ws = col_widths(g);
    assert(nat_widths(widths@) =~= ws);
    proof {
        assert forall|i: int| 0 <= i < widths@.len() implies widths@[i] <= max_cell_width() by {
            lemma_col_width_bound(g, i);
        }
    }
    lines.push(border('┌', '┬', '┐', &widths));
    let mut r: usize = 0;
    while r < grid.len()
        invariant
            r <= grid@.len(),
            g == grid_view(grid@),
            g.len() == grid@.len(),
            g.len() > 0,
            nat_widths(widths@) == ws,
            ws == col_widths(g),
            forall|i: int| 0 <= i < widths@.len() ==> widths@[i] <= max_cell_width(),
            strings_view(lines@) == seq![border_line('┌', '┬', '┐', ws)] + table_body(
                g,
                ws,
                r as nat,
            ),
        decreases grid.len() - r,
    {
        let line = render_row_line(&grid[r], &widths, r == 0);
        assert(g[r as int] == strings_view(grid@[r as int]@));
        let ghost prev = strings_view(lines@);
        lines.push(line);
        assert(strings_view(lines@) =~= prev.push(row_line(g[r as int], ws, r == 0)));
        if r == 0 && grid.len() > 1 {
            let ghost prev2 = strings_view(lines@);
            let b = border('├', '┼', '┤', &widths);
            lines.push(b);
            assert(strings_view(lines@) =~= prev2.push(border_line('├', '┼', '┤', ws)));
        }
        assert(strings_view(lines@) =~= seq![border_line('┌', '┬', '┐', ws)] + table_body(
            g,
            ws,
            (r + 1) as nat,
        ));
        r += 1;
    }
    lines.push(border('└', '┴', '┘', &widths));
    assert(strings_view(lines@) =~= table_lines(g));
    lines
}

} // verus!

verus! {

/// A closed cell, padded, is exactly two wider than its column.
pub proof fn lemma_padded_cell_width(cell: Seq<char>, w: nat, header: bool)
    requires
        closed(cell),
    ensures
        closed(padded_cell(cell, w, header)),
        visible(padded_cell(cell, w, header)).len() == w + 2,
{
    let t = truncated(cell, w);
    lemma_truncated_visible(cell, w);
    lemma_truncated_closed(cell, w);
    let d = visible(t).len();
    assert(d <= w);
    let pad = repeat(' ', cell_padding(t, w));
    assert(no_esc(pad));
    assert(no_esc(seq![' ']));
    let g = code_seq(gray());
    lemma_strip_plain(seq![' ']);
    lemma_visible_code_end(seq![' '], gray());
    let a = seq![' '] + g;
    let x = if header {
        code_seq(Code::Bold) + code_seq(yellow()) + t + code_seq(Code::Reset) + pad
    } else {
        t + pad + code_seq(Code::Reset)
    };
    if header {
        crate::ansi::lemma_code_invisible(Code::Bold, false);
        lemma_visible_code_concat(Code::Bold, code_seq(yellow()));
        lemma_visible_code_end(code_seq(Code::Bold), yellow());
        let b = code_seq(Code::Bold) + code_seq(yellow());
        lemma_visible_concat(b, t);
        lemma_visible_code_end(b + t, Code::Reset);
        lemma_visible_plain_end(b + t + code_seq(Code::Reset), pad);
        assert(visible(x) =~= visible(t) + pad);
    } else {
        lemma_visible_plain_end(t, pad);
        lemma_visible_code_end(t + pad, Code::Reset);
        assert(visible(x) =~= visible(t) + pad);
    }
    lemma_visible_concat(a, x);
    lemma_visible_code_end(a + x, gray());
    assert(visible(a) =~= seq![' ']);
}

/// A row with one cell per column is as wide as the grid.
pub proof fn lemma_row_line_width(cells: Seq<Seq<char>>, ws: Seq<nat>, header: bool)
    requires
        cells.len() == ws.len(),
        forall|i: int| 0 <= i < cells.len() ==> closed(#[trigger] cells[i]),
    ensures
        visible(row_line(cells, ws, header)).len() == grid_width(ws),
{
    let parts = padded_cells(cells, ws, header);
    assert forall|i: int| 0 <= i < parts.len() implies closed(#[trigger] parts[i]) && visible(
        parts[i],
    ).len() == ws[i] + 2 by {
        assert(parts[i] == padded_cell(cells[i], width_at(ws, i), header));
        lemma_padded_cell_width(cells[i], width_at(ws, i), header);
    }
    lemma_join_visible(parts, '│');
    lemma_visible_total_pointwise(parts, ws);
    let j = join(parts, '│');
    let g = code_seq(gray());
    assert(no_esc(seq!['│']));
    lemma_strip_plain(seq!['│']);
    lemma_visible_code_concat(gray(), seq!['│']);
    lemma_visible_concat(g + seq!['│'], j);
    lemma_visible_plain_end(g + seq!['│'] + j, seq!['│']);
    lemma_visible_code_end(g + seq!['│'] + j + seq!['│'], Code::Reset);
}

proof fn lemma_table_body_width(g: Seq<Seq<Seq<char>>>, ws: Seq<nat>, k: nat)
    requires
        k <= g.len(),
        forall|r: int| 0 <= r < g.len() ==> #[trigger] g[r].len() == ws.len(),
        forall|r: int, i: int| 0 <= r < g.len() && 0 <= i < g[r].len() ==> closed(#[trigger] g[r][i]),
    ensures
        forall|i: int|
            0 <= i < table_body(g, ws, k).len() ==> visible(#[trigger] table_body(g, ws, k)[i]).len()
                == grid_width(ws),
    decreases k,
{
    if k > 0 {
        let k1 = (k - 1) as nat;
        lemma_table_body_width(g, ws, k1);
        let row = g[k1 as int];
        assert forall|i: int| 0 <= i < row.len() implies closed(#[trigger] row[i]) by {
            assert(closed(g[k1 as int][i]));
        }
        lemma_row_line_width(row, ws, k == 1);
        lemma_border_width('├', '┼', '┤', ws);
        let prev = table_body(g, ws, k1);
        let body = table_body(g, ws, k);
        assert forall|i: int| 0 <= i < body.len() implies visible(#[trigger] body[i]).len()
            == grid_width(ws) by {
            if i < prev.len() {
                assert(body[i] == prev[i]);
            } else if i == prev.len() {
                assert(body[i] == row_line(row, ws, k == 1));
            } else {
                assert(body[i] == border_line('├', '┼', '┤', ws));
            }
        }
    }
}

/// Aligned grid: when every row of a table has the same number of cells,
/// every line drawn for it (borders, separator and rows) shows the same
/// number of characters; long cells are cut rather than widening the grid.
pub proof fn lemma_table_lines_aligned(rows: Seq<Seq<Seq<SpanView>>>)
    requires
        forall|r: int| 0 <= r < rows.len() ==> #[trigger] rows[r].len() == rows[0].len(),
    ensures
        ({
            let lines = table_lines(cell_grid(rows));
            forall|i: int, j: int|
                0 <= i < lines.len() && 0 <= j < lines.len() ==> visible(#[trigger] lines[i]).len()
                    == visible(#[trigger] lines[j]).len()
        }),
{
    let g = cell_grid(rows);
    if g.len() > 0 {
        let ws = col_widths(g);
        assert forall|r: int| 0 <= r < g.len() implies #[trigger] g[r].len() == ws.len() by {
            lemma_max_cols_uniform(g);
        }
        assert forall|r: int, i: int| 0 <= r < g.len() && 0 <= i < g[r].len() implies closed(
            #[trigger] g[r][i],
        ) by {
            assert(g[r][i] == inline_text(rows[r][i], None));
            lemma_inline_text_closed(rows[r][i], None);
        }
        lemma_table_body_width(g, ws, g.len());
        lemma_border_width('┌', '┬', '┐', ws);
        lemma_border_width('└', '┴', '┘', ws);
        let lines = table_lines(g);
        let body = table_body(g, ws, g.len());
        assert forall|i: int| 0 <= i < lines.len() implies visible(#[trigger] lines[i]).len()
            == grid_width(ws) by {
            if i > 0 && i < lines.len() - 1 {
                assert(lines[i] == body[i - 1]);
            }
        }
    }
}

pub proof fn lemma_max_cols_uniform(g: Seq<Seq<Seq<char>>>)
    requires
        g.len() > 0,
        forall|r: int| 0 <= r < g.len() ==> #[trigger] g[r].len() == g[0].len(),
    ensures
        max_cols(g) == g[0].len(),
    decreases g.len(),
{
    if g.len() > 1 {
        let p = g.drop_last();
        assert forall|r: int| 0 <= r < p.len() implies #[trigger] p[r].len() == p[0].len() by {
            assert(p[r] == g[r]);
        }
        lemma_max_cols_uniform(p);
        assert(p[0] == g[0]);
        assert(g.last().len() == g[0].len()) by {
            assert(g.last() == g[g.len() - 1]);
        }
    } else {
        assert(g.drop_last().len() == 0);
        assert(max_cols(g.drop_last()) == 0);
        assert(g.last() == g[0]);
    }
}

/// Drawn spans always end closed (each ends with a reset).
pub proof fn lemma_inline_text_closed(spans: Seq<SpanView>, heading: Option<u8>)
    ensures
        closed(inline_text(spans, heading)),
    decreases spans.len(),
{
    if spans.len() == 0 {
        assert(closed(Seq::<char>::empty()));
    } else {
        let sp = spans.last();
        let prefix = inline_text(spans.drop_last(), heading) + head_codes(heading) + when(
            sp.style.blockquote,
            code_seq(gray()),
        );
        let body_core = if sp.style.code {
            code_seq(Code::BgGray) + sp.text
        } else {
            attr_codes(sp) + sp.text
        };
        assert(inline_text(spans, heading) =~= (prefix + body_core) + code_seq(Code::Reset));
        lemma_visible_code_end(prefix + body_core, Code::Reset);
    }
}

} // verus!

verus! {

impl RenderedLine {
    /// A copy of the line.
    pub fn duplicate(&self) -> (l: RenderedLine)
        ensures
            l@ == self@,
    {
        RenderedLine { content: self.content.clone(), style: self.style, line_type: self.line_type }
    }
}

pub open spec fn lines_view(v: Seq<RenderedLine>) -> Seq<LineView> {
    v.map_values(|l: RenderedLine| l@)
}

/// The lines drawn for one block of the document.
#[derive(Clone, Debug)]
pub struct RenderedEntity {
    pub lines: Vec<RenderedLine>,
}

/// An entity can take the focus when some line of it is not blank.
pub open spec fn focusable(lines: Seq<LineView>) -> bool {
    exists|i: int| 0 <= i < lines.len() && lines[i].line_type != LineType::Empty
}

impl RenderedEntity {
    /// The entity can take the focus (see `focusable`).
    pub fn is_focusable(&self) -> (b: bool)
        ensures
            b == focusable(lines_view(self.lines@)),
    {
        let mut i: usize = 0;
        while i < self.lines.len()
            invariant
                i <= self.lines@.len(),
                forall|j: int| 0 <= j < i ==> self.lines@[j].line_type == LineType::Empty,
            decreases self.lines.len() - i,
        {
            if self.lines[i].line_type != LineType::Empty {
                assert(lines_view(self.lines@)[i as int].line_type != LineType::Empty);
                return true;
            }
            i += 1;
        }
        assert forall|j: int| 0 <= j < lines_view(self.lines@).len() implies lines_view(
            self.lines@,
        )[j].line_type == LineType::Empty by {
            assert(self.lines@[j].line_type == LineType::Empty);
        }
        false
    }
}

pub open spec fn text_line(content: Seq<char>) -> LineView {
    LineView { content, style: plain_style(), line_type: LineType::Text }
}

pub open spec fn empty_line() -> LineView {
    LineView { content: seq![], style: plain_style(), line_type: LineType::Empty }
}

pub open spec fn code_line(content: Seq<char>) -> LineView {
    LineView {
        content,
        style: Style { is_code_block: true, ..plain_style() },
        line_type: LineType::CodeBlock,
    }
}

pub open spec fn table_line(content: Seq<char>) -> LineView {
    LineView { content, style: Style { is_table: true, ..plain_style() }, line_type: LineType::Table }
}

/// A horizontal rule: thirty `─` in gray.
pub open spec fn rule_text() -> Seq<char> {
    code_seq(gray()) + repeat('─', 30) + code_seq(Code::Reset)
}

/// The lines drawn for block `b`, code blocks highlighted with the syntaxes
/// `ss` and the themes `ts`: a text block is one line (blank when it draws to
/// nothing, a heading line for a heading); a code block its framed,
/// highlighted lines; a table its grid lines; a separator one blank line; a
/// rule one gray rule line.
pub open spec fn block_lines(ss: SyntaxSet, ts: ThemeSet, b: BlockView) -> Seq<LineView> {
    match b {
        BlockView::Text { spans, style } => {
            let r = inline_text(spans, style.heading_level);
            if r.len() == 0 {
                seq![empty_line()]
            } else {
                seq![
                    LineView {
                        content: r,
                        style: Style { is_heading: style.heading_level is Some, ..plain_style() },
                        line_type: if style.heading_level is Some {
                            LineType::Heading
                        } else {
                            LineType::Text
                        },
                    },
                ]
            }
        },
        BlockView::CodeBlock { lang, content } => code_block_text(ss, ts, lang, content).map_values(
            |c: Seq<char>| code_line(c),
        ),
        BlockView::Table { rows } => table_lines(cell_grid(rows)).map_values(
            |c: Seq<char>| table_line(c),
        ),
        BlockView::Empty => seq![empty_line()],
        BlockView::Rule => seq![text_line(rule_text())],
    }
}

/// The lines of the blocks `bs`, drawn one after another.
pub open spec fn blocks_lines(ss: SyntaxSet, ts: ThemeSet, bs: Seq<BlockView>) -> Seq<LineView> {
    bs.map_values(|b: BlockView| block_lines(ss, ts, b)).flatten()
}

/// Drawing two runs of blocks one after the other gives the lines of the
/// two runs joined; no blocks draw no lines.
pub proof fn lemma_blocks_lines_concat(ss: SyntaxSet, ts: ThemeSet, a: Seq<BlockView>, b: Seq<BlockView>)
    ensures
        blocks_lines(ss, ts, a + b) == blocks_lines(ss, ts, a) + blocks_lines(ss, ts, b),
        blocks_lines(ss, ts, seq![]) == Seq::<LineView>::empty(),
{
    let f = |x: BlockView| block_lines(ss, ts, x);
    assert((a + b).map_values(f) =~= a.map_values(f) + b.map_values(f));
    vstd::seq_lib::lemma_flatten_concat(a.map_values(f), b.map_values(f));
    assert(Seq::<BlockView>::empty().map_values(f) =~= Seq::<Seq<LineView>>::empty());
}

/// The renderer: syntax definitions and colour themes for code blocks.
pub struct MarkdownRenderer {
    syntax_set: SyntaxSet,
    theme_set: ThemeSet,
}

impl MarkdownRenderer {
    #[verifier::type_invariant]
    spec fn well_formed(self) -> bool {
        &&& syntax_names(self.syntax_set).contains(plain_text_name())
        &&& theme_names(self.theme_set).contains(ocean_dark_name())
    }

    /// The syntax definitions code blocks are highlighted with.
    pub closed spec fn syntaxes(&self) -> SyntaxSet {
        self.syntax_set
    }

    /// The colour themes code blocks are highlighted with.
    pub closed spec fn themes(&self) -> ThemeSet {
        self.theme_set
    }

    /// A renderer with syntect's default syntaxes and themes.
    pub fn new() -> (r: MarkdownRenderer) {
        MarkdownRenderer { syntax_set: load_syntax_set(), theme_set: load_theme_set() }
    }

    /// Draws a code block (see `code_block_lines`).
    pub fn render_code_block(&self, lang: &str, code: &str) -> (lines: Vec<String>)
        ensures
            str_views(lines@) == code_block_text(self.syntaxes(), self.themes(), lang@, code@),
    {
        proof {
            use_type_invariant(self);
        }
        code_block_lines(&self.syntax_set, &self.theme_set, lang, code)
    }

    /// Draws a table whose cells are runs of spans.
    pub fn render_table(&self, rows: &[Vec<Vec<InlineSpan>>]) -> (lines: Vec<String>)
        ensures
            strings_view(lines@) == table_lines(cell_grid(rows_view(rows@))),
    {
        render_table_rows(rows)
    }

    /// Draws one block.
    pub fn render_block(&self, block: &ParsedBlock) -> (lines: Vec<RenderedLine>)
        ensures
            lines_view(lines@) == block_lines(self.syntaxes(), self.themes(), block@),
    {
        let mut lines: Vec<RenderedLine> = Vec::new();
        match block {
            ParsedBlock::Text { spans, style } => {
                let rendered = render_inline_spans(spans.as_slice(), style);
                if rendered.as_str().is_empty() {
                    lines.push(RenderedLine::empty());
                } else {
                    let line_style = Style {
                        is_heading: style.heading_level.is_some(),
                        is_code_block: false,
                        is_table: false,
                    };
                    lines.push(RenderedLine::styled(rendered, line_style));
                }
                assert(lines_view(lines@) =~= seq![lines@[0]@]);
            },
            ParsedBlock::CodeBlock { lang, content } => {
                let code = self.render_code_block(lang.as_str(), content.as_str());
                let ghost cv = str_views(code@);
                let mut i: usize = 0;
                while i < code.len()
                    invariant
                        i <= code@.len(),
                        cv == str_views(code@),
                        lines@.len() == i,
                        forall|j: int| 0 <= j < i ==> #[trigger] lines@[j]@ == code_line(cv[j]),
                    decreases code.len() - i,
                {
                    lines.push(RenderedLine::code_block(code[i].clone()));
                    i += 1;
                }
                assert(lines_view(lines@) =~= cv.map_values(|c: Seq<char>| code_line(c)));
            },
            ParsedBlock::Table { rows } => {
                let tl = self.render_table(rows.as_slice());
                let ghost tv = strings_view(tl@);
                let mut i: usize = 0;
                while i < tl.len()
                    invariant
                        i <= tl@.len(),
                        tv == strings_view(tl@),
                        lines@.len() == i,
                        forall|j: int| 0 <= j < i ==> #[trigger] lines@[j]@ == table_line(tv[j]),
                    decreases tl.len() - i,
                {
                    lines.push(RenderedLine::table(tl[i].clone()));
                    i += 1;
                }
                assert(lines_view(lines@) =~= tv.map_values(|c: Seq<char>| table_line(c)));
            },
            ParsedBlock::Empty => {
                lines.push(RenderedLine::empty());
                assert(lines_view(lines@) =~= seq![empty_line()]);
            },
            ParsedBlock::Rule => {
                let mut r = String::new();
                push_code(&mut r, Code::Fg(245));
                push_repeat(&mut r, '─', 30);
                push_code(&mut r, Code::Reset);
                lines.push(RenderedLine::text(r));
                assert(lines_view(lines@) =~= seq![text_line(rule_text())]);
            },
        }
        lines
    }

    /// Draws each block as an entity of its own, in order.
    pub fn render_entities(&self, blocks: &[ParsedBlock]) -> (ents: Vec<RenderedEntity>)
        ensures
            ents@.len() == blocks@.len(),
            forall|i: int|
                0 <= i < blocks@.len() ==> lines_view(#[trigger] ents@[i].lines@) == block_lines(
                    self.syntaxes(),
                    self.themes(),
                    blocks@[i]@,
                ),
    {
        let mut ents: Vec<RenderedEntity> = Vec::new();
        let mut i: usize = 0;
        while i < blocks.len()
            invariant
                i <= blocks@.len(),
                ents@.len() == i,
                forall|j: int|
                    0 <= j < i ==> lines_view(#[trigger] ents@[j].lines@) == block_lines(
                        self.syntaxes(),
                        self.themes(),
                        blocks@[j]@,
                    ),
            decreases blocks.len() - i,
        {
            let lines = self.render_block(&blocks[i]);
            ents.push(RenderedEntity { lines });
            i += 1;
        }
        ents
    }

    /// Draws the blocks one after another.
    pub fn render(&self, blocks: &[ParsedBlock]) -> (lines: Vec<RenderedLine>)
        ensures
            lines_view(lines@) == blocks_lines(self.syntaxes(), self.themes(), blocks_view(blocks@)),
    {
        let ents = self.render_entities(blocks);
        let ghost parts = ents@.map_values(|e: RenderedEntity| lines_view(e.lines@));
        let mut lines: Vec<RenderedLine> = Vec::new();
        let mut i: usize = 0;
        while i < ents.len()
            invariant
                i <= ents@.len(),
                parts == ents@.map_values(|e: RenderedEntity| lines_view(e.lines@)),
                lines_view(lines@) == parts.take(i as int).flatten(),
            decreases ents.len() - i,
        {
            let ent = &ents[i];
            let mut k: usize = 0;
            let ghost base = lines_view(lines@);
            while k < ent.lines.len()
                invariant
                    k <= ent.lines@.len(),
                    lines_view(lines@) == base + lines_view(ent.lines@).take(k as int),
                decreases ent.lines.len() - k,
            {
                let ghost before = lines_view(lines@);
                lines.push(ent.lines[k].duplicate());
                assert(lines_view(lines@) =~= before.push(ent.lines@[k as int]@));
                assert(lines_view(ent.lines@).take(k + 1) =~= lines_view(ent.lines@).take(
                    k as int,
                ).push(ent.lines@[k as int]@));
                k += 1;
            }
            assert(lines_view(ent.lines@).take(ent.lines@.len() as int) =~= lines_view(ent.lines@));
            proof {
                assert(parts.take(i + 1) =~= parts.take(i as int).push(parts[i as int]));
                assert(parts[i as int] == lines_view(ent.lines@));
                parts.take(i as int).lemma_flatten_push(parts[i as int]);
            }
            i += 1;
        }
        assert(parts.take(ents@.len() as int) =~= parts);
        assert(parts =~= blocks_view(blocks@).map_values(
            |b: BlockView| block_lines(self.syntaxes(), self.themes(), b),
        ));
        lines
    }
}

impl Default for MarkdownRenderer {
    fn default() -> (r: MarkdownRenderer) {
        MarkdownRenderer::new()
    }
}

} // verus!

verus! {

/// Drawing two runs of spans one after the other is drawing each in turn.
proof fn lemma_inline_text_concat(a: Seq<SpanView>, b: Seq<SpanView>, heading: Option<u8>)
    ensures
        inline_text(a + b, heading) == inline_text(a, heading) + inline_text(b, heading),
    decreases b.len(),
{
    if b.len() == 0 {
        assert(a + b =~= a);
    } else {
        lemma_inline_text_concat(a, b.drop_last(), heading);
        assert((a + b).drop_last() =~= a + b.drop_last());
        assert((a + b).last() == b.last());
    }
}

/// Emphasis is drawn in italics: with one non-code span of a run made
/// italic, the run draws as it did, with the italic code put in before that
/// span's text (and nothing else changed).
pub proof fn lemma_italic_span_drawn(spans: Seq<SpanView>, heading: Option<u8>, i: int)
    requires
        0 <= i < spans.len(),
        !spans[i].style.italic,
        !spans[i].style.code,
    ensures
        ({
            let it = spans.update(
                i,
                SpanView { text: spans[i].text, style: InlineStyle { italic: true, ..spans[i].style } },
            );
            exists|a: Seq<char>, b: Seq<char>, c: Seq<char>|
                inline_text(spans, heading) == a + b + spans[i].text + code_seq(Code::Reset) + c
                    && #[trigger] inline_text(it, heading) == a + code_seq(Code::Italic) + b + spans[i].text
                    + code_seq(Code::Reset) + c
        }),
{
    let sp = spans[i];
    let isp = SpanView { text: sp.text, style: InlineStyle { italic: true, ..sp.style } };
    let it = spans.update(i, isp);
    let p0 = inline_text(spans.take(i), heading);
    let c = inline_text(spans.skip(i + 1), heading);
    lemma_inline_text_around(spans, i, heading);
    lemma_inline_text_around(it, i, heading);
    assert(it.take(i) =~= spans.take(i));
    assert(it.skip(i + 1) =~= spans.skip(i + 1));
    assert(it[i] == isp);
    let h = head_codes(heading);
    let q = when(sp.style.blockquote, code_seq(gray()));
    let bo = when(sp.style.bold, code_seq(Code::Bold));
    let b = when(sp.style.strikethrough, code_seq(Code::Strikethrough)) + when(sp.style.link, code_seq(cyan()));
    let ital = code_seq(Code::Italic);
    let rs = code_seq(Code::Reset);
    lemma_segment_italic(sp, heading);
    lemma_run_shape(p0, h, q, bo, Seq::<char>::empty(), b, sp.text, rs, c);
    lemma_run_shape(p0, h, q, bo, ital, b, sp.text, rs, c);
    assert(h + q + bo + Seq::<char>::empty() =~= h + q + bo);
    assert(p0 + (h + q + bo) + Seq::<char>::empty() =~= p0 + (h + q + bo));
    let a = p0 + (h + q + bo);
    assert(inline_text(spans, heading) == a + b + sp.text + rs + c);
    assert(inline_text(it, heading) == a + ital + b + sp.text + rs + c);
}

/// Regrouping a run around one span's segment.
proof fn lemma_run_shape(
    p: Seq<char>,
    h: Seq<char>,
    q: Seq<char>,
    bo: Seq<char>,
    i: Seq<char>,
    b: Seq<char>,
    t: Seq<char>,
    r: Seq<char>,
    c: Seq<char>,
)
    ensures
        p + (h + q + bo + i + b + t + r) + c == p + (h + q + bo) + i + b + t + r + c,
{
    assert(p + (h + q + bo + i + b + t + r) + c =~= p + (h + q + bo) + i + b + t + r + c);
}

/// The segment of a non-code span, and of the same span made italic: the
/// italic code comes after the heading, quote and bold codes, before the
/// strikethrough and link codes and the text.
proof fn lemma_segment_italic(sp: SpanView, heading: Option<u8>)
    requires
        !sp.style.italic,
        !sp.style.code,
    ensures
        span_segment(sp, heading) == head_codes(heading) + when(sp.style.blockquote, code_seq(gray())) + when(
            sp.style.bold,
            code_seq(Code::Bold),
        ) + (when(sp.style.strikethrough, code_seq(Code::Strikethrough)) + when(sp.style.link, code_seq(cyan())))
            + sp.text + code_seq(Code::Reset),
        span_segment(SpanView { text: sp.text, style: InlineStyle { italic: true, ..sp.style } }, heading)
            == head_codes(heading) + when(sp.style.blockquote, code_seq(gray())) + when(
            sp.style.bold,
            code_seq(Code::Bold),
        ) + code_seq(Code::Italic) + (when(sp.style.strikethrough, code_seq(Code::Strikethrough)) + when(
            sp.style.link,
            code_seq(cyan()),
        )) + sp.text + code_seq(Code::Reset),
{
    let isp = SpanView { text: sp.text, style: InlineStyle { italic: true, ..sp.style } };
    let h = head_codes(heading);
    let q = when(sp.style.blockquote, code_seq(gray()));
    let b = when(sp.style.bold, code_seq(Code::Bold));
    let st = when(sp.style.strikethrough, code_seq(Code::Strikethrough));
    let l = when(sp.style.link, code_seq(cyan()));
    let t = sp.text;
    let r = code_seq(Code::Reset);
    let i = code_seq(Code::Italic);
    let e = Seq::<char>::empty();
    assert(when(false, i) == e);
    assert(attr_codes(sp) == b + e + st + l);
    assert(attr_codes(isp) == b + i + st + l);
    assert(span_segment(sp, heading) == h + q + (attr_codes(sp) + t + r));
    assert(span_segment(isp, heading) == h + q + (attr_codes(isp) + t + r));
    lemma_segment_shape(h, q, b, e, st, l, t, r);
    lemma_segment_shape(h, q, b, i, st, l, t, r);
    assert(h + q + b + e =~= h + q + b);
}

/// Regrouping the parts of a segment.
proof fn lemma_segment_shape(
    h: Seq<char>,
    q: Seq<char>,
    b: Seq<char>,
    i: Seq<char>,
    s: Seq<char>,
    l: Seq<char>,
    t: Seq<char>,
    r: Seq<char>,
)
    ensures
        h + q + (b + i + s + l + t + r) == h + q + b + i + (s + l) + t + r,
{
    assert(h + q + (b + i + s + l + t + r) =~= h + q + b + i + (s + l) + t + r);
}

/// A run of spans draws as the spans before span `i`, span `i`'s segment
/// and the spans after it.
proof fn lemma_inline_text_around(spans: Seq<SpanView>, i: int, heading: Option<u8>)
    requires
        0 <= i < spans.len(),
    ensures
        inline_text(spans, heading) == inline_text(spans.take(i), heading) + span_segment(spans[i], heading)
            + inline_text(spans.skip(i + 1), heading),
{
    let pre = spans.take(i);
    let post = spans.skip(i + 1);
    let one = seq![spans[i]];
    assert(spans =~= pre + one + post);
    lemma_inline_text_concat(pre + one, post, heading);
    lemma_inline_text_concat(pre, one, heading);
    lemma_inline_text_one(spans[i], heading);
}

/// One span draws as its segment.
proof fn lemma_inline_text_one(sp: SpanView, heading: Option<u8>)
    ensures
        inline_text(seq![sp], heading) == span_segment(sp, heading),
{
    let one = seq![sp];
    assert(one.drop_last() =~= Seq::<SpanView>::empty());
    assert(one.last() == sp);
    assert(inline_text(Seq::<SpanView>::empty(), heading) == Seq::<char>::empty());
    assert(inline_text(one, heading) == inline_text(one.drop_last(), heading) + span_segment(sp, heading));
    assert(inline_text(one, heading) =~= span_segment(sp, heading));
}

/// Fading reaches every kind of line: below full opacity the drawn line,
/// whether text, code or table, carries the gray code of the opacity's tone
/// (`gray_for`); at full opacity the line is drawn as it is.
pub proof fn lemma_faded_lines_are_gray(line: LineView, opacity: u8)
    ensures
        opacity < 255 ==> crate::ansi::occurs_in(code_seq(Code::Fg(gray_for(opacity))), line_at_opacity(line, opacity)),
        opacity == 255 ==> line_at_opacity(line, opacity) == line.content,
{
    if opacity < 255 {
        if line.style.is_code_block {
            crate::ansi::lemma_flat_gray_gray(line.content, gray_for(opacity));
        } else if line.style.is_table {
            crate::ansi::lemma_dimmed_table_gray(line.content, gray_for(opacity));
        } else {
            crate::ansi::lemma_dimmed_text_gray(line.content, gray_for(opacity));
        }
    }
}

/// Fading a line never changes what it shows: at any opacity the drawn
/// line shows the same characters as the line itself.
pub proof fn lemma_line_at_opacity_visible(line: LineView, opacity: u8)
    ensures
        visible(line_at_opacity(line, opacity)) == visible(line.content),
{
    if opacity < 255 {
        if line.style.is_code_block {
            crate::ansi::lemma_flat_gray_visible(line.content, gray_for(opacity));
        } else if line.style.is_table {
            crate::ansi::lemma_dimmed_table_visible(line.content, gray_for(opacity));
        } else {
            crate::ansi::lemma_dimmed_text_visible(line.content, gray_for(opacity));
        }
    }
}

} // verus!

verus! {

/// `a` shows nothing and ends closed.
pub open spec fn invisible(a: Seq<char>) -> bool {
    closed(a) && visible(a).len() == 0
}

proof fn lemma_when_invisible(b: bool, c: Code)
    ensures
        invisible(when(b, code_seq(c))),
{
    if b {
        crate::ansi::lemma_code_invisible(c, false);
    } else {
        assert(visible(Seq::<char>::empty()) =~= Seq::<char>::empty());
    }
}

proof fn lemma_invisible_concat(a: Seq<char>, b: Seq<char>)
    requires
        invisible(a),
        invisible(b),
    ensures
        invisible(a + b),
{
    lemma_visible_concat(a, b);
}

/// Invisible codes, then `t`, then a reset, show `t` when it holds no escape.
proof fn lemma_wrapped_text_visible(a: Seq<char>, t: Seq<char>)
    requires
        invisible(a),
        no_esc(t),
    ensures
        visible(a + t + code_seq(Code::Reset)) == t,
{
    lemma_strip_plain(t);
    lemma_visible_concat(a, t);
    assert(visible(a) + visible(t) =~= t);
    lemma_visible_code_end(a + t, Code::Reset);
}

proof fn lemma_span_body_visible(sp: SpanView)
    requires
        no_esc(sp.text),
    ensures
        visible(span_body(sp)) == sp.text,
{
    if sp.style.code {
        lemma_when_invisible(true, Code::BgGray);
        assert(when(true, code_seq(Code::BgGray)) == code_seq(Code::BgGray));
        lemma_wrapped_text_visible(code_seq(Code::BgGray), sp.text);
    } else {
        lemma_when_invisible(sp.style.bold, Code::Bold);
        lemma_when_invisible(sp.style.italic, Code::Italic);
        lemma_when_invisible(sp.style.strikethrough, Code::Strikethrough);
        lemma_when_invisible(sp.style.link, cyan());
        let a1 = when(sp.style.bold, code_seq(Code::Bold));
        let a2 = a1 + when(sp.style.italic, code_seq(Code::Italic));
        let a3 = a2 + when(sp.style.strikethrough, code_seq(Code::Strikethrough));
        let a4 = a3 + when(sp.style.link, code_seq(cyan()));
        lemma_invisible_concat(a1, when(sp.style.italic, code_seq(Code::Italic)));
        lemma_invisible_concat(a2, when(sp.style.strikethrough, code_seq(Code::Strikethrough)));
        lemma_invisible_concat(a3, when(sp.style.link, code_seq(cyan())));
        assert(attr_codes(sp) == a4);
        lemma_wrapped_text_visible(a4, sp.text);
    }
}

/// A span shows exactly its text, whatever codes style it.
proof fn lemma_span_segment_visible(sp: SpanView, heading: Option<u8>)
    requires
        no_esc(sp.text),
    ensures
        visible(span_segment(sp, heading)) == sp.text,
{
    lemma_span_body_visible(sp);
    let hc = head_codes(heading);
    match heading {
        Some(l) => {
            lemma_when_invisible(true, Code::Bold);
            lemma_when_invisible(true, heading_code(l));
            assert(when(true, code_seq(Code::Bold)) == code_seq(Code::Bold));
            assert(when(true, code_seq(heading_code(l))) == code_seq(heading_code(l)));
            lemma_invisible_concat(code_seq(Code::Bold), code_seq(heading_code(l)));
        },
        None => {
            assert(visible(Seq::<char>::empty()) =~= Seq::<char>::empty());
        },
    }
    assert(invisible(hc));
    let q = when(sp.style.blockquote, code_seq(gray()));
    lemma_when_invisible(sp.style.blockquote, gray());
    lemma_invisible_concat(hc, q);
    lemma_visible_concat(hc + q, span_body(sp));
    assert(visible(hc + q) + visible(span_body(sp)) =~= sp.text);
}

/// The text of the spans, one after another.
pub open spec fn spans_text(spans: Seq<SpanView>) -> Seq<char> {
    spans.map_values(|s: SpanView| s.text).flatten()
}

/// Styling adds only escape sequences: a drawn run of spans shows exactly
/// the spans' texts, when those hold no escape character.
pub proof fn lemma_inline_text_visible(spans: Seq<SpanView>, heading: Option<u8>)
    requires
        forall|i: int| 0 <= i < spans.len() ==> no_esc(#[trigger] spans[i].text),
    ensures
        visible(inline_text(spans, heading)) == spans_text(spans),
    decreases spans.len(),
{
    if spans.len() == 0 {
        assert(visible(Seq::<char>::empty()) =~= Seq::<char>::empty());
        assert(spans_text(spans) =~= Seq::<char>::empty());
    } else {
        let p = spans.drop_last();
        assert forall|i: int| 0 <= i < p.len() implies no_esc(#[trigger] p[i].text) by {
            assert(p[i] == spans[i]);
        }
        lemma_inline_text_visible(p, heading);
        lemma_inline_text_closed(p, heading);
        assert(no_esc(spans.last().text)) by {
            assert(spans.last() == spans[spans.len() - 1]);
        }
        lemma_span_segment_visible(spans.last(), heading);
        lemma_visible_concat(inline_text(p, heading), span_segment(spans.last(), heading));
        let texts = spans.map_values(|s: SpanView| s.text);
        assert(texts =~= p.map_values(|s: SpanView| s.text).push(spans.last().text));
        p.map_values(|s: SpanView| s.text).lemma_flatten_push(spans.last().text);
    }
}

} // verus!
