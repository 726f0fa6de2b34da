//! One screen of the teleprompter: the document laid out as display rows,
//! the rows around the focus drawn at their opacity, the sidebar outline,
//! the frame around it, and what each key does to the focus.

use vstd::prelude::*;
use crate::ansi::{code_seq, push_code, Code};
use crate::controller::{
    active_heading, active_heading_index, centered_viewport_rows, first_focusable_entity, is_next_focusable,
    is_prev_focusable, last_focusable_entity, lemma_viewport_centres_focus, move_down, move_up, moved_down, moved_up, in_focus_band, pad_visible, padded_visible,
    viewport_row, is_in_focus_band, lead_ws, lemma_lead_ws_is, line_segments,
    wrap_plain_text, wrap_rendered_line, wrapped_plain, SidebarHeading, FOCUS_BAND_RADIUS,
    LOW_OPACITY, MIN_VIEWPORT_WIDTH,
};
use crate::layout::{bottom_row, layout_for, lemma_centered_panel_fits, Layout, Rect};
use crate::text::{chars_of, is_whitespace, is_ws, push_char, push_range, push_repeat, push_str, repeat, string_views};
use crate::ansi::visible;
use crate::renderer::{
    apply_opacity_to_line, lemma_line_at_opacity_visible, line_at_opacity, lines_view, LineView, RenderedEntity,
    RenderedLine,
};

verus! {

/// A display row: the entity it belongs to, the line it comes from,
/// and the segment of that line it shows.
pub type DisplayRow = (usize, RenderedLine, String);

pub open spec fn row_view(r: DisplayRow) -> (usize, LineView, Seq<char>) {
    (r.0, r.1@, r.2@)
}

pub open spec fn rows_view(v: Seq<DisplayRow>) -> Seq<(usize, LineView, Seq<char>)> {
    v.map_values(|r: DisplayRow| row_view(r))
}

/// The lines of each entity.
pub open spec fn entity_lines(ents: Seq<RenderedEntity>) -> Seq<Seq<LineView>> {
    ents.map_values(|e: RenderedEntity| lines_view(e.lines@))
}

/// The rows of one line of entity `idx`: one per segment it is shown as.
pub open spec fn line_rows(idx: usize, l: LineView) -> Seq<(usize, LineView, Seq<char>)> {
    line_segments(l.content).map_values(|seg: Seq<char>| (idx, l, seg))
}

/// The rows of entity `idx`, line after line.
pub open spec fn entity_rows(idx: usize, ls: Seq<LineView>) -> Seq<(usize, LineView, Seq<char>)>
    decreases ls.len(),
{
    if ls.len() == 0 {
        seq![]
    } else {
        entity_rows(idx, ls.drop_last()) + line_rows(idx, ls.last())
    }
}

/// The rows of the whole document, entity after entity.
pub open spec fn display_rows(ents: Seq<Seq<LineView>>) -> Seq<(usize, LineView, Seq<char>)>
    decreases ents.len(),
{
    if ents.len() == 0 {
        seq![]
    } else {
        display_rows(ents.drop_last()) + entity_rows((ents.len() - 1) as usize, ents.last())
    }
}

/// Number of rows entity `i` takes on screen: its rows, at least one.
pub open spec fn entity_row_count(ents: Seq<Seq<LineView>>, i: int) -> nat {
    let n = entity_rows(i as usize, ents[i]).len();
    if n >= 1 {
        n
    } else {
        1
    }
}

proof fn lemma_display_rows_take(ents: Seq<Seq<LineView>>, i: int)
    requires
        0 <= i < ents.len(),
    ensures
        display_rows(ents.take(i + 1)) == display_rows(ents.take(i)) + entity_rows(i as usize, ents[i]),
{
    assert(ents.take(i + 1).drop_last() =~= ents.take(i));
}

/// The display rows of the entities: one row per line, each line shown whole
/// (see `line_segments`). Returns the rows, the index of each entity's first
/// row, and the number of rows each entity takes (at least one).
pub fn build_display_rows(entities: &[RenderedEntity], max_width: usize) -> (r: (
    Vec<DisplayRow>,
    Vec<usize>,
    Vec<usize>,
))
    ensures
        rows_view(r.0@) == display_rows(entity_lines(entities@)),
        r.1@.len() == entities@.len(),
        r.2@.len() == entities@.len(),
        forall|i: int|
            0 <= i < entities@.len() ==> #[trigger] r.1@[i] == display_rows(
                entity_lines(entities@).take(i),
            ).len(),
        forall|i: int|
            0 <= i < entities@.len() ==> #[trigger] r.2@[i] == entity_row_count(
                entity_lines(entities@),
                i,
            ),
        forall|i: int| 0 <= i < entities@.len() ==> r.1@[i] + r.2@[i] <= r.0@.len() + 1,
{
    let ghost ents = entity_lines(entities@);
    let mw = if max_width >= MIN_VIEWPORT_WIDTH {
        max_width
    } else {
        MIN_VIEWPORT_WIDTH
    };
    let mut rows: Vec<DisplayRow> = Vec::new();
    let mut offsets: Vec<usize> = Vec::new();
    let mut counts: Vec<usize> = Vec::new();
    let mut e: usize = 0;
    assert(ents.take(0) =~= Seq::<Seq<LineView>>::empty());
    while e < entities.len()
        invariant
            e <= entities@.len(),
            ents == entity_lines(entities@),
            ents.len() == entities@.len(),
            rows_view(rows@) == display_rows(ents.take(e as int)),
            offsets@.len() == e,
            counts@.len() == e,
            forall|i: int| 0 <= i < e ==> #[trigger] offsets@[i] == display_rows(ents.take(i)).len(),
            forall|i: int| 0 <= i < e ==> #[trigger] counts@[i] == entity_row_count(ents, i),
            forall|i: int| 0 <= i < e ==> offsets@[i] + counts@[i] <= rows@.len() + 1,
        decreases entities.len() - e,
    {
        let start_len = rows.len();
        offsets.push(start_len);
        let lines = &entities[e].lines;
        let ghost ls = ents[e as int];
        assert(ls == lines_view(lines@));
        let ghost base = rows_view(rows@);
        let mut j: usize = 0;
        assert(ls.take(0) =~= Seq::<LineView>::empty());
        assert(base + entity_rows(e, ls.take(0)) =~= base);
        while j < lines.len()
            invariant
                e < entities@.len(),
                j <= lines@.len(),
                ls == lines_view(lines@),
                ls == ents[e as int],
                    ents.len() == entities@.len(),
                    start_len == base.len(),
                rows_view(rows@) == base + entity_rows(e, ls.take(j as int)),
            decreases lines.len() - j,
        {
            let line = &lines[j];
            assert(ls[j as int] == line@);
            let segs = wrap_rendered_line(line, mw);
            let ghost before = rows_view(rows@);
            let mut k: usize = 0;
            assert(before + line_rows(e, line@).take(0) =~= before);
            while k < segs.len()
                invariant
                    k <= segs@.len(),
                    crate::text::string_views(segs@) == line_segments(line@.content),
                    rows_view(rows@) == before + line_rows(e, line@).take(k as int),
                decreases segs.len() - k,
            {
                let seg = segs[k].clone();
                assert(crate::text::string_views(segs@)[k as int] == segs@[k as int]@);
                let dup = line.duplicate();
                let ghost item = (e, line@, seg@);
                assert(line_rows(e, line@)[k as int] == item);
                let ghost prev = rows@;
                rows.push((e, dup, seg));
                assert(rows@ == prev.push((e, dup, seg)));
                assert(row_view((e, dup, seg)) == item);
                assert(rows_view(rows@) =~= rows_view(prev).push(item));
                assert(line_rows(e, line@).take(k + 1) =~= line_rows(e, line@).take(k as int).push(item));
                assert(rows_view(rows@) =~= before + line_rows(e, line@).take(k + 1));
                k += 1;
            }
            assert(line_rows(e, line@).take(segs@.len() as int) =~= line_rows(e, line@));
            assert(ls.take(j + 1).drop_last() =~= ls.take(j as int));
            assert(ls.take(j + 1).last() == line@);
            j += 1;
        }
        assert(ls.take(lines@.len() as int) =~= ls);
        proof {
            lemma_display_rows_take(ents, e as int);
        }
        let n = rows.len() - start_len;
        counts.push(if n >= 1 {
            n
        } else {
            1
        });
        assert(offsets@[e as int] == display_rows(ents.take(e as int)).len());
        e += 1;
    }
    assert(ents.take(ents.len() as int) =~= ents);
    (rows, offsets, counts)
}

/// The display row the focus sits on: the middle row of the focused
/// entity (its first row when the entity is unknown).
pub open spec fn focus_row_of(offsets: Seq<usize>, counts: Seq<usize>, cur: usize) -> int {
    let off: int = if cur < offsets.len() {
        offsets[cur as int] as int
    } else {
        0
    };
    let cnt: int = if cur < counts.len() {
        counts[cur as int] as int
    } else {
        1
    };
    off + (if cnt >= 1 {
        cnt - 1
    } else {
        0
    }) / 2
}

/// The display row the focus sits on (see `focus_row_of`).
pub fn focus_row(offsets: &[usize], counts: &[usize], current_entity_idx: usize) -> (r: usize)
    requires
        focus_row_of(offsets@, counts@, current_entity_idx) <= usize::MAX,
    ensures
        r == focus_row_of(offsets@, counts@, current_entity_idx),
{
    let off = if current_entity_idx < offsets.len() {
        offsets[current_entity_idx]
    } else {
        0
    };
    let cnt = if current_entity_idx < counts.len() {
        counts[current_entity_idx]
    } else {
        1
    };
    off + cnt.saturating_sub(1) / 2
}

/// The opacity of a row of entity `entity` while `focus` has the focus:
/// full within the focus band, low outside it.
pub open spec fn row_opacity(focus: usize, entity: usize) -> u8 {
    if in_focus_band(focus, entity, FOCUS_BAND_RADIUS) {
        255
    } else {
        LOW_OPACITY
    }
}

/// The text drawn for a display row: its segment, styled as its line, at
/// the opacity of its entity.
pub open spec fn row_text(row: (usize, LineView, Seq<char>), focus: usize) -> Seq<char> {
    line_at_opacity(LineView { content: row.2, ..row.1 }, row_opacity(focus, row.0))
}

/// Draws one display row for the focus at `current_entity_idx`.
pub fn draw_row(row: &DisplayRow, current_entity_idx: usize) -> (r: String)
    ensures
        r@ == row_text(row_view(*row), current_entity_idx),
{
    let (entity_idx, line, segment) = row;
    let opacity = if is_in_focus_band(current_entity_idx, *entity_idx, FOCUS_BAND_RADIUS) {
        255
    } else {
        LOW_OPACITY
    };
    let wrapped = RenderedLine { content: segment.clone(), style: line.style, line_type: line.line_type };
    apply_opacity_to_line(&wrapped, opacity)
}

} // verus!

verus! {

/// `s` without its leading whitespace.
pub open spec fn trim_start(s: Seq<char>) -> Seq<char> {
    s.skip(lead_ws(s) as int)
}

fn trim_start_string(s: &str) -> (r: String)
    ensures
        r@ == trim_start(s@),
{
    let cs = chars_of(s);
    let mut k: usize = 0;
    while k < cs.len() && is_whitespace(cs[k])
        invariant
            k <= cs@.len(),
            cs@ == s@,
            forall|j: int| 0 <= j < k ==> is_ws(cs@[j]),
        decreases cs.len() - k,
    {
        k += 1;
    }
    proof {
        lemma_lead_ws_is(cs@, k as int);
    }
    let mut r = String::new();
    push_range(&mut r, &cs, k, cs.len());
    assert(cs@.subrange(k as int, cs@.len() as int) =~= cs@.skip(k as int));
    r
}

/// Colour of the sidebar title.
pub open spec fn title_color() -> Code {
    Code::Fg(252)
}

/// Colour of the heading that has the focus.
pub open spec fn active_color() -> Code {
    Code::Fg(223)
}

/// Colour of the other headings.
pub open spec fn inactive_color() -> Code {
    Code::Fg(245)
}

/// Colour of the frame.
pub open spec fn frame_color() -> Code {
    Code::Fg(240)
}

/// `text` between a colour and a reset.
pub open spec fn colored(c: Code, text: Seq<char>) -> Seq<char> {
    code_seq(c) + text + code_seq(Code::Reset)
}

fn push_colored(rows: &mut Vec<String>, c: Code, text: &str)
    ensures
        string_views(final(rows)@) == string_views(old(rows)@).push(colored(c, text@)),
{
    let mut line = String::new();
    push_code(&mut line, c);
    push_str(&mut line, text);
    push_code(&mut line, Code::Reset);
    let ghost before = rows@;
    rows.push(line);
    assert(string_views(rows@) =~= string_views(before).push(colored(c, text@)));
}

/// Indent steps of a heading in the outline: its level less one, at most three.
pub open spec fn indent_steps(level: u8) -> nat {
    let l: nat = if level >= 1 {
        (level - 1) as nat
    } else {
        0
    };
    if l <= 3 {
        l
    } else {
        3
    }
}

/// What precedes a heading's title in the outline: a marker (`>` for the
/// active heading), two spaces per indent step, and a space.
pub open spec fn heading_prefix(level: u8, active: bool) -> Seq<char> {
    seq![if active {
        '>'
    } else {
        ' '
    }] + repeat(' ', 2 * indent_steps(level)) + seq![' ']
}

/// The outline rows of one heading: prefix and title wrapped to `w`, the
/// continuation rows indented as wide as the prefix, all in the heading's colour.
pub open spec fn heading_rows(h: SidebarHeading, active: bool, w: nat) -> Seq<Seq<char>> {
    let prefix = heading_prefix(h.level, active);
    let wrapped = wrapped_plain(prefix + h.title@, w);
    let c = if active {
        active_color()
    } else {
        inactive_color()
    };
    Seq::new(
        wrapped.len(),
        |k: int|
            colored(
                c,
                if k == 0 {
                    wrapped[k]
                } else {
                    repeat(' ', prefix.len()) + trim_start(wrapped[k])
                },
            ),
    )
}

/// The outline rows of the headings, `active` marking one of them.
pub open spec fn headings_rows(hs: Seq<SidebarHeading>, active: Option<usize>, w: nat) -> Seq<Seq<char>>
    decreases hs.len(),
{
    if hs.len() == 0 {
        seq![]
    } else {
        headings_rows(hs.drop_last(), active, w) + heading_rows(
            hs.last(),
            active == Some((hs.len() - 1) as usize),
            w,
        )
    }
}

pub open spec fn outline_label() -> Seq<char> {
    "Outline"@
}

pub open spec fn no_headings_label() -> Seq<char> {
    "No headings found"@
}

/// The sidebar's rows for a width of `max_width` (at least one) while entity
/// `cur` has the focus: the title "Outline" (its first row coloured), a blank
/// row, then the outline of the headings, or "No headings found".
pub open spec fn sidebar_rows(hs: Seq<SidebarHeading>, max_width: usize, cur: usize) -> Seq<Seq<char>> {
    let w: nat = if max_width >= 1 {
        max_width as nat
    } else {
        1
    };
    let t = wrapped_plain(outline_label(), w);
    let head = (if t.len() > 0 {
        t.update(0, colored(title_color(), t[0]))
    } else {
        t
    }).push(seq![]);
    if hs.len() == 0 {
        head + wrapped_plain(no_headings_label(), w).map_values(|l: Seq<char>| colored(inactive_color(), l))
    } else {
        head + headings_rows(hs, active_heading(hs, cur), w)
    }
}

fn heading_outline(rows: &mut Vec<String>, h: &SidebarHeading, active: bool, w: usize)
    requires
        w >= 1,
    ensures
        string_views(final(rows)@) == string_views(old(rows)@) + heading_rows(*h, active, w as nat),
{
    let level = h.level.saturating_sub(1);
    let steps: usize = if level <= 3 {
        level as usize
    } else {
        3
    };
    let mut prefix = String::new();
    push_char(&mut prefix, if active {
        '>'
    } else {
        ' '
    });
    push_repeat(&mut prefix, ' ', 2 * steps);
    push_char(&mut prefix, ' ');
    assert(prefix@ =~= heading_prefix(h.level, active));
    let plen = 2 * steps + 2;
    let mut label = String::new();
    push_str(&mut label, prefix.as_str());
    push_str(&mut label, h.title.as_str());
    let wrapped = wrap_plain_text(label.as_str(), w);
    let c = if active {
        Code::Fg(223)
    } else {
        Code::Fg(245)
    };
    let ghost base = string_views(rows@);
    let ghost target = heading_rows(*h, active, w as nat);
    let mut k: usize = 0;
    while k < wrapped.len()
        invariant
            k <= wrapped@.len(),
            string_views(wrapped@) == wrapped_plain(prefix@ + h.title@, w as nat),
            prefix@ == heading_prefix(h.level, active),
            plen == prefix@.len(),
            target == heading_rows(*h, active, w as nat),
            c == (if active {
                active_color()
            } else {
                inactive_color()
            }),
            string_views(rows@) == base + target.take(k as int),
        decreases wrapped.len() - k,
    {
        assert(string_views(wrapped@)[k as int] == wrapped@[k as int]@);
        if k == 0 {
            push_colored(rows, c, wrapped[k].as_str());
        } else {
            let mut display = String::new();
            push_repeat(&mut display, ' ', plen);
            let trimmed = trim_start_string(wrapped[k].as_str());
            push_str(&mut display, trimmed.as_str());
            push_colored(rows, c, display.as_str());
        }
        assert(target.take(k + 1) =~= target.take(k as int).push(target[k as int]));
        k += 1;
    }
    assert(target.take(wrapped@.len() as int) =~= target);
}

/// The sidebar's rows (see `sidebar_rows`).
pub fn build_sidebar_rows(headings: &[SidebarHeading], max_width: usize, current_entity_idx: usize) -> (rows: Vec<String>)
    ensures
        string_views(rows@) == sidebar_rows(headings@, max_width, current_entity_idx),
{
    let w = if max_width >= 1 {
        max_width
    } else {
        1
    };
    let title = "Outline";
    let mut rows = wrap_plain_text(title, w);
    let ghost t = wrapped_plain(outline_label(), w as nat);
    if rows.len() > 0 {
        let mut first = String::new();
        push_code(&mut first, Code::Fg(252));
        push_str(&mut first, rows[0].as_str());
        push_code(&mut first, Code::Reset);
        assert(string_views(rows@)[0] == rows@[0]@);
        rows.set(0, first);
    }
    rows.push(String::new());
    let ghost head = string_views(rows@);
    assert(head =~= (if t.len() > 0 {
        t.update(0, colored(title_color(), t[0]))
    } else {
        t
    }).push(seq![]));
    if headings.len() == 0 {
        let more = wrap_plain_text("No headings found", w);
        let ghost m = wrapped_plain(no_headings_label(), w as nat).map_values(|l: Seq<char>| colored(inactive_color(), l));
        let mut k: usize = 0;
        while k < more.len()
            invariant
                k <= more@.len(),
                string_views(more@) == wrapped_plain(no_headings_label(), w as nat),
                m == wrapped_plain(no_headings_label(), w as nat).map_values(|l: Seq<char>| colored(inactive_color(), l)),
                string_views(rows@) == head + m.take(k as int),
            decreases more.len() - k,
        {
            assert(string_views(more@)[k as int] == more@[k as int]@);
            push_colored(&mut rows, Code::Fg(245), more[k].as_str());
            assert(m.take(k + 1) =~= m.take(k as int).push(m[k as int]));
            k += 1;
        }
        assert(m.take(more@.len() as int) =~= m);
        return rows;
    }
    let active = active_heading_index(headings, current_entity_idx);
    let mut i: usize = 0;
    assert(headings@.take(0) =~= Seq::<SidebarHeading>::empty());
    assert(head + headings_rows(headings@.take(0), active, w as nat) =~= head);
    while i < headings.len()
        invariant
            i <= headings@.len(),
            w >= 1,
            active == active_heading(headings@, current_entity_idx),
            string_views(rows@) == head + headings_rows(headings@.take(i as int), active, w as nat),
        decreases headings.len() - i,
    {
        let is_active = match active {
            Some(a) => a == i,
            None => false,
        };
        heading_outline(&mut rows, &headings[i], is_active, w);
        assert(headings@.take(i + 1).drop_last() =~= headings@.take(i as int));
        assert(headings@.take(i + 1).last() == headings@[i as int]);
        i += 1;
    }
    assert(headings@.take(headings@.len() as int) =~= headings@);
    rows
}

} // verus!

verus! {

/// The rows of the frame around `rect`, each with the row it is drawn at
/// (from column `rect.x`): a top border, sides for the rows between, a bottom
/// border on the rectangle's last row; nothing for a rectangle under 2x2.
pub open spec fn frame_view(rect: Rect) -> Seq<(u16, Seq<char>)> {
    if rect.width < 2 || rect.height < 2 {
        seq![]
    } else {
        let inner = (rect.width - 2) as nat;
        let top = colored(frame_color(), seq!['┌'] + repeat('─', inner) + seq!['┐']);
        let side = colored(frame_color(), seq!['│'] + repeat(' ', inner) + seq!['│']);
        let bot = colored(frame_color(), seq!['└'] + repeat('─', inner) + seq!['┘']);
        let b = bottom_row(rect);
        let n: nat = if b > rect.y + 1 {
            (b - rect.y - 1) as nat
        } else {
            0
        };
        seq![(rect.y, top)] + Seq::new(n, |k: int| ((rect.y + 1 + k) as u16, side)) + seq![(b as u16, bot)]
    }
}

fn frame_border(left: char, fill: char, right: char, inner: usize) -> (r: String)
    ensures
        r@ == colored(frame_color(), seq![left] + repeat(fill, inner as nat) + seq![right]),
{
    let mut r = String::new();
    push_code(&mut r, Code::Fg(240));
    push_char(&mut r, left);
    push_repeat(&mut r, fill, inner);
    push_char(&mut r, right);
    push_code(&mut r, Code::Reset);
    assert(r@ =~= colored(frame_color(), seq![left] + repeat(fill, inner as nat) + seq![right]));
    r
}

pub open spec fn placed_rows_view(v: Seq<(u16, String)>) -> Seq<(u16, Seq<char>)> {
    v.map_values(|p: (u16, String)| (p.0, p.1@))
}

/// The frame around `rect` (see `frame_view`).
pub fn frame_lines(rect: Rect) -> (v: Vec<(u16, String)>)
    ensures
        placed_rows_view(v@) == frame_view(rect),
{
    let mut v: Vec<(u16, String)> = Vec::new();
    if rect.width < 2 || rect.height < 2 {
        assert(placed_rows_view(v@) =~= frame_view(rect));
        return v;
    }
    let inner = (rect.width - 2) as usize;
    let top = frame_border('┌', '─', '┐', inner);
    let bot = frame_border('└', '─', '┘', inner);
    let b = rect.bottom();
    let ghost side_text = colored(frame_color(), seq!['│'] + repeat(' ', inner as nat) + seq!['│']);
    let ghost n: nat = if b > rect.y + 1 {
        (b - rect.y - 1) as nat
    } else {
        0
    };
    let ghost mids = Seq::new(n, |k: int| ((rect.y + 1 + k) as u16, side_text));
    v.push((rect.y, top));
    let ghost first = placed_rows_view(v@);
    assert(first =~= seq![(rect.y, top@)]);
    if rect.y < u16::MAX {
        let mut y: u16 = rect.y + 1;
        while y < b
            invariant
                rect.y < y,
                y <= b || y == rect.y + 1,
                b == bottom_row(rect),
                n == (if b > rect.y + 1 {
                    (b - rect.y - 1) as nat
                } else {
                    0
                }),
                mids == Seq::new(n, |k: int| ((rect.y + 1 + k) as u16, side_text)),
                side_text == colored(frame_color(), seq!['│'] + repeat(' ', inner as nat) + seq!['│']),
                placed_rows_view(v@) == first + mids.take(y - rect.y - 1),
            decreases b - y,
        {
            let side = frame_border('│', ' ', '│', inner);
            let ghost before = v@;
            v.push((y, side));
            assert(mids.take(y - rect.y) =~= mids.take(y - rect.y - 1).push((y, side@)));
            assert(placed_rows_view(v@) =~= placed_rows_view(before).push((y, side@)));
            y += 1;
        }
        assert(mids.take(n as int) =~= mids);
        assert(y - rect.y - 1 == n);
    } else {
        assert(mids =~= Seq::<(u16, Seq<char>)>::empty());
        assert(mids.take(0) =~= mids);
    }
    let ghost before = v@;
    v.push((b, bot));
    assert(placed_rows_view(v@) =~= placed_rows_view(before).push((b, bot@)));
    assert(placed_rows_view(v@) =~= frame_view(rect));
    v
}

/// The sidebar in `rect` while entity `cur` has the focus: one row per row
/// of the rectangle, each with the row it is drawn at. The outline scrolls so
/// that its row at the active heading's index sits in the middle; rows past
/// the outline are blank, the others padded to the width.
pub open spec fn sidebar_view(rect: Rect, hs: Seq<SidebarHeading>, cur: usize) -> Seq<(u16, Seq<char>)> {
    if rect.width == 0 || rect.height == 0 {
        seq![]
    } else {
        let rows = sidebar_rows(hs, rect.width as usize, cur);
        let focus: usize = match active_heading(hs, cur) {
            Some(i) => i,
            None => 0,
        };
        Seq::new(
            rect.height as nat,
            |r: int|
                (
                    (rect.y + r) as u16,
                    match viewport_row(focus, rows.len() as usize, rect.height as usize, r) {
                        None => repeat(' ', rect.width as nat),
                        Some(i) => padded_visible(rows[i as int], rect.width as nat) + code_seq(Code::Reset),
                    },
                ),
        )
    }
}

/// The sidebar in `rect` (see `sidebar_view`).
pub fn sidebar_lines(rect: Rect, headings: &[SidebarHeading], current_entity_idx: usize) -> (v: Vec<(u16, String)>)
    requires
        rect.y + rect.height <= u16::MAX + 1,
    ensures
        placed_rows_view(v@) == sidebar_view(rect, headings@, current_entity_idx),
{
    let mut v: Vec<(u16, String)> = Vec::new();
    if rect.width == 0 || rect.height == 0 {
        assert(placed_rows_view(v@) =~= sidebar_view(rect, headings@, current_entity_idx));
        return v;
    }
    let rows = build_sidebar_rows(headings, rect.width as usize, current_entity_idx);
    let focus = match active_heading_index(headings, current_entity_idx) {
        Some(i) => i,
        None => 0,
    };
    let height = rect.height as usize;
    let width = rect.width as usize;
    let vp = centered_viewport_rows(focus, rows.len(), height);
    let ghost target = sidebar_view(rect, headings@, current_entity_idx);
    let mut r: usize = 0;
    while r < height
        invariant
            r <= height,
            height == rect.height,
            width == rect.width,
            rect.y + rect.height <= u16::MAX + 1,
            rect.width != 0 && rect.height != 0,
            string_views(rows@) == sidebar_rows(headings@, width, current_entity_idx),
            focus == (match active_heading(headings@, current_entity_idx) {
                Some(i) => i,
                None => 0,
            }),
            vp@.len() == height,
            forall|q: int| 0 <= q < height ==> #[trigger] vp@[q] == viewport_row(focus, rows@.len() as usize, height, q),
            target == sidebar_view(rect, headings@, current_entity_idx),
            placed_rows_view(v@) == target.take(r as int),
        decreases height - r,
    {
        let text = match vp[r] {
            None => {
                let mut t = String::new();
                push_repeat(&mut t, ' ', width);
                t
            },
            Some(i) => {
                assert(string_views(rows@)[i as int] == rows@[i as int]@);
                let mut t = pad_visible(rows[i].as_str(), width);
                push_code(&mut t, Code::Reset);
                t
            },
        };
        let y = rect.y + r as u16;
        let ghost before = v@;
        v.push((y, text));
        assert(target[r as int] == (y, text@));
        assert(placed_rows_view(v@) =~= placed_rows_view(before).push((y, text@)));
        assert(target.take(r + 1) =~= target.take(r as int).push(target[r as int]));
        r += 1;
    }
    assert(target.take(height as int) =~= target);
    v
}

/// The content rows of a viewport of `rect` centred on display row
/// `focus_row`, each with its column and row; rows past either end of the
/// document are left alone.
pub open spec fn content_view(rect: Rect, rows: Seq<(usize, LineView, Seq<char>)>, focus_row: usize, cur: usize, n: nat)
    -> Seq<(u16, u16, Seq<char>)>
    decreases n,
{
    if n == 0 {
        seq![]
    } else {
        let prev = content_view(rect, rows, focus_row, cur, (n - 1) as nat);
        match viewport_row(focus_row, rows.len() as usize, rect.height as usize, n - 1) {
            Some(i) => prev.push((rect.x, (rect.y + n - 1) as u16, row_text(rows[i as int], cur))),
            None => prev,
        }
    }
}

pub open spec fn placed_view(v: Seq<(u16, u16, String)>) -> Seq<(u16, u16, Seq<char>)> {
    v.map_values(|p: (u16, u16, String)| (p.0, p.1, p.2@))
}

/// Places rows drawn from column `x`.
pub open spec fn at_column(x: u16, rows: Seq<(u16, Seq<char>)>) -> Seq<(u16, u16, Seq<char>)> {
    rows.map_values(|p: (u16, Seq<char>)| (x, p.0, p.1))
}

/// The display row the focus sits on: the middle row of the focused entity.
pub open spec fn focus_of(ents: Seq<Seq<LineView>>, cur: usize) -> int {
    if cur < ents.len() {
        display_rows(ents.take(cur as int)).len() + (entity_row_count(ents, cur as int) - 1) / 2
    } else {
        0
    }
}

/// The whole screen for a terminal of `cols` x `rows` cells while entity
/// `cur` has the focus: the sidebar frame, the sidebar, then the content rows
/// around the focus, each text with the column and row it is drawn at.
pub open spec fn screen_view(ents: Seq<Seq<LineView>>, hs: Seq<SidebarHeading>, cols: u16, rows: u16, cur: usize) -> Seq<
    (u16, u16, Seq<char>),
> {
    let l = layout_for(cols, rows);
    at_column(l.sidebar_frame.x, frame_view(l.sidebar_frame)) + at_column(
        l.sidebar_content.x,
        sidebar_view(l.sidebar_content, hs, cur),
    ) + content_view(l.content, display_rows(ents), focus_of(ents, cur) as usize, cur, l.content.height as nat)
}

fn append_at_column(out: &mut Vec<(u16, u16, String)>, x: u16, rows: &Vec<(u16, String)>)
    ensures
        placed_view(final(out)@) == placed_view(old(out)@) + at_column(x, placed_rows_view(rows@)),
{
    let ghost base = placed_view(out@);
    let ghost add = at_column(x, placed_rows_view(rows@));
    let mut k: usize = 0;
    while k < rows.len()
        invariant
            k <= rows@.len(),
            add == at_column(x, placed_rows_view(rows@)),
            placed_view(out@) == base + add.take(k as int),
        decreases rows.len() - k,
    {
        let ghost before = out@;
        let y = rows[k].0;
        let t = rows[k].1.clone();
        out.push((x, y, t));
        assert(add[k as int] == (x, y, t@));
        assert(placed_view(out@) =~= placed_view(before).push((x, y, t@)));
        assert(add.take(k + 1) =~= add.take(k as int).push(add[k as int]));
        k += 1;
    }
    assert(add.take(k as int) =~= add);
}

/// The content rows of a viewport of `rect` (see `content_view`).
pub fn content_lines(rect: Rect, rows: &Vec<DisplayRow>, focus_row: usize, current_entity_idx: usize) -> (v: Vec<
    (u16, u16, String),
>)
    requires
        rect.y + rect.height <= u16::MAX + 1,
    ensures
        placed_view(v@) == content_view(rect, rows_view(rows@), focus_row, current_entity_idx, rect.height as nat),
{
    let height = rect.height as usize;
    let vp = centered_viewport_rows(focus_row, rows.len(), height);
    let ghost rv = rows_view(rows@);
    let mut v: Vec<(u16, u16, String)> = Vec::new();
    let mut r: usize = 0;
    while r < height
        invariant
            r <= height,
            height == rect.height,
            rect.y + rect.height <= u16::MAX + 1,
            rv == rows_view(rows@),
            vp@.len() == height,
            forall|q: int| 0 <= q < height ==> #[trigger] vp@[q] == viewport_row(focus_row, rows@.len() as usize, height, q),
            placed_view(v@) == content_view(rect, rv, focus_row, current_entity_idx, r as nat),
        decreases height - r,
    {
        match vp[r] {
            Some(i) => {
                let text = draw_row(&rows[i], current_entity_idx);
                let y = rect.y + r as u16;
                let ghost before = v@;
                v.push((rect.x, y, text));
                assert(rv[i as int] == row_view(rows@[i as int]));
                assert(placed_view(v@) =~= placed_view(before).push((rect.x, y, text@)));
            },
            None => {},
        }
        r += 1;
    }
    v
}

/// Draws the whole screen (see `screen_view`): every text with the column
/// and row it is drawn at, in drawing order.
pub fn render_screen(
    entities: &[RenderedEntity],
    headings: &[SidebarHeading],
    cols: u16,
    rows: u16,
    current_entity_idx: usize,
) -> (out: Vec<(u16, u16, String)>)
    ensures
        placed_view(out@) == screen_view(entity_lines(entities@), headings@, cols, rows, current_entity_idx),
{
    let layout = Layout::centered_panel(cols, rows);
    proof {
        lemma_centered_panel_fits(cols, rows);
    }
    let mut out: Vec<(u16, u16, String)> = Vec::new();
    let frame = frame_lines(layout.sidebar_frame);
    append_at_column(&mut out, layout.sidebar_frame.x, &frame);
    let side = sidebar_lines(layout.sidebar_content, headings, current_entity_idx);
    append_at_column(&mut out, layout.sidebar_content.x, &side);
    let (display, offsets, counts) = build_display_rows(entities, layout.content.width as usize);
    let ghost ents = entity_lines(entities@);
    let total = display.len();
    if current_entity_idx < entities.len() {
        let c = counts[current_entity_idx];
        assert(offsets@[current_entity_idx as int] + c <= total + 1);
        assert((c - 1) / 2 <= c - 1);
    }
    assert(focus_row_of(offsets@, counts@, current_entity_idx) == focus_of(ents, current_entity_idx));
    let focus = focus_row(offsets.as_slice(), counts.as_slice(), current_entity_idx);
    let mut content = content_lines(layout.content, &display, focus, current_entity_idx);
    let ghost before = out@;
    let ghost added = content@;
    out.append(&mut content);
    assert(placed_view(out@) =~= placed_view(before) + placed_view(added));
    out
}

} // verus!

verus! {

/// What a key press asks of the teleprompter.
#[derive(Clone, Copy, Debug, PartialEq, Eq, Structural)]
pub enum Key {
    /// `q` or Escape.
    Quit,
    /// Down arrow, `j` or space.
    Down,
    /// Up arrow or `k`.
    Up,
    Home,
    End,
    /// Any other key.
    Other,
}

/// Where the focus goes at the start: the first focusable entity, else 0.
pub open spec fn initial_focus_of(ents: Seq<RenderedEntity>, r: usize) -> bool {
    is_next_focusable(ents, 0, Some(r)) || (r == 0 && is_next_focusable(ents, 0, None))
}

/// The entity that has the focus when the document is shown.
pub fn initial_focus(entities: &[RenderedEntity]) -> (r: usize)
    ensures
        initial_focus_of(entities@, r),
        entities@.len() > 0 ==> r < entities@.len(),
{
    match first_focusable_entity(entities) {
        Some(i) => i,
        None => 0,
    }
}

/// `r` is the answer to `key` with the focus at `cur`: `None` to quit, else
/// the entity that has the focus next.
pub open spec fn focus_after(ents: Seq<RenderedEntity>, cur: usize, key: Key, r: Option<usize>) -> bool {
    match key {
        Key::Quit => r is None,
        Key::Down => r matches Some(n) && moved_down(ents, cur, n),
        Key::Up => r matches Some(n) && moved_up(ents, cur, n),
        Key::Home => r matches Some(n) && initial_focus_of(ents, n),
        Key::End => r matches Some(n) && (is_prev_focusable(ents, ents.len() - 1, Some(n)) || (n == ents.len() - 1
            && is_prev_focusable(ents, ents.len() - 1, None))),
        Key::Other => r == Some(cur),
    }
}

/// Answers a key press with the focus at `current_entity_idx`: `None` to
/// quit, else the entity that has the focus next, which is always an entity
/// of the document.
pub fn next_focus(entities: &[RenderedEntity], current_entity_idx: usize, key: Key) -> (r: Option<usize>)
    requires
        current_entity_idx < entities@.len(),
    ensures
        focus_after(entities@, current_entity_idx, key, r),
        r matches Some(n) ==> n < entities@.len(),
{
    match key {
        Key::Quit => None,
        Key::Down => Some(move_down(entities, current_entity_idx)),
        Key::Up => Some(move_up(entities, current_entity_idx)),
        Key::Home => Some(initial_focus(entities)),
        Key::End => match last_focusable_entity(entities) {
            Some(i) => Some(i),
            None => Some(entities.len() - 1),
        },
        Key::Other => Some(current_entity_idx),
    }
}

} // verus!

verus! {

/// The spotlight: a row of an entity within the focus band is drawn exactly
/// as its segment, a row outside it in the low-opacity gray; either way it
/// shows the same characters as its segment.
pub proof fn lemma_spotlight(row: (usize, LineView, Seq<char>), focus: usize)
    ensures
        in_focus_band(focus, row.0, FOCUS_BAND_RADIUS) ==> row_text(row, focus) == row.2,
        !in_focus_band(focus, row.0, FOCUS_BAND_RADIUS) ==> row_text(row, focus) == line_at_opacity(
            LineView { content: row.2, ..row.1 },
            LOW_OPACITY,
        ),
        visible(row_text(row, focus)) == visible(row.2),
{
    lemma_line_at_opacity_visible(LineView { content: row.2, ..row.1 }, row_opacity(focus, row.0));
}

/// Every row of entity `idx` belongs to it, and each line gives at least one row.
proof fn lemma_entity_rows(idx: usize, ls: Seq<LineView>)
    ensures
        entity_rows(idx, ls).len() >= ls.len(),
        forall|k: int| 0 <= k < entity_rows(idx, ls).len() ==> (#[trigger] entity_rows(idx, ls)[k]).0 == idx,
    decreases ls.len(),
{
    if ls.len() > 0 {
        lemma_entity_rows(idx, ls.drop_last());
        let prev = entity_rows(idx, ls.drop_last());
        let add = line_rows(idx, ls.last());
        let all = entity_rows(idx, ls);
        assert(line_segments(ls.last().content).len() >= 1);
        assert forall|k: int| 0 <= k < all.len() implies (#[trigger] all[k]).0 == idx by {
            if k < prev.len() {
                assert(all[k] == prev[k]);
            } else {
                assert(all[k] == add[k - prev.len()]);
            }
        }
    }
}

/// The rows of the first `j` entities come first among the rows of all.
proof fn lemma_display_rows_prefix(ents: Seq<Seq<LineView>>, j: int)
    requires
        0 <= j <= ents.len(),
    ensures
        display_rows(ents.take(j)).len() <= display_rows(ents).len(),
        display_rows(ents).take(display_rows(ents.take(j)).len() as int) == display_rows(ents.take(j)),
    decreases ents.len(),
{
    if j == ents.len() {
        assert(ents.take(j) =~= ents);
        assert(display_rows(ents).take(display_rows(ents).len() as int) =~= display_rows(ents));
    } else {
        let p = ents.drop_last();
        lemma_display_rows_prefix(p, j);
        assert(p.take(j) =~= ents.take(j));
        let a = display_rows(p);
        let b = entity_rows((ents.len() - 1) as usize, ents.last());
        let n = display_rows(ents.take(j)).len() as int;
        assert((a + b).take(n) =~= a.take(n));
    }
}

/// A viewport row that shows display row `i` is drawn at its row, from the
/// rectangle's column.
proof fn lemma_content_view_has(
    rect: Rect,
    rows: Seq<(usize, LineView, Seq<char>)>,
    f: usize,
    cur: usize,
    n: nat,
    r: int,
    i: usize,
)
    requires
        0 <= r < n,
        viewport_row(f, rows.len() as usize, rect.height as usize, r) == Some(i),
    ensures
        exists|k: int|
            0 <= k < content_view(rect, rows, f, cur, n).len() && #[trigger] content_view(rect, rows, f, cur, n)[k] == (
                rect.x,
                (rect.y + r) as u16,
                row_text(rows[i as int], cur),
            ),
    decreases n,
{
    let prev = content_view(rect, rows, f, cur, (n - 1) as nat);
    let cv = content_view(rect, rows, f, cur, n);
    if r == n - 1 {
        assert(cv == prev.push((rect.x, (rect.y + n - 1) as u16, row_text(rows[i as int], cur))));
        assert(cv[prev.len() as int] == (rect.x, (rect.y + r) as u16, row_text(rows[i as int], cur)));
    } else {
        lemma_content_view_has(rect, rows, f, cur, (n - 1) as nat, r, i);
        let k = choose|k: int|
            0 <= k < prev.len() && #[trigger] prev[k] == (rect.x, (rect.y + r) as u16, row_text(rows[i as int], cur));
        assert(cv[k] == prev[k]);
    }
}

/// The focus is always in view: with the focus on an entity that has lines
/// (and a document whose rows can be counted in a `usize`), the screen draws, in the middle row of the content panel, the middle
/// display row of that entity, at full opacity (its segment exactly).
pub proof fn lemma_screen_shows_focus(
    ents: Seq<Seq<LineView>>,
    hs: Seq<SidebarHeading>,
    cols: u16,
    rows: u16,
    cur: usize,
)
    requires
        cur < ents.len(),
        ents[cur as int].len() > 0,
        display_rows(ents).len() <= usize::MAX,
    ensures
        ({
            let l = layout_for(cols, rows);
                    let d = display_rows(ents);
            let f = focus_of(ents, cur);
            &&& 0 <= f < d.len()
            &&& d[f].0 == cur
            &&& exists|k: int|
                0 <= k < screen_view(ents, hs, cols, rows, cur).len() && #[trigger] screen_view(
                    ents,
                    hs,
                    cols,
                    rows,
                    cur,
                )[k] == (l.content.x, (l.content.y + l.content.height / 2) as u16, d[f].2)
        }),
{
    let l = layout_for(cols, rows);
    lemma_centered_panel_fits(cols, rows);
    let d = display_rows(ents);
    let c = cur as int;
    let before = display_rows(ents.take(c));
    let mine = entity_rows(cur, ents[c]);
    lemma_display_rows_take(ents, c);
    lemma_display_rows_prefix(ents, c + 1);
    lemma_entity_rows(cur, ents[c]);
    let upto = display_rows(ents.take(c + 1));
    assert(upto == before + mine);
    let f = focus_of(ents, cur);
    assert(f == before.len() + (mine.len() - 1) / 2);
    assert(0 <= f < upto.len());
    assert(d[f] == upto[f]);
    assert(upto[f] == mine[f - before.len()]);
    let h = l.content.height;
    lemma_viewport_centres_focus(f as usize, d.len() as usize, h as usize);
    lemma_content_view_has(l.content, d, f as usize, cur, h as nat, (h / 2) as int, f as usize);
    lemma_spotlight(d[f], cur);
    let a = at_column(l.sidebar_frame.x, frame_view(l.sidebar_frame)) + at_column(
        l.sidebar_content.x,
        sidebar_view(l.sidebar_content, hs, cur),
    );
    let cv = content_view(l.content, d, f as usize, cur, h as nat);
    let k = choose|k: int|
        0 <= k < cv.len() && #[trigger] cv[k] == (l.content.x, (l.content.y + h / 2) as u16, row_text(d[f], cur));
    assert(screen_view(ents, hs, cols, rows, cur) == a + cv);
    assert((a + cv)[a.len() + k] == cv[k]);
}


/// What every row of the content panel shows (the drawing of one frame of
/// the teleprompter): panel row `r` of a frame
/// drawn with the focus on entity `cur` shows the display row `i` that the
/// viewport centred on the focus row (`focus_of`: the middle row of the
/// focused entity) puts there, drawn at the panel's column and row `r`; the
/// text is that row's segment, styled as its line, exactly as it is when its
/// entity lies within the focus band (two entities either side of the
/// focus), and at the low opacity otherwise.
pub proof fn lemma_screen_rows(
    ents: Seq<Seq<LineView>>,
    hs: Seq<SidebarHeading>,
    cols: u16,
    rows: u16,
    cur: usize,
    r: int,
    i: usize,
)
    requires
        0 <= r < layout_for(cols, rows).content.height,
        viewport_row(
            focus_of(ents, cur) as usize,
            display_rows(ents).len() as usize,
            layout_for(cols, rows).content.height as usize,
            r,
        ) == Some(i),
    ensures
        ({
            let l = layout_for(cols, rows);
            let d = display_rows(ents);
            &&& exists|k: int|
                0 <= k < screen_view(ents, hs, cols, rows, cur).len() && #[trigger] screen_view(
                    ents,
                    hs,
                    cols,
                    rows,
                    cur,
                )[k] == (l.content.x, (l.content.y + r) as u16, row_text(d[i as int], cur))
            &&& cur < ents.len() ==> focus_of(ents, cur) == display_rows(ents.take(cur as int)).len() + (
                entity_row_count(ents, cur as int) - 1) / 2
            &&& row_text(d[i as int], cur) == line_at_opacity(
                LineView { content: d[i as int].2, ..d[i as int].1 },
                if d[i as int].0 + FOCUS_BAND_RADIUS >= cur && d[i as int].0 <= cur + FOCUS_BAND_RADIUS {
                    255u8
                } else {
                    LOW_OPACITY
                },
            )
            &&& row_text(d[i as int], cur) == if in_focus_band(cur, d[i as int].0, FOCUS_BAND_RADIUS) {
                d[i as int].2
            } else {
                line_at_opacity(LineView { content: d[i as int].2, ..d[i as int].1 }, LOW_OPACITY)
            }
        }),
{
    let l = layout_for(cols, rows);
    let d = display_rows(ents);
    let f = focus_of(ents, cur) as usize;
    let h = l.content.height;
    lemma_content_view_has(l.content, d, f, cur, h as nat, r, i);
    lemma_spotlight(d[i as int], cur);
    let a = at_column(l.sidebar_frame.x, frame_view(l.sidebar_frame)) + at_column(
        l.sidebar_content.x,
        sidebar_view(l.sidebar_content, hs, cur),
    );
    let cv = content_view(l.content, d, f, cur, h as nat);
    let k = choose|k: int|
        0 <= k < cv.len() && #[trigger] cv[k] == (l.content.x, (l.content.y + r) as u16, row_text(d[i as int], cur));
    assert(screen_view(ents, hs, cols, rows, cur) == a + cv);
    assert((a + cv)[a.len() + k] == cv[k]);
}

} // verus!
