//! The teleprompter's decisions: which entity has the focus, which rows are
//! visible around it, how lines are shown, and what the sidebar outline shows.

use vstd::prelude::*;
use crate::parser::{blocks_view, BlockView, InlineSpan, ParsedBlock, SpanView, spans_view};
use crate::renderer::{focusable, lines_view, RenderedEntity, RenderedLine};
use crate::ansi::{code_seq, push_code, visible, Code};
use crate::table::visible_len;
use crate::text::{
    chars_of, is_whitespace, is_ws, join_spaced, push_char, push_repeat, push_str, repeat,
    split_whitespace, string_views, words,
};

verus! {

/// Entity `i` of `ents` can take the focus.
pub open spec fn focusable_at(ents: Seq<RenderedEntity>, i: int) -> bool {
    0 <= i < ents.len() && focusable(lines_view(ents[i].lines@))
}

/// `r` is the first focusable index in `[start, len)`, or `None` when there is none.
pub open spec fn is_next_focusable(ents: Seq<RenderedEntity>, start: int, r: Option<usize>) -> bool {
    match r {
        Some(i) => start <= i < ents.len() && focusable_at(ents, i as int) && forall|j: int|
            start <= j < i ==> !focusable_at(ents, j),
        None => forall|j: int| start <= j < ents.len() ==> !focusable_at(ents, j),
    }
}

/// `r` is the last focusable index in `[0, start]`, or `None` when there is none.
pub open spec fn is_prev_focusable(ents: Seq<RenderedEntity>, start: int, r: Option<usize>) -> bool {
    match r {
        Some(i) => 0 <= i <= start && focusable_at(ents, i as int) && forall|j: int|
            i < j <= start ==> !focusable_at(ents, j),
        None => forall|j: int| 0 <= j <= start ==> !focusable_at(ents, j),
    }
}

/// The first focusable entity at or after `start`.
pub fn find_focusable_forward(entities: &[RenderedEntity], start: usize) -> (r: Option<usize>)
    ensures
        is_next_focusable(entities@, start as int, r),
{
    let mut idx = start;
    while idx < entities.len()
        invariant
            start <= idx,
            forall|j: int| start <= j < idx ==> !focusable_at(entities@, j),
        decreases entities.len() - idx,
    {
        if entities[idx].is_focusable() {
            return Some(idx);
        }
        idx += 1;
    }
    None
}

/// The last focusable entity at or before `start` (which must be an index).
pub fn find_focusable_backward(entities: &[RenderedEntity], start: usize) -> (r: Option<usize>)
    requires
        start < entities@.len(),
    ensures
        is_prev_focusable(entities@, start as int, r),
{
    let mut idx = start;
    loop
        invariant
            idx <= start < entities@.len(),
            forall|j: int| idx < j <= start ==> !focusable_at(entities@, j),
        decreases idx,
    {
        if entities[idx].is_focusable() {
            return Some(idx);
        }
        if idx == 0 {
            return None;
        }
        idx -= 1;
    }
}

/// The first focusable entity.
pub fn first_focusable_entity(entities: &[RenderedEntity]) -> (r: Option<usize>)
    ensures
        is_next_focusable(entities@, 0, r),
{
    find_focusable_forward(entities, 0)
}

/// The last focusable entity.
pub fn last_focusable_entity(entities: &[RenderedEntity]) -> (r: Option<usize>)
    ensures
        is_prev_focusable(entities@, entities@.len() - 1, r),
{
    if entities.len() == 0 {
        return None;
    }
    find_focusable_backward(entities, entities.len() - 1)
}

/// Where the focus goes on "down": the next focusable entity after the
/// current one, or the current one when there is none (0 when there are no
/// entities).
pub open spec fn moved_down(ents: Seq<RenderedEntity>, cur: usize, r: usize) -> bool {
    if ents.len() == 0 {
        r == 0
    } else {
        let start = if cur < usize::MAX {
            cur + 1
        } else {
            cur as int
        };
        (is_next_focusable(ents, start, Some(r)) || (r == cur && is_next_focusable(
            ents,
            start,
            None,
        )))
    }
}

/// Where the focus goes on "up": the previous focusable entity before the
/// current one, or the current one when there is none; at the top, or with
/// no entities, the current index clamped to the last entity.
pub open spec fn moved_up(ents: Seq<RenderedEntity>, cur: usize, r: usize) -> bool {
    if ents.len() == 0 || cur == 0 {
        r == if ents.len() == 0 {
            0
        } else if cur < ents.len() - 1 {
            cur as int
        } else {
            ents.len() - 1
        }
    } else {
        is_prev_focusable(ents, cur - 1, Some(r)) || (r == cur && is_prev_focusable(
            ents,
            cur - 1,
            None,
        ))
    }
}

/// The focus after "down" (see `moved_down`).
pub fn move_down(entities: &[RenderedEntity], current_idx: usize) -> (r: usize)
    ensures
        moved_down(entities@, current_idx, r),
{
    if entities.len() == 0 {
        return 0;
    }
    match find_focusable_forward(entities, current_idx.saturating_add(1)) {
        Some(i) => i,
        None => current_idx,
    }
}

/// The focus after "up" (see `moved_up`); with entities, the focus must lie at
/// most one past the last of them.
pub fn move_up(entities: &[RenderedEntity], current_idx: usize) -> (r: usize)
    requires
        entities@.len() == 0 || current_idx <= entities@.len(),
    ensures
        moved_up(entities@, current_idx, r),
{
    if entities.len() == 0 || current_idx == 0 {
        let last = if entities.len() == 0 {
            0
        } else {
            entities.len() - 1
        };
        return if current_idx < last {
            current_idx
        } else {
            last
        };
    }
    match find_focusable_backward(entities, current_idx - 1) {
        Some(i) => i,
        None => current_idx,
    }
}

/// Moving down to another entity and then up returns to the focusable
/// entity one started from.
pub proof fn lemma_down_then_up(ents: Seq<RenderedEntity>, cur: usize, d: usize, u: usize)
    requires
        focusable_at(ents, cur as int),
        moved_down(ents, cur, d),
        d != cur,
        moved_up(ents, d, u),
    ensures
        u == cur,
{
    assert(cur < d < ents.len());
    if u == d && is_prev_focusable(ents, d - 1, None) {
        assert(!focusable_at(ents, cur as int));
    }
    if u < cur {
        assert(!focusable_at(ents, cur as int));
    }
    if u > cur && u < d {
        assert(!focusable_at(ents, u as int));
    }
}

/// Moving up to another entity and then down returns to the focusable
/// entity one started from.
pub proof fn lemma_up_then_down(ents: Seq<RenderedEntity>, cur: usize, u: usize, d: usize)
    requires
        focusable_at(ents, cur as int),
        moved_up(ents, cur, u),
        u != cur,
        moved_down(ents, u, d),
    ensures
        d == cur,
{
    assert(0 < cur < ents.len());
    assert(u < cur);
    if d != cur && is_next_focusable(ents, u + 1, Some(d)) {
        if d > cur {
            assert(!focusable_at(ents, cur as int));
        } else {
            assert(!focusable_at(ents, d as int));
        }
    }
    if d == u && is_next_focusable(ents, u + 1, None) {
        assert(!focusable_at(ents, cur as int));
    }
}

/// Entity `entity` lies within `radius` entities of the focus.
pub open spec fn in_focus_band(focus: usize, entity: usize, radius: usize) -> bool {
    focus - radius <= entity && entity <= focus + radius
}

/// Entity `entity_idx` lies within `radius` entities of the focus, the band
/// clamped to the range of `usize`.
pub fn is_in_focus_band(focus_idx: usize, entity_idx: usize, radius: usize) -> (b: bool)
    ensures
        b == (entity_idx >= (if focus_idx >= radius {
            focus_idx - radius
        } else {
            0
        }) && entity_idx <= (if focus_idx + radius <= usize::MAX {
            focus_idx + radius
        } else {
            usize::MAX as int
        })),
{
    let start = focus_idx.saturating_sub(radius);
    let end = focus_idx.saturating_add(radius);
    entity_idx >= start && entity_idx <= end
}

/// Row `row` of a viewport of `height` rows centred on `focus` shows
/// display row `focus + row - height / 2`, when that row exists.
pub open spec fn viewport_row(focus: usize, total: usize, height: usize, row: int) -> Option<usize> {
    let idx = focus + row - height / 2;
    if 0 <= idx < total {
        Some(idx as usize)
    } else {
        None
    }
}

/// The display rows a viewport of `viewport_height` rows shows, with the
/// focus row in its middle row (`None` past either end).
pub fn centered_viewport_rows(focus_row: usize, total_rows: usize, viewport_height: usize) -> (v: Vec<Option<usize>>)
    ensures
        v@.len() == viewport_height,
        forall|r: int| 0 <= r < viewport_height ==> #[trigger] v@[r] == viewport_row(
            focus_row,
            total_rows,
            viewport_height,
            r,
        ),
{
    let mut v: Vec<Option<usize>> = Vec::new();
    if viewport_height == 0 {
        return v;
    }
    let center_offset = viewport_height / 2;
    let mut row: usize = 0;
    while row < viewport_height
        invariant
            row <= viewport_height,
            center_offset == viewport_height / 2,
            v@.len() == row,
            forall|r: int| 0 <= r < row ==> #[trigger] v@[r] == viewport_row(
                focus_row,
                total_rows,
                viewport_height,
                r,
            ),
        decreases viewport_height - row,
    {
        let entry = if row >= center_offset {
            let d = row - center_offset;
            if focus_row < total_rows && d < total_rows - focus_row {
                Some(focus_row + d)
            } else {
                None
            }
        } else {
            let d = center_offset - row;
            if focus_row >= d && focus_row - d < total_rows {
                Some(focus_row - d)
            } else {
                None
            }
        };
        assert(entry == viewport_row(focus_row, total_rows, viewport_height, row as int));
        v.push(entry);
        row += 1;
    }
    v
}

/// The focus row sits in the middle of the viewport whenever it exists.
pub proof fn lemma_viewport_centres_focus(focus: usize, total: usize, height: usize)
    requires
        height > 0,
        focus < total,
    ensures
        viewport_row(focus, total, height, (height / 2) as int) == Some(focus),
{
}

} // verus!

verus! {

/// A heading listed in the sidebar outline.
#[derive(Clone, Debug)]
pub struct SidebarHeading {
    /// Index of the heading's block (and entity).
    pub entity_idx: usize,
    pub level: u8,
    pub title: String,
}

/// The last heading at or before entity `cur`, if any.
pub open spec fn last_heading_at_or_before(hs: Seq<SidebarHeading>, cur: usize) -> Option<usize>
    decreases hs.len(),
{
    if hs.len() == 0 {
        None
    } else if hs.last().entity_idx <= cur {
        Some((hs.len() - 1) as usize)
    } else {
        last_heading_at_or_before(hs.drop_last(), cur)
    }
}

/// The heading the sidebar marks for the focus at `cur`: the last one at or
/// before it, else the first heading, else none.
pub open spec fn active_heading(hs: Seq<SidebarHeading>, cur: usize) -> Option<usize> {
    match last_heading_at_or_before(hs, cur) {
        Some(i) => Some(i),
        None => if hs.len() > 0 {
            Some(0)
        } else {
            None
        },
    }
}

proof fn lemma_last_heading(hs: Seq<SidebarHeading>, cur: usize, i: int)
    requires
        0 <= i <= hs.len(),
        forall|j: int| i <= j < hs.len() ==> hs[j].entity_idx > cur,
    ensures
        last_heading_at_or_before(hs, cur) == last_heading_at_or_before(hs.take(i), cur),
    decreases hs.len() - i,
{
    if i < hs.len() {
        lemma_last_heading(hs.drop_last(), cur, i);
        assert(hs.drop_last().take(i) =~= hs.take(i));
    } else {
        assert(hs.take(i) =~= hs);
    }
}

pub open spec fn is_active_heading(hs: Seq<SidebarHeading>, cur: usize, r: Option<usize>) -> bool {
    match r {
        Some(i) => i < hs.len() && ((hs[i as int].entity_idx <= cur && forall|j: int|
            i < j < hs.len() ==> hs[j].entity_idx > cur) || (i == 0 && forall|j: int|
            0 <= j < hs.len() ==> hs[j].entity_idx > cur)),
        None => hs.len() == 0,
    }
}

/// The heading the sidebar marks (see `active_heading`).
pub fn active_heading_index(headings: &[SidebarHeading], current_entity_idx: usize) -> (r: Option<usize>)
    ensures
        is_active_heading(headings@, current_entity_idx, r),
        r == active_heading(headings@, current_entity_idx),
{
    let mut i = headings.len();
    while i > 0
        invariant
            i <= headings@.len(),
            forall|j: int| i <= j < headings@.len() ==> headings@[j].entity_idx > current_entity_idx,
        decreases i,
    {
        if headings[i - 1].entity_idx <= current_entity_idx {
            proof {
                lemma_last_heading(headings@, current_entity_idx, i as int);
                assert(headings@.take(i as int).drop_last() =~= headings@.take(i - 1));
            }
            return Some(i - 1);
        }
        i -= 1;
    }
    proof {
        lemma_last_heading(headings@, current_entity_idx, 0);
    }
    if headings.len() > 0 {
        Some(0)
    } else {
        None
    }
}

/// The text of the spans with runs of whitespace turned into single spaces
/// and no space at either end.
pub open spec fn plain_text(spans: Seq<SpanView>) -> Seq<char> {
    join_spaced(words(spans.map_values(|s: SpanView| s.text).flatten()))
}

/// The plain text of a run of spans (see `plain_text`).
pub fn plain_text_from_spans(spans: &[InlineSpan]) -> (r: String)
    ensures
        r@ == plain_text(spans_view(spans@)),
{
    let ghost texts = spans_view(spans@).map_values(|s: SpanView| s.text);
    let mut all: Vec<char> = Vec::new();
    let mut i: usize = 0;
    while i < spans.len()
        invariant
            i <= spans@.len(),
            texts == spans_view(spans@).map_values(|s: SpanView| s.text),
            all@ == texts.take(i as int).flatten(),
        decreases spans.len() - i,
    {
        let cs = chars_of(spans[i].text.as_str());
        let mut k: usize = 0;
        let ghost base = all@;
        while k < cs.len()
            invariant
                k <= cs@.len(),
                all@ == base + cs@.take(k as int),
            decreases cs.len() - k,
        {
            all.push(cs[k]);
            assert(all@ =~= base + cs@.take(k + 1));
            k += 1;
        }
        proof {
            assert(cs@.take(cs@.len() as int) =~= cs@);
            assert(texts[i as int] == spans@[i as int].text@);
            assert(texts.take(i + 1) =~= texts.take(i as int).push(texts[i as int]));
            texts.take(i as int).lemma_flatten_push(texts[i as int]);
        }
        i += 1;
    }
    assert(texts.take(spans@.len() as int) =~= texts);
    let ws = split_whitespace(&all);
    let mut out = String::new();
    let mut w: usize = 0;
    let ghost wv = string_views(ws@);
    while w < ws.len()
        invariant
            w <= ws@.len(),
            wv == string_views(ws@),
            out@ == join_spaced(wv.take(w as int)),
        decreases ws.len() - w,
    {
        if w > 0 {
            push_char(&mut out, ' ');
        }
        push_str(&mut out, ws[w].as_str());
        assert(wv.take(w + 1).drop_last() =~= wv.take(w as int));
        if w == 0 {
            assert(join_spaced(wv.take(1)) == wv[0]);
        }
        assert(out@ =~= join_spaced(wv.take(w + 1)));
        w += 1;
    }
    assert(wv.take(ws@.len() as int) =~= wv);
    out
}

/// The outline entries for `blocks`: every heading block with a non-empty
/// title, in order, with its block index, level and plain title.
pub open spec fn headings_of(blocks: Seq<BlockView>) -> Seq<(usize, u8, Seq<char>)>
    decreases blocks.len(),
{
    if blocks.len() == 0 {
        seq![]
    } else {
        let prev = headings_of(blocks.drop_last());
        match blocks.last() {
            BlockView::Text { spans, style } => match style.heading_level {
                Some(level) => {
                    let title = plain_text(spans);
                    if title.len() > 0 {
                        prev.push(((blocks.len() - 1) as usize, level, title))
                    } else {
                        prev
                    }
                },
                None => prev,
            },
            _ => prev,
        }
    }
}

pub open spec fn heading_entry(h: SidebarHeading) -> (usize, u8, Seq<char>) {
    (h.entity_idx, h.level, h.title@)
}

/// The outline of a document (see `headings_of`).
pub fn collect_sidebar_headings(blocks: &[ParsedBlock]) -> (hs: Vec<SidebarHeading>)
    ensures
        hs@.map_values(|h: SidebarHeading| heading_entry(h)) == headings_of(blocks_view(blocks@)),
{
    let ghost bv = blocks_view(blocks@);
    let mut hs: Vec<SidebarHeading> = Vec::new();
    let mut i: usize = 0;
    while i < blocks.len()
        invariant
            i <= blocks@.len(),
            bv == blocks_view(blocks@),
            hs@.map_values(|h: SidebarHeading| heading_entry(h)) == headings_of(bv.take(i as int)),
        decreases blocks.len() - i,
    {
        let ghost before = hs@;
        assert(bv.take(i + 1).drop_last() =~= bv.take(i as int));
        assert(bv.take(i + 1).last() == blocks@[i as int]@);
        match &blocks[i] {
            ParsedBlock::Text { spans, style } => {
                match style.heading_level {
                    Some(level) => {
                        let title = plain_text_from_spans(spans.as_slice());
                        if !title.as_str().is_empty() {
                            let h = SidebarHeading { entity_idx: i, level, title };
                            hs.push(h);
                            assert(hs@.map_values(|h: SidebarHeading| heading_entry(h)) =~= before.map_values(
                                |h: SidebarHeading| heading_entry(h),
                            ).push(heading_entry(h)));
                        }
                    },
                    None => {},
                }
            },
            _ => {},
        }
        i += 1;
    }
    assert(bv.take(blocks@.len() as int) =~= bv);
    hs
}

} // verus!

verus! {

/// Rows of width `mw` cut from a word so far, and the piece in progress.
pub open spec fn chunk_scan(w: Seq<char>, mw: nat) -> (Seq<Seq<char>>, Seq<char>)
    decreases w.len(),
{
    if w.len() == 0 {
        (seq![], seq![])
    } else {
        let r = chunk_scan(w.drop_last(), mw);
        if r.1.len() == mw {
            (r.0.push(r.1), seq![w.last()])
        } else {
            (r.0, r.1.push(w.last()))
        }
    }
}

/// Rows finished, the row in progress and its width, while wrapping words.
pub struct WrapState {
    pub rows: Seq<Seq<char>>,
    pub cur: Seq<char>,
    pub width: nat,
}

/// Places one word: on the current row after a space when it fits; else on
/// a new row; a word wider than a row is cut into rows of `mw` characters,
/// the last piece starting the new current row.
pub open spec fn place_word(st: WrapState, w: Seq<char>, mw: nat) -> WrapState {
    let sep: nat = if st.cur.len() > 0 {
        1
    } else {
        0
    };
    if st.width + sep + w.len() <= mw {
        WrapState {
            rows: st.rows,
            cur: if sep == 1 {
                st.cur + seq![' '] + w
            } else {
                st.cur + w
            },
            width: st.width + sep + w.len(),
        }
    } else {
        let rows = if st.cur.len() > 0 {
            st.rows.push(st.cur)
        } else {
            st.rows
        };
        if w.len() <= mw {
            WrapState { rows, cur: w, width: w.len() }
        } else {
            let c = chunk_scan(w, mw);
            WrapState { rows: rows + c.0, cur: c.1, width: c.1.len() }
        }
    }
}

pub open spec fn wrap_words(ws: Seq<Seq<char>>, mw: nat) -> WrapState
    decreases ws.len(),
{
    if ws.len() == 0 {
        WrapState { rows: seq![], cur: seq![], width: 0 }
    } else {
        place_word(wrap_words(ws.drop_last(), mw), ws.last(), mw)
    }
}

/// `text` wrapped at word boundaries into rows of at most `mw` characters
/// (one empty row when it has no words; none when `mw` is zero).
pub open spec fn wrapped_plain(text: Seq<char>, mw: nat) -> Seq<Seq<char>> {
    if mw == 0 {
        seq![]
    } else {
        let st = wrap_words(words(text), mw);
        let rows = if st.cur.len() > 0 {
            st.rows.push(st.cur)
        } else {
            st.rows
        };
        if rows.len() == 0 {
            seq![seq![]]
        } else {
            rows
        }
    }
}

proof fn lemma_chunk_scan(w: Seq<char>, mw: nat)
    requires
        mw > 0,
    ensures
        forall|i: int| 0 <= i < chunk_scan(w, mw).0.len() ==> #[trigger] chunk_scan(w, mw).0[i].len()
            == mw,
        chunk_scan(w, mw).1.len() <= mw,
        w.len() > 0 ==> chunk_scan(w, mw).1.len() > 0,
    decreases w.len(),
{
    if w.len() > 0 {
        lemma_chunk_scan(w.drop_last(), mw);
    }
}

pub open spec fn rows_fit(rows: Seq<Seq<char>>, mw: nat) -> bool {
    forall|i: int| 0 <= i < rows.len() ==> #[trigger] rows[i].len() <= mw
}

proof fn lemma_wrap_words(ws: Seq<Seq<char>>, mw: nat)
    requires
        mw > 0,
    ensures
        rows_fit(wrap_words(ws, mw).rows, mw),
        wrap_words(ws, mw).cur.len() == wrap_words(ws, mw).width,
        wrap_words(ws, mw).width <= mw,
    decreases ws.len(),
{
    if ws.len() > 0 {
        lemma_wrap_words(ws.drop_last(), mw);
        let st = wrap_words(ws.drop_last(), mw);
        let w = ws.last();
        lemma_chunk_scan(w, mw);
        let c = chunk_scan(w, mw);
        let sep: nat = if st.cur.len() > 0 {
            1
        } else {
            0
        };
        if !(st.width + sep + w.len() <= mw) && w.len() > mw {
            let rows = if st.cur.len() > 0 {
                st.rows.push(st.cur)
            } else {
                st.rows
            };
            assert(rows_fit(rows + c.0, mw)) by {
                assert forall|i: int| 0 <= i < (rows + c.0).len() implies #[trigger] (rows
                    + c.0)[i].len() <= mw by {
                    if i >= rows.len() {
                        assert((rows + c.0)[i] == c.0[i - rows.len()]);
                    }
                }
            }
        }
    }
}

/// Wrapped rows never exceed the width.
pub proof fn lemma_wrapped_plain_fits(text: Seq<char>, mw: nat)
    requires
        mw > 0,
    ensures
        rows_fit(wrapped_plain(text, mw), mw),
        wrapped_plain(text, mw).len() >= 1,
{
    lemma_wrap_words(words(text), mw);
}

fn chunk_word(w: &str, mw: usize, rows: &mut Vec<String>) -> (last: String)
    requires
        mw > 0,
    ensures
        string_views(final(rows)@) == string_views(old(rows)@) + chunk_scan(w@, mw as nat).0,
        last@ == chunk_scan(w@, mw as nat).1,
{
    let cs = chars_of(w);
    let mut chunk = String::new();
    let mut chunk_width: usize = 0;
    let mut k: usize = 0;
    let ghost base = string_views(rows@);
    assert(cs@.take(0) =~= Seq::<char>::empty());
    while k < cs.len()
        invariant
            k <= cs@.len(),
            mw > 0,
            string_views(rows@) == base + chunk_scan(cs@.take(k as int), mw as nat).0,
            chunk@ == chunk_scan(cs@.take(k as int), mw as nat).1,
            chunk_width == chunk@.len(),
            chunk_width <= mw,
        decreases cs.len() - k,
    {
        let ch = cs[k];
        assert(cs@.take(k + 1).drop_last() =~= cs@.take(k as int));
        assert(cs@.take(k + 1).last() == ch);
        proof {
            lemma_chunk_scan(cs@.take(k as int), mw as nat);
        }
        if chunk_width == mw {
            let mut full = String::new();
            std::mem::swap(&mut full, &mut chunk);
            let ghost before = rows@;
            rows.push(full);
            assert(string_views(rows@) =~= string_views(before).push(full@));
            chunk_width = 0;
        }
        push_char(&mut chunk, ch);
        chunk_width += 1;
        proof {
            assert(chunk@ =~= chunk_scan(cs@.take(k + 1), mw as nat).1);
            assert(string_views(rows@) =~= base + chunk_scan(cs@.take(k + 1), mw as nat).0);
        }
        k += 1;
    }
    assert(cs@.take(cs@.len() as int) =~= cs@);
    chunk
}

/// Wraps `text` at word boundaries into rows of at most `max_width` characters.
pub fn wrap_plain_text(text: &str, max_width: usize) -> (rows: Vec<String>)
    ensures
        string_views(rows@) == wrapped_plain(text@, max_width as nat),
        max_width > 0 ==> rows_fit(string_views(rows@), max_width as nat) && rows@.len() >= 1,
{
    let mut rows: Vec<String> = Vec::new();
    if max_width == 0 {
        assert(string_views(rows@) =~= Seq::<Seq<char>>::empty());
        return rows;
    }
    let ghost mw = max_width as nat;
    let cs = chars_of(text);
    let ws = split_whitespace(&cs);
    let ghost wv = string_views(ws@);
    let mut current = String::new();
    let mut current_width: usize = 0;
    let mut i: usize = 0;
    proof {
        lemma_wrap_words(wv.take(0), mw);
        assert(wv.take(0) =~= Seq::<Seq<char>>::empty());
    }
    while i < ws.len()
        invariant
            i <= ws@.len(),
            max_width > 0,
            mw == max_width,
            wv == string_views(ws@),
            wv == words(text@),
            string_views(rows@) == wrap_words(wv.take(i as int), mw).rows,
            current@ == wrap_words(wv.take(i as int), mw).cur,
            current_width == wrap_words(wv.take(i as int), mw).width,
            current_width <= max_width,
        decreases ws.len() - i,
    {
        let word = ws[i].as_str();
        let word_width = chars_of(word).len();
        let ghost st = wrap_words(wv.take(i as int), mw);
        assert(wv.take(i + 1).drop_last() =~= wv.take(i as int));
        assert(wv.take(i + 1).last() == word@);
        let sep: usize = if current.as_str().is_empty() {
            0
        } else {
            1
        };
        let ghost before_rows = string_views(rows@);
        if word_width <= max_width && sep <= max_width - word_width && current_width <= max_width
            - word_width - sep {
            if sep == 1 {
                push_char(&mut current, ' ');
            }
            push_str(&mut current, word);
            current_width = current_width + sep + word_width;
            proof {
                if sep == 1 {
                    assert(current@ =~= st.cur + seq![' '] + word@);
                }
            }
        } else {
            if !current.as_str().is_empty() {
                let mut done = String::new();
                std::mem::swap(&mut done, &mut current);
                rows.push(done);
                assert(string_views(rows@) =~= before_rows.push(done@));
            }
            if word_width <= max_width {
                current = String::new();
                push_str(&mut current, word);
                current_width = word_width;
                assert(current@ =~= word@);
            } else {
                current = chunk_word(word, max_width, &mut rows);
                current_width = chars_of(current.as_str()).len();
            }
        }
        proof {
            lemma_wrap_words(wv.take(i + 1), mw);
        }
        i += 1;
    }
    assert(wv.take(ws@.len() as int) =~= wv);
    if !current.as_str().is_empty() {
        let ghost before = string_views(rows@);
        let cur = current;
        rows.push(cur);
        assert(string_views(rows@) =~= before.push(cur@));
    }
    if rows.len() == 0 {
        rows.push(String::new());
        assert(string_views(rows@) =~= seq![Seq::<char>::empty()]);
    }
    proof {
        lemma_wrapped_plain_fits(text@, mw);
    }
    rows
}

} // verus!

verus! {

/// Bytes `c` takes in UTF-8.
pub open spec fn utf8_width(c: char) -> nat {
    if (c as u32) < 0x80 {
        1
    } else if (c as u32) < 0x800 {
        2
    } else if (c as u32) < 0x10000 {
        3
    } else {
        4
    }
}

/// Bytes `s` takes in UTF-8.
pub open spec fn byte_len(s: Seq<char>) -> nat
    decreases s.len(),
{
    if s.len() == 0 {
        0
    } else {
        byte_len(s.drop_last()) + utf8_width(s.last())
    }
}

/// Number of leading whitespace characters of `s`.
pub open spec fn lead_ws(s: Seq<char>) -> nat
    decreases s.len(),
{
    if s.len() == 0 || !is_ws(s[0]) {
        0
    } else {
        1 + lead_ws(s.drop_first())
    }
}

/// Number of leading ASCII digits of `s`.
pub open spec fn lead_digits(s: Seq<char>) -> nat
    decreases s.len(),
{
    if s.len() == 0 || !('0' <= s[0] && s[0] <= '9') {
        0
    } else {
        1 + lead_digits(s.drop_first())
    }
}

/// Width of the hanging indent of a list line: after the leading whitespace
/// (counted in UTF-8 bytes) a bullet `•`, `-` or `*` and a space (2 more),
/// or a number, a dot and a space (digits + 2 more).
pub open spec fn list_indent(plain: Seq<char>) -> Option<nat> {
    let k = lead_ws(plain);
    if k >= plain.len() {
        None
    } else {
        let rest = plain.skip(k as int);
        let b = byte_len(plain.take(k as int));
        if rest.len() >= 2 && rest[1] == ' ' && (rest[0] == '•' || rest[0] == '-' || rest[0]
            == '*') {
            Some(b + 2)
        } else {
            let d = lead_digits(rest);
            if d > 0 && rest.len() >= d + 2 && rest[d as int] == '.' && rest[(d + 1) as int] == ' ' {
                Some(b + d + 2)
            } else {
                None
            }
        }
    }
}

pub open spec fn sat(n: nat) -> usize {
    if n <= usize::MAX {
        n as usize
    } else {
        usize::MAX
    }
}

fn utf8_width_exec(c: char) -> (w: usize)
    ensures
        w == utf8_width(c),
{
    let u = c as u32;
    if u < 0x80 {
        1
    } else if u < 0x800 {
        2
    } else if u < 0x10000 {
        3
    } else {
        4
    }
}

proof fn lemma_lead_ws(s: Seq<char>, i: int)
    requires
        0 <= i <= lead_ws(s),
    ensures
        lead_ws(s) <= s.len(),
        i < lead_ws(s) ==> is_ws(s[i]),
        lead_ws(s) < s.len() ==> !is_ws(s[lead_ws(s) as int]),
    decreases s.len(),
{
    if s.len() > 0 && is_ws(s[0]) {
        if i > 0 {
            lemma_lead_ws(s.drop_first(), i - 1);
        } else {
            lemma_lead_ws(s.drop_first(), 0);
        }
    }
}

proof fn lemma_lead_digits(s: Seq<char>, i: int)
    requires
        0 <= i <= lead_digits(s),
    ensures
        lead_digits(s) <= s.len(),
        i < lead_digits(s) ==> '0' <= s[i] <= '9',
        lead_digits(s) < s.len() ==> !('0' <= s[lead_digits(s) as int] <= '9'),
    decreases s.len(),
{
    if s.len() > 0 && '0' <= s[0] <= '9' {
        if i > 0 {
            lemma_lead_digits(s.drop_first(), i - 1);
        } else {
            lemma_lead_digits(s.drop_first(), 0);
        }
    }
}

/// Width of the hanging indent of a list line (see `list_indent`), clamped
/// to `usize::MAX`.
pub fn list_indent_length(plain: &str) -> (r: Option<usize>)
    ensures
        r == match list_indent(plain@) {
            Some(n) => Some(sat(n)),
            None => None,
        },
{
    let cs = chars_of(plain);
    let ghost s = cs@;
    let mut k: usize = 0;
    let mut b: usize = 0;
    while k < cs.len() && is_whitespace(cs[k])
        invariant
            k <= s.len(),
            s == plain@,
            cs@ == s,
            forall|j: int| 0 <= j < k ==> is_ws(s[j]),
            b == sat(byte_len(s.take(k as int))),
        decreases cs.len() - k,
    {
        assert(s.take(k + 1).drop_last() =~= s.take(k as int));
        b = b.saturating_add(utf8_width_exec(cs[k]));
        k += 1;
    }
    proof {
        lemma_lead_ws_is(s, k as int);
    }
    if k >= cs.len() {
        return None;
    }
    let ghost rest = s.skip(k as int);
    if k + 1 < cs.len() && cs[k + 1] == ' ' && (cs[k] == '•' || cs[k] == '-' || cs[k] == '*') {
        return Some(b.saturating_add(2));
    }
    let mut d: usize = 0;
    while d < cs.len() - k && '0' <= cs[k + d] && cs[k + d] <= '9'
        invariant
            k < s.len(),
            cs@ == s,
            k + d <= s.len(),
            rest == s.skip(k as int),
            forall|j: int| 0 <= j < d ==> '0' <= #[trigger] rest[j] <= '9',
        decreases cs.len() - k - d,
    {
        assert(rest[d as int] == s[k + d]);
        d += 1;
    }
    proof {
        lemma_lead_digits_is(rest, d as int);
    }
    if d > 0 && d < cs.len() - k - 1 && cs[k + d] == '.' && cs[k + d + 1] == ' ' {
        return Some(b.saturating_add(d).saturating_add(2));
    }
    None
}

pub proof fn lemma_lead_ws_is(s: Seq<char>, k: int)
    requires
        0 <= k <= s.len(),
        forall|j: int| 0 <= j < k ==> is_ws(s[j]),
        k < s.len() ==> !is_ws(s[k]),
    ensures
        lead_ws(s) == k,
    decreases k,
{
    if k > 0 {
        let t = s.drop_first();
        assert forall|j: int| 0 <= j < k - 1 implies is_ws(t[j]) by {
            assert(t[j] == s[j + 1]);
        }
        lemma_lead_ws_is(t, k - 1);
    }
}

proof fn lemma_lead_digits_is(s: Seq<char>, k: int)
    requires
        0 <= k <= s.len(),
        forall|j: int| 0 <= j < k ==> '0' <= #[trigger] s[j] <= '9',
        k < s.len() ==> !('0' <= s[k] <= '9'),
    ensures
        lead_digits(s) == k,
    decreases k,
{
    if k > 0 {
        let t = s.drop_first();
        assert forall|j: int| 0 <= j < k - 1 implies '0' <= #[trigger] t[j] <= '9' by {
            assert(t[j] == s[j + 1]);
        }
        lemma_lead_digits_is(t, k - 1);
    }
}

/// `text` padded with spaces to show at least `width` characters.
pub open spec fn padded_visible(text: Seq<char>, width: nat) -> Seq<char> {
    let v = visible(text).len();
    if v >= width {
        text
    } else {
        text + repeat(' ', (width - v) as nat)
    }
}

/// `text` padded with spaces to show at least `width` characters.
pub fn pad_visible(text: &str, width: usize) -> (r: String)
    ensures
        r@ == padded_visible(text@, width as nat),
{
    let v = visible_len(text);
    let mut r = String::new();
    push_str(&mut r, text);
    if v < width {
        push_repeat(&mut r, ' ', width - v);
    }
    r
}

} // verus!

verus! {

pub const MIN_VIEWPORT_WIDTH: usize = 10;

pub const FOCUS_BAND_RADIUS: usize = 2;

pub const LOW_OPACITY: u8 = 55;

/// The segments a line is shown as: the whole line, closed by a reset, or
/// nothing for an empty line. Long lines are not wrapped; they run past the
/// right edge of the panel.
pub open spec fn line_segments(content: Seq<char>) -> Seq<Seq<char>> {
    if content.len() == 0 {
        seq![seq![]]
    } else {
        seq![content + code_seq(Code::Reset)]
    }
}

/// The segments a rendered line is shown as (see `line_segments`): always
/// exactly one, however wide the line is.
pub fn wrap_rendered_line(line: &RenderedLine, _max_width: usize) -> (segs: Vec<String>)
    ensures
        string_views(segs@) == line_segments(line.content@),
{
    let mut segs: Vec<String> = Vec::new();
    if line.content.as_str().is_empty() {
        segs.push(String::new());
    } else {
        let mut whole = line.content.clone();
        push_code(&mut whole, Code::Reset);
        segs.push(whole);
    }
    assert(string_views(segs@) =~= line_segments(line.content@));
    segs
}

} // verus!

verus! {

/// Every outline entry points at a heading block of the document, with that
/// block's level and a non-empty title; the entries follow document order.
pub proof fn lemma_outline_entries(blocks: Seq<BlockView>)
    requires
        blocks.len() <= usize::MAX,
    ensures
        forall|k: int|
            0 <= k < headings_of(blocks).len() ==> {
                let (idx, level, title) = #[trigger] headings_of(blocks)[k];
                &&& idx < blocks.len()
                &&& blocks[idx as int] matches BlockView::Text { style, .. } && style.heading_level == Some(level)
                &&& title.len() > 0
            },
        forall|j: int, k: int|
            0 <= j < k < headings_of(blocks).len() ==> (#[trigger] headings_of(blocks)[j]).0 < (
            #[trigger] headings_of(blocks)[k]).0,
    decreases blocks.len(),
{
    if blocks.len() > 0 {
        let p = blocks.drop_last();
        lemma_outline_entries(p);
        let prev = headings_of(p);
        let hs = headings_of(blocks);
        let last = (blocks.len() - 1) as usize;
        let pushed = match blocks.last() {
            BlockView::Text { spans, style } => match style.heading_level {
                Some(level) => plain_text(spans).len() > 0,
                None => false,
            },
            _ => false,
        };
        if pushed {
            assert(hs == prev.push(hs[prev.len() as int]));
            assert(hs[prev.len() as int].0 == last);
        } else {
            assert(hs == prev);
        }
        assert forall|k: int|
            0 <= k < hs.len() implies {
                let (idx, level, title) = #[trigger] hs[k];
                &&& idx < blocks.len()
                &&& blocks[idx as int] matches BlockView::Text { style, .. } && style.heading_level == Some(level)
                &&& title.len() > 0
            } by {
            if k < prev.len() {
                assert(hs[k] == prev[k]);
                assert(blocks[prev[k].0 as int] == p[prev[k].0 as int]);
            } else {
                assert(blocks[last as int] == blocks.last());
            }
        }
        assert forall|j: int, k: int| 0 <= j < k < hs.len() implies (#[trigger] hs[j]).0 < (#[trigger] hs[k]).0 by {
            assert(hs[j] == prev[j]);
            if k < prev.len() {
                assert(hs[k] == prev[k]);
            }
        }
    }
}


/// The outline is complete: every heading block of the document, whatever
/// its level, whose plain title is not empty has an outline entry with its
/// block index, its level and that title.
pub proof fn lemma_outline_complete(blocks: Seq<BlockView>, i: int)
    requires
        0 <= i < blocks.len(),
        blocks.len() <= usize::MAX,
        blocks[i] matches BlockView::Text { spans, style } && style.heading_level is Some && plain_text(
            spans,
        ).len() > 0,
    ensures
        exists|k: int|
            0 <= k < headings_of(blocks).len() && #[trigger] headings_of(blocks)[k] == (
                i as usize,
                blocks[i]->Text_style.heading_level.unwrap(),
                plain_text(blocks[i]->Text_spans),
            ),
    decreases blocks.len(),
{
    let p = blocks.drop_last();
    let prev = headings_of(p);
    let hs = headings_of(blocks);
    let want = (i as usize, blocks[i]->Text_style.heading_level.unwrap(), plain_text(blocks[i]->Text_spans));
    if i < blocks.len() - 1 {
        assert(p[i] == blocks[i]);
        lemma_outline_complete(p, i);
        let k = choose|k: int| 0 <= k < prev.len() && #[trigger] prev[k] == want;
        assert(prev.len() <= hs.len());
        assert(hs[k] == prev[k]);
    } else {
        assert(blocks.last() == blocks[i]);
        assert(hs == prev.push(want));
        assert(hs[prev.len() as int] == want);
    }
}

} // verus!
