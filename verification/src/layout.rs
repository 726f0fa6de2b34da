//! Screen layout: a sidebar frame beside a content panel, centred in the
//! terminal with fixed outer margins.

use vstd::prelude::*;

verus! {

/// A rectangle of terminal cells.
#[derive(Clone, Copy, Debug)]
pub struct Rect {
    pub x: u16,
    pub y: u16,
    pub width: u16,
    pub height: u16,
}

/// The last row of `r` (its top row when the height is zero), clamped to
/// `u16::MAX`.
pub open spec fn bottom_row(r: Rect) -> int {
    if r.height == 0 {
        r.y as int
    } else {
        min_int(r.y + r.height - 1, u16::MAX as int)
    }
}

impl Rect {
    /// The last row the rectangle covers (see `bottom_row`).
    pub fn bottom(self) -> (b: u16)
        ensures
            b == bottom_row(self),
    {
        self.y.saturating_add(self.height.saturating_sub(1))
    }
}

/// The three rectangles of the screen.
#[derive(Clone, Copy, Debug)]
pub struct Layout {
    pub sidebar_frame: Rect,
    pub sidebar_content: Rect,
    pub content: Rect,
}

pub const MIN_OUTER_MARGIN_X: u16 = 4;

pub const MIN_OUTER_MARGIN_Y: u16 = 1;

pub const PANEL_GAP: u16 = 2;

pub const SIDEBAR_MIN_WIDTH: u16 = 18;

pub const SIDEBAR_PREFERRED_WIDTH: u16 = 26;

pub const MIN_CONTENT_WIDTH: u16 = 10;

pub const MIN_CONTENT_HEIGHT: u16 = 1;

/// Columns below which the layout behaves as if the terminal had this width:
/// the minimum content width, the minimum sidebar width, the gap and a border.
pub open spec fn min_total_width() -> int {
    MIN_CONTENT_WIDTH + SIDEBAR_MIN_WIDTH + PANEL_GAP + 2
}

pub open spec fn max_int(a: int, b: int) -> int {
    if a >= b { a } else { b }
}

pub open spec fn min_int(a: int, b: int) -> int {
    if a <= b { a } else { b }
}

/// Terminal width the layout works with.
pub open spec fn safe_cols(cols: u16) -> int {
    max_int(cols as int, min_total_width())
}

/// Terminal height the layout works with.
pub open spec fn safe_rows(rows: u16) -> int {
    max_int(rows as int, MIN_CONTENT_HEIGHT + 2)
}

/// Height of both panels.
pub open spec fn panel_height(rows: u16) -> int {
    max_int(safe_rows(rows) - 2 * MIN_OUTER_MARGIN_Y, MIN_CONTENT_HEIGHT + 2)
}

/// Top row of both panels.
pub open spec fn panel_top(rows: u16) -> int {
    (safe_rows(rows) - panel_height(rows)) / 2
}

/// Width of the sidebar frame: the preferred width, unless the content
/// panel's minimum width and the gap leave less room.
pub open spec fn sidebar_width(cols: u16) -> int {
    min_int(
        SIDEBAR_PREFERRED_WIDTH as int,
        safe_cols(cols) - 2 * MIN_OUTER_MARGIN_X - MIN_CONTENT_WIDTH - PANEL_GAP,
    )
}

/// Width of the content panel: all that the margins, sidebar and gap leave.
pub open spec fn content_width(cols: u16) -> int {
    safe_cols(cols) - 2 * MIN_OUTER_MARGIN_X - sidebar_width(cols) - PANEL_GAP
}

fn max_u16(a: u16, b: u16) -> (r: u16)
    ensures
        r == max_int(a as int, b as int),
{
    if a >= b { a } else { b }
}

fn min_u16(a: u16, b: u16) -> (r: u16)
    ensures
        r == min_int(a as int, b as int),
{
    if a <= b { a } else { b }
}

/// The layout for a terminal of `cols` x `rows` cells: the sidebar frame at
/// the left margin, its content one cell inside it, and the content panel
/// after the gap, both panels `panel_height` rows high from `panel_top`.
pub open spec fn layout_for(cols: u16, rows: u16) -> Layout {
    let frame = Rect {
        x: MIN_OUTER_MARGIN_X,
        y: panel_top(rows) as u16,
        width: sidebar_width(cols) as u16,
        height: panel_height(rows) as u16,
    };
    Layout {
        sidebar_frame: frame,
        sidebar_content: Rect {
            x: (frame.x + 1) as u16,
            y: (frame.y + 1) as u16,
            width: (frame.width - 2) as u16,
            height: (frame.height - 2) as u16,
        },
        content: Rect {
            x: (frame.x + frame.width + PANEL_GAP) as u16,
            y: panel_top(rows) as u16,
            width: content_width(cols) as u16,
            height: panel_height(rows) as u16,
        },
    }
}

impl Layout {
    /// Lays out the screen for a terminal of `cols` x `rows` cells.
    pub fn centered_panel(cols: u16, rows: u16) -> (l: Layout)
        ensures
            l == layout_for(cols, rows),
            l.sidebar_frame.x == MIN_OUTER_MARGIN_X,
            l.sidebar_frame.y == panel_top(rows),
            l.sidebar_frame.width == sidebar_width(cols),
            l.sidebar_frame.height == panel_height(rows),
            l.sidebar_content.x == l.sidebar_frame.x + 1,
            l.sidebar_content.y == l.sidebar_frame.y + 1,
            l.sidebar_content.width == l.sidebar_frame.width - 2,
            l.sidebar_content.height == l.sidebar_frame.height - 2,
            l.content.x == l.sidebar_frame.x + l.sidebar_frame.width + PANEL_GAP,
            l.content.y == panel_top(rows),
            l.content.width == content_width(cols),
            l.content.height == panel_height(rows),
    {
        let minimum_total_width = MIN_CONTENT_WIDTH.saturating_add(SIDEBAR_MIN_WIDTH).saturating_add(
            PANEL_GAP,
        ).saturating_add(2);
        let safe_cols = max_u16(cols, minimum_total_width);
        let safe_rows = max_u16(rows, MIN_CONTENT_HEIGHT.saturating_add(2));

        let available_width = safe_cols.saturating_sub(MIN_OUTER_MARGIN_X * 2);
        let available_height = safe_rows.saturating_sub(MIN_OUTER_MARGIN_Y * 2);
        let content_area_height = max_u16(available_height, MIN_CONTENT_HEIGHT.saturating_add(2));

        let max_sidebar_width = available_width.saturating_sub(MIN_CONTENT_WIDTH).saturating_sub(
            PANEL_GAP,
        );
        let sidebar_frame_width = max_u16(
            min_u16(SIDEBAR_PREFERRED_WIDTH, max_sidebar_width),
            min_u16(SIDEBAR_MIN_WIDTH, max_sidebar_width),
        );
        let content_width = max_u16(
            available_width.saturating_sub(sidebar_frame_width).saturating_sub(PANEL_GAP),
            MIN_CONTENT_WIDTH,
        );
        let total_panel_width = sidebar_frame_width.saturating_add(PANEL_GAP).saturating_add(
            content_width,
        );
        let start_x = safe_cols.saturating_sub(total_panel_width) / 2;
        let start_y = safe_rows.saturating_sub(content_area_height) / 2;

        let sidebar_frame = Rect {
            x: start_x,
            y: start_y,
            width: sidebar_frame_width,
            height: content_area_height,
        };
        let sidebar_content = Rect {
            x: sidebar_frame.x.saturating_add(1),
            y: sidebar_frame.y.saturating_add(1),
            width: sidebar_frame.width.saturating_sub(2),
            height: sidebar_frame.height.saturating_sub(2),
        };
        let content = Rect {
            x: sidebar_frame.x.saturating_add(sidebar_frame.width).saturating_add(PANEL_GAP),
            y: start_y,
            width: content_width,
            height: content_area_height,
        };
        Layout { sidebar_frame, sidebar_content, content }
    }
}

/// The panels never overlap and always fit in the working area: the sidebar
/// frame, a gap of `PANEL_GAP` columns, then the content panel, with a margin
/// of `MIN_OUTER_MARGIN_X` columns on either side; the content panel is at least
/// `MIN_CONTENT_WIDTH` wide, the sidebar content lies inside its frame, and
/// the sidebar gets its minimum width whenever the terminal has room for it.
pub proof fn lemma_centered_panel_fits(cols: u16, rows: u16)
    ensures
        content_width(cols) >= MIN_CONTENT_WIDTH,
        sidebar_width(cols) >= 2,
        MIN_OUTER_MARGIN_X + sidebar_width(cols) + PANEL_GAP + content_width(cols)
            + MIN_OUTER_MARGIN_X == safe_cols(cols),
        panel_height(rows) >= MIN_CONTENT_HEIGHT + 2,
        panel_top(rows) + panel_height(rows) <= safe_rows(rows),
        cols >= min_total_width() ==> safe_cols(cols) == cols,
        rows >= MIN_CONTENT_HEIGHT + 2 ==> safe_rows(rows) == rows,
        cols >= SIDEBAR_PREFERRED_WIDTH + 2 * MIN_OUTER_MARGIN_X + MIN_CONTENT_WIDTH + PANEL_GAP
            ==> sidebar_width(cols) == SIDEBAR_PREFERRED_WIDTH,
        cols >= SIDEBAR_MIN_WIDTH + 2 * MIN_OUTER_MARGIN_X + MIN_CONTENT_WIDTH + PANEL_GAP ==> sidebar_width(cols)
            >= SIDEBAR_MIN_WIDTH,
{
}

} // verus!
