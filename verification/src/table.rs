//! Table grids: column widths from the visible width of the cells, and the
//! box-drawing border lines.

use vstd::prelude::*;
use crate::ansi::{code_seq, closed, lemma_visible_concat, lemma_visible_plain_end, push_code, strip_ansi, visible, Code};
use crate::text::{chars_of, push_char, push_repeat, repeat};

verus! {

pub open spec fn strings_view(v: Seq<String>) -> Seq<Seq<char>> {
    v.map_values(|s: String| s@)
}

pub open spec fn grid_view(v: Seq<Vec<String>>) -> Seq<Seq<Seq<char>>> {
    v.map_values(|r: Vec<String>| strings_view(r@))
}

/// The widest cell a column is sized for.
pub open spec fn max_cell_width() -> nat {
    40
}

/// Number of columns: the length of the longest row.
pub open spec fn max_cols(rows: Seq<Seq<Seq<char>>>) -> nat
    decreases rows.len(),
{
    if rows.len() == 0 {
        0
    } else {
        let m = max_cols(rows.drop_last());
        if rows.last().len() > m {
            rows.last().len()
        } else {
            m
        }
    }
}

/// What cell `i` of `row` asks of its column: its visible width, capped.
pub open spec fn cell_need(row: Seq<Seq<char>>, i: int) -> nat {
    if 0 <= i < row.len() {
        let w = visible(row[i]).len();
        if w < max_cell_width() {
            w
        } else {
            max_cell_width()
        }
    } else {
        0
    }
}

/// Width of column `i`: the largest need of its cells.
pub open spec fn col_width(rows: Seq<Seq<Seq<char>>>, i: int) -> nat
    decreases rows.len(),
{
    if rows.len() == 0 {
        0
    } else {
        let m = col_width(rows.drop_last(), i);
        let w = cell_need(rows.last(), i);
        if w > m {
            w
        } else {
            m
        }
    }
}

pub open spec fn col_widths(rows: Seq<Seq<Seq<char>>>) -> Seq<nat> {
    Seq::new(max_cols(rows), |i: int| col_width(rows, i))
}

/// `parts` separated by `sep`.
pub open spec fn join(parts: Seq<Seq<char>>, sep: char) -> Seq<char>
    decreases parts.len(),
{
    if parts.len() == 0 {
        seq![]
    } else if parts.len() == 1 {
        parts[0]
    } else {
        join(parts.drop_last(), sep) + seq![sep] + parts.last()
    }
}

/// A horizontal grid line: `left`, a run of `─` two wider than each column,
/// the runs separated by `mid`, then `right`; in gray.
pub open spec fn border_line(left: char, mid: char, right: char, widths: Seq<nat>) -> Seq<char> {
    code_seq(Code::Fg(245)) + seq![left] + join(
        widths.map_values(|w: nat| repeat('─', w + 2)),
        mid,
    ) + seq![right] + code_seq(Code::Reset)
}

pub proof fn lemma_col_width_bound(rows: Seq<Seq<Seq<char>>>, i: int)
    ensures
        col_width(rows, i) <= max_cell_width(),
    decreases rows.len(),
{
    if rows.len() > 0 {
        lemma_col_width_bound(rows.drop_last(), i);
    }
}

proof fn lemma_max_cols(rows: Seq<Seq<Seq<char>>>)
    ensures
        forall|r: int| 0 <= r < rows.len() ==> #[trigger] rows[r].len() <= max_cols(rows),
        rows.len() > 0 ==> exists|r: int| 0 <= r < rows.len() && #[trigger] rows[r].len() == max_cols(rows),
        rows.len() == 0 ==> max_cols(rows) == 0,
    decreases rows.len(),
{
    if rows.len() > 0 {
        let p = rows.drop_last();
        lemma_max_cols(p);
        assert forall|r: int| 0 <= r < rows.len() implies #[trigger] rows[r].len() <= max_cols(rows) by {
            if r < p.len() {
                assert(rows[r] == p[r]);
            }
        }
        if rows.last().len() > max_cols(p) {
            assert(rows[rows.len() - 1].len() == max_cols(rows));
        } else if p.len() > 0 {
            let r = choose|r: int| 0 <= r < p.len() && #[trigger] p[r].len() == max_cols(p);
            assert(rows[r] == p[r]);
        } else {
            assert(rows[rows.len() - 1].len() == max_cols(rows));
        }
    }
}

/// Number of characters `s` shows.
pub fn visible_len(s: &str) -> (n: usize)
    ensures
        n == visible(s@).len(),
{
    let v = strip_ansi(s);
    chars_of(v.as_str()).len()
}

/// Column widths of a grid of drawn cells.
pub fn compute_col_widths(rows: &[Vec<String>]) -> (ws: Vec<usize>)
    ensures
        ws@.len() == col_widths(grid_view(rows@)).len(),
        forall|i: int| 0 <= i < ws@.len() ==> ws@[i] == col_widths(grid_view(rows@))[i],
{
    let ghost g = grid_view(rows@);
    let mut max_c: usize = 0;
    let mut r: usize = 0;
    while r < rows.len()
        invariant
            r <= rows@.len(),
            g == grid_view(rows@),
            max_c == max_cols(g.take(r as int)),
        decreases rows.len() - r,
    {
        assert(g.take(r + 1).drop_last() =~= g.take(r as int));
        assert(g[r as int].len() == rows@[r as int]@.len());
        if rows[r].len() > max_c {
            max_c = rows[r].len();
        }
        r += 1;
    }
    assert(g.take(rows@.len() as int) =~= g);
    let mut widths: Vec<usize> = Vec::new();
    let mut k: usize = 0;
    while k < max_c
        invariant
            k <= max_c,
            widths@.len() == k,
            forall|j: int| 0 <= j < k ==> widths@[j] == 0,
        decreases max_c - k,
    {
        widths.push(0);
        k += 1;
    }
    proof {
        lemma_max_cols(g);
    }
    r = 0;
    while r < rows.len()
        invariant
            r <= rows@.len(),
            g == grid_view(rows@),
            max_c == max_cols(g),
            widths@.len() == max_c,
            forall|j: int| 0 <= j < max_c ==> widths@[j] == col_width(g.take(r as int), j),
            forall|q: int| 0 <= q < g.len() ==> #[trigger] g[q].len() <= max_cols(g),
        decreases rows.len() - r,
    {
        let row = &rows[r];
        let ghost gr = g[r as int];
        assert(gr == strings_view(row@));
        assert(gr.len() <= max_c);
        let mut i: usize = 0;
        while i < row.len()
            invariant
                i <= row@.len(),
                row@.len() <= max_c,
                gr == strings_view(row@),
                widths@.len() == max_c,
                forall|j: int|
                    0 <= j < max_c ==> widths@[j] == if j < i {
                        col_width(g.take(r + 1), j)
                    } else {
                        col_width(g.take(r as int), j)
                    },
                r < g.len(),
                g.take(r + 1).drop_last() == g.take(r as int),
                g.take(r + 1).last() == gr,
            decreases row.len() - i,
        {
            let w0 = visible_len(row[i].as_str());
            let w = if w0 < 40 {
                w0
            } else {
                40
            };
            assert(w == cell_need(gr, i as int));
            assert(g.take(r + 1).len() > 0);
            assert(col_width(g.take(r + 1), i as int) == if cell_need(gr, i as int) > col_width(
                g.take(r as int),
                i as int,
            ) {
                cell_need(gr, i as int)
            } else {
                col_width(g.take(r as int), i as int)
            });
            if w > widths[i] {
                widths.set(i, w);
            }
            i += 1;
        }
        proof {
            assert forall|j: int| 0 <= j < max_c implies widths@[j] == col_width(g.take(r + 1), j) by {
                if j >= row@.len() {
                    assert(g.take(r + 1).len() > 0);
                    assert(cell_need(gr, j) == 0);
                }
            }
        }
        r += 1;
    }
    assert(g.take(rows@.len() as int) =~= g);
    widths
}

} // verus!

verus! {

pub open spec fn nat_widths(ws: Seq<usize>) -> Seq<nat> {
    ws.map_values(|w: usize| w as nat)
}

pub open spec fn dash_runs(widths: Seq<nat>) -> Seq<Seq<char>> {
    widths.map_values(|w: nat| repeat('─', w + 2))
}

/// Draws a horizontal grid line for the given column widths.
pub fn border(left: char, mid: char, right: char, widths: &Vec<usize>) -> (s: String)
    requires
        forall|i: int| 0 <= i < widths@.len() ==> widths@[i] <= max_cell_width(),
    ensures
        s@ == border_line(left, mid, right, nat_widths(widths@)),
{
    let ghost parts = dash_runs(nat_widths(widths@));
    let mut s = String::new();
    push_code(&mut s, Code::Fg(245));
    push_char(&mut s, left);
    let ghost start = s@;
    let mut i: usize = 0;
    while i < widths.len()
        invariant
            i <= widths@.len(),
            parts == dash_runs(nat_widths(widths@)),
            parts.len() == widths@.len(),
            forall|q: int| 0 <= q < widths@.len() ==> widths@[q] <= max_cell_width(),
            s@ == start + join(parts.take(i as int), mid),
        decreases widths.len() - i,
    {
        if i > 0 {
            push_char(&mut s, mid);
        }
        push_repeat(&mut s, '─', widths[i] + 2);
        assert(parts[i as int] == repeat('─', (widths@[i as int] + 2) as nat));
        assert(parts.take(i + 1).drop_last() =~= parts.take(i as int));
        if i == 0 {
            assert(join(parts.take(1), mid) == parts[0]);
            assert(s@ =~= start + join(parts.take(i + 1), mid));
        } else {
            assert(s@ =~= start + join(parts.take(i + 1), mid));
        }
        i += 1;
    }
    assert(parts.take(widths@.len() as int) =~= parts);
    push_char(&mut s, right);
    push_code(&mut s, Code::Reset);
    assert(s@ =~= border_line(left, mid, right, nat_widths(widths@)));
    s
}

} // verus!

verus! {

/// Sum of the visible widths of `parts`.
pub open spec fn visible_total(parts: Seq<Seq<char>>) -> nat
    decreases parts.len(),
{
    if parts.len() == 0 {
        0
    } else {
        visible_total(parts.drop_last()) + visible(parts.last()).len()
    }
}

/// Sum of the column widths, each two wider for the padding.
pub open spec fn runs_total(ws: Seq<nat>) -> nat
    decreases ws.len(),
{
    if ws.len() == 0 {
        0
    } else {
        runs_total(ws.drop_last()) + ws.last() + 2
    }
}

/// Visible width of every line of a grid with these column widths.
pub open spec fn grid_width(ws: Seq<nat>) -> nat {
    if ws.len() == 0 {
        2
    } else {
        runs_total(ws) + ws.len() + 1
    }
}

pub proof fn lemma_join_visible(parts: Seq<Seq<char>>, sep: char)
    requires
        sep != crate::text::esc(),
        forall|i: int| 0 <= i < parts.len() ==> closed(#[trigger] parts[i]),
    ensures
        closed(join(parts, sep)),
        visible(join(parts, sep)).len() == if parts.len() == 0 {
            0
        } else {
            visible_total(parts) + parts.len() - 1
        },
    decreases parts.len(),
{
    if parts.len() == 0 {
        assert(closed(Seq::<char>::empty()));
    } else if parts.len() == 1 {
        assert(parts.drop_last().len() == 0);
    } else {
        let p = parts.drop_last();
        assert forall|i: int| 0 <= i < p.len() implies closed(#[trigger] p[i]) by {
            assert(p[i] == parts[i]);
        }
        lemma_join_visible(p, sep);
        let j = join(p, sep);
        lemma_visible_plain_end(j, seq![sep]);
        assert(closed(parts.last())) by {
            assert(parts.last() == parts[parts.len() - 1]);
        }
        lemma_visible_concat(j + seq![sep], parts.last());
    }
}

pub proof fn lemma_visible_total_pointwise(parts: Seq<Seq<char>>, ws: Seq<nat>)
    requires
        parts.len() == ws.len(),
        forall|i: int| 0 <= i < parts.len() ==> visible(#[trigger] parts[i]).len() == ws[i] + 2,
    ensures
        visible_total(parts) == runs_total(ws),
    decreases parts.len(),
{
    if parts.len() > 0 {
        let p = parts.drop_last();
        let w = ws.drop_last();
        assert forall|i: int| 0 <= i < p.len() implies visible(#[trigger] p[i]).len() == w[i] + 2 by {
            assert(p[i] == parts[i]);
        }
        lemma_visible_total_pointwise(p, w);
        assert(visible(parts[parts.len() - 1]).len() == ws[ws.len() - 1] + 2);
    }
}

/// A border line is as wide as the grid.
pub proof fn lemma_border_width(left: char, mid: char, right: char, ws: Seq<nat>)
    requires
        left != crate::text::esc(),
        mid != crate::text::esc(),
        right != crate::text::esc(),
    ensures
        visible(border_line(left, mid, right, ws)).len() == grid_width(ws),
{
    let parts = dash_runs(ws);
    assert forall|i: int| 0 <= i < parts.len() implies closed(#[trigger] parts[i]) && visible(
        parts[i],
    ).len() == ws[i] + 2 by {
        let d = repeat('─', ws[i] + 2);
        assert(parts[i] == d);
        assert(crate::ansi::no_esc(d));
        crate::ansi::lemma_strip_plain(d);
    }
    lemma_join_visible(parts, mid);
    lemma_visible_total_pointwise(parts, ws);
    let j = join(parts, mid);
    let g = code_seq(Code::Fg(245));
    crate::ansi::lemma_visible_code_concat(Code::Fg(245), seq![left]);
    crate::ansi::lemma_strip_plain(seq![left]);
    assert(crate::ansi::no_esc(seq![left]));
    lemma_visible_concat(g + seq![left], j);
    lemma_visible_plain_end(g + seq![left] + j, seq![right]);
    crate::ansi::lemma_visible_code_end(g + seq![left] + j + seq![right], Code::Reset);
}

/// A column is at least as wide as any of its cells needs.
pub proof fn lemma_col_width_covers(rows: Seq<Seq<Seq<char>>>, r: int, i: int)
    requires
        0 <= r < rows.len(),
    ensures
        col_width(rows, i) >= cell_need(rows[r], i),
    decreases rows.len(),
{
    if r < rows.len() - 1 {
        lemma_col_width_covers(rows.drop_last(), r, i);
        assert(rows.drop_last()[r] == rows[r]);
    }
}

} // verus!
