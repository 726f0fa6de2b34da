//! Syntax highlighting of code blocks through `syntect`.
//!
//! How syntect splits a line into coloured pieces is syntect's own work and
//! is named, not spelled out (`highlight_pieces`); what is stated is which
//! syntax and theme a block is highlighted with, in which order its lines
//! go through the highlighter, how the pieces are written for a terminal,
//! and how each row of a block is built from them.

use vstd::prelude::*;
use syntect::easy::HighlightLines;
use syntect::highlighting::{Style as SyntectStyle, Theme, ThemeSet};
use syntect::parsing::{SyntaxReference, SyntaxSet};
use syntect::util::as_24_bit_terminal_escaped;
use crate::ansi::{code_seq, no_esc, push_code, visible, Code};
use crate::text::is_alpha;
use crate::table::join;
use crate::text::{chars_of, decimal, push_char, push_str};

verus! {

#[verifier::external_type_specification]
#[verifier::external_body]
pub struct ExSyntaxSet(SyntaxSet);

#[verifier::external_type_specification]
#[verifier::external_body]
pub struct ExSyntaxReference(SyntaxReference);

#[verifier::external_type_specification]
#[verifier::external_body]
pub struct ExThemeSet(ThemeSet);

#[verifier::external_type_specification]
#[verifier::external_body]
pub struct ExTheme(Theme);

#[verifier::external_type_specification]
#[verifier::external_body]
pub struct ExHighlightStyle(SyntectStyle);

#[verifier::external_type_specification]
#[verifier::external_body]
pub struct ExHighlightLines<'a>(HighlightLines<'a>);

/// Names of the syntaxes a syntax set holds.
pub uninterp spec fn syntax_names(ss: SyntaxSet) -> Set<Seq<char>>;

/// Names (keys) of the themes a theme set holds.
pub uninterp spec fn theme_names(ts: ThemeSet) -> Set<Seq<char>>;

pub open spec fn plain_text_name() -> Seq<char> {
    seq!['P', 'l', 'a', 'i', 'n', ' ', 'T', 'e', 'x', 't']
}

pub open spec fn ocean_dark_name() -> Seq<char> {
    seq!['b', 'a', 's', 'e', '1', '6', '-', 'o', 'c', 'e', 'a', 'n', '.', 'd', 'a', 'r', 'k']
}

/// Calls `SyntaxSet::load_defaults_newlines`. Trusted: the default set has a
/// "Plain Text" syntax (the set `find_syntax_plain_text` relies on).
#[verifier::external_body]
pub(crate) fn load_syntax_set() -> (ss: SyntaxSet)
    ensures
        syntax_names(ss).contains(plain_text_name()),
{
    SyntaxSet::load_defaults_newlines()
}

/// Calls `ThemeSet::load_defaults`. Trusted: the default themes include
/// `base16-ocean.dark`, as syntect documents.
#[verifier::external_body]
pub(crate) fn load_theme_set() -> (ts: ThemeSet)
    ensures
        theme_names(ts).contains(ocean_dark_name()),
{
    ThemeSet::load_defaults()
}

/// The syntax `SyntaxSet::find_syntax_by_token` finds in `ss` for `token`.
pub uninterp spec fn syntax_for_token(ss: SyntaxSet, token: Seq<char>) -> Option<SyntaxReference>;

/// The syntax `SyntaxSet::find_syntax_plain_text` finds in `ss`.
pub uninterp spec fn plain_text_syntax(ss: SyntaxSet) -> SyntaxReference;

/// The theme `ts` holds under `name`.
pub uninterp spec fn theme_for(ts: ThemeSet, name: Seq<char>) -> Option<Theme>;

/// The highlighter `HighlightLines::new` makes for a syntax and a theme.
pub uninterp spec fn fresh_highlighter(syntax: SyntaxReference, theme: Theme) -> HighlightLines<'static>;

/// What `HighlightLines::highlight_line` gives for `line` from the state `h`,
/// with syntax set `ss`: on success each piece's foreground, background
/// (red, green, blue, alpha) and text; `None` on a parse error.
pub uninterp spec fn highlight_pieces(h: HighlightLines, line: Seq<char>, ss: SyntaxSet) -> Option<
    Seq<((u8, u8, u8, u8), (u8, u8, u8, u8), Seq<char>)>,
>;

/// The state `HighlightLines::highlight_line` leaves `h` in after `line`.
pub uninterp spec fn highlighter_after(h: HighlightLines, line: Seq<char>, ss: SyntaxSet) -> HighlightLines;

/// A style's `foreground` colour (red, green, blue, alpha).
pub uninterp spec fn style_fg(st: SyntectStyle) -> (u8, u8, u8, u8);

/// A style's `background` colour (red, green, blue, alpha).
pub uninterp spec fn style_bg(st: SyntectStyle) -> (u8, u8, u8, u8);

/// Highlighted pieces as colours and texts.
pub open spec fn pieces_of<'b>(v: Seq<(SyntectStyle, &'b str)>) -> Seq<((u8, u8, u8, u8), (u8, u8, u8, u8), Seq<char>)> {
    v.map_values(|p: (SyntectStyle, &'b str)| (style_fg(p.0), style_bg(p.0), p.1@))
}

/// Calls `SyntaxSet::find_syntax_by_token`. Trusted: it finds the syntax
/// named `syntax_for_token(ss, token)`, a function of the set and the token.
#[verifier::external_body]
fn find_syntax_by_token<'a>(ss: &'a SyntaxSet, token: &str) -> (r: Option<&'a SyntaxReference>)
    ensures
        syntax_for_token(*ss, token@) == match r {
            Some(s) => Some(*s),
            None => None,
        },
{
    ss.find_syntax_by_token(token)
}

/// Calls `SyntaxSet::find_syntax_plain_text`, which panics when the set has no
/// "Plain Text" syntax; that case is excluded. Trusted: it finds the syntax
/// named `plain_text_syntax(ss)`.
#[verifier::external_body]
fn find_syntax_plain_text(ss: &SyntaxSet) -> (r: &SyntaxReference)
    requires
        syntax_names(*ss).contains(plain_text_name()),
    ensures
        *r == plain_text_syntax(*ss),
{
    ss.find_syntax_plain_text()
}

/// Looks a theme up by name in `ThemeSet::themes` (`BTreeMap::get`).
/// Trusted: a theme is found exactly when the set holds its name, and it is
/// the one the set holds under that name.
#[verifier::external_body]
fn theme_named<'a>(ts: &'a ThemeSet, name: &str) -> (t: Option<&'a Theme>)
    ensures
        t is Some <==> theme_names(*ts).contains(name@),
        theme_for(*ts, name@) == match t {
            Some(x) => Some(*x),
            None => None,
        },
{
    ts.themes.get(name)
}

/// Calls `HighlightLines::new`. Trusted: the highlighter is the one named
/// `fresh_highlighter(syntax, theme)`, a function of the two.
#[verifier::external_body]
fn new_highlighter<'a>(syntax: &SyntaxReference, theme: &'a Theme) -> (h: HighlightLines<'a>)
    ensures
        h == fresh_highlighter(*syntax, *theme),
{
    HighlightLines::new(syntax, theme)
}

/// The texts of highlighted pieces.
pub open spec fn piece_texts<'b>(v: Seq<(SyntectStyle, &'b str)>) -> Seq<Seq<char>> {
    v.map_values(|p: (SyntectStyle, &'b str)| p.1@)
}

/// The concatenation of `parts`.
pub open spec fn concat(parts: Seq<Seq<char>>) -> Seq<char>
    decreases parts.len(),
{
    if parts.len() == 0 {
        seq![]
    } else {
        concat(parts.drop_last()) + parts.last()
    }
}

/// Calls `HighlightLines::highlight_line`, turning its error into `None`.
/// syntect asks that the syntax set be the one the highlighter's syntax came
/// from (the parser may panic otherwise), so the highlighter must be one made
/// from a syntax of `ss` that has since highlighted lines with `ss` only.
/// Trusted: the result is `highlight_pieces` and the new state
/// `highlighter_after` of the highlighter's state, the line and the syntax
/// set (syntect is deterministic); on success the pieces' texts make up the
/// line, as syntect documents.
#[verifier::external_body]
fn highlight_line<'b>(h: &mut HighlightLines<'_>, line: &'b str, ss: &SyntaxSet) -> (r: Option<
    Vec<(SyntectStyle, &'b str)>,
>)
    requires
        highlighter_of_set(*old(h), *ss),
    ensures
        highlight_pieces(*old(h), line@, *ss) == match r {
            Some(v) => Some(
                v@.map_values(|p: (SyntectStyle, &'b str)| (style_fg(p.0), style_bg(p.0), p.1@)),
            ),
            None => None,
        },
        *final(h) == highlighter_after(*old(h), line@, *ss),
        r matches Some(v) ==> concat(piece_texts(v@)) == line@,
{
    h.highlight_line(line, ss).ok()
}

/// `ESC [38;2;r;g;b m`: a 24-bit foreground colour.
pub open spec fn fg24(c: (u8, u8, u8)) -> Seq<char> {
    seq!['\x1b', '[', '3', '8', ';', '2', ';'] + decimal(c.0 as nat) + seq![';'] + decimal(
        c.1 as nat,
    ) + seq![';'] + decimal(c.2 as nat) + seq!['m']
}

/// One blended channel: `f` weighted by alpha `a` over `b`.
pub open spec fn blend_channel(f: u8, b: u8, a: u8) -> u8 {
    ((f * a + b * (255 - a)) / 255) as u8
}

/// The foreground drawn over the background: as it is when opaque, else
/// each channel blended by the foreground's alpha.
pub open spec fn blend_fg(fg: (u8, u8, u8, u8), bg: (u8, u8, u8, u8)) -> (u8, u8, u8) {
    if fg.3 == 255 {
        (fg.0, fg.1, fg.2)
    } else {
        (blend_channel(fg.0, bg.0, fg.3), blend_channel(fg.1, bg.1, fg.3), blend_channel(fg.2, bg.2, fg.3))
    }
}

/// Highlighted pieces written for a terminal: each text after the 24-bit
/// code of its blended foreground.
pub open spec fn escaped_text(ps: Seq<((u8, u8, u8, u8), (u8, u8, u8, u8), Seq<char>)>) -> Seq<char>
    decreases ps.len(),
{
    if ps.len() == 0 {
        seq![]
    } else {
        escaped_text(ps.drop_last()) + fg24(blend_fg(ps.last().0, ps.last().1)) + ps.last().2
    }
}

/// Calls `syntect::util::as_24_bit_terminal_escaped` without backgrounds.
/// Trusted: each piece's text is written after the `ESC[38;2;r;g;bm` code of
/// its foreground blended over its background by the foreground's alpha, as
/// the function's source (`blend_fg_color`) shows.
#[verifier::external_body]
fn terminal_escaped(v: &[(SyntectStyle, &str)]) -> (s: String)
    ensures
        s@ == escaped_text(v@.map_values(|p: (SyntectStyle, &str)| (style_fg(p.0), style_bg(p.0), p.1@))),
{
    as_24_bit_terminal_escaped(v, false)
}

} // verus!

verus! {

pub open spec fn strip_cr(c: Seq<char>) -> Seq<char> {
    if c.len() > 0 && c.last() == '\r' {
        c.drop_last()
    } else {
        c
    }
}

/// Lines completed so far and the line in progress after reading `s`.
pub open spec fn lines_scan(s: Seq<char>) -> (Seq<Seq<char>>, Seq<char>)
    decreases s.len(),
{
    if s.len() == 0 {
        (seq![], seq![])
    } else {
        let r = lines_scan(s.drop_last());
        if s.last() == '\n' {
            (r.0.push(strip_cr(r.1)), seq![])
        } else {
            (r.0, r.1.push(s.last()))
        }
    }
}

/// The lines of `s` as `str::lines` gives them: split at `\n`, a `\r` before
/// the `\n` dropped, and no empty line after a final `\n`.
pub open spec fn code_lines(s: Seq<char>) -> Seq<Seq<char>> {
    let r = lines_scan(s);
    if r.1.len() > 0 {
        r.0.push(r.1)
    } else {
        r.0
    }
}

pub open spec fn str_views(v: Seq<String>) -> Seq<Seq<char>> {
    v.map_values(|s: String| s@)
}

/// Splits `code` into its lines.
pub fn split_lines(code: &str) -> (lines: Vec<String>)
    ensures
        str_views(lines@) == code_lines(code@),
{
    let cs = chars_of(code);
    let mut lines: Vec<String> = Vec::new();
    let mut current = String::new();
    let mut i: usize = 0;
    assert(cs@.take(0) =~= Seq::<char>::empty());
    while i < cs.len()
        invariant
            i <= cs@.len(),
            cs@ == code@,
            str_views(lines@) == lines_scan(cs@.take(i as int)).0,
            current@ == lines_scan(cs@.take(i as int)).1,
        decreases cs.len() - i,
    {
        let ch = cs[i];
        assert(cs@.take(i + 1).drop_last() =~= cs@.take(i as int));
        assert(cs@.take(i + 1).last() == ch);
        if ch == '\n' {
            let mut line = String::new();
            std::mem::swap(&mut line, &mut current);
            let cv = chars_of(line.as_str());
            let n = cv.len();
            let done = if n > 0 && cv[n - 1] == '\r' {
                let mut t = String::new();
                crate::text::push_range(&mut t, &cv, 0, n - 1);
                assert(t@ =~= strip_cr(line@));
                t
            } else {
                line
            };
            let ghost before = lines@;
            lines.push(done);
            assert(str_views(lines@) =~= str_views(before).push(done@));
        } else {
            push_char(&mut current, ch);
        }
        i += 1;
    }
    assert(cs@.take(cs@.len() as int) =~= cs@);
    if current.as_str().is_empty() {
        lines
    } else {
        let ghost before = lines@;
        let cur = current;
        lines.push(cur);
        assert(str_views(lines@) =~= str_views(before).push(cur@));
        lines
    }
}

pub open spec fn gray() -> Code {
    Code::Fg(245)
}

/// First line of a code block: a corner and the language name, or a blank
/// tab when there is none.
pub open spec fn code_header(lang: Seq<char>) -> Seq<char> {
    if lang.len() > 0 {
        code_seq(gray()) + seq!['┌', '─', ' '] + lang + code_seq(Code::Reset)
    } else {
        code_seq(gray()) + seq!['┌', '─'] + code_seq(Code::BgGray) + seq!['─'] + code_seq(Code::Reset)
    }
}

/// Last line of a code block.
pub open spec fn code_footer() -> Seq<char> {
    code_seq(gray()) + seq!['└'] + crate::text::repeat('─', 12) + code_seq(Code::BgGray) + seq!['─']
        + code_seq(Code::Reset) + seq!['─'] + code_seq(Code::Reset)
}

/// A code line: a bar and the highlighted text.
pub open spec fn code_row(e: Seq<char>) -> Seq<char> {
    code_seq(gray()) + seq!['│', ' '] + e + code_seq(Code::Reset)
}

/// The syntax a code block in `lang` is highlighted with: the one found for
/// the language token, else plain text.
pub open spec fn block_syntax(ss: SyntaxSet, lang: Seq<char>) -> SyntaxReference {
    match syntax_for_token(ss, lang) {
        Some(s) => s,
        None => plain_text_syntax(ss),
    }
}

/// The theme code blocks are highlighted with: `base16-ocean.dark`.
pub open spec fn block_theme(ts: ThemeSet) -> Theme {
    theme_for(ts, ocean_dark_name()).unwrap()
}

/// The highlighter `h` once it has highlighted `lines`, in order.
pub open spec fn highlighter_at(h: HighlightLines, lines: Seq<Seq<char>>, ss: SyntaxSet) -> HighlightLines
    decreases lines.len(),
{
    if lines.len() == 0 {
        h
    } else {
        highlighter_after(highlighter_at(h, lines.drop_last(), ss), lines.last(), ss)
    }
}

/// `s` is a syntax found in `ss`: its plain-text syntax, or the one found
/// for some token.
pub open spec fn syntax_of_set(ss: SyntaxSet, s: SyntaxReference) -> bool {
    s == plain_text_syntax(ss) || exists|tok: Seq<char>| #[trigger] syntax_for_token(ss, tok) == Some(s)
}

/// `h` was made from a syntax of `ss` (with any theme) and has since
/// highlighted lines with `ss` alone.
pub open spec fn highlighter_of_set(h: HighlightLines, ss: SyntaxSet) -> bool {
    exists|s: SyntaxReference, t: Theme, ls: Seq<Seq<char>>|
        syntax_of_set(ss, s) && h == #[trigger] highlighter_at(fresh_highlighter(s, t), ls, ss)
}

/// What `h` draws for `line`: the highlighted pieces written for a terminal,
/// or nothing when highlighting fails.
pub open spec fn highlighted_text(h: HighlightLines, line: Seq<char>, ss: SyntaxSet) -> Seq<char> {
    match highlight_pieces(h, line, ss) {
        Some(ps) => escaped_text(ps),
        None => seq![],
    }
}

/// The rows of the code lines `lines`, highlighted in order from `h`.
pub open spec fn code_rows(h: HighlightLines, lines: Seq<Seq<char>>, ss: SyntaxSet) -> Seq<Seq<char>> {
    Seq::new(lines.len(), |i: int| code_row(highlighted_text(highlighter_at(h, lines.take(i), ss), lines[i], ss)))
}

/// The highlighter a code block in `lang` starts from.
pub open spec fn block_highlighter(ss: SyntaxSet, ts: ThemeSet, lang: Seq<char>) -> HighlightLines<'static> {
    fresh_highlighter(block_syntax(ss, lang), block_theme(ts))
}

/// A drawn code block: the header, one highlighted row per line of `code`,
/// and the footer.
pub open spec fn code_block_text(ss: SyntaxSet, ts: ThemeSet, lang: Seq<char>, code: Seq<char>) -> Seq<Seq<char>> {
    seq![code_header(lang)] + code_rows(block_highlighter(ss, ts, lang), code_lines(code), ss) + seq![code_footer()]
}

/// Line `i` of `code` is highlighted without error.
pub open spec fn line_highlighted(ss: SyntaxSet, ts: ThemeSet, lang: Seq<char>, code: Seq<char>, i: int) -> bool {
    let ls = code_lines(code);
    highlight_pieces(highlighter_at(block_highlighter(ss, ts, lang), ls.take(i), ss), ls[i], ss) is Some
}

/// What a row shows of its code line: the bar and the line when it was
/// highlighted, else the bar alone.
pub open spec fn row_shows(line: Seq<char>, highlighted: bool) -> Seq<char> {
    if highlighted {
        seq!['│', ' '] + line
    } else {
        seq!['│', ' ']
    }
}

fn push_lit(s: &mut String, lit: &str)
    ensures
        final(s)@ == old(s)@ + lit@,
{
    push_str(s, lit);
}

/// Draws one line of a code block.
fn highlight_row(highlighter: &mut HighlightLines<'_>, line: &str, ss: &SyntaxSet) -> (row: String)
    requires
        highlighter_of_set(*old(highlighter), *ss),
    ensures
        row@ == code_row(highlighted_text(*old(highlighter), line@, *ss)),
        *final(highlighter) == highlighter_after(*old(highlighter), line@, *ss),
        no_esc(line@) ==> visible(row@) == row_shows(line@, highlight_pieces(*old(highlighter), line@, *ss) is Some),
{
    let ghost h0 = *highlighter;
    let escaped = match highlight_line(highlighter, line, ss) {
        Some(v) => {
            let e = terminal_escaped(v.as_slice());
            proof {
                assert(pieces_of(v@) =~= v@.map_values(
                    |p: (SyntectStyle, &str)| (style_fg(p.0), style_bg(p.0), p.1@),
                ));
                if no_esc(line@) {
                    lemma_concat_no_esc(piece_texts(v@));
                    assert forall|k: int| 0 <= k < pieces_of(v@).len() implies no_esc(
                        #[trigger] pieces_of(v@)[k].2,
                    ) by {
                        assert(pieces_of(v@)[k].2 == piece_texts(v@)[k]);
                    }
                    lemma_escaped_visible(pieces_of(v@));
                    assert(pieces_of(v@).map_values(|p: ((u8, u8, u8, u8), (u8, u8, u8, u8), Seq<char>)| p.2)
                        =~= piece_texts(v@));
                }
            }
            e
        },
        None => {
            let empty: Vec<(SyntectStyle, &str)> = Vec::new();
            let e = terminal_escaped(empty.as_slice());
            proof {
                assert(empty@.map_values(|p: (SyntectStyle, &str)| (style_fg(p.0), style_bg(p.0), p.1@))
                    =~= Seq::<((u8, u8, u8, u8), (u8, u8, u8, u8), Seq<char>)>::empty());
                assert(visible(Seq::<char>::empty()) =~= Seq::<char>::empty());
            }
            e
        },
    };
    let mut row = String::new();
    push_code(&mut row, Code::Fg(245));
    proof {
        reveal_strlit("│ ");
    }
    push_lit(&mut row, "│ ");
    push_str(&mut row, escaped.as_str());
    push_code(&mut row, Code::Reset);
    assert(row@ =~= code_row(escaped@));
    proof {
        if no_esc(line@) {
            lemma_code_row_visible(escaped@);
        }
    }
    row
}

/// Draws a code block (see `code_block_text`): a header, one highlighted
/// row per line of `code` (syntax found from `lang`, else plain text; theme
/// `base16-ocean.dark`; each line highlighted after the ones before it), and
/// a footer. A row shows the bar and its line (for a line without escape
/// characters), or only the bar when highlighting that line failed.
pub fn code_block_lines(ss: &SyntaxSet, ts: &ThemeSet, lang: &str, code: &str) -> (out: Vec<String>)
    requires
        syntax_names(*ss).contains(plain_text_name()),
        theme_names(*ts).contains(ocean_dark_name()),
    ensures
        str_views(out@) == code_block_text(*ss, *ts, lang@, code@),
        forall|i: int|
            0 <= i < code_lines(code@).len() && no_esc(code_lines(code@)[i]) ==> visible(#[trigger] out@[i + 1]@)
                == row_shows(code_lines(code@)[i], line_highlighted(*ss, *ts, lang@, code@, i)),
{
    let syntax = match find_syntax_by_token(ss, lang) {
        Some(s) => s,
        None => find_syntax_plain_text(ss),
    };
    assert(*syntax == block_syntax(*ss, lang@));
    let name = "base16-ocean.dark";
    proof {
        reveal_strlit("base16-ocean.dark");
        assert(name@ =~= ocean_dark_name());
    }
    let theme = theme_named(ts, name).unwrap();
    let mut highlighter = new_highlighter(syntax, theme);
    let ghost h0 = highlighter;
    assert(h0 == block_highlighter(*ss, *ts, lang@));
    let mut out: Vec<String> = Vec::new();
    let mut header = String::new();
    push_code(&mut header, Code::Fg(245));
    if !lang.is_empty() {
        proof {
            reveal_strlit("┌─ ");
        }
        push_lit(&mut header, "┌─ ");
        push_str(&mut header, lang);
    } else {
        proof {
            reveal_strlit("┌─");
        }
        push_lit(&mut header, "┌─");
        push_code(&mut header, Code::BgGray);
        push_char(&mut header, '─');
    }
    push_code(&mut header, Code::Reset);
    assert(header@ =~= code_header(lang@));
    out.push(header);
    let lines = split_lines(code);
    let ghost ls = code_lines(code@);
    let ghost rows = code_rows(h0, ls, *ss);
    let mut i: usize = 0;
    assert(ls.take(0) =~= Seq::<Seq<char>>::empty());
    while i < lines.len()
        invariant
            i <= lines@.len(),
            str_views(lines@) == ls,
            ls == code_lines(code@),
            rows == code_rows(h0, ls, *ss),
            h0 == block_highlighter(*ss, *ts, lang@),
            highlighter == highlighter_at(h0, ls.take(i as int), *ss),
            out@.len() == i + 1,
            out@[0]@ == code_header(lang@),
            forall|j: int| 0 <= j < i ==> #[trigger] out@[j + 1]@ == rows[j],
            forall|j: int|
                0 <= j < i && no_esc(ls[j]) ==> visible(#[trigger] out@[j + 1]@) == row_shows(
                    ls[j],
                    line_highlighted(*ss, *ts, lang@, code@, j),
                ),
        decreases lines.len() - i,
    {
        let line = lines[i].as_str();
        assert(line@ == ls[i as int]);
        proof {
            let s = block_syntax(*ss, lang@);
            if syntax_for_token(*ss, lang@) is None {
                assert(s == plain_text_syntax(*ss));
            } else {
                assert(syntax_for_token(*ss, lang@) == Some(s));
            }
            assert(syntax_of_set(*ss, s));
            assert(highlighter == highlighter_at(fresh_highlighter(s, block_theme(*ts)), ls.take(i as int), *ss));
        }
        let row = highlight_row(&mut highlighter, line, ss);
        out.push(row);
        assert(ls.take(i + 1).drop_last() =~= ls.take(i as int));
        assert(ls.take(i + 1).last() == ls[i as int]);
        i += 1;
    }
    let mut footer = String::new();
    push_code(&mut footer, Code::Fg(245));
    push_char(&mut footer, '└');
    crate::text::push_repeat(&mut footer, '─', 12);
    push_code(&mut footer, Code::BgGray);
    push_char(&mut footer, '─');
    push_code(&mut footer, Code::Reset);
    push_char(&mut footer, '─');
    push_code(&mut footer, Code::Reset);
    assert(footer@ =~= code_footer());
    out.push(footer);
    proof {
        let want = code_block_text(*ss, *ts, lang@, code@);
        assert(lines@.len() == ls.len()) by {
            assert(str_views(lines@).len() == lines@.len());
        }
        assert(want.len() == out@.len());
        assert forall|j: int| 0 <= j < want.len() implies #[trigger] str_views(out@)[j] == want[j] by {
            if 1 <= j < want.len() - 1 {
                assert(out@[(j - 1) + 1]@ == rows[j - 1]);
            }
        }
        assert(str_views(out@) =~= want);
    }
    out
}

} // verus!

verus! {

/// A 24-bit colour code is one complete escape sequence.
proof fn lemma_fg24_sgr(c: (u8, u8, u8))
    ensures
        crate::ansi::is_sgr(fg24(c)),
{
    let d0 = decimal(c.0 as nat);
    let d1 = decimal(c.1 as nat);
    let d2 = decimal(c.2 as nat);
    crate::ansi::lemma_decimal_digits(c.0 as nat);
    crate::ansi::lemma_decimal_digits(c.1 as nat);
    crate::ansi::lemma_decimal_digits(c.2 as nat);
    let s = fg24(c);
    let a = 7 + d0.len();
    let b = a + 1 + d1.len();
    assert forall|i: int| 1 <= i < s.len() - 1 implies !is_alpha(#[trigger] s[i]) by {
        if 7 <= i < a {
            assert(s[i] == d0[i - 7]);
        } else if a + 1 <= i < b {
            assert(s[i] == d1[i - a - 1]);
        } else if b + 1 <= i < s.len() - 1 {
            assert(s[i] == d2[i - b - 1]);
        }
    }
}

/// Pieces whose texts hold no escape character, each written after its
/// colour code, show exactly their texts one after another.
proof fn lemma_escaped_visible(ps: Seq<((u8, u8, u8, u8), (u8, u8, u8, u8), Seq<char>)>)
    requires
        forall|i: int| 0 <= i < ps.len() ==> no_esc(#[trigger] ps[i].2),
    ensures
        visible(escaped_text(ps)) == concat(ps.map_values(|p: ((u8, u8, u8, u8), (u8, u8, u8, u8), Seq<char>)| p.2)),
        crate::ansi::closed(escaped_text(ps)),
    decreases ps.len(),
{
    let texts = ps.map_values(|p: ((u8, u8, u8, u8), (u8, u8, u8, u8), Seq<char>)| p.2);
    if ps.len() == 0 {
        assert(visible(Seq::<char>::empty()) =~= Seq::<char>::empty());
    } else {
        let p = ps.drop_last();
        assert forall|i: int| 0 <= i < p.len() implies no_esc(#[trigger] p[i].2) by {
            assert(p[i] == ps[i]);
        }
        lemma_escaped_visible(p);
        assert(texts.drop_last() =~= p.map_values(|q: ((u8, u8, u8, u8), (u8, u8, u8, u8), Seq<char>)| q.2));
        let pre = escaped_text(p);
        let last = ps.last();
        let f = fg24(blend_fg(last.0, last.1));
        lemma_fg24_sgr(blend_fg(last.0, last.1));
        crate::ansi::lemma_sgr(f, false);
        crate::ansi::lemma_strip_concat(pre, f, false);
        assert(visible(pre + f) =~= visible(pre));
        assert(no_esc(last.2)) by {
            assert(last == ps[ps.len() - 1]);
        }
        crate::ansi::lemma_visible_plain_end(pre + f, last.2);
    }
}

/// A row shows its bar, then what its highlighted text shows.
proof fn lemma_code_row_visible(e: Seq<char>)
    requires
        crate::ansi::closed(e),
    ensures
        visible(code_row(e)) == seq!['│', ' '] + visible(e),
{
    let g = code_seq(gray());
    let bar = seq!['│', ' '];
    assert(no_esc(bar));
    crate::ansi::lemma_visible_code_concat(gray(), bar);
    crate::ansi::lemma_strip_plain(bar);
    crate::ansi::lemma_visible_concat(g + bar, e);
    crate::ansi::lemma_visible_code_end(g + bar + e, Code::Reset);
    assert(code_row(e) == g + bar + e + code_seq(Code::Reset));
}

/// No piece of text holds an escape character when their concatenation holds none.
proof fn lemma_concat_no_esc(texts: Seq<Seq<char>>)
    requires
        crate::ansi::no_esc(concat(texts)),
    ensures
        forall|i: int| 0 <= i < texts.len() ==> crate::ansi::no_esc(#[trigger] texts[i]),
    decreases texts.len(),
{
    if texts.len() > 0 {
        let p = texts.drop_last();
        let c = concat(p);
        assert forall|j: int| 0 <= j < c.len() implies c[j] != crate::text::esc() by {
            assert(concat(texts)[j] == c[j]);
        }
        lemma_concat_no_esc(p);
        assert forall|i: int| 0 <= i < texts.len() implies crate::ansi::no_esc(#[trigger] texts[i]) by {
            if i < p.len() {
                assert(texts[i] == p[i]);
            } else {
                assert forall|j: int| 0 <= j < texts[i].len() implies texts[i][j] != crate::text::esc() by {
                    assert(concat(texts)[c.len() + j] == texts[i][j]);
                }
            }
        }
    }
}


/// The lines read so far, with the one in progress, joined by `\n` give back
/// what was read (when it holds no carriage return); the line in progress is
/// empty exactly after a `\n`.
proof fn lemma_lines_scan_join(s: Seq<char>)
    requires
        forall|i: int| 0 <= i < s.len() ==> s[i] != '\r',
    ensures
        join(lines_scan(s).0.push(lines_scan(s).1), '\n') == s,
        s.len() == 0 ==> lines_scan(s).0.len() == 0 && lines_scan(s).1.len() == 0,
        s.len() > 0 ==> (lines_scan(s).1.len() == 0 <==> s.last() == '\n'),
        lines_scan(s).1.len() > 0 ==> lines_scan(s).1.last() == s.last(),
    decreases s.len(),
{
    if s.len() > 0 {
        let p = s.drop_last();
        assert forall|i: int| 0 <= i < p.len() implies p[i] != '\r' by {
            assert(p[i] == s[i]);
        }
        lemma_lines_scan_join(p);
        let r = lines_scan(p);
        let c = s.last();
        assert(c != '\r') by {
            assert(s[s.len() - 1] == c);
        }
        if c == '\n' {
            if r.1.len() > 0 {
                assert(r.1.last() == p.last());
                assert(p.last() == s[s.len() - 2]);
            }
            assert(strip_cr(r.1) == r.1);
            let parts = r.0.push(r.1).push(Seq::<char>::empty());
            assert(parts.drop_last() =~= r.0.push(r.1));
            assert(join(parts, '\n') =~= p + seq!['\n']);
            assert(p + seq!['\n'] =~= s);
        } else {
            let parts = r.0.push(r.1.push(c));
            if r.0.len() == 0 {
                assert(r.0.push(r.1) =~= seq![r.1]);
                assert(parts =~= seq![r.1.push(c)]);
                assert(join(parts, '\n') =~= s);
            } else {
                assert(r.0.push(r.1).drop_last() =~= r.0);
                assert(parts.drop_last() =~= r.0);
                assert(join(parts, '\n') =~= join(r.0, '\n') + seq!['\n'] + r.1 + seq![c]);
                assert(join(parts, '\n') =~= s);
            }
        }
    }
}

/// Splitting code into lines loses nothing but the line breaks: for code
/// without carriage returns, its lines joined by `\n` give the code back,
/// less a final `\n`. So blank lines inside the code are lines too.
pub proof fn lemma_code_lines_join(s: Seq<char>)
    requires
        forall|i: int| 0 <= i < s.len() ==> s[i] != '\r',
    ensures
        join(code_lines(s), '\n') == if s.len() > 0 && s.last() == '\n' {
            s.drop_last()
        } else {
            s
        },
{
    lemma_lines_scan_join(s);
    let r = lines_scan(s);
    if r.1.len() == 0 && s.len() > 0 {
        let parts = r.0.push(r.1);
        if r.0.len() == 0 {
            assert(parts =~= seq![r.1]);
        } else {
            assert(parts.drop_last() =~= r.0);
            assert(join(parts, '\n') =~= join(r.0, '\n') + seq!['\n']);
            assert(s.drop_last() =~= join(r.0, '\n'));
        }
    }
}

} // verus!
