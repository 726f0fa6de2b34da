//! ANSI escape handling: what a line shows once its escape sequences are
//! removed, truncation to a visible width, and dimming with a gray tone.
//!
//! An escape sequence starts with `ESC` and runs up to and including the
//! next ASCII letter; every other character is visible.

use vstd::prelude::*;
use crate::text::{chars_of, decimal, push_range, esc, is_alpha, is_ascii_alphabetic, push_char, push_decimal, push_reset, push_str};

verus! {

/// What `s` shows, when scanning starts inside an escape sequence iff `in_esc`.
pub open spec fn strip_from(s: Seq<char>, in_esc: bool) -> Seq<char>
    decreases s.len(),
{
    if s.len() == 0 {
        seq![]
    } else if in_esc {
        strip_from(s.drop_first(), !is_alpha(s[0]))
    } else if s[0] == esc() {
        strip_from(s.drop_first(), true)
    } else {
        seq![s[0]] + strip_from(s.drop_first(), false)
    }
}

/// Whether scanning `s` (from state `in_esc`) ends inside an escape sequence.
pub open spec fn esc_after(s: Seq<char>, in_esc: bool) -> bool
    decreases s.len(),
{
    if s.len() == 0 {
        in_esc
    } else if in_esc {
        esc_after(s.drop_first(), !is_alpha(s[0]))
    } else {
        esc_after(s.drop_first(), s[0] == esc())
    }
}

/// The visible characters of `s`.
pub open spec fn visible(s: Seq<char>) -> Seq<char> {
    strip_from(s, false)
}

/// `s` does not end inside an unfinished escape sequence.
pub open spec fn closed(s: Seq<char>) -> bool {
    !esc_after(s, false)
}

/// `s` holds no escape character.
pub open spec fn no_esc(s: Seq<char>) -> bool {
    forall|i: int| 0 <= i < s.len() ==> s[i] != esc()
}

/// `s` is one complete escape sequence: `ESC`, non-letters, then a letter.
pub open spec fn is_sgr(s: Seq<char>) -> bool {
    &&& s.len() >= 2
    &&& s[0] == esc()
    &&& is_alpha(s[s.len() - 1])
    &&& forall|i: int| 1 <= i < s.len() - 1 ==> !is_alpha(#[trigger] s[i])
}

pub proof fn lemma_strip_concat(a: Seq<char>, b: Seq<char>, e: bool)
    ensures
        strip_from(a + b, e) == strip_from(a, e) + strip_from(b, esc_after(a, e)),
        esc_after(a + b, e) == esc_after(b, esc_after(a, e)),
    decreases a.len(),
{
    if a.len() == 0 {
        assert(a + b =~= b);
    } else {
        assert((a + b).drop_first() =~= a.drop_first() + b);
        let e2 = if e {
            !is_alpha(a[0])
        } else {
            a[0] == esc()
        };
        lemma_strip_concat(a.drop_first(), b, e2);
        if !e && a[0] != esc() {
            assert(strip_from(a + b, e) =~= seq![a[0]] + strip_from(a.drop_first() + b, false));
            assert(strip_from(a + b, e) =~= strip_from(a, e) + strip_from(b, esc_after(a, e)));
        }
    }
}

/// Inside an escape sequence, characters up to a letter show nothing.
proof fn lemma_strip_in_escape(s: Seq<char>)
    requires
        s.len() >= 1,
        is_alpha(s[s.len() - 1]),
        forall|i: int| 0 <= i < s.len() - 1 ==> !is_alpha(#[trigger] s[i]),
    ensures
        strip_from(s, true) == Seq::<char>::empty(),
        !esc_after(s, true),
    decreases s.len(),
{
    if s.len() > 1 {
        let t = s.drop_first();
        assert forall|i: int| 0 <= i < t.len() - 1 implies !is_alpha(#[trigger] t[i]) by {
            assert(t[i] == s[i + 1]);
        }
        lemma_strip_in_escape(t);
        assert(!is_alpha(s[0]));
    } else {
        assert(s.drop_first().len() == 0);
        assert(is_alpha(s[0]));
        assert(strip_from(s.drop_first(), false) == Seq::<char>::empty());
        assert(!esc_after(s.drop_first(), false));
    }
}

/// A complete escape sequence shows nothing and leaves scanning outside an
/// escape, whichever state scanning started in.
pub proof fn lemma_sgr(s: Seq<char>, e: bool)
    requires
        is_sgr(s),
    ensures
        strip_from(s, e) == Seq::<char>::empty(),
        !esc_after(s, e),
{
    let t = s.drop_first();
    assert forall|i: int| 0 <= i < t.len() - 1 implies !is_alpha(#[trigger] t[i]) by {
        assert(t[i] == s[i + 1]);
    }
    lemma_strip_in_escape(t);
}

/// Text without escape characters shows as it is.
pub proof fn lemma_strip_plain(s: Seq<char>)
    requires
        no_esc(s),
    ensures
        strip_from(s, false) == s,
        !esc_after(s, false),
    decreases s.len(),
{
    if s.len() > 0 {
        let t = s.drop_first();
        assert(no_esc(t)) by {
            assert forall|i: int| 0 <= i < t.len() implies t[i] != esc() by {
                assert(t[i] == s[i + 1]);
            }
        }
        lemma_strip_plain(t);
        assert(strip_from(s, false) =~= seq![s[0]] + t);
    }
}

/// What a line shows holds no escape character.
pub proof fn lemma_strip_no_esc(s: Seq<char>, e: bool)
    ensures
        no_esc(strip_from(s, e)),
    decreases s.len(),
{
    if s.len() > 0 {
        let e2 = if e {
            !is_alpha(s[0])
        } else {
            s[0] == esc()
        };
        lemma_strip_no_esc(s.drop_first(), e2);
    }
}

/// Removing escape sequences twice removes no more than once.
pub proof fn lemma_strip_idempotent(s: Seq<char>)
    ensures
        visible(visible(s)) == visible(s),
{
    lemma_strip_no_esc(s, false);
    lemma_strip_plain(visible(s));
}

proof fn lemma_skip_step<T>(s: Seq<T>, i: int)
    requires
        0 <= i < s.len(),
    ensures
        s.skip(i).len() > 0,
        s.skip(i)[0] == s[i],
        s.skip(i).drop_first() == s.skip(i + 1),
{
    assert(s.skip(i).drop_first() =~= s.skip(i + 1));
}

/// The visible characters of `text`.
pub fn strip_ansi(text: &str) -> (r: String)
    ensures
        r@ == visible(text@),
{
    let cs = chars_of(text);
    let mut result = String::new();
    let mut in_escape = false;
    let mut i: usize = 0;
    assert(cs@.skip(0) =~= cs@);
    while i < cs.len()
        invariant
            i <= cs@.len(),
            result@ + strip_from(cs@.skip(i as int), in_escape) == visible(cs@),
            cs@ == text@,
        decreases cs.len() - i,
    {
        let ch = cs[i];
        proof {
            lemma_skip_step(cs@, i as int);
        }
        if in_escape {
            if is_ascii_alphabetic(ch) {
                in_escape = false;
            }
        } else if ch == '\x1b' {
            in_escape = true;
        } else {
            push_char(&mut result, ch);
            assert(seq![ch] + strip_from(cs@.skip(i + 1), false) =~= strip_from(
                cs@.skip(i as int),
                false,
            ));
            assert(result@ + strip_from(cs@.skip(i + 1), false) =~= visible(cs@));
        }
        i += 1;
    }
    assert(result@ + strip_from(cs@.skip(i as int), in_escape) =~= result@);
    result
}

} // verus!

verus! {

/// The terminal codes the renderers emit.
#[derive(Clone, Copy, Debug, PartialEq, Eq)]
pub enum Code {
    Reset,
    Bold,
    Italic,
    Strikethrough,
    /// Bright white foreground.
    White,
    /// Dark gray background.
    BgGray,
    /// A foreground colour from the 256-colour palette.
    Fg(u8),
}

pub open spec fn fg_seq(n: u8) -> Seq<char> {
    seq!['\x1b', '[', '3', '8', ';', '5', ';'] + decimal(n as nat) + seq!['m']
}

/// The characters of a code.
pub open spec fn code_seq(c: Code) -> Seq<char> {
    match c {
        Code::Reset => seq!['\x1b', '[', '0', 'm'],
        Code::Bold => seq!['\x1b', '[', '1', 'm'],
        Code::Italic => seq!['\x1b', '[', '3', 'm'],
        Code::Strikethrough => seq!['\x1b', '[', '9', 'm'],
        Code::White => seq!['\x1b', '[', '9', '7', 'm'],
        Code::BgGray => seq!['\x1b', '[', '4', '8', ';', '5', ';', '2', '3', '8', 'm'],
        Code::Fg(n) => fg_seq(n),
    }
}

/// Appends the characters of a code.
pub fn push_code(s: &mut String, c: Code)
    ensures
        final(s)@ == old(s)@ + code_seq(c),
{
    match c {
        Code::Reset => {
            push_reset(s);
        },
        Code::Bold => {
            proof {
                reveal_strlit("\x1b[1m");
            }
            push_str(s, "\x1b[1m");
        },
        Code::Italic => {
            proof {
                reveal_strlit("\x1b[3m");
            }
            push_str(s, "\x1b[3m");
        },
        Code::Strikethrough => {
            proof {
                reveal_strlit("\x1b[9m");
            }
            push_str(s, "\x1b[9m");
        },
        Code::White => {
            proof {
                reveal_strlit("\x1b[97m");
            }
            push_str(s, "\x1b[97m");
        },
        Code::BgGray => {
            proof {
                reveal_strlit("\x1b[48;5;238m");
            }
            push_str(s, "\x1b[48;5;238m");
        },
        Code::Fg(n) => {
            proof {
                reveal_strlit("\x1b[38;5;");
            }
            push_str(s, "\x1b[38;5;");
            push_decimal(s, n as u128);
            push_char(s, 'm');
            assert(s@ =~= old(s)@ + code_seq(c));
        },
    }
}

pub proof fn lemma_decimal_digits(n: nat)
    ensures
        decimal(n).len() >= 1,
        forall|i: int|
            0 <= i < decimal(n).len() ==> '0' <= #[trigger] decimal(n)[i] && decimal(n)[i] <= '9',
    decreases n,
{
    if n >= 10 {
        lemma_decimal_digits(n / 10);
    }
}

/// Every code is one complete escape sequence.
pub proof fn lemma_code_sgr(c: Code)
    ensures
        is_sgr(code_seq(c)),
        code_seq(c)[0] == esc(),
{
    match c {
        Code::Fg(n) => {
            lemma_decimal_digits(n as nat);
            let s = fg_seq(n);
            let d = decimal(n as nat);
            assert forall|i: int| 1 <= i < s.len() - 1 implies !is_alpha(#[trigger] s[i]) by {
                if i >= 7 {
                    assert(s[i] == d[i - 7]);
                }
            }
        },
        _ => {},
    }
}

/// A code shows nothing and closes any escape sequence it follows.
pub proof fn lemma_code_invisible(c: Code, e: bool)
    ensures
        strip_from(code_seq(c), e) == Seq::<char>::empty(),
        !esc_after(code_seq(c), e),
{
    lemma_code_sgr(c);
    lemma_sgr(code_seq(c), e);
}

/// Visible text of `a + b` when `a` is closed.
pub proof fn lemma_visible_concat(a: Seq<char>, b: Seq<char>)
    requires
        closed(a),
    ensures
        visible(a + b) == visible(a) + visible(b),
        closed(a + b) == closed(b),
{
    lemma_strip_concat(a, b, false);
}

/// Visible text of a code followed by `b`.
pub proof fn lemma_visible_code_concat(c: Code, b: Seq<char>)
    ensures
        visible(code_seq(c) + b) == visible(b),
        closed(code_seq(c) + b) == closed(b),
{
    lemma_code_invisible(c, false);
    lemma_strip_concat(code_seq(c), b, false);
    assert(visible(code_seq(c)) + visible(b) =~= visible(b));
}

} // verus!

verus! {

/// The characters of `s` kept when at most `budget` more visible characters
/// may be shown: escape sequences are kept whole, and scanning stops at the
/// first visible character past the budget.
pub open spec fn trunc_from(s: Seq<char>, in_esc: bool, budget: nat) -> Seq<char>
    decreases s.len(),
{
    if s.len() == 0 {
        seq![]
    } else if in_esc {
        seq![s[0]] + trunc_from(s.drop_first(), !is_alpha(s[0]), budget)
    } else if s[0] == esc() {
        seq![s[0]] + trunc_from(s.drop_first(), true, budget)
    } else if budget > 0 {
        seq![s[0]] + trunc_from(s.drop_first(), false, (budget - 1) as nat)
    } else {
        seq![]
    }
}

/// `s` cut to at most `width` visible characters: unchanged when it fits,
/// else its first `width - 1` visible characters, an ellipsis and a reset.
pub open spec fn truncated(s: Seq<char>, width: nat) -> Seq<char> {
    if width == 0 {
        seq![]
    } else if visible(s).len() <= width {
        s
    } else {
        trunc_from(s, false, (width - 1) as nat) + seq!['…'] + code_seq(Code::Reset)
    }
}

/// Cuts `text` to at most `max_width` visible characters.
pub fn truncate_visible(text: &str, max_width: usize) -> (r: String)
    ensures
        r@ == truncated(text@, max_width as nat),
{
    if max_width == 0 {
        return String::new();
    }
    let stripped = strip_ansi(text);
    let visible_len = chars_of(stripped.as_str()).len();
    if visible_len <= max_width {
        return text.to_owned();
    }
    let target_visible = max_width - 1;
    let cs = chars_of(text);
    let mut result = String::new();
    let mut in_escape = false;
    let mut shown: usize = 0;
    let mut done = false;
    let mut i: usize = 0;
    assert(cs@.skip(0) =~= cs@);
    while i < cs.len() && !done
        invariant
            i <= cs@.len(),
            cs@ == text@,
            shown <= target_visible,
            !done ==> result@ + trunc_from(
                cs@.skip(i as int),
                in_escape,
                (target_visible - shown) as nat,
            ) == trunc_from(cs@, false, target_visible as nat),
            done ==> result@ == trunc_from(cs@, false, target_visible as nat),
        decreases cs.len() - i,
    {
        let ch = cs[i];
        proof {
            lemma_skip_step(cs@, i as int);
        }
        let ghost rest = cs@.skip(i + 1);
        let ghost budget = (target_visible - shown) as nat;
        if in_escape {
            push_char(&mut result, ch);
            if is_ascii_alphabetic(ch) {
                in_escape = false;
            }
            assert(result@ + trunc_from(rest, in_escape, budget) =~= trunc_from(
                cs@,
                false,
                target_visible as nat,
            ));
        } else if ch == '\x1b' {
            in_escape = true;
            push_char(&mut result, ch);
            assert(result@ + trunc_from(rest, in_escape, budget) =~= trunc_from(
                cs@,
                false,
                target_visible as nat,
            ));
        } else if shown < target_visible {
            push_char(&mut result, ch);
            shown += 1;
            assert(result@ + trunc_from(rest, in_escape, (target_visible - shown) as nat)
                =~= trunc_from(cs@, false, target_visible as nat));
        } else {
            done = true;
            assert(result@ =~= trunc_from(cs@, false, target_visible as nat));
        }
        i += 1;
    }
    if !done {
        assert(result@ =~= trunc_from(cs@, false, target_visible as nat));
    }
    push_char(&mut result, '…');
    push_code(&mut result, Code::Reset);
    result
}

pub proof fn lemma_trunc_from(s: Seq<char>, e: bool, b: nat)
    ensures
        strip_from(s, e).len() <= b ==> trunc_from(s, e, b) == s,
        strip_from(s, e).len() > b ==> strip_from(trunc_from(s, e, b), e) == strip_from(
            s,
            e,
        ).take(b as int) && !esc_after(trunc_from(s, e, b), e),
    decreases s.len(),
{
    if s.len() > 0 {
        let c = s[0];
        let r = s.drop_first();
        if e {
            lemma_trunc_from(r, !is_alpha(c), b);
            let t = trunc_from(r, !is_alpha(c), b);
            assert((seq![c] + t).drop_first() =~= t);
            if strip_from(s, e).len() <= b {
                assert(seq![c] + r =~= s);
            }
        } else if c == esc() {
            lemma_trunc_from(r, true, b);
            let t = trunc_from(r, true, b);
            assert((seq![c] + t).drop_first() =~= t);
            if strip_from(s, e).len() <= b {
                assert(seq![c] + r =~= s);
            }
        } else if b > 0 {
            let b1 = (b - 1) as nat;
            lemma_trunc_from(r, false, b1);
            let t = trunc_from(r, false, b1);
            assert((seq![c] + t).drop_first() =~= t);
            if strip_from(s, e).len() <= b {
                assert(seq![c] + r =~= s);
            } else {
                assert(strip_from(seq![c] + t, false) =~= seq![c] + strip_from(t, false));
                assert(strip_from(s, e).take(b as int) =~= seq![c] + strip_from(r, false).take(
                    b1 as int,
                ));
            }
        } else {
            assert(strip_from(s, e).len() > 0);
            assert(strip_from(s, e).take(0) =~= Seq::<char>::empty());
        }
    }
}

/// A cut line shows at most `width` characters: all of them when they fit,
/// else the first `width - 1` followed by an ellipsis; it is never left
/// inside an unfinished escape sequence once cut.
pub proof fn lemma_truncated_visible(s: Seq<char>, width: nat)
    ensures
        visible(truncated(s, width)).len() == if visible(s).len() <= width {
            visible(s).len()
        } else {
            width
        },
        visible(s).len() <= width && width > 0 ==> truncated(s, width) == s,
        visible(s).len() > width && width > 0 ==> visible(truncated(s, width)) == visible(
            s,
        ).take(width - 1).push('…'),
        visible(s).len() > width ==> closed(truncated(s, width)),
{
    if width == 0 {
        assert(visible(Seq::<char>::empty()) =~= Seq::<char>::empty());
    } else if visible(s).len() > width {
        let b = (width - 1) as nat;
        lemma_trunc_from(s, false, b);
        let t = trunc_from(s, false, b);
        lemma_visible_concat(t, seq!['…']);
        assert(visible(seq!['…']) =~= seq!['…']) by {
            lemma_strip_plain(seq!['…']);
        }
        lemma_strip_plain(seq!['…']);
        lemma_visible_concat(t + seq!['…'], code_seq(Code::Reset));
        lemma_code_invisible(Code::Reset, false);
        assert(visible(truncated(s, width)) =~= visible(s).take(width - 1).push('…'));
    }
}

} // verus!

verus! {

/// Output of the dimming scan over `s`, and whether a visible character has
/// been seen by its end. `buf` holds the escape sequence read so far (after
/// its `ESC`); `pre` is the gray code put before the first visible character
/// and after every completed colour sequence.
pub open spec fn dim_scan(
    s: Seq<char>,
    in_esc: bool,
    buf: Seq<char>,
    started: bool,
    pre: Seq<char>,
) -> (Seq<char>, bool)
    decreases s.len(),
{
    if s.len() == 0 {
        (seq![], started)
    } else {
        let c = s[0];
        let rest = s.drop_first();
        if in_esc {
            let buf2 = buf.push(c);
            if is_alpha(c) {
                let r = dim_scan(rest, false, seq![], started, pre);
                (
                    seq![esc()] + buf2 + (if c == 'm' {
                        pre
                    } else {
                        seq![]
                    }) + r.0,
                    r.1,
                )
            } else {
                dim_scan(rest, true, buf2, started, pre)
            }
        } else if c == esc() {
            dim_scan(rest, true, buf, started, pre)
        } else {
            let r = dim_scan(rest, false, buf, true, pre);
            (
                (if started {
                    seq![c]
                } else {
                    pre.push(c)
                }) + r.0,
                r.1,
            )
        }
    }
}

/// `text` drawn in the gray tone `gray`: the tone starts before the first
/// visible character and is restored after each colour code (`... m`), so
/// other attributes survive; a line with nothing visible becomes the tone, its
/// visible text and a reset.
pub open spec fn dimmed_text(text: Seq<char>, gray: u8) -> Seq<char> {
    let pre = code_seq(Code::Fg(gray));
    let r = dim_scan(text, false, seq![], false, pre);
    if r.1 {
        r.0 + code_seq(Code::Reset)
    } else {
        pre + visible(text) + code_seq(Code::Reset)
    }
}

/// `text` reduced to its visible characters, all in the gray tone `gray`.
pub open spec fn flat_gray(text: Seq<char>, gray: u8) -> Seq<char> {
    code_seq(Code::Fg(gray)) + visible(text) + code_seq(Code::Reset)
}

/// Appends the visible characters of `text`.
pub fn push_visible(s: &mut String, text: &str)
    ensures
        final(s)@ == old(s)@ + visible(text@),
{
    let v = strip_ansi(text);
    push_str(s, v.as_str());
}

/// Draws `text` in the gray tone `gray_code`, keeping its other attributes.
pub fn apply_opacity_to_text(text: &str, gray_code: u8) -> (r: String)
    ensures
        r@ == dimmed_text(text@, gray_code),
{
    let ghost pre = code_seq(Code::Fg(gray_code));
    let mut gray_prefix = String::new();
    push_code(&mut gray_prefix, Code::Fg(gray_code));
    let cs = chars_of(text);
    let ghost total = dim_scan(cs@, false, seq![], false, pre);
    let mut result = String::new();
    let mut in_escape = false;
    let mut escape_buffer = String::new();
    let mut started = false;
    let mut i: usize = 0;
    assert(cs@.skip(0) =~= cs@);
    assert(escape_buffer@ =~= Seq::<char>::empty());
    while i < cs.len()
        invariant
            i <= cs@.len(),
            cs@ == text@,
            gray_prefix@ == pre,
            result@ + dim_scan(cs@.skip(i as int), in_escape, escape_buffer@, started, pre).0
                == total.0,
            dim_scan(cs@.skip(i as int), in_escape, escape_buffer@, started, pre).1 == total.1,
        decreases cs.len() - i,
    {
        let ch = cs[i];
        proof {
            lemma_skip_step(cs@, i as int);
        }
        let ghost rest = cs@.skip(i + 1);
        if in_escape {
            push_char(&mut escape_buffer, ch);
            if is_ascii_alphabetic(ch) {
                in_escape = false;
                let ghost before = result@;
                let ghost buf2 = escape_buffer@;
                push_char(&mut result, '\x1b');
                push_str(&mut result, escape_buffer.as_str());
                if ch == 'm' {
                    push_str(&mut result, gray_prefix.as_str());
                }
                escape_buffer = String::new();
                assert(result@ =~= before + (seq![esc()] + buf2) + (
                if ch == 'm' {
                    pre
                } else {
                    seq![]
                }));
            }
        } else if ch == '\x1b' {
            in_escape = true;
        } else {
            let ghost before = result@;
            if !started {
                push_str(&mut result, gray_prefix.as_str());
                started = true;
                push_char(&mut result, ch);
                assert(result@ =~= before + pre.push(ch));
            } else {
                push_char(&mut result, ch);
                assert(result@ =~= before + seq![ch]);
            }
        }
        i += 1;
    }
    assert(cs@.skip(i as int) =~= Seq::<char>::empty());
    if started {
        push_code(&mut result, Code::Reset);
        result
    } else {
        let mut out = String::new();
        push_code(&mut out, Code::Fg(gray_code));
        push_visible(&mut out, text);
        push_code(&mut out, Code::Reset);
        out
    }
}

} // verus!

verus! {

proof fn lemma_dim_scan(s: Seq<char>, e: bool, buf: Seq<char>, st: bool, pre: Seq<char>)
    requires
        is_sgr(pre),
        !e ==> buf.len() == 0,
        forall|i: int| 0 <= i < buf.len() ==> !is_alpha(#[trigger] buf[i]),
    ensures
        visible(dim_scan(s, e, buf, st, pre).0) == strip_from(s, e),
        closed(dim_scan(s, e, buf, st, pre).0),
        dim_scan(s, e, buf, st, pre).1 == (st || strip_from(s, e).len() > 0),
    decreases s.len(),
{
    if s.len() == 0 {
    } else {
        let c = s[0];
        let rest = s.drop_first();
        if e {
            let buf2 = buf.push(c);
            if is_alpha(c) {
                lemma_dim_scan(rest, false, seq![], st, pre);
                let r = dim_scan(rest, false, seq![], st, pre);
                let head = seq![esc()] + buf2;
                assert(is_sgr(head)) by {
                    assert forall|i: int| 1 <= i < head.len() - 1 implies !is_alpha(
                        #[trigger] head[i],
                    ) by {
                        assert(head[i] == buf[i - 1]);
                    }
                }
                lemma_sgr(head, false);
                let mid = if c == 'm' {
                    pre
                } else {
                    seq![]
                };
                if c == 'm' {
                    lemma_sgr(pre, false);
                }
                lemma_strip_concat(head, mid, false);
                lemma_strip_concat(head + mid, r.0, false);
                assert(visible(head + mid) =~= Seq::<char>::empty());
                assert(visible(head + mid + r.0) =~= visible(r.0));
            } else {
                assert forall|i: int| 0 <= i < buf2.len() implies !is_alpha(#[trigger] buf2[i]) by {
                }
                lemma_dim_scan(rest, true, buf2, st, pre);
            }
        } else if c == esc() {
            lemma_dim_scan(rest, true, buf, st, pre);
        } else {
            lemma_dim_scan(rest, false, buf, true, pre);
            let r = dim_scan(rest, false, buf, true, pre);
            let head = if st {
                seq![c]
            } else {
                pre.push(c)
            };
            if st {
                lemma_strip_plain(seq![c]);
                lemma_strip_concat(head, r.0, false);
                assert(visible(head + r.0) =~= seq![c] + visible(r.0));
            } else {
                lemma_sgr(pre, false);
                assert(pre.push(c) =~= pre + seq![c]);
                lemma_strip_plain(seq![c]);
                lemma_strip_concat(pre, seq![c], false);
                lemma_strip_concat(head, r.0, false);
                assert(visible(head) =~= seq![c]);
                assert(visible(head + r.0) =~= seq![c] + visible(r.0));
            }
            assert(strip_from(s, e) =~= seq![c] + strip_from(rest, false));
        }
    }
}

/// Dimming keeps what a line shows: only escape sequences are added.
pub proof fn lemma_dimmed_text_visible(text: Seq<char>, gray: u8)
    ensures
        visible(dimmed_text(text, gray)) == visible(text),
        closed(dimmed_text(text, gray)),
{
    let pre = code_seq(Code::Fg(gray));
    lemma_code_sgr(Code::Fg(gray));
    lemma_dim_scan(text, false, seq![], false, pre);
    let r = dim_scan(text, false, seq![], false, pre);
    lemma_code_invisible(Code::Reset, false);
    if r.1 {
        lemma_visible_concat(r.0, code_seq(Code::Reset));
        assert(visible(r.0 + code_seq(Code::Reset)) =~= visible(text));
    } else {
        lemma_flat_gray_visible(text, gray);
    }
}

/// A flat gray line shows the visible text of the line it was made from.
pub proof fn lemma_flat_gray_visible(text: Seq<char>, gray: u8)
    ensures
        visible(flat_gray(text, gray)) == visible(text),
        closed(flat_gray(text, gray)),
{
    let v = visible(text);
    let rs = code_seq(Code::Reset);
    lemma_strip_no_esc(text, false);
    lemma_strip_plain(v);
    lemma_code_invisible(Code::Reset, false);
    lemma_visible_concat(v, rs);
    assert(visible(v + rs) =~= v);
    lemma_visible_code_concat(Code::Fg(gray), v + rs);
    assert(code_seq(Code::Fg(gray)) + v + rs =~= code_seq(Code::Fg(gray)) + (v + rs));
}

/// Draws a code-block line flat in the gray tone.
pub fn apply_opacity_to_code(text: &str, gray_code: u8) -> (r: String)
    ensures
        r@ == flat_gray(text@, gray_code),
{
    let mut out = String::new();
    push_code(&mut out, Code::Fg(gray_code));
    push_visible(&mut out, text);
    push_code(&mut out, Code::Reset);
    out
}

/// Box-drawing characters of the table grid.
pub open spec fn is_box(c: char) -> bool {
    c == '│' || c == '─' || c == '┌' || c == '┐' || c == '└' || c == '┘' || c == '├' || c == '┤'
        || c == '┬' || c == '┴' || c == '┼'
}

/// `ch` is one of the box-drawing characters of a table grid.
pub fn is_box_drawing(ch: char) -> (b: bool)
    ensures
        b == is_box(ch),
{
    ch == '│' || ch == '─' || ch == '┌' || ch == '┐' || ch == '└' || ch == '┘' || ch == '├' || ch
        == '┤' || ch == '┬' || ch == '┴' || ch == '┼'
}

/// Number of leading characters of `s` that are grid characters or escape
/// sequences, i.e. the position of the first visible non-grid character.
pub open spec fn table_prefix_len(s: Seq<char>, in_esc: bool) -> nat
    decreases s.len(),
{
    if s.len() == 0 {
        0
    } else if in_esc {
        1 + table_prefix_len(s.drop_first(), !is_alpha(s[0]))
    } else if s[0] == esc() {
        1 + table_prefix_len(s.drop_first(), true)
    } else if is_box(s[0]) {
        1 + table_prefix_len(s.drop_first(), false)
    } else {
        0
    }
}

proof fn lemma_table_prefix_len(s: Seq<char>, e: bool)
    ensures
        table_prefix_len(s, e) <= s.len(),
        table_prefix_len(s, e) < s.len() ==> !esc_after(s.take(table_prefix_len(s, e) as int), e),
    decreases s.len(),
{
    if s.len() > 0 {
        let c = s[0];
        let r = s.drop_first();
        let e2 = if e {
            !is_alpha(c)
        } else if c == esc() {
            true
        } else {
            false
        };
        if e || c == esc() || is_box(c) {
            lemma_table_prefix_len(r, e2);
            let k = table_prefix_len(s, e);
            assert(s.take(k as int).drop_first() =~= r.take(k - 1));
            if k > 0 {
                assert(s.take(k as int)[0] == c);
            }
        } else {
            assert(s.take(0).len() == 0);
        }
    }
}

/// Splits `text` before its first visible non-grid character: the grid part
/// (with its escape sequences) and the rest.
pub fn split_table_prefix(text: &str) -> (r: (String, String))
    ensures
        r.0@ == text@.take(table_prefix_len(text@, false) as int),
        r.1@ == text@.skip(table_prefix_len(text@, false) as int),
{
    let cs = chars_of(text);
    let mut prefix = String::new();
    let mut in_escape = false;
    let mut i: usize = 0;
    let mut found = false;
    assert(cs@.skip(0) =~= cs@);
    proof {
        lemma_table_prefix_len(cs@, false);
    }
    while i < cs.len() && !found
        invariant
            i <= cs@.len(),
            cs@ == text@,
            prefix@ == cs@.take(i as int),
            !found ==> i + table_prefix_len(cs@.skip(i as int), in_escape) == table_prefix_len(
                cs@,
                false,
            ),
            found ==> i == table_prefix_len(cs@, false),
        decreases cs.len() - i + (if found {
            0int
        } else {
            1int
        }),
    {
        let ch = cs[i];
        proof {
            lemma_skip_step(cs@, i as int);
        }
        if in_escape {
            push_char(&mut prefix, ch);
            if is_ascii_alphabetic(ch) {
                in_escape = false;
            }
            i += 1;
        } else if ch == '\x1b' {
            in_escape = true;
            push_char(&mut prefix, ch);
            i += 1;
        } else if is_box_drawing(ch) {
            push_char(&mut prefix, ch);
            i += 1;
        } else {
            found = true;
        }
        assert(prefix@ =~= cs@.take(i as int));
    }
    if !found {
        assert(cs@.skip(i as int).len() == 0);
    }
    let mut rest = String::new();
    push_range(&mut rest, &cs, i, cs.len());
    assert(rest@ =~= cs@.skip(i as int));
    (prefix, rest)
}

/// A table line drawn in the gray tone: the grid part keeps its own colours
/// and the cell text after it is dimmed; a line that is all grid is drawn flat.
pub open spec fn dimmed_table(text: Seq<char>, gray: u8) -> Seq<char> {
    let k = table_prefix_len(text, false);
    if k == text.len() {
        flat_gray(text, gray)
    } else {
        text.take(k as int) + dimmed_text(text.skip(k as int), gray)
    }
}

/// Dims a table line (see `dimmed_table`).
pub fn apply_opacity_to_table(text: &str, gray_code: u8) -> (r: String)
    ensures
        r@ == dimmed_table(text@, gray_code),
{
    let (prefix, rest) = split_table_prefix(text);
    proof {
        lemma_table_prefix_len(text@, false);
    }
    if rest.as_str().is_empty() {
        return apply_opacity_to_code(text, gray_code);
    }
    let dimmed = apply_opacity_to_text(rest.as_str(), gray_code);
    let mut out = prefix;
    push_str(&mut out, dimmed.as_str());
    out
}

/// Dimming a table line keeps what it shows.
pub proof fn lemma_dimmed_table_visible(text: Seq<char>, gray: u8)
    ensures
        visible(dimmed_table(text, gray)) == visible(text),
{
    let k = table_prefix_len(text, false);
    lemma_table_prefix_len(text, false);
    if k == text.len() {
        lemma_flat_gray_visible(text, gray);
    } else {
        let p = text.take(k as int);
        let r = text.skip(k as int);
        lemma_dimmed_text_visible(r, gray);
        lemma_visible_concat(p, dimmed_text(r, gray));
        lemma_visible_concat(p, r);
        assert(p + r =~= text);
    }
}

/// The gray tone for an opacity below full: 232 (darkest) to 254.
pub open spec fn gray_for(opacity: u8) -> u8 {
    (232 + (opacity as int) * 23 / 255) as u8
}

/// The gray tone for an opacity below full (see `gray_for`).
pub fn gray_code_for(opacity: u8) -> (g: u8)
    requires
        opacity < 255,
    ensures
        g == gray_for(opacity),
        232 <= g <= 254,
{
    let scaled: u32 = (opacity as u32) * 23 / 255;
    assert(scaled <= 22) by (nonlinear_arith)
        requires
            scaled == (opacity as u32) * 23 / 255,
            opacity < 255,
    ;
    232 + scaled as u8
}

} // verus!

verus! {

/// A code at the end shows nothing and leaves the text closed.
pub proof fn lemma_visible_code_end(a: Seq<char>, c: Code)
    ensures
        visible(a + code_seq(c)) == visible(a),
        closed(a + code_seq(c)),
{
    lemma_strip_concat(a, code_seq(c), false);
    lemma_code_invisible(c, esc_after(a, false));
    assert(visible(a) + Seq::<char>::empty() =~= visible(a));
}

/// Plain text (no escape character) shows as it is and stays closed.
pub proof fn lemma_visible_plain_end(a: Seq<char>, p: Seq<char>)
    requires
        closed(a),
        no_esc(p),
    ensures
        visible(a + p) == visible(a) + p,
        closed(a + p),
{
    lemma_strip_concat(a, p, false);
    lemma_strip_plain(p);
}

/// A cut line is closed whenever the line is.
pub proof fn lemma_truncated_closed(s: Seq<char>, width: nat)
    requires
        closed(s),
    ensures
        closed(truncated(s, width)),
{
    lemma_truncated_visible(s, width);
    if width == 0 {
        assert(!esc_after(Seq::<char>::empty(), false));
    }
}


/// `p` occurs in `s` as a run of consecutive characters.
pub open spec fn occurs_in(p: Seq<char>, s: Seq<char>) -> bool {
    exists|k: int| 0 <= k && k + p.len() <= s.len() && #[trigger] s.subrange(k, k + p.len()) == p
}

/// A run found in `b` is still found with text put before or after it.
proof fn lemma_occurs_extend(p: Seq<char>, a: Seq<char>, b: Seq<char>)
    requires
        occurs_in(p, b),
    ensures
        occurs_in(p, a + b),
        occurs_in(p, b + a),
{
    let k = choose|k: int| 0 <= k && k + p.len() <= b.len() && #[trigger] b.subrange(k, k + p.len()) == p;
    assert((a + b).subrange(a.len() + k, a.len() + k + p.len()) =~= p);
    assert((b + a).subrange(k, k + p.len()) =~= p);
}

/// A run is found at the start of a text that begins with it.
proof fn lemma_occurs_start(p: Seq<char>, b: Seq<char>)
    ensures
        occurs_in(p, p + b),
{
    let z: int = 0;
    assert((p + b).subrange(z, z + p.len()) =~= p);
}

/// Once the dimming scan meets a visible character it has written the gray code.
proof fn lemma_dim_scan_writes_gray(s: Seq<char>, in_esc: bool, buf: Seq<char>, pre: Seq<char>)
    ensures
        dim_scan(s, in_esc, buf, false, pre).1 ==> occurs_in(pre, dim_scan(s, in_esc, buf, false, pre).0),
    decreases s.len(),
{
    if s.len() > 0 {
        let c = s[0];
        let rest = s.drop_first();
        if in_esc {
            let buf2 = buf.push(c);
            if is_alpha(c) {
                lemma_dim_scan_writes_gray(rest, false, seq![], pre);
                let r = dim_scan(rest, false, seq![], false, pre);
                if r.1 {
                    lemma_occurs_extend(
                        pre,
                        seq![esc()] + buf2 + (if c == 'm' {
                            pre
                        } else {
                            seq![]
                        }),
                        r.0,
                    );
                }
            } else {
                lemma_dim_scan_writes_gray(rest, true, buf2, pre);
            }
        } else if c == esc() {
            lemma_dim_scan_writes_gray(rest, true, buf, pre);
        } else {
            let r = dim_scan(rest, false, buf, true, pre);
            lemma_occurs_start(pre, seq![c] + r.0);
            assert(pre.push(c) + r.0 =~= pre + (seq![c] + r.0));
        }
    }
}

/// Dimmed text always carries the gray code of its tone.
pub proof fn lemma_dimmed_text_gray(text: Seq<char>, gray: u8)
    ensures
        occurs_in(code_seq(Code::Fg(gray)), dimmed_text(text, gray)),
{
    let pre = code_seq(Code::Fg(gray));
    let r = dim_scan(text, false, seq![], false, pre);
    lemma_dim_scan_writes_gray(text, false, seq![], pre);
    if r.1 {
        lemma_occurs_extend(pre, code_seq(Code::Reset), r.0);
    } else {
        lemma_occurs_start(pre, visible(text) + code_seq(Code::Reset));
        assert(pre + visible(text) + code_seq(Code::Reset) =~= pre + (visible(text) + code_seq(Code::Reset)));
    }
}

/// A flat gray line always carries the gray code of its tone.
pub proof fn lemma_flat_gray_gray(text: Seq<char>, gray: u8)
    ensures
        occurs_in(code_seq(Code::Fg(gray)), flat_gray(text, gray)),
{
    let pre = code_seq(Code::Fg(gray));
    lemma_occurs_start(pre, visible(text) + code_seq(Code::Reset));
    assert(pre + visible(text) + code_seq(Code::Reset) =~= pre + (visible(text) + code_seq(Code::Reset)));
}

/// A dimmed table line always carries the gray code of its tone.
pub proof fn lemma_dimmed_table_gray(text: Seq<char>, gray: u8)
    ensures
        occurs_in(code_seq(Code::Fg(gray)), dimmed_table(text, gray)),
{
    let k = table_prefix_len(text, false);
    if k == text.len() {
        lemma_flat_gray_gray(text, gray);
    } else {
        lemma_dimmed_text_gray(text.skip(k as int), gray);
        lemma_occurs_extend(code_seq(Code::Fg(gray)), text.take(k as int), dimmed_text(text.skip(k as int), gray));
    }
}

} // verus!
