use toy_speechcli::ansi::{
    apply_opacity_to_code, apply_opacity_to_table, apply_opacity_to_text, gray_code_for, is_box_drawing,
    split_table_prefix, strip_ansi, truncate_visible,
};
use toy_speechcli::controller::{
    centered_viewport_rows, find_focusable_backward, find_focusable_forward, first_focusable_entity,
    is_in_focus_band, last_focusable_entity, list_indent_length, move_down, move_up, pad_visible,
    plain_text_from_spans, wrap_plain_text, wrap_rendered_line, SidebarHeading,
};
use toy_speechcli::events::{markdown_event_list, MdEvent, MdTag, MdTagEnd};
use toy_speechcli::layout::{Layout, Rect};
use toy_speechcli::markdown;
use toy_speechcli::parser::{BlockStyle, InlineSpan, InlineStyle, MarkdownParser, ParsedBlock};
use toy_speechcli::renderer::{
    apply_opacity_to_line, render_inline_spans, LineType, MarkdownRenderer, RenderedEntity, RenderedLine,
};
use toy_speechcli::screen::{
    build_display_rows, build_sidebar_rows, draw_row, focus_row, frame_lines, initial_focus, next_focus,
    render_screen, sidebar_lines, Key,
};

const RESET: &str = "\x1b[0m";

fn text_entity(s: &str) -> RenderedEntity {
    RenderedEntity { lines: vec![RenderedLine::text(s.to_string())] }
}

fn blank_entity() -> RenderedEntity {
    RenderedEntity { lines: vec![RenderedLine::empty()] }
}

fn span(text: &str) -> InlineSpan {
    InlineSpan { text: text.to_string(), style: InlineStyle::default() }
}

// ---- escape sequences ----

#[test]
fn strip_ansi_removes_whole_sequences() {
    assert_eq!(strip_ansi("\x1b[1mBold\x1b[0m text"), "Bold text");
    assert_eq!(strip_ansi("ab\x1b[3"), "ab");
    assert_eq!(strip_ansi(""), "");
}

#[test]
fn truncate_keeps_short_text_and_cuts_long_text() {
    assert_eq!(truncate_visible("short", 10), "short");
    assert_eq!(truncate_visible("exactly10!", 10), "exactly10!");
    assert_eq!(truncate_visible("abc", 0), "");
    assert_eq!(truncate_visible("abcdef", 4), format!("abc…{}", RESET));
}

#[test]
fn truncation_shows_at_most_the_width() {
    let cut = truncate_visible("\x1b[31ma long red line of text\x1b[0m", 7);
    assert_eq!(strip_ansi(&cut).chars().count(), 7);
    assert!(cut.ends_with(RESET));
}

#[test]
fn gray_tone_follows_opacity() {
    assert_eq!(gray_code_for(0), 232);
    assert_eq!(gray_code_for(55), 236);
    assert_eq!(gray_code_for(127), 243);
    assert_eq!(gray_code_for(254), 254);
}

#[test]
fn dimming_text_wraps_it_in_gray() {
    assert_eq!(apply_opacity_to_text("ab", 243), format!("\x1b[38;5;243mab{}", RESET));
    assert_eq!(
        apply_opacity_to_text("a\x1b[1mb", 243),
        format!("\x1b[38;5;243ma\x1b[1m\x1b[38;5;243mb{}", RESET)
    );
    assert_eq!(apply_opacity_to_text("\x1b[1m", 243), format!("\x1b[38;5;243m{}", RESET));
}

#[test]
fn dimming_code_is_flat_gray() {
    assert_eq!(apply_opacity_to_code("\x1b[1mx\x1b[0m", 240), format!("\x1b[38;5;240mx{}", RESET));
}

#[test]
fn table_prefix_splits_at_first_cell_character() {
    let (prefix, rest) = split_table_prefix("│ cell │");
    assert_eq!(prefix, "│");
    assert_eq!(rest, " cell │");
    let (prefix, rest) = split_table_prefix("\x1b[1m┌──┐");
    assert_eq!(prefix, "\x1b[1m┌──┐");
    assert_eq!(rest, "");
    assert!(is_box_drawing('┼'));
    assert!(!is_box_drawing('a'));
}

#[test]
fn dimming_table_keeps_the_grid_prefix() {
    assert_eq!(
        apply_opacity_to_table("\x1b[38;5;245m│x│\x1b[0m", 243),
        format!("\x1b[38;5;245m│\x1b[38;5;243mx│\x1b[0m\x1b[38;5;243m{}", RESET)
    );
    assert_eq!(apply_opacity_to_table("┌──┐", 243), format!("\x1b[38;5;243m┌──┐{}", RESET));
}

#[test]
fn dimmed_table_line_shows_the_same_text() {
    let line = "\x1b[38;5;245m│ \x1b[1mcell\x1b[0m │\x1b[0m";
    assert_eq!(strip_ansi(&apply_opacity_to_table(line, 236)), strip_ansi(line));
}

// ---- layout ----

#[test]
fn rect_bottom_is_last_row() {
    assert_eq!(Rect { x: 0, y: 5, width: 3, height: 4 }.bottom(), 8);
    assert_eq!(Rect { x: 0, y: 5, width: 3, height: 0 }.bottom(), 5);
    assert_eq!(Rect { x: 0, y: 65535, width: 3, height: 2 }.bottom(), 65535);
}

#[test]
fn centered_panel_exact_rectangles() {
    let l = Layout::centered_panel(120, 30);
    assert_eq!((l.sidebar_frame.x, l.sidebar_frame.y, l.sidebar_frame.width, l.sidebar_frame.height), (4, 1, 26, 28));
    assert_eq!(
        (l.sidebar_content.x, l.sidebar_content.y, l.sidebar_content.width, l.sidebar_content.height),
        (5, 2, 24, 26)
    );
    assert_eq!((l.content.x, l.content.y, l.content.width, l.content.height), (32, 1, 84, 28));
}

#[test]
fn centered_panel_on_a_tiny_terminal() {
    let l = Layout::centered_panel(20, 2);
    assert_eq!((l.sidebar_frame.x, l.sidebar_frame.y, l.sidebar_frame.width, l.sidebar_frame.height), (4, 0, 12, 3));
    assert_eq!(
        (l.sidebar_content.x, l.sidebar_content.y, l.sidebar_content.width, l.sidebar_content.height),
        (5, 1, 10, 1)
    );
    assert_eq!((l.content.x, l.content.y, l.content.width, l.content.height), (18, 0, 10, 3));
}

// ---- focus and viewport ----

#[test]
fn focus_band_is_inclusive() {
    assert!(is_in_focus_band(5, 3, 2));
    assert!(is_in_focus_band(5, 7, 2));
    assert!(!is_in_focus_band(5, 8, 2));
    assert!(is_in_focus_band(0, 2, 2));
    assert!(is_in_focus_band(usize::MAX, usize::MAX, 2));
}

#[test]
fn viewport_centres_the_focus_row() {
    let all = |v: &[usize]| v.iter().map(|&i| Some(i)).collect::<Vec<_>>();
    assert_eq!(centered_viewport_rows(5, 10, 5), all(&[3, 4, 5, 6, 7]));
    assert_eq!(centered_viewport_rows(0, 3, 4), vec![None, None, Some(0), Some(1)]);
    assert_eq!(centered_viewport_rows(2, 3, 4), vec![Some(0), Some(1), Some(2), None]);
    assert!(centered_viewport_rows(0, 0, 0).is_empty());
}

#[test]
fn navigation_skips_blank_entities() {
    let ents = vec![text_entity("a"), blank_entity(), text_entity("b")];
    assert_eq!(find_focusable_forward(&ents, 1), Some(2));
    assert_eq!(find_focusable_backward(&ents, 1), Some(0));
    assert_eq!(first_focusable_entity(&ents), Some(0));
    assert_eq!(last_focusable_entity(&ents), Some(2));
    assert_eq!(move_down(&ents, 0), 2);
    assert_eq!(move_down(&ents, 2), 2);
    assert_eq!(move_up(&ents, 2), 0);
    assert_eq!(move_up(&ents, 0), 0);
    assert_eq!(move_down(&[], 5), 0);
    assert_eq!(move_up(&[], 3), 0);
}

#[test]
fn moving_down_then_up_returns() {
    let ents = vec![blank_entity(), text_entity("a"), blank_entity(), blank_entity(), text_entity("b")];
    let down = move_down(&ents, 1);
    assert_eq!(down, 4);
    assert_eq!(move_up(&ents, down), 1);
}

#[test]
fn keys_move_the_focus() {
    let ents = vec![text_entity("a"), blank_entity(), text_entity("b")];
    assert_eq!(initial_focus(&ents), 0);
    assert_eq!(next_focus(&ents, 0, Key::Quit), None);
    assert_eq!(next_focus(&ents, 0, Key::Down), Some(2));
    assert_eq!(next_focus(&ents, 2, Key::Up), Some(0));
    assert_eq!(next_focus(&ents, 2, Key::Home), Some(0));
    assert_eq!(next_focus(&ents, 0, Key::End), Some(2));
    assert_eq!(next_focus(&ents, 1, Key::Other), Some(1));
    let blanks = vec![blank_entity(), blank_entity()];
    assert_eq!(initial_focus(&blanks), 0);
    assert_eq!(next_focus(&blanks, 0, Key::End), Some(1));
}

// ---- wrapping ----

#[test]
fn plain_text_wraps_at_words() {
    assert_eq!(wrap_plain_text("the quick brown fox", 10), vec!["the quick", "brown fox"]);
    assert_eq!(wrap_plain_text("abcdefghij", 4), vec!["abcd", "efgh", "ij"]);
    assert_eq!(wrap_plain_text("", 5), vec![""]);
    assert!(wrap_plain_text("x", 0).is_empty());
}

#[test]
fn list_indent_measures_markers() {
    assert_eq!(list_indent_length("  - item"), Some(4));
    assert_eq!(list_indent_length("12. x"), Some(4));
    assert_eq!(list_indent_length("• a"), Some(2));
    assert_eq!(list_indent_length("plain"), None);
    assert_eq!(list_indent_length("   "), None);
    assert_eq!(list_indent_length("1.x"), None);
    assert_eq!(list_indent_length("\u{3000}- a"), Some(5));
}

#[test]
fn padding_counts_visible_characters() {
    assert_eq!(pad_visible("\x1b[1mab\x1b[0m", 4), "\x1b[1mab\x1b[0m  ");
    assert_eq!(pad_visible("abcdef", 3), "abcdef");
}

#[test]
fn rendered_lines_are_not_wrapped() {
    let line = RenderedLine::text("- one two three four five six".to_string());
    assert_eq!(wrap_rendered_line(&line, 10), vec![format!("- one two three four five six{}", RESET)]);
    let coloured = RenderedLine::text("\x1b[1mabcdefghijkl".to_string());
    assert_eq!(wrap_rendered_line(&coloured, 4), vec![format!("\x1b[1mabcdefghijkl{}", RESET)]);
    assert_eq!(wrap_rendered_line(&RenderedLine::text("hello".to_string()), 80), vec![format!("hello{}", RESET)]);
    assert_eq!(wrap_rendered_line(&RenderedLine::empty(), 80), vec![String::new()]);
}

// ---- parsing ----

fn span_texts(block: &ParsedBlock) -> Vec<String> {
    match block {
        ParsedBlock::Text { spans, .. } => spans.iter().map(|s| s.text.clone()).collect(),
        _ => panic!("not a text block"),
    }
}

#[test]
fn parser_numbers_ordered_items() {
    let blocks = MarkdownParser::new().parse("1. x\n2. y");
    assert_eq!(blocks.len(), 2);
    assert_eq!(span_texts(&blocks[0]), vec!["1. ", "x"]);
    assert_eq!(span_texts(&blocks[1]), vec!["2. ", "y"]);
}

#[test]
fn parser_marks_bullet_items() {
    let blocks = MarkdownParser::new().parse("- a\n- b");
    assert_eq!(blocks.len(), 2);
    assert_eq!(span_texts(&blocks[0]), vec!["• ", "a"]);
    assert_eq!(span_texts(&blocks[1]), vec!["• ", "b"]);
}

#[test]
fn parser_reads_code_blocks_and_rules() {
    let blocks = MarkdownParser::new().parse("```rust\nfn main() {}\n```\n\n---");
    assert_eq!(blocks.len(), 2);
    match &blocks[0] {
        ParsedBlock::CodeBlock { lang, content } => {
            assert_eq!(lang, "rust");
            assert_eq!(content, "fn main() {}\n");
        }
        _ => panic!("expected a code block"),
    }
    assert!(matches!(blocks[1], ParsedBlock::Rule));
}

#[test]
fn parser_separates_paragraphs() {
    let blocks = MarkdownParser::new().parse("a\n\nb");
    assert_eq!(blocks.len(), 4);
    assert_eq!(span_texts(&blocks[0]), vec!["a"]);
    assert!(matches!(blocks[1], ParsedBlock::Empty));
    assert_eq!(span_texts(&blocks[2]), vec!["b"]);
    assert!(matches!(blocks[3], ParsedBlock::Empty));
}

#[test]
fn parser_styles_spans() {
    let blocks = MarkdownParser::new().parse("**b** *i* ~~s~~ `c`");
    match &blocks[0] {
        ParsedBlock::Text { spans, style } => {
            assert_eq!(style.heading_level, None);
            assert_eq!(spans[0].text, "b");
            assert!(spans[0].style.bold);
            assert!(spans[2].style.italic);
            assert!(spans[4].style.strikethrough);
            assert!(spans[6].style.code);
        }
        _ => panic!("expected a text block"),
    }
}

#[test]
fn events_come_from_pulldown_cmark() {
    let evs = markdown_event_list("*a*", 10);
    assert_eq!(
        evs,
        vec![
            MdEvent::Start(MdTag::Paragraph),
            MdEvent::Start(MdTag::Emphasis),
            MdEvent::Text("a".to_string()),
            MdEvent::End(MdTagEnd::Emphasis),
            MdEvent::End(MdTagEnd::Paragraph),
        ]
    );
}

#[test]
fn sidebar_headings_skip_empty_titles() {
    let blocks = vec![
        ParsedBlock::Text { spans: vec![span("   ")], style: BlockStyle { heading_level: Some(1) } },
        ParsedBlock::Empty,
        ParsedBlock::Text { spans: vec![span(" Real "), span("one")], style: BlockStyle { heading_level: Some(2) } },
        ParsedBlock::Text { spans: vec![span("body")], style: BlockStyle { heading_level: None } },
    ];
    let hs = toy_speechcli::controller::collect_sidebar_headings(&blocks);
    assert_eq!(hs.len(), 1);
    assert_eq!(hs[0].entity_idx, 2);
    assert_eq!(hs[0].level, 2);
    assert_eq!(hs[0].title, "Real one");
}

#[test]
fn plain_text_collapses_whitespace() {
    let spans = vec![span("  Hello "), span("world\n again ")];
    assert_eq!(plain_text_from_spans(&spans), "Hello world again");
}

// ---- block renderer ----

#[test]
fn spans_draw_with_their_codes() {
    let bold = InlineSpan { text: "hi".to_string(), style: InlineStyle { bold: true, ..InlineStyle::default() } };
    assert_eq!(render_inline_spans(&[bold], &BlockStyle { heading_level: None }), format!("\x1b[1mhi{}", RESET));
    assert_eq!(
        render_inline_spans(&[span("hi")], &BlockStyle { heading_level: Some(1) }),
        format!("\x1b[1m\x1b[38;5;203mhi{}", RESET)
    );
}

#[test]
fn rules_draw_thirty_dashes() {
    let lines = MarkdownRenderer::new().render(&[ParsedBlock::Rule]);
    assert_eq!(lines.len(), 1);
    assert_eq!(lines[0].content, format!("\x1b[38;5;245m{}{}", "─".repeat(30), RESET));
}

#[test]
fn code_blocks_are_framed_and_highlighted() {
    let r = MarkdownRenderer::new();
    let lines = r.render_code_block("rust", "fn main() {}\nlet x = 1;");
    assert_eq!(lines.len(), 4);
    assert_eq!(lines[0], format!("\x1b[38;5;245m┌─ rust{}", RESET));
    assert_eq!(strip_ansi(&lines[1]), "│ fn main() {}");
    assert_eq!(strip_ansi(&lines[2]), "│ let x = 1;");
    assert!(lines[1].contains("\x1b[38;2;"), "code should be coloured");
    assert_eq!(lines[3], format!("\x1b[38;5;245m└────────────\x1b[48;5;238m─{}─{}", RESET, RESET));
    let plain = r.render_code_block("", "x");
    assert_eq!(plain.len(), 3);
    assert_eq!(plain[0], format!("\x1b[38;5;245m┌─\x1b[48;5;238m─{}", RESET));
    assert_eq!(strip_ansi(&plain[1]), "│ x");
}

#[test]
fn entities_follow_blocks() {
    let r = MarkdownRenderer::new();
    let blocks = MarkdownParser::new().parse("# Title\n\nHello");
    let ents = r.render_entities(&blocks);
    assert_eq!(ents.len(), blocks.len());
    assert_eq!(ents[0].lines[0].line_type, LineType::Heading);
    assert!(ents[0].is_focusable());
    assert!(ents[1].is_focusable());
    assert!(!ents[2].is_focusable());
}

#[test]
fn full_opacity_leaves_lines_alone() {
    let line = RenderedLine::text("\x1b[1mhi\x1b[0m".to_string());
    assert_eq!(apply_opacity_to_line(&line, 255), "\x1b[1mhi\x1b[0m");
    let code = RenderedLine::code_block("\x1b[31mx\x1b[0m".to_string());
    assert_eq!(apply_opacity_to_line(&code, 55), format!("\x1b[38;5;236mx{}", RESET));
}

// ---- line renderer ----

#[test]
fn markdown_lines_draw_inline_styles() {
    let r = markdown::MarkdownRenderer::new();
    assert_eq!(r.render_line("**bold** text"), format!("\x1b[1mbold{} text", RESET));
    assert_eq!(r.render_line("   "), "");
    assert_eq!(r.render_line("# Title"), format!("\x1b[1m\x1b[38;5;203mTitle{}", RESET));
    assert_eq!(r.render_line("- item"), "  • item");
    assert_eq!(r.render_line("<!-- c -->"), "<!-- c -->");
}

#[test]
fn markdown_documents_draw_line_by_line() {
    let r = markdown::MarkdownRenderer::new();
    let lines = r.parse_and_render("# Title\n\nSome *text*");
    assert_eq!(lines.len(), 3);
    assert_eq!(lines[0].content, format!("\x1b[1m\x1b[38;5;203mTitle{}", RESET));
    assert!(lines[0].line_type == markdown::LineType::Heading);
    assert_eq!(lines[1].content, format!("Some \x1b[3mtext{}", RESET));
    assert!(lines[1].line_type == markdown::LineType::Text);
    assert!(lines[2].line_type == markdown::LineType::Empty);
}

#[test]
fn markdown_list_items_are_lines_of_their_own() {
    let r = markdown::MarkdownRenderer::new();
    let lines = r.parse_and_render("1. a\n2. b");
    assert_eq!(lines.len(), 2);
    assert_eq!(strip_ansi(&lines[0].content), "1. a");
    assert_eq!(strip_ansi(&lines[1].content), "2. b");
    let lines = r.parse_and_render("3. x\n4. y\n5. z");
    let shown: Vec<String> = lines.iter().map(|l| strip_ansi(&l.content)).collect();
    assert_eq!(shown, vec!["3. x", "4. y", "5. z"]);
    let lines = r.parse_and_render("- a\n- b");
    let shown: Vec<String> = lines.iter().map(|l| strip_ansi(&l.content)).collect();
    assert_eq!(shown, vec!["• a", "• b"]);
}

#[test]
fn markdown_tables_draw_a_grid() {
    let r = markdown::MarkdownRenderer::new();
    let lines = r.parse_and_render("| a | b |\n|---|---|\n| 1 | 2 |");
    let shown: Vec<String> = lines.iter().map(|l| strip_ansi(&l.content)).collect();
    assert_eq!(shown, vec!["┌───┬───┐", "│  a│  b│", "├───┼───┤", "│  1│  2│", "└───┴───┘"]);
    assert!(lines.iter().all(|l| l.line_type == markdown::LineType::Table));
}

#[test]
fn markdown_table_pads_to_the_widest_cell() {
    let r = markdown::MarkdownRenderer::new();
    let lines = r.render_table(&[vec!["x".to_string()], vec!["longer".to_string()]]);
    let shown: Vec<String> = lines.iter().map(|l| strip_ansi(l)).collect();
    assert_eq!(shown, vec!["┌────────┐", "│  x     │", "├────────┤", "│  longer│", "└────────┘"]);
}

#[test]
fn markdown_code_blocks_are_highlighted() {
    let r = markdown::MarkdownRenderer::new();
    let lines = r.parse_and_render("```\nplain\n```");
    assert_eq!(lines.len(), 3);
    assert!(lines.iter().all(|l| l.line_type == markdown::LineType::CodeBlock));
    assert_eq!(strip_ansi(&lines[1].content), "│ plain");
}

#[test]
fn markdown_heading_styles_fall_back_to_white() {
    let r = markdown::MarkdownRenderer::new();
    let style = markdown::Style { is_heading: true, heading_level: 7, ..markdown::Style::default() };
    assert_eq!(r.apply_inline_styles("t", &style), format!("\x1b[1m\x1b[97mt{}", RESET));
    assert_eq!(r.apply_inline_styles("t", &markdown::Style::default()), "t");
}

#[test]
fn markdown_lines_fade_like_block_lines() {
    let line = markdown::RenderedLine::text("hi".to_string());
    assert_eq!(markdown::apply_opacity_to_line(&line, 55), format!("\x1b[38;5;236mhi{}", RESET));
    assert_eq!(markdown::apply_opacity_to_line(&line, 255), "hi");
}

// ---- screen ----

#[test]
fn display_rows_index_entities() {
    let ents = vec![text_entity("abc"), blank_entity(), RenderedEntity { lines: vec![] }];
    let (rows, offsets, counts) = build_display_rows(&ents, 20);
    assert_eq!(rows.len(), 2);
    assert_eq!(rows[0].0, 0);
    assert_eq!(rows[0].2, format!("abc{}", RESET));
    assert_eq!(rows[1].0, 1);
    assert_eq!(rows[1].2, "");
    assert_eq!(offsets, vec![0, 1, 2]);
    assert_eq!(counts, vec![1, 1, 1]);
}

#[test]
fn focus_row_is_the_middle_of_the_entity() {
    assert_eq!(focus_row(&[0, 3], &[3, 2], 0), 1);
    assert_eq!(focus_row(&[0, 3], &[3, 2], 1), 3);
    assert_eq!(focus_row(&[0, 3], &[3, 2], 5), 0);
}

#[test]
fn rows_outside_the_band_are_dimmed() {
    let row = (0usize, RenderedLine::text("abc".to_string()), "abc".to_string());
    assert_eq!(draw_row(&row, 0), "abc");
    assert_eq!(draw_row(&row, 10), format!("\x1b[38;5;236mabc{}", RESET));
}

#[test]
fn sidebar_without_headings() {
    let rows = build_sidebar_rows(&[], 20, 0);
    assert_eq!(
        rows,
        vec![
            format!("\x1b[38;5;252mOutline{}", RESET),
            String::new(),
            format!("\x1b[38;5;245mNo headings found{}", RESET),
        ]
    );
}

#[test]
fn sidebar_marks_the_active_heading() {
    let hs = vec![
        SidebarHeading { entity_idx: 0, level: 1, title: "Intro".to_string() },
        SidebarHeading { entity_idx: 5, level: 2, title: "Details".to_string() },
    ];
    let rows = build_sidebar_rows(&hs, 20, 5);
    assert_eq!(
        rows,
        vec![
            format!("\x1b[38;5;252mOutline{}", RESET),
            String::new(),
            format!("\x1b[38;5;245mIntro{}", RESET),
            format!("\x1b[38;5;223m> Details{}", RESET),
        ]
    );
}

#[test]
fn sidebar_indents_continuation_rows() {
    let hs = vec![SidebarHeading { entity_idx: 0, level: 1, title: "alpha beta gamma".to_string() }];
    let rows = build_sidebar_rows(&hs, 10, 0);
    assert_eq!(rows[2], format!("\x1b[38;5;223m> alpha{}", RESET));
    assert_eq!(rows[3], format!("\x1b[38;5;223m  beta gamma{}", RESET));
}

#[test]
fn frame_surrounds_the_rectangle() {
    let rows = frame_lines(Rect { x: 1, y: 2, width: 4, height: 3 });
    assert_eq!(
        rows,
        vec![
            (2, format!("\x1b[38;5;240m┌──┐{}", RESET)),
            (3, format!("\x1b[38;5;240m│  │{}", RESET)),
            (4, format!("\x1b[38;5;240m└──┘{}", RESET)),
        ]
    );
    assert!(frame_lines(Rect { x: 0, y: 0, width: 1, height: 5 }).is_empty());
}

#[test]
fn sidebar_lines_fill_the_rectangle() {
    let rows = sidebar_lines(Rect { x: 0, y: 0, width: 10, height: 3 }, &[], 0);
    assert_eq!(
        rows,
        vec![
            (0, " ".repeat(10)),
            (1, format!("\x1b[38;5;252mOutline{}   {}", RESET, RESET)),
            (2, format!("{}{}", " ".repeat(10), RESET)),
        ]
    );
}

#[test]
fn screen_draws_frame_sidebar_and_content() {
    let r = MarkdownRenderer::new();
    let blocks = MarkdownParser::new().parse("# Title\n\nHello");
    let ents = r.render_entities(&blocks);
    let hs = toy_speechcli::controller::collect_sidebar_headings(&blocks);
    let focus = initial_focus(&ents);
    let screen = render_screen(&ents, &hs, 80, 24, focus);
    assert_eq!(screen[0], (4, 1, format!("\x1b[38;5;240m┌{}┐{}", "─".repeat(24), RESET)));
    assert!(screen.iter().any(|(_, _, t)| strip_ansi(t).contains("Title")));
    assert!(screen.iter().any(|(_, _, t)| strip_ansi(t).contains("Hello")));
    assert!(screen.iter().any(|(_, _, t)| strip_ansi(t).contains("> Title")));
}

// ---- event streams given directly ----

#[test]
fn parser_reads_a_given_event_stream() {
    let evs = vec![
        MdEvent::Start(MdTag::Heading(2)),
        MdEvent::Text("Hi".to_string()),
        MdEvent::End(MdTagEnd::Heading),
        MdEvent::Start(MdTag::Strong),
        MdEvent::Text("x".to_string()),
        MdEvent::End(MdTagEnd::Strong),
    ];
    let blocks = MarkdownParser::new().parse_events(&evs);
    assert_eq!(blocks.len(), 2);
    match &blocks[0] {
        ParsedBlock::Text { spans, style } => {
            assert_eq!(style.heading_level, Some(2));
            assert_eq!(spans.len(), 1);
            assert_eq!(spans[0].text, "Hi");
        }
        _ => panic!("expected a heading block"),
    }
    match &blocks[1] {
        ParsedBlock::Text { spans, style } => {
            assert_eq!(style.heading_level, None);
            assert!(spans[0].style.bold);
        }
        _ => panic!("expected a text block"),
    }
}

#[test]
fn line_renderer_reads_a_given_event_stream() {
    let r = markdown::MarkdownRenderer::new();
    let evs = vec![
        MdEvent::Start(MdTag::Strong),
        MdEvent::Text("b".to_string()),
        MdEvent::End(MdTagEnd::Strong),
        MdEvent::Rule,
    ];
    assert_eq!(
        r.render_line_events("x", &evs),
        format!("\x1b[1mb{}\x1b[38;5;245m{}{}", RESET, "─".repeat(30), RESET)
    );
    assert_eq!(r.render_line_events("x", &[]), "x");
    assert_eq!(r.render_line_events(" \t", &evs), "");
}

#[test]
fn document_renderer_numbers_from_the_list_start() {
    let r = markdown::MarkdownRenderer::new();
    let evs = vec![
        MdEvent::Start(MdTag::List(Some(3))),
        MdEvent::Start(MdTag::Item),
        MdEvent::Text("a".to_string()),
        MdEvent::End(MdTagEnd::Item),
        MdEvent::End(MdTagEnd::List),
        MdEvent::Start(MdTag::List(None)),
        MdEvent::Start(MdTag::List(None)),
        MdEvent::Start(MdTag::Item),
        MdEvent::Text("b".to_string()),
    ];
    let lines = r.render_events(&evs);
    assert_eq!(lines.len(), 2);
    assert_eq!(lines[0].content, "3. a");
    assert_eq!(lines[1].content, "  • b");
    let pieces = r.document_pieces(&evs);
    assert_eq!(pieces.len(), 2);
}

#[test]
fn parser_collects_table_rows() {
    let blocks = MarkdownParser::new().parse("| a | b |\n|---|---|\n| 1 | 2 |");
    assert_eq!(blocks.len(), 1);
    match &blocks[0] {
        ParsedBlock::Table { rows } => {
            let texts: Vec<Vec<String>> = rows
                .iter()
                .map(|r| r.iter().map(|c| c.iter().map(|s| s.text.clone()).collect::<String>()).collect())
                .collect();
            assert_eq!(texts, vec![vec!["a", "b"], vec!["1", "2"]]);
        }
        _ => panic!("expected a table"),
    }
}

#[test]
fn block_tables_pad_one_space_past_each_cell() {
    let r = MarkdownRenderer::new();
    let blocks = MarkdownParser::new().parse("| a | b |\n|---|---|\n| 1 | 2 |");
    let lines = r.render(&blocks);
    let shown: Vec<String> = lines.iter().map(|l| strip_ansi(&l.content)).collect();
    assert_eq!(shown, vec!["┌───┬───┐", "│ a │ b │", "├───┼───┤", "│ 1 │ 2 │", "└───┴───┘"]);
    assert!(lines.iter().all(|l| l.line_type == LineType::Table));
}

#[test]
fn parser_marks_blockquotes() {
    let blocks = MarkdownParser::new().parse("> quote");
    assert_eq!(span_texts(&blocks[0]), vec!["> ", "quote"]);
    match &blocks[0] {
        ParsedBlock::Text { spans, .. } => {
            assert!(spans[0].style.blockquote);
            assert!(spans[1].style.blockquote);
        }
        _ => panic!("expected a text block"),
    }
    let quoted = render_inline_spans(&[InlineSpan {
        text: "q".to_string(),
        style: InlineStyle { blockquote: true, ..InlineStyle::default() },
    }], &BlockStyle { heading_level: None });
    assert_eq!(quoted, format!("\x1b[38;5;245mq{}", RESET));
}

// ---- laws on concrete values ----

#[test]
fn rendering_joined_blocks_joins_their_lines() {
    let r = MarkdownRenderer::new();
    let a = MarkdownParser::new().parse("# Title\n\n```rust\nlet x = 1;\n```");
    let b = MarkdownParser::new().parse("| a |\n|---|\n| 1 |\n\n---");
    let mut both = a.clone();
    both.extend(b.iter().cloned());
    let shown = |ls: Vec<RenderedLine>| -> Vec<(String, LineType)> {
        ls.into_iter().map(|l| (l.content, l.line_type)).collect()
    };
    let mut apart = shown(r.render(&a));
    apart.extend(shown(r.render(&b)));
    assert_eq!(shown(r.render(&both)), apart);
    assert!(r.render(&[]).is_empty());
}

#[test]
fn long_lines_run_past_the_panel() {
    let content = "  12. \x1b[1mbold words\x1b[0m and more words that run on past any panel width";
    let line = RenderedLine::text(content.to_string());
    let segs = wrap_rendered_line(&line, 12);
    assert_eq!(segs.len(), 1);
    assert_eq!(strip_ansi(&segs[0]), strip_ansi(content));
    let (rows, _, counts) = build_display_rows(&[RenderedEntity { lines: vec![line] }], 12);
    assert_eq!(rows.len(), 1);
    assert_eq!(counts, vec![1]);
}

#[test]
fn fading_keeps_what_a_line_shows() {
    let table = RenderedLine::table("\x1b[38;5;245m│ \x1b[1mx\x1b[0m │\x1b[0m".to_string());
    let text = RenderedLine::text("a \x1b[3mb\x1b[0m".to_string());
    let code = RenderedLine::code_block("\x1b[38;2;1;2;3mfn\x1b[0m".to_string());
    for line in [&table, &text, &code] {
        for opacity in [0u8, 55, 128, 254, 255] {
            assert_eq!(strip_ansi(&apply_opacity_to_line(line, opacity)), strip_ansi(&line.content));
        }
    }
    let md = markdown::RenderedLine::table("│ a │".to_string());
    assert_eq!(strip_ansi(&markdown::apply_opacity_to_line(&md, 10)), "│ a │");
}

#[test]
fn spotlight_rows_show_their_segment() {
    let row = (3usize, RenderedLine::text("seg".to_string()), "\x1b[1mseg\x1b[0m".to_string());
    assert_eq!(draw_row(&row, 5), "\x1b[1mseg\x1b[0m");
    assert_eq!(draw_row(&row, 1), "\x1b[1mseg\x1b[0m");
    assert_eq!(strip_ansi(&draw_row(&row, 6)), "seg");
    assert_ne!(draw_row(&row, 6), "\x1b[1mseg\x1b[0m");
}

#[test]
fn screen_centres_the_focused_row() {
    let r = MarkdownRenderer::new();
    let blocks = MarkdownParser::new().parse("# Title\n\nHello");
    let ents = r.render_entities(&blocks);
    let hs = toy_speechcli::controller::collect_sidebar_headings(&blocks);
    let screen = render_screen(&ents, &hs, 80, 24, 0);
    let want = format!("\x1b[1m\x1b[38;5;203mTitle{}{}", RESET, RESET);
    assert!(screen.contains(&(32, 12, want)));
    let screen = render_screen(&ents, &hs, 80, 24, 1);
    assert!(screen.contains(&(32, 12, format!("Hello{}{}", RESET, RESET))));
}

#[test]
fn parsed_text_blocks_are_never_empty() {
    let blocks = MarkdownParser::new().parse("# \n\n**\n\n- \n\nend  \nline\n\n> ");
    for b in &blocks {
        if let ParsedBlock::Text { spans, .. } = b {
            assert!(!spans.is_empty());
        }
    }
}

#[test]
fn styled_spans_show_their_text() {
    let spans = vec![
        InlineSpan { text: "a".to_string(), style: InlineStyle { bold: true, italic: true, ..InlineStyle::default() } },
        InlineSpan { text: " b".to_string(), style: InlineStyle { code: true, ..InlineStyle::default() } },
        InlineSpan { text: " c".to_string(), style: InlineStyle { link: true, blockquote: true, ..InlineStyle::default() } },
    ];
    let drawn = render_inline_spans(&spans, &BlockStyle { heading_level: Some(3) });
    assert_eq!(strip_ansi(&drawn), "a b c");
}

#[test]
fn stripping_twice_is_stripping_once() {
    let s = "\x1b[1ma\x1b[0mb\x1b[3";
    assert_eq!(strip_ansi(&strip_ansi(s)), strip_ansi(s));
}

#[test]
fn content_rows_follow_the_viewport() {
    let ents = vec![text_entity("a"), text_entity("b"), text_entity("c"), text_entity("d")];
    let (rows, _, _) = build_display_rows(&ents, 20);
    let drawn = toy_speechcli::screen::content_lines(Rect { x: 7, y: 3, width: 20, height: 3 }, &rows, 0, 0);
    assert_eq!(drawn, vec![(7, 4, format!("a{}", RESET)), (7, 5, format!("b{}", RESET))]);
    let drawn = toy_speechcli::screen::content_lines(Rect { x: 7, y: 3, width: 20, height: 3 }, &rows, 2, 0);
    assert_eq!(drawn.len(), 3);
    assert_eq!(drawn[2], (7, 5, format!("\x1b[38;5;236md\x1b[0m\x1b[38;5;236m{}", RESET)));
}

#[test]
fn integer_gray_tone_matches_the_float_formula() {
    for opacity in 0u8..255 {
        let factor = opacity as f32 / 255.0;
        let gray = ((factor * 23.0) as u8 + 232).min(255);
        assert_eq!(gray_code_for(opacity), gray, "opacity {}", opacity);
    }
}

#[test]
fn moving_up_then_down_returns() {
    let ents = vec![text_entity("a"), blank_entity(), blank_entity(), text_entity("b"), text_entity("c")];
    let up = move_up(&ents, 3);
    assert_eq!(up, 0);
    assert_eq!(move_down(&ents, up), 3);
}
