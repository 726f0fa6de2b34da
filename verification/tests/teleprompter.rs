use toy_speechcli::ansi::{apply_opacity_to_text, strip_ansi, truncate_visible};
use toy_speechcli::controller::{active_heading_index, collect_sidebar_headings, SidebarHeading};
use toy_speechcli::layout::{Layout, MIN_CONTENT_WIDTH, SIDEBAR_MIN_WIDTH};
use toy_speechcli::parser::{InlineSpan, InlineStyle, MarkdownParser};
use toy_speechcli::renderer::MarkdownRenderer;

const COLOR_RESET: &str = "\x1b[0m";
const COLOR_BOLD: &str = "\x1b[1m";
const COLOR_RED: &str = "\x1b[38;5;203m";

#[test]
fn collects_headings_for_sidebar() {
    let parser = MarkdownParser::new();
    let parsed = parser.parse("# Intro\n\n## Details\nBody");

    let headings = collect_sidebar_headings(&parsed);

    assert_eq!(headings.len(), 2);
    assert_eq!(headings[0].title, "Intro");
    assert_eq!(headings[1].level, 2);
    assert_eq!(headings[1].title, "Details");
}

#[test]
fn active_heading_tracks_current_entity() {
    let headings = vec![
        SidebarHeading {
            entity_idx: 0,
            level: 1,
            title: "Intro".to_string(),
        },
        SidebarHeading {
            entity_idx: 5,
            level: 2,
            title: "Details".to_string(),
        },
    ];

    assert_eq!(active_heading_index(&headings, 0), Some(0));
    assert_eq!(active_heading_index(&headings, 4), Some(0));
    assert_eq!(active_heading_index(&headings, 5), Some(1));
}

#[test]
fn centered_panel_allocates_sidebar_and_content() {
    let layout = Layout::centered_panel(120, 30);

    assert!(layout.sidebar_frame.width >= SIDEBAR_MIN_WIDTH);
    assert!(layout.sidebar_content.width > 0);
    assert!(layout.content.width >= MIN_CONTENT_WIDTH);
    assert!(layout.content.x > layout.sidebar_frame.x + layout.sidebar_frame.width);
}

fn gray_for_factor(factor: f32) -> u8 {
    ((factor * 23.0) as u8 + 232).min(255)
}

#[test]
fn markdown_dims_text_before_first_escape_sequence() {
    let plain = format!("I want to talk about something that {}matters{}", COLOR_BOLD, COLOR_RESET);
    let factor = 0.5;
    let expected_gray = gray_for_factor(factor);
    let gray_prefix = format!("\x1b[38;5;{}m", expected_gray);

    let dimmed = apply_opacity_to_text(&plain, expected_gray);

    assert!(dimmed.contains(&gray_prefix), "dimmed text should apply gray coloring");
    assert_eq!(strip_ansi(&dimmed), strip_ansi(&plain));
}

#[test]
fn markdown_re_applies_gray_after_color_sequences() {
    let plain = format!("start {}colored{}", COLOR_RED, COLOR_RESET);
    let factor = 0.5;
    let expected_gray = gray_for_factor(factor);
    let gray_prefix = format!("\x1b[38;5;{}m", expected_gray);

    let dimmed = apply_opacity_to_text(&plain, expected_gray);

    let color_idx = dimmed.find(COLOR_RED).expect("colored sequence should be present");
    let first_gray_after_color = dimmed[color_idx..].find(&gray_prefix);
    assert!(first_gray_after_color.is_some(), "gray should be re-applied after color code");
    assert_eq!(strip_ansi(&dimmed), "start colored");
}

#[test]
fn renderer_dims_text_before_first_escape_sequence() {
    let plain = format!("I want to talk about something that {}matters{}", COLOR_BOLD, COLOR_RESET);
    let factor = 0.5;
    let expected_gray = gray_for_factor(factor);
    let gray_prefix = format!("\x1b[38;5;{}m", expected_gray);

    let dimmed = apply_opacity_to_text(&plain, expected_gray);

    assert!(dimmed.contains(&gray_prefix), "dimmed text should apply gray coloring");
    assert_eq!(strip_ansi(&dimmed), strip_ansi(&plain));
}

#[test]
fn renderer_re_applies_gray_after_color_sequences() {
    let plain = format!("start {}colored{}", COLOR_RED, COLOR_RESET);
    let factor = 0.5;
    let expected_gray = gray_for_factor(factor);
    let gray_prefix = format!("\x1b[38;5;{}m", expected_gray);

    let dimmed = apply_opacity_to_text(&plain, expected_gray);

    let color_idx = dimmed.find(COLOR_RED).expect("colored sequence should be present");
    let first_gray_after_color = dimmed[color_idx..].find(&gray_prefix);
    assert!(first_gray_after_color.is_some(), "gray should be re-applied after color code");
    assert_eq!(strip_ansi(&dimmed), "start colored");
}

#[test]
fn truncates_visible_text_with_ellipsis() {
    let plain = format!("{}Some very long bold text{}", COLOR_BOLD, COLOR_RESET);

    let truncated = truncate_visible(&plain, 10);

    assert_eq!(strip_ansi(&truncated), "Some very…");
    assert!(truncated.ends_with(COLOR_RESET), "truncation should close color sequences");
}

#[test]
fn table_cells_truncate_without_breaking_grid() {
    let renderer = MarkdownRenderer::new();
    let rows = vec![
        vec![vec![InlineSpan {
            text: "Header".to_string(),
            style: InlineStyle::default(),
        }]],
        vec![vec![InlineSpan {
            text: "This is an extremely long cell that should be truncated to fit the column width".to_string(),
            style: InlineStyle::default(),
        }]],
    ];

    let rendered = renderer.render_table(&rows);
    let expected_len = strip_ansi(&rendered[0]).chars().count();

    for line in &rendered {
        println!("{} -> {}", strip_ansi(line), strip_ansi(line).chars().count());
    }

    for line in &rendered {
        assert_eq!(
            strip_ansi(line).chars().count(),
            expected_len,
            "table rows should align with the grid"
        );
    }

    assert!(
        rendered.iter().any(|line| strip_ansi(line).contains('…')),
        "long cell content should be truncated with an ellipsis"
    );
}
