use vellum::plain::{parse_cpr_col, render_with, sizing_from_reply};

const RESET: &str = "\x1b[0m";

#[test]
fn heading_is_coloured_and_bold() {
    let out = render_with("# Title\n", false);
    assert_eq!(out, format!("\x1b[38;2;125;211;252m\x1b[1mTitle{RESET}\n\n"));
}

#[test]
fn big_heading_uses_text_sizing_when_supported() {
    let out = render_with("# Title\n", true);
    assert_eq!(out, format!("\x1b[38;2;125;211;252m\x1b[1m\x1b]66;s=3;Title\x1b\\{RESET}\n\n"));
    let two = render_with("## Sub\n", true);
    assert!(two.contains("\x1b]66;s=2;Sub\x1b\\"));
    let small = render_with("### Small\n", true);
    assert!(!small.contains("\x1b]66"));
    assert!(small.contains("Small"));
}

#[test]
fn emphasis_and_paragraphs() {
    let out = render_with("**b** *i*\n", false);
    assert_eq!(out, format!("\x1b[1mb{RESET} \x1b[3mi{RESET}\n\n"));
}

#[test]
fn links_are_hyperlinks() {
    let out = render_with("[t](http://x)\n", false);
    assert_eq!(
        out,
        format!("\x1b]8;;http://x\x1b\\\x1b[38;2;96;165;250m\x1b[4mt{RESET}\x1b]8;;\x1b\\\n\n")
    );
}

#[test]
fn code_blocks_are_indented() {
    let out = render_with("```\na\nb\n```\n", false);
    assert_eq!(out, format!("\x1b[38;2;110;231;183m    a\n    b\n{RESET}\n"));
}

#[test]
fn rule_and_list() {
    let rule = render_with("---\n", false);
    assert_eq!(rule, format!("\x1b[38;2;82;82;91m{}{RESET}\n\n", "─".repeat(48)));
    let list = render_with("- a\n- b\n", false);
    assert_eq!(list, "  • a\n  • b\n");
}

#[test]
fn inline_code_is_amber() {
    let out = render_with("`x`\n", false);
    assert_eq!(out, format!("\x1b[38;2;252;211;77mx{RESET}\n\n"));
}

#[test]
fn cursor_report_column() {
    assert_eq!(parse_cpr_col(b"\x1b[12;34R"), Some(34));
    assert_eq!(parse_cpr_col(b"junk\x1b[1;+7Rmore"), Some(7));
    assert_eq!(parse_cpr_col(b"no report"), None);
    assert_eq!(parse_cpr_col(b"\x1b[12R"), None);
    assert_eq!(parse_cpr_col(b"\x1b[1;R"), None);
    assert_eq!(parse_cpr_col(b"\x1b[1;99999999999R"), None);
    assert!(sizing_from_reply(b"\x1b[1;3R"));
    assert!(!sizing_from_reply(b"\x1b[1;2R"));
    assert!(!sizing_from_reply(b""));
}
