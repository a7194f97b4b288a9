use vellum::markdown::Rendered;

fn plain_at(src: &str, width: usize) -> Vec<String> {
    Rendered::build(src).layout(width).1
}

#[test]
fn table_renders_grid() {
    let md = "| Key | Val |\n|-----|-----|\n| a | 1 |\n| bb | 22 |\n";
    let lines = plain_at(md, 80);
    let joined = lines.join("\n");
    assert!(joined.contains('┌') && joined.contains('┼') && joined.contains('└'));
    assert!(joined.contains("Key") && joined.contains("bb"));
}

#[test]
fn blockquote_gets_gutter() {
    let lines = plain_at("> quoted text here\n", 80);
    assert!(lines
        .iter()
        .any(|l| l.starts_with("│ ") && l.contains("quoted")));
}

#[test]
fn nested_list_indents() {
    let md = "- top\n  - nested\n";
    let lines = plain_at(md, 80);
    let nested = lines.iter().find(|l| l.contains("nested")).unwrap();
    assert!(
        nested.starts_with("  "),
        "nested item should be indented: {nested:?}"
    );
}

#[test]
fn toc_and_links_collected() {
    let md = "# H1\n\n## H2\n\n[x](http://e.com)\n";
    let r = Rendered::build(md);
    assert_eq!(r.toc.len(), 2);
    assert_eq!(r.links.len(), 1);
    assert_eq!(r.links[0].url, "http://e.com");
}

#[test]
fn long_paragraph_wraps() {
    let md = "word ".repeat(40);
    let lines = plain_at(&md, 20);
    assert!(lines.len() > 1);
    assert!(lines.iter().all(|l| l.chars().count() <= 20));
}

#[test]
fn toc_entries_point_at_heading_rows() {
    let md = "intro\n\n# One\n\ntext\n\n## Two\n";
    let r = Rendered::build(md);
    let (display, plain, map) = r.layout(40);
    assert_eq!(display.len(), plain.len());
    assert_eq!(r.toc.len(), 2);
    assert_eq!(r.toc[0].level, 1);
    assert_eq!(r.toc[0].title, "One");
    assert_eq!(r.toc[1].level, 2);
    assert_eq!(r.toc[1].title, "Two");
    assert_eq!(plain[map[r.toc[0].line]], "One");
    assert_eq!(plain[map[r.toc[1].line]], "Two");
    assert!(map.windows(2).all(|w| w[0] <= w[1]));
}

#[test]
fn plain_text_is_text_of_runs() {
    let md = "> **bold** and *it* `code` [l](u)\n\n---\n\n    fenced\n";
    let r = Rendered::build(md);
    let (display, plain, _) = r.layout(30);
    for (line, text) in display.iter().zip(plain.iter()) {
        let joined: String = line.spans.iter().map(|s| s.text.as_str()).collect();
        assert_eq!(&joined, text);
    }
}

#[test]
fn rule_is_capped_at_sixty() {
    let r = Rendered::build("---\n");
    let (_, plain, _) = r.layout(100);
    assert_eq!(plain[0].chars().count(), 60);
    assert!(plain[0].chars().all(|c| c == '─'));
    let (_, narrow, _) = r.layout(3);
    assert_eq!(narrow[0].chars().count(), 8);
}

#[test]
fn code_block_lines_are_indented() {
    let r = Rendered::build("```\nlet x = 1;\nlet y = 2;\n```\n");
    let (_, plain, _) = r.layout(80);
    assert!(plain.iter().any(|l| l == "    let x = 1;"));
    assert!(plain.iter().any(|l| l == "    let y = 2;"));
}

#[test]
fn overlong_word_keeps_its_line() {
    let r = Rendered::build("short averyveryverylongword end\n");
    let (_, plain, _) = r.layout(10);
    assert!(plain.iter().any(|l| l == "averyveryverylongword"));
    assert!(plain.iter().any(|l| l.starts_with("short")));
}

#[test]
fn table_cells_are_padded_and_cut() {
    let long = "x".repeat(40);
    let md = format!("| h |\n|---|\n| {long} |\n");
    let r = Rendered::build(&md);
    let (_, plain, _) = r.layout(80);
    let row = plain.iter().find(|l| l.contains('…')).unwrap();
    assert_eq!(row.chars().count(), 28 + 4);
    assert!(plain.iter().any(|l| l.starts_with("│ h ")));
}

#[test]
fn table_lines_share_one_width() {
    let md = "| Key | Val |\n|-----|-----|\n| a | 1 |\n| bb | 22 |\n";
    let lines = plain_at(md, 80);
    let table: Vec<&String> = lines
        .iter()
        .filter(|l| l.starts_with('┌') || l.starts_with('│') || l.starts_with('├') || l.starts_with('└'))
        .collect();
    assert_eq!(table.len(), 3 + 2 + 1);
    assert!(table[0].starts_with('┌'));
    assert!(table[2].starts_with('├'));
    assert!(table[5].starts_with('└'));
    for l in &table {
        assert_eq!(l.chars().count(), 1 + (3 + 3) + (3 + 3));
    }
}

#[test]
fn wrapping_keeps_words_in_order() {
    let text = "alpha beta gamma delta epsilon zeta";
    let lines = plain_at(text, 11);
    assert!(lines.len() > 1);
    for l in &lines {
        assert!(!l.starts_with(' '));
    }
    let words: Vec<&str> = lines.iter().flat_map(|l| l.split_whitespace()).collect();
    assert_eq!(words, text.split_whitespace().collect::<Vec<&str>>());
}

#[test]
fn white_space_is_unicode_white_space() {
    assert!(vellum::text::is_whitespace('\t'));
    assert!(vellum::text::is_whitespace('\u{3000}'));
    assert!(vellum::text::is_whitespace('\u{85}'));
    assert!(!vellum::text::is_whitespace('a'));
    assert!(!vellum::text::is_whitespace('\u{200b}'));
}
