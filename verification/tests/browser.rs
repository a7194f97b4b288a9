use vellum::browser::{
    classify_name, dir_preview, dump_listing, head_text_of, name_width, pretty_path,
    preview_text_width, rel_time, sort_entries, subsequence, BrowseAction, BrowseMode, Browser,
    Entry, Kind,
};
use vellum::keys::Key;

fn entry(name: &str, kind: Kind, id: usize) -> Entry {
    Entry { name: name.to_string(), kind, size: 0, id }
}

#[test]
fn classifies_by_extension() {
    assert!(classify_name("notes.MD") == Kind::Markdown);
    assert!(classify_name("a.tar.gz") == Kind::Archive);
    assert!(classify_name("photo.JPeG") == Kind::Image);
    assert!(classify_name("main.rs") == Kind::Code);
    assert!(classify_name("book.xlsx") == Kind::Sheet);
    assert!(classify_name("movie.mkv") == Kind::Video);
    assert!(classify_name("song.flac") == Kind::Audio);
    assert!(classify_name("paper.pdf") == Kind::Pdf);
    assert!(classify_name("report.docx") == Kind::Doc);
    assert!(classify_name(".bashrc") == Kind::Other);
    assert!(classify_name("Makefile") == Kind::Other);
    assert!(classify_name("trailing.") == Kind::Other);
    assert!(classify_name("..") == Kind::Other);
    assert_eq!(Kind::Dir.label(), "Directory");
    assert_eq!(Kind::Other.glyph(), "·");
    assert!(Kind::Pdf.color().r == 248);
}

#[test]
fn fuzzy_subsequence() {
    assert!(subsequence("abc", "axbycz"));
    assert!(!subsequence("abc", "acb"));
    assert!(subsequence("", "anything"));
    assert!(!subsequence("a", ""));
}

#[test]
fn relative_times() {
    assert_eq!(rel_time(30), "just now");
    assert_eq!(rel_time(120), "2m ago");
    assert_eq!(rel_time(7200), "2h ago");
    assert_eq!(rel_time(172800), "2d ago");
    assert_eq!(rel_time(5184000), "2mo ago");
    assert_eq!(rel_time(63072000), "2y ago");
}

#[test]
fn home_relative_paths() {
    assert_eq!(pretty_path("/home/u/docs", Some("/home/u")), "~/docs");
    assert_eq!(pretty_path("/etc", Some("/home/u")), "/etc");
    assert_eq!(pretty_path("/etc", None), "/etc");
}

#[test]
fn folders_first_then_case_insensitive() {
    let v = vec![
        entry("b.txt", Kind::Other, 0),
        entry("Zdir", Kind::Dir, 1),
        entry("A.txt", Kind::Other, 2),
        entry("adir", Kind::Dir, 3),
        entry("a.txt", Kind::Other, 4),
    ];
    let ids: Vec<usize> = sort_entries(v).iter().map(|e| e.id).collect();
    assert_eq!(ids, vec![3, 1, 2, 4, 0]);
}

#[test]
fn browsing_filtering_and_actions() {
    let mut b = Browser::new();
    b.enter(vec![
        entry("notes.md", Kind::Markdown, 10),
        entry(".hidden", Kind::Other, 11),
        entry("src", Kind::Dir, 12),
        entry("alpha.txt", Kind::Other, 13),
    ]);
    // src, alpha.txt, notes.md (dotfile hidden)
    assert_eq!(b.listed().len(), 3);
    assert_eq!(b.selection(), Some(0));
    assert!(b.handle_key(Key::Enter) == BrowseAction::Enter(12));
    b.handle_key(Key::Char('j'));
    assert!(b.handle_key(Key::Char('l')) == BrowseAction::Open(13));
    b.handle_key(Key::Char('G'));
    assert_eq!(b.selection(), Some(2));
    b.handle_key(Key::Down);
    assert_eq!(b.selection(), Some(2));
    b.handle_key(Key::Char('.'));
    assert_eq!(b.listed().len(), 4);
    b.handle_key(Key::Char('/'));
    assert!(b.mode() == BrowseMode::Filter);
    b.handle_key(Key::Char('N'));
    b.handle_key(Key::Char('m'));
    assert_eq!(b.listed().len(), 1);
    assert_eq!(b.selected().unwrap().id, 10);
    b.handle_key(Key::Backspace);
    assert_eq!(b.filter(), "N");
    b.handle_key(Key::Esc);
    assert!(b.mode() == BrowseMode::Browse);
    assert_eq!(b.listed().len(), 4);
    assert!(b.handle_key(Key::Char('h')) == BrowseAction::Parent);
    b.land_on("notes.md");
    assert_eq!(b.selected().unwrap().name, "notes.md");
    assert!(b.take_stale());
    assert!(!b.take_stale());
    assert!(b.handle_key(Key::Char('q')) == BrowseAction::Quit);
}

#[test]
fn folder_preview_lists_children() {
    let kids = vec![
        ("b.txt".to_string(), false),
        (".git".to_string(), true),
        ("Docs".to_string(), true),
        ("a.txt".to_string(), false),
    ];
    let (total, lines) = dir_preview(kids.clone(), false);
    assert_eq!(total, 3);
    let names: Vec<&str> = lines.iter().map(|(n, _)| n.as_str()).collect();
    assert_eq!(names, vec!["Docs/", "a.txt", "b.txt"]);
    let (all, _) = dir_preview(kids, true);
    assert_eq!(all, 4);
    let many: Vec<(String, bool)> = (0..400).map(|i| (format!("f{i:03}"), false)).collect();
    let (n, shown) = dir_preview(many, false);
    assert_eq!(n, 400);
    assert_eq!(shown.len(), 300);
}

#[test]
fn plain_listing() {
    let out = dump_listing(vec![
        ("b".to_string(), false),
        ("A".to_string(), true),
        ("c".to_string(), false),
    ]);
    assert_eq!(out, "A/\nb\nc\n");
    assert_eq!(dump_listing(vec![]), "\n");
}

#[test]
fn text_heads() {
    assert_eq!(head_text_of(b"a\nb\nc\n", 2).as_deref(), Some("a\nb"));
    assert_eq!(head_text_of(b"a\r\nb", 10).as_deref(), Some("a\nb"));
    assert_eq!(head_text_of(b"bin\0ary", 10), None);
    assert_eq!(head_text_of(b"", 10).as_deref(), Some(""));
}

#[test]
fn widths() {
    assert_eq!(name_width(40), 27);
    assert_eq!(name_width(10), 4);
    assert_eq!(preview_text_width(100), 56);
    assert_eq!(preview_text_width(10), 20);
}

#[test]
fn subsequence_needs_increasing_positions() {
    assert!(subsequence("vl", "vellum"));
    assert!(subsequence("", "vellum"));
    assert!(!subsequence("ba", "ab"));
    assert!(subsequence("ab", "ab"));
}
