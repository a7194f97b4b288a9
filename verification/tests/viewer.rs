use vellum::keys::Key;
use vellum::markdown::Rendered;
use vellum::viewer::{centered, link_label, toc_label, DocView, ViewAction, ViewMode};

fn doc(src: &str, width: u16, height: u16) -> DocView {
    let mut v = DocView::new(Rendered::build(src));
    v.relayout(width);
    v.fit_viewport(height);
    v
}

fn long_doc() -> String {
    let mut s = String::from("# One\n\n");
    for i in 0..30 {
        s.push_str(&format!("line {i}\n\n"));
    }
    s.push_str("## Two\n\nlast words [site](http://example.com)\n");
    s
}

#[test]
fn scrolling_stays_within_the_document() {
    let mut v = doc(&long_doc(), 40, 13);
    let n = v.display().len();
    assert!(n > 10);
    assert_eq!(v.offset(), 0);
    v.handle_key(Key::Char('j'));
    assert_eq!(v.offset(), 1);
    v.handle_key(Key::Char('k'));
    v.handle_key(Key::Char('k'));
    assert_eq!(v.offset(), 0);
    v.handle_key(Key::End);
    assert_eq!(v.offset(), n - 10);
    v.handle_key(Key::Down);
    assert_eq!(v.offset(), n - 10);
    v.handle_key(Key::Char('u'));
    assert_eq!(v.offset(), n - 15);
    v.handle_key(Key::Char('d'));
    assert_eq!(v.offset(), n - 10);
    v.handle_key(Key::Home);
    assert_eq!(v.offset(), 0);
}

#[test]
fn search_jumps_to_matches() {
    let mut v = doc(&long_doc(), 40, 13);
    v.handle_key(Key::Char('/'));
    assert!(v.mode() == ViewMode::Search);
    for c in "LINE 2".chars() {
        v.handle_key(Key::Char(c));
    }
    v.handle_key(Key::Backspace);
    v.handle_key(Key::Char('2'));
    v.handle_key(Key::Enter);
    assert!(v.mode() == ViewMode::Doc);
    assert_eq!(v.query(), "LINE 2");
    // "line 2" and "line 20".."line 29"
    assert_eq!(v.match_count(), 11);
    let first = v.offset();
    assert_eq!(v.highlight(first), 2);
    v.handle_key(Key::Char('n'));
    let second = v.offset();
    assert!(second > first);
    assert_eq!(v.highlight(first), 1);
    v.handle_key(Key::Char('N'));
    assert_eq!(v.offset(), first);
    assert_eq!(v.highlight(0), 0);
}

#[test]
fn toc_jumps_to_headings() {
    let mut v = doc(&long_doc(), 40, 200);
    v.handle_key(Key::Char('t'));
    assert!(v.mode() == ViewMode::Toc);
    assert!(v.show_toc());
    assert_eq!(v.toc_selected(), Some(0));
    v.handle_key(Key::Char('j'));
    assert_eq!(v.toc_selected(), Some(1));
    v.handle_key(Key::Char('j'));
    assert_eq!(v.toc_selected(), Some(1));
    v.handle_key(Key::Enter);
    assert!(v.mode() == ViewMode::Doc);
    assert!(!v.show_toc());
    // The viewport holds the whole document, so the offset stays at the top.
    assert_eq!(v.offset(), 0);

    let mut w = doc(&long_doc(), 40, 5);
    w.handle_key(Key::Char('t'));
    w.handle_key(Key::Down);
    w.handle_key(Key::Enter);
    let (_, plain, _) = Rendered::build(&long_doc()).layout(40);
    assert_eq!(plain[w.offset()], "Two");
}

#[test]
fn link_picker_opens_urls() {
    let mut v = doc(&long_doc(), 40, 13);
    v.handle_key(Key::Char('l'));
    assert!(v.mode() == ViewMode::Links);
    match v.handle_key(Key::Enter) {
        ViewAction::Open(u) => assert_eq!(u, "http://example.com"),
        _ => panic!("expected a link to open"),
    }
    assert!(v.mode() == ViewMode::Doc);
    let mut none = doc("plain text\n", 40, 13);
    none.handle_key(Key::Char('l'));
    assert!(none.mode() == ViewMode::Doc);
}

#[test]
fn quit_help_and_guard() {
    let mut v = doc("no headings\n", 40, 13);
    v.handle_key(Key::Char('?'));
    assert!(v.mode() == ViewMode::Help);
    v.handle_key(Key::Char('x'));
    assert!(v.mode() == ViewMode::Doc);
    v.handle_key(Key::Char('t'));
    assert_eq!(v.toc_selected(), None);
    v.handle_key(Key::Char('k'));
    assert_eq!(v.toc_selected(), Some(0));
    assert!(v.enter_out_of_range(Key::Enter));
    v.set_toc_selected(None);
    assert!(!v.enter_out_of_range(Key::Enter));
    v.handle_key(Key::Esc);
    assert!(matches!(v.handle_key(Key::Char('q')), ViewAction::Quit));
}

#[test]
fn widths_and_labels() {
    let v = doc("x\n", 40, 13);
    assert_eq!(v.content_width(100), 98);
    assert_eq!(v.content_width(5), 8);
    assert_eq!(v.visible(), (0, v.display().len().min(10)));
    assert_eq!(v.scroll_percent(), 0);
    assert_eq!(doc("", 40, 13).scroll_percent(), 100);
    let mut end = doc(&long_doc(), 40, 13);
    end.handle_key(Key::End);
    assert_eq!(end.scroll_percent(), 100);
    assert_eq!(centered(0, 0, 100, 50, 70, 60), (15, 10, 70, 30));
    assert_eq!(toc_label(1, "Top"), "Top");
    assert_eq!(toc_label(3, "Deep"), "    Deep");
    assert_eq!(link_label("abc"), format!("abc{}", " ".repeat(21)));
    assert_eq!(link_label(&"x".repeat(30)).chars().count(), 24);
}

#[test]
fn jumps_wrap_around_the_matches() {
    let mut v = doc(&long_doc(), 40, 13);
    v.handle_key(Key::Char('/'));
    for c in "line 2".chars() {
        v.handle_key(Key::Char(c));
    }
    v.handle_key(Key::Enter);
    let first = v.offset();
    v.handle_key(Key::Char('N'));
    let last = v.offset();
    assert!(last > first);
    v.handle_key(Key::Char('n'));
    assert_eq!(v.offset(), first);
}
