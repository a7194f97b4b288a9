use vellum::keys::Key;
use vellum::pdf::{page_count_from, target_px, PdfCmd, PdfPager};

#[test]
fn page_count_from_pdfinfo() {
    assert_eq!(page_count_from(b"Title: x\nPages:          12\nEncrypted: no\n"), 12);
    assert_eq!(page_count_from(b"Title: x\n"), 1);
    assert_eq!(page_count_from(b"Pages: many\nPages: 3\n"), 3);
    assert_eq!(page_count_from(b""), 1);
}

#[test]
fn raster_width() {
    assert_eq!(target_px(Some((0, 100))), 800);
    assert_eq!(target_px(Some((3000, 10))), 1600);
    assert_eq!(target_px(Some((100, 0))), 400);
    assert_eq!(target_px(None), 1000);
}

#[test]
fn paging_stays_within_the_document() {
    let mut p = PdfPager::new(3);
    assert!(p.key(Key::Char('j')) == PdfCmd::Load(1));
    assert!(p.key(Key::Right) == PdfCmd::Load(2));
    assert!(p.key(Key::Char(' ')) == PdfCmd::Stay);
    assert!(p.key(Key::End) == PdfCmd::Stay);
    assert!(p.key(Key::Char('g')) == PdfCmd::Load(0));
    assert!(p.key(Key::Left) == PdfCmd::Stay);
    p.fail();
    assert!(p.key(Key::Home) == PdfCmd::Load(0));
    p.shown();
    assert!(p.key(Key::Home) == PdfCmd::Stay);
    assert!(p.key(Key::Char('q')) == PdfCmd::Quit);
    assert_eq!(p.page(), 0);
    assert_eq!(p.pages(), 3);
}

#[test]
fn cache_keeps_the_newest_twelve() {
    let mut p = PdfPager::new(100);
    for i in 0..12 {
        assert!(p.stored(i).is_empty());
    }
    assert!(p.cached(0));
    assert_eq!(p.stored(12), vec![0]);
    assert!(!p.cached(0));
    assert!(p.cached(12));
    assert_eq!(p.stored(13), vec![1]);
}
