//! The PDF viewer's logic: the page count from `pdfinfo`'s report, the width
//! to raster pages at, and paging with a small cache of rastered pages. The
//! commands themselves and the pixels stand outside.
use vstd::prelude::*;
use crate::keys::Key;
use crate::text::{chars_of, has_prefix, lines_spec, lossy_text, parse_usize, parse_usize_spec, split_lines, trim, trimmed, utf8_lossy};

verus! {

/// At most this many pages are kept rastered.
pub const CACHE_MAX: usize = 12;

/// The page count of the first line `Pages: n` whose number parses.
pub open spec fn pages_in(ls: Seq<Seq<char>>) -> Option<usize>
    decreases ls.len(),
{
    if ls.len() == 0 {
        None
    } else {
        let l = ls[0];
        let n = if has_prefix(l, "Pages:"@) { parse_usize_spec(trim(l.skip(6))) } else { None };
        match n {
            Some(v) => Some(v),
            None => pages_in(ls.drop_first()),
        }
    }
}

/// The page count in `pdfinfo`'s report (its output, decoded lossily), or
/// one when there is none.
pub open spec fn page_count_spec(out: Seq<u8>) -> usize {
    match pages_in(lines_spec(lossy_text(out))) {
        Some(n) => n,
        None => 1,
    }
}

/// The page count in `pdfinfo`'s output.
pub fn page_count_from(out: &[u8]) -> (n: usize)
    ensures
        n == page_count_spec(out@),
{
    let text = utf8_lossy(out);
    let ls = split_lines(text.as_str());
    let ghost lv = ls@.map_values(|x: String| x@);
    let mut i: usize = 0;
    assert(lv.skip(0) =~= lv);
    while i < ls.len()
        invariant
            i <= ls@.len(),
            lv == ls@.map_values(|x: String| x@),
            lv == lines_spec(lossy_text(out@)),
            pages_in(lv) == pages_in(lv.skip(i as int)),
        decreases ls@.len() - i,
    {
        let v = chars_of(ls[i].as_str());
        let prefix = chars_of("Pages:");
        proof {
            reveal_strlit("Pages:");
        }
        assert(lv.skip(i as int)[0] == v@);
        assert(lv.skip(i as int).drop_first() =~= lv.skip(i + 1));
        if crate::text::starts_with(v.as_slice(), prefix.as_slice()) {
            let mut rest: Vec<char> = Vec::new();
            let mut k: usize = 6;
            while k < v.len()
                invariant
                    6 <= k <= v@.len(),
                    rest@ == v@.subrange(6, k as int),
                decreases v@.len() - k,
            {
                rest.push(v[k]);
                k = k + 1;
                assert(rest@ =~= v@.subrange(6, k as int));
            }
            assert(rest@ =~= v@.skip(6));
            let t = trimmed(rest.as_slice());
            match parse_usize(t.as_slice()) {
                Some(n) => return n,
                None => {},
            }
        }
        i = i + 1;
    }
    1
}

/// Pixel width to raster pages at: the terminal's pixel width, or eight
/// pixels per column when it reports none, within 400 to 1600; 1000 when the
/// size is unknown.
pub open spec fn target_px_spec(size: Option<(u16, u16)>) -> u32 {
    match size {
        Some((px, cols)) => {
            let w: int = if px > 0 { px as int } else { cols as int * 8 };
            (if w < 400 { 400 } else if w > 1600 { 1600 } else { w }) as u32
        },
        None => 1000,
    }
}

/// Pixel width to raster pages at, from the terminal's (pixel width,
/// columns), if known.
pub fn target_px(size: Option<(u16, u16)>) -> (w: u32)
    ensures
        w == target_px_spec(size),
{
    match size {
        Some((px, cols)) => {
            let w: u32 = if px > 0 { px as u32 } else { cols as u32 * 8 };
            if w < 400 { 400 } else if w > 1600 { 1600 } else { w }
        },
        None => 1000,
    }
}

/// What the caller does after a key.
#[derive(Clone, Copy, PartialEq, Eq, Structural)]
pub enum PdfCmd {
    Stay,
    Quit,
    /// Show this page (from the cache, or rastered).
    Load(usize),
}

/// The pager as values: page shown, page count, whether the last load failed,
/// and the cached pages, oldest first.
#[verifier::ext_equal]
pub struct PagerModel {
    pub page: usize,
    pub pages: usize,
    pub failed: bool,
    pub order: Seq<usize>,
}

/// The last page (the first when there are none).
pub open spec fn last_page(m: PagerModel) -> nat {
    if m.pages > 0 { (m.pages - 1) as nat } else { 0 }
}

/// Going to page `p`, held within the document: a load when the page changes
/// or the last load failed.
pub open spec fn goto_spec(m: PagerModel, p: nat) -> (PagerModel, PdfCmd) {
    let q: nat = if p < last_page(m) { p } else { last_page(m) };
    if q != m.page || m.failed {
        (PagerModel { page: q as usize, ..m }, PdfCmd::Load(q as usize))
    } else {
        (m, PdfCmd::Stay)
    }
}

/// A key.
pub open spec fn pdf_key_spec(m: PagerModel, k: Key) -> (PagerModel, PdfCmd) {
    if k == Key::Char('q') || k == Key::Esc {
        (m, PdfCmd::Quit)
    } else if k == Key::Char('j') || k == Key::Right || k == Key::Char(' ') || k == Key::PageDown {
        goto_spec(m, m.page as nat + 1)
    } else if k == Key::Char('k') || k == Key::Left || k == Key::PageUp {
        goto_spec(m, if m.page > 0 { (m.page - 1) as nat } else { 0 })
    } else if k == Key::Char('g') || k == Key::Home {
        goto_spec(m, 0)
    } else if k == Key::Char('G') || k == Key::End {
        goto_spec(m, m.pages as nat)
    } else {
        (m, PdfCmd::Stay)
    }
}

/// The page is within the document and the cache holds at most
/// `CACHE_MAX` pages.
pub open spec fn pager_wf(m: PagerModel) -> bool {
    m.page <= last_page(m) && m.order.len() <= 12
}

/// Paging through a PDF.
pub struct PdfPager {
    page: usize,
    pages: usize,
    failed: bool,
    order: Vec<usize>,
}

impl View for PdfPager {
    type V = PagerModel;

    closed spec fn view(&self) -> PagerModel {
        PagerModel { page: self.page, pages: self.pages, failed: self.failed, order: self.order@ }
    }
}

impl PdfPager {
    /// At the first page of a document of `pages` pages, nothing cached.
    pub fn new(pages: usize) -> (p: PdfPager)
        ensures
            p@ == (PagerModel { page: 0, pages, failed: false, order: Seq::empty() }),
            pager_wf(p@),
    {
        let p = PdfPager { page: 0, pages, failed: false, order: Vec::new() };
        assert(p@ =~= (PagerModel { page: 0, pages, failed: false, order: Seq::empty() }));
        p
    }

    fn goto(&mut self, p: usize) -> (c: PdfCmd)
        ensures
            (final(self)@, c) == goto_spec(old(self)@, p as nat),
    {
        let last: usize = if self.pages > 0 { self.pages - 1 } else { 0 };
        let q = if p < last { p } else { last };
        if q != self.page || self.failed {
            self.page = q;
            assert(self@ =~= goto_spec(old(self)@, p as nat).0);
            PdfCmd::Load(q)
        } else {
            PdfCmd::Stay
        }
    }

    /// Acts on a key.
    pub fn key(&mut self, k: Key) -> (c: PdfCmd)
        requires
            pager_wf(old(self)@),
        ensures
            (final(self)@, c) == pdf_key_spec(old(self)@, k),
            pager_wf(final(self)@),
    {
        if k == Key::Char('q') || k == Key::Esc {
            PdfCmd::Quit
        } else if k == Key::Char('j') || k == Key::Right || k == Key::Char(' ') || k == Key::PageDown {
            self.goto(self.page + 1)
        } else if k == Key::Char('k') || k == Key::Left || k == Key::PageUp {
            self.goto(if self.page > 0 { self.page - 1 } else { 0 })
        } else if k == Key::Char('g') || k == Key::Home {
            self.goto(0)
        } else if k == Key::Char('G') || k == Key::End {
            self.goto(self.pages)
        } else {
            PdfCmd::Stay
        }
    }

    /// Whether page `p` is cached.
    pub fn cached(&self, p: usize) -> (b: bool)
        ensures
            b == self@.order.contains(p),
    {
        let mut i: usize = 0;
        while i < self.order.len()
            invariant
                i <= self.order@.len(),
                forall|j: int| 0 <= j < i ==> self.order@[j] != p,
            decreases self.order@.len() - i,
        {
            if self.order[i] == p {
                assert(self.order@[i as int] == p);
                return true;
            }
            i = i + 1;
        }
        false
    }

    /// The page was shown from the cache.
    pub fn shown(&mut self)
        ensures
            final(self)@ == (PagerModel { failed: false, ..old(self)@ }),
    {
        self.failed = false;
        assert(self@ =~= (PagerModel { failed: false, ..old(self)@ }));
    }

    /// Rastering the page failed.
    pub fn fail(&mut self)
        ensures
            final(self)@ == (PagerModel { failed: true, ..old(self)@ }),
    {
        self.failed = true;
        assert(self@ =~= (PagerModel { failed: true, ..old(self)@ }));
    }

    /// Page `p` was rastered and shown: it joins the cache, and the oldest
    /// pages beyond `CACHE_MAX` leave it; returns those, oldest first.
    pub fn stored(&mut self, p: usize) -> (evicted: Vec<usize>)
        ensures
            final(self)@.page == old(self)@.page,
            final(self)@.pages == old(self)@.pages,
            !final(self)@.failed,
            evicted@ + final(self)@.order == old(self)@.order.push(p),
            final(self)@.order.len() == (if old(self)@.order.len() + 1 > 12 { 12 } else { old(self)@.order.len() + 1 }),
            pager_wf(old(self)@) ==> pager_wf(final(self)@),
    {
        self.failed = false;
        self.order.push(p);
        let ghost all = self.order@;
        let mut evicted: Vec<usize> = Vec::new();
        while self.order.len() > CACHE_MAX
            invariant
                evicted@ + self.order@ == all,
                all == old(self)@.order.push(p),
                self.order@.len() >= (if all.len() > 12 { 12 } else { all.len() }),
                self.page == old(self).page,
                self.pages == old(self).pages,
                !self.failed,
            decreases self.order@.len(),
        {
            let x = self.order.remove(0);
            evicted.push(x);
            assert(evicted@ + self.order@ =~= all);
        }
        evicted
    }

    pub fn page(&self) -> (p: usize)
        ensures
            p == self@.page,
    {
        self.page
    }

    pub fn pages(&self) -> (n: usize)
        ensures
            n == self@.pages,
    {
        self.pages
    }
}


/// Paging keys: `k`, Left and PageUp go back one page (on the first page
/// they stay); `j`, Right, space and PageDown go forward one page (on the last
/// page they stay); `g`/Home go to the first page and `G`/End to the last.
/// A page that changes is loaded; staying reloads only after a failed load.
/// `q` and Esc quit. Nothing else about the pager changes.
pub proof fn lemma_pdf_paging(m: PagerModel, k: Key)
    requires
        pager_wf(m),
    ensures
        ({
            let (r, c) = pdf_key_spec(m, k);
            let target: int =
                if k == Key::Char('k') || k == Key::Left || k == Key::PageUp {
                    if m.page > 0 { m.page - 1 } else { 0 }
                } else if k == Key::Char('j') || k == Key::Right || k == Key::Char(' ') || k == Key::PageDown {
                    if m.page < last_page(m) { m.page + 1 } else { m.page as int }
                } else if k == Key::Char('g') || k == Key::Home {
                    0
                } else if k == Key::Char('G') || k == Key::End {
                    last_page(m) as int
                } else {
                    m.page as int
                };
            let paging = !(k == Key::Char('q') || k == Key::Esc) && (
                k == Key::Char('k') || k == Key::Left || k == Key::PageUp || k == Key::Char('j') || k == Key::Right
                || k == Key::Char(' ') || k == Key::PageDown || k == Key::Char('g') || k == Key::Home
                || k == Key::Char('G') || k == Key::End);
            &&& (k == Key::Char('q') || k == Key::Esc) ==> r == m && c == PdfCmd::Quit
            &&& paging ==> {
                &&& r.page == target
                &&& r.pages == m.pages && r.failed == m.failed && r.order == m.order
                &&& (target != m.page || m.failed) ==> c == PdfCmd::Load(target as usize)
                &&& (target == m.page && !m.failed) ==> c == PdfCmd::Stay
            }
            &&& !paging && !(k == Key::Char('q') || k == Key::Esc) ==> r == m && c == PdfCmd::Stay
            &&& pager_wf(r)
        }),
{
}


/// The raster width always lies within 400 to 1600 pixels: the terminal's
/// pixel width when it reports one in that range, eight pixels per column
/// when it reports none, pulled into the range otherwise, and 1000 when the
/// terminal size is unknown.
pub proof fn lemma_target_px(px: u16, cols: u16)
    ensures
        400 <= target_px_spec(Some((px, cols))) <= 1600,
        (px > 0 && 400 <= px <= 1600) ==> target_px_spec(Some((px, cols))) == px,
        (px == 0 && 50 <= cols <= 200) ==> target_px_spec(Some((px, cols))) == cols * 8,
        px > 1600 ==> target_px_spec(Some((px, cols))) == 1600,
        (0 < px < 400) ==> target_px_spec(Some((px, cols))) == 400,
        target_px_spec(None) == 1000,
{
}

} // verus!
