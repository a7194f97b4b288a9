//! The interactive document viewer's state: scrolling, the table of contents
//! sidebar with jumps, search with next/previous match, and the link picker.
//! Drawing and the event loop stand outside; they hand keys in and act on the
//! returned action.
use vstd::prelude::*;
use crate::keys::Key;
use crate::markdown::{
    Line, LogV, Rendered, Style, eff_width, layout_spec, lemma_layout_text, lines_of, texts_of,
};
use crate::text::{contains_chars, contains_str, lowercase, lowercase_text, pad, pad_spec, pop_char, push_char, push_str};

verus! {

/// Width of the table of contents sidebar.
pub const TOC_W: u16 = 32;

/// What the keys act on.
#[derive(Clone, Copy, PartialEq, Eq, Structural)]
pub enum ViewMode {
    Doc,
    Toc,
    Search,
    Links,
    Help,
}

/// What the caller does after a key.
pub enum ViewAction {
    Stay,
    Quit,
    /// Open this URL in the default handler.
    Open(String),
}

/// An action, as values.
pub enum ActV {
    Stay,
    Quit,
    Open(Seq<char>),
}

impl View for ViewAction {
    type V = ActV;

    open spec fn view(&self) -> ActV {
        match self {
            ViewAction::Stay => ActV::Stay,
            ViewAction::Quit => ActV::Quit,
            ViewAction::Open(u) => ActV::Open(u@),
        }
    }
}

/// The viewer's state, as values.
#[verifier::ext_equal]
pub struct DocModel {
    pub logical: Seq<LogV>,
    pub toc: Seq<(u8, Seq<char>, nat)>,
    pub links: Seq<(Seq<char>, Seq<char>)>,
    pub display: Seq<Seq<(Seq<char>, Style)>>,
    pub plain: Seq<Seq<char>>,
    pub map: Seq<usize>,
    pub offset: usize,
    pub laid_width: u16,
    pub viewport_h: u16,
    pub mode: ViewMode,
    pub show_toc: bool,
    pub toc_sel: Option<usize>,
    pub link_sel: Option<usize>,
    pub query: Seq<char>,
    pub matches: Seq<usize>,
    pub match_cur: usize,
}

/// Display lines and text agree in number, the offset is within the lines,
/// and every match names a line.
pub open spec fn wf(m: DocModel) -> bool {
    &&& m.display.len() == m.plain.len()
    &&& m.offset <= m.display.len()
    &&& forall|i: int| 0 <= i < m.matches.len() ==> #[trigger] m.matches[i] < m.plain.len()
}

/// The last offset that still fills the viewport.
pub open spec fn max_offset(m: DocModel) -> nat {
    let v: nat = if m.viewport_h > 1 { m.viewport_h as nat } else { 1 };
    if m.display.len() > v { (m.display.len() - v) as nat } else { 0 }
}

/// Half a viewport, at least one line.
pub open spec fn half_page(m: DocModel) -> nat {
    let h = m.viewport_h / 2;
    if h > 1 { h as nat } else { 1 }
}

/// `a + b`, at most `hi`.
pub open spec fn add_to(a: nat, b: nat, hi: nat) -> nat {
    if a + b < hi { a + b } else { hi }
}

/// `a - b`, at least zero.
pub open spec fn sub_sat(a: nat, b: nat) -> nat {
    if a > b { (a - b) as nat } else { 0 }
}

/// Lines among the first `k` whose lowercase text holds `lq`.
pub open spec fn matches_upto(plain: Seq<Seq<char>>, lq: Seq<char>, k: nat) -> Seq<usize>
    decreases k,
{
    if k == 0 {
        Seq::empty()
    } else {
        let prev = matches_upto(plain, lq, (k - 1) as nat);
        if contains_chars(lowercase_text(plain[k - 1]), lq) { prev.push((k - 1) as usize) } else { prev }
    }
}

/// The lines that hold the query, ignoring case, in order; none for an empty
/// query.
pub open spec fn match_list(plain: Seq<Seq<char>>, query: Seq<char>) -> Seq<usize> {
    if query.len() == 0 { Seq::empty() } else { matches_upto(plain, lowercase_text(query), plain.len()) }
}

/// The matches found anew.
pub open spec fn recompute(m: DocModel) -> DocModel {
    DocModel { matches: match_list(m.plain, m.query), ..m }
}

/// Index of the first entry above `cur`.
pub open spec fn first_after(ms: Seq<usize>, cur: usize) -> Option<nat>
    decreases ms.len(),
{
    if ms.len() == 0 {
        None
    } else if ms[0] > cur {
        Some(0)
    } else {
        match first_after(ms.drop_first(), cur) {
            Some(i) => Some(i + 1),
            None => None,
        }
    }
}

/// Index of the last entry below `cur`.
pub open spec fn last_before(ms: Seq<usize>, cur: usize) -> Option<nat>
    decreases ms.len(),
{
    if ms.len() == 0 {
        None
    } else if ms.last() < cur {
        Some((ms.len() - 1) as nat)
    } else {
        last_before(ms.drop_last(), cur)
    }
}

/// Jumps to the next match below the offset (wrapping to the first), or the
/// previous one above it (wrapping to the last).
pub open spec fn jump(m: DocModel, forward: bool) -> DocModel {
    if m.matches.len() == 0 {
        m
    } else {
        let idx: nat = if forward {
            match first_after(m.matches, m.offset) {
                Some(i) => i,
                None => 0,
            }
        } else {
            match last_before(m.matches, m.offset) {
                Some(i) => i,
                None => (m.matches.len() - 1) as nat,
            }
        };
        DocModel { match_cur: idx as usize, offset: m.matches[idx as int], ..m }
    }
}

/// The offset pulled back to the last line.
pub open spec fn clamp(m: DocModel) -> DocModel {
    let mx = sub_sat(m.display.len(), 1);
    if m.offset > mx { DocModel { offset: mx as usize, ..m } } else { m }
}

/// First display line of each logical line.
pub open spec fn map_spec(ls: Seq<LogV>, w: nat) -> Seq<usize> {
    Seq::new(ls.len(), |i: int| layout_spec(ls.take(i), w).0.len() as usize)
}

/// The document laid out anew at `width` columns.
pub open spec fn relayout_spec(m: DocModel, width: u16) -> DocModel {
    let w = eff_width(width as nat);
    let l = layout_spec(m.logical, w);
    clamp(recompute(DocModel { display: l.0, plain: l.1, map: map_spec(m.logical, w), laid_width: width, ..m }))
}

/// Keys while reading.
pub open spec fn key_doc(m: DocModel, k: Key) -> (DocModel, ActV) {
    let mo = max_offset(m);
    let half = half_page(m);
    if k == Key::Char('q') || k == Key::Esc {
        (m, ActV::Quit)
    } else if k == Key::Char('j') || k == Key::Down {
        (DocModel { offset: add_to(m.offset as nat, 1, mo) as usize, ..m }, ActV::Stay)
    } else if k == Key::Char('k') || k == Key::Up {
        (DocModel { offset: sub_sat(m.offset as nat, 1) as usize, ..m }, ActV::Stay)
    } else if k == Key::Char('d') || k == Key::PageDown {
        (DocModel { offset: add_to(m.offset as nat, half, mo) as usize, ..m }, ActV::Stay)
    } else if k == Key::Char('u') || k == Key::PageUp {
        (DocModel { offset: sub_sat(m.offset as nat, half) as usize, ..m }, ActV::Stay)
    } else if k == Key::Char('g') || k == Key::Home {
        (DocModel { offset: 0, ..m }, ActV::Stay)
    } else if k == Key::Char('G') || k == Key::End {
        (DocModel { offset: mo as usize, ..m }, ActV::Stay)
    } else if k == Key::Char('t') {
        let sel = if m.toc_sel is None && m.toc.len() > 0 { Some(0usize) } else { m.toc_sel };
        (DocModel { show_toc: true, mode: ViewMode::Toc, toc_sel: sel, ..m }, ActV::Stay)
    } else if k == Key::Char('/') {
        (DocModel { mode: ViewMode::Search, query: Seq::empty(), ..m }, ActV::Stay)
    } else if k == Key::Char('n') {
        (jump(m, true), ActV::Stay)
    } else if k == Key::Char('N') {
        (jump(m, false), ActV::Stay)
    } else if k == Key::Char('l') {
        if m.links.len() > 0 {
            (DocModel { mode: ViewMode::Links, link_sel: Some(0usize), ..m }, ActV::Stay)
        } else {
            (m, ActV::Stay)
        }
    } else if k == Key::Char('?') {
        (DocModel { mode: ViewMode::Help, ..m }, ActV::Stay)
    } else {
        (m, ActV::Stay)
    }
}

/// Keys while typing a query.
pub open spec fn key_search(m: DocModel, k: Key) -> DocModel {
    match k {
        Key::Esc => DocModel { mode: ViewMode::Doc, ..m },
        Key::Enter => DocModel { mode: ViewMode::Doc, ..jump(recompute(m), true) },
        Key::Backspace => DocModel {
            query: if m.query.len() > 0 { m.query.drop_last() } else { m.query },
            ..m
        },
        Key::Char(c) => DocModel { query: m.query.push(c), ..m },
        _ => m,
    }
}

/// The selection moved down one entry of `n`, if there is one below.
pub open spec fn sel_down(sel: Option<usize>, n: nat) -> Option<usize> {
    let i: usize = match sel {
        Some(i) => i,
        None => 0,
    };
    if i + 1 < n { Some((i + 1) as usize) } else { sel }
}

/// The selection moved up one entry, stopping at the first.
pub open spec fn sel_up(sel: Option<usize>) -> Option<usize> {
    let i: usize = match sel {
        Some(i) => i,
        None => 0,
    };
    Some(sub_sat(i as nat, 1) as usize)
}

/// Keys in the table of contents.
pub open spec fn key_toc(m: DocModel, k: Key) -> DocModel {
    if k == Key::Esc || k == Key::Char('t') || k == Key::Char('q') {
        DocModel { show_toc: false, mode: ViewMode::Doc, ..m }
    } else if k == Key::Char('j') || k == Key::Down {
        DocModel { toc_sel: sel_down(m.toc_sel, m.toc.len()), ..m }
    } else if k == Key::Char('k') || k == Key::Up {
        DocModel { toc_sel: sel_up(m.toc_sel), ..m }
    } else if k == Key::Enter {
        match m.toc_sel {
            Some(i) => {
                let log = m.toc[i as int].2;
                let off = if log < m.map.len() { add_to(m.map[log as int] as nat, 0, max_offset(m)) as usize } else { m.offset };
                DocModel { offset: off, show_toc: false, mode: ViewMode::Doc, ..m }
            },
            None => m,
        }
    } else {
        m
    }
}

/// Keys in the link picker.
pub open spec fn key_links(m: DocModel, k: Key) -> (DocModel, ActV) {
    if k == Key::Esc || k == Key::Char('q') {
        (DocModel { mode: ViewMode::Doc, ..m }, ActV::Stay)
    } else if k == Key::Char('j') || k == Key::Down {
        (DocModel { link_sel: sel_down(m.link_sel, m.links.len()), ..m }, ActV::Stay)
    } else if k == Key::Char('k') || k == Key::Up {
        (DocModel { link_sel: sel_up(m.link_sel), ..m }, ActV::Stay)
    } else if k == Key::Enter {
        let a = match m.link_sel {
            Some(i) => ActV::Open(m.links[i as int].0),
            None => ActV::Stay,
        };
        (DocModel { mode: ViewMode::Doc, ..m }, a)
    } else {
        (m, ActV::Stay)
    }
}

/// A key, by mode; any key closes the help.
pub open spec fn handle_key_spec(m: DocModel, k: Key) -> (DocModel, ActV) {
    match m.mode {
        ViewMode::Search => (key_search(m, k), ActV::Stay),
        ViewMode::Toc => (key_toc(m, k), ActV::Stay),
        ViewMode::Links => key_links(m, k),
        ViewMode::Help => (DocModel { mode: ViewMode::Doc, ..m }, ActV::Stay),
        ViewMode::Doc => key_doc(m, k),
    }
}

/// Enter on a selection past the end of its list: the caller must not send
/// that key (the list is indexed with it).
pub open spec fn enter_out_of_range(m: DocModel, k: Key) -> bool {
    &&& k == Key::Enter
    &&& (m.mode == ViewMode::Toc && (m.toc_sel matches Some(i) && i >= m.toc.len())
        || m.mode == ViewMode::Links && (m.link_sel matches Some(i) && i >= m.links.len()))
}


// ------------------------------------------------------------------ exec ----

/// The lines of `plain` that hold `query`, ignoring case.
fn match_lines(plain: &Vec<String>, query: &str) -> (r: Vec<usize>)
    ensures
        r@ == match_list(texts_of(plain@), query@),
        forall|i: int| 0 <= i < r@.len() ==> #[trigger] r@[i] < plain@.len(),
{
    let mut r: Vec<usize> = Vec::new();
    if query.is_empty() {
        assert(query@.len() == 0);
        return r;
    }
    let q = lowercase(query);
    let ghost pv = texts_of(plain@);
    let mut i: usize = 0;
    while i < plain.len()
        invariant
            i <= plain@.len(),
            pv == texts_of(plain@),
            q@ == lowercase_text(query@),
            r@ == matches_upto(pv, q@, i as nat),
            forall|k: int| 0 <= k < r@.len() ==> #[trigger] r@[k] < i,
        decreases plain@.len() - i,
    {
        let l = lowercase(plain[i].as_str());
        assert(pv[i as int] == plain@[i as int]@);
        if contains_str(l.as_str(), q.as_str()) {
            r.push(i);
        }
        i = i + 1;
    }
    assert(query@.len() > 0);
    r
}

proof fn lemma_first_after(s: Seq<usize>, cur: usize, k: int)
    requires
        0 <= k <= s.len(),
        forall|i: int| 0 <= i < k ==> s[i] <= cur,
        k < s.len() ==> s[k] > cur,
    ensures
        first_after(s, cur) == (if k < s.len() { Some(k as nat) } else { None::<nat> }),
    decreases k,
{
    if s.len() > 0 && k > 0 {
        lemma_first_after(s.drop_first(), cur, k - 1);
    }
}

proof fn lemma_last_before(s: Seq<usize>, cur: usize, k: int)
    requires
        0 <= k <= s.len(),
        forall|i: int| k <= i < s.len() ==> s[i] >= cur,
        k > 0 ==> s[k - 1] < cur,
    ensures
        last_before(s, cur) == (if k > 0 { Some((k - 1) as nat) } else { None::<nat> }),
    decreases s.len(),
{
    if s.len() > 0 && k < s.len() {
        lemma_last_before(s.drop_last(), cur, k);
    }
}

/// The state of the document viewer.
pub struct DocView {
    doc: Rendered,
    display: Vec<Line>,
    plain: Vec<String>,
    log2disp: Vec<usize>,
    offset: usize,
    laid_width: u16,
    viewport_h: u16,
    mode: ViewMode,
    show_toc: bool,
    toc_sel: Option<usize>,
    link_sel: Option<usize>,
    query: String,
    matches: Vec<usize>,
    match_cur: usize,
}

impl View for DocView {
    type V = DocModel;

    closed spec fn view(&self) -> DocModel {
        DocModel {
            logical: self.doc.logical(),
            toc: self.doc.contents(),
            links: self.doc.link_table(),
            display: lines_of(self.display@),
            plain: texts_of(self.plain@),
            map: self.log2disp@,
            offset: self.offset,
            laid_width: self.laid_width,
            viewport_h: self.viewport_h,
            mode: self.mode,
            show_toc: self.show_toc,
            toc_sel: self.toc_sel,
            link_sel: self.link_sel,
            query: self.query@,
            matches: self.matches@,
            match_cur: self.match_cur,
        }
    }
}

impl DocView {
    /// A viewer on `doc`, not yet laid out, at the top, reading.
    pub fn new(doc: Rendered) -> (v: DocView)
        ensures
            v@.logical == doc.logical(),
            v@.toc == doc.contents(),
            v@.links == doc.link_table(),
            v@.display.len() == 0,
            v@.plain.len() == 0,
            v@.map.len() == 0,
            v@.offset == 0,
            v@.laid_width == 0,
            v@.viewport_h == 0,
            v@.mode == ViewMode::Doc,
            !v@.show_toc,
            v@.toc_sel is None,
            v@.link_sel is None,
            v@.query.len() == 0,
            v@.matches.len() == 0,
            v@.match_cur == 0,
            wf(v@),
    {
        DocView {
            doc,
            display: Vec::new(),
            plain: Vec::new(),
            log2disp: Vec::new(),
            offset: 0,
            laid_width: 0,
            viewport_h: 0,
            mode: ViewMode::Doc,
            show_toc: false,
            toc_sel: None,
            link_sel: None,
            query: String::new(),
            matches: Vec::new(),
            match_cur: 0,
        }
    }

    /// Columns for the document: the terminal width less the sidebar when
    /// shown, less the borders, at least eight.
    pub fn content_width(&self, total: u16) -> (w: u16)
        ensures
            w as nat == (if sub_sat(if self@.show_toc { sub_sat(total as nat, 32) } else { total as nat }, 2) > 8 {
                sub_sat(if self@.show_toc { sub_sat(total as nat, 32) } else { total as nat }, 2)
            } else {
                8
            }),
    {
        let avail: u16 = if self.show_toc {
            if total > TOC_W { total - TOC_W } else { 0 }
        } else {
            total
        };
        let inner: u16 = if avail > 2 { avail - 2 } else { 0 };
        if inner > 8 { inner } else { 8 }
    }

    fn max_offset(&self) -> (r: usize)
        ensures
            r as nat == max_offset(self@),
    {
        let v: usize = if self.viewport_h > 1 { self.viewport_h as usize } else { 1 };
        if self.display.len() > v { self.display.len() - v } else { 0 }
    }

    fn recompute_matches(&mut self)
        ensures
            final(self)@ == recompute(old(self)@),
            forall|i: int| 0 <= i < final(self)@.matches.len() ==> #[trigger] final(self)@.matches[i] < final(self)@.plain.len(),
    {
        self.matches = match_lines(&self.plain, self.query.as_str());
        assert(self@ =~= recompute(old(self)@));
    }

    fn jump_match(&mut self, forward: bool)
        ensures
            final(self)@ == jump(old(self)@, forward),
            wf(old(self)@) ==> wf(final(self)@),
    {
        let n = self.matches.len();
        if n == 0 {
            return;
        }
        let cur = self.offset;
        let idx: usize = if forward {
            let mut i: usize = 0;
            while i < n && self.matches[i] <= cur
                invariant
                    i <= n,
                    n == self.matches@.len(),
                    forall|k: int| 0 <= k < i ==> self.matches@[k] <= cur,
                decreases n - i,
            {
                i = i + 1;
            }
            proof {
                lemma_first_after(self.matches@, cur, i as int);
            }
            if i < n { i } else { 0 }
        } else {
            let mut i: usize = n;
            while i > 0 && self.matches[i - 1] >= cur
                invariant
                    i <= n,
                    n == self.matches@.len(),
                    forall|k: int| i <= k < n ==> self.matches@[k] >= cur,
                decreases i,
            {
                i = i - 1;
            }
            proof {
                lemma_last_before(self.matches@, cur, i as int);
            }
            if i > 0 { i - 1 } else { n - 1 }
        };
        self.match_cur = idx;
        self.offset = self.matches[idx];
        assert(self@ =~= jump(old(self)@, forward));
    }

    fn clamp(&mut self)
        ensures
            final(self)@ == clamp(old(self)@),
            final(self).offset <= final(self).display@.len(),
    {
        let mx: usize = if self.display.len() > 1 { self.display.len() - 1 } else { 0 };
        if self.offset > mx {
            self.offset = mx;
        }
        assert(self@ =~= clamp(old(self)@));
    }

    /// Lays the document out anew at `width` columns.
    pub fn relayout(&mut self, width: u16)
        ensures
            final(self)@ == relayout_spec(old(self)@, width),
            wf(final(self)@),
    {
        let (d, p, m) = self.doc.layout(width as usize);
        proof {
            lemma_layout_text(self.doc.logical(), eff_width(width as nat));
            assert(m@ =~= map_spec(self.doc.logical(), eff_width(width as nat)));
        }
        self.display = d;
        self.plain = p;
        self.log2disp = m;
        self.laid_width = width;
        self.recompute_matches();
        self.clamp();
        assert(self@ =~= relayout_spec(old(self)@, width));
    }

    fn key_doc(&mut self, k: Key) -> (a: ViewAction)
        requires
            old(self)@.mode == ViewMode::Doc,
        ensures
            (final(self)@, a@) == key_doc(old(self)@, k),
            wf(old(self)@) ==> wf(final(self)@),
    {
        let mo = self.max_offset();
        let h = self.viewport_h / 2;
        let half: usize = if h > 1 { h as usize } else { 1 };
        if k == Key::Char('q') || k == Key::Esc {
            return ViewAction::Quit;
        } else if k == Key::Char('j') || k == Key::Down {
            self.offset = if self.offset < mo { self.offset + 1 } else { mo };
        } else if k == Key::Char('k') || k == Key::Up {
            self.offset = if self.offset > 1 { self.offset - 1 } else { 0 };
        } else if k == Key::Char('d') || k == Key::PageDown {
            self.offset = if self.offset < mo && half < mo - self.offset { self.offset + half } else { mo };
        } else if k == Key::Char('u') || k == Key::PageUp {
            self.offset = if self.offset > half { self.offset - half } else { 0 };
        } else if k == Key::Char('g') || k == Key::Home {
            self.offset = 0;
        } else if k == Key::Char('G') || k == Key::End {
            self.offset = mo;
        } else if k == Key::Char('t') {
            self.show_toc = true;
            self.mode = ViewMode::Toc;
            if self.toc_sel.is_none() && self.doc.toc_len() > 0 {
                self.toc_sel = Some(0);
            }
        } else if k == Key::Char('/') {
            self.mode = ViewMode::Search;
            self.query = String::new();
        } else if k == Key::Char('n') {
            self.jump_match(true);
        } else if k == Key::Char('N') {
            self.jump_match(false);
        } else if k == Key::Char('l') {
            if self.doc.links_len() > 0 {
                self.mode = ViewMode::Links;
                self.link_sel = Some(0);
            }
        } else if k == Key::Char('?') {
            self.mode = ViewMode::Help;
        }
        assert(self@ =~= key_doc(old(self)@, k).0);
        ViewAction::Stay
    }

    fn key_search(&mut self, k: Key)
        requires
            old(self)@.mode == ViewMode::Search,
        ensures
            final(self)@ == key_search(old(self)@, k),
            wf(old(self)@) ==> wf(final(self)@),
    {
        match k {
            Key::Esc => {
                self.mode = ViewMode::Doc;
            },
            Key::Enter => {
                self.recompute_matches();
                self.jump_match(true);
                self.mode = ViewMode::Doc;
            },
            Key::Backspace => {
                let _ = pop_char(&mut self.query);
            },
            Key::Char(c) => {
                push_char(&mut self.query, c);
            },
            _ => {},
        }
        assert(self@ =~= key_search(old(self)@, k));
    }

    fn key_toc(&mut self, k: Key)
        requires
            old(self)@.mode == ViewMode::Toc,
            !enter_out_of_range(old(self)@, k),
        ensures
            final(self)@ == key_toc(old(self)@, k),
            wf(old(self)@) ==> wf(final(self)@),
    {
        let n = self.doc.toc_len();
        let i: usize = match self.toc_sel {
            Some(i) => i,
            None => 0,
        };
        if k == Key::Esc || k == Key::Char('t') || k == Key::Char('q') {
            self.show_toc = false;
            self.mode = ViewMode::Doc;
        } else if k == Key::Char('j') || k == Key::Down {
            if n > 0 && i < n - 1 {
                self.toc_sel = Some(i + 1);
            }
        } else if k == Key::Char('k') || k == Key::Up {
            self.toc_sel = Some(if i > 1 { i - 1 } else { 0 });
        } else if k == Key::Enter {
            match self.toc_sel {
                Some(i) => {
                    let log = self.doc.toc_line(i);
                    if log < self.log2disp.len() {
                        let d = self.log2disp[log];
                        let mo = self.max_offset();
                        self.offset = if d < mo { d } else { mo };
                    }
                    self.show_toc = false;
                    self.mode = ViewMode::Doc;
                },
                None => {},
            }
        }
        assert(self@ =~= key_toc(old(self)@, k));
    }

    fn key_links(&mut self, k: Key) -> (a: ViewAction)
        requires
            old(self)@.mode == ViewMode::Links,
            !enter_out_of_range(old(self)@, k),
        ensures
            (final(self)@, a@) == key_links(old(self)@, k),
    {
        let n = self.doc.links_len();
        let i: usize = match self.link_sel {
            Some(i) => i,
            None => 0,
        };
        let mut a = ViewAction::Stay;
        if k == Key::Esc || k == Key::Char('q') {
            self.mode = ViewMode::Doc;
        } else if k == Key::Char('j') || k == Key::Down {
            if n > 0 && i < n - 1 {
                self.link_sel = Some(i + 1);
            }
        } else if k == Key::Char('k') || k == Key::Up {
            self.link_sel = Some(if i > 1 { i - 1 } else { 0 });
        } else if k == Key::Enter {
            match self.link_sel {
                Some(i) => {
                    a = ViewAction::Open(self.doc.link_url(i));
                },
                None => {},
            }
            self.mode = ViewMode::Doc;
        }
        assert(self@ =~= key_links(old(self)@, k).0);
        a
    }

    /// Acts on a key; the returned action says whether to quit or open a
    /// link. The caller must not send Enter on a selection past the end of
    /// its list.
    pub fn handle_key(&mut self, k: Key) -> (a: ViewAction)
        requires
            wf(old(self)@),
            !enter_out_of_range(old(self)@, k),
        ensures
            (final(self)@, a@) == handle_key_spec(old(self)@, k),
            wf(final(self)@),
    {
        let a = match self.mode {
            ViewMode::Search => {
                self.key_search(k);
                ViewAction::Stay
            },
            ViewMode::Toc => {
                self.key_toc(k);
                ViewAction::Stay
            },
            ViewMode::Links => self.key_links(k),
            ViewMode::Help => {
                self.mode = ViewMode::Doc;
                ViewAction::Stay
            },
            ViewMode::Doc => self.key_doc(k),
        };
        assert(self@.display.len() == self@.plain.len());
        a
    }

    /// Whether `k` is Enter on a selection past the end of its list.
    pub fn enter_out_of_range(&self, k: Key) -> (r: bool)
        ensures
            r == enter_out_of_range(self@, k),
    {
        k == Key::Enter && (self.mode == ViewMode::Toc && match self.toc_sel {
            Some(i) => i >= self.doc.toc_len(),
            None => false,
        } || self.mode == ViewMode::Links && match self.link_sel {
            Some(i) => i >= self.doc.links_len(),
            None => false,
        })
    }

    /// The viewport is the document pane less its borders and status line.
    pub fn fit_viewport(&mut self, height: u16)
        ensures
            final(self)@ == (DocModel { viewport_h: sub_sat(height as nat, 3) as u16, ..old(self)@ }),
    {
        self.viewport_h = if height > 3 { height - 3 } else { 0 };
        assert(self@ =~= (DocModel { viewport_h: sub_sat(height as nat, 3) as u16, ..old(self)@ }));
    }

    /// The display lines in view: from the offset, a viewport's worth.
    pub fn visible(&self) -> (r: (usize, usize))
        requires
            wf(self@),
        ensures
            r.0 == self@.offset,
            r.1 as int == (if self@.offset + self@.viewport_h < self@.display.len() {
                self@.offset + self@.viewport_h
            } else {
                self@.display.len() as int
            }),
            r.0 <= r.1 <= self@.display.len(),
    {
        let n = self.display.len();
        let h = self.viewport_h as usize;
        let end: usize = if self.offset < n && h < n - self.offset { self.offset + h } else { n };
        (self.offset, end)
    }

    /// How display line `i` is highlighted: 2 for the current match, 1 for
    /// another match, 0 for none.
    pub fn highlight(&self, i: usize) -> (h: u8)
        ensures
            h == (if self@.matches.contains(i) {
                if self@.match_cur < self@.matches.len() && self@.matches[self@.match_cur as int] == i { 2u8 } else { 1u8 }
            } else {
                0u8
            }),
    {
        let mut k: usize = 0;
        let mut found = false;
        while k < self.matches.len()
            invariant
                k <= self.matches@.len(),
                found == (exists|j: int| 0 <= j < k && self.matches@[j] == i),
            decreases self.matches@.len() - k,
        {
            if self.matches[k] == i {
                found = true;
            }
            k = k + 1;
        }
        if !found {
            assert(!self@.matches.contains(i));
            return 0;
        }
        if self.match_cur < self.matches.len() && self.matches[self.match_cur] == i { 2 } else { 1 }
    }

    /// How far down the document the view is, in percent.
    pub fn scroll_percent(&self) -> (p: usize)
        requires
            self@.offset * 100 <= usize::MAX,
        ensures
            p as int == (if self@.display.len() <= 1 {
                100
            } else {
                let q = (self@.offset * 100) / (if max_offset(self@) > 1 { max_offset(self@) as int } else { 1 });
                if q < 100 { q } else { 100 }
            }),
    {
        if self.display.len() <= 1 {
            return 100;
        }
        let mo = self.max_offset();
        let d: usize = if mo > 1 { mo } else { 1 };
        let q = (self.offset * 100) / d;
        if q < 100 { q } else { 100 }
    }

    /// The list widget drew the table of contents and adjusted its selection.
    pub fn set_toc_selected(&mut self, sel: Option<usize>)
        ensures
            final(self)@ == (DocModel { toc_sel: sel, ..old(self)@ }),
    {
        self.toc_sel = sel;
        assert(self@ =~= (DocModel { toc_sel: sel, ..old(self)@ }));
    }

    /// The list widget drew the link picker and adjusted its selection.
    pub fn set_link_selected(&mut self, sel: Option<usize>)
        ensures
            final(self)@ == (DocModel { link_sel: sel, ..old(self)@ }),
    {
        self.link_sel = sel;
        assert(self@ =~= (DocModel { link_sel: sel, ..old(self)@ }));
    }

    pub fn mode(&self) -> (m: ViewMode)
        ensures
            m == self@.mode,
    {
        self.mode
    }

    pub fn show_toc(&self) -> (b: bool)
        ensures
            b == self@.show_toc,
    {
        self.show_toc
    }

    pub fn laid_width(&self) -> (w: u16)
        ensures
            w == self@.laid_width,
    {
        self.laid_width
    }

    pub fn offset(&self) -> (o: usize)
        ensures
            o == self@.offset,
    {
        self.offset
    }

    pub fn toc_selected(&self) -> (s: Option<usize>)
        ensures
            s == self@.toc_sel,
    {
        self.toc_sel
    }

    pub fn link_selected(&self) -> (s: Option<usize>)
        ensures
            s == self@.link_sel,
    {
        self.link_sel
    }

    pub fn match_count(&self) -> (n: usize)
        ensures
            n == self@.matches.len(),
    {
        self.matches.len()
    }

    /// The query being typed or last searched.
    pub fn query(&self) -> (q: &String)
        ensures
            q@ == self@.query,
    {
        &self.query
    }

    /// The display lines.
    pub fn display(&self) -> (d: &Vec<Line>)
        ensures
            lines_of(d@) == self@.display,
    {
        &self.display
    }

    /// The document.
    pub fn doc(&self) -> (d: &Rendered)
        ensures
            d.logical() == self@.logical,
            d.contents() == self@.toc,
            d.link_table() == self@.links,
    {
        &self.doc
    }
}



/// A table of contents entry: two spaces per level below the first, then
/// the title.
pub fn toc_label(level: u8, title: &str) -> (s: String)
    ensures
        s@ == crate::text::repeat("  "@, sub_sat(level as nat, 1)) + title@,
{
    let mut s = String::new();
    let n: usize = if level > 1 { (level - 1) as usize } else { 0 };
    crate::text::push_repeated(&mut s, "  ", n);
    push_str(&mut s, title);
    s
}

/// A link's text in the picker: cut and padded to twenty-four columns.
pub fn link_label(text: &str) -> (s: String)
    ensures
        s@ == pad_spec(text@, 24),
{
    pad(text, 24)
}

/// A rectangle of `pct_w` by `pct_h` percent of the area, centred in it.
/// The products of a side and its percentage must fit in `u16`.
pub fn centered(x: u16, y: u16, width: u16, height: u16, pct_w: u16, pct_h: u16) -> (r: (u16, u16, u16, u16))
    requires
        width * pct_w <= u16::MAX,
        height * pct_h <= u16::MAX,
        x + width / 2 <= u16::MAX,
        y + height / 2 <= u16::MAX,
    ensures
        r.2 == width * pct_w / 100,
        r.3 == height * pct_h / 100,
        r.0 == x + sub_sat(width as nat, r.2 as nat) / 2,
        r.1 == y + sub_sat(height as nat, r.3 as nat) / 2,
{
    let w = width * pct_w / 100;
    let h = height * pct_h / 100;
    let dx: u16 = if width > w { (width - w) / 2 } else { 0 };
    let dy: u16 = if height > h { (height - h) / 2 } else { 0 };
    (x + dx, y + dy, w, h)
}


proof fn lemma_first_after_in_range(s: Seq<usize>, cur: usize)
    ensures
        first_after(s, cur) matches Some(i) ==> i < s.len(),
    decreases s.len(),
{
    if s.len() > 0 {
        lemma_first_after_in_range(s.drop_first(), cur);
    }
}

proof fn lemma_last_before_in_range(s: Seq<usize>, cur: usize)
    ensures
        last_before(s, cur) matches Some(i) ==> i < s.len(),
    decreases s.len(),
{
    if s.len() > 0 {
        lemma_last_before_in_range(s.drop_last(), cur);
    }
}

/// A jump between matches, when there are any, brings the current match into
/// view at the top: the offset is the current match's line.
pub proof fn lemma_jump_shows_current(m: DocModel, forward: bool)
    requires
        m.matches.len() > 0,
        m.matches.len() <= usize::MAX,
    ensures
        jump(m, forward).match_cur < jump(m, forward).matches.len(),
        jump(m, forward).matches[jump(m, forward).match_cur as int] == jump(m, forward).offset,
        jump(m, forward).matches == m.matches,
{
    lemma_first_after_in_range(m.matches, m.offset);
    lemma_last_before_in_range(m.matches, m.offset);
}


proof fn lemma_first_after_spec(s: Seq<usize>, cur: usize)
    ensures
        first_after(s, cur) matches Some(i) ==> i < s.len() && s[i as int] > cur
            && forall|j: int| 0 <= j < i ==> #[trigger] s[j] <= cur,
        first_after(s, cur) is None ==> forall|j: int| 0 <= j < s.len() ==> #[trigger] s[j] <= cur,
    decreases s.len(),
{
    if s.len() > 0 {
        lemma_first_after_spec(s.drop_first(), cur);
        assert forall|j: int| 0 < j < s.len() implies #[trigger] s[j] == s.drop_first()[j - 1] by {}
    }
}

proof fn lemma_last_before_spec(s: Seq<usize>, cur: usize)
    ensures
        last_before(s, cur) matches Some(i) ==> i < s.len() && s[i as int] < cur
            && forall|j: int| i < j < s.len() ==> #[trigger] s[j] >= cur,
        last_before(s, cur) is None ==> forall|j: int| 0 <= j < s.len() ==> #[trigger] s[j] >= cur,
    decreases s.len(),
{
    if s.len() > 0 {
        lemma_last_before_spec(s.drop_last(), cur);
        assert forall|j: int| 0 <= j < s.len() - 1 implies #[trigger] s[j] == s.drop_last()[j] by {}
    }
}

/// With the matches in ascending order, jumping forward goes to the nearest
/// match below the offset, or wraps to the first match when there is none;
/// jumping backward goes to the nearest match above the offset, or wraps to
/// the last. The current match is the one jumped to, and nothing else moves.
pub proof fn lemma_jump_nearest(m: DocModel, forward: bool)
    requires
        m.matches.len() > 0,
        m.matches.len() <= usize::MAX,
        forall|i: int, j: int| 0 <= i <= j < m.matches.len() ==> #[trigger] m.matches[i] <= #[trigger] m.matches[j],
    ensures
        ({
            let r = jump(m, forward);
            let ms = m.matches;
            let o = m.offset;
            &&& r.match_cur < ms.len()
            &&& ms[r.match_cur as int] == r.offset
            &&& forward && (exists|i: int| 0 <= i < ms.len() && #[trigger] ms[i] > o) ==> {
                &&& r.offset > o
                &&& forall|i: int| 0 <= i < ms.len() && #[trigger] ms[i] > o ==> r.offset <= ms[i]
            }
            &&& forward && !(exists|i: int| 0 <= i < ms.len() && #[trigger] ms[i] > o) ==> r.offset == ms[0]
            &&& !forward && (exists|i: int| 0 <= i < ms.len() && #[trigger] ms[i] < o) ==> {
                &&& r.offset < o
                &&& forall|i: int| 0 <= i < ms.len() && #[trigger] ms[i] < o ==> ms[i] <= r.offset
            }
            &&& !forward && !(exists|i: int| 0 <= i < ms.len() && #[trigger] ms[i] < o) ==> r.offset == ms[ms.len() - 1]
            &&& r == DocModel { match_cur: r.match_cur, offset: r.offset, ..m }
        }),
{
    let ms = m.matches;
    let o = m.offset;
    lemma_first_after_spec(ms, o);
    lemma_last_before_spec(ms, o);
    if forward {
        match first_after(ms, o) {
            Some(i) => {
                assert forall|j: int| 0 <= j < ms.len() && #[trigger] ms[j] > o implies ms[i as int] <= ms[j] by {
                    if j < i {
                        assert(ms[j] <= o);
                    }
                }
            },
            None => {},
        }
    } else {
        match last_before(ms, o) {
            Some(i) => {
                assert forall|j: int| 0 <= j < ms.len() && #[trigger] ms[j] < o implies ms[j] <= ms[i as int] by {
                    if j > i {
                        assert(ms[j] >= o);
                    }
                }
            },
            None => {},
        }
    }
}

} // verus!
