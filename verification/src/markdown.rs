//! Markdown to a navigable document model. Parsing produces logical lines
//! (paragraphs, headings, code, rules, table rows) with a table of contents
//! and a link table keyed by logical-line index; `layout` wraps the logical
//! lines to a width, with blockquote gutters and list indentation, and maps
//! each logical line to its first display line.
use vstd::prelude::*;
use crate::text::{
    chars_of, string_of, push_str, push_char, push_char_repeated, is_whitespace, white_space,
    split_lines, lines_spec, pad_spec, pad,
};
use crate::md::{MdEvent, MdKind, MdParser, MdTag, md_events, md_view};

verus! {

/// A 24-bit colour.
#[derive(Clone, Copy, PartialEq, Eq, Structural)]
pub struct Rgb {
    pub r: u8,
    pub g: u8,
    pub b: u8,
}

/// How a piece of text is drawn.
#[derive(Clone, Copy, PartialEq, Eq, Structural)]
pub struct Style {
    pub fg: Option<Rgb>,
    pub bold: bool,
    pub italic: bool,
    pub underline: bool,
}

/// Headings.
pub open spec fn sky() -> Rgb { Rgb { r: 125, g: 211, b: 252 } }
/// Bullets and inline code.
pub open spec fn amber() -> Rgb { Rgb { r: 252, g: 211, b: 77 } }
/// Code blocks.
pub open spec fn mint() -> Rgb { Rgb { r: 110, g: 231, b: 183 } }
/// Links.
pub open spec fn link_blue() -> Rgb { Rgb { r: 96, g: 165, b: 250 } }
/// Rules, table borders, quote gutters.
pub open spec fn gray() -> Rgb { Rgb { r: 110, g: 110, b: 122 } }
/// Table cells.
pub open spec fn white() -> Rgb { Rgb { r: 220, g: 220, b: 228 } }

/// No colour, no emphasis.
pub open spec fn plain_style() -> Style {
    Style { fg: None, bold: false, italic: false, underline: false }
}

/// Only a foreground colour.
pub open spec fn fg_style(c: Rgb) -> Style {
    Style { fg: Some(c), bold: false, italic: false, underline: false }
}

fn rgb(r: u8, g: u8, b: u8) -> (c: Rgb)
    ensures
        c == (Rgb { r, g, b }),
{
    Rgb { r, g, b }
}

fn fg(c: Rgb) -> (s: Style)
    ensures
        s == fg_style(c),
{
    Style { fg: Some(c), bold: false, italic: false, underline: false }
}

/// Maximum width of a table column.
pub const CELL_MAX: usize = 28;

/// A token of a logical line: a styled word, or a single space.
pub enum Tok {
    Word(String, Style),
    Space,
}

/// What a token is, as text.
pub enum TokV {
    Word(Seq<char>, Style),
    Space,
}

impl View for Tok {
    type V = TokV;

    open spec fn view(&self) -> TokV {
        match self {
            Tok::Word(w, s) => TokV::Word(w@, *s),
            Tok::Space => TokV::Space,
        }
    }
}

/// The tokens of a run, as text.
pub open spec fn toks_view(v: Seq<Tok>) -> Seq<TokV> {
    v.map_values(|t: Tok| t@)
}

/// How a logical line is laid out.
#[derive(Clone, Copy, PartialEq, Eq, Structural)]
pub enum LineKind {
    /// Wrapped, with quote gutter and list indentation.
    Normal,
    /// Wrapped.
    Heading,
    /// One display line, not wrapped.
    Code,
    /// One display line, not wrapped (table rows).
    Pre,
    /// A horizontal rule.
    Rule,
    /// An empty line.
    Blank,
}

/// A logical line.
pub struct LogLine {
    toks: Vec<Tok>,
    kind: LineKind,
    indent: u16,
    quote: u8,
}

/// A logical line, as text.
pub struct LogV {
    pub toks: Seq<TokV>,
    pub kind: LineKind,
    pub indent: u16,
    pub quote: u8,
}

impl View for LogLine {
    type V = LogV;

    closed spec fn view(&self) -> LogV {
        LogV { toks: toks_view(self.toks@), kind: self.kind, indent: self.indent, quote: self.quote }
    }
}

/// The logical lines, as text.
pub open spec fn lines_view(v: Seq<LogLine>) -> Seq<LogV> {
    v.map_values(|l: LogLine| l@)
}

/// An entry of the table of contents: heading level, title, logical line.
pub struct TocEntry {
    pub level: u8,
    pub title: String,
    pub line: usize,
}

/// A link of the document: destination and text.
pub struct LinkRef {
    pub url: String,
    pub text: String,
}

// -------------------------------------------------------------- tokenize ----

/// Tokenizing state: tokens so far and the word being read.
pub struct TokState {
    pub toks: Seq<TokV>,
    pub word: Seq<char>,
}

/// One character: white space ends the current word and adds a space
/// (unless the tokens already end in one); anything else extends the word.
pub open spec fn tok_char(st: TokState, c: char, style: Style) -> TokState {
    if white_space(c) {
        let t1 = if st.word.len() > 0 { st.toks.push(TokV::Word(st.word, style)) } else { st.toks };
        let t2 = if t1.len() > 0 && t1.last() is Space { t1 } else { t1.push(TokV::Space) };
        TokState { toks: t2, word: Seq::empty() }
    } else {
        TokState { toks: st.toks, word: st.word.push(c) }
    }
}

/// The state after the characters of `text`.
pub open spec fn tok_run(toks: Seq<TokV>, text: Seq<char>, style: Style) -> TokState
    decreases text.len(),
{
    if text.len() == 0 {
        TokState { toks, word: Seq::empty() }
    } else {
        tok_char(tok_run(toks, text.drop_last(), style), text.last(), style)
    }
}

/// `toks` followed by the tokens of `text`: words separated by single spaces.
pub open spec fn tokenize_spec(toks: Seq<TokV>, text: Seq<char>, style: Style) -> Seq<TokV> {
    let st = tok_run(toks, text, style);
    if st.word.len() > 0 { st.toks.push(TokV::Word(st.word, style)) } else { st.toks }
}

/// Appends the tokens of `text` to `cur`.
pub fn tokenize(cur: &mut Vec<Tok>, text: &str, style: Style)
    ensures
        toks_view(final(cur)@) == tokenize_spec(toks_view(old(cur)@), text@, style),
{
    let v = chars_of(text);
    let ghost t0 = toks_view(cur@);
    let mut word: Vec<char> = Vec::new();
    let mut i: usize = 0;
    while i < v.len()
        invariant
            i <= v@.len(),
            v@ == text@,
            tok_run(t0, v@.take(i as int), style) == (TokState { toks: toks_view(cur@), word: word@ }),
        decreases v@.len() - i,
    {
        let c = v[i];
        assert(v@.take(i + 1).drop_last() =~= v@.take(i as int));
        if is_whitespace(c) {
            if word.len() > 0 {
                cur.push(Tok::Word(string_of(word.as_slice()), style));
                word = Vec::new();
            }
            let ends_in_space = cur.len() > 0 && matches!(cur[cur.len() - 1], Tok::Space);
            if !ends_in_space {
                cur.push(Tok::Space);
            }
        } else {
            word.push(c);
        }
        i = i + 1;
        assert(toks_view(cur@) =~= tok_run(t0, v@.take(i as int), style).toks);
        assert(word@ =~= tok_run(t0, v@.take(i as int), style).word);
    }
    assert(v@.take(v@.len() as int) =~= v@);
    if word.len() > 0 {
        cur.push(Tok::Word(string_of(word.as_slice()), style));
    }
    assert(toks_view(cur@) =~= tokenize_spec(t0, text@, style));
}

// --------------------------------------------------------------- builder ----

/// The state of turning markdown events into logical lines.
#[verifier::ext_equal]
pub struct BModel {
    pub lines: Seq<LogV>,
    pub toc: Seq<(u8, Seq<char>, nat)>,
    pub links: Seq<(Seq<char>, Seq<char>)>,
    pub cur: Seq<TokV>,
    pub strong: u32,
    pub emph: u32,
    pub in_heading: Option<u8>,
    pub heading_title: Seq<char>,
    pub link_url: Option<Seq<char>>,
    pub link_text: Seq<char>,
    pub in_code: bool,
    pub list_depth: u16,
    pub quote_depth: u8,
    pub in_table: bool,
    pub in_cell: bool,
    pub cur_cell: Seq<char>,
    pub cur_row: Seq<Seq<char>>,
    pub table: Seq<Seq<Seq<char>>>,
    pub header_cols: nat,
}

/// Nothing read yet.
pub open spec fn b_init() -> BModel {
    BModel {
        lines: Seq::empty(),
        toc: Seq::empty(),
        links: Seq::empty(),
        cur: Seq::empty(),
        strong: 0,
        emph: 0,
        in_heading: None,
        heading_title: Seq::empty(),
        link_url: None,
        link_text: Seq::empty(),
        in_code: false,
        list_depth: 0,
        quote_depth: 0,
        in_table: false,
        in_cell: false,
        cur_cell: Seq::empty(),
        cur_row: Seq::empty(),
        table: Seq::empty(),
        header_cols: 0,
    }
}

/// Nesting counters count up and wrap around at their type's bound, as the
/// release build's arithmetic does.
pub open spec fn inc32(x: u32) -> u32 { if x == u32::MAX { 0 } else { (x + 1) as u32 } }
pub open spec fn inc16(x: u16) -> u16 { if x == u16::MAX { 0 } else { (x + 1) as u16 } }
pub open spec fn inc8(x: u8) -> u8 { if x == u8::MAX { 0 } else { (x + 1) as u8 } }
pub open spec fn dec32(x: u32) -> u32 { if x == 0 { 0 } else { (x - 1) as u32 } }
pub open spec fn dec16(x: u16) -> u16 { if x == 0 { 0 } else { (x - 1) as u16 } }
pub open spec fn dec8(x: u8) -> u8 { if x == 0 { 0 } else { (x - 1) as u8 } }

/// Indentation of list items: two columns per level below the first
/// (wrapping at the bound of `u16`).
pub open spec fn indent_of(depth: u16) -> u16 {
    let k = dec16(depth);
    if k >= 32768 { ((k - 32768) * 2) as u16 } else { (k * 2) as u16 }
}

/// Style of running text: headings, then links, then bold/italic nesting.
pub open spec fn style_of(m: BModel) -> Style {
    if m.in_heading is Some {
        Style { fg: Some(sky()), bold: true, italic: false, underline: false }
    } else if m.link_url is Some {
        Style { fg: Some(link_blue()), bold: false, italic: false, underline: true }
    } else {
        Style { fg: None, bold: m.strong > 0, italic: m.emph > 0, underline: false }
    }
}

/// The current tokens become a logical line of `kind` (an empty normal line
/// is not written).
pub open spec fn finish(m: BModel, kind: LineKind) -> BModel {
    if m.cur.len() == 0 && kind == LineKind::Normal {
        m
    } else {
        BModel {
            lines: m.lines.push(LogV { toks: m.cur, kind, indent: indent_of(m.list_depth), quote: m.quote_depth }),
            cur: Seq::empty(),
            ..m
        }
    }
}

/// A line of `toks` written as is, unindented.
pub open spec fn push_raw(m: BModel, toks: Seq<TokV>, kind: LineKind) -> BModel {
    BModel { lines: m.lines.push(LogV { toks, kind, indent: 0, quote: m.quote_depth }), ..m }
}

/// An empty line.
pub open spec fn blank(m: BModel) -> BModel {
    BModel {
        lines: m.lines.push(LogV { toks: Seq::empty(), kind: LineKind::Blank, indent: 0, quote: 0 }),
        ..m
    }
}

/// Each line of a code block text becomes a code line, indented by four spaces.
pub open spec fn code_lines(m: BModel, ls: Seq<Seq<char>>) -> BModel
    decreases ls.len(),
{
    if ls.len() == 0 {
        m
    } else {
        push_raw(code_lines(m, ls.drop_last()), seq![TokV::Word("    "@ + ls.last(), fg_style(mint()))], LineKind::Code)
    }
}

/// List items are indented two columns per level below the first.
pub proof fn lemma_list_indent(depth: u16)
    requires
        1 <= depth <= 32768,
    ensures
        indent_of(depth) == 2 * (depth - 1),
{
}

/// A code block's text becomes one code line per line of text, in order,
/// each indented by four spaces and drawn in the code color; nothing else
/// changes.
pub proof fn lemma_code_lines(m: BModel, ls: Seq<Seq<char>>)
    ensures
        code_lines(m, ls).lines.len() == m.lines.len() + ls.len(),
        code_lines(m, ls).lines.take(m.lines.len() as int) == m.lines,
        forall|i: int| 0 <= i < ls.len() ==> #[trigger] code_lines(m, ls).lines[m.lines.len() + i] == (LogV {
            toks: seq![TokV::Word("    "@ + ls[i], fg_style(mint()))],
            kind: LineKind::Code,
            indent: 0,
            quote: m.quote_depth,
        }),
        code_lines(m, ls) == (BModel { lines: code_lines(m, ls).lines, ..m }),
    decreases ls.len(),
{
    if ls.len() > 0 {
        lemma_code_lines(m, ls.drop_last());
        let prev = code_lines(m, ls.drop_last());
        let r = code_lines(m, ls);
        assert(r.lines.take(m.lines.len() as int) =~= prev.lines.take(m.lines.len() as int));
        assert forall|i: int| 0 <= i < ls.len() implies #[trigger] r.lines[m.lines.len() + i] == (LogV {
            toks: seq![TokV::Word("    "@ + ls[i], fg_style(mint()))],
            kind: LineKind::Code,
            indent: 0,
            quote: m.quote_depth,
        }) by {
            if i < ls.len() - 1 {
                assert(r.lines[m.lines.len() + i] == prev.lines[m.lines.len() + i]);
                assert(ls.drop_last()[i] == ls[i]);
            }
        }
    }
}

/// The start of an element.
pub open spec fn md_start(m: BModel, t: MdTag, url: Seq<char>) -> BModel {
    match t {
        MdTag::Heading(l) => BModel { in_heading: Some(l), heading_title: Seq::empty(), cur: Seq::empty(), ..m },
        MdTag::Strong => BModel { strong: inc32(m.strong), ..m },
        MdTag::Emphasis => BModel { emph: inc32(m.emph), ..m },
        MdTag::BlockQuote => {
            let m1 = finish(m, LineKind::Normal);
            BModel { quote_depth: inc8(m1.quote_depth), ..m1 }
        },
        MdTag::List => {
            let m1 = finish(m, LineKind::Normal);
            BModel { list_depth: inc16(m1.list_depth), ..m1 }
        },
        MdTag::Item => BModel { cur: m.cur.push(TokV::Word(seq!['\u{2022}'], fg_style(amber()))).push(TokV::Space), ..m },
        MdTag::Link => BModel { link_url: Some(url), link_text: Seq::empty(), ..m },
        MdTag::CodeBlock => BModel { in_code: true, ..finish(m, LineKind::Normal) },
        MdTag::Table => BModel {
            in_table: true,
            table: Seq::empty(),
            header_cols: 0,
            ..finish(m, LineKind::Normal)
        },
        MdTag::TableHead => BModel { cur_row: Seq::empty(), ..m },
        MdTag::TableRow => BModel { cur_row: Seq::empty(), ..m },
        MdTag::TableCell => BModel { in_cell: true, cur_cell: Seq::empty(), ..m },
        _ => m,
    }
}

/// Running text.
pub open spec fn md_text(m: BModel, x: Seq<char>) -> BModel {
    if m.in_heading is Some {
        BModel { heading_title: m.heading_title + x, cur: tokenize_spec(m.cur, x, style_of(m)), ..m }
    } else if m.link_url is Some {
        BModel { link_text: m.link_text + x, cur: tokenize_spec(m.cur, x, style_of(m)), ..m }
    } else if m.in_code {
        code_lines(m, lines_spec(x))
    } else {
        BModel { cur: tokenize_spec(m.cur, x, style_of(m)), ..m }
    }
}

/// The style of a token, for a word; none for a space.
pub open spec fn word_style(t: TokV) -> Option<Style> {
    match t {
        TokV::Word(_, s) => Some(s),
        TokV::Space => None,
    }
}

proof fn lemma_tok_run_styles(toks: Seq<TokV>, text: Seq<char>, style: Style)
    ensures
        tok_run(toks, text, style).toks.len() >= toks.len(),
        tok_run(toks, text, style).toks.take(toks.len() as int) == toks,
        forall|i: int| toks.len() <= i < tok_run(toks, text, style).toks.len()
            ==> word_style(#[trigger] tok_run(toks, text, style).toks[i]) is None
                || word_style(tok_run(toks, text, style).toks[i]) == Some(style),
    decreases text.len(),
{
    if text.len() > 0 {
        lemma_tok_run_styles(toks, text.drop_last(), style);
        let st = tok_run(toks, text.drop_last(), style);
        let n = tok_run(toks, text, style);
        assert(n.toks.take(st.toks.len() as int) == st.toks) by {
            let c = text.last();
            if white_space(c) {
                let t1 = if st.word.len() > 0 { st.toks.push(TokV::Word(st.word, style)) } else { st.toks };
                assert(t1.take(st.toks.len() as int) =~= st.toks);
                assert(n.toks.take(st.toks.len() as int) =~= st.toks);
            } else {
                assert(n.toks.take(st.toks.len() as int) =~= st.toks);
            }
        }
        assert(n.toks.take(toks.len() as int) =~= st.toks.take(toks.len() as int));
        assert forall|i: int| toks.len() <= i < n.toks.len() implies word_style(#[trigger] n.toks[i]) is None
            || word_style(n.toks[i]) == Some(style) by {
            if i < st.toks.len() {
                assert(n.toks[i] == n.toks.take(st.toks.len() as int)[i]);
            }
        }
    }
}

proof fn lemma_tokenize_styles(toks: Seq<TokV>, text: Seq<char>, style: Style)
    ensures
        tokenize_spec(toks, text, style).len() >= toks.len(),
        tokenize_spec(toks, text, style).take(toks.len() as int) == toks,
        forall|i: int| toks.len() <= i < tokenize_spec(toks, text, style).len()
            ==> word_style(#[trigger] tokenize_spec(toks, text, style)[i]) is None
                || word_style(tokenize_spec(toks, text, style)[i]) == Some(style),
{
    lemma_tok_run_styles(toks, text, style);
    let st = tok_run(toks, text, style);
    let r = tokenize_spec(toks, text, style);
    if st.word.len() > 0 {
        assert(r.take(toks.len() as int) =~= st.toks.take(toks.len() as int));
        assert forall|i: int| toks.len() <= i < r.len() implies word_style(#[trigger] r[i]) is None
            || word_style(r[i]) == Some(style) by {
            if i < st.toks.len() {
                assert(r[i] == st.toks[i]);
            }
        }
    }
}

/// Running text keeps the words before it and is styled by where it stands:
/// in a heading, bold in the heading color; in a link, underlined in the link
/// color; elsewhere (outside code blocks) bold exactly inside strong text and
/// italic exactly inside emphasis, with no color and no underline.
pub proof fn lemma_text_style(m: BModel, x: Seq<char>)
    requires
        m.in_heading is Some || m.link_url is Some || !m.in_code,
    ensures
        ({
            let r = md_text(m, x);
            &&& r.cur.len() >= m.cur.len()
            &&& r.cur.take(m.cur.len() as int) == m.cur
            &&& forall|i: int| m.cur.len() <= i < r.cur.len() && (#[trigger] word_style(r.cur[i])) is Some ==> {
                let s = word_style(r.cur[i])->0;
                &&& m.in_heading is Some ==> s.bold && !s.italic && !s.underline && s.fg == Some(sky())
                &&& (m.in_heading is None && m.link_url is Some) ==> s.underline && !s.bold && !s.italic
                    && s.fg == Some(link_blue())
                &&& (m.in_heading is None && m.link_url is None) ==> {
                    &&& s.italic == (m.emph > 0)
                    &&& s.bold == (m.strong > 0)
                    &&& !s.underline
                    &&& s.fg is None
                }
            }
        }),
{
    lemma_tokenize_styles(m.cur, x, style_of(m));
}

/// Text inside emphasis is italic: after an emphasis starts (below the
/// nesting counter's bound), running text outside headings, links and code
/// blocks gets italic words; with no emphasis open, its words are not italic.
pub proof fn lemma_emphasis_italic(m: BModel, url: Seq<char>, x: Seq<char>)
    requires
        m.in_heading is None,
        m.link_url is None,
        !m.in_code,
    ensures
        m.emph < u32::MAX ==> ({
            let e = md_start(m, MdTag::Emphasis, url);
            let r = md_text(e, x);
            forall|i: int| m.cur.len() <= i < r.cur.len() && (#[trigger] word_style(r.cur[i])) is Some
                ==> word_style(r.cur[i])->0.italic
        }),
        m.emph == 0 ==> ({
            let r = md_text(m, x);
            forall|i: int| m.cur.len() <= i < r.cur.len() && (#[trigger] word_style(r.cur[i])) is Some
                ==> !word_style(r.cur[i])->0.italic
        }),
{
    lemma_text_style(m, x);
    lemma_text_style(md_start(m, MdTag::Emphasis, url), x);
}

// ----------------------------------------------------------------- tables ----

/// Display width of a table cell: its character count, at most `CELL_MAX`.
pub open spec fn cell_width(c: Seq<char>) -> nat {
    if c.len() < 28 { c.len() } else { 28 }
}

/// Width of column `i`: its widest cell over all rows.
pub open spec fn col_width(rows: Seq<Seq<Seq<char>>>, i: int) -> nat
    decreases rows.len(),
{
    if rows.len() == 0 {
        0
    } else {
        let w = col_width(rows.drop_last(), i);
        let r = rows.last();
        let c = if 0 <= i < r.len() { cell_width(r[i]) } else { 0 };
        if c > w { c } else { w }
    }
}

/// Number of cells of the widest row.
pub open spec fn ncols_of(rows: Seq<Seq<Seq<char>>>) -> nat
    decreases rows.len(),
{
    if rows.len() == 0 {
        0
    } else {
        let m = ncols_of(rows.drop_last());
        if rows.last().len() > m { rows.last().len() } else { m }
    }
}

/// The widths of the columns.
pub open spec fn col_widths(rows: Seq<Seq<Seq<char>>>) -> Seq<nat> {
    Seq::new(ncols_of(rows), |i: int| col_width(rows, i))
}

/// The first `k` column segments of a border line: a run of `─` two wider
/// than the column, then `mid` (or `right` after the last column).
pub open spec fn border_segs(ws: Seq<nat>, k: nat, mid: char, right: char) -> Seq<char>
    decreases k,
{
    if k == 0 {
        Seq::empty()
    } else {
        border_segs(ws, (k - 1) as nat, mid, right) + Seq::new(ws[k - 1] + 2, |i: int| '\u{2500}')
            + seq![if k == ws.len() { right } else { mid }]
    }
}

/// A border line of the table.
pub open spec fn border(ws: Seq<nat>, left: char, mid: char, right: char) -> Seq<char> {
    seq![left] + border_segs(ws, ws.len(), mid, right)
}

/// Cell `i` of a row, empty past its end.
pub open spec fn row_cell(row: Seq<Seq<char>>, i: int) -> Seq<char> {
    if 0 <= i < row.len() { row[i] } else { Seq::empty() }
}

/// The first `k` cells of a table line, each padded to its column.
pub open spec fn row_segs(row: Seq<Seq<char>>, ws: Seq<nat>, k: nat) -> Seq<char>
    decreases k,
{
    if k == 0 {
        Seq::empty()
    } else {
        row_segs(row, ws, (k - 1) as nat) + seq![' '] + pad_spec(row_cell(row, k - 1), ws[k - 1])
            + seq![' ', '\u{2502}']
    }
}

/// A table line.
pub open spec fn data_row(row: Seq<Seq<char>>, ws: Seq<nat>) -> Seq<char> {
    seq!['\u{2502}'] + row_segs(row, ws, ws.len())
}

/// A table drawn as a box: top border, each row (with a separator after the
/// first when it is a header), bottom border.
pub open spec fn table_rows_lines(rows: Seq<Seq<Seq<char>>>, ws: Seq<nat>, header: bool, k: nat) -> Seq<(Seq<char>, Style)>
    decreases k,
{
    if k == 0 {
        Seq::empty()
    } else {
        let before = table_rows_lines(rows, ws, header, (k - 1) as nat);
        let line = before.push((data_row(rows[k - 1], ws), fg_style(white())));
        if k == 1 && header {
            line.push((border(ws, '\u{251c}', '\u{253c}', '\u{2524}'), fg_style(gray())))
        } else {
            line
        }
    }
}

/// The lines of a table, with their styles.
pub open spec fn table_lines(rows: Seq<Seq<Seq<char>>>, header: bool) -> Seq<(Seq<char>, Style)> {
    let ws = col_widths(rows);
    seq![(border(ws, '\u{250c}', '\u{252c}', '\u{2510}'), fg_style(gray()))]
        + table_rows_lines(rows, ws, header, rows.len())
        + seq![(border(ws, '\u{2514}', '\u{2534}', '\u{2518}'), fg_style(gray()))]
}

/// Characters of a table line over the first `k` columns: the left edge, then
/// for each column its width and three more (a space each side and an edge).
pub open spec fn table_width(ws: Seq<nat>, k: nat) -> nat
    decreases k,
{
    if k == 0 { 1 } else { table_width(ws, (k - 1) as nat) + ws[k - 1] + 3 }
}

proof fn lemma_border_len(ws: Seq<nat>, k: nat, mid: char, right: char)
    requires
        k <= ws.len(),
    ensures
        border_segs(ws, k, mid, right).len() + 1 == table_width(ws, k),
    decreases k,
{
    if k > 0 {
        lemma_border_len(ws, (k - 1) as nat, mid, right);
    }
}

proof fn lemma_row_segs_len(row: Seq<Seq<char>>, ws: Seq<nat>, k: nat)
    requires
        k <= ws.len(),
        forall|i: int| 0 <= i < k ==> cell_width(#[trigger] row_cell(row, i)) <= ws[i],
    ensures
        row_segs(row, ws, k).len() + 1 == table_width(ws, k),
    decreases k,
{
    if k > 0 {
        lemma_row_segs_len(row, ws, (k - 1) as nat);
        let c = row_cell(row, k - 1);
        let w = ws[k - 1];
        assert(cell_width(c) <= w);
        if w >= 1 {
            crate::text::lemma_pad_width(c, w);
        } else {
            assert(c.len() == 0);
            assert(pad_spec(c, w) =~= Seq::<char>::empty());
        }
    }
}

proof fn lemma_col_width_ge(rows: Seq<Seq<Seq<char>>>, r: int, i: int)
    requires
        0 <= r < rows.len(),
        0 <= i < rows[r].len(),
    ensures
        cell_width(rows[r][i]) <= col_width(rows, i),
    decreases rows.len(),
{
    if r < rows.len() - 1 {
        lemma_col_width_ge(rows.drop_last(), r, i);
        assert(rows.drop_last()[r] == rows[r]);
    }
}

proof fn lemma_table_rows_lines(rows: Seq<Seq<Seq<char>>>, ws: Seq<nat>, header: bool, k: nat, w: nat)
    requires
        k <= rows.len(),
        forall|r: int| 0 <= r < rows.len() ==> (#[trigger] data_row(rows[r], ws)).len() == w,
        border(ws, '\u{251c}', '\u{253c}', '\u{2524}').len() == w,
    ensures
        table_rows_lines(rows, ws, header, k).len() == k + (if header && k >= 1 { 1int } else { 0int }),
        forall|j: int| 0 <= j < table_rows_lines(rows, ws, header, k).len()
            ==> (#[trigger] table_rows_lines(rows, ws, header, k)[j]).0.len() == w,
        forall|r: int| 0 <= r < k ==> table_rows_lines(rows, ws, header, k)[r + (if header && r >= 1 { 1int } else { 0int })].0
            == #[trigger] data_row(rows[r], ws),
        header && k >= 1 ==> table_rows_lines(rows, ws, header, k)[1].0 == border(ws, '\u{251c}', '\u{253c}', '\u{2524}'),
    decreases k,
{
    if k > 0 {
        lemma_table_rows_lines(rows, ws, header, (k - 1) as nat, w);
        let before = table_rows_lines(rows, ws, header, (k - 1) as nat);
        let t = table_rows_lines(rows, ws, header, k);
        assert(data_row(rows[k - 1], ws).len() == w);
        assert forall|r: int| 0 <= r < k implies t[r + (if header && r >= 1 { 1int } else { 0int })].0
            == #[trigger] data_row(rows[r], ws) by {
            if r < k - 1 {
                assert(t[r + (if header && r >= 1 { 1int } else { 0int })] == before[r + (if header && r >= 1 { 1int } else { 0int })]);
            }
        }
        assert forall|j: int| 0 <= j < t.len() implies (#[trigger] t[j]).0.len() == w by {
            if j < before.len() {
                assert(t[j] == before[j]);
            }
        }
    }
}

/// A table with at least one cell is drawn as a top border, one line per row
/// in order with a separator after the first row when it is a header, and a
/// bottom border; every line has the same number of characters: the left
/// edge, then for each column its width (its widest cell, at most
/// `CELL_MAX`) and three more.
pub proof fn lemma_table_shape(rows: Seq<Seq<Seq<char>>>, header: bool)
    requires
        ncols_of(rows) > 0,
    ensures
        ({
            let t = table_lines(rows, header);
            let ws = col_widths(rows);
            &&& t.len() == rows.len() + 2 + (if header { 1int } else { 0int })
            &&& forall|j: int| 0 <= j < t.len() ==> (#[trigger] t[j]).0.len() == table_width(ws, ws.len())
            &&& t[0].0 == border(ws, '\u{250c}', '\u{252c}', '\u{2510}')
            &&& t[t.len() - 1].0 == border(ws, '\u{2514}', '\u{2534}', '\u{2518}')
            &&& forall|r: int| 0 <= r < rows.len() ==> t[1 + r + (if header && r >= 1 { 1int } else { 0int })].0
                == #[trigger] data_row(rows[r], ws)
            &&& header ==> t[2].0 == border(ws, '\u{251c}', '\u{253c}', '\u{2524}')
        }),
{
    let ws = col_widths(rows);
    let w = table_width(ws, ws.len());
    assert(rows.len() > 0);
    lemma_border_len(ws, ws.len(), '\u{252c}', '\u{2510}');
    lemma_border_len(ws, ws.len(), '\u{2534}', '\u{2518}');
    lemma_border_len(ws, ws.len(), '\u{253c}', '\u{2524}');
    assert forall|r: int| 0 <= r < rows.len() implies (#[trigger] data_row(rows[r], ws)).len() == w by {
        assert forall|i: int| 0 <= i < ws.len() implies cell_width(#[trigger] row_cell(rows[r], i)) <= ws[i] by {
            if i < rows[r].len() {
                lemma_col_width_ge(rows, r, i);
            }
        }
        lemma_row_segs_len(rows[r], ws, ws.len());
    }
    lemma_table_rows_lines(rows, ws, header, rows.len(), w);
    let mid = table_rows_lines(rows, ws, header, rows.len());
    let t = table_lines(rows, header);
    assert forall|j: int| 0 <= j < t.len() implies (#[trigger] t[j]).0.len() == w by {
        if 1 <= j < t.len() - 1 {
            assert(t[j] == mid[j - 1]);
        }
    }
    assert forall|r: int| 0 <= r < rows.len() implies t[1 + r + (if header && r >= 1 { 1int } else { 0int })].0
        == #[trigger] data_row(rows[r], ws) by {
        assert(t[1 + r + (if header && r >= 1 { 1int } else { 0int })] == mid[r + (if header && r >= 1 { 1int } else { 0int })]);
    }
    if header {
        assert(t[2] == mid[1]);
    }
}

/// Logical lines made of table lines.
pub open spec fn pre_lines(ls: Seq<(Seq<char>, Style)>, quote: u8) -> Seq<LogV> {
    ls.map_values(|p: (Seq<char>, Style)| LogV { toks: seq![TokV::Word(p.0, p.1)], kind: LineKind::Pre, indent: 0, quote })
}

/// The finished table is written; nothing for a table without cells.
pub open spec fn emit_table(m: BModel) -> BModel {
    let rows = m.table;
    let m1 = BModel { table: Seq::empty(), ..m };
    if rows.len() == 0 || ncols_of(rows) == 0 {
        m1
    } else {
        BModel { lines: m1.lines + pre_lines(table_lines(rows, m.header_cols > 0), m.quote_depth), ..m1 }
    }
}

/// The end of an element.
pub open spec fn md_end(m: BModel, t: MdTag) -> BModel {
    match t {
        MdTag::Heading(_) => {
            let level: u8 = match m.in_heading {
                Some(l) => l,
                None => 1,
            };
            let m1 = BModel {
                in_heading: None,
                toc: m.toc.push((level, m.heading_title, m.lines.len())),
                heading_title: Seq::empty(),
                ..m
            };
            blank(finish(m1, LineKind::Heading))
        },
        MdTag::Strong => BModel { strong: dec32(m.strong), ..m },
        MdTag::Emphasis => BModel { emph: dec32(m.emph), ..m },
        MdTag::BlockQuote => {
            let m1 = finish(m, LineKind::Normal);
            BModel { quote_depth: dec8(m1.quote_depth), ..m1 }
        },
        MdTag::List => {
            let m1 = BModel { list_depth: dec16(m.list_depth), ..m };
            if m1.list_depth == 0 { blank(m1) } else { m1 }
        },
        MdTag::Item => finish(m, LineKind::Normal),
        MdTag::Link => match m.link_url {
            Some(u) => BModel {
                link_url: None,
                links: m.links.push((u, m.link_text)),
                link_text: Seq::empty(),
                ..m
            },
            None => m,
        },
        MdTag::Paragraph => {
            let m1 = finish(m, LineKind::Normal);
            if m.list_depth > 0 { m1 } else { blank(m1) }
        },
        MdTag::CodeBlock => blank(BModel { in_code: false, ..m }),
        MdTag::TableHead => BModel {
            header_cols: m.cur_row.len(),
            table: m.table.push(m.cur_row),
            cur_row: Seq::empty(),
            ..m
        },
        MdTag::TableRow => BModel { table: m.table.push(m.cur_row), cur_row: Seq::empty(), ..m },
        MdTag::Table => blank(emit_table(BModel { in_table: false, ..m })),
        _ => m,
    }
}

/// Headings and links are collected as they end: a heading adds a table of
/// contents entry (its level, its title text, and the index of its line),
/// writes its words as a heading line at that index and a blank line after
/// it; a link adds (destination, link text) to the link list. A list item
/// starts with a bullet and a space.
pub proof fn lemma_heading_link_item(m: BModel, l: u8, u: Seq<char>, t: MdTag, url: Seq<char>)
    ensures
        m.in_heading == Some(l) ==> ({
            let r = md_end(m, MdTag::Heading(l));
            &&& r.toc == m.toc.push((l, m.heading_title, m.lines.len()))
            &&& r.lines.len() == m.lines.len() + 2
            &&& r.lines[m.lines.len() as int].kind == LineKind::Heading
            &&& r.lines[m.lines.len() as int].toks == m.cur
            &&& r.lines[m.lines.len() as int + 1].kind == LineKind::Blank
            &&& r.in_heading is None
        }),
        m.link_url == Some(u) ==> ({
            let r = md_end(m, MdTag::Link);
            &&& r.links == m.links.push((u, m.link_text))
            &&& r.link_url is None
        }),
        md_start(m, MdTag::Link, url).link_url == Some(url),
        md_start(m, MdTag::Item, url).cur == m.cur + seq![TokV::Word(seq!['\u{2022}'], fg_style(amber())), TokV::Space],
{
    assert(md_start(m, MdTag::Item, url).cur =~= m.cur + seq![TokV::Word(seq!['\u{2022}'], fg_style(amber())), TokV::Space]);
}

/// One event. Inside a table cell, text and inline code go into the cell and
/// the cell's end completes it; everything else is handled as anywhere.
pub open spec fn md_step(m: BModel, e: (MdKind, MdTag, Seq<char>)) -> BModel {
    let (k, t, x) = e;
    if m.in_cell && (k == MdKind::Text || k == MdKind::Code) {
        BModel { cur_cell: m.cur_cell + x, ..m }
    } else if m.in_cell && k == MdKind::End && t == MdTag::TableCell {
        BModel { cur_row: m.cur_row.push(m.cur_cell), cur_cell: Seq::empty(), in_cell: false, ..m }
    } else {
        match k {
            MdKind::Start => md_start(m, t, x),
            MdKind::End => md_end(m, t),
            MdKind::Code => BModel {
                cur: m.cur.push(TokV::Word(x, fg_style(amber()))),
                link_text: if m.link_url is Some { m.link_text + x } else { m.link_text },
                ..m
            },
            MdKind::Rule => push_raw(m, Seq::empty(), LineKind::Rule),
            MdKind::Text => md_text(m, x),
            MdKind::SoftBreak => BModel { cur: m.cur.push(TokV::Space), ..m },
            MdKind::HardBreak => finish(m, LineKind::Normal),
            MdKind::Other => m,
        }
    }
}

/// The state after the first `k` events.
pub open spec fn md_run(evs: Seq<MdEvent>, k: nat) -> BModel
    decreases k,
{
    if k == 0 { b_init() } else { md_step(md_run(evs, (k - 1) as nat), md_view(evs[k - 1])) }
}

/// The document model of markdown `src`: all its events, then the pending
/// tokens finished as a last line.
pub open spec fn build_model(src: Seq<char>) -> BModel {
    finish(md_run(md_events(src), md_events(src).len()), LineKind::Normal)
}

// -------------------------------------------------------- builder (exec) ----

/// Text of each cell of a row.
pub open spec fn row_view(r: Vec<String>) -> Seq<Seq<char>> {
    r@.map_values(|c: String| c@)
}

/// Text of each cell of each row.
pub open spec fn table_view(t: Seq<Vec<String>>) -> Seq<Seq<Seq<char>>> {
    t.map_values(|r: Vec<String>| row_view(r))
}

/// A table of contents, as values.
pub open spec fn toc_view(t: Seq<TocEntry>) -> Seq<(u8, Seq<char>, nat)> {
    t.map_values(|e: TocEntry| (e.level, e.title@, e.line as nat))
}

/// A link table, as text.
pub open spec fn links_view(l: Seq<LinkRef>) -> Seq<(Seq<char>, Seq<char>)> {
    l.map_values(|e: LinkRef| (e.url@, e.text@))
}

/// Number of cells of the widest row.
fn max_cells(rows: &Vec<Vec<String>>) -> (n: usize)
    ensures
        n as nat == ncols_of(table_view(rows@)),
{
    let ghost tv = table_view(rows@);
    let mut ncols: usize = 0;
    let mut i: usize = 0;
    while i < rows.len()
        invariant
            i <= rows@.len(),
            tv == table_view(rows@),
            ncols == ncols_of(tv.take(i as int)),
        decreases rows@.len() - i,
    {
        assert(tv.take(i + 1).drop_last() =~= tv.take(i as int));
        if rows[i].len() > ncols {
            ncols = rows[i].len();
        }
        i = i + 1;
    }
    assert(tv.take(rows@.len() as int) =~= tv);
    ncols
}

fn col_widths_exec(rows: &Vec<Vec<String>>) -> (ws: Vec<usize>)
    ensures
        ws@.map_values(|w: usize| w as nat) == col_widths(table_view(rows@)),
        forall|i: int| 0 <= i < ws@.len() ==> #[trigger] ws@[i] <= 28,
{
    let ghost tv = table_view(rows@);
    let ncols = max_cells(rows);
    let mut ws: Vec<usize> = Vec::new();
    let mut c: usize = 0;
    while c < ncols
        invariant
            c <= ncols,
            tv == table_view(rows@),
            ncols == ncols_of(tv),
            ws@.len() == c,
            forall|j: int| 0 <= j < c ==> #[trigger] ws@[j] as nat == col_width(tv, j),
            forall|j: int| 0 <= j < c ==> #[trigger] ws@[j] <= 28,
        decreases ncols - c,
    {
        let mut w: usize = 0;
        let mut r: usize = 0;
        while r < rows.len()
            invariant
                r <= rows@.len(),
                tv == table_view(rows@),
                w as nat == col_width(tv.take(r as int), c as int),
                w <= 28,
            decreases rows@.len() - r,
        {
            assert(tv.take(r + 1).drop_last() =~= tv.take(r as int));
            if c < rows[r].len() {
                let n = chars_of(rows[r][c].as_str()).len();
                let cw: usize = if n < 28 { n } else { 28 };
                if cw > w {
                    w = cw;
                }
            }
            r = r + 1;
        }
        assert(tv.take(rows@.len() as int) =~= tv);
        ws.push(w);
        c = c + 1;
    }
    assert(ws@.map_values(|w: usize| w as nat) =~= col_widths(tv));
    ws
}

fn border_exec(ws: &Vec<usize>, left: char, mid: char, right: char) -> (s: String)
    requires
        forall|i: int| 0 <= i < ws@.len() ==> #[trigger] ws@[i] <= 28,
    ensures
        s@ == border(ws@.map_values(|w: usize| w as nat), left, mid, right),
{
    let ghost wv = ws@.map_values(|w: usize| w as nat);
    let mut s = String::new();
    push_char(&mut s, left);
    let mut k: usize = 0;
    while k < ws.len()
        invariant
            k <= ws@.len(),
            wv == ws@.map_values(|w: usize| w as nat),
            forall|i: int| 0 <= i < ws@.len() ==> #[trigger] ws@[i] <= 28,
            s@ == seq![left] + border_segs(wv, k as nat, mid, right),
        decreases ws@.len() - k,
    {
        let w = ws[k];
        push_char_repeated(&mut s, '\u{2500}', w + 2);
        if k + 1 == ws.len() {
            push_char(&mut s, right);
        } else {
            push_char(&mut s, mid);
        }
        k = k + 1;
        assert(s@ =~= seq![left] + border_segs(wv, k as nat, mid, right));
    }
    s
}

fn data_row_exec(row: &Vec<String>, ws: &Vec<usize>) -> (s: String)
    ensures
        s@ == data_row(row_view(*row), ws@.map_values(|w: usize| w as nat)),
{
    let ghost wv = ws@.map_values(|w: usize| w as nat);
    let ghost rv = row_view(*row);
    let mut s = String::new();
    push_char(&mut s, '\u{2502}');
    let mut k: usize = 0;
    while k < ws.len()
        invariant
            k <= ws@.len(),
            wv == ws@.map_values(|w: usize| w as nat),
            rv == row_view(*row),
            s@ == seq!['\u{2502}'] + row_segs(rv, wv, k as nat),
        decreases ws@.len() - k,
    {
        let cell = if k < row.len() { pad(row[k].as_str(), ws[k]) } else { pad("", ws[k]) };
        proof {
            if k >= row@.len() {
                assert(""@ =~= Seq::<char>::empty()) by {
                    reveal_strlit("");
                }
            }
        }
        push_char(&mut s, ' ');
        push_str(&mut s, cell.as_str());
        push_char(&mut s, ' ');
        push_char(&mut s, '\u{2502}');
        k = k + 1;
        assert(s@ =~= seq!['\u{2502}'] + row_segs(rv, wv, k as nat));
    }
    s
}

/// A table line as a logical line.
fn pre_line(text: String, style: Style, quote: u8) -> (l: LogLine)
    ensures
        l@ == (LogV { toks: seq![TokV::Word(text@, style)], kind: LineKind::Pre, indent: 0, quote }),
{
    let mut toks: Vec<Tok> = Vec::new();
    toks.push(Tok::Word(text, style));
    let l = LogLine { toks, kind: LineKind::Pre, indent: 0, quote };
    assert(l@.toks =~= seq![TokV::Word(text@, style)]);
    l
}

proof fn lemma_pre_lines_push(ls: Seq<(Seq<char>, Style)>, p: (Seq<char>, Style), quote: u8)
    ensures
        pre_lines(ls.push(p), quote) == pre_lines(ls, quote).push(
            LogV { toks: seq![TokV::Word(p.0, p.1)], kind: LineKind::Pre, indent: 0, quote },
        ),
{
    assert(pre_lines(ls.push(p), quote) =~= pre_lines(ls, quote).push(
        LogV { toks: seq![TokV::Word(p.0, p.1)], kind: LineKind::Pre, indent: 0, quote },
    ));
}

proof fn lemma_lines_view_push(v: Seq<LogLine>, l: LogLine)
    ensures
        lines_view(v.push(l)) == lines_view(v).push(l@),
{
    assert(lines_view(v.push(l)) =~= lines_view(v).push(l@));
}

/// Appends the lines of a table to `lines`.
fn emit_table_lines(lines: &mut Vec<LogLine>, rows: &Vec<Vec<String>>, header: bool, quote: u8)
    requires
        rows@.len() > 0,
    ensures
        lines_view(final(lines)@) == lines_view(old(lines)@) + pre_lines(table_lines(table_view(rows@), header), quote),
{
    let ghost tv = table_view(rows@);
    let ghost l0 = lines_view(lines@);
    let ws = col_widths_exec(rows);
    let ghost wv = ws@.map_values(|w: usize| w as nat);
    let gray_st = fg(rgb(110, 110, 122));
    let white_st = fg(rgb(220, 220, 228));
    let ghost l0v = lines@;
    let lt = pre_line(border_exec(&ws, '\u{250c}', '\u{252c}', '\u{2510}'), gray_st, quote);
    lines.push(lt);
    proof {
        lemma_lines_view_push(l0v, lt);
    }
    let ghost top = seq![(border(wv, '\u{250c}', '\u{252c}', '\u{2510}'), fg_style(gray()))];
    assert(lines_view(lines@) =~= l0 + pre_lines(top, quote));
    let mut k: usize = 0;
    while k < rows.len()
        invariant
            k <= rows@.len(),
            tv == table_view(rows@),
            wv == ws@.map_values(|w: usize| w as nat),
            wv == col_widths(tv),
            forall|i: int| 0 <= i < ws@.len() ==> #[trigger] ws@[i] <= 28,
            gray_st == fg_style(gray()),
            white_st == fg_style(white()),
            lines_view(lines@) == l0 + pre_lines(top + table_rows_lines(tv, wv, header, k as nat), quote),
        decreases rows@.len() - k,
    {
        let ghost before = lines@;
        let ghost prev = top + table_rows_lines(tv, wv, header, k as nat);
        let l1 = pre_line(data_row_exec(&rows[k], &ws), white_st, quote);
        lines.push(l1);
        proof {
            lemma_lines_view_push(before, l1);
            lemma_pre_lines_push(prev, (data_row(tv[k as int], wv), fg_style(white())), quote);
            assert(top + table_rows_lines(tv, wv, header, k as nat).push((data_row(tv[k as int], wv), fg_style(white())))
                =~= prev.push((data_row(tv[k as int], wv), fg_style(white()))));
        }
        if k == 0 && header {
            let ghost mid = lines@;
            let l2 = pre_line(border_exec(&ws, '\u{251c}', '\u{253c}', '\u{2524}'), gray_st, quote);
            lines.push(l2);
            proof {
                lemma_lines_view_push(mid, l2);
                let p1 = prev.push((data_row(tv[k as int], wv), fg_style(white())));
                lemma_pre_lines_push(p1, (border(wv, '\u{251c}', '\u{253c}', '\u{2524}'), fg_style(gray())), quote);
                assert(top + table_rows_lines(tv, wv, header, 1) =~= p1.push((border(wv, '\u{251c}', '\u{253c}', '\u{2524}'), fg_style(gray()))));
            }
        }
        k = k + 1;
        assert(lines_view(lines@) =~= l0 + pre_lines(top + table_rows_lines(tv, wv, header, k as nat), quote));
    }
    let ghost before = lines@;
    let ghost prev = top + table_rows_lines(tv, wv, header, rows@.len() as nat);
    let l3 = pre_line(border_exec(&ws, '\u{2514}', '\u{2534}', '\u{2518}'), gray_st, quote);
    lines.push(l3);
    proof {
        lemma_lines_view_push(before, l3);
        lemma_pre_lines_push(prev, (border(wv, '\u{2514}', '\u{2534}', '\u{2518}'), fg_style(gray())), quote);
        assert(table_lines(tv, header) =~= prev.push((border(wv, '\u{2514}', '\u{2534}', '\u{2518}'), fg_style(gray()))));
    }
    assert(lines_view(lines@) =~= l0 + pre_lines(table_lines(tv, header), quote));
}


/// Turns markdown events into logical lines, a table of contents and a link
/// table.
struct Builder {
    lines: Vec<LogLine>,
    toc: Vec<TocEntry>,
    links: Vec<LinkRef>,
    cur: Vec<Tok>,
    strong: u32,
    emph: u32,
    in_heading: Option<u8>,
    heading_title: String,
    link_url: Option<String>,
    link_text: String,
    in_code: bool,
    list_depth: u16,
    quote_depth: u8,
    in_table: bool,
    in_cell: bool,
    cur_cell: String,
    cur_row: Vec<String>,
    table: Vec<Vec<String>>,
    header_cols: usize,
}

/// An optional string, as text.
pub open spec fn opt_view(o: Option<String>) -> Option<Seq<char>> {
    match o {
        Some(u) => Some(u@),
        None => None,
    }
}

impl View for Builder {
    type V = BModel;

    closed spec fn view(&self) -> BModel {
        BModel {
            lines: lines_view(self.lines@),
            toc: toc_view(self.toc@),
            links: links_view(self.links@),
            cur: toks_view(self.cur@),
            strong: self.strong,
            emph: self.emph,
            in_heading: self.in_heading,
            heading_title: self.heading_title@,
            link_url: opt_view(self.link_url),
            link_text: self.link_text@,
            in_code: self.in_code,
            list_depth: self.list_depth,
            quote_depth: self.quote_depth,
            in_table: self.in_table,
            in_cell: self.in_cell,
            cur_cell: self.cur_cell@,
            cur_row: row_view(self.cur_row),
            table: table_view(self.table@),
            header_cols: self.header_cols as nat,
        }
    }
}

proof fn lemma_toks_view_push(v: Seq<Tok>, t: Tok)
    ensures
        toks_view(v.push(t)) == toks_view(v).push(t@),
{
    assert(toks_view(v.push(t)) =~= toks_view(v).push(t@));
}

proof fn lemma_table_view_push(v: Seq<Vec<String>>, r: Vec<String>)
    ensures
        table_view(v.push(r)) == table_view(v).push(row_view(r)),
{
    assert(table_view(v.push(r)) =~= table_view(v).push(row_view(r)));
}

impl Builder {
    fn new() -> (b: Builder)
        ensures
            b@ == b_init(),
    {
        let b = Builder {
            lines: Vec::new(),
            toc: Vec::new(),
            links: Vec::new(),
            cur: Vec::new(),
            strong: 0,
            emph: 0,
            in_heading: None,
            heading_title: String::new(),
            link_url: None,
            link_text: String::new(),
            in_code: false,
            list_depth: 0,
            quote_depth: 0,
            in_table: false,
            in_cell: false,
            cur_cell: String::new(),
            cur_row: Vec::new(),
            table: Vec::new(),
            header_cols: 0,
        };
        assert(b@ =~= b_init());
        b
    }

    fn style(&self) -> (s: Style)
        ensures
            s == style_of(self@),
    {
        if self.in_heading.is_some() {
            Style { fg: Some(rgb(125, 211, 252)), bold: true, italic: false, underline: false }
        } else if self.link_url.is_some() {
            Style { fg: Some(rgb(96, 165, 250)), bold: false, italic: false, underline: true }
        } else {
            Style { fg: None, bold: self.strong > 0, italic: self.emph > 0, underline: false }
        }
    }

    fn indent(&self) -> (r: u16)
        ensures
            r == indent_of(self.list_depth),
    {
        let k: u16 = if self.list_depth == 0 { 0 } else { self.list_depth - 1 };
        if k >= 32768 { (k - 32768) * 2 } else { k * 2 }
    }

    fn finish(&mut self, kind: LineKind)
        ensures
            final(self)@ == finish(old(self)@, kind),
    {
        if self.cur.len() == 0 && kind == LineKind::Normal {
            return;
        }
        let ghost l0 = self.lines@;
        let mut toks: Vec<Tok> = Vec::new();
        std::mem::swap(&mut toks, &mut self.cur);
        let indent = self.indent();
        let l = LogLine { toks, kind, indent, quote: self.quote_depth };
        self.lines.push(l);
        proof {
            lemma_lines_view_push(l0, l);
        }
        assert(self@ =~= finish(old(self)@, kind));
    }

    fn push_raw(&mut self, toks: Vec<Tok>, kind: LineKind)
        ensures
            final(self)@ == push_raw(old(self)@, toks_view(toks@), kind),
    {
        let ghost l0 = self.lines@;
        let l = LogLine { toks, kind, indent: 0, quote: self.quote_depth };
        self.lines.push(l);
        proof {
            lemma_lines_view_push(l0, l);
        }
        assert(self@ =~= push_raw(old(self)@, toks_view(toks@), kind));
    }

    fn blank(&mut self)
        ensures
            final(self)@ == blank(old(self)@),
    {
        let ghost l0 = self.lines@;
        let l = LogLine { toks: Vec::new(), kind: LineKind::Blank, indent: 0, quote: 0 };
        self.lines.push(l);
        proof {
            lemma_lines_view_push(l0, l);
            assert(toks_view(l.toks@) =~= Seq::<TokV>::empty());
        }
        assert(self@ =~= blank(old(self)@));
    }

    /// Each line of a code block's text as a code line.
    fn push_code(&mut self, text: &str)
        ensures
            final(self)@ == code_lines(old(self)@, lines_spec(text@)),
    {
        let ls = split_lines(text);
        let ghost lv = ls@.map_values(|x: String| x@);
        let ghost m0 = self@;
        let mut i: usize = 0;
        assert(lv.take(0) =~= Seq::<Seq<char>>::empty());
        while i < ls.len()
            invariant
                i <= ls@.len(),
                lv == ls@.map_values(|x: String| x@),
                lv == lines_spec(text@),
                self@ == code_lines(m0, lv.take(i as int)),
            decreases ls@.len() - i,
        {
            let mut w = String::new();
            push_str(&mut w, "    ");
            push_str(&mut w, ls[i].as_str());
            let mut toks: Vec<Tok> = Vec::new();
            let t = Tok::Word(w, fg(rgb(110, 231, 183)));
            toks.push(t);
            assert(toks_view(toks@) =~= seq![TokV::Word("    "@ + lv[i as int], fg_style(mint()))]);
            self.push_raw(toks, LineKind::Code);
            assert(lv.take(i + 1).drop_last() =~= lv.take(i as int));
            i = i + 1;
        }
        assert(lv.take(ls@.len() as int) =~= lv);
    }

    fn start(&mut self, t: MdTag, url: String)
        ensures
            final(self)@ == md_start(old(self)@, t, url@),
    {
        match t {
            MdTag::Heading(l) => {
                self.in_heading = Some(l);
                self.heading_title = String::new();
                self.cur = Vec::new();
                assert(toks_view(self.cur@) =~= Seq::<TokV>::empty());
            },
            MdTag::Strong => {
                self.strong = if self.strong == u32::MAX { 0 } else { self.strong + 1 };
            },
            MdTag::Emphasis => {
                self.emph = if self.emph == u32::MAX { 0 } else { self.emph + 1 };
            },
            MdTag::BlockQuote => {
                self.finish(LineKind::Normal);
                self.quote_depth = if self.quote_depth == u8::MAX { 0 } else { self.quote_depth + 1 };
            },
            MdTag::List => {
                self.finish(LineKind::Normal);
                self.list_depth = if self.list_depth == u16::MAX { 0 } else { self.list_depth + 1 };
            },
            MdTag::Item => {
                let ghost c0 = self.cur@;
                let mut bullet = String::new();
                push_char(&mut bullet, '\u{2022}');
                let w = Tok::Word(bullet, fg(rgb(252, 211, 77)));
                self.cur.push(w);
                self.cur.push(Tok::Space);
                proof {
                    lemma_toks_view_push(c0, w);
                    lemma_toks_view_push(c0.push(w), Tok::Space);
                }
            },
            MdTag::Link => {
                self.link_url = Some(url);
                self.link_text = String::new();
            },
            MdTag::CodeBlock => {
                self.finish(LineKind::Normal);
                self.in_code = true;
            },
            MdTag::Table => {
                self.finish(LineKind::Normal);
                self.in_table = true;
                self.table = Vec::new();
                self.header_cols = 0;
                assert(table_view(self.table@) =~= Seq::<Seq<Seq<char>>>::empty());
            },
            MdTag::TableHead | MdTag::TableRow => {
                self.cur_row = Vec::new();
                assert(row_view(self.cur_row) =~= Seq::<Seq<char>>::empty());
            },
            MdTag::TableCell => {
                self.in_cell = true;
                self.cur_cell = String::new();
            },
            _ => {},
        }
        assert(self@ =~= md_start(old(self)@, t, url@));
    }

    fn emit_table(&mut self)
        ensures
            final(self)@ == emit_table(old(self)@),
    {
        let mut rows: Vec<Vec<String>> = Vec::new();
        std::mem::swap(&mut rows, &mut self.table);
        assert(table_view(self.table@) =~= Seq::<Seq<Seq<char>>>::empty());
        if rows.len() == 0 || max_cells(&rows) == 0 {
            assert(self@ =~= emit_table(old(self)@));
            return;
        }
        let header = self.header_cols > 0;
        emit_table_lines(&mut self.lines, &rows, header, self.quote_depth);
        assert(self@ =~= emit_table(old(self)@));
    }

    fn end(&mut self, t: MdTag)
        ensures
            final(self)@ == md_end(old(self)@, t),
    {
        match t {
            MdTag::Heading(_) => {
                let level: u8 = match self.in_heading {
                    Some(l) => l,
                    None => 1,
                };
                self.in_heading = None;
                let mut title = String::new();
                std::mem::swap(&mut title, &mut self.heading_title);
                let ghost t0 = self.toc@;
                let e = TocEntry { level, title, line: self.lines.len() };
                self.toc.push(e);
                assert(toc_view(self.toc@) =~= toc_view(t0).push((level, title@, e.line as nat)));
                self.finish(LineKind::Heading);
                self.blank();
            },
            MdTag::Strong => {
                self.strong = if self.strong == 0 { 0 } else { self.strong - 1 };
            },
            MdTag::Emphasis => {
                self.emph = if self.emph == 0 { 0 } else { self.emph - 1 };
            },
            MdTag::BlockQuote => {
                self.finish(LineKind::Normal);
                self.quote_depth = if self.quote_depth == 0 { 0 } else { self.quote_depth - 1 };
            },
            MdTag::List => {
                self.list_depth = if self.list_depth == 0 { 0 } else { self.list_depth - 1 };
                if self.list_depth == 0 {
                    self.blank();
                }
            },
            MdTag::Item => {
                self.finish(LineKind::Normal);
            },
            MdTag::Link => {
                let mut url: Option<String> = None;
                std::mem::swap(&mut url, &mut self.link_url);
                match url {
                    Some(u) => {
                        let mut text = String::new();
                        std::mem::swap(&mut text, &mut self.link_text);
                        let ghost l0 = self.links@;
                        let e = LinkRef { url: u, text };
                        self.links.push(e);
                        assert(links_view(self.links@) =~= links_view(l0).push((e.url@, e.text@)));
                    },
                    None => {},
                }
            },
            MdTag::Paragraph => {
                self.finish(LineKind::Normal);
                if self.list_depth == 0 {
                    self.blank();
                }
            },
            MdTag::CodeBlock => {
                self.in_code = false;
                self.blank();
            },
            MdTag::TableHead => {
                self.header_cols = self.cur_row.len();
                let mut row: Vec<String> = Vec::new();
                std::mem::swap(&mut row, &mut self.cur_row);
                let ghost t0 = self.table@;
                self.table.push(row);
                proof {
                    lemma_table_view_push(t0, row);
                }
                assert(row_view(self.cur_row) =~= Seq::<Seq<char>>::empty());
            },
            MdTag::TableRow => {
                let mut row: Vec<String> = Vec::new();
                std::mem::swap(&mut row, &mut self.cur_row);
                let ghost t0 = self.table@;
                self.table.push(row);
                proof {
                    lemma_table_view_push(t0, row);
                }
                assert(row_view(self.cur_row) =~= Seq::<Seq<char>>::empty());
            },
            MdTag::Table => {
                self.in_table = false;
                self.emit_table();
                self.blank();
            },
            _ => {},
        }
        assert(self@ =~= md_end(old(self)@, t));
    }

    fn text(&mut self, x: &str)
        ensures
            final(self)@ == md_text(old(self)@, x@),
    {
        let st = self.style();
        if self.in_heading.is_some() {
            push_str(&mut self.heading_title, x);
            tokenize(&mut self.cur, x, st);
        } else if self.link_url.is_some() {
            push_str(&mut self.link_text, x);
            tokenize(&mut self.cur, x, st);
        } else if self.in_code {
            self.push_code(x);
        } else {
            tokenize(&mut self.cur, x, st);
        }
        assert(self@ =~= md_text(old(self)@, x@));
    }

    fn step(&mut self, ev: MdEvent)
        ensures
            final(self)@ == md_step(old(self)@, ev@),
    {
        if self.in_cell {
            match &ev {
                MdEvent::Text(x) | MdEvent::Code(x) => {
                    push_str(&mut self.cur_cell, x.as_str());
                    assert(self@ =~= md_step(old(self)@, ev@));
                    return;
                },
                MdEvent::End(MdTag::TableCell) => {
                    let mut cell = String::new();
                    std::mem::swap(&mut cell, &mut self.cur_cell);
                    self.cur_row.push(cell);
                    self.in_cell = false;
                    assert(row_view(self.cur_row) =~= row_view(old(self).cur_row).push(cell@));
                    assert(self@ =~= md_step(old(self)@, ev@));
                    return;
                },
                _ => {},
            }
        }
        match ev {
            MdEvent::Start(t, url) => self.start(t, url),
            MdEvent::End(t) => self.end(t),
            MdEvent::Code(x) => {
                if self.link_url.is_some() {
                    push_str(&mut self.link_text, x.as_str());
                }
                let ghost c0 = self.cur@;
                let w = Tok::Word(x, fg(rgb(252, 211, 77)));
                self.cur.push(w);
                proof {
                    lemma_toks_view_push(c0, w);
                }
            },
            MdEvent::Rule => {
                let none: Vec<Tok> = Vec::new();
                assert(toks_view(none@) =~= Seq::<TokV>::empty());
                self.push_raw(none, LineKind::Rule);
            },
            MdEvent::Text(x) => self.text(x.as_str()),
            MdEvent::SoftBreak => {
                let ghost c0 = self.cur@;
                self.cur.push(Tok::Space);
                proof {
                    lemma_toks_view_push(c0, Tok::Space);
                }
            },
            MdEvent::HardBreak => self.finish(LineKind::Normal),
            MdEvent::Other => {},
        }
        assert(self@ =~= md_step(old(self)@, ev@));
    }
} // impl Builder


// ------------------------------------------------------------- rendered ----

/// A markdown document as logical lines, with its table of contents and its
/// links.
pub struct Rendered {
    lines: Vec<LogLine>,
    pub toc: Vec<TocEntry>,
    pub links: Vec<LinkRef>,
}

impl Rendered {
    /// The logical lines.
    pub closed spec fn logical(&self) -> Seq<LogV> {
        lines_view(self.lines@)
    }

    /// The table of contents: level, title and logical line of each heading.
    pub closed spec fn contents(&self) -> Seq<(u8, Seq<char>, nat)> {
        toc_view(self.toc@)
    }

    /// The links: destination and text of each.
    pub closed spec fn link_table(&self) -> Seq<(Seq<char>, Seq<char>)> {
        links_view(self.links@)
    }

    /// Number of entries of the table of contents.
    pub fn toc_len(&self) -> (n: usize)
        ensures
            n == self.contents().len(),
    {
        self.toc.len()
    }

    /// The logical line of entry `i` of the table of contents.
    pub fn toc_line(&self, i: usize) -> (l: usize)
        requires
            i < self.contents().len(),
        ensures
            l as nat == self.contents()[i as int].2,
    {
        self.toc[i].line
    }

    /// Number of links.
    pub fn links_len(&self) -> (n: usize)
        ensures
            n == self.link_table().len(),
    {
        self.links.len()
    }

    /// The destination of link `i`.
    pub fn link_url(&self, i: usize) -> (u: String)
        requires
            i < self.link_table().len(),
        ensures
            u@ == self.link_table()[i as int].0,
    {
        self.links[i].url.clone()
    }

    /// Parses markdown `src` (tables and strikethrough enabled) into logical
    /// lines, a table of contents and a link table.
    pub fn build(src: &str) -> (r: Rendered)
        ensures
            r.logical() == build_model(src@).lines,
            r.contents() == build_model(src@).toc,
            r.link_table() == build_model(src@).links,
    {
        let mut p = MdParser::new(src);
        let mut b = Builder::new();
        let ghost evs = md_events(src@);
        loop
            invariant_except_break
                evs == md_events(src@),
                p@.0 == src@,
                p@.1 <= evs.len(),
                b@ == md_run(evs, p@.1),
            ensures
                b@ == md_run(evs, evs.len()),
            decreases evs.len() - p@.1,
        {
            match p.next_event() {
                Some(e) => b.step(e),
                None => break,
            }
        }
        b.finish(LineKind::Normal);
        Rendered { lines: b.lines, toc: b.toc, links: b.links }
    }
}

// --------------------------------------------------------------- layout ----

/// A run of text in one style.
pub struct Span {
    pub text: String,
    pub style: Style,
}

/// A display line: its runs, left to right.
pub struct Line {
    pub spans: Vec<Span>,
}

impl View for Span {
    type V = (Seq<char>, Style);

    open spec fn view(&self) -> (Seq<char>, Style) {
        (self.text@, self.style)
    }
}

/// Runs, as text and style.
pub open spec fn spans_view(v: Seq<Span>) -> Seq<(Seq<char>, Style)> {
    v.map_values(|x: Span| x@)
}

impl View for Line {
    type V = Seq<(Seq<char>, Style)>;

    open spec fn view(&self) -> Seq<(Seq<char>, Style)> {
        spans_view(self.spans@)
    }
}

/// The text of runs, concatenated.
pub open spec fn spans_text(v: Seq<(Seq<char>, Style)>) -> Seq<char>
    decreases v.len(),
{
    if v.len() == 0 { Seq::empty() } else { spans_text(v.drop_last()) + v.last().0 }
}

/// The runs of each display line.
pub open spec fn lines_of(v: Seq<Line>) -> Seq<Seq<(Seq<char>, Style)>> {
    v.map_values(|l: Line| l@)
}

/// The text of each string.
pub open spec fn texts_of(v: Seq<String>) -> Seq<Seq<char>> {
    v.map_values(|x: String| x@)
}

/// Wrapping state: the display lines done (runs, and text), and the line
/// being filled (runs, text, width).
pub struct WrapState {
    pub lines: Seq<Seq<(Seq<char>, Style)>>,
    pub texts: Seq<Seq<char>>,
    pub spans: Seq<(Seq<char>, Style)>,
    pub text: Seq<char>,
    pub w: nat,
}

/// The line being filled is done.
pub open spec fn flush(st: WrapState) -> WrapState {
    WrapState {
        lines: st.lines.push(st.spans),
        texts: st.texts.push(st.text),
        spans: Seq::empty(),
        text: Seq::empty(),
        w: 0,
    }
}

/// One token: a space at the start of a line is dropped, and one that does
/// not fit ends the line; a word that does not fit starts a new line, unless
/// the line is empty.
pub open spec fn wrap_tok(st: WrapState, t: TokV, width: nat) -> WrapState {
    match t {
        TokV::Space => {
            if st.w == 0 {
                st
            } else if st.w + 1 > width {
                flush(st)
            } else {
                WrapState { spans: st.spans.push((seq![' '], plain_style())), text: st.text.push(' '), w: st.w + 1, ..st }
            }
        },
        TokV::Word(word, style) => {
            let st1 = if st.w + word.len() > width && st.w > 0 { flush(st) } else { st };
            WrapState { spans: st1.spans.push((word, style)), text: st1.text + word, w: st1.w + word.len(), ..st1 }
        },
    }
}

/// The state after the tokens `toks`.
pub open spec fn wrap_run(toks: Seq<TokV>, width: nat) -> WrapState
    decreases toks.len(),
{
    if toks.len() == 0 {
        WrapState { lines: Seq::empty(), texts: Seq::empty(), spans: Seq::empty(), text: Seq::empty(), w: 0 }
    } else {
        wrap_tok(wrap_run(toks.drop_last(), width), toks.last(), width)
    }
}

/// Tokens word-wrapped to `width` columns: the display lines, and their text.
pub open spec fn wrap_spec(toks: Seq<TokV>, width: nat) -> (Seq<Seq<(Seq<char>, Style)>>, Seq<Seq<char>>) {
    let st = wrap_run(toks, width);
    let f = if st.spans.len() > 0 { flush(st) } else { st };
    (f.lines, f.texts)
}

proof fn lemma_lines_of_push(v: Seq<Line>, l: Line)
    ensures
        lines_of(v.push(l)) == lines_of(v).push(l@),
{
    assert(lines_of(v.push(l)) =~= lines_of(v).push(l@));
}

proof fn lemma_texts_of_push(v: Seq<String>, x: String)
    ensures
        texts_of(v.push(x)) == texts_of(v).push(x@),
{
    assert(texts_of(v.push(x)) =~= texts_of(v).push(x@));
}

proof fn lemma_spans_view_push(v: Seq<Span>, x: Span)
    ensures
        spans_view(v.push(x)) == spans_view(v).push(x@),
{
    assert(spans_view(v.push(x)) =~= spans_view(v).push(x@));
}

/// Ends the line being filled.
fn flush_line(out_l: &mut Vec<Line>, out_t: &mut Vec<String>, spans: &mut Vec<Span>, text: &mut String)
    ensures
        lines_of(final(out_l)@) == lines_of(old(out_l)@).push(spans_view(old(spans)@)),
        texts_of(final(out_t)@) == texts_of(old(out_t)@).push(old(text)@),
        final(spans)@.len() == 0,
        final(text)@.len() == 0,
{
    let mut l: Vec<Span> = Vec::new();
    std::mem::swap(&mut l, spans);
    let mut t = String::new();
    std::mem::swap(&mut t, text);
    let ghost l0 = out_l@;
    let ghost t0 = out_t@;
    let line = Line { spans: l };
    out_l.push(line);
    out_t.push(t);
    proof {
        lemma_lines_of_push(l0, line);
        lemma_texts_of_push(t0, t);
    }
}

/// Word-wraps tokens to `width` columns.
fn wrap(toks: &Vec<Tok>, width: usize) -> (r: (Vec<Line>, Vec<String>))
    ensures
        (lines_of(r.0@), texts_of(r.1@)) == wrap_spec(toks_view(toks@), width as nat),
{
    let ghost tv = toks_view(toks@);
    let mut out_l: Vec<Line> = Vec::new();
    let mut out_t: Vec<String> = Vec::new();
    let mut spans: Vec<Span> = Vec::new();
    let mut text = String::new();
    let mut w: usize = 0;
    let mut i: usize = 0;
    assert(tv.take(0) =~= Seq::<TokV>::empty());
    assert(lines_of(out_l@) =~= Seq::empty());
    assert(texts_of(out_t@) =~= Seq::empty());
    assert(spans_view(spans@) =~= Seq::empty());
    while i < toks.len()
        invariant
            i <= toks@.len(),
            tv == toks_view(toks@),
            (WrapState { lines: lines_of(out_l@), texts: texts_of(out_t@), spans: spans_view(spans@), text: text@, w: w as nat })
                == wrap_run(tv.take(i as int), width as nat),
        decreases toks@.len() - i,
    {
        assert(tv.take(i + 1).drop_last() =~= tv.take(i as int));
        match &toks[i] {
            Tok::Space => {
                if w == 0 {
                } else if w >= width {
                    flush_line(&mut out_l, &mut out_t, &mut spans, &mut text);
                    w = 0;
                    assert(spans_view(spans@) =~= Seq::empty());
                    assert(text@ =~= Seq::<char>::empty());
                } else {
                    let mut sp = String::new();
                    push_char(&mut sp, ' ');
                    let ghost s0 = spans@;
                    let x = Span { text: sp, style: Style { fg: None, bold: false, italic: false, underline: false } };
                    spans.push(x);
                    proof {
                        lemma_spans_view_push(s0, x);
                    }
                    push_char(&mut text, ' ');
                    w = w + 1;
                }
            },
            Tok::Word(word, st) => {
                let len = chars_of(word.as_str()).len();
                if w > 0 && (w > width || len > width - w) {
                    flush_line(&mut out_l, &mut out_t, &mut spans, &mut text);
                    w = 0;
                    assert(spans_view(spans@) =~= Seq::empty());
                    assert(text@ =~= Seq::<char>::empty());
                }
                let ghost s0 = spans@;
                let x = Span { text: word.clone(), style: *st };
                spans.push(x);
                proof {
                    lemma_spans_view_push(s0, x);
                }
                push_str(&mut text, word.as_str());
                w = w + len;
            },
        }
        i = i + 1;
    }
    assert(tv.take(toks@.len() as int) =~= tv);
    if spans.len() > 0 {
        flush_line(&mut out_l, &mut out_t, &mut spans, &mut text);
    }
    (out_l, out_t)
}


proof fn lemma_wrap_run_lens(toks: Seq<TokV>, width: nat)
    ensures
        wrap_run(toks, width).lines.len() == wrap_run(toks, width).texts.len(),
    decreases toks.len(),
{
    if toks.len() > 0 {
        lemma_wrap_run_lens(toks.drop_last(), width);
    }
}

/// Wrapping gives as many texts as display lines.
pub proof fn lemma_wrap_lens(toks: Seq<TokV>, width: nat)
    ensures
        wrap_spec(toks, width).0.len() == wrap_spec(toks, width).1.len(),
{
    lemma_wrap_run_lens(toks, width);
}

/// A token drawn as is: a word in its style, a space plain.
pub open spec fn tok_span(t: TokV) -> (Seq<char>, Style) {
    match t {
        TokV::Word(w, s) => (w, s),
        TokV::Space => (seq![' '], plain_style()),
    }
}

/// The runs of a line drawn without wrapping.
pub open spec fn unwrapped_spans(toks: Seq<TokV>) -> Seq<(Seq<char>, Style)> {
    toks.map_values(|t: TokV| tok_span(t))
}

/// One blockquote gutter.
pub open spec fn gutter() -> (Seq<char>, Style) {
    (seq!['\u{2502}', ' '], fg_style(gray()))
}

/// The runs before a wrapped normal line: a gutter per blockquote level, then
/// the list indentation as spaces.
pub open spec fn prefix_spans(quote: u8, indent: u16) -> Seq<(Seq<char>, Style)> {
    Seq::new(quote as nat, |i: int| gutter())
        + if indent > 0 { seq![(Seq::new(indent as nat, |i: int| ' '), plain_style())] } else { Seq::empty() }
}

/// Columns left for the text of a normal line after its gutters and
/// indentation; at least four.
pub open spec fn avail_width(width: nat, quote: u8, indent: u16) -> nat {
    let pw = 2 * quote + indent;
    let a: nat = if width > pw { (width - pw) as nat } else { 0 };
    if a < 4 { 4 } else { a }
}

/// A horizontal rule: `─` across the width, at most sixty.
pub open spec fn rule_text(width: nat) -> Seq<char> {
    Seq::new(if width < 60 { width } else { 60 }, |i: int| '\u{2500}')
}

/// The display lines of one logical line, and their text.
pub open spec fn render_line(l: LogV, width: nat) -> (Seq<Seq<(Seq<char>, Style)>>, Seq<Seq<char>>) {
    match l.kind {
        LineKind::Blank => (seq![Seq::empty()], seq![Seq::empty()]),
        LineKind::Rule => (seq![seq![(rule_text(width), fg_style(gray()))]], seq![rule_text(width)]),
        LineKind::Code | LineKind::Pre => {
            let sp = unwrapped_spans(l.toks);
            (seq![sp], seq![spans_text(sp)])
        },
        LineKind::Heading => wrap_spec(l.toks, width),
        LineKind::Normal => {
            let pre = prefix_spans(l.quote, l.indent);
            let w = wrap_spec(l.toks, avail_width(width, l.quote, l.indent));
            if w.0.len() == 0 {
                (seq![Seq::empty()], seq![Seq::empty()])
            } else {
                (w.0.map_values(|x: Seq<(Seq<char>, Style)>| pre + x), w.1.map_values(|t: Seq<char>| spans_text(pre) + t))
            }
        },
    }
}

/// The width layout works at: at least eight columns.
pub open spec fn eff_width(width: nat) -> nat {
    if width < 8 { 8 } else { width }
}

/// The display lines of logical lines, in order, and their text.
pub open spec fn layout_spec(ls: Seq<LogV>, width: nat) -> (Seq<Seq<(Seq<char>, Style)>>, Seq<Seq<char>>)
    decreases ls.len(),
{
    if ls.len() == 0 {
        (Seq::empty(), Seq::empty())
    } else {
        let a = layout_spec(ls.drop_last(), width);
        let b = render_line(ls.last(), width);
        (a.0 + b.0, a.1 + b.1)
    }
}

proof fn lemma_spans_text_push(v: Seq<(Seq<char>, Style)>, x: (Seq<char>, Style))
    ensures
        spans_text(v.push(x)) == spans_text(v) + x.0,
{
    assert(v.push(x).drop_last() =~= v);
}

/// The runs of the gutters and indentation of a normal line, and their text.
fn prefix(quote: u8, indent: u16) -> (r: (Vec<Span>, String))
    ensures
        spans_view(r.0@) == prefix_spans(quote, indent),
        r.1@ == spans_text(prefix_spans(quote, indent)),
{
    let mut spans: Vec<Span> = Vec::new();
    let mut text = String::new();
    let mut q: u8 = 0;
    assert(spans_view(spans@) =~= Seq::new(0, |i: int| gutter()));
    while q < quote
        invariant
            q <= quote,
            spans_view(spans@) == Seq::new(q as nat, |i: int| gutter()),
            text@ == spans_text(spans_view(spans@)),
        decreases quote - q,
    {
        let mut g = String::new();
        push_char(&mut g, '\u{2502}');
        push_char(&mut g, ' ');
        push_char(&mut text, '\u{2502}');
        push_char(&mut text, ' ');
        let ghost s0 = spans@;
        assert(g@ =~= seq!['\u{2502}', ' ']);
        let x = Span { text: g, style: fg(rgb(110, 110, 122)) };
        spans.push(x);
        proof {
            lemma_spans_view_push(s0, x);
            lemma_spans_text_push(spans_view(s0), x@);
        }
        q = q + 1;
        assert(spans_view(spans@) =~= Seq::new(q as nat, |i: int| gutter()));
    }
    if indent > 0 {
        let mut pad = String::new();
        push_char_repeated(&mut pad, ' ', indent as usize);
        push_char_repeated(&mut text, ' ', indent as usize);
        let ghost s0 = spans@;
        let x = Span { text: pad, style: Style { fg: None, bold: false, italic: false, underline: false } };
        spans.push(x);
        proof {
            lemma_spans_view_push(s0, x);
            lemma_spans_text_push(spans_view(s0), x@);
            assert(pad@ =~= Seq::new(indent as nat, |i: int| ' '));
        }
        assert(spans_view(spans@) =~= prefix_spans(quote, indent));
    } else {
        assert(spans_view(spans@) =~= prefix_spans(quote, indent));
    }
    (spans, text)
}

/// A line drawn without wrapping, and its text.
fn render_unwrapped(toks: &Vec<Tok>) -> (r: (Line, String))
    ensures
        r.0@ == unwrapped_spans(toks_view(toks@)),
        r.1@ == spans_text(unwrapped_spans(toks_view(toks@))),
{
    let ghost tv = toks_view(toks@);
    let mut spans: Vec<Span> = Vec::new();
    let mut text = String::new();
    let mut i: usize = 0;
    assert(spans_view(spans@) =~= unwrapped_spans(tv.take(0)));
    while i < toks.len()
        invariant
            i <= toks@.len(),
            tv == toks_view(toks@),
            spans_view(spans@) == unwrapped_spans(tv.take(i as int)),
            text@ == spans_text(spans_view(spans@)),
        decreases toks@.len() - i,
    {
        let x = match &toks[i] {
            Tok::Word(w, st) => {
                push_str(&mut text, w.as_str());
                Span { text: w.clone(), style: *st }
            },
            Tok::Space => {
                push_char(&mut text, ' ');
                let mut sp = String::new();
                push_char(&mut sp, ' ');
                Span { text: sp, style: Style { fg: None, bold: false, italic: false, underline: false } }
            },
        };
        let ghost s0 = spans@;
        spans.push(x);
        proof {
            lemma_spans_view_push(s0, x);
            lemma_spans_text_push(spans_view(s0), x@);
        }
        i = i + 1;
        assert(spans_view(spans@) =~= unwrapped_spans(tv.take(i as int)));
    }
    assert(tv.take(toks@.len() as int) =~= tv);
    (Line { spans }, text)
}

/// One empty display line.
fn empty_line() -> (r: (Vec<Line>, Vec<String>))
    ensures
        lines_of(r.0@) == seq![Seq::<(Seq<char>, Style)>::empty()],
        texts_of(r.1@) == seq![Seq::<char>::empty()],
{
    let mut ls: Vec<Line> = Vec::new();
    let mut ts: Vec<String> = Vec::new();
    let l = Line { spans: Vec::new() };
    ls.push(l);
    ts.push(String::new());
    assert(l@ =~= Seq::<(Seq<char>, Style)>::empty());
    assert(lines_of(ls@) =~= seq![Seq::<(Seq<char>, Style)>::empty()]);
    assert(texts_of(ts@) =~= seq![Seq::<char>::empty()]);
    (ls, ts)
}

/// The display lines of one logical line, and their text.
fn render_logical(l: &LogLine, width: usize) -> (r: (Vec<Line>, Vec<String>))
    ensures
        (lines_of(r.0@), texts_of(r.1@)) == render_line(l@, width as nat),
{
    match l.kind {
        LineKind::Blank => empty_line(),
        LineKind::Rule => {
            let n: usize = if width < 60 { width } else { 60 };
            let mut a = String::new();
            push_char_repeated(&mut a, '\u{2500}', n);
            let mut b = String::new();
            push_char_repeated(&mut b, '\u{2500}', n);
            let mut sp: Vec<Span> = Vec::new();
            sp.push(Span { text: a, style: fg(rgb(110, 110, 122)) });
            let line = Line { spans: sp };
            let mut ls: Vec<Line> = Vec::new();
            ls.push(line);
            let mut ts: Vec<String> = Vec::new();
            ts.push(b);
            assert(a@ =~= rule_text(width as nat));
            assert(b@ =~= rule_text(width as nat));
            assert(line@ =~= seq![(rule_text(width as nat), fg_style(gray()))]);
            assert(lines_of(ls@) =~= seq![line@]);
            assert(texts_of(ts@) =~= seq![b@]);
            (ls, ts)
        },
        LineKind::Code | LineKind::Pre => {
            let (line, text) = render_unwrapped(&l.toks);
            let mut ls: Vec<Line> = Vec::new();
            ls.push(line);
            let mut ts: Vec<String> = Vec::new();
            ts.push(text);
            assert(lines_of(ls@) =~= seq![line@]);
            assert(texts_of(ts@) =~= seq![text@]);
            (ls, ts)
        },
        LineKind::Heading => wrap(&l.toks, width),
        LineKind::Normal => {
            let pw: usize = 2 * (l.quote as usize) + (l.indent as usize);
            let a: usize = if width > pw { width - pw } else { 0 };
            let avail: usize = if a < 4 { 4 } else { a };
            let (mut wl, mut wt) = wrap(&l.toks, avail);
            let ghost ww = wrap_spec(l@.toks, avail as nat);
            proof {
                lemma_wrap_lens(l@.toks, avail as nat);
            }
            if wl.len() == 0 {
                return empty_line();
            }
            let ghost pre = prefix_spans(l.quote, l.indent);
            let n0 = wl.len();
            let ghost n = ww.0.len();
            assert(n == n0);
            let mut out_l: Vec<Line> = Vec::new();
            let mut out_t: Vec<String> = Vec::new();
            let mut k: usize = 0;
            assert(lines_of(out_l@) =~= ww.0.take(0).map_values(|x: Seq<(Seq<char>, Style)>| pre + x));
            assert(texts_of(out_t@) =~= ww.1.take(0).map_values(|t: Seq<char>| spans_text(pre) + t));
            assert(ww.0.skip(0) =~= ww.0);
            assert(ww.1.skip(0) =~= ww.1);
            while wl.len() > 0
                invariant
                    n == ww.0.len(),
                    n == ww.1.len(),
                    n == n0,
                    pre == prefix_spans(l.quote, l.indent),
                    k + wl@.len() == n,
                    k + wt@.len() == n,
                    lines_of(wl@) == ww.0.skip(k as int),
                    texts_of(wt@) == ww.1.skip(k as int),
                    lines_of(out_l@) == ww.0.take(k as int).map_values(|x: Seq<(Seq<char>, Style)>| pre + x),
                    texts_of(out_t@) == ww.1.take(k as int).map_values(|t: Seq<char>| spans_text(pre) + t),
                decreases wl@.len(),
            {
                let ghost wl0 = wl@;
                let ghost wt0 = wt@;
                let line = wl.remove(0);
                let t = wt.remove(0);
                assert(lines_of(wl0)[0] == line@);
                assert(texts_of(wt0)[0] == t@);
                let (mut sp, mut pt) = prefix(l.quote, l.indent);
                let mut rest = line.spans;
                sp.append(&mut rest);
                push_str(&mut pt, t.as_str());
                let nl = Line { spans: sp };
                assert(nl@ =~= pre + line@);
                let ghost ol = out_l@;
                let ghost ot = out_t@;
                out_l.push(nl);
                out_t.push(pt);
                proof {
                    lemma_lines_of_push(ol, nl);
                    lemma_texts_of_push(ot, pt);
                }
                k = k + 1;
                assert(lines_of(out_l@) =~= ww.0.take(k as int).map_values(|x: Seq<(Seq<char>, Style)>| pre + x));
                assert(texts_of(out_t@) =~= ww.1.take(k as int).map_values(|t: Seq<char>| spans_text(pre) + t));
                assert(wl@ =~= wl0.skip(1));
                assert(wt@ =~= wt0.skip(1));
                assert(lines_of(wl@) =~= lines_of(wl0).skip(1));
                assert(texts_of(wt@) =~= texts_of(wt0).skip(1));
                assert(lines_of(wl@) =~= ww.0.skip(k as int));
                assert(texts_of(wt@) =~= ww.1.skip(k as int));
            }
            assert(ww.0.take(n as int) =~= ww.0);
            assert(ww.1.take(n as int) =~= ww.1);
            (out_l, out_t)
        },
    }
}

proof fn lemma_lines_of_add(a: Seq<Line>, b: Seq<Line>)
    ensures
        lines_of(a + b) == lines_of(a) + lines_of(b),
{
    assert(lines_of(a + b) =~= lines_of(a) + lines_of(b));
}

proof fn lemma_texts_of_add(a: Seq<String>, b: Seq<String>)
    ensures
        texts_of(a + b) == texts_of(a) + texts_of(b),
{
    assert(texts_of(a + b) =~= texts_of(a) + texts_of(b));
}

impl Rendered {
    /// Wraps the logical lines to `width` columns (at least eight): the
    /// display lines, their text (for search), and for each logical line the
    /// index of its first display line.
    pub fn layout(&self, width: usize) -> (r: (Vec<Line>, Vec<String>, Vec<usize>))
        ensures
            (lines_of(r.0@), texts_of(r.1@)) == layout_spec(self.logical(), eff_width(width as nat)),
            r.2@.len() == self.logical().len(),
            forall|i: int| 0 <= i < r.2@.len()
                ==> #[trigger] r.2@[i] as nat == layout_spec(self.logical().take(i), eff_width(width as nat)).0.len(),
    {
        let w: usize = if width < 8 { 8 } else { width };
        let ghost ls = self.logical();
        let mut display: Vec<Line> = Vec::new();
        let mut plain: Vec<String> = Vec::new();
        let mut map: Vec<usize> = Vec::new();
        let mut i: usize = 0;
        assert(ls.take(0) =~= Seq::<LogV>::empty());
        assert(lines_of(display@) =~= Seq::empty());
        assert(texts_of(plain@) =~= Seq::empty());
        while i < self.lines.len()
            invariant
                i <= self.lines@.len(),
                ls == self.logical(),
                ls == lines_view(self.lines@),
                w as nat == eff_width(width as nat),
                (lines_of(display@), texts_of(plain@)) == layout_spec(ls.take(i as int), w as nat),
                map@.len() == i,
                forall|j: int| 0 <= j < i ==> #[trigger] map@[j] as nat == layout_spec(ls.take(j), w as nat).0.len(),
            decreases self.lines@.len() - i,
        {
            map.push(display.len());
            let (mut a, mut b) = render_logical(&self.lines[i], w);
            let ghost d0 = display@;
            let ghost p0 = plain@;
            let ghost a0 = a@;
            let ghost b0 = b@;
            display.append(&mut a);
            plain.append(&mut b);
            proof {
                lemma_lines_of_add(d0, a0);
                lemma_texts_of_add(p0, b0);
                assert(ls.take(i + 1).drop_last() =~= ls.take(i as int));
                assert(ls.take(i + 1).last() == ls[i as int]);
            }
            i = i + 1;
        }
        assert(ls.take(self.lines@.len() as int) =~= ls);
        (display, plain, map)
    }
}


// ----------------------------------------------------------------- laws ----

/// A line's text fits in `width` columns, or one of its runs is as long as
/// the whole text (a single word wider than the width).
pub open spec fn fits_or_one_word(spans: Seq<(Seq<char>, Style)>, text: Seq<char>, width: nat) -> bool {
    text.len() <= width || exists|i: int| 0 <= i < spans.len() && #[trigger] spans[i].0.len() == text.len()
}

/// What wrapping keeps: each line done and the line being filled has the
/// text of its runs, and fits or is one over-long word.
pub open spec fn wrap_inv(st: WrapState, width: nat) -> bool {
    &&& st.lines.len() == st.texts.len()
    &&& forall|k: int| 0 <= k < st.lines.len() ==> #[trigger] st.texts[k] == spans_text(st.lines[k])
    &&& forall|k: int| 0 <= k < st.lines.len() ==> #[trigger] fits_or_one_word(st.lines[k], st.texts[k], width)
    &&& st.text == spans_text(st.spans)
    &&& st.w == st.text.len()
    &&& fits_or_one_word(st.spans, st.text, width)
}

proof fn lemma_wrap_tok_inv(st: WrapState, t: TokV, width: nat)
    requires
        wrap_inv(st, width),
    ensures
        wrap_inv(wrap_tok(st, t, width), width),
{
    let f = flush(st);
    assert(f.lines.len() == st.lines.len() + 1);
    assert forall|k: int| 0 <= k < f.lines.len() implies #[trigger] f.texts[k] == spans_text(f.lines[k]) by {
        if k < st.lines.len() {
            assert(f.texts[k] == st.texts[k]);
        }
    }
    assert forall|k: int| 0 <= k < f.lines.len() implies #[trigger] fits_or_one_word(f.lines[k], f.texts[k], width) by {
        if k < st.lines.len() {
            assert(f.texts[k] == st.texts[k]);
            assert(f.lines[k] == st.lines[k]);
        }
    }
    assert(spans_text(Seq::<(Seq<char>, Style)>::empty()) == Seq::<char>::empty());
    assert(wrap_inv(f, width));
    match t {
        TokV::Space => {
            if st.w != 0 && st.w + 1 <= width {
                let x = (seq![' '], plain_style());
                lemma_spans_text_push(st.spans, x);
                assert(st.text.push(' ') =~= st.text + x.0);
            }
        },
        TokV::Word(word, style) => {
            let st1 = if st.w + word.len() > width && st.w > 0 { f } else { st };
            let x = (word, style);
            lemma_spans_text_push(st1.spans, x);
            let n = wrap_tok(st, t, width);
            assert(n.spans == st1.spans.push(x));
            if n.text.len() > width {
                if st1.w == 0 {
                    assert(st1.text.len() == 0);
                    assert(n.spans[st1.spans.len() as int].0.len() == n.text.len());
                } else {
                    assert(st1 == st);
                    assert(st.w + word.len() <= width);
                }
            }
        },
    }
}

proof fn lemma_wrap_run_inv(toks: Seq<TokV>, width: nat)
    ensures
        wrap_inv(wrap_run(toks, width), width),
    decreases toks.len(),
{
    if toks.len() == 0 {
        assert(spans_text(Seq::<(Seq<char>, Style)>::empty()) == Seq::<char>::empty());
    } else {
        lemma_wrap_run_inv(toks.drop_last(), width);
        lemma_wrap_tok_inv(wrap_run(toks.drop_last(), width), toks.last(), width);
    }
}

/// Word wrapping: every display line's text is the text of its runs, and
/// fits in `width` columns unless one word alone is wider.
pub proof fn lemma_wrap_fits(toks: Seq<TokV>, width: nat)
    ensures
        wrap_spec(toks, width).0.len() == wrap_spec(toks, width).1.len(),
        forall|k: int| 0 <= k < wrap_spec(toks, width).0.len()
            ==> #[trigger] wrap_spec(toks, width).1[k] == spans_text(wrap_spec(toks, width).0[k]),
        forall|k: int| 0 <= k < wrap_spec(toks, width).0.len()
            ==> fits_or_one_word(wrap_spec(toks, width).0[k], #[trigger] wrap_spec(toks, width).1[k], width),
{
    let st = wrap_run(toks, width);
    lemma_wrap_run_inv(toks, width);
    if st.spans.len() > 0 {
        let f = flush(st);
        assert forall|k: int| 0 <= k < f.lines.len() implies #[trigger] f.texts[k] == spans_text(f.lines[k]) by {
            if k < st.lines.len() {
                assert(f.texts[k] == st.texts[k]);
            }
        }
        assert forall|k: int| 0 <= k < f.lines.len() implies #[trigger] fits_or_one_word(f.lines[k], f.texts[k], width) by {
            if k < st.lines.len() {
                assert(f.texts[k] == st.texts[k]);
                assert(f.lines[k] == st.lines[k]);
            }
        }
    }
}


/// The runs of the display lines, one line after another.
pub open spec fn flatten_runs(ls: Seq<Seq<(Seq<char>, Style)>>) -> Seq<(Seq<char>, Style)>
    decreases ls.len(),
{
    if ls.len() == 0 { Seq::empty() } else { flatten_runs(ls.drop_last()) + ls.last() }
}

/// A run holding one plain space.
pub open spec fn is_space_run(x: (Seq<char>, Style)) -> bool {
    x == (seq![' '], plain_style())
}

/// The runs other than plain spaces, in order.
pub open spec fn without_spaces(v: Seq<(Seq<char>, Style)>) -> Seq<(Seq<char>, Style)>
    decreases v.len(),
{
    if v.len() == 0 {
        Seq::empty()
    } else if is_space_run(v.last()) {
        without_spaces(v.drop_last())
    } else {
        without_spaces(v.drop_last()).push(v.last())
    }
}

/// Some token is a word.
pub open spec fn has_word(toks: Seq<TokV>) -> bool {
    exists|i: int| 0 <= i < toks.len() && #[trigger] toks[i] is Word
}

/// The token is a word whose text starts with a space.
pub open spec fn word_starts_with_space(t: TokV) -> bool {
    match t {
        TokV::Word(w, _) => w.len() > 0 && w[0] == ' ',
        TokV::Space => false,
    }
}

/// Text that does not start with a space.
pub open spec fn no_lead_space(t: Seq<char>) -> bool {
    t.len() > 0 ==> t[0] != ' '
}

proof fn lemma_has_word_last(toks: Seq<TokV>)
    requires
        toks.len() > 0,
    ensures
        has_word(toks) == (has_word(toks.drop_last()) || toks.last() is Word),
{
    let p = toks.drop_last();
    if has_word(p) {
        let i = choose|i: int| 0 <= i < p.len() && #[trigger] p[i] is Word;
        assert(toks[i] == p[i]);
    }
    if toks.last() is Word {
        assert(toks[toks.len() - 1] is Word);
    }
    if has_word(toks) {
        let i = choose|i: int| 0 <= i < toks.len() && #[trigger] toks[i] is Word;
        if i < toks.len() - 1 {
            assert(p[i] == toks[i]);
        }
    }
}

proof fn lemma_wrap_run_words(toks: Seq<TokV>, width: nat)
    ensures
        ({
            let st = wrap_run(toks, width);
            &&& without_spaces(flatten_runs(st.lines) + st.spans) == without_spaces(unwrapped_spans(toks))
            &&& (st.lines.len() > 0 || st.spans.len() > 0) == has_word(toks)
            &&& (forall|i: int| 0 <= i < toks.len() ==> !word_starts_with_space(#[trigger] toks[i])) ==> {
                &&& forall|k: int| 0 <= k < st.texts.len() ==> no_lead_space(#[trigger] st.texts[k])
                &&& no_lead_space(st.text)
            }
        }),
    decreases toks.len(),
{
    if toks.len() == 0 {
        assert(unwrapped_spans(toks) =~= Seq::<(Seq<char>, Style)>::empty());
        assert(flatten_runs(Seq::<Seq<(Seq<char>, Style)>>::empty()) + Seq::<(Seq<char>, Style)>::empty()
            =~= Seq::<(Seq<char>, Style)>::empty());
    } else {
        let p = toks.drop_last();
        let t = toks.last();
        lemma_wrap_run_words(p, width);
        lemma_wrap_run_inv(p, width);
        lemma_has_word_last(toks);
        let st = wrap_run(p, width);
        let n = wrap_tok(st, t, width);
        assert(n == wrap_run(toks, width));
        assert(unwrapped_spans(toks) =~= unwrapped_spans(p).push(tok_span(t)));
        assert(unwrapped_spans(p).push(tok_span(t)).drop_last() =~= unwrapped_spans(p));
        let f = flush(st);
        assert(f.lines.drop_last() =~= st.lines);
        assert(flatten_runs(f.lines) + f.spans =~= flatten_runs(st.lines) + st.spans);
        if st.spans.len() == 0 {
            assert(spans_text(st.spans) == Seq::<char>::empty());
        }
        let lead = forall|i: int| 0 <= i < toks.len() ==> !word_starts_with_space(#[trigger] toks[i]);
        if lead {
            assert forall|i: int| 0 <= i < p.len() implies !word_starts_with_space(#[trigger] p[i]) by {
                assert(p[i] == toks[i]);
            }
            assert(!word_starts_with_space(toks[toks.len() - 1]));
            assert forall|k: int| 0 <= k < f.texts.len() implies no_lead_space(#[trigger] f.texts[k]) by {
                if k < st.texts.len() {
                    assert(f.texts[k] == st.texts[k]);
                }
            }
        }
        match t {
            TokV::Space => {
                if st.w != 0 && st.w + 1 <= width {
                    let x = (seq![' '], plain_style());
                    assert(flatten_runs(st.lines) + st.spans.push(x) =~= (flatten_runs(st.lines) + st.spans).push(x));
                    assert((flatten_runs(st.lines) + st.spans).push(x).drop_last() =~= flatten_runs(st.lines) + st.spans);
                    if lead {
                        assert(st.text.push(' ')[0] == st.text[0]);
                    }
                }
            },
            TokV::Word(word, style) => {
                let st1 = if st.w + word.len() > width && st.w > 0 { f } else { st };
                let x = (word, style);
                assert(flatten_runs(st1.lines) + st1.spans.push(x) =~= (flatten_runs(st1.lines) + st1.spans).push(x));
                assert((flatten_runs(st1.lines) + st1.spans).push(x).drop_last() =~= flatten_runs(st1.lines) + st1.spans);
                assert(tok_span(t) == x);
                if lead && (st1.text + word).len() > 0 {
                    if st1.text.len() > 0 {
                        assert((st1.text + word)[0] == st1.text[0]);
                    } else {
                        assert((st1.text + word)[0] == word[0]);
                    }
                }
            },
        }
    }
}

/// Word wrapping keeps the words in order: the runs of all display lines, one
/// line after another and without the plain spaces, are the tokens' runs
/// without the plain spaces. There is no display line exactly when no token
/// is a word. When no word starts with a space, no display line does.
pub proof fn lemma_wrap_keeps_words(toks: Seq<TokV>, width: nat)
    ensures
        without_spaces(flatten_runs(wrap_spec(toks, width).0)) == without_spaces(unwrapped_spans(toks)),
        (wrap_spec(toks, width).0.len() == 0) == !has_word(toks),
        (forall|i: int| 0 <= i < toks.len() ==> !word_starts_with_space(#[trigger] toks[i]))
            ==> forall|k: int| 0 <= k < wrap_spec(toks, width).1.len() ==> no_lead_space(#[trigger] wrap_spec(toks, width).1[k]),
{
    lemma_wrap_run_words(toks, width);
    let st = wrap_run(toks, width);
    if st.spans.len() > 0 {
        let f = flush(st);
        assert(f.lines.drop_last() =~= st.lines);
        assert(flatten_runs(f.lines) =~= flatten_runs(st.lines) + st.spans);
        assert forall|k: int| 0 <= k < f.texts.len() && no_lead_space(st.text)
            && (forall|j: int| 0 <= j < st.texts.len() ==> no_lead_space(#[trigger] st.texts[j]))
            implies no_lead_space(#[trigger] f.texts[k]) by {
            if k < st.texts.len() {
                assert(f.texts[k] == st.texts[k]);
            }
        }
    } else {
        assert(flatten_runs(st.lines) + st.spans =~= flatten_runs(st.lines));
    }
}

proof fn lemma_spans_text_add(a: Seq<(Seq<char>, Style)>, b: Seq<(Seq<char>, Style)>)
    ensures
        spans_text(a + b) == spans_text(a) + spans_text(b),
    decreases b.len(),
{
    if b.len() == 0 {
        assert(a + b =~= a);
    } else {
        lemma_spans_text_add(a, b.drop_last());
        assert((a + b).drop_last() =~= a + b.drop_last());
        assert((a + b).last() == b.last());
    }
}

proof fn lemma_render_line_text(l: LogV, width: nat)
    ensures
        render_line(l, width).0.len() == render_line(l, width).1.len(),
        forall|k: int| 0 <= k < render_line(l, width).0.len()
            ==> #[trigger] render_line(l, width).1[k] == spans_text(render_line(l, width).0[k]),
{
    let r = render_line(l, width);
    match l.kind {
        LineKind::Blank => {
            assert(spans_text(r.0[0]) == Seq::<char>::empty());
        },
        LineKind::Rule => {
            let v = seq![(rule_text(width), fg_style(gray()))];
            assert(v.drop_last() =~= Seq::<(Seq<char>, Style)>::empty());
            assert(spans_text(v.drop_last()) == Seq::<char>::empty());
            assert(spans_text(v) =~= Seq::<char>::empty() + rule_text(width));
            assert(spans_text(v) =~= rule_text(width));
        },
        LineKind::Code | LineKind::Pre => {},
        LineKind::Heading => {
            lemma_wrap_fits(l.toks, width);
        },
        LineKind::Normal => {
            let pre = prefix_spans(l.quote, l.indent);
            let a = avail_width(width, l.quote, l.indent);
            lemma_wrap_fits(l.toks, a);
            let w = wrap_spec(l.toks, a);
            if w.0.len() == 0 {
                assert(spans_text(r.0[0]) == Seq::<char>::empty());
            } else {
                assert forall|k: int| 0 <= k < r.0.len() implies #[trigger] r.1[k] == spans_text(r.0[k]) by {
                    lemma_spans_text_add(pre, w.0[k]);
                }
            }
        },
    }
}

/// Layout: there is one text per display line, and it is the text of the
/// line's runs.
pub proof fn lemma_layout_text(ls: Seq<LogV>, width: nat)
    ensures
        layout_spec(ls, width).0.len() == layout_spec(ls, width).1.len(),
        forall|j: int| 0 <= j < layout_spec(ls, width).0.len()
            ==> #[trigger] layout_spec(ls, width).1[j] == spans_text(layout_spec(ls, width).0[j]),
    decreases ls.len(),
{
    if ls.len() > 0 {
        lemma_layout_text(ls.drop_last(), width);
        lemma_render_line_text(ls.last(), width);
        let a = layout_spec(ls.drop_last(), width);
        let b = render_line(ls.last(), width);
        let r = layout_spec(ls, width);
        assert forall|j: int| 0 <= j < r.0.len() implies #[trigger] r.1[j] == spans_text(r.0[j]) by {
            if j < a.0.len() {
                assert(r.0[j] == a.0[j]);
                assert(r.1[j] == a.1[j]);
            } else {
                assert(r.0[j] == b.0[j - a.0.len()]);
                assert(r.1[j] == b.1[j - a.0.len()]);
            }
        }
    }
}

proof fn lemma_layout_take_step(ls: Seq<LogV>, width: nat, j: int)
    requires
        0 <= j < ls.len(),
    ensures
        layout_spec(ls.take(j), width).0.len() <= layout_spec(ls.take(j + 1), width).0.len(),
{
    assert(ls.take(j + 1).drop_last() =~= ls.take(j));
}

proof fn lemma_layout_take_to_end(ls: Seq<LogV>, width: nat, j: int)
    requires
        0 <= j <= ls.len(),
    ensures
        layout_spec(ls.take(j), width).0.len() <= layout_spec(ls, width).0.len(),
    decreases ls.len() - j,
{
    if j == ls.len() {
        assert(ls.take(j) =~= ls);
    } else {
        lemma_layout_take_step(ls, width, j);
        lemma_layout_take_to_end(ls, width, j + 1);
    }
}

/// Layout: the first display line of a logical line never comes before that
/// of an earlier one, and none is past the end.
pub proof fn lemma_layout_map_monotonic(ls: Seq<LogV>, width: nat, i: int, j: int)
    requires
        0 <= i <= j <= ls.len(),
    ensures
        layout_spec(ls.take(i), width).0.len() <= layout_spec(ls.take(j), width).0.len(),
        layout_spec(ls.take(j), width).0.len() <= layout_spec(ls, width).0.len(),
    decreases j - i,
{
    lemma_layout_take_to_end(ls, width, j);
    if i < j {
        lemma_layout_map_monotonic(ls, width, i, j - 1);
        lemma_layout_take_step(ls, width, j - 1);
    }
}


/// `b` starts with all of `a`.
pub open spec fn extends(a: Seq<LogV>, b: Seq<LogV>) -> bool {
    a.len() <= b.len() && forall|i: int| 0 <= i < a.len() ==> #[trigger] b[i] == a[i]
}

/// Every entry of the table of contents names a heading line.
pub open spec fn toc_ok(m: BModel) -> bool {
    forall|k: int| 0 <= k < m.toc.len()
        ==> (#[trigger] m.toc[k]).2 < m.lines.len() && m.lines[m.toc[k].2 as int].kind == LineKind::Heading
}

/// Lines only added after, the table of contents unchanged.
pub open spec fn grows(m: BModel, m2: BModel) -> bool {
    extends(m.lines, m2.lines) && m2.toc == m.toc
}

proof fn lemma_grows_trans(a: BModel, b: BModel, c: BModel)
    requires
        grows(a, b),
        grows(b, c),
    ensures
        grows(a, c),
{
    assert forall|i: int| 0 <= i < a.lines.len() implies #[trigger] c.lines[i] == a.lines[i] by {
        assert(c.lines[i] == b.lines[i]);
    }
}

proof fn lemma_grows_toc_ok(m: BModel, m2: BModel)
    requires
        toc_ok(m),
        grows(m, m2),
    ensures
        toc_ok(m2),
{
    assert forall|k: int| 0 <= k < m2.toc.len() implies (#[trigger] m2.toc[k]).2 < m2.lines.len()
        && m2.lines[m2.toc[k].2 as int].kind == LineKind::Heading by {
        assert(m2.toc[k] == m.toc[k]);
        assert(m2.lines[m.toc[k].2 as int] == m.lines[m.toc[k].2 as int]);
    }
}

proof fn lemma_finish_grows(m: BModel, kind: LineKind)
    ensures
        grows(m, finish(m, kind)),
{
}

proof fn lemma_code_lines_grows(m: BModel, ls: Seq<Seq<char>>)
    ensures
        grows(m, code_lines(m, ls)),
        code_lines(m, ls).quote_depth == m.quote_depth,
    decreases ls.len(),
{
    if ls.len() > 0 {
        lemma_code_lines_grows(m, ls.drop_last());
        let m1 = code_lines(m, ls.drop_last());
        let m2 = code_lines(m, ls);
        assert(grows(m1, m2));
        lemma_grows_trans(m, m1, m2);
    }
}

proof fn lemma_start_grows(m: BModel, t: MdTag, url: Seq<char>)
    ensures
        grows(m, md_start(m, t, url)),
{
    let f = finish(m, LineKind::Normal);
    lemma_finish_grows(m, LineKind::Normal);
    let r = md_start(m, t, url);
    match t {
        MdTag::BlockQuote | MdTag::List | MdTag::CodeBlock | MdTag::Table => {
            assert(r.lines == f.lines && r.toc == f.toc);
        },
        _ => {},
    }
}

proof fn lemma_text_grows(m: BModel, x: Seq<char>)
    ensures
        grows(m, md_text(m, x)),
{
    if m.in_heading is None && m.link_url is None && m.in_code {
        lemma_code_lines_grows(m, lines_spec(x));
    }
}

proof fn lemma_end_toc_ok(m: BModel, t: MdTag)
    requires
        toc_ok(m),
    ensures
        toc_ok(md_end(m, t)),
{
    let r = md_end(m, t);
    match t {
        MdTag::Heading(_) => {
            let level: u8 = match m.in_heading {
                Some(l) => l,
                None => 1,
            };
            let m1 = BModel {
                in_heading: None,
                toc: m.toc.push((level, m.heading_title, m.lines.len())),
                heading_title: Seq::empty(),
                ..m
            };
            let f = finish(m1, LineKind::Heading);
            assert(f.lines == m.lines.push(LogV { toks: m.cur, kind: LineKind::Heading, indent: indent_of(m.list_depth), quote: m.quote_depth }));
            assert(toc_ok(f)) by {
                assert forall|k: int| 0 <= k < f.toc.len() implies (#[trigger] f.toc[k]).2 < f.lines.len()
                    && f.lines[f.toc[k].2 as int].kind == LineKind::Heading by {
                    if k < m.toc.len() {
                        assert(f.toc[k] == m.toc[k]);
                    }
                }
            }
            lemma_grows_toc_ok(f, blank(f));
        },
        MdTag::BlockQuote | MdTag::Item | MdTag::Paragraph => {
            let f = finish(m, LineKind::Normal);
            lemma_finish_grows(m, LineKind::Normal);
            lemma_grows_toc_ok(m, f);
            lemma_grows_toc_ok(f, blank(f));
        },
        MdTag::List => {
            let m1 = BModel { list_depth: dec16(m.list_depth), ..m };
            lemma_grows_toc_ok(m1, blank(m1));
        },
        MdTag::CodeBlock => {
            let m1 = BModel { in_code: false, ..m };
            lemma_grows_toc_ok(m1, blank(m1));
        },
        MdTag::Table => {
            let m1 = BModel { in_table: false, ..m };
            let e = emit_table(m1);
            assert(grows(m1, e));
            lemma_grows_toc_ok(m1, e);
            lemma_grows_toc_ok(e, blank(e));
        },
        _ => {},
    }
}

proof fn lemma_step_toc_ok(m: BModel, e: (MdKind, MdTag, Seq<char>))
    requires
        toc_ok(m),
    ensures
        toc_ok(md_step(m, e)),
{
    let (k, t, x) = e;
    if m.in_cell && (k == MdKind::Text || k == MdKind::Code) {
    } else if m.in_cell && k == MdKind::End && t == MdTag::TableCell {
    } else {
        match k {
            MdKind::Start => {
                lemma_start_grows(m, t, x);
                lemma_grows_toc_ok(m, md_start(m, t, x));
            },
            MdKind::End => lemma_end_toc_ok(m, t),
            MdKind::Text => {
                lemma_text_grows(m, x);
                lemma_grows_toc_ok(m, md_text(m, x));
            },
            MdKind::HardBreak => {
                lemma_grows_toc_ok(m, finish(m, LineKind::Normal));
            },
            MdKind::Rule => {
                lemma_grows_toc_ok(m, push_raw(m, Seq::empty(), LineKind::Rule));
            },
            _ => {},
        }
    }
}

proof fn lemma_run_toc_ok(evs: Seq<MdEvent>, k: nat)
    ensures
        toc_ok(md_run(evs, k)),
    decreases k,
{
    if k > 0 {
        lemma_run_toc_ok(evs, (k - 1) as nat);
        lemma_step_toc_ok(md_run(evs, (k - 1) as nat), md_view(evs[k - 1]));
    }
}

/// Each entry of the table of contents names a heading among the logical
/// lines.
pub proof fn lemma_toc_names_headings(src: Seq<char>)
    ensures
        forall|k: int| 0 <= k < build_model(src).toc.len()
            ==> (#[trigger] build_model(src).toc[k]).2 < build_model(src).lines.len()
                && build_model(src).lines[build_model(src).toc[k].2 as int].kind == LineKind::Heading,
{
    let evs = md_events(src);
    lemma_run_toc_ok(evs, evs.len());
    let m = md_run(evs, evs.len());
    lemma_grows_toc_ok(m, finish(m, LineKind::Normal));
}


proof fn lemma_gutters_text(q: nat)
    ensures
        spans_text(Seq::new(q, |i: int| gutter())).len() == 2 * q,
    decreases q,
{
    if q > 0 {
        let g = Seq::new(q, |i: int| gutter());
        assert(g.drop_last() =~= Seq::new((q - 1) as nat, |i: int| gutter()));
        lemma_gutters_text((q - 1) as nat);
    }
}

proof fn lemma_prefix_text_len(quote: u8, indent: u16)
    ensures
        spans_text(prefix_spans(quote, indent)).len() == 2 * quote + indent,
{
    let g = Seq::new(quote as nat, |i: int| gutter());
    lemma_gutters_text(quote as nat);
    if indent > 0 {
        let t = seq![(Seq::new(indent as nat, |i: int| ' '), plain_style())];
        lemma_spans_text_add(g, t);
        assert(t.drop_last() =~= Seq::<(Seq<char>, Style)>::empty());
        assert(spans_text(t.drop_last()) == Seq::<char>::empty());
        assert(spans_text(t).len() == indent);
        assert(prefix_spans(quote, indent) == g + t);
    } else {
        assert(prefix_spans(quote, indent) =~= g);
    }
}

/// A wrapped logical line (a heading, or running text whose gutters and
/// indentation leave at least four columns) never draws wider than the
/// width, except where one word is wider than the columns left for text: a
/// word is never broken.
pub proof fn lemma_line_fits(l: LogV, width: nat)
    requires
        l.kind == LineKind::Heading || l.kind == LineKind::Normal,
        l.kind == LineKind::Normal ==> 2 * l.quote + l.indent + 4 <= width,
    ensures
        forall|k: int| 0 <= k < render_line(l, width).1.len() ==> (#[trigger] render_line(l, width).1[k]).len() <= width
            || exists|i: int| 0 <= i < render_line(l, width).0[k].len()
                && render_line(l, width).0[k][i].0.len() > (if l.kind == LineKind::Normal {
                    avail_width(width, l.quote, l.indent)
                } else {
                    width
                }),
{
    let r = render_line(l, width);
    lemma_render_line_text(l, width);
    if l.kind == LineKind::Heading {
        lemma_wrap_fits(l.toks, width);
        assert forall|k: int| 0 <= k < r.1.len() implies (#[trigger] r.1[k]).len() <= width
            || exists|i: int| 0 <= i < r.0[k].len() && r.0[k][i].0.len() > width by {
            assert(fits_or_one_word(r.0[k], r.1[k], width));
        }
    } else {
        let a = avail_width(width, l.quote, l.indent);
        let pre = prefix_spans(l.quote, l.indent);
        let w = wrap_spec(l.toks, a);
        lemma_wrap_fits(l.toks, a);
        lemma_prefix_text_len(l.quote, l.indent);
        assert(a == width - (2 * l.quote + l.indent));
        if w.0.len() > 0 {
            assert forall|k: int| 0 <= k < r.1.len() implies (#[trigger] r.1[k]).len() <= width
                || exists|i: int| 0 <= i < r.0[k].len() && r.0[k][i].0.len() > a by {
                assert(r.1[k] == spans_text(pre) + w.1[k]);
                assert(r.0[k] == pre + w.0[k]);
                assert(fits_or_one_word(w.0[k], w.1[k], a));
                if w.1[k].len() > a {
                    let i = choose|i: int| 0 <= i < w.0[k].len() && #[trigger] w.0[k][i].0.len() == w.1[k].len();
                    assert(r.0[k][pre.len() + i] == w.0[k][i]);
                }
            }
        }
    }
}


proof fn lemma_layout_prefix(ls: Seq<LogV>, width: nat, j: int)
    requires
        0 <= j <= ls.len(),
    ensures
        layout_spec(ls.take(j), width).0.len() <= layout_spec(ls, width).0.len(),
        layout_spec(ls, width).0.take(layout_spec(ls.take(j), width).0.len() as int) == layout_spec(ls.take(j), width).0,
        layout_spec(ls, width).1.take(layout_spec(ls.take(j), width).1.len() as int) == layout_spec(ls.take(j), width).1,
    decreases ls.len() - j,
{
    lemma_layout_text(ls, width);
    lemma_layout_text(ls.take(j), width);
    if j == ls.len() {
        assert(ls.take(j) =~= ls);
        assert(layout_spec(ls, width).0.take(layout_spec(ls, width).0.len() as int) =~= layout_spec(ls, width).0);
        assert(layout_spec(ls, width).1.take(layout_spec(ls, width).1.len() as int) =~= layout_spec(ls, width).1);
    } else {
        lemma_layout_prefix(ls, width, j + 1);
        lemma_layout_text(ls.take(j + 1), width);
        let a = layout_spec(ls.take(j), width);
        let b = layout_spec(ls.take(j + 1), width);
        let c = layout_spec(ls, width);
        assert(ls.take(j + 1).drop_last() =~= ls.take(j));
        assert(b.0 == a.0 + render_line(ls[j], width).0);
        assert(b.1 == a.1 + render_line(ls[j], width).1);
        assert(c.0.take(a.0.len() as int) =~= b.0.take(a.0.len() as int));
        assert(b.0.take(a.0.len() as int) =~= a.0);
        assert(c.1.take(a.1.len() as int) =~= b.1.take(a.1.len() as int));
        assert(b.1.take(a.1.len() as int) =~= a.1);
    }
}

/// The first display line of logical line `i` stands at the index the layout
/// maps `i` to: a jump to a heading of the table of contents lands on its
/// first row.
pub proof fn lemma_map_lands_on_line(ls: Seq<LogV>, width: nat, i: int)
    requires
        0 <= i < ls.len(),
        render_line(ls[i], width).0.len() > 0,
    ensures
        layout_spec(ls.take(i), width).0.len() < layout_spec(ls, width).0.len(),
        layout_spec(ls, width).0[layout_spec(ls.take(i), width).0.len() as int] == render_line(ls[i], width).0[0],
        layout_spec(ls, width).1[layout_spec(ls.take(i), width).0.len() as int] == render_line(ls[i], width).1[0],
{
    lemma_layout_prefix(ls, width, i + 1);
    lemma_layout_text(ls, width);
    lemma_layout_text(ls.take(i), width);
    lemma_layout_text(ls.take(i + 1), width);
    lemma_render_line_text(ls[i], width);
    let a = layout_spec(ls.take(i), width);
    let b = layout_spec(ls.take(i + 1), width);
    let c = layout_spec(ls, width);
    let r = render_line(ls[i], width);
    assert(ls.take(i + 1).drop_last() =~= ls.take(i));
    assert(ls.take(i + 1).last() == ls[i]);
    assert(b.0 == a.0 + r.0);
    assert(b.1 == a.1 + r.1);
    let n = a.0.len() as int;
    assert(b.0[n] == r.0[0]);
    assert(b.1[n] == r.1[0]);
    assert(c.0.take(b.0.len() as int)[n] == c.0[n]);
    assert(c.1.take(b.1.len() as int)[n] == c.1[n]);
}

} // verus!
