//! Word (.docx) body to markdown. The body part `word/document.xml` is read
//! event by event and turned into markdown: headings, bold and italic runs,
//! list items and tables.
use vstd::prelude::*;
use vstd::string::StringSliceAdditionalSpecFns;
use crate::text::{
    chars_of, string_of, trimmed, trim, parse_usize, parse_usize_spec, str_eq, push_str,
    push_char, push_joined, push_repeated, push_char_repeated, join, repeat, starts_with,
    has_prefix, strip_all_prefix, strip_all_prefix_of, utf8_lossy, lossy_text,
};
use crate::xml::{
    XmlEvent, XmlReader, XmlTag, is_stop, first_stop, stop_index, fold_events, named, name_is,
    lemma_first_stop_unique, attr_first, first_attr,
};

verus! {

/// Value of the first attribute `key` of a tag, lossily decoded.
pub open spec fn attr_val(t: XmlTag, key: &str) -> Option<Seq<char>> {
    match attr_first(t.attrs@, key.spec_bytes()) {
        Some(v) => Some(lossy_text(v)),
        None => None,
    }
}

fn attr_val_exec(t: &XmlTag, key: &str) -> (r: Option<String>)
    ensures
        match r {
            Some(s) => attr_val(*t, key) == Some(s@),
            None => attr_val(*t, key) is None,
        },
{
    match first_attr(t, key) {
        Some(v) => Some(utf8_lossy(v.as_slice())),
        None => None,
    }
}

/// A boolean run property (`<w:b/>`, `<w:i/>`) is on unless its `w:val` is
/// `0`, `false` or `off`.
pub open spec fn toggle_on(t: XmlTag) -> bool {
    match attr_val(t, "w:val") {
        Some(v) => !(v == "0"@ || v == "false"@ || v == "off"@),
        None => true,
    }
}

fn toggle_on_exec(t: &XmlTag) -> (r: bool)
    ensures
        r == toggle_on(*t),
{
    match attr_val_exec(t, "w:val") {
        Some(v) => !(str_eq(v.as_str(), "0") || str_eq(v.as_str(), "false") || str_eq(v.as_str(), "off")),
        None => true,
    }
}

/// The state of the conversion.
pub struct DocxModel {
    pub out: Seq<char>,
    pub para: Seq<char>,
    pub bold: bool,
    pub italic: bool,
    pub in_text: bool,
    pub style: Option<Seq<char>>,
    pub is_list: bool,
    pub in_table: bool,
    pub in_cell: bool,
    pub cell: Seq<char>,
    pub row: Seq<Seq<char>>,
    pub rows: Seq<Seq<Seq<char>>>,
}

/// Nothing converted yet.
pub open spec fn docx_init() -> DocxModel {
    DocxModel {
        out: Seq::empty(),
        para: Seq::empty(),
        bold: false,
        italic: false,
        in_text: false,
        style: None,
        is_list: false,
        in_table: false,
        in_cell: false,
        cell: Seq::empty(),
        row: Seq::empty(),
        rows: Seq::empty(),
    }
}

/// Heading level named by a `HeadingN` style: the number after the
/// (repeatedly stripped) `Heading` prefix, 1 when it is not a number, kept
/// within 1..=6.
pub open spec fn heading_level(style: Seq<char>) -> nat {
    let n: nat = match parse_usize_spec(strip_all_prefix(style, "Heading"@)) {
        Some(n) => n as nat,
        None => 1,
    };
    if n < 1 { 1 } else if n > 6 { 6 } else { n }
}

/// The markdown prefix of a paragraph with this style.
pub open spec fn para_prefix(style: Option<Seq<char>>, is_list: bool) -> Seq<char> {
    match style {
        Some(s) => if has_prefix(s, "Heading"@) {
            Seq::new(heading_level(s), |i: int| '#') + " "@
        } else if s == "Title"@ {
            "# "@
        } else if s == "Subtitle"@ {
            "## "@
        } else if has_prefix(s, "List"@) || is_list {
            "- "@
        } else {
            Seq::empty()
        },
        None => if is_list { "- "@ } else { Seq::empty() },
    }
}

/// A finished paragraph is written (prefixed, trimmed, followed by a blank
/// line) unless it is blank.
pub open spec fn flush_para(m: DocxModel) -> DocxModel {
    let text = trim(m.para);
    if text.len() == 0 {
        m
    } else {
        DocxModel { out: m.out + para_prefix(m.style, m.is_list) + text + "\n\n"@, ..m }
    }
}

/// `s` with each `|` escaped as `\|`.
pub open spec fn escape_pipes(s: Seq<char>) -> Seq<char>
    decreases s.len(),
{
    if s.len() == 0 {
        Seq::empty()
    } else {
        escape_pipes(s.drop_last()) + if s.last() == '|' { seq!['\\', '|'] } else { seq![s.last()] }
    }
}

/// Number of cells of the widest row.
pub open spec fn max_row_len(rows: Seq<Seq<Seq<char>>>) -> nat
    decreases rows.len(),
{
    if rows.len() == 0 {
        0
    } else {
        let m = max_row_len(rows.drop_last());
        if rows.last().len() > m { rows.last().len() } else { m }
    }
}

/// Escaped cell `i` of a row, empty past its end.
pub open spec fn table_cell(row: Seq<Seq<char>>, i: int) -> Seq<char> {
    if 0 <= i < row.len() { escape_pipes(row[i]) } else { Seq::empty() }
}

/// One markdown table line with `ncols` cells.
pub open spec fn table_line(row: Seq<Seq<char>>, ncols: nat) -> Seq<char> {
    "| "@ + join(Seq::new(ncols, |i: int| table_cell(row, i)), " | "@) + " |\n"@
}

/// The lines of several table rows.
pub open spec fn table_lines(rows: Seq<Seq<Seq<char>>>, ncols: nat) -> Seq<char>
    decreases rows.len(),
{
    if rows.len() == 0 {
        Seq::empty()
    } else {
        table_lines(rows.drop_last(), ncols) + table_line(rows.last(), ncols)
    }
}

/// A markdown table: the first row as header, a separator, the other rows,
/// a blank line; nothing for a table without cells.
pub open spec fn table_text(rows: Seq<Seq<Seq<char>>>) -> Seq<char> {
    let n = max_row_len(rows);
    if rows.len() == 0 || n == 0 {
        Seq::empty()
    } else {
        table_line(rows[0], n) + "|"@ + repeat(" --- |"@, n) + "\n"@ + table_lines(rows.skip(1), n) + "\n"@
    }
}

/// An opening (or empty) tag.
pub open spec fn docx_open(m: DocxModel, t: XmlTag) -> DocxModel {
    if named(t.name, "w:p") {
        DocxModel { para: Seq::empty(), style: None, is_list: false, ..m }
    } else if named(t.name, "w:pStyle") {
        DocxModel { style: attr_val(t, "w:val"), ..m }
    } else if named(t.name, "w:numPr") {
        DocxModel { is_list: true, ..m }
    } else if named(t.name, "w:b") {
        DocxModel { bold: toggle_on(t), ..m }
    } else if named(t.name, "w:i") {
        DocxModel { italic: toggle_on(t), ..m }
    } else if named(t.name, "w:t") {
        DocxModel { in_text: true, ..m }
    } else if named(t.name, "w:tbl") {
        DocxModel { in_table: true, rows: Seq::empty(), ..m }
    } else if named(t.name, "w:tr") {
        DocxModel { row: Seq::empty(), ..m }
    } else if named(t.name, "w:tc") {
        DocxModel { in_cell: true, cell: Seq::empty(), ..m }
    } else {
        m
    }
}

/// Run text: into the current cell as is, or into the paragraph wrapped in
/// `**` when bold and then in `*` when italic.
pub open spec fn docx_text(m: DocxModel, s: Seq<char>) -> DocxModel {
    if m.in_cell {
        DocxModel { cell: m.cell + s, ..m }
    } else {
        let b = if m.bold { "**"@ + s + "**"@ } else { s };
        let piece = if m.italic { "*"@ + b + "*"@ } else { b };
        DocxModel { para: m.para + piece, ..m }
    }
}

/// A closing tag.
pub open spec fn docx_close(m: DocxModel, n: Vec<u8>) -> DocxModel {
    if named(n, "w:t") {
        DocxModel { in_text: false, ..m }
    } else if named(n, "w:r") {
        DocxModel { bold: false, italic: false, ..m }
    } else if named(n, "w:p") {
        if m.in_cell { DocxModel { cell: m.cell.push(' '), ..m } } else { flush_para(m) }
    } else if named(n, "w:tc") {
        DocxModel { in_cell: false, row: m.row.push(trim(m.cell)), ..m }
    } else if named(n, "w:tr") {
        DocxModel { rows: m.rows.push(m.row), row: Seq::empty(), ..m }
    } else if named(n, "w:tbl") {
        DocxModel { in_table: false, out: m.out + table_text(m.rows), rows: Seq::empty(), ..m }
    } else {
        m
    }
}

/// One event of the body part.
pub open spec fn docx_step(m: DocxModel, ev: XmlEvent) -> DocxModel {
    match ev {
        XmlEvent::Tag(t, _) => docx_open(m, t),
        XmlEvent::Text(s) => if m.in_text { docx_text(m, s@) } else { m },
        XmlEvent::End(n) => docx_close(m, n),
        _ => m,
    }
}

/// The markdown made of a `word/document.xml` body, read up to its end or
/// its first syntax error.
pub open spec fn docx_markdown(xml: Seq<char>) -> Seq<char> {
    fold_events(xml, stop_index(xml), docx_init(), |m: DocxModel, e: XmlEvent| docx_step(m, e)).out
}

/// Converts a body part as it is read.
pub struct DocxParser {
    out: String,
    para: String,
    bold: bool,
    italic: bool,
    in_text: bool,
    style: Option<String>,
    is_list: bool,
    in_table: bool,
    in_cell: bool,
    cell: String,
    row: Vec<String>,
    rows: Vec<Vec<String>>,
}

/// Text of each cell of each row.
pub open spec fn rows_text(rows: Seq<Vec<String>>) -> Seq<Seq<Seq<char>>> {
    rows.map_values(|r: Vec<String>| r@.map_values(|c: String| c@))
}

impl View for DocxParser {
    type V = DocxModel;

    closed spec fn view(&self) -> DocxModel {
        DocxModel {
            out: self.out@,
            para: self.para@,
            bold: self.bold,
            italic: self.italic,
            in_text: self.in_text,
            style: match self.style {
                Some(s) => Some(s@),
                None => None,
            },
            is_list: self.is_list,
            in_table: self.in_table,
            in_cell: self.in_cell,
            cell: self.cell@,
            row: self.row@.map_values(|c: String| c@),
            rows: rows_text(self.rows@),
        }
    }
}

fn escape_pipes_exec(s: &String) -> (r: String)
    ensures
        r@ == escape_pipes(s@),
{
    let v = chars_of(s.as_str());
    let mut r = String::new();
    let mut i: usize = 0;
    while i < v.len()
        invariant
            i <= v@.len(),
            r@ == escape_pipes(v@.take(i as int)),
        decreases v@.len() - i,
    {
        if v[i] == '|' {
            push_char(&mut r, '\\');
            push_char(&mut r, '|');
        } else {
            push_char(&mut r, v[i]);
        }
        i = i + 1;
        assert(v@.take(i as int).drop_last() =~= v@.take(i - 1));
        assert(r@ =~= escape_pipes(v@.take(i as int)));
    }
    assert(v@.take(v@.len() as int) =~= v@);
    r
}

fn push_table_line(out: &mut String, row: &Vec<String>, ncols: usize)
    ensures
        final(out)@ == old(out)@ + table_line(row@.map_values(|c: String| c@), ncols as nat),
{
    let ghost rv = row@.map_values(|c: String| c@);
    let mut cells: Vec<String> = Vec::new();
    let mut i: usize = 0;
    while i < ncols
        invariant
            i <= ncols,
            rv == row@.map_values(|c: String| c@),
            cells@.len() == i,
            forall|j: int| 0 <= j < i ==> #[trigger] cells@[j]@ == table_cell(rv, j),
        decreases ncols - i,
    {
        if i < row.len() {
            cells.push(escape_pipes_exec(&row[i]));
        } else {
            cells.push(String::new());
        }
        i = i + 1;
    }
    assert(cells@.map_values(|p: String| p@) =~= Seq::new(ncols as nat, |j: int| table_cell(rv, j)));
    push_str(out, "| ");
    push_joined(out, &cells, " | ");
    push_str(out, " |\n");
    assert(final(out)@ =~= old(out)@ + table_line(rv, ncols as nat));
}

impl DocxParser {
    /// A parser before the first event.
    pub fn new() -> (p: Self)
        ensures
            p@ == docx_init(),
    {
        let p = DocxParser {
            out: String::new(),
            para: String::new(),
            bold: false,
            italic: false,
            in_text: false,
            style: None,
            is_list: false,
            in_table: false,
            in_cell: false,
            cell: String::new(),
            row: Vec::new(),
            rows: Vec::new(),
        };
        assert(p@.row =~= Seq::<Seq<char>>::empty());
        assert(p@.rows =~= Seq::<Seq<Seq<char>>>::empty());
        p
    }

    /// An opening or empty tag.
    pub fn open(&mut self, t: &XmlTag)
        ensures
            final(self)@ == docx_open(old(self)@, *t),
    {
        if name_is(&t.name, "w:p") {
            self.para = String::new();
            self.style = None;
            self.is_list = false;
        } else if name_is(&t.name, "w:pStyle") {
            self.style = attr_val_exec(t, "w:val");
        } else if name_is(&t.name, "w:numPr") {
            self.is_list = true;
        } else if name_is(&t.name, "w:b") {
            self.bold = toggle_on_exec(t);
        } else if name_is(&t.name, "w:i") {
            self.italic = toggle_on_exec(t);
        } else if name_is(&t.name, "w:t") {
            self.in_text = true;
        } else if name_is(&t.name, "w:tbl") {
            self.in_table = true;
            self.rows = Vec::new();
            assert(self@.rows =~= Seq::<Seq<Seq<char>>>::empty());
        } else if name_is(&t.name, "w:tr") {
            self.row = Vec::new();
            assert(self@.row =~= Seq::<Seq<char>>::empty());
        } else if name_is(&t.name, "w:tc") {
            self.in_cell = true;
            self.cell = String::new();
        }
    }

    /// Run text.
    pub fn text(&mut self, s: &str)
        ensures
            final(self)@ == docx_text(old(self)@, s@),
    {
        if self.in_cell {
            push_str(&mut self.cell, s);
            return;
        }
        let mut b = String::new();
        if self.bold {
            push_str(&mut b, "**");
            push_str(&mut b, s);
            push_str(&mut b, "**");
        } else {
            push_str(&mut b, s);
        }
        let mut piece = String::new();
        if self.italic {
            push_str(&mut piece, "*");
            push_str(&mut piece, b.as_str());
            push_str(&mut piece, "*");
        } else {
            piece = b;
        }
        push_str(&mut self.para, piece.as_str());
        assert(self@.para =~= docx_text(old(self)@, s@).para);
    }

    /// A closing tag.
    pub fn close(&mut self, n: &Vec<u8>)
        ensures
            final(self)@ == docx_close(old(self)@, *n),
    {
        if name_is(n, "w:t") {
            self.in_text = false;
        } else if name_is(n, "w:r") {
            self.bold = false;
            self.italic = false;
        } else if name_is(n, "w:p") {
            if self.in_cell {
                push_char(&mut self.cell, ' ');
            } else {
                self.flush_para();
            }
        } else if name_is(n, "w:tc") {
            self.in_cell = false;
            let c = string_of(trimmed(chars_of(self.cell.as_str()).as_slice()).as_slice());
            self.row.push(c);
            assert(self@.row =~= old(self)@.row.push(trim(old(self)@.cell)));
        } else if name_is(n, "w:tr") {
            let mut done: Vec<String> = Vec::new();
            std::mem::swap(&mut done, &mut self.row);
            self.rows.push(done);
            assert(self@.rows =~= old(self)@.rows.push(old(self)@.row));
            assert(self@.row =~= Seq::<Seq<char>>::empty());
        } else if name_is(n, "w:tbl") {
            self.in_table = false;
            self.flush_table();
        }
    }

    /// Writes the finished paragraph.
    pub fn flush_para(&mut self)
        ensures
            final(self)@ == flush_para(old(self)@),
    {
        let text = trimmed(chars_of(self.para.as_str()).as_slice());
        if text.len() == 0 {
            return;
        }
        let mut prefix = String::new();
        match &self.style {
            Some(st) => {
                let sv = chars_of(st.as_str());
                if starts_with(sv.as_slice(), chars_of("Heading").as_slice()) {
                    let rest = strip_all_prefix_of(sv.as_slice(), chars_of("Heading").as_slice());
                    let n: usize = match parse_usize(rest.as_slice()) {
                        Some(n) => n,
                        None => 1,
                    };
                    let lvl: usize = if n < 1 { 1 } else if n > 6 { 6 } else { n };
                    push_char_repeated(&mut prefix, '#', lvl);
                    push_str(&mut prefix, " ");
                } else if str_eq(st.as_str(), "Title") {
                    push_str(&mut prefix, "# ");
                } else if str_eq(st.as_str(), "Subtitle") {
                    push_str(&mut prefix, "## ");
                } else if starts_with(sv.as_slice(), chars_of("List").as_slice()) || self.is_list {
                    push_str(&mut prefix, "- ");
                }
            },
            None => {
                if self.is_list {
                    push_str(&mut prefix, "- ");
                }
            },
        }
        assert(prefix@ =~= para_prefix(self@.style, self.is_list));
        push_str(&mut self.out, prefix.as_str());
        push_str(&mut self.out, string_of(text.as_slice()).as_str());
        push_str(&mut self.out, "\n\n");
        assert(self@.out =~= flush_para(old(self)@).out);
    }

    /// Writes the finished table.
    pub fn flush_table(&mut self)
        ensures
            final(self)@ == (DocxModel {
                out: old(self)@.out + table_text(old(self)@.rows),
                rows: Seq::empty(),
                ..old(self)@
            }),
    {
        let mut rows: Vec<Vec<String>> = Vec::new();
        std::mem::swap(&mut rows, &mut self.rows);
        assert(self@.rows =~= Seq::<Seq<Seq<char>>>::empty());
        let ghost rv = rows_text(rows@);
        if rows.len() == 0 {
            assert(table_text(rv) =~= Seq::<char>::empty());
            assert(self@.out =~= old(self)@.out + table_text(rv));
            return;
        }
        let mut ncols: usize = 0;
        let mut i: usize = 0;
        while i < rows.len()
            invariant
                i <= rows@.len(),
                rv == rows_text(rows@),
                ncols == max_row_len(rv.take(i as int)),
            decreases rows@.len() - i,
        {
            assert(rv.take(i + 1).drop_last() =~= rv.take(i as int));
            if rows[i].len() > ncols {
                ncols = rows[i].len();
            }
            i = i + 1;
        }
        assert(rv.take(rows@.len() as int) =~= rv);
        if ncols == 0 {
            assert(self@.out =~= old(self)@.out + table_text(rv));
            return;
        }
        let mut out = String::new();
        std::mem::swap(&mut out, &mut self.out);
        push_table_line(&mut out, &rows[0], ncols);
        push_str(&mut out, "|");
        push_repeated(&mut out, " --- |", ncols);
        push_str(&mut out, "\n");
        let ghost head = out@;
        let mut k: usize = 1;
        while k < rows.len()
            invariant
                1 <= k <= rows@.len(),
                rv == rows_text(rows@),
                out@ == head + table_lines(rv.skip(1).take(k - 1), ncols as nat),
            decreases rows@.len() - k,
        {
            push_table_line(&mut out, &rows[k], ncols);
            k = k + 1;
            assert(rv.skip(1).take(k - 1).drop_last() =~= rv.skip(1).take(k - 2));
            assert(out@ =~= head + table_lines(rv.skip(1).take(k - 1), ncols as nat));
        }
        assert(rv.skip(1).take(rows@.len() - 1) =~= rv.skip(1));
        push_str(&mut out, "\n");
        self.out = out;
        assert(self@.out =~= old(self)@.out + table_text(rv));
    }

    /// The markdown written so far.
    pub fn output(&self) -> (s: String)
        ensures
            s@ == self@.out,
    {
        self.out.clone()
    }
}

/// Converts a `word/document.xml` body to markdown.
pub fn parse(xml: &str) -> (md: String)
    ensures
        md@ == docx_markdown(xml@),
{
    let mut rd = XmlReader::new(xml);
    let mut p = DocxParser::new();
    let ghost step = |m: DocxModel, e: XmlEvent| docx_step(m, e);
    let ghost len = vstd::utf8::encode_utf8(xml@).len();
    loop
        invariant_except_break
            rd@.0 == xml@,
            rd@.1 <= len,
            len == vstd::utf8::encode_utf8(xml@).len(),
            step == (|m: DocxModel, e: XmlEvent| docx_step(m, e)),
            p@ == fold_events(xml@, rd@.1, docx_init(), step),
            forall|i: nat| i < rd@.1 ==> !is_stop(#[trigger] crate::xml::xml_event_at(xml@, i)),
        ensures
            first_stop(xml@, stop_index(xml@)),
            p@ == fold_events(xml@, stop_index(xml@), docx_init(), step),
        decreases len - rd@.1,
    {
        let ghost at = rd@.1;
        let ev = rd.next_event();
        match &ev {
            XmlEvent::Eof | XmlEvent::Error => {
                proof {
                    lemma_first_stop_unique(xml@, at);
                }
                break;
            },
            XmlEvent::Tag(t, _) => p.open(t),
            XmlEvent::Text(s) => {
                if p.in_text {
                    p.text(s.as_str());
                }
            },
            XmlEvent::End(n) => p.close(n),
            XmlEvent::Other => {},
        }
    }
    p.out
}


/// A paragraph in a `HeadingN` style, `N` one digit from 1 to 9, is written
/// as a markdown heading of level `N` (at most 6): that many `#`, a space, its
/// trimmed text and a blank line. A `Title` paragraph gets one `#`, a
/// `Subtitle` paragraph two, a paragraph of no style outside a list none.
pub proof fn lemma_paragraph_prefix(m: DocxModel, d: char)
    requires
        trim(m.para).len() > 0,
    ensures
        ('1' <= d <= '9' && m.style == Some("Heading"@.push(d))) ==> ({
            let n: nat = (d as u32 - 48) as nat;
            let lvl: nat = if n > 6 { 6 } else { n };
            flush_para(m).out == m.out + Seq::new(lvl, |i: int| '#') + " "@ + trim(m.para) + "\n\n"@
        }),
        m.style == Some("Title"@) ==> flush_para(m).out == m.out + "# "@ + trim(m.para) + "\n\n"@,
        m.style == Some("Subtitle"@) ==> flush_para(m).out == m.out + "## "@ + trim(m.para) + "\n\n"@,
        (m.style is None && !m.is_list) ==> flush_para(m).out == m.out + trim(m.para) + "\n\n"@,
{
    reveal_strlit("Heading");
    reveal_strlit("Title");
    reveal_strlit("Subtitle");
    reveal_strlit(" ");
    reveal_strlit("# ");
    reveal_strlit("## ");
    let h = "Heading"@;
    if '1' <= d <= '9' && m.style == Some(h.push(d)) {
        let s = h.push(d);
        assert(s.take(h.len() as int) =~= h);
        assert(has_prefix(s, h));
        let rest = s.skip(h.len() as int);
        assert(rest =~= seq![d]);
        assert(!has_prefix(rest, h));
        assert(strip_all_prefix(rest, h) == rest);
        assert(strip_all_prefix(s, h) == rest);
        assert(crate::text::unsigned_part(rest) == rest);
        assert(crate::text::all_digits(rest));
        assert(rest.drop_last() =~= Seq::<char>::empty());
        assert(crate::text::digits_value(rest.drop_last()) == 0);
        assert(rest.last() == d);
        assert(crate::text::digits_value(rest) == (d as u32 - 48) as nat);
    }
    if m.style == Some("Title"@) {
        assert(!has_prefix("Title"@, h));
    }
    if m.style == Some("Subtitle"@) {
        assert("Subtitle"@.take(7)[0] != h[0]);
        assert(!has_prefix("Subtitle"@, h));
        assert("Subtitle"@ != "Title"@);
    }
}


/// Run text outside a table cell is added to the paragraph marked up by the
/// run's formatting: between `**` pairs when bold, inside `*` when italic
/// (both: `***text***`), as is otherwise. Inside a cell it is added as is.
pub proof fn lemma_run_markup(m: DocxModel, s: Seq<char>)
    ensures
        !m.in_cell ==> docx_text(m, s).para == m.para
            + (if m.italic { "*"@ } else { Seq::empty() }) + (if m.bold { "**"@ } else { Seq::empty() })
            + s
            + (if m.bold { "**"@ } else { Seq::empty() }) + (if m.italic { "*"@ } else { Seq::empty() }),
        m.in_cell ==> docx_text(m, s).cell == m.cell + s && docx_text(m, s).para == m.para,
{
    let e = Seq::<char>::empty();
    if !m.in_cell {
        let b = if m.bold { "**"@ + s + "**"@ } else { s };
        let piece = if m.italic { "*"@ + b + "*"@ } else { b };
        assert(piece =~= (if m.italic { "*"@ } else { e }) + (if m.bold { "**"@ } else { e }) + s
            + (if m.bold { "**"@ } else { e }) + (if m.italic { "*"@ } else { e }));
        assert(m.para + piece =~= m.para
            + (if m.italic { "*"@ } else { e }) + (if m.bold { "**"@ } else { e })
            + s
            + (if m.bold { "**"@ } else { e }) + (if m.italic { "*"@ } else { e }));
    }
}

} // verus!
