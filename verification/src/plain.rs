//! One-shot rendering of markdown to text with terminal escape sequences,
//! for piped output: colours, bold and italics, OSC 8 hyperlinks, and the
//! kitty text-sizing protocol for large headings where the terminal has it.
use vstd::prelude::*;
use crate::md::{MdEvent, MdKind, MdParser, MdTag, md_events, md_view};
use crate::text::{decimal, lines_spec, push_char, push_char_repeated, push_decimal, push_str, split_lines};

verus! {

/// Resets all attributes.
pub open spec fn reset() -> Seq<char> { "\x1b[0m"@ }
/// Bold on.
pub open spec fn bold() -> Seq<char> { "\x1b[1m"@ }
/// Italic on.
pub open spec fn italic() -> Seq<char> { "\x1b[3m"@ }
/// Underline on.
pub open spec fn underline() -> Seq<char> { "\x1b[4m"@ }
/// Ends a hyperlink.
pub open spec fn link_close() -> Seq<char> { "\x1b]8;;\x1b\\"@ }

/// A 24-bit foreground colour.
pub open spec fn fg_spec(r: u8, g: u8, b: u8) -> Seq<char> {
    "\x1b[38;2;"@ + decimal(r as nat) + ";"@ + decimal(g as nat) + ";"@ + decimal(b as nat) + "m"@
}

/// Text drawn at `scale` times the normal size (kitty text sizing).
pub open spec fn sized_spec(scale: u8, text: Seq<char>) -> Seq<char> {
    "\x1b]66;s="@ + decimal(scale as nat) + ";"@ + text + "\x1b\\"@
}

/// Starts a hyperlink to `url`.
pub open spec fn link_open_spec(url: Seq<char>) -> Seq<char> {
    "\x1b]8;;"@ + url + "\x1b\\"@
}

/// Appends a 24-bit foreground colour.
pub fn push_fg(out: &mut String, r: u8, g: u8, b: u8)
    ensures
        final(out)@ == old(out)@ + fg_spec(r, g, b),
{
    push_str(out, "\x1b[38;2;");
    push_decimal(out, r as u64);
    push_str(out, ";");
    push_decimal(out, g as u64);
    push_str(out, ";");
    push_decimal(out, b as u64);
    push_str(out, "m");
    assert(out@ =~= old(out)@ + fg_spec(r, g, b));
}

/// Appends `text` at `scale` times the normal size.
pub fn push_sized(out: &mut String, scale: u8, text: &str)
    ensures
        final(out)@ == old(out)@ + sized_spec(scale, text@),
{
    push_str(out, "\x1b]66;s=");
    push_decimal(out, scale as u64);
    push_str(out, ";");
    push_str(out, text);
    push_str(out, "\x1b\\");
    assert(out@ =~= old(out)@ + sized_spec(scale, text@));
}

/// Appends the start of a hyperlink to `url`.
pub fn push_link_open(out: &mut String, url: &str)
    ensures
        final(out)@ == old(out)@ + link_open_spec(url@),
{
    push_str(out, "\x1b]8;;");
    push_str(out, url);
    push_str(out, "\x1b\\");
    assert(out@ =~= old(out)@ + link_open_spec(url@));
}

// ------------------------------------------------------ cursor report ----

/// Index of the first `c` in `s`.
pub open spec fn first_index(s: Seq<u8>, c: u8) -> Option<nat>
    decreases s.len(),
{
    if s.len() == 0 {
        None
    } else if s[0] == c {
        Some(0)
    } else {
        match first_index(s.drop_first(), c) {
            Some(i) => Some(i + 1),
            None => None,
        }
    }
}

/// Index of the last `c` in `s`.
pub open spec fn last_index(s: Seq<u8>, c: u8) -> Option<nat>
    decreases s.len(),
{
    if s.len() == 0 {
        None
    } else if s.last() == c {
        Some((s.len() - 1) as nat)
    } else {
        last_index(s.drop_last(), c)
    }
}

/// Whether `b` is an ASCII decimal digit.
pub open spec fn digit_byte(b: u8) -> bool {
    48 <= b && b <= 57
}

/// Whether every byte of `d` is a decimal digit.
pub open spec fn all_digit_bytes(d: Seq<u8>) -> bool {
    forall|i: int| 0 <= i < d.len() ==> digit_byte(#[trigger] d[i])
}

/// The value of a run of decimal digit bytes.
pub open spec fn bytes_value(s: Seq<u8>) -> nat
    decreases s.len(),
{
    if s.len() == 0 { 0 } else { bytes_value(s.drop_last()) * 10 + (s.last() - 48) as nat }
}

/// What `str::parse::<u32>` yields on these bytes: an optional `+` and at
/// least one decimal digit, nothing else, with a value that fits in `u32`.
/// (Bytes that are not UTF-8 hold a byte that is no digit, so they are
/// refused either way.)
pub open spec fn parse_u32_bytes(s: Seq<u8>) -> Option<u32> {
    let d = if s.len() > 0 && s[0] == 43 { s.drop_first() } else { s };
    if d.len() > 0 && all_digit_bytes(d) && bytes_value(d) <= u32::MAX {
        Some(bytes_value(d) as u32)
    } else {
        None
    }
}

/// The column of a cursor position report `ESC [ row ; col R`: the number
/// between the last `;` before the first `R` and that `R`.
pub open spec fn cpr_col_spec(buf: Seq<u8>) -> Option<u32> {
    match first_index(buf, 82) {
        None => None,
        Some(r) => match last_index(buf.take(r as int), 59) {
            None => None,
            Some(semi) => parse_u32_bytes(buf.subrange(semi as int + 1, r as int)),
        },
    }
}

proof fn lemma_first_index(s: Seq<u8>, c: u8, k: int)
    requires
        0 <= k <= s.len(),
        forall|i: int| 0 <= i < k ==> s[i] != c,
        k < s.len() ==> s[k] == c,
    ensures
        first_index(s, c) == (if k < s.len() { Some(k as nat) } else { None::<nat> }),
    decreases k,
{
    if s.len() > 0 && k > 0 {
        lemma_first_index(s.drop_first(), c, k - 1);
    }
}

proof fn lemma_last_index(s: Seq<u8>, c: u8, k: int)
    requires
        0 <= k <= s.len(),
        forall|i: int| k <= i < s.len() ==> s[i] != c,
        k > 0 ==> s[k - 1] == c,
    ensures
        last_index(s, c) == (if k > 0 { Some((k - 1) as nat) } else { None::<nat> }),
    decreases s.len(),
{
    if s.len() > 0 && k < s.len() {
        lemma_last_index(s.drop_last(), c, k);
    }
}

proof fn lemma_bytes_value_mono(s: Seq<u8>, k: int)
    requires
        0 <= k <= s.len(),
    ensures
        bytes_value(s.take(k)) <= bytes_value(s),
    decreases s.len() - k,
{
    if k < s.len() {
        assert(s.drop_last().take(k) =~= s.take(k));
        lemma_bytes_value_mono(s.drop_last(), k);
    } else {
        assert(s.take(k) =~= s);
    }
}

/// `str::parse::<u32>` of the bytes `s[lo..hi]`.
fn parse_u32_range(s: &[u8], lo: usize, hi: usize) -> (r: Option<u32>)
    requires
        lo <= hi <= s@.len(),
    ensures
        r == parse_u32_bytes(s@.subrange(lo as int, hi as int)),
{
    let ghost w = s@.subrange(lo as int, hi as int);
    let start: usize = if lo < hi && s[lo] == 43 { lo + 1 } else { lo };
    let ghost d = if w.len() > 0 && w[0] == 43 { w.drop_first() } else { w };
    assert(d =~= s@.subrange(start as int, hi as int));
    if start >= hi {
        return None;
    }
    let mut v: u64 = 0;
    let mut k: usize = start;
    while k < hi
        invariant
            lo <= start <= k <= hi <= s@.len(),
            d == s@.subrange(start as int, hi as int),
            w == s@.subrange(lo as int, hi as int),
            d == (if w.len() > 0 && w[0] == 43 { w.drop_first() } else { w }),
            forall|i: int| 0 <= i < k - start ==> digit_byte(#[trigger] d[i]),
            v == bytes_value(d.take(k - start)),
            v <= u32::MAX,
        decreases hi - k,
    {
        let b = s[k];
        assert(d[k - start] == b);
        if !(48 <= b && b <= 57) {
            assert(!digit_byte(d[k - start]));
            assert(!all_digit_bytes(d));
            return None;
        }
        let ghost pre = d.take(k + 1 - start);
        assert(pre.drop_last() =~= d.take(k - start));
        let nv = v * 10 + (b - 48) as u64;
        assert(bytes_value(pre) == nv);
        k = k + 1;
        if nv > u32::MAX as u64 {
            proof {
                lemma_bytes_value_mono(d, k - start);
            }
            return None;
        }
        v = nv;
    }
    assert(d.take(hi - start) =~= d);
    Some(v as u32)
}

/// The column of the cursor position report in `buf`, if there is one.
pub fn parse_cpr_col(buf: &[u8]) -> (r: Option<u32>)
    ensures
        r == cpr_col_spec(buf@),
{
    let mut r: usize = 0;
    while r < buf.len() && buf[r] != 82
        invariant
            r <= buf@.len(),
            forall|i: int| 0 <= i < r ==> buf@[i] != 82,
        decreases buf@.len() - r,
    {
        r = r + 1;
    }
    proof {
        lemma_first_index(buf@, 82, r as int);
    }
    if r == buf.len() {
        return None;
    }
    let mut k: usize = r;
    while k > 0 && buf[k - 1] != 59
        invariant
            k <= r < buf@.len(),
            forall|i: int| k <= i < r ==> buf@[i] != 59,
        decreases k,
    {
        k = k - 1;
    }
    proof {
        let t = buf@.take(r as int);
        assert forall|i: int| k <= i < t.len() implies t[i] != 59 by {
            assert(t[i] == buf@[i]);
        }
        lemma_last_index(t, 59, k as int);
    }
    if k == 0 {
        return None;
    }
    parse_u32_range(buf, k, r)
}

/// The terminal drew a double-size character as two cells: the cursor report
/// after it names column three or more.
pub fn sizing_from_reply(buf: &[u8]) -> (r: bool)
    ensures
        r == (cpr_col_spec(buf@) matches Some(c) && c >= 3),
{
    match parse_cpr_col(buf) {
        Some(c) => c >= 3,
        None => false,
    }
}


// ------------------------------------------------------------- renderer ----

/// The renderer's state: text so far, the scale of the heading being read
/// and its text, and whether a code block is open.
#[verifier::ext_equal]
pub struct PlainModel {
    pub out: Seq<char>,
    pub scale: Option<u8>,
    pub buf: Seq<char>,
    pub in_code: bool,
}

/// Scale of a heading: three for level one, two for level two, else one.
pub open spec fn scale_for(level: u8) -> u8 {
    if level == 1 { 3 } else if level == 2 { 2 } else { 1 }
}

/// A finished heading: coloured and bold, drawn large when the terminal can
/// and the scale is above one, then a blank line.
pub open spec fn flush_heading_spec(m: PlainModel, sizing: bool) -> PlainModel {
    let scale: u8 = match m.scale {
        Some(x) => x,
        None => 1,
    };
    let body = if sizing && scale > 1 { sized_spec(scale, m.buf) } else { m.buf };
    PlainModel {
        out: m.out + fg_spec(125, 211, 252) + bold() + body + reset() + "\n\n"@,
        scale: None,
        buf: Seq::empty(),
        ..m
    }
}

/// Lines of a code block, each indented by four spaces and ended.
pub open spec fn code_text(ls: Seq<Seq<char>>) -> Seq<char>
    decreases ls.len(),
{
    if ls.len() == 0 { Seq::empty() } else { code_text(ls.drop_last()) + "    "@ + ls.last() + seq!['\n'] }
}

/// A horizontal rule: forty-eight `─` in gray.
pub open spec fn rule_spec() -> Seq<char> {
    fg_spec(82, 82, 91) + Seq::new(48, |i: int| '\u{2500}') + reset() + "\n\n"@
}

/// One event.
pub open spec fn plain_step(m: PlainModel, e: (MdKind, MdTag, Seq<char>), sizing: bool) -> PlainModel {
    let (k, t, x) = e;
    match k {
        MdKind::Start => match t {
            MdTag::Heading(l) => PlainModel { scale: Some(scale_for(l)), buf: Seq::empty(), ..m },
            MdTag::Strong => PlainModel { out: m.out + bold(), ..m },
            MdTag::Emphasis => PlainModel { out: m.out + italic(), ..m },
            MdTag::Link => PlainModel { out: m.out + link_open_spec(x) + fg_spec(96, 165, 250) + underline(), ..m },
            MdTag::CodeBlock => PlainModel { in_code: true, out: m.out + fg_spec(110, 231, 183), ..m },
            MdTag::Item => PlainModel { out: m.out + "  \u{2022} "@, ..m },
            _ => m,
        },
        MdKind::End => match t {
            MdTag::Heading(_) => flush_heading_spec(m, sizing),
            MdTag::Strong => PlainModel { out: m.out + reset(), ..m },
            MdTag::Emphasis => PlainModel { out: m.out + reset(), ..m },
            MdTag::Link => PlainModel { out: m.out + reset() + link_close(), ..m },
            MdTag::CodeBlock => PlainModel { in_code: false, out: m.out + reset() + seq!['\n'], ..m },
            MdTag::Item => PlainModel { out: m.out + seq!['\n'], ..m },
            MdTag::Paragraph => PlainModel { out: m.out + "\n\n"@, ..m },
            _ => m,
        },
        MdKind::Code => PlainModel { out: m.out + fg_spec(252, 211, 77) + x + reset(), ..m },
        MdKind::Rule => PlainModel { out: m.out + rule_spec(), ..m },
        MdKind::Text => {
            if m.scale is Some {
                PlainModel { buf: m.buf + x, ..m }
            } else if m.in_code {
                PlainModel { out: m.out + code_text(lines_spec(x)), ..m }
            } else {
                PlainModel { out: m.out + x, ..m }
            }
        },
        MdKind::SoftBreak => PlainModel { out: m.out.push(' '), ..m },
        MdKind::HardBreak => PlainModel { out: m.out.push('\n'), ..m },
        MdKind::Other => m,
    }
}

/// The state after the first `k` events.
pub open spec fn plain_run(evs: Seq<MdEvent>, k: nat, sizing: bool) -> PlainModel
    decreases k,
{
    if k == 0 {
        PlainModel { out: Seq::empty(), scale: None, buf: Seq::empty(), in_code: false }
    } else {
        plain_step(plain_run(evs, (k - 1) as nat, sizing), md_view(evs[k - 1]), sizing)
    }
}

/// Markdown `src` rendered for a terminal.
pub open spec fn plain_render(src: Seq<char>, sizing: bool) -> Seq<char> {
    plain_run(md_events(src), md_events(src).len(), sizing).out
}

struct Renderer {
    out: String,
    sizing: bool,
    heading_scale: Option<u8>,
    heading_buf: String,
    in_code_block: bool,
}

impl View for Renderer {
    type V = PlainModel;

    closed spec fn view(&self) -> PlainModel {
        PlainModel { out: self.out@, scale: self.heading_scale, buf: self.heading_buf@, in_code: self.in_code_block }
    }
}

impl Renderer {
    fn flush_heading(&mut self)
        ensures
            final(self)@ == flush_heading_spec(old(self)@, old(self).sizing),
            final(self).sizing == old(self).sizing,
    {
        let scale: u8 = match self.heading_scale {
            Some(x) => x,
            None => 1,
        };
        self.heading_scale = None;
        let mut text = String::new();
        std::mem::swap(&mut text, &mut self.heading_buf);
        push_fg(&mut self.out, 125, 211, 252);
        push_str(&mut self.out, "\x1b[1m");
        if self.sizing && scale > 1 {
            push_sized(&mut self.out, scale, text.as_str());
        } else {
            push_str(&mut self.out, text.as_str());
        }
        push_str(&mut self.out, "\x1b[0m");
        push_str(&mut self.out, "\n\n");
        assert(self@ =~= flush_heading_spec(old(self)@, old(self).sizing));
    }

    fn push_code(&mut self, x: &str)
        ensures
            final(self)@ == (PlainModel { out: old(self)@.out + code_text(lines_spec(x@)), ..old(self)@ }),
            final(self).sizing == old(self).sizing,
    {
        let ls = split_lines(x);
        let ghost lv = ls@.map_values(|y: String| y@);
        let ghost o0 = self.out@;
        let mut i: usize = 0;
        assert(lv.take(0) =~= Seq::<Seq<char>>::empty());
        assert(o0 + code_text(lv.take(0)) =~= o0);
        while i < ls.len()
            invariant
                i <= ls@.len(),
                lv == ls@.map_values(|y: String| y@),
                lv == lines_spec(x@),
                self.out@ == o0 + code_text(lv.take(i as int)),
                self.sizing == old(self).sizing,
                self.heading_scale == old(self).heading_scale,
                self.heading_buf@ == old(self).heading_buf@,
                self.in_code_block == old(self).in_code_block,
            decreases ls@.len() - i,
        {
            push_str(&mut self.out, "    ");
            push_str(&mut self.out, ls[i].as_str());
            push_char(&mut self.out, '\n');
            assert(lv.take(i + 1).drop_last() =~= lv.take(i as int));
            i = i + 1;
            assert(self.out@ =~= o0 + code_text(lv.take(i as int)));
        }
        assert(lv.take(ls@.len() as int) =~= lv);
        assert(self@ =~= (PlainModel { out: old(self)@.out + code_text(lines_spec(x@)), ..old(self)@ }));
    }

    fn step(&mut self, ev: MdEvent)
        ensures
            final(self)@ == plain_step(old(self)@, ev@, old(self).sizing),
            final(self).sizing == old(self).sizing,
    {
        match ev {
            MdEvent::Start(t, url) => match t {
                MdTag::Heading(l) => {
                    self.heading_scale = Some(if l == 1 { 3 } else if l == 2 { 2 } else { 1 });
                    self.heading_buf = String::new();
                },
                MdTag::Strong => push_str(&mut self.out, "\x1b[1m"),
                MdTag::Emphasis => push_str(&mut self.out, "\x1b[3m"),
                MdTag::Link => {
                    push_link_open(&mut self.out, url.as_str());
                    push_fg(&mut self.out, 96, 165, 250);
                    push_str(&mut self.out, "\x1b[4m");
                },
                MdTag::CodeBlock => {
                    self.in_code_block = true;
                    push_fg(&mut self.out, 110, 231, 183);
                },
                MdTag::Item => push_str(&mut self.out, "  \u{2022} "),
                _ => {},
            },
            MdEvent::End(t) => match t {
                MdTag::Heading(_) => self.flush_heading(),
                MdTag::Strong | MdTag::Emphasis => push_str(&mut self.out, "\x1b[0m"),
                MdTag::Link => {
                    push_str(&mut self.out, "\x1b[0m");
                    push_str(&mut self.out, "\x1b]8;;\x1b\\");
                },
                MdTag::CodeBlock => {
                    self.in_code_block = false;
                    push_str(&mut self.out, "\x1b[0m");
                    push_char(&mut self.out, '\n');
                },
                MdTag::Item => push_char(&mut self.out, '\n'),
                MdTag::Paragraph => push_str(&mut self.out, "\n\n"),
                _ => {},
            },
            MdEvent::Code(x) => {
                push_fg(&mut self.out, 252, 211, 77);
                push_str(&mut self.out, x.as_str());
                push_str(&mut self.out, "\x1b[0m");
            },
            MdEvent::Rule => {
                push_fg(&mut self.out, 82, 82, 91);
                push_char_repeated(&mut self.out, '\u{2500}', 48);
                push_str(&mut self.out, "\x1b[0m");
                push_str(&mut self.out, "\n\n");
            },
            MdEvent::Text(x) => {
                if self.heading_scale.is_some() {
                    push_str(&mut self.heading_buf, x.as_str());
                } else if self.in_code_block {
                    self.push_code(x.as_str());
                } else {
                    push_str(&mut self.out, x.as_str());
                }
            },
            MdEvent::SoftBreak => push_char(&mut self.out, ' '),
            MdEvent::HardBreak => push_char(&mut self.out, '\n'),
            MdEvent::Other => {},
        }
        assert(self@ =~= plain_step(old(self)@, ev@, old(self).sizing));
    }
}

/// Renders markdown `src` (tables and strikethrough enabled) for a terminal;
/// `sizing` says whether the terminal draws the text-sizing protocol.
pub fn render_with(src: &str, sizing: bool) -> (out: String)
    ensures
        out@ == plain_render(src@, sizing),
{
    let mut p = MdParser::new(src);
    let mut r = Renderer {
        out: String::new(),
        sizing,
        heading_scale: None,
        heading_buf: String::new(),
        in_code_block: false,
    };
    let ghost evs = md_events(src@);
    assert(r@ =~= plain_run(evs, 0, sizing));
    loop
        invariant_except_break
            evs == md_events(src@),
            p@.0 == src@,
            p@.1 <= evs.len(),
            r.sizing == sizing,
            r@ == plain_run(evs, p@.1, sizing),
        ensures
            r@ == plain_run(evs, evs.len(), sizing),
        decreases evs.len() - p@.1,
    {
        match p.next_event() {
            Some(e) => r.step(e),
            None => break,
        }
    }
    r.out
}

} // verus!
