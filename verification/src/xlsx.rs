//! Streaming spreadsheet (.xlsx) model: the workbook's sheet list and shared
//! strings, the row-by-row reading of one sheet, and the queries that the
//! viewer makes of the rows loaded so far.
use vstd::prelude::*;
use vstd::string::StringSliceAdditionalSpecFns;
use crate::text::{
    push_str, chars_of, string_of, starts_with, owned, utf8_lossy, lossy_text, has_prefix, trim,
    trimmed, parse_usize, parse_usize_spec, str_eq,
};
use crate::xml::{
    XmlEvent, XmlReader, XmlTag, is_stop, first_stop, stop_index, fold_events, named, name_is,
    lemma_first_stop_unique, attr_last, last_attr,
};

verus! {

/// Bound on the rows held for one sheet.
pub const ROW_CAP: usize = 2_000_000;

// ---------------------------------------------------------------- search ----

/// ASCII lowercase of one byte; other bytes are unchanged.
pub open spec fn lower_byte(b: u8) -> u8 {
    if 65 <= b && b <= 90 { (b + 32) as u8 } else { b }
}

/// The bytes of `q` with ASCII letters lowered, as `str::to_ascii_lowercase` gives them.
pub open spec fn lower_bytes(q: Seq<u8>) -> Seq<u8> {
    q.map_values(|b: u8| lower_byte(b))
}

/// `needle` occurs at offset `i` of `hay` once `hay` is ASCII-lowered.
pub open spec fn matches_at(hay: Seq<u8>, needle: Seq<u8>, i: int) -> bool {
    &&& 0 <= i
    &&& i + needle.len() <= hay.len()
    &&& forall|j: int| 0 <= j < needle.len() ==> lower_byte(#[trigger] hay[i + j]) == needle[j]
}

/// `needle` occurs somewhere in the ASCII-lowered `hay` (always, when `needle` is empty).
pub open spec fn contains_ci_bytes(hay: Seq<u8>, needle: Seq<u8>) -> bool {
    exists|i: int| matches_at(hay, needle, i)
}

fn byte_lower(b: u8) -> (r: u8)
    ensures
        r == lower_byte(b),
{
    if 65 <= b && b <= 90 { b + 32 } else { b }
}

fn contains_ci_in(h: &[u8], n: &[u8]) -> (r: bool)
    ensures
        r == contains_ci_bytes(h@, n@),
{
    if n.len() == 0 {
        assert(matches_at(h@, n@, 0));
        return true;
    }
    if h.len() < n.len() {
        return false;
    }
    let last = h.len() - n.len();
    let mut i: usize = 0;
    assert(h@.len() == h.len());
    while i <= last
        invariant
            h@.len() <= usize::MAX,
            1 <= n@.len() <= h@.len(),
            last == h@.len() - n@.len(),
            i <= last + 1,
            forall|k: int| 0 <= k < i ==> !matches_at(h@, n@, k),
        decreases last + 1 - i,
    {
        let mut j: usize = 0;
        let mut ok = true;
        while ok && j < n.len()
            invariant
                h@.len() <= usize::MAX,
                n@.len() <= h@.len(),
                i + n@.len() <= h@.len(),
                j <= n@.len(),
                forall|jj: int| 0 <= jj < j ==> lower_byte(#[trigger] h@[i + jj]) == n@[jj],
                !ok ==> j < n@.len() && lower_byte(h@[i + j as int]) != n@[j as int],
            decreases n@.len() - j + (if ok { 1int } else { 0int }),
        {
            if byte_lower(h[i + j]) == n[j] {
                j = j + 1;
            } else {
                ok = false;
            }
        }
        if ok {
            assert(matches_at(h@, n@, i as int));
            return true;
        }
        assert(!matches_at(h@, n@, i as int)) by {
            assert(lower_byte(h@[i + j as int]) != n@[j as int]);
        }
        i = i + 1;
    }
    assert forall|k: int| !matches_at(h@, n@, k) by {
        if 0 <= k < i {
        }
    }
    false
}

/// Case-insensitive substring test: whether the already lowercased `needle`
/// occurs in `hay` once ASCII letters of `hay` are lowered.
pub fn contains_ci(hay: &str, needle: &str) -> (r: bool)
    ensures
        r == contains_ci_bytes(hay.spec_bytes(), needle.spec_bytes()),
{
    contains_ci_in(hay.as_bytes(), needle.as_bytes())
}

// ------------------------------------------------------- cell references ----

/// Whether `b` is an ASCII letter.
pub open spec fn is_letter(b: u8) -> bool {
    (65 <= b && b <= 90) || (97 <= b && b <= 122)
}

/// ASCII uppercase of a letter.
pub open spec fn upper_byte(b: u8) -> u8 {
    if 97 <= b && b <= 122 { (b - 32) as u8 } else { b }
}

/// Number of leading ASCII letters of `r`.
pub open spec fn letter_run_len(r: Seq<u8>) -> nat
    decreases r.len(),
{
    if r.len() > 0 && is_letter(r[0]) { 1 + letter_run_len(r.drop_first()) } else { 0 }
}

/// Bijective base-26 value of a run of letters: A = 1, Z = 26, AA = 27.
pub open spec fn letters_value(s: Seq<u8>) -> nat
    decreases s.len(),
{
    if s.len() == 0 {
        0
    } else {
        letters_value(s.drop_last()) * 26 + (upper_byte(s.last()) - 65 + 1) as nat
    }
}

/// The letters that start a cell reference such as `AB12`.
pub open spec fn column_letters(r: Seq<u8>) -> Seq<u8> {
    r.take(letter_run_len(r) as int)
}

/// Zero-based column of a cell reference: the value of its leading letters,
/// less one (0 when there are none).
pub open spec fn col_index_spec(r: Seq<u8>) -> nat {
    let v = letters_value(column_letters(r));
    if v == 0 { 0 } else { (v - 1) as nat }
}

proof fn lemma_letter_run(r: Seq<u8>, i: int)
    requires
        0 <= i <= r.len(),
        forall|j: int| 0 <= j < i ==> is_letter(#[trigger] r[j]),
        i == r.len() || !is_letter(r[i]),
    ensures
        letter_run_len(r) == i,
    decreases i,
{
    if i > 0 {
        assert forall|j: int| 0 <= j < i - 1 implies is_letter(#[trigger] r.drop_first()[j]) by {
            assert(r.drop_first()[j] == r[j + 1]);
        }
        lemma_letter_run(r.drop_first(), i - 1);
    }
}

proof fn lemma_letters_value_mono(s: Seq<u8>, k: int)
    requires
        0 <= k <= s.len(),
        forall|j: int| 0 <= j < s.len() ==> is_letter(#[trigger] s[j]),
    ensures
        letters_value(s.take(k)) <= letters_value(s),
    decreases s.len() - k,
{
    if k < s.len() {
        assert(s.drop_last().take(k) =~= s.take(k));
        lemma_letters_value_mono(s.drop_last(), k);
    } else {
        assert(s.take(k) =~= s);
    }
}

proof fn lemma_letters_then_rest(ls: Seq<u8>, d: Seq<u8>)
    requires
        forall|j: int| 0 <= j < ls.len() ==> is_letter(#[trigger] ls[j]),
        d.len() == 0 || !is_letter(d[0]),
    ensures
        column_letters(ls + d) == ls,
{
    let r = ls + d;
    assert forall|j: int| 0 <= j < ls.len() implies is_letter(#[trigger] r[j]) by {
        assert(r[j] == ls[j]);
    }
    if d.len() > 0 {
        assert(r[ls.len() as int] == d[0]);
    }
    lemma_letter_run(r, ls.len() as int);
    assert(r.take(ls.len() as int) =~= ls);
}

/// Column references count in bijective base 26, ignoring case: a single
/// letter is its place in the alphabet counted from 0 (`A` and `a` are 0,
/// `Z` is 25), and one more letter `c` after letters `ls` gives
/// 26 times (the column of `ls` plus one) plus the place of `c`. What
/// follows the letters (the row number) does not matter.
pub proof fn lemma_column_index(ls: Seq<u8>, c: u8, d: Seq<u8>)
    requires
        forall|j: int| 0 <= j < ls.len() ==> is_letter(#[trigger] ls[j]),
        is_letter(c),
        d.len() == 0 || !is_letter(d[0]),
    ensures
        ls.len() == 0 ==> col_index_spec(seq![c] + d) == upper_byte(c) - 65,
        ls.len() > 0 ==> col_index_spec(ls.push(c) + d) == 26 * (col_index_spec(ls + d) + 1) + (upper_byte(c) - 65),
{
    let lc = ls.push(c);
    assert forall|j: int| 0 <= j < lc.len() implies is_letter(#[trigger] lc[j]) by {}
    lemma_letters_then_rest(lc, d);
    lemma_letters_then_rest(ls, d);
    assert(lc.drop_last() =~= ls);
    if ls.len() == 0 {
        assert(seq![c] =~= lc);
        assert(letters_value(ls) == 0);
    } else {
        assert(letters_value(ls) >= 1) by {
            assert(is_letter(ls.last()));
        }
    }
}

/// Zero-based column index of a cell reference (`A1` is 0, `AA3` is 26).
pub fn col_index(r: &[u8]) -> (c: usize)
    requires
        letters_value(column_letters(r@)) <= usize::MAX,
    ensures
        c == col_index_spec(r@),
{
    let mut n: usize = 0;
    let mut i: usize = 0;
    let ghost run = column_letters(r@);
    while i < r.len() && ((65 <= r[i] && r[i] <= 90) || (97 <= r[i] && r[i] <= 122))
        invariant
            i <= r@.len(),
            forall|j: int| 0 <= j < i ==> is_letter(#[trigger] r@[j]),
            n == letters_value(r@.take(i as int)),
            run == column_letters(r@),
            letters_value(run) <= usize::MAX,
        decreases r@.len() - i,
    {
        proof {
            lemma_letter_run_prefix(r@, i as int + 1);
            assert forall|j: int| 0 <= j < run.len() implies is_letter(#[trigger] run[j]) by {
                assert(run[j] == r@[j]);
            }
            lemma_letters_value_mono(run, i as int + 1);
            assert(run.take(i as int + 1) =~= r@.take(i as int + 1));
            assert(r@.take(i as int + 1).drop_last() =~= r@.take(i as int));
        }
        let b = if 97 <= r[i] { r[i] - 32 } else { r[i] };
        n = n * 26 + (b - 65 + 1) as usize;
        i = i + 1;
    }
    proof {
        lemma_letter_run(r@, i as int);
    }
    if n == 0 { 0 } else { n - 1 }
}

proof fn lemma_letter_run_prefix(r: Seq<u8>, i: int)
    requires
        0 <= i <= r.len(),
        forall|j: int| 0 <= j < i ==> is_letter(#[trigger] r[j]),
    ensures
        i <= letter_run_len(r) <= r.len(),
        forall|j: int| 0 <= j < letter_run_len(r) ==> is_letter(#[trigger] r[j]),
    decreases r.len(),
{
    if r.len() > 0 && is_letter(r[0]) {
        assert forall|j: int| 0 <= j < i - 1 implies is_letter(#[trigger] r.drop_first()[j]) by {
            assert(r.drop_first()[j] == r[j + 1]);
        }
        lemma_letter_run_prefix(r.drop_first(), if i > 0 { i - 1 } else { 0 });
        assert forall|j: int| 0 <= j < letter_run_len(r) implies is_letter(#[trigger] r[j]) by {
            if j > 0 {
                assert(r[j] == r.drop_first()[j - 1]);
            }
        }
    }
}


// -------------------------------------------------------- shared strings ----

/// Reading state of the shared-string table.
pub struct SstModel {
    pub out: Seq<Seq<char>>,
    pub cur: Seq<char>,
    pub in_si: bool,
    pub in_t: bool,
}

/// Nothing read yet.
pub open spec fn sst_init() -> SstModel {
    SstModel { out: Seq::empty(), cur: Seq::empty(), in_si: false, in_t: false }
}

/// One event of the shared-string table: `<si>` starts a string, text inside
/// `<t>` within it is collected, `</si>` completes it.
pub open spec fn sst_step(s: SstModel, ev: XmlEvent) -> SstModel {
    match ev {
        XmlEvent::Tag(t, false) => if named(t.name, "si") {
            SstModel { out: s.out, cur: Seq::empty(), in_si: true, in_t: s.in_t }
        } else if named(t.name, "t") {
            SstModel { out: s.out, cur: s.cur, in_si: s.in_si, in_t: true }
        } else {
            s
        },
        XmlEvent::Text(x) => if s.in_t && s.in_si {
            SstModel { out: s.out, cur: s.cur + x@, in_si: s.in_si, in_t: s.in_t }
        } else {
            s
        },
        XmlEvent::End(n) => if named(n, "t") {
            SstModel { out: s.out, cur: s.cur, in_si: s.in_si, in_t: false }
        } else if named(n, "si") {
            SstModel { out: s.out.push(s.cur), cur: Seq::empty(), in_si: false, in_t: s.in_t }
        } else {
            s
        },
        _ => s,
    }
}

/// The shared strings of an `xl/sharedStrings.xml` part, read up to its end
/// or its first syntax error.
pub open spec fn shared_strings_spec(xml: Seq<char>) -> Seq<Seq<char>> {
    fold_events(xml, stop_index(xml), sst_init(), |s: SstModel, e: XmlEvent| sst_step(s, e)).out
}

struct SstState {
    out: Vec<String>,
    cur: String,
    in_si: bool,
    in_t: bool,
}

impl View for SstState {
    type V = SstModel;

    closed spec fn view(&self) -> SstModel {
        SstModel {
            out: self.out@.map_values(|s: String| s@),
            cur: self.cur@,
            in_si: self.in_si,
            in_t: self.in_t,
        }
    }
}

impl SstState {
    fn step(&mut self, ev: &XmlEvent)
        ensures
            final(self)@ == sst_step(old(self)@, *ev),
    {
        match ev {
            XmlEvent::Tag(t, empty) => {
                if !*empty {
                    if name_is(&t.name, "si") {
                        self.cur = String::new();
                        self.in_si = true;
                    } else if name_is(&t.name, "t") {
                        self.in_t = true;
                    }
                }
            },
            XmlEvent::Text(x) => {
                if self.in_t && self.in_si {
                    push_str(&mut self.cur, x.as_str());
                }
            },
            XmlEvent::End(n) => {
                if name_is(n, "t") {
                    self.in_t = false;
                } else if name_is(n, "si") {
                    let mut done = String::new();
                    std::mem::swap(&mut done, &mut self.cur);
                    self.out.push(done);
                    self.in_si = false;
                    assert(self@.out =~= old(self)@.out.push(old(self)@.cur));
                }
            },
            _ => {},
        }
    }
}

/// The shared strings of an `xl/sharedStrings.xml` part, in order.
pub fn parse_shared_strings(xml: &str) -> (v: Vec<String>)
    ensures
        v@.map_values(|s: String| s@) == shared_strings_spec(xml@),
{
    let mut rd = XmlReader::new(xml);
    let mut st = SstState { out: Vec::new(), cur: String::new(), in_si: false, in_t: false };
    let ghost step = |s: SstModel, e: XmlEvent| sst_step(s, e);
    let ghost len = vstd::utf8::encode_utf8(xml@).len();
    assert(st@ == sst_init()) by {
        assert(st@.out =~= Seq::<Seq<char>>::empty());
    }
    loop
        invariant_except_break
            rd@.0 == xml@,
            rd@.1 <= len,
            len == vstd::utf8::encode_utf8(xml@).len(),
            step == (|s: SstModel, e: XmlEvent| sst_step(s, e)),
            st@ == fold_events(xml@, rd@.1, sst_init(), step),
            forall|i: nat| i < rd@.1 ==> !is_stop(#[trigger] crate::xml::xml_event_at(xml@, i)),
        ensures
            first_stop(xml@, stop_index(xml@)),
            st@ == fold_events(xml@, stop_index(xml@), sst_init(), step),
        decreases len - rd@.1,
    {
        let ghost p = rd@.1;
        let ev = rd.next_event();
        if matches!(ev, XmlEvent::Eof | XmlEvent::Error) {
            proof {
                lemma_first_stop_unique(xml@, p);
            }
            break;
        }
        st.step(&ev);
    }
    st.out
}

// -------------------------------------------------------------- workbook ----

/// Text of the last attribute `key` of a tag, lossily decoded; empty when absent.
pub open spec fn attr_text(t: XmlTag, key: &str) -> Seq<char> {
    match attr_last(t.attrs@, key.spec_bytes()) {
        Some(v) => lossy_text(v),
        None => Seq::empty(),
    }
}

fn attr_string(t: &XmlTag, key: &str) -> (s: String)
    ensures
        s@ == attr_text(*t, key),
{
    match last_attr(t, key) {
        Some(v) => utf8_lossy(v.as_slice()),
        None => String::new(),
    }
}

/// Text of each pair.
pub open spec fn pairs_text(v: Seq<(String, String)>) -> Seq<(Seq<char>, Seq<char>)> {
    v.map_values(|p: (String, String)| (p.0@, p.1@))
}

/// One event of `xl/workbook.xml`: each `<sheet>` tag contributes its
/// (`name`, `r:id`) pair, in document order.
pub open spec fn sheet_ref_step(refs: Seq<(Seq<char>, Seq<char>)>, ev: XmlEvent) -> Seq<(Seq<char>, Seq<char>)> {
    match ev {
        XmlEvent::Tag(t, _) => if named(t.name, "sheet") {
            refs.push((attr_text(t, "name"), attr_text(t, "r:id")))
        } else {
            refs
        },
        _ => refs,
    }
}

/// One event of `xl/_rels/workbook.xml.rels`: each `<Relationship>` tag with a
/// non-empty `Id` contributes its (`Id`, `Target`) pair, in document order.
pub open spec fn rel_step(rels: Seq<(Seq<char>, Seq<char>)>, ev: XmlEvent) -> Seq<(Seq<char>, Seq<char>)> {
    match ev {
        XmlEvent::Tag(t, _) => if named(t.name, "Relationship") && attr_text(t, "Id").len() > 0 {
            rels.push((attr_text(t, "Id"), attr_text(t, "Target")))
        } else {
            rels
        },
        _ => rels,
    }
}

/// The (name, r:id) pairs of a workbook part.
pub open spec fn sheet_refs_spec(xml: Seq<char>) -> Seq<(Seq<char>, Seq<char>)> {
    fold_events(xml, stop_index(xml), Seq::empty(), |r: Seq<(Seq<char>, Seq<char>)>, e: XmlEvent| sheet_ref_step(r, e))
}

/// The (Id, Target) pairs of a relationships part.
pub open spec fn rels_spec(xml: Seq<char>) -> Seq<(Seq<char>, Seq<char>)> {
    fold_events(xml, stop_index(xml), Seq::empty(), |r: Seq<(Seq<char>, Seq<char>)>, e: XmlEvent| rel_step(r, e))
}

/// Target of relationship `id`; a later relationship with the same id wins.
pub open spec fn rel_target(rels: Seq<(Seq<char>, Seq<char>)>, id: Seq<char>) -> Option<Seq<char>>
    decreases rels.len(),
{
    if rels.len() == 0 {
        None
    } else if rels.last().0 == id {
        Some(rels.last().1)
    } else {
        rel_target(rels.drop_last(), id)
    }
}

/// The shared-string reader state after the events `evs`, taken in order.
pub open spec fn sst_steps(s: SstModel, evs: Seq<XmlEvent>) -> SstModel
    decreases evs.len(),
{
    if evs.len() == 0 { s } else { sst_steps(sst_step(s, evs[0]), evs.drop_first()) }
}

/// A shared string made of runs is their text joined: an element
/// `<si><t>a</t><t>b</t></si>` (the runs' wrappers aside) adds the string
/// `a` followed by `b` to the table, and one of a single run adds its text.
pub proof fn lemma_shared_string_runs(s: SstModel, si: XmlTag, t1: XmlTag, t2: XmlTag, a: String, b: String, t_end: Vec<u8>, si_end: Vec<u8>)
    requires
        named(si.name, "si"),
        named(t1.name, "t"),
        named(t2.name, "t"),
        named(t_end, "t"),
        named(si_end, "si"),
    ensures
        sst_steps(s, seq![
            XmlEvent::Tag(si, false),
            XmlEvent::Tag(t1, false),
            XmlEvent::Text(a),
            XmlEvent::End(t_end),
            XmlEvent::Tag(t2, false),
            XmlEvent::Text(b),
            XmlEvent::End(t_end),
            XmlEvent::End(si_end),
        ]).out == s.out.push(a@ + b@),
        sst_steps(s, seq![
            XmlEvent::Tag(si, false),
            XmlEvent::Tag(t1, false),
            XmlEvent::Text(a),
            XmlEvent::End(t_end),
            XmlEvent::End(si_end),
        ]).out == s.out.push(a@),
{
    broadcast use vstd::string::is_ascii_spec_bytes;

    reveal_strlit("si");
    reveal_strlit("t");
    assert(vstd::string::is_ascii("si"));
    assert(vstd::string::is_ascii("t"));
    assert("si".spec_bytes().len() != "t".spec_bytes().len());
    let e1 = XmlEvent::Tag(si, false);
    let e2 = XmlEvent::Tag(t1, false);
    let e3 = XmlEvent::Text(a);
    let e4 = XmlEvent::End(t_end);
    let e5 = XmlEvent::Tag(t2, false);
    let e6 = XmlEvent::Text(b);
    let e7 = XmlEvent::End(si_end);
    let s1 = sst_step(s, e1);
    let s2 = sst_step(s1, e2);
    let s3 = sst_step(s2, e3);
    let s4 = sst_step(s3, e4);
    let s5 = sst_step(s4, e5);
    let s6 = sst_step(s5, e6);
    let s7 = sst_step(s6, e4);
    let s8 = sst_step(s7, e7);
    assert(s3.cur == a@);
    assert(s6.cur == a@ + b@);
    let long = seq![e1, e2, e3, e4, e5, e6, e4, e7];
    assert(sst_steps(s8, long.skip(8)) == s8);
    assert(long.skip(7).drop_first() =~= long.skip(8));
    assert(sst_steps(s7, long.skip(7)) == s8);
    assert(long.skip(6).drop_first() =~= long.skip(7));
    assert(sst_steps(s6, long.skip(6)) == s8);
    assert(long.skip(5).drop_first() =~= long.skip(6));
    assert(sst_steps(s5, long.skip(5)) == s8);
    assert(long.skip(4).drop_first() =~= long.skip(5));
    assert(sst_steps(s4, long.skip(4)) == s8);
    assert(long.skip(3).drop_first() =~= long.skip(4));
    assert(sst_steps(s3, long.skip(3)) == s8);
    assert(long.skip(2).drop_first() =~= long.skip(3));
    assert(sst_steps(s2, long.skip(2)) == s8);
    assert(long.skip(1).drop_first() =~= long.skip(2));
    assert(sst_steps(s1, long.skip(1)) == s8);
    assert(long.drop_first() =~= long.skip(1));
    assert(sst_steps(s, long) == s8);
    let short = seq![e1, e2, e3, e4, e7];
    let r5 = sst_step(s4, e7);
    assert(short.skip(4).drop_first() =~= short.skip(5));
    assert(sst_steps(r5, short.skip(5)) == r5);
    assert(sst_steps(s4, short.skip(4)) == r5);
    assert(short.skip(3).drop_first() =~= short.skip(4));
    assert(sst_steps(s3, short.skip(3)) == r5);
    assert(short.skip(2).drop_first() =~= short.skip(3));
    assert(sst_steps(s2, short.skip(2)) == r5);
    assert(short.skip(1).drop_first() =~= short.skip(2));
    assert(sst_steps(s1, short.skip(1)) == r5);
    assert(short.drop_first() =~= short.skip(1));
    assert(sst_steps(s, short) == r5);
}

/// Relationship lookup: the last relationship with the id wins. A target is
/// found exactly when some relationship has the id, and it is the target of
/// the last such relationship.
pub proof fn lemma_rel_target_last(rels: Seq<(Seq<char>, Seq<char>)>, id: Seq<char>)
    ensures
        rel_target(rels, id) is None <==> forall|i: int| 0 <= i < rels.len() ==> (#[trigger] rels[i]).0 != id,
        rel_target(rels, id) matches Some(t) ==> exists|i: int| 0 <= i < rels.len() && #[trigger] rels[i] == (id, t)
            && forall|j: int| i < j < rels.len() ==> (#[trigger] rels[j]).0 != id,
    decreases rels.len(),
{
    if rels.len() > 0 {
        let p = rels.drop_last();
        lemma_rel_target_last(p, id);
        assert forall|i: int| 0 <= i < p.len() implies #[trigger] p[i] == rels[i] by {}
        if rels.last().0 == id {
            assert(rels[rels.len() - 1] == (id, rels.last().1));
        } else {
            if rel_target(p, id) is Some {
                let t = rel_target(p, id)->0;
                let i = choose|i: int| 0 <= i < p.len() && #[trigger] p[i] == (id, t)
                    && forall|j: int| i < j < p.len() ==> (#[trigger] p[j]).0 != id;
                assert(rels[i] == (id, t));
                assert forall|j: int| i < j < rels.len() implies (#[trigger] rels[j]).0 != id by {
                    if j < p.len() {
                        assert(p[j] == rels[j]);
                    }
                }
            } else {
                assert forall|i: int| 0 <= i < rels.len() implies (#[trigger] rels[i]).0 != id by {
                    if i < p.len() {
                        assert(p[i] == rels[i]);
                    }
                }
            }
        }
    }
}

/// `s` without its leading slashes.
pub open spec fn strip_slashes(s: Seq<char>) -> Seq<char>
    decreases s.len(),
{
    if s.len() > 0 && s[0] == '/' { strip_slashes(s.drop_first()) } else { s }
}

/// Archive path of a sheet part named by a relationship target: leading
/// slashes dropped, and `xl/` put in front unless it is already there.
pub open spec fn sheet_part_path(target: Seq<char>) -> Seq<char> {
    let t = strip_slashes(target);
    if has_prefix(t, "xl/"@) { t } else { "xl/"@ + t }
}

/// The sheets, in workbook order, whose relationship is known, with their part paths.
pub open spec fn sheets_spec(refs: Seq<(Seq<char>, Seq<char>)>, rels: Seq<(Seq<char>, Seq<char>)>) -> Seq<(Seq<char>, Seq<char>)>
    decreases refs.len(),
{
    if refs.len() == 0 {
        Seq::empty()
    } else {
        let rest = sheets_spec(refs.drop_last(), rels);
        match rel_target(rels, refs.last().1) {
            Some(t) => rest.push((refs.last().0, sheet_part_path(t))),
            None => rest,
        }
    }
}

/// The sheets of a workbook, from its workbook part and relationships part.
pub open spec fn workbook_sheets_spec(wb: Seq<char>, rels: Seq<char>) -> Seq<(Seq<char>, Seq<char>)> {
    sheets_spec(sheet_refs_spec(wb), rels_spec(rels))
}

fn collect_sheet_refs(xml: &str) -> (v: Vec<(String, String)>)
    ensures
        pairs_text(v@) == sheet_refs_spec(xml@),
{
    let mut rd = XmlReader::new(xml);
    let mut out: Vec<(String, String)> = Vec::new();
    let ghost step = |r: Seq<(Seq<char>, Seq<char>)>, e: XmlEvent| sheet_ref_step(r, e);
    let ghost len = vstd::utf8::encode_utf8(xml@).len();
    assert(pairs_text(out@) =~= Seq::empty());
    loop
        invariant_except_break
            rd@.0 == xml@,
            rd@.1 <= len,
            len == vstd::utf8::encode_utf8(xml@).len(),
            step == (|r: Seq<(Seq<char>, Seq<char>)>, e: XmlEvent| sheet_ref_step(r, e)),
            pairs_text(out@) == fold_events(xml@, rd@.1, Seq::empty(), step),
            forall|i: nat| i < rd@.1 ==> !is_stop(#[trigger] crate::xml::xml_event_at(xml@, i)),
        ensures
            first_stop(xml@, stop_index(xml@)),
            pairs_text(out@) == fold_events(xml@, stop_index(xml@), Seq::empty(), step),
        decreases len - rd@.1,
    {
        let ghost p = rd@.1;
        let ghost before = pairs_text(out@);
        let ev = rd.next_event();
        if matches!(ev, XmlEvent::Eof | XmlEvent::Error) {
            proof {
                lemma_first_stop_unique(xml@, p);
            }
            break;
        }
        if let XmlEvent::Tag(t, _) = &ev {
            if name_is(&t.name, "sheet") {
                let name = attr_string(t, "name");
                let rid = attr_string(t, "r:id");
                out.push((name, rid));
            }
        }
        assert(pairs_text(out@) =~= sheet_ref_step(before, ev));
    }
    out
}


fn collect_rels(xml: &str) -> (v: Vec<(String, String)>)
    ensures
        pairs_text(v@) == rels_spec(xml@),
{
    let mut rd = XmlReader::new(xml);
    let mut out: Vec<(String, String)> = Vec::new();
    let ghost step = |r: Seq<(Seq<char>, Seq<char>)>, e: XmlEvent| rel_step(r, e);
    let ghost len = vstd::utf8::encode_utf8(xml@).len();
    assert(pairs_text(out@) =~= Seq::empty());
    loop
        invariant_except_break
            rd@.0 == xml@,
            rd@.1 <= len,
            len == vstd::utf8::encode_utf8(xml@).len(),
            step == (|r: Seq<(Seq<char>, Seq<char>)>, e: XmlEvent| rel_step(r, e)),
            pairs_text(out@) == fold_events(xml@, rd@.1, Seq::empty(), step),
            forall|i: nat| i < rd@.1 ==> !is_stop(#[trigger] crate::xml::xml_event_at(xml@, i)),
        ensures
            first_stop(xml@, stop_index(xml@)),
            pairs_text(out@) == fold_events(xml@, stop_index(xml@), Seq::empty(), step),
        decreases len - rd@.1,
    {
        let ghost p = rd@.1;
        let ghost before = pairs_text(out@);
        let ev = rd.next_event();
        if matches!(ev, XmlEvent::Eof | XmlEvent::Error) {
            proof {
                lemma_first_stop_unique(xml@, p);
            }
            break;
        }
        if let XmlEvent::Tag(t, _) = &ev {
            if name_is(&t.name, "Relationship") {
                let id = attr_string(t, "Id");
                let target = attr_string(t, "Target");
                if !id.as_str().is_empty() {
                    out.push((id, target));
                }
            }
        }
        assert(pairs_text(out@) =~= rel_step(before, ev));
    }
    out
}

proof fn lemma_strip_slashes(s: Seq<char>, i: int)
    requires
        0 <= i <= s.len(),
        forall|j: int| 0 <= j < i ==> s[j] == '/',
        i == s.len() || s[i] != '/',
    ensures
        strip_slashes(s) == s.skip(i),
    decreases i,
{
    if i > 0 {
        assert forall|j: int| 0 <= j < i - 1 implies s.drop_first()[j] == '/' by {
            assert(s.drop_first()[j] == s[j + 1]);
        }
        if i - 1 < s.len() - 1 {
            assert(s.drop_first()[i - 1] == s[i]);
        }
        lemma_strip_slashes(s.drop_first(), i - 1);
        assert(s.drop_first().skip(i - 1) =~= s.skip(i));
    } else {
        assert(s.skip(0) =~= s);
    }
}

/// Archive path of the sheet part that a relationship target names.
pub fn sheet_part_path_of(target: &str) -> (p: String)
    ensures
        p@ == sheet_part_path(target@),
{
    let v = chars_of(target);
    let mut i: usize = 0;
    while i < v.len() && v[i] == '/'
        invariant
            i <= v@.len(),
            forall|j: int| 0 <= j < i ==> v@[j] == '/',
        decreases v@.len() - i,
    {
        i = i + 1;
    }
    proof {
        lemma_strip_slashes(v@, i as int);
    }
    let mut t: Vec<char> = Vec::new();
    let mut k: usize = i;
    while k < v.len()
        invariant
            i <= k <= v@.len(),
            t@ == v@.subrange(i as int, k as int),
        decreases v@.len() - k,
    {
        t.push(v[k]);
        k = k + 1;
        assert(t@ =~= v@.subrange(i as int, k as int));
    }
    assert(t@ =~= v@.skip(i as int));
    let xl = chars_of("xl/");
    if starts_with(t.as_slice(), xl.as_slice()) {
        string_of(t.as_slice())
    } else {
        let mut p = owned("xl/");
        let rest = string_of(t.as_slice());
        push_str(&mut p, rest.as_str());
        p
    }
}

fn lookup_rel(rels: &Vec<(String, String)>, id: &String) -> (r: Option<String>)
    ensures
        match r {
            Some(t) => rel_target(pairs_text(rels@), id@) == Some(t@),
            None => rel_target(pairs_text(rels@), id@) is None,
        },
{
    let mut i: usize = rels.len();
    assert(pairs_text(rels@).take(i as int) =~= pairs_text(rels@));
    while i > 0
        invariant
            i <= rels@.len(),
            rel_target(pairs_text(rels@), id@) == rel_target(pairs_text(rels@).take(i as int), id@),
        decreases i,
    {
        assert(pairs_text(rels@).take(i as int).drop_last() =~= pairs_text(rels@).take(i - 1));
        if rels[i - 1].0 == *id {
            return Some(rels[i - 1].1.clone());
        }
        i = i - 1;
    }
    None
}

/// The sheets of a workbook, in workbook order, as (name, archive path of the
/// sheet part), from the contents of `xl/workbook.xml` and of
/// `xl/_rels/workbook.xml.rels` (an absent relationships part reads as empty).
/// Fails when the workbook part is absent or no sheet can be resolved.
pub fn read_workbook_sheets(workbook: Option<&str>, rels: Option<&str>) -> (r: Result<Vec<(String, String)>, String>)
    ensures
        workbook is None ==> (r matches Err(e) && e@ == "missing xl/workbook.xml (not an xlsx?)"@),
        workbook matches Some(w) ==> ({
            let s = workbook_sheets_spec(w@, match rels { Some(x) => x@, None => ""@ });
            &&& s.len() == 0 ==> (r matches Err(e) && e@ == "no worksheets found"@)
            &&& s.len() > 0 ==> (r matches Ok(v) && pairs_text(v@) == s)
        }),
{
    let wb = match workbook {
        Some(w) => w,
        None => return Err(owned("missing xl/workbook.xml (not an xlsx?)")),
    };
    let refs = collect_sheet_refs(wb);
    let rel_pairs = match rels {
        Some(x) => collect_rels(x),
        None => collect_rels(""),
    };
    let ghost rp = pairs_text(rel_pairs@);
    let mut sheets: Vec<(String, String)> = Vec::new();
    let mut i: usize = 0;
    while i < refs.len()
        invariant
            i <= refs@.len(),
            rp == pairs_text(rel_pairs@),
            pairs_text(sheets@) == sheets_spec(pairs_text(refs@).take(i as int), rp),
        decreases refs@.len() - i,
    {
        assert(pairs_text(refs@).take(i + 1).drop_last() =~= pairs_text(refs@).take(i as int));
        let ghost before = pairs_text(sheets@);
        match lookup_rel(&rel_pairs, &refs[i].1) {
            Some(t) => {
                let path = sheet_part_path_of(t.as_str());
                sheets.push((refs[i].0.clone(), path));
                assert(pairs_text(sheets@) =~= before.push((refs@[i as int].0@, sheet_part_path(t@))));
            },
            None => {},
        }
        i = i + 1;
    }
    assert(pairs_text(refs@).take(refs@.len() as int) =~= pairs_text(refs@));
    if sheets.len() == 0 {
        return Err(owned("no worksheets found"));
    }
    Ok(sheets)
}

// ------------------------------------------------------------ sheet rows ----

/// How a cell's value is to be read, from its `t` attribute.
#[derive(Clone, Copy, PartialEq, Eq, Structural)]
pub enum CellKind {
    /// `t="s"`: an index into the shared strings.
    Shared,
    /// `t="b"`: a boolean, 1 for true.
    Bool,
    /// Anything else: the value as written.
    Plain,
}

/// The kind named by a cell's `t` attribute value.
pub open spec fn cell_kind_of(t: Option<Seq<u8>>) -> CellKind {
    match t {
        Some(v) => if v == "s".spec_bytes() {
            CellKind::Shared
        } else if v == "b".spec_bytes() {
            CellKind::Bool
        } else {
            CellKind::Plain
        },
        None => CellKind::Plain,
    }
}

/// The text shown for a cell of kind `kind` whose collected value is `val`:
/// a shared string by (trimmed) index, empty when the index is not a number
/// or out of range; `TRUE` or `FALSE` for booleans; the value itself otherwise.
pub open spec fn resolve_cell(kind: CellKind, val: Seq<char>, sst: Seq<Seq<char>>) -> Seq<char> {
    match kind {
        CellKind::Shared => match parse_usize_spec(trim(val)) {
            Some(i) => if i < sst.len() { sst[i as int] } else { Seq::empty() },
            None => Seq::empty(),
        },
        CellKind::Bool => if trim(val) == "1"@ { "TRUE"@ } else { "FALSE"@ },
        CellKind::Plain => val,
    }
}

/// `row` extended with empty cells to at least `n` cells.
pub open spec fn pad_row(row: Seq<Seq<char>>, n: nat) -> Seq<Seq<char>> {
    if row.len() < n {
        row + Seq::new((n - row.len()) as nat, |i: int| Seq::<char>::empty())
    } else {
        row
    }
}

/// `row` with cell `col` set to `x`, extended with empty cells as needed.
pub open spec fn place_cell(row: Seq<Seq<char>>, col: nat, x: Seq<char>) -> Seq<Seq<char>> {
    pad_row(row, col + 1).update(col as int, x)
}

/// The state of reading the rows of a sheet part.
pub struct RowModel {
    pub row: Seq<Seq<char>>,
    pub col: nat,
    pub kind: CellKind,
    pub val: Seq<char>,
    pub in_v: bool,
    pub in_t: bool,
}

/// Nothing read yet.
pub open spec fn row_init() -> RowModel {
    RowModel { row: Seq::empty(), col: 0, kind: CellKind::Plain, val: Seq::empty(), in_v: false, in_t: false }
}

/// One event of a sheet part, and the row it completes, if any: `<row>`
/// starts a row; `<c>` starts a cell, at the column of its `r` reference
/// when it has one (else at the next column), padding the row with empty
/// cells up to it; text inside `<v>` or `<t>` is collected; `</c>` places the
/// resolved cell and moves to the next column; `</row>` completes the row.
pub open spec fn row_step(m: RowModel, ev: XmlEvent, sst: Seq<Seq<char>>) -> (RowModel, Option<Seq<Seq<char>>>) {
    match ev {
        XmlEvent::Tag(t, _) => if named(t.name, "row") {
            (RowModel { row: Seq::empty(), col: 0, ..m }, None)
        } else if named(t.name, "c") {
            let col = match attr_last(t.attrs@, "r".spec_bytes()) {
                Some(r) => col_index_spec(r),
                None => m.col,
            };
            (RowModel {
                row: pad_row(m.row, col),
                col: col,
                kind: cell_kind_of(attr_last(t.attrs@, "t".spec_bytes())),
                val: Seq::empty(),
                ..m
            }, None)
        } else if named(t.name, "v") {
            (RowModel { in_v: true, val: Seq::empty(), ..m }, None)
        } else if named(t.name, "t") {
            (RowModel { in_t: true, ..m }, None)
        } else {
            (m, None)
        },
        XmlEvent::Text(x) => if m.in_v || m.in_t {
            (RowModel { val: m.val + x@, ..m }, None)
        } else {
            (m, None)
        },
        XmlEvent::End(n) => if named(n, "v") {
            (RowModel { in_v: false, ..m }, None)
        } else if named(n, "t") {
            (RowModel { in_t: false, ..m }, None)
        } else if named(n, "c") {
            (RowModel {
                row: place_cell(m.row, m.col, resolve_cell(m.kind, m.val, sst)),
                col: m.col + 1,
                ..m
            }, None)
        } else if named(n, "row") {
            (RowModel { row: Seq::empty(), ..m }, Some(m.row))
        } else {
            (m, None)
        },
        _ => (m, None),
    }
}

/// The reader state after the events `evs`, taken in order.
pub open spec fn row_steps(m: RowModel, evs: Seq<XmlEvent>, sst: Seq<Seq<char>>) -> RowModel
    decreases evs.len(),
{
    if evs.len() == 0 {
        m
    } else {
        row_steps(row_step(m, evs[0], sst).0, evs.drop_first(), sst)
    }
}

proof fn lemma_sheet_names_differ()
    ensures
        "c".spec_bytes() != "row".spec_bytes(),
        "v".spec_bytes() != "row".spec_bytes(),
        "v".spec_bytes() != "c".spec_bytes(),
        "c".spec_bytes() != "v".spec_bytes(),
        "c".spec_bytes() != "t".spec_bytes(),
{
    broadcast use vstd::string::is_ascii_spec_bytes;

    reveal_strlit("c");
    reveal_strlit("row");
    reveal_strlit("v");
    reveal_strlit("t");
    assert(vstd::string::is_ascii("c"));
    assert(vstd::string::is_ascii("row"));
    assert(vstd::string::is_ascii("v"));
    assert(vstd::string::is_ascii("t"));
    assert("c".spec_bytes().len() != "row".spec_bytes().len());
    assert("v".spec_bytes().len() != "row".spec_bytes().len());
    assert("v".spec_bytes()[0] != "c".spec_bytes()[0]);
    assert("c".spec_bytes()[0] != "t".spec_bytes()[0]);
}

/// A cell element `<c ..><v>x</v></c>` read in a row: the cell lands at the
/// column of its `r` reference, or at the reader's next column when it has
/// none, the row padded with empty cells up to it; its value is resolved by
/// the kind its `t` attribute names (a shared string by trimmed index, `TRUE`
/// or `FALSE`, or the text itself); and the next cell goes one column further.
pub proof fn lemma_cell_element(
    m: RowModel,
    c: XmlTag,
    c_empty: bool,
    v: XmlTag,
    v_empty: bool,
    x: String,
    v_end: Vec<u8>,
    c_end: Vec<u8>,
    sst: Seq<Seq<char>>,
)
    requires
        named(c.name, "c"),
        named(v.name, "v"),
        named(v_end, "v"),
        named(c_end, "c"),
    ensures
        ({
            let col = match attr_last(c.attrs@, "r".spec_bytes()) {
                Some(r) => col_index_spec(r),
                None => m.col,
            };
            let evs = seq![
                XmlEvent::Tag(c, c_empty),
                XmlEvent::Tag(v, v_empty),
                XmlEvent::Text(x),
                XmlEvent::End(v_end),
                XmlEvent::End(c_end),
            ];
            let r = row_steps(m, evs, sst);
            &&& r.row == place_cell(
                pad_row(m.row, col),
                col,
                resolve_cell(cell_kind_of(attr_last(c.attrs@, "t".spec_bytes())), x@, sst),
            )
            &&& r.col == col + 1
            &&& !r.in_v
        }),
{
    lemma_sheet_names_differ();
    let evs = seq![
        XmlEvent::Tag(c, c_empty),
        XmlEvent::Tag(v, v_empty),
        XmlEvent::Text(x),
        XmlEvent::End(v_end),
        XmlEvent::End(c_end),
    ];
    let m1 = row_step(m, evs[0], sst).0;
    let m2 = row_step(m1, evs[1], sst).0;
    let m3 = row_step(m2, evs[2], sst).0;
    let m4 = row_step(m3, evs[3], sst).0;
    let m5 = row_step(m4, evs[4], sst).0;
    assert(m2.val == Seq::<char>::empty());
    assert(m3.val == x@);
    let t1 = seq![XmlEvent::Tag(v, v_empty), XmlEvent::Text(x), XmlEvent::End(v_end), XmlEvent::End(c_end)];
    let t2 = seq![XmlEvent::Text(x), XmlEvent::End(v_end), XmlEvent::End(c_end)];
    let t3 = seq![XmlEvent::End(v_end), XmlEvent::End(c_end)];
    let t4 = seq![XmlEvent::End(c_end)];
    assert(evs.drop_first() =~= t1);
    assert(t1.drop_first() =~= t2);
    assert(t2.drop_first() =~= t3);
    assert(t3.drop_first() =~= t4);
    assert(t4.drop_first() =~= Seq::<XmlEvent>::empty());
    assert(row_steps(m5, t4.drop_first(), sst) == m5);
    assert(row_steps(m4, t4, sst) == m5);
    assert(row_steps(m3, t3, sst) == m5);
    assert(row_steps(m2, t2, sst) == m5);
    assert(row_steps(m1, t1, sst) == m5);
}

/// What a cell element `<c ..><v>x</v></c>` puts in its row: at its column,
/// for a boolean cell (`t="b"`) `TRUE` exactly when the trimmed value is `1`
/// and `FALSE` otherwise; for a shared-string cell (`t="s"`) the shared string
/// at the trimmed value's index, or nothing when that is not an index in
/// range; for any other cell the value itself. Cells before it are kept, and
/// the columns skipped up to it are left empty.
pub proof fn lemma_cell_value(
    m: RowModel,
    c: XmlTag,
    c_empty: bool,
    v: XmlTag,
    v_empty: bool,
    x: String,
    v_end: Vec<u8>,
    c_end: Vec<u8>,
    sst: Seq<Seq<char>>,
)
    requires
        named(c.name, "c"),
        named(v.name, "v"),
        named(v_end, "v"),
        named(c_end, "c"),
    ensures
        ({
            let col = match attr_last(c.attrs@, "r".spec_bytes()) {
                Some(r) => col_index_spec(r),
                None => m.col,
            };
            let t = attr_last(c.attrs@, "t".spec_bytes());
            let r = row_steps(m, seq![
                XmlEvent::Tag(c, c_empty),
                XmlEvent::Tag(v, v_empty),
                XmlEvent::Text(x),
                XmlEvent::End(v_end),
                XmlEvent::End(c_end),
            ], sst);
            &&& r.row.len() > col
            &&& t == Some("b".spec_bytes()) ==> r.row[col as int] == (if trim(x@) == "1"@ { "TRUE"@ } else { "FALSE"@ })
            &&& t == Some("s".spec_bytes()) ==> r.row[col as int] == (match parse_usize_spec(trim(x@)) {
                Some(i) => if i < sst.len() { sst[i as int] } else { Seq::<char>::empty() },
                None => Seq::<char>::empty(),
            })
            &&& (t != Some("b".spec_bytes()) && t != Some("s".spec_bytes())) ==> r.row[col as int] == x@
            &&& forall|j: int| 0 <= j < m.row.len() && j < col ==> #[trigger] r.row[j] == m.row[j]
            &&& forall|j: int| m.row.len() <= j < col ==> #[trigger] r.row[j] == Seq::<char>::empty()
        }),
{
    lemma_cell_element(m, c, c_empty, v, v_empty, x, v_end, c_end, sst);
    lemma_sheet_names_differ();
    reveal_strlit("b");
    reveal_strlit("s");
    broadcast use vstd::string::is_ascii_spec_bytes;
    assert(vstd::string::is_ascii("b"));
    assert(vstd::string::is_ascii("s"));
    assert("b".spec_bytes()[0] != "s".spec_bytes()[0]);
    let col = match attr_last(c.attrs@, "r".spec_bytes()) {
        Some(r) => col_index_spec(r),
        None => m.col,
    };
    let p = pad_row(m.row, col);
    let q = pad_row(p, col + 1);
    assert forall|j: int| 0 <= j < m.row.len() && j < col implies #[trigger] q[j] == m.row[j] by {
        assert(p[j] == m.row[j]);
    }
    assert forall|j: int| m.row.len() <= j < col implies #[trigger] q[j] == Seq::<char>::empty() by {
        assert(p[j] == Seq::<char>::empty());
    }
}

/// Whether the reader can take `ev` without its column arithmetic
/// overflowing: a cell reference's column must fit in `usize`, and a cell can
/// only be closed below the last column.
pub open spec fn row_accepts(m: RowModel, ev: XmlEvent) -> bool {
    match ev {
        XmlEvent::Tag(t, _) => named(t.name, "c") ==> match attr_last(t.attrs@, "r".spec_bytes()) {
            Some(r) => letters_value(column_letters(r)) <= usize::MAX,
            None => true,
        },
        XmlEvent::End(n) => named(n, "c") ==> m.col < usize::MAX,
        _ => true,
    }
}

/// Reads the rows of a sheet part, one event at a time.
pub struct SheetRowReader {
    row: Vec<String>,
    col: usize,
    kind: CellKind,
    val: String,
    in_v: bool,
    in_t: bool,
}

impl View for SheetRowReader {
    type V = RowModel;

    closed spec fn view(&self) -> RowModel {
        RowModel {
            row: row_text(self.row),
            col: self.col as nat,
            kind: self.kind,
            val: self.val@,
            in_v: self.in_v,
            in_t: self.in_t,
        }
    }
}

fn resolve_cell_exec(kind: CellKind, val: &String, sst: &Vec<String>) -> (r: String)
    ensures
        r@ == resolve_cell(kind, val@, sst@.map_values(|s: String| s@)),
{
    match kind {
        CellKind::Shared => {
            let t = trimmed(chars_of(val.as_str()).as_slice());
            match parse_usize(t.as_slice()) {
                Some(i) => if i < sst.len() { sst[i].clone() } else { String::new() },
                None => String::new(),
            }
        },
        CellKind::Bool => {
            let t = string_of(trimmed(chars_of(val.as_str()).as_slice()).as_slice());
            if str_eq(t.as_str(), "1") { owned("TRUE") } else { owned("FALSE") }
        },
        CellKind::Plain => val.clone(),
    }
}

impl SheetRowReader {
    /// A reader before the first event.
    pub fn new() -> (r: Self)
        ensures
            r@ == row_init(),
    {
        let r = SheetRowReader {
            row: Vec::new(),
            col: 0,
            kind: CellKind::Plain,
            val: String::new(),
            in_v: false,
            in_t: false,
        };
        assert(r@.row =~= Seq::<Seq<char>>::empty());
        r
    }

    /// Whether `ev` can be taken (see `row_accepts`).
    pub fn accepts(&self, ev: &XmlEvent) -> (ok: bool)
        ensures
            ok == row_accepts(self@, *ev),
    {
        match ev {
            XmlEvent::Tag(t, _) => {
                if name_is(&t.name, "c") {
                    match last_attr(t, "r") {
                        Some(r) => col_value_fits(r.as_slice()),
                        None => true,
                    }
                } else {
                    true
                }
            },
            XmlEvent::End(n) => !name_is(n, "c") || self.col < usize::MAX,
            _ => true,
        }
    }

    /// Takes one event of the sheet part; returns the row it completes, if any.
    pub fn feed(&mut self, ev: &XmlEvent, sst: &Vec<String>) -> (done: Option<Vec<String>>)
        requires
            row_accepts(old(self)@, *ev),
        ensures
            (final(self)@, match done {
                Some(r) => Some(row_text(r)),
                None => None,
            }) == row_step(old(self)@, *ev, sst@.map_values(|s: String| s@)),
    {
        match ev {
            XmlEvent::Tag(t, _) => {
                if name_is(&t.name, "row") {
                    self.row = Vec::new();
                    self.col = 0;
                    assert(self@.row =~= Seq::<Seq<char>>::empty());
                } else if name_is(&t.name, "c") {
                    self.kind = match last_attr(t, "t") {
                        Some(v) => if crate::text::bytes_eq(v.as_slice(), "s".as_bytes()) {
                            CellKind::Shared
                        } else if crate::text::bytes_eq(v.as_slice(), "b".as_bytes()) {
                            CellKind::Bool
                        } else {
                            CellKind::Plain
                        },
                        None => CellKind::Plain,
                    };
                    match last_attr(t, "r") {
                        Some(r) => {
                            self.col = col_index(r.as_slice());
                        },
                        None => {},
                    }
                    let ghost before = self@.row;
                    let mut row: Vec<String> = Vec::new();
                    std::mem::swap(&mut row, &mut self.row);
                    let col = self.col;
                    while row.len() < col
                        invariant
                            row@.len() >= before.len(),
                            row@.len() == before.len() || row@.len() <= col,
                            forall|j: int| 0 <= j < before.len() ==> #[trigger] row@[j]@ == before[j],
                            forall|j: int| before.len() <= j < row@.len() ==> #[trigger] row@[j]@ == Seq::<char>::empty(),
                        decreases col - row@.len(),
                    {
                        row.push(String::new());
                    }
                    assert(row_text(row) =~= pad_row(before, col as nat));
                    self.row = row;
                    self.val = String::new();
                } else if name_is(&t.name, "v") {
                    self.in_v = true;
                    self.val = String::new();
                } else if name_is(&t.name, "t") {
                    self.in_t = true;
                }
                None
            },
            XmlEvent::Text(x) => {
                if self.in_v || self.in_t {
                    push_str(&mut self.val, x.as_str());
                }
                None
            },
            XmlEvent::End(n) => {
                if name_is(n, "v") {
                    self.in_v = false;
                    None
                } else if name_is(n, "t") {
                    self.in_t = false;
                    None
                } else if name_is(n, "c") {
                    let cell = resolve_cell_exec(self.kind, &self.val, sst);
                    let ghost before = self@.row;
                    let mut row: Vec<String> = Vec::new();
                    std::mem::swap(&mut row, &mut self.row);
                    let col = self.col;
                    while row.len() <= col
                        invariant
                            col < usize::MAX,
                            row@.len() >= before.len(),
                            row@.len() == before.len() || row@.len() <= col + 1,
                            forall|j: int| 0 <= j < before.len() ==> #[trigger] row@[j]@ == before[j],
                            forall|j: int| before.len() <= j < row@.len() ==> #[trigger] row@[j]@ == Seq::<char>::empty(),
                        decreases col + 1 - row@.len(),
                    {
                        row.push(String::new());
                    }
                    assert(row_text(row) =~= pad_row(before, col as nat + 1));
                    row.set(col, cell);
                    assert(row_text(row) =~= place_cell(before, col as nat, cell@));
                    self.row = row;
                    self.col = self.col + 1;
                    None
                } else if name_is(n, "row") {
                    let mut done: Vec<String> = Vec::new();
                    std::mem::swap(&mut done, &mut self.row);
                    assert(self@.row =~= Seq::<Seq<char>>::empty());
                    Some(done)
                } else {
                    None
                }
            },
            _ => None,
        }
    }
}

/// Whether the column of a cell reference fits in `usize`.
pub fn col_value_fits(r: &[u8]) -> (ok: bool)
    ensures
        ok == (letters_value(column_letters(r@)) <= usize::MAX),
{
    let mut n: usize = 0;
    let mut i: usize = 0;
    let ghost run = column_letters(r@);
    while i < r.len() && ((65 <= r[i] && r[i] <= 90) || (97 <= r[i] && r[i] <= 122))
        invariant
            i <= r@.len(),
            forall|j: int| 0 <= j < i ==> is_letter(#[trigger] r@[j]),
            n == letters_value(r@.take(i as int)),
            run == column_letters(r@),
        decreases r@.len() - i,
    {
        proof {
            lemma_letter_run_prefix(r@, i as int + 1);
            assert forall|j: int| 0 <= j < run.len() implies is_letter(#[trigger] run[j]) by {
                assert(run[j] == r@[j]);
            }
            lemma_letters_value_mono(run, i as int + 1);
            assert(run.take(i as int + 1) =~= r@.take(i as int + 1));
            assert(r@.take(i as int + 1).drop_last() =~= r@.take(i as int));
        }
        let b = if 97 <= r[i] { r[i] - 32 } else { r[i] };
        let d = (b - 65 + 1) as usize;
        if n > (usize::MAX - d) / 26 {
            assert(letters_value(r@.take(i as int + 1)) > usize::MAX) by (nonlinear_arith)
                requires
                    letters_value(r@.take(i as int + 1)) == n * 26 + d,
                    n > (usize::MAX - d) / 26,
                    d <= 26,
            ;
            return false;
        }
        n = n * 26 + d;
        i = i + 1;
    }
    proof {
        lemma_letter_run(r@, i as int);
        assert(r@.take(i as int) =~= run);
    }
    true
}

/// The text of each cell of a row.
pub open spec fn row_text(row: Vec<String>) -> Seq<Seq<char>> {
    row@.map_values(|s: String| s@)
}

/// The text of each cell of each row.
pub open spec fn rows_text(rows: Seq<Vec<String>>) -> Seq<Seq<Seq<char>>> {
    rows.map_values(|r: Vec<String>| row_text(r))
}

/// The rows of one sheet loaded so far.
pub struct SheetData {
    pub rows: Vec<Vec<String>>,
    pub ncols: usize,
    pub done: bool,
    pub capped: bool,
}

impl SheetData {
    /// No rows yet, loading not finished.
    pub fn new() -> (d: Self)
        ensures
            d.rows@.len() == 0,
            d.ncols == 0,
            !d.done,
            !d.capped,
    {
        SheetData { rows: Vec::new(), ncols: 0, done: false, capped: false }
    }
}

/// Cell `(r, c)` of `rows` exists and contains `needle` case-insensitively.
pub open spec fn is_hit(rows: Seq<Seq<Seq<char>>>, needle: Seq<u8>, r: int, c: int) -> bool {
    &&& 0 <= r < rows.len()
    &&& 0 <= c < rows[r].len()
    &&& contains_ci_bytes(vstd::utf8::encode_utf8(rows[r][c]), needle)
}

/// Row-major order of cell positions.
pub open spec fn before(a: (usize, usize), b: (usize, usize)) -> bool {
    a.0 < b.0 || (a.0 == b.0 && a.1 < b.1)
}

/// The cell at `(r, c)`, or the empty text past the end of its row.
pub open spec fn cell_or_empty(rows: Seq<Seq<Seq<char>>>, r: int, c: int) -> Seq<char> {
    if 0 <= c < rows[r].len() { rows[r][c] } else { Seq::empty() }
}

/// `hits` lists, in row-major order, exactly the cells of `rows` that
/// contain `query`, ignoring ASCII case.
pub open spec fn found(rows: Seq<Seq<Seq<char>>>, query: Seq<u8>, hits: Seq<(usize, usize)>) -> bool {
    &&& forall|k: int| 0 <= k < hits.len() ==> is_hit(rows, lower_bytes(query), #[trigger] hits[k].0 as int, hits[k].1 as int)
    &&& forall|r: int, c: int| is_hit(rows, lower_bytes(query), r, c) ==> hits.contains((r as usize, c as usize))
    &&& forall|k1: int, k2: int| 0 <= k1 < k2 < hits.len() ==> before(#[trigger] hits[k1], #[trigger] hits[k2])
}

/// The bytes of `q` with ASCII letters raised, as `str::to_ascii_uppercase` gives them.
pub open spec fn upper_bytes(q: Seq<u8>) -> Seq<u8> {
    q.map_values(|b: u8| if 97 <= b && b <= 122 { (b - 32) as u8 } else { b })
}

proof fn lemma_sorted_unique(a: Seq<(usize, usize)>, b: Seq<(usize, usize)>)
    requires
        forall|i: int, j: int| 0 <= i < j < a.len() ==> before(#[trigger] a[i], #[trigger] a[j]),
        forall|i: int, j: int| 0 <= i < j < b.len() ==> before(#[trigger] b[i], #[trigger] b[j]),
        forall|x: (usize, usize)| a.contains(x) <==> b.contains(x),
    ensures
        a == b,
    decreases a.len(),
{
    if a.len() == 0 {
        if b.len() > 0 {
            assert(b.contains(b[0]));
        }
        assert(a =~= b);
    } else {
        assert(a.contains(a[0]));
        assert(b.contains(a[0]));
        let j = choose|j: int| 0 <= j < b.len() && b[j] == a[0];
        assert(b.contains(b[0]));
        let i = choose|i: int| 0 <= i < a.len() && a[i] == b[0];
        if j > 0 {
            assert(before(b[0], b[j]));
            if i > 0 {
                assert(before(a[0], a[i]));
            }
            assert(false);
        }
        let a1 = a.drop_first();
        let b1 = b.drop_first();
        assert forall|x: (usize, usize)| a1.contains(x) <==> b1.contains(x) by {
            if a1.contains(x) {
                let t = choose|t: int| 0 <= t < a1.len() && a1[t] == x;
                assert(a[t + 1] == x);
                assert(before(a[0], a[t + 1]));
                assert(a.contains(x));
                let u = choose|u: int| 0 <= u < b.len() && b[u] == x;
                assert(u != 0);
                assert(b1[u - 1] == x);
            }
            if b1.contains(x) {
                let t = choose|t: int| 0 <= t < b1.len() && b1[t] == x;
                assert(b[t + 1] == x);
                assert(before(b[0], b[t + 1]));
                assert(b.contains(x));
                let u = choose|u: int| 0 <= u < a.len() && a[u] == x;
                assert(u != 0);
                assert(a1[u - 1] == x);
            }
        }
        assert forall|i: int, j: int| 0 <= i < j < a1.len() implies before(#[trigger] a1[i], #[trigger] a1[j]) by {
            assert(before(a[i + 1], a[j + 1]));
        }
        assert forall|i: int, j: int| 0 <= i < j < b1.len() implies before(#[trigger] b1[i], #[trigger] b1[j]) by {
            assert(before(b[i + 1], b[j + 1]));
        }
        lemma_sorted_unique(a1, b1);
        assert(a =~= b) by {
            assert forall|k: int| 0 <= k < a.len() implies a[k] == b[k] by {
                if k > 0 {
                    assert(a[k] == a1[k - 1]);
                    assert(b[k] == b1[k - 1]);
                }
            }
        }
    }
}

/// A search ignores ASCII case: two queries that are equal once ASCII-lowered
/// (such as a query and its ASCII upper or lower case) find the same cells,
/// in the same order.
pub proof fn lemma_find_ignores_case(rows: Seq<Seq<Seq<char>>>, q1: Seq<u8>, q2: Seq<u8>, h1: Seq<(usize, usize)>, h2: Seq<(usize, usize)>)
    requires
        lower_bytes(q1) == lower_bytes(q2),
        found(rows, q1, h1),
        found(rows, q2, h2),
    ensures
        h1 == h2,
{
    assert forall|x: (usize, usize)| h1.contains(x) <==> h2.contains(x) by {
        if h1.contains(x) {
            let k = choose|k: int| 0 <= k < h1.len() && h1[k] == x;
            assert(is_hit(rows, lower_bytes(q1), h1[k].0 as int, h1[k].1 as int));
        }
        if h2.contains(x) {
            let k = choose|k: int| 0 <= k < h2.len() && h2[k] == x;
            assert(is_hit(rows, lower_bytes(q2), h2[k].0 as int, h2[k].1 as int));
        }
    }
    lemma_sorted_unique(h1, h2);
}

/// A query and its ASCII upper and lower case are equal once ASCII-lowered.
pub proof fn lemma_case_variants(q: Seq<u8>)
    ensures
        lower_bytes(upper_bytes(q)) == lower_bytes(q),
        lower_bytes(lower_bytes(q)) == lower_bytes(q),
{
    assert(lower_bytes(upper_bytes(q)) =~= lower_bytes(q));
    assert(lower_bytes(lower_bytes(q)) =~= lower_bytes(q));
}

/// A longer query finds no more: when `q1` occurs in `q2` at offset `a`,
/// every cell found for `q2` is found for `q1`.
pub proof fn lemma_find_narrows(rows: Seq<Seq<Seq<char>>>, q1: Seq<u8>, q2: Seq<u8>, a: int, h1: Seq<(usize, usize)>, h2: Seq<(usize, usize)>)
    requires
        0 <= a,
        a + q1.len() <= q2.len(),
        q2.subrange(a, a + q1.len()) == q1,
        found(rows, q1, h1),
        found(rows, q2, h2),
    ensures
        forall|k: int| 0 <= k < h2.len() ==> h1.contains(#[trigger] h2[k]),
{
    assert forall|k: int| 0 <= k < h2.len() implies h1.contains(#[trigger] h2[k]) by {
        let r = h2[k].0 as int;
        let c = h2[k].1 as int;
        assert(is_hit(rows, lower_bytes(q2), r, c));
        let hay = vstd::utf8::encode_utf8(rows[r][c]);
        let i = choose|i: int| matches_at(hay, lower_bytes(q2), i);
        assert(matches_at(hay, lower_bytes(q1), i + a)) by {
            assert forall|j: int| 0 <= j < lower_bytes(q1).len() implies lower_byte(#[trigger] hay[i + a + j]) == lower_bytes(q1)[j] by {
                assert(q1[j] == q2[a + j]);
                assert(lower_byte(hay[i + (a + j)]) == lower_bytes(q2)[a + j]);
            }
        }
        assert(is_hit(rows, lower_bytes(q1), r, c));
    }
}

/// The empty query finds every loaded cell.
pub proof fn lemma_find_empty(rows: Seq<Seq<Seq<char>>>, h: Seq<(usize, usize)>)
    requires
        found(rows, Seq::empty(), h),
    ensures
        forall|r: int, c: int| 0 <= r < rows.len() && 0 <= c < rows[r].len() ==> #[trigger] h.contains((r as usize, c as usize)),
        forall|k: int| 0 <= k < h.len() ==> (#[trigger] h[k]).0 < rows.len() && h[k].1 < rows[h[k].0 as int].len(),
{
    assert forall|r: int, c: int| 0 <= r < rows.len() && 0 <= c < rows[r].len() implies #[trigger] h.contains((r as usize, c as usize)) by {
        assert(matches_at(vstd::utf8::encode_utf8(rows[r][c]), lower_bytes(Seq::<u8>::empty()), 0));
        assert(is_hit(rows, lower_bytes(Seq::<u8>::empty()), r, c));
    }
    assert forall|k: int| 0 <= k < h.len() implies (#[trigger] h[k]).0 < rows.len() && h[k].1 < rows[h[k].0 as int].len() by {
        assert(is_hit(rows, lower_bytes(Seq::<u8>::empty()), h[k].0 as int, h[k].1 as int));
    }
}

/// Number of rows that a window from row `r0` up to (not including) `r1` holds.
pub open spec fn window_height(nrows: nat, r0: nat, r1: nat) -> nat {
    let end = if r1 < nrows { r1 } else { nrows };
    if r0 < end { (end - r0) as nat } else { 0 }
}

/// The load status of a workbook is well formed: the rows stay within the
/// row bound, a load stopped at the bound is finished with exactly that many
/// rows, and the widest-row count covers every row.
pub open spec fn status_holds(b: StreamBook) -> bool {
    &&& b.rows().len() <= ROW_CAP
    &&& b.status().2 ==> (b.status().1 && b.rows().len() == ROW_CAP)
    &&& forall|r: int| 0 <= r < b.rows().len() ==> #[trigger] b.rows()[r].len() <= b.status().0
}

/// `b` is `a` with possibly another load status: same sheets, selection,
/// shared strings, file and load generation.
pub open spec fn same_book(a: StreamBook, b: StreamBook) -> bool {
    &&& b.sheet_list() == a.sheet_list()
    &&& b.current() == a.current()
    &&& b.shared() == a.shared()
    &&& b.file_path() == a.file_path()
    &&& b.load_generation() == a.load_generation()
}

/// `b` is `a` after a loader of generation `g` delivered `row`, and `stop`
/// tells the loader to stop. A row of another generation, or one that comes
/// after loading finished, is refused and the loader stops. Otherwise the row
/// is appended, the widest-row count covers it, and reaching the row bound
/// finishes loading as capped and stops the loader.
pub open spec fn pushed(a: StreamBook, b: StreamBook, g: u64, row: Seq<Seq<char>>, stop: bool) -> bool {
    &&& same_book(a, b)
    &&& if g != a.load_generation() || a.status().1 {
        stop && b == a
    } else {
        &&& b.rows() == a.rows().push(row)
        &&& b.status().0 == (if a.status().0 < row.len() { row.len() as usize } else { a.status().0 })
        &&& stop == (b.rows().len() >= ROW_CAP)
        &&& b.status().1 == stop
        &&& b.status().2 == stop
    }
}

/// `b` is `a` after the loader of generation `g` reached the end of its
/// sheet: loading is marked finished when that generation is current.
pub open spec fn finished(a: StreamBook, b: StreamBook, g: u64) -> bool {
    &&& same_book(a, b)
    &&& g == a.load_generation() ==> (b.rows() == a.rows() && b.status() == (a.status().0, true, a.status().2))
    &&& g != a.load_generation() ==> b == a
}

/// From `a` to `b` the load status only grows: the rows of `a` stay a prefix,
/// the widest-row count does not shrink, a finished load changes no more, and
/// a capped load stays capped.
pub open spec fn load_grows(a: StreamBook, b: StreamBook) -> bool {
    &&& a.rows().len() <= b.rows().len()
    &&& b.rows().take(a.rows().len() as int) == a.rows()
    &&& a.status().0 <= b.status().0
    &&& a.status().1 ==> (b.rows() == a.rows() && b.status() == a.status())
    &&& a.status().2 ==> b.status().2
}

/// The load status only grows over any run of deliveries and ends of load
/// (no sheet selected in between): growth from `a` to `b` and from `b` to `c`
/// is growth from `a` to `c`.
pub proof fn lemma_load_grows_trans(a: StreamBook, b: StreamBook, c: StreamBook)
    requires
        load_grows(a, b),
        load_grows(b, c),
    ensures
        load_grows(a, c),
{
    assert(c.rows().take(a.rows().len() as int) =~= c.rows().take(b.rows().len() as int).take(a.rows().len() as int));
}

/// A workbook whose sheets are read one at a time. The rows of the selected
/// sheet are filled in by a loader as it reads them; each load is tagged with
/// a generation so that rows of an abandoned load are refused.
pub struct StreamBook {
    file: String,
    sheets: Vec<(String, String)>,
    sst: Vec<String>,
    cur: usize,
    data: SheetData,
    generation: u64,
}

impl StreamBook {
    #[verifier::type_invariant]
    spec fn inv(&self) -> bool {
        &&& self.sheets@.len() > 0
        &&& self.cur < self.sheets@.len()
        &&& self.data.rows@.len() <= ROW_CAP
        &&& self.data.capped == (self.data.rows@.len() == ROW_CAP)
        &&& self.data.capped ==> self.data.done
        &&& forall|r: int| 0 <= r < self.data.rows@.len() ==> (#[trigger] self.data.rows@[r])@.len() <= self.data.ncols
    }

    proof fn lemma_status_holds(b: Self)
        requires
            b.inv(),
        ensures
            status_holds(b),
    {
        assert forall|r: int| 0 <= r < b.rows().len() implies #[trigger] b.rows()[r].len() <= b.status().0 by {
            assert(b.rows()[r] == row_text(b.data.rows@[r]));
        }
    }

    /// (name, path of the sheet's part in the archive) of each sheet, in workbook order.
    pub closed spec fn sheet_list(&self) -> Seq<(Seq<char>, Seq<char>)> {
        self.sheets@.map_values(|p: (String, String)| (p.0@, p.1@))
    }

    /// The shared strings of the workbook.
    pub closed spec fn shared(&self) -> Seq<Seq<char>> {
        self.sst@.map_values(|s: String| s@)
    }

    /// The path of the workbook file.
    pub closed spec fn file_path(&self) -> Seq<char> {
        self.file@
    }

    /// Index of the selected sheet.
    pub closed spec fn current(&self) -> nat {
        self.cur as nat
    }

    /// Rows of the selected sheet loaded so far.
    pub closed spec fn rows(&self) -> Seq<Seq<Seq<char>>> {
        rows_text(self.data.rows@)
    }

    /// (widest row seen, loading finished, stopped at the row bound).
    pub closed spec fn status(&self) -> (usize, bool, bool) {
        (self.data.ncols, self.data.done, self.data.capped)
    }

    /// Generation of the current load.
    pub closed spec fn load_generation(&self) -> u64 {
        self.generation
    }

    /// A workbook with the given sheets and shared strings, its first sheet
    /// selected and nothing loaded yet.
    pub fn new(file: String, sheets: Vec<(String, String)>, sst: Vec<String>) -> (b: Self)
        requires
            sheets@.len() > 0,
        ensures
            b.file_path() == file@,
            b.sheet_list() == sheets@.map_values(|p: (String, String)| (p.0@, p.1@)),
            b.shared() == sst@.map_values(|s: String| s@),
            b.current() == 0,
            b.rows().len() == 0,
            b.status() == (0usize, false, false),
            b.load_generation() == 0,
    {
        StreamBook { file, sheets, sst, cur: 0, data: SheetData::new(), generation: 0 }
    }

    /// A workbook read from the contents of its parts: `xl/workbook.xml`,
    /// `xl/_rels/workbook.xml.rels` and `xl/sharedStrings.xml` (each `None`
    /// when the archive lacks it). Fails as `read_workbook_sheets` does;
    /// otherwise the first sheet is selected and nothing is loaded yet.
    pub fn open_parts(file: String, workbook: Option<&str>, rels: Option<&str>, shared: Option<&str>) -> (r: Result<Self, String>)
        ensures
            workbook is None ==> (r matches Err(e) && e@ == "missing xl/workbook.xml (not an xlsx?)"@),
            workbook matches Some(w) ==> ({
                let s = workbook_sheets_spec(w@, match rels { Some(x) => x@, None => ""@ });
                &&& s.len() == 0 ==> (r matches Err(e) && e@ == "no worksheets found"@)
                &&& s.len() > 0 ==> (r matches Ok(b) && {
                    &&& b.sheet_list() == s
                    &&& b.shared() == match shared {
                        Some(x) => shared_strings_spec(x@),
                        None => Seq::empty(),
                    }
                    &&& b.file_path() == file@
                    &&& b.current() == 0
                    &&& b.rows().len() == 0
                    &&& b.status() == (0usize, false, false)
                    &&& b.load_generation() == 0
                })
            }),
    {
        let sheets = read_workbook_sheets(workbook, rels)?;
        let sst = match shared {
            Some(x) => parse_shared_strings(x),
            None => Vec::new(),
        };
        proof {
            if shared is None {
                assert(sst@.map_values(|s: String| s@) =~= Seq::empty());
            }
        }
        Ok(StreamBook::new(file, sheets, sst))
    }

    /// The sheet names, in workbook order.
    pub fn names(&self) -> (v: Vec<String>)
        ensures
            v@.map_values(|s: String| s@) == self.sheet_list().map_values(
                |p: (Seq<char>, Seq<char>)| p.0,
            ),
    {
        let mut v: Vec<String> = Vec::new();
        let mut i: usize = 0;
        while i < self.sheets.len()
            invariant
                i <= self.sheets@.len(),
                v@.len() == i,
                forall|j: int| 0 <= j < i ==> #[trigger] v@[j]@ == self.sheets@[j].0@,
            decreases self.sheets@.len() - i,
        {
            v.push(self.sheets[i].0.clone());
            i = i + 1;
        }
        assert(v@.map_values(|s: String| s@) =~= self.sheet_list().map_values(
            |p: (Seq<char>, Seq<char>)| p.0,
        ));
        v
    }

    /// Index of the selected sheet.
    pub fn selected(&self) -> (i: usize)
        ensures
            i == self.current(),
            i < self.sheet_list().len(),
    {
        proof {
            use_type_invariant(self);
        }
        self.cur
    }

    /// Selects sheet `idx`. When it exists and is not already selected, the
    /// loaded rows are dropped, a new load generation starts, and true is
    /// returned (a loader must be started); otherwise nothing changes.
    pub fn select(&mut self, idx: usize) -> (started: bool)
        ensures
            started == (idx < old(self).sheet_list().len() && idx != old(self).current()),
            final(self).sheet_list() == old(self).sheet_list(),
            final(self).shared() == old(self).shared(),
            final(self).file_path() == old(self).file_path(),
            started ==> {
                &&& final(self).current() == idx
                &&& final(self).rows().len() == 0
                &&& final(self).status() == (0usize, false, false)
                &&& final(self).load_generation() == old(self).load_generation().wrapping_add(1)
            },
            !started ==> *final(self) == *old(self),
    {
        proof {
            use_type_invariant(&*self);
        }
        if idx < self.sheets.len() && idx != self.cur {
            self.cur = idx;
            self.data = SheetData::new();
            self.generation = self.generation.wrapping_add(1);
            true
        } else {
            false
        }
    }

    /// (rows loaded, widest row, loading finished, stopped at the row bound).
    /// The rows stay within the row bound, a capped load is finished with
    /// exactly that many rows, and the widest-row count covers every row.
    pub fn dims(&self) -> (d: (usize, usize, bool, bool))
        ensures
            d.0 == self.rows().len(),
            (d.1, d.2, d.3) == self.status(),
            status_holds(*self),
    {
        proof {
            use_type_invariant(self);
            Self::lemma_status_holds(*self);
        }
        (self.data.rows.len(), self.data.ncols, self.data.done, self.data.capped)
    }

    /// The path inside the archive of the selected sheet.
    pub fn sheet_path(&self) -> (p: String)
        ensures
            p@ == self.sheet_list()[self.current() as int].1,
    {
        proof {
            use_type_invariant(self);
        }
        self.sheets[self.cur].1.clone()
    }

    /// The path of the workbook file.
    pub fn file(&self) -> (f: String)
        ensures
            f@ == self.file_path(),
    {
        self.file.clone()
    }

    /// The shared strings of the workbook.
    pub fn shared_strings(&self) -> (v: &Vec<String>)
        ensures
            v@.map_values(|s: String| s@) == self.shared(),
    {
        &self.sst
    }

    /// Generation of the current load.
    pub fn generation(&self) -> (g: u64)
        ensures
            g == self.load_generation(),
    {
        self.generation
    }

    /// A loader of generation `generation` delivers the next row. Returns
    /// whether the loader must stop: see `pushed`.
    pub fn push_row(&mut self, generation: u64, row: Vec<String>) -> (stop: bool)
        ensures
            pushed(*old(self), *final(self), generation, row_text(row), stop),
            load_grows(*old(self), *final(self)),
            status_holds(*final(self)),
    {
        proof {
            use_type_invariant(&*self);
        }
        if generation != self.generation || self.data.done {
            proof {
                Self::lemma_status_holds(*self);
                assert(self.rows().take(self.rows().len() as int) =~= self.rows());
            }
            return true;
        }
        let mut d = SheetData::new();
        std::mem::swap(&mut d, &mut self.data);
        let ghost old_rows = d.rows@;
        let n = row.len();
        if d.ncols < n {
            d.ncols = n;
        }
        d.rows.push(row);
        assert(rows_text(d.rows@) =~= rows_text(old(self).data.rows@).push(row_text(row)));
        assert forall|r: int| 0 <= r < d.rows@.len() implies (#[trigger] d.rows@[r])@.len() <= d.ncols by {
            if r < old_rows.len() {
                assert(d.rows@[r] == old_rows[r]);
            }
        }
        let stop = d.rows.len() >= ROW_CAP;
        if stop {
            d.capped = true;
            d.done = true;
        }
        self.data = d;
        proof {
            use_type_invariant(&*self);
            Self::lemma_status_holds(*self);
            assert(self.rows().take(old(self).rows().len() as int) =~= old(self).rows());
        }
        stop
    }

    /// The loader of generation `generation` reached the end of its sheet;
    /// loading is marked finished when that generation is current.
    pub fn finish(&mut self, generation: u64)
        ensures
            finished(*old(self), *final(self), generation),
            load_grows(*old(self), *final(self)),
            status_holds(*final(self)),
    {
        proof {
            use_type_invariant(&*self);
        }
        if generation == self.generation {
            self.data.done = true;
        }
        proof {
            use_type_invariant(&*self);
            Self::lemma_status_holds(*self);
            assert(self.rows().take(old(self).rows().len() as int) =~= old(self).rows());
        }
    }

    /// All cells loaded so far that contain `query`, ignoring ASCII case, in
    /// row-major order.
    pub fn find(&self, query: &str) -> (hits: Vec<(usize, usize)>)
        ensures
            found(self.rows(), query.spec_bytes(), hits@),
    {
        let q = query.as_bytes();
        let mut needle: Vec<u8> = Vec::new();
        let mut i: usize = 0;
        while i < q.len()
            invariant
                i <= q@.len(),
                needle@ == lower_bytes(q@.take(i as int)),
            decreases q@.len() - i,
        {
            needle.push(byte_lower(q[i]));
            i = i + 1;
            assert(needle@ =~= lower_bytes(q@.take(i as int)));
        }
        assert(q@.take(q@.len() as int) =~= q@);
        let ghost rows = self.rows();
        let ghost n = needle@;
        let mut hits: Vec<(usize, usize)> = Vec::new();
        let mut r: usize = 0;
        while r < self.data.rows.len()
            invariant
                rows == rows_text(self.data.rows@),
                n == needle@,
                r <= rows.len(),
                forall|k: int| 0 <= k < hits@.len() ==> is_hit(rows, n, #[trigger] hits@[k].0 as int, hits@[k].1 as int),
                forall|k: int| 0 <= k < hits@.len() ==> (#[trigger] hits@[k]).0 < r,
                forall|rr: int, c: int| 0 <= rr < r && is_hit(rows, n, rr, c) ==> hits@.contains((rr as usize, c as usize)),
                forall|k1: int, k2: int| 0 <= k1 < k2 < hits@.len() ==> before(#[trigger] hits@[k1], #[trigger] hits@[k2]),
            decreases rows.len() - r,
        {
            let row = &self.data.rows[r];
            let mut c: usize = 0;
            while c < row.len()
                invariant
                    rows == rows_text(self.data.rows@),
                    n == needle@,
                    r < rows.len(),
                    row == self.data.rows@[r as int],
                    c <= row@.len(),
                    forall|k: int| 0 <= k < hits@.len() ==> is_hit(rows, n, #[trigger] hits@[k].0 as int, hits@[k].1 as int),
                    forall|k: int| 0 <= k < hits@.len() ==> before(#[trigger] hits@[k], (r, c)),
                    forall|rr: int, cc: int| (0 <= rr < r || (rr == r && 0 <= cc < c)) && is_hit(rows, n, rr, cc)
                        ==> hits@.contains((rr as usize, cc as usize)),
                    forall|k1: int, k2: int| 0 <= k1 < k2 < hits@.len() ==> before(#[trigger] hits@[k1], #[trigger] hits@[k2]),
                decreases row@.len() - c,
            {
                let found = contains_ci_in(row[c].as_str().as_bytes(), needle.as_slice());
                assert(rows[r as int][c as int] == row@[c as int]@);
                let ghost old_hits = hits@;
                if found {
                    hits.push((r, c));
                    assert forall|rr: int, cc: int| (0 <= rr < r || (rr == r && 0 <= cc < c + 1)) && is_hit(rows, n, rr, cc)
                        implies hits@.contains((rr as usize, cc as usize)) by {
                        if rr == r && cc == c {
                            assert(hits@[old_hits.len() as int] == (r, c));
                        } else {
                            assert(old_hits.contains((rr as usize, cc as usize)));
                            let k = choose|k: int| 0 <= k < old_hits.len() && old_hits[k] == (rr as usize, cc as usize);
                            assert(hits@[k] == old_hits[k]);
                        }
                    }
                } else {
                    assert(!is_hit(rows, n, r as int, c as int));
                }
                c = c + 1;
            }
            r = r + 1;
        }
        hits
    }

    /// A copy of the cells in rows `r0..r1` (cut at the rows loaded) and
    /// columns `c0..c1`, with empty text past the end of a row.
    pub fn window(&self, r0: usize, r1: usize, c0: usize, c1: usize) -> (w: Vec<Vec<String>>)
        ensures
            w@.len() == window_height(self.rows().len(), r0 as nat, r1 as nat),
            forall|i: int| 0 <= i < w@.len() ==> (#[trigger] w@[i])@.len() == (if c0 < c1 { c1 - c0 } else { 0 }),
            forall|i: int, j: int|
                0 <= i < w@.len() && 0 <= j < w@[i]@.len() ==> (#[trigger] w@[i]@[j])@ == cell_or_empty(
                    self.rows(),
                    r0 + i,
                    c0 + j,
                ),
    {
        let ghost rows = self.rows();
        let end = if r1 < self.data.rows.len() { r1 } else { self.data.rows.len() };
        let mut out: Vec<Vec<String>> = Vec::new();
        let mut r: usize = r0;
        while r < end
            invariant
                rows == rows_text(self.data.rows@),
                end <= rows.len(),
                end == (if r1 < rows.len() { r1 as nat } else { rows.len() }),
                r0 <= r,
                r0 < end ==> r <= end,
                end <= r0 ==> r == r0,
                out@.len() == r - r0,
                forall|i: int| 0 <= i < out@.len() ==> (#[trigger] out@[i])@.len() == (if c0 < c1 { c1 - c0 } else { 0 }),
                forall|i: int, j: int|
                    0 <= i < out@.len() && 0 <= j < out@[i]@.len() ==> (#[trigger] out@[i]@[j])@ == cell_or_empty(rows, r0 + i, c0 + j),
            decreases end - r,
        {
            let row = &self.data.rows[r];
            let mut line: Vec<String> = Vec::new();
            let mut c: usize = c0;
            while c < c1
                invariant
                    rows == rows_text(self.data.rows@),
                    r < rows.len(),
                    row == self.data.rows@[r as int],
                    c0 <= c,
                    c0 < c1 ==> c <= c1,
                    c1 <= c0 ==> c == c0,
                    line@.len() == c - c0,
                    forall|j: int| 0 <= j < line@.len() ==> (#[trigger] line@[j])@ == cell_or_empty(rows, r as int, c0 + j),
                decreases c1 - c,
            {
                if c < row.len() {
                    line.push(row[c].clone());
                } else {
                    line.push(String::new());
                }
                c = c + 1;
            }
            out.push(line);
            r = r + 1;
        }
        out
    }
}


/// What a sheet loader does after one event of its sheet part.
#[derive(Clone, Copy, PartialEq, Eq, Structural, Debug)]
pub enum LoadStep {
    /// Read the next event.
    Continue,
    /// The loader is done.
    Stop,
}

/// One loader step from reader state `m` and workbook `a`, for the event
/// `ev`, to reader state `m2` and workbook `b`, with `step` what the loader
/// does next: at the end of the part or on a read error, loading is marked
/// finished and the loader stops; otherwise the event goes to the row reader,
/// and a row it completes is delivered to the workbook, which tells whether
/// to stop.
pub open spec fn load_rel(
    m: RowModel,
    ev: XmlEvent,
    sst: Seq<Seq<char>>,
    a: StreamBook,
    g: u64,
    m2: RowModel,
    b: StreamBook,
    step: LoadStep,
) -> bool {
    &&& is_stop(ev) ==> {
        &&& step == LoadStep::Stop
        &&& m2 == m
        &&& finished(a, b, g)
    }
    &&& !is_stop(ev) ==> {
        let (mm, out) = row_step(m, ev, sst);
        &&& m2 == mm
        &&& match out {
            None => step == LoadStep::Continue && b == a,
            Some(row) => pushed(a, b, g, row, step == LoadStep::Stop),
        }
    }
}

/// The reader state after the events `evs`, and the rows it completed, in order.
pub open spec fn rows_emitted(m: RowModel, evs: Seq<XmlEvent>, sst: Seq<Seq<char>>) -> (RowModel, Seq<Seq<Seq<char>>>)
    decreases evs.len(),
{
    if evs.len() == 0 {
        (m, Seq::empty())
    } else {
        let prev = rows_emitted(m, evs.drop_last(), sst);
        let (m1, out) = row_step(prev.0, evs.last(), sst);
        (m1, match out {
            Some(r) => prev.1.push(r),
            None => prev.1,
        })
    }
}

/// A load of generation `g` over the events `evs`, from a workbook whose
/// load of that generation is not finished: while the loader continues, the
/// workbook holds its starting rows followed by every row completed so far,
/// in order, and is not finished. When the loader stops, the workbook holds
/// the same rows and is finished: at the end of the part or on a read error,
/// or with the row bound reached (capped).
pub proof fn lemma_load_run(
    evs: Seq<XmlEvent>,
    sst: Seq<Seq<char>>,
    g: u64,
    ms: Seq<RowModel>,
    bs: Seq<StreamBook>,
    ss: Seq<LoadStep>,
)
    requires
        ss.len() == evs.len(),
        ms.len() == evs.len() + 1,
        bs.len() == evs.len() + 1,
        forall|i: int| #![trigger ss[i]] 0 <= i < evs.len() ==> load_rel(ms[i], evs[i], sst, bs[i], g, ms[i + 1], bs[i + 1], ss[i]),
        forall|i: int| 0 <= i < evs.len() - 1 ==> #[trigger] ss[i] == LoadStep::Continue,
        bs[0].load_generation() == g,
        !bs[0].status().1,
        forall|i: int| 0 <= i < bs.len() ==> status_holds(#[trigger] bs[i]),
    ensures
        ({
            let n = evs.len() as int;
            let e = rows_emitted(ms[0], evs, sst);
            &&& ms[n] == e.0
            &&& bs[n].rows() == bs[0].rows() + e.1
            &&& bs[n].load_generation() == g
            &&& (n == 0 || ss[n - 1] == LoadStep::Continue) ==> !bs[n].status().1
            &&& (n > 0 && ss[n - 1] == LoadStep::Stop) ==> {
                &&& bs[n].status().1
                &&& is_stop(evs[n - 1]) || (bs[n].status().2 && bs[n].rows().len() == ROW_CAP)
            }
        }),
    decreases evs.len(),
{
    let n = evs.len() as int;
    if n == 0 {
        assert(bs[0].rows() + Seq::<Seq<Seq<char>>>::empty() =~= bs[0].rows());
    } else {
        let pe = evs.drop_last();
        let pm = ms.drop_last();
        let pb = bs.drop_last();
        let ps = ss.drop_last();
        assert forall|i: int| #![trigger ps[i]] 0 <= i < pe.len() implies load_rel(pm[i], pe[i], sst, pb[i], g, pm[i + 1], pb[i + 1], ps[i]) by {
            assert(ss[i] == ps[i]);
        }
        assert forall|i: int| 0 <= i < pe.len() - 1 implies #[trigger] ps[i] == LoadStep::Continue by {
            assert(ss[i] == ps[i]);
        }
        assert forall|i: int| 0 <= i < pb.len() implies status_holds(#[trigger] pb[i]) by {
            assert(pb[i] == bs[i]);
        }
        lemma_load_run(pe, sst, g, pm, pb, ps);
        let k = n - 1;
        if k > 0 {
            assert(ps[k - 1] == ss[k - 1]);
        }
        assert(ss[k] == ss[k]);
        let prev = rows_emitted(ms[0], pe, sst);
        assert(pm[k] == ms[k]);
        assert(pb[k] == bs[k]);
        assert(ms[k] == prev.0);
        assert(bs[k].rows() == bs[0].rows() + prev.1);
        assert(!bs[k].status().1);
        assert(load_rel(ms[k], evs[k], sst, bs[k], g, ms[k + 1], bs[k + 1], ss[k]));
        assert(status_holds(bs[k + 1]));
        let (m1, out) = row_step(prev.0, evs[k], sst);
        match out {
            Some(r) => {
                assert(bs[0].rows() + prev.1.push(r) =~= (bs[0].rows() + prev.1).push(r));
            },
            None => {},
        }
    }
}

/// One step of the loader of generation `generation` (see `load_rel`).
pub fn load_step(
    reader: &mut SheetRowReader,
    ev: &XmlEvent,
    sst: &Vec<String>,
    book: &mut StreamBook,
    generation: u64,
) -> (step: LoadStep)
    requires
        row_accepts(old(reader)@, *ev),
    ensures
        load_rel(
            old(reader)@,
            *ev,
            sst@.map_values(|s: String| s@),
            *old(book),
            generation,
            final(reader)@,
            *final(book),
            step,
        ),
        load_grows(*old(book), *final(book)),
        status_holds(*final(book)),
{
    if matches!(ev, XmlEvent::Eof) || matches!(ev, XmlEvent::Error) {
        book.finish(generation);
        return LoadStep::Stop;
    }
    match reader.feed(ev, sst) {
        Some(row) => {
            if book.push_row(generation, row) {
                LoadStep::Stop
            } else {
                LoadStep::Continue
            }
        },
        None => {
            proof {
                assert(book.rows().take(book.rows().len() as int) =~= book.rows());
                use_type_invariant(&*book);
                StreamBook::lemma_status_holds(*book);
            }
            LoadStep::Continue
        },
    }
}

} // verus!
