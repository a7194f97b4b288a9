//! Character and string helpers shared by the viewers.
use vstd::prelude::*;

verus! {

broadcast use vstd::utf8::encode_utf8_decode_utf8;

/// Byte-wise equality of two byte slices.
pub fn bytes_eq(a: &[u8], b: &[u8]) -> (r: bool)
    ensures
        r == (a@ == b@),
{
    if a.len() != b.len() {
        return false;
    }
    let mut i: usize = 0;
    while i < a.len()
        invariant
            a@.len() == b@.len(),
            i <= a@.len(),
            forall|j: int| 0 <= j < i ==> a@[j] == b@[j],
        decreases a@.len() - i,
    {
        if a[i] != b[i] {
            return false;
        }
        i = i + 1;
    }
    assert(a@ =~= b@);
    true
}

/// Equality of two string slices, character by character.
pub fn str_eq(a: &str, b: &str) -> (r: bool)
    ensures
        r == (a@ == b@),
{
    let r = bytes_eq(a.as_bytes(), b.as_bytes());
    proof {
        if r {
            assert(vstd::utf8::decode_utf8(vstd::utf8::encode_utf8(a@)) == a@);
            assert(vstd::utf8::decode_utf8(vstd::utf8::encode_utf8(b@)) == b@);
        }
    }
    r
}

/// The characters of a string slice, in order.
pub fn chars_of(s: &str) -> (v: Vec<char>)
    ensures
        v@ == s@,
{
    let mut v: Vec<char> = Vec::new();
    for c in it: s.chars()
        invariant
            v@ == it.seq().take(it.index() as int),
            it.seq() == s@,
    {
        v.push(c);
    }
    v
}


/// The text that `String::from_utf8_lossy` makes of `bytes`: the decoded
/// characters, with U+FFFD for each malformed sequence.
pub uninterp spec fn lossy_text(bytes: Seq<u8>) -> Seq<char>;

/// `String::from_utf8_lossy`, made owned. On valid UTF-8 the text is the
/// decoding of the bytes, as its documentation states; otherwise it is the named
/// lossy decoding.
#[verifier::external_body]
pub(crate) fn utf8_lossy(bytes: &[u8]) -> (s: String)
    ensures
        s@ == lossy_text(bytes@),
        vstd::utf8::valid_utf8(bytes@) ==> s@ == vstd::utf8::decode_utf8(bytes@),
{
    String::from_utf8_lossy(bytes).into_owned()
}

/// An owned copy of `s`.
pub fn owned(s: &str) -> (r: String)
    ensures
        r@ == s@,
{
    s.to_owned()
}

/// Whether `s` starts with `p`.
pub open spec fn has_prefix(s: Seq<char>, p: Seq<char>) -> bool {
    p.len() <= s.len() && s.take(p.len() as int) == p
}

/// Whether the characters `s` start with the characters `p`.
pub fn starts_with(s: &[char], p: &[char]) -> (r: bool)
    ensures
        r == has_prefix(s@, p@),
{
    if p.len() > s.len() {
        return false;
    }
    let mut i: usize = 0;
    while i < p.len()
        invariant
            p@.len() <= s@.len(),
            i <= p@.len(),
            forall|j: int| 0 <= j < i ==> s@[j] == p@[j],
        decreases p@.len() - i,
    {
        if s[i] != p[i] {
            assert(s@.take(p@.len() as int)[i as int] != p@[i as int]);
            return false;
        }
        i = i + 1;
    }
    assert(s@.take(p@.len() as int) =~= p@);
    true
}

/// `parts` joined with `sep` between consecutive parts.
pub open spec fn join(parts: Seq<Seq<char>>, sep: Seq<char>) -> Seq<char>
    decreases parts.len(),
{
    if parts.len() == 0 {
        Seq::empty()
    } else if parts.len() == 1 {
        parts[0]
    } else {
        join(parts.drop_last(), sep) + sep + parts.last()
    }
}

/// Appends `parts` joined with `sep` to `out`.
pub fn push_joined(out: &mut String, parts: &Vec<String>, sep: &str)
    ensures
        final(out)@ == old(out)@ + join(parts@.map_values(|p: String| p@), sep@),
{
    let ghost o = out@;
    let ghost ps = parts@.map_values(|p: String| p@);
    let mut i: usize = 0;
    while i < parts.len()
        invariant
            i <= parts@.len(),
            ps == parts@.map_values(|p: String| p@),
            out@ == o + join(ps.take(i as int), sep@),
        decreases parts@.len() - i,
    {
        if i > 0 {
            push_str(out, sep);
        }
        push_str(out, parts[i].as_str());
        i = i + 1;
        proof {
            let t = ps.take(i as int);
            assert(t.drop_last() =~= ps.take(i - 1));
            if i == 1 {
                assert(ps.take(0) =~= Seq::<Seq<char>>::empty());
            }
        }
        assert(out@ =~= o + join(ps.take(i as int), sep@));
    }
    assert(ps.take(parts@.len() as int) =~= ps);
}

/// `s` repeated `n` times.
pub open spec fn repeat(s: Seq<char>, n: nat) -> Seq<char>
    decreases n,
{
    if n == 0 { Seq::empty() } else { repeat(s, (n - 1) as nat) + s }
}

/// Appends `t` repeated `n` times to `out`.
pub fn push_repeated(out: &mut String, t: &str, n: usize)
    ensures
        final(out)@ == old(out)@ + repeat(t@, n as nat),
{
    let ghost o = out@;
    let mut i: usize = 0;
    while i < n
        invariant
            i <= n,
            out@ == o + repeat(t@, i as nat),
        decreases n - i,
    {
        push_str(out, t);
        i = i + 1;
        assert(out@ =~= o + repeat(t@, i as nat));
    }
}

/// Appends the character `c` repeated `n` times to `out`.
pub fn push_char_repeated(out: &mut String, c: char, n: usize)
    ensures
        final(out)@ == old(out)@ + Seq::new(n as nat, |i: int| c),
{
    let ghost o = out@;
    let mut i: usize = 0;
    while i < n
        invariant
            i <= n,
            out@ == o + Seq::new(i as nat, |k: int| c),
        decreases n - i,
    {
        push_char(out, c);
        i = i + 1;
        assert(out@ =~= o + Seq::new(i as nat, |k: int| c));
    }
}

/// An owned copy of the characters `s`.
pub fn copy_chars(s: &[char]) -> (v: Vec<char>)
    ensures
        v@ == s@,
{
    let mut v: Vec<char> = Vec::new();
    let mut i: usize = 0;
    while i < s.len()
        invariant
            i <= s@.len(),
            v@ == s@.take(i as int),
        decreases s@.len() - i,
    {
        v.push(s[i]);
        i = i + 1;
        assert(v@ =~= s@.take(i as int));
    }
    assert(s@.take(s@.len() as int) =~= s@);
    v
}

/// `s` with each occurrence of the prefix `p` at its start removed, repeatedly.
pub open spec fn strip_all_prefix(s: Seq<char>, p: Seq<char>) -> Seq<char>
    decreases s.len(),
{
    if p.len() > 0 && has_prefix(s, p) {
        strip_all_prefix(s.skip(p.len() as int), p)
    } else {
        s
    }
}

/// `str::trim_start_matches` with a string pattern.
pub fn strip_all_prefix_of(s: &[char], p: &[char]) -> (r: Vec<char>)
    ensures
        r@ == strip_all_prefix(s@, p@),
{
    let mut cur: Vec<char> = copy_chars(s);
    if p.len() == 0 {
        return cur;
    }
    while starts_with(cur.as_slice(), p)
        invariant
            p@.len() > 0,
            strip_all_prefix(cur@, p@) == strip_all_prefix(s@, p@),
        decreases cur@.len(),
    {
        let mut next: Vec<char> = Vec::new();
        let mut k: usize = p.len();
        while k < cur.len()
            invariant
                p@.len() <= k <= cur@.len(),
                next@ == cur@.subrange(p@.len() as int, k as int),
            decreases cur@.len() - k,
        {
            next.push(cur[k]);
            k = k + 1;
            assert(next@ =~= cur@.subrange(p@.len() as int, k as int));
        }
        assert(next@ =~= cur@.skip(p@.len() as int));
        cur = next;
    }
    cur
}

/// `s` cut to at most `max` characters: unchanged when it fits, otherwise its
/// first `max - 1` characters followed by an ellipsis.
pub open spec fn truncate_spec(s: Seq<char>, max: nat) -> Seq<char> {
    if s.len() <= max {
        s
    } else {
        s.take(if max >= 1 { max - 1 } else { 0 }) + seq!['\u{2026}']
    }
}

/// `s` cut to at most `max` characters, with an ellipsis where it was cut.
pub fn truncate(s: &str, max: usize) -> (r: String)
    ensures
        r@ == truncate_spec(s@, max as nat),
{
    let v = chars_of(s);
    if v.len() <= max {
        return s.to_owned();
    }
    let keep: usize = if max >= 1 { max - 1 } else { 0 };
    let mut r = String::new();
    let mut i: usize = 0;
    while i < keep
        invariant
            i <= keep < v@.len(),
            r@ == v@.take(i as int),
        decreases keep - i,
    {
        push_char(&mut r, v[i]);
        i = i + 1;
        assert(r@ =~= v@.take(i as int));
    }
    push_char(&mut r, '\u{2026}');
    r
}

/// A cut never makes text longer than `max` characters, when `max` is at
/// least one; text that fits is kept whole.
pub proof fn lemma_truncate_fits(s: Seq<char>, max: nat)
    ensures
        max >= 1 ==> truncate_spec(s, max).len() <= max,
        s.len() <= max ==> truncate_spec(s, max) == s,
        truncate_spec(s, max).len() <= s.len(),
{
}

/// `s` cut to `w` characters and filled with spaces to exactly `w`.
pub open spec fn pad_spec(s: Seq<char>, w: nat) -> Seq<char> {
    let t = truncate_spec(s, w);
    t + Seq::new(if t.len() < w { (w - t.len()) as nat } else { 0 }, |i: int| ' ')
}

/// `s` cut to `w` characters and filled with spaces to exactly `w`.
pub fn pad(s: &str, w: usize) -> (r: String)
    ensures
        r@ == pad_spec(s@, w as nat),
{
    let mut t = truncate(s, w);
    let n = chars_of(t.as_str()).len();
    let fill: usize = if n < w { w - n } else { 0 };
    push_char_repeated(&mut t, ' ', fill);
    t
}

/// Padding makes text exactly `w` characters wide, when `w` is at least one.
pub proof fn lemma_pad_width(s: Seq<char>, w: nat)
    requires
        w >= 1,
    ensures
        pad_spec(s, w).len() == w,
{
}

/// Position of the first `c` in `s`, if any.
pub open spec fn find_char(s: Seq<char>, c: char) -> Option<nat>
    decreases s.len(),
{
    if s.len() == 0 {
        None
    } else if s[0] == c {
        Some(0)
    } else {
        match find_char(s.drop_first(), c) {
            Some(i) => Some(i + 1),
            None => None,
        }
    }
}

/// A line without its line break: the trailing `\r` of a `\r\n` ending is
/// dropped as well.
pub open spec fn strip_cr(line: Seq<char>) -> Seq<char> {
    if line.len() > 0 && line.last() == '\r' { line.drop_last() } else { line }
}

/// The lines of `s` as `str::lines` yields them: split at each `\n` (and
/// `\r\n`), with no empty last line after a final line break.
pub open spec fn lines_spec(s: Seq<char>) -> Seq<Seq<char>>
    decreases s.len(),
{
    if s.len() == 0 {
        Seq::empty()
    } else {
        match find_char(s, '\n') {
            Some(i) => {
                proof {
                    lemma_find_char_bound(s, '\n');
                }
                seq![strip_cr(s.take(i as int))] + lines_spec(s.skip(i as int + 1))
            },
            None => seq![s],
        }
    }
}

/// A found character is within the text and is that character.
pub proof fn lemma_find_char_bound(s: Seq<char>, c: char)
    ensures
        find_char(s, c) matches Some(i) ==> i < s.len() && s[i as int] == c,
    decreases s.len(),
{
    if s.len() > 0 && s[0] != c {
        lemma_find_char_bound(s.drop_first(), c);
    }
}

proof fn lemma_find_char(s: Seq<char>, c: char, i: int)
    requires
        0 <= i <= s.len(),
        forall|j: int| 0 <= j < i ==> s[j] != c,
        i < s.len() ==> s[i] == c,
    ensures
        i < s.len() ==> find_char(s, c) == Some(i as nat),
        i == s.len() ==> find_char(s, c) is None,
    decreases i,
{
    if i > 0 {
        assert forall|j: int| 0 <= j < i - 1 implies s.drop_first()[j] != c by {
            assert(s.drop_first()[j] == s[j + 1]);
        }
        if i < s.len() {
            assert(s.drop_first()[i - 1] == s[i]);
        }
        lemma_find_char(s.drop_first(), c, i - 1);
    } else if s.len() > 0 {
    }
}

/// The lines of `s`, as `str::lines` yields them.
pub fn split_lines(s: &str) -> (r: Vec<String>)
    ensures
        r@.map_values(|x: String| x@) == lines_spec(s@),
{
    let v = chars_of(s);
    let mut out: Vec<String> = Vec::new();
    let mut start: usize = 0;
    assert(v@.skip(0) =~= v@);
    assert(out@.map_values(|x: String| x@) + lines_spec(v@) =~= lines_spec(v@));
    while start < v.len()
        invariant
            start <= v@.len(),
            lines_spec(v@) == out@.map_values(|x: String| x@) + lines_spec(v@.skip(start as int)),
        decreases v@.len() - start,
    {
        let ghost rest = v@.skip(start as int);
        let mut j: usize = start;
        while j < v.len() && v[j] != '\n'
            invariant
                start <= j <= v@.len(),
                forall|k: int| start <= k < j ==> v@[k] != '\n',
            decreases v@.len() - j,
        {
            j = j + 1;
        }
        proof {
            assert forall|k: int| 0 <= k < j - start implies rest[k] != '\n' by {
                assert(rest[k] == v@[k + start]);
            }
            if j < v@.len() {
                assert(rest[j - start] == v@[j as int]);
            }
            lemma_find_char(rest, '\n', j - start);
        }
        let mut end: usize = j;
        if j < v.len() && j > start && v[j - 1] == '\r' {
            end = j - 1;
        }
        let mut line: Vec<char> = Vec::new();
        let mut k: usize = start;
        while k < end
            invariant
                start <= k <= end <= v@.len(),
                line@ == v@.subrange(start as int, k as int),
            decreases end - k,
        {
            line.push(v[k]);
            k = k + 1;
            assert(line@ =~= v@.subrange(start as int, k as int));
        }
        let ghost old_out = out@.map_values(|x: String| x@);
        out.push(string_of(line.as_slice()));
        if j < v.len() {
            assert(line@ =~= strip_cr(rest.take(j - start)));
            assert(rest.skip(j - start + 1) =~= v@.skip(j + 1));
            start = j + 1;
        } else {
            assert(line@ =~= rest);
            assert(v@.skip(j as int) =~= Seq::<char>::empty());
            start = j;
        }
        assert(out@.map_values(|x: String| x@) =~= old_out.push(line@));
    }
    assert(v@.skip(start as int) =~= Seq::<char>::empty());
    assert(out@.map_values(|x: String| x@) =~= out@.map_values(|x: String| x@) + Seq::<Seq<char>>::empty());
    out
}

/// The Unicode `White_Space` property, as listed in PropList.txt.
pub open spec fn white_space(c: char) -> bool {
    let u = c as u32;
    (0x09 <= u && u <= 0x0d) || u == 0x20 || u == 0x85 || u == 0xa0 || u == 0x1680
        || (0x2000 <= u && u <= 0x200a) || u == 0x2028 || u == 0x2029 || u == 0x202f
        || u == 0x205f || u == 0x3000
}

/// Whether `c` has the Unicode `White_Space` property (what
/// `char::is_whitespace` tells).
pub fn is_whitespace(c: char) -> (r: bool)
    ensures
        r == white_space(c),
{
    let u = c as u32;
    (0x09 <= u && u <= 0x0d) || u == 0x20 || u == 0x85 || u == 0xa0 || u == 0x1680
        || (0x2000 <= u && u <= 0x200a) || u == 0x2028 || u == 0x2029 || u == 0x202f
        || u == 0x205f || u == 0x3000
}

/// `String::push`: appends one character.
#[verifier::external_body]
pub(crate) fn push_char(s: &mut String, c: char)
    ensures
        final(s)@ == old(s)@.push(c),
{
    s.push(c)
}

/// `String::pop`: removes and returns the last character, if any.
#[verifier::external_body]
pub(crate) fn pop_char(s: &mut String) -> (c: Option<char>)
    ensures
        old(s)@.len() > 0 ==> c == Some(old(s)@.last()) && final(s)@ == old(s)@.drop_last(),
        old(s)@.len() == 0 ==> c is None && final(s)@ == old(s)@,
{
    s.pop()
}

/// A string holding exactly the given characters.
pub fn string_of(v: &[char]) -> (s: String)
    ensures
        s@ == v@,
{
    let mut s = String::new();
    let mut i: usize = 0;
    while i < v.len()
        invariant
            i <= v@.len(),
            s@ == v@.take(i as int),
        decreases v@.len() - i,
    {
        push_char(&mut s, v[i]);
        i = i + 1;
        assert(s@ =~= v@.take(i as int));
    }
    assert(v@.take(v@.len() as int) =~= v@);
    s
}

/// Appends all characters of `t` to `s`.
pub fn push_str(s: &mut String, t: &str)
    ensures
        final(s)@ == old(s)@ + t@,
{
    let v = chars_of(t);
    let ghost s0 = s@;
    let mut i: usize = 0;
    while i < v.len()
        invariant
            i <= v@.len(),
            v@ == t@,
            s@ == s0 + v@.take(i as int),
        decreases v@.len() - i,
    {
        push_char(s, v[i]);
        i = i + 1;
        assert(s@ =~= s0 + v@.take(i as int));
    }
    assert(v@.take(v@.len() as int) =~= v@);
}

/// `s` without its leading white space.
pub open spec fn trim_start(s: Seq<char>) -> Seq<char>
    decreases s.len(),
{
    if s.len() > 0 && white_space(s[0]) {
        trim_start(s.drop_first())
    } else {
        s
    }
}

/// `s` without its trailing white space.
pub open spec fn trim_end(s: Seq<char>) -> Seq<char>
    decreases s.len(),
{
    if s.len() > 0 && white_space(s.last()) {
        trim_end(s.drop_last())
    } else {
        s
    }
}

/// `s` without leading and trailing white space, as `str::trim` gives it.
pub open spec fn trim(s: Seq<char>) -> Seq<char> {
    trim_end(trim_start(s))
}

proof fn lemma_trim_start_skip(s: Seq<char>, i: int)
    requires
        0 <= i <= s.len(),
        forall|j: int| 0 <= j < i ==> white_space(#[trigger] s[j]),
    ensures
        trim_start(s) == trim_start(s.skip(i)),
    decreases i,
{
    if i > 0 {
        assert(s.skip(1) =~= s.drop_first());
        lemma_trim_start_skip(s.drop_first(), i - 1);
        assert(s.drop_first().skip(i - 1) =~= s.skip(i));
    } else {
        assert(s.skip(0) =~= s);
    }
}

proof fn lemma_trim_end_take(s: Seq<char>, k: int)
    requires
        0 <= k <= s.len(),
        forall|j: int| k <= j < s.len() ==> white_space(#[trigger] s[j]),
    ensures
        trim_end(s) == trim_end(s.take(k)),
    decreases s.len() - k,
{
    if k < s.len() {
        assert(s.take(s.len() - 1) =~= s.drop_last());
        lemma_trim_end_take(s.drop_last(), k);
        assert(s.drop_last().take(k) =~= s.take(k));
    } else {
        assert(s.take(k) =~= s);
    }
}

/// The characters of `v` with leading and trailing white space removed.
pub fn trimmed(v: &[char]) -> (r: Vec<char>)
    ensures
        r@ == trim(v@),
{
    let mut lo: usize = 0;
    while lo < v.len() && is_whitespace(v[lo])
        invariant
            lo <= v@.len(),
            forall|j: int| 0 <= j < lo ==> white_space(#[trigger] v@[j]),
        decreases v@.len() - lo,
    {
        lo = lo + 1;
    }
    proof {
        lemma_trim_start_skip(v@, lo as int);
    }
    let mut hi: usize = v.len();
    while hi > lo && is_whitespace(v[hi - 1])
        invariant
            lo <= hi <= v@.len(),
            forall|j: int| hi <= j < v@.len() ==> white_space(#[trigger] v@[j]),
        decreases hi,
    {
        hi = hi - 1;
    }
    let mut r: Vec<char> = Vec::new();
    let mut i: usize = lo;
    while i < hi
        invariant
            lo <= i <= hi <= v@.len(),
            r@ == v@.subrange(lo as int, i as int),
        decreases hi - i,
    {
        r.push(v[i]);
        i = i + 1;
        assert(r@ =~= v@.subrange(lo as int, i as int));
    }
    proof {
        let t = v@.skip(lo as int);
        assert(trim_start(t) == t);
        assert forall|j: int| hi - lo <= j < t.len() implies white_space(#[trigger] t[j]) by {
            assert(t[j] == v@[j + lo]);
        }
        lemma_trim_end_take(t, hi - lo);
        let u = t.take(hi - lo);
        assert(u =~= r@);
        if u.len() > 0 {
            assert(u.last() == v@[hi - 1]);
        }
    }
    r
}

/// Whether `d` is an ASCII decimal digit.
pub open spec fn is_digit(d: char) -> bool {
    48 <= (d as u32) && (d as u32) <= 57
}

/// The value of a run of decimal digits.
pub open spec fn digits_value(s: Seq<char>) -> nat
    decreases s.len(),
{
    if s.len() == 0 {
        0
    } else {
        digits_value(s.drop_last()) * 10 + ((s.last() as u32) - 48) as nat
    }
}

/// `s` without one leading `+`, if it has one.
pub open spec fn unsigned_part(s: Seq<char>) -> Seq<char> {
    if s.len() > 0 && s[0] == '+' { s.drop_first() } else { s }
}

/// Whether every character of `d` is a decimal digit.
pub open spec fn all_digits(d: Seq<char>) -> bool {
    forall|i: int| 0 <= i < d.len() ==> is_digit(#[trigger] d[i])
}

/// What `str::parse::<usize>` yields: an optional `+` followed by at least
/// one decimal digit and nothing else, whose value fits in `usize`.
pub open spec fn parse_usize_spec(s: Seq<char>) -> Option<usize> {
    let d = unsigned_part(s);
    if d.len() > 0 && all_digits(d) && digits_value(d) <= usize::MAX {
        Some(digits_value(d) as usize)
    } else {
        None
    }
}

proof fn lemma_digits_value_mono(s: Seq<char>, k: int)
    requires
        0 <= k <= s.len(),
        forall|i: int| 0 <= i < s.len() ==> is_digit(#[trigger] s[i]),
    ensures
        digits_value(s.take(k)) <= digits_value(s),
    decreases s.len() - k,
{
    if k < s.len() {
        assert(s.drop_last().take(k) =~= s.take(k));
        lemma_digits_value_mono(s.drop_last(), k);
    } else {
        assert(s.take(k) =~= s);
    }
}

/// `str::parse::<usize>` over a run of characters.
pub fn parse_usize(s: &[char]) -> (r: Option<usize>)
    ensures
        r == parse_usize_spec(s@),
{
    let start: usize = if s.len() > 0 && s[0] == '+' { 1 } else { 0 };
    let ghost d = unsigned_part(s@);
    assert(d =~= s@.skip(start as int));
    if start >= s.len() {
        return None;
    }
    let mut i: usize = start;
    while i < s.len()
        invariant
            start <= i <= s@.len(),
            d == s@.skip(start as int),
            d == unsigned_part(s@),
            forall|j: int| start <= j < i ==> is_digit(#[trigger] s@[j]),
        decreases s@.len() - i,
    {
        let c = s[i] as u32;
        if !(48 <= c && c <= 57) {
            assert(d[i - start] == s@[i as int]);
            assert(!is_digit(d[i - start]));
            return None;
        }
        i = i + 1;
    }
    assert forall|j: int| 0 <= j < d.len() implies is_digit(#[trigger] d[j]) by {
        assert(d[j] == s@[j + start]);
    }
    let mut v: usize = 0;
    let mut k: usize = start;
    while k < s.len()
        invariant
            start <= k <= s@.len(),
            d == s@.skip(start as int),
            d == unsigned_part(s@),
            forall|j: int| 0 <= j < d.len() ==> is_digit(#[trigger] d[j]),
            v == digits_value(d.take(k - start)),
        decreases s@.len() - k,
    {
        assert(d[k - start] == s@[k as int]);
        assert(is_digit(d[k - start]));
        let digit = (s[k] as u32 - 48) as usize;
        let ghost pre = d.take(k + 1 - start);
        assert(pre.drop_last() =~= d.take(k - start));
        assert(pre.last() == s@[k as int]);
        assert(digits_value(pre) == v * 10 + digit);
        proof {
            lemma_digits_value_mono(d, k + 1 - start);
        }
        if v > (usize::MAX - digit) / 10 {
            assert(digits_value(d.take(k + 1 - start)) > usize::MAX) by (nonlinear_arith)
                requires
                    digits_value(d.take(k + 1 - start)) == v * 10 + digit,
                    v > (usize::MAX - digit) / 10,
                    digit <= 9,
            ;
            return None;
        }
        v = v * 10 + digit;
        k = k + 1;
    }
    assert(d.take(s@.len() - start) =~= d);
    Some(v)
}


/// The decimal digit for `d` (below ten).
pub open spec fn digit_char(d: nat) -> char {
    if d == 0 { '0' } else if d == 1 { '1' } else if d == 2 { '2' } else if d == 3 { '3' }
    else if d == 4 { '4' } else if d == 5 { '5' } else if d == 6 { '6' } else if d == 7 { '7' }
    else if d == 8 { '8' } else { '9' }
}

/// `n` written in decimal, without leading zeros.
pub open spec fn decimal(n: nat) -> Seq<char>
    decreases n,
{
    if n < 10 { seq![digit_char(n)] } else { decimal(n / 10).push(digit_char(n % 10)) }
}

fn digit(d: u64) -> (c: char)
    requires
        d < 10,
    ensures
        c == digit_char(d as nat),
{
    if d == 0 { '0' } else if d == 1 { '1' } else if d == 2 { '2' } else if d == 3 { '3' }
    else if d == 4 { '4' } else if d == 5 { '5' } else if d == 6 { '6' } else if d == 7 { '7' }
    else if d == 8 { '8' } else { '9' }
}

/// Appends `n` in decimal.
pub fn push_decimal(out: &mut String, n: u64)
    ensures
        final(out)@ == old(out)@ + decimal(n as nat),
    decreases n,
{
    if n >= 10 {
        push_decimal(out, n / 10);
    }
    push_char(out, digit(n % 10));
    assert(out@ =~= old(out)@ + decimal(n as nat));
}


/// What `str::to_lowercase` yields for `s`: each character mapped through
/// Unicode's lowercase mapping (context-dependent for final sigma).
pub uninterp spec fn lowercase_text(s: Seq<char>) -> Seq<char>;

/// `str::to_lowercase`; the lowercase of the empty string is empty.
#[verifier::external_body]
pub(crate) fn lowercase(s: &str) -> (r: String)
    ensures
        r@ == lowercase_text(s@),
        s@.len() == 0 ==> r@.len() == 0,
{
    s.to_lowercase()
}

/// Whether `n` occurs in `h` as a contiguous run.
pub open spec fn contains_chars(h: Seq<char>, n: Seq<char>) -> bool {
    exists|i: int| 0 <= i && i + n.len() <= h.len() && #[trigger] h.subrange(i, i + n.len()) == n
}

/// Whether `n` occurs in `h` as a contiguous run.
pub fn contains_str(h: &str, n: &str) -> (r: bool)
    ensures
        r == contains_chars(h@, n@),
{
    let hv = chars_of(h);
    let nv = chars_of(n);
    if nv.len() > hv.len() {
        assert forall|i: int| 0 <= i && i + nv@.len() <= hv@.len() implies #[trigger] hv@.subrange(i, i + nv@.len()) != nv@ by {}
        return false;
    }
    let last = hv.len() - nv.len();
    let mut i: usize = 0;
    loop
        invariant
            i <= last,
            last == hv@.len() - nv@.len(),
            nv@.len() <= hv@.len(),
            hv@.len() <= usize::MAX,
            hv@ == h@,
            nv@ == n@,
            forall|k: int| 0 <= k < i ==> #[trigger] hv@.subrange(k, k + nv@.len()) != nv@,
        decreases last - i,
    {
        let mut j: usize = 0;
        while j < nv.len() && hv[i + j] == nv[j]
            invariant
                i <= last,
                last == hv@.len() - nv@.len(),
                nv@.len() <= hv@.len(),
                hv@.len() <= usize::MAX,
                j <= nv@.len(),
                forall|t: int| 0 <= t < j ==> hv@[i + t] == nv@[t],
            decreases nv@.len() - j,
        {
            j = j + 1;
        }
        if j == nv.len() {
            assert(hv@.subrange(i as int, i + nv@.len()) =~= nv@);
            return true;
        }
        assert(hv@.subrange(i as int, i + nv@.len())[j as int] != nv@[j as int]);
        if i == last {
            assert forall|k: int| 0 <= k && k + nv@.len() <= hv@.len() implies #[trigger] hv@.subrange(k, k + nv@.len()) != nv@ by {
                if k == i {
                } else {
                    assert(k < i);
                }
            }
            return false;
        }
        i = i + 1;
    }
}


/// Position of the last `c` in `s`, if any.
pub open spec fn find_last(s: Seq<char>, c: char) -> Option<nat>
    decreases s.len(),
{
    if s.len() == 0 {
        None
    } else if s.last() == c {
        Some((s.len() - 1) as nat)
    } else {
        find_last(s.drop_last(), c)
    }
}

pub(crate) proof fn lemma_find_last(s: Seq<char>, c: char, k: int)
    requires
        0 <= k <= s.len(),
        forall|i: int| k <= i < s.len() ==> s[i] != c,
        k > 0 ==> s[k - 1] == c,
    ensures
        find_last(s, c) == (if k > 0 { Some((k - 1) as nat) } else { None::<nat> }),
    decreases s.len(),
{
    if s.len() > 0 && k < s.len() {
        lemma_find_last(s.drop_last(), c, k);
    }
}

/// Position of the last `c` in `v`, if any.
pub fn last_index_of(v: &[char], c: char) -> (r: Option<usize>)
    ensures
        match r {
            Some(i) => find_last(v@, c) == Some(i as nat) && i < v@.len(),
            None => find_last(v@, c) is None,
        },
{
    let mut k: usize = v.len();
    while k > 0 && v[k - 1] != c
        invariant
            k <= v@.len(),
            forall|i: int| k <= i < v@.len() ==> v@[i] != c,
        decreases k,
    {
        k = k - 1;
    }
    proof {
        lemma_find_last(v@, c, k as int);
    }
    if k > 0 { Some(k - 1) } else { None }
}

} // verus!
