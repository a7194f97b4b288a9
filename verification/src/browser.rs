//! The directory browser's logic: what kind each entry is, how entries are
//! ordered and filtered, and the browser's state under keys. Reading the
//! file system, previews and drawing stand outside.
use vstd::prelude::*;
use crate::keys::Key;
use crate::markdown::Rgb;
use crate::text::{
    chars_of, decimal, lowercase, lowercase_text, pop_char, push_char, push_decimal, push_str, str_eq,
};

verus! {

/// What an entry is, for its colour, glyph and preview.
#[derive(Clone, Copy, PartialEq, Eq, Structural)]
pub enum Kind {
    Dir,
    Markdown,
    Sheet,
    Image,
    Pdf,
    Video,
    Doc,
    Code,
    Archive,
    Audio,
    Other,
}

/// The kind of a file by its lowercase extension.
pub open spec fn kind_for_ext(e: Seq<char>) -> Kind {
    if e == "md"@ || e == "markdown"@ || e == "mdx"@ {
        Kind::Markdown
    } else if e == "xlsx"@ || e == "xls"@ || e == "xlsm"@ || e == "xlsb"@ || e == "ods"@ || e == "csv"@ || e == "tsv"@ {
        Kind::Sheet
    } else if e == "png"@ || e == "jpg"@ || e == "jpeg"@ || e == "gif"@ || e == "webp"@ || e == "bmp"@ || e == "tiff"@ || e == "tif"@ || e == "ico"@ || e == "svg"@ {
        Kind::Image
    } else if e == "pdf"@ {
        Kind::Pdf
    } else if e == "mp4"@ || e == "mov"@ || e == "mkv"@ || e == "webm"@ || e == "avi"@ || e == "m4v"@ {
        Kind::Video
    } else if e == "mp3"@ || e == "wav"@ || e == "flac"@ || e == "ogg"@ || e == "m4a"@ || e == "aac"@ {
        Kind::Audio
    } else if e == "docx"@ || e == "doc"@ || e == "rtf"@ || e == "odt"@ || e == "pptx"@ || e == "ppt"@ {
        Kind::Doc
    } else if e == "zip"@ || e == "gz"@ || e == "tar"@ || e == "tgz"@ || e == "bz2"@ || e == "xz"@ || e == "7z"@ || e == "rar"@ || e == "zst"@ {
        Kind::Archive
    } else if e == "rs"@ || e == "py"@ || e == "js"@ || e == "ts"@ || e == "tsx"@ || e == "jsx"@ || e == "c"@ || e == "h"@ || e == "cc"@ || e == "cpp"@ || e == "hpp"@ || e == "go"@ || e == "java"@ || e == "rb"@ || e == "sh"@ || e == "bash"@ || e == "zsh"@ || e == "fish"@ || e == "toml"@ || e == "json"@ || e == "yaml"@ || e == "yml"@ || e == "html"@ || e == "htm"@ || e == "css"@ || e == "scss"@ || e == "lua"@ || e == "sql"@ || e == "php"@ || e == "swift"@ || e == "kt"@ || e == "ex"@ || e == "exs"@ || e == "ml"@ || e == "hs"@ || e == "clj"@ || e == "vim"@ || e == "ini"@ || e == "cfg"@ || e == "conf"@ || e == "xml"@ {
        Kind::Code
    } else {
        Kind::Other
    }
}

/// The kind of a file by its lowercase extension.
pub fn kind_of_ext(e: &str) -> (k: Kind)
    ensures
        k == kind_for_ext(e@),
{
    if str_eq(e, "md") || str_eq(e, "markdown") || str_eq(e, "mdx") {
        Kind::Markdown
    } else if str_eq(e, "xlsx") || str_eq(e, "xls") || str_eq(e, "xlsm") || str_eq(e, "xlsb") || str_eq(e, "ods") || str_eq(e, "csv") || str_eq(e, "tsv") {
        Kind::Sheet
    } else if str_eq(e, "png") || str_eq(e, "jpg") || str_eq(e, "jpeg") || str_eq(e, "gif") || str_eq(e, "webp") || str_eq(e, "bmp") || str_eq(e, "tiff") || str_eq(e, "tif") || str_eq(e, "ico") || str_eq(e, "svg") {
        Kind::Image
    } else if str_eq(e, "pdf") {
        Kind::Pdf
    } else if str_eq(e, "mp4") || str_eq(e, "mov") || str_eq(e, "mkv") || str_eq(e, "webm") || str_eq(e, "avi") || str_eq(e, "m4v") {
        Kind::Video
    } else if str_eq(e, "mp3") || str_eq(e, "wav") || str_eq(e, "flac") || str_eq(e, "ogg") || str_eq(e, "m4a") || str_eq(e, "aac") {
        Kind::Audio
    } else if str_eq(e, "docx") || str_eq(e, "doc") || str_eq(e, "rtf") || str_eq(e, "odt") || str_eq(e, "pptx") || str_eq(e, "ppt") {
        Kind::Doc
    } else if str_eq(e, "zip") || str_eq(e, "gz") || str_eq(e, "tar") || str_eq(e, "tgz") || str_eq(e, "bz2") || str_eq(e, "xz") || str_eq(e, "7z") || str_eq(e, "rar") || str_eq(e, "zst") {
        Kind::Archive
    } else if str_eq(e, "rs") || str_eq(e, "py") || str_eq(e, "js") || str_eq(e, "ts") || str_eq(e, "tsx") || str_eq(e, "jsx") || str_eq(e, "c") || str_eq(e, "h") || str_eq(e, "cc") || str_eq(e, "cpp") || str_eq(e, "hpp") || str_eq(e, "go") || str_eq(e, "java") || str_eq(e, "rb") || str_eq(e, "sh") || str_eq(e, "bash") || str_eq(e, "zsh") || str_eq(e, "fish") || str_eq(e, "toml") || str_eq(e, "json") || str_eq(e, "yaml") || str_eq(e, "yml") || str_eq(e, "html") || str_eq(e, "htm") || str_eq(e, "css") || str_eq(e, "scss") || str_eq(e, "lua") || str_eq(e, "sql") || str_eq(e, "php") || str_eq(e, "swift") || str_eq(e, "kt") || str_eq(e, "ex") || str_eq(e, "exs") || str_eq(e, "ml") || str_eq(e, "hs") || str_eq(e, "clj") || str_eq(e, "vim") || str_eq(e, "ini") || str_eq(e, "cfg") || str_eq(e, "conf") || str_eq(e, "xml") {
        Kind::Code
    } else {
        Kind::Other
    }
}

/// The extension of a file name, as `Path::extension` finds it: the text
/// after the last dot, unless there is no dot, the dot starts the name, or
/// the name is `..`.
pub open spec fn ext_of(name: Seq<char>) -> Option<Seq<char>> {
    if name == ".."@ {
        None
    } else {
        match crate::text::find_last(name, '.') {
            None => None,
            Some(i) => if i == 0 { None } else { Some(name.skip(i as int + 1)) },
        }
    }
}

/// The kind of a file (not a directory) by the extension of its name,
/// ignoring case.
pub open spec fn classify_spec(name: Seq<char>) -> Kind {
    match ext_of(name) {
        None => Kind::Other,
        Some(e) => kind_for_ext(lowercase_text(e)),
    }
}


/// The kind of a file (not a directory) by the extension of its name,
/// ignoring case.
pub fn classify_name(name: &str) -> (k: Kind)
    ensures
        k == classify_spec(name@),
{
    if str_eq(name, "..") {
        return Kind::Other;
    }
    let v = chars_of(name);
    assert(v@ == name@);
    match crate::text::last_index_of(v.as_slice(), '.') {
        None => Kind::Other,
        Some(i) => {
            if i == 0 {
                return Kind::Other;
            }
            let n = v.len();
            assert(i < n);
            let mut e: Vec<char> = Vec::new();
            let mut j: usize = i + 1;
            while j < v.len()
                invariant
                    i < j <= v@.len(),
                    e@ == v@.subrange(i + 1, j as int),
                decreases v@.len() - j,
            {
                e.push(v[j]);
                j = j + 1;
                assert(e@ =~= v@.subrange(i + 1, j as int));
            }
            assert(e@ =~= name@.skip(i + 1));
            let es = crate::text::string_of(e.as_slice());
            let low = lowercase(es.as_str());
            kind_of_ext(low.as_str())
        },
    }
}

/// Colour of each kind.
pub open spec fn kind_color(k: Kind) -> Rgb {
    match k {
        Kind::Dir => Rgb { r: 96, g: 165, b: 250 },
        Kind::Image => Rgb { r: 196, g: 160, b: 250 },
        Kind::Video | Kind::Audio => Rgb { r: 244, g: 114, b: 182 },
        Kind::Pdf => Rgb { r: 248, g: 113, b: 113 },
        Kind::Sheet => Rgb { r: 74, g: 222, b: 128 },
        Kind::Markdown | Kind::Doc => Rgb { r: 252, g: 211, b: 77 },
        Kind::Code => Rgb { r: 134, g: 239, b: 172 },
        Kind::Archive => Rgb { r: 251, g: 146, b: 60 },
        Kind::Other => Rgb { r: 205, g: 205, b: 215 },
    }
}

/// Name of each kind, for the preview caption.
pub open spec fn kind_label(k: Kind) -> Seq<char> {
    match k {
        Kind::Dir => "Directory"@,
        Kind::Markdown => "Markdown"@,
        Kind::Sheet => "Spreadsheet"@,
        Kind::Image => "Image"@,
        Kind::Pdf => "PDF"@,
        Kind::Video => "Video"@,
        Kind::Doc => "Document"@,
        Kind::Code => "Source"@,
        Kind::Archive => "Archive"@,
        Kind::Audio => "Audio"@,
        Kind::Other => "File"@,
    }
}

/// One-column glyph of each kind.
pub open spec fn kind_glyph(k: Kind) -> Seq<char> {
    match k {
        Kind::Dir => "\u{25b8}"@,
        Kind::Image => "\u{25a6}"@,
        Kind::Video => "\u{25b6}"@,
        Kind::Audio => "\u{266a}"@,
        Kind::Pdf => "\u{25a4}"@,
        Kind::Sheet => "\u{25a4}"@,
        Kind::Markdown | Kind::Doc => "\u{25a2}"@,
        Kind::Code => "\u{25c7}"@,
        Kind::Archive => "\u{25a3}"@,
        Kind::Other => "\u{b7}"@,
    }
}

impl Kind {
    pub fn color(self) -> (c: Rgb)
        ensures
            c == kind_color(self),
    {
        match self {
            Kind::Dir => Rgb { r: 96, g: 165, b: 250 },
            Kind::Image => Rgb { r: 196, g: 160, b: 250 },
            Kind::Video | Kind::Audio => Rgb { r: 244, g: 114, b: 182 },
            Kind::Pdf => Rgb { r: 248, g: 113, b: 113 },
            Kind::Sheet => Rgb { r: 74, g: 222, b: 128 },
            Kind::Markdown | Kind::Doc => Rgb { r: 252, g: 211, b: 77 },
            Kind::Code => Rgb { r: 134, g: 239, b: 172 },
            Kind::Archive => Rgb { r: 251, g: 146, b: 60 },
            Kind::Other => Rgb { r: 205, g: 205, b: 215 },
        }
    }

    pub fn label(self) -> (s: &'static str)
        ensures
            s@ == kind_label(self),
    {
        match self {
            Kind::Dir => "Directory",
            Kind::Markdown => "Markdown",
            Kind::Sheet => "Spreadsheet",
            Kind::Image => "Image",
            Kind::Pdf => "PDF",
            Kind::Video => "Video",
            Kind::Doc => "Document",
            Kind::Code => "Source",
            Kind::Archive => "Archive",
            Kind::Audio => "Audio",
            Kind::Other => "File",
        }
    }

    pub fn glyph(self) -> (s: &'static str)
        ensures
            s@ == kind_glyph(self),
    {
        match self {
            Kind::Dir => "\u{25b8}",
            Kind::Image => "\u{25a6}",
            Kind::Video => "\u{25b6}",
            Kind::Audio => "\u{266a}",
            Kind::Pdf => "\u{25a4}",
            Kind::Sheet => "\u{25a4}",
            Kind::Markdown | Kind::Doc => "\u{25a2}",
            Kind::Code => "\u{25c7}",
            Kind::Archive => "\u{25a3}",
            Kind::Other => "\u{b7}",
        }
    }
}

/// Whether `n` can be found in `h` in order, not necessarily contiguous,
/// each character matched at its first chance.
pub open spec fn is_subseq(n: Seq<char>, h: Seq<char>) -> bool
    decreases h.len(),
{
    if n.len() == 0 {
        true
    } else if h.len() == 0 {
        false
    } else if n[0] == h[0] {
        is_subseq(n.drop_first(), h.drop_first())
    } else {
        is_subseq(n, h.drop_first())
    }
}

/// Whether `needle` is a subsequence of `haystack` (a cheap fuzzy match).
pub fn subsequence(needle: &str, haystack: &str) -> (r: bool)
    ensures
        r == is_subseq(needle@, haystack@),
{
    let n = chars_of(needle);
    let h = chars_of(haystack);
    let mut i: usize = 0;
    let mut j: usize = 0;
    assert(n@.skip(0) =~= n@);
    assert(h@.skip(0) =~= h@);
    while i < n.len() && j < h.len()
        invariant
            i <= n@.len(),
            j <= h@.len(),
            is_subseq(n@, h@) == is_subseq(n@.skip(i as int), h@.skip(j as int)),
        decreases h@.len() - j,
    {
        let ghost ns = n@.skip(i as int);
        let ghost hs = h@.skip(j as int);
        assert(ns.drop_first() =~= n@.skip(i + 1));
        assert(hs.drop_first() =~= h@.skip(j + 1));
        if n[i] == h[j] {
            i = i + 1;
        }
        j = j + 1;
    }
    proof {
        if i >= n@.len() {
            assert(n@.skip(i as int).len() == 0);
        } else {
            assert(h@.skip(j as int).len() == 0);
        }
    }
    i >= n.len()
}

/// Age of a file in words: just now, minutes, hours, days, months (of thirty
/// days, 2592000 seconds) or years (of 365 days, 31536000 seconds).
pub open spec fn rel_time_spec(s: u64) -> Seq<char> {
    if s < 60 {
        "just now"@
    } else if s < 3600 {
        decimal((s / 60) as nat) + "m ago"@
    } else if s < 86400 {
        decimal((s / 3600) as nat) + "h ago"@
    } else if s < 2592000 {
        decimal((s / 86400) as nat) + "d ago"@
    } else if s < 31536000 {
        decimal((s / 2592000u64) as nat) + "mo ago"@
    } else {
        decimal((s / 31536000u64) as nat) + "y ago"@
    }
}

/// Age of a file modified `secs` seconds ago, in words.
pub fn rel_time(secs: u64) -> (r: String)
    ensures
        r@ == rel_time_spec(secs),
{
    let mut r = String::new();
    if secs < 60 {
        push_str(&mut r, "just now");
    } else if secs < 3600 {
        push_decimal(&mut r, secs / 60);
        push_str(&mut r, "m ago");
    } else if secs < 86400 {
        push_decimal(&mut r, secs / 3600);
        push_str(&mut r, "h ago");
    } else if secs < 2592000 {
        push_decimal(&mut r, secs / 86400);
        push_str(&mut r, "d ago");
    } else if secs < 31536000 {
        push_decimal(&mut r, secs / 2592000);
        push_str(&mut r, "mo ago");
    } else {
        push_decimal(&mut r, secs / 31536000);
        push_str(&mut r, "y ago");
    }
    assert(r@ =~= rel_time_spec(secs));
    r
}

/// A path shown relative to the home directory, as `~` and the rest, when it
/// lies under it.
pub open spec fn pretty_path_spec(path: Seq<char>, home: Option<Seq<char>>) -> Seq<char> {
    match home {
        Some(h) => if crate::text::has_prefix(path, h) { seq!['~'] + path.skip(h.len() as int) } else { path },
        None => path,
    }
}

/// A path shown relative to the home directory.
pub fn pretty_path(path: &str, home: Option<&str>) -> (r: String)
    ensures
        r@ == pretty_path_spec(path@, match home {
            Some(h) => Some(h@),
            None => None,
        }),
{
    match home {
        Some(h) => {
            let pv = chars_of(path);
            let hv = chars_of(h);
            if crate::text::starts_with(pv.as_slice(), hv.as_slice()) {
                let mut r = String::new();
                push_char(&mut r, '~');
                let mut k: usize = hv.len();
                while k < pv.len()
                    invariant
                        hv@.len() <= k <= pv@.len(),
                        r@ == seq!['~'] + pv@.subrange(hv@.len() as int, k as int),
                    decreases pv@.len() - k,
                {
                    push_char(&mut r, pv[k]);
                    k = k + 1;
                    assert(r@ =~= seq!['~'] + pv@.subrange(hv@.len() as int, k as int));
                }
                assert(pv@.subrange(hv@.len() as int, pv@.len() as int) =~= pv@.skip(hv@.len() as int));
                r
            } else {
                path.to_owned()
            }
        },
        None => path.to_owned(),
    }
}

/// Columns for markdown previews: 58% of the terminal less two, at least
/// twenty.
pub fn preview_text_width(cols: u16) -> (w: usize)
    ensures
        w as int == (if (cols * 58 / 100) as int - 2 > 20 { (cols * 58 / 100) as int - 2 } else { 20 }),
{
    let c = cols as usize * 58 / 100;
    let w: usize = if c > 2 { c - 2 } else { 0 };
    if w > 20 { w } else { 20 }
}


// -------------------------------------------------------------- ordering ----

/// Order of character runs by code point, as strings compare (UTF-8 bytes
/// compare as their code points do).
pub open spec fn chars_le(a: Seq<char>, b: Seq<char>) -> bool
    decreases a.len(),
{
    if a.len() == 0 {
        true
    } else if b.len() == 0 {
        false
    } else if (a[0] as u32) < (b[0] as u32) {
        true
    } else if (a[0] as u32) > (b[0] as u32) {
        false
    } else {
        chars_le(a.drop_first(), b.drop_first())
    }
}

/// `x` comes strictly before `y`: folders first, then by key.
pub open spec fn key_lt<A>(x: (bool, Seq<char>, A), y: (bool, Seq<char>, A)) -> bool {
    (x.0 && !y.0) || (x.0 == y.0 && !chars_le(y.1, x.1))
}

/// Where `x` goes in `s`: before the first item it comes strictly before.
pub open spec fn insert_pos<A>(s: Seq<(bool, Seq<char>, A)>, x: (bool, Seq<char>, A)) -> nat
    decreases s.len(),
{
    if s.len() == 0 {
        0
    } else if key_lt(x, s[0]) {
        0
    } else {
        insert_pos(s.drop_first(), x) + 1
    }
}

/// Items sorted, folders first and then by key, equal ones kept in their
/// order (a stable sort by insertion).
pub open spec fn sort_spec<A>(s: Seq<(bool, Seq<char>, A)>) -> Seq<(bool, Seq<char>, A)>
    decreases s.len(),
{
    if s.len() == 0 {
        s
    } else {
        let r = sort_spec(s.drop_last());
        r.insert(insert_pos(r, s.last()) as int, s.last())
    }
}

/// Items with their keys as text.
pub open spec fn keyed_view<A>(v: Seq<(bool, Vec<char>, A)>) -> Seq<(bool, Seq<char>, A)> {
    v.map_values(|x: (bool, Vec<char>, A)| (x.0, x.1@, x.2))
}

fn chars_le_exec(a: &Vec<char>, b: &Vec<char>) -> (r: bool)
    ensures
        r == chars_le(a@, b@),
{
    let mut i: usize = 0;
    assert(a@.skip(0) =~= a@);
    assert(b@.skip(0) =~= b@);
    while i < a.len() && i < b.len() && (a[i] as u32) == (b[i] as u32)
        invariant
            i <= a@.len(),
            i <= b@.len(),
            chars_le(a@, b@) == chars_le(a@.skip(i as int), b@.skip(i as int)),
        decreases a@.len() - i,
    {
        assert(a@.skip(i as int).drop_first() =~= a@.skip(i + 1));
        assert(b@.skip(i as int).drop_first() =~= b@.skip(i + 1));
        i = i + 1;
    }
    if i == a.len() {
        return true;
    }
    if i == b.len() {
        return false;
    }
    assert(a@.skip(i as int)[0] == a@[i as int]);
    assert(b@.skip(i as int)[0] == b@[i as int]);
    (a[i] as u32) < (b[i] as u32)
}

fn key_lt_exec<A>(x: &(bool, Vec<char>, A), y: &(bool, Vec<char>, A)) -> (r: bool)
    ensures
        r == key_lt((x.0, x.1@, x.2), (y.0, y.1@, y.2)),
{
    (x.0 && !y.0) || (x.0 == y.0 && !chars_le_exec(&y.1, &x.1))
}

proof fn lemma_insert_pos<A>(s: Seq<(bool, Seq<char>, A)>, x: (bool, Seq<char>, A), k: int)
    requires
        0 <= k <= s.len(),
        forall|i: int| 0 <= i < k ==> !key_lt(x, #[trigger] s[i]),
        k < s.len() ==> key_lt(x, s[k]),
    ensures
        insert_pos(s, x) == k,
    decreases k,
{
    if s.len() > 0 && k > 0 {
        assert forall|i: int| 0 <= i < k - 1 implies !key_lt(x, #[trigger] s.drop_first()[i]) by {
            assert(s.drop_first()[i] == s[i + 1]);
        }
        lemma_insert_pos(s.drop_first(), x, k - 1);
    }
}

/// Sorts items folders first, then by key, keeping equal items in order.
pub fn sort_keyed<A>(v: Vec<(bool, Vec<char>, A)>) -> (r: Vec<(bool, Vec<char>, A)>)
    ensures
        keyed_view(r@) == sort_spec(keyed_view(v@)),
{
    let ghost kv = keyed_view(v@);
    let mut v = v;
    let mut r: Vec<(bool, Vec<char>, A)> = Vec::new();
    let ghost mut done: int = 0;
    assert(kv.take(0) =~= Seq::<(bool, Seq<char>, A)>::empty());
    assert(keyed_view(v@) =~= kv.skip(0));
    while v.len() > 0
        invariant
            0 <= done <= kv.len(),
            keyed_view(v@) == kv.skip(done),
            keyed_view(r@) == sort_spec(kv.take(done)),
        decreases v@.len(),
    {
        let ghost v0 = v@;
        assert(keyed_view(v0).len() == v0.len());
        assert(kv.skip(done).len() == kv.len() - done);
        assert(done < kv.len());
        let x = v.remove(0);
        assert(keyed_view(v0)[0] == (x.0, x.1@, x.2));
        assert(kv.skip(done)[0] == kv[done]);
        assert(kv[done] == (x.0, x.1@, x.2));
        let ghost rk = keyed_view(r@);
        let mut p: usize = 0;
        while p < r.len() && !key_lt_exec(&x, &r[p])
            invariant
                p <= r@.len(),
                rk == keyed_view(r@),
                forall|i: int| 0 <= i < p ==> !key_lt((x.0, x.1@, x.2), #[trigger] rk[i]),
            decreases r@.len() - p,
        {
            p = p + 1;
        }
        proof {
            lemma_insert_pos(rk, (x.0, x.1@, x.2), p as int);
        }
        let ghost xv = (x.0, x.1@, x.2);
        r.insert(p, x);
        assert(keyed_view(r@) =~= rk.insert(p as int, xv));
        proof {
            assert(kv.take(done + 1).drop_last() =~= kv.take(done));
            assert(kv.take(done + 1).last() == xv);
            done = done + 1;
            assert(keyed_view(v@) =~= keyed_view(v0).skip(1));
            assert(keyed_view(v@) =~= kv.skip(done));
        }
    }
    assert(kv.take(kv.len() as int) =~= kv);
    r
}


// --------------------------------------------------------------- browser ----

/// An entry of a directory: its name, kind, size in bytes, and the caller's
/// identifier for it (where its path and times are kept).
pub struct Entry {
    pub name: String,
    pub kind: Kind,
    pub size: u64,
    pub id: usize,
}

/// The sort key of an entry: folders first, then by lowercase name.
pub open spec fn entry_key(e: Entry) -> (bool, Seq<char>, Entry) {
    (e.kind == Kind::Dir, lowercase_text(e.name@), e)
}

/// Entries in browsing order: folders first, then by lowercase name, equal
/// names in their given order.
pub open spec fn entries_sorted(es: Seq<Entry>) -> Seq<Entry> {
    sort_spec(es.map_values(|e: Entry| entry_key(e))).map_values(|x: (bool, Seq<char>, Entry)| x.2)
}

/// Sorts entries into browsing order.
pub fn sort_entries(v: Vec<Entry>) -> (r: Vec<Entry>)
    ensures
        r@ == entries_sorted(v@),
{
    let ghost v0 = v@;
    let mut v = v;
    let mut keyed: Vec<(bool, Vec<char>, Entry)> = Vec::new();
    let ghost mut k: int = 0;
    assert(v@ =~= v0.skip(0));
    while v.len() > 0
        invariant
            0 <= k <= v0.len(),
            v@ == v0.skip(k),
            keyed_view(keyed@) == v0.take(k).map_values(|e: Entry| entry_key(e)),
        decreases v@.len(),
    {
        assert(v0.skip(k).len() == v0.len() - k);
        let e = v.remove(0);
        assert(v0.skip(k)[0] == v0[k]);
        let low = lowercase(e.name.as_str());
        let key = chars_of(low.as_str());
        let ghost kk = keyed@;
        let item = (e.kind == Kind::Dir, key, e);
        keyed.push(item);
        proof {
            assert(keyed_view(keyed@) =~= keyed_view(kk).push((item.0, item.1@, item.2)));
            assert(v0.take(k + 1) =~= v0.take(k).push(e));
            assert(v0.take(k + 1).map_values(|e: Entry| entry_key(e)) =~= v0.take(k).map_values(|e: Entry| entry_key(e)).push(entry_key(e)));
            k = k + 1;
            assert(v@ =~= v0.skip(k));
        }
    }
    assert(v0.take(v0.len() as int) =~= v0);
    let mut sorted = sort_keyed(keyed);
    let ghost sk = keyed_view(sorted@);
    let mut r: Vec<Entry> = Vec::new();
    let ghost mut j: int = 0;
    assert(keyed_view(sorted@) =~= sk.skip(0));
    while sorted.len() > 0
        invariant
            0 <= j <= sk.len(),
            keyed_view(sorted@) == sk.skip(j),
            r@ == sk.take(j).map_values(|x: (bool, Seq<char>, Entry)| x.2),
        decreases sorted@.len(),
    {
        let ghost s0 = sorted@;
        assert(keyed_view(s0).len() == s0.len());
        assert(sk.skip(j).len() == sk.len() - j);
        let x = sorted.remove(0);
        assert(keyed_view(s0)[0] == sk[j]);
        r.push(x.2);
        proof {
            assert(sk.take(j + 1) =~= sk.take(j).push(sk[j]));
            assert(r@ =~= sk.take(j + 1).map_values(|x: (bool, Seq<char>, Entry)| x.2));
            j = j + 1;
            assert(keyed_view(sorted@) =~= keyed_view(s0).skip(1));
        }
    }
    assert(sk.take(sk.len() as int) =~= sk);
    r
}

/// How keys are read.
#[derive(Clone, Copy, PartialEq, Eq, Structural)]
pub enum BrowseMode {
    Browse,
    /// Typing a filter.
    Filter,
}

/// What the caller does after a key.
#[derive(Clone, Copy, PartialEq, Eq, Structural)]
pub enum BrowseAction {
    Stay,
    Quit,
    /// Open the file of this entry identifier in its viewer.
    Open(usize),
    /// Read the folder of this entry identifier and `enter` it.
    Enter(usize),
    /// Read the parent folder, `enter` it, and `land_on` the folder left.
    Parent,
}

/// The browser's state, as values.
#[verifier::ext_equal]
pub struct BrowserModel {
    pub all: Seq<Entry>,
    pub view: Seq<usize>,
    pub sel: Option<usize>,
    pub filter: Seq<char>,
    pub mode: BrowseMode,
    pub show_hidden: bool,
    pub viewport_h: u16,
    pub stale: bool,
}

/// Every listed index names an entry.
pub open spec fn browser_wf(m: BrowserModel) -> bool {
    forall|i: int| 0 <= i < m.view.len() ==> #[trigger] m.view[i] < m.all.len()
}

/// An entry is listed: dotfiles only when shown, and its lowercase name holds
/// the lowercase filter `q` as a subsequence.
pub open spec fn listed(e: Entry, q: Seq<char>, show_hidden: bool) -> bool {
    (show_hidden || !crate::text::has_prefix(e.name@, seq!['.']))
        && (q.len() == 0 || is_subseq(q, lowercase_text(e.name@)))
}

/// The listed entries among the first `k`, by index.
pub open spec fn listed_upto(all: Seq<Entry>, q: Seq<char>, show_hidden: bool, k: nat) -> Seq<usize>
    decreases k,
{
    if k == 0 {
        Seq::empty()
    } else {
        let prev = listed_upto(all, q, show_hidden, (k - 1) as nat);
        if listed(all[k - 1], q, show_hidden) { prev.push((k - 1) as usize) } else { prev }
    }
}

/// The listing made anew; the selection kept, pulled back within it.
pub open spec fn refilter_spec(m: BrowserModel) -> BrowserModel {
    let v = listed_upto(m.all, lowercase_text(m.filter), m.show_hidden, m.all.len());
    let cur: usize = match m.sel {
        Some(i) => i,
        None => 0,
    };
    let sel = if v.len() == 0 { None } else { Some(if cur < v.len() - 1 { cur } else { (v.len() - 1) as usize }) };
    BrowserModel { view: v, sel, stale: true, ..m }
}

/// The selection moved by `delta`, within the listing.
pub open spec fn move_sel_spec(m: BrowserModel, delta: int) -> BrowserModel {
    if m.view.len() == 0 {
        m
    } else {
        let cur: int = match m.sel {
            Some(i) => i as int,
            None => 0,
        };
        let t = cur + delta;
        let n = m.view.len() - 1;
        let nx: int = if t < 0 { 0 } else if t > n { n } else { t };
        BrowserModel { sel: Some(nx as usize), ..m }
    }
}

/// The selected entry, if any.
pub open spec fn selected_spec(m: BrowserModel) -> Option<Entry> {
    match m.sel {
        Some(i) => if i < m.view.len() && m.view[i as int] < m.all.len() { Some(m.all[m.view[i as int] as int]) } else { None },
        None => None,
    }
}

/// Half a page of the listing, at least one entry.
pub open spec fn half_list(m: BrowserModel) -> int {
    let h = m.viewport_h / 2;
    if h > 1 { h as int } else { 1 }
}

/// A key, by mode.
pub open spec fn browse_key_spec(m: BrowserModel, k: Key) -> (BrowserModel, BrowseAction) {
    match m.mode {
        BrowseMode::Filter => {
            let r = match k {
                Key::Esc => refilter_spec(BrowserModel { filter: Seq::empty(), mode: BrowseMode::Browse, ..m }),
                Key::Enter => BrowserModel { mode: BrowseMode::Browse, ..m },
                Key::Backspace => refilter_spec(BrowserModel {
                    filter: if m.filter.len() > 0 { m.filter.drop_last() } else { m.filter },
                    ..m
                }),
                Key::Down => move_sel_spec(m, 1),
                Key::Up => move_sel_spec(m, -1),
                Key::Char(c) => refilter_spec(BrowserModel { filter: m.filter.push(c), ..m }),
                _ => m,
            };
            (r, BrowseAction::Stay)
        },
        BrowseMode::Browse => {
            if k == Key::Char('q') || k == Key::Esc {
                (m, BrowseAction::Quit)
            } else if k == Key::Char('j') || k == Key::Down {
                (move_sel_spec(m, 1), BrowseAction::Stay)
            } else if k == Key::Char('k') || k == Key::Up {
                (move_sel_spec(m, -1), BrowseAction::Stay)
            } else if k == Key::Char('d') || k == Key::PageDown {
                (move_sel_spec(m, half_list(m)), BrowseAction::Stay)
            } else if k == Key::Char('u') || k == Key::PageUp {
                (move_sel_spec(m, -half_list(m)), BrowseAction::Stay)
            } else if k == Key::Char('g') || k == Key::Home {
                (BrowserModel { sel: Some(0usize), ..m }, BrowseAction::Stay)
            } else if k == Key::Char('G') || k == Key::End {
                if m.view.len() > 0 {
                    (BrowserModel { sel: Some((m.view.len() - 1) as usize), ..m }, BrowseAction::Stay)
                } else {
                    (m, BrowseAction::Stay)
                }
            } else if k == Key::Enter || k == Key::Char('l') || k == Key::Right {
                match selected_spec(m) {
                    Some(e) => (m, if e.kind == Kind::Dir { BrowseAction::Enter(e.id) } else { BrowseAction::Open(e.id) }),
                    None => (m, BrowseAction::Stay),
                }
            } else if k == Key::Char('h') || k == Key::Left || k == Key::Backspace {
                (m, BrowseAction::Parent)
            } else if k == Key::Char('/') {
                (refilter_spec(BrowserModel { mode: BrowseMode::Filter, filter: Seq::empty(), ..m }), BrowseAction::Stay)
            } else if k == Key::Char('.') {
                (refilter_spec(BrowserModel { show_hidden: !m.show_hidden, ..m }), BrowseAction::Stay)
            } else {
                (m, BrowseAction::Stay)
            }
        },
    }
}

/// A folder entered: its entries in browsing order, the filter cleared,
/// browsing, the first entry selected.
pub open spec fn enter_spec(m: BrowserModel, es: Seq<Entry>) -> BrowserModel {
    refilter_spec(BrowserModel {
        all: entries_sorted(es),
        filter: Seq::empty(),
        mode: BrowseMode::Browse,
        sel: Some(0usize),
        ..m
    })
}

/// Position in the listing of the first entry named `name`.
pub open spec fn listed_pos(m: BrowserModel, name: Seq<char>) -> Option<nat>
    decreases m.view.len(),
{
    if m.view.len() == 0 {
        None
    } else if m.view[0] < m.all.len() && m.all[m.view[0] as int].name@ == name {
        Some(0)
    } else {
        match listed_pos(BrowserModel { view: m.view.drop_first(), ..m }, name) {
            Some(p) => Some(p + 1),
            None => None,
        }
    }
}

/// The state of the directory browser.
pub struct Browser {
    all: Vec<Entry>,
    view: Vec<usize>,
    sel: Option<usize>,
    filter: String,
    mode: BrowseMode,
    show_hidden: bool,
    viewport_h: u16,
    stale: bool,
}

impl View for Browser {
    type V = BrowserModel;

    closed spec fn view(&self) -> BrowserModel {
        BrowserModel {
            all: self.all@,
            view: self.view@,
            sel: self.sel,
            filter: self.filter@,
            mode: self.mode,
            show_hidden: self.show_hidden,
            viewport_h: self.viewport_h,
            stale: self.stale,
        }
    }
}

fn listing(all: &Vec<Entry>, filter: &str, show_hidden: bool) -> (v: Vec<usize>)
    ensures
        v@ == listed_upto(all@, lowercase_text(filter@), show_hidden, all@.len()),
        forall|i: int| 0 <= i < v@.len() ==> #[trigger] v@[i] < all@.len(),
{
    let q = lowercase(filter);
    let qempty = q.as_str().is_empty();
    let mut v: Vec<usize> = Vec::new();
    let mut i: usize = 0;
    while i < all.len()
        invariant
            i <= all@.len(),
            q@ == lowercase_text(filter@),
            qempty == (q@.len() == 0),
            v@ == listed_upto(all@, q@, show_hidden, i as nat),
            forall|k: int| 0 <= k < v@.len() ==> #[trigger] v@[k] < i,
        decreases all@.len() - i,
    {
        let name = all[i].name.as_str();
        let nv = chars_of(name);
        let dot = nv.len() > 0 && nv[0] == '.';
        proof {
            if nv@.len() > 0 {
                assert(crate::text::has_prefix(name@, seq!['.']) == (nv@[0] == '.')) by {
                    if nv@[0] == '.' {
                        assert(name@.take(1) =~= seq!['.']);
                    } else {
                        assert(name@.take(1)[0] != '.');
                    }
                }
            }
        }
        let shown = (show_hidden || !dot) && (qempty || subsequence(q.as_str(), lowercase(name).as_str()));
        if shown {
            v.push(i);
        }
        i = i + 1;
    }
    v
}

impl Browser {
    /// An empty browser, browsing, dotfiles hidden.
    pub fn new() -> (b: Browser)
        ensures
            b@.all.len() == 0,
            b@.view.len() == 0,
            b@.sel is None,
            b@.filter.len() == 0,
            b@.mode == BrowseMode::Browse,
            !b@.show_hidden,
            b@.viewport_h == 0,
            !b@.stale,
    {
        Browser {
            all: Vec::new(),
            view: Vec::new(),
            sel: None,
            filter: String::new(),
            mode: BrowseMode::Browse,
            show_hidden: false,
            viewport_h: 0,
            stale: false,
        }
    }

    fn refilter(&mut self)
        ensures
            final(self)@ == refilter_spec(old(self)@),
            browser_wf(final(self)@),
    {
        let v = listing(&self.all, self.filter.as_str(), self.show_hidden);
        let cur: usize = match self.sel {
            Some(i) => i,
            None => 0,
        };
        self.sel = if v.len() == 0 { None } else { Some(if cur < v.len() - 1 { cur } else { v.len() - 1 }) };
        self.view = v;
        self.stale = true;
        assert(self@ =~= refilter_spec(old(self)@));
    }

    fn move_sel(&mut self, delta: i64)
        ensures
            final(self)@ == move_sel_spec(old(self)@, delta as int),
    {
        let n = self.view.len();
        if n == 0 {
            return;
        }
        let cur: usize = match self.sel {
            Some(i) => i,
            None => 0,
        };
        let t: i128 = cur as i128 + delta as i128;
        let last: usize = n - 1;
        let nx: usize = if t < 0 { 0 } else if t > last as i128 { last } else { t as usize };
        self.sel = Some(nx);
        assert(self@ =~= move_sel_spec(old(self)@, delta as int));
    }

    fn selected_index(&self) -> (r: Option<usize>)
        ensures
            match r {
                Some(j) => selected_spec(self@) == Some(self@.all[j as int]) && j < self@.all.len(),
                None => selected_spec(self@) is None,
            },
    {
        match self.sel {
            Some(i) => {
                if i < self.view.len() && self.view[i] < self.all.len() {
                    Some(self.view[i])
                } else {
                    None
                }
            },
            None => None,
        }
    }

    /// Acts on a key; the returned action says what the caller does next.
    pub fn handle_key(&mut self, k: Key) -> (a: BrowseAction)
        requires
            browser_wf(old(self)@),
        ensures
            (final(self)@, a) == browse_key_spec(old(self)@, k),
            browser_wf(final(self)@),
    {
        if self.mode == BrowseMode::Filter {
            match k {
                Key::Esc => {
                    self.filter = String::new();
                    self.mode = BrowseMode::Browse;
                    self.refilter();
                },
                Key::Enter => {
                    self.mode = BrowseMode::Browse;
                },
                Key::Backspace => {
                    let _ = pop_char(&mut self.filter);
                    self.refilter();
                },
                Key::Down => self.move_sel(1),
                Key::Up => self.move_sel(-1),
                Key::Char(c) => {
                    push_char(&mut self.filter, c);
                    self.refilter();
                },
                _ => {},
            }
            assert(self@ =~= browse_key_spec(old(self)@, k).0);
            return BrowseAction::Stay;
        }
        let h = self.viewport_h / 2;
        let half: i64 = if h > 1 { h as i64 } else { 1 };
        let mut a = BrowseAction::Stay;
        if k == Key::Char('q') || k == Key::Esc {
            a = BrowseAction::Quit;
        } else if k == Key::Char('j') || k == Key::Down {
            self.move_sel(1);
        } else if k == Key::Char('k') || k == Key::Up {
            self.move_sel(-1);
        } else if k == Key::Char('d') || k == Key::PageDown {
            self.move_sel(half);
        } else if k == Key::Char('u') || k == Key::PageUp {
            self.move_sel(-half);
        } else if k == Key::Char('g') || k == Key::Home {
            self.sel = Some(0);
        } else if k == Key::Char('G') || k == Key::End {
            if self.view.len() > 0 {
                self.sel = Some(self.view.len() - 1);
            }
        } else if k == Key::Enter || k == Key::Char('l') || k == Key::Right {
            match self.selected_index() {
                Some(j) => {
                    a = if self.all[j].kind == Kind::Dir { BrowseAction::Enter(self.all[j].id) } else { BrowseAction::Open(self.all[j].id) };
                },
                None => {},
            }
        } else if k == Key::Char('h') || k == Key::Left || k == Key::Backspace {
            a = BrowseAction::Parent;
        } else if k == Key::Char('/') {
            self.mode = BrowseMode::Filter;
            self.filter = String::new();
            self.refilter();
        } else if k == Key::Char('.') {
            self.show_hidden = !self.show_hidden;
            self.refilter();
        }
        assert(self@ =~= browse_key_spec(old(self)@, k).0);
        a
    }

    /// Enters a folder with these entries.
    pub fn enter(&mut self, entries: Vec<Entry>)
        ensures
            final(self)@ == enter_spec(old(self)@, entries@),
            browser_wf(final(self)@),
    {
        self.all = sort_entries(entries);
        self.filter = String::new();
        self.mode = BrowseMode::Browse;
        self.sel = Some(0);
        self.refilter();
    }

    /// Selects the first listed entry named `name`, if there is one.
    pub fn land_on(&mut self, name: &str)
        ensures
            final(self)@ == (match listed_pos(old(self)@, name@) {
                Some(p) => BrowserModel { sel: Some(p as usize), ..old(self)@ },
                None => old(self)@,
            }),
    {
        let mut p: usize = 0;
        let ghost m0 = self@;
        assert(m0.view.skip(0) =~= m0.view);
        assert(BrowserModel { view: m0.view.skip(0), ..m0 } =~= m0);
        while p < self.view.len()
            invariant
                p <= self.view@.len(),
                self@ == m0,
                m0 == old(self)@,
                listed_pos(m0, name@) == (match listed_pos(BrowserModel { view: m0.view.skip(p as int), ..m0 }, name@) {
                    Some(q) => Some((q + p) as nat),
                    None => None::<nat>,
                }),
            decreases self.view@.len() - p,
        {
            let i = self.view[p];
            let ghost rest = BrowserModel { view: m0.view.skip(p as int), ..m0 };
            assert(rest.view[0] == i);
            if i < self.all.len() && str_eq(self.all[i].name.as_str(), name) {
                assert(rest.view.len() > 0);
                assert(listed_pos(rest, name@) == Some(0nat));
                assert(listed_pos(m0, name@) == Some(p as nat));
                assert(m0 == old(self)@);
                self.sel = Some(p);
                assert(self@ =~= BrowserModel { sel: Some(p), ..m0 });
                return;
            }
            assert(rest.view.drop_first() =~= m0.view.skip(p + 1));
            assert(BrowserModel { view: rest.view.drop_first(), ..rest } == BrowserModel { view: m0.view.skip(p + 1), ..m0 });
            p = p + 1;
        }
        assert(m0.view.skip(p as int).len() == 0);
    }

    /// The list widget drew the listing and adjusted its selection.
    pub fn set_selected(&mut self, sel: Option<usize>)
        ensures
            final(self)@ == (BrowserModel { sel, ..old(self)@ }),
    {
        self.sel = sel;
        assert(self@ =~= (BrowserModel { sel, ..old(self)@ }));
    }

    /// The listing's height is the pane less its borders.
    pub fn fit_viewport(&mut self, height: u16)
        ensures
            final(self)@ == (BrowserModel { viewport_h: (if height > 2 { height - 2 } else { 0 }) as u16, ..old(self)@ }),
    {
        self.viewport_h = if height > 2 { height - 2 } else { 0 };
        assert(self@ =~= (BrowserModel { viewport_h: (if height > 2 { height - 2 } else { 0 }) as u16, ..old(self)@ }));
    }

    /// Whether the listing was made anew since last asked; asking clears it.
    pub fn take_stale(&mut self) -> (b: bool)
        ensures
            b == old(self)@.stale,
            final(self)@ == (BrowserModel { stale: false, ..old(self)@ }),
    {
        let b = self.stale;
        self.stale = false;
        assert(self@ =~= (BrowserModel { stale: false, ..old(self)@ }));
        b
    }

    /// The selected entry, if any.
    pub fn selected(&self) -> (e: Option<&Entry>)
        ensures
            match e {
                Some(x) => selected_spec(self@) == Some(*x),
                None => selected_spec(self@) is None,
            },
    {
        match self.selected_index() {
            Some(j) => Some(&self.all[j]),
            None => None,
        }
    }

    pub fn entries(&self) -> (a: &Vec<Entry>)
        ensures
            a@ == self@.all,
    {
        &self.all
    }

    pub fn listed(&self) -> (v: &Vec<usize>)
        ensures
            v@ == self@.view,
    {
        &self.view
    }

    pub fn selection(&self) -> (s: Option<usize>)
        ensures
            s == self@.sel,
    {
        self.sel
    }

    pub fn filter(&self) -> (f: &String)
        ensures
            f@ == self@.filter,
    {
        &self.filter
    }

    pub fn mode(&self) -> (m: BrowseMode)
        ensures
            m == self@.mode,
    {
        self.mode
    }

    pub fn show_hidden(&self) -> (b: bool)
        ensures
            b == self@.show_hidden,
    {
        self.show_hidden
    }
}


// -------------------------------------------------------------- listings ----

/// The key of a child of a previewed folder: folders first, then by
/// lowercase name.
pub open spec fn child_key(c: (String, bool)) -> (bool, Seq<char>, (String, bool)) {
    (c.1, lowercase_text(c.0@), c)
}

/// Children (name, is folder) in browsing order.
pub open spec fn children_sorted(cs: Seq<(String, bool)>) -> Seq<(String, bool)> {
    sort_spec(cs.map_values(|c: (String, bool)| child_key(c))).map_values(|x: (bool, Seq<char>, (String, bool))| x.2)
}

/// Sorts items by a key, folders first, keeping equal keys in order.
fn sort_by_key_of<A>(v: Vec<A>, keys: Vec<(bool, Vec<char>)>) -> (r: Vec<A>)
    requires
        keys@.len() == v@.len(),
    ensures
        r@ == sort_spec(Seq::new(v@.len(), |i: int| (keys@[i].0, keys@[i].1@, v@[i]))).map_values(
            |x: (bool, Seq<char>, A)| x.2,
        ),
{
    let ghost target = Seq::new(v@.len(), |i: int| (keys@[i].0, keys@[i].1@, v@[i]));
    let ghost v0 = v@;
    let ghost k0 = keys@;
    let mut v = v;
    let mut keys = keys;
    let mut keyed: Vec<(bool, Vec<char>, A)> = Vec::new();
    let ghost mut k: int = 0;
    assert(v@ =~= v0.skip(0));
    assert(keys@ =~= k0.skip(0));
    while v.len() > 0
        invariant
            0 <= k <= v0.len(),
            k0.len() == v0.len(),
            target == Seq::new(v0.len(), |i: int| (k0[i].0, k0[i].1@, v0[i])),
            v@ == v0.skip(k),
            keys@ == k0.skip(k),
            keyed_view(keyed@) == target.take(k),
        decreases v@.len(),
    {
        assert(v0.skip(k).len() == v0.len() - k);
        assert(k0.skip(k).len() == k0.len() - k);
        let x = v.remove(0);
        let kx = keys.remove(0);
        assert(v0.skip(k)[0] == v0[k]);
        assert(k0.skip(k)[0] == k0[k]);
        let ghost kk = keyed@;
        let item = (kx.0, kx.1, x);
        keyed.push(item);
        proof {
            assert(keyed_view(keyed@) =~= keyed_view(kk).push((item.0, item.1@, item.2)));
            assert(target.take(k + 1) =~= target.take(k).push(target[k]));
            k = k + 1;
            assert(v@ =~= v0.skip(k));
            assert(keys@ =~= k0.skip(k));
        }
    }
    assert(target.take(v0.len() as int) =~= target);
    let mut sorted = sort_keyed(keyed);
    let ghost sk = keyed_view(sorted@);
    let mut r: Vec<A> = Vec::new();
    let ghost mut j: int = 0;
    assert(keyed_view(sorted@) =~= sk.skip(0));
    while sorted.len() > 0
        invariant
            0 <= j <= sk.len(),
            keyed_view(sorted@) == sk.skip(j),
            r@ == sk.take(j).map_values(|x: (bool, Seq<char>, A)| x.2),
        decreases sorted@.len(),
    {
        let ghost s0 = sorted@;
        assert(keyed_view(s0).len() == s0.len());
        assert(sk.skip(j).len() == sk.len() - j);
        let x = sorted.remove(0);
        assert(keyed_view(s0)[0] == sk[j]);
        r.push(x.2);
        proof {
            assert(sk.take(j + 1) =~= sk.take(j).push(sk[j]));
            assert(r@ =~= sk.take(j + 1).map_values(|x: (bool, Seq<char>, A)| x.2));
            j = j + 1;
            assert(keyed_view(sorted@) =~= keyed_view(s0).skip(1));
        }
    }
    assert(sk.take(sk.len() as int) =~= sk);
    r
}

/// Children shown in a folder's preview: dotfiles only when shown.
pub open spec fn kept_children(cs: Seq<(String, bool)>, show_hidden: bool) -> Seq<(String, bool)> {
    cs.filter(|c: (String, bool)| show_hidden || !crate::text::has_prefix(c.0@, seq!['.']))
}

/// A child's line in a folder's preview: its name, with `/` after a folder.
pub open spec fn child_line(c: (String, bool)) -> (Seq<char>, bool) {
    (if c.1 { c.0@.push('/') } else { c.0@ }, c.1)
}

/// The preview of a folder: how many children are shown, and the lines of
/// the first three hundred in browsing order.
pub open spec fn dir_preview_spec(cs: Seq<(String, bool)>, show_hidden: bool) -> (nat, Seq<(Seq<char>, bool)>) {
    let s = children_sorted(kept_children(cs, show_hidden));
    (s.len(), s.take(if s.len() < 300 { s.len() as int } else { 300 }).map_values(|c: (String, bool)| child_line(c)))
}

fn starts_with_dot(name: &str) -> (b: bool)
    ensures
        b == crate::text::has_prefix(name@, seq!['.']),
{
    let nv = chars_of(name);
    if nv.len() > 0 && nv[0] == '.' {
        assert(name@.take(1) =~= seq!['.']);
        true
    } else {
        proof {
            if nv@.len() > 0 {
                assert(name@.take(1)[0] != '.');
            }
        }
        false
    }
}

/// The preview of a folder with children `cs` (name, is folder).
pub fn dir_preview(cs: Vec<(String, bool)>, show_hidden: bool) -> (r: (usize, Vec<(String, bool)>))
    ensures
        r.0 as nat == dir_preview_spec(cs@, show_hidden).0,
        r.1@.map_values(|x: (String, bool)| (x.0@, x.1)) == dir_preview_spec(cs@, show_hidden).1,
{
    let ghost c0 = cs@;
    let ghost kept = kept_children(c0, show_hidden);
    let mut cs = cs;
    let mut v: Vec<(String, bool)> = Vec::new();
    let mut keys: Vec<(bool, Vec<char>)> = Vec::new();
    let ghost mut k: int = 0;
    assert(cs@ =~= c0.skip(0));
    assert(c0.take(0).filter(|c: (String, bool)| show_hidden || !crate::text::has_prefix(c.0@, seq!['.'])) =~= Seq::<(String, bool)>::empty()) by {
        reveal(Seq::filter);
    }
    while cs.len() > 0
        invariant
            0 <= k <= c0.len(),
            kept == kept_children(c0, show_hidden),
            cs@ == c0.skip(k),
            v@ == c0.take(k).filter(|c: (String, bool)| show_hidden || !crate::text::has_prefix(c.0@, seq!['.'])),
            keys@.len() == v@.len(),
            forall|i: int| 0 <= i < v@.len() ==> #[trigger] keys@[i].0 == v@[i].1 && keys@[i].1@ == lowercase_text(v@[i].0@),
        decreases cs@.len(),
    {
        assert(c0.skip(k).len() == c0.len() - k);
        let c = cs.remove(0);
        assert(c0.skip(k)[0] == c0[k]);
        proof {
            assert(c0.take(k + 1).drop_last() =~= c0.take(k));
            assert(c0.take(k + 1).last() == c);
            vstd::seq_lib::lemma_seq_take_len(c0, k + 1);
        }
        if show_hidden || !starts_with_dot(c.0.as_str()) {
            let low = lowercase(c.0.as_str());
            let kc = chars_of(low.as_str());
            keys.push((c.1, kc));
            v.push(c);
        }
        proof {
            reveal(Seq::filter);
            k = k + 1;
            assert(cs@ =~= c0.skip(k));
            assert(v@ =~= c0.take(k).filter(|c: (String, bool)| show_hidden || !crate::text::has_prefix(c.0@, seq!['.'])));
        }
    }
    assert(c0.take(c0.len() as int) =~= c0);
    assert(Seq::new(v@.len(), |i: int| (keys@[i].0, keys@[i].1@, v@[i])) =~= kept.map_values(|c: (String, bool)| child_key(c)));
    let mut sorted = sort_by_key_of(v, keys);
    let ghost ss = children_sorted(kept);
    assert(sorted@ == ss);
    let total = sorted.len();
    let lim: usize = if total < 300 { total } else { 300 };
    let mut out: Vec<(String, bool)> = Vec::new();
    let mut i: usize = 0;
    assert(sorted@ =~= ss.skip(0));
    while i < lim
        invariant
            i <= lim <= ss.len(),
            lim == (if ss.len() < 300 { ss.len() } else { 300 }),
            sorted@ == ss.skip(i as int),
            out@.map_values(|x: (String, bool)| (x.0@, x.1)) == ss.take(i as int).map_values(|c: (String, bool)| child_line(c)),
        decreases lim - i,
    {
        assert(ss.skip(i as int).len() == ss.len() - i);
        let ghost s0 = sorted@;
        let c = sorted.remove(0);
        assert(ss.skip(i as int)[0] == ss[i as int]);
        let mut line = c.0;
        if c.1 {
            push_char(&mut line, '/');
        }
        let ghost o0 = out@;
        out.push((line, c.1));
        proof {
            assert(out@.map_values(|x: (String, bool)| (x.0@, x.1)) =~= o0.map_values(|x: (String, bool)| (x.0@, x.1)).push(child_line(ss[i as int])));
            assert(ss.take(i + 1) =~= ss.take(i as int).push(ss[i as int]));
            assert(ss.take(i + 1).map_values(|c: (String, bool)| child_line(c)) =~= ss.take(i as int).map_values(|c: (String, bool)| child_line(c)).push(child_line(ss[i as int])));
        }
        i = i + 1;
        assert(sorted@ =~= s0.skip(1));
        assert(sorted@ =~= ss.skip(i as int));
    }
    (total, out)
}


/// A name in a plain listing: with `/` after a folder.
pub open spec fn listing_name(e: (String, bool)) -> Seq<char> {
    if e.1 { e.0@.push('/') } else { e.0@ }
}

/// A plain listing of a folder's entries (name, is folder): one per line,
/// by lowercase name (the `/` of folders included), ending in a newline.
pub open spec fn dump_spec(es: Seq<(String, bool)>) -> Seq<char> {
    let names = es.map_values(|e: (String, bool)| listing_name(e));
    let keyed = names.map_values(|n: Seq<char>| (false, lowercase_text(n), n));
    crate::text::join(sort_spec(keyed).map_values(|x: (bool, Seq<char>, Seq<char>)| x.2), "\n"@) + "\n"@
}

proof fn lemma_sort_map_payload<A, B>(s: Seq<(bool, Seq<char>, A)>, f: spec_fn(A) -> B)
    ensures
        sort_spec(s.map_values(|x: (bool, Seq<char>, A)| (x.0, x.1, f(x.2)))).map_values(|y: (bool, Seq<char>, B)| y.2)
            == sort_spec(s).map_values(|x: (bool, Seq<char>, A)| f(x.2)),
    decreases s.len(),
{
    let g = |x: (bool, Seq<char>, A)| (x.0, x.1, f(x.2));
    let t = s.map_values(g);
    if s.len() > 0 {
        lemma_sort_map_payload(s.drop_last(), f);
        assert(t.drop_last() =~= s.drop_last().map_values(g));
        let rs = sort_spec(s.drop_last());
        let rt = sort_spec(t.drop_last());
        lemma_sort_map_keys(s.drop_last(), f);
        lemma_insert_pos_map(rs, s.last(), f);
        lemma_insert_pos_le(rs, s.last());
        assert(rt =~= rs.map_values(g));
        let p = insert_pos(rs, s.last());
        assert(insert_pos(rt, t.last()) == p);
        assert(rt.insert(p as int, t.last()) =~= rs.insert(p as int, s.last()).map_values(g));
        assert(rt.insert(p as int, t.last()).map_values(|y: (bool, Seq<char>, B)| y.2)
            =~= rs.insert(p as int, s.last()).map_values(|x: (bool, Seq<char>, A)| f(x.2)));
    } else {
        assert(t.map_values(|y: (bool, Seq<char>, B)| y.2) =~= s.map_values(|x: (bool, Seq<char>, A)| f(x.2)));
    }
}

proof fn lemma_sort_map_keys<A, B>(s: Seq<(bool, Seq<char>, A)>, f: spec_fn(A) -> B)
    ensures
        sort_spec(s.map_values(|x: (bool, Seq<char>, A)| (x.0, x.1, f(x.2))))
            == sort_spec(s).map_values(|x: (bool, Seq<char>, A)| (x.0, x.1, f(x.2))),
    decreases s.len(),
{
    let g = |x: (bool, Seq<char>, A)| (x.0, x.1, f(x.2));
    let t = s.map_values(g);
    if s.len() > 0 {
        lemma_sort_map_keys(s.drop_last(), f);
        assert(t.drop_last() =~= s.drop_last().map_values(g));
        let rs = sort_spec(s.drop_last());
        lemma_insert_pos_map(rs, s.last(), f);
        lemma_insert_pos_le(rs, s.last());
        let p = insert_pos(rs, s.last());
        assert(sort_spec(t.drop_last()).insert(p as int, t.last()) =~= rs.insert(p as int, s.last()).map_values(g));
    } else {
        assert(t =~= s.map_values(g));
    }
}

proof fn lemma_insert_pos_le<A>(s: Seq<(bool, Seq<char>, A)>, x: (bool, Seq<char>, A))
    ensures
        insert_pos(s, x) <= s.len(),
    decreases s.len(),
{
    if s.len() > 0 {
        lemma_insert_pos_le(s.drop_first(), x);
    }
}

proof fn lemma_insert_pos_map<A, B>(s: Seq<(bool, Seq<char>, A)>, x: (bool, Seq<char>, A), f: spec_fn(A) -> B)
    ensures
        insert_pos(s.map_values(|y: (bool, Seq<char>, A)| (y.0, y.1, f(y.2))), (x.0, x.1, f(x.2))) == insert_pos(s, x),
    decreases s.len(),
{
    let g = |y: (bool, Seq<char>, A)| (y.0, y.1, f(y.2));
    if s.len() > 0 {
        assert(s.map_values(g).drop_first() =~= s.drop_first().map_values(g));
        lemma_insert_pos_map(s.drop_first(), x, f);
    }
}


/// A plain listing of a folder's entries (name, is folder).
pub fn dump_listing(es: Vec<(String, bool)>) -> (out: String)
    ensures
        out@ == dump_spec(es@),
{
    let ghost e0 = es@;
    let mut es = es;
    let mut names: Vec<String> = Vec::new();
    let mut keys: Vec<(bool, Vec<char>)> = Vec::new();
    let ghost mut k: int = 0;
    assert(es@ =~= e0.skip(0));
    while es.len() > 0
        invariant
            0 <= k <= e0.len(),
            es@ == e0.skip(k),
            names@.len() == k,
            keys@.len() == k,
            forall|i: int| 0 <= i < k ==> #[trigger] names@[i]@ == listing_name(e0[i]),
            forall|i: int| 0 <= i < k ==> !(#[trigger] keys@[i]).0 && keys@[i].1@ == lowercase_text(names@[i]@),
        decreases es@.len(),
    {
        assert(e0.skip(k).len() == e0.len() - k);
        let e = es.remove(0);
        assert(e0.skip(k)[0] == e0[k]);
        let mut n = e.0;
        if e.1 {
            push_char(&mut n, '/');
        }
        let low = lowercase(n.as_str());
        keys.push((false, chars_of(low.as_str())));
        names.push(n);
        proof {
            k = k + 1;
            assert(es@ =~= e0.skip(k));
        }
    }
    let ghost ns = e0.map_values(|e: (String, bool)| listing_name(e));
    let ghost tgt = Seq::new(names@.len(), |i: int| (keys@[i].0, keys@[i].1@, names@[i]));
    let sorted = sort_by_key_of(names, keys);
    proof {
        let f = |x: String| x@;
        lemma_sort_map_payload(tgt, f);
        assert(tgt.map_values(|x: (bool, Seq<char>, String)| (x.0, x.1, f(x.2)))
            =~= ns.map_values(|n: Seq<char>| (false, lowercase_text(n), n)));
        assert(sorted@.map_values(|p: String| p@) =~= sort_spec(tgt).map_values(|x: (bool, Seq<char>, String)| f(x.2)));
    }
    let mut out = String::new();
    crate::text::push_joined(&mut out, &sorted, "\n");
    push_char(&mut out, '\n');
    proof {
        reveal_strlit("\n");
    }
    assert(out@ =~= dump_spec(e0));
    out
}

/// The head of a file as text: none when it holds a NUL byte (binary);
/// otherwise its lossy decoding, cut to the first `max_lines` lines.
pub open spec fn head_text_spec(bytes: Seq<u8>, max_lines: nat) -> Option<Seq<char>> {
    if bytes.contains(0u8) {
        None
    } else {
        let ls = crate::text::lines_spec(crate::text::lossy_text(bytes));
        Some(crate::text::join(ls.take(if ls.len() < max_lines { ls.len() as int } else { max_lines as int }), "\n"@))
    }
}

/// The head of a file as text, from its first bytes.
pub fn head_text_of(bytes: &[u8], max_lines: usize) -> (r: Option<String>)
    ensures
        r matches Some(t) ==> head_text_spec(bytes@, max_lines as nat) == Some(t@),
        r is None ==> head_text_spec(bytes@, max_lines as nat) is None,
{
    let mut i: usize = 0;
    while i < bytes.len()
        invariant
            i <= bytes@.len(),
            forall|j: int| 0 <= j < i ==> bytes@[j] != 0u8,
        decreases bytes@.len() - i,
    {
        if bytes[i] == 0 {
            assert(bytes@.contains(0u8));
            return None;
        }
        i = i + 1;
    }
    assert(!bytes@.contains(0u8));
    let s = crate::text::utf8_lossy(bytes);
    let mut ls = crate::text::split_lines(s.as_str());
    let ghost lv = ls@.map_values(|x: String| x@);
    let keep: usize = if ls.len() < max_lines { ls.len() } else { max_lines };
    ls.truncate(keep);
    assert(ls@.map_values(|x: String| x@) =~= lv.take(keep as int));
    let mut out = String::new();
    crate::text::push_joined(&mut out, &ls, "\n");
    assert(out@ =~= crate::text::join(lv.take(keep as int), "\n"@));
    Some(out)
}

/// Columns for an entry's name in the listing: the pane less borders,
/// glyph and size column, at least four.
pub fn name_width(pane_width: u16) -> (w: usize)
    ensures
        w as int == (if pane_width as int - 4 - 9 > 4 { pane_width as int - 13 } else { 4 }),
{
    let inner: usize = if pane_width > 4 { (pane_width - 4) as usize } else { 0 };
    let w: usize = if inner > 9 { inner - 9 } else { 0 };
    if w > 4 { w } else { 4 }
}


// ------------------------------------------------------------- sort laws ----

proof fn lemma_chars_le_total(a: Seq<char>, b: Seq<char>)
    ensures
        chars_le(a, b) || chars_le(b, a),
    decreases a.len(),
{
    if a.len() > 0 && b.len() > 0 && (a[0] as u32) == (b[0] as u32) {
        lemma_chars_le_total(a.drop_first(), b.drop_first());
    }
}

proof fn lemma_chars_le_trans(a: Seq<char>, b: Seq<char>, c: Seq<char>)
    requires
        chars_le(a, b),
        chars_le(b, c),
    ensures
        chars_le(a, c),
    decreases a.len(),
{
    if a.len() > 0 && b.len() > 0 && c.len() > 0 && (a[0] as u32) == (b[0] as u32) && (b[0] as u32) == (c[0] as u32) {
        lemma_chars_le_trans(a.drop_first(), b.drop_first(), c.drop_first());
    }
}

proof fn lemma_key_lt_trans<A>(x: (bool, Seq<char>, A), y: (bool, Seq<char>, A), z: (bool, Seq<char>, A))
    requires
        key_lt(x, y),
        key_lt(y, z),
    ensures
        key_lt(x, z),
{
    if x.0 == y.0 && y.0 == z.0 {
        lemma_chars_le_total(x.1, y.1);
        lemma_chars_le_total(y.1, z.1);
        if chars_le(z.1, x.1) {
            lemma_chars_le_trans(z.1, x.1, y.1);
        }
    }
}

proof fn lemma_key_lt_asym<A>(x: (bool, Seq<char>, A), y: (bool, Seq<char>, A))
    requires
        key_lt(x, y),
    ensures
        !key_lt(y, x),
{
    if x.0 == y.0 {
        lemma_chars_le_total(x.1, y.1);
    }
}

/// No item comes strictly before an earlier one.
pub open spec fn key_sorted<A>(s: Seq<(bool, Seq<char>, A)>) -> bool {
    forall|i: int, j: int| 0 <= i < j < s.len() ==> !key_lt(#[trigger] s[j], #[trigger] s[i])
}

proof fn lemma_insert_pos_split<A>(s: Seq<(bool, Seq<char>, A)>, x: (bool, Seq<char>, A))
    ensures
        insert_pos(s, x) <= s.len(),
        forall|i: int| 0 <= i < insert_pos(s, x) ==> !key_lt(x, #[trigger] s[i]),
        insert_pos(s, x) < s.len() ==> key_lt(x, s[insert_pos(s, x) as int]),
    decreases s.len(),
{
    if s.len() > 0 && !key_lt(x, s[0]) {
        lemma_insert_pos_split(s.drop_first(), x);
        assert forall|i: int| 0 <= i < insert_pos(s, x) implies !key_lt(x, #[trigger] s[i]) by {
            if i > 0 {
                assert(s[i] == s.drop_first()[i - 1]);
            }
        }
    }
}

/// Sorting folders first and by key: the result is in order and holds the
/// same items.
pub proof fn lemma_sort_sorted<A>(s: Seq<(bool, Seq<char>, A)>)
    ensures
        key_sorted(sort_spec(s)),
        sort_spec(s).to_multiset() == s.to_multiset(),
    decreases s.len(),
{
    broadcast use vstd::seq_lib::to_multiset_insert, vstd::seq_lib::to_multiset_build;

    if s.len() > 0 {
        lemma_sort_sorted(s.drop_last());
        let r = sort_spec(s.drop_last());
        let x = s.last();
        lemma_insert_pos_split(r, x);
        let p = insert_pos(r, x) as int;
        let t = r.insert(p, x);
        assert forall|i: int, j: int| 0 <= i < j < t.len() implies !key_lt(#[trigger] t[j], #[trigger] t[i]) by {
            if j < p {
                assert(t[i] == r[i] && t[j] == r[j]);
            } else if j == p {
                assert(t[i] == r[i]);
            } else if i == p {
                assert(t[j] == r[j - 1]);
                assert(key_lt(x, r[p]));
                if p < j - 1 {
                    assert(!key_lt(r[j - 1], r[p]));
                    if key_lt(r[j - 1], x) {
                        lemma_key_lt_trans(r[j - 1], x, r[p]);
                    }
                } else {
                    lemma_key_lt_asym(x, r[p]);
                }
            } else if i < p {
                assert(t[i] == r[i] && t[j] == r[j - 1]);
            } else {
                assert(t[i] == r[i - 1] && t[j] == r[j - 1]);
            }
        }
        assert(s =~= s.drop_last().push(x));
    }
}


// ---------------------------------------------------------- preview cache ----

/// Most previews decoded to pixels that are kept.
pub const PREVIEW_CACHE_MAX: usize = 8;

/// The keys (paths) of the previews kept, oldest first; the caller keeps the
/// pixels alongside, in the same order.
pub struct RecentKeys {
    keys: Vec<String>,
}

impl View for RecentKeys {
    type V = Seq<Seq<char>>;

    closed spec fn view(&self) -> Seq<Seq<char>> {
        self.keys@.map_values(|k: String| k@)
    }
}

/// Position of the first `k` in `s`.
pub open spec fn first_key(s: Seq<Seq<char>>, k: Seq<char>) -> Option<nat>
    decreases s.len(),
{
    if s.len() == 0 {
        None
    } else if s[0] == k {
        Some(0)
    } else {
        match first_key(s.drop_first(), k) {
            Some(i) => Some(i + 1),
            None => None,
        }
    }
}

impl RecentKeys {
    pub fn new() -> (r: RecentKeys)
        ensures
            r@.len() == 0,
    {
        let r = RecentKeys { keys: Vec::new() };
        assert(r@ =~= Seq::<Seq<char>>::empty());
        r
    }

    /// Where `key` is kept, if it is.
    pub fn find(&self, key: &str) -> (r: Option<usize>)
        ensures
            match r {
                Some(i) => first_key(self@, key@) == Some(i as nat),
                None => first_key(self@, key@) is None,
            },
    {
        let ghost s = self@;
        let mut i: usize = 0;
        assert(s.skip(0) =~= s);
        while i < self.keys.len()
            invariant
                i <= self.keys@.len(),
                s == self@,
                s.len() == self.keys@.len(),
                first_key(s, key@) == (match first_key(s.skip(i as int), key@) {
                    Some(j) => Some((j + i) as nat),
                    None => None::<nat>,
                }),
            decreases self.keys@.len() - i,
        {
            assert(s.skip(i as int)[0] == s[i as int]);
            assert(s[i as int] == self.keys@[i as int]@);
            if str_eq(self.keys[i].as_str(), key) {
                return Some(i);
            }
            assert(s.skip(i as int).drop_first() =~= s.skip(i + 1));
            i = i + 1;
        }
        assert(s.skip(i as int).len() == 0);
        None
    }

    /// Keeps `key` as the newest; when more than `PREVIEW_CACHE_MAX` are kept,
    /// the oldest leaves, and true is returned.
    pub fn insert(&mut self, key: String) -> (evicted: bool)
        ensures
            evicted == (old(self)@.len() + 1 > 8),
            evicted ==> final(self)@ == old(self)@.push(key@).drop_first(),
            !evicted ==> final(self)@ == old(self)@.push(key@),
    {
        let ghost k = key@;
        self.keys.push(key);
        assert(self@ =~= old(self)@.push(k));
        if self.keys.len() > PREVIEW_CACHE_MAX {
            let _ = self.keys.remove(0);
            assert(self@ =~= old(self)@.push(k).drop_first());
            true
        } else {
            false
        }
    }
}


/// `k` gives, for each character of `n` in order, a position of `h` holding
/// it, the positions strictly increasing.
pub open spec fn embeds(n: Seq<char>, h: Seq<char>, k: Seq<int>) -> bool {
    &&& k.len() == n.len()
    &&& forall|i: int| 0 <= i < k.len() ==> 0 <= #[trigger] k[i] < h.len() && h[k[i]] == n[i]
    &&& forall|i: int, j: int| 0 <= i < j < k.len() ==> #[trigger] k[i] < #[trigger] k[j]
}

proof fn subseq_positions(n: Seq<char>, h: Seq<char>) -> (k: Seq<int>)
    requires
        is_subseq(n, h),
    ensures
        embeds(n, h, k),
    decreases h.len(),
{
    if n.len() == 0 {
        Seq::empty()
    } else if n[0] == h[0] {
        let k1 = subseq_positions(n.drop_first(), h.drop_first());
        let k = seq![0int] + Seq::new(k1.len(), |i: int| k1[i] + 1);
        assert forall|i: int| 0 <= i < k.len() implies 0 <= #[trigger] k[i] < h.len() && h[k[i]] == n[i] by {
            if i > 0 {
                assert(k[i] == k1[i - 1] + 1);
                assert(h.drop_first()[k1[i - 1]] == h[k1[i - 1] + 1]);
            }
        }
        assert forall|i: int, j: int| 0 <= i < j < k.len() implies #[trigger] k[i] < #[trigger] k[j] by {
            if i > 0 {
                assert(k1[i - 1] < k1[j - 1]);
            } else {
                assert(0 <= k1[j - 1]);
            }
        }
        k
    } else {
        let k1 = subseq_positions(n, h.drop_first());
        let k = Seq::new(k1.len(), |i: int| k1[i] + 1);
        assert forall|i: int| 0 <= i < k.len() implies 0 <= #[trigger] k[i] < h.len() && h[k[i]] == n[i] by {
            assert(h.drop_first()[k1[i]] == h[k1[i] + 1]);
        }
        assert forall|i: int, j: int| 0 <= i < j < k.len() implies #[trigger] k[i] < #[trigger] k[j] by {
            assert(k1[i] < k1[j]);
        }
        k
    }
}

proof fn positions_subseq(n: Seq<char>, h: Seq<char>, k: Seq<int>)
    requires
        embeds(n, h, k),
    ensures
        is_subseq(n, h),
    decreases h.len(),
{
    if n.len() == 0 {
    } else if h.len() == 0 {
        assert(0 <= k[0] < h.len());
    } else if n[0] == h[0] {
        let k1 = Seq::new((k.len() - 1) as nat, |i: int| k[i + 1] - 1);
        assert forall|i: int| 0 <= i < k1.len() implies 0 <= #[trigger] k1[i] < h.drop_first().len()
            && h.drop_first()[k1[i]] == n.drop_first()[i] by {
            assert(k[0] < k[i + 1]);
            assert(0 <= k[0]);
            assert(0 <= k[i + 1] < h.len() && h[k[i + 1]] == n[i + 1]);
        }
        assert forall|i: int, j: int| 0 <= i < j < k1.len() implies #[trigger] k1[i] < #[trigger] k1[j] by {
            assert(k[i + 1] < k[j + 1]);
        }
        positions_subseq(n.drop_first(), h.drop_first(), k1);
    } else {
        assert(0 <= k[0] < h.len() && h[k[0]] == n[0]);
        assert(k[0] != 0);
        let k1 = Seq::new(k.len(), |i: int| k[i] - 1);
        assert forall|i: int| 0 <= i < k1.len() implies 0 <= #[trigger] k1[i] < h.drop_first().len()
            && h.drop_first()[k1[i]] == n[i] by {
            if i > 0 {
                assert(k[0] < k[i]);
            }
            assert(0 <= k[i] < h.len() && h[k[i]] == n[i]);
        }
        assert forall|i: int, j: int| 0 <= i < j < k1.len() implies #[trigger] k1[i] < #[trigger] k1[j] by {
            assert(k[i] < k[j]);
        }
        positions_subseq(n, h.drop_first(), k1);
    }
}

/// The fuzzy match holds exactly when the needle's characters occur in the
/// haystack in order, at strictly increasing positions.
pub proof fn lemma_subseq_positions(n: Seq<char>, h: Seq<char>)
    ensures
        is_subseq(n, h) <==> exists|k: Seq<int>| #[trigger] embeds(n, h, k),
{
    if is_subseq(n, h) {
        let k = subseq_positions(n, h);
        assert(embeds(n, h, k));
    }
    if exists|k: Seq<int>| #[trigger] embeds(n, h, k) {
        let k = choose|k: Seq<int>| #[trigger] embeds(n, h, k);
        positions_subseq(n, h, k);
    }
}

proof fn lemma_listed_upto(all: Seq<Entry>, q: Seq<char>, show_hidden: bool, k: nat)
    requires
        k <= all.len() <= usize::MAX,
    ensures
        forall|i: int| 0 <= i < listed_upto(all, q, show_hidden, k).len() ==> {
            &&& #[trigger] listed_upto(all, q, show_hidden, k)[i] < k
            &&& listed(all[listed_upto(all, q, show_hidden, k)[i] as int], q, show_hidden)
        },
        forall|i: int, j: int| 0 <= i < j < listed_upto(all, q, show_hidden, k).len()
            ==> #[trigger] listed_upto(all, q, show_hidden, k)[i] < #[trigger] listed_upto(all, q, show_hidden, k)[j],
        forall|e: int| 0 <= e < k && listed(#[trigger] all[e], q, show_hidden)
            ==> listed_upto(all, q, show_hidden, k).contains(e as usize),
    decreases k,
{
    if k > 0 {
        lemma_listed_upto(all, q, show_hidden, (k - 1) as nat);
        let prev = listed_upto(all, q, show_hidden, (k - 1) as nat);
        let v = listed_upto(all, q, show_hidden, k);
        assert forall|e: int| 0 <= e < k && listed(#[trigger] all[e], q, show_hidden) implies v.contains(e as usize) by {
            if e < k - 1 {
                let t = choose|t: int| 0 <= t < prev.len() && prev[t] == e as usize;
                assert(v[t] == prev[t]);
            } else {
                assert(v[prev.len() as int] == e as usize);
            }
        }
    }
}

/// Refiltering lists, in ascending order, exactly the indices of the entries
/// shown (dotfiles only when hidden files are shown) whose lowercase name
/// holds the lowercase filter as a subsequence (any entry when the filter is
/// empty), and keeps the selection, pulled back within the listing; nothing
/// is selected in an empty listing.
pub proof fn lemma_refilter(m: BrowserModel)
    requires
        m.all.len() <= usize::MAX,
    ensures
        ({
            let r = refilter_spec(m);
            let q = lowercase_text(m.filter);
            &&& forall|i: int| 0 <= i < r.view.len() ==> #[trigger] r.view[i] < m.all.len()
                && listed(m.all[r.view[i] as int], q, m.show_hidden)
            &&& forall|i: int, j: int| 0 <= i < j < r.view.len() ==> #[trigger] r.view[i] < #[trigger] r.view[j]
            &&& forall|e: int| 0 <= e < m.all.len() && listed(#[trigger] m.all[e], q, m.show_hidden)
                ==> r.view.contains(e as usize)
            &&& r.sel == (if r.view.len() == 0 {
                None
            } else {
                let s: int = match m.sel { Some(i) => i as int, None => 0 };
                Some((if s < r.view.len() - 1 { s } else { r.view.len() - 1 }) as usize)
            })
            &&& r.stale
            &&& r.all == m.all && r.filter == m.filter && r.show_hidden == m.show_hidden
        }),
{
    lemma_listed_upto(m.all, lowercase_text(m.filter), m.show_hidden, m.all.len());
}



/// Each file type is recognized by its lowercase extensions: markdown
/// (md, markdown, mdx), spreadsheets, images (png, jpg, jpeg, gif, webp, bmp,
/// tiff, tif, ico, svg), PDF, video, audio, office documents, archives and
/// source code, each by the extensions listed here.
pub proof fn lemma_ext_kinds(e: Seq<char>)
    ensures
        (e == "md"@ || e == "markdown"@ || e == "mdx"@) ==> kind_for_ext(e) == Kind::Markdown,
        (e == "xlsx"@ || e == "xls"@ || e == "xlsm"@ || e == "xlsb"@ || e == "ods"@ || e == "csv"@ || e == "tsv"@) ==> kind_for_ext(e) == Kind::Sheet,
        (e == "png"@ || e == "jpg"@ || e == "jpeg"@ || e == "gif"@ || e == "webp"@ || e == "bmp"@ || e == "tiff"@ || e == "tif"@ || e == "ico"@ || e == "svg"@) ==> kind_for_ext(e) == Kind::Image,
        (e == "pdf"@) ==> kind_for_ext(e) == Kind::Pdf,
        (e == "mp4"@ || e == "mov"@ || e == "mkv"@ || e == "webm"@ || e == "avi"@ || e == "m4v"@) ==> kind_for_ext(e) == Kind::Video,
        (e == "mp3"@ || e == "wav"@ || e == "flac"@ || e == "ogg"@ || e == "m4a"@ || e == "aac"@) ==> kind_for_ext(e) == Kind::Audio,
        (e == "docx"@ || e == "doc"@ || e == "rtf"@ || e == "odt"@ || e == "pptx"@ || e == "ppt"@) ==> kind_for_ext(e) == Kind::Doc,
        (e == "zip"@ || e == "gz"@ || e == "tar"@ || e == "tgz"@ || e == "bz2"@ || e == "xz"@ || e == "7z"@ || e == "rar"@ || e == "zst"@) ==> kind_for_ext(e) == Kind::Archive,
        (e == "rs"@ || e == "py"@ || e == "js"@ || e == "ts"@ || e == "tsx"@ || e == "jsx"@ || e == "c"@ || e == "h"@ || e == "cc"@ || e == "cpp"@ || e == "hpp"@ || e == "go"@ || e == "java"@ || e == "rb"@ || e == "sh"@ || e == "bash"@ || e == "zsh"@ || e == "fish"@ || e == "toml"@ || e == "json"@ || e == "yaml"@ || e == "yml"@ || e == "html"@ || e == "htm"@ || e == "css"@ || e == "scss"@ || e == "lua"@ || e == "sql"@ || e == "php"@ || e == "swift"@ || e == "kt"@ || e == "ex"@ || e == "exs"@ || e == "ml"@ || e == "hs"@ || e == "clj"@ || e == "vim"@ || e == "ini"@ || e == "cfg"@ || e == "conf"@ || e == "xml"@) ==> kind_for_ext(e) == Kind::Code,
{
    reveal_strlit("md");
    reveal_strlit("markdown");
    reveal_strlit("mdx");
    reveal_strlit("xlsx");
    reveal_strlit("xls");
    reveal_strlit("xlsm");
    reveal_strlit("xlsb");
    reveal_strlit("ods");
    reveal_strlit("csv");
    reveal_strlit("tsv");
    reveal_strlit("png");
    reveal_strlit("jpg");
    reveal_strlit("jpeg");
    reveal_strlit("gif");
    reveal_strlit("webp");
    reveal_strlit("bmp");
    reveal_strlit("tiff");
    reveal_strlit("tif");
    reveal_strlit("ico");
    reveal_strlit("svg");
    reveal_strlit("pdf");
    reveal_strlit("mp4");
    reveal_strlit("mov");
    reveal_strlit("mkv");
    reveal_strlit("webm");
    reveal_strlit("avi");
    reveal_strlit("m4v");
    reveal_strlit("mp3");
    reveal_strlit("wav");
    reveal_strlit("flac");
    reveal_strlit("ogg");
    reveal_strlit("m4a");
    reveal_strlit("aac");
    reveal_strlit("docx");
    reveal_strlit("doc");
    reveal_strlit("rtf");
    reveal_strlit("odt");
    reveal_strlit("pptx");
    reveal_strlit("ppt");
    reveal_strlit("zip");
    reveal_strlit("gz");
    reveal_strlit("tar");
    reveal_strlit("tgz");
    reveal_strlit("bz2");
    reveal_strlit("xz");
    reveal_strlit("7z");
    reveal_strlit("rar");
    reveal_strlit("zst");
    reveal_strlit("rs");
    reveal_strlit("py");
    reveal_strlit("js");
    reveal_strlit("ts");
    reveal_strlit("tsx");
    reveal_strlit("jsx");
    reveal_strlit("c");
    reveal_strlit("h");
    reveal_strlit("cc");
    reveal_strlit("cpp");
    reveal_strlit("hpp");
    reveal_strlit("go");
    reveal_strlit("java");
    reveal_strlit("rb");
    reveal_strlit("sh");
    reveal_strlit("bash");
    reveal_strlit("zsh");
    reveal_strlit("fish");
    reveal_strlit("toml");
    reveal_strlit("json");
    reveal_strlit("yaml");
    reveal_strlit("yml");
    reveal_strlit("html");
    reveal_strlit("htm");
    reveal_strlit("css");
    reveal_strlit("scss");
    reveal_strlit("lua");
    reveal_strlit("sql");
    reveal_strlit("php");
    reveal_strlit("swift");
    reveal_strlit("kt");
    reveal_strlit("ex");
    reveal_strlit("exs");
    reveal_strlit("ml");
    reveal_strlit("hs");
    reveal_strlit("clj");
    reveal_strlit("vim");
    reveal_strlit("ini");
    reveal_strlit("cfg");
    reveal_strlit("conf");
    reveal_strlit("xml");
    if e == "md"@ {
        assert(e.len() == 2 && e[0] == 'm' && e[1] == 'd');
    }
    if e == "markdown"@ {
        assert(e.len() == 8 && e[0] == 'm' && e[1] == 'a' && e[2] == 'r' && e[3] == 'k' && e[4] == 'd' && e[5] == 'o' && e[6] == 'w' && e[7] == 'n');
    }
    if e == "mdx"@ {
        assert(e.len() == 3 && e[0] == 'm' && e[1] == 'd' && e[2] == 'x');
    }
    if e == "xlsx"@ {
        assert(e.len() == 4 && e[0] == 'x' && e[1] == 'l' && e[2] == 's' && e[3] == 'x');
    }
    if e == "xls"@ {
        assert(e.len() == 3 && e[0] == 'x' && e[1] == 'l' && e[2] == 's');
    }
    if e == "xlsm"@ {
        assert(e.len() == 4 && e[0] == 'x' && e[1] == 'l' && e[2] == 's' && e[3] == 'm');
    }
    if e == "xlsb"@ {
        assert(e.len() == 4 && e[0] == 'x' && e[1] == 'l' && e[2] == 's' && e[3] == 'b');
    }
    if e == "ods"@ {
        assert(e.len() == 3 && e[0] == 'o' && e[1] == 'd' && e[2] == 's');
    }
    if e == "csv"@ {
        assert(e.len() == 3 && e[0] == 'c' && e[1] == 's' && e[2] == 'v');
    }
    if e == "tsv"@ {
        assert(e.len() == 3 && e[0] == 't' && e[1] == 's' && e[2] == 'v');
    }
    if e == "png"@ {
        assert(e.len() == 3 && e[0] == 'p' && e[1] == 'n' && e[2] == 'g');
    }
    if e == "jpg"@ {
        assert(e.len() == 3 && e[0] == 'j' && e[1] == 'p' && e[2] == 'g');
    }
    if e == "jpeg"@ {
        assert(e.len() == 4 && e[0] == 'j' && e[1] == 'p' && e[2] == 'e' && e[3] == 'g');
    }
    if e == "gif"@ {
        assert(e.len() == 3 && e[0] == 'g' && e[1] == 'i' && e[2] == 'f');
    }
    if e == "webp"@ {
        assert(e.len() == 4 && e[0] == 'w' && e[1] == 'e' && e[2] == 'b' && e[3] == 'p');
    }
    if e == "bmp"@ {
        assert(e.len() == 3 && e[0] == 'b' && e[1] == 'm' && e[2] == 'p');
    }
    if e == "tiff"@ {
        assert(e.len() == 4 && e[0] == 't' && e[1] == 'i' && e[2] == 'f' && e[3] == 'f');
    }
    if e == "tif"@ {
        assert(e.len() == 3 && e[0] == 't' && e[1] == 'i' && e[2] == 'f');
    }
    if e == "ico"@ {
        assert(e.len() == 3 && e[0] == 'i' && e[1] == 'c' && e[2] == 'o');
    }
    if e == "svg"@ {
        assert(e.len() == 3 && e[0] == 's' && e[1] == 'v' && e[2] == 'g');
    }
    if e == "pdf"@ {
        assert(e.len() == 3 && e[0] == 'p' && e[1] == 'd' && e[2] == 'f');
    }
    if e == "mp4"@ {
        assert(e.len() == 3 && e[0] == 'm' && e[1] == 'p' && e[2] == '4');
    }
    if e == "mov"@ {
        assert(e.len() == 3 && e[0] == 'm' && e[1] == 'o' && e[2] == 'v');
    }
    if e == "mkv"@ {
        assert(e.len() == 3 && e[0] == 'm' && e[1] == 'k' && e[2] == 'v');
    }
    if e == "webm"@ {
        assert(e.len() == 4 && e[0] == 'w' && e[1] == 'e' && e[2] == 'b' && e[3] == 'm');
    }
    if e == "avi"@ {
        assert(e.len() == 3 && e[0] == 'a' && e[1] == 'v' && e[2] == 'i');
    }
    if e == "m4v"@ {
        assert(e.len() == 3 && e[0] == 'm' && e[1] == '4' && e[2] == 'v');
    }
    if e == "mp3"@ {
        assert(e.len() == 3 && e[0] == 'm' && e[1] == 'p' && e[2] == '3');
    }
    if e == "wav"@ {
        assert(e.len() == 3 && e[0] == 'w' && e[1] == 'a' && e[2] == 'v');
    }
    if e == "flac"@ {
        assert(e.len() == 4 && e[0] == 'f' && e[1] == 'l' && e[2] == 'a' && e[3] == 'c');
    }
    if e == "ogg"@ {
        assert(e.len() == 3 && e[0] == 'o' && e[1] == 'g' && e[2] == 'g');
    }
    if e == "m4a"@ {
        assert(e.len() == 3 && e[0] == 'm' && e[1] == '4' && e[2] == 'a');
    }
    if e == "aac"@ {
        assert(e.len() == 3 && e[0] == 'a' && e[1] == 'a' && e[2] == 'c');
    }
    if e == "docx"@ {
        assert(e.len() == 4 && e[0] == 'd' && e[1] == 'o' && e[2] == 'c' && e[3] == 'x');
    }
    if e == "doc"@ {
        assert(e.len() == 3 && e[0] == 'd' && e[1] == 'o' && e[2] == 'c');
    }
    if e == "rtf"@ {
        assert(e.len() == 3 && e[0] == 'r' && e[1] == 't' && e[2] == 'f');
    }
    if e == "odt"@ {
        assert(e.len() == 3 && e[0] == 'o' && e[1] == 'd' && e[2] == 't');
    }
    if e == "pptx"@ {
        assert(e.len() == 4 && e[0] == 'p' && e[1] == 'p' && e[2] == 't' && e[3] == 'x');
    }
    if e == "ppt"@ {
        assert(e.len() == 3 && e[0] == 'p' && e[1] == 'p' && e[2] == 't');
    }
    if e == "zip"@ {
        assert(e.len() == 3 && e[0] == 'z' && e[1] == 'i' && e[2] == 'p');
    }
    if e == "gz"@ {
        assert(e.len() == 2 && e[0] == 'g' && e[1] == 'z');
    }
    if e == "tar"@ {
        assert(e.len() == 3 && e[0] == 't' && e[1] == 'a' && e[2] == 'r');
    }
    if e == "tgz"@ {
        assert(e.len() == 3 && e[0] == 't' && e[1] == 'g' && e[2] == 'z');
    }
    if e == "bz2"@ {
        assert(e.len() == 3 && e[0] == 'b' && e[1] == 'z' && e[2] == '2');
    }
    if e == "xz"@ {
        assert(e.len() == 2 && e[0] == 'x' && e[1] == 'z');
    }
    if e == "7z"@ {
        assert(e.len() == 2 && e[0] == '7' && e[1] == 'z');
    }
    if e == "rar"@ {
        assert(e.len() == 3 && e[0] == 'r' && e[1] == 'a' && e[2] == 'r');
    }
    if e == "zst"@ {
        assert(e.len() == 3 && e[0] == 'z' && e[1] == 's' && e[2] == 't');
    }
    if e == "rs"@ {
        assert(e.len() == 2 && e[0] == 'r' && e[1] == 's');
    }
    if e == "py"@ {
        assert(e.len() == 2 && e[0] == 'p' && e[1] == 'y');
    }
    if e == "js"@ {
        assert(e.len() == 2 && e[0] == 'j' && e[1] == 's');
    }
    if e == "ts"@ {
        assert(e.len() == 2 && e[0] == 't' && e[1] == 's');
    }
    if e == "tsx"@ {
        assert(e.len() == 3 && e[0] == 't' && e[1] == 's' && e[2] == 'x');
    }
    if e == "jsx"@ {
        assert(e.len() == 3 && e[0] == 'j' && e[1] == 's' && e[2] == 'x');
    }
    if e == "c"@ {
        assert(e.len() == 1 && e[0] == 'c');
    }
    if e == "h"@ {
        assert(e.len() == 1 && e[0] == 'h');
    }
    if e == "cc"@ {
        assert(e.len() == 2 && e[0] == 'c' && e[1] == 'c');
    }
    if e == "cpp"@ {
        assert(e.len() == 3 && e[0] == 'c' && e[1] == 'p' && e[2] == 'p');
    }
    if e == "hpp"@ {
        assert(e.len() == 3 && e[0] == 'h' && e[1] == 'p' && e[2] == 'p');
    }
    if e == "go"@ {
        assert(e.len() == 2 && e[0] == 'g' && e[1] == 'o');
    }
    if e == "java"@ {
        assert(e.len() == 4 && e[0] == 'j' && e[1] == 'a' && e[2] == 'v' && e[3] == 'a');
    }
    if e == "rb"@ {
        assert(e.len() == 2 && e[0] == 'r' && e[1] == 'b');
    }
    if e == "sh"@ {
        assert(e.len() == 2 && e[0] == 's' && e[1] == 'h');
    }
    if e == "bash"@ {
        assert(e.len() == 4 && e[0] == 'b' && e[1] == 'a' && e[2] == 's' && e[3] == 'h');
    }
    if e == "zsh"@ {
        assert(e.len() == 3 && e[0] == 'z' && e[1] == 's' && e[2] == 'h');
    }
    if e == "fish"@ {
        assert(e.len() == 4 && e[0] == 'f' && e[1] == 'i' && e[2] == 's' && e[3] == 'h');
    }
    if e == "toml"@ {
        assert(e.len() == 4 && e[0] == 't' && e[1] == 'o' && e[2] == 'm' && e[3] == 'l');
    }
    if e == "json"@ {
        assert(e.len() == 4 && e[0] == 'j' && e[1] == 's' && e[2] == 'o' && e[3] == 'n');
    }
    if e == "yaml"@ {
        assert(e.len() == 4 && e[0] == 'y' && e[1] == 'a' && e[2] == 'm' && e[3] == 'l');
    }
    if e == "yml"@ {
        assert(e.len() == 3 && e[0] == 'y' && e[1] == 'm' && e[2] == 'l');
    }
    if e == "html"@ {
        assert(e.len() == 4 && e[0] == 'h' && e[1] == 't' && e[2] == 'm' && e[3] == 'l');
    }
    if e == "htm"@ {
        assert(e.len() == 3 && e[0] == 'h' && e[1] == 't' && e[2] == 'm');
    }
    if e == "css"@ {
        assert(e.len() == 3 && e[0] == 'c' && e[1] == 's' && e[2] == 's');
    }
    if e == "scss"@ {
        assert(e.len() == 4 && e[0] == 's' && e[1] == 'c' && e[2] == 's' && e[3] == 's');
    }
    if e == "lua"@ {
        assert(e.len() == 3 && e[0] == 'l' && e[1] == 'u' && e[2] == 'a');
    }
    if e == "sql"@ {
        assert(e.len() == 3 && e[0] == 's' && e[1] == 'q' && e[2] == 'l');
    }
    if e == "php"@ {
        assert(e.len() == 3 && e[0] == 'p' && e[1] == 'h' && e[2] == 'p');
    }
    if e == "swift"@ {
        assert(e.len() == 5 && e[0] == 's' && e[1] == 'w' && e[2] == 'i' && e[3] == 'f' && e[4] == 't');
    }
    if e == "kt"@ {
        assert(e.len() == 2 && e[0] == 'k' && e[1] == 't');
    }
    if e == "ex"@ {
        assert(e.len() == 2 && e[0] == 'e' && e[1] == 'x');
    }
    if e == "exs"@ {
        assert(e.len() == 3 && e[0] == 'e' && e[1] == 'x' && e[2] == 's');
    }
    if e == "ml"@ {
        assert(e.len() == 2 && e[0] == 'm' && e[1] == 'l');
    }
    if e == "hs"@ {
        assert(e.len() == 2 && e[0] == 'h' && e[1] == 's');
    }
    if e == "clj"@ {
        assert(e.len() == 3 && e[0] == 'c' && e[1] == 'l' && e[2] == 'j');
    }
    if e == "vim"@ {
        assert(e.len() == 3 && e[0] == 'v' && e[1] == 'i' && e[2] == 'm');
    }
    if e == "ini"@ {
        assert(e.len() == 3 && e[0] == 'i' && e[1] == 'n' && e[2] == 'i');
    }
    if e == "cfg"@ {
        assert(e.len() == 3 && e[0] == 'c' && e[1] == 'f' && e[2] == 'g');
    }
    if e == "conf"@ {
        assert(e.len() == 4 && e[0] == 'c' && e[1] == 'o' && e[2] == 'n' && e[3] == 'f');
    }
    if e == "xml"@ {
        assert(e.len() == 3 && e[0] == 'x' && e[1] == 'm' && e[2] == 'l');
    }
}


/// A file is classified by the text after the last dot of its name, ignoring
/// case; a name without a dot, or whose only dot leads it, is of no kind.
pub proof fn lemma_classify_by_extension(stem: Seq<char>, ext: Seq<char>, plain: Seq<char>)
    requires
        forall|i: int| 0 <= i < ext.len() ==> #[trigger] ext[i] != '.',
        forall|i: int| 0 <= i < plain.len() ==> #[trigger] plain[i] != '.',
    ensures
        (stem.len() > 0 && stem + seq!['.'] + ext != ".."@) ==> classify_spec(stem + seq!['.'] + ext)
            == kind_for_ext(lowercase_text(ext)),
        classify_spec(plain) == Kind::Other,
        classify_spec(seq!['.'] + plain) == Kind::Other,
{
    let name = stem + seq!['.'] + ext;
    let k: int = stem.len() as int + 1;
    assert forall|i: int| k <= i < name.len() implies name[i] != '.' by {
        assert(name[i] == ext[i - k]);
    }
    crate::text::lemma_find_last(name, '.', k);
    if stem.len() > 0 && name != ".."@ {
        assert(name.skip(k) =~= ext);
    }
    crate::text::lemma_find_last(plain, '.', 0);
    let dotted = seq!['.'] + plain;
    assert forall|i: int| 1 <= i < dotted.len() implies dotted[i] != '.' by {
        assert(dotted[i] == plain[i - 1]);
    }
    crate::text::lemma_find_last(dotted, '.', 1);
}


/// Browsing keys: `j`/Down and `k`/Up move the selection one entry down or
/// up, kept within the listing (from no selection, counting from the first);
/// `g`/Home select the first entry and `G`/End the last; Enter, `l` or Right
/// enter the selected folder or open the selected file; `h`, Left or
/// Backspace go to the parent folder; `q` and Esc quit. The entries, the
/// listing and the filter do not change.
pub proof fn lemma_browse_keys(m: BrowserModel, k: Key)
    requires
        m.mode == BrowseMode::Browse,
    ensures
        ({
            let (r, a) = browse_key_spec(m, k);
            let n = m.view.len() as int;
            let cur: int = match m.sel { Some(i) => i as int, None => 0 };
            &&& (k == Key::Char('j') || k == Key::Down) ==> a == BrowseAction::Stay
                && (n > 0 ==> r.sel == Some((if cur + 1 > n - 1 { n - 1 } else { cur + 1 }) as usize))
                && (n == 0 ==> r == m)
            &&& (k == Key::Char('k') || k == Key::Up) ==> a == BrowseAction::Stay
                && (n > 0 ==> r.sel == Some((if cur - 1 < 0 { 0 } else if cur - 1 > n - 1 { n - 1 } else { cur - 1 }) as usize))
                && (n == 0 ==> r == m)
            &&& (k == Key::Char('g') || k == Key::Home) ==> a == BrowseAction::Stay && r.sel == Some(0usize)
            &&& (k == Key::Char('G') || k == Key::End) && n > 0 ==> a == BrowseAction::Stay && r.sel == Some((n - 1) as usize)
            &&& (k == Key::Enter || k == Key::Char('l') || k == Key::Right) ==> r == m && match selected_spec(m) {
                Some(e) => a == (if e.kind == Kind::Dir { BrowseAction::Enter(e.id) } else { BrowseAction::Open(e.id) }),
                None => a == BrowseAction::Stay,
            }
            &&& (k == Key::Char('h') || k == Key::Left || k == Key::Backspace) ==> r == m && a == BrowseAction::Parent
            &&& (k == Key::Char('q') || k == Key::Esc) ==> r == m && a == BrowseAction::Quit
            &&& (k == Key::Char('j') || k == Key::Down || k == Key::Char('k') || k == Key::Up || k == Key::Char('g')
                || k == Key::Home || k == Key::Char('G') || k == Key::End) ==> (r.all == m.all && r.view == m.view
                && r.filter == m.filter && r.mode == m.mode)
        }),
{
}

} // verus!
