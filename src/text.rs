//! Character classes, scanning and string conversion shared by the reader and
//! the writer of the text format.
use vstd::prelude::*;

verus! {

/// Whitespace between items of the text format: the characters with the
/// Unicode White_Space property.
pub open spec fn is_ws(c: char) -> bool {
    ('\u{9}' <= c && c <= '\u{D}') || c == ' ' || c == '\u{85}' || c == '\u{A0}' || c == '\u{1680}'
        || ('\u{2000}' <= c && c <= '\u{200A}') || c == '\u{2028}' || c == '\u{2029}' || c
        == '\u{202F}' || c == '\u{205F}' || c == '\u{3000}'
}

pub open spec fn is_letter(c: char) -> bool {
    ('a' <= c && c <= 'z') || ('A' <= c && c <= 'Z')
}

/// The end of `s.take(e)` once its trailing whitespace is removed.
pub open spec fn trim_end(s: Seq<char>, e: int) -> int
    decreases e,
{
    if e > 0 && is_ws(s[e - 1]) {
        trim_end(s, e - 1)
    } else {
        e
    }
}

pub proof fn lemma_trim_end_bounds(s: Seq<char>, e: int)
    requires
        0 <= e <= s.len(),
    ensures
        0 <= trim_end(s, e) <= e,
        trim_end(s, e) > 0 ==> !is_ws(s[trim_end(s, e) - 1]),
        forall|p: int| trim_end(s, e) <= p < e ==> is_ws(#[trigger] s[p]),
    decreases e,
{
    if e > 0 && is_ws(s[e - 1]) {
        lemma_trim_end_bounds(s, e - 1);
    }
}

/// Trimming ends at `r` when everything from `r` to `e` is whitespace and the
/// character before `r` is not.
pub proof fn lemma_trim_end_at(s: Seq<char>, e: int, r: int)
    requires
        0 < r <= e <= s.len(),
        forall|p: int| r <= p < e ==> is_ws(#[trigger] s[p]),
        !is_ws(s[r - 1]),
    ensures
        trim_end(s, e) == r,
    decreases e,
{
    if e > r {
        lemma_trim_end_at(s, e - 1, r);
    }
}

/// What a scan stops at.
pub enum Stop {
    Quote,
    NonSpace,
    Space,
    Char(char),
}

pub open spec fn stops(k: Stop, c: char) -> bool {
    match k {
        Stop::Quote => c == '"',
        Stop::NonSpace => !is_ws(c),
        Stop::Space => is_ws(c),
        Stop::Char(x) => c == x,
    }
}

/// The first index at or after `from` whose character stops a scan of kind `k`,
/// or `s.len()` when there is none.
pub open spec fn scan(s: Seq<char>, from: int, k: Stop) -> int
    decreases s.len() - from,
{
    if from >= s.len() {
        s.len() as int
    } else if stops(k, s[from]) {
        from
    } else {
        scan(s, from + 1, k)
    }
}

pub proof fn lemma_scan_bounds(s: Seq<char>, from: int, k: Stop)
    requires
        0 <= from <= s.len(),
    ensures
        from <= scan(s, from, k) <= s.len(),
        scan(s, from, k) < s.len() ==> stops(k, s[scan(s, from, k)]),
        forall|p: int| from <= p < scan(s, from, k) ==> !stops(k, #[trigger] s[p]),
    decreases s.len() - from,
{
    if from < s.len() && !stops(k, s[from]) {
        lemma_scan_bounds(s, from + 1, k);
    }
}

/// A scan ends at `e` when nothing before it stops the scan and `e` does.
pub proof fn lemma_scan_at(s: Seq<char>, from: int, k: Stop, e: int)
    requires
        0 <= from <= e <= s.len(),
        forall|p: int| from <= p < e ==> !stops(k, #[trigger] s[p]),
        e < s.len() ==> stops(k, s[e]),
    ensures
        scan(s, from, k) == e,
    decreases e - from,
{
    if from < e {
        lemma_scan_at(s, from + 1, k, e);
    }
}

/// Scanning a suffix is scanning the whole from further on.
pub proof fn lemma_scan_skip(s: Seq<char>, p: int, from: int, k: Stop)
    requires
        0 <= p <= s.len(),
        0 <= from <= s.len() - p,
    ensures
        scan(s.skip(p), from, k) == scan(s, p + from, k) - p,
    decreases s.len() - p - from,
{
    if from < s.len() - p {
        assert(s.skip(p)[from] == s[p + from]);
        if !stops(k, s[p + from]) {
            lemma_scan_skip(s, p, from + 1, k);
        }
    }
}

pub fn is_ws_char(c: char) -> (r: bool)
    ensures
        r == is_ws(c),
{
    ('\u{9}' <= c && c <= '\u{D}') || c == ' ' || c == '\u{85}' || c == '\u{A0}' || c == '\u{1680}'
        || ('\u{2000}' <= c && c <= '\u{200A}') || c == '\u{2028}' || c == '\u{2029}' || c
        == '\u{202F}' || c == '\u{205F}' || c == '\u{3000}'
}

pub fn is_letter_char(c: char) -> (r: bool)
    ensures
        r == is_letter(c),
{
    ('a' <= c && c <= 'z') || ('A' <= c && c <= 'Z')
}

fn stops_exec(k: &Stop, c: char) -> (r: bool)
    ensures
        r == stops(*k, c),
{
    match k {
        Stop::Quote => c == '"',
        Stop::NonSpace => !is_ws_char(c),
        Stop::Space => is_ws_char(c),
        Stop::Char(x) => c == *x,
    }
}

/// Scans `s` from `from` for the first character that stops a scan of kind `k`.
pub fn scan_chars(s: &Vec<char>, from: usize, k: Stop) -> (r: usize)
    requires
        from <= s@.len(),
    ensures
        r as int == scan(s@, from as int, k),
{
    let mut i: usize = from;
    while i < s.len()
        invariant
            from <= i <= s@.len(),
            scan(s@, from as int, k) == scan(s@, i as int, k),
        decreases s@.len() - i,
    {
        if stops_exec(&k, s[i]) {
            return i;
        }
        i = i + 1;
    }
    i
}

/// The characters of `s` in order.
pub(crate) fn chars_of(s: &str) -> (r: Vec<char>)
    ensures
        r@ == s@,
{
    broadcast use vstd::string::group_string_axioms;

    let mut v: Vec<char> = Vec::new();
    for c in it: s.chars()
        invariant
            it.seq() == s@,
            v@ == s@.take(it.index() as int),
    {
        v.push(c);
        assert(v@ =~= s@.take(it.index() + 1));
    }
    assert(s@.take(s@.len() as int) =~= s@);
    v
}

/// Relies on `String`'s `FromIterator<char>`: a string of the given characters
/// in order.
#[verifier::external_body]
pub(crate) fn string_of(v: Vec<char>) -> (r: String)
    ensures
        r@ == v@,
{
    String::from_iter(v)
}

/// The characters of `s` from `from` up to `to`, as a string.
pub(crate) fn substring(s: &Vec<char>, from: usize, to: usize) -> (r: String)
    requires
        from <= to <= s@.len(),
    ensures
        r@ == s@.subrange(from as int, to as int),
{
    let mut v: Vec<char> = Vec::new();
    let mut i: usize = from;
    while i < to
        invariant
            from <= i <= to <= s@.len(),
            v@ == s@.subrange(from as int, i as int),
        decreases to - i,
    {
        v.push(s[i]);
        i = i + 1;
        assert(v@ =~= s@.subrange(from as int, i as int));
    }
    string_of(v)
}

/// `n` tab characters.
pub open spec fn tabs(n: nat) -> Seq<char>
    decreases n,
{
    if n == 0 {
        Seq::empty()
    } else {
        tabs((n - 1) as nat).push('\t')
    }
}

pub open spec fn crlf() -> Seq<char> {
    seq!['\r', '\n']
}

/// Writes text line by line, each line indented by a fixed number of tabs.
pub struct Serializer {
    output: String,
    indent: u32,
}

impl Serializer {
    pub closed spec fn text(&self) -> Seq<char> {
        self.output@
    }

    pub closed spec fn indent(&self) -> nat {
        self.indent as nat
    }

    pub fn new(indent: u32) -> (r: Serializer)
        ensures
            r.text() == Seq::<char>::empty(),
            r.indent() == indent,
    {
        Serializer { output: String::new(), indent }
    }

    /// Writes the indentation of a line.
    pub fn pad(&mut self)
        ensures
            final(self).text() == old(self).text() + tabs(old(self).indent()),
            final(self).indent() == old(self).indent(),
    {
        let ghost start = self.output@;
        let mut i: u32 = 0;
        while i < self.indent
            invariant
                i <= self.indent,
                self.indent == old(self).indent,
                start == old(self).output@,
                self.output@ == start + tabs(i as nat),
            decreases self.indent - i,
        {
            self.output.append("\t");
            proof {
                reveal_strlit("\t");
                assert(tabs((i + 1) as nat) == tabs(i as nat).push('\t'));
                assert(start + tabs((i + 1) as nat) =~= start + tabs(i as nat) + "\t"@);
            }
            i = i + 1;
        }
    }

    /// Writes `text` as it is.
    pub fn write(&mut self, text: &str)
        ensures
            final(self).text() == old(self).text() + text@,
            final(self).indent() == old(self).indent(),
    {
        self.output.append(text);
    }

    /// Writes an indented line holding `text`.
    pub fn add_padded_line(&mut self, text: &str)
        ensures
            final(self).text() == old(self).text() + tabs(old(self).indent()) + text@ + crlf(),
            final(self).indent() == old(self).indent(),
    {
        self.pad();
        self.output.append(text);
        self.output.append("\r\n");
        proof {
            reveal_strlit("\r\n");
        }
        assert(self.output@ =~= old(self).text() + tabs(old(self).indent()) + text@ + crlf());
    }

    pub fn finish(self) -> (r: String)
        ensures
            r@ == self.text(),
    {
        self.output
    }
}

} // verus!
