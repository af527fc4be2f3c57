//! Parsing of dataset manifests: the `path,label` CSV that lists labelled
//! clips, and the ESC-50 metadata table from which negative clips are chosen.
//!
//! Text is read as Unicode scalar values. Lines are the pieces between `'\n'`
//! characters and fields the pieces between commas; trimming removes the
//! characters that Unicode classes as white space, as `str::trim` does.

use vstd::prelude::*;
use vstd::string::*;
use crate::text::{is_ascii_digit, is_digit_run, last_index_of, lemma_last_index_of};

verus! {

/// The characters of `s`, in order.
pub fn chars_of(s: &str) -> (r: Vec<char>)
    ensures
        r@ == s@,
{
    let mut out: Vec<char> = Vec::new();
    for c in it: s.chars()
        invariant
            it.seq() == s@,
            out@ == it.seq().take(it.index() as int),
    {
        out.push(c);
    }
    out
}

/// Whether `c` has Unicode's White_Space property (what `char::is_whitespace`
/// tests and `str::trim` removes).
pub open spec fn is_white(c: char) -> bool {
    ('\t' <= c && c <= '\r') || c == ' ' || c == '\u{85}' || c == '\u{a0}' || c == '\u{1680}'
        || ('\u{2000}' <= c && c <= '\u{200a}') || c == '\u{2028}' || c == '\u{2029}'
        || c == '\u{202f}' || c == '\u{205f}' || c == '\u{3000}'
}

fn is_white_char(c: char) -> (r: bool)
    ensures
        r == is_white(c),
{
    ('\t' <= c && c <= '\r') || c == ' ' || c == '\u{85}' || c == '\u{a0}' || c == '\u{1680}'
        || ('\u{2000}' <= c && c <= '\u{200a}') || c == '\u{2028}' || c == '\u{2029}'
        || c == '\u{202f}' || c == '\u{205f}' || c == '\u{3000}'
}

/// `s` without its leading white space.
pub open spec fn trim_start(s: Seq<char>) -> Seq<char>
    decreases s.len(),
{
    if s.len() > 0 && is_white(s[0]) {
        trim_start(s.drop_first())
    } else {
        s
    }
}

/// `s` without its trailing white space.
pub open spec fn trim_end(s: Seq<char>) -> Seq<char>
    decreases s.len(),
{
    if s.len() > 0 && is_white(s.last()) {
        trim_end(s.drop_last())
    } else {
        s
    }
}

/// `s` without leading and trailing white space.
pub open spec fn trim(s: Seq<char>) -> Seq<char> {
    trim_end(trim_start(s))
}

proof fn lemma_trim_start(s: Seq<char>, k: int)
    requires
        0 <= k <= s.len(),
        forall|j: int| 0 <= j < k ==> is_white(#[trigger] s[j]),
        k == s.len() || !is_white(s[k]),
    ensures
        trim_start(s) == s.subrange(k, s.len() as int),
    decreases k,
{
    if k == 0 {
        assert(s.subrange(0, s.len() as int) =~= s);
    } else {
        assert(is_white(s[0]));
        let t = s.drop_first();
        assert forall|j: int| 0 <= j < k - 1 implies is_white(#[trigger] t[j]) by {
            assert(t[j] == s[j + 1]);
        }
        if k < s.len() {
            assert(t[k - 1] == s[k]);
        }
        lemma_trim_start(t, k - 1);
        assert(t.subrange(k - 1, t.len() as int) =~= s.subrange(k, s.len() as int));
    }
}

proof fn lemma_trim_end(s: Seq<char>, k: int)
    requires
        0 <= k <= s.len(),
        forall|j: int| k <= j < s.len() ==> is_white(#[trigger] s[j]),
        k == 0 || !is_white(s[k - 1]),
    ensures
        trim_end(s) == s.subrange(0, k),
    decreases s.len() - k,
{
    if k == s.len() {
        assert(s.subrange(0, k) =~= s);
    } else {
        assert(is_white(s.last()));
        let t = s.drop_last();
        assert forall|j: int| k <= j < t.len() implies is_white(#[trigger] t[j]) by {
            assert(t[j] == s[j]);
        }
        if k > 0 {
            assert(t[k - 1] == s[k - 1]);
        }
        lemma_trim_end(t, k);
        assert(t.subrange(0, k) =~= s.subrange(0, k));
    }
}

/// Bounds of the trimmed part of `t[a..b]`.
pub(crate) fn trim_bounds(t: &Vec<char>, a: usize, b: usize) -> (r: (usize, usize))
    requires
        a <= b <= t@.len(),
    ensures
        a <= r.0 <= r.1 <= b,
        t@.subrange(r.0 as int, r.1 as int) == trim(t@.subrange(a as int, b as int)),
{
    let mut lo = a;
    while lo < b && is_white_char(t[lo])
        invariant
            a <= lo <= b <= t@.len(),
            forall|j: int| a <= j < lo ==> is_white(#[trigger] t@[j]),
        decreases b - lo,
    {
        lo = lo + 1;
    }
    let ghost s = t@.subrange(a as int, b as int);
    proof {
        assert forall|j: int| 0 <= j < lo - a implies is_white(#[trigger] s[j]) by {
            assert(s[j] == t@[a + j]);
        }
        if lo < b {
            assert(s[lo - a] == t@[lo as int]);
        }
        lemma_trim_start(s, lo - a);
        assert(s.subrange(lo - a, s.len() as int) =~= t@.subrange(lo as int, b as int));
    }
    let mut hi = b;
    while hi > lo && is_white_char(t[hi - 1])
        invariant
            a <= lo <= hi <= b <= t@.len(),
            forall|j: int| hi <= j < b ==> is_white(#[trigger] t@[j]),
        decreases hi - lo,
    {
        hi = hi - 1;
    }
    proof {
        let u = t@.subrange(lo as int, b as int);
        assert forall|j: int| hi - lo <= j < u.len() implies is_white(#[trigger] u[j]) by {
            assert(u[j] == t@[lo + j]);
        }
        if hi > lo {
            assert(u[hi - lo - 1] == t@[hi - 1]);
        }
        lemma_trim_end(u, hi - lo);
        assert(u.subrange(0, hi - lo) =~= t@.subrange(lo as int, hi as int));
    }
    (lo, hi)
}

/// Position of the first `c` in `s`, or -1 when `s` holds none.
pub open spec fn first_index_of(s: Seq<char>, c: char) -> int
    decreases s.len(),
{
    if s.len() == 0 {
        -1
    } else if s[0] == c {
        0
    } else {
        let k = first_index_of(s.drop_first(), c);
        if k < 0 {
            -1
        } else {
            k + 1
        }
    }
}

/// The pieces of `s` between occurrences of `c`, in order; a text without `c`
/// is one piece, and a `c` at either end gives an empty piece there.
pub open spec fn split_on(s: Seq<char>, c: char) -> Seq<Seq<char>>
    decreases s.len(),
{
    let k = first_index_of(s, c);
    if k < 0 || k >= s.len() {
        seq![s]
    } else {
        seq![s.subrange(0, k)] + split_on(s.subrange(k + 1, s.len() as int), c)
    }
}

proof fn lemma_first_index_at(s: Seq<char>, c: char, m: int)
    requires
        0 <= m <= s.len(),
        forall|j: int| 0 <= j < m ==> #[trigger] s[j] != c,
        m == s.len() || s[m] == c,
    ensures
        first_index_of(s, c) == (if m < s.len() { m } else { -1 }),
    decreases m,
{
    if m > 0 {
        let t = s.drop_first();
        assert(s[0] != c);
        assert forall|j: int| 0 <= j < m - 1 implies #[trigger] t[j] != c by {
            assert(t[j] == s[j + 1]);
        }
        if m < s.len() {
            assert(t[m - 1] == s[m]);
        }
        lemma_first_index_at(t, c, m - 1);
    }
}

/// One step of splitting `t[p..e]` at the first `c` from `p`, found at `q`
/// (or `q == e` when there is none).
pub(crate) proof fn lemma_split_step(t: Seq<char>, c: char, p: int, q: int, e: int)
    requires
        0 <= p <= q <= e <= t.len(),
        forall|j: int| p <= j < q ==> #[trigger] t[j] != c,
        q == e || t[q] == c,
    ensures
        split_on(t.subrange(p, e), c) == (if q < e {
            seq![t.subrange(p, q)] + split_on(t.subrange(q + 1, e), c)
        } else {
            seq![t.subrange(p, e)]
        }),
{
    let s = t.subrange(p, e);
    assert forall|j: int| 0 <= j < q - p implies #[trigger] s[j] != c by {
        assert(s[j] == t[p + j]);
    }
    if q < e {
        assert(s[q - p] == t[q]);
    }
    lemma_first_index_at(s, c, q - p);
    if q < e {
        assert(s.subrange(0, q - p) =~= t.subrange(p, q));
        assert(s.subrange(q - p + 1, s.len() as int) =~= t.subrange(q + 1, e));
    }
}

/// The first position `q` in `p..e` holding `c`, or `e` when there is none.
pub(crate) fn find_char(t: &Vec<char>, p: usize, e: usize, c: char) -> (q: usize)
    requires
        p <= e <= t@.len(),
    ensures
        p <= q <= e,
        forall|j: int| p <= j < q ==> #[trigger] t@[j] != c,
        q == e || t@[q as int] == c,
{
    let mut q = p;
    while q < e && t[q] != c
        invariant
            p <= q <= e <= t@.len(),
            forall|j: int| p <= j < q ==> #[trigger] t@[j] != c,
        decreases e - q,
    {
        q = q + 1;
    }
    q
}

/// Value of a decimal digit character.
pub open spec fn digit_value(c: char) -> int {
    (c as int) - ('0' as int)
}

/// Value of a run of decimal digits, most significant first.
pub open spec fn digits_value(s: Seq<char>) -> int
    decreases s.len(),
{
    if s.len() == 0 {
        0
    } else {
        digits_value(s.drop_last()) * 10 + digit_value(s.last())
    }
}

/// What `str::parse::<u8>` gives for `s`: an optional `+` and then one or
/// more ASCII digits whose value is at most 255; anything else is refused.
pub open spec fn parse_u8_spec(s: Seq<char>) -> Option<u8> {
    let d = if s.len() > 0 && s[0] == '+' {
        s.drop_first()
    } else {
        s
    };
    if is_digit_run(d) && digits_value(d) <= 255 {
        Some(digits_value(d) as u8)
    } else {
        None
    }
}

proof fn lemma_digits_value_prefix(s: Seq<char>, m: int)
    requires
        0 <= m <= s.len(),
        forall|k: int| 0 <= k < s.len() ==> is_ascii_digit(#[trigger] s[k]),
    ensures
        0 <= digits_value(s.take(m)) <= digits_value(s),
    decreases s.len(),
{
    if m == s.len() {
        assert(s.take(m) =~= s);
        if s.len() > 0 {
            let t = s.drop_last();
            assert forall|k: int| 0 <= k < t.len() implies is_ascii_digit(#[trigger] t[k]) by {
                assert(t[k] == s[k]);
            }
            lemma_digits_value_prefix(t, t.len() as int);
            assert(t.take(t.len() as int) =~= t);
        }
    } else {
        let t = s.drop_last();
        assert forall|k: int| 0 <= k < t.len() implies is_ascii_digit(#[trigger] t[k]) by {
            assert(t[k] == s[k]);
        }
        lemma_digits_value_prefix(t, m);
        lemma_digits_value_prefix(t, t.len() as int);
        assert(t.take(t.len() as int) =~= t);
        assert(t.take(m) =~= s.take(m));
        assert(is_ascii_digit(s.last()));
    }
}

/// `str::parse::<u8>` on the characters `t[a..b]`.
fn parse_u8_span(t: &Vec<char>, a: usize, b: usize) -> (r: Option<u8>)
    requires
        a <= b <= t@.len(),
    ensures
        r == parse_u8_spec(t@.subrange(a as int, b as int)),
{
    let ghost s = t@.subrange(a as int, b as int);
    let mut k = a;
    if k < b && t[k] == '+' {
        k = k + 1;
    }
    let start = k;
    let ghost d = t@.subrange(start as int, b as int);
    proof {
        if start > a {
            assert(s.drop_first() =~= d);
        } else {
            assert(s =~= d);
        }
    }
    if k == b {
        return None;
    }
    let mut v: u32 = 0;
    while k < b
        invariant
            a <= start <= k <= b <= t@.len(),
            start < b,
            d == t@.subrange(start as int, b as int),
            s == t@.subrange(a as int, b as int),
            parse_u8_spec(s) == (if is_digit_run(d) && digits_value(d) <= 255 {
                Some(digits_value(d) as u8)
            } else {
                None::<u8>
            }),
            forall|j: int| start <= j < k ==> is_ascii_digit(#[trigger] t@[j]),
            v == digits_value(t@.subrange(start as int, k as int)),
            v <= 255,
        decreases b - k,
    {
        let c = t[k];
        if !('0' <= c && c <= '9') {
            proof {
                assert(d[k - start] == c);
            }
            return None;
        }
        proof {
            let w = t@.subrange(start as int, k + 1);
            assert(w.drop_last() =~= t@.subrange(start as int, k as int));
            assert(w.last() == c);
        }
        let dv = (c as u32) - ('0' as u32);
        v = v * 10 + dv;
        k = k + 1;
        if v > 255 {
            proof {
                if is_digit_run(d) {
                    lemma_digits_value_prefix(d, k - start);
                    assert(d.take(k - start) =~= t@.subrange(start as int, k as int));
                }
            }
            return None;
        }
    }
    proof {
        assert(d =~= t@.subrange(start as int, k as int));
        assert forall|j: int| 0 <= j < d.len() implies is_ascii_digit(#[trigger] d[j]) by {
            assert(d[j] == t@[start + j]);
        }
    }
    Some(v as u8)
}

/// Why a manifest line was refused; `line` counts from 1.
#[derive(Clone, Copy, Debug, PartialEq, Eq, Structural)]
pub enum ManifestError {
    /// The line holds no comma between path and label.
    MissingComma { line: usize },
    /// The text after the last comma is not a label in `0..=255`.
    BadLabel { line: usize },
}

/// One labelled clip listed in a manifest: its path as written, and its label
/// (1 = drone present, 0 = no drone).
pub struct ManifestEntry {
    pub id: String,
    pub label: u8,
}

/// A manifest read up to its end or up to its first bad line: the entries of
/// the lines before, and what was wrong with that line, if any.
pub struct ParsedManifest {
    pub entries: Vec<ManifestEntry>,
    pub error: Option<ManifestError>,
}

/// Whether a manifest line opens with `path` in any letter case.
pub open spec fn is_path_header(t: Seq<char>) -> bool {
    &&& t.len() >= 4
    &&& (t[0] == 'p' || t[0] == 'P')
    &&& (t[1] == 'a' || t[1] == 'A')
    &&& (t[2] == 't' || t[2] == 'T')
    &&& (t[3] == 'h' || t[3] == 'H')
}

/// What the manifest line `raw`, at 0-based position `index`, contributes:
/// nothing when it is blank or is the header row (a first line opening with
/// `path`); otherwise the trimmed text before its last comma as the id and the
/// trimmed text after it parsed as the label, or an error naming the line.
pub open spec fn manifest_line(raw: Seq<char>, index: int) -> Option<
    Result<(Seq<char>, u8), ManifestError>,
> {
    let t = trim(raw);
    if t.len() == 0 || (index == 0 && is_path_header(t)) {
        None
    } else {
        let c = last_index_of(t, ',');
        if c < 0 {
            Some(Err(ManifestError::MissingComma { line: (index + 1) as usize }))
        } else {
            match parse_u8_spec(trim(t.subrange(c + 1, t.len() as int))) {
                Some(v) => Some(Ok((trim(t.subrange(0, c)), v))),
                None => Some(Err(ManifestError::BadLabel { line: (index + 1) as usize })),
            }
        }
    }
}

/// The lines `lines`, the first of which sits at position `first`, read in
/// order: the entries gathered, and the first error, which ends the reading.
pub open spec fn parse_lines(lines: Seq<Seq<char>>, first: int) -> (
    Seq<(Seq<char>, u8)>,
    Option<ManifestError>,
)
    decreases lines.len(),
{
    if lines.len() == 0 {
        (seq![], None)
    } else {
        let rest = parse_lines(lines.drop_first(), first + 1);
        match manifest_line(lines[0], first) {
            None => rest,
            Some(Ok(e)) => (seq![e] + rest.0, rest.1),
            Some(Err(err)) => (seq![], Some(err)),
        }
    }
}

/// A whole manifest read line by line.
pub open spec fn manifest_spec(text: Seq<char>) -> (Seq<(Seq<char>, u8)>, Option<ManifestError>) {
    parse_lines(split_on(text, '\n'), 0)
}

/// The (id, label) pairs of parsed entries.
pub open spec fn entries_view(v: Seq<ManifestEntry>) -> Seq<(Seq<char>, u8)> {
    v.map_values(|e: ManifestEntry| (e.id@, e.label))
}

/// The line outcome seen through the entry's view.
pub open spec fn outcome_view(o: Option<Result<ManifestEntry, ManifestError>>) -> Option<
    Result<(Seq<char>, u8), ManifestError>,
> {
    match o {
        None => None,
        Some(Ok(e)) => Some(Ok((e.id@, e.label))),
        Some(Err(err)) => Some(Err(err)),
    }
}

/// The manifest line `t[a..b]` at 0-based position `index`.
fn manifest_line_at(text: &str, t: &Vec<char>, a: usize, b: usize, index: usize) -> (r: Option<
    Result<ManifestEntry, ManifestError>,
>)
    requires
        t@ == text@,
        a <= b <= t@.len(),
        index < usize::MAX,
    ensures
        outcome_view(r) == manifest_line(t@.subrange(a as int, b as int), index as int),
{
    let (lo, hi) = trim_bounds(t, a, b);
    let ghost tt = t@.subrange(lo as int, hi as int);
    if lo == hi {
        return None;
    }
    if index == 0 && hi - lo >= 4 && (t[lo] == 'p' || t[lo] == 'P') && (t[lo + 1] == 'a' || t[lo
        + 1] == 'A') && (t[lo + 2] == 't' || t[lo + 2] == 'T') && (t[lo + 3] == 'h' || t[lo + 3]
        == 'H') {
        proof {
            assert(tt[0] == t@[lo as int] && tt[1] == t@[lo + 1] && tt[2] == t@[lo + 2] && tt[3]
                == t@[lo + 3]);
        }
        return None;
    }
    proof {
        if index == 0 && tt.len() >= 4 {
            assert(tt[0] == t@[lo as int] && tt[1] == t@[lo + 1] && tt[2] == t@[lo + 2] && tt[3]
                == t@[lo + 3]);
        }
    }
    let mut j = hi;
    while j > lo && t[j - 1] != ','
        invariant
            lo <= j <= hi <= t@.len(),
            forall|k: int| j <= k < hi ==> #[trigger] t@[k] != ',',
        decreases j - lo,
    {
        j = j - 1;
    }
    proof {
        lemma_last_index_of(tt, ',');
        let l = last_index_of(tt, ',');
        if l >= 0 {
            assert(tt[l] == t@[lo + l]);
        }
        if j > lo {
            assert(tt[j - 1 - lo] == t@[j - 1]);
            if l < j - 1 - lo {
                assert(tt[j - 1 - lo] != ',');
            }
        }
        assert(l == j - 1 - lo);
    }
    if j == lo {
        return Some(Err(ManifestError::MissingComma { line: index + 1 }));
    }
    let c = j - 1;
    proof {
        assert(tt.subrange(c - lo + 1, tt.len() as int) =~= t@.subrange(c + 1, hi as int));
        assert(tt.subrange(0, c - lo) =~= t@.subrange(lo as int, c as int));
    }
    let (la, lb) = trim_bounds(t, c + 1, hi);
    match parse_u8_span(t, la, lb) {
        None => Some(Err(ManifestError::BadLabel { line: index + 1 })),
        Some(v) => {
            let (pa, pb) = trim_bounds(t, lo, c);
            let id = String::from_str(text.substring_char(pa, pb));
            Some(Ok(ManifestEntry { id, label: v }))
        },
    }
}

/// Read a `path,label` manifest. Blank lines are skipped, and so is a first
/// line that opens with `path` in any letter case (the header row). Every
/// other line is split at its last comma: the trimmed text before it is the
/// clip's path and the trimmed text after it its label. Reading stops at the
/// first line with no comma or with a label that is not an integer in
/// `0..=255`; the entries of the lines before it are kept.
pub fn parse_manifest(text: &str) -> (r: ParsedManifest)
    requires
        text@.len() < usize::MAX,
    ensures
        (entries_view(r.entries@), r.error) == manifest_spec(text@),
{
    let t = chars_of(text);
    let n = t.len();
    let mut entries: Vec<ManifestEntry> = Vec::new();
    let mut p: usize = 0;
    let mut i: usize = 0;
    proof {
        assert(t@.subrange(0, n as int) =~= t@);
    }
    loop
        invariant
            t@ == text@,
            n == t@.len(),
            n < usize::MAX,
            i <= p <= n,
            manifest_spec(text@) == (
                entries_view(entries@) + parse_lines(
                    split_on(t@.subrange(p as int, n as int), '\n'),
                    i as int,
                ).0,
                parse_lines(split_on(t@.subrange(p as int, n as int), '\n'), i as int).1,
            ),
        decreases n - p,
    {
        let q = find_char(&t, p, n, '\n');
        let ghost lines = split_on(t@.subrange(p as int, n as int), '\n');
        proof {
            lemma_split_step(t@, '\n', p as int, q as int, n as int);
            if q < n {
                assert(lines.drop_first() =~= split_on(t@.subrange(q + 1, n as int), '\n'));
            } else {
                assert(lines.drop_first() =~= Seq::<Seq<char>>::empty());
            }
        }
        let outcome = manifest_line_at(text, &t, p, q, i);
        let ghost rest = parse_lines(lines.drop_first(), i + 1);
        match outcome {
            None => {},
            Some(Ok(e)) => {
                let ghost ev = (e.id@, e.label);
                let ghost before = entries@;
                entries.push(e);
                assert(entries_view(entries@) =~= entries_view(before).push(ev));
            },
            Some(Err(err)) => {
                return ParsedManifest { entries, error: Some(err) };
            },
        }
        if q == n {
            return ParsedManifest { entries, error: None };
        }
        p = q + 1;
        i = i + 1;
    }
}

} // verus!
