//! Choosing negative clips from the ESC-50 metadata table.
//!
//! The table is a CSV whose first line is a header and whose columns are
//! `filename,fold,target,category,...`. The clips of the wanted categories
//! are ordered by category and then by file name, and at most `per_class` of
//! each category are kept (all of them when `per_class` is 0).

use vstd::prelude::*;
use vstd::string::*;
use vstd::seq_lib::*;
use crate::text::{
    chars_lt, lemma_chars_lt_irreflexive, lemma_chars_lt_total, lemma_chars_lt_transitive, str_lt,
    string_views,
};
use crate::manifest::{chars_of, find_char, lemma_split_step, split_on, trim, trim_bounds};

verus! {

/// A row of the table: (category, file name).
pub type Row = (Seq<char>, Seq<char>);

/// Order of rows: by category, then by file name.
pub open spec fn row_lt(x: Row, y: Row) -> bool {
    chars_lt(x.0, y.0) || (x.0 == y.0 && chars_lt(x.1, y.1))
}

/// `row_lt` is a strict total order.
pub proof fn lemma_row_lt_order(x: Row, y: Row, z: Row)
    ensures
        !row_lt(x, x),
        row_lt(x, y) && row_lt(y, z) ==> row_lt(x, z),
        row_lt(x, y) || x == y || row_lt(y, x),
{
    lemma_chars_lt_irreflexive(x.0);
    lemma_chars_lt_irreflexive(x.1);
    lemma_chars_lt_total(x.0, y.0);
    lemma_chars_lt_total(x.1, y.1);
    if row_lt(x, y) && row_lt(y, z) {
        if chars_lt(x.0, y.0) && chars_lt(y.0, z.0) {
            lemma_chars_lt_transitive(x.0, y.0, z.0);
        }
        if x.0 == y.0 && y.0 == z.0 {
            lemma_chars_lt_transitive(x.1, y.1, z.1);
        }
    }
}

/// Whether `s` is in row order (equal rows may repeat).
pub open spec fn rows_sorted(s: Seq<Row>) -> bool {
    forall|i: int, j: int| 0 <= i < j < s.len() ==> !row_lt(#[trigger] s[j], #[trigger] s[i])
}

/// Rows in order, equal rows allowed: `x` does not sort after `y`.
pub open spec fn row_le() -> spec_fn(Row, Row) -> bool {
    |x: Row, y: Row| !row_lt(y, x)
}

/// The rows of `s` in row order.
pub open spec fn sorted_rows(s: Seq<Row>) -> Seq<Row> {
    s.sort_by(row_le())
}

proof fn lemma_row_le_total()
    ensures
        vstd::relations::total_ordering(row_le()),
{
    let le = row_le();
    assert forall|x: Row| #[trigger] le(x, x) by {
        lemma_row_lt_order(x, x, x);
    }
    assert forall|x: Row, y: Row| #[trigger] le(x, y) && #[trigger] le(y, x) implies x == y by {
        lemma_row_lt_order(x, y, x);
    }
    assert forall|x: Row, y: Row, z: Row| #[trigger] le(x, y) && #[trigger] le(y, z) implies le(
        x,
        z,
    ) by {
        lemma_row_lt_order(y, z, x);
        lemma_row_lt_order(z, x, y);
        lemma_row_lt_order(y, x, z);
    }
    assert forall|x: Row, y: Row| #[trigger] le(x, y) || #[trigger] le(y, x) by {
        lemma_row_lt_order(x, y, x);
        lemma_row_lt_order(y, x, y);
    }
}

/// `sorted_rows(s)` is in row order and holds the rows of `s`.
pub proof fn lemma_sorted_rows(s: Seq<Row>)
    ensures
        rows_sorted(sorted_rows(s)),
        sorted_rows(s).to_multiset() == s.to_multiset(),
{
    lemma_row_le_total();
    s.lemma_sort_by_ensures(row_le());
    let u = sorted_rows(s);
    assert forall|i: int, j: int| 0 <= i < j < u.len() implies !row_lt(
        #[trigger] u[j],
        #[trigger] u[i],
    ) by {
        assert(row_le()(u[i], u[j]));
    }
}

/// Two sorted sequences with the same rows are equal: sorting determines
/// the order completely.
pub proof fn lemma_sorted_rows_unique(s: Seq<Row>, t: Seq<Row>)
    requires
        rows_sorted(s),
        rows_sorted(t),
        s.to_multiset() == t.to_multiset(),
    ensures
        s == t,
    decreases s.len(),
{
    broadcast use group_to_multiset_ensures;

    assert(s.to_multiset().len() == s.len());
    assert(t.to_multiset().len() == t.len());
    if s.len() == 0 {
        assert(t.len() == 0);
        assert(s =~= t);
    } else {
        assert(t.len() == s.len());
        let a = s[0];
        let b = t[0];
        assert(s.contains(a));
        assert(s.to_multiset().count(a) > 0);
        assert(t.to_multiset().count(a) > 0);
        assert(t.contains(a));
        assert(t.contains(b));
        assert(t.to_multiset().count(b) > 0);
        assert(s.to_multiset().count(b) > 0);
        assert(s.contains(b));
        let ja = choose|j: int| 0 <= j < t.len() && t[j] == a;
        let jb = choose|j: int| 0 <= j < s.len() && s[j] == b;
        lemma_row_lt_order(a, b, a);
        if ja > 0 {
            assert(!row_lt(t[ja], t[0]));
        }
        if jb > 0 {
            assert(!row_lt(s[jb], s[0]));
        }
        assert(a == b);
        let s2 = s.remove(0);
        let t2 = t.remove(0);
        assert(s2.to_multiset() == s.to_multiset().remove(a));
        assert(t2.to_multiset() == t.to_multiset().remove(b));
        assert forall|i: int, j: int| 0 <= i < j < s2.len() implies !row_lt(
            #[trigger] s2[j],
            #[trigger] s2[i],
        ) by {
            assert(s2[i] == s[i + 1] && s2[j] == s[j + 1]);
        }
        assert forall|i: int, j: int| 0 <= i < j < t2.len() implies !row_lt(
            #[trigger] t2[j],
            #[trigger] t2[i],
        ) by {
            assert(t2[i] == t[i + 1] && t2[j] == t[j + 1]);
        }
        lemma_sorted_rows_unique(s2, t2);
        assert forall|i: int| 0 <= i < s.len() implies s[i] == t[i] by {
            if i > 0 {
                assert(s[i] == s2[i - 1] && t[i] == t2[i - 1]);
            }
        }
        assert(s =~= t);
    }
}

/// A sorted permutation of `s` is what `sorted_rows` names.
pub proof fn lemma_sorted_rows_is(s: Seq<Row>, u: Seq<Row>)
    requires
        rows_sorted(u),
        u.to_multiset() == s.to_multiset(),
    ensures
        sorted_rows(s) == u,
{
    lemma_sorted_rows(s);
    lemma_sorted_rows_unique(sorted_rows(s), u);
}

/// A clip chosen from the table: its category and its file name.
pub struct Esc50Clip {
    pub category: String,
    pub filename: String,
}

/// The rows of a list of clips.
pub open spec fn clips_view(v: Seq<Esc50Clip>) -> Seq<Row> {
    v.map_values(|c: Esc50Clip| (c.category@, c.filename@))
}

/// Whether `x` sorts strictly before `y`.
fn clip_lt(x: &Esc50Clip, y: &Esc50Clip) -> (r: bool)
    ensures
        r == row_lt((x.category@, x.filename@), (y.category@, y.filename@)),
{
    if str_lt(x.category.as_str(), y.category.as_str()) {
        true
    } else if crate::text::str_eq(x.category.as_str(), y.category.as_str()) {
        str_lt(x.filename.as_str(), y.filename.as_str())
    } else {
        false
    }
}

/// The clips of `v` in row order.
fn sort_clips(v: &Vec<Esc50Clip>) -> (r: Vec<Esc50Clip>)
    ensures
        rows_sorted(clips_view(r@)),
        clips_view(r@).to_multiset() == clips_view(v@).to_multiset(),
{
    broadcast use group_to_multiset_ensures;

    let mut out: Vec<Esc50Clip> = Vec::new();
    let mut k: usize = 0;
    proof {
        assert(clips_view(out@) =~= clips_view(v@.take(0)));
    }
    while k < v.len()
        invariant
            k <= v@.len(),
            rows_sorted(clips_view(out@)),
            clips_view(out@).to_multiset() == clips_view(v@.take(k as int)).to_multiset(),
        decreases v@.len() - k,
    {
        let x = Esc50Clip { category: v[k].category.clone(), filename: v[k].filename.clone() };
        let ghost xv = (x.category@, x.filename@);
        let ghost old_rows = clips_view(out@);
        let mut pos: usize = 0;
        while pos < out.len() && !clip_lt(&x, &out[pos])
            invariant
                pos <= out@.len(),
                old_rows == clips_view(out@),
                xv == (x.category@, x.filename@),
                forall|i: int| 0 <= i < pos ==> !row_lt(xv, #[trigger] old_rows[i]),
            decreases out@.len() - pos,
        {
            pos = pos + 1;
        }
        proof {
            if pos < out@.len() {
                assert(row_lt(xv, old_rows[pos as int]));
            }
        }
        out.insert(pos, x);
        proof {
            let new_rows = clips_view(out@);
            assert(new_rows =~= old_rows.insert(pos as int, xv));
            assert forall|i: int, j: int| 0 <= i < j < new_rows.len() implies !row_lt(
                #[trigger] new_rows[j],
                #[trigger] new_rows[i],
            ) by {
                if j < pos {
                    assert(new_rows[i] == old_rows[i] && new_rows[j] == old_rows[j]);
                } else if j == pos {
                    assert(new_rows[i] == old_rows[i]);
                } else if i > pos {
                    assert(new_rows[i] == old_rows[i - 1] && new_rows[j] == old_rows[j - 1]);
                } else if i < pos {
                    assert(new_rows[i] == old_rows[i] && new_rows[j] == old_rows[j - 1]);
                } else {
                    assert(new_rows[j] == old_rows[j - 1]);
                    let y = old_rows[j - 1];
                    let z = old_rows[pos as int];
                    lemma_row_lt_order(y, xv, z);
                    lemma_row_lt_order(xv, y, z);
                    if j - 1 > pos {
                        assert(!row_lt(old_rows[j - 1], old_rows[pos as int]));
                    }
                }
            }
            assert(new_rows.remove(pos as int) =~= old_rows);
            assert(new_rows[pos as int] == xv);
            to_multiset_remove(new_rows, pos as int);
            new_rows.to_multiset_ensures();
            assert(new_rows.contains(xv));
            assert(new_rows.to_multiset().count(xv) > 0);
            assert(new_rows.to_multiset() =~= old_rows.to_multiset().insert(xv));
            assert(clips_view(v@.take(k + 1)) =~= clips_view(v@.take(k as int)).push(xv));
            to_multiset_build(clips_view(v@.take(k as int)), xv);
        }
        k = k + 1;
    }
    proof {
        assert(v@.take(k as int) =~= v@);
    }
    out
}

/// How many rows of `s` have category `cat`.
pub open spec fn count_category(s: Seq<Row>, cat: Seq<char>) -> nat
    decreases s.len(),
{
    if s.len() == 0 {
        0
    } else {
        count_category(s.drop_last(), cat) + if s.last().0 == cat {
            1nat
        } else {
            0nat
        }
    }
}

/// The rows of `s`, in order, keeping a row only while fewer than `cap` rows of
/// its category came before it; `cap == 0` keeps every row.
pub open spec fn cap_per_class(s: Seq<Row>, cap: nat) -> Seq<Row>
    decreases s.len(),
{
    if s.len() == 0 {
        seq![]
    } else {
        let prev = cap_per_class(s.drop_last(), cap);
        if cap == 0 || count_category(s.drop_last(), s.last().0) < cap {
            prev.push(s.last())
        } else {
            prev
        }
    }
}

/// The clips of `v`, each kept while fewer than `cap` of its category came
/// before it (all of them when `cap` is 0).
fn cap_clips(v: &Vec<Esc50Clip>, cap: usize) -> (r: Vec<Esc50Clip>)
    ensures
        clips_view(r@) == cap_per_class(clips_view(v@), cap as nat),
{
    let ghost rows = clips_view(v@);
    let mut out: Vec<Esc50Clip> = Vec::new();
    let mut k: usize = 0;
    proof {
        assert(rows.take(0) =~= Seq::<Row>::empty());
        assert(clips_view(out@) =~= Seq::<Row>::empty());
    }
    while k < v.len()
        invariant
            k <= v@.len(),
            rows == clips_view(v@),
            clips_view(out@) == cap_per_class(rows.take(k as int), cap as nat),
        decreases v@.len() - k,
    {
        let mut count: usize = 0;
        let mut j: usize = 0;
        proof {
            assert(rows.take(0) =~= Seq::<Row>::empty());
        }
        while j < k
            invariant
                j <= k < v@.len(),
                rows == clips_view(v@),
                count <= j,
                count == count_category(rows.take(j as int), v@[k as int].category@),
            decreases k - j,
        {
            proof {
                assert(rows.take(j + 1).drop_last() =~= rows.take(j as int));
                assert(rows.take(j + 1).last() == rows[j as int]);
            }
            if crate::text::str_eq(v[j].category.as_str(), v[k].category.as_str()) {
                count = count + 1;
            }
            j = j + 1;
        }
        let ghost before = clips_view(out@);
        proof {
            assert(rows.take(k + 1).drop_last() =~= rows.take(k as int));
            assert(rows.take(k + 1).last() == rows[k as int]);
        }
        if cap == 0 || count < cap {
            let c = Esc50Clip { category: v[k].category.clone(), filename: v[k].filename.clone() };
            out.push(c);
            proof {
                assert(clips_view(out@) =~= before.push(rows[k as int]));
            }
        }
        k = k + 1;
    }
    proof {
        assert(rows.take(k as int) =~= rows);
    }
    out
}

/// The row a table line gives: when the line has at least four
/// comma-separated fields and its trimmed fourth field is a wanted category,
/// that category and its trimmed first field (the file name).
pub open spec fn esc50_row(raw: Seq<char>, wanted: Seq<Seq<char>>) -> Option<Row> {
    let cols = split_on(raw, ',');
    if cols.len() < 4 {
        None
    } else {
        let category = trim(cols[3]);
        if wanted.contains(category) {
            Some((category, trim(cols[0])))
        } else {
            None
        }
    }
}

/// The rows that the lines `lines` give, in order.
pub open spec fn esc50_rows(lines: Seq<Seq<char>>, wanted: Seq<Seq<char>>) -> Seq<Row>
    decreases lines.len(),
{
    if lines.len() == 0 {
        seq![]
    } else {
        let rest = esc50_rows(lines.drop_first(), wanted);
        match esc50_row(lines[0], wanted) {
            Some(r) => seq![r] + rest,
            None => rest,
        }
    }
}

/// The rows of the table `text`: those of its lines after the header line.
pub open spec fn esc50_table_rows(text: Seq<char>, wanted: Seq<Seq<char>>) -> Seq<Row> {
    esc50_rows(split_on(text, '\n').drop_first(), wanted)
}

/// The clips chosen from the table `text`: its rows in row order, at most
/// `per_class` of each category (all of them when `per_class` is 0).
pub open spec fn esc50_selection(text: Seq<char>, wanted: Seq<Seq<char>>, per_class: nat) -> Seq<
    Row,
> {
    cap_per_class(sorted_rows(esc50_table_rows(text, wanted)), per_class)
}

/// Whether `t[lo..hi]` holds the characters of `w`.
fn span_eq(t: &Vec<char>, lo: usize, hi: usize, w: &str) -> (r: bool)
    requires
        lo <= hi <= t@.len(),
    ensures
        r == (t@.subrange(lo as int, hi as int) == w@),
{
    let m = w.unicode_len();
    if hi - lo != m {
        return false;
    }
    let mut k: usize = 0;
    while k < m
        invariant
            lo <= hi <= t@.len(),
            hi - lo == m,
            m == w@.len(),
            k <= m,
            forall|j: int| 0 <= j < k ==> t@[lo + j] == w@[j],
        decreases m - k,
    {
        if t[lo + k] != w.get_char(k) {
            proof {
                assert(t@.subrange(lo as int, hi as int)[k as int] == t@[lo + k]);
            }
            return false;
        }
        k = k + 1;
    }
    assert(t@.subrange(lo as int, hi as int) =~= w@);
    true
}

/// Whether `t[lo..hi]` is one of the names in `wanted`.
fn wanted_contains(t: &Vec<char>, lo: usize, hi: usize, wanted: &Vec<String>) -> (r: bool)
    requires
        lo <= hi <= t@.len(),
    ensures
        r == string_views(wanted@).contains(t@.subrange(lo as int, hi as int)),
{
    let ghost names = string_views(wanted@);
    let mut k: usize = 0;
    while k < wanted.len()
        invariant
            lo <= hi <= t@.len(),
            names == string_views(wanted@),
            k <= wanted@.len(),
            forall|j: int| 0 <= j < k ==> names[j] != t@.subrange(lo as int, hi as int),
        decreases wanted@.len() - k,
    {
        if span_eq(t, lo, hi, wanted[k].as_str()) {
            proof {
                assert(names[k as int] == t@.subrange(lo as int, hi as int));
            }
            return true;
        }
        k = k + 1;
    }
    proof {
        if names.contains(t@.subrange(lo as int, hi as int)) {
            let j = choose|j: int| 0 <= j < names.len() && names[j] == t@.subrange(lo as int, hi as int);
            assert(names[j] != t@.subrange(lo as int, hi as int));
        }
    }
    false
}

/// A clip seen as a row.
pub open spec fn clip_opt_view(o: Option<Esc50Clip>) -> Option<Row> {
    match o {
        None => None,
        Some(c) => Some((c.category@, c.filename@)),
    }
}

/// The row of the table line `t[a..b]`.
fn esc50_row_at(text: &str, t: &Vec<char>, a: usize, b: usize, wanted: &Vec<String>) -> (r: Option<
    Esc50Clip,
>)
    requires
        t@ == text@,
        a <= b <= t@.len(),
    ensures
        clip_opt_view(r) == esc50_row(t@.subrange(a as int, b as int), string_views(wanted@)),
{
    let ghost cols = split_on(t@.subrange(a as int, b as int), ',');
    let c1 = find_char(t, a, b, ',');
    proof {
        lemma_split_step(t@, ',', a as int, c1 as int, b as int);
    }
    if c1 == b {
        return None;
    }
    let c2 = find_char(t, c1 + 1, b, ',');
    proof {
        lemma_split_step(t@, ',', c1 + 1, c2 as int, b as int);
    }
    if c2 == b {
        return None;
    }
    let c3 = find_char(t, c2 + 1, b, ',');
    proof {
        lemma_split_step(t@, ',', c2 + 1, c3 as int, b as int);
    }
    if c3 == b {
        return None;
    }
    let c4 = find_char(t, c3 + 1, b, ',');
    proof {
        lemma_split_step(t@, ',', c3 + 1, c4 as int, b as int);
        assert(cols.len() >= 4);
        assert(cols[0] == t@.subrange(a as int, c1 as int));
        assert(cols[3] == t@.subrange(c3 + 1, c4 as int));
    }
    let (ca, cb) = trim_bounds(t, c3 + 1, c4);
    if !wanted_contains(t, ca, cb, wanted) {
        return None;
    }
    let (fa, fb) = trim_bounds(t, a, c1);
    let category = String::from_str(text.substring_char(ca, cb));
    let filename = String::from_str(text.substring_char(fa, fb));
    Some(Esc50Clip { category, filename })
}

/// Choose negative clips from the ESC-50 metadata table `text`: the rows after
/// the header whose fourth field, trimmed, names a category in `wanted`, taken
/// as (category, trimmed first field), ordered by category and then by file
/// name, with at most `per_class` of each category (all when `per_class` is 0).
pub fn select_esc50(text: &str, wanted: &Vec<String>, per_class: usize) -> (r: Vec<Esc50Clip>)
    ensures
        clips_view(r@) == esc50_selection(text@, string_views(wanted@), per_class as nat),
{
    let ghost w = string_views(wanted@);
    let t = chars_of(text);
    let n = t.len();
    let mut rows: Vec<Esc50Clip> = Vec::new();
    let q0 = find_char(&t, 0, n, '\n');
    proof {
        lemma_split_step(t@, '\n', 0, q0 as int, n as int);
        assert(t@.subrange(0, n as int) =~= t@);
    }
    if q0 < n {
        let mut p: usize = q0 + 1;
        proof {
            let lines = split_on(t@, '\n');
            assert(lines.drop_first() =~= split_on(t@.subrange(p as int, n as int), '\n'));
            assert(clips_view(rows@) =~= Seq::<Row>::empty());
        }
        loop
            invariant_except_break
                esc50_table_rows(text@, w) == clips_view(rows@) + esc50_rows(
                    split_on(t@.subrange(p as int, n as int), '\n'),
                    w,
                ),
            invariant
                t@ == text@,
                n == t@.len(),
                w == string_views(wanted@),
                p <= n,
            ensures
                esc50_table_rows(text@, w) == clips_view(rows@),
            decreases n - p,
        {
            let q = find_char(&t, p, n, '\n');
            let ghost lines = split_on(t@.subrange(p as int, n as int), '\n');
            proof {
                lemma_split_step(t@, '\n', p as int, q as int, n as int);
                if q < n {
                    assert(lines.drop_first() =~= split_on(t@.subrange(q + 1, n as int), '\n'));
                } else {
                    assert(lines.drop_first() =~= Seq::<Seq<char>>::empty());
                }
            }
            let row = esc50_row_at(text, &t, p, q, wanted);
            let ghost rv = clip_opt_view(row);
            let ghost before = clips_view(rows@);
            match row {
                None => {},
                Some(c) => {
                    rows.push(c);
                },
            }
            let ghost rest = esc50_rows(lines.drop_first(), w);
            proof {
                match rv {
                    Some(r) => {
                        assert(clips_view(rows@) =~= before.push(r));
                        assert(before + (seq![r] + rest) =~= before.push(r) + rest);
                    },
                    None => {
                        assert(clips_view(rows@) =~= before);
                    },
                }
                assert(esc50_table_rows(text@, w) == clips_view(rows@) + rest);
            }
            if q == n {
                proof {
                    assert(rest =~= Seq::<Row>::empty());
                    assert(clips_view(rows@) + rest =~= clips_view(rows@));
                }
                break ;
            }
            p = q + 1;
        }
    } else {
        proof {
            assert(split_on(t@, '\n').drop_first() =~= Seq::<Seq<char>>::empty());
            assert(clips_view(rows@) =~= Seq::<Row>::empty());
        }
    }
    assert(esc50_table_rows(text@, w) == clips_view(rows@));
    let sorted = sort_clips(&rows);
    proof {
        lemma_sorted_rows_is(clips_view(rows@), clips_view(sorted@));
    }
    cap_clips(&sorted, per_class)
}

/// The choice depends only on which rows the table holds, not on the order
/// in which its lines list them.
pub proof fn lemma_selection_ignores_row_order(a: Seq<Row>, b: Seq<Row>, cap: nat)
    requires
        a.to_multiset() == b.to_multiset(),
    ensures
        cap_per_class(sorted_rows(a), cap) == cap_per_class(sorted_rows(b), cap),
{
    lemma_sorted_rows(a);
    lemma_sorted_rows(b);
    lemma_sorted_rows_unique(sorted_rows(a), sorted_rows(b));
}

/// Of each category, the cap keeps `cap` rows when there are more, and all of
/// them otherwise (all of them too when `cap` is 0).
pub proof fn lemma_cap_per_class_counts(s: Seq<Row>, cap: nat, cat: Seq<char>)
    ensures
        count_category(cap_per_class(s, cap), cat) == (if cap == 0 || count_category(s, cat)
            < cap {
            count_category(s, cat)
        } else {
            cap
        }),
    decreases s.len(),
{
    if s.len() > 0 {
        let prev = cap_per_class(s.drop_last(), cap);
        lemma_cap_per_class_counts(s.drop_last(), cap, cat);
        if cap == 0 || count_category(s.drop_last(), s.last().0) < cap {
            assert(prev.push(s.last()).drop_last() =~= prev);
        }
    }
}

/// The rows the cap keeps are rows of `s`, in the order of `s`.
proof fn lemma_cap_per_class_subsequence(s: Seq<Row>, cap: nat)
    ensures
        forall|i: int| 0 <= i < cap_per_class(s, cap).len() ==> s.contains(
            #[trigger] cap_per_class(s, cap)[i],
        ),
        rows_sorted(s) ==> rows_sorted(cap_per_class(s, cap)),
    decreases s.len(),
{
    if s.len() > 0 {
        let t = s.drop_last();
        let prev = cap_per_class(t, cap);
        let r = cap_per_class(s, cap);
        lemma_cap_per_class_subsequence(t, cap);
        assert forall|i: int| 0 <= i < prev.len() implies s.contains(#[trigger] prev[i]) by {
            let k = choose|k: int| 0 <= k < t.len() && t[k] == prev[i];
            assert(s[k] == t[k]);
        }
        if rows_sorted(s) {
            assert forall|i: int, j: int| 0 <= i < j < t.len() implies !row_lt(
                #[trigger] t[j],
                #[trigger] t[i],
            ) by {
                assert(t[i] == s[i] && t[j] == s[j]);
            }
        }
        if cap == 0 || count_category(t, s.last().0) < cap {
            assert forall|i: int| 0 <= i < r.len() implies s.contains(#[trigger] r[i]) by {
                if i < prev.len() {
                    assert(r[i] == prev[i]);
                } else {
                    assert(r[i] == s[s.len() - 1]);
                }
            }
            if rows_sorted(s) {
                assert forall|i: int, j: int| 0 <= i < j < r.len() implies !row_lt(
                    #[trigger] r[j],
                    #[trigger] r[i],
                ) by {
                    if j < prev.len() {
                        assert(r[i] == prev[i] && r[j] == prev[j]);
                    } else {
                        assert(r[i] == prev[i]);
                        let k = choose|k: int| 0 <= k < t.len() && t[k] == prev[i];
                        assert(s[k] == prev[i]);
                        assert(!row_lt(s[s.len() - 1], s[k]));
                    }
                }
            }
        }
    }
}

proof fn lemma_esc50_rows_wanted(lines: Seq<Seq<char>>, wanted: Seq<Seq<char>>)
    ensures
        forall|i: int| 0 <= i < esc50_rows(lines, wanted).len() ==> wanted.contains(
            (#[trigger] esc50_rows(lines, wanted)[i]).0,
        ),
    decreases lines.len(),
{
    if lines.len() > 0 {
        lemma_esc50_rows_wanted(lines.drop_first(), wanted);
        let rest = esc50_rows(lines.drop_first(), wanted);
        let all = esc50_rows(lines, wanted);
        match esc50_row(lines[0], wanted) {
            Some(r) => {
                assert forall|i: int| 0 <= i < all.len() implies wanted.contains(
                    (#[trigger] all[i]).0,
                ) by {
                    if i > 0 {
                        assert(all[i] == rest[i - 1]);
                    }
                }
            },
            None => {},
        }
    }
}

/// The chosen clips come in row order, and each is a row of the table whose
/// category is a wanted one.
pub proof fn lemma_selection_from_table(text: Seq<char>, wanted: Seq<Seq<char>>, cap: nat)
    ensures
        rows_sorted(esc50_selection(text, wanted, cap)),
        forall|i: int| 0 <= i < esc50_selection(text, wanted, cap).len() ==> {
            let r = #[trigger] esc50_selection(text, wanted, cap)[i];
            esc50_table_rows(text, wanted).contains(r) && wanted.contains(r.0)
        },
{
    broadcast use group_to_multiset_ensures;

    let rows = esc50_table_rows(text, wanted);
    let sorted = sorted_rows(rows);
    let sel = esc50_selection(text, wanted, cap);
    lemma_sorted_rows(rows);
    lemma_cap_per_class_subsequence(sorted, cap);
    lemma_esc50_rows_wanted(split_on(text, '\n').drop_first(), wanted);
    assert forall|i: int| 0 <= i < sel.len() implies {
        let r = #[trigger] sel[i];
        rows.contains(r) && wanted.contains(r.0)
    } by {
        let r = sel[i];
        assert(sorted.contains(r));
        assert(sorted.to_multiset().count(r) > 0);
        assert(rows.to_multiset().count(r) > 0);
        assert(rows.contains(r));
        let k = choose|k: int| 0 <= k < rows.len() && rows[k] == r;
        assert(wanted.contains(rows[k].0));
    }
}

} // verus!
