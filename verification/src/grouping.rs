//! Grouping evaluation results by a name (a drone brand, an ESC-50 category):
//! the distinct names in sorted order, each with the positions that carry it.

use vstd::prelude::*;
use vstd::string::*;
use crate::text::{
    chars_lt, lemma_chars_lt_irreflexive, lemma_chars_lt_total, lemma_chars_lt_transitive, str_eq,
    str_lt, string_views,
};

verus! {

/// Positions of `names` that hold `key`, in increasing order.
pub open spec fn positions_named(names: Seq<Seq<char>>, key: Seq<char>) -> Seq<usize>
    decreases names.len(),
{
    if names.len() == 0 {
        Seq::empty()
    } else {
        let prev = positions_named(names.drop_last(), key);
        if names.last() == key {
            prev.push((names.len() - 1) as usize)
        } else {
            prev
        }
    }
}

/// The groups seen as (name, positions).
pub open spec fn groups_view(g: Seq<(String, Vec<usize>)>) -> Seq<(Seq<char>, Seq<usize>)> {
    g.map_values(|e: (String, Vec<usize>)| (e.0@, e.1@))
}

/// Whether `keys` is strictly increasing.
pub open spec fn strictly_sorted(keys: Seq<Seq<char>>) -> bool {
    forall|a: int, b: int| 0 <= a < b < keys.len() ==> chars_lt(#[trigger] keys[a], #[trigger] keys[b])
}

/// The names of the groups `g`, in order.
pub open spec fn group_names(g: Seq<(Seq<char>, Seq<usize>)>) -> Seq<Seq<char>> {
    g.map_values(|e: (Seq<char>, Seq<usize>)| e.0)
}

/// The grouping of `names`: one group per distinct name, in increasing name
/// order, listing the positions that hold it.
pub open spec fn is_grouping(g: Seq<(Seq<char>, Seq<usize>)>, names: Seq<Seq<char>>) -> bool {
    &&& strictly_sorted(group_names(g))
    &&& forall|k: int| 0 <= k < g.len() ==> #[trigger] g[k].1 == positions_named(names, g[k].0)
    &&& forall|k: int| 0 <= k < g.len() ==> names.contains(#[trigger] g[k].0)
    &&& forall|i: int| 0 <= i < names.len() ==> group_names(g).contains(#[trigger] names[i])
}

proof fn lemma_positions_named_take(names: Seq<Seq<char>>, key: Seq<char>, i: int)
    requires
        0 <= i < names.len(),
    ensures
        positions_named(names.take(i + 1), key) == (if names[i] == key {
            positions_named(names.take(i), key).push(i as usize)
        } else {
            positions_named(names.take(i), key)
        }),
{
    assert(names.take(i + 1).drop_last() =~= names.take(i));
}

/// The positions of `names` holding `key`.
fn positions_of(names: &Vec<String>, key: &str) -> (r: Vec<usize>)
    ensures
        r@ == positions_named(string_views(names@), key@),
{
    let ghost w = string_views(names@);
    let n = names.len();
    let mut out: Vec<usize> = Vec::new();
    let mut i: usize = 0;
    while i < n
        invariant
            n == names@.len(),
            w == string_views(names@),
            i <= n,
            out@ == positions_named(w.take(i as int), key@),
        decreases n - i,
    {
        proof {
            lemma_positions_named_take(w, key@, i as int);
            assert(w[i as int] == names@[i as int]@);
        }
        if str_eq(names[i].as_str(), key) {
            out.push(i);
        }
        i = i + 1;
    }
    assert(w.take(n as int) =~= w);
    out
}

/// Where `x` sits among the sorted names `keys`: the first position whose
/// name is not below `x`, and whether that name is `x`.
fn find_slot(keys: &Vec<String>, x: &str) -> (r: (usize, bool))
    requires
        strictly_sorted(string_views(keys@)),
    ensures
        r.0 <= keys@.len(),
        forall|q: int| 0 <= q < r.0 ==> chars_lt(#[trigger] keys@[q]@, x@),
        r.1 ==> r.0 < keys@.len() && keys@[r.0 as int]@ == x@,
        !r.1 ==> r.0 == keys@.len() || chars_lt(x@, keys@[r.0 as int]@),
{
    let mut pos: usize = 0;
    while pos < keys.len()
        invariant
            pos <= keys@.len(),
            forall|q: int| 0 <= q < pos ==> chars_lt(#[trigger] keys@[q]@, x@),
        decreases keys@.len() - pos,
    {
        if str_eq(keys[pos].as_str(), x) {
            return (pos, true);
        }
        if str_lt(x, keys[pos].as_str()) {
            return (pos, false);
        }
        proof {
            lemma_chars_lt_total(keys@[pos as int]@, x@);
        }
        pos = pos + 1;
    }
    (pos, false)
}

/// The distinct names of `names`, in increasing order.
fn sorted_distinct(names: &Vec<String>) -> (r: Vec<String>)
    ensures
        strictly_sorted(string_views(r@)),
        forall|k: int| 0 <= k < r@.len() ==> string_views(names@).contains(#[trigger] r@[k]@),
        forall|i: int| 0 <= i < names@.len() ==> string_views(r@).contains(#[trigger] names@[i]@),
{
    let ghost w = string_views(names@);
    let n = names.len();
    let mut keys: Vec<String> = Vec::new();
    let mut i: usize = 0;
    while i < n
        invariant
            n == names@.len(),
            w == string_views(names@),
            i <= n,
            strictly_sorted(string_views(keys@)),
            forall|k: int| 0 <= k < keys@.len() ==> w.contains(#[trigger] keys@[k]@),
            forall|j: int| 0 <= j < i ==> string_views(keys@).contains(#[trigger] names@[j]@),
        decreases n - i,
    {
        let ghost kv = string_views(keys@);
        proof {
            assert forall|k: int| 0 <= k < kv.len() implies w.contains(#[trigger] kv[k]) by {
                assert(kv[k] == keys@[k]@);
            }
            assert forall|q: int| 0 <= q < kv.len() implies kv[q] == #[trigger] keys@[q]@ by {}
        }
        let (pos, found) = find_slot(&keys, names[i].as_str());
        if found {
            proof {
                assert(kv[pos as int] == names@[i as int]@);
                assert(kv.contains(names@[i as int]@));
            }
        } else {
            let x = names[i].clone();
            let ghost xv = x@;
            proof {
                assert(w[i as int] == xv);
                assert forall|q: int| 0 <= q < pos implies chars_lt(#[trigger] kv[q], xv) by {
                    assert(kv[q] == keys@[q]@);
                }
                if pos < kv.len() {
                    assert(kv[pos as int] == keys@[pos as int]@);
                    assert(chars_lt(xv, kv[pos as int]));
                }
            }
            keys.insert(pos, x);
            proof {
                let nk = string_views(keys@);
                assert(nk =~= kv.insert(pos as int, xv));
                assert forall|a: int, b: int| 0 <= a < b < nk.len() implies chars_lt(
                    #[trigger] nk[a],
                    #[trigger] nk[b],
                ) by {
                    if b < pos {
                        assert(nk[a] == kv[a] && nk[b] == kv[b]);
                    } else if b == pos {
                        assert(nk[a] == kv[a]);
                    } else if a > pos {
                        assert(nk[a] == kv[a - 1] && nk[b] == kv[b - 1]);
                    } else if a < pos {
                        assert(nk[a] == kv[a] && nk[b] == kv[b - 1]);
                        assert(chars_lt(kv[a], kv[b - 1]));
                    } else {
                        assert(nk[a] == xv);
                        assert(nk[b] == kv[b - 1]);
                        if b - 1 > pos {
                            assert(chars_lt(kv[pos as int], kv[b - 1]));
                            lemma_chars_lt_transitive(xv, kv[pos as int], kv[b - 1]);
                        }
                    }
                }
                assert forall|k: int| 0 <= k < keys@.len() implies w.contains(
                    #[trigger] keys@[k]@,
                ) by {
                    assert(keys@[k]@ == nk[k]);
                    if k < pos {
                        assert(w.contains(kv[k]));
                    } else if k > pos {
                        assert(w.contains(kv[k - 1]));
                    }
                }
                assert forall|j: int| 0 <= j < i + 1 implies nk.contains(#[trigger] names@[j]@) by {
                    if j < i {
                        assert(kv.contains(names@[j]@));
                        let q = choose|q: int| 0 <= q < kv.len() && kv[q] == names@[j]@;
                        if q < pos {
                            assert(nk[q] == kv[q]);
                        } else {
                            assert(nk[q + 1] == kv[q]);
                        }
                    } else {
                        assert(nk[pos as int] == xv);
                    }
                }
            }
        }
        i = i + 1;
    }
    keys
}

/// Group the positions of `names` by name: one group per distinct name, in
/// increasing name order, each listing the positions holding that name in
/// increasing order.
pub fn group_by_name(names: &Vec<String>) -> (r: Vec<(String, Vec<usize>)>)
    ensures
        is_grouping(groups_view(r@), string_views(names@)),
{
    let ghost w = string_views(names@);
    let keys = sorted_distinct(names);
    let mut out: Vec<(String, Vec<usize>)> = Vec::new();
    let mut g: usize = 0;
    while g < keys.len()
        invariant
            w == string_views(names@),
            g <= keys@.len(),
            strictly_sorted(string_views(keys@)),
            forall|k: int| 0 <= k < keys@.len() ==> w.contains(#[trigger] keys@[k]@),
            forall|i: int| 0 <= i < names@.len() ==> string_views(keys@).contains(#[trigger] names@[i]@),
            group_names(groups_view(out@)) =~= string_views(keys@).take(
                g as int,
            ),
            forall|k: int| 0 <= k < out@.len() ==> #[trigger] groups_view(out@)[k].1
                == positions_named(w, groups_view(out@)[k].0),
        decreases keys@.len() - g,
    {
        let ghost before = groups_view(out@);
        let positions = positions_of(names, keys[g].as_str());
        let key = keys[g].clone();
        let ghost e = (key@, positions@);
        out.push((key, positions));
        proof {
            assert(groups_view(out@) =~= before.push(e));
            assert(string_views(keys@).take(g + 1) =~= string_views(keys@).take(g as int).push(
                keys@[g as int]@,
            ));
            assert(group_names(groups_view(out@)) =~= group_names(before).push(e.0));
        }
        g = g + 1;
    }
    proof {
        let gv = groups_view(out@);
        let kv = string_views(keys@);
        assert(kv.take(g as int) =~= kv);
        assert(group_names(gv) == kv);
        assert(strictly_sorted(group_names(gv)));
        assert forall|k: int| 0 <= k < gv.len() implies w.contains(#[trigger] gv[k].0) by {
            assert(group_names(gv)[k] == gv[k].0);
            assert(kv[k] == keys@[k]@);
        }
        assert forall|i: int| 0 <= i < w.len() implies group_names(gv).contains(#[trigger] w[i]) by {
            assert(w[i] == names@[i]@);
            assert(kv.contains(names@[i]@));
        }
    }
    out
}

proof fn lemma_positions_named(names: Seq<Seq<char>>, key: Seq<char>)
    requires
        names.len() <= usize::MAX,
    ensures
        forall|p: int| 0 <= p < names.len() ==> (positions_named(names, key).contains(p as usize)
            <==> names[p] == key),
        forall|k: int| 0 <= k < positions_named(names, key).len() ==> #[trigger] positions_named(
            names,
            key,
        )[k] < names.len(),
    decreases names.len(),
{
    if names.len() > 0 {
        let t = names.drop_last();
        let prev = positions_named(t, key);
        let cur = positions_named(names, key);
        lemma_positions_named(t, key);
        assert forall|p: int| 0 <= p < names.len() implies (cur.contains(p as usize) <==> names[p]
            == key) by {
            if p < t.len() {
                assert(t[p] == names[p]);
                if cur.contains(p as usize) {
                    let k = choose|k: int| 0 <= k < cur.len() && cur[k] == p as usize;
                    if k < prev.len() {
                        assert(prev[k] == cur[k]);
                    }
                }
                if prev.contains(p as usize) {
                    let k = choose|k: int| 0 <= k < prev.len() && prev[k] == p as usize;
                    if names.last() == key {
                        assert(cur[k] == prev[k]);
                    }
                }
            } else {
                if names.last() == key {
                    assert(cur[cur.len() - 1] == (names.len() - 1) as usize);
                } else if cur.contains(p as usize) {
                    let k = choose|k: int| 0 <= k < cur.len() && cur[k] == p as usize;
                    assert(prev[k] < t.len());
                }
            }
        }
    }
}

/// Law: a grouping partitions the positions — position `i` is listed by the
/// group named `names[i]` and by no other group, and no two groups share a
/// name.
pub proof fn lemma_grouping_partitions(g: Seq<(Seq<char>, Seq<usize>)>, names: Seq<Seq<char>>)
    requires
        is_grouping(g, names),
        names.len() <= usize::MAX,
    ensures
        forall|i: int, k: int|
            0 <= i < names.len() && 0 <= k < g.len() ==> (#[trigger] g[k].1.contains(i as usize)
                <==> g[k].0 == #[trigger] names[i]),
        forall|a: int, b: int| 0 <= a < b < g.len() ==> #[trigger] g[a].0 != #[trigger] g[b].0,
{
    assert forall|i: int, k: int|
        0 <= i < names.len() && 0 <= k < g.len() implies (#[trigger] g[k].1.contains(i as usize)
        <==> g[k].0 == #[trigger] names[i]) by {
        lemma_positions_named(names, g[k].0);
    }
    assert forall|a: int, b: int| 0 <= a < b < g.len() implies #[trigger] g[a].0
        != #[trigger] g[b].0 by {
        assert(group_names(g)[a] == g[a].0 && group_names(g)[b] == g[b].0);
        assert(chars_lt(group_names(g)[a], group_names(g)[b]));
        lemma_chars_lt_irreflexive(g[a].0);
    }
}

} // verus!
