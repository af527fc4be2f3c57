//! Deterministic, class-stratified partitions of a labelled dataset.
//!
//! Samples are identified by their position in the dataset and classified by
//! a label byte (`1` = drone, `0` = no drone). Every partition here works per
//! class: class 0 first, then class 1.

use vstd::prelude::*;
use vstd::seq_lib::*;
use crate::rng::{Xorshift, xorshift32_step};
use crate::shuffle::{fisher_yates32, lemma_fisher_yates32_permutes, shuffle32};

verus! {

/// Positions of the samples whose label is `class`, in dataset order.
pub open spec fn indices_with_label(labels: Seq<u8>, class: u8) -> Seq<usize>
    decreases labels.len(),
{
    if labels.len() == 0 {
        Seq::empty()
    } else {
        let prev = indices_with_label(labels.drop_last(), class);
        if labels.last() == class {
            prev.push((labels.len() - 1) as usize)
        } else {
            prev
        }
    }
}

/// Every listed position is in range, carries the label, and the list is
/// strictly increasing (so it holds no position twice).
pub proof fn lemma_indices_with_label(labels: Seq<u8>, class: u8)
    requires
        labels.len() <= usize::MAX,
    ensures
        forall|k: int|
            0 <= k < indices_with_label(labels, class).len() ==> {
                let p = #[trigger] indices_with_label(labels, class)[k];
                &&& p < labels.len()
                &&& labels[p as int] == class
            },
        forall|a: int, b: int|
            0 <= a < b < indices_with_label(labels, class).len() ==> indices_with_label(
                labels,
                class,
            )[a] < indices_with_label(labels, class)[b],
        forall|p: int|
            0 <= p < labels.len() && labels[p] == class ==> indices_with_label(
                labels,
                class,
            ).contains(p as usize),
        indices_with_label(labels, class).len() <= labels.len(),
    decreases labels.len(),
{
    if labels.len() > 0 {
        let prev_labels = labels.drop_last();
        lemma_indices_with_label(prev_labels, class);
        let prev = indices_with_label(prev_labels, class);
        let cur = indices_with_label(labels, class);
        assert forall|p: int| 0 <= p < labels.len() && labels[p] == class implies cur.contains(
            p as usize,
        ) by {
            if p < labels.len() - 1 {
                assert(prev_labels[p] == class);
                let k = choose|k: int| 0 <= k < prev.len() && #[trigger] prev[k] == p as usize;
                assert(cur[k] == p as usize);
            } else {
                assert(cur[cur.len() - 1] == p as usize);
            }
        }
    }
}

/// The labels seen up to position `i` extend by one label at a time.
proof fn lemma_take_push(labels: Seq<u8>, i: int)
    requires
        0 <= i < labels.len(),
    ensures
        labels.take(i + 1).drop_last() == labels.take(i),
        labels.take(i + 1).last() == labels[i],
        labels.take(i + 1).len() == i + 1,
{
    assert(labels.take(i + 1).drop_last() =~= labels.take(i));
}

/// Positions of the samples labelled `class`, in dataset order.
pub fn class_indices(labels: &Vec<u8>, class: u8) -> (r: Vec<usize>)
    ensures
        r@ == indices_with_label(labels@, class),
{
    let n = labels.len();
    let mut r: Vec<usize> = Vec::new();
    let mut i: usize = 0;
    while i < n
        invariant
            n == labels@.len(),
            i <= n,
            r@ == indices_with_label(labels@.take(i as int), class),
        decreases n - i,
    {
        proof {
            lemma_take_push(labels@, i as int);
        }
        if labels[i] == class {
            r.push(i);
        }
        i = i + 1;
    }
    assert(labels@.take(n as int) =~= labels@);
    r
}

/// Number of samples labelled `class` (the drone count for `class == 1`).
pub fn count_label(labels: &Vec<u8>, class: u8) -> (r: usize)
    ensures
        r == indices_with_label(labels@, class).len(),
{
    let n = labels.len();
    let mut r: usize = 0;
    let mut i: usize = 0;
    while i < n
        invariant
            n == labels@.len(),
            i <= n,
            r == indices_with_label(labels@.take(i as int), class).len(),
            r <= i,
        decreases n - i,
    {
        proof {
            lemma_take_push(labels@, i as int);
        }
        if labels[i] == class {
            r = r + 1;
        }
        i = i + 1;
    }
    assert(labels@.take(n as int) =~= labels@);
    r
}

/// The smaller of two integers.
pub open spec fn min_int(a: int, b: int) -> int {
    if a <= b {
        a
    } else {
        b
    }
}

/// The stratified train/test split: within each class the positions are
/// shuffled by one shared 32-bit xorshift stream seeded with `seed` (class 0
/// first), the first `cut0` (resp. `cut1`) go to train and the rest to test.
/// Returns `(train, test)`, each listing class 0 before class 1.
pub open spec fn stratified_split_spec(labels: Seq<u8>, cut0: nat, cut1: nat, seed: u32) -> (
    Seq<usize>,
    Seq<usize>,
) {
    let i0 = indices_with_label(labels, 0);
    let i1 = indices_with_label(labels, 1);
    let start = if seed == 0 { 1u32 } else { seed };
    let (s0, st) = fisher_yates32(i0, start, i0.len() - 1);
    let (s1, _) = fisher_yates32(i1, st, i1.len() - 1);
    let c0 = min_int(cut0 as int, s0.len() as int);
    let c1 = min_int(cut1 as int, s1.len() as int);
    (s0.take(c0) + s1.take(c1), s0.skip(c0) + s1.skip(c1))
}

/// Append `s[from..]` to `out` if `to_train` is false, `s[..cut]` otherwise.
fn push_ranks(s: &Vec<usize>, cut: usize, out_train: &mut Vec<usize>, out_test: &mut Vec<usize>)
    ensures
        final(out_train)@ == old(out_train)@ + s@.take(min_int(cut as int, s@.len() as int)),
        final(out_test)@ == old(out_test)@ + s@.skip(min_int(cut as int, s@.len() as int)),
{
    let n = s.len();
    let c = if cut < n { cut } else { n };
    let mut rank: usize = 0;
    while rank < n
        invariant
            n == s@.len(),
            c == min_int(cut as int, n as int),
            rank <= n,
            out_train@ == old(out_train)@ + s@.take(min_int(rank as int, c as int)),
            out_test@ == old(out_test)@ + s@.subrange(
                c as int,
                if rank < c { c as int } else { rank as int },
            ),
        decreases n - rank,
    {
        if rank < c {
            out_train.push(s[rank]);
            assert(s@.take(rank + 1) =~= s@.take(rank as int).push(s@[rank as int]));
        } else {
            out_test.push(s[rank]);
            assert(s@.subrange(c as int, rank + 1) =~= s@.subrange(c as int, rank as int).push(
                s@[rank as int],
            ));
        }
        rank = rank + 1;
    }
    assert(s@.subrange(c as int, n as int) =~= s@.skip(c as int));
}

/// Stratified, deterministic train/test split of the samples labelled 0 or 1.
///
/// `cut0` and `cut1` are how many samples of class 0 and class 1 go to train
/// (a cut beyond the class size takes the whole class). Returns the train and
/// test positions.
pub fn stratified_split(labels: &Vec<u8>, cut0: usize, cut1: usize, seed: u32) -> (r: (
    Vec<usize>,
    Vec<usize>,
))
    ensures
        (r.0@, r.1@) == stratified_split_spec(labels@, cut0 as nat, cut1 as nat, seed),
{
    let mut rng = Xorshift::new(seed);
    let mut train: Vec<usize> = Vec::new();
    let mut test: Vec<usize> = Vec::new();
    let mut idx0 = class_indices(labels, 0);
    shuffle32(&mut idx0, &mut rng);
    push_ranks(&idx0, cut0, &mut train, &mut test);
    let mut idx1 = class_indices(labels, 1);
    shuffle32(&mut idx1, &mut rng);
    let ghost t0 = train@;
    push_ranks(&idx1, cut1, &mut train, &mut test);
    assert(train@ =~= t0 + idx1@.take(min_int(cut1 as int, idx1@.len() as int)));
    (train, test)
}

/// Law: the stratified split is a partition of the labelled samples — every
/// sample labelled 0 or 1 lands in exactly one of train and test, and train
/// holds exactly the requested number of each class (capped by class size).
pub proof fn lemma_stratified_split_partitions(labels: Seq<u8>, cut0: nat, cut1: nat, seed: u32)
    requires
        labels.len() <= usize::MAX,
    ensures
        ({
            let (train, test) = stratified_split_spec(labels, cut0, cut1, seed);
            let i0 = indices_with_label(labels, 0);
            let i1 = indices_with_label(labels, 1);
            &&& (train + test).to_multiset() =~= (i0 + i1).to_multiset()
            &&& train.len() == min_int(cut0 as int, i0.len() as int) + min_int(
                cut1 as int,
                i1.len() as int,
            )
        }),
{
    broadcast use group_to_multiset_ensures;
    broadcast use vstd::multiset::group_multiset_properties;

    let i0 = indices_with_label(labels, 0);
    let i1 = indices_with_label(labels, 1);
    lemma_indices_with_label(labels, 0);
    lemma_indices_with_label(labels, 1);
    let start = if seed == 0 { 1u32 } else { seed };
    let (s0, st) = fisher_yates32(i0, start, i0.len() - 1);
    let (s1, _) = fisher_yates32(i1, st, i1.len() - 1);
    lemma_fisher_yates32_permutes(i0, start, i0.len() - 1);
    lemma_fisher_yates32_permutes(i1, st, i1.len() - 1);
    let c0 = min_int(cut0 as int, s0.len() as int);
    let c1 = min_int(cut1 as int, s1.len() as int);
    let (train, test) = stratified_split_spec(labels, cut0, cut1, seed);
    lemma_multiset_commutative(s0.take(c0), s1.take(c1));
    lemma_multiset_commutative(train, test);
    assert(s0 =~= s0.take(c0) + s0.skip(c0));
    assert(s1 =~= s1.take(c1) + s1.skip(c1));
    lemma_multiset_commutative(s0.take(c0), s0.skip(c0));
    lemma_multiset_commutative(s1.take(c1), s1.skip(c1));
    lemma_multiset_commutative(s0.take(c0), s1.take(c1));
    lemma_multiset_commutative(s0.skip(c0), s1.skip(c1));
    lemma_multiset_commutative(s0, s1);
    lemma_multiset_commutative(i0, i1);
}


/// Fold ids after giving the `r` first positions of `order` the folds
/// `0, 1, ..., k-1, 0, 1, ...` in rank order.
pub open spec fn assign_folds(fold: Seq<usize>, order: Seq<usize>, k: nat, r: int) -> Seq<usize>
    decreases r,
{
    if r <= 0 {
        fold
    } else {
        assign_folds(fold, order, k, r - 1).update(order[r - 1] as int, ((r - 1) % (k as int)) as usize)
    }
}

/// Stratified k-fold assignment: within each class the positions are shuffled
/// by one shared 32-bit xorshift stream seeded with `seed` (class 0 first) and
/// dealt round-robin into folds `0..k`; samples of any other label stay in
/// fold 0.
pub open spec fn kfold_spec(labels: Seq<u8>, k: nat, seed: u32) -> Seq<usize> {
    let i0 = indices_with_label(labels, 0);
    let i1 = indices_with_label(labels, 1);
    let start = if seed == 0 { 1u32 } else { seed };
    let (s0, st) = fisher_yates32(i0, start, i0.len() - 1);
    let (s1, _) = fisher_yates32(i1, st, i1.len() - 1);
    let zero = Seq::new(labels.len(), |i: int| 0usize);
    assign_folds(assign_folds(zero, s0, k, s0.len() as int), s1, k, s1.len() as int)
}

fn deal_folds(fold_of: &mut Vec<usize>, order: &Vec<usize>, k: usize)
    requires
        k > 0 || order@.len() == 0,
        forall|r: int| 0 <= r < order@.len() ==> #[trigger] order@[r] < old(fold_of)@.len(),
    ensures
        final(fold_of)@ == assign_folds(old(fold_of)@, order@, k as nat, order@.len() as int),
        final(fold_of)@.len() == old(fold_of)@.len(),
{
    let n = order.len();
    let mut rank: usize = 0;
    while rank < n
        invariant
            n == order@.len(),
            rank <= n,
            k > 0 || n == 0,
            fold_of@.len() == old(fold_of)@.len(),
            forall|r: int| 0 <= r < order@.len() ==> #[trigger] order@[r] < old(fold_of)@.len(),
            fold_of@ == assign_folds(old(fold_of)@, order@, k as nat, rank as int),
        decreases n - rank,
    {
        fold_of.set(order[rank], rank % k);
        rank = rank + 1;
    }
}

/// Stratified k-fold assignment: the fold id of every sample. `k` must be
/// positive unless no sample is labelled 0 or 1.
pub fn kfold_assignment(labels: &Vec<u8>, k: usize, seed: u32) -> (r: Vec<usize>)
    requires
        k > 0 || (indices_with_label(labels@, 0).len() == 0 && indices_with_label(labels@, 1).len()
            == 0),
    ensures
        r@ == kfold_spec(labels@, k as nat, seed),
{
    let n = labels.len();
    proof {
        lemma_indices_with_label(labels@, 0);
        lemma_indices_with_label(labels@, 1);
    }
    let mut fold_of: Vec<usize> = Vec::new();
    let mut i: usize = 0;
    while i < n
        invariant
            i <= n,
            fold_of@ =~= Seq::new(i as nat, |j: int| 0usize),
        decreases n - i,
    {
        fold_of.push(0);
        i = i + 1;
    }
    let mut rng = Xorshift::new(seed);
    let mut idx0 = class_indices(labels, 0);
    proof {
        lemma_fisher_yates32_permutes(idx0@, rng@, idx0@.len() - 1);
    }
    shuffle32(&mut idx0, &mut rng);
    proof {
        lemma_permutation_in_range(idx0@, indices_with_label(labels@, 0), n as int);
    }
    deal_folds(&mut fold_of, &idx0, k);
    let mut idx1 = class_indices(labels, 1);
    proof {
        lemma_fisher_yates32_permutes(idx1@, rng@, idx1@.len() - 1);
    }
    shuffle32(&mut idx1, &mut rng);
    proof {
        lemma_permutation_in_range(idx1@, indices_with_label(labels@, 1), n as int);
    }
    deal_folds(&mut fold_of, &idx1, k);
    fold_of
}

/// A permutation of a sequence of in-range positions holds in-range positions.
proof fn lemma_permutation_in_range(s: Seq<usize>, t: Seq<usize>, n: int)
    requires
        s.to_multiset() =~= t.to_multiset(),
        forall|k: int| 0 <= k < t.len() ==> #[trigger] t[k] < n,
    ensures
        forall|k: int| 0 <= k < s.len() ==> #[trigger] s[k] < n,
{
    broadcast use group_to_multiset_ensures;

    assert forall|k: int| 0 <= k < s.len() implies #[trigger] s[k] < n by {
        assert(s.contains(s[k]));
        assert(t.to_multiset().count(s[k]) > 0);
        assert(t.contains(s[k]));
    }
}


/// Dealing folds keeps the length, gives the `q`-th listed position fold
/// `q mod k`, and leaves every unlisted position untouched.
pub proof fn lemma_assign_folds(fold: Seq<usize>, order: Seq<usize>, k: nat, r: int)
    requires
        0 < k <= usize::MAX,
        0 <= r <= order.len(),
        order.no_duplicates(),
        forall|q: int| 0 <= q < order.len() ==> #[trigger] order[q] < fold.len(),
    ensures
        assign_folds(fold, order, k, r).len() == fold.len(),
        forall|q: int|
            0 <= q < r ==> assign_folds(fold, order, k, r)[#[trigger] order[q] as int] == (q % (
            k as int)) as usize,
        forall|p: int|
            0 <= p < fold.len() && !order.take(r).contains(p as usize) ==> assign_folds(
                fold,
                order,
                k,
                r,
            )[p] == fold[p],
    decreases r,
{
    if r > 0 {
        lemma_assign_folds(fold, order, k, r - 1);
        assert forall|p: int|
            0 <= p < fold.len() && !order.take(r).contains(p as usize) implies assign_folds(
            fold,
            order,
            k,
            r,
        )[p] == fold[p] by {
            assert(order.take(r)[r - 1] == order[r - 1]);
            if order.take(r - 1).contains(p as usize) {
                let q = choose|q: int| 0 <= q < r - 1 && #[trigger] order.take(r - 1)[q] == p as usize;
                assert(order.take(r)[q] == p as usize);
            }
        }
    }
}

/// Every fold id dealt is below `k` when the starting ids are.
pub proof fn lemma_assign_folds_bounded(fold: Seq<usize>, order: Seq<usize>, k: nat, r: int)
    requires
        0 < k <= usize::MAX,
        0 <= r <= order.len(),
        forall|q: int| 0 <= q < order.len() ==> #[trigger] order[q] < fold.len(),
        forall|p: int| 0 <= p < fold.len() ==> #[trigger] fold[p] < k,
    ensures
        forall|p: int|
            0 <= p < assign_folds(fold, order, k, r).len() ==> #[trigger] assign_folds(
                fold,
                order,
                k,
                r,
            )[p] < k,
        assign_folds(fold, order, k, r).len() == fold.len(),
    decreases r,
{
    if r > 0 {
        lemma_assign_folds_bounded(fold, order, k, r - 1);
    }
}

/// A permutation of a strictly increasing sequence has no repeated element.
proof fn lemma_permutation_distinct(s: Seq<usize>, t: Seq<usize>)
    requires
        s.to_multiset() =~= t.to_multiset(),
        forall|a: int, b: int| 0 <= a < b < t.len() ==> t[a] < t[b],
    ensures
        s.no_duplicates(),
{
    assert(t.no_duplicates()) by {
        assert forall|a: int, b: int| 0 <= a < t.len() && 0 <= b < t.len() && a != b implies t[a]
            != t[b] by {
            if a < b {
                assert(t[a] < t[b]);
            } else {
                assert(t[b] < t[a]);
            }
        }
    }
    t.lemma_multiset_has_no_duplicates();
    s.lemma_multiset_has_no_duplicates_conv();
}

/// Law: the k-fold assignment deals every class round-robin over its shuffled
/// order — the `r`-th sample of a class (in that class's shuffled order) is in
/// fold `r mod k` — so each class is spread evenly over the folds, every fold
/// id is below `k`, and the shuffled orders are permutations of the classes.
pub proof fn lemma_kfold_stratified(labels: Seq<u8>, k: nat, seed: u32)
    requires
        0 < k <= usize::MAX,
        labels.len() <= usize::MAX,
    ensures
        ({
            let i0 = indices_with_label(labels, 0);
            let i1 = indices_with_label(labels, 1);
            let start = if seed == 0 { 1u32 } else { seed };
            let (s0, st) = fisher_yates32(i0, start, i0.len() - 1);
            let (s1, _) = fisher_yates32(i1, st, i1.len() - 1);
            let fold = kfold_spec(labels, k, seed);
            &&& fold.len() == labels.len()
            &&& forall|p: int| 0 <= p < fold.len() ==> #[trigger] fold[p] < k
            &&& s0.to_multiset() =~= i0.to_multiset()
            &&& s1.to_multiset() =~= i1.to_multiset()
            &&& forall|r: int|
                0 <= r < s0.len() ==> fold[#[trigger] s0[r] as int] == (r % (k as int)) as usize
            &&& forall|r: int|
                0 <= r < s1.len() ==> fold[#[trigger] s1[r] as int] == (r % (k as int)) as usize
        }),
{
    broadcast use group_to_multiset_ensures;

    let n = labels.len();
    let i0 = indices_with_label(labels, 0);
    let i1 = indices_with_label(labels, 1);
    lemma_indices_with_label(labels, 0);
    lemma_indices_with_label(labels, 1);
    let start = if seed == 0 { 1u32 } else { seed };
    let (s0, st) = fisher_yates32(i0, start, i0.len() - 1);
    let (s1, _) = fisher_yates32(i1, st, i1.len() - 1);
    lemma_fisher_yates32_permutes(i0, start, i0.len() - 1);
    lemma_fisher_yates32_permutes(i1, st, i1.len() - 1);
    lemma_permutation_in_range(s0, i0, n as int);
    lemma_permutation_in_range(s1, i1, n as int);
    lemma_permutation_distinct(s0, i0);
    lemma_permutation_distinct(s1, i1);
    let zero = Seq::new(n, |i: int| 0usize);
    let f1 = assign_folds(zero, s0, k, s0.len() as int);
    lemma_assign_folds(zero, s0, k, s0.len() as int);
    lemma_assign_folds(f1, s1, k, s1.len() as int);
    lemma_assign_folds_bounded(zero, s0, k, s0.len() as int);
    lemma_assign_folds_bounded(f1, s1, k, s1.len() as int);
    let fold = kfold_spec(labels, k, seed);
    assert forall|r: int| 0 <= r < s0.len() implies fold[#[trigger] s0[r] as int] == (r % (
    k as int)) as usize by {
        let p = s0[r];
        assert(s0.contains(p));
        assert(s0.to_multiset().count(p) > 0);
        assert(i0.to_multiset().count(p) > 0);
        assert(i0.contains(p));
        let q = choose|q: int| 0 <= q < i0.len() && #[trigger] i0[q] == p;
        assert(labels[p as int] == 0);
        if s1.take(s1.len() as int).contains(p) {
            let q1 = choose|q1: int| 0 <= q1 < s1.len() && #[trigger] s1.take(s1.len() as int)[q1] == p;
            assert(s1[q1] == p);
            assert(s1.contains(p));
            assert(s1.to_multiset().count(p) > 0);
            assert(i1.to_multiset().count(p) > 0);
            assert(i1.contains(p));
            let q2 = choose|q2: int| 0 <= q2 < i1.len() && #[trigger] i1[q2] == p;
            assert(labels[p as int] == 1);
        }
    }
}


/// Positions whose fold id is `f` (`inside`) or is not `f` (`!inside`), in
/// order.
pub open spec fn fold_positions(fold_of: Seq<usize>, f: usize, inside: bool) -> Seq<usize>
    decreases fold_of.len(),
{
    if fold_of.len() == 0 {
        Seq::empty()
    } else {
        let prev = fold_positions(fold_of.drop_last(), f, inside);
        if (fold_of.last() == f) == inside {
            prev.push((fold_of.len() - 1) as usize)
        } else {
            prev
        }
    }
}

/// The train and test positions of cross-validation round `f`: the samples
/// of the other folds, and those of fold `f`, each in dataset order.
pub fn fold_split(fold_of: &Vec<usize>, f: usize) -> (r: (Vec<usize>, Vec<usize>))
    ensures
        r.0@ == fold_positions(fold_of@, f, false),
        r.1@ == fold_positions(fold_of@, f, true),
{
    let n = fold_of.len();
    let mut train: Vec<usize> = Vec::new();
    let mut test: Vec<usize> = Vec::new();
    let mut i: usize = 0;
    while i < n
        invariant
            n == fold_of@.len(),
            i <= n,
            train@ == fold_positions(fold_of@.take(i as int), f, false),
            test@ == fold_positions(fold_of@.take(i as int), f, true),
        decreases n - i,
    {
        proof {
            assert(fold_of@.take(i + 1).drop_last() =~= fold_of@.take(i as int));
            assert(fold_of@.take(i + 1).last() == fold_of@[i as int]);
        }
        if fold_of[i] == f {
            test.push(i);
        } else {
            train.push(i);
        }
        i = i + 1;
    }
    assert(fold_of@.take(n as int) =~= fold_of@);
    (train, test)
}

/// Law: in every cross-validation round each sample is in exactly one part —
/// in test when its fold is `f`, in train otherwise — and each part lists
/// positions in increasing order.
pub proof fn lemma_fold_split_partitions(fold_of: Seq<usize>, f: usize)
    requires
        fold_of.len() <= usize::MAX,
    ensures
        forall|p: int| 0 <= p < fold_of.len() ==> (fold_positions(fold_of, f, true).contains(
            p as usize,
        ) <==> fold_of[p] == f),
        forall|p: int| 0 <= p < fold_of.len() ==> (fold_positions(fold_of, f, false).contains(
            p as usize,
        ) <==> fold_of[p] != f),
        forall|i: int, j: int|
            0 <= i < j < fold_positions(fold_of, f, true).len() ==> fold_positions(fold_of, f, true)[i]
                < fold_positions(fold_of, f, true)[j],
        forall|i: int, j: int|
            0 <= i < j < fold_positions(fold_of, f, false).len() ==> fold_positions(fold_of, f, false)[i]
                < fold_positions(fold_of, f, false)[j],
{
    lemma_fold_positions(fold_of, f, true);
    lemma_fold_positions(fold_of, f, false);
}

proof fn lemma_fold_positions(fold_of: Seq<usize>, f: usize, inside: bool)
    requires
        fold_of.len() <= usize::MAX,
    ensures
        forall|p: int| 0 <= p < fold_of.len() ==> (fold_positions(fold_of, f, inside).contains(
            p as usize,
        ) <==> ((fold_of[p] == f) == inside)),
        forall|k: int| 0 <= k < fold_positions(fold_of, f, inside).len() ==> #[trigger] fold_positions(
            fold_of,
            f,
            inside,
        )[k] < fold_of.len(),
        forall|i: int, j: int|
            0 <= i < j < fold_positions(fold_of, f, inside).len() ==> fold_positions(
                fold_of,
                f,
                inside,
            )[i] < fold_positions(fold_of, f, inside)[j],
    decreases fold_of.len(),
{
    if fold_of.len() > 0 {
        let t = fold_of.drop_last();
        let prev = fold_positions(t, f, inside);
        let cur = fold_positions(fold_of, f, inside);
        let last = (fold_of.len() - 1) as usize;
        lemma_fold_positions(t, f, inside);
        assert forall|p: int| 0 <= p < fold_of.len() implies (cur.contains(p as usize) <==> ((
        fold_of[p] == f) == inside)) by {
            if p < t.len() {
                assert(t[p] == fold_of[p]);
                if cur.contains(p as usize) {
                    let k = choose|k: int| 0 <= k < cur.len() && cur[k] == p as usize;
                    if k < prev.len() {
                        assert(prev[k] == cur[k]);
                    }
                }
                if prev.contains(p as usize) {
                    let k = choose|k: int| 0 <= k < prev.len() && prev[k] == p as usize;
                    if (fold_of.last() == f) == inside {
                        assert(cur[k] == prev[k]);
                    }
                }
            } else {
                if (fold_of.last() == f) == inside {
                    assert(cur[cur.len() - 1] == last);
                } else {
                    if cur.contains(p as usize) {
                        let k = choose|k: int| 0 <= k < cur.len() && cur[k] == p as usize;
                        assert(prev[k] < t.len());
                    }
                }
            }
        }
    }
}

/// Law: k-fold cross-validation tests every sample exactly once — each
/// sample's fold id is below `k`, and the sample is in the test part of the
/// round of its fold and of no other round.
pub proof fn lemma_kfold_tests_each_sample_once(labels: Seq<u8>, k: nat, seed: u32)
    requires
        0 < k <= usize::MAX,
        labels.len() <= usize::MAX,
    ensures
        forall|p: int| 0 <= p < labels.len() ==> #[trigger] kfold_spec(labels, k, seed)[p] < k,
        forall|p: int, f: usize|
            0 <= p < labels.len() ==> (#[trigger] fold_positions(kfold_spec(labels, k, seed), f, true).contains(
                p as usize,
            ) <==> f == kfold_spec(labels, k, seed)[p]),
{
    let fold = kfold_spec(labels, k, seed);
    lemma_kfold_stratified(labels, k, seed);
    assert forall|p: int, f: usize| 0 <= p < labels.len() implies (#[trigger] fold_positions(
        fold,
        f,
        true,
    ).contains(p as usize) <==> f == fold[p]) by {
        lemma_fold_positions(fold, f, true);
        assert(fold[p] < k);
    }
}

/// Ranks (within a class) whose rank modulo this stride is below
/// [`HOLDOUT_KEEP`] go to the first part of a holdout split (~70%).
pub const HOLDOUT_STRIDE: usize = 10;

/// See [`HOLDOUT_STRIDE`].
pub const HOLDOUT_KEEP: usize = 7;

/// The elements of `s` whose rank `r` satisfies `(r % stride < keep) == first`,
/// in order.
pub open spec fn stride_part(s: Seq<usize>, stride: nat, keep: nat, first: bool) -> Seq<usize>
    decreases s.len(),
{
    if s.len() == 0 {
        Seq::empty()
    } else {
        let prev = stride_part(s.drop_last(), stride, keep, first);
        if (((s.len() - 1) as int) % (stride as int) < keep) == first {
            prev.push(s.last())
        } else {
            prev
        }
    }
}

/// The deterministic holdout split used to fit an ensemble: within each class
/// (class 0 first), in dataset order, ranks `r` with
/// `r % HOLDOUT_STRIDE < HOLDOUT_KEEP` form the first part and the rest the
/// second. Returns `(first, second)`.
pub open spec fn holdout_split_spec(labels: Seq<u8>) -> (Seq<usize>, Seq<usize>) {
    let i0 = indices_with_label(labels, 0);
    let i1 = indices_with_label(labels, 1);
    let st = HOLDOUT_STRIDE as nat;
    let kp = HOLDOUT_KEEP as nat;
    (
        stride_part(i0, st, kp, true) + stride_part(i1, st, kp, true),
        stride_part(i0, st, kp, false) + stride_part(i1, st, kp, false),
    )
}

fn stride_parts(s: &Vec<usize>, first: &mut Vec<usize>, second: &mut Vec<usize>)
    ensures
        final(first)@ == old(first)@ + stride_part(
            s@,
            HOLDOUT_STRIDE as nat,
            HOLDOUT_KEEP as nat,
            true,
        ),
        final(second)@ == old(second)@ + stride_part(
            s@,
            HOLDOUT_STRIDE as nat,
            HOLDOUT_KEEP as nat,
            false,
        ),
{
    let n = s.len();
    let mut rank: usize = 0;
    while rank < n
        invariant
            n == s@.len(),
            rank <= n,
            first@ == old(first)@ + stride_part(
                s@.take(rank as int),
                HOLDOUT_STRIDE as nat,
                HOLDOUT_KEEP as nat,
                true,
            ),
            second@ == old(second)@ + stride_part(
                s@.take(rank as int),
                HOLDOUT_STRIDE as nat,
                HOLDOUT_KEEP as nat,
                false,
            ),
        decreases n - rank,
    {
        assert(s@.take(rank + 1).drop_last() =~= s@.take(rank as int));
        if rank % HOLDOUT_STRIDE < HOLDOUT_KEEP {
            first.push(s[rank]);
        } else {
            second.push(s[rank]);
        }
        rank = rank + 1;
    }
    assert(s@.take(n as int) =~= s@);
}

/// Split the samples labelled 0 or 1 into the ~70% / ~30% holdout parts.
pub fn holdout_split(labels: &Vec<u8>) -> (r: (Vec<usize>, Vec<usize>))
    ensures
        (r.0@, r.1@) == holdout_split_spec(labels@),
{
    let mut first: Vec<usize> = Vec::new();
    let mut second: Vec<usize> = Vec::new();
    let idx0 = class_indices(labels, 0);
    stride_parts(&idx0, &mut first, &mut second);
    let idx1 = class_indices(labels, 1);
    stride_parts(&idx1, &mut first, &mut second);
    (first, second)
}

/// The two parts of a stride split together hold exactly the elements of `s`.
pub proof fn lemma_stride_parts_permute(s: Seq<usize>, stride: nat, keep: nat)
    ensures
        (stride_part(s, stride, keep, true) + stride_part(s, stride, keep, false)).to_multiset()
            =~= s.to_multiset(),
    decreases s.len(),
{
    broadcast use group_to_multiset_ensures;
    broadcast use vstd::multiset::group_multiset_properties;

    let a = stride_part(s, stride, keep, true);
    let b = stride_part(s, stride, keep, false);
    lemma_multiset_commutative(a, b);
    if s.len() > 0 {
        lemma_stride_parts_permute(s.drop_last(), stride, keep);
        let pa = stride_part(s.drop_last(), stride, keep, true);
        let pb = stride_part(s.drop_last(), stride, keep, false);
        lemma_multiset_commutative(pa, pb);
        assert(s =~= s.drop_last().push(s.last()));
    }
}

/// Law: the holdout split is a partition of the samples labelled 0 or 1.
pub proof fn lemma_holdout_split_partitions(labels: Seq<u8>)
    ensures
        ({
            let (a, b) = holdout_split_spec(labels);
            (a + b).to_multiset() =~= (indices_with_label(labels, 0) + indices_with_label(
                labels,
                1,
            )).to_multiset()
        }),
{
    broadcast use group_to_multiset_ensures;
    broadcast use vstd::multiset::group_multiset_properties;

    let i0 = indices_with_label(labels, 0);
    let i1 = indices_with_label(labels, 1);
    let st = HOLDOUT_STRIDE as nat;
    let kp = HOLDOUT_KEEP as nat;
    lemma_stride_parts_permute(i0, st, kp);
    lemma_stride_parts_permute(i1, st, kp);
    let a0 = stride_part(i0, st, kp, true);
    let a1 = stride_part(i1, st, kp, true);
    let b0 = stride_part(i0, st, kp, false);
    let b1 = stride_part(i1, st, kp, false);
    lemma_multiset_commutative(a0, a1);
    lemma_multiset_commutative(b0, b1);
    lemma_multiset_commutative(a0 + a1, b0 + b1);
    lemma_multiset_commutative(a0, b0);
    lemma_multiset_commutative(a1, b1);
    lemma_multiset_commutative(i0, i1);
}

/// The positions `0..n` in order.
pub open spec fn all_positions(n: nat) -> Seq<usize> {
    Seq::new(n, |i: int| i as usize)
}

fn positions(n: usize) -> (r: Vec<usize>)
    ensures
        r@ == all_positions(n as nat),
{
    let mut r: Vec<usize> = Vec::new();
    let mut i: usize = 0;
    while i < n
        invariant
            i <= n,
            r@ =~= all_positions(i as nat),
        decreases n - i,
    {
        r.push(i);
        i = i + 1;
    }
    r
}

/// The two training parts of a stacked ensemble: the holdout split, or — when
/// either part would be empty — the whole training set for both stages.
pub fn stacking_split(labels: &Vec<u8>) -> (r: (Vec<usize>, Vec<usize>))
    ensures
        ({
            let (a, b) = holdout_split_spec(labels@);
            if a.len() == 0 || b.len() == 0 {
                r.0@ == all_positions(labels@.len()) && r.1@ == all_positions(labels@.len())
            } else {
                r.0@ == a && r.1@ == b
            }
        }),
{
    let (a, b) = holdout_split(labels);
    if a.len() == 0 || b.len() == 0 {
        (positions(labels.len()), positions(labels.len()))
    } else {
        (a, b)
    }
}

/// Whether some position listed in `part` carries label `class`.
pub open spec fn part_has_label(labels: Seq<u8>, part: Seq<usize>, class: u8) -> bool {
    exists|k: int| 0 <= k < part.len() && labels[#[trigger] part[k] as int] == class
}

/// Whether some listed position carries label `class`.
pub fn any_labelled(labels: &Vec<u8>, idx: &Vec<usize>, class: u8) -> (r: bool)
    requires
        forall|k: int| 0 <= k < idx@.len() ==> #[trigger] idx@[k] < labels@.len(),
    ensures
        r == part_has_label(labels@, idx@, class),
{
    let n = idx.len();
    let mut k: usize = 0;
    while k < n
        invariant
            n == idx@.len(),
            k <= n,
            forall|k: int| 0 <= k < idx@.len() ==> #[trigger] idx@[k] < labels@.len(),
            forall|j: int| 0 <= j < k ==> labels@[#[trigger] idx@[j] as int] != class,
        decreases n - k,
    {
        if labels[idx[k]] == class {
            return true;
        }
        k = k + 1;
    }
    false
}

/// The split that selects an ensemble's combiner: the holdout split, or `None`
/// when it is degenerate (a part is empty, or the second part lacks a class),
/// in which case the ensemble falls back to its default combiner.
pub fn selection_split(labels: &Vec<u8>) -> (r: Option<(Vec<usize>, Vec<usize>)>)
    ensures
        ({
            let (a, b) = holdout_split_spec(labels@);
            match r {
                Some((x, y)) => x@ == a && y@ == b && a.len() > 0 && b.len() > 0
                    && part_has_label(labels@, b, 1) && part_has_label(labels@, b, 0),
                None => a.len() == 0 || b.len() == 0 || !part_has_label(labels@, b, 1)
                    || !part_has_label(labels@, b, 0),
            }
        }),
{
    let n = labels.len();
    let (a, b) = holdout_split(labels);
    proof {
        lemma_stride_parts_in_range(labels@);
        assert(b@ == holdout_split_spec(labels@).1);
    }
    if a.len() == 0 || b.len() == 0 || !any_labelled(labels, &b, 1) || !any_labelled(labels, &b, 0) {
        None
    } else {
        Some((a, b))
    }
}

/// Every element of a stride part is an element of the sequence split.
proof fn lemma_stride_part_subset(s: Seq<usize>, stride: nat, keep: nat, first: bool)
    ensures
        forall|k: int|
            0 <= k < stride_part(s, stride, keep, first).len() ==> s.contains(
                #[trigger] stride_part(s, stride, keep, first)[k],
            ),
    decreases s.len(),
{
    if s.len() > 0 {
        lemma_stride_part_subset(s.drop_last(), stride, keep, first);
        let p = stride_part(s, stride, keep, first);
        assert forall|k: int| 0 <= k < p.len() implies s.contains(#[trigger] p[k]) by {
            let q = stride_part(s.drop_last(), stride, keep, first);
            if k < q.len() {
                assert(s.drop_last().contains(q[k]));
                let j = choose|j: int| 0 <= j < s.drop_last().len() && #[trigger] s.drop_last()[j]
                    == q[k];
                assert(s[j] == q[k]);
            } else {
                assert(s[s.len() - 1] == p[k]);
            }
        }
    }
}

/// Both parts of the holdout split list in-range positions.
proof fn lemma_stride_parts_in_range(labels: Seq<u8>)
    requires
        labels.len() <= usize::MAX,
    ensures
        forall|k: int|
            0 <= k < holdout_split_spec(labels).1.len() ==> #[trigger] holdout_split_spec(
                labels,
            ).1[k] < labels.len(),
{
    let i0 = indices_with_label(labels, 0);
    let i1 = indices_with_label(labels, 1);
    lemma_indices_with_label(labels, 0);
    lemma_indices_with_label(labels, 1);
    let st = HOLDOUT_STRIDE as nat;
    let kp = HOLDOUT_KEEP as nat;
    lemma_stride_part_subset(i0, st, kp, false);
    lemma_stride_part_subset(i1, st, kp, false);
    let b = holdout_split_spec(labels).1;
    let b0 = stride_part(i0, st, kp, false);
    let b1 = stride_part(i1, st, kp, false);
    assert forall|k: int| 0 <= k < b.len() implies #[trigger] b[k] < labels.len() by {
        if k < b0.len() {
            assert(i0.contains(b0[k]));
        } else {
            assert(b[k] == b1[k - b0.len()]);
            assert(i1.contains(b1[k - b0.len()]));
        }
    }
}

/// Membership in a stride part: the element of rank `r` of a sequence without
/// repeats is in the part chosen by `first` exactly when `(r mod stride <
/// keep) == first`, and the part holds only elements of the sequence.
proof fn lemma_stride_part_contains(s: Seq<usize>, stride: nat, keep: nat, first: bool)
    requires
        stride > 0,
        s.no_duplicates(),
    ensures
        forall|r: int|
            0 <= r < s.len() ==> (stride_part(s, stride, keep, first).contains(#[trigger] s[r])
                <==> ((r % (stride as int) < keep) == first)),
        forall|x: usize| stride_part(s, stride, keep, first).contains(x) ==> s.contains(x),
    decreases s.len(),
{
    if s.len() > 0 {
        let t = s.drop_last();
        let last = s.last();
        let prev = stride_part(t, stride, keep, first);
        let cur = stride_part(s, stride, keep, first);
        assert(t.no_duplicates()) by {
            assert forall|i: int, j: int| 0 <= i < t.len() && 0 <= j < t.len() && i != j implies t[i]
                != t[j] by {
                assert(t[i] == s[i] && t[j] == s[j]);
            }
        }
        lemma_stride_part_contains(t, stride, keep, first);
        let take_last = ((((s.len() - 1) as int) % (stride as int)) < keep) == first;
        assert(!t.contains(last)) by {
            if t.contains(last) {
                let k = choose|k: int| 0 <= k < t.len() && t[k] == last;
                assert(s[k] == s[s.len() - 1]);
            }
        }
        assert forall|x: usize| cur.contains(x) implies s.contains(x) by {
            let k = choose|k: int| 0 <= k < cur.len() && cur[k] == x;
            if k < prev.len() {
                assert(prev[k] == x);
                assert(t.contains(x));
                let j = choose|j: int| 0 <= j < t.len() && t[j] == x;
                assert(s[j] == x);
            } else {
                assert(x == last);
                assert(s[s.len() - 1] == x);
            }
        }
        assert forall|r: int| 0 <= r < s.len() implies (cur.contains(#[trigger] s[r]) <==> ((r
            % (stride as int) < keep) == first)) by {
            if r < t.len() {
                assert(t[r] == s[r]);
                assert(s[r] != last);
                if cur.contains(s[r]) {
                    let k = choose|k: int| 0 <= k < cur.len() && cur[k] == s[r];
                    if take_last && k == prev.len() {
                        assert(cur[k] == last);
                    } else {
                        assert(prev[k] == s[r]);
                    }
                }
                if prev.contains(s[r]) {
                    let k = choose|k: int| 0 <= k < prev.len() && prev[k] == s[r];
                    assert(cur[k] == prev[k]);
                }
            } else {
                assert(s[r] == last);
                if take_last {
                    assert(cur[cur.len() - 1] == last);
                } else {
                    assert(cur == prev);
                }
            }
        }
    }
}

/// Positions listed in increasing order are listed once each.
proof fn lemma_indices_no_duplicates(labels: Seq<u8>, class: u8)
    requires
        labels.len() <= usize::MAX,
    ensures
        indices_with_label(labels, class).no_duplicates(),
{
    lemma_indices_with_label(labels, class);
    let s = indices_with_label(labels, class);
    assert forall|i: int, j: int| 0 <= i < s.len() && 0 <= j < s.len() && i != j implies s[i]
        != s[j] by {
        if i < j {
            assert(s[i] < s[j]);
        } else {
            assert(s[j] < s[i]);
        }
    }
}

/// Law: within each class, the sample of rank `r` (its place among the samples
/// of that class, in dataset order) is in the first holdout part exactly when
/// `r mod HOLDOUT_STRIDE < HOLDOUT_KEEP`, and in the second part otherwise —
/// for every rank, so about 70% of each class goes to the first part.
pub proof fn lemma_holdout_split_by_rank(labels: Seq<u8>, class: u8)
    requires
        labels.len() <= usize::MAX,
        class == 0 || class == 1,
    ensures
        forall|r: int|
            0 <= r < indices_with_label(labels, class).len() ==> {
                let p = #[trigger] indices_with_label(labels, class)[r];
                &&& holdout_split_spec(labels).0.contains(p) <==> r % (HOLDOUT_STRIDE as int)
                    < HOLDOUT_KEEP as int
                &&& holdout_split_spec(labels).1.contains(p) <==> r % (HOLDOUT_STRIDE as int)
                    >= HOLDOUT_KEEP as int
            },
{
    let st = HOLDOUT_STRIDE as nat;
    let kp = HOLDOUT_KEEP as nat;
    let other: u8 = if class == 0 { 1 } else { 0 };
    let ic = indices_with_label(labels, class);
    let io = indices_with_label(labels, other);
    lemma_indices_with_label(labels, class);
    lemma_indices_with_label(labels, other);
    lemma_indices_no_duplicates(labels, class);
    lemma_indices_no_duplicates(labels, other);
    lemma_stride_part_contains(ic, st, kp, true);
    lemma_stride_part_contains(ic, st, kp, false);
    lemma_stride_part_contains(io, st, kp, true);
    lemma_stride_part_contains(io, st, kp, false);
    let (a, b) = holdout_split_spec(labels);
    assert forall|r: int| 0 <= r < ic.len() implies {
        let p = #[trigger] ic[r];
        &&& a.contains(p) <==> r % (HOLDOUT_STRIDE as int) < HOLDOUT_KEEP as int
        &&& b.contains(p) <==> r % (HOLDOUT_STRIDE as int) >= HOLDOUT_KEEP as int
    } by {
        let p = ic[r];
        assert(labels[p as int] == class);
        assert(!io.contains(p)) by {
            if io.contains(p) {
                let k = choose|k: int| 0 <= k < io.len() && io[k] == p;
                assert(labels[io[k] as int] == other);
            }
        }
        let oa = stride_part(io, st, kp, true);
        let ob = stride_part(io, st, kp, false);
        let ca = stride_part(ic, st, kp, true);
        let cb = stride_part(ic, st, kp, false);
        assert(!oa.contains(p));
        assert(!ob.contains(p));
        let (x, y) = if class == 0 { (ca, oa) } else { (oa, ca) };
        assert(a == x + y);
        let (u, v) = if class == 0 { (cb, ob) } else { (ob, cb) };
        assert(b == u + v);
        assert(a.contains(p) <==> ca.contains(p)) by {
            if a.contains(p) {
                let k = choose|k: int| 0 <= k < a.len() && a[k] == p;
                if k < x.len() {
                    assert(x[k] == p);
                } else {
                    assert(y[k - x.len()] == p);
                }
            }
            if ca.contains(p) {
                let k = choose|k: int| 0 <= k < ca.len() && ca[k] == p;
                if class == 0 {
                    assert(a[k] == p);
                } else {
                    assert(a[k + oa.len()] == p);
                }
            }
        }
        assert(b.contains(p) <==> cb.contains(p)) by {
            if b.contains(p) {
                let k = choose|k: int| 0 <= k < b.len() && b[k] == p;
                if k < u.len() {
                    assert(u[k] == p);
                } else {
                    assert(v[k - u.len()] == p);
                }
            }
            if cb.contains(p) {
                let k = choose|k: int| 0 <= k < cb.len() && cb[k] == p;
                if class == 0 {
                    assert(b[k] == p);
                } else {
                    assert(b[k + ob.len()] == p);
                }
            }
        }
    }
}

/// The listed positions whose label is `class`, in list order.
pub open spec fn part_of_class(labels: Seq<u8>, part: Seq<usize>, class: u8) -> Seq<usize>
    decreases part.len(),
{
    if part.len() == 0 {
        Seq::empty()
    } else {
        let prev = part_of_class(labels, part.drop_last(), class);
        if labels[part.last() as int] == class {
            prev.push(part.last())
        } else {
            prev
        }
    }
}

proof fn lemma_part_of_class_add(labels: Seq<u8>, a: Seq<usize>, b: Seq<usize>, class: u8)
    ensures
        part_of_class(labels, a + b, class) == part_of_class(labels, a, class) + part_of_class(
            labels,
            b,
            class,
        ),
    decreases b.len(),
{
    if b.len() == 0 {
        assert(a + b =~= a);
        assert(part_of_class(labels, a, class) + part_of_class(labels, b, class) =~= part_of_class(
            labels,
            a,
            class,
        ));
    } else {
        assert((a + b).drop_last() =~= a + b.drop_last());
        assert((a + b).last() == b.last());
        lemma_part_of_class_add(labels, a, b.drop_last(), class);
        let pa = part_of_class(labels, a, class);
        let pb = part_of_class(labels, b.drop_last(), class);
        if labels[b.last() as int] == class {
            assert(pa + pb.push(b.last()) =~= (pa + pb).push(b.last()));
        }
    }
}

proof fn lemma_part_of_class_uniform(labels: Seq<u8>, part: Seq<usize>, c: u8, class: u8)
    requires
        forall|k: int| 0 <= k < part.len() ==> labels[#[trigger] part[k] as int] == c,
    ensures
        part_of_class(labels, part, class) == (if class == c {
            part
        } else {
            Seq::<usize>::empty()
        }),
    decreases part.len(),
{
    if part.len() > 0 {
        let t = part.drop_last();
        assert forall|k: int| 0 <= k < t.len() implies labels[#[trigger] t[k] as int] == c by {
            assert(t[k] == part[k]);
        }
        lemma_part_of_class_uniform(labels, t, c, class);
        assert(labels[part[part.len() - 1] as int] == c);
        if class == c {
            assert(t.push(part.last()) =~= part);
        }
    }
}

/// Every element of a permutation of the class-`c` positions is labelled `c`.
proof fn lemma_shuffled_class_labels(labels: Seq<u8>, s: Seq<usize>, c: u8)
    requires
        labels.len() <= usize::MAX,
        s.to_multiset() =~= indices_with_label(labels, c).to_multiset(),
    ensures
        forall|k: int| 0 <= k < s.len() ==> labels[#[trigger] s[k] as int] == c,
{
    broadcast use group_to_multiset_ensures;

    let i = indices_with_label(labels, c);
    lemma_indices_with_label(labels, c);
    assert forall|k: int| 0 <= k < s.len() implies labels[#[trigger] s[k] as int] == c by {
        let p = s[k];
        assert(s.contains(p));
        assert(s.to_multiset().count(p) > 0);
        assert(i.to_multiset().count(p) > 0);
        assert(i.contains(p));
        let q = choose|q: int| 0 <= q < i.len() && i[q] == p;
        assert(labels[i[q] as int] == c);
    }
}

/// The class parts of a stratified split: train and test list the first
/// and the remaining samples of each class's shuffled order.
proof fn lemma_stratified_split_parts(labels: Seq<u8>, cut0: nat, cut1: nat, seed: u32)
    requires
        labels.len() <= usize::MAX,
    ensures
        ({
            let i0 = indices_with_label(labels, 0);
            let i1 = indices_with_label(labels, 1);
            let start = if seed == 0 { 1u32 } else { seed };
            let (s0, st) = fisher_yates32(i0, start, i0.len() - 1);
            let (s1, _) = fisher_yates32(i1, st, i1.len() - 1);
            let (tr, te) = stratified_split_spec(labels, cut0, cut1, seed);
            let c0 = min_int(cut0 as int, s0.len() as int);
            let c1 = min_int(cut1 as int, s1.len() as int);
            &&& s0.len() == i0.len()
            &&& s1.len() == i1.len()
            &&& part_of_class(labels, tr, 0) == s0.take(c0)
            &&& part_of_class(labels, tr, 1) == s1.take(c1)
            &&& part_of_class(labels, te, 0) == s0.skip(c0)
            &&& part_of_class(labels, te, 1) == s1.skip(c1)
            &&& part_of_class(labels, tr + te, 0) == s0
            &&& part_of_class(labels, tr + te, 1) == s1
        }),
{
    let i0 = indices_with_label(labels, 0);
    let i1 = indices_with_label(labels, 1);
    let start = if seed == 0 { 1u32 } else { seed };
    let (s0, st) = fisher_yates32(i0, start, i0.len() - 1);
    let (s1, _) = fisher_yates32(i1, st, i1.len() - 1);
    lemma_fisher_yates32_permutes(i0, start, i0.len() - 1);
    lemma_fisher_yates32_permutes(i1, st, i1.len() - 1);
    lemma_shuffled_class_labels(labels, s0, 0);
    lemma_shuffled_class_labels(labels, s1, 1);
    let (tr, te) = stratified_split_spec(labels, cut0, cut1, seed);
    let c0 = min_int(cut0 as int, s0.len() as int);
    let c1 = min_int(cut1 as int, s1.len() as int);
    let a0 = s0.take(c0);
    let a1 = s1.take(c1);
    let b0 = s0.skip(c0);
    let b1 = s1.skip(c1);
    assert forall|k: int| 0 <= k < a0.len() implies labels[#[trigger] a0[k] as int] == 0 by {
        assert(a0[k] == s0[k]);
    }
    assert forall|k: int| 0 <= k < b0.len() implies labels[#[trigger] b0[k] as int] == 0 by {
        assert(b0[k] == s0[k + c0]);
    }
    assert forall|k: int| 0 <= k < a1.len() implies labels[#[trigger] a1[k] as int] == 1 by {
        assert(a1[k] == s1[k]);
    }
    assert forall|k: int| 0 <= k < b1.len() implies labels[#[trigger] b1[k] as int] == 1 by {
        assert(b1[k] == s1[k + c1]);
    }
    lemma_part_of_class_add(labels, a0, a1, 0);
    lemma_part_of_class_add(labels, a0, a1, 1);
    lemma_part_of_class_add(labels, b0, b1, 0);
    lemma_part_of_class_add(labels, b0, b1, 1);
    lemma_part_of_class_add(labels, tr, te, 0);
    lemma_part_of_class_add(labels, tr, te, 1);
    lemma_part_of_class_uniform(labels, a0, 0, 0);
    lemma_part_of_class_uniform(labels, a0, 0, 1);
    lemma_part_of_class_uniform(labels, b0, 0, 0);
    lemma_part_of_class_uniform(labels, b0, 0, 1);
    lemma_part_of_class_uniform(labels, a1, 1, 0);
    lemma_part_of_class_uniform(labels, a1, 1, 1);
    lemma_part_of_class_uniform(labels, b1, 1, 0);
    lemma_part_of_class_uniform(labels, b1, 1, 1);
    assert(a0 + Seq::<usize>::empty() =~= a0);
    assert(Seq::<usize>::empty() + a1 =~= a1);
    assert(b0 + Seq::<usize>::empty() =~= b0);
    assert(Seq::<usize>::empty() + b1 =~= b1);
    assert(a0 + b0 =~= s0);
    assert(a1 + b1 =~= s1);
}

/// Law: the stratified split sends exactly `min(cut_c, n_c)` samples of each
/// class `c` to train and the other `n_c - min(cut_c, n_c)` to test, where
/// `n_c` is the number of samples labelled `c`; and the class-`c` samples of
/// train come first in one order of the class that the cuts do not change —
/// splitting the same labels with the same seed and other cuts lists each
/// class's samples, train then test, in the same order.
pub proof fn lemma_stratified_split_per_class(
    labels: Seq<u8>,
    cut0: nat,
    cut1: nat,
    other0: nat,
    other1: nat,
    seed: u32,
)
    requires
        labels.len() <= usize::MAX,
    ensures
        ({
            let (train, test) = stratified_split_spec(labels, cut0, cut1, seed);
            let (train2, test2) = stratified_split_spec(labels, other0, other1, seed);
            let n0 = indices_with_label(labels, 0).len() as int;
            let n1 = indices_with_label(labels, 1).len() as int;
            &&& part_of_class(labels, train, 0).len() == min_int(cut0 as int, n0)
            &&& part_of_class(labels, train, 1).len() == min_int(cut1 as int, n1)
            &&& part_of_class(labels, test, 0).len() == n0 - min_int(cut0 as int, n0)
            &&& part_of_class(labels, test, 1).len() == n1 - min_int(cut1 as int, n1)
            &&& part_of_class(labels, train + test, 0) == part_of_class(labels, train2 + test2, 0)
            &&& part_of_class(labels, train + test, 1) == part_of_class(labels, train2 + test2, 1)
        }),
{
    lemma_stratified_split_parts(labels, cut0, cut1, seed);
    lemma_stratified_split_parts(labels, other0, other1, seed);
}

} // verus!
