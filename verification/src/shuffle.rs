//! Seeded Fisher-Yates shuffles of index lists.
//!
//! Walking `i` from the last position down to 1, each step draws `j` uniformly
//! (modulo the generator) from `0..=i` and swaps positions `i` and `j`.

use vstd::prelude::*;
use vstd::seq_lib::*;
use crate::rng::{xorshift32_step, xorshift64_step, Xorshift, Xorshift64};

verus! {

/// `s` with positions `i` and `j` exchanged.
pub open spec fn swap_at(s: Seq<usize>, i: int, j: int) -> Seq<usize> {
    s.update(i, s[j]).update(j, s[i])
}

/// Fisher-Yates over positions `i, i-1, ..., 1` of `s`, drawing from the 32-bit
/// xorshift generator in state `state`; returns the shuffled sequence and the
/// final generator state.
pub open spec fn fisher_yates32(s: Seq<usize>, state: u32, i: int) -> (Seq<usize>, u32)
    decreases i,
{
    if i <= 0 {
        (s, state)
    } else {
        let x = xorshift32_step(state);
        let j = (x as int) % (i + 1);
        fisher_yates32(swap_at(s, i, j), x, i - 1)
    }
}

/// Fisher-Yates as above, drawing from the 64-bit xorshift generator; a draw
/// is reduced to a machine word before the modulo.
pub open spec fn fisher_yates64(s: Seq<usize>, state: u64, i: int) -> (Seq<usize>, u64)
    decreases i,
{
    if i <= 0 {
        (s, state)
    } else {
        let x = xorshift64_step(state);
        let j = ((x as usize) as int) % (i + 1);
        fisher_yates64(swap_at(s, i, j), x, i - 1)
    }
}

/// Swapping two positions permutes a sequence.
pub proof fn lemma_swap_multiset(s: Seq<usize>, i: int, j: int)
    requires
        0 <= i < s.len(),
        0 <= j < s.len(),
    ensures
        swap_at(s, i, j).to_multiset() =~= s.to_multiset(),
        swap_at(s, i, j).len() == s.len(),
{
    broadcast use group_to_multiset_ensures;
    broadcast use vstd::multiset::group_multiset_properties;

    let t = s.update(i, s[j]);
    assert(t[j] == s[j]);
    assert(t.to_multiset() == s.to_multiset().insert(s[j]).remove(s[i]));
    assert(t.update(j, s[i]).to_multiset() == t.to_multiset().insert(s[i]).remove(s[j]));
}

/// The 32-bit Fisher-Yates shuffle is a permutation.
pub proof fn lemma_fisher_yates32_permutes(s: Seq<usize>, state: u32, i: int)
    requires
        i < s.len(),
    ensures
        fisher_yates32(s, state, i).0.to_multiset() =~= s.to_multiset(),
        fisher_yates32(s, state, i).0.len() == s.len(),
    decreases i,
{
    if i > 0 {
        let x = xorshift32_step(state);
        let j = (x as int) % (i + 1);
        lemma_swap_multiset(s, i, j);
        lemma_fisher_yates32_permutes(swap_at(s, i, j), x, i - 1);
    }
}

/// The 64-bit Fisher-Yates shuffle is a permutation.
pub proof fn lemma_fisher_yates64_permutes(s: Seq<usize>, state: u64, i: int)
    requires
        i < s.len(),
    ensures
        fisher_yates64(s, state, i).0.to_multiset() =~= s.to_multiset(),
        fisher_yates64(s, state, i).0.len() == s.len(),
    decreases i,
{
    if i > 0 {
        let x = xorshift64_step(state);
        let j = ((x as usize) as int) % (i + 1);
        lemma_swap_multiset(s, i, j);
        lemma_fisher_yates64_permutes(swap_at(s, i, j), x, i - 1);
    }
}

fn swap_in_place(v: &mut Vec<usize>, i: usize, j: usize)
    requires
        i < old(v).len(),
        j < old(v).len(),
    ensures
        final(v)@ == swap_at(old(v)@, i as int, j as int),
{
    let a = v[i];
    let b = v[j];
    v.set(i, b);
    v.set(j, a);
}

/// Shuffle `v` in place with the 32-bit xorshift generator `rng`.
pub fn shuffle32(v: &mut Vec<usize>, rng: &mut Xorshift)
    ensures
        (final(v)@, final(rng)@) == fisher_yates32(old(v)@, old(rng)@, old(v)@.len() - 1),
        final(v)@.to_multiset() =~= old(v)@.to_multiset(),
        final(v)@.len() == old(v)@.len(),
{
    proof {
        lemma_fisher_yates32_permutes(v@, rng@, v@.len() - 1);
    }
    let n = v.len();
    if n < 2 {
        return;
    }
    let mut i = n - 1;
    while i >= 1
        invariant
            v@.len() == n,
            i < n,
            fisher_yates32(v@, rng@, i as int) == fisher_yates32(old(v)@, old(rng)@, n - 1),
        decreases i,
    {
        let x = rng.next_u32();
        let j = (x as usize) % (i + 1);
        swap_in_place(v, i, j);
        i = i - 1;
    }
}

/// Shuffle `v` in place with the 64-bit xorshift generator `rng`.
pub fn shuffle64(v: &mut Vec<usize>, rng: &mut Xorshift64)
    ensures
        (final(v)@, final(rng)@) == fisher_yates64(old(v)@, old(rng)@, old(v)@.len() - 1),
        final(v)@.to_multiset() =~= old(v)@.to_multiset(),
        final(v)@.len() == old(v)@.len(),
{
    proof {
        lemma_fisher_yates64_permutes(v@, rng@, v@.len() - 1);
    }
    let n = v.len();
    if n < 2 {
        return;
    }
    let mut i = n - 1;
    while i >= 1
        invariant
            v@.len() == n,
            i < n,
            fisher_yates64(v@, rng@, i as int) == fisher_yates64(old(v)@, old(rng)@, n - 1),
        decreases i,
    {
        let x = rng.next_u64();
        let j = (x as usize) % (i + 1);
        swap_in_place(v, i, j);
        i = i - 1;
    }
}

} // verus!
