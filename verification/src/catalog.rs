//! Fixed catalogues: the ESC-50 negative classes used by the held-out
//! evaluations, the hardware-tier profile of each detection approach, and the
//! names and descriptions of the simple registered approaches.

use vstd::prelude::*;
use vstd::string::*;
use crate::text::{
    chars_lt, lemma_chars_lt_irreflexive, lemma_chars_lt_total, lemma_chars_lt_transitive, str_eq,
    str_lt, string_views,
};

verus! {

/// The acoustically rotor/engine-like ESC-50 classes used as confusable
/// negatives.
pub open spec fn neg_confusable_classes() -> Seq<Seq<char>> {
    seq!["airplane"@, "helicopter"@, "engine"@, "chainsaw"@, "wind"@]
}

/// A few easy ESC-50 classes used as control negatives.
pub open spec fn neg_control_classes() -> Seq<Seq<char>> {
    seq!["rain"@, "sea_waves"@, "clapping"@]
}

/// The ESC-50 class lists `(confusable, control)`, for the evaluation reports.
pub fn neg_classes() -> (r: (Vec<String>, Vec<String>))
    ensures
        string_views(r.0@) == neg_confusable_classes(),
        string_views(r.1@) == neg_control_classes(),
{
    let mut confusable: Vec<String> = Vec::new();
    confusable.push(String::from_str("airplane"));
    confusable.push(String::from_str("helicopter"));
    confusable.push(String::from_str("engine"));
    confusable.push(String::from_str("chainsaw"));
    confusable.push(String::from_str("wind"));
    let mut control: Vec<String> = Vec::new();
    control.push(String::from_str("rain"));
    control.push(String::from_str("sea_waves"));
    control.push(String::from_str("clapping"));
    assert(string_views(confusable@) =~= neg_confusable_classes());
    assert(string_views(control@) =~= neg_control_classes());
    (confusable, control)
}

/// Hardware tier an approach is targeted at.
#[derive(Clone, Copy, Debug, PartialEq, Eq, Structural)]
pub enum Tier {
    /// esp32-class microcontroller: single scalar statistics, no learned matrix.
    TinyEdge,
    /// Phone / single-board computer: a learned head over a modest feature.
    Balanced,
    /// Server / workstation: multi-feature fusion and ensembles.
    MaxAccuracy,
}

/// The report label of a tier.
pub open spec fn tier_label(t: Tier) -> Seq<char> {
    match t {
        Tier::TinyEdge => "tiny-edge"@,
        Tier::Balanced => "balanced"@,
        Tier::MaxAccuracy => "max-accuracy"@,
    }
}

impl Tier {
    /// The report label of this tier.
    pub fn as_str(self) -> (r: &'static str)
        ensures
            r@ == tier_label(self),
    {
        match self {
            Tier::TinyEdge => "tiny-edge",
            Tier::Balanced => "balanced",
            Tier::MaxAccuracy => "max-accuracy",
        }
    }
}

/// Static design properties of an approach: `(tier, feature dimension,
/// relative cost rank)`, the cost rank being the deterministic speed axis of
/// the speed/accuracy frontier (lower is cheaper). Unknown approaches are
/// balanced, of unknown dimension (0) and mid cost.
pub open spec fn profile_spec(name: Seq<char>) -> (Tier, u32, u32) {
    if name == "band_ratio"@ {
        (Tier::TinyEdge, 1, 10)
    } else if name == "hps"@ {
        (Tier::TinyEdge, 1, 12)
    } else if name == "spectral_gate"@ {
        (Tier::TinyEdge, 5, 14)
    } else if name == "mfcc_lr"@ {
        (Tier::Balanced, 27, 20)
    } else if name == "template"@ {
        (Tier::Balanced, 512, 22)
    } else if name == "spectrogram_template"@ {
        (Tier::Balanced, 384, 24)
    } else if name == "mfcc_mlp"@ {
        (Tier::Balanced, 27, 26)
    } else if name == "gtcc_lr"@ {
        (Tier::Balanced, 27, 28)
    } else if name == "feature_fusion"@ {
        (Tier::MaxAccuracy, 34, 40)
    } else if name == "cepstrum"@ {
        (Tier::Balanced, 2, 60)
    } else if name == "fusion"@ {
        (Tier::MaxAccuracy, 6, 70)
    } else if name == "envelope_periodicity"@ {
        (Tier::Balanced, 2, 80)
    } else {
        (Tier::Balanced, 0, 50)
    }
}

/// Law: an approach is in the tiny-edge tier exactly when its cost rank is
/// below 20, and every tiny-edge approach scores over at most 5 features.
pub proof fn lemma_tiny_edge_is_cheapest(name: Seq<char>)
    ensures
        (profile_spec(name).0 == Tier::TinyEdge) <==> profile_spec(name).2 < 20,
        profile_spec(name).0 == Tier::TinyEdge ==> profile_spec(name).1 <= 5,
{
}

/// Law: the cost rank identifies an approach's whole profile — no two
/// profiles share a rank, so ranks order the approaches without ties.
pub proof fn lemma_cost_rank_identifies_profile(a: Seq<char>, b: Seq<char>)
    ensures
        profile_spec(a).2 == profile_spec(b).2 ==> profile_spec(a) == profile_spec(b),
{
}

/// Static design properties of the named approach.
pub fn profile(name: &str) -> (r: (Tier, u32, u32))
    ensures
        r == profile_spec(name@),
{
    if str_eq(name, "band_ratio") {
        (Tier::TinyEdge, 1, 10)
    } else if str_eq(name, "hps") {
        (Tier::TinyEdge, 1, 12)
    } else if str_eq(name, "spectral_gate") {
        (Tier::TinyEdge, 5, 14)
    } else if str_eq(name, "mfcc_lr") {
        (Tier::Balanced, 27, 20)
    } else if str_eq(name, "template") {
        (Tier::Balanced, 512, 22)
    } else if str_eq(name, "spectrogram_template") {
        (Tier::Balanced, 384, 24)
    } else if str_eq(name, "mfcc_mlp") {
        (Tier::Balanced, 27, 26)
    } else if str_eq(name, "gtcc_lr") {
        (Tier::Balanced, 27, 28)
    } else if str_eq(name, "feature_fusion") {
        (Tier::MaxAccuracy, 34, 40)
    } else if str_eq(name, "cepstrum") {
        (Tier::Balanced, 2, 60)
    } else if str_eq(name, "fusion") {
        (Tier::MaxAccuracy, 6, 70)
    } else if str_eq(name, "envelope_periodicity") {
        (Tier::Balanced, 2, 80)
    } else {
        (Tier::Balanced, 0, 50)
    }
}

/// Whether row `i` comes before row `j` when approaches are walked cheapest
/// first: by cost rank, then by name, then by position (which only separates
/// rows that tie on both).
pub open spec fn cheaper_before(ranks: Seq<u32>, names: Seq<Seq<char>>, i: int, j: int) -> bool {
    ||| ranks[i] < ranks[j]
    ||| ranks[i] == ranks[j] && chars_lt(names[i], names[j])
    ||| ranks[i] == ranks[j] && names[i] == names[j] && i < j
}

/// Whether `order` walks its rows cheapest first.
pub open spec fn is_cheapest_first(order: Seq<usize>, ranks: Seq<u32>, names: Seq<Seq<char>>) -> bool {
    forall|a: int, b: int|
        0 <= a < b < order.len() ==> cheaper_before(
            ranks,
            names,
            #[trigger] order[a] as int,
            #[trigger] order[b] as int,
        )
}

/// `cheaper_before` is a strict total order on distinct rows.
proof fn lemma_cheaper_order(ranks: Seq<u32>, names: Seq<Seq<char>>, i: int, j: int, k: int)
    ensures
        !cheaper_before(ranks, names, i, i),
        cheaper_before(ranks, names, i, j) && cheaper_before(ranks, names, j, k) ==> cheaper_before(
            ranks,
            names,
            i,
            k,
        ),
        i != j ==> cheaper_before(ranks, names, i, j) || cheaper_before(ranks, names, j, i),
{
    lemma_chars_lt_irreflexive(names[i]);
    lemma_chars_lt_total(names[i], names[j]);
    if cheaper_before(ranks, names, i, j) && cheaper_before(ranks, names, j, k) {
        if chars_lt(names[i], names[j]) && chars_lt(names[j], names[k]) {
            lemma_chars_lt_transitive(names[i], names[j], names[k]);
        }
    }
}

/// Positions `0..n` of a table of approaches, cheapest first: by cost rank,
/// then by name, rows that tie on both keeping their table order. This is the
/// order in which the speed/accuracy frontier is swept.
pub fn cheapest_first(ranks: &Vec<u32>, names: &Vec<String>) -> (r: Vec<usize>)
    requires
        ranks@.len() == names@.len(),
    ensures
        r@.len() == ranks@.len(),
        forall|k: int| 0 <= k < r@.len() ==> #[trigger] r@[k] < ranks@.len(),
        forall|p: usize| p < ranks@.len() ==> #[trigger] r@.contains(p),
        is_cheapest_first(r@, ranks@, string_views(names@)),
{
    let ghost w = string_views(names@);
    let n = ranks.len();
    let mut out: Vec<usize> = Vec::new();
    let mut i: usize = 0;
    while i < n
        invariant
            n == ranks@.len(),
            n == names@.len(),
            w == string_views(names@),
            i <= n,
            out@.len() == i,
            forall|k: int| 0 <= k < out@.len() ==> #[trigger] out@[k] < i,
            forall|p: usize| p < i ==> #[trigger] out@.contains(p),
            is_cheapest_first(out@, ranks@, w),
        decreases n - i,
    {
        let ghost old_out = out@;
        let mut pos: usize = 0;
        while pos < out.len() && !(ranks[i] < ranks[out[pos]] || (ranks[i] == ranks[out[pos]]
            && str_lt(names[i].as_str(), names[out[pos]].as_str())))
            invariant
                old_out == out@,
                i < n,
                n == ranks@.len(),
                n == names@.len(),
                w == string_views(names@),
                forall|k: int| 0 <= k < out@.len() ==> #[trigger] out@[k] < i,
                pos <= out@.len(),
                forall|q: int| 0 <= q < pos ==> !cheaper_before(
                    ranks@,
                    w,
                    i as int,
                    #[trigger] old_out[q] as int,
                ),
            decreases out@.len() - pos,
        {
            proof {
                assert(w[i as int] == names@[i as int]@);
                assert(w[out@[pos as int] as int] == names@[out@[pos as int] as int]@);
            }
            pos = pos + 1;
        }
        proof {
            if pos < old_out.len() {
                assert(w[i as int] == names@[i as int]@);
                assert(w[old_out[pos as int] as int] == names@[old_out[pos as int] as int]@);
                assert(cheaper_before(ranks@, w, i as int, old_out[pos as int] as int));
            }
        }
        out.insert(pos, i);
        proof {
            let new_out = out@;
            assert(new_out =~= old_out.insert(pos as int, i));
            assert forall|a: int, b: int| 0 <= a < b < new_out.len() implies cheaper_before(
                ranks@,
                w,
                #[trigger] new_out[a] as int,
                #[trigger] new_out[b] as int,
            ) by {
                let x = i as int;
                if b < pos {
                    assert(new_out[a] == old_out[a] && new_out[b] == old_out[b]);
                } else if b == pos {
                    assert(new_out[a] == old_out[a]);
                    lemma_cheaper_order(ranks@, w, old_out[a] as int, x, x);
                    assert(!cheaper_before(ranks@, w, x, old_out[a] as int));
                    assert(old_out[a] < i);
                } else if a > pos {
                    assert(new_out[a] == old_out[a - 1] && new_out[b] == old_out[b - 1]);
                } else if a < pos {
                    assert(new_out[a] == old_out[a] && new_out[b] == old_out[b - 1]);
                } else {
                    assert(new_out[a] == i);
                    assert(new_out[b] == old_out[b - 1]);
                    let y = old_out[b - 1] as int;
                    let z = old_out[pos as int] as int;
                    if b - 1 > pos {
                        assert(cheaper_before(ranks@, w, z, y));
                        lemma_cheaper_order(ranks@, w, x, z, y);
                    }
                }
            }
            assert forall|p: usize| p < i + 1 implies #[trigger] new_out.contains(p) by {
                if p < i {
                    assert(old_out.contains(p));
                    let q = choose|q: int| 0 <= q < old_out.len() && old_out[q] == p;
                    if q < pos {
                        assert(new_out[q] == old_out[q]);
                    } else {
                        assert(new_out[q + 1] == old_out[q]);
                    }
                } else {
                    assert(new_out[pos as int] == i);
                }
            }
        }
        i = i + 1;
    }
    out
}

/// Law: the cheapest-first order is determined — two orders that walk the same
/// rows cheapest first are the same order.
pub proof fn lemma_cheapest_first_unique(
    s: Seq<usize>,
    t: Seq<usize>,
    ranks: Seq<u32>,
    names: Seq<Seq<char>>,
)
    requires
        is_cheapest_first(s, ranks, names),
        is_cheapest_first(t, ranks, names),
        s.len() == t.len(),
        forall|x: usize| #[trigger] s.contains(x) <==> t.contains(x),
    ensures
        s == t,
    decreases s.len(),
{
    if s.len() == 0 {
        assert(s =~= t);
    } else {
        let a = s[0];
        let b = t[0];
        assert(s.contains(a));
        assert(t.contains(a));
        assert(t.contains(b));
        assert(s.contains(b));
        let ja = choose|j: int| 0 <= j < t.len() && t[j] == a;
        let jb = choose|j: int| 0 <= j < s.len() && s[j] == b;
        if a != b {
            assert(ja > 0 && jb > 0);
            assert(cheaper_before(ranks, names, t[0] as int, t[ja] as int));
            assert(cheaper_before(ranks, names, s[0] as int, s[jb] as int));
            lemma_cheaper_order(ranks, names, a as int, b as int, a as int);
        }
        let s2 = s.drop_first();
        let t2 = t.drop_first();
        assert forall|x: usize| #[trigger] s2.contains(x) <==> t2.contains(x) by {
            if s2.contains(x) {
                let k = choose|k: int| 0 <= k < s2.len() && s2[k] == x;
                assert(s[k + 1] == x);
                assert(cheaper_before(ranks, names, s[0] as int, s[k + 1] as int));
                lemma_cheaper_order(ranks, names, a as int, a as int, a as int);
                assert(s.contains(x));
                assert(t.contains(x));
                let m = choose|m: int| 0 <= m < t.len() && t[m] == x;
                assert(m != 0);
                assert(t2[m - 1] == x);
            }
            if t2.contains(x) {
                let k = choose|k: int| 0 <= k < t2.len() && t2[k] == x;
                assert(t[k + 1] == x);
                assert(cheaper_before(ranks, names, t[0] as int, t[k + 1] as int));
                lemma_cheaper_order(ranks, names, b as int, b as int, b as int);
                assert(t.contains(x));
                assert(s.contains(x));
                let m = choose|m: int| 0 <= m < s.len() && s[m] == x;
                assert(m != 0);
                assert(s2[m - 1] == x);
            }
        }
        assert forall|i: int, j: int| 0 <= i < j < s2.len() implies cheaper_before(
            ranks,
            names,
            #[trigger] s2[i] as int,
            #[trigger] s2[j] as int,
        ) by {
            assert(s2[i] == s[i + 1] && s2[j] == s[j + 1]);
        }
        assert forall|i: int, j: int| 0 <= i < j < t2.len() implies cheaper_before(
            ranks,
            names,
            #[trigger] t2[i] as int,
            #[trigger] t2[j] as int,
        ) by {
            assert(t2[i] == t[i + 1] && t2[j] == t[j + 1]);
        }
        lemma_cheapest_first_unique(s2, t2, ranks, names);
        assert forall|i: int| 0 <= i < s.len() implies s[i] == t[i] by {
            if i > 0 {
                assert(s[i] == s2[i - 1] && t[i] == t2[i - 1]);
            }
        }
        assert(s =~= t);
    }
}

} // verus!
