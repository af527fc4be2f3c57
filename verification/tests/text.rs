use acoustic_drone::approaches::{
    BandRatio, Cepstrum, FeatureFusion, GtccLr, Hps, MfccLr, MfccMlp, SpectralGate,
};
use acoustic_drone::catalog::{cheapest_first, neg_classes, profile, Tier};
use acoustic_drone::text::{brand_of, seed_for, str_eq, str_lt};

#[test]
fn brand_drops_take_index() {
    assert_eq!(brand_of("DJI_Mavic_Air2_63"), "DJI_Mavic_Air2");
    assert_eq!(brand_of("Parrot_Bebop_7"), "Parrot_Bebop");
}

#[test]
fn brand_keeps_non_numeric_tail() {
    assert_eq!(brand_of("DJI_Mavic_Air2"), "DJI_Mavic_Air2");
    assert_eq!(brand_of("Tello_"), "Tello_");
    assert_eq!(brand_of("plain"), "plain");
    assert_eq!(brand_of("_12"), "");
    assert_eq!(brand_of(""), "");
}

#[test]
fn seed_for_known_values() {
    assert_eq!(seed_for(0, 0, ""), 2166136261);
    assert_eq!(seed_for(7, 8, "dads/clip_001.wav"), 1856566777);
    assert_ne!(seed_for(7, 8, "a"), seed_for(7, 12, "a"));
}

#[test]
fn string_equality() {
    assert!(str_eq("hps", "hps"));
    assert!(!str_eq("hps", "hp"));
    assert!(!str_eq("abc", "abd"));
    assert!(str_eq("", ""));
}

#[test]
fn tier_labels() {
    assert_eq!(Tier::TinyEdge.as_str(), "tiny-edge");
    assert_eq!(Tier::Balanced.as_str(), "balanced");
    assert_eq!(Tier::MaxAccuracy.as_str(), "max-accuracy");
}

#[test]
fn profiles_of_known_and_unknown_approaches() {
    assert_eq!(profile("band_ratio"), (Tier::TinyEdge, 1, 10));
    assert_eq!(profile("template"), (Tier::Balanced, 512, 22));
    assert_eq!(profile("feature_fusion"), (Tier::MaxAccuracy, 34, 40));
    assert_eq!(profile("envelope_periodicity"), (Tier::Balanced, 2, 80));
    assert_eq!(profile("sentry"), (Tier::Balanced, 0, 50));
}

#[test]
fn negative_class_lists() {
    let (confusable, control) = neg_classes();
    assert_eq!(confusable, vec!["airplane", "helicopter", "engine", "chainsaw", "wind"]);
    assert_eq!(control, vec!["rain", "sea_waves", "clapping"]);
}

#[test]
fn approach_names() {
    assert_eq!(BandRatio::new().name(), "band_ratio");
    assert_eq!(Cepstrum::new().name(), "cepstrum");
    assert_eq!(FeatureFusion::new().name(), "feature_fusion");
    assert_eq!(GtccLr::new().name(), "gtcc_lr");
    assert_eq!(Hps::new().name(), "hps");
    assert_eq!(MfccLr::new().name(), "mfcc_lr");
    assert_eq!(MfccMlp::new().name(), "mfcc_mlp");
    assert_eq!(SpectralGate::new().name(), "spectral_gate");
    assert!(BandRatio::new().description().starts_with("Baseline"));
}

#[test]
fn cheapest_first_by_rank_then_name() {
    let ranks = vec![20u32, 10, 10, 50];
    let names: Vec<String> = ["b", "z", "a", "c"].iter().map(|s| s.to_string()).collect();
    assert_eq!(cheapest_first(&ranks, &names), vec![2, 1, 0, 3]);
}

#[test]
fn cheapest_first_keeps_table_order_on_full_ties() {
    let ranks = vec![5u32, 5, 1];
    let names: Vec<String> = ["x", "x", "y"].iter().map(|s| s.to_string()).collect();
    assert_eq!(cheapest_first(&ranks, &names), vec![2, 0, 1]);
    assert!(cheapest_first(&vec![], &vec![]).is_empty());
}

#[test]
fn string_order_matches_std() {
    let words = ["", "a", "ab", "b", "B", "dog", "doge", "é", "z", "zz", "日本", "ab\u{0}"];
    for x in words {
        for y in words {
            assert_eq!(str_lt(x, y), x < y, "{x:?} < {y:?}");
        }
    }
}
