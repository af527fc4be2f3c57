//! The simple registered detection approaches: their stable names (also the
//! result file names) and one-line descriptions. Their scoring runs on audio
//! samples and lives with the benchmark harness.

use vstd::prelude::*;

verus! {

/// Baseline approach: the band-energy heuristic of the frame detector; its
/// confidence is the mean band-energy ratio across frames.
#[derive(Default)]
pub struct BandRatio;

impl BandRatio {
    /// A fresh instance.
    pub fn new() -> (r: Self) {
        BandRatio
    }

    /// Stable short name of the approach.
    pub fn name(&self) -> (r: &'static str)
        ensures
            r@ == "band_ratio"@,
    {
        "band_ratio"
    }

    /// One-line description of the method.
    pub fn description(&self) -> (r: &'static str)
        ensures
            r@ == "Baseline: mean band-energy ratio (drone-detect heuristic)"@,
    {
        "Baseline: mean band-energy ratio (drone-detect heuristic)"
    }
}

/// Cepstrum / autocorrelation periodicity detector; scores every clip at the
/// neutral 0.5 until trained scoring is provided.
#[derive(Default)]
pub struct Cepstrum;

impl Cepstrum {
    /// A fresh instance.
    pub fn new() -> (r: Self) {
        Cepstrum
    }

    /// Stable short name of the approach.
    pub fn name(&self) -> (r: &'static str)
        ensures
            r@ == "cepstrum"@,
    {
        "cepstrum"
    }

    /// One-line description of the method.
    pub fn description(&self) -> (r: &'static str)
        ensures
            r@ == "Cepstral / autocorrelation periodicity detector (stub)"@,
    {
        "Cepstral / autocorrelation periodicity detector (stub)"
    }
}

/// Feature-level fusion with logistic regression; scores every clip at the
/// neutral 0.5 until trained scoring is provided.
#[derive(Default)]
pub struct FeatureFusion;

impl FeatureFusion {
    /// A fresh instance.
    pub fn new() -> (r: Self) {
        FeatureFusion
    }

    /// Stable short name of the approach.
    pub fn name(&self) -> (r: &'static str)
        ensures
            r@ == "feature_fusion"@,
    {
        "feature_fusion"
    }

    /// One-line description of the method.
    pub fn description(&self) -> (r: &'static str)
        ensures
            r@ == "Fused MFCC + spectral + harmonic + cepstral features + logistic (stub)"@,
    {
        "Fused MFCC + spectral + harmonic + cepstral features + logistic (stub)"
    }
}

/// Gammatone cepstral coefficients with logistic regression; scores every clip
/// at the neutral 0.5 until trained scoring is provided.
#[derive(Default)]
pub struct GtccLr;

impl GtccLr {
    /// A fresh instance.
    pub fn new() -> (r: Self) {
        GtccLr
    }

    /// Stable short name of the approach.
    pub fn name(&self) -> (r: &'static str)
        ensures
            r@ == "gtcc_lr"@,
    {
        "gtcc_lr"
    }

    /// One-line description of the method.
    pub fn description(&self) -> (r: &'static str)
        ensures
            r@ == "Gammatone cepstral coefficients + logistic regression (stub)"@,
    {
        "Gammatone cepstral coefficients + logistic regression (stub)"
    }
}

/// Harmonic Product Spectrum / harmonic-comb matcher; scores every clip at the
/// neutral 0.5 until trained scoring is provided.
#[derive(Default)]
pub struct Hps;

impl Hps {
    /// A fresh instance.
    pub fn new() -> (r: Self) {
        Hps
    }

    /// Stable short name of the approach.
    pub fn name(&self) -> (r: &'static str)
        ensures
            r@ == "hps"@,
    {
        "hps"
    }

    /// One-line description of the method.
    pub fn description(&self) -> (r: &'static str)
        ensures
            r@ == "Harmonic Product Spectrum / harmonic-comb matcher (stub)"@,
    {
        "Harmonic Product Spectrum / harmonic-comb matcher (stub)"
    }
}

/// MFCC features with logistic regression; scores every clip at the neutral 0.5
/// until trained scoring is provided.
#[derive(Default)]
pub struct MfccLr;

impl MfccLr {
    /// A fresh instance.
    pub fn new() -> (r: Self) {
        MfccLr
    }

    /// Stable short name of the approach.
    pub fn name(&self) -> (r: &'static str)
        ensures
            r@ == "mfcc_lr"@,
    {
        "mfcc_lr"
    }

    /// One-line description of the method.
    pub fn description(&self) -> (r: &'static str)
        ensures
            r@ == "MFCC features + logistic regression (stub)"@,
    {
        "MFCC features + logistic regression (stub)"
    }
}

/// MFCC features with a small multi-layer perceptron; scores every clip at the
/// neutral 0.5 until trained scoring is provided.
#[derive(Default)]
pub struct MfccMlp;

impl MfccMlp {
    /// A fresh instance.
    pub fn new() -> (r: Self) {
        MfccMlp
    }

    /// Stable short name of the approach.
    pub fn name(&self) -> (r: &'static str)
        ensures
            r@ == "mfcc_mlp"@,
    {
        "mfcc_mlp"
    }

    /// One-line description of the method.
    pub fn description(&self) -> (r: &'static str)
        ensures
            r@ == "MFCC features + small MLP (stub)"@,
    {
        "MFCC features + small MLP (stub)"
    }
}

/// Spectral-feature gate over flatness, entropy, centroid and band ratio;
/// scores every clip at the neutral 0.5 until trained scoring is provided.
#[derive(Default)]
pub struct SpectralGate;

impl SpectralGate {
    /// A fresh instance.
    pub fn new() -> (r: Self) {
        SpectralGate
    }

    /// Stable short name of the approach.
    pub fn name(&self) -> (r: &'static str)
        ensures
            r@ == "spectral_gate"@,
    {
        "spectral_gate"
    }

    /// One-line description of the method.
    pub fn description(&self) -> (r: &'static str)
        ensures
            r@ == "Spectral-feature gate: flatness/entropy/centroid/band-ratio (stub)"@,
    {
        "Spectral-feature gate: flatness/entropy/centroid/band-ratio (stub)"
    }
}

} // verus!
