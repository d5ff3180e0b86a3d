//! The closed set of quantization strategies, their parameter shapes, and
//! the key under which a (strategy, parameters) pair is cached.

use vstd::prelude::*;

verus! {

/// The five quantization strategies.
#[derive(Clone, Copy, PartialEq, Eq, Structural, Debug, Hash)]
pub enum Algorithm {
    AverageDithering,
    ErrorDiffusionDithering,
    OrderedDitheringRandom,
    OrderedDitheringRelative,
    PopularityAlgorithm,
}

/// The family an algorithm belongs to, which fixes the parameter shape it
/// accepts.
#[derive(Clone, Copy, PartialEq, Eq, Structural, Debug)]
pub enum AlgorithmType {
    Dithering,
    Popularity,
}

/// The family of each algorithm: every strategy but the popularity one takes
/// dithering parameters.
pub open spec fn spec_family_of(a: Algorithm) -> AlgorithmType {
    match a {
        Algorithm::AverageDithering => AlgorithmType::Dithering,
        Algorithm::ErrorDiffusionDithering => AlgorithmType::Dithering,
        Algorithm::OrderedDitheringRandom => AlgorithmType::Dithering,
        Algorithm::OrderedDitheringRelative => AlgorithmType::Dithering,
        Algorithm::PopularityAlgorithm => AlgorithmType::Popularity,
    }
}

impl From<Algorithm> for AlgorithmType {
    fn from(value: Algorithm) -> (r: AlgorithmType) {
        match value {
            Algorithm::AverageDithering => AlgorithmType::Dithering,
            Algorithm::ErrorDiffusionDithering => AlgorithmType::Dithering,
            Algorithm::OrderedDitheringRandom => AlgorithmType::Dithering,
            Algorithm::OrderedDitheringRelative => AlgorithmType::Dithering,
            Algorithm::PopularityAlgorithm => AlgorithmType::Popularity,
        }
    }
}

impl vstd::std_specs::convert::FromSpecImpl<Algorithm> for AlgorithmType {
    open spec fn obeys_from_spec() -> bool {
        true
    }

    open spec fn from_spec(v: Algorithm) -> AlgorithmType {
        spec_family_of(v)
    }
}

impl Algorithm {
    /// All five algorithms, in a fixed order, for callers that enumerate
    /// them.
    pub fn all() -> (r: Vec<Algorithm>)
        ensures
            r@ == seq![
                Algorithm::AverageDithering,
                Algorithm::ErrorDiffusionDithering,
                Algorithm::OrderedDitheringRandom,
                Algorithm::OrderedDitheringRelative,
                Algorithm::PopularityAlgorithm,
            ],
    {
        let r = vec![
            Algorithm::AverageDithering,
            Algorithm::ErrorDiffusionDithering,
            Algorithm::OrderedDitheringRandom,
            Algorithm::OrderedDitheringRelative,
            Algorithm::PopularityAlgorithm,
        ];
        proof {
            assert(r@ =~= seq![
                Algorithm::AverageDithering,
                Algorithm::ErrorDiffusionDithering,
                Algorithm::OrderedDitheringRandom,
                Algorithm::OrderedDitheringRelative,
                Algorithm::PopularityAlgorithm,
            ]);
        }
        r
    }

    /// A human-readable name for the algorithm.
    pub fn display_name(&self) -> (r: String)
        ensures
            r@ == match *self {
                Algorithm::AverageDithering => "Average Dithering"@,
                Algorithm::ErrorDiffusionDithering => "Error Diffusion Dithering"@,
                Algorithm::OrderedDitheringRandom => "Ordered Dithering Random"@,
                Algorithm::OrderedDitheringRelative => "Ordered Dithering Relative"@,
                Algorithm::PopularityAlgorithm => "Popularity Algorithm"@,
            },
    {
        match *self {
            Algorithm::AverageDithering => "Average Dithering".to_string(),
            Algorithm::ErrorDiffusionDithering => "Error Diffusion Dithering".to_string(),
            Algorithm::OrderedDitheringRandom => "Ordered Dithering Random".to_string(),
            Algorithm::OrderedDitheringRelative => "Ordered Dithering Relative".to_string(),
            Algorithm::PopularityAlgorithm => "Popularity Algorithm".to_string(),
        }
    }
}

/// The one failure a quantization can report: a popularity palette cannot be
/// built from an image with no pixels.
#[derive(Clone, Copy, PartialEq, Eq, Structural, Debug)]
pub enum QuantizeError {
    EmptyPalette,
}

impl QuantizeError {
    /// A human-readable description of the failure.
    pub fn message(&self) -> (r: String)
        ensures
            r@ == "empty palette: the image has no pixels"@,
    {
        "empty palette: the image has no pixels".to_string()
    }
}

/// Per-channel counts of quantization levels; each must lie in [2, 255].
#[derive(Clone, Copy, PartialEq, Eq, Structural, Debug, Hash)]
pub struct DitheringParameters {
    pub k_r: u8,
    pub k_g: u8,
    pub k_b: u8,
}

impl DitheringParameters {
    /// Validity: at least two levels per channel.
    pub open spec fn valid(&self) -> bool {
        self.k_r >= 2 && self.k_g >= 2 && self.k_b >= 2
    }
}

/// The number of palette colors a popularity quantization keeps; must be at
/// least 2 when it enters the cache.
#[derive(Clone, Copy, PartialEq, Eq, Structural, Debug, Hash)]
pub struct PopularityParameters {
    pub k: usize,
}

/// Parameters, tagged with the family they belong to.
#[derive(Clone, Copy, PartialEq, Eq, Structural, Debug, Hash)]
pub enum AlgorithmParameters {
    Dithering(DitheringParameters),
    Popularity(PopularityParameters),
}

impl AlgorithmParameters {
    /// The family a parameter value belongs to.
    pub open spec fn spec_family(&self) -> AlgorithmType {
        match *self {
            AlgorithmParameters::Dithering(_) => AlgorithmType::Dithering,
            AlgorithmParameters::Popularity(_) => AlgorithmType::Popularity,
        }
    }

    /// Validity of the parameter values themselves: every level count or
    /// palette size is at least 2.
    pub open spec fn valid(&self) -> bool {
        match *self {
            AlgorithmParameters::Dithering(d) => d.valid(),
            AlgorithmParameters::Popularity(p) => p.k >= 2,
        }
    }
}

/// Identifies one quantization result: the algorithm together with its
/// parameters. Keys never encode image identity; the cache must be cleared
/// when the source image changes.
#[derive(Clone, Copy, PartialEq, Eq, Structural, Debug, Hash)]
pub struct AlgorithmCacheKey {
    pub algorithm: Algorithm,
    pub params: AlgorithmParameters,
}

impl AlgorithmCacheKey {
    /// A key is well-formed when its parameter shape matches the algorithm's
    /// family and the parameter values are in range. Building a mismatched
    /// key is a programming error on the caller's side.
    pub open spec fn wf(&self) -> bool {
        spec_family_of(self.algorithm) == self.params.spec_family() && self.params.valid()
    }
}

} // verus!
