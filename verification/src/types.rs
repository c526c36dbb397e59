use vstd::prelude::*;

verus! {

/// The distance or similarity function under which raw scores were computed.
#[derive(Debug, Clone, Copy, PartialEq, Eq, Hash, Structural)]
pub enum MetricType {
    Undefined,
    /// Squared Euclidean distance: smaller is more similar.
    L2,
    /// Inner product: larger is more similar.
    Ip,
    /// Cosine distance, conventionally in `[0, 2]`: smaller is more similar.
    Cosine,
    MipsL2,
}

/// The rule that brings a raw score onto the common scale on which scores of
/// different lists are summed. The rule is chosen here; the arithmetic is the
/// caller's.
#[derive(Debug, Clone, Copy, PartialEq, Eq, Hash, Structural)]
pub enum Normalization {
    /// `1 - (2 / pi) * atan(raw)`, for a distance without upper bound.
    ArctanDistance,
    /// `0.5 + atan(raw) / pi`, for a similarity without bounds.
    ArctanSimilarity,
    /// `1 - raw / 2`, for a distance in `[0, 2]`.
    HalfComplement,
    /// The raw score as it is.
    Identity,
}

impl MetricType {
    /// The normalization that belongs to each metric.
    pub open spec fn spec_normalization(self) -> Normalization {
        match self {
            MetricType::L2 => Normalization::ArctanDistance,
            MetricType::Ip => Normalization::ArctanSimilarity,
            MetricType::Cosine => Normalization::HalfComplement,
            MetricType::Undefined => Normalization::Identity,
            MetricType::MipsL2 => Normalization::Identity,
        }
    }

    /// Chooses the normalization for scores computed under this metric. Every
    /// metric other than `L2`, `Ip` and `Cosine` passes its scores through.
    #[verifier::when_used_as_spec(spec_normalization)]
    pub fn normalization(self) -> (rule: Normalization)
        ensures
            rule == self.spec_normalization(),
    {
        match self {
            MetricType::L2 => Normalization::ArctanDistance,
            MetricType::Ip => Normalization::ArctanSimilarity,
            MetricType::Cosine => Normalization::HalfComplement,
            _ => Normalization::Identity,
        }
    }
}

} // verus!
