use vstd::prelude::*;

verus! {

/// How the distance between a query and a stored vector is measured.
/// Computing a distance is floating-point work and happens outside this
/// crate; the crate orders and selects by the distances it is given.
#[derive(Debug, Clone, Copy, PartialEq, Eq, Structural)]
pub enum DistanceMetric {
    Euclidean,
    Cosine,
    Dot,
}

/// The byte that stands for each metric.
pub open spec fn metric_code(metric: DistanceMetric) -> u8 {
    match metric {
        DistanceMetric::Euclidean => 0,
        DistanceMetric::Cosine => 1,
        DistanceMetric::Dot => 2,
    }
}

/// The metric that a byte stands for, if any.
pub open spec fn metric_of_code(value: u8) -> Option<DistanceMetric> {
    if value == 0 {
        Some(DistanceMetric::Euclidean)
    } else if value == 1 {
        Some(DistanceMetric::Cosine)
    } else if value == 2 {
        Some(DistanceMetric::Dot)
    } else {
        None
    }
}

impl DistanceMetric {
    /// The byte that stands for this metric.
    pub fn to_u8(self) -> (code: u8)
        ensures
            code == metric_code(self),
    {
        match self {
            DistanceMetric::Euclidean => 0,
            DistanceMetric::Cosine => 1,
            DistanceMetric::Dot => 2,
        }
    }

    /// The metric that `value` stands for, if any.
    pub fn from_u8(value: u8) -> (metric: Option<Self>)
        ensures
            metric == metric_of_code(value),
    {
        match value {
            0 => Some(DistanceMetric::Euclidean),
            1 => Some(DistanceMetric::Cosine),
            2 => Some(DistanceMetric::Dot),
            _ => None,
        }
    }
}

/// Decoding the byte of a metric gives the metric back, and a byte that
/// decodes to a metric is that metric's byte.
pub proof fn lemma_metric_code_round_trip(metric: DistanceMetric, value: u8)
    ensures
        metric_of_code(metric_code(metric)) == Some(metric),
        metric_of_code(value) == Some(metric) ==> metric_code(metric) == value,
{
}

} // verus!
