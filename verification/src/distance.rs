//! The distance metrics a collection can use.

use vstd::prelude::*;

verus! {

/// The metric a collection scores queries with. The metric is part of a
/// collection's identity and never changes after creation.
///
/// Scoring itself is floating-point work done by the caller; the library
/// fixes which metric applies and carries the resulting score bit patterns.
#[derive(Debug, Clone, Copy, PartialEq, Eq, Structural)]
pub enum Distance {
    /// Squared L2 distance; the square root is omitted since it does not
    /// change the top-k order.
    Euclidean,
    /// One minus the dot product of unit-normalized vectors; stored vectors
    /// are normalized once at insert time.
    Cosine,
    /// Negated dot product, so that a smaller score is always better.
    DotProduct,
}

impl Distance {
    /// The fixed one-byte tag of this metric in the snapshot format.
    pub fn tag(&self) -> (t: u8)
        ensures
            t == spec_distance_tag(*self),
    {
        match self {
            Distance::Euclidean => 0,
            Distance::Cosine => 1,
            Distance::DotProduct => 2,
        }
    }

    /// The metric a snapshot tag stands for; `None` for an unknown tag.
    pub fn from_tag(t: u8) -> (r: Option<Distance>)
        ensures
            r == spec_distance_from_tag(t),
    {
        if t == 0 {
            Some(Distance::Euclidean)
        } else if t == 1 {
            Some(Distance::Cosine)
        } else if t == 2 {
            Some(Distance::DotProduct)
        } else {
            None
        }
    }
}

/// The snapshot tag of each metric.
pub open spec fn spec_distance_tag(d: Distance) -> u8 {
    match d {
        Distance::Euclidean => 0u8,
        Distance::Cosine => 1u8,
        Distance::DotProduct => 2u8,
    }
}

/// The metric of a snapshot tag, if any.
pub open spec fn spec_distance_from_tag(t: u8) -> Option<Distance> {
    if t == 0 {
        Some(Distance::Euclidean)
    } else if t == 1 {
        Some(Distance::Cosine)
    } else if t == 2 {
        Some(Distance::DotProduct)
    } else {
        None
    }
}

} // verus!
