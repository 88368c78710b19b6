//! Intersection of per-experiment feature-id sets: the features common to
//! every dataset, per role.

use vstd::prelude::*;

use crate::bitmap::{self, tm_set};
use crate::data::{ExperimentFeatureData, ExperimentFeatureView};

verus! {

/// The views of a sequence of feature-data values.
pub open spec fn efd_seq_view(s: Seq<ExperimentFeatureData>) -> Seq<ExperimentFeatureView> {
    s.map_values(|d: ExperimentFeatureData| d@)
}

/// The intersection of the first `i` source sets (at least one).
pub open spec fn fold_source_intersection(v: Seq<ExperimentFeatureView>, i: int) -> Set<u64>
    decreases i,
{
    if i <= 1 {
        v[0].sources
    } else {
        fold_source_intersection(v, i - 1).intersect(v[i - 1].sources)
    }
}

/// The intersection of the first `i` target sets (at least one).
pub open spec fn fold_target_intersection(v: Seq<ExperimentFeatureView>, i: int) -> Set<u64>
    decreases i,
{
    if i <= 1 {
        v[0].targets
    } else {
        fold_target_intersection(v, i - 1).intersect(v[i - 1].targets)
    }
}

impl std::default::Default for ExperimentFeatureData {
    /// The empty restriction: no sources, no targets.
    fn default() -> (r: ExperimentFeatureData)
        ensures
            r@.sources == Set::<u64>::empty(),
            r@.targets == Set::<u64>::empty(),
    {
        ExperimentFeatureData { sources: bitmap::empty_id_set(), targets: bitmap::empty_id_set() }
    }
}

/// Intersect the feature-id sets of every dataset, per role; the empty input
/// yields the empty restriction.
#[verifier::loop_isolation(false)]
pub fn intersect_coverage_data_features(feature_data: Vec<ExperimentFeatureData>) -> (r:
    ExperimentFeatureData)
    ensures
        ({
            let v = efd_seq_view(feature_data@);
            if v.len() == 0 {
                r@.sources == Set::<u64>::empty() && r@.targets == Set::<u64>::empty()
            } else {
                r@.sources == fold_source_intersection(v, v.len() as int) && r@.targets
                    == fold_target_intersection(v, v.len() as int)
            }
        }),
{
    let ghost v = efd_seq_view(feature_data@);
    if feature_data.len() == 0 {
        return ExperimentFeatureData::default();
    }
    let mut sources = bitmap::tm_clone(&feature_data[0].sources);
    let mut targets = bitmap::tm_clone(&feature_data[0].targets);
    let n: usize = feature_data.len();
    let mut i: usize = 1;
    while i < n
        invariant
            1 <= i <= n,
            tm_set(sources) == fold_source_intersection(v, i as int),
            tm_set(targets) == fold_target_intersection(v, i as int),
        decreases n - i,
    {
        proof {
            assert(v[i as int] == feature_data@[i as int]@);
        }
        sources = bitmap::tm_intersection(&sources, &feature_data[i].sources);
        targets = bitmap::tm_intersection(&targets, &feature_data[i].targets);
        i = i + 1;
    }
    ExperimentFeatureData { sources, targets }
}

} // verus!
