//! Filtering and spatial aggregation of genomic regulatory-element
//! observations for coverage-track visualization.
//!
//! The pipeline evaluates a user filter against each observation of an
//! in-memory catalog, accumulates the passing observations into fixed-size
//! genomic buckets (tracking membership bitmaps and numeric extrema per
//! bucket and per role), reduces independently produced per-chunk bucket
//! maps, and assembles the reduced maps into sorted, sparse per-chromosome
//! interval lists.  Independently produced result sets can be merged by an
//! ordered merge-join on bucket start coordinate.
//!
//! Effect sizes and significance values are signed fixed-point integers:
//! callers convert floating-point measurements at the boundary, once, and
//! every comparison inside the library is exact.

pub mod bitmap;
pub mod bucket_list;
pub mod data;
pub mod facets;
pub mod intersect;
pub mod aggregate;
pub mod assemble;
pub mod filter;
pub mod merge;
pub mod pipeline;
pub mod reduce;

pub use bucket_list::BucketList;
pub use data::{
    BucketLoc, CoverageData, ChromosomeInfo, CoverageError, ExperimentFeatureData, Facet,
    FacetKind, FacetRole, FacetValue, FeatureBuckets, Filter, FilterIntervals, FilteredBucket,
    FilteredChromosome, FilteredData, ObservationData,
};
pub use facets::FilterContext;
pub use filter::{filter_observations, observation_included};
pub use aggregate::{BucketData, BucketMap, ChunkResult, aggregate_chunk, update_buckets};
pub use intersect::intersect_coverage_data_features;
pub use merge::merge_filtered_data;
pub use pipeline::{assemble_filtered_data, filter_coverage_data};
pub use reduce::{reduce_chunk_results, update_bucket_map};
