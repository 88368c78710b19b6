//! The shared data model: catalog input types, the user filter, and the
//! assembled output types.
//!
//! Every numeric measurement (effect size, negative-log10 significance) is a
//! signed fixed-point `i64`; callers pick the scale once at ingestion.

use vstd::prelude::*;

use crate::bitmap;
use roaring::RoaringTreemap;

verus! {

/// One fixed-size genomic window: chromosome index plus bucket index.
/// Total order is lexicographic by `(chrom, idx)`.
#[derive(Clone, Copy, PartialEq, Eq, Structural, Debug)]
pub struct BucketLoc {
    pub chrom: u8,
    pub idx: u32,
}

impl BucketLoc {
    /// Strict lexicographic order by `(chrom, idx)`.
    pub open spec fn lt(self, other: BucketLoc) -> bool {
        self.chrom < other.chrom || (self.chrom == other.chrom && self.idx < other.idx)
    }
}

/// One directional regulatory-element observation.
pub struct ObservationData {
    pub reo_id: u64,
    pub source_id: u64,
    pub target_id: Option<u64>,
    /// Signed fixed-point effect size.
    pub effect_size: i64,
    /// Fixed-point negative-log10 significance (larger = more significant).
    pub neg_log_significance: i64,
    /// Categorical facet-value ids attached to this observation.
    pub facet_value_ids: Vec<u64>,
}

#[verifier::ext_equal]
pub ghost struct ObsView {
    pub reo_id: u64,
    pub source_id: u64,
    pub target_id: Option<u64>,
    pub effect_size: i64,
    pub neg_log_significance: i64,
    pub facet_value_ids: Seq<u64>,
}

impl View for ObservationData {
    type V = ObsView;

    open spec fn view(&self) -> ObsView {
        ObsView {
            reo_id: self.reo_id,
            source_id: self.source_id,
            target_id: self.target_id,
            effect_size: self.effect_size,
            neg_log_significance: self.neg_log_significance,
            facet_value_ids: self.facet_value_ids@,
        }
    }
}

impl ObsView {
    /// The fixed-point encoding never produces `i64::MIN`, so the absolute
    /// value of an effect size always fits in `i64`.
    pub open spec fn wf(self) -> bool {
        self.effect_size != i64::MIN
    }
}

/// The view of a sequence of observations.
pub open spec fn obs_seq_view(s: Seq<ObservationData>) -> Seq<ObsView> {
    s.map_values(|o: ObservationData| o@)
}

/// Whether a facet classifies observations by categorical values or by a
/// numeric range.
#[derive(Clone, Copy, PartialEq, Eq, Structural, Debug)]
pub enum FacetKind {
    Categorical,
    Numeric,
}

/// The well-known facet roles the engine needs, resolved once at catalog
/// load time (instead of looking facets up by display name per query).
#[derive(Clone, Copy, PartialEq, Eq, Structural, Debug)]
pub enum FacetRole {
    EffectSize,
    Significance,
    Direction,
    Other,
}

/// One categorical facet value. `nonsignificant` marks the reserved
/// "non-significant" value of the Direction facet, resolved at load time.
#[derive(Clone, Copy, PartialEq, Eq, Structural, Debug)]
pub struct FacetValue {
    pub id: u64,
    pub nonsignificant: bool,
}

/// One facet definition of the catalog.
pub struct Facet {
    pub kind: FacetKind,
    pub role: FacetRole,
    /// The value ids a categorical facet can attach to an observation.
    pub values: Option<Vec<FacetValue>>,
    /// Dataset-wide effect-size range, where declared.
    pub range: Option<(i64, i64)>,
    /// Dataset-wide significance range, where declared.
    pub range64: Option<(i64, i64)>,
}

#[verifier::ext_equal]
pub ghost struct FacetView {
    pub kind: FacetKind,
    pub role: FacetRole,
    pub values: Option<Seq<FacetValue>>,
    pub range: Option<(i64, i64)>,
    pub range64: Option<(i64, i64)>,
}

impl View for Facet {
    type V = FacetView;

    open spec fn view(&self) -> FacetView {
        FacetView {
            kind: self.kind,
            role: self.role,
            values: match self.values {
                Some(ref v) => Some(v@),
                None => None,
            },
            range: self.range,
            range64: self.range64,
        }
    }
}

/// The view of a sequence of facets.
pub open spec fn facet_seq_view(s: Seq<Facet>) -> Seq<FacetView> {
    s.map_values(|f: Facet| f@)
}

/// One chromosome of the catalog: display name and index.
pub struct ChromosomeInfo {
    pub chrom: String,
    pub index: u8,
}

/// Mapping from feature id to its bucket location. Lookup misses are
/// expected and absorbed by callers, never an error.
pub struct FeatureBuckets {
    pub entries: Vec<(u64, BucketLoc)>,
}

/// First-match lookup over the entry sequence.
pub open spec fn fb_lookup(entries: Seq<(u64, BucketLoc)>, id: u64) -> Option<BucketLoc>
    decreases entries.len(),
{
    if entries.len() == 0 {
        None
    } else if entries[0].0 == id {
        Some(entries[0].1)
    } else {
        fb_lookup(entries.skip(1), id)
    }
}

/// A successful lookup returns a location the table holds.
pub proof fn lemma_fb_lookup_member(entries: Seq<(u64, BucketLoc)>, id: u64)
    requires
        fb_lookup(entries, id) is Some,
    ensures
        exists|k: int|
            0 <= k < entries.len() && (#[trigger] entries[k]).1 == fb_lookup(entries, id)->Some_0,
    decreases entries.len(),
{
    if entries.len() != 0 {
        if entries[0].0 == id {
            assert(entries[0].1 == fb_lookup(entries, id)->Some_0);
        } else {
            lemma_fb_lookup_member(entries.skip(1), id);
            let k = choose|k: int|
                0 <= k < entries.skip(1).len() && (#[trigger] entries.skip(1)[k]).1 == fb_lookup(
                    entries.skip(1),
                    id,
                )->Some_0;
            assert(entries[k + 1].1 == fb_lookup(entries, id)->Some_0);
        }
    }
}

impl View for FeatureBuckets {
    type V = Seq<(u64, BucketLoc)>;

    open spec fn view(&self) -> Seq<(u64, BucketLoc)> {
        self.entries@
    }
}

impl FeatureBuckets {
    /// What `id` maps to, if anything.
    pub open spec fn spec_lookup(self, id: u64) -> Option<BucketLoc> {
        fb_lookup(self@, id)
    }

    pub fn new() -> (r: FeatureBuckets)
        ensures
            r@ =~= Seq::<(u64, BucketLoc)>::empty(),
    {
        FeatureBuckets { entries: Vec::new() }
    }

    /// Record that feature `id` lives in bucket `loc`.
    pub fn insert(&mut self, id: u64, loc: BucketLoc)
        ensures
            final(self)@ == old(self)@.push((id, loc)),
    {
        self.entries.push((id, loc));
    }

    /// Resolve a feature id to its bucket location.
    pub fn get(&self, id: u64) -> (r: Option<BucketLoc>)
        ensures
            r == self.spec_lookup(id),
    {
        let n: usize = self.entries.len();
        let mut i: usize = 0;
        assert(self@.skip(0) =~= self@);
        while i < n
            invariant
                0 <= i <= n,
                n == self.entries.len(),
                fb_lookup(self@.skip(i as int), id) == fb_lookup(self@, id),
                forall|k: int| 0 <= k < i ==> self@[k].0 != id,
            decreases n - i,
        {
            if self.entries[i].0 == id {
                assert(self@.skip(i as int)[0] == self@[i as int]);
                return Some(self.entries[i].1);
            }
            assert(self@.skip(i as int).skip(1) =~= self@.skip(i + 1));
            i = i + 1;
        }
        assert(self@.skip(i as int) =~= Seq::<(u64, BucketLoc)>::empty());
        None
    }
}

/// A precomputed feature-id restriction: sources and targets that an
/// external intersection step selected.
pub struct ExperimentFeatureData {
    pub sources: RoaringTreemap,
    pub targets: RoaringTreemap,
}

#[verifier::ext_equal]
pub ghost struct ExperimentFeatureView {
    pub sources: Set<u64>,
    pub targets: Set<u64>,
}

impl View for ExperimentFeatureData {
    type V = ExperimentFeatureView;

    open spec fn view(&self) -> ExperimentFeatureView {
        ExperimentFeatureView {
            sources: bitmap::tm_set(self.sources),
            targets: bitmap::tm_set(self.targets),
        }
    }
}

/// The closed numeric intervals a filter restricts to. `i64::MIN` and
/// `i64::MAX` are the unbounded endpoints.
#[derive(Clone, Copy, PartialEq, Eq, Debug)]
pub struct FilterIntervals {
    pub effect: (i64, i64),
    pub sig: (i64, i64),
}

impl FilterIntervals {
    /// The unrestricted interval pair.
    pub fn new() -> (r: FilterIntervals)
        ensures
            r.effect == (i64::MIN, i64::MAX),
            r.sig == (i64::MIN, i64::MAX),
    {
        FilterIntervals { effect: (i64::MIN, i64::MAX), sig: (i64::MIN, i64::MAX) }
    }
}

/// A user filter: optional chromosome restriction, selected categorical
/// facet values, optional numeric intervals.
pub struct Filter {
    pub chrom: Option<u8>,
    pub categorical_facets: Vec<u64>,
    pub numeric_intervals: Option<FilterIntervals>,
}

#[verifier::ext_equal]
pub ghost struct FilterView {
    pub chrom: Option<u8>,
    pub categorical_facets: Seq<u64>,
    pub numeric_intervals: Option<FilterIntervals>,
}

impl View for Filter {
    type V = FilterView;

    open spec fn view(&self) -> FilterView {
        FilterView {
            chrom: self.chrom,
            categorical_facets: self.categorical_facets@,
            numeric_intervals: self.numeric_intervals,
        }
    }
}

impl Filter {
    /// The empty filter: no restriction at all.
    pub fn new() -> (r: Filter)
        ensures
            r@.chrom is None,
            r@.categorical_facets =~= Seq::<u64>::empty(),
            r@.numeric_intervals is None,
    {
        Filter { chrom: None, categorical_facets: Vec::new(), numeric_intervals: None }
    }
}

/// The immutable in-memory catalog the engine filters.
pub struct CoverageData {
    pub significant_observations: Vec<ObservationData>,
    pub nonsignificant_observations: Vec<ObservationData>,
    pub bucket_size: u32,
    pub chromosomes: Vec<ChromosomeInfo>,
    pub facets: Vec<Facet>,
    pub feature_buckets: FeatureBuckets,
}

impl CoverageData {
    /// Catalog well-formedness: chromosomes are listed in index order, every
    /// bucket location points at a listed chromosome, every categorical facet
    /// lists its values, and every observation carries a representable effect
    /// size.
    pub open spec fn wf(self) -> bool {
        &&& self.bucket_size >= 1
        &&& self.chromosomes@.len() <= 256
        &&& forall|i: int|
            0 <= i < self.facets@.len() && (#[trigger] self.facets@[i]@).kind
                == FacetKind::Categorical ==> self.facets@[i]@.values is Some
        &&& forall|i: int|
            0 <= i < self.chromosomes@.len() ==> #[trigger] self.chromosomes@[i].index == i as u8
        &&& forall|i: int|
            0 <= i < self.feature_buckets@.len() ==> (#[trigger] self.feature_buckets@[i].1.chrom
                as int) < self.chromosomes@.len()
        &&& forall|i: int|
            0 <= i < self.significant_observations@.len()
                ==> (#[trigger] self.significant_observations@[i]@).wf()
        &&& forall|i: int|
            0 <= i < self.nonsignificant_observations@.len()
                ==> (#[trigger] self.nonsignificant_observations@[i]@).wf()
    }
}

/// One output interval: a bucket with at least one included feature.
pub struct FilteredBucket {
    /// Genomic start coordinate: `bucket_index * bucket_size + 1`.
    pub start: u64,
    /// Number of distinct included features in this bucket.
    pub count: u64,
    /// Flat list of alternating `(chromosome index, bucket index)` pairs
    /// naming every bucket holding an opposite-role feature connected to an
    /// included feature of this bucket; deduplicated, unordered.
    pub associated_buckets: Vec<u32>,
    /// Largest significance among contributing observations.
    pub max_log10_sig: i64,
    /// The contributing effect size of largest absolute value, sign kept.
    pub max_abs_effect: i64,
}

#[verifier::ext_equal]
pub ghost struct FilteredBucketView {
    pub start: u64,
    pub count: u64,
    pub associated_buckets: Seq<u32>,
    pub max_log10_sig: i64,
    pub max_abs_effect: i64,
}

impl View for FilteredBucket {
    type V = FilteredBucketView;

    open spec fn view(&self) -> FilteredBucketView {
        FilteredBucketView {
            start: self.start,
            count: self.count,
            associated_buckets: self.associated_buckets@,
            max_log10_sig: self.max_log10_sig,
            max_abs_effect: self.max_abs_effect,
        }
    }
}

/// The view of an interval list.
pub open spec fn bucket_seq_view(s: Seq<FilteredBucket>) -> Seq<FilteredBucketView> {
    s.map_values(|b: FilteredBucket| b@)
}

/// A sequence of output intervals is strictly ascending by start coordinate.
pub open spec fn intervals_sorted(s: Seq<FilteredBucketView>) -> bool {
    forall|i: int, j: int| 0 <= i < j < s.len() ==> #[trigger] s[i].start < #[trigger] s[j].start
}

/// One chromosome of the output: sparse, start-ascending interval lists for
/// the source role and the target role.
pub struct FilteredChromosome {
    pub chrom: String,
    pub index: u8,
    pub bucket_size: u32,
    pub target_intervals: Vec<FilteredBucket>,
    pub source_intervals: Vec<FilteredBucket>,
}

#[verifier::ext_equal]
pub ghost struct FilteredChromosomeView {
    pub chrom: Seq<char>,
    pub index: u8,
    pub bucket_size: u32,
    pub target_intervals: Seq<FilteredBucketView>,
    pub source_intervals: Seq<FilteredBucketView>,
}

impl View for FilteredChromosome {
    type V = FilteredChromosomeView;

    open spec fn view(&self) -> FilteredChromosomeView {
        FilteredChromosomeView {
            chrom: self.chrom@,
            index: self.index,
            bucket_size: self.bucket_size,
            target_intervals: bucket_seq_view(self.target_intervals@),
            source_intervals: bucket_seq_view(self.source_intervals@),
        }
    }
}

/// The view of a chromosome list.
pub open spec fn chrom_seq_view(s: Seq<FilteredChromosome>) -> Seq<FilteredChromosomeView> {
    s.map_values(|c: FilteredChromosome| c@)
}

/// The assembled result of one filter invocation, or of a merge.
pub struct FilteredData {
    pub chromosomes: Vec<FilteredChromosome>,
    pub bucket_size: u32,
    /// The numeric interval actually realized among included observations.
    pub numeric_intervals: FilterIntervals,
    /// Count of distinct included observations.
    pub reo_count: u64,
    /// All included source feature ids.
    pub sources: RoaringTreemap,
    /// All included target feature ids.
    pub targets: RoaringTreemap,
}

#[verifier::ext_equal]
pub ghost struct FilteredDataView {
    pub chromosomes: Seq<FilteredChromosomeView>,
    pub bucket_size: u32,
    pub numeric_intervals: FilterIntervals,
    pub reo_count: u64,
    pub sources: Set<u64>,
    pub targets: Set<u64>,
}

impl View for FilteredData {
    type V = FilteredDataView;

    open spec fn view(&self) -> FilteredDataView {
        FilteredDataView {
            chromosomes: chrom_seq_view(self.chromosomes@),
            bucket_size: self.bucket_size,
            numeric_intervals: self.numeric_intervals,
            reo_count: self.reo_count,
            sources: bitmap::tm_set(self.sources),
            targets: bitmap::tm_set(self.targets),
        }
    }
}

/// The errors the engine surfaces. Lookup misses are not among them: they
/// are silently absorbed where they occur.
#[derive(Clone, Copy, PartialEq, Eq, Structural, Debug)]
pub enum CoverageError {
    /// No facet declares the dataset-wide effect-size range.
    MissingEffectSizeFacet,
    /// No facet declares the dataset-wide significance range.
    MissingSignificanceFacet,
    /// No categorical facet plays the Direction role.
    MissingDirectionFacet,
}

} // verus!
