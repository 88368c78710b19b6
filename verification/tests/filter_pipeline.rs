use coverage_filter::{
    BucketLoc, ChromosomeInfo, CoverageData, CoverageError, ExperimentFeatureData, Facet,
    FacetKind, FacetRole, FacetValue, FeatureBuckets, Filter, FilterIntervals, ObservationData,
    filter_coverage_data,
};

const ENRICHED: u64 = 10;
const DEPLETED: u64 = 11;
const NONSIG: u64 = 12;

fn base_facets() -> Vec<Facet> {
    vec![
        Facet {
            kind: FacetKind::Numeric,
            role: FacetRole::EffectSize,
            values: None,
            range: Some((-1_000_000, 1_000_000)),
            range64: None,
        },
        Facet {
            kind: FacetKind::Numeric,
            role: FacetRole::Significance,
            values: None,
            range: None,
            range64: Some((0, 1_000_000)),
        },
        Facet {
            kind: FacetKind::Categorical,
            role: FacetRole::Direction,
            values: Some(vec![
                FacetValue { id: ENRICHED, nonsignificant: false },
                FacetValue { id: DEPLETED, nonsignificant: false },
                FacetValue { id: NONSIG, nonsignificant: true },
            ]),
            range: None,
            range64: None,
        },
    ]
}

fn obs(
    reo_id: u64,
    source_id: u64,
    target_id: Option<u64>,
    eff: i64,
    sig: i64,
    tags: Vec<u64>,
) -> ObservationData {
    ObservationData {
        reo_id,
        source_id,
        target_id,
        effect_size: eff,
        neg_log_significance: sig,
        facet_value_ids: tags,
    }
}

fn one_chrom_catalog(
    sig_obs: Vec<ObservationData>,
    nonsig_obs: Vec<ObservationData>,
    fb: FeatureBuckets,
) -> CoverageData {
    CoverageData {
        significant_observations: sig_obs,
        nonsignificant_observations: nonsig_obs,
        bucket_size: 1000,
        chromosomes: vec![ChromosomeInfo { chrom: "chr1".to_string(), index: 0 }],
        facets: base_facets(),
        feature_buckets: fb,
    }
}

#[test]
fn one_chromosome_two_observations_one_passes() {
    // Two observations, both landing in bucket 0 as sources; only the one
    // with the selected facet value passes.
    let mut fb = FeatureBuckets::new();
    fb.insert(100, BucketLoc { chrom: 0, idx: 0 });
    fb.insert(101, BucketLoc { chrom: 0, idx: 0 });
    let data = one_chrom_catalog(
        vec![
            obs(1, 100, None, 5, 30, vec![ENRICHED]),
            obs(2, 101, None, -3, 40, vec![DEPLETED]),
        ],
        vec![],
        fb,
    );
    let mut filter = Filter::new();
    filter.categorical_facets = vec![ENRICHED];
    let out = filter_coverage_data(&filter, &data, None).unwrap();
    assert_eq!(out.chromosomes.len(), 1);
    assert_eq!(out.chromosomes[0].chrom, "chr1");
    let src = &out.chromosomes[0].source_intervals;
    assert_eq!(src.len(), 1);
    assert_eq!(src[0].start, 1);
    assert_eq!(src[0].count, 1);
    assert_eq!(out.reo_count, 1);
    assert!(out.sources.contains(100));
    assert!(!out.sources.contains(101));
}

#[test]
fn empty_filter_aggregates_all_significant_observations() {
    // An empty categorical selection and no numeric interval: every
    // significant observation is aggregated, untouched, while the
    // non-significant collection stays excluded by default.
    let mut fb = FeatureBuckets::new();
    fb.insert(100, BucketLoc { chrom: 0, idx: 0 });
    fb.insert(101, BucketLoc { chrom: 0, idx: 2 });
    fb.insert(200, BucketLoc { chrom: 0, idx: 4 });
    let data = one_chrom_catalog(
        vec![
            obs(1, 100, None, 5, 30, vec![ENRICHED]),
            obs(2, 101, None, -3, 40, vec![DEPLETED]),
        ],
        vec![obs(3, 200, None, 1, 1, vec![NONSIG])],
        fb,
    );
    let filter = Filter::new();
    let out = filter_coverage_data(&filter, &data, None).unwrap();
    let src = &out.chromosomes[0].source_intervals;
    assert_eq!(src.len(), 2);
    assert_eq!(src[0].start, 1);
    assert_eq!(src[1].start, 2001);
    assert_eq!(out.reo_count, 2);
    assert!(!out.sources.contains(200));
    // Realized interval reflects what was observed.
    assert_eq!(out.numeric_intervals.effect, (-3, 5));
    assert_eq!(out.numeric_intervals.sig, (30, 40));
}

#[test]
fn nonsignificant_collection_skipped_when_direction_selected_without_nonsig() {
    // Direction actively filtered, non-significant value not selected: the
    // non-significant collection contributes nothing.
    let mut fb = FeatureBuckets::new();
    fb.insert(100, BucketLoc { chrom: 0, idx: 0 });
    fb.insert(200, BucketLoc { chrom: 0, idx: 1 });
    let data = one_chrom_catalog(
        vec![obs(1, 100, None, 5, 30, vec![ENRICHED])],
        vec![obs(2, 200, None, 1, 1, vec![NONSIG])],
        fb,
    );
    let mut filter = Filter::new();
    filter.categorical_facets = vec![ENRICHED, DEPLETED];
    let out = filter_coverage_data(&filter, &data, None).unwrap();
    assert_eq!(out.reo_count, 1);
    assert_eq!(out.chromosomes[0].source_intervals.len(), 1);
    assert!(!out.sources.contains(200));
}

#[test]
fn nonsignificant_collection_included_when_its_value_is_selected() {
    let mut fb = FeatureBuckets::new();
    fb.insert(100, BucketLoc { chrom: 0, idx: 0 });
    fb.insert(200, BucketLoc { chrom: 0, idx: 1 });
    let data = one_chrom_catalog(
        vec![obs(1, 100, None, 5, 30, vec![ENRICHED])],
        vec![obs(2, 200, None, 1, 1, vec![NONSIG])],
        fb,
    );
    let mut filter = Filter::new();
    filter.categorical_facets = vec![NONSIG];
    let out = filter_coverage_data(&filter, &data, None).unwrap();
    // Only the non-significant observation carries the selected value.
    assert_eq!(out.reo_count, 1);
    assert!(out.sources.contains(200));
    assert!(!out.sources.contains(100));
}

#[test]
fn numeric_interval_bounds_are_inclusive() {
    let mut fb = FeatureBuckets::new();
    fb.insert(100, BucketLoc { chrom: 0, idx: 0 });
    fb.insert(101, BucketLoc { chrom: 0, idx: 1 });
    fb.insert(102, BucketLoc { chrom: 0, idx: 2 });
    let data = one_chrom_catalog(
        vec![
            obs(1, 100, None, 5, 30, vec![ENRICHED]),
            obs(2, 101, None, 6, 30, vec![ENRICHED]),
            obs(3, 102, None, 4, 30, vec![ENRICHED]),
        ],
        vec![],
        fb,
    );
    let mut filter = Filter::new();
    filter.numeric_intervals = Some(FilterIntervals { effect: (5, 6), sig: (0, 100) });
    let out = filter_coverage_data(&filter, &data, None).unwrap();
    // 5 and 6 are inside the closed interval, 4 is not.
    assert_eq!(out.reo_count, 2);
    assert!(out.sources.contains(100));
    assert!(out.sources.contains(101));
    assert!(!out.sources.contains(102));
}

#[test]
fn feature_restriction_requires_a_target_inside_the_set() {
    let mut fb = FeatureBuckets::new();
    fb.insert(100, BucketLoc { chrom: 0, idx: 0 });
    fb.insert(101, BucketLoc { chrom: 0, idx: 1 });
    fb.insert(500, BucketLoc { chrom: 0, idx: 5 });
    fb.insert(501, BucketLoc { chrom: 0, idx: 6 });
    let data = one_chrom_catalog(
        vec![
            obs(1, 100, Some(500), 5, 30, vec![ENRICHED]),
            obs(2, 101, Some(501), 5, 30, vec![ENRICHED]),
            obs(3, 101, None, 5, 30, vec![ENRICHED]),
        ],
        vec![],
        fb,
    );
    let restriction = ExperimentFeatureData {
        sources: roaring::RoaringTreemap::new(),
        targets: roaring::RoaringTreemap::from_iter([500u64]),
    };
    let filter = Filter::new();
    let out = filter_coverage_data(&filter, &data, Some(&restriction)).unwrap();
    // Only the observation targeting feature 500 survives; the targetless
    // observation is excluded.
    assert_eq!(out.reo_count, 1);
    assert!(out.sources.contains(100));
    assert!(out.targets.contains(500));
    assert!(!out.targets.contains(501));
}

#[test]
fn unmapped_features_are_silently_skipped() {
    // Feature 999 has no bucket location: its contribution is dropped, not
    // an error, but the observation still counts as included.
    let mut fb = FeatureBuckets::new();
    fb.insert(100, BucketLoc { chrom: 0, idx: 0 });
    let data = one_chrom_catalog(
        vec![
            obs(1, 100, None, 5, 30, vec![ENRICHED]),
            obs(2, 999, None, 7, 40, vec![ENRICHED]),
        ],
        vec![],
        fb,
    );
    let filter = Filter::new();
    let out = filter_coverage_data(&filter, &data, None).unwrap();
    assert_eq!(out.reo_count, 2);
    assert_eq!(out.chromosomes[0].source_intervals.len(), 1);
    assert_eq!(out.chromosomes[0].source_intervals[0].count, 1);
}

#[test]
fn associated_buckets_name_the_opposite_role_locations() {
    let mut fb = FeatureBuckets::new();
    fb.insert(100, BucketLoc { chrom: 0, idx: 0 });
    fb.insert(500, BucketLoc { chrom: 0, idx: 7 });
    let data = one_chrom_catalog(vec![obs(1, 100, Some(500), 5, 30, vec![ENRICHED])], vec![], fb);
    let filter = Filter::new();
    let out = filter_coverage_data(&filter, &data, None).unwrap();
    let src = &out.chromosomes[0].source_intervals;
    assert_eq!(src.len(), 1);
    assert_eq!(src[0].associated_buckets, vec![0, 7]);
    let tgt = &out.chromosomes[0].target_intervals;
    assert_eq!(tgt.len(), 1);
    assert_eq!(tgt[0].start, 7 * 1000 + 1);
    assert_eq!(tgt[0].associated_buckets, vec![0, 0]);
}

#[test]
fn magnitude_of_reported_effect_is_preserved_with_sign() {
    // Effects 5 and -7 in one bucket: the reported effect is -7.
    let mut fb = FeatureBuckets::new();
    fb.insert(100, BucketLoc { chrom: 0, idx: 0 });
    fb.insert(101, BucketLoc { chrom: 0, idx: 0 });
    let data = one_chrom_catalog(
        vec![
            obs(1, 100, None, 5, 30, vec![ENRICHED]),
            obs(2, 101, None, -7, 40, vec![ENRICHED]),
        ],
        vec![],
        fb,
    );
    let filter = Filter::new();
    let out = filter_coverage_data(&filter, &data, None).unwrap();
    let src = &out.chromosomes[0].source_intervals;
    assert_eq!(src.len(), 1);
    assert_eq!(src[0].count, 2);
    assert_eq!(src[0].max_abs_effect, -7);
    assert_eq!(src[0].max_log10_sig, 40);
}

#[test]
fn missing_effect_size_facet_is_an_error_without_intervals() {
    let mut facets = base_facets();
    facets.remove(0);
    let data = CoverageData {
        significant_observations: vec![],
        nonsignificant_observations: vec![],
        bucket_size: 1000,
        chromosomes: vec![ChromosomeInfo { chrom: "chr1".to_string(), index: 0 }],
        facets,
        feature_buckets: FeatureBuckets::new(),
    };
    let filter = Filter::new();
    let err = match filter_coverage_data(&filter, &data, None) {
        Err(e) => e,
        Ok(_) => panic!("expected a configuration error"),
    };
    assert_eq!(err, CoverageError::MissingEffectSizeFacet);
}

#[test]
fn missing_significance_facet_is_an_error_without_intervals() {
    let mut facets = base_facets();
    facets.remove(1);
    let data = CoverageData {
        significant_observations: vec![],
        nonsignificant_observations: vec![],
        bucket_size: 1000,
        chromosomes: vec![ChromosomeInfo { chrom: "chr1".to_string(), index: 0 }],
        facets,
        feature_buckets: FeatureBuckets::new(),
    };
    let filter = Filter::new();
    let err = match filter_coverage_data(&filter, &data, None) {
        Err(e) => e,
        Ok(_) => panic!("expected a configuration error"),
    };
    assert_eq!(err, CoverageError::MissingSignificanceFacet);
}

#[test]
fn missing_direction_facet_is_an_error_even_with_intervals() {
    let mut facets = base_facets();
    facets.remove(2);
    let data = CoverageData {
        significant_observations: vec![],
        nonsignificant_observations: vec![],
        bucket_size: 1000,
        chromosomes: vec![ChromosomeInfo { chrom: "chr1".to_string(), index: 0 }],
        facets,
        feature_buckets: FeatureBuckets::new(),
    };
    let mut filter = Filter::new();
    filter.numeric_intervals = Some(FilterIntervals::new());
    let err = match filter_coverage_data(&filter, &data, None) {
        Err(e) => e,
        Ok(_) => panic!("expected a configuration error"),
    };
    assert_eq!(err, CoverageError::MissingDirectionFacet);
}

#[test]
fn empty_result_falls_back_to_requested_intervals() {
    let mut fb = FeatureBuckets::new();
    fb.insert(100, BucketLoc { chrom: 0, idx: 0 });
    let data = one_chrom_catalog(vec![obs(1, 100, None, 5, 30, vec![ENRICHED])], vec![], fb);
    let mut filter = Filter::new();
    filter.numeric_intervals = Some(FilterIntervals { effect: (50, 60), sig: (0, 100) });
    let out = filter_coverage_data(&filter, &data, None).unwrap();
    assert_eq!(out.reo_count, 0);
    assert_eq!(out.chromosomes[0].source_intervals.len(), 0);
    assert_eq!(out.numeric_intervals.effect, (50, 60));
    assert_eq!(out.numeric_intervals.sig, (0, 100));
}

#[test]
fn chromosome_restriction_keeps_one_chromosome() {
    let mut fb = FeatureBuckets::new();
    fb.insert(100, BucketLoc { chrom: 0, idx: 0 });
    fb.insert(101, BucketLoc { chrom: 1, idx: 3 });
    let data = CoverageData {
        significant_observations: vec![
            obs(1, 100, None, 5, 30, vec![ENRICHED]),
            obs(2, 101, None, 6, 35, vec![ENRICHED]),
        ],
        nonsignificant_observations: vec![],
        bucket_size: 1000,
        chromosomes: vec![
            ChromosomeInfo { chrom: "chr1".to_string(), index: 0 },
            ChromosomeInfo { chrom: "chr2".to_string(), index: 1 },
        ],
        facets: base_facets(),
        feature_buckets: fb,
    };
    let mut filter = Filter::new();
    filter.chrom = Some(1);
    let out = filter_coverage_data(&filter, &data, None).unwrap();
    assert_eq!(out.chromosomes.len(), 1);
    assert_eq!(out.chromosomes[0].chrom, "chr2");
    assert_eq!(out.chromosomes[0].source_intervals.len(), 1);
    assert_eq!(out.chromosomes[0].source_intervals[0].start, 3001);
    // Both observations are counted; the restriction drops buckets, not
    // observations.
    assert_eq!(out.reo_count, 2);
}

#[test]
fn intervals_are_sorted_and_sparse() {
    let mut fb = FeatureBuckets::new();
    fb.insert(100, BucketLoc { chrom: 0, idx: 9 });
    fb.insert(101, BucketLoc { chrom: 0, idx: 2 });
    fb.insert(102, BucketLoc { chrom: 0, idx: 5 });
    let data = one_chrom_catalog(
        vec![
            obs(1, 100, None, 1, 1, vec![ENRICHED]),
            obs(2, 101, None, 2, 2, vec![ENRICHED]),
            obs(3, 102, None, 3, 3, vec![ENRICHED]),
        ],
        vec![],
        fb,
    );
    let filter = Filter::new();
    let out = filter_coverage_data(&filter, &data, None).unwrap();
    let src = &out.chromosomes[0].source_intervals;
    assert_eq!(src.len(), 3);
    assert!(src[0].start < src[1].start && src[1].start < src[2].start);
    for b in src.iter() {
        assert!(b.count > 0);
    }
}

#[test]
fn chromosome_restriction_outside_the_list_yields_no_chromosomes() {
    let mut fb = FeatureBuckets::new();
    fb.insert(100, BucketLoc { chrom: 0, idx: 0 });
    let data = one_chrom_catalog(vec![obs(1, 100, None, 5, 30, vec![ENRICHED])], vec![], fb);
    let mut filter = Filter::new();
    filter.chrom = Some(3);
    let out = filter_coverage_data(&filter, &data, None).unwrap();
    assert_eq!(out.chromosomes.len(), 0);
    // The observation still counts as included; only buckets are dropped.
    assert_eq!(out.reo_count, 1);
}
