use coverage_filter::bitmap::{decode_id_set, encode_id_set, id_set_from};
use coverage_filter::{
    BucketList, BucketLoc, ChromosomeInfo, CoverageData, ExperimentFeatureData, Facet, FacetKind,
    FacetRole, FacetValue, FeatureBuckets, Filter, FilterContext, FilteredData, ObservationData,
    aggregate_chunk, filter_observations, intersect_coverage_data_features, reduce_chunk_results,
};
use roaring::RoaringTreemap;

const TAG: u64 = 10;

fn base_facets() -> Vec<Facet> {
    vec![
        Facet {
            kind: FacetKind::Numeric,
            role: FacetRole::EffectSize,
            values: None,
            range: Some((-1_000_000, 1_000_000)),
            range64: None,
        },
        Facet {
            kind: FacetKind::Numeric,
            role: FacetRole::Significance,
            values: None,
            range: None,
            range64: Some((0, 1_000_000)),
        },
        Facet {
            kind: FacetKind::Categorical,
            role: FacetRole::Direction,
            values: Some(vec![
                FacetValue { id: TAG, nonsignificant: false },
                FacetValue { id: 12, nonsignificant: true },
            ]),
            range: None,
            range64: None,
        },
    ]
}

fn obs(reo_id: u64, source_id: u64, eff: i64, sig: i64) -> ObservationData {
    ObservationData {
        reo_id,
        source_id,
        target_id: None,
        effect_size: eff,
        neg_log_significance: sig,
        facet_value_ids: vec![TAG],
    }
}

#[test]
fn chunked_aggregation_is_independent_of_the_partition() {
    let mut fb = FeatureBuckets::new();
    for id in 0..6u64 {
        fb.insert(id, BucketLoc { chrom: 0, idx: (id % 3) as u32 });
    }
    let observations: Vec<ObservationData> =
        (0..6u64).map(|i| obs(i, i, i as i64 - 3, i as i64)).collect();

    let whole = aggregate_chunk(&observations, &fb);
    let mut parts = Vec::new();
    for chunk in observations.chunks(2) {
        parts.push(aggregate_chunk(chunk, &fb));
    }
    let reduced = reduce_chunk_results(&parts);

    assert_eq!(whole.reos, reduced.reos);
    assert_eq!(whole.source_buckets.entries.len(), reduced.source_buckets.entries.len());
    for (a, b) in whole.source_buckets.entries.iter().zip(reduced.source_buckets.entries.iter()) {
        assert_eq!(a.0, b.0);
        assert_eq!(a.1.feature_ids, b.1.feature_ids);
        assert_eq!(a.1.associated_features, b.1.associated_features);
        assert_eq!(a.1.min_effect, b.1.min_effect);
        assert_eq!(a.1.max_effect, b.1.max_effect);
        assert_eq!(a.1.min_sig, b.1.min_sig);
        assert_eq!(a.1.max_sig, b.1.max_sig);
    }
}

#[test]
fn filtering_already_filtered_observations_changes_nothing() {
    let mut fb = FeatureBuckets::new();
    fb.insert(0, BucketLoc { chrom: 0, idx: 0 });
    fb.insert(1, BucketLoc { chrom: 0, idx: 1 });
    let data = CoverageData {
        significant_observations: vec![obs(1, 0, 5, 2), obs(2, 1, -50, 9)],
        nonsignificant_observations: vec![],
        bucket_size: 1000,
        chromosomes: vec![ChromosomeInfo { chrom: "chr1".to_string(), index: 0 }],
        facets: base_facets(),
        feature_buckets: fb,
    };
    let mut filter = Filter::new();
    filter.numeric_intervals = Some(coverage_filter::FilterIntervals {
        effect: (0, 100),
        sig: (0, 100),
    });
    let ctx = FilterContext::new(&data, &filter).unwrap();
    let once = filter_observations(&ctx, &data, None);
    let data_again = CoverageData {
        significant_observations: once,
        nonsignificant_observations: vec![],
        ..data
    };
    let twice = filter_observations(&ctx, &data_again, None);
    let ids_once: Vec<u64> =
        data_again.significant_observations.iter().map(|o| o.reo_id).collect();
    let ids_twice: Vec<u64> = twice.iter().map(|o| o.reo_id).collect();
    assert_eq!(ids_once, ids_twice);
    assert_eq!(ids_once, vec![1]);
}

#[test]
fn id_set_bytes_round_trip() {
    let ids = vec![3u64, 77, 1 << 40];
    let set = id_set_from(&ids);
    let bytes = encode_id_set(&set);
    let back = decode_id_set(&bytes).unwrap();
    assert_eq!(set, back);
    assert!(back.contains(1 << 40));
    assert_eq!(back.len(), 3);
}

#[test]
fn malformed_bytes_do_not_decode() {
    let garbage = vec![0xFFu8; 3];
    assert!(decode_id_set(&garbage).is_none());
}

#[test]
fn feature_data_intersection_keeps_common_ids_only() {
    let a = ExperimentFeatureData {
        sources: RoaringTreemap::from_iter([1u64, 2, 3]),
        targets: RoaringTreemap::from_iter([10u64, 11]),
    };
    let b = ExperimentFeatureData {
        sources: RoaringTreemap::from_iter([2u64, 3, 4]),
        targets: RoaringTreemap::from_iter([11u64, 12]),
    };
    let r = intersect_coverage_data_features(vec![a, b]);
    assert_eq!(r.sources, RoaringTreemap::from_iter([2u64, 3]));
    assert_eq!(r.targets, RoaringTreemap::from_iter([11u64]));
}

#[test]
fn empty_feature_data_intersection_is_empty() {
    let r = intersect_coverage_data_features(vec![]);
    assert!(r.sources.is_empty());
    assert!(r.targets.is_empty());
}

#[test]
fn bucket_list_marks_flatten_in_row_order() {
    let chrom_info = vec![(0u8, 2500usize), (1u8, 999usize)];
    let mut bl = BucketList::new(&chrom_info, 1000);
    bl.insert(0, 2);
    bl.insert(1, 0);
    bl.insert(0, 0);
    // Chromosome 7 has no row: the mark is absorbed.
    bl.insert(7, 0);
    assert_eq!(bl.flat_list(), vec![0, 0, 0, 2, 1, 0]);
}

#[test]
fn bucket_list_insert_from_locations() {
    let chrom_info = vec![(0u8, 2500usize)];
    let mut bl = BucketList::new(&chrom_info, 1000);
    bl.insert_from(&vec![
        BucketLoc { chrom: 0, idx: 1 },
        BucketLoc { chrom: 0, idx: 1 },
        BucketLoc { chrom: 0, idx: 2 },
    ]);
    assert_eq!(bl.flat_list(), vec![0, 1, 0, 2]);
}

#[test]
fn empty_skeleton_mirrors_the_catalog_shape() {
    let data = CoverageData {
        significant_observations: vec![],
        nonsignificant_observations: vec![],
        bucket_size: 500,
        chromosomes: vec![
            ChromosomeInfo { chrom: "chr1".to_string(), index: 0 },
            ChromosomeInfo { chrom: "chr2".to_string(), index: 1 },
        ],
        facets: base_facets(),
        feature_buckets: FeatureBuckets::new(),
    };
    let empty = FilteredData::from(&data);
    assert_eq!(empty.bucket_size, 500);
    assert_eq!(empty.reo_count, 0);
    assert_eq!(empty.chromosomes.len(), 2);
    assert_eq!(empty.chromosomes[1].chrom, "chr2");
    assert_eq!(empty.chromosomes[1].index, 1);
    assert!(empty.chromosomes[0].source_intervals.is_empty());
    assert!(empty.sources.is_empty());
    assert!(empty.targets.is_empty());
}
