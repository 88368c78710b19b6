use coverage_filter::{
    FilterIntervals, FilteredBucket, FilteredChromosome, FilteredData, merge_filtered_data,
};
use roaring::RoaringTreemap;

fn bucket(start: u64, count: u64, assoc: Vec<u32>, sig: i64, eff: i64) -> FilteredBucket {
    FilteredBucket {
        start,
        count,
        associated_buckets: assoc,
        max_log10_sig: sig,
        max_abs_effect: eff,
    }
}

fn result_with(
    source: Vec<FilteredBucket>,
    effect: (i64, i64),
    sig: (i64, i64),
    reo_count: u64,
    sources: Vec<u64>,
) -> FilteredData {
    FilteredData {
        chromosomes: vec![FilteredChromosome {
            chrom: "chr1".to_string(),
            index: 0,
            bucket_size: 1000,
            target_intervals: vec![],
            source_intervals: source,
        }],
        bucket_size: 1000,
        numeric_intervals: FilterIntervals { effect, sig },
        reo_count,
        sources: RoaringTreemap::from_iter(sources),
        targets: RoaringTreemap::new(),
    }
}

#[test]
fn merging_disjoint_starts_unions_both_lists_sorted() {
    let a = result_with(
        vec![bucket(1, 2, vec![], 30, 5), bucket(3001, 1, vec![], 20, 2)],
        (2, 5),
        (20, 30),
        3,
        vec![1, 2],
    );
    let b = result_with(
        vec![bucket(1001, 4, vec![], 50, -9)],
        (-9, -9),
        (50, 50),
        4,
        vec![2, 3],
    );
    let merged = merge_filtered_data(vec![a, b], vec!["chr1".to_string()]);
    let src = &merged.chromosomes[0].source_intervals;
    assert_eq!(src.len(), 3);
    assert_eq!(src[0].start, 1);
    assert_eq!(src[1].start, 1001);
    assert_eq!(src[2].start, 3001);
    assert_eq!(src[0].count, 2);
    assert_eq!(src[1].count, 4);
    assert_eq!(src[2].count, 1);
}

#[test]
fn merging_an_overlapping_start_sums_counts_and_takes_max_significance() {
    let a = result_with(
        vec![bucket(1001, 2, vec![0, 1], 30, 5)],
        (5, 5),
        (30, 30),
        2,
        vec![1],
    );
    let b = result_with(
        vec![bucket(1001, 3, vec![0, 2], 45, -4)],
        (-4, -4),
        (45, 45),
        3,
        vec![2],
    );
    let merged = merge_filtered_data(vec![a, b], vec!["chr1".to_string()]);
    let src = &merged.chromosomes[0].source_intervals;
    assert_eq!(src.len(), 1);
    assert_eq!(src[0].start, 1001);
    assert_eq!(src[0].count, 5);
    assert_eq!(src[0].max_log10_sig, 45);
    // |5| > |-4|: the accumulator's effect wins, sign kept.
    assert_eq!(src[0].max_abs_effect, 5);
    // Incoming associated buckets come first, concatenated undeduplicated.
    assert_eq!(src[0].associated_buckets, vec![0, 2, 0, 1]);
}

#[test]
fn merged_scalars_combine_across_results() {
    let a = result_with(vec![], (-10, 3), (5, 30), 7, vec![1, 2]);
    let b = result_with(vec![], (-2, 8), (1, 20), 5, vec![2, 9]);
    let merged = merge_filtered_data(vec![a, b], vec!["chr1".to_string()]);
    assert_eq!(merged.bucket_size, 1000);
    assert_eq!(merged.numeric_intervals.effect, (-10, 8));
    assert_eq!(merged.numeric_intervals.sig, (1, 30));
    // Counts sum; id sets union (9 appears once).
    assert_eq!(merged.reo_count, 12);
    assert_eq!(merged.sources.len(), 3);
    assert!(merged.sources.contains(9));
}

#[test]
fn a_single_result_passes_through_unchanged() {
    let a = result_with(
        vec![bucket(1, 2, vec![0, 4], 30, 5)],
        (2, 5),
        (20, 30),
        3,
        vec![1, 2],
    );
    let merged = merge_filtered_data(vec![a], vec!["chr1".to_string()]);
    assert_eq!(merged.chromosomes.len(), 1);
    assert_eq!(merged.chromosomes[0].source_intervals.len(), 1);
    assert_eq!(merged.chromosomes[0].source_intervals[0].count, 2);
    assert_eq!(merged.reo_count, 3);
    assert_eq!(merged.numeric_intervals.effect, (2, 5));
}

#[test]
fn merge_effect_ties_keep_the_accumulator() {
    // Equal absolute effects: the first-seen (accumulator) value is kept.
    let a = result_with(vec![bucket(1, 1, vec![], 1, -6)], (-6, -6), (1, 1), 1, vec![1]);
    let b = result_with(vec![bucket(1, 1, vec![], 1, 6)], (6, 6), (1, 1), 1, vec![2]);
    let merged = merge_filtered_data(vec![a, b], vec!["chr1".to_string()]);
    assert_eq!(merged.chromosomes[0].source_intervals[0].max_abs_effect, -6);
}

#[test]
fn merge_three_ways_associates() {
    let mk = |start: u64, count: u64, reo: u64, id: u64| {
        result_with(
            vec![bucket(start, count, vec![], reo as i64, 1)],
            (1, 1),
            (1, 1),
            reo,
            vec![id],
        )
    };
    let names = vec!["chr1".to_string()];
    let abc = merge_filtered_data(
        vec![mk(1, 1, 1, 1), mk(1, 2, 2, 2), mk(1001, 4, 4, 3)],
        names.clone(),
    );
    let ab = merge_filtered_data(vec![mk(1, 1, 1, 1), mk(1, 2, 2, 2)], names.clone());
    let ab_c = merge_filtered_data(vec![ab, mk(1001, 4, 4, 3)], names);
    assert_eq!(abc.reo_count, ab_c.reo_count);
    assert_eq!(abc.sources.len(), ab_c.sources.len());
    let s1 = &abc.chromosomes[0].source_intervals;
    let s2 = &ab_c.chromosomes[0].source_intervals;
    assert_eq!(s1.len(), s2.len());
    for (x, y) in s1.iter().zip(s2.iter()) {
        assert_eq!(x.start, y.start);
        assert_eq!(x.count, y.count);
        assert_eq!(x.max_log10_sig, y.max_log10_sig);
        assert_eq!(x.max_abs_effect, y.max_abs_effect);
    }
}

#[test]
fn merging_mixed_starts_combines_shared_and_copies_the_rest() {
    let a = result_with(
        vec![bucket(1, 1, vec![], 10, 2), bucket(2001, 2, vec![], 20, -5)],
        (-5, 2),
        (10, 20),
        3,
        vec![1],
    );
    let b = result_with(
        vec![bucket(1001, 7, vec![], 15, 3), bucket(2001, 1, vec![], 35, 4)],
        (3, 4),
        (15, 35),
        8,
        vec![2],
    );
    let merged = merge_filtered_data(vec![a, b], vec!["chr1".to_string()]);
    let src = &merged.chromosomes[0].source_intervals;
    // Disjoint starts are copied unchanged; the shared start is combined.
    assert_eq!(src.len(), 3);
    assert_eq!((src[0].start, src[0].count, src[0].max_log10_sig), (1, 1, 10));
    assert_eq!((src[1].start, src[1].count, src[1].max_log10_sig), (1001, 7, 15));
    assert_eq!((src[2].start, src[2].count, src[2].max_log10_sig), (2001, 3, 35));
    // |-5| > |4|: the first result's effect wins at the shared start.
    assert_eq!(src[2].max_abs_effect, -5);
}
