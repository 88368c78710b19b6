//! The whole filter → aggregate → assemble pipeline, sequentially.
//!
//! Callers that split the filtered observations into chunks (for parallel
//! aggregation) use `filter_observations`, `aggregate_chunk` and
//! `reduce_chunk_results` directly and assemble with
//! `assemble_filtered_data`; the reduction is proved independent of the
//! chunking, so the result is this sequential one.

use vstd::prelude::*;

use crate::aggregate::{
    AggModel, BucketModel, ChunkResult, agg_step, aggregate, as_map, keys_distinct,
    lemma_as_map_contains, lemma_as_map_index, lemma_loc_order,
};
use crate::assemble::{
    Extrema, ExtremaModel, abs_val, assemble_role, bucket_matches, chrom_entries, chrom_pass,
    ext_fold, features_of, intervals_match, pick_max_abs, restrict_entries,
};
use crate::bitmap::{self, tm_set};
use crate::data::{
    BucketLoc, CoverageData, CoverageError, ExperimentFeatureData, FilterIntervals, Filter,
    FilteredChromosome, FilteredData, FilteredDataView, FilterView, FeatureBuckets,
    ObservationData, ObsView, bucket_seq_view, facet_seq_view, intervals_sorted,
};
use crate::facets::{
    FilterContext, find_direction_idx, find_effect_idx, find_sig_idx, spec_effect_interval,
    spec_sig_interval,
};
use crate::filter::{
    feature_restriction_view, filter_observations, included_pred, included_stream,
};

verus! {

/// Whether a bucket survives the chromosome restriction and exists in the
/// given role map.
pub open spec fn contributes(m: Map<BucketLoc, BucketModel>, chrom: Option<u8>, loc: BucketLoc) -> bool {
    m.dom().contains(loc) && chrom_pass(chrom, loc)
}

/// Every feature id of the surviving buckets of one role map.
pub open spec fn role_features(m: Map<BucketLoc, BucketModel>, chrom: Option<u8>) -> Set<u64> {
    Set::new(
        |id: u64|
            exists|loc: BucketLoc| #[trigger]
                contributes(m, chrom, loc) && m[loc].features.contains(id),
    )
}

/// One emitted interval names some surviving bucket of the chromosome.
pub open spec fn interval_has_bucket(
    iv: crate::data::FilteredBucketView,
    m: Map<BucketLoc, BucketModel>,
    c: u8,
    bucket_size: u32,
    fb: Seq<(u64, BucketLoc)>,
) -> bool {
    exists|loc: BucketLoc|
        m.dom().contains(loc) && loc.chrom == c && bucket_matches(
            iv,
            loc,
            #[trigger] m[loc],
            bucket_size,
            fb,
        )
}

/// One role's emitted interval list corresponds exactly to the surviving
/// buckets of one chromosome: sorted by start, one interval per bucket.
pub open spec fn role_intervals_ok(
    ivs: Seq<crate::data::FilteredBucketView>,
    m: Map<BucketLoc, BucketModel>,
    c: u8,
    bucket_size: u32,
    fb: Seq<(u64, BucketLoc)>,
) -> bool {
    &&& intervals_sorted(ivs)
    &&& forall|k: int|
        0 <= k < ivs.len() ==> interval_has_bucket(#[trigger] ivs[k], m, c, bucket_size, fb)
    &&& forall|loc: BucketLoc|
        m.dom().contains(loc) && loc.chrom == c ==> exists|k: int|
            0 <= k < ivs.len() && bucket_matches(#[trigger] ivs[k], loc, m[loc], bucket_size, fb)
}

/// A lower bound on the surviving buckets' extrema of one role map.
pub open spec fn ext_bounds(
    m: Map<BucketLoc, BucketModel>,
    chrom: Option<u8>,
    x: ExtremaModel,
) -> bool {
    forall|loc: BucketLoc| #[trigger]
        contributes(m, chrom, loc) ==> m[loc].min_effect >= x.min_effect && m[loc].max_effect
            <= x.max_effect && m[loc].min_sig >= x.min_sig && m[loc].max_sig <= x.max_sig
}

/// Each extremum of `x` is attained by some surviving bucket of one of the
/// two role maps.
pub open spec fn ext_attained(
    src: Map<BucketLoc, BucketModel>,
    tgt: Map<BucketLoc, BucketModel>,
    chrom: Option<u8>,
    x: ExtremaModel,
) -> bool {
    &&& exists|loc: BucketLoc| #[trigger]
        contributes(src, chrom, loc) && src[loc].min_effect == x.min_effect || exists|
            loc: BucketLoc,
        | #[trigger] contributes(tgt, chrom, loc) && tgt[loc].min_effect == x.min_effect
    &&& exists|loc: BucketLoc| #[trigger]
        contributes(src, chrom, loc) && src[loc].max_effect == x.max_effect || exists|
            loc: BucketLoc,
        | #[trigger] contributes(tgt, chrom, loc) && tgt[loc].max_effect == x.max_effect
    &&& exists|loc: BucketLoc| #[trigger]
        contributes(src, chrom, loc) && src[loc].min_sig == x.min_sig || exists|loc: BucketLoc| #[trigger]
            contributes(tgt, chrom, loc) && tgt[loc].min_sig == x.min_sig
    &&& exists|loc: BucketLoc| #[trigger]
        contributes(src, chrom, loc) && src[loc].max_sig == x.max_sig || exists|loc: BucketLoc| #[trigger]
            contributes(tgt, chrom, loc) && tgt[loc].max_sig == x.max_sig
}

/// The realized numeric interval of the result: the extrema actually
/// observed among surviving buckets of either role, or — where everything
/// was filtered out — the requested (or dataset-declared) interval pair.
pub open spec fn realized_intervals_ok(
    iv: FilterIntervals,
    src: Map<BucketLoc, BucketModel>,
    tgt: Map<BucketLoc, BucketModel>,
    chrom: Option<u8>,
    fallback_effect: (i64, i64),
    fallback_sig: (i64, i64),
) -> bool {
    if (forall|loc: BucketLoc| !(#[trigger] contributes(src, chrom, loc))) && (forall|
        loc: BucketLoc,
    | !(#[trigger] contributes(tgt, chrom, loc))) {
        iv.effect == fallback_effect && iv.sig == fallback_sig
    } else {
        let x = ExtremaModel {
            min_effect: iv.effect.0,
            max_effect: iv.effect.1,
            min_sig: iv.sig.0,
            max_sig: iv.sig.1,
        };
        ext_bounds(src, chrom, x) && ext_bounds(tgt, chrom, x) && ext_attained(src, tgt, chrom, x)
    }
}

/// What assembly promises of a produced result, for the given catalog,
/// filter and reduced aggregation.
pub open spec fn assembled_data_matches(
    fd: FilteredDataView,
    data: CoverageData,
    filters: FilterView,
    agg: AggModel,
) -> bool {
    let fs = facet_seq_view(data.facets@);
    let fb = data.feature_buckets@;
    let bs = data.bucket_size;
    &&& fd.bucket_size == bs
    &&& fd.reo_count as nat == agg.reos.len()
    &&& fd.sources == role_features(agg.source, filters.chrom)
    &&& fd.targets == role_features(agg.target, filters.chrom)
    &&& realized_intervals_ok(
        fd.numeric_intervals,
        agg.source,
        agg.target,
        filters.chrom,
        spec_effect_interval(fs, filters),
        spec_sig_interval(fs, filters),
    )
    &&& match filters.chrom {
        None => {
            &&& fd.chromosomes.len() == data.chromosomes@.len()
            &&& forall|c: int|
                0 <= c < fd.chromosomes.len() ==> (#[trigger] fd.chromosomes[c]).chrom
                    == data.chromosomes@[c].chrom@ && fd.chromosomes[c].index
                    == data.chromosomes@[c].index && fd.chromosomes[c].bucket_size == bs
        },
        Some(cc) => {
            if (cc as int) < data.chromosomes@.len() {
                &&& fd.chromosomes.len() == 1
                &&& fd.chromosomes[0].chrom == data.chromosomes@[cc as int].chrom@
                &&& fd.chromosomes[0].index == cc
                &&& fd.chromosomes[0].bucket_size == bs
            } else {
                fd.chromosomes.len() == 0
            }
        },
    }
    &&& forall|c: int|
        0 <= c < fd.chromosomes.len() ==> role_intervals_ok(
            (#[trigger] fd.chromosomes[c]).source_intervals,
            agg.source,
            fd.chromosomes[c].index,
            bs,
            fb,
        ) && role_intervals_ok(fd.chromosomes[c].target_intervals, agg.target,
        fd.chromosomes[c].index, bs, fb)
}

/// What the whole pipeline promises of a produced result, for the given
/// catalog, filter and optional feature restriction.
pub open spec fn filtered_data_matches(
    fd: FilteredDataView,
    data: CoverageData,
    filters: FilterView,
    inc: Option<crate::data::ExperimentFeatureView>,
) -> bool {
    assembled_data_matches(
        fd,
        data,
        filters,
        aggregate(included_stream(data, filters, inc), data.feature_buckets@),
    )
}

/// Every entry of a distinct-key sequence is in its map, and every mapped
/// key has an entry.
proof fn lemma_entries_map_bridge(s: Seq<(BucketLoc, BucketModel)>)
    requires
        keys_distinct(s),
    ensures
        forall|k: int|
            0 <= k < s.len() ==> as_map(s).dom().contains((#[trigger] s[k]).0) && as_map(s)[s[k].0]
                == s[k].1,
        forall|loc: BucketLoc|
            #[trigger] as_map(s).dom().contains(loc) ==> exists|k: int|
                0 <= k < s.len() && (#[trigger] s[k]).0 == loc,
{
    assert forall|k: int| 0 <= k < s.len() implies as_map(s).dom().contains((#[trigger] s[k]).0)
        && as_map(s)[s[k].0] == s[k].1 by {
        lemma_as_map_index(s, k);
    }
    assert forall|loc: BucketLoc| #[trigger]
        as_map(s).dom().contains(loc) implies exists|k: int|
        0 <= k < s.len() && (#[trigger] s[k]).0 == loc by {
        lemma_as_map_contains(s, loc);
    }
}

/// Every filtered entry occurs in the original sequence.
proof fn lemma_filter_member(
    s: Seq<(BucketLoc, BucketModel)>,
    p: spec_fn((BucketLoc, BucketModel)) -> bool,
)
    ensures
        forall|k: int|
            0 <= k < s.filter(p).len() ==> s.contains(#[trigger] s.filter(p)[k]) && p(
                s.filter(p)[k],
            ),
        forall|k: int|
            0 <= k < s.len() && p(#[trigger] s[k]) ==> s.filter(p).contains(s[k]),
{
    crate::assemble::lemma_filter_members(s, p);
    assert forall|k: int| 0 <= k < s.filter(p).len() implies s.contains(#[trigger] s.filter(p)[k])
        && p(s.filter(p)[k]) by {
        assert(s.filter(p).contains(s.filter(p)[k]));
        s.lemma_filter_pred(p, k);
    }
    assert forall|k: int| 0 <= k < s.len() && p(#[trigger] s[k]) implies s.filter(p).contains(
        s[k],
    ) by {
        s.lemma_filter_contains(p, k);
    }
}

/// A sorted bucket map has distinct keys.
proof fn lemma_sorted_distinct(s: Seq<(BucketLoc, BucketModel)>)
    requires
        forall|i: int, j: int|
            0 <= i < j < s.len() ==> (#[trigger] s[i]).0.lt((#[trigger] s[j]).0),
    ensures
        keys_distinct(s),
{
    assert forall|i: int, j: int| 0 <= i < j < s.len() implies (#[trigger] s[i]).0 != (
    #[trigger] s[j]).0 by {
        lemma_loc_order(s[i].0, s[j].0);
    }
}

/// The interval lists a sorted bucket map assembles correspond to its map.
proof fn lemma_role_intervals(
    s: Seq<(BucketLoc, BucketModel)>,
    ivs: Seq<crate::data::FilteredBucketView>,
    c: u8,
    bucket_size: u32,
    fb: Seq<(u64, BucketLoc)>,
)
    requires
        keys_distinct(s),
        intervals_match(ivs, chrom_entries(s, c), bucket_size, fb),
        intervals_sorted(ivs),
    ensures
        role_intervals_ok(ivs, as_map(s), c, bucket_size, fb),
{
    let p = |e: (BucketLoc, BucketModel)| e.0.chrom == c;
    let ce = chrom_entries(s, c);
    lemma_filter_member(s, p);
    lemma_entries_map_bridge(s);
    assert forall|k: int| 0 <= k < ivs.len() implies interval_has_bucket(
        #[trigger] ivs[k],
        as_map(s),
        c,
        bucket_size,
        fb,
    ) by {
        assert(s.contains(ce[k]));
        let j = choose|j: int| 0 <= j < s.len() && s[j] == ce[k];
        assert(as_map(s)[s[j].0] == s[j].1);
        assert(bucket_matches(ivs[k], ce[k].0, as_map(s)[ce[k].0], bucket_size, fb));
    }
    assert forall|loc: BucketLoc|
        as_map(s).dom().contains(loc) && loc.chrom == c implies exists|k: int|
        0 <= k < ivs.len() && bucket_matches(#[trigger] ivs[k], loc, as_map(s)[loc], bucket_size,
        fb) by {
        let j = choose|j: int| 0 <= j < s.len() && (#[trigger] s[j]).0 == loc;
        assert(p(s[j]));
        assert(ce.contains(s[j]));
        let k = choose|k: int| 0 <= k < ce.len() && ce[k] == s[j];
        assert(as_map(s)[loc] == s[j].1);
        assert(bucket_matches(ivs[k], loc, as_map(s)[loc], bucket_size, fb));
    }
}

/// A sorted bucket map's surviving feature ids are its map's.
proof fn lemma_role_features(s: Seq<(BucketLoc, BucketModel)>, chrom: Option<u8>)
    requires
        keys_distinct(s),
    ensures
        features_of(restrict_entries(s, chrom)) == role_features(as_map(s), chrom),
{
    let p = |e: (BucketLoc, BucketModel)| chrom_pass(chrom, e.0);
    let re = restrict_entries(s, chrom);
    lemma_filter_member(s, p);
    lemma_entries_map_bridge(s);
    assert forall|id: u64| features_of(re).contains(id) implies role_features(
        as_map(s),
        chrom,
    ).contains(id) by {
        let k = choose|k: int| 0 <= k < re.len() && (#[trigger] re[k]).1.features.contains(id);
        assert(s.contains(re[k]));
        let j = choose|j: int| 0 <= j < s.len() && s[j] == re[k];
        assert(contributes(as_map(s), chrom, s[j].0));
        assert(as_map(s)[s[j].0].features.contains(id));
    }
    assert forall|id: u64| role_features(as_map(s), chrom).contains(id) implies features_of(
        re,
    ).contains(id) by {
        let loc = choose|loc: BucketLoc| #[trigger]
            contributes(as_map(s), chrom, loc) && as_map(s)[loc].features.contains(id);
        let j = choose|j: int| 0 <= j < s.len() && (#[trigger] s[j]).0 == loc;
        assert(p(s[j]));
        assert(re.contains(s[j]));
        let k = choose|k: int| 0 <= k < re.len() && re[k] == s[j];
        assert(re[k].1.features.contains(id));
    }
    assert(features_of(re) =~= role_features(as_map(s), chrom));
}

/// A sorted bucket map survives the restriction nowhere exactly when its
/// restricted entry list is empty.
proof fn lemma_restrict_empty(s: Seq<(BucketLoc, BucketModel)>, chrom: Option<u8>)
    requires
        keys_distinct(s),
    ensures
        (restrict_entries(s, chrom).len() == 0) <==> (forall|loc: BucketLoc|
            !(#[trigger] contributes(as_map(s), chrom, loc))),
{
    let p = |e: (BucketLoc, BucketModel)| chrom_pass(chrom, e.0);
    let re = restrict_entries(s, chrom);
    lemma_filter_member(s, p);
    lemma_entries_map_bridge(s);
    if re.len() == 0 {
        assert forall|loc: BucketLoc| !(#[trigger] contributes(as_map(s), chrom, loc)) by {
            if contributes(as_map(s), chrom, loc) {
                let j = choose|j: int| 0 <= j < s.len() && (#[trigger] s[j]).0 == loc;
                assert(p(s[j]));
                assert(re.contains(s[j]));
            }
        }
    } else {
        assert(s.contains(re[0]) && p(re[0]));
        let j = choose|j: int| 0 <= j < s.len() && s[j] == re[0];
        assert(contributes(as_map(s), chrom, s[j].0));
    }
}

/// What the extrema fold over a bucket list yields: `None` only for nothing
/// at all; otherwise tight bounds attained by the start value or an entry.
proof fn lemma_ext_fold_char(e: Option<ExtremaModel>, s: Seq<(BucketLoc, BucketModel)>)
    ensures
        ext_fold(e, s) is None <==> (e is None && s.len() == 0),
        ext_fold(e, s) matches Some(x) ==> {
            &&& forall|k: int|
                0 <= k < s.len() ==> (#[trigger] s[k]).1.min_effect >= x.min_effect
                    && s[k].1.max_effect <= x.max_effect && s[k].1.min_sig >= x.min_sig
                    && s[k].1.max_sig <= x.max_sig
            &&& (e matches Some(y) ==> y.min_effect >= x.min_effect && y.max_effect <= x.max_effect
                && y.min_sig >= x.min_sig && y.max_sig <= x.max_sig)
            &&& ((e matches Some(y) && y.min_effect == x.min_effect) || exists|k: int|
                0 <= k < s.len() && (#[trigger] s[k]).1.min_effect == x.min_effect)
            &&& ((e matches Some(y) && y.max_effect == x.max_effect) || exists|k: int|
                0 <= k < s.len() && (#[trigger] s[k]).1.max_effect == x.max_effect)
            &&& ((e matches Some(y) && y.min_sig == x.min_sig) || exists|k: int|
                0 <= k < s.len() && (#[trigger] s[k]).1.min_sig == x.min_sig)
            &&& ((e matches Some(y) && y.max_sig == x.max_sig) || exists|k: int|
                0 <= k < s.len() && (#[trigger] s[k]).1.max_sig == x.max_sig)
        },
    decreases s.len(),
{
    if s.len() != 0 {
        lemma_ext_fold_char(e, s.drop_last());
        let last = s.last();
        assert(s[s.len() - 1] == last);
        match ext_fold(e, s) {
            None => {},
            Some(x) => {
                match ext_fold(e, s.drop_last()) {
                    None => {
                        assert forall|k: int|
                            0 <= k < s.len() implies (#[trigger] s[k]).1.min_effect >= x.min_effect
                            && s[k].1.max_effect <= x.max_effect && s[k].1.min_sig >= x.min_sig
                            && s[k].1.max_sig <= x.max_sig by {
                            assert(k == s.len() - 1);
                        }
                    },
                    Some(y0) => {
                        assert forall|k: int|
                            0 <= k < s.len() implies (#[trigger] s[k]).1.min_effect >= x.min_effect
                            && s[k].1.max_effect <= x.max_effect && s[k].1.min_sig >= x.min_sig
                            && s[k].1.max_sig <= x.max_sig by {
                            if k < s.len() - 1 {
                                assert(s.drop_last()[k] == s[k]);
                            }
                        }
                        if x.min_effect != last.1.min_effect {
                            if !(e matches Some(y) && y.min_effect == x.min_effect) {
                                let k = choose|k: int|
                                    0 <= k < s.drop_last().len() && (#[trigger] s.drop_last()[k]).1.min_effect
                                        == y0.min_effect;
                                assert(s[k].1.min_effect == x.min_effect);
                            }
                        }
                        if x.max_effect != last.1.max_effect {
                            if !(e matches Some(y) && y.max_effect == x.max_effect) {
                                let k = choose|k: int|
                                    0 <= k < s.drop_last().len() && (#[trigger] s.drop_last()[k]).1.max_effect
                                        == y0.max_effect;
                                assert(s[k].1.max_effect == x.max_effect);
                            }
                        }
                        if x.min_sig != last.1.min_sig {
                            if !(e matches Some(y) && y.min_sig == x.min_sig) {
                                let k = choose|k: int|
                                    0 <= k < s.drop_last().len() && (#[trigger] s.drop_last()[k]).1.min_sig
                                        == y0.min_sig;
                                assert(s[k].1.min_sig == x.min_sig);
                            }
                        }
                        if x.max_sig != last.1.max_sig {
                            if !(e matches Some(y) && y.max_sig == x.max_sig) {
                                let k = choose|k: int|
                                    0 <= k < s.drop_last().len() && (#[trigger] s.drop_last()[k]).1.max_sig
                                        == y0.max_sig;
                                assert(s[k].1.max_sig == x.max_sig);
                            }
                        }
                    },
                }
            },
        }
    }
}

/// The realized interval built from the two-role extrema fold is correct
/// against the two maps.
#[verifier::rlimit(100)]
proof fn lemma_realized(
    ssrc: Seq<(BucketLoc, BucketModel)>,
    stgt: Seq<(BucketLoc, BucketModel)>,
    chrom: Option<u8>,
    iv: FilterIntervals,
    fe: (i64, i64),
    fsg: (i64, i64),
)
    requires
        keys_distinct(ssrc),
        keys_distinct(stgt),
        ({
            let e2 = ext_fold(
                ext_fold(None, restrict_entries(ssrc, chrom)),
                restrict_entries(stgt, chrom),
            );
            match e2 {
                None => iv.effect == fe && iv.sig == fsg,
                Some(x) => iv.effect == (x.min_effect, x.max_effect) && iv.sig == (
                    x.min_sig,
                    x.max_sig,
                ),
            }
        }),
    ensures
        realized_intervals_ok(iv, as_map(ssrc), as_map(stgt), chrom, fe, fsg),
{
    let rs = restrict_entries(ssrc, chrom);
    let rt = restrict_entries(stgt, chrom);
    let e1 = ext_fold(None, rs);
    let e2 = ext_fold(e1, rt);
    let msrc = as_map(ssrc);
    let mtgt = as_map(stgt);
    lemma_ext_fold_char(None, rs);
    lemma_ext_fold_char(e1, rt);
    lemma_restrict_empty(ssrc, chrom);
    lemma_restrict_empty(stgt, chrom);
    let p = |e: (BucketLoc, BucketModel)| chrom_pass(chrom, e.0);
    lemma_filter_member(ssrc, p);
    lemma_filter_member(stgt, p);
    lemma_entries_map_bridge(ssrc);
    lemma_entries_map_bridge(stgt);
    match e2 {
        None => {
            assert(rs.len() == 0 && rt.len() == 0);
        },
        Some(x) => {
            assert(!(rs.len() == 0 && rt.len() == 0));
            if rs.len() != 0 {
                assert(ssrc.contains(rs[0]) && p(rs[0]));
                let j = choose|j: int| 0 <= j < ssrc.len() && ssrc[j] == rs[0];
                assert(contributes(msrc, chrom, ssrc[j].0));
            } else {
                assert(stgt.contains(rt[0]) && p(rt[0]));
                let j = choose|j: int| 0 <= j < stgt.len() && stgt[j] == rt[0];
                assert(contributes(mtgt, chrom, stgt[j].0));
            }
            assert(!((forall|loc: BucketLoc| !(#[trigger] contributes(msrc, chrom, loc))) && (
            forall|loc: BucketLoc| !(#[trigger] contributes(mtgt, chrom, loc)))));
            let x2 = ExtremaModel {
                min_effect: iv.effect.0,
                max_effect: iv.effect.1,
                min_sig: iv.sig.0,
                max_sig: iv.sig.1,
            };
            assert(x2 == x);

            // Bounds: every surviving source bucket lies within the interval.
            assert forall|loc: BucketLoc| #[trigger]
                contributes(msrc, chrom, loc) implies msrc[loc].min_effect >= x.min_effect
                && msrc[loc].max_effect <= x.max_effect && msrc[loc].min_sig >= x.min_sig
                && msrc[loc].max_sig <= x.max_sig by {
                let j = choose|j: int| 0 <= j < ssrc.len() && (#[trigger] ssrc[j]).0 == loc;
                assert(p(ssrc[j]));
                assert(rs.contains(ssrc[j]));
                let k = choose|k: int| 0 <= k < rs.len() && rs[k] == ssrc[j];
                match e1 {
                    Some(x1) => {
                        assert(rs[k].1.min_effect >= x1.min_effect && rs[k].1.max_effect
                            <= x1.max_effect && rs[k].1.min_sig >= x1.min_sig && rs[k].1.max_sig
                            <= x1.max_sig);
                        assert(x1.min_effect >= x.min_effect && x1.max_effect <= x.max_effect
                            && x1.min_sig >= x.min_sig && x1.max_sig <= x.max_sig);
                        assert(msrc[loc] == ssrc[j].1);
                    },
                    None => {
                        assert(rs.len() == 0);
                    },
                }
            }
            // Bounds: every surviving target bucket lies within the interval.
            assert forall|loc: BucketLoc| #[trigger]
                contributes(mtgt, chrom, loc) implies mtgt[loc].min_effect >= x.min_effect
                && mtgt[loc].max_effect <= x.max_effect && mtgt[loc].min_sig >= x.min_sig
                && mtgt[loc].max_sig <= x.max_sig by {
                let j = choose|j: int| 0 <= j < stgt.len() && (#[trigger] stgt[j]).0 == loc;
                assert(p(stgt[j]));
                assert(rt.contains(stgt[j]));
                let k = choose|k: int| 0 <= k < rt.len() && rt[k] == stgt[j];
                assert(rt[k].1.min_effect >= x.min_effect && rt[k].1.max_effect <= x.max_effect
                    && rt[k].1.min_sig >= x.min_sig && rt[k].1.max_sig <= x.max_sig);
                assert(mtgt[loc] == stgt[j].1);
            }

            // Attainment, one field at a time.
            if (e1 matches Some(x1) && x1.min_effect == x.min_effect) {
                let k = choose|k: int|
                    0 <= k < rs.len() && (#[trigger] rs[k]).1.min_effect == e1->Some_0.min_effect;
                let j = choose|j: int| 0 <= j < ssrc.len() && ssrc[j] == rs[k];
                assert(contributes(msrc, chrom, ssrc[j].0) && msrc[ssrc[j].0].min_effect
                    == x.min_effect);
            } else {
                let k = choose|k: int|
                    0 <= k < rt.len() && (#[trigger] rt[k]).1.min_effect == x.min_effect;
                let j = choose|j: int| 0 <= j < stgt.len() && stgt[j] == rt[k];
                assert(contributes(mtgt, chrom, stgt[j].0) && mtgt[stgt[j].0].min_effect
                    == x.min_effect);
            }
            if (e1 matches Some(x1) && x1.max_effect == x.max_effect) {
                let k = choose|k: int|
                    0 <= k < rs.len() && (#[trigger] rs[k]).1.max_effect == e1->Some_0.max_effect;
                let j = choose|j: int| 0 <= j < ssrc.len() && ssrc[j] == rs[k];
                assert(contributes(msrc, chrom, ssrc[j].0) && msrc[ssrc[j].0].max_effect
                    == x.max_effect);
            } else {
                let k = choose|k: int|
                    0 <= k < rt.len() && (#[trigger] rt[k]).1.max_effect == x.max_effect;
                let j = choose|j: int| 0 <= j < stgt.len() && stgt[j] == rt[k];
                assert(contributes(mtgt, chrom, stgt[j].0) && mtgt[stgt[j].0].max_effect
                    == x.max_effect);
            }
            if (e1 matches Some(x1) && x1.min_sig == x.min_sig) {
                let k = choose|k: int|
                    0 <= k < rs.len() && (#[trigger] rs[k]).1.min_sig == e1->Some_0.min_sig;
                let j = choose|j: int| 0 <= j < ssrc.len() && ssrc[j] == rs[k];
                assert(contributes(msrc, chrom, ssrc[j].0) && msrc[ssrc[j].0].min_sig == x.min_sig);
            } else {
                let k = choose|k: int|
                    0 <= k < rt.len() && (#[trigger] rt[k]).1.min_sig == x.min_sig;
                let j = choose|j: int| 0 <= j < stgt.len() && stgt[j] == rt[k];
                assert(contributes(mtgt, chrom, stgt[j].0) && mtgt[stgt[j].0].min_sig == x.min_sig);
            }
            if (e1 matches Some(x1) && x1.max_sig == x.max_sig) {
                let k = choose|k: int|
                    0 <= k < rs.len() && (#[trigger] rs[k]).1.max_sig == e1->Some_0.max_sig;
                let j = choose|j: int| 0 <= j < ssrc.len() && ssrc[j] == rs[k];
                assert(contributes(msrc, chrom, ssrc[j].0) && msrc[ssrc[j].0].max_sig == x.max_sig);
            } else {
                let k = choose|k: int|
                    0 <= k < rt.len() && (#[trigger] rt[k]).1.max_sig == x.max_sig;
                let j = choose|j: int| 0 <= j < stgt.len() && stgt[j] == rt[k];
                assert(contributes(mtgt, chrom, stgt[j].0) && mtgt[stgt[j].0].max_sig == x.max_sig);
            }
            assert(ext_attained(msrc, mtgt, chrom, x));
        },
    }
}

/// Assemble a reduced aggregation into the final result value.
#[verifier::loop_isolation(false)]
#[verifier::rlimit(100)]
pub fn assemble_filtered_data(
    ctx: &FilterContext,
    agg: &ChunkResult,
    filters: &Filter,
    data: &CoverageData,
) -> (r: FilteredData)
    requires
        data.wf(),
        agg.wf(),
        ctx.valid_for(facet_seq_view(data.facets@), filters@),
        forall|loc: BucketLoc|
            #[trigger] agg@.source.dom().contains(loc) ==> (loc.chrom as int)
                < data.chromosomes@.len(),
        forall|loc: BucketLoc|
            #[trigger] agg@.target.dom().contains(loc) ==> (loc.chrom as int)
                < data.chromosomes@.len(),
    ensures
        assembled_data_matches(r@, *data, filters@, agg@),
{
    let n_chroms: usize = data.chromosomes.len();
    let ghost ssrc = agg.source_buckets@;
    let ghost stgt = agg.target_buckets@;
    proof {
        lemma_sorted_distinct(ssrc);
        lemma_sorted_distinct(stgt);
        lemma_entries_map_bridge(ssrc);
        lemma_entries_map_bridge(stgt);
        if filters@.chrom is None {
            assert forall|i: int|
                0 <= i < ssrc.len() implies ((#[trigger] ssrc[i]).0.chrom as int)
                < n_chroms as int by {
                assert(agg@.source.dom().contains(ssrc[i].0));
            }
            assert forall|i: int|
                0 <= i < stgt.len() implies ((#[trigger] stgt[i]).0.chrom as int)
                < n_chroms as int by {
                assert(agg@.target.dom().contains(stgt[i].0));
            }
        }
    }
    let mut sources = bitmap::empty_id_set();
    let mut targets = bitmap::empty_id_set();
    let mut extrema = Extrema::new();
    let src_ivs = assemble_role(
        &agg.source_buckets,
        filters.chrom,
        n_chroms,
        data.bucket_size,
        &data.feature_buckets,
        &mut sources,
        &mut extrema,
    );
    let tgt_ivs = assemble_role(
        &agg.target_buckets,
        filters.chrom,
        n_chroms,
        data.bucket_size,
        &data.feature_buckets,
        &mut targets,
        &mut extrema,
    );
    let ghost src0 = src_ivs@;
    let ghost tgt0 = tgt_ivs@;

    let numeric_intervals = if extrema.any {
        FilterIntervals {
            effect: (extrema.min_effect, extrema.max_effect),
            sig: (extrema.min_sig, extrema.max_sig),
        }
    } else {
        FilterIntervals { effect: ctx.effect_interval, sig: ctx.sig_interval }
    };

    let mut chromosomes: Vec<FilteredChromosome> = Vec::new();
    let mut src_rem = src_ivs;
    let mut tgt_rem = tgt_ivs;
    match filters.chrom {
        None => {
            let mut c: usize = 0;
            while c < n_chroms
                invariant
                    0 <= c <= n_chroms,
                    chromosomes@.len() == c as int,
                    src_rem@ == src0.skip(c as int),
                    tgt_rem@ == tgt0.skip(c as int),
                    forall|k: int|
                        0 <= k < c as int ==> {
                            let cv = (#[trigger] chromosomes@[k])@;
                            &&& cv.chrom == data.chromosomes@[k].chrom@
                            &&& cv.index == data.chromosomes@[k].index
                            &&& cv.bucket_size == data.bucket_size
                            &&& cv.source_intervals == bucket_seq_view(src0[k]@)
                            &&& cv.target_intervals == bucket_seq_view(tgt0[k]@)
                        },
                decreases n_chroms - c,
            {
                let sv = src_rem.remove(0);
                let tv = tgt_rem.remove(0);
                proof {
                    assert(src0.skip(c as int)[0] == src0[c as int]);
                    assert(tgt0.skip(c as int)[0] == tgt0[c as int]);
                    assert(src0.skip(c as int).remove(0) =~= src0.skip(c + 1));
                    assert(tgt0.skip(c as int).remove(0) =~= tgt0.skip(c + 1));
                }
                let name = data.chromosomes[c].chrom.clone();
                chromosomes.push(
                    FilteredChromosome {
                        chrom: name,
                        index: data.chromosomes[c].index,
                        bucket_size: data.bucket_size,
                        target_intervals: tv,
                        source_intervals: sv,
                    },
                );
                c = c + 1;
            }
        },
        Some(cc) => {
            if (cc as usize) < n_chroms {
                let sv = src_rem.remove(0);
                let tv = tgt_rem.remove(0);
                let name = data.chromosomes[cc as usize].chrom.clone();
                chromosomes.push(
                    FilteredChromosome {
                        chrom: name,
                        index: data.chromosomes[cc as usize].index,
                        bucket_size: data.bucket_size,
                        target_intervals: tv,
                        source_intervals: sv,
                    },
                );
                proof {
                    assert(data.chromosomes@[cc as int].index == cc);
                }
            }
        },
    }

    let reo_count = bitmap::id_set_len(&agg.reos);
    let result = FilteredData {
        chromosomes,
        bucket_size: data.bucket_size,
        numeric_intervals,
        reo_count,
        sources,
        targets,
    };
    proof {
        let fd = result@;
        let chrom = filters@.chrom;

        // Included feature-id sets.
        assert(tm_set(result.sources) =~= features_of(restrict_entries(ssrc, chrom)));
        assert(tm_set(result.targets) =~= features_of(restrict_entries(stgt, chrom)));
        lemma_role_features(ssrc, chrom);
        lemma_role_features(stgt, chrom);

        // Realized numeric interval.
        lemma_realized(
            ssrc,
            stgt,
            chrom,
            numeric_intervals,
            ctx.effect_interval,
            ctx.sig_interval,
        );

        // Per-chromosome interval lists.
        assert forall|c: int| 0 <= c < fd.chromosomes.len() implies role_intervals_ok(
            (#[trigger] fd.chromosomes[c]).source_intervals,
            agg@.source,
            fd.chromosomes[c].index,
            data.bucket_size,
            data.feature_buckets@,
        ) && role_intervals_ok(
            fd.chromosomes[c].target_intervals,
            agg@.target,
            fd.chromosomes[c].index,
            data.bucket_size,
            data.feature_buckets@,
        ) by {
            assert(fd.chromosomes[c] == chromosomes@[c]@);
            match chrom {
                None => {
                    assert(fd.chromosomes[c].index == c as u8);
                    assert(crate::assemble::chrom_of(chrom, c) == c as u8);
                    lemma_role_intervals(
                        ssrc,
                        bucket_seq_view(src0[c]@),
                        c as u8,
                        data.bucket_size,
                        data.feature_buckets@,
                    );
                    lemma_role_intervals(
                        stgt,
                        bucket_seq_view(tgt0[c]@),
                        c as u8,
                        data.bucket_size,
                        data.feature_buckets@,
                    );
                },
                Some(cc) => {
                    assert(c == 0);
                    assert(fd.chromosomes[c].index == cc);
                    assert(crate::assemble::chrom_of(chrom, 0) == cc);
                    lemma_role_intervals(
                        ssrc,
                        bucket_seq_view(src0[0]@),
                        cc,
                        data.bucket_size,
                        data.feature_buckets@,
                    );
                    lemma_role_intervals(
                        stgt,
                        bucket_seq_view(tgt0[0]@),
                        cc,
                        data.bucket_size,
                        data.feature_buckets@,
                    );
                },
            }
        }
    }
    result
}

/// Evaluate a filter against the catalog: the filter → bucket-aggregate →
/// assemble pipeline, in one sequential pass, or an error where a required
/// well-known facet is unresolvable.
pub fn filter_coverage_data(
    filters: &Filter,
    data: &CoverageData,
    included_features: Option<&ExperimentFeatureData>,
) -> (r: Result<FilteredData, CoverageError>)
    requires
        data.wf(),
    ensures
        ({
            let fs = facet_seq_view(data.facets@);
            let needs = filters@.numeric_intervals is None;
            let e_missing = needs && find_effect_idx(fs, 0) is None;
            let s_missing = needs && find_sig_idx(fs, 0) is None;
            let d_missing = find_direction_idx(fs, 0) is None;
            &&& (r == Err::<FilteredData, CoverageError>(CoverageError::MissingEffectSizeFacet)
                <==> e_missing)
            &&& (r == Err::<FilteredData, CoverageError>(CoverageError::MissingSignificanceFacet)
                <==> (!e_missing && s_missing))
            &&& (r == Err::<FilteredData, CoverageError>(CoverageError::MissingDirectionFacet)
                <==> (!e_missing && !s_missing && d_missing))
            &&& (r is Ok <==> (!e_missing && !s_missing && !d_missing))
            &&& (r is Ok ==> filtered_data_matches(
                r->Ok_0@,
                *data,
                filters@,
                feature_restriction_view(included_features),
            ))
        }),
{
    let ctx = match FilterContext::new(data, filters) {
        Ok(ctx) => ctx,
        Err(e) => {
            return Err(e);
        },
    };
    let ghost fs = facet_seq_view(data.facets@);
    let ghost inc = feature_restriction_view(included_features);
    let observations = filter_observations(&ctx, data, included_features);
    proof {
        crate::filter::lemma_ctx_stream_canonical(ctx, *data, filters@, inc);
        assert(crate::data::obs_seq_view(observations@) == included_stream(*data, filters@, inc));
        let stream = crate::filter::obs_stream(*data, filters@);
        crate::filter::lemma_obs_filter_members(
            stream,
            crate::filter::included_pred(fs, filters@, inc),
        );
        assert forall|i: int|
            0 <= i < observations@.len() implies (#[trigger] observations@[i]@).wf() by {
            let filt = included_stream(*data, filters@, inc);
            assert(filt[i] == observations@[i]@);
            assert(filt.contains(filt[i]));
            assert(stream.contains(filt[i]));
            let k = choose|k: int| 0 <= k < stream.len() && stream[k] == filt[i];
            let ns = data.significant_observations@.len() as int;
            if k < ns {
                assert(stream[k] == data.significant_observations@[k]@);
            } else {
                assert(stream[k] == data.nonsignificant_observations@[k - ns]@);
            }
        }
    }
    let agg = aggregate_chunk_of(&observations, &data.feature_buckets);
    proof {
        crate::aggregate::lemma_aggregate_locs(
            crate::data::obs_seq_view(observations@),
            data.feature_buckets@,
        );
        assert forall|loc: BucketLoc|
            #[trigger] agg@.source.dom().contains(loc) implies (loc.chrom as int)
            < data.chromosomes@.len() by {
            let k = choose|k: int|
                0 <= k < data.feature_buckets@.len() && (#[trigger] data.feature_buckets@[k]).1
                    == loc;
        }
        assert forall|loc: BucketLoc|
            #[trigger] agg@.target.dom().contains(loc) implies (loc.chrom as int)
            < data.chromosomes@.len() by {
            let k = choose|k: int|
                0 <= k < data.feature_buckets@.len() && (#[trigger] data.feature_buckets@[k]).1
                    == loc;
        }
    }
    let result = assemble_filtered_data(&ctx, &agg, filters, data);
    Ok(result)
}

/// Aggregate a whole observation vector as one chunk.
fn aggregate_chunk_of(observations: &Vec<ObservationData>, features: &FeatureBuckets) -> (r:
    ChunkResult)
    requires
        forall|i: int| 0 <= i < observations@.len() ==> (#[trigger] observations@[i]@).wf(),
    ensures
        r.wf(),
        r@ == aggregate(crate::data::obs_seq_view(observations@), features@),
{
    crate::aggregate::aggregate_chunk(observations.as_slice(), features)
}

/// The predicate picking the observations whose source feature lies in the
/// given bucket.
pub open spec fn src_pred(fb: Seq<(u64, BucketLoc)>, loc: BucketLoc) -> spec_fn(ObsView) -> bool {
    |o: ObsView| crate::data::fb_lookup(fb, o.source_id) == Some(loc)
}

/// The effect sizes of the observations contributing to one source-role
/// bucket, in stream order.
pub open spec fn source_contribs(obs: Seq<ObsView>, fb: Seq<(u64, BucketLoc)>, loc: BucketLoc) -> Seq<
    i64,
> {
    obs.filter(src_pred(fb, loc)).map_values(|o: ObsView| o.effect_size)
}

/// A source-role bucket exists exactly where some observation contributes to
/// it, and its extreme effects are the extremes of the contributing effects,
/// both attained.
proof fn lemma_source_bucket_effects(obs: Seq<ObsView>, fb: Seq<(u64, BucketLoc)>, loc: BucketLoc)
    ensures
        aggregate(obs, fb).source.dom().contains(loc) <==> source_contribs(obs, fb, loc).len() > 0,
        aggregate(obs, fb).source.dom().contains(loc) ==> ({
            let m = aggregate(obs, fb).source[loc];
            let ce = source_contribs(obs, fb, loc);
            &&& forall|k: int| 0 <= k < ce.len() ==> m.min_effect <= #[trigger] ce[k] <= m.max_effect
            &&& ce.contains(m.min_effect)
            &&& ce.contains(m.max_effect)
        }),
    decreases obs.len(),
{
    reveal(Seq::filter);
    let p = src_pred(fb, loc);
    if obs.len() == 0 {
        assert(obs.filter(p).len() == 0);
    } else {
        let dl = obs.drop_last();
        let o = obs.last();
        lemma_source_bucket_effects(dl, fb, loc);
        assert(dl.push(o) =~= obs);
        crate::filter::lemma_filter_push(dl, o, p);
        let ce_dl = source_contribs(dl, fb, loc);
        let prev = aggregate(dl, fb);
        assert(aggregate(obs, fb) == agg_step(prev, o, fb));
        if p(o) {
            assert(obs.filter(p) == dl.filter(p).push(o));
            assert(source_contribs(obs, fb, loc) =~= ce_dl.push(o.effect_size));
            let ce = source_contribs(obs, fb, loc);
            assert(ce[ce.len() - 1] == o.effect_size);
            if prev.source.dom().contains(loc) {
                let m0 = prev.source[loc];
                let m = aggregate(obs, fb).source[loc];
                assert(m == crate::aggregate::bucket_add(
                    m0,
                    o.source_id,
                    o.target_id,
                    o.effect_size,
                    o.neg_log_significance,
                ));
                assert forall|k: int| 0 <= k < ce.len() implies m.min_effect <= #[trigger] ce[k]
                    <= m.max_effect by {
                    if k < ce_dl.len() {
                        assert(ce[k] == ce_dl[k]);
                    }
                }
                if m.min_effect == o.effect_size {
                    assert(ce.contains(m.min_effect));
                } else {
                    let k = choose|k: int| 0 <= k < ce_dl.len() && ce_dl[k] == m0.min_effect;
                    assert(ce[k] == m0.min_effect);
                    assert(ce.contains(m.min_effect));
                }
                if m.max_effect == o.effect_size {
                    assert(ce.contains(m.max_effect));
                } else {
                    let k = choose|k: int| 0 <= k < ce_dl.len() && ce_dl[k] == m0.max_effect;
                    assert(ce[k] == m0.max_effect);
                    assert(ce.contains(m.max_effect));
                }
            } else {
                assert(ce_dl.len() == 0);
                let m = aggregate(obs, fb).source[loc];
                assert(m == crate::aggregate::fresh_bucket(
                    o.source_id,
                    o.target_id,
                    o.effect_size,
                    o.neg_log_significance,
                ));
                assert(ce.len() == 1 && ce[0] == o.effect_size);
                assert(ce.contains(m.min_effect) && ce.contains(m.max_effect));
            }
        } else {
            assert(obs.filter(p) == dl.filter(p));
            assert(source_contribs(obs, fb, loc) == ce_dl);
            assert(aggregate(obs, fb).source.dom().contains(loc) <==> prev.source.dom().contains(
                loc,
            ));
            if aggregate(obs, fb).source.dom().contains(loc) {
                assert(aggregate(obs, fb).source[loc] == prev.source[loc]);
            }
        }
    }
}

/// Magnitude preservation: the reported extreme effect of a source-role
/// bucket equals, in absolute value, the largest absolute effect size among
/// the observations contributing to that bucket, and is itself one of those
/// effect sizes — the sign is kept.
pub proof fn lemma_magnitude_preservation(obs: Seq<ObsView>, fb: Seq<(u64, BucketLoc)>, loc: BucketLoc)
    requires
        aggregate(obs, fb).source.dom().contains(loc),
    ensures
        ({
            let m = aggregate(obs, fb).source[loc];
            let ce = source_contribs(obs, fb, loc);
            let e = pick_max_abs(m);
            &&& ce.len() > 0
            &&& ce.contains(e)
            &&& forall|k: int| 0 <= k < ce.len() ==> abs_val(#[trigger] ce[k]) <= abs_val(e)
        }),
{
    lemma_source_bucket_effects(obs, fb, loc);
    let m = aggregate(obs, fb).source[loc];
    let ce = source_contribs(obs, fb, loc);
    let e = pick_max_abs(m);
    assert(e == m.min_effect || e == m.max_effect);
    assert forall|k: int| 0 <= k < ce.len() implies abs_val(#[trigger] ce[k]) <= abs_val(e) by {
        assert(m.min_effect <= ce[k] <= m.max_effect);
    }
}

/// The predicate picking the observations whose target feature lies in the
/// given bucket.
pub open spec fn tgt_pred(fb: Seq<(u64, BucketLoc)>, loc: BucketLoc) -> spec_fn(ObsView) -> bool {
    |o: ObsView|
        o.target_id is Some && crate::data::fb_lookup(fb, o.target_id->Some_0) == Some(loc)
}

/// The effect sizes of the observations contributing to one target-role
/// bucket, in stream order.
pub open spec fn target_contribs(obs: Seq<ObsView>, fb: Seq<(u64, BucketLoc)>, loc: BucketLoc) -> Seq<
    i64,
> {
    obs.filter(tgt_pred(fb, loc)).map_values(|o: ObsView| o.effect_size)
}

/// A target-role bucket exists exactly where some observation contributes to
/// it, and its extreme effects are the extremes of the contributing effects,
/// both attained.
proof fn lemma_target_bucket_effects(obs: Seq<ObsView>, fb: Seq<(u64, BucketLoc)>, loc: BucketLoc)
    ensures
        aggregate(obs, fb).target.dom().contains(loc) <==> target_contribs(obs, fb, loc).len() > 0,
        aggregate(obs, fb).target.dom().contains(loc) ==> ({
            let m = aggregate(obs, fb).target[loc];
            let ce = target_contribs(obs, fb, loc);
            &&& forall|k: int| 0 <= k < ce.len() ==> m.min_effect <= #[trigger] ce[k] <= m.max_effect
            &&& ce.contains(m.min_effect)
            &&& ce.contains(m.max_effect)
        }),
    decreases obs.len(),
{
    reveal(Seq::filter);
    let p = tgt_pred(fb, loc);
    if obs.len() == 0 {
        assert(obs.filter(p).len() == 0);
    } else {
        let dl = obs.drop_last();
        let o = obs.last();
        lemma_target_bucket_effects(dl, fb, loc);
        assert(dl.push(o) =~= obs);
        crate::filter::lemma_filter_push(dl, o, p);
        let ce_dl = target_contribs(dl, fb, loc);
        let prev = aggregate(dl, fb);
        assert(aggregate(obs, fb) == agg_step(prev, o, fb));
        if p(o) {
            assert(obs.filter(p) == dl.filter(p).push(o));
            assert(target_contribs(obs, fb, loc) =~= ce_dl.push(o.effect_size));
            let ce = target_contribs(obs, fb, loc);
            assert(ce[ce.len() - 1] == o.effect_size);
            if prev.target.dom().contains(loc) {
                let m0 = prev.target[loc];
                let m = aggregate(obs, fb).target[loc];
                assert(m == crate::aggregate::bucket_add(
                    m0,
                    o.target_id->Some_0,
                    Some(o.source_id),
                    o.effect_size,
                    o.neg_log_significance,
                ));
                assert forall|k: int| 0 <= k < ce.len() implies m.min_effect <= #[trigger] ce[k]
                    <= m.max_effect by {
                    if k < ce_dl.len() {
                        assert(ce[k] == ce_dl[k]);
                    }
                }
                if m.min_effect == o.effect_size {
                    assert(ce.contains(m.min_effect));
                } else {
                    let k = choose|k: int| 0 <= k < ce_dl.len() && ce_dl[k] == m0.min_effect;
                    assert(ce[k] == m0.min_effect);
                    assert(ce.contains(m.min_effect));
                }
                if m.max_effect == o.effect_size {
                    assert(ce.contains(m.max_effect));
                } else {
                    let k = choose|k: int| 0 <= k < ce_dl.len() && ce_dl[k] == m0.max_effect;
                    assert(ce[k] == m0.max_effect);
                    assert(ce.contains(m.max_effect));
                }
            } else {
                assert(ce_dl.len() == 0);
                let m = aggregate(obs, fb).target[loc];
                assert(m == crate::aggregate::fresh_bucket(
                    o.target_id->Some_0,
                    Some(o.source_id),
                    o.effect_size,
                    o.neg_log_significance,
                ));
                assert(ce.len() == 1 && ce[0] == o.effect_size);
                assert(ce.contains(m.min_effect) && ce.contains(m.max_effect));
            }
        } else {
            assert(obs.filter(p) == dl.filter(p));
            assert(target_contribs(obs, fb, loc) == ce_dl);
            assert(aggregate(obs, fb).target.dom().contains(loc) <==> prev.target.dom().contains(
                loc,
            ));
            if aggregate(obs, fb).target.dom().contains(loc) {
                assert(aggregate(obs, fb).target[loc] == prev.target[loc]);
            }
        }
    }
}

/// Magnitude preservation for target-role buckets: the reported extreme
/// effect equals, in absolute value, the largest absolute effect size among
/// the contributing observations, sign kept.
pub proof fn lemma_magnitude_preservation_target(
    obs: Seq<ObsView>,
    fb: Seq<(u64, BucketLoc)>,
    loc: BucketLoc,
)
    requires
        aggregate(obs, fb).target.dom().contains(loc),
    ensures
        ({
            let m = aggregate(obs, fb).target[loc];
            let ce = target_contribs(obs, fb, loc);
            let e = pick_max_abs(m);
            &&& ce.len() > 0
            &&& ce.contains(e)
            &&& forall|k: int| 0 <= k < ce.len() ==> abs_val(#[trigger] ce[k]) <= abs_val(e)
        }),
{
    lemma_target_bucket_effects(obs, fb, loc);
    let m = aggregate(obs, fb).target[loc];
    let ce = target_contribs(obs, fb, loc);
    let e = pick_max_abs(m);
    assert(e == m.min_effect || e == m.max_effect);
    assert forall|k: int| 0 <= k < ce.len() implies abs_val(#[trigger] ce[k]) <= abs_val(e) by {
        assert(m.min_effect <= ce[k] <= m.max_effect);
    }
}

impl FilteredData {
    /// The empty result skeleton for a catalog: its chromosomes with no
    /// intervals, the unrestricted interval pair, and nothing included.
    #[verifier::loop_isolation(false)]
    pub fn from(data: &CoverageData) -> (r: FilteredData)
        ensures
            r@.bucket_size == data.bucket_size,
            r@.reo_count == 0,
            r@.sources == Set::<u64>::empty(),
            r@.targets == Set::<u64>::empty(),
            r@.numeric_intervals == (FilterIntervals {
                effect: (i64::MIN, i64::MAX),
                sig: (i64::MIN, i64::MAX),
            }),
            r@.chromosomes.len() == data.chromosomes@.len(),
            forall|c: int|
                0 <= c < r@.chromosomes.len() ==> (#[trigger] r@.chromosomes[c]).chrom
                    == data.chromosomes@[c].chrom@ && r@.chromosomes[c].index
                    == data.chromosomes@[c].index && r@.chromosomes[c].bucket_size
                    == data.bucket_size && r@.chromosomes[c].source_intervals.len() == 0
                    && r@.chromosomes[c].target_intervals.len() == 0,
    {
        let n: usize = data.chromosomes.len();
        let mut chromosomes: Vec<FilteredChromosome> = Vec::new();
        let mut c: usize = 0;
        while c < n
            invariant
                0 <= c <= n,
                chromosomes@.len() == c as int,
                forall|k: int|
                    0 <= k < c as int ==> {
                        let cv = (#[trigger] chromosomes@[k])@;
                        &&& cv.chrom == data.chromosomes@[k].chrom@
                        &&& cv.index == data.chromosomes@[k].index
                        &&& cv.bucket_size == data.bucket_size
                        &&& cv.source_intervals.len() == 0
                        &&& cv.target_intervals.len() == 0
                    },
            decreases n - c,
        {
            let name = data.chromosomes[c].chrom.clone();
            chromosomes.push(
                FilteredChromosome {
                    chrom: name,
                    index: data.chromosomes[c].index,
                    bucket_size: data.bucket_size,
                    target_intervals: Vec::new(),
                    source_intervals: Vec::new(),
                },
            );
            c = c + 1;
        }
        FilteredData {
            chromosomes,
            bucket_size: data.bucket_size,
            numeric_intervals: FilterIntervals::new(),
            reo_count: 0,
            sources: bitmap::empty_id_set(),
            targets: bitmap::empty_id_set(),
        }
    }
}

} // verus!
