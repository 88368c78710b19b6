//! Result assembly: turning reduced bucket maps into sorted, sparse,
//! per-chromosome interval lists, with dataset-wide numeric extrema.

use vstd::prelude::*;

use crate::aggregate::{BucketData, BucketMap, BucketModel};
use crate::bitmap::{self, tm_set, tm_union_with};
use crate::data::{BucketLoc, FeatureBuckets, FilteredBucket, bucket_seq_view, fb_lookup};
use roaring::RoaringTreemap;

verus! {

/// The absolute value of a fixed-point measurement, as an integer.
pub open spec fn abs_val(x: i64) -> int {
    if x < 0 {
        -(x as int)
    } else {
        x as int
    }
}

/// The reported effect of a bucket: whichever of the extreme effects has the
/// larger absolute value, sign kept; ties go to the minimum.
pub open spec fn pick_max_abs(m: BucketModel) -> i64 {
    if m.max_effect as int > abs_val(m.min_effect) {
        m.max_effect
    } else {
        m.min_effect
    }
}

/// The bucket locations the associated-feature ids resolve to; unresolvable
/// ids contribute nothing.
pub open spec fn resolved_locs(assoc: Set<u64>, fb: Seq<(u64, BucketLoc)>) -> Set<BucketLoc> {
    Set::new(
        |l: BucketLoc|
            exists|id: u64| #[trigger] assoc.contains(id) && fb_lookup(fb, id) == Some(l),
    )
}

/// The `k`th location pair of a flat alternating list.
pub open spec fn flat_pair(v: Seq<u32>, k: int) -> BucketLoc {
    BucketLoc { chrom: v[2 * k] as u8, idx: v[2 * k + 1] }
}

/// A flat alternating list names exactly the given locations, each once.
pub open spec fn flat_list_matches(v: Seq<u32>, locs: Set<BucketLoc>) -> bool {
    &&& v.len() % 2 == 0
    &&& forall|k: int| 0 <= k < v.len() / 2 ==> #[trigger] v[2 * k] < 256
    &&& forall|k: int| 0 <= k < v.len() / 2 ==> locs.contains(#[trigger] flat_pair(v, k))
    &&& forall|l: BucketLoc| #[trigger] locs.contains(l) ==> exists|k: int|
        0 <= k < v.len() / 2 && flat_pair(v, k) == l
    &&& forall|k1: int, k2: int|
        0 <= k1 < k2 < v.len() / 2 ==> #[trigger] flat_pair(v, k1) != #[trigger] flat_pair(v, k2)
}

/// The id's resolved location, if any, is recorded.
pub open spec fn loc_recorded(fb: Seq<(u64, BucketLoc)>, locs: Seq<BucketLoc>, id: u64) -> bool {
    match fb_lookup(fb, id) {
        Some(l) => locs.contains(l),
        None => true,
    }
}

/// Resolve the associated-feature ids of one bucket to their bucket
/// locations, deduplicated, as a flat alternating
/// `(chromosome index, bucket index)` list.
#[verifier::loop_isolation(false)]
#[verifier::rlimit(50)]
pub fn resolve_associated_buckets(assoc: &RoaringTreemap, features: &FeatureBuckets) -> (r: Vec<
    u32,
>)
    ensures
        flat_list_matches(r@, resolved_locs(tm_set(*assoc), features@)),
{
    let ghost target = resolved_locs(tm_set(*assoc), features@);
    let ids = bitmap::id_set_to_vec(assoc);
    let mut locs: Vec<BucketLoc> = Vec::new();
    let n: usize = ids.len();
    let mut i: usize = 0;
    while i < n
        invariant
            0 <= i <= n,
            forall|k: int| 0 <= k < locs@.len() ==> target.contains(#[trigger] locs@[k]),
            forall|k1: int, k2: int|
                0 <= k1 < k2 < locs@.len() ==> #[trigger] locs@[k1] != #[trigger] locs@[k2],
            forall|j: int| 0 <= j < i ==> #[trigger] loc_recorded(features@, locs@, ids@[j]),
        decreases n - i,
    {
        match features.get(ids[i]) {
            Some(loc) => {
                let mut present = false;
                let m: usize = locs.len();
                let mut k: usize = 0;
                while k < m
                    invariant
                        0 <= k <= m,
                        m == locs.len(),
                        present <==> exists|t: int| 0 <= t < k && locs@[t] == loc,
                    decreases m - k,
                {
                    if locs[k] == loc {
                        present = true;
                    }
                    k = k + 1;
                }
                if !present {
                    let ghost prev = locs@;
                    locs.push(loc);
                    proof {
                        assert(tm_set(*assoc).contains(ids@[i as int]));
                        assert(target.contains(loc));
                        assert forall|j: int| 0 <= j < i + 1 implies #[trigger] loc_recorded(
                            features@,
                            locs@,
                            ids@[j],
                        ) by {
                            if j < i {
                                assert(loc_recorded(features@, prev, ids@[j]));
                                match fb_lookup(features@, ids@[j]) {
                                    Some(l) => {
                                        let t = choose|t: int| 0 <= t < prev.len() && prev[t] == l;
                                        assert(locs@[t] == l);
                                    },
                                    None => {},
                                }
                            } else {
                                assert(locs@[prev.len() as int] == loc);
                            }
                        }
                    }
                } else {
                    proof {
                        assert(tm_set(*assoc).contains(ids@[i as int]));
                        let t = choose|t: int| 0 <= t < locs@.len() && locs@[t] == loc;
                        assert(locs@.contains(loc));
                    }
                }
            },
            None => {},
        }
        i = i + 1;
    }
    proof {
        assert forall|l: BucketLoc| target.contains(l) implies locs@.contains(l) by {
            let id = choose|id: u64|
                #[trigger] tm_set(*assoc).contains(id) && fb_lookup(features@, id) == Some(l);
            assert(ids@.to_set().contains(id));
            assert(ids@.contains(id));
            let j = choose|j: int| 0 <= j < ids@.len() && ids@[j] == id;
            assert(loc_recorded(features@, locs@, ids@[j]));
        }
    }

    let mut flat: Vec<u32> = Vec::new();
    let p: usize = locs.len();
    let mut k: usize = 0;
    while k < p
        invariant
            0 <= k <= p,
            p == locs.len(),
            flat@.len() == 2 * k,
            forall|t: int| 0 <= t < k ==> #[trigger] flat_pair(flat@, t) == locs@[t],
            forall|t: int| 0 <= t < k ==> #[trigger] flat@[2 * t] < 256,
        decreases p - k,
    {
        let ghost prev = flat@;
        flat.push(locs[k].chrom as u32);
        flat.push(locs[k].idx);
        proof {
            assert(flat@ == prev.push(locs@[k as int].chrom as u32).push(locs@[k as int].idx));
            assert(flat@[2 * k as int] == locs@[k as int].chrom as u32);
            assert(flat@[2 * k as int + 1] == locs@[k as int].idx);
            assert(flat_pair(flat@, k as int) == locs@[k as int]);
            assert forall|t: int| 0 <= t < k implies #[trigger] flat_pair(flat@, t) == locs@[t] by {
                assert(flat@[2 * t] == prev[2 * t]);
                assert(flat@[2 * t + 1] == prev[2 * t + 1]);
                assert(flat_pair(prev, t) == locs@[t]);
            }
        }
        k = k + 1;
    }
    proof {
        assert forall|l: BucketLoc| resolved_locs(tm_set(*assoc), features@).contains(
            l,
        ) implies exists|t: int| 0 <= t < flat@.len() / 2 && flat_pair(flat@, t) == l by {
            let t = choose|t: int| 0 <= t < locs@.len() && locs@[t] == l;
            assert(flat_pair(flat@, t) == l);
        }
    }
    flat
}

/// Dataset-wide numeric extrema over the assembled buckets, if any bucket
/// was assembled at all.
#[verifier::ext_equal]
pub ghost struct ExtremaModel {
    pub min_effect: i64,
    pub max_effect: i64,
    pub min_sig: i64,
    pub max_sig: i64,
}

/// Running extrema; `any` says whether any bucket contributed yet.
pub struct Extrema {
    pub any: bool,
    pub min_effect: i64,
    pub max_effect: i64,
    pub min_sig: i64,
    pub max_sig: i64,
}

impl View for Extrema {
    type V = Option<ExtremaModel>;

    open spec fn view(&self) -> Option<ExtremaModel> {
        if self.any {
            Some(
                ExtremaModel {
                    min_effect: self.min_effect,
                    max_effect: self.max_effect,
                    min_sig: self.min_sig,
                    max_sig: self.max_sig,
                },
            )
        } else {
            None
        }
    }
}

impl Extrema {
    /// No bucket has contributed yet.
    pub fn new() -> (r: Extrema)
        ensures
            r@ is None,
    {
        Extrema { any: false, min_effect: 0, max_effect: 0, min_sig: 0, max_sig: 0 }
    }
}

/// One bucket's contribution to the running extrema.
pub open spec fn ext_step(e: Option<ExtremaModel>, m: BucketModel) -> Option<ExtremaModel> {
    match e {
        None => Some(
            ExtremaModel {
                min_effect: m.min_effect,
                max_effect: m.max_effect,
                min_sig: m.min_sig,
                max_sig: m.max_sig,
            },
        ),
        Some(x) => Some(
            ExtremaModel {
                min_effect: if m.min_effect < x.min_effect {
                    m.min_effect
                } else {
                    x.min_effect
                },
                max_effect: if m.max_effect > x.max_effect {
                    m.max_effect
                } else {
                    x.max_effect
                },
                min_sig: if m.min_sig < x.min_sig {
                    m.min_sig
                } else {
                    x.min_sig
                },
                max_sig: if m.max_sig > x.max_sig {
                    m.max_sig
                } else {
                    x.max_sig
                },
            },
        ),
    }
}

/// The extrema over a sequence of assembled buckets.
pub open spec fn ext_fold(e: Option<ExtremaModel>, s: Seq<(BucketLoc, BucketModel)>) -> Option<
    ExtremaModel,
>
    decreases s.len(),
{
    if s.len() == 0 {
        e
    } else {
        ext_step(ext_fold(e, s.drop_last()), s.last().1)
    }
}

/// Whether a bucket location survives the chromosome restriction.
pub open spec fn chrom_pass(chrom: Option<u8>, loc: BucketLoc) -> bool {
    match chrom {
        None => true,
        Some(c) => loc.chrom == c,
    }
}

/// The entries surviving the chromosome restriction, in order.
pub open spec fn restrict_entries(s: Seq<(BucketLoc, BucketModel)>, chrom: Option<u8>) -> Seq<
    (BucketLoc, BucketModel),
> {
    s.filter(|p: (BucketLoc, BucketModel)| chrom_pass(chrom, p.0))
}

/// The entries of one chromosome, in order.
pub open spec fn chrom_entries(s: Seq<(BucketLoc, BucketModel)>, c: u8) -> Seq<
    (BucketLoc, BucketModel),
> {
    s.filter(|p: (BucketLoc, BucketModel)| p.0.chrom == c)
}

/// Every feature id a sequence of assembled buckets holds.
pub open spec fn features_of(s: Seq<(BucketLoc, BucketModel)>) -> Set<u64> {
    Set::new(
        |id: u64| exists|k: int| 0 <= k < s.len() && (#[trigger] s[k]).1.features.contains(id),
    )
}

/// One emitted interval corresponds to one assembled bucket.
pub open spec fn bucket_matches(
    iv: crate::data::FilteredBucketView,
    loc: BucketLoc,
    m: BucketModel,
    bucket_size: u32,
    fb: Seq<(u64, BucketLoc)>,
) -> bool {
    &&& iv.start as int == bucket_size as int * loc.idx as int + 1
    &&& iv.count as nat == m.features.len()
    &&& iv.count >= 1
    &&& iv.max_log10_sig == m.max_sig
    &&& iv.max_abs_effect == pick_max_abs(m)
    &&& flat_list_matches(iv.associated_buckets, resolved_locs(m.assoc, fb))
}

/// An interval list corresponds, position by position, to an entry list.
pub open spec fn intervals_match(
    ivs: Seq<crate::data::FilteredBucketView>,
    ce: Seq<(BucketLoc, BucketModel)>,
    bucket_size: u32,
    fb: Seq<(u64, BucketLoc)>,
) -> bool {
    &&& ivs.len() == ce.len()
    &&& forall|k: int|
        0 <= k < ce.len() ==> bucket_matches(#[trigger] ivs[k], ce[k].0, ce[k].1, bucket_size, fb)
}

/// The chromosome index the `c`th interval list stands for.
pub open spec fn chrom_of(chrom: Option<u8>, c: int) -> u8 {
    match chrom {
        Some(cc) => cc,
        None => c as u8,
    }
}

/// Emit one output interval from one assembled bucket.
pub fn emit_bucket(
    loc: BucketLoc,
    d: &BucketData,
    bucket_size: u32,
    features: &FeatureBuckets,
) -> (r: FilteredBucket)
    requires
        crate::aggregate::bucket_wf(d@),
    ensures
        bucket_matches(r@, loc, d@, bucket_size, features@),
{
    proof {
        assert(bucket_size as int * loc.idx as int + 1 < 0x1_0000_0000_0000_0000int)
            by (nonlinear_arith)
            requires
                0 <= bucket_size as int <= 0xFFFF_FFFFint,
                0 <= loc.idx as int <= 0xFFFF_FFFFint,
        ;
    }
    let start: u64 = (bucket_size as u64) * (loc.idx as u64) + 1;
    let count: u64 = bitmap::id_set_len(&d.feature_ids);
    let associated_buckets = resolve_associated_buckets(&d.associated_features, features);
    let neg_min: i64 = if d.min_effect < 0 {
        -d.min_effect
    } else {
        d.min_effect
    };
    let max_abs_effect: i64 = if d.max_effect > neg_min {
        d.max_effect
    } else {
        d.min_effect
    };
    FilteredBucket { start, count, associated_buckets, max_log10_sig: d.max_sig, max_abs_effect }
}

/// Filtering a pushed entry keeps the filtered prefix and appends the entry
/// exactly where the predicate holds.
proof fn lemma_filter_push_entry(
    s: Seq<(BucketLoc, BucketModel)>,
    x: (BucketLoc, BucketModel),
    p: spec_fn((BucketLoc, BucketModel)) -> bool,
)
    ensures
        s.push(x).filter(p) == (if p(x) {
            s.filter(p).push(x)
        } else {
            s.filter(p)
        }),
{
    reveal(Seq::filter);
    assert(s.push(x).drop_last() =~= s);
    assert(s.push(x).last() == x);
}

/// A pushed entry contributes exactly its feature ids.
proof fn lemma_features_of_push(s: Seq<(BucketLoc, BucketModel)>, x: (BucketLoc, BucketModel))
    ensures
        features_of(s.push(x)) == features_of(s) + x.1.features,
{
    assert forall|id: u64| features_of(s.push(x)).contains(id) implies (features_of(s).contains(id)
        || x.1.features.contains(id)) by {
        let k = choose|k: int|
            0 <= k < s.push(x).len() && (#[trigger] s.push(x)[k]).1.features.contains(id);
        if k < s.len() {
            assert(s[k].1.features.contains(id));
        }
    }
    assert forall|id: u64|
        (features_of(s).contains(id) || x.1.features.contains(id)) implies features_of(
        s.push(x),
    ).contains(id) by {
        if features_of(s).contains(id) {
            let k = choose|k: int| 0 <= k < s.len() && (#[trigger] s[k]).1.features.contains(id);
            assert(s.push(x)[k].1.features.contains(id));
        } else {
            assert(s.push(x)[s.len() as int].1.features.contains(id));
        }
    }
    assert(features_of(s.push(x)) =~= features_of(s) + x.1.features);
}

/// One more entry steps the extrema fold.
proof fn lemma_ext_fold_push(
    e: Option<ExtremaModel>,
    s: Seq<(BucketLoc, BucketModel)>,
    x: (BucketLoc, BucketModel),
)
    ensures
        ext_fold(e, s.push(x)) == ext_step(ext_fold(e, s), x.1),
{
    assert(s.push(x).drop_last() =~= s);
    assert(s.push(x).last() == x);
}

/// Every filtered entry occurs in the original sequence.
pub(crate) proof fn lemma_filter_members(
    s: Seq<(BucketLoc, BucketModel)>,
    p: spec_fn((BucketLoc, BucketModel)) -> bool,
)
    ensures
        forall|x: (BucketLoc, BucketModel)| #[trigger]
            s.filter(p).contains(x) ==> s.contains(x),
    decreases s.len(),
{
    reveal(Seq::filter);
    if s.len() != 0 {
        lemma_filter_members(s.drop_last(), p);
        assert forall|x: (BucketLoc, BucketModel)| #[trigger]
            s.filter(p).contains(x) implies s.contains(x) by {
            if s.drop_last().filter(p).contains(x) {
                assert(s.drop_last().contains(x));
                let k = choose|k: int| 0 <= k < s.drop_last().len() && s.drop_last()[k] == x;
                assert(s[k] == x);
            } else {
                assert(x == s.last());
                assert(s[s.len() - 1] == x);
            }
        }
    }
}

/// Filtering keeps the strict location order.
proof fn lemma_filter_sorted(
    s: Seq<(BucketLoc, BucketModel)>,
    p: spec_fn((BucketLoc, BucketModel)) -> bool,
)
    requires
        forall|i: int, j: int|
            0 <= i < j < s.len() ==> (#[trigger] s[i]).0.lt((#[trigger] s[j]).0),
    ensures
        forall|i: int, j: int|
            0 <= i < j < s.filter(p).len() ==> (#[trigger] s.filter(p)[i]).0.lt(
                (#[trigger] s.filter(p)[j]).0,
            ),
    decreases s.len(),
{
    reveal(Seq::filter);
    if s.len() != 0 {
        let dl = s.drop_last();
        assert(forall|i: int, j: int|
            0 <= i < j < dl.len() ==> (#[trigger] dl[i]).0.lt((#[trigger] dl[j]).0));
        lemma_filter_sorted(dl, p);
        lemma_filter_members(dl, p);
        let f = s.filter(p);
        if p(s.last()) {
            assert(f == dl.filter(p).push(s.last()));
            assert forall|i: int, j: int|
                0 <= i < j < f.len() implies (#[trigger] f[i]).0.lt((#[trigger] f[j]).0) by {
                if j < f.len() - 1 {
                    assert(f[i] == dl.filter(p)[i] && f[j] == dl.filter(p)[j]);
                } else {
                    assert(f[j] == s.last());
                    assert(f[i] == dl.filter(p)[i]);
                    assert(dl.filter(p).contains(dl.filter(p)[i]));
                    assert(dl.contains(f[i]));
                    let k = choose|k: int| 0 <= k < dl.len() && dl[k] == f[i];
                    assert(s[k] == f[i]);
                    assert(s[k].0.lt(s[s.len() - 1].0));
                }
            }
        } else {
            assert(f == dl.filter(p));
        }
    }
}

/// Assemble one role's reduced bucket map into per-chromosome interval
/// lists, while recording every member feature id and widening the running
/// extrema. Buckets outside the chromosome restriction are dropped.
#[verifier::loop_isolation(false)]
#[verifier::rlimit(100)]
pub fn assemble_role(
    buckets: &BucketMap,
    chrom: Option<u8>,
    n_chroms: usize,
    bucket_size: u32,
    features: &FeatureBuckets,
    seen: &mut RoaringTreemap,
    extrema: &mut Extrema,
) -> (intervals: Vec<Vec<FilteredBucket>>)
    requires
        buckets.wf(),
        bucket_size >= 1,
        n_chroms <= 256,
        chrom is None ==> forall|i: int|
            0 <= i < buckets@.len() ==> ((#[trigger] buckets@[i]).0.chrom as int) < n_chroms as int,
        tm_set(*old(seen)).finite(),
    ensures
        intervals@.len() == (match chrom {
            Some(_) => 1int,
            None => n_chroms as int,
        }),
        forall|c: int|
            0 <= c < intervals@.len() ==> intervals_match(
                bucket_seq_view((#[trigger] intervals@[c])@),
                chrom_entries(buckets@, chrom_of(chrom, c)),
                bucket_size,
                features@,
            ),
        forall|c: int|
            0 <= c < intervals@.len() ==> crate::data::intervals_sorted(
                bucket_seq_view((#[trigger] intervals@[c])@),
            ),
        final(extrema)@ == ext_fold(old(extrema)@, restrict_entries(buckets@, chrom)),
        tm_set(*final(seen)) == tm_set(*old(seen)) + features_of(restrict_entries(buckets@, chrom)),
        tm_set(*final(seen)).finite(),
{
    let ghost s = buckets@;
    let ghost e0 = old(extrema)@;
    let ghost seen0 = tm_set(*old(seen));
    let m: usize = match chrom {
        Some(_) => 1,
        None => n_chroms,
    };
    let mut intervals: Vec<Vec<FilteredBucket>> = Vec::new();
    while intervals.len() < m
        invariant
            intervals@.len() <= m as int,
            forall|c: int| 0 <= c < intervals@.len() ==> (#[trigger] intervals@[c])@.len() == 0,
        decreases m - intervals.len(),
    {
        intervals.push(Vec::new());
    }
    proof {
        assert(s.take(0) =~= Seq::<(BucketLoc, BucketModel)>::empty());
        reveal(Seq::filter);
    }
    let n: usize = buckets.entries.len();
    let mut i: usize = 0;
    while i < n
        invariant
            0 <= i <= n,
            intervals@.len() == m as int,
            forall|c: int|
                0 <= c < m as int ==> intervals_match(
                    bucket_seq_view((#[trigger] intervals@[c])@),
                    chrom_entries(s.take(i as int), chrom_of(chrom, c)),
                    bucket_size,
                    features@,
                ),
            extrema@ == ext_fold(e0, restrict_entries(s.take(i as int), chrom)),
            tm_set(*seen) == seen0 + features_of(restrict_entries(s.take(i as int), chrom)),
            tm_set(*seen).finite(),
        decreases n - i,
    {
        let ghost entry = s[i as int];
        let ghost taken = s.take(i as int);
        proof {
            assert(s.take(i + 1) =~= taken.push(entry));
        }
        let loc = buckets.entries[i].0;
        let pass = match chrom {
            None => true,
            Some(cc) => loc.chrom == cc,
        };
        if pass {
            let c: usize = match chrom {
                Some(_) => 0,
                None => loc.chrom as usize,
            };
            let b = emit_bucket(loc, &buckets.entries[i].1, bucket_size, features);
            let ghost iprev = intervals@;
            let mut v = intervals.remove(c);
            let ghost vprev = bucket_seq_view(v@);
            v.push(b);
            intervals.insert(c, v);
            tm_union_with(seen, &buckets.entries[i].1.feature_ids);
            let ghost ext_prev = extrema@;
            if !extrema.any {
                extrema.any = true;
                extrema.min_effect = buckets.entries[i].1.min_effect;
                extrema.max_effect = buckets.entries[i].1.max_effect;
                extrema.min_sig = buckets.entries[i].1.min_sig;
                extrema.max_sig = buckets.entries[i].1.max_sig;
            } else {
                if buckets.entries[i].1.min_effect < extrema.min_effect {
                    extrema.min_effect = buckets.entries[i].1.min_effect;
                }
                if buckets.entries[i].1.max_effect > extrema.max_effect {
                    extrema.max_effect = buckets.entries[i].1.max_effect;
                }
                if buckets.entries[i].1.min_sig < extrema.min_sig {
                    extrema.min_sig = buckets.entries[i].1.min_sig;
                }
                if buckets.entries[i].1.max_sig > extrema.max_sig {
                    extrema.max_sig = buckets.entries[i].1.max_sig;
                }
            }
            proof {
                assert(entry == (loc, buckets.entries@[i as int].1@));
                assert(chrom_pass(chrom, entry.0));

                // The interval lists: only list `c` changes, by one push.
                assert(intervals@ =~= iprev.update(c as int, v)) by {
                    assert forall|k: int| 0 <= k < intervals@.len() implies intervals@[k]
                        == iprev.update(c as int, v)[k] by {
                        assert(intervals@[k] == iprev.remove(c as int).insert(c as int, v)[k]);
                    }
                }
                assert(bucket_seq_view(v@) =~= vprev.push(b@));
                assert forall|c2: int|
                    0 <= c2 < m as int implies intervals_match(
                    bucket_seq_view((#[trigger] intervals@[c2])@),
                    chrom_entries(s.take(i + 1), chrom_of(chrom, c2)),
                    bucket_size,
                    features@,
                ) by {
                    let ch = chrom_of(chrom, c2);
                    let pred = |p: (BucketLoc, BucketModel)| p.0.chrom == ch;
                    lemma_filter_push_entry(taken, entry, pred);
                    if c2 == c as int {
                        assert(entry.0.chrom == ch);
                        assert(intervals@[c2] == v);
                        assert(chrom_entries(s.take(i + 1), ch) == chrom_entries(
                            taken,
                            ch,
                        ).push(entry));
                        assert(intervals_match(vprev, chrom_entries(taken, ch), bucket_size,
                        features@));
                        assert forall|k: int|
                            0 <= k < chrom_entries(s.take(i + 1), ch).len() implies bucket_matches(
                            #[trigger] bucket_seq_view(v@)[k],
                            chrom_entries(s.take(i + 1), ch)[k].0,
                            chrom_entries(s.take(i + 1), ch)[k].1,
                            bucket_size,
                            features@,
                        ) by {
                            if k < chrom_entries(taken, ch).len() {
                                assert(bucket_seq_view(v@)[k] == vprev[k]);
                            } else {
                                assert(bucket_seq_view(v@)[k] == b@);
                                assert(chrom_entries(s.take(i + 1), ch)[k] == entry);
                            }
                        }
                    } else {
                        assert(intervals@[c2] == iprev[c2]);
                        assert(entry.0.chrom != ch) by {
                            match chrom {
                                Some(_) => {},
                                None => {
                                    assert(c as int == entry.0.chrom as int);
                                    assert(c2 < 256);
                                },
                            }
                        }
                        assert(chrom_entries(s.take(i + 1), ch) == chrom_entries(taken, ch));
                    }
                }

                // The extrema fold and the seen set.
                let rpred = |p: (BucketLoc, BucketModel)| chrom_pass(chrom, p.0);
                lemma_filter_push_entry(taken, entry, rpred);
                assert(restrict_entries(s.take(i + 1), chrom) == restrict_entries(
                    taken,
                    chrom,
                ).push(entry));
                lemma_ext_fold_push(e0, restrict_entries(taken, chrom), entry);
                assert(extrema@ == ext_step(ext_prev, entry.1));
                lemma_features_of_push(restrict_entries(taken, chrom), entry);
                assert(tm_set(*seen) =~= seen0 + features_of(restrict_entries(s.take(i + 1), chrom)));
            }
        } else {
            proof {
                assert(!chrom_pass(chrom, entry.0));
                let rpred = |p: (BucketLoc, BucketModel)| chrom_pass(chrom, p.0);
                lemma_filter_push_entry(taken, entry, rpred);
                assert(restrict_entries(s.take(i + 1), chrom) == restrict_entries(taken, chrom));
                assert forall|c2: int|
                    0 <= c2 < m as int implies intervals_match(
                    bucket_seq_view((#[trigger] intervals@[c2])@),
                    chrom_entries(s.take(i + 1), chrom_of(chrom, c2)),
                    bucket_size,
                    features@,
                ) by {
                    let ch = chrom_of(chrom, c2);
                    let pred = |p: (BucketLoc, BucketModel)| p.0.chrom == ch;
                    lemma_filter_push_entry(taken, entry, pred);
                    assert(entry.0.chrom != ch);
                    assert(chrom_entries(s.take(i + 1), ch) == chrom_entries(taken, ch));
                }
            }
        }
        i = i + 1;
    }
    proof {
        assert(s.take(n as int) =~= s);
        // Emitted interval lists are strictly ascending by start.
        assert forall|c: int| 0 <= c < intervals@.len() implies crate::data::intervals_sorted(
            bucket_seq_view((#[trigger] intervals@[c])@),
        ) by {
            let ch = chrom_of(chrom, c);
            let pred = |p: (BucketLoc, BucketModel)| p.0.chrom == ch;
            let ce = chrom_entries(s, ch);
            lemma_filter_sorted(s, pred);
            let ivs = bucket_seq_view(intervals@[c]@);
            assert forall|a: int, b: int| 0 <= a < b < ivs.len() implies (#[trigger] ivs[a]).start
                < (#[trigger] ivs[b]).start by {
                assert(ce[a].0.lt(ce[b].0));
                s.lemma_filter_pred(pred, a);
                s.lemma_filter_pred(pred, b);
                assert(ce[a].0.chrom == ch && ce[b].0.chrom == ch);
                assert(ce[a].0.idx < ce[b].0.idx);
                assert(bucket_matches(ivs[a], ce[a].0, ce[a].1, bucket_size, features@));
                assert(bucket_matches(ivs[b], ce[b].0, ce[b].1, bucket_size, features@));
                let bs = bucket_size as int;
                let ia = ce[a].0.idx as int;
                let ib = ce[b].0.idx as int;
                assert(bs * ia < bs * ib) by (nonlinear_arith)
                    requires
                        bs >= 1,
                        0 <= ia < ib,
                ;
            }
        }
    }
    intervals
}

} // verus!
