//! Bucket aggregation: accumulating filtered observations into per-role
//! bucket maps keyed by `(chromosome, bucket index)`.
//!
//! The mathematical model of one invocation is `aggregate`: a left fold of
//! `agg_step` over the observation sequence, producing a map from bucket
//! location to accumulated bucket state per role plus the set of processed
//! observation ids. The executable maps are vectors sorted strictly by
//! location, read through `as_map`.

use vstd::prelude::*;

use crate::bitmap::{self, tm_insert, tm_set};
use crate::data::{BucketLoc, FeatureBuckets, ObservationData, ObsView, fb_lookup, obs_seq_view};
use roaring::RoaringTreemap;

verus! {

/// The accumulated state of one bucket: member feature ids, connected
/// opposite-role feature ids, and running numeric extrema.
#[verifier::ext_equal]
pub ghost struct BucketModel {
    pub features: Set<u64>,
    pub assoc: Set<u64>,
    pub min_effect: i64,
    pub max_effect: i64,
    pub min_sig: i64,
    pub max_sig: i64,
}

/// Any reachable bucket state: finite id sets, at least one member, and
/// coherent extrema.
pub open spec fn bucket_wf(m: BucketModel) -> bool {
    &&& m.features.finite()
    &&& m.assoc.finite()
    &&& m.features.len() >= 1
    &&& m.min_effect <= m.max_effect
    &&& m.min_sig <= m.max_sig
    &&& m.min_effect != i64::MIN
}

/// The one-or-zero-element set an optional id stands for.
pub open spec fn opt_set(o: Option<u64>) -> Set<u64> {
    match o {
        Some(v) => Set::<u64>::empty().insert(v),
        None => Set::<u64>::empty(),
    }
}

/// A bucket's state after its first contribution.
pub open spec fn fresh_bucket(id: u64, assoc: Option<u64>, eff: i64, sig: i64) -> BucketModel {
    BucketModel {
        features: Set::<u64>::empty().insert(id),
        assoc: opt_set(assoc),
        min_effect: eff,
        max_effect: eff,
        min_sig: sig,
        max_sig: sig,
    }
}

/// A bucket's state after one more contribution.
pub open spec fn bucket_add(m: BucketModel, id: u64, assoc: Option<u64>, eff: i64, sig: i64) -> BucketModel {
    BucketModel {
        features: m.features.insert(id),
        assoc: m.assoc + opt_set(assoc),
        min_effect: if eff < m.min_effect {
            eff
        } else {
            m.min_effect
        },
        max_effect: if eff > m.max_effect {
            eff
        } else {
            m.max_effect
        },
        min_sig: if sig < m.min_sig {
            sig
        } else {
            m.min_sig
        },
        max_sig: if sig > m.max_sig {
            sig
        } else {
            m.max_sig
        },
    }
}

/// Two buckets' states combined: id-set unions, elementwise extrema.
pub open spec fn bucket_combine(a: BucketModel, b: BucketModel) -> BucketModel {
    BucketModel {
        features: a.features + b.features,
        assoc: a.assoc + b.assoc,
        min_effect: if a.min_effect < b.min_effect {
            a.min_effect
        } else {
            b.min_effect
        },
        max_effect: if a.max_effect > b.max_effect {
            a.max_effect
        } else {
            b.max_effect
        },
        min_sig: if a.min_sig < b.min_sig {
            a.min_sig
        } else {
            b.min_sig
        },
        max_sig: if a.max_sig > b.max_sig {
            a.max_sig
        } else {
            b.max_sig
        },
    }
}

/// Combination is commutative.
pub proof fn lemma_bucket_combine_comm(a: BucketModel, b: BucketModel)
    ensures
        bucket_combine(a, b) == bucket_combine(b, a),
{
    assert(bucket_combine(a, b) =~= bucket_combine(b, a));
}

/// Combination is associative.
pub proof fn lemma_bucket_combine_assoc(a: BucketModel, b: BucketModel, c: BucketModel)
    ensures
        bucket_combine(bucket_combine(a, b), c) == bucket_combine(a, bucket_combine(b, c)),
{
    assert(bucket_combine(bucket_combine(a, b), c) =~= bucket_combine(a, bucket_combine(b, c)));
}

/// Combining with a fresh contribution is adding that contribution.
pub proof fn lemma_combine_fresh(m: BucketModel, id: u64, assoc: Option<u64>, eff: i64, sig: i64)
    ensures
        bucket_combine(m, fresh_bucket(id, assoc, eff, sig)) == bucket_add(m, id, assoc, eff, sig),
{
    assert(m.features + Set::<u64>::empty().insert(id) =~= m.features.insert(id));
    assert(bucket_combine(m, fresh_bucket(id, assoc, eff, sig)) =~= bucket_add(
        m,
        id,
        assoc,
        eff,
        sig,
    ));
}

/// Adding a contribution to the right operand adds it to the combination.
pub proof fn lemma_combine_add(
    a: BucketModel,
    b: BucketModel,
    id: u64,
    assoc: Option<u64>,
    eff: i64,
    sig: i64,
)
    ensures
        bucket_combine(a, bucket_add(b, id, assoc, eff, sig)) == bucket_add(
            bucket_combine(a, b),
            id,
            assoc,
            eff,
            sig,
        ),
{
    assert(bucket_combine(a, bucket_add(b, id, assoc, eff, sig)) =~= bucket_add(
        bucket_combine(a, b),
        id,
        assoc,
        eff,
        sig,
    ));
}

/// The accumulated state of one bucket.
pub struct BucketData {
    pub feature_ids: RoaringTreemap,
    pub associated_features: RoaringTreemap,
    pub min_effect: i64,
    pub max_effect: i64,
    pub min_sig: i64,
    pub max_sig: i64,
}

impl View for BucketData {
    type V = BucketModel;

    open spec fn view(&self) -> BucketModel {
        BucketModel {
            features: tm_set(self.feature_ids),
            assoc: tm_set(self.associated_features),
            min_effect: self.min_effect,
            max_effect: self.max_effect,
            min_sig: self.min_sig,
            max_sig: self.max_sig,
        }
    }
}

/// The view of an entry sequence.
pub open spec fn entries_view(s: Seq<(BucketLoc, BucketData)>) -> Seq<(BucketLoc, BucketModel)> {
    s.map_values(|p: (BucketLoc, BucketData)| (p.0, p.1@))
}

/// The finite map a (key, value) sequence holds; later entries win, though
/// the library only builds sequences with distinct keys.
pub open spec fn as_map(s: Seq<(BucketLoc, BucketModel)>) -> Map<BucketLoc, BucketModel>
    decreases s.len(),
{
    if s.len() == 0 {
        Map::<BucketLoc, BucketModel>::empty()
    } else {
        as_map(s.skip(1)).insert(s[0].0, s[0].1)
    }
}

/// No two entries share a key.
pub open spec fn keys_distinct(s: Seq<(BucketLoc, BucketModel)>) -> bool {
    forall|i: int, j: int| 0 <= i < j < s.len() ==> (#[trigger] s[i]).0 != (#[trigger] s[j]).0
}

/// A key is in the map exactly where some entry holds it.
pub proof fn lemma_as_map_contains(s: Seq<(BucketLoc, BucketModel)>, l: BucketLoc)
    ensures
        as_map(s).dom().contains(l) <==> exists|i: int| 0 <= i < s.len() && (#[trigger] s[i]).0 == l,
    decreases s.len(),
{
    if s.len() != 0 {
        lemma_as_map_contains(s.skip(1), l);
        if as_map(s).dom().contains(l) {
            if s[0].0 != l {
                let i = choose|i: int| 0 <= i < s.skip(1).len() && (#[trigger] s.skip(1)[i]).0 == l;
                assert(s[i + 1].0 == l);
            }
        }
        if exists|i: int| 0 <= i < s.len() && (#[trigger] s[i]).0 == l {
            let i = choose|i: int| 0 <= i < s.len() && (#[trigger] s[i]).0 == l;
            if i > 0 {
                assert(s.skip(1)[i - 1].0 == l);
            }
        }
    }
}

/// With distinct keys, each entry's key maps to its value.
pub proof fn lemma_as_map_index(s: Seq<(BucketLoc, BucketModel)>, i: int)
    requires
        keys_distinct(s),
        0 <= i < s.len(),
    ensures
        as_map(s).dom().contains(s[i].0),
        as_map(s)[s[i].0] == s[i].1,
    decreases s.len(),
{
    lemma_as_map_contains(s, s[i].0);
    if i > 0 {
        assert(keys_distinct(s.skip(1))) by {
            assert forall|a: int, b: int|
                0 <= a < b < s.skip(1).len() implies (#[trigger] s.skip(1)[a]).0 != (#[trigger] s.skip(
                1,
            )[b]).0 by {
                assert(s.skip(1)[a] == s[a + 1] && s.skip(1)[b] == s[b + 1]);
            }
        }
        assert(s.skip(1)[i - 1] == s[i]);
        lemma_as_map_index(s.skip(1), i - 1);
        assert(s[0].0 != s[i].0);
    }
}

/// Updating the value at one entry updates the map at its key.
pub proof fn lemma_as_map_update(s: Seq<(BucketLoc, BucketModel)>, i: int, d: BucketModel)
    requires
        keys_distinct(s),
        0 <= i < s.len(),
    ensures
        as_map(s.update(i, (s[i].0, d))) == as_map(s).insert(s[i].0, d),
    decreases s.len(),
{
    let t = s.update(i, (s[i].0, d));
    if i == 0 {
        assert(t.skip(1) =~= s.skip(1));
        assert(as_map(t) == as_map(s.skip(1)).insert(s[0].0, d));
        assert(as_map(s).insert(s[0].0, d) =~= as_map(s.skip(1)).insert(s[0].0, d));
    } else {
        assert(keys_distinct(s.skip(1))) by {
            assert forall|a: int, b: int|
                0 <= a < b < s.skip(1).len() implies (#[trigger] s.skip(1)[a]).0 != (#[trigger] s.skip(
                1,
            )[b]).0 by {
                assert(s.skip(1)[a] == s[a + 1] && s.skip(1)[b] == s[b + 1]);
            }
        }
        assert(t.skip(1) =~= s.skip(1).update(i - 1, (s[i].0, d)));
        assert(s.skip(1)[i - 1] == s[i]);
        lemma_as_map_update(s.skip(1), i - 1, d);
        assert(t[0] == s[0]);
        assert(s[0].0 != s[i].0);
        assert(as_map(t) == as_map(s.skip(1)).insert(s[i].0, d).insert(s[0].0, s[0].1));
        assert(as_map(s.skip(1)).insert(s[i].0, d).insert(s[0].0, s[0].1) =~= as_map(
            s.skip(1),
        ).insert(s[0].0, s[0].1).insert(s[i].0, d));
    }
}

/// Inserting an entry with a fresh key inserts it into the map.
pub proof fn lemma_as_map_insert_at(
    s: Seq<(BucketLoc, BucketModel)>,
    i: int,
    e: (BucketLoc, BucketModel),
)
    requires
        0 <= i <= s.len(),
        forall|j: int| 0 <= j < s.len() ==> (#[trigger] s[j]).0 != e.0,
    ensures
        as_map(s.insert(i, e)) == as_map(s).insert(e.0, e.1),
    decreases s.len(),
{
    let t = s.insert(i, e);
    if i == 0 {
        assert(t.skip(1) =~= s);
        assert(t[0] == e);
    } else {
        assert(t.skip(1) =~= s.skip(1).insert(i - 1, e));
        assert(forall|j: int|
            0 <= j < s.skip(1).len() ==> (#[trigger] s.skip(1)[j]).0 == s[j + 1].0);
        lemma_as_map_insert_at(s.skip(1), i - 1, e);
        assert(t[0] == s[0]);
        assert(s[0].0 != e.0);
        assert(as_map(t) == as_map(s.skip(1)).insert(e.0, e.1).insert(s[0].0, s[0].1));
        assert(as_map(s.skip(1)).insert(e.0, e.1).insert(s[0].0, s[0].1) =~= as_map(
            s.skip(1),
        ).insert(s[0].0, s[0].1).insert(e.0, e.1));
    }
}

/// One contribution folded into a bucket map: a lookup miss contributes
/// nothing, otherwise the feature's bucket gains the contribution.
pub open spec fn map_add(
    m: Map<BucketLoc, BucketModel>,
    fb: Seq<(u64, BucketLoc)>,
    id: u64,
    assoc: Option<u64>,
    eff: i64,
    sig: i64,
) -> Map<BucketLoc, BucketModel> {
    match fb_lookup(fb, id) {
        None => m,
        Some(loc) => m.insert(
            loc,
            if m.dom().contains(loc) {
                bucket_add(m[loc], id, assoc, eff, sig)
            } else {
                fresh_bucket(id, assoc, eff, sig)
            },
        ),
    }
}

/// The model of one aggregation: processed observation ids plus the two
/// per-role bucket maps.
#[verifier::ext_equal]
pub ghost struct AggModel {
    pub reos: Set<u64>,
    pub source: Map<BucketLoc, BucketModel>,
    pub target: Map<BucketLoc, BucketModel>,
}

/// The aggregation of nothing.
pub open spec fn empty_agg() -> AggModel {
    AggModel {
        reos: Set::<u64>::empty(),
        source: Map::<BucketLoc, BucketModel>::empty(),
        target: Map::<BucketLoc, BucketModel>::empty(),
    }
}

/// One observation folded in: its id is recorded; its source feature's
/// bucket gains a source-role contribution; where a target exists, the
/// target feature's bucket gains a target-role contribution.
pub open spec fn agg_step(a: AggModel, o: ObsView, fb: Seq<(u64, BucketLoc)>) -> AggModel {
    AggModel {
        reos: a.reos.insert(o.reo_id),
        source: map_add(
            a.source,
            fb,
            o.source_id,
            o.target_id,
            o.effect_size,
            o.neg_log_significance,
        ),
        target: match o.target_id {
            Some(t) => map_add(
                a.target,
                fb,
                t,
                Some(o.source_id),
                o.effect_size,
                o.neg_log_significance,
            ),
            None => a.target,
        },
    }
}

/// The aggregation of an observation sequence: a left fold of `agg_step`.
pub open spec fn aggregate(obs: Seq<ObsView>, fb: Seq<(u64, BucketLoc)>) -> AggModel
    decreases obs.len(),
{
    if obs.len() == 0 {
        empty_agg()
    } else {
        agg_step(aggregate(obs.drop_last(), fb), obs.last(), fb)
    }
}

/// Two bucket maps combined: union of domains, `bucket_combine` on shared
/// locations.
pub open spec fn combine_maps(
    m1: Map<BucketLoc, BucketModel>,
    m2: Map<BucketLoc, BucketModel>,
) -> Map<BucketLoc, BucketModel> {
    Map::new(
        |l: BucketLoc| m1.dom().contains(l) || m2.dom().contains(l),
        |l: BucketLoc|
            if m1.dom().contains(l) && m2.dom().contains(l) {
                bucket_combine(m1[l], m2[l])
            } else if m1.dom().contains(l) {
                m1[l]
            } else {
                m2[l]
            },
    )
}

/// Two aggregations combined: id-set union and per-role map combination.
pub open spec fn combine_agg(a: AggModel, b: AggModel) -> AggModel {
    AggModel {
        reos: a.reos + b.reos,
        source: combine_maps(a.source, b.source),
        target: combine_maps(a.target, b.target),
    }
}

/// A per-role bucket map: entries sorted strictly ascending by location.
pub struct BucketMap {
    pub entries: Vec<(BucketLoc, BucketData)>,
}

impl View for BucketMap {
    type V = Seq<(BucketLoc, BucketModel)>;

    open spec fn view(&self) -> Seq<(BucketLoc, BucketModel)> {
        entries_view(self.entries@)
    }
}

impl BucketMap {
    /// The finite map this bucket map holds.
    pub open spec fn to_map(self) -> Map<BucketLoc, BucketModel> {
        as_map(self@)
    }

    /// Entries are strictly ascending by location and each bucket state is
    /// reachable.
    pub open spec fn wf(self) -> bool {
        &&& forall|i: int, j: int|
            0 <= i < j < self@.len() ==> (#[trigger] self@[i]).0.lt((#[trigger] self@[j]).0)
        &&& forall|i: int| 0 <= i < self@.len() ==> bucket_wf((#[trigger] self@[i]).1)
    }

    /// The empty bucket map.
    pub fn new() -> (r: BucketMap)
        ensures
            r.wf(),
            r.to_map() == Map::<BucketLoc, BucketModel>::empty(),
            r@.len() == 0,
    {
        BucketMap { entries: Vec::new() }
    }
}

/// Two well-formed bucket maps holding the same map are view-identical:
/// together with the reduction's chunk independence, any partition of the
/// observations yields the same bucket-map representation.
pub proof fn lemma_bucket_map_canonical(m1: BucketMap, m2: BucketMap)
    requires
        m1.wf(),
        m2.wf(),
        m1.to_map() == m2.to_map(),
    ensures
        m1@ == m2@,
{
    lemma_sorted_map_canonical(m1@, m2@);
}

/// Strict location order is total: two distinct locations are ordered.
pub proof fn lemma_loc_order(a: BucketLoc, b: BucketLoc)
    ensures
        a.lt(b) || b.lt(a) || a == b,
        !(a.lt(b) && b.lt(a)),
{
}

/// Fold one contribution into a bucket map, leaving it silently unchanged
/// where the feature has no bucket location.
#[verifier::loop_isolation(false)]
#[verifier::rlimit(50)]
pub fn add_data_to_bucket(
    id: u64,
    associated_feature: Option<u64>,
    obs_sig: i64,
    effect_size: i64,
    buckets: &mut BucketMap,
    bucket_locs: &FeatureBuckets,
)
    requires
        old(buckets).wf(),
        effect_size != i64::MIN,
    ensures
        final(buckets).wf(),
        final(buckets).to_map() == map_add(
            old(buckets).to_map(),
            bucket_locs@,
            id,
            associated_feature,
            effect_size,
            obs_sig,
        ),
{
    let loc = match bucket_locs.get(id) {
        Some(loc) => loc,
        None => {
            return ;
        },
    };
    let ghost s0 = buckets@;
    proof {
        assert(keys_distinct(s0)) by {
            assert forall|i: int, j: int| 0 <= i < j < s0.len() implies (#[trigger] s0[i]).0 != (
            #[trigger] s0[j]).0 by {
                lemma_loc_order(s0[i].0, s0[j].0);
            }
        }
    }

    let n: usize = buckets.entries.len();
    let mut i: usize = 0;
    while i < n && lt_exec(&buckets.entries[i].0, &loc)
        invariant
            0 <= i <= n,
            forall|k: int| 0 <= k < i ==> (#[trigger] buckets@[k]).0.lt(loc),
        decreases n - i,
    {
        i = i + 1;
    }

    if i < n && buckets.entries[i].0 == loc {
        // The bucket exists: widen it in place.
        let mut e = buckets.entries.remove(i);
        let ghost old_model = e.1@;
        tm_insert(&mut e.1.feature_ids, id);
        match associated_feature {
            Some(af) => {
                tm_insert(&mut e.1.associated_features, af);
            },
            None => {},
        }
        if effect_size < e.1.min_effect {
            e.1.min_effect = effect_size;
        }
        if effect_size > e.1.max_effect {
            e.1.max_effect = effect_size;
        }
        if obs_sig < e.1.min_sig {
            e.1.min_sig = obs_sig;
        }
        if obs_sig > e.1.max_sig {
            e.1.max_sig = obs_sig;
        }
        proof {
            assert(e.1@.assoc =~= old_model.assoc + opt_set(associated_feature));
            assert(e.1@ =~= bucket_add(old_model, id, associated_feature, effect_size, obs_sig));
        }
        buckets.entries.insert(i, e);
        proof {
            assert(buckets@ =~= s0.update(i as int, (loc, e.1@))) by {
                assert(buckets.entries@ == old(buckets).entries@.remove(i as int).insert(
                    i as int,
                    e,
                ));
                assert forall|k: int| 0 <= k < s0.len() implies buckets@[k] == s0.update(
                    i as int,
                    (loc, e.1@),
                )[k] by {
                    assert(buckets.entries@[k] == old(buckets).entries@.remove(i as int).insert(
                        i as int,
                        e,
                    )[k]);
                }
            }
            assert(s0[i as int].0 == loc);
            lemma_as_map_update(s0, i as int, e.1@);
            lemma_as_map_index(s0, i as int);
            assert(as_map(s0).dom().contains(loc));
            assert(as_map(s0)[loc] == old_model);
            assert(bucket_wf(e.1@));
            assert(buckets.wf()) by {
                assert forall|a: int, b: int|
                    0 <= a < b < buckets@.len() implies (#[trigger] buckets@[a]).0.lt(
                    (#[trigger] buckets@[b]).0,
                ) by {
                    assert(buckets@[a].0 == s0[a].0 && buckets@[b].0 == s0[b].0);
                }
            }
        }
    } else {
        // No bucket yet: insert a fresh one, keeping the order.
        proof {
            assert forall|j: int| 0 <= j < s0.len() implies (#[trigger] s0[j]).0 != loc by {
                if j < i {
                    assert(s0[j].0.lt(loc));
                } else if j == i {
                    assert(!s0[j].0.lt(loc));
                    lemma_loc_order(s0[j].0, loc);
                } else {
                    assert(s0[i as int].0.lt(s0[j].0));
                    lemma_loc_order(s0[i as int].0, loc);
                    lemma_loc_order(s0[j].0, loc);
                }
            }
            lemma_as_map_contains(s0, loc);
        }
        let assoc_ids = match associated_feature {
            Some(af) => {
                let mut t = bitmap::empty_id_set();
                bitmap::tm_insert(&mut t, af);
                t
            },
            None => bitmap::empty_id_set(),
        };
        let mut fids = bitmap::empty_id_set();
        bitmap::tm_insert(&mut fids, id);
        let e = (
            loc,
            BucketData {
                feature_ids: fids,
                associated_features: assoc_ids,
                min_effect: effect_size,
                max_effect: effect_size,
                min_sig: obs_sig,
                max_sig: obs_sig,
            },
        );
        let ghost em = e.1@;
        proof {
            assert(em =~= fresh_bucket(id, associated_feature, effect_size, obs_sig));
        }
        buckets.entries.insert(i, e);
        proof {
            assert(buckets@ =~= s0.insert(i as int, (loc, em))) by {
                assert(buckets.entries@ == old(buckets).entries@.insert(i as int, e));
                assert forall|k: int| 0 <= k < buckets@.len() implies buckets@[k] == s0.insert(
                    i as int,
                    (loc, em),
                )[k] by {
                    assert(buckets.entries@[k] == old(buckets).entries@.insert(i as int, e)[k]);
                }
            }
            lemma_as_map_insert_at(s0, i as int, (loc, em));
            assert(bucket_wf(em));
            assert(buckets.wf()) by {
                assert forall|a: int, b: int|
                    0 <= a < b < buckets@.len() implies (#[trigger] buckets@[a]).0.lt(
                    (#[trigger] buckets@[b]).0,
                ) by {
                    if b < i {
                        assert(buckets@[a] == s0[a] && buckets@[b] == s0[b]);
                    } else if b == i {
                        assert(buckets@[a] == s0[a] && buckets@[b] == (loc, em));
                    } else if a < i {
                        assert(buckets@[a] == s0[a] && buckets@[b] == s0[b - 1]);
                        if a == b - 1 {
                        } else {
                            assert(s0[a].0.lt(s0[b - 1].0));
                        }
                    } else if a == i {
                        assert(buckets@[a] == (loc, em) && buckets@[b] == s0[b - 1]);
                        assert(i < n);
                        assert(!s0[i as int].0.lt(loc));
                        lemma_loc_order(s0[i as int].0, loc);
                        if b - 1 == i {
                        } else {
                            assert(s0[i as int].0.lt(s0[b - 1].0));
                        }
                    } else {
                        assert(buckets@[a] == s0[a - 1] && buckets@[b] == s0[b - 1]);
                    }
                }
            }
        }
    }
}

/// Fold one observation into the two per-role bucket maps: a source-role
/// contribution for its source feature and, where a target exists, a
/// target-role contribution for the target feature.
pub fn update_buckets(
    observation: &ObservationData,
    source_buckets: &mut BucketMap,
    target_buckets: &mut BucketMap,
    features: &FeatureBuckets,
)
    requires
        old(source_buckets).wf(),
        old(target_buckets).wf(),
        observation@.wf(),
    ensures
        final(source_buckets).wf(),
        final(target_buckets).wf(),
        final(source_buckets).to_map() == map_add(
            old(source_buckets).to_map(),
            features@,
            observation@.source_id,
            observation@.target_id,
            observation@.effect_size,
            observation@.neg_log_significance,
        ),
        final(target_buckets).to_map() == (match observation@.target_id {
            Some(t) => map_add(
                old(target_buckets).to_map(),
                features@,
                t,
                Some(observation@.source_id),
                observation@.effect_size,
                observation@.neg_log_significance,
            ),
            None => old(target_buckets).to_map(),
        }),
{
    add_data_to_bucket(
        observation.source_id,
        observation.target_id,
        observation.neg_log_significance,
        observation.effect_size,
        source_buckets,
        features,
    );
    match observation.target_id {
        Some(id) => {
            add_data_to_bucket(
                id,
                Some(observation.source_id),
                observation.neg_log_significance,
                observation.effect_size,
                target_buckets,
                features,
            );
        },
        None => {},
    }
}

/// The result of aggregating one chunk of the filtered observations.
pub struct ChunkResult {
    /// Ids of the observations this chunk processed.
    pub reos: RoaringTreemap,
    /// Source-role buckets.
    pub source_buckets: BucketMap,
    /// Target-role buckets.
    pub target_buckets: BucketMap,
}

impl View for ChunkResult {
    type V = AggModel;

    open spec fn view(&self) -> AggModel {
        AggModel {
            reos: tm_set(self.reos),
            source: self.source_buckets.to_map(),
            target: self.target_buckets.to_map(),
        }
    }
}

impl ChunkResult {
    /// Both bucket maps are well-formed and the id set is finite.
    pub open spec fn wf(self) -> bool {
        &&& self.source_buckets.wf()
        &&& self.target_buckets.wf()
        &&& tm_set(self.reos).finite()
    }
}

/// Folding one more observation steps the aggregation model.
pub proof fn lemma_aggregate_push(s: Seq<ObsView>, x: ObsView, fb: Seq<(u64, BucketLoc)>)
    ensures
        aggregate(s.push(x), fb) == agg_step(aggregate(s, fb), x, fb),
{
    assert(s.push(x).drop_last() =~= s);
    assert(s.push(x).last() == x);
}

/// Aggregate one contiguous chunk of observations into fresh bucket maps.
#[verifier::loop_isolation(false)]
pub fn aggregate_chunk(chunk: &[ObservationData], features: &FeatureBuckets) -> (r: ChunkResult)
    requires
        forall|i: int| 0 <= i < chunk@.len() ==> (#[trigger] chunk@[i]@).wf(),
    ensures
        r.wf(),
        r@ == aggregate(obs_seq_view(chunk@), features@),
{
    let mut reos = bitmap::empty_id_set();
    let mut source_buckets = BucketMap::new();
    let mut target_buckets = BucketMap::new();
    let n: usize = chunk.len();
    let mut i: usize = 0;
    while i < n
        invariant
            0 <= i <= n,
            source_buckets.wf(),
            target_buckets.wf(),
            tm_set(reos).finite(),
            tm_set(reos) == aggregate(obs_seq_view(chunk@.take(i as int)), features@).reos,
            source_buckets.to_map() == aggregate(
                obs_seq_view(chunk@.take(i as int)),
                features@,
            ).source,
            target_buckets.to_map() == aggregate(
                obs_seq_view(chunk@.take(i as int)),
                features@,
            ).target,
        decreases n - i,
    {
        let ghost taken = obs_seq_view(chunk@.take(i as int));
        let o = &chunk[i];
        tm_insert(&mut reos, o.reo_id);
        update_buckets(o, &mut source_buckets, &mut target_buckets, features);
        proof {
            assert(obs_seq_view(chunk@.take(i + 1)) =~= taken.push(chunk@[i as int]@));
            lemma_aggregate_push(taken, chunk@[i as int]@, features@);
        }
        i = i + 1;
    }
    proof {
        assert(chunk@.take(n as int) =~= chunk@);
    }
    ChunkResult { reos, source_buckets, target_buckets }
}

/// Removing the head key of a distinct-key sequence from its map yields the
/// tail's map.
proof fn lemma_as_map_skip_head(s: Seq<(BucketLoc, BucketModel)>)
    requires
        keys_distinct(s),
        s.len() > 0,
    ensures
        as_map(s.skip(1)) == as_map(s).remove(s[0].0),
{
    lemma_as_map_contains(s.skip(1), s[0].0);
    assert(!as_map(s.skip(1)).dom().contains(s[0].0)) by {
        if as_map(s.skip(1)).dom().contains(s[0].0) {
            let i = choose|i: int|
                0 <= i < s.skip(1).len() && (#[trigger] s.skip(1)[i]).0 == s[0].0;
            assert(s[i + 1].0 == s[0].0);
        }
    }
    assert(as_map(s.skip(1)) =~= as_map(s).remove(s[0].0));
}

/// The sorted representation is canonical: two strictly-sorted entry
/// sequences holding the same map are the same sequence.
pub proof fn lemma_sorted_map_canonical(
    s1: Seq<(BucketLoc, BucketModel)>,
    s2: Seq<(BucketLoc, BucketModel)>,
)
    requires
        forall|i: int, j: int|
            0 <= i < j < s1.len() ==> (#[trigger] s1[i]).0.lt((#[trigger] s1[j]).0),
        forall|i: int, j: int|
            0 <= i < j < s2.len() ==> (#[trigger] s2[i]).0.lt((#[trigger] s2[j]).0),
        as_map(s1) == as_map(s2),
    ensures
        s1 == s2,
    decreases s1.len(),
{
    assert(keys_distinct(s1)) by {
        assert forall|i: int, j: int| 0 <= i < j < s1.len() implies (#[trigger] s1[i]).0 != (
        #[trigger] s1[j]).0 by {
            lemma_loc_order(s1[i].0, s1[j].0);
        }
    }
    assert(keys_distinct(s2)) by {
        assert forall|i: int, j: int| 0 <= i < j < s2.len() implies (#[trigger] s2[i]).0 != (
        #[trigger] s2[j]).0 by {
            lemma_loc_order(s2[i].0, s2[j].0);
        }
    }
    if s1.len() == 0 {
        if s2.len() > 0 {
            lemma_as_map_index(s2, 0);
            lemma_as_map_contains(s1, s2[0].0);
        }
        assert(s1 =~= s2);
    } else if s2.len() == 0 {
        lemma_as_map_index(s1, 0);
        lemma_as_map_contains(s2, s1[0].0);
    } else {
        // The head keys agree: each is the other's minimum.
        lemma_as_map_index(s1, 0);
        lemma_as_map_index(s2, 0);
        lemma_as_map_contains(s2, s1[0].0);
        lemma_as_map_contains(s1, s2[0].0);
        let j2 = choose|j: int| 0 <= j < s2.len() && (#[trigger] s2[j]).0 == s1[0].0;
        let j1 = choose|j: int| 0 <= j < s1.len() && (#[trigger] s1[j]).0 == s2[0].0;
        if j2 > 0 {
            assert(s2[0].0.lt(s2[j2].0));
        }
        if j1 > 0 {
            assert(s1[0].0.lt(s1[j1].0));
        }
        lemma_loc_order(s1[0].0, s2[0].0);
        assert(s1[0].0 == s2[0].0);
        assert(s1[0].1 == as_map(s1)[s1[0].0] && s2[0].1 == as_map(s2)[s2[0].0]);
        assert(s1[0] == s2[0]);
        lemma_as_map_skip_head(s1);
        lemma_as_map_skip_head(s2);
        assert(forall|i: int, j: int|
            0 <= i < j < s1.skip(1).len() ==> (#[trigger] s1.skip(1)[i]).0.lt(
                (#[trigger] s1.skip(1)[j]).0,
            )) by {
            assert(forall|i: int| 0 <= i < s1.skip(1).len() ==> #[trigger] s1.skip(1)[i] == s1[i
                + 1]);
        }
        assert(forall|i: int, j: int|
            0 <= i < j < s2.skip(1).len() ==> (#[trigger] s2.skip(1)[i]).0.lt(
                (#[trigger] s2.skip(1)[j]).0,
            )) by {
            assert(forall|i: int| 0 <= i < s2.skip(1).len() ==> #[trigger] s2.skip(1)[i] == s2[i
                + 1]);
        }
        lemma_sorted_map_canonical(s1.skip(1), s2.skip(1));
        assert(s1 =~= s2) by {
            assert(forall|i: int| 1 <= i < s1.len() ==> #[trigger] s1[i] == s1.skip(1)[i - 1]);
            assert(forall|i: int| 1 <= i < s2.len() ==> #[trigger] s2[i] == s2.skip(1)[i - 1]);
        }
    }
}

/// Every bucket location an aggregation produces comes from the feature
/// table.
pub proof fn lemma_aggregate_locs(s: Seq<ObsView>, fb: Seq<(u64, BucketLoc)>)
    ensures
        forall|loc: BucketLoc|
            #[trigger] aggregate(s, fb).source.dom().contains(loc) ==> exists|k: int|
                0 <= k < fb.len() && (#[trigger] fb[k]).1 == loc,
        forall|loc: BucketLoc|
            #[trigger] aggregate(s, fb).target.dom().contains(loc) ==> exists|k: int|
                0 <= k < fb.len() && (#[trigger] fb[k]).1 == loc,
    decreases s.len(),
{
    if s.len() != 0 {
        lemma_aggregate_locs(s.drop_last(), fb);
        let prev = aggregate(s.drop_last(), fb);
        let o = s.last();
        assert forall|loc: BucketLoc|
            #[trigger] aggregate(s, fb).source.dom().contains(loc) implies exists|k: int|
            0 <= k < fb.len() && (#[trigger] fb[k]).1 == loc by {
            if !prev.source.dom().contains(loc) {
                assert(fb_lookup(fb, o.source_id) == Some(loc));
                crate::data::lemma_fb_lookup_member(fb, o.source_id);
            }
        }
        assert forall|loc: BucketLoc|
            #[trigger] aggregate(s, fb).target.dom().contains(loc) implies exists|k: int|
            0 <= k < fb.len() && (#[trigger] fb[k]).1 == loc by {
            if !prev.target.dom().contains(loc) {
                match o.target_id {
                    Some(t) => {
                        assert(fb_lookup(fb, t) == Some(loc));
                        crate::data::lemma_fb_lookup_member(fb, t);
                    },
                    None => {},
                }
            }
        }
    }
}

/// Exec comparison for the strict location order.
pub(crate) fn lt_exec(a: &BucketLoc, b: &BucketLoc) -> (r: bool)
    ensures
        r == a.lt(*b),
{
    a.chrom < b.chrom || (a.chrom == b.chrom && a.idx < b.idx)
}

} // verus!
