//! Shard reduction: merging independently produced per-chunk bucket maps
//! into one, by bitmap union and elementwise extrema.
//!
//! The combination is commutative and associative, and reducing the
//! per-chunk aggregations of any contiguous partition yields exactly the
//! aggregation of the whole sequence — so the result does not depend on
//! chunk count, chunk boundaries, or combination order.

use vstd::prelude::*;

use crate::aggregate::{
    AggModel, BucketData, BucketMap, BucketModel, ChunkResult, agg_step, aggregate, as_map,
    bucket_combine, bucket_wf, combine_agg, combine_maps, empty_agg, keys_distinct,
    lemma_as_map_contains, lemma_as_map_index, lemma_as_map_insert_at, lemma_as_map_update,
    lemma_bucket_combine_comm, lemma_combine_add, lemma_combine_fresh, lemma_loc_order, map_add,
};
use crate::bitmap::{self, tm_clone, tm_set, tm_union_with};
use crate::data::{BucketLoc, ObsView, fb_lookup};

verus! {

/// The views of a sequence of chunk results.
pub open spec fn chunk_views(s: Seq<ChunkResult>) -> Seq<AggModel> {
    s.map_values(|c: ChunkResult| c@)
}

/// The reduction of a sequence of aggregations: a left fold of
/// `combine_agg` from the empty aggregation.
pub open spec fn reduce_agg(rs: Seq<AggModel>) -> AggModel
    decreases rs.len(),
{
    if rs.len() == 0 {
        empty_agg()
    } else {
        combine_agg(reduce_agg(rs.drop_last()), rs.last())
    }
}

/// Combining with the empty aggregation changes nothing.
pub proof fn lemma_combine_agg_empty_right(a: AggModel)
    ensures
        combine_agg(a, empty_agg()) == a,
{
    assert(combine_maps(a.source, empty_agg().source) =~= a.source);
    assert(combine_maps(a.target, empty_agg().target) =~= a.target);
    assert(a.reos + Set::<u64>::empty() =~= a.reos);
    assert(combine_agg(a, empty_agg()) =~= a);
}

/// Map combination is commutative.
pub proof fn lemma_combine_maps_comm(m1: Map<BucketLoc, BucketModel>, m2: Map<BucketLoc, BucketModel>)
    ensures
        combine_maps(m1, m2) == combine_maps(m2, m1),
{
    assert forall|l: BucketLoc|
        combine_maps(m1, m2).dom().contains(l) implies #[trigger] combine_maps(m1, m2)[l]
        == combine_maps(m2, m1)[l] by {
        if m1.dom().contains(l) && m2.dom().contains(l) {
            lemma_bucket_combine_comm(m1[l], m2[l]);
        }
    }
    assert(combine_maps(m1, m2) =~= combine_maps(m2, m1));
}

/// Aggregation combination is commutative: shard results may be combined in
/// any order.
pub proof fn lemma_combine_agg_comm(a: AggModel, b: AggModel)
    ensures
        combine_agg(a, b) == combine_agg(b, a),
{
    lemma_combine_maps_comm(a.source, b.source);
    lemma_combine_maps_comm(a.target, b.target);
    assert(a.reos + b.reos =~= b.reos + a.reos);
    assert(combine_agg(a, b) =~= combine_agg(b, a));
}

/// Folding a contribution into the right operand folds it into the
/// combination.
pub proof fn lemma_map_add_combine(
    m1: Map<BucketLoc, BucketModel>,
    m2: Map<BucketLoc, BucketModel>,
    fb: Seq<(u64, BucketLoc)>,
    id: u64,
    assoc: Option<u64>,
    eff: i64,
    sig: i64,
)
    ensures
        combine_maps(m1, map_add(m2, fb, id, assoc, eff, sig)) == map_add(
            combine_maps(m1, m2),
            fb,
            id,
            assoc,
            eff,
            sig,
        ),
{
    match fb_lookup(fb, id) {
        None => {},
        Some(loc) => {
            let lhs = combine_maps(m1, map_add(m2, fb, id, assoc, eff, sig));
            let rhs = map_add(combine_maps(m1, m2), fb, id, assoc, eff, sig);
            assert forall|l: BucketLoc| lhs.dom().contains(l) implies #[trigger] lhs[l] == rhs[l] by {
                if l == loc {
                    if m1.dom().contains(loc) && m2.dom().contains(loc) {
                        lemma_combine_add(m1[loc], m2[loc], id, assoc, eff, sig);
                    } else if m1.dom().contains(loc) {
                        lemma_combine_fresh(m1[loc], id, assoc, eff, sig);
                    }
                }
            }
            assert(lhs.dom() =~= rhs.dom());
            assert(lhs =~= rhs);
        },
    }
}

/// Stepping the right operand of a combination steps the combination.
pub proof fn lemma_step_combine(a: AggModel, b: AggModel, o: ObsView, fb: Seq<(u64, BucketLoc)>)
    ensures
        combine_agg(a, agg_step(b, o, fb)) == agg_step(combine_agg(a, b), o, fb),
{
    lemma_map_add_combine(
        a.source,
        b.source,
        fb,
        o.source_id,
        o.target_id,
        o.effect_size,
        o.neg_log_significance,
    );
    match o.target_id {
        Some(t) => {
            lemma_map_add_combine(
                a.target,
                b.target,
                fb,
                t,
                Some(o.source_id),
                o.effect_size,
                o.neg_log_significance,
            );
        },
        None => {},
    }
    assert(a.reos + b.reos.insert(o.reo_id) =~= (a.reos + b.reos).insert(o.reo_id));
    assert(combine_agg(a, agg_step(b, o, fb)) =~= agg_step(combine_agg(a, b), o, fb));
}

/// Aggregating a concatenation is combining the two aggregations.
pub proof fn lemma_aggregate_concat(s1: Seq<ObsView>, s2: Seq<ObsView>, fb: Seq<(u64, BucketLoc)>)
    ensures
        aggregate(s1 + s2, fb) == combine_agg(aggregate(s1, fb), aggregate(s2, fb)),
    decreases s2.len(),
{
    if s2.len() == 0 {
        assert(s1 + s2 =~= s1);
        lemma_combine_agg_empty_right(aggregate(s1, fb));
    } else {
        let x = s2.last();
        lemma_aggregate_concat(s1, s2.drop_last(), fb);
        assert((s1 + s2).drop_last() =~= s1 + s2.drop_last());
        assert((s1 + s2).last() == x);
        assert(aggregate(s1 + s2, fb) == agg_step(aggregate(s1 + s2.drop_last(), fb), x, fb));
        lemma_step_combine(aggregate(s1, fb), aggregate(s2.drop_last(), fb), x, fb);
    }
}

/// Chunk independence: for any partition of the observation sequence into
/// contiguous chunks, reducing the per-chunk aggregations yields exactly the
/// aggregation of the whole sequence — whatever the chunk boundaries and the
/// chunk count.
pub proof fn lemma_shard_reduction_independent(chunks: Seq<Seq<ObsView>>, fb: Seq<(u64, BucketLoc)>)
    ensures
        reduce_agg(chunks.map_values(|c: Seq<ObsView>| aggregate(c, fb))) == aggregate(
            chunks.flatten(),
            fb,
        ),
    decreases chunks.len(),
{
    let maps = chunks.map_values(|c: Seq<ObsView>| aggregate(c, fb));
    if chunks.len() == 0 {
        assert(chunks.flatten() =~= Seq::<ObsView>::empty());
    } else {
        let init = chunks.drop_last();
        lemma_shard_reduction_independent(init, fb);
        assert(maps.drop_last() =~= init.map_values(|c: Seq<ObsView>| aggregate(c, fb)));
        assert(maps.last() == aggregate(chunks.last(), fb));
        lemma_aggregate_concat(init.flatten(), chunks.last(), fb);
        chunks.lemma_flatten_and_flatten_alt_are_equivalent();
        init.lemma_flatten_and_flatten_alt_are_equivalent();
        assert(chunks.flatten_alt() == init.flatten_alt() + chunks.last());
        assert(aggregate(chunks.flatten(), fb) == combine_agg(
            aggregate(init.flatten(), fb),
            aggregate(chunks.last(), fb),
        ));
    }
}

/// A copied bucket state.
fn dup_bucket_data(d: &BucketData) -> (r: BucketData)
    ensures
        r@ == d@,
{
    BucketData {
        feature_ids: tm_clone(&d.feature_ids),
        associated_features: tm_clone(&d.associated_features),
        min_effect: d.min_effect,
        max_effect: d.max_effect,
        min_sig: d.min_sig,
        max_sig: d.max_sig,
    }
}

/// Combine one bucket's state into a bucket map at the given location.
#[verifier::loop_isolation(false)]
#[verifier::rlimit(50)]
fn combine_into(buckets: &mut BucketMap, loc: BucketLoc, d: &BucketData)
    requires
        old(buckets).wf(),
        bucket_wf(d@),
    ensures
        final(buckets).wf(),
        final(buckets).to_map() == old(buckets).to_map().insert(
            loc,
            if old(buckets).to_map().dom().contains(loc) {
                bucket_combine(old(buckets).to_map()[loc], d@)
            } else {
                d@
            },
        ),
{
    let ghost s0 = buckets@;
    proof {
        assert(keys_distinct(s0)) by {
            assert forall|i: int, j: int| 0 <= i < j < s0.len() implies (#[trigger] s0[i]).0 != (
            #[trigger] s0[j]).0 by {
                lemma_loc_order(s0[i].0, s0[j].0);
            }
        }
    }
    let n: usize = buckets.entries.len();
    let mut i: usize = 0;
    while i < n && crate::aggregate::lt_exec(&buckets.entries[i].0, &loc)
        invariant
            0 <= i <= n,
            forall|k: int| 0 <= k < i ==> (#[trigger] buckets@[k]).0.lt(loc),
        decreases n - i,
    {
        i = i + 1;
    }

    if i < n && buckets.entries[i].0 == loc {
        let mut e = buckets.entries.remove(i);
        let ghost old_model = e.1@;
        tm_union_with(&mut e.1.feature_ids, &d.feature_ids);
        tm_union_with(&mut e.1.associated_features, &d.associated_features);
        if d.min_effect < e.1.min_effect {
            e.1.min_effect = d.min_effect;
        }
        if d.max_effect > e.1.max_effect {
            e.1.max_effect = d.max_effect;
        }
        if d.min_sig < e.1.min_sig {
            e.1.min_sig = d.min_sig;
        }
        if d.max_sig > e.1.max_sig {
            e.1.max_sig = d.max_sig;
        }
        proof {
            assert(e.1@ =~= bucket_combine(old_model, d@));
        }
        buckets.entries.insert(i, e);
        proof {
            assert(buckets@ =~= s0.update(i as int, (loc, e.1@))) by {
                assert(buckets.entries@ == old(buckets).entries@.remove(i as int).insert(
                    i as int,
                    e,
                ));
                assert forall|k: int| 0 <= k < s0.len() implies buckets@[k] == s0.update(
                    i as int,
                    (loc, e.1@),
                )[k] by {
                    assert(buckets.entries@[k] == old(buckets).entries@.remove(i as int).insert(
                        i as int,
                        e,
                    )[k]);
                }
            }
            assert(s0[i as int].0 == loc);
            lemma_as_map_update(s0, i as int, e.1@);
            lemma_as_map_index(s0, i as int);
            assert(bucket_wf(e.1@)) by {
                assert(e.1@.features.finite());
                assert(old_model.features.subset_of(e.1@.features));
                vstd::set_lib::lemma_len_subset(old_model.features, e.1@.features);
            }
            assert(buckets.wf()) by {
                assert forall|a: int, b: int|
                    0 <= a < b < buckets@.len() implies (#[trigger] buckets@[a]).0.lt(
                    (#[trigger] buckets@[b]).0,
                ) by {
                    assert(buckets@[a].0 == s0[a].0 && buckets@[b].0 == s0[b].0);
                }
            }
        }
    } else {
        proof {
            assert forall|j: int| 0 <= j < s0.len() implies (#[trigger] s0[j]).0 != loc by {
                if j < i {
                    assert(s0[j].0.lt(loc));
                } else if j == i {
                    assert(!s0[j].0.lt(loc));
                    lemma_loc_order(s0[j].0, loc);
                } else {
                    assert(s0[i as int].0.lt(s0[j].0));
                    lemma_loc_order(s0[i as int].0, loc);
                    lemma_loc_order(s0[j].0, loc);
                }
            }
            lemma_as_map_contains(s0, loc);
        }
        let e = (loc, dup_bucket_data(d));
        let ghost em = e.1@;
        buckets.entries.insert(i, e);
        proof {
            assert(em == d@);
            assert(buckets@ =~= s0.insert(i as int, (loc, em))) by {
                assert(buckets.entries@ == old(buckets).entries@.insert(i as int, e));
                assert forall|k: int| 0 <= k < buckets@.len() implies buckets@[k] == s0.insert(
                    i as int,
                    (loc, em),
                )[k] by {
                    assert(buckets.entries@[k] == old(buckets).entries@.insert(i as int, e)[k]);
                }
            }
            lemma_as_map_insert_at(s0, i as int, (loc, em));
            assert(buckets.wf()) by {
                assert forall|a: int, b: int|
                    0 <= a < b < buckets@.len() implies (#[trigger] buckets@[a]).0.lt(
                    (#[trigger] buckets@[b]).0,
                ) by {
                    if b < i {
                        assert(buckets@[a] == s0[a] && buckets@[b] == s0[b]);
                    } else if b == i {
                        assert(buckets@[a] == s0[a] && buckets@[b] == (loc, em));
                    } else if a < i {
                        assert(buckets@[a] == s0[a] && buckets@[b] == s0[b - 1]);
                        if a == b - 1 {
                        } else {
                            assert(s0[a].0.lt(s0[b - 1].0));
                        }
                    } else if a == i {
                        assert(buckets@[a] == (loc, em) && buckets@[b] == s0[b - 1]);
                        assert(i < n);
                        assert(!s0[i as int].0.lt(loc));
                        lemma_loc_order(s0[i as int].0, loc);
                        if b - 1 == i {
                        } else {
                            assert(s0[i as int].0.lt(s0[b - 1].0));
                        }
                    } else {
                        assert(buckets@[a] == s0[a - 1] && buckets@[b] == s0[b - 1]);
                    }
                }
            }
        }
    }
}

/// Extending the right map by a fresh key upserts its value into the
/// combination.
proof fn lemma_combine_maps_insert(
    m1: Map<BucketLoc, BucketModel>,
    m2: Map<BucketLoc, BucketModel>,
    loc: BucketLoc,
    d: BucketModel,
)
    requires
        !m2.dom().contains(loc),
    ensures
        combine_maps(m1, m2.insert(loc, d)) == combine_maps(m1, m2).insert(
            loc,
            if combine_maps(m1, m2).dom().contains(loc) {
                bucket_combine(combine_maps(m1, m2)[loc], d)
            } else {
                d
            },
        ),
{
    let c = combine_maps(m1, m2);
    assert(combine_maps(m1, m2.insert(loc, d)) =~= c.insert(
        loc,
        if c.dom().contains(loc) {
            bucket_combine(c[loc], d)
        } else {
            d
        },
    ));
}

/// Merge the second bucket map into the first: union of member and
/// connected-feature sets, elementwise extrema, per shared location.
#[verifier::loop_isolation(false)]
pub fn update_bucket_map(bucket_list1: &mut BucketMap, bucket_list2: &BucketMap)
    requires
        old(bucket_list1).wf(),
        bucket_list2.wf(),
    ensures
        final(bucket_list1).wf(),
        final(bucket_list1).to_map() == combine_maps(
            old(bucket_list1).to_map(),
            bucket_list2.to_map(),
        ),
{
    let ghost m1 = old(bucket_list1).to_map();
    let ghost s2 = bucket_list2@;
    proof {
        assert(keys_distinct(s2)) by {
            assert forall|i: int, j: int| 0 <= i < j < s2.len() implies (#[trigger] s2[i]).0 != (
            #[trigger] s2[j]).0 by {
                lemma_loc_order(s2[i].0, s2[j].0);
            }
        }
    }
    let n: usize = bucket_list2.entries.len();
    let mut i: usize = 0;
    while i < n
        invariant
            0 <= i <= n,
            bucket_list1.wf(),
            bucket_list1.to_map() == combine_maps(m1, as_map(s2.take(i as int))),
        decreases n - i,
    {
        let ghost partial = as_map(s2.take(i as int));
        let e = &bucket_list2.entries[i];
        proof {
            assert(s2[i as int] == (e.0, e.1@));
            assert(bucket_wf(e.1@));
            assert forall|j: int| 0 <= j < s2.take(i as int).len() implies (#[trigger] s2.take(
                i as int,
            )[j]).0 != e.0 by {
                assert(s2.take(i as int)[j] == s2[j]);
            }
            lemma_as_map_contains(s2.take(i as int), e.0);
        }
        combine_into(bucket_list1, e.0, &e.1);
        proof {
            lemma_combine_maps_insert(m1, partial, e.0, e.1@);
            assert(s2.take(i + 1) =~= s2.take(i as int).push(s2[i as int]));
            lemma_as_map_insert_at(s2.take(i as int), i as int, (e.0, e.1@));
            assert(s2.take(i as int).insert(i as int, (e.0, e.1@)) =~= s2.take(i + 1));
        }
        i = i + 1;
    }
    proof {
        assert(s2.take(n as int) =~= s2);
    }
}

/// Stepping the reduction by one more aggregation.
proof fn lemma_reduce_push(rs: Seq<AggModel>, a: AggModel)
    ensures
        reduce_agg(rs.push(a)) == combine_agg(reduce_agg(rs), a),
{
    assert(rs.push(a).drop_last() =~= rs);
    assert(rs.push(a).last() == a);
}

/// Reduce the per-chunk results into one, in order.
#[verifier::loop_isolation(false)]
pub fn reduce_chunk_results(results: &Vec<ChunkResult>) -> (r: ChunkResult)
    requires
        forall|i: int| 0 <= i < results@.len() ==> (#[trigger] results@[i]).wf(),
    ensures
        r.wf(),
        r@ == reduce_agg(chunk_views(results@)),
{
    let mut reos = bitmap::empty_id_set();
    let mut source_buckets = BucketMap::new();
    let mut target_buckets = BucketMap::new();
    let n: usize = results.len();
    let mut i: usize = 0;
    while i < n
        invariant
            0 <= i <= n,
            source_buckets.wf(),
            target_buckets.wf(),
            tm_set(reos).finite(),
            tm_set(reos) == reduce_agg(chunk_views(results@.take(i as int))).reos,
            source_buckets.to_map() == reduce_agg(chunk_views(results@.take(i as int))).source,
            target_buckets.to_map() == reduce_agg(chunk_views(results@.take(i as int))).target,
        decreases n - i,
    {
        let ghost taken = chunk_views(results@.take(i as int));
        let c = &results[i];
        tm_union_with(&mut reos, &c.reos);
        update_bucket_map(&mut source_buckets, &c.source_buckets);
        update_bucket_map(&mut target_buckets, &c.target_buckets);
        proof {
            assert(chunk_views(results@.take(i + 1)) =~= taken.push(results@[i as int]@));
            lemma_reduce_push(taken, results@[i as int]@);
        }
        i = i + 1;
    }
    proof {
        assert(results@.take(n as int) =~= results@);
    }
    ChunkResult { reos, source_buckets, target_buckets }
}

} // verus!
