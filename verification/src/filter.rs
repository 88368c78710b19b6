//! The per-observation inclusion decision and the observation filter pass.

use vstd::prelude::*;

use crate::bitmap;
use crate::data::{
    CoverageData, ExperimentFeatureData, ExperimentFeatureView, FacetView, FilterView,
    ObservationData, ObsView, facet_seq_view, obs_seq_view,
};
use crate::facets::{
    FilterContext, coverage_cat_set, facet_active, facet_ids, group_matches, has_group, idset,
    is_disjoint, obs_passes_cat, seqs_disjoint, spec_skip_nonsignificants,
};

verus! {

/// The numeric test: both measurements inside the closed intervals, or no
/// interval supplied at all.
pub open spec fn obs_passes_numeric(filters: FilterView, o: ObsView) -> bool {
    match filters.numeric_intervals {
        None => true,
        Some(iv) => iv.effect.0 <= o.effect_size <= iv.effect.1 && iv.sig.0
            <= o.neg_log_significance <= iv.sig.1,
    }
}

/// The target restriction: where a pre-selected feature set is supplied, the
/// observation must have a target inside it.
pub open spec fn obs_passes_restriction(included: Option<ExperimentFeatureView>, o: ObsView) -> bool {
    match included {
        None => true,
        Some(ef) => o.target_id is Some && ef.targets.contains(o.target_id->Some_0),
    }
}

/// The full inclusion decision for one observation.
pub open spec fn obs_included(
    facets: Seq<FacetView>,
    filters: FilterView,
    included: Option<ExperimentFeatureView>,
    o: ObsView,
) -> bool {
    &&& obs_passes_cat(
        facets,
        coverage_cat_set(facets, filters.categorical_facets),
        o.facet_value_ids,
    )
    &&& obs_passes_numeric(filters, o)
    &&& obs_passes_restriction(included, o)
}

/// The inclusion decision as a predicate on observations.
pub open spec fn included_pred(
    facets: Seq<FacetView>,
    filters: FilterView,
    included: Option<ExperimentFeatureView>,
) -> spec_fn(ObsView) -> bool {
    |o: ObsView| obs_included(facets, filters, included, o)
}

/// The observation stream one invocation scans: the significant collection,
/// then the non-significant one unless that is skipped outright.
pub open spec fn obs_stream(data: CoverageData, filters: FilterView) -> Seq<ObsView> {
    obs_seq_view(data.significant_observations@) + (if spec_skip_nonsignificants(
        facet_seq_view(data.facets@),
        coverage_cat_set(facet_seq_view(data.facets@), filters.categorical_facets),
    ) {
        Seq::<ObsView>::empty()
    } else {
        obs_seq_view(data.nonsignificant_observations@)
    })
}

/// Everything one invocation includes, in stream order.
pub open spec fn included_stream(
    data: CoverageData,
    filters: FilterView,
    included: Option<ExperimentFeatureView>,
) -> Seq<ObsView> {
    obs_stream(data, filters).filter(
        included_pred(facet_seq_view(data.facets@), filters, included),
    )
}

/// The inclusion decision evaluated against a resolved context.
pub open spec fn ctx_obs_included(
    ctx: FilterContext,
    included: Option<ExperimentFeatureView>,
    o: ObsView,
) -> bool {
    &&& forall|k: int|
        0 <= k < ctx.selected_facets@.len() ==> !seqs_disjoint(
            o.facet_value_ids,
            (#[trigger] ctx.selected_facets@[k])@,
        )
    &&& (ctx.skip_numeric || (ctx.effect_interval.0 <= o.effect_size <= ctx.effect_interval.1
        && ctx.sig_interval.0 <= o.neg_log_significance <= ctx.sig_interval.1))
    &&& obs_passes_restriction(included, o)
}

/// The context-level decision as a predicate on observations.
pub open spec fn ctx_included_pred(
    ctx: FilterContext,
    included: Option<ExperimentFeatureView>,
) -> spec_fn(ObsView) -> bool {
    |o: ObsView| ctx_obs_included(ctx, included, o)
}

/// Everything one invocation includes, stated over a resolved context.
pub open spec fn ctx_included_stream(
    ctx: FilterContext,
    data: CoverageData,
    included: Option<ExperimentFeatureView>,
) -> Seq<ObsView> {
    (obs_seq_view(data.significant_observations@) + (if ctx.skip_nonsignificants {
        Seq::<ObsView>::empty()
    } else {
        obs_seq_view(data.nonsignificant_observations@)
    })).filter(ctx_included_pred(ctx, included))
}

/// The view of an optional feature restriction.
pub open spec fn feature_restriction_view(included: Option<&ExperimentFeatureData>) -> Option<
    ExperimentFeatureView,
> {
    match included {
        None => None,
        Some(ef) => Some(ef@),
    }
}

/// Against a context its facets and filter determined, the context-level
/// decision is exactly the canonical one.
pub proof fn lemma_ctx_decision_canonical(
    ctx: FilterContext,
    facets: Seq<FacetView>,
    filters: FilterView,
    included: Option<ExperimentFeatureView>,
    o: ObsView,
)
    requires
        ctx.valid_for(facets, filters),
    ensures
        ctx_obs_included(ctx, included, o) == obs_included(facets, filters, included, o),
{
    let cov = coverage_cat_set(facets, filters.categorical_facets);
    let sel = ctx.selected_facets@;
    let ctx_cat = forall|k: int|
        0 <= k < sel.len() ==> !seqs_disjoint(o.facet_value_ids, (#[trigger] sel[k])@);
    if ctx_cat {
        assert forall|i: int|
            0 <= i < facets.len() && facet_active(#[trigger] facets[i], cov) implies exists|x: u64|
            o.facet_value_ids.contains(x) && facet_ids(facets[i]).contains(x) && cov.contains(
            x,
        ) by {
            assert(has_group(sel, idset(facet_ids(facets[i])).intersect(cov)));
            let k = choose|k: int|
                0 <= k < sel.len() && idset(#[trigger] sel[k]@) == idset(
                    facet_ids(facets[i]),
                ).intersect(cov);
            assert(!seqs_disjoint(o.facet_value_ids, sel[k]@));
            let x = choose|x: u64| o.facet_value_ids.contains(x) && sel[k]@.contains(x);
            assert(idset(sel[k]@).contains(x));
            assert(idset(facet_ids(facets[i])).intersect(cov).contains(x));
            assert(facet_ids(facets[i]).contains(x) && cov.contains(x));
        }
        assert(obs_passes_cat(facets, cov, o.facet_value_ids));
    } else {
        let k = choose|k: int|
            0 <= k < sel.len() && seqs_disjoint(o.facet_value_ids, (#[trigger] sel[k])@);
        assert(group_matches(facets, cov, sel[k]@));
        let ii = choose|ii: int|
            0 <= ii < facets.len() && facet_active(#[trigger] facets[ii], cov) && idset(sel[k]@)
                == idset(facet_ids(facets[ii])).intersect(cov);
        assert(!obs_passes_cat(facets, cov, o.facet_value_ids)) by {
            if obs_passes_cat(facets, cov, o.facet_value_ids) {
                let x = choose|x: u64|
                    o.facet_value_ids.contains(x) && facet_ids(facets[ii]).contains(x)
                        && cov.contains(x);
                assert(idset(facet_ids(facets[ii])).intersect(cov).contains(x));
                assert(idset(sel[k]@).contains(x));
                assert(sel[k]@.contains(x));
            }
        }
    }
}

/// Whether the observation carries, for every selected group, at least one
/// of its values.
fn passes_categorical(ctx: &FilterContext, o: &ObservationData) -> (r: bool)
    ensures
        r == (forall|k: int|
            0 <= k < ctx.selected_facets@.len() ==> !seqs_disjoint(
                o@.facet_value_ids,
                (#[trigger] ctx.selected_facets@[k])@,
            )),
{
    let n: usize = ctx.selected_facets.len();
    let mut k: usize = 0;
    while k < n
        invariant
            0 <= k <= n,
            n == ctx.selected_facets.len(),
            forall|j: int|
                0 <= j < k ==> !seqs_disjoint(
                    o@.facet_value_ids,
                    (#[trigger] ctx.selected_facets@[j])@,
                ),
        decreases n - k,
    {
        if is_disjoint(&o.facet_value_ids, &ctx.selected_facets[k]) {
            return false;
        }
        k = k + 1;
    }
    true
}

/// The full inclusion decision, evaluated against a resolved context.
pub fn observation_included(
    ctx: &FilterContext,
    o: &ObservationData,
    included: Option<&ExperimentFeatureData>,
) -> (r: bool)
    ensures
        r == ctx_obs_included(*ctx, feature_restriction_view(included), o@),
{
    if !passes_categorical(ctx, o) {
        return false;
    }
    if !ctx.skip_numeric {
        let effect_ok = o.effect_size >= ctx.effect_interval.0 && o.effect_size
            <= ctx.effect_interval.1;
        let sig_ok = o.neg_log_significance >= ctx.sig_interval.0 && o.neg_log_significance
            <= ctx.sig_interval.1;
        if !(effect_ok && sig_ok) {
            return false;
        }
    }
    match included {
        None => true,
        Some(ef) => {
            match o.target_id {
                Some(t) => bitmap::id_set_contains(&ef.targets, t),
                None => false,
            }
        },
    }
}

/// A copied id vector.
fn dup_ids(v: &Vec<u64>) -> (r: Vec<u64>)
    ensures
        r@ == v@,
{
    let n: usize = v.len();
    let mut r: Vec<u64> = Vec::new();
    let mut i: usize = 0;
    while i < n
        invariant
            0 <= i <= n,
            n == v.len(),
            r@ == v@.take(i as int),
        decreases n - i,
    {
        r.push(v[i]);
        proof {
            assert(v@.take(i + 1) =~= v@.take(i as int).push(v@[i as int]));
        }
        i = i + 1;
    }
    proof {
        assert(v@.take(n as int) =~= v@);
    }
    r
}

/// A copied observation.
fn dup_observation(o: &ObservationData) -> (r: ObservationData)
    ensures
        r@ == o@,
{
    ObservationData {
        reo_id: o.reo_id,
        source_id: o.source_id,
        target_id: o.target_id,
        effect_size: o.effect_size,
        neg_log_significance: o.neg_log_significance,
        facet_value_ids: dup_ids(&o.facet_value_ids),
    }
}

/// Filtering a pushed element keeps the filtered prefix and appends the
/// element exactly where the predicate holds.
pub(crate) proof fn lemma_filter_push(s: Seq<ObsView>, x: ObsView, p: spec_fn(ObsView) -> bool)
    ensures
        s.push(x).filter(p) == (if p(x) {
            s.filter(p).push(x)
        } else {
            s.filter(p)
        }),
{
    reveal(Seq::filter);
    assert(s.push(x).drop_last() =~= s);
    assert(s.push(x).last() == x);
}

/// One filter pass over the observation stream: everything the context
/// includes, in stream order, as copies.
#[verifier::loop_isolation(false)]
pub fn filter_observations(
    ctx: &FilterContext,
    data: &CoverageData,
    included: Option<&ExperimentFeatureData>,
) -> (r: Vec<ObservationData>)
    ensures
        obs_seq_view(r@) == ctx_included_stream(*ctx, *data, feature_restriction_view(included)),
{
    let ghost inc = feature_restriction_view(included);
    let ghost pred = ctx_included_pred(*ctx, inc);
    let mut out: Vec<ObservationData> = Vec::new();

    let sig = &data.significant_observations;
    let n: usize = sig.len();
    let mut i: usize = 0;
    while i < n
        invariant
            0 <= i <= n,
            n == data.significant_observations.len(),
            pred == ctx_included_pred(*ctx, inc),
            obs_seq_view(out@) == obs_seq_view(
                data.significant_observations@.take(i as int),
            ).filter(pred),
        decreases n - i,
    {
        let ghost prev = obs_seq_view(out@);
        let ghost taken = obs_seq_view(data.significant_observations@.take(i as int));
        let keep = observation_included(ctx, &sig[i], included);
        if keep {
            out.push(dup_observation(&sig[i]));
            proof {
                assert(obs_seq_view(out@) =~= prev.push(sig@[i as int]@));
            }
        }
        proof {
            assert(obs_seq_view(data.significant_observations@.take(i + 1)) =~= taken.push(
                sig@[i as int]@,
            ));
            lemma_filter_push(taken, sig@[i as int]@, pred);
            assert(pred(sig@[i as int]@) == keep);
        }
        i = i + 1;
    }
    proof {
        assert(data.significant_observations@.take(n as int) =~= data.significant_observations@);
    }

    if !ctx.skip_nonsignificants {
        let ghost sig_views = obs_seq_view(data.significant_observations@);
        let nonsig = &data.nonsignificant_observations;
        let m: usize = nonsig.len();
        let mut j: usize = 0;
        while j < m
            invariant
                0 <= j <= m,
                m == data.nonsignificant_observations.len(),
                pred == ctx_included_pred(*ctx, inc),
                sig_views == obs_seq_view(data.significant_observations@),
                obs_seq_view(out@) == (sig_views + obs_seq_view(
                    data.nonsignificant_observations@.take(j as int),
                )).filter(pred),
            decreases m - j,
        {
            let ghost prev = obs_seq_view(out@);
            let ghost taken = sig_views + obs_seq_view(
                data.nonsignificant_observations@.take(j as int),
            );
            let keep = observation_included(ctx, &nonsig[j], included);
            if keep {
                out.push(dup_observation(&nonsig[j]));
                proof {
                    assert(obs_seq_view(out@) =~= prev.push(nonsig@[j as int]@));
                }
            }
            proof {
                assert(sig_views + obs_seq_view(data.nonsignificant_observations@.take(j + 1))
                    =~= taken.push(nonsig@[j as int]@));
                lemma_filter_push(taken, nonsig@[j as int]@, pred);
                assert(pred(nonsig@[j as int]@) == keep);
            }
            j = j + 1;
        }
        proof {
            assert(data.nonsignificant_observations@.take(m as int)
                =~= data.nonsignificant_observations@);
        }
    } else {
        proof {
            assert(obs_seq_view(data.significant_observations@) + Seq::<ObsView>::empty()
                =~= obs_seq_view(data.significant_observations@));
        }
    }
    out
}

/// Two pointwise-equal predicates filter a sequence identically.
proof fn lemma_filter_equiv(s: Seq<ObsView>, p1: spec_fn(ObsView) -> bool, p2: spec_fn(ObsView) -> bool)
    requires
        forall|i: int| 0 <= i < s.len() ==> p1(#[trigger] s[i]) == p2(s[i]),
    ensures
        s.filter(p1) == s.filter(p2),
    decreases s.len(),
{
    reveal(Seq::filter);
    if s.len() != 0 {
        assert(forall|i: int|
            0 <= i < s.drop_last().len() ==> p1(#[trigger] s.drop_last()[i]) == p2(
                s.drop_last()[i],
            ));
        lemma_filter_equiv(s.drop_last(), p1, p2);
        assert(p1(s.last()) == p2(s.last()));
    }
}

/// Against a context its facets and filter determined, the context-level
/// included stream is exactly the canonical one.
pub proof fn lemma_ctx_stream_canonical(
    ctx: FilterContext,
    data: CoverageData,
    filters: FilterView,
    included: Option<ExperimentFeatureView>,
)
    requires
        ctx.valid_for(facet_seq_view(data.facets@), filters),
    ensures
        ctx_included_stream(ctx, data, included) == included_stream(data, filters, included),
{
    let fs = facet_seq_view(data.facets@);
    let stream = obs_stream(data, filters);
    let p1 = ctx_included_pred(ctx, included);
    let p2 = included_pred(fs, filters, included);
    assert(ctx.skip_nonsignificants == spec_skip_nonsignificants(
        fs,
        coverage_cat_set(fs, filters.categorical_facets),
    ));
    assert forall|i: int| 0 <= i < stream.len() implies p1(#[trigger] stream[i]) == p2(
        stream[i],
    ) by {
        lemma_ctx_decision_canonical(ctx, fs, filters, included, stream[i]);
    }
    lemma_filter_equiv(stream, p1, p2);
    assert(ctx_included_stream(ctx, data, included) == stream.filter(p1));
}

/// Every filtered observation occurs in the original sequence.
pub(crate) proof fn lemma_obs_filter_members(s: Seq<ObsView>, p: spec_fn(ObsView) -> bool)
    ensures
        forall|x: ObsView| #[trigger] s.filter(p).contains(x) ==> s.contains(x),
    decreases s.len(),
{
    reveal(Seq::filter);
    if s.len() != 0 {
        lemma_obs_filter_members(s.drop_last(), p);
        assert forall|x: ObsView| #[trigger] s.filter(p).contains(x) implies s.contains(x) by {
            if s.drop_last().filter(p).contains(x) {
                assert(s.drop_last().contains(x));
                let k = choose|k: int| 0 <= k < s.drop_last().len() && s.drop_last()[k] == x;
                assert(s[k] == x);
            } else {
                assert(x == s.last());
                assert(s[s.len() - 1] == x);
            }
        }
    }
}

/// Filtering keeps a sequence whose members all satisfy the predicate.
proof fn lemma_filter_all(s: Seq<ObsView>, p: spec_fn(ObsView) -> bool)
    requires
        forall|i: int| 0 <= i < s.len() ==> p(#[trigger] s[i]),
    ensures
        s.filter(p) == s,
    decreases s.len(),
{
    reveal(Seq::filter);
    if s.len() != 0 {
        lemma_filter_all(s.drop_last(), p);
        assert(p(s.last()));
        assert(s.drop_last().push(s.last()) =~= s);
    }
}

/// Filter idempotence: filtering an already-filtered observation sequence
/// with the same filter keeps exactly the same observations.
pub proof fn lemma_filter_idempotent(
    facets: Seq<FacetView>,
    filters: FilterView,
    included: Option<ExperimentFeatureView>,
    s: Seq<ObsView>,
)
    ensures
        s.filter(included_pred(facets, filters, included)).filter(
            included_pred(facets, filters, included),
        ) == s.filter(included_pred(facets, filters, included)),
{
    let p = included_pred(facets, filters, included);
    let f = s.filter(p);
    assert forall|i: int| 0 <= i < f.len() implies p(#[trigger] f[i]) by {
        s.lemma_filter_pred(p, i);
    }
    lemma_filter_all(f, p);
}

} // verus!
