//! Facet resolution: deriving, from the catalog's facet definitions and a
//! user filter, everything the per-observation predicate needs — the numeric
//! intervals, the active facets' selected value-id groups, and the decision
//! whether the non-significant observation collection can be skipped.

use vstd::prelude::*;

use crate::data::{
    CoverageData, CoverageError, Facet, FacetKind, FacetRole, FacetValue, FacetView, Filter,
    FilterView, facet_seq_view,
};

verus! {

/// The set of ids a sequence holds.
pub open spec fn idset(s: Seq<u64>) -> Set<u64> {
    Set::new(|x: u64| s.contains(x))
}

/// No id occurs in both sequences.
pub open spec fn seqs_disjoint(a: Seq<u64>, b: Seq<u64>) -> bool {
    forall|x: u64| a.contains(x) ==> !b.contains(x)
}

/// The value ids a facet can attach to an observation.
pub open spec fn facet_ids(f: FacetView) -> Seq<u64> {
    match f.values {
        Some(vs) => vs.map_values(|fv: FacetValue| fv.id),
        None => Seq::empty(),
    }
}

/// Every facet-value id the catalog uses anywhere.
pub open spec fn all_cat_set(facets: Seq<FacetView>) -> Set<u64> {
    Set::new(
        |x: u64|
            exists|i: int|
                0 <= i < facets.len() && facet_ids(#[trigger] facets[i]).contains(x),
    )
}

/// The requested facet-value ids that the catalog actually uses.
pub open spec fn coverage_cat_set(facets: Seq<FacetView>, requested: Seq<u64>) -> Set<u64> {
    all_cat_set(facets).intersect(idset(requested))
}

/// An active facet: categorical, with at least one of its values requested.
pub open spec fn facet_active(f: FacetView, cov: Set<u64>) -> bool {
    f.kind == FacetKind::Categorical && exists|x: u64|
        facet_ids(f).contains(x) && cov.contains(x)
}

/// The categorical test: per-facet OR, across-facet AND. For every active
/// facet the observation carries at least one of that facet's requested
/// values.
pub open spec fn obs_passes_cat(facets: Seq<FacetView>, cov: Set<u64>, obs_ids: Seq<u64>) -> bool {
    forall|i: int|
        0 <= i < facets.len() && facet_active(#[trigger] facets[i], cov) ==> exists|x: u64|
            obs_ids.contains(x) && facet_ids(facets[i]).contains(x) && cov.contains(x)
}

/// The group `g` is the selected value-id set of some active facet.
pub open spec fn group_matches(facets: Seq<FacetView>, cov: Set<u64>, g: Seq<u64>) -> bool {
    exists|ii: int|
        0 <= ii < facets.len() && facet_active(#[trigger] facets[ii], cov) && idset(g) == idset(
            facet_ids(facets[ii]),
        ).intersect(cov)
}

/// Some group holds exactly the target id set.
pub open spec fn has_group(sel: Seq<Vec<u64>>, target: Set<u64>) -> bool {
    exists|k: int| 0 <= k < sel.len() && idset(#[trigger] sel[k]@) == target
}

/// A facet that declares the dataset-wide effect-size range.
pub open spec fn is_effect_facet(f: FacetView) -> bool {
    f.role == FacetRole::EffectSize && f.range is Some
}

/// A facet that declares the dataset-wide significance range.
pub open spec fn is_sig_facet(f: FacetView) -> bool {
    f.role == FacetRole::Significance && f.range64 is Some
}

/// The Direction facet, with its values resolved.
pub open spec fn is_direction_facet(f: FacetView) -> bool {
    f.role == FacetRole::Direction && f.values is Some
}

/// Index of the first facet from `i` on satisfying `is_effect_facet`.
pub open spec fn find_effect_idx(facets: Seq<FacetView>, i: int) -> Option<int>
    decreases facets.len() - i,
{
    if i < 0 || i >= facets.len() {
        None
    } else if is_effect_facet(facets[i]) {
        Some(i)
    } else {
        find_effect_idx(facets, i + 1)
    }
}

/// Index of the first facet from `i` on satisfying `is_sig_facet`.
pub open spec fn find_sig_idx(facets: Seq<FacetView>, i: int) -> Option<int>
    decreases facets.len() - i,
{
    if i < 0 || i >= facets.len() {
        None
    } else if is_sig_facet(facets[i]) {
        Some(i)
    } else {
        find_sig_idx(facets, i + 1)
    }
}

/// Index of the first facet from `i` on satisfying `is_direction_facet`.
pub open spec fn find_direction_idx(facets: Seq<FacetView>, i: int) -> Option<int>
    decreases facets.len() - i,
{
    if i < 0 || i >= facets.len() {
        None
    } else if is_direction_facet(facets[i]) {
        Some(i)
    } else {
        find_direction_idx(facets, i + 1)
    }
}

/// Id of the first value from `i` on flagged as the non-significant value.
pub open spec fn find_nonsig_value(vs: Seq<FacetValue>, i: int) -> Option<u64>
    decreases vs.len() - i,
{
    if i < 0 || i >= vs.len() {
        None
    } else if vs[i].nonsignificant {
        Some(vs[i].id)
    } else {
        find_nonsig_value(vs, i + 1)
    }
}

/// The effect-size interval a filter evaluates against: the filter's own, or
/// the dataset-wide declared range.
pub open spec fn spec_effect_interval(facets: Seq<FacetView>, filters: FilterView) -> (i64, i64) {
    match filters.numeric_intervals {
        Some(iv) => iv.effect,
        None => facets[find_effect_idx(facets, 0)->Some_0].range->Some_0,
    }
}

/// The significance interval a filter evaluates against.
pub open spec fn spec_sig_interval(facets: Seq<FacetView>, filters: FilterView) -> (i64, i64) {
    match filters.numeric_intervals {
        Some(iv) => iv.sig,
        None => facets[find_sig_idx(facets, 0)->Some_0].range64->Some_0,
    }
}

/// Whether the non-significant observation collection is dropped outright:
/// by default it is, and it is scanned only when the Direction facet's
/// non-significant value is itself among the requested-and-used values. A
/// catalog that declares no non-significant value never contributes it.
pub open spec fn spec_skip_nonsignificants(facets: Seq<FacetView>, cov: Set<u64>) -> bool {
    match find_direction_idx(facets, 0) {
        None => true,
        Some(d) => {
            let df = facets[d];
            match find_nonsig_value(df.values->Some_0, 0) {
                None => true,
                Some(nsid) => !cov.contains(nsid),
            }
        },
    }
}

/// Whether the given id occurs in the vector.
pub fn ids_contain(v: &Vec<u64>, x: u64) -> (r: bool)
    ensures
        r == v@.contains(x),
{
    let n: usize = v.len();
    let mut i: usize = 0;
    while i < n
        invariant
            0 <= i <= n,
            n == v.len(),
            forall|k: int| 0 <= k < i ==> v@[k] != x,
        decreases n - i,
    {
        if v[i] == x {
            return true;
        }
        i = i + 1;
    }
    false
}

/// Whether no id occurs in both vectors.
pub fn is_disjoint(a: &Vec<u64>, b: &Vec<u64>) -> (r: bool)
    ensures
        r == seqs_disjoint(a@, b@),
{
    let n: usize = a.len();
    let mut i: usize = 0;
    while i < n
        invariant
            0 <= i <= n,
            n == a.len(),
            forall|k: int| 0 <= k < i ==> !b@.contains(#[trigger] a@[k]),
        decreases n - i,
    {
        if ids_contain(b, a[i]) {
            return false;
        }
        i = i + 1;
    }
    true
}

/// The ids occurring in both vectors (in `a`'s order).
pub fn intersect_ids(a: &Vec<u64>, b: &Vec<u64>) -> (r: Vec<u64>)
    ensures
        forall|x: u64| r@.contains(x) <==> (a@.contains(x) && b@.contains(x)),
{
    let n: usize = a.len();
    let mut r: Vec<u64> = Vec::new();
    let mut i: usize = 0;
    while i < n
        invariant
            0 <= i <= n,
            n == a.len(),
            forall|k: int|
                0 <= k < r@.len() ==> (a@.contains(#[trigger] r@[k]) && b@.contains(r@[k])),
            forall|k: int| 0 <= k < i && b@.contains(#[trigger] a@[k]) ==> r@.contains(a@[k]),
        decreases n - i,
    {
        let ghost prev = r@;
        let hit = ids_contain(b, a[i]);
        if hit {
            r.push(a[i]);
            proof {
                lemma_push_contains(prev, a@[i as int]);
                assert(r@ == prev.push(a@[i as int]));
                assert(a@.contains(a@[i as int]));
                assert(r@.contains(a@[i as int]));
                assert forall|k: int| 0 <= k < i && b@.contains(#[trigger] a@[k]) implies r@.contains(
                    a@[k],
                ) by {
                    assert(prev.contains(a@[k]));
                }
            }
        }
        i = i + 1;
    }
    proof {
        assert forall|x: u64| r@.contains(x) <==> (a@.contains(x) && b@.contains(x)) by {
            if r@.contains(x) {
                let k = choose|k: int| 0 <= k < r@.len() && r@[k] == x;
                assert(a@.contains(r@[k]) && b@.contains(r@[k]));
            }
            if a@.contains(x) && b@.contains(x) {
                let k = choose|k: int| 0 <= k < a@.len() && a@[k] == x;
                assert(r@.contains(a@[k]));
            }
        }
    }
    r
}

/// After a push, exactly the old ids plus the pushed one occur.
pub proof fn lemma_push_contains(s: Seq<u64>, x: u64)
    ensures
        s.push(x).contains(x),
        forall|v: u64| #[trigger] s.contains(v) ==> s.push(x).contains(v),
        forall|v: u64| #[trigger] s.push(x).contains(v) ==> (s.contains(v) || v == x),
{
    assert(s.push(x)[s.len() as int] == x);
    assert forall|v: u64| #[trigger] s.contains(v) implies s.push(x).contains(v) by {
        let k = choose|k: int| 0 <= k < s.len() && s[k] == v;
        assert(s.push(x)[k] == v);
    }
    assert forall|v: u64| #[trigger] s.push(x).contains(v) implies (s.contains(v) || v == x) by {
        let k = choose|k: int| 0 <= k < s.push(x).len() && s.push(x)[k] == v;
        if k < s.len() {
            assert(s[k] == v);
        }
    }
}

/// Taking one more element appends exactly that element.
pub proof fn lemma_take_one_more(s: Seq<u64>, i: int)
    requires
        0 <= i < s.len(),
    ensures
        s.take(i + 1) == s.take(i).push(s[i]),
{
    assert(s.take(i + 1) =~= s.take(i).push(s[i]));
}

/// Everything the per-observation predicate needs, resolved once per query.
pub struct FilterContext {
    /// Closed effect-size interval the numeric test uses.
    pub effect_interval: (i64, i64),
    /// Closed significance interval the numeric test uses.
    pub sig_interval: (i64, i64),
    /// No numeric interval was supplied: the numeric test passes everything.
    pub skip_numeric: bool,
    /// Per active facet, its requested value ids.
    pub selected_facets: Vec<Vec<u64>>,
    /// The non-significant observation collection is dropped outright.
    pub skip_nonsignificants: bool,
}

/// A found Direction index lies in range and satisfies its property.
proof fn lemma_find_direction_found(fs: Seq<FacetView>, i: int)
    requires
        find_direction_idx(fs, i) is Some,
    ensures
        i <= find_direction_idx(fs, i)->Some_0 < fs.len(),
        is_direction_facet(fs[find_direction_idx(fs, i)->Some_0]),
    decreases fs.len() - i,
{
    if 0 <= i < fs.len() && !is_direction_facet(fs[i]) {
        lemma_find_direction_found(fs, i + 1);
    }
}

impl FilterContext {
    /// The context is the one the given facets and filter determine.
    pub open spec fn valid_for(self, facets: Seq<FacetView>, filters: FilterView) -> bool {
        let cov = coverage_cat_set(facets, filters.categorical_facets);
        let sel = self.selected_facets@;
        &&& self.skip_numeric == (filters.numeric_intervals is None)
        &&& self.effect_interval == spec_effect_interval(facets, filters)
        &&& self.sig_interval == spec_sig_interval(facets, filters)
        &&& forall|k: int| 0 <= k < sel.len() ==> group_matches(facets, cov, (#[trigger] sel[k])@)
        &&& forall|i: int|
            0 <= i < facets.len() && facet_active(#[trigger] facets[i], cov) ==> has_group(
                sel,
                idset(facet_ids(facets[i])).intersect(cov),
            )
        &&& self.skip_nonsignificants == spec_skip_nonsignificants(facets, cov)
    }

    #[verifier::loop_isolation(false)]
    #[verifier::rlimit(50)]
    pub fn new(data: &CoverageData, filters: &Filter) -> (r: Result<FilterContext, CoverageError>)
        requires
            data.wf(),
        ensures
            ({
                let fs = facet_seq_view(data.facets@);
                let needs = filters@.numeric_intervals is None;
                let e_missing = needs && find_effect_idx(fs, 0) is None;
                let s_missing = needs && find_sig_idx(fs, 0) is None;
                let d_missing = find_direction_idx(fs, 0) is None;
                &&& (r == Err::<FilterContext, CoverageError>(CoverageError::MissingEffectSizeFacet)
                    <==> e_missing)
                &&& (r == Err::<FilterContext, CoverageError>(
                    CoverageError::MissingSignificanceFacet,
                ) <==> (!e_missing && s_missing))
                &&& (r == Err::<FilterContext, CoverageError>(CoverageError::MissingDirectionFacet)
                    <==> (!e_missing && !s_missing && d_missing))
                &&& (r is Ok <==> (!e_missing && !s_missing && !d_missing))
                &&& (r is Ok ==> r->Ok_0.valid_for(fs, filters@))
            }),
    {
        let ghost fs = facet_seq_view(data.facets@);
        let facets = &data.facets;
        let n: usize = facets.len();

        let effect_interval: (i64, i64);
        let sig_interval: (i64, i64);
        let skip_numeric: bool;
        match filters.numeric_intervals {
            Some(iv) => {
                effect_interval = iv.effect;
                sig_interval = iv.sig;
                skip_numeric = false;
            },
            None => {
                skip_numeric = true;
                match find_effect_range(facets) {
                    Some(rg) => {
                        effect_interval = rg;
                    },
                    None => {
                        return Err(CoverageError::MissingEffectSizeFacet);
                    },
                }
                match find_sig_range(facets) {
                    Some(rg) => {
                        sig_interval = rg;
                    },
                    None => {
                        return Err(CoverageError::MissingSignificanceFacet);
                    },
                }
            },
        }

        let dir_idx: usize;
        match find_direction(facets) {
            Some(ix) => {
                dir_idx = ix;
            },
            None => {
                return Err(CoverageError::MissingDirectionFacet);
            },
        }
        proof {
            lemma_find_direction_found(fs, 0);
        }

        let all_cat = all_cat_ids(facets);
        let coverage_cat = intersect_ids(&all_cat, &filters.categorical_facets);
        let ghost cov = coverage_cat_set(fs, filters@.categorical_facets);
        proof {
            assert(forall|x: u64| coverage_cat@.contains(x) <==> cov.contains(x));
        }

        let selected = build_selected_groups(facets, &coverage_cat);
        proof {
            assert(idset(coverage_cat@) =~= cov);
        }

        // Whether the non-significant observation collection is skipped.
        let skip_nonsignificants: bool;
        let nsv: Option<u64>;
        match &facets[dir_idx].values {
            Some(vs) => {
                nsv = find_nonsig(vs);
                proof {
                    assert(fs[dir_idx as int].values->Some_0 == vs@);
                    assert(nsv == find_nonsig_value(fs[dir_idx as int].values->Some_0, 0));
                }
            },
            None => {
                proof {
                    assert(false);
                }
                nsv = None;
            },
        }
        match nsv {
            None => {
                skip_nonsignificants = true;
            },
            Some(nsid) => {
                skip_nonsignificants = !ids_contain(&coverage_cat, nsid);
            },
        }
        proof {
            assert(skip_nonsignificants == spec_skip_nonsignificants(fs, cov));
        }


        let ctx = FilterContext {
            effect_interval,
            sig_interval,
            skip_numeric,
            selected_facets: selected,
            skip_nonsignificants,
        };
        proof {
            assert(ctx.valid_for(fs, filters@));
        }
        Ok(ctx)
    }
}

/// The value ids of one facet.
fn facet_ids_exec(f: &Facet) -> (r: Vec<u64>)
    ensures
        r@ == facet_ids(f@),
{
    match &f.values {
        Some(vs) => {
            let n: usize = vs.len();
            let mut r: Vec<u64> = Vec::new();
            let mut i: usize = 0;
            while i < n
                invariant
                    0 <= i <= n,
                    n == vs.len(),
                    r@ == vs@.take(i as int).map_values(|fv: FacetValue| fv.id),
                decreases n - i,
            {
                r.push(vs[i].id);
                proof {
                    assert(vs@.take(i + 1).map_values(|fv: FacetValue| fv.id) =~= vs@.take(
                        i as int,
                    ).map_values(|fv: FacetValue| fv.id).push(vs@[i as int].id));
                }
                i = i + 1;
            }
            proof {
                assert(vs@.take(n as int) =~= vs@);
            }
            r
        },
        None => Vec::new(),
    }
}

/// Concatenation holds exactly the ids of both parts.
pub proof fn lemma_add_contains(a: Seq<u64>, b: Seq<u64>)
    ensures
        forall|v: u64| #[trigger] (a + b).contains(v) <==> (a.contains(v) || b.contains(v)),
{
    assert forall|v: u64| #[trigger] (a + b).contains(v) implies (a.contains(v) || b.contains(v)) by {
        let k = choose|k: int| 0 <= k < (a + b).len() && (a + b)[k] == v;
        if k < a.len() {
            assert(a[k] == v);
        } else {
            assert(b[k - a.len()] == v);
        }
    }
    assert forall|v: u64| (a.contains(v) || b.contains(v)) implies #[trigger] (a + b).contains(
        v,
    ) by {
        if a.contains(v) {
            let k = choose|k: int| 0 <= k < a.len() && a[k] == v;
            assert((a + b)[k] == v);
        } else {
            let k = choose|k: int| 0 <= k < b.len() && b[k] == v;
            assert((a + b)[a.len() + k] == v);
        }
    }
}

/// The dataset-wide effect-size range, from the first facet declaring one.
fn find_effect_range(facets: &Vec<Facet>) -> (r: Option<(i64, i64)>)
    ensures
        ({
            let fs = facet_seq_view(facets@);
            match find_effect_idx(fs, 0) {
                None => r is None,
                Some(ix) => r == Some(fs[ix].range->Some_0),
            }
        }),
{
    let ghost fs = facet_seq_view(facets@);
    let n: usize = facets.len();
    let mut i: usize = 0;
    while i < n
        invariant
            0 <= i <= n,
            n == facets.len(),
            fs == facet_seq_view(facets@),
            find_effect_idx(fs, 0) == find_effect_idx(fs, i as int),
        decreases n - i,
    {
        if facets[i].role == FacetRole::EffectSize {
            match facets[i].range {
                Some(rg) => {
                    assert(is_effect_facet(fs[i as int]));
                    return Some(rg);
                },
                None => {},
            }
        }
        assert(!is_effect_facet(fs[i as int]));
        i = i + 1;
    }
    None
}

/// The dataset-wide significance range, from the first facet declaring one.
fn find_sig_range(facets: &Vec<Facet>) -> (r: Option<(i64, i64)>)
    ensures
        ({
            let fs = facet_seq_view(facets@);
            match find_sig_idx(fs, 0) {
                None => r is None,
                Some(ix) => r == Some(fs[ix].range64->Some_0),
            }
        }),
{
    let ghost fs = facet_seq_view(facets@);
    let n: usize = facets.len();
    let mut i: usize = 0;
    while i < n
        invariant
            0 <= i <= n,
            n == facets.len(),
            fs == facet_seq_view(facets@),
            find_sig_idx(fs, 0) == find_sig_idx(fs, i as int),
        decreases n - i,
    {
        if facets[i].role == FacetRole::Significance {
            match facets[i].range64 {
                Some(rg) => {
                    assert(is_sig_facet(fs[i as int]));
                    return Some(rg);
                },
                None => {},
            }
        }
        assert(!is_sig_facet(fs[i as int]));
        i = i + 1;
    }
    None
}

/// The selected value-id groups: per active facet, its value ids that are
/// both requested and used by the catalog.
#[verifier::rlimit(50)]
fn build_selected_groups(facets: &Vec<Facet>, coverage_cat: &Vec<u64>) -> (r: Vec<Vec<u64>>)
    ensures
        ({
            let fs = facet_seq_view(facets@);
            let cov = idset(coverage_cat@);
            &&& forall|k: int|
                0 <= k < r@.len() ==> group_matches(fs, cov, (#[trigger] r@[k])@)
            &&& forall|ii: int|
                0 <= ii < fs.len() && facet_active(#[trigger] fs[ii], cov) ==> has_group(
                    r@,
                    idset(facet_ids(fs[ii])).intersect(cov),
                )
        }),
{
    let ghost fs = facet_seq_view(facets@);
    let ghost cov = idset(coverage_cat@);
    let n: usize = facets.len();
    let mut selected: Vec<Vec<u64>> = Vec::new();
    let mut i: usize = 0;
    while i < n
        invariant
            0 <= i <= n,
            n == facets.len(),
            fs == facet_seq_view(facets@),
            cov == idset(coverage_cat@),
            forall|k: int|
                0 <= k < selected@.len() ==> group_matches(fs, cov, (#[trigger] selected@[k])@),
            forall|ii: int|
                0 <= ii < i && facet_active(#[trigger] fs[ii], cov) ==> has_group(
                    selected@,
                    idset(facet_ids(fs[ii])).intersect(cov),
                ),
        decreases n - i,
    {
        let ghost prev = selected@;
        if facets[i].kind == FacetKind::Categorical {
            let ids = facet_ids_exec(&facets[i]);
            if !is_disjoint(&ids, coverage_cat) {
                let group = intersect_ids(&ids, coverage_cat);
                proof {
                    assert(ids@ == facet_ids(fs[i as int]));
                    let x = choose|x: u64| ids@.contains(x) && coverage_cat@.contains(x);
                    assert(facet_ids(fs[i as int]).contains(x) && cov.contains(x));
                    assert(facet_active(fs[i as int], cov));
                    assert(idset(group@) =~= idset(facet_ids(fs[i as int])).intersect(cov));
                }
                let ghost gview = group@;
                selected.push(group);
                proof {
                    assert(selected@ == prev.push(group));
                    assert(selected@[prev.len() as int]@ == gview);
                    assert(group_matches(fs, cov, gview));
                    assert forall|k: int| 0 <= k < selected@.len() implies group_matches(
                        fs,
                        cov,
                        (#[trigger] selected@[k])@,
                    ) by {
                        if k < prev.len() {
                            assert(selected@[k] == prev[k]);
                            assert(group_matches(fs, cov, prev[k]@));
                        }
                    }
                    assert forall|ii: int|
                        0 <= ii < i + 1 && facet_active(#[trigger] fs[ii], cov) implies has_group(
                        selected@,
                        idset(facet_ids(fs[ii])).intersect(cov),
                    ) by {
                        if ii < i {
                            lemma_has_group_grow(
                                prev,
                                selected@[prev.len() as int],
                                idset(facet_ids(fs[ii])).intersect(cov),
                            );
                        } else {
                            assert(idset(selected@[prev.len() as int]@) == idset(
                                facet_ids(fs[ii]),
                            ).intersect(cov));
                        }
                    }
                }
            } else {
                proof {
                    assert(ids@ == facet_ids(fs[i as int]));
                    assert(!facet_active(fs[i as int], cov)) by {
                        if facet_active(fs[i as int], cov) {
                            let x = choose|x: u64|
                                facet_ids(fs[i as int]).contains(x) && cov.contains(x);
                            assert(ids@.contains(x) && coverage_cat@.contains(x));
                        }
                    }
                }
            }
        } else {
            proof {
                assert(fs[i as int].kind != FacetKind::Categorical);
                assert(!facet_active(fs[i as int], cov));
            }
        }
        i = i + 1;
    }
    selected
}

/// A present group is still present after another group is appended.
proof fn lemma_has_group_grow(sel: Seq<Vec<u64>>, g: Vec<u64>, target: Set<u64>)
    requires
        has_group(sel, target),
    ensures
        has_group(sel.push(g), target),
{
    let k = choose|k: int| 0 <= k < sel.len() && idset(#[trigger] sel[k]@) == target;
    assert(sel.push(g)[k] == sel[k]);
    assert(idset(sel.push(g)[k]@) == target);
}

/// Index of the Direction facet.
fn find_direction(facets: &Vec<Facet>) -> (r: Option<usize>)
    ensures
        ({
            let fs = facet_seq_view(facets@);
            match find_direction_idx(fs, 0) {
                None => r is None,
                Some(ix) => r == Some(ix as usize),
            }
        }),
{
    let ghost fs = facet_seq_view(facets@);
    let n: usize = facets.len();
    let mut i: usize = 0;
    while i < n
        invariant
            0 <= i <= n,
            n == facets.len(),
            fs == facet_seq_view(facets@),
            find_direction_idx(fs, 0) == find_direction_idx(fs, i as int),
        decreases n - i,
    {
        if facets[i].role == FacetRole::Direction {
            match &facets[i].values {
                Some(_) => {
                    assert(is_direction_facet(fs[i as int]));
                    return Some(i);
                },
                None => {},
            }
        }
        assert(!is_direction_facet(fs[i as int]));
        i = i + 1;
    }
    None
}

/// Id of the value flagged non-significant, if any.
fn find_nonsig(vs: &Vec<FacetValue>) -> (r: Option<u64>)
    ensures
        r == find_nonsig_value(vs@, 0),
{
    let n: usize = vs.len();
    let mut i: usize = 0;
    while i < n
        invariant
            0 <= i <= n,
            n == vs.len(),
            find_nonsig_value(vs@, 0) == find_nonsig_value(vs@, i as int),
        decreases n - i,
    {
        if vs[i].nonsignificant {
            return Some(vs[i].id);
        }
        i = i + 1;
    }
    None
}

/// Every facet-value id the catalog uses anywhere, gathered into one vector.
fn all_cat_ids(facets: &Vec<Facet>) -> (r: Vec<u64>)
    ensures
        forall|x: u64| r@.contains(x) <==> all_cat_set(facet_seq_view(facets@)).contains(x),
{
    let ghost fs = facet_seq_view(facets@);
    let n: usize = facets.len();
    let mut r: Vec<u64> = Vec::new();
    let mut i: usize = 0;
    while i < n
        invariant
            0 <= i <= n,
            n == facets.len(),
            fs == facet_seq_view(facets@),
            forall|x: u64|
                r@.contains(x) <==> exists|j: int|
                    0 <= j < i && facet_ids(#[trigger] fs[j]).contains(x),
        decreases n - i,
    {
        let ghost base = r@;
        let mut ids = facet_ids_exec(&facets[i]);
        let ghost idseq = ids@;
        r.append(&mut ids);
        proof {
            lemma_add_contains(base, idseq);
            assert forall|x: u64| r@.contains(x) implies exists|j: int|
                0 <= j < i + 1 && facet_ids(#[trigger] fs[j]).contains(x) by {
                if base.contains(x) {
                    let j = choose|j: int| 0 <= j < i && facet_ids(#[trigger] fs[j]).contains(x);
                    assert(facet_ids(fs[j]).contains(x));
                } else {
                    assert(facet_ids(fs[i as int]).contains(x));
                }
            }
            assert forall|x: u64|
                (exists|j: int| 0 <= j < i + 1 && facet_ids(#[trigger] fs[j]).contains(x)) implies r@.contains(
                x,
            ) by {
                let j = choose|j: int| 0 <= j < i + 1 && facet_ids(#[trigger] fs[j]).contains(x);
                if j < i {
                    assert(base.contains(x));
                } else {
                    assert(idseq.contains(x));
                }
            }
        }
        i = i + 1;
    }
    proof {
        assert forall|x: u64| r@.contains(x) <==> all_cat_set(fs).contains(x) by {
            assert(all_cat_set(fs).contains(x) == (exists|j: int|
                0 <= j < fs.len() && facet_ids(#[trigger] fs[j]).contains(x)));
        }
    }
    r
}

} // verus!
