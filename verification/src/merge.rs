//! Cross-result merging: combining independently assembled results over a
//! caller-supplied canonical chromosome-name ordering, by a linear
//! merge-join on bucket start coordinate.

use vstd::prelude::*;

use crate::assemble::abs_val;
use crate::bitmap::{self, tm_set, tm_union_with};
use crate::data::{
    FilterIntervals, FilteredBucket, FilteredBucketView, FilteredChromosome,
    FilteredChromosomeView, FilteredData, FilteredDataView, bucket_seq_view, chrom_seq_view,
};

verus! {

/// The views of a sequence of results.
pub open spec fn fd_seq_view(s: Seq<FilteredData>) -> Seq<FilteredDataView> {
    s.map_values(|d: FilteredData| d@)
}

/// The views of a sequence of chromosome names.
pub open spec fn name_seq_view(s: Seq<String>) -> Seq<Seq<char>> {
    s.map_values(|n: String| n@)
}

/// Two intervals with equal starts combined: counts summed, associated
/// buckets concatenated (incoming first, not deduplicated), maximum
/// significance, and the effect of larger absolute value (ties keep the
/// accumulator's).
pub open spec fn combined_bucket(acc: FilteredBucketView, inc: FilteredBucketView) -> FilteredBucketView {
    FilteredBucketView {
        start: inc.start,
        count: (inc.count + acc.count) as u64,
        associated_buckets: inc.associated_buckets + acc.associated_buckets,
        max_log10_sig: if inc.max_log10_sig > acc.max_log10_sig {
            inc.max_log10_sig
        } else {
            acc.max_log10_sig
        },
        max_abs_effect: if abs_val(inc.max_abs_effect) > abs_val(acc.max_abs_effect) {
            inc.max_abs_effect
        } else {
            acc.max_abs_effect
        },
    }
}

/// The ordered merge-join of two start-ascending interval lists: advance the
/// lower start, combine equal starts.
pub open spec fn bucket_merge2(acc: Seq<FilteredBucketView>, inc: Seq<FilteredBucketView>) -> Seq<
    FilteredBucketView,
>
    decreases acc.len() + inc.len(),
{
    if acc.len() == 0 {
        inc
    } else if inc.len() == 0 {
        acc
    } else if acc[0].start < inc[0].start {
        seq![acc[0]] + bucket_merge2(acc.skip(1), inc)
    } else if acc[0].start > inc[0].start {
        seq![inc[0]] + bucket_merge2(acc, inc.skip(1))
    } else {
        seq![combined_bucket(acc[0], inc[0])] + bucket_merge2(acc.skip(1), inc.skip(1))
    }
}

/// Every count sum the merge-join takes stays within `u64`.
pub open spec fn merge2_fits(acc: Seq<FilteredBucketView>, inc: Seq<FilteredBucketView>) -> bool
    decreases acc.len() + inc.len(),
{
    if acc.len() == 0 || inc.len() == 0 {
        true
    } else if acc[0].start < inc[0].start {
        merge2_fits(acc.skip(1), inc)
    } else if acc[0].start > inc[0].start {
        merge2_fits(acc, inc.skip(1))
    } else {
        acc[0].count + inc[0].count <= u64::MAX && merge2_fits(acc.skip(1), inc.skip(1))
    }
}

/// Index of the first chromosome with the given name, from `i` on.
pub open spec fn find_chrom_idx(s: Seq<FilteredChromosomeView>, name: Seq<char>, i: int) -> Option<
    int,
>
    decreases s.len() - i,
{
    if i < 0 || i >= s.len() {
        None
    } else if s[i].chrom == name {
        Some(i)
    } else {
        find_chrom_idx(s, name, i + 1)
    }
}

/// A found chromosome index lies in range and carries the name.
pub proof fn lemma_find_chrom_found(s: Seq<FilteredChromosomeView>, name: Seq<char>, i: int)
    requires
        find_chrom_idx(s, name, i) is Some,
    ensures
        i <= find_chrom_idx(s, name, i)->Some_0 < s.len(),
        s[find_chrom_idx(s, name, i)->Some_0].chrom == name,
    decreases s.len() - i,
{
    if 0 <= i < s.len() && s[i].chrom != name {
        lemma_find_chrom_found(s, name, i + 1);
    }
}

/// One result's chromosome merged into the accumulator: interval lists
/// merge-joined per role; name, index and bucket size stay the
/// accumulator's.
pub open spec fn merge_step(acc: FilteredChromosomeView, fc: FilteredChromosomeView) -> FilteredChromosomeView {
    FilteredChromosomeView {
        chrom: acc.chrom,
        index: acc.index,
        bucket_size: acc.bucket_size,
        target_intervals: bucket_merge2(acc.target_intervals, fc.target_intervals),
        source_intervals: bucket_merge2(acc.source_intervals, fc.source_intervals),
    }
}

/// The fold of one chromosome name across the results from `i` on: the first
/// result holding the name seeds the accumulator, later ones merge in.
pub open spec fn merged_chrom_from(
    results: Seq<FilteredDataView>,
    name: Seq<char>,
    acc: Option<FilteredChromosomeView>,
    i: int,
) -> Option<FilteredChromosomeView>
    decreases results.len() - i,
{
    if i < 0 || i >= results.len() {
        acc
    } else {
        let acc2 = match find_chrom_idx(results[i].chromosomes, name, 0) {
            None => acc,
            Some(j) => match acc {
                None => Some(results[i].chromosomes[j]),
                Some(a) => Some(merge_step(a, results[i].chromosomes[j])),
            },
        };
        merged_chrom_from(results, name, acc2, i + 1)
    }
}

/// Every count sum the fold of one name takes stays within `u64`.
pub open spec fn chrom_fold_fits(
    results: Seq<FilteredDataView>,
    name: Seq<char>,
    acc: Option<FilteredChromosomeView>,
    i: int,
) -> bool
    decreases results.len() - i,
{
    if i < 0 || i >= results.len() {
        true
    } else {
        match find_chrom_idx(results[i].chromosomes, name, 0) {
            None => chrom_fold_fits(results, name, acc, i + 1),
            Some(j) => match acc {
                None => chrom_fold_fits(results, name, Some(results[i].chromosomes[j]), i + 1),
                Some(a) => {
                    let fc = results[i].chromosomes[j];
                    &&& merge2_fits(a.source_intervals, fc.source_intervals)
                    &&& merge2_fits(a.target_intervals, fc.target_intervals)
                    &&& chrom_fold_fits(results, name, Some(merge_step(a, fc)), i + 1)
                },
            },
        }
    }
}

/// The placeholder chromosome for a name no result holds.
pub open spec fn default_chrom(name: Seq<char>) -> FilteredChromosomeView {
    FilteredChromosomeView {
        chrom: name,
        index: 0,
        bucket_size: 0,
        target_intervals: Seq::empty(),
        source_intervals: Seq::empty(),
    }
}

/// One canonical name's merged chromosome.
pub open spec fn merged_chromosome(
    results: Seq<FilteredDataView>,
    name: Seq<char>,
) -> FilteredChromosomeView {
    match merged_chrom_from(results, name, None, 0) {
        Some(fc) => fc,
        None => default_chrom(name),
    }
}

/// The elementwise min/max fold of the results' realized intervals, seeded
/// with the extreme sentinels.
pub open spec fn fold_intervals(results: Seq<FilteredDataView>, i: int) -> FilterIntervals
    decreases i,
{
    if i <= 0 {
        FilterIntervals { effect: (i64::MAX, i64::MIN), sig: (i64::MAX, i64::MIN) }
    } else {
        let prev = fold_intervals(results, i - 1);
        let d = results[i - 1].numeric_intervals;
        FilterIntervals {
            effect: (
                if prev.effect.0 < d.effect.0 {
                    prev.effect.0
                } else {
                    d.effect.0
                },
                if prev.effect.1 > d.effect.1 {
                    prev.effect.1
                } else {
                    d.effect.1
                },
            ),
            sig: (
                if prev.sig.0 < d.sig.0 {
                    prev.sig.0
                } else {
                    d.sig.0
                },
                if prev.sig.1 > d.sig.1 {
                    prev.sig.1
                } else {
                    d.sig.1
                },
            ),
        }
    }
}

/// The total distinct-observation count across the results, unbounded.
pub open spec fn reo_sum(results: Seq<FilteredDataView>, i: int) -> int
    decreases i,
{
    if i <= 0 {
        0
    } else {
        reo_sum(results, i - 1) + results[i - 1].reo_count
    }
}

/// The union of the results' included source ids up to `i`.
pub open spec fn union_sources(results: Seq<FilteredDataView>, i: int) -> Set<u64>
    decreases i,
{
    if i <= 0 {
        Set::<u64>::empty()
    } else {
        union_sources(results, i - 1) + results[i - 1].sources
    }
}

/// The union of the results' included target ids up to `i`.
pub open spec fn union_targets(results: Seq<FilteredDataView>, i: int) -> Set<u64>
    decreases i,
{
    if i <= 0 {
        Set::<u64>::empty()
    } else {
        union_targets(results, i - 1) + results[i - 1].targets
    }
}

/// The merged chromosome list: one single result passes through unchanged;
/// otherwise one merged chromosome per canonical name, in order.
pub open spec fn merged_chromosomes_spec(
    results: Seq<FilteredDataView>,
    chroms: Seq<Seq<char>>,
) -> Seq<FilteredChromosomeView> {
    if results.len() == 1 {
        results[0].chromosomes
    } else {
        Seq::new(chroms.len(), |c: int| merged_chromosome(results, chroms[c]))
    }
}

/// The whole merged result.
pub open spec fn merged_data(results: Seq<FilteredDataView>, chroms: Seq<Seq<char>>) -> FilteredDataView {
    FilteredDataView {
        chromosomes: merged_chromosomes_spec(results, chroms),
        bucket_size: results[0].bucket_size,
        numeric_intervals: fold_intervals(results, results.len() as int),
        reo_count: reo_sum(results, results.len() as int) as u64,
        sources: union_sources(results, results.len() as int),
        targets: union_targets(results, results.len() as int),
    }
}

/// Every count sum the whole merge takes stays within `u64`.
pub open spec fn merge_fits(results: Seq<FilteredDataView>, chroms: Seq<Seq<char>>) -> bool {
    &&& forall|c: int|
        0 <= c < chroms.len() ==> chrom_fold_fits(results, #[trigger] chroms[c], None, 0)
    &&& reo_sum(results, results.len() as int) <= u64::MAX
}

/// Whether `|a| > |b|`, exactly, without overflow.
fn abs_gt(a: i64, b: i64) -> (r: bool)
    ensures
        r == (abs_val(a) > abs_val(b)),
{
    let ma: u64 = if a >= 0 {
        a as u64
    } else {
        ((-1 - a) as u64) + 1
    };
    let mb: u64 = if b >= 0 {
        b as u64
    } else {
        ((-1 - b) as u64) + 1
    };
    ma > mb
}

/// A copied index vector.
fn dup_u32s(v: &Vec<u32>) -> (r: Vec<u32>)
    ensures
        r@ == v@,
{
    let n: usize = v.len();
    let mut r: Vec<u32> = Vec::new();
    let mut i: usize = 0;
    while i < n
        invariant
            0 <= i <= n,
            n == v.len(),
            r@ == v@.take(i as int),
        decreases n - i,
    {
        r.push(v[i]);
        proof {
            assert(v@.take(i + 1) =~= v@.take(i as int).push(v@[i as int]));
        }
        i = i + 1;
    }
    proof {
        assert(v@.take(n as int) =~= v@);
    }
    r
}

/// A copied output interval.
fn dup_bucket(b: &FilteredBucket) -> (r: FilteredBucket)
    ensures
        r@ == b@,
{
    FilteredBucket {
        start: b.start,
        count: b.count,
        associated_buckets: dup_u32s(&b.associated_buckets),
        max_log10_sig: b.max_log10_sig,
        max_abs_effect: b.max_abs_effect,
    }
}

/// A copied interval list.
fn dup_bucket_list(v: &Vec<FilteredBucket>) -> (r: Vec<FilteredBucket>)
    ensures
        bucket_seq_view(r@) == bucket_seq_view(v@),
{
    let n: usize = v.len();
    let mut r: Vec<FilteredBucket> = Vec::new();
    let mut i: usize = 0;
    while i < n
        invariant
            0 <= i <= n,
            n == v.len(),
            bucket_seq_view(r@) == bucket_seq_view(v@.take(i as int)),
        decreases n - i,
    {
        r.push(dup_bucket(&v[i]));
        proof {
            assert(bucket_seq_view(v@.take(i + 1)) =~= bucket_seq_view(v@.take(i as int)).push(
                v@[i as int]@,
            ));
            assert(bucket_seq_view(r@) =~= bucket_seq_view(v@.take(i + 1)));
        }
        i = i + 1;
    }
    proof {
        assert(v@.take(n as int) =~= v@);
    }
    r
}

/// A copied output chromosome.
fn dup_chromosome(c: &FilteredChromosome) -> (r: FilteredChromosome)
    ensures
        r@ == c@,
{
    let name = c.chrom.clone();
    let r = FilteredChromosome {
        chrom: name,
        index: c.index,
        bucket_size: c.bucket_size,
        target_intervals: dup_bucket_list(&c.target_intervals),
        source_intervals: dup_bucket_list(&c.source_intervals),
    };
    proof {
        assert(r@ =~= c@);
    }
    r
}

/// Combine two equal-start intervals.
fn combine_buckets(a: &FilteredBucket, b: &FilteredBucket) -> (r: FilteredBucket)
    requires
        a@.count + b@.count <= u64::MAX,
    ensures
        r@ == combined_bucket(a@, b@),
{
    let mut assoc = dup_u32s(&b.associated_buckets);
    let mut from_acc = dup_u32s(&a.associated_buckets);
    assoc.append(&mut from_acc);
    let r = FilteredBucket {
        start: b.start,
        count: b.count + a.count,
        associated_buckets: assoc,
        max_log10_sig: if b.max_log10_sig > a.max_log10_sig {
            b.max_log10_sig
        } else {
            a.max_log10_sig
        },
        max_abs_effect: if abs_gt(b.max_abs_effect, a.max_abs_effect) {
            b.max_abs_effect
        } else {
            a.max_abs_effect
        },
    };
    proof {
        assert(r@ =~= combined_bucket(a@, b@));
    }
    r
}

/// The ordered merge-join of two start-ascending interval lists.
#[verifier::loop_isolation(false)]
#[verifier::rlimit(80)]
fn merge_intervals(acc: &Vec<FilteredBucket>, inc: &Vec<FilteredBucket>) -> (r: Vec<FilteredBucket>)
    requires
        merge2_fits(bucket_seq_view(acc@), bucket_seq_view(inc@)),
    ensures
        bucket_seq_view(r@) == bucket_merge2(bucket_seq_view(acc@), bucket_seq_view(inc@)),
{
    let ghost av = bucket_seq_view(acc@);
    let ghost bv = bucket_seq_view(inc@);
    let mut out: Vec<FilteredBucket> = Vec::new();
    let na: usize = acc.len();
    let nb: usize = inc.len();
    let mut i: usize = 0;
    let mut j: usize = 0;
    proof {
        assert(av.skip(0) =~= av);
        assert(bv.skip(0) =~= bv);
    }
    while i < na || j < nb
        invariant
            0 <= i <= na,
            0 <= j <= nb,
            merge2_fits(av.skip(i as int), bv.skip(j as int)),
            bucket_merge2(av, bv) == bucket_seq_view(out@) + bucket_merge2(
                av.skip(i as int),
                bv.skip(j as int),
            ),
        decreases (na - i) + (nb - j),
    {
        let ghost ao = av.skip(i as int);
        let ghost bo = bv.skip(j as int);
        let ghost prev = bucket_seq_view(out@);
        if i >= na {
            out.push(dup_bucket(&inc[j]));
            proof {
                assert(ao.len() == 0);
                assert(bo[0] == bv[j as int]);
                assert(bo.skip(1) =~= bv.skip(j + 1));
                assert(bucket_merge2(ao, bo) == bo);
                assert(bucket_merge2(av.skip(i as int), bv.skip(j + 1)) == bv.skip(j + 1));
                assert(bucket_seq_view(out@) =~= prev.push(bv[j as int]));
                assert(bo =~= seq![bv[j as int]] + bv.skip(j + 1));
                assert(prev + bo =~= bucket_seq_view(out@) + bv.skip(j + 1));
            }
            j = j + 1;
        } else if j >= nb {
            out.push(dup_bucket(&acc[i]));
            proof {
                assert(bo.len() == 0);
                assert(ao[0] == av[i as int]);
                assert(ao.skip(1) =~= av.skip(i + 1));
                assert(bucket_merge2(ao, bo) == ao);
                assert(bucket_merge2(av.skip(i + 1), bv.skip(j as int)) == av.skip(i + 1));
                assert(bucket_seq_view(out@) =~= prev.push(av[i as int]));
                assert(ao =~= seq![av[i as int]] + av.skip(i + 1));
                assert(prev + ao =~= bucket_seq_view(out@) + av.skip(i + 1));
            }
            i = i + 1;
        } else {
            proof {
                assert(ao[0] == av[i as int] && bo[0] == bv[j as int]);
                assert(ao.skip(1) =~= av.skip(i + 1));
                assert(bo.skip(1) =~= bv.skip(j + 1));
            }
            if acc[i].start < inc[j].start {
                out.push(dup_bucket(&acc[i]));
                proof {
                    assert(bucket_merge2(ao, bo) == seq![av[i as int]] + bucket_merge2(
                        av.skip(i + 1),
                        bo,
                    ));
                    assert(bucket_seq_view(out@) =~= prev.push(av[i as int]));
                    assert(prev + (seq![av[i as int]] + bucket_merge2(av.skip(i + 1), bo))
                        =~= bucket_seq_view(out@) + bucket_merge2(av.skip(i + 1), bo));
                }
                i = i + 1;
            } else if acc[i].start > inc[j].start {
                out.push(dup_bucket(&inc[j]));
                proof {
                    assert(bucket_merge2(ao, bo) == seq![bv[j as int]] + bucket_merge2(
                        ao,
                        bv.skip(j + 1),
                    ));
                    assert(bucket_seq_view(out@) =~= prev.push(bv[j as int]));
                    assert(prev + (seq![bv[j as int]] + bucket_merge2(ao, bv.skip(j + 1)))
                        =~= bucket_seq_view(out@) + bucket_merge2(ao, bv.skip(j + 1)));
                }
                j = j + 1;
            } else {
                let merged = combine_buckets(&acc[i], &inc[j]);
                out.push(merged);
                proof {
                    assert(bucket_merge2(ao, bo) == seq![combined_bucket(av[i as int], bv[j as int])]
                        + bucket_merge2(av.skip(i + 1), bv.skip(j + 1)));
                    assert(bucket_seq_view(out@) =~= prev.push(
                        combined_bucket(av[i as int], bv[j as int]),
                    ));
                    assert(prev + (seq![combined_bucket(av[i as int], bv[j as int])]
                        + bucket_merge2(av.skip(i + 1), bv.skip(j + 1))) =~= bucket_seq_view(out@)
                        + bucket_merge2(av.skip(i + 1), bv.skip(j + 1)));
                }
                i = i + 1;
                j = j + 1;
            }
        }
    }
    proof {
        assert(av.skip(na as int).len() == 0 && bv.skip(nb as int).len() == 0);
        assert(bucket_merge2(av.skip(na as int), bv.skip(nb as int)).len() == 0);
        assert(bucket_merge2(av, bv) =~= bucket_seq_view(out@));
    }
    out
}

/// Index of the first chromosome with the given name.
fn find_chrom(chroms: &Vec<FilteredChromosome>, name: &String) -> (r: Option<usize>)
    ensures
        ({
            let cv = chrom_seq_view(chroms@);
            match r {
                None => find_chrom_idx(cv, name@, 0) is None,
                Some(ix) => ix < chroms@.len() && find_chrom_idx(cv, name@, 0) == Some(ix as int),
            }
        }),
{
    let ghost cv = chrom_seq_view(chroms@);
    let n: usize = chroms.len();
    let mut i: usize = 0;
    while i < n
        invariant
            0 <= i <= n,
            n == chroms.len(),
            cv == chrom_seq_view(chroms@),
            find_chrom_idx(cv, name@, 0) == find_chrom_idx(cv, name@, i as int),
        decreases n - i,
    {
        if chroms[i].chrom == *name {
            assert(cv[i as int].chrom == name@);
            return Some(i);
        }
        assert(cv[i as int].chrom != name@);
        i = i + 1;
    }
    None
}

/// Merge the results' chromosomes over the canonical name ordering.
#[verifier::loop_isolation(false)]
#[verifier::rlimit(80)]
fn merge_chromosomes(result_data: &Vec<FilteredData>, chromosomes: Vec<String>) -> (r: Vec<
    FilteredChromosome,
>)
    requires
        ({
            let rv = fd_seq_view(result_data@);
            let nv = name_seq_view(chromosomes@);
            forall|c: int| 0 <= c < nv.len() ==> chrom_fold_fits(rv, #[trigger] nv[c], None, 0)
        }),
    ensures
        ({
            let rv = fd_seq_view(result_data@);
            let nv = name_seq_view(chromosomes@);
            if rv.len() == 0 {
                r@.len() == 0
            } else if rv.len() == 1 {
                chrom_seq_view(r@) == rv[0].chromosomes
            } else {
                chrom_seq_view(r@) == Seq::new(
                    nv.len(),
                    |c: int| merged_chromosome(rv, nv[c]),
                )
            }
        }),
{
    let ghost rv = fd_seq_view(result_data@);
    let ghost nv = name_seq_view(chromosomes@);
    if result_data.len() == 0 {
        return Vec::new();
    }
    if result_data.len() == 1 {
        let src = &result_data[0].chromosomes;
        let n: usize = src.len();
        let mut out: Vec<FilteredChromosome> = Vec::new();
        let mut i: usize = 0;
        while i < n
            invariant
                0 <= i <= n,
                chrom_seq_view(out@) == chrom_seq_view(
                    result_data@[0].chromosomes@.take(i as int),
                ),
            decreases n - i,
        {
            out.push(dup_chromosome(&src[i]));
            proof {
                assert(chrom_seq_view(result_data@[0].chromosomes@.take(i + 1)) =~= chrom_seq_view(
                    result_data@[0].chromosomes@.take(i as int),
                ).push(result_data@[0].chromosomes@[i as int]@));
                assert(chrom_seq_view(out@) =~= chrom_seq_view(
                    result_data@[0].chromosomes@.take(i + 1),
                ));
            }
            i = i + 1;
        }
        proof {
            assert(result_data@[0].chromosomes@.take(n as int) =~= result_data@[0].chromosomes@);
            assert(rv[0].chromosomes == chrom_seq_view(result_data@[0].chromosomes@));
        }
        return out;
    }

    let m: usize = chromosomes.len();
    let nres: usize = result_data.len();
    let mut out: Vec<FilteredChromosome> = Vec::new();
    let mut c: usize = 0;
    while c < m
        invariant
            0 <= c <= m,
            out@.len() == c as int,
            forall|k: int|
                0 <= k < c as int ==> (#[trigger] out@[k])@ == merged_chromosome(rv, nv[k]),
        decreases m - c,
    {
        let name = &chromosomes[c];
        let ghost nm = nv[c as int];
        proof {
            assert(nm == chromosomes@[c as int]@);
        }
        let mut acc: Option<FilteredChromosome> = None;
        let mut ri: usize = 0;
        while ri < nres
            invariant
                0 <= ri <= nres,
                nm == chromosomes@[c as int]@,
                ({
                    let accv = match acc {
                        None => None,
                        Some(ref a) => Some(a@),
                    };
                    &&& merged_chrom_from(rv, nm, None, 0) == merged_chrom_from(
                        rv,
                        nm,
                        accv,
                        ri as int,
                    )
                    &&& chrom_fold_fits(rv, nm, accv, ri as int)
                }),
            decreases nres - ri,
        {
            let ghost accv = match acc {
                None => None,
                Some(ref a) => Some(a@),
            };
            let found = find_chrom(&result_data[ri].chromosomes, name);
            proof {
                assert(rv[ri as int].chromosomes == chrom_seq_view(
                    result_data@[ri as int].chromosomes@,
                ));
            }
            match found {
                Some(ix) => {
                    proof {
                        lemma_find_chrom_found(rv[ri as int].chromosomes, nm, 0);
                        assert(find_chrom_idx(rv[ri as int].chromosomes, nm, 0) == Some(ix as int));
                        assert(rv[ri as int].chromosomes[ix as int]
                            == result_data@[ri as int].chromosomes@[ix as int]@);
                    }
                    let fc = &result_data[ri].chromosomes[ix];
                    let ghost fcv = rv[ri as int].chromosomes[ix as int];
                    match acc {
                        None => {
                            proof {
                                assert(accv is None);
                            }
                            acc = Some(dup_chromosome(fc));
                        },
                        Some(a) => {
                            proof {
                                assert(accv == Some(a@));
                                assert(chrom_fold_fits(rv, nm, accv, ri as int));
                                assert(merge2_fits(a@.source_intervals, fcv.source_intervals));
                                assert(merge2_fits(a@.target_intervals, fcv.target_intervals));
                                assert(fc@ == fcv);
                                assert(bucket_seq_view(a.source_intervals@)
                                    == a@.source_intervals);
                                assert(bucket_seq_view(fc.source_intervals@)
                                    == fcv.source_intervals);
                            }
                            let src = merge_intervals(&a.source_intervals, &fc.source_intervals);
                            let tgt = merge_intervals(&a.target_intervals, &fc.target_intervals);
                            let merged = FilteredChromosome {
                                chrom: a.chrom,
                                index: a.index,
                                bucket_size: a.bucket_size,
                                target_intervals: tgt,
                                source_intervals: src,
                            };
                            proof {
                                assert(merged@ =~= merge_step(accv->Some_0, fcv));
                            }
                            acc = Some(merged);
                        },
                    }
                },
                None => {
                    proof {
                        assert(find_chrom_idx(rv[ri as int].chromosomes, nm, 0) is None);
                    }
                },
            }
            proof {
                let accv2 = match acc {
                    None => None::<crate::data::FilteredChromosomeView>,
                    Some(ref a2) => Some(a2@),
                };
                assert(accv2 == (match find_chrom_idx(rv[ri as int].chromosomes, nm, 0) {
                    None => accv,
                    Some(j) => match accv {
                        None => Some(rv[ri as int].chromosomes[j]),
                        Some(a0) => Some(merge_step(a0, rv[ri as int].chromosomes[j])),
                    },
                }));
                assert(merged_chrom_from(rv, nm, accv, ri as int) == merged_chrom_from(
                    rv,
                    nm,
                    accv2,
                    ri + 1,
                ));
                assert(chrom_fold_fits(rv, nm, accv2, ri + 1));
            }
            ri = ri + 1;
        }
        match acc {
            Some(a) => {
                proof {
                    assert(merged_chromosome(rv, nm) == a@);
                }
                out.push(a);
            },
            None => {
                let name_copy = name.clone();
                let empty_chrom = FilteredChromosome {
                    chrom: name_copy,
                    index: 0,
                    bucket_size: 0,
                    target_intervals: Vec::new(),
                    source_intervals: Vec::new(),
                };
                proof {
                    assert(empty_chrom@ =~= default_chrom(nm));
                }
                out.push(empty_chrom);
            },
        }
        c = c + 1;
    }
    proof {
        assert(chrom_seq_view(out@) =~= Seq::new(nv.len(), |k: int| merged_chromosome(rv, nv[k])));
    }
    out
}

/// The total-count partial sums never exceed the total.
proof fn lemma_reo_sum_mono(rv: Seq<FilteredDataView>, i: int, j: int)
    requires
        0 <= i <= j,
    ensures
        reo_sum(rv, i) <= reo_sum(rv, j),
    decreases j - i,
{
    if i < j {
        lemma_reo_sum_mono(rv, i, j - 1);
    }
}

/// Merge an ordered list of results over a canonical chromosome-name
/// ordering: chromosomes merge-join per name, realized intervals widen
/// elementwise, distinct-observation counts sum, and the included id sets
/// union.
#[verifier::loop_isolation(false)]
pub fn merge_filtered_data(result_data: Vec<FilteredData>, chromosome_list: Vec<String>) -> (r:
    FilteredData)
    requires
        result_data@.len() >= 1,
        merge_fits(fd_seq_view(result_data@), name_seq_view(chromosome_list@)),
    ensures
        r@ == merged_data(fd_seq_view(result_data@), name_seq_view(chromosome_list@)),
{
    let ghost rv = fd_seq_view(result_data@);
    let ghost nv = name_seq_view(chromosome_list@);
    let chromosomes = merge_chromosomes(&result_data, chromosome_list);
    let n: usize = result_data.len();
    let mut min_e: i64 = i64::MAX;
    let mut max_e: i64 = i64::MIN;
    let mut min_s: i64 = i64::MAX;
    let mut max_s: i64 = i64::MIN;
    let mut reo: u64 = 0;
    let mut sources = bitmap::empty_id_set();
    let mut targets = bitmap::empty_id_set();
    let mut i: usize = 0;
    while i < n
        invariant
            0 <= i <= n,
            fold_intervals(rv, i as int) == (FilterIntervals {
                effect: (min_e, max_e),
                sig: (min_s, max_s),
            }),
            reo as int == reo_sum(rv, i as int),
            tm_set(sources) == union_sources(rv, i as int),
            tm_set(targets) == union_targets(rv, i as int),
        decreases n - i,
    {
        let d = &result_data[i];
        proof {
            assert(rv[i as int] == result_data@[i as int]@);
            lemma_reo_sum_mono(rv, i + 1, rv.len() as int);
        }
        if d.numeric_intervals.effect.0 < min_e {
            min_e = d.numeric_intervals.effect.0;
        }
        if d.numeric_intervals.effect.1 > max_e {
            max_e = d.numeric_intervals.effect.1;
        }
        if d.numeric_intervals.sig.0 < min_s {
            min_s = d.numeric_intervals.sig.0;
        }
        if d.numeric_intervals.sig.1 > max_s {
            max_s = d.numeric_intervals.sig.1;
        }
        reo = reo + d.reo_count;
        tm_union_with(&mut sources, &d.sources);
        tm_union_with(&mut targets, &d.targets);
        i = i + 1;
    }
    let result = FilteredData {
        chromosomes,
        bucket_size: result_data[0].bucket_size,
        numeric_intervals: FilterIntervals { effect: (min_e, max_e), sig: (min_s, max_s) },
        reo_count: reo,
        sources,
        targets,
    };
    proof {
        assert(rv[0] == result_data@[0]@);
        assert(result@ =~= merged_data(rv, nv));
    }
    result
}

/// Start-ascending order of an interval list (the library's P-ordering
/// invariant), restated for merge inputs.
pub open spec fn starts_ascending(s: Seq<FilteredBucketView>) -> bool {
    forall|i: int, j: int| 0 <= i < j < s.len() ==> #[trigger] s[i].start < #[trigger] s[j].start
}

/// The merge-join of two start-ascending interval lists is start-ascending,
/// and its first start is the lower of the two first starts.
pub proof fn lemma_merge2_sorted(acc: Seq<FilteredBucketView>, inc: Seq<FilteredBucketView>)
    requires
        starts_ascending(acc),
        starts_ascending(inc),
    ensures
        starts_ascending(bucket_merge2(acc, inc)),
        acc.len() > 0 && inc.len() > 0 ==> bucket_merge2(acc, inc).len() > 0 && bucket_merge2(
            acc,
            inc,
        )[0].start == (if acc[0].start < inc[0].start {
            acc[0].start
        } else {
            inc[0].start
        }),
        acc.len() > 0 && inc.len() == 0 ==> bucket_merge2(acc, inc) == acc,
        acc.len() == 0 ==> bucket_merge2(acc, inc) == inc,
    decreases acc.len() + inc.len(),
{
    let m = bucket_merge2(acc, inc);
    if acc.len() == 0 || inc.len() == 0 {
    } else {
        let a0 = acc[0];
        let b0 = inc[0];
        assert(starts_ascending(acc.skip(1))) by {
            assert forall|i: int, j: int|
                0 <= i < j < acc.skip(1).len() implies #[trigger] acc.skip(1)[i].start
                < #[trigger] acc.skip(1)[j].start by {
                assert(acc.skip(1)[i] == acc[i + 1] && acc.skip(1)[j] == acc[j + 1]);
            }
        }
        assert(starts_ascending(inc.skip(1))) by {
            assert forall|i: int, j: int|
                0 <= i < j < inc.skip(1).len() implies #[trigger] inc.skip(1)[i].start
                < #[trigger] inc.skip(1)[j].start by {
                assert(inc.skip(1)[i] == inc[i + 1] && inc.skip(1)[j] == inc[j + 1]);
            }
        }
        if a0.start < b0.start {
            lemma_merge2_sorted(acc.skip(1), inc);
            let rest = bucket_merge2(acc.skip(1), inc);
            assert(m == seq![a0] + rest);
            assert forall|i: int, j: int| 0 <= i < j < m.len() implies #[trigger] m[i].start
                < #[trigger] m[j].start by {
                if i == 0 {
                    assert(m[j] == rest[j - 1]);
                    if rest.len() > 0 {
                        if j - 1 > 0 {
                            assert(rest[0].start < rest[j - 1].start);
                        }
                        if acc.skip(1).len() > 0 {
                            assert(acc[0].start < acc[1].start);
                        }
                    }
                } else {
                    assert(m[i] == rest[i - 1] && m[j] == rest[j - 1]);
                }
            }
        } else if a0.start > b0.start {
            lemma_merge2_sorted(acc, inc.skip(1));
            let rest = bucket_merge2(acc, inc.skip(1));
            assert(m == seq![b0] + rest);
            assert forall|i: int, j: int| 0 <= i < j < m.len() implies #[trigger] m[i].start
                < #[trigger] m[j].start by {
                if i == 0 {
                    assert(m[j] == rest[j - 1]);
                    if rest.len() > 0 {
                        if j - 1 > 0 {
                            assert(rest[0].start < rest[j - 1].start);
                        }
                        if inc.skip(1).len() > 0 {
                            assert(inc[0].start < inc[1].start);
                        }
                    }
                } else {
                    assert(m[i] == rest[i - 1] && m[j] == rest[j - 1]);
                }
            }
        } else {
            lemma_merge2_sorted(acc.skip(1), inc.skip(1));
            let rest = bucket_merge2(acc.skip(1), inc.skip(1));
            let h = combined_bucket(a0, b0);
            assert(m == seq![h] + rest);
            assert(h.start == b0.start);
            assert forall|i: int, j: int| 0 <= i < j < m.len() implies #[trigger] m[i].start
                < #[trigger] m[j].start by {
                if i == 0 {
                    assert(m[j] == rest[j - 1]);
                    if rest.len() > 0 {
                        if j - 1 > 0 {
                            assert(rest[0].start < rest[j - 1].start);
                        }
                        if acc.skip(1).len() > 0 {
                            assert(acc[0].start < acc[1].start);
                        }
                        if inc.skip(1).len() > 0 {
                            assert(inc[0].start < inc[1].start);
                        }
                    }
                } else {
                    assert(m[i] == rest[i - 1] && m[j] == rest[j - 1]);
                }
            }
        }
    }
}

/// The first interval holding the given start coordinate, if any; in a
/// start-ascending list it is the only one.
pub open spec fn bucket_at(s: Seq<FilteredBucketView>, st: u64) -> Option<FilteredBucketView>
    decreases s.len(),
{
    if s.len() == 0 {
        None
    } else if s[0].start == st {
        Some(s[0])
    } else {
        bucket_at(s.skip(1), st)
    }
}

/// A start below every interval of an ascending list occurs nowhere in it.
proof fn lemma_bucket_at_none_below(s: Seq<FilteredBucketView>, st: u64)
    requires
        starts_ascending(s),
        s.len() > 0 ==> st < s[0].start,
    ensures
        bucket_at(s, st) is None,
    decreases s.len(),
{
    if s.len() > 0 {
        assert(starts_ascending(s.skip(1))) by {
            assert forall|i: int, j: int|
                0 <= i < j < s.skip(1).len() implies #[trigger] s.skip(1)[i].start
                < #[trigger] s.skip(1)[j].start by {
                assert(s.skip(1)[i] == s[i + 1] && s.skip(1)[j] == s[j + 1]);
            }
        }
        if s.len() > 1 {
            assert(s.skip(1)[0] == s[1]);
            assert(s[0].start < s[1].start);
        }
        lemma_bucket_at_none_below(s.skip(1), st);
    }
}

/// What the merge-join holds at each start coordinate: a start only one side
/// holds keeps that side's interval unchanged (the disjoint-start case); a
/// start both sides hold gets the one combined interval — count summed,
/// associated lists concatenated incoming-first, maximum significance, the
/// effect of larger absolute value (the overlapping-start case); any other
/// start is absent.
pub proof fn lemma_merge2_bucket_at(
    acc: Seq<FilteredBucketView>,
    inc: Seq<FilteredBucketView>,
    st: u64,
)
    requires
        starts_ascending(acc),
        starts_ascending(inc),
    ensures
        bucket_at(bucket_merge2(acc, inc), st) == (match (bucket_at(acc, st), bucket_at(
            inc,
            st,
        )) {
            (Some(a), Some(b)) => Some(combined_bucket(a, b)),
            (Some(a), None) => Some(a),
            (None, Some(b)) => Some(b),
            (None, None) => None::<FilteredBucketView>,
        }),
    decreases acc.len() + inc.len(),
{
    let m = bucket_merge2(acc, inc);
    if acc.len() == 0 || inc.len() == 0 {
    } else {
        let a0 = acc[0];
        let b0 = inc[0];
        assert(starts_ascending(acc.skip(1))) by {
            assert forall|i: int, j: int|
                0 <= i < j < acc.skip(1).len() implies #[trigger] acc.skip(1)[i].start
                < #[trigger] acc.skip(1)[j].start by {
                assert(acc.skip(1)[i] == acc[i + 1] && acc.skip(1)[j] == acc[j + 1]);
            }
        }
        assert(starts_ascending(inc.skip(1))) by {
            assert forall|i: int, j: int|
                0 <= i < j < inc.skip(1).len() implies #[trigger] inc.skip(1)[i].start
                < #[trigger] inc.skip(1)[j].start by {
                assert(inc.skip(1)[i] == inc[i + 1] && inc.skip(1)[j] == inc[j + 1]);
            }
        }
        if a0.start < b0.start {
            let rest = bucket_merge2(acc.skip(1), inc);
            assert(m == seq![a0] + rest);
            assert((seq![a0] + rest)[0] == a0);
            assert((seq![a0] + rest).skip(1) =~= rest);
            lemma_merge2_bucket_at(acc.skip(1), inc, st);
            if st == a0.start {
                lemma_bucket_at_none_below(inc, st);
                if acc.skip(1).len() > 0 {
                    assert(acc.skip(1)[0] == acc[1]);
                    assert(acc[0].start < acc[1].start);
                }
                lemma_bucket_at_none_below(acc.skip(1), st);
                assert(bucket_at(m, st) == Some(a0));
            } else {
                assert(bucket_at(m, st) == bucket_at(rest, st));
                assert(bucket_at(acc, st) == bucket_at(acc.skip(1), st));
            }
        } else if a0.start > b0.start {
            let rest = bucket_merge2(acc, inc.skip(1));
            assert(m == seq![b0] + rest);
            assert((seq![b0] + rest)[0] == b0);
            assert((seq![b0] + rest).skip(1) =~= rest);
            lemma_merge2_bucket_at(acc, inc.skip(1), st);
            if st == b0.start {
                lemma_bucket_at_none_below(acc, st);
                if inc.skip(1).len() > 0 {
                    assert(inc.skip(1)[0] == inc[1]);
                    assert(inc[0].start < inc[1].start);
                }
                lemma_bucket_at_none_below(inc.skip(1), st);
                assert(bucket_at(m, st) == Some(b0));
            } else {
                assert(bucket_at(m, st) == bucket_at(rest, st));
                assert(bucket_at(inc, st) == bucket_at(inc.skip(1), st));
            }
        } else {
            let h = combined_bucket(a0, b0);
            let rest = bucket_merge2(acc.skip(1), inc.skip(1));
            assert(m == seq![h] + rest);
            assert((seq![h] + rest)[0] == h);
            assert((seq![h] + rest).skip(1) =~= rest);
            lemma_merge2_bucket_at(acc.skip(1), inc.skip(1), st);
            if st == a0.start {
                assert(bucket_at(m, st) == Some(h));
                assert(bucket_at(acc, st) == Some(a0) && bucket_at(inc, st) == Some(b0));
            } else {
                assert(bucket_at(m, st) == bucket_at(rest, st));
                assert(bucket_at(acc, st) == bucket_at(acc.skip(1), st));
                assert(bucket_at(inc, st) == bucket_at(inc.skip(1), st));
            }
        }
    }
}

/// A result is shaped by the canonical list: one chromosome per canonical
/// name, in order.
pub open spec fn same_shape(d: FilteredDataView, chroms: Seq<Seq<char>>) -> bool {
    &&& d.chromosomes.len() == chroms.len()
    &&& forall|k: int|
        0 <= k < chroms.len() ==> (#[trigger] d.chromosomes[k]).chrom == chroms[k]
}

/// In a shaped chromosome list with distinct names, each name is found at
/// its own position.
proof fn lemma_find_in_shaped(
    chromosomes: Seq<FilteredChromosomeView>,
    chroms: Seq<Seq<char>>,
    k: int,
    j: int,
)
    requires
        chromosomes.len() == chroms.len(),
        forall|t: int| 0 <= t < chroms.len() ==> (#[trigger] chromosomes[t]).chrom == chroms[t],
        forall|i1: int, i2: int|
            0 <= i1 < i2 < chroms.len() ==> #[trigger] chroms[i1] != #[trigger] chroms[i2],
        0 <= j <= k < chroms.len(),
    ensures
        find_chrom_idx(chromosomes, chroms[k], j) == Some(k),
    decreases k - j,
{
    if j < k {
        assert(chromosomes[j].chrom == chroms[j]);
        assert(chroms[j] != chroms[k]);
        lemma_find_in_shaped(chromosomes, chroms, k, j + 1);
    }
}


/// Every interval list of every chromosome of a result is start-ascending.
pub open spec fn data_sorted(d: FilteredDataView) -> bool {
    forall|k: int|
        0 <= k < d.chromosomes.len() ==> starts_ascending(
            (#[trigger] d.chromosomes[k]).source_intervals,
        ) && starts_ascending(d.chromosomes[k].target_intervals)
}

/// The per-name fold keeps both interval lists start-ascending.
proof fn lemma_fold_sorted(
    results: Seq<FilteredDataView>,
    name: Seq<char>,
    acc: Option<FilteredChromosomeView>,
    i: int,
)
    requires
        forall|r: int| 0 <= r < results.len() ==> data_sorted(#[trigger] results[r]),
        acc matches Some(a) ==> starts_ascending(a.source_intervals) && starts_ascending(
            a.target_intervals,
        ),
    ensures
        merged_chrom_from(results, name, acc, i) matches Some(out) ==> starts_ascending(
            out.source_intervals,
        ) && starts_ascending(out.target_intervals),
    decreases results.len() - i,
{
    if 0 <= i < results.len() {
        let acc2 = match find_chrom_idx(results[i].chromosomes, name, 0) {
            None => acc,
            Some(j) => match acc {
                None => Some(results[i].chromosomes[j]),
                Some(a) => Some(merge_step(a, results[i].chromosomes[j])),
            },
        };
        match find_chrom_idx(results[i].chromosomes, name, 0) {
            None => {},
            Some(j) => {
                lemma_find_chrom_found(results[i].chromosomes, name, 0);
                let fc = results[i].chromosomes[j];
                assert(starts_ascending(fc.source_intervals) && starts_ascending(
                    fc.target_intervals,
                ));
                match acc {
                    None => {},
                    Some(a) => {
                        lemma_merge2_sorted(a.source_intervals, fc.source_intervals);
                        lemma_merge2_sorted(a.target_intervals, fc.target_intervals);
                    },
                }
            },
        }
        lemma_fold_sorted(results, name, acc2, i + 1);
    }
}

/// Ordering is preserved by merging: where every interval list of every
/// input is strictly ascending by start, so is every interval list of the
/// merged result.
pub proof fn lemma_merged_data_sorted(results: Seq<FilteredDataView>, chroms: Seq<Seq<char>>)
    requires
        results.len() >= 1,
        forall|r: int| 0 <= r < results.len() ==> data_sorted(#[trigger] results[r]),
    ensures
        data_sorted(merged_data(results, chroms)),
{
    let merged = merged_data(results, chroms);
    if results.len() == 1 {
        assert(data_sorted(results[0]));
    } else {
        assert forall|k: int| 0 <= k < merged.chromosomes.len() implies starts_ascending(
            (#[trigger] merged.chromosomes[k]).source_intervals,
        ) && starts_ascending(merged.chromosomes[k].target_intervals) by {
            assert(merged.chromosomes[k] == merged_chromosome(results, chroms[k]));
            lemma_fold_sorted(results, chroms[k], None, 0);
        }
    }
}

/// What merging exactly two same-shape results holds at each start, per
/// chromosome and role: a start only one input holds keeps that input's
/// interval unchanged — so disjoint starts give the plain union — and a
/// start both inputs hold gets the one combined interval, counts summed,
/// associated lists concatenated (the second input's first), maximum
/// significance, the effect of larger absolute value.
pub proof fn lemma_two_result_merge_buckets(
    a: FilteredDataView,
    b: FilteredDataView,
    chroms: Seq<Seq<char>>,
    k: int,
    st: u64,
)
    requires
        same_shape(a, chroms),
        same_shape(b, chroms),
        forall|i1: int, i2: int|
            0 <= i1 < i2 < chroms.len() ==> #[trigger] chroms[i1] != #[trigger] chroms[i2],
        data_sorted(a),
        data_sorted(b),
        0 <= k < chroms.len(),
    ensures
        ({
            let merged = merged_data(seq![a, b], chroms);
            &&& merged.chromosomes.len() == chroms.len()
            &&& bucket_at(merged.chromosomes[k].source_intervals, st) == (match (bucket_at(
                a.chromosomes[k].source_intervals,
                st,
            ), bucket_at(b.chromosomes[k].source_intervals, st)) {
                (Some(x), Some(y)) => Some(combined_bucket(x, y)),
                (Some(x), None) => Some(x),
                (None, Some(y)) => Some(y),
                (None, None) => None::<FilteredBucketView>,
            })
            &&& bucket_at(merged.chromosomes[k].target_intervals, st) == (match (bucket_at(
                a.chromosomes[k].target_intervals,
                st,
            ), bucket_at(b.chromosomes[k].target_intervals, st)) {
                (Some(x), Some(y)) => Some(combined_bucket(x, y)),
                (Some(x), None) => Some(x),
                (None, Some(y)) => Some(y),
                (None, None) => None::<FilteredBucketView>,
            })
        }),
{
    let s2 = seq![a, b];
    let nm = chroms[k];
    assert(s2[0] == a && s2[1] == b);
    lemma_find_in_shaped(a.chromosomes, chroms, k, 0);
    lemma_find_in_shaped(b.chromosomes, chroms, k, 0);
    let fa = a.chromosomes[k];
    let fb = b.chromosomes[k];
    assert(merged_chrom_from(s2, nm, None, 0) == merged_chrom_from(s2, nm, Some(fa), 1));
    assert(merged_chrom_from(s2, nm, Some(fa), 1) == merged_chrom_from(
        s2,
        nm,
        Some(merge_step(fa, fb)),
        2,
    ));
    assert(merged_chromosome(s2, nm) == merge_step(fa, fb));
    let merged = merged_data(s2, chroms);
    assert(merged.chromosomes[k] == merge_step(fa, fb));
    lemma_merge2_bucket_at(fa.source_intervals, fb.source_intervals, st);
    lemma_merge2_bucket_at(fa.target_intervals, fb.target_intervals, st);
}

/// Merge associativity: merging three well-formed same-shape results at once
/// equals merging the first two and then the third, over the same canonical
/// chromosome-name ordering with distinct names (and a total observation
/// count that fits).
pub proof fn lemma_merge_associative(
    a: FilteredDataView,
    b: FilteredDataView,
    c: FilteredDataView,
    chroms: Seq<Seq<char>>,
)
    requires
        same_shape(a, chroms),
        same_shape(b, chroms),
        same_shape(c, chroms),
        forall|i1: int, i2: int|
            0 <= i1 < i2 < chroms.len() ==> #[trigger] chroms[i1] != #[trigger] chroms[i2],
        a.reo_count + b.reo_count + c.reo_count <= u64::MAX,
    ensures
        merged_data(seq![a, b, c], chroms) == merged_data(
            seq![merged_data(seq![a, b], chroms), c],
            chroms,
        ),
{
    let s3 = seq![a, b, c];
    let s2 = seq![a, b];
    let ab = merged_data(s2, chroms);
    let s2p = seq![ab, c];
    let l = merged_data(s3, chroms);
    let r = merged_data(s2p, chroms);

    // Scalar folds.
    assert(s3[0] == a && s3[1] == b && s3[2] == c);
    assert(s2[0] == a && s2[1] == b);
    assert(s2p[0] == ab && s2p[1] == c);
    assert(l.bucket_size == r.bucket_size);
    let seed = FilterIntervals { effect: (i64::MAX, i64::MIN), sig: (i64::MAX, i64::MIN) };
    assert(fold_intervals(s2, 0) == seed && fold_intervals(s2p, 0) == seed && fold_intervals(s3, 0)
        == seed);
    assert(fold_intervals(s2, 1).effect == a.numeric_intervals.effect);
    assert(fold_intervals(s2, 1).sig == a.numeric_intervals.sig);
    assert(fold_intervals(s2p, 1).effect == ab.numeric_intervals.effect);
    assert(fold_intervals(s2p, 1).sig == ab.numeric_intervals.sig);
    assert(fold_intervals(s3, 1).effect == a.numeric_intervals.effect);
    assert(fold_intervals(s3, 1).sig == a.numeric_intervals.sig);
    assert(fold_intervals(s2, 2) == ab.numeric_intervals);
    assert(fold_intervals(s3, 2) == fold_intervals(s2, 2));
    assert(l.numeric_intervals == fold_intervals(s3, 3));
    assert(r.numeric_intervals == fold_intervals(s2p, 2));
    assert(l.numeric_intervals == r.numeric_intervals);
    assert(reo_sum(s2, 0) == 0 && reo_sum(s3, 0) == 0 && reo_sum(s2p, 0) == 0);
    assert(reo_sum(s2, 1) == a.reo_count && reo_sum(s3, 1) == a.reo_count && reo_sum(s2p, 1)
        == ab.reo_count);
    assert(reo_sum(s2, 2) == a.reo_count + b.reo_count);
    assert(reo_sum(s3, 2) == a.reo_count + b.reo_count);
    assert(reo_sum(s3, 3) == a.reo_count + b.reo_count + c.reo_count);
    assert(reo_sum(s2p, 2) == ab.reo_count + c.reo_count);
    assert(l.reo_count == r.reo_count);
    assert(union_sources(s2, 0) == Set::<u64>::empty() && union_sources(s3, 0) == Set::<
        u64,
    >::empty() && union_sources(s2p, 0) == Set::<u64>::empty());
    assert(union_sources(s2, 1) =~= a.sources);
    assert(union_sources(s3, 1) =~= a.sources);
    assert(union_sources(s2p, 1) =~= ab.sources);
    assert(union_sources(s2, 2) =~= a.sources + b.sources);
    assert(union_sources(s3, 2) =~= a.sources + b.sources);
    assert(union_sources(s3, 3) =~= a.sources + b.sources + c.sources);
    assert(union_sources(s2p, 2) =~= ab.sources + c.sources);
    assert(l.sources =~= r.sources);
    assert(union_targets(s2, 0) == Set::<u64>::empty() && union_targets(s3, 0) == Set::<
        u64,
    >::empty() && union_targets(s2p, 0) == Set::<u64>::empty());
    assert(union_targets(s2, 1) =~= a.targets);
    assert(union_targets(s3, 1) =~= a.targets);
    assert(union_targets(s2p, 1) =~= ab.targets);
    assert(union_targets(s2, 2) =~= a.targets + b.targets);
    assert(union_targets(s3, 2) =~= a.targets + b.targets);
    assert(union_targets(s3, 3) =~= a.targets + b.targets + c.targets);
    assert(union_targets(s2p, 2) =~= ab.targets + c.targets);
    assert(l.targets =~= r.targets);

    // The merged result of the first two results is itself shaped.
    assert forall|k: int| 0 <= k < chroms.len() implies (#[trigger] ab.chromosomes[k]).chrom
        == chroms[k] by {
        lemma_find_in_shaped(a.chromosomes, chroms, k, 0);
        lemma_find_in_shaped(b.chromosomes, chroms, k, 0);
        let nm = chroms[k];
        assert(merged_chrom_from(s2, nm, None, 0) == merged_chrom_from(
            s2,
            nm,
            Some(a.chromosomes[k]),
            1,
        ));
        assert(merged_chrom_from(s2, nm, Some(a.chromosomes[k]), 1) == merged_chrom_from(
            s2,
            nm,
            Some(merge_step(a.chromosomes[k], b.chromosomes[k])),
            2,
        ));
    }

    // Per canonical name, the two folds agree.
    assert forall|k: int| 0 <= k < chroms.len() implies merged_chromosome(s3, chroms[k])
        == merged_chromosome(s2p, chroms[k]) by {
        let nm = chroms[k];
        lemma_find_in_shaped(a.chromosomes, chroms, k, 0);
        lemma_find_in_shaped(b.chromosomes, chroms, k, 0);
        lemma_find_in_shaped(c.chromosomes, chroms, k, 0);
        lemma_find_in_shaped(ab.chromosomes, chroms, k, 0);
        let fa = a.chromosomes[k];
        let fb = b.chromosomes[k];
        let fc = c.chromosomes[k];
        assert(merged_chrom_from(s3, nm, None, 0) == merged_chrom_from(s3, nm, Some(fa), 1));
        assert(merged_chrom_from(s3, nm, Some(fa), 1) == merged_chrom_from(
            s3,
            nm,
            Some(merge_step(fa, fb)),
            2,
        ));
        assert(merged_chrom_from(s3, nm, Some(merge_step(fa, fb)), 2) == merged_chrom_from(
            s3,
            nm,
            Some(merge_step(merge_step(fa, fb), fc)),
            3,
        ));
        assert(merged_chrom_from(s2, nm, None, 0) == merged_chrom_from(s2, nm, Some(fa), 1));
        assert(merged_chrom_from(s2, nm, Some(fa), 1) == merged_chrom_from(
            s2,
            nm,
            Some(merge_step(fa, fb)),
            2,
        ));
        assert(ab.chromosomes[k] == merge_step(fa, fb));
        assert(merged_chrom_from(s2p, nm, None, 0) == merged_chrom_from(
            s2p,
            nm,
            Some(merge_step(fa, fb)),
            1,
        ));
        assert(merged_chrom_from(s2p, nm, Some(merge_step(fa, fb)), 1) == merged_chrom_from(
            s2p,
            nm,
            Some(merge_step(merge_step(fa, fb), fc)),
            2,
        ));
    }
    assert(l.chromosomes =~= r.chromosomes);
    assert(l =~= r);
}

} // verus!
