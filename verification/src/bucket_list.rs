//! A per-chromosome bucket-occupancy table: one mark per fixed-size window,
//! flattened into alternating `(chromosome index, bucket index)` pairs.

use vstd::prelude::*;

use crate::data::BucketLoc;

verus! {

/// Occupancy marks per chromosome, keyed by chromosome index.
pub struct BucketList {
    pub buckets: Vec<(u8, Vec<u32>)>,
}

/// The view of the table.
pub open spec fn bl_view(s: Seq<(u8, Vec<u32>)>) -> Seq<(u8, Seq<u32>)> {
    s.map_values(|row: (u8, Vec<u32>)| (row.0, row.1@))
}

/// Index of the first row of the given chromosome, from `i` on.
pub open spec fn bl_find_idx(s: Seq<(u8, Seq<u32>)>, chrom: u8, i: int) -> Option<int>
    decreases s.len() - i,
{
    if i < 0 || i >= s.len() {
        None
    } else if s[i].0 == chrom {
        Some(i)
    } else {
        bl_find_idx(s, chrom, i + 1)
    }
}

/// One mark recorded: the first row of the chromosome gains a 1 at the
/// bucket index; a chromosome without a row absorbs the mark silently.
pub open spec fn bl_insert(s: Seq<(u8, Seq<u32>)>, chrom: u8, bucket: int) -> Seq<(u8, Seq<u32>)> {
    match bl_find_idx(s, chrom, 0) {
        None => s,
        Some(ix) => s.update(ix, (chrom, s[ix].1.update(bucket, 1u32))),
    }
}

/// A mark is in range of its row, where the chromosome has one.
pub open spec fn bl_in_range(s: Seq<(u8, Seq<u32>)>, chrom: u8, bucket: int) -> bool {
    match bl_find_idx(s, chrom, 0) {
        None => true,
        Some(ix) => 0 <= bucket < s[ix].1.len(),
    }
}

/// All marks of a location list recorded, in order.
pub open spec fn bl_insert_all(s: Seq<(u8, Seq<u32>)>, locs: Seq<BucketLoc>) -> Seq<(u8, Seq<u32>)>
    decreases locs.len(),
{
    if locs.len() == 0 {
        s
    } else {
        bl_insert(bl_insert_all(s, locs.drop_last()), locs.last().chrom, locs.last().idx as int)
    }
}

/// One row flattened from position `j` on: a `(chromosome, index)` pair per
/// mark.
pub open spec fn row_flat(chrom: u8, v: Seq<u32>, j: int) -> Seq<u32>
    decreases v.len() - j,
{
    if j < 0 || j >= v.len() {
        Seq::empty()
    } else {
        (if v[j] == 1 {
            seq![chrom as u32, j as u32]
        } else {
            Seq::empty()
        }) + row_flat(chrom, v, j + 1)
    }
}

/// The whole table flattened, row by row, from row `i` on.
pub open spec fn bl_flat(s: Seq<(u8, Seq<u32>)>, i: int) -> Seq<u32>
    decreases s.len() - i,
{
    if i < 0 || i >= s.len() {
        Seq::empty()
    } else {
        row_flat(s[i].0, s[i].1, 0) + bl_flat(s, i + 1)
    }
}

impl View for BucketList {
    type V = Seq<(u8, Seq<u32>)>;

    open spec fn view(&self) -> Seq<(u8, Seq<u32>)> {
        bl_view(self.buckets@)
    }
}

impl BucketList {
    /// An empty table: one all-zero row per chromosome, one mark slot per
    /// started window of its length.
    #[verifier::loop_isolation(false)]
    pub fn new(chrom_info: &Vec<(u8, usize)>, bucket_size: usize) -> (r: BucketList)
        requires
            bucket_size >= 1,
            forall|k: int| 0 <= k < chrom_info@.len() ==> (#[trigger] chrom_info@[k]).1 < usize::MAX,
        ensures
            r@.len() == chrom_info@.len(),
            forall|k: int|
                0 <= k < chrom_info@.len() ==> (#[trigger] r@[k]).0 == chrom_info@[k].0
                    && r@[k].1.len() == chrom_info@[k].1 as int / bucket_size as int + 1 && (forall|
                    j: int,
                |
                    0 <= j < r@[k].1.len() ==> r@[k].1[j] == 0),
    {
        let n: usize = chrom_info.len();
        let mut buckets: Vec<(u8, Vec<u32>)> = Vec::new();
        let mut k: usize = 0;
        while k < n
            invariant
                0 <= k <= n,
                bl_view(buckets@).len() == k as int,
                forall|t: int|
                    0 <= t < k as int ==> (#[trigger] bl_view(buckets@)[t]).0 == chrom_info@[t].0
                        && bl_view(buckets@)[t].1.len() == chrom_info@[t].1 as int
                        / bucket_size as int + 1 && (forall|j: int|
                        0 <= j < bl_view(buckets@)[t].1.len() ==> bl_view(buckets@)[t].1[j] == 0),
            decreases n - k,
        {
            let len = chrom_info[k].1 / bucket_size + 1;
            let mut row: Vec<u32> = Vec::new();
            let mut j: usize = 0;
            while j < len
                invariant
                    0 <= j <= len,
                    row@.len() == j as int,
                    forall|t: int| 0 <= t < j as int ==> row@[t] == 0,
                decreases len - j,
            {
                row.push(0);
                j = j + 1;
            }
            let ghost prev = buckets@;
            buckets.push((chrom_info[k].0, row));
            proof {
                assert(buckets@ == prev.push((chrom_info@[k as int].0, row)));
                assert forall|t: int| 0 <= t < k + 1 implies (#[trigger] bl_view(buckets@)[t])
                    == (if t < k as int {
                    bl_view(prev)[t]
                } else {
                    (chrom_info@[k as int].0, row@)
                }) by {
                    if t < k as int {
                        assert(buckets@[t] == prev[t]);
                    } else {
                        assert(buckets@[t] == (chrom_info@[k as int].0, row));
                    }
                }
            }
            k = k + 1;
        }
        BucketList { buckets }
    }

    /// Record one mark; a chromosome without a row absorbs it silently.
    #[verifier::loop_isolation(false)]
    pub fn insert(&mut self, chrom: u8, bucket: usize)
        requires
            bl_in_range(old(self)@, chrom, bucket as int),
        ensures
            final(self)@ == bl_insert(old(self)@, chrom, bucket as int),
    {
        let ghost s0 = self@;
        let ghost b0 = self.buckets@;
        let n: usize = self.buckets.len();
        let mut i: usize = 0;
        while i < n
            invariant
                0 <= i <= n,
                n == self.buckets.len(),
                self.buckets@ == b0,
                self@ == s0,
                bl_find_idx(s0, chrom, 0) == bl_find_idx(s0, chrom, i as int),
            decreases n - i,
        {
            if self.buckets[i].0 == chrom {
                proof {
                    assert(s0[i as int].0 == chrom);
                    assert(bl_find_idx(s0, chrom, 0) == Some(i as int));
                }
                let ghost old_pair = b0[i as int];
                let mut row = self.buckets.remove(i);
                proof {
                    assert(row == old_pair);
                    assert(s0[i as int] == (old_pair.0, old_pair.1@));
                    assert(row.1@ == s0[i as int].1);
                    assert(bucket < row.1@.len());
                }
                row.1.set(bucket, 1);
                self.buckets.insert(i, row);
                proof {
                    assert(row.0 == chrom);
                    assert(row.1@ == s0[i as int].1.update(bucket as int, 1u32));
                    assert(self.buckets@ == b0.remove(i as int).insert(i as int, row));
                    assert(self@ =~= bl_insert(s0, chrom, bucket as int)) by {
                        assert forall|t: int| 0 <= t < self@.len() implies self@[t] == bl_insert(
                            s0,
                            chrom,
                            bucket as int,
                        )[t] by {
                            assert(self.buckets@[t] == b0.remove(i as int).insert(i as int, row)[t]);
                            if t < i as int {
                                assert(self.buckets@[t] == b0[t]);
                            } else if t == i as int {
                                assert(self.buckets@[t] == row);
                            } else {
                                assert(self.buckets@[t] == b0[t]);
                            }
                        }
                    }
                }
                return ;
            }
            proof {
                assert(s0[i as int].0 != chrom);
            }
            i = i + 1;
        }
        proof {
            assert(bl_find_idx(s0, chrom, 0) is None);
            assert(self@ =~= bl_insert(s0, chrom, bucket as int));
        }
    }

    /// Record the marks of every location, in order.
    #[verifier::loop_isolation(false)]
    pub fn insert_from(&mut self, from: &Vec<BucketLoc>)
        requires
            forall|k: int|
                0 <= k < from@.len() ==> bl_in_range(
                    bl_insert_all(old(self)@, from@.take(k)),
                    (#[trigger] from@[k]).chrom,
                    from@[k].idx as int,
                ),
        ensures
            final(self)@ == bl_insert_all(old(self)@, from@),
    {
        let ghost s0 = self@;
        let n: usize = from.len();
        let mut k: usize = 0;
        proof {
            assert(from@.take(0) =~= Seq::<BucketLoc>::empty());
        }
        while k < n
            invariant
                0 <= k <= n,
                n == from.len(),
                self@ == bl_insert_all(s0, from@.take(k as int)),
            decreases n - k,
        {
            proof {
                assert(from@.take(k + 1).drop_last() =~= from@.take(k as int));
                assert(from@.take(k + 1).last() == from@[k as int]);
            }
            self.insert(from[k].chrom, from[k].idx as usize);
            k = k + 1;
        }
        proof {
            assert(from@.take(n as int) =~= from@);
        }
    }

    /// The flat alternating `(chromosome index, bucket index)` list of every
    /// mark, in row order.
    #[verifier::loop_isolation(false)]
    pub fn flat_list(&self) -> (r: Vec<u32>)
        ensures
            r@ == bl_flat(self@, 0),
    {
        let ghost s = self@;
        let mut out: Vec<u32> = Vec::new();
        let n: usize = self.buckets.len();
        let mut i: usize = 0;
        while i < n
            invariant
                0 <= i <= n,
                n == self.buckets.len(),
                s == self@,
                bl_flat(s, 0) == out@ + bl_flat(s, i as int),
            decreases n - i,
        {
            let row_len: usize = self.buckets[i].1.len();
            let mut j: usize = 0;
            while j < row_len
                invariant
                    0 <= j <= row_len,
                    i < n,
                    n == self.buckets.len(),
                    s == self@,
                    row_len == self.buckets[i as int].1@.len(),
                    bl_flat(s, 0) == out@ + row_flat(s[i as int].0, s[i as int].1, j as int)
                        + bl_flat(s, i + 1),
                decreases row_len - j,
            {
                let ghost prev = out@;
                if self.buckets[i].1[j] == 1 {
                    out.push(self.buckets[i].0 as u32);
                    out.push(j as u32);
                    proof {
                        assert(out@ =~= prev.push(s[i as int].0 as u32).push(j as u32));
                        assert(row_flat(s[i as int].0, s[i as int].1, j as int) == seq![
                            s[i as int].0 as u32,
                            j as u32,
                        ] + row_flat(s[i as int].0, s[i as int].1, j + 1));
                        assert(prev + (seq![s[i as int].0 as u32, j as u32] + row_flat(
                            s[i as int].0,
                            s[i as int].1,
                            j + 1,
                        )) =~= out@ + row_flat(s[i as int].0, s[i as int].1, j + 1));
                    }
                } else {
                    proof {
                        assert(row_flat(s[i as int].0, s[i as int].1, j as int) == Seq::<
                            u32,
                        >::empty() + row_flat(s[i as int].0, s[i as int].1, j + 1));
                        assert(Seq::<u32>::empty() + row_flat(s[i as int].0, s[i as int].1, j + 1)
                            =~= row_flat(s[i as int].0, s[i as int].1, j + 1));
                    }
                }
                j = j + 1;
            }
            proof {
                assert(row_flat(s[i as int].0, s[i as int].1, row_len as int) =~= Seq::<
                    u32,
                >::empty());
                assert(out@ + Seq::<u32>::empty() =~= out@);
            }
            i = i + 1;
        }
        proof {
            assert(bl_flat(s, n as int) =~= Seq::<u32>::empty());
            assert(out@ + Seq::<u32>::empty() =~= out@);
        }
        out
    }
}

} // verus!
