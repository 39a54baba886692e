//! The byte budget of a cache directory: which files leave, oldest first,
//! when the directory holds more than it may.

use vstd::prelude::*;

verus! {

/// A file of a cache directory: its size in bytes, and when it was last
/// modified, in nanoseconds since the Unix epoch.
#[derive(Clone, Copy, Debug)]
pub struct CacheFile {
    pub size: u64,
    pub modified_ns: u128,
}

/// The sizes of the files at the places `at`, added up.
pub open spec fn sum_at(files: Seq<CacheFile>, at: Seq<int>) -> nat
    decreases at.len(),
{
    if at.len() == 0 {
        0
    } else {
        sum_at(files, at.drop_last()) + files[at.last()].size as nat
    }
}

/// The places `0..n`, in order.
pub open spec fn all_places(n: nat) -> Seq<int> {
    Seq::new(n, |i: int| i)
}

/// Where in `at` the place of the oldest file stands; of files modified at
/// the same time, the one listed first.
pub open spec fn oldest_of(files: Seq<CacheFile>, at: Seq<int>) -> int
    decreases at.len(),
{
    if at.len() <= 1 {
        0
    } else {
        let k = oldest_of(files, at.drop_last());
        if files[at.last()].modified_ns < files[at[k]].modified_ns {
            at.len() - 1
        } else {
            k
        }
    }
}

/// The places of the files to remove, in the order of removal: while the
/// files at `at` hold more than `max` bytes, the oldest of them leaves.
pub open spec fn removal_order(files: Seq<CacheFile>, at: Seq<int>, max: nat) -> Seq<int>
    decreases at.len(),
{
    let k = oldest_of(files, at);
    if sum_at(files, at) <= max || !(0 <= k < at.len()) {
        Seq::empty()
    } else {
        seq![at[k]] + removal_order(files, at.remove(k), max)
    }
}

/// Where the oldest stands is a place of `at`.
pub proof fn lemma_oldest_in_range(files: Seq<CacheFile>, at: Seq<int>)
    requires
        at.len() > 0,
    ensures
        0 <= oldest_of(files, at) < at.len(),
    decreases at.len(),
{
    if at.len() > 1 {
        lemma_oldest_in_range(files, at.drop_last());
    }
}

/// No file at a place of `at` is older than the oldest, and none before it
/// is as old.
pub proof fn lemma_oldest_is_oldest(files: Seq<CacheFile>, at: Seq<int>)
    requires
        at.len() > 0,
    ensures
        forall|j: int|
            0 <= j < at.len() ==> files[at[oldest_of(files, at)]].modified_ns <= (
            #[trigger] files[at[j]]).modified_ns,
        forall|j: int|
            0 <= j < oldest_of(files, at) ==> files[at[oldest_of(files, at)]].modified_ns < (
            #[trigger] files[at[j]]).modified_ns,
    decreases at.len(),
{
    if at.len() > 1 {
        let init = at.drop_last();
        lemma_oldest_is_oldest(files, init);
        lemma_oldest_in_range(files, init);
        assert(forall|j: int| 0 <= j < init.len() ==> init[j] == at[j]);
    }
}

/// Taking a place out takes the size of its file off the sum.
pub proof fn lemma_sum_remove(files: Seq<CacheFile>, at: Seq<int>, k: int)
    requires
        0 <= k < at.len(),
    ensures
        sum_at(files, at.remove(k)) + files[at[k]].size == sum_at(files, at),
    decreases at.len(),
{
    if k == at.len() - 1 {
        assert(at.remove(k) =~= at.drop_last());
    } else {
        let init = at.drop_last();
        lemma_sum_remove(files, init, k);
        assert(at.remove(k).drop_last() =~= init.remove(k));
        assert(at.remove(k).last() == at.last());
        assert(init[k] == at[k]);
    }
}

/// The places held in a vector of indices.
pub open spec fn places(v: Seq<usize>) -> Seq<int> {
    v.map_values(|i: usize| i as int)
}

/// The sum of up to `n` sizes fits well within a `u128`.
proof fn lemma_sum_bound(files: Seq<CacheFile>, at: Seq<int>)
    ensures
        sum_at(files, at) <= at.len() * 0xFFFF_FFFF_FFFF_FFFF,
    decreases at.len(),
{
    if at.len() > 0 {
        lemma_sum_bound(files, at.drop_last());
        assert((at.len() - 1) * 0xFFFF_FFFF_FFFF_FFFF + 0xFFFF_FFFF_FFFF_FFFF == at.len()
            * 0xFFFF_FFFF_FFFF_FFFF) by (nonlinear_arith);
    }
}

/// Plans the cleanup of a cache directory that holds `files` and may hold
/// `max_bytes`: the indices of the files to remove, in the order of
/// removal. Within the budget nothing is removed; over it the oldest files
/// leave until the rest is within it or none is left.
pub fn plan_cleanup(files: &[CacheFile], max_bytes: u64) -> (order: Vec<usize>)
    ensures
        places(order@) == removal_order(files@, all_places(files@.len()), max_bytes as nat),
        forall|j: int| 0 <= j < order.len() ==> (#[trigger] order[j]) < files.len(),
        order.len() == files.len() || sum_at(files@, all_places(files@.len())) - sum_at(
            files@,
            places(order@),
        ) <= max_bytes,
{
    let n = files.len();
    let ghost all = all_places(n as nat);
    let mut rem: Vec<usize> = Vec::new();
    let mut total: u128 = 0;
    let mut i: usize = 0;
    assert(places(rem@) =~= all.subrange(0, 0));
    while i < n
        invariant
            i <= n,
            n == files.len(),
            all == all_places(n as nat),
            rem.len() == i,
            places(rem@) == all.subrange(0, i as int),
            forall|j: int| 0 <= j < rem.len() ==> (#[trigger] rem[j]) == j,
            total == sum_at(files@, places(rem@)),
        decreases n - i,
    {
        proof {
            let next = all.subrange(0, i + 1);
            assert(next.drop_last() =~= all.subrange(0, i as int));
            assert(next.last() == i);
            lemma_sum_bound(files@, next);
            assert((i + 1) * 0xFFFF_FFFF_FFFF_FFFF <= 0xFFFF_FFFF_FFFF_FFFF
                * 0xFFFF_FFFF_FFFF_FFFF) by (nonlinear_arith)
                requires
                    i + 1 <= 0xFFFF_FFFF_FFFF_FFFF,
            ;
        }
        total = total + files[i].size as u128;
        rem.push(i);
        assert(places(rem@) =~= all.subrange(0, i + 1));
        i += 1;
    }
    assert(all.subrange(0, n as int) =~= all);
    let ghost total0 = total;
    let mut order: Vec<usize> = Vec::new();
    assert(places(order@) =~= Seq::<int>::empty());
    while total > max_bytes as u128 && rem.len() > 0
        invariant
            n == files.len(),
            all == all_places(n as nat),
            total0 == sum_at(files@, all),
            total == sum_at(files@, places(rem@)),
            forall|j: int| 0 <= j < rem.len() ==> (#[trigger] rem[j]) < n,
            forall|j: int| 0 <= j < order.len() ==> (#[trigger] order[j]) < n,
            order.len() + rem.len() == n,
            sum_at(files@, places(order@)) + total == total0,
            places(order@) + removal_order(files@, places(rem@), max_bytes as nat)
                == removal_order(files@, all, max_bytes as nat),
        decreases rem.len(),
    {
        let ghost at = places(rem@);
        let mut k: usize = 0;
        let mut j: usize = 1;
        assert(at.subrange(0, 1).len() == 1);
        while j < rem.len()
            invariant
                1 <= j <= rem.len(),
                k < j,
                n == files.len(),
                at == places(rem@),
                forall|x: int| 0 <= x < rem.len() ==> (#[trigger] rem[x]) < n,
                k == oldest_of(files@, at.subrange(0, j as int)),
            decreases rem.len() - j,
        {
            proof {
                let next = at.subrange(0, j + 1);
                assert(next.drop_last() =~= at.subrange(0, j as int));
                assert(next.last() == rem[j as int]);
                assert(next[k as int] == rem[k as int]);
            }
            if files[rem[j]].modified_ns < files[rem[k]].modified_ns {
                k = j;
            }
            j += 1;
        }
        assert(at.subrange(0, rem.len() as int) =~= at);
        let gone = rem.remove(k);
        proof {
            lemma_sum_remove(files@, at, k as int);
            assert(places(rem@) =~= at.remove(k as int));
            assert(at[k as int] == gone);
        }
        let ghost before = places(order@);
        total = total - files[gone].size as u128;
        order.push(gone);
        proof {
            assert(places(order@) =~= before.push(gone as int));
            assert(places(order@).drop_last() =~= before);
            assert(before.push(gone as int) + removal_order(
                files@,
                at.remove(k as int),
                max_bytes as nat,
            ) =~= before + removal_order(files@, at, max_bytes as nat));
        }
    }
    proof {
        let at = places(rem@);
        if at.len() > 0 {
            lemma_oldest_in_range(files@, at);
        }
        assert(removal_order(files@, at, max_bytes as nat) =~= Seq::<int>::empty());
        assert(places(order@) + Seq::<int>::empty() =~= places(order@));
    }
    order
}

} // verus!
