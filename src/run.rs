//! A whole run over a listing: split, deduplicate each range, merge.
use vstd::prelude::*;
use crate::fingerprint::{digest_of, distinct_digests, file_with, is_file, Entry, Winner};
use crate::merge::{
    all_winners, concat_winners, deletion_from, first_in, indices_distinct, kept_first,
    lemma_outcome_parts, merge_outcome, merge_winners, survivor_from, views, MergeResult,
};
use crate::partition::{in_range, lemma_ranges_contiguous, partition, range_end, range_start};
use crate::worker::{copy_bytes, dedup_partition, digests_kept, last_within, range_outcome, PartitionResult};

verus! {

/// What a run leaves: the surviving files, one per fingerprint, and every
/// file it deleted, first those deleted by the workers, then those deleted
/// by the merge.
pub struct RunResult {
    pub survivors: Vec<Winner>,
    pub deletions: Vec<usize>,
}

/// Whether `survivors` and `deletions` are what a run over listing `s` may
/// leave: each survivor is a file of `s` with its fingerprint, no two
/// survivors share a fingerprint, every fingerprint of a file of `s` has a
/// survivor, each file of `s` is either a survivor or deleted, and only
/// files that do not survive are deleted, each once. Directories and
/// unreadable files are neither kept nor deleted.
pub open spec fn is_dedup_outcome(s: Seq<Entry>, survivors: Seq<Winner>, deletions: Seq<usize>) -> bool {
    &&& forall|t: int|
        0 <= t < survivors.len() ==> file_with(s, #[trigger] survivors[t].index as int, survivors[t].digest@)
    &&& distinct_digests(survivors)
    &&& forall|k: int|
        #![trigger is_file(s, k)]
        is_file(s, k) ==> exists|t: int|
            0 <= t < survivors.len() && Some(#[trigger] survivors[t].digest@) == digest_of(s[k])
    &&& forall|t: int|
        0 <= t < deletions.len() ==> is_file(s, #[trigger] deletions[t] as int)
    &&& forall|t: int, t2: int|
        0 <= t < deletions.len() && 0 <= t2 < survivors.len() ==> #[trigger] deletions[t]
            != #[trigger] survivors[t2].index
    &&& forall|k: int|
        #![trigger is_file(s, k)]
        is_file(s, k) ==> (exists|t: int| 0 <= t < survivors.len() && #[trigger] survivors[t].index == k)
            || (exists|t: int| 0 <= t < deletions.len() && #[trigger] deletions[t] == k)
    &&& deletions.no_duplicates()
}

/// Whether the file at `k`, with fingerprint `d`, is the one a run with `w`
/// workers keeps for `d`: it lies in the first range that holds a file with
/// fingerprint `d`, and it is the last such file of that range.
pub open spec fn chosen_survivor(s: Seq<Entry>, n: nat, w: nat, k: int, d: Seq<u8>) -> bool {
    exists|i: nat|
        #![trigger in_range(n, w, i, k)]
        i < w && in_range(n, w, i, k) && (forall|k2: int|
            k < k2 < range_end(n, w, i) ==> !#[trigger] file_with(s, k2, d)) && (forall|k2: int|
            0 <= k2 < range_start(n, w, i) ==> !#[trigger] file_with(s, k2, d))
}

/// Whether winner `j` of `f` lies in one of the `w` ranges, is the last file
/// of its fingerprint there, and, when no earlier winner has its fingerprint,
/// no earlier range holds a file with it.
pub open spec fn placed(s: Seq<Entry>, n: nat, w: nat, f: Seq<(Seq<u8>, usize)>, j: int) -> bool {
    exists|i: nat|
        #![trigger in_range(n, w, i, f[j].1 as int)]
        i < w && in_range(n, w, i, f[j].1 as int) && (forall|k2: int|
            f[j].1 < k2 < range_end(n, w, i) ==> !#[trigger] file_with(s, k2, f[j].0)) && (first_in(f, j)
            ==> forall|k2: int| 0 <= k2 < range_start(n, w, i) ==> !#[trigger] file_with(s, k2, f[j].0))
}

/// What the workers have left after going through `s[0..hi)`: the winners
/// `f`, in worker order, and the deletions `d`.
pub open spec fn workers_outcome(s: Seq<Entry>, hi: int, f: Seq<(Seq<u8>, usize)>, d: Seq<usize>) -> bool {
    &&& forall|j: int| #![trigger f[j]] 0 <= j < f.len() ==> file_with(s, f[j].1 as int, f[j].0) && f[j].1 < hi
    &&& indices_distinct(f)
    &&& forall|k: int|
        #![trigger is_file(s, k)]
        is_file(s, k) && k < hi ==> (exists|j: int| 0 <= j < f.len() && #[trigger] f[j].1 == k)
            || (exists|t: int| 0 <= t < d.len() && #[trigger] d[t] == k)
    &&& forall|t: int| 0 <= t < d.len() ==> is_file(s, #[trigger] d[t] as int) && d[t] < hi
    &&& forall|t: int, j: int| 0 <= t < d.len() && 0 <= j < f.len() ==> #[trigger] d[t] != #[trigger] f[j].1
    &&& d.no_duplicates()
    &&& forall|k: int|
        #![trigger is_file(s, k)]
        is_file(s, k) && k < hi ==> exists|j: int| 0 <= j < f.len() && Some(#[trigger] f[j].0) == digest_of(s[k])
}

/// A copy of an entry.
pub fn copy_entry(e: &Entry) -> (r: Entry)
    ensures
        digest_of(r) == digest_of(*e),
{
    match e {
        Entry::Directory => Entry::Directory,
        Entry::Unreadable => Entry::Unreadable,
        Entry::File(d) => Entry::File(copy_bytes(d)),
    }
}

/// The entries `listing[lo..hi)`.
pub fn slice_of(listing: &Vec<Entry>, lo: usize, hi: usize) -> (r: Vec<Entry>)
    requires
        lo <= hi <= listing.len(),
    ensures
        r.len() == hi - lo,
        forall|k: int| 0 <= k < r.len() ==> digest_of(#[trigger] r@[k]) == digest_of(listing@[lo + k]),
{
    let mut r: Vec<Entry> = Vec::new();
    let mut i: usize = lo;
    while i < hi
        invariant
            lo <= i <= hi <= listing.len(),
            r.len() == i - lo,
            forall|k: int| 0 <= k < r.len() ==> digest_of(#[trigger] r@[k]) == digest_of(listing@[lo + k]),
        decreases hi - i,
    {
        r.push(copy_entry(&listing[i]));
        i = i + 1;
    }
    r
}

/// Runs the deduplication over a listing with `workers` workers: each worker
/// deduplicates its own range, keeping the last file of each fingerprint, and
/// the merge then keeps, for each fingerprint, the winner of the lowest worker.
pub fn dedup_listing(listing: &Vec<Entry>, workers: usize) -> (r: RunResult)
    requires
        workers >= 1,
    ensures
        is_dedup_outcome(listing@, r.survivors@, r.deletions@),
        forall|t: int|
            0 <= t < r.survivors.len() ==> chosen_survivor(
                listing@,
                listing.len() as nat,
                workers as nat,
                #[trigger] r.survivors@[t].index as int,
                r.survivors@[t].digest@,
            ),
{
    let ghost s = listing@;
    let ghost n = listing.len() as nat;
    let ghost wn = workers as nat;
    let ranges = partition(listing.len(), workers);
    let mut results: Vec<PartitionResult> = Vec::new();
    let mut deletions: Vec<usize> = Vec::new();
    let mut w: usize = 0;
    proof {
        lemma_ranges_contiguous(n, wn);
        assert(all_winners(results@) =~= Seq::empty());
    }
    while w < workers
        invariant
            s == listing@,
            n == listing.len(),
            wn == workers,
            w <= workers,
            ranges.len() == workers,
            forall|i: int|
                0 <= i < workers ==> #[trigger] ranges@[i] == (
                    range_start(n, wn, i as nat) as usize,
                    range_end(n, wn, i as nat) as usize,
                ),
            forall|i: nat| i < wn ==> #[trigger] range_start(n, wn, i) <= range_end(n, wn, i) <= n,
            range_start(n, wn, 0) == 0,
            workers_outcome(s, range_start(n, wn, w as nat) as int, all_winners(results@), deletions@),
            forall|j: int| 0 <= j < all_winners(results@).len() ==> #[trigger] placed(s, n, wn, all_winners(results@), j),
        decreases workers - w,
    {
        let (lo, hi) = ranges[w];
        assert(range_start(n, wn, w as nat) <= range_end(n, wn, w as nat));
        let slice = slice_of(listing, lo, hi);
        let part = dedup_partition(lo, &slice);
        let ghost d0 = deletions@;
        let mut j: usize = 0;
        while j < part.deletions.len()
            invariant
                j <= part.deletions.len(),
                deletions@ == d0 + part.deletions@.take(j as int),
            decreases part.deletions.len() - j,
        {
            deletions.push(part.deletions[j]);
            j = j + 1;
            assert(deletions@ =~= d0 + part.deletions@.take(j as int));
        }
        proof {
            assert(part.deletions@.take(j as int) =~= part.deletions@);
            lemma_append_range(s, lo as int, hi as int, all_winners(results@), d0, slice@, part.winners@, part.deletions@);
            lemma_append_placed(s, n, wn, w as nat, all_winners(results@), d0, slice@, part.winners@, part.deletions@);
        }
        let ghost before = results@;
        results.push(part);
        proof {
            assert(results@.drop_last() =~= before);
        }
        w = w + 1;
    }
    let flat = concat_winners(&results);
    let merged: MergeResult = merge_winners(&flat);
    let MergeResult { survivors, deletions: merge_deletions } = merged;
    let ghost d0 = deletions@;
    let mut j: usize = 0;
    while j < merge_deletions.len()
        invariant
            j <= merge_deletions.len(),
            deletions@ == d0 + merge_deletions@.take(j as int),
        decreases merge_deletions.len() - j,
    {
        deletions.push(merge_deletions[j]);
        j = j + 1;
        assert(deletions@ =~= d0 + merge_deletions@.take(j as int));
    }
    proof {
        assert(merge_deletions@.take(j as int) =~= merge_deletions@);
        lemma_finish(s, views(flat@), d0, survivors@, merge_deletions@, n, wn);
    }
    RunResult { survivors, deletions }
}

proof fn lemma_append_range(
    s: Seq<Entry>,
    lo: int,
    hi: int,
    f: Seq<(Seq<u8>, usize)>,
    d: Seq<usize>,
    slice: Seq<Entry>,
    winners: Seq<Winner>,
    dels: Seq<usize>,
)
    requires
        0 <= lo <= hi <= s.len(),
        workers_outcome(s, lo, f, d),
        slice.len() == hi - lo,
        forall|k: int| 0 <= k < slice.len() ==> digest_of(#[trigger] slice[k]) == digest_of(s[lo + k]),
        range_outcome(slice, lo, hi - lo, winners, dels),
        digests_kept(slice, hi - lo, winners),
    ensures
        workers_outcome(s, hi, f + views(winners), d + dels),
{
    let f2 = f + views(winners);
    let d2 = d + dels;
    let n = f.len() as int;
    let m = d.len() as int;
    assert forall|k: int| lo <= k < hi implies (is_file(s, k) <==> #[trigger] is_file(slice, k - lo)) by {
        assert(digest_of(slice[k - lo]) == digest_of(s[lo + (k - lo)]));
    }
    assert forall|t: int| 0 <= t < winners.len() implies {
        &&& file_with(s, #[trigger] winners[t].index as int, winners[t].digest@)
        &&& lo <= winners[t].index < hi
        &&& last_within(slice, winners[t].index - lo, hi - lo)
    } by {
        let k = winners[t].index - lo;
        assert(last_within(slice, k, hi - lo));
        assert(file_with(slice, k, winners[t].digest@));
        assert(digest_of(slice[k]) == digest_of(s[lo + k]));
    }
    assert forall|j: int| #![trigger f2[j]] 0 <= j < f2.len() implies file_with(s, f2[j].1 as int, f2[j].0) && f2[j].1 < hi by {
        if j < n {
            assert(f2[j] == f[j]);
            assert(file_with(s, f[j].1 as int, f[j].0));
        } else {
            assert(f2[j] == winners[j - n]@);
            assert(file_with(s, winners[j - n].index as int, winners[j - n].digest@));
        }
    }
    assert(indices_distinct(f2)) by {
        assert forall|a: int, b: int| 0 <= a < f2.len() && 0 <= b < f2.len() && a != b implies #[trigger] f2[a].1 != #[trigger] f2[b].1 by {
            if a < n && b < n {
                assert(f2[a] == f[a] && f2[b] == f[b]);
                assert(f[a].1 != f[b].1);
            } else if a < n {
                assert(f2[a] == f[a] && f2[b] == winners[b - n]@);
                assert(file_with(s, f[a].1 as int, f[a].0) && f[a].1 < lo);
                assert(file_with(s, winners[b - n].index as int, winners[b - n].digest@));
            } else if b < n {
                assert(f2[b] == f[b] && f2[a] == winners[a - n]@);
                assert(file_with(s, f[b].1 as int, f[b].0) && f[b].1 < lo);
                assert(file_with(s, winners[a - n].index as int, winners[a - n].digest@));
            } else {
                assert(f2[a] == winners[a - n]@ && f2[b] == winners[b - n]@);
                assert(file_with(s, winners[a - n].index as int, winners[a - n].digest@));
                assert(file_with(s, winners[b - n].index as int, winners[b - n].digest@));
                assert(winners[a - n].digest@ != winners[b - n].digest@);
            }
        }
    }
    assert forall|t: int| 0 <= t < dels.len() implies is_file(s, #[trigger] dels[t] as int) && lo <= dels[t] < hi
        && !last_within(slice, dels[t] - lo, hi - lo) by {
        let k = dels[t] - lo;
        assert(is_file(slice, k));
        assert(digest_of(slice[k]) == digest_of(s[lo + k]));
    }
    assert forall|t: int| 0 <= t < d2.len() implies is_file(s, #[trigger] d2[t] as int) && d2[t] < hi by {
        if t < m {
            assert(d2[t] == d[t]);
            assert(is_file(s, d[t] as int) && d[t] < lo);
        } else {
            assert(d2[t] == dels[t - m]);
            assert(is_file(s, dels[t - m] as int) && lo <= dels[t - m] < hi);
        }
    }
    assert forall|t: int, j: int| 0 <= t < d2.len() && 0 <= j < f2.len() implies #[trigger] d2[t] != #[trigger] f2[j].1 by {
        if t < m {
            assert(d2[t] == d[t]);
            assert(is_file(s, d[t] as int) && d[t] < lo);
            if j < n {
                assert(f2[j] == f[j]);
                assert(d[t] != f[j].1);
            } else {
                assert(f2[j] == winners[j - n]@);
                assert(file_with(s, winners[j - n].index as int, winners[j - n].digest@));
            }
        } else {
            assert(d2[t] == dels[t - m]);
            assert(is_file(s, dels[t - m] as int) && lo <= dels[t - m] < hi);
            if j < n {
                assert(f2[j] == f[j]);
                assert(file_with(s, f[j].1 as int, f[j].0) && f[j].1 < lo);
            } else {
                assert(f2[j] == winners[j - n]@);
                assert(file_with(s, winners[j - n].index as int, winners[j - n].digest@));
                assert(!last_within(slice, dels[t - m] - lo, hi - lo));
                assert(last_within(slice, winners[j - n].index - lo, hi - lo));
            }
        }
    }
    assert(d2.no_duplicates()) by {
        assert forall|a: int, b: int| 0 <= a < d2.len() && 0 <= b < d2.len() && a != b implies d2[a] != d2[b] by {
            if a < m && b < m {
                assert(d2[a] == d[a] && d2[b] == d[b]);
            } else if a < m {
                assert(d2[a] == d[a] && d2[b] == dels[b - m]);
                assert(is_file(s, d[a] as int) && d[a] < lo);
                assert(is_file(s, dels[b - m] as int) && lo <= dels[b - m] < hi);
            } else if b < m {
                assert(d2[b] == d[b] && d2[a] == dels[a - m]);
                assert(is_file(s, d[b] as int) && d[b] < lo);
                assert(is_file(s, dels[a - m] as int) && lo <= dels[a - m] < hi);
            } else {
                assert(d2[a] == dels[a - m] && d2[b] == dels[b - m]);
            }
        }
    }
    assert forall|k: int|
        #![trigger is_file(s, k)]
        is_file(s, k) && k < hi implies (exists|j: int| 0 <= j < f2.len() && #[trigger] f2[j].1 == k)
            || (exists|t: int| 0 <= t < d2.len() && #[trigger] d2[t] == k) by {
        if k < lo {
            if exists|j: int| 0 <= j < f.len() && #[trigger] f[j].1 == k {
                let j = choose|j: int| 0 <= j < f.len() && #[trigger] f[j].1 == k;
                assert(f2[j] == f[j]);
            } else {
                let t = choose|t: int| 0 <= t < d.len() && #[trigger] d[t] == k;
                assert(d2[t] == d[t]);
            }
        } else {
            let q = k - lo;
            assert(is_file(slice, q));
            if last_within(slice, q, hi - lo) {
                let t = choose|t: int| 0 <= t < winners.len() && #[trigger] winners[t].index == lo + q;
                assert(f2[n + t] == winners[t]@);
                assert(f2[n + t].1 == k);
            } else {
                let t = choose|t: int| 0 <= t < dels.len() && #[trigger] dels[t] == lo + q;
                assert(d2[m + t] == dels[t]);
            }
        }
    }
    assert forall|k: int|
        #![trigger is_file(s, k)]
        is_file(s, k) && k < hi implies exists|j: int| 0 <= j < f2.len() && Some(#[trigger] f2[j].0) == digest_of(s[k]) by {
        if k < lo {
            let j = choose|j: int| 0 <= j < f.len() && Some(#[trigger] f[j].0) == digest_of(s[k]);
            assert(f2[j] == f[j]);
        } else {
            let q = k - lo;
            assert(is_file(slice, q));
            assert(digest_of(slice[q]) == digest_of(s[lo + q]));
            let t = choose|t: int| 0 <= t < winners.len() && Some(#[trigger] winners[t].digest@) == digest_of(slice[q]);
            assert(f2[n + t] == winners[t]@);
        }
    }
}

proof fn lemma_append_placed(
    s: Seq<Entry>,
    n: nat,
    w: nat,
    i: nat,
    f: Seq<(Seq<u8>, usize)>,
    d: Seq<usize>,
    slice: Seq<Entry>,
    winners: Seq<Winner>,
    dels: Seq<usize>,
)
    requires
        i < w,
        n == s.len(),
        range_start(n, w, i) <= range_end(n, w, i) <= n,
        workers_outcome(s, range_start(n, w, i) as int, f, d),
        forall|j: int| 0 <= j < f.len() ==> #[trigger] placed(s, n, w, f, j),
        slice.len() == range_end(n, w, i) - range_start(n, w, i),
        forall|k: int| 0 <= k < slice.len() ==> digest_of(#[trigger] slice[k]) == digest_of(s[range_start(n, w, i) + k]),
        range_outcome(slice, range_start(n, w, i) as int, slice.len() as int, winners, dels),
    ensures
        forall|j: int| 0 <= j < (f + views(winners)).len() ==> #[trigger] placed(s, n, w, f + views(winners), j),
{
    let lo = range_start(n, w, i) as int;
    let hi = range_end(n, w, i) as int;
    let f2 = f + views(winners);
    let m = f.len() as int;
    assert forall|j: int| 0 <= j < f2.len() implies #[trigger] placed(s, n, w, f2, j) by {
        if j < m {
            assert(f2[j] == f[j]);
            assert(placed(s, n, w, f, j));
            let i2 = choose|i2: nat|
                #![trigger in_range(n, w, i2, f[j].1 as int)]
                i2 < w && in_range(n, w, i2, f[j].1 as int) && (forall|k2: int|
                    f[j].1 < k2 < range_end(n, w, i2) ==> !#[trigger] file_with(s, k2, f[j].0)) && (first_in(f, j)
                    ==> forall|k2: int| 0 <= k2 < range_start(n, w, i2) ==> !#[trigger] file_with(s, k2, f[j].0));
            if first_in(f2, j) {
                assert forall|j2: int| 0 <= j2 < j implies #[trigger] f[j2].0 != f[j].0 by {
                    assert(f2[j2] == f[j2]);
                }
                assert(first_in(f, j));
            }
            assert(in_range(n, w, i2, f2[j].1 as int));
        } else {
            let t = j - m;
            assert(f2[j] == winners[t]@);
            let k = winners[t].index as int;
            let dg = winners[t].digest@;
            let q = k - lo;
            assert(last_within(slice, q, hi - lo));
            assert(file_with(slice, q, dg));
            assert forall|k2: int| k < k2 < hi implies !#[trigger] file_with(s, k2, dg) by {
                assert(digest_of(slice[k2 - lo]) != digest_of(slice[q]));
                assert(digest_of(slice[k2 - lo]) == digest_of(s[lo + (k2 - lo)]));
            }
            if first_in(f2, j) {
                assert forall|k2: int| 0 <= k2 < lo implies !#[trigger] file_with(s, k2, dg) by {
                    if file_with(s, k2, dg) {
                        assert(is_file(s, k2));
                        let j2 = choose|j2: int| 0 <= j2 < f.len() && Some(#[trigger] f[j2].0) == digest_of(s[k2]);
                        assert(f2[j2] == f[j2]);
                        assert(f2[j2].0 != f2[j].0);
                    }
                }
            }
            assert(in_range(n, w, i, f2[j].1 as int));
        }
    }
}

proof fn lemma_finish(
    s: Seq<Entry>,
    f: Seq<(Seq<u8>, usize)>,
    d: Seq<usize>,
    survivors: Seq<Winner>,
    md: Seq<usize>,
    n: nat,
    w: nat,
)
    requires
        workers_outcome(s, s.len() as int, f, d),
        merge_outcome(f, f.len() as int, survivors, md),
        forall|j: int| 0 <= j < f.len() ==> #[trigger] placed(s, n, w, f, j),
    ensures
        is_dedup_outcome(s, survivors, d + md),
        forall|t: int|
            0 <= t < survivors.len() ==> chosen_survivor(s, n, w, #[trigger] survivors[t].index as int, survivors[t].digest@),
{
    lemma_outcome_parts(f, f.len() as int, survivors, md);
    assert(f.take(f.len() as int) =~= f);
    let d2 = d + md;
    let m = d.len() as int;
    assert forall|t: int| 0 <= t < survivors.len() implies file_with(s, #[trigger] survivors[t].index as int, survivors[t].digest@)
        && chosen_survivor(s, n, w, survivors[t].index as int, survivors[t].digest@) by {
        assert(survivor_from(f, f.len() as int, survivors, t));
        let j = choose|j: int| #![trigger f[j]] 0 <= j < f.len() && first_in(f, j) && survivors[t]@ == f[j];
        assert(file_with(s, f[j].1 as int, f[j].0));
        assert(placed(s, n, w, f, j));
        let i2 = choose|i2: nat|
            #![trigger in_range(n, w, i2, f[j].1 as int)]
            i2 < w && in_range(n, w, i2, f[j].1 as int) && (forall|k2: int|
                f[j].1 < k2 < range_end(n, w, i2) ==> !#[trigger] file_with(s, k2, f[j].0)) && (first_in(f, j)
                ==> forall|k2: int| 0 <= k2 < range_start(n, w, i2) ==> !#[trigger] file_with(s, k2, f[j].0));
        assert(in_range(n, w, i2, survivors[t].index as int));
    }
    assert forall|k: int|
        #![trigger is_file(s, k)]
        is_file(s, k) implies exists|t: int|
            0 <= t < survivors.len() && Some(#[trigger] survivors[t].digest@) == digest_of(s[k]) by {
        let j = choose|j: int| 0 <= j < f.len() && Some(#[trigger] f[j].0) == digest_of(s[k]);
        let t = choose|t: int| 0 <= t < survivors.len() && #[trigger] survivors[t].digest@ == #[trigger] f[j].0;
    }
    assert forall|t: int| 0 <= t < md.len() implies {
        &&& is_file(s, #[trigger] md[t] as int)
        &&& exists|j: int| 0 <= j < f.len() && !first_in(f, j) && md[t] == #[trigger] f[j].1
    } by {
        assert(deletion_from(f, f.len() as int, md, t));
        let j = choose|j: int| #![trigger f[j]] 0 <= j < f.len() && !first_in(f, j) && md[t] == f[j].1;
        assert(file_with(s, f[j].1 as int, f[j].0));
    }
    assert forall|t: int| 0 <= t < d2.len() implies is_file(s, #[trigger] d2[t] as int) by {
        if t < m {
            assert(d2[t] == d[t]);
        } else {
            assert(d2[t] == md[t - m]);
        }
    }
    assert forall|t: int, t2: int|
        0 <= t < d2.len() && 0 <= t2 < survivors.len() implies #[trigger] d2[t] != #[trigger] survivors[t2].index by {
        assert(survivor_from(f, f.len() as int, survivors, t2));
        let j2 = choose|j: int| #![trigger f[j]] 0 <= j < f.len() && first_in(f, j) && survivors[t2]@ == f[j];
        if t < m {
            assert(d2[t] == d[t]);
            assert(d[t] != f[j2].1);
        } else {
            assert(d2[t] == md[t - m]);
            let j = choose|j: int| 0 <= j < f.len() && !first_in(f, j) && md[t - m] == #[trigger] f[j].1;
            assert(j != j2);
        }
    }
    assert forall|k: int|
        #![trigger is_file(s, k)]
        is_file(s, k) implies (exists|t: int| 0 <= t < survivors.len() && #[trigger] survivors[t].index == k)
            || (exists|t: int| 0 <= t < d2.len() && #[trigger] d2[t] == k) by {
        if exists|j: int| 0 <= j < f.len() && #[trigger] f[j].1 == k {
            let j = choose|j: int| 0 <= j < f.len() && #[trigger] f[j].1 == k;
            if kept_first(f, j) {
                let t = choose|t: int| 0 <= t < survivors.len() && #[trigger] survivors[t]@ == f[j];
                assert(survivors[t].index == k);
            } else {
                let t = choose|t: int| 0 <= t < md.len() && #[trigger] md[t] == f[j].1;
                assert(d2[m + t] == md[t]);
            }
        } else {
            let t = choose|t: int| 0 <= t < d.len() && #[trigger] d[t] == k;
            assert(d2[t] == d[t]);
        }
    }
    assert(d2.no_duplicates()) by {
        assert forall|a: int, b: int| 0 <= a < d2.len() && 0 <= b < d2.len() && a != b implies d2[a] != d2[b] by {
            if a < m && b < m {
                assert(d2[a] == d[a] && d2[b] == d[b]);
            } else if a < m {
                assert(d2[a] == d[a] && d2[b] == md[b - m]);
                let j = choose|j: int| 0 <= j < f.len() && !first_in(f, j) && md[b - m] == #[trigger] f[j].1;
                assert(d[a] != f[j].1);
            } else if b < m {
                assert(d2[b] == d[b] && d2[a] == md[a - m]);
                let j = choose|j: int| 0 <= j < f.len() && !first_in(f, j) && md[a - m] == #[trigger] f[j].1;
                assert(d[b] != f[j].1);
            } else {
                assert(d2[a] == md[a - m] && d2[b] == md[b - m]);
            }
        }
    }
}

/// The indices of the files of `s`.
pub open spec fn file_indices(s: Seq<Entry>) -> Set<int> {
    Set::new(|k: int| is_file(s, k))
}

/// The fingerprints of the files of `s`.
pub open spec fn file_digests(s: Seq<Entry>) -> Set<Seq<u8>> {
    Set::new(|d: Seq<u8>| exists|k: int| file_with(s, k, d))
}

/// A run keeps one file per distinct fingerprint among the files of the
/// listing, and every file is either kept or deleted: so the files that
/// remain number exactly the distinct fingerprints, which is at most the
/// number of files there were.
pub proof fn lemma_conservation(s: Seq<Entry>, survivors: Seq<Winner>, deletions: Seq<usize>)
    requires
        is_dedup_outcome(s, survivors, deletions),
    ensures
        file_digests(s).finite(),
        file_indices(s).finite(),
        survivors.len() == file_digests(s).len(),
        survivors.len() + deletions.len() == file_indices(s).len(),
        survivors.len() <= file_indices(s).len(),
{
    broadcast use vstd::seq_lib::seq_to_set_is_finite;
    let sd = survivors.map_values(|w: Winner| w.digest@);
    assert(sd.no_duplicates()) by {
        assert forall|a: int, b: int| 0 <= a < sd.len() && 0 <= b < sd.len() && a != b implies sd[a] != sd[b] by {
            assert(survivors[a].digest@ != survivors[b].digest@);
        }
    }
    sd.unique_seq_to_set();
    assert(sd.to_set() =~= file_digests(s)) by {
        assert forall|d: Seq<u8>| sd.to_set().contains(d) implies file_digests(s).contains(d) by {
            let t = choose|t: int| 0 <= t < sd.len() && sd[t] == d;
            assert(file_with(s, survivors[t].index as int, survivors[t].digest@));
        }
        assert forall|d: Seq<u8>| file_digests(s).contains(d) implies sd.to_set().contains(d) by {
            let k = choose|k: int| file_with(s, k, d);
            assert(is_file(s, k));
            let t = choose|t: int| 0 <= t < survivors.len() && Some(#[trigger] survivors[t].digest@) == digest_of(s[k]);
            assert(sd[t] == d);
        }
    }
    let si = survivors.map_values(|w: Winner| w.index as int);
    let di = deletions.map_values(|x: usize| x as int);
    assert(si.no_duplicates()) by {
        assert forall|a: int, b: int| 0 <= a < si.len() && 0 <= b < si.len() && a != b implies si[a] != si[b] by {
            assert(file_with(s, survivors[a].index as int, survivors[a].digest@));
            assert(file_with(s, survivors[b].index as int, survivors[b].digest@));
            assert(survivors[a].digest@ != survivors[b].digest@);
        }
    }
    assert(di.no_duplicates()) by {
        assert forall|a: int, b: int| 0 <= a < di.len() && 0 <= b < di.len() && a != b implies di[a] != di[b] by {
            assert(deletions[a] != deletions[b]);
        }
    }
    si.unique_seq_to_set();
    di.unique_seq_to_set();
    assert(si.to_set().disjoint(di.to_set())) by {
        assert forall|k: int| si.to_set().contains(k) implies !di.to_set().contains(k) by {
            let t2 = choose|t2: int| 0 <= t2 < si.len() && si[t2] == k;
            if di.to_set().contains(k) {
                let t = choose|t: int| 0 <= t < di.len() && di[t] == k;
                assert(deletions[t] != survivors[t2].index);
            }
        }
    }
    assert(si.to_set() + di.to_set() =~= file_indices(s)) by {
        assert forall|k: int| (si.to_set() + di.to_set()).contains(k) implies file_indices(s).contains(k) by {
            if si.to_set().contains(k) {
                let t = choose|t: int| 0 <= t < si.len() && si[t] == k;
                assert(file_with(s, survivors[t].index as int, survivors[t].digest@));
            } else {
                let t = choose|t: int| 0 <= t < di.len() && di[t] == k;
                assert(is_file(s, deletions[t] as int));
            }
        }
        assert forall|k: int| file_indices(s).contains(k) implies (si.to_set() + di.to_set()).contains(k) by {
            assert(is_file(s, k));
            if exists|t: int| 0 <= t < survivors.len() && #[trigger] survivors[t].index == k {
                let t = choose|t: int| 0 <= t < survivors.len() && #[trigger] survivors[t].index == k;
                assert(si[t] == k);
            } else {
                let t = choose|t: int| 0 <= t < deletions.len() && #[trigger] deletions[t] == k;
                assert(di[t] == k);
            }
        }
    }
    vstd::set_lib::lemma_set_disjoint_lens(si.to_set(), di.to_set());
}

/// Whether index `k` is among `deletions`.
pub open spec fn deleted(deletions: Seq<usize>, k: int) -> bool {
    exists|t: int| 0 <= t < deletions.len() && deletions[t] == k
}

/// The listing that remains of `s` once the files at `deletions` are gone,
/// in the order of `s`.
pub open spec fn remaining(s: Seq<Entry>, deletions: Seq<usize>) -> Seq<Entry>
    decreases s.len(),
{
    if s.len() == 0 {
        Seq::empty()
    } else {
        let rest = remaining(s.drop_last(), deletions);
        if deleted(deletions, s.len() - 1) {
            rest
        } else {
            rest.push(s.last())
        }
    }
}

/// The indices of the files of `s` that are not among `deletions`.
pub open spec fn kept_files(s: Seq<Entry>, deletions: Seq<usize>) -> Set<int> {
    Set::new(|k: int| is_file(s, k) && !deleted(deletions, k))
}

/// The fingerprints of the files of `s` that are not among `deletions`.
pub open spec fn kept_digests(s: Seq<Entry>, deletions: Seq<usize>) -> Set<Seq<u8>> {
    Set::new(|d: Seq<u8>| exists|k: int| file_with(s, k, d) && !deleted(deletions, k))
}

proof fn lemma_remaining(s: Seq<Entry>, deletions: Seq<usize>)
    ensures
        file_indices(remaining(s, deletions)).finite(),
        kept_files(s, deletions).finite(),
        file_indices(remaining(s, deletions)).len() == kept_files(s, deletions).len(),
        file_digests(remaining(s, deletions)) == kept_digests(s, deletions),
    decreases s.len(),
{
    let r = remaining(s, deletions);
    if s.len() == 0 {
        assert(file_indices(r) =~= Set::empty());
        assert(kept_files(s, deletions) =~= Set::empty());
        assert(file_digests(r) =~= kept_digests(s, deletions));
    } else {
        let p = s.drop_last();
        let rp = remaining(p, deletions);
        let last = s.len() - 1;
        lemma_remaining(p, deletions);
        assert forall|k: int| 0 <= k < last implies #[trigger] is_file(s, k) == is_file(p, k) by {
            assert(s[k] == p[k]);
        }
        assert forall|k: int, d: Seq<u8>| 0 <= k < last implies #[trigger] file_with(s, k, d) == file_with(p, k, d) by {
            assert(s[k] == p[k]);
        }
        if is_file(s, last) && !deleted(deletions, last) {
            assert(kept_files(s, deletions) =~= kept_files(p, deletions).insert(last));
            assert(!kept_files(p, deletions).contains(last));
            assert(r == rp.push(s.last()));
            assert forall|k: int| 0 <= k < rp.len() implies #[trigger] is_file(r, k) == is_file(rp, k) by {
                assert(r[k] == rp[k]);
            }
            assert(file_indices(r) =~= file_indices(rp).insert(rp.len() as int));
            assert(!file_indices(rp).contains(rp.len() as int));
            assert forall|d: Seq<u8>| #[trigger] file_digests(r).contains(d) == kept_digests(s, deletions).contains(d) by {
                if exists|k: int| file_with(r, k, d) {
                    let k = choose|k: int| file_with(r, k, d);
                    if k < rp.len() {
                        assert(r[k] == rp[k]);
                        assert(file_with(rp, k, d));
                        assert(file_digests(rp).contains(d));
                        let k2 = choose|k2: int| file_with(p, k2, d) && !deleted(deletions, k2);
                        assert(file_with(s, k2, d));
                    } else {
                        assert(file_with(s, last, d));
                    }
                }
                if exists|k: int| file_with(s, k, d) && !deleted(deletions, k) {
                    let k = choose|k: int| file_with(s, k, d) && !deleted(deletions, k);
                    if k < last {
                        assert(file_with(p, k, d));
                        assert(kept_digests(p, deletions).contains(d));
                    let k2 = choose|k2: int| file_with(rp, k2, d);
                        assert(r[k2] == rp[k2]);
                        assert(file_with(r, k2, d));
                    } else {
                        assert(file_with(r, rp.len() as int, d));
                    }
                }
            }
            assert(file_digests(r) =~= kept_digests(s, deletions));
        } else {
            assert(kept_files(s, deletions) =~= kept_files(p, deletions));
            if deleted(deletions, last) {
                assert(r == rp);
            } else {
                assert(r == rp.push(s.last()));
                assert forall|k: int| 0 <= k < rp.len() implies #[trigger] is_file(r, k) == is_file(rp, k) by {
                    assert(r[k] == rp[k]);
                }
                assert(file_indices(r) =~= file_indices(rp));
            }
            assert forall|d: Seq<u8>| #[trigger] file_digests(r).contains(d) == kept_digests(s, deletions).contains(d) by {
                if exists|k: int| file_with(r, k, d) {
                    let k = choose|k: int| file_with(r, k, d);
                    if k < rp.len() {
                        assert(r[k] == rp[k]);
                        assert(file_with(rp, k, d));
                        assert(file_digests(rp).contains(d));
                        let k2 = choose|k2: int| file_with(p, k2, d) && !deleted(deletions, k2);
                        assert(file_with(s, k2, d));
                    } else {
                        assert(r[k] == s.last());
                    }
                }
                if exists|k: int| file_with(s, k, d) && !deleted(deletions, k) {
                    let k = choose|k: int| file_with(s, k, d) && !deleted(deletions, k);
                    assert(k != last);
                    assert(file_with(p, k, d));
                    assert(kept_digests(p, deletions).contains(d));
                    let k2 = choose|k2: int| file_with(rp, k2, d);
                    assert(r[k2] == rp[k2]);
                    assert(file_with(r, k2, d));
                }
            }
            assert(file_digests(r) =~= kept_digests(s, deletions));
        }
    }
}

/// Running again on what a run leaves behind deletes nothing and keeps as
/// many files as the first run did.
pub proof fn lemma_idempotent(
    s: Seq<Entry>,
    survivors: Seq<Winner>,
    deletions: Seq<usize>,
    survivors2: Seq<Winner>,
    deletions2: Seq<usize>,
)
    requires
        is_dedup_outcome(s, survivors, deletions),
        is_dedup_outcome(remaining(s, deletions), survivors2, deletions2),
    ensures
        deletions2.len() == 0,
        survivors2.len() == survivors.len(),
{
    let r = remaining(s, deletions);
    lemma_conservation(s, survivors, deletions);
    lemma_conservation(r, survivors2, deletions2);
    lemma_remaining(s, deletions);
    assert(file_digests(r) =~= file_digests(s)) by {
        assert forall|d: Seq<u8>| file_digests(s).contains(d) implies file_digests(r).contains(d) by {
            let k = choose|k: int| file_with(s, k, d);
            assert(is_file(s, k));
            let t = choose|t: int| 0 <= t < survivors.len() && Some(#[trigger] survivors[t].digest@) == digest_of(s[k]);
            let ks = survivors[t].index as int;
            assert(file_with(s, ks, d));
            assert(!deleted(deletions, ks)) by {
                if deleted(deletions, ks) {
                    let t2 = choose|t2: int| 0 <= t2 < deletions.len() && deletions[t2] == ks;
                    assert(deletions[t2] != survivors[t].index);
                }
            }
        }
        assert forall|d: Seq<u8>| file_digests(r).contains(d) implies file_digests(s).contains(d) by {
            let k = choose|k: int| file_with(r, k, d);
        }
    }
    // the files that remain are the survivors of the first run
    let si = survivors.map_values(|w: Winner| w.index as int);
    assert(si.no_duplicates()) by {
        assert forall|a: int, b: int| 0 <= a < si.len() && 0 <= b < si.len() && a != b implies si[a] != si[b] by {
            assert(file_with(s, survivors[a].index as int, survivors[a].digest@));
            assert(file_with(s, survivors[b].index as int, survivors[b].digest@));
            assert(survivors[a].digest@ != survivors[b].digest@);
        }
    }
    si.unique_seq_to_set();
    assert(si.to_set() =~= kept_files(s, deletions)) by {
        assert forall|k: int| si.to_set().contains(k) implies kept_files(s, deletions).contains(k) by {
            let t = choose|t: int| 0 <= t < si.len() && si[t] == k;
            assert(file_with(s, survivors[t].index as int, survivors[t].digest@));
            if deleted(deletions, k) {
                let t2 = choose|t2: int| 0 <= t2 < deletions.len() && deletions[t2] == k;
                assert(deletions[t2] != survivors[t].index);
            }
        }
        assert forall|k: int| kept_files(s, deletions).contains(k) implies si.to_set().contains(k) by {
            assert(is_file(s, k));
            if exists|t: int| 0 <= t < survivors.len() && #[trigger] survivors[t].index == k {
                let t = choose|t: int| 0 <= t < survivors.len() && #[trigger] survivors[t].index == k;
                assert(si[t] == k);
            } else {
                let t = choose|t: int| 0 <= t < deletions.len() && #[trigger] deletions[t] == k;
                assert(deleted(deletions, k));
            }
        }
    }
}

} // verus!
