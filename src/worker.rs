//! The work of one worker: deduplication inside one range of the listing.
use vstd::prelude::*;
use crate::fingerprint::{bytes_equal, digest_of, distinct_digests, file_with, is_file, Entry, Winner};

verus! {

/// Whether index `k` is a file and no later index before `end` holds a file
/// with the same fingerprint: the file that the worker keeps for that fingerprint.
pub open spec fn last_within(s: Seq<Entry>, k: int, end: int) -> bool {
    &&& is_file(s, k)
    &&& k < end
    &&& forall|k2: int| k < k2 < end ==> #[trigger] digest_of(s[k2]) != digest_of(s[k])
}

/// What one worker leaves behind after going through `s[0..end)`, where `s[k]`
/// stands at index `start + k` of the listing: for each fingerprint the last
/// file that has it is kept, and every other file is deleted, once.
pub open spec fn range_outcome(
    s: Seq<Entry>,
    start: int,
    end: int,
    winners: Seq<Winner>,
    deletions: Seq<usize>,
) -> bool {
    &&& forall|t: int|
        0 <= t < winners.len() ==> {
            &&& last_within(s, #[trigger] winners[t].index - start, end)
            &&& file_with(s, winners[t].index - start, winners[t].digest@)
        }
    &&& distinct_digests(winners)
    &&& forall|k: int|
        #[trigger] last_within(s, k, end) ==> exists|t: int|
            0 <= t < winners.len() && #[trigger] winners[t].index == start + k
    &&& forall|t: int|
        0 <= t < deletions.len() ==> {
            &&& is_file(s, #[trigger] deletions[t] - start)
            &&& deletions[t] - start < end
            &&& !last_within(s, deletions[t] - start, end)
        }
    &&& forall|k: int|
        #![trigger is_file(s, k)]
        is_file(s, k) && k < end && !last_within(s, k, end) ==> exists|t: int|
            0 <= t < deletions.len() && #[trigger] deletions[t] == start + k
    &&& deletions.no_duplicates()
}

/// What a worker returns: the files it kept, and the files it deleted, in the
/// order in which it deleted them.
pub struct PartitionResult {
    pub winners: Vec<Winner>,
    pub deletions: Vec<usize>,
}

/// The position in `ws` of the winner with fingerprint `d`, if there is one.
pub fn find_digest(ws: &Vec<Winner>, d: &Vec<u8>) -> (r: Option<usize>)
    ensures
        r matches Some(p) ==> p < ws.len() && ws@[p as int].digest@ == d@,
        r is None ==> forall|q: int| 0 <= q < ws.len() ==> ws@[q].digest@ != d@,
{
    let mut p: usize = 0;
    while p < ws.len()
        invariant
            p <= ws.len(),
            forall|q: int| 0 <= q < p ==> ws@[q].digest@ != d@,
        decreases ws.len() - p,
    {
        if bytes_equal(&ws[p].digest, d) {
            return Some(p);
        }
        p = p + 1;
    }
    None
}

/// A copy of a byte string.
pub fn copy_bytes(b: &Vec<u8>) -> (r: Vec<u8>)
    ensures
        r@ == b@,
{
    let mut r: Vec<u8> = Vec::new();
    let mut i: usize = 0;
    while i < b.len()
        invariant
            i <= b.len(),
            r@ == b@.take(i as int),
        decreases b.len() - i,
    {
        r.push(b[i]);
        i = i + 1;
        assert(r@ =~= b@.take(i as int));
    }
    assert(b@.take(b.len() as int) =~= b@);
    r
}

/// Deduplicates the entries of one worker's range, where `slice[k]` is the
/// entry at index `start + k` of the listing. Entries are taken in index
/// order; directories and unreadable files are skipped. When a file's
/// fingerprint was kept already, the file kept so far is deleted and the new
/// one kept in its place, so the last file of each fingerprint survives.
pub fn dedup_partition(start: usize, slice: &Vec<Entry>) -> (r: PartitionResult)
    requires
        start + slice.len() <= usize::MAX,
    ensures
        range_outcome(slice@, start as int, slice.len() as int, r.winners@, r.deletions@),
        digests_kept(slice@, slice.len() as int, r.winners@),
{
    let ghost s = slice@;
    let mut winners: Vec<Winner> = Vec::new();
    let mut deletions: Vec<usize> = Vec::new();
    let mut i: usize = 0;
    while i < slice.len()
        invariant
            s == slice@,
            i <= slice.len(),
            start + slice.len() <= usize::MAX,
            range_outcome(s, start as int, i as int, winners@, deletions@),
            digests_kept(s, i as int, winners@),
        decreases slice.len() - i,
    {
        match &slice[i] {
            Entry::File(d) => {
                let ghost wold = winners@;
                let ghost dold = deletions@;
                match find_digest(&winners, d) {
                    Some(p) => {
                        let earlier = winners[p].index;
                        deletions.push(earlier);
                        winners.set(p, Winner { digest: copy_bytes(d), index: start + i });
                        proof {
                            lemma_replace_step(s, start as int, i as int, wold, dold, p as int, winners@, deletions@);
                        }
                    }
                    None => {
                        winners.push(Winner { digest: copy_bytes(d), index: start + i });
                        proof {
                            lemma_insert_step(s, start as int, i as int, wold, dold, winners@);
                        }
                    }
                }
            }
            _ => {
                proof {
                    lemma_skip_step(s, start as int, i as int, winners@, deletions@);
                }
            }
        }
        i = i + 1;
    }
    PartitionResult { winners, deletions }
}


/// Every fingerprint of a file in `s[0..end)` is the fingerprint of a winner.
pub open spec fn digests_kept(s: Seq<Entry>, end: int, winners: Seq<Winner>) -> bool {
    forall|k: int|
        #![trigger is_file(s, k)]
        is_file(s, k) && k < end ==> exists|t: int|
            0 <= t < winners.len() && Some(#[trigger] winners[t].digest@) == digest_of(s[k])
}

proof fn lemma_skip_step(s: Seq<Entry>, start: int, i: int, w: Seq<Winner>, d: Seq<usize>)
    requires
        0 <= i < s.len(),
        !is_file(s, i),
        range_outcome(s, start, i, w, d),
        digests_kept(s, i, w),
    ensures
        range_outcome(s, start, i + 1, w, d),
        digests_kept(s, i + 1, w),
{
    assert forall|k: int| last_within(s, k, i + 1) <==> #[trigger] last_within(s, k, i) by {
        if last_within(s, k, i) {
            assert forall|k2: int| k < k2 < i + 1 implies #[trigger] digest_of(s[k2]) != digest_of(s[k]) by {
                if k2 == i {
                    assert(!is_file(s, i));
                }
            }
        }
    }
}

proof fn lemma_insert_step(
    s: Seq<Entry>,
    start: int,
    i: int,
    wold: Seq<Winner>,
    dold: Seq<usize>,
    wnew: Seq<Winner>,
)
    requires
        0 <= i < s.len(),
        is_file(s, i),
        range_outcome(s, start, i, wold, dold),
        digests_kept(s, i, wold),
        forall|q: int| 0 <= q < wold.len() ==> Some(wold[q].digest@) != digest_of(s[i]),
        wnew.len() == wold.len() + 1,
        forall|t: int| 0 <= t < wold.len() ==> wnew[t] == wold[t],
        Some(wnew[wold.len() as int].digest@) == digest_of(s[i]),
        wnew[wold.len() as int].index == start + i,
    ensures
        range_outcome(s, start, i + 1, wnew, dold),
        digests_kept(s, i + 1, wnew),
{
    let n = wold.len() as int;
    assert forall|k: int| 0 <= k < i && is_file(s, k) implies digest_of(s[k]) != digest_of(s[i]) by {
        let t = choose|t: int| 0 <= t < wold.len() && Some(#[trigger] wold[t].digest@) == digest_of(s[k]);
    }
    assert forall|k: int| k < i implies (last_within(s, k, i + 1) <==> #[trigger] last_within(s, k, i)) by {
        if last_within(s, k, i) {
            assert forall|k2: int| k < k2 < i + 1 implies #[trigger] digest_of(s[k2]) != digest_of(s[k]) by {
            }
        }
    }
    assert(last_within(s, i, i + 1));
    assert forall|t: int| 0 <= t < wnew.len() implies {
        &&& last_within(s, #[trigger] wnew[t].index - start, i + 1)
        &&& file_with(s, wnew[t].index - start, wnew[t].digest@)
    } by {
        if t < n {
            assert(wnew[t] == wold[t]);
            assert(last_within(s, wold[t].index - start, i));
        }
    }
    assert(distinct_digests(wnew)) by {
        assert forall|a: int, b: int|
            0 <= a < wnew.len() && 0 <= b < wnew.len() && a != b implies #[trigger] wnew[a].digest@
                != #[trigger] wnew[b].digest@ by {
            if a < n && b < n {
                assert(wnew[a] == wold[a] && wnew[b] == wold[b]);
            } else if a < n {
                assert(wnew[a] == wold[a]);
            } else {
                assert(wnew[b] == wold[b]);
            }
        }
    }
    assert forall|k: int| #[trigger] last_within(s, k, i + 1) implies exists|t: int|
        0 <= t < wnew.len() && #[trigger] wnew[t].index == start + k by {
        if k == i {
            assert(wnew[n].index == start + k);
        } else {
            assert(last_within(s, k, i));
            let t = choose|t: int| 0 <= t < wold.len() && #[trigger] wold[t].index == start + k;
            assert(wnew[t] == wold[t]);
        }
    }
    assert forall|t: int| 0 <= t < dold.len() implies {
        &&& is_file(s, #[trigger] dold[t] - start)
        &&& dold[t] - start < i + 1
        &&& !last_within(s, dold[t] - start, i + 1)
    } by {
        assert(!last_within(s, dold[t] - start, i));
    }
    assert forall|k: int|
        #![trigger is_file(s, k)]
        is_file(s, k) && k < i + 1 && !last_within(s, k, i + 1) implies exists|t: int|
            0 <= t < dold.len() && #[trigger] dold[t] == start + k by {
        assert(k != i);
        assert(!last_within(s, k, i));
    }
    assert forall|k: int|
        #![trigger is_file(s, k)]
        is_file(s, k) && k < i + 1 implies exists|t: int|
            0 <= t < wnew.len() && Some(#[trigger] wnew[t].digest@) == digest_of(s[k]) by {
        if k == i {
            assert(Some(wnew[n].digest@) == digest_of(s[k]));
        } else {
            let t = choose|t: int| 0 <= t < wold.len() && Some(#[trigger] wold[t].digest@) == digest_of(s[k]);
            assert(wnew[t] == wold[t]);
        }
    }
}

proof fn lemma_replace_step(
    s: Seq<Entry>,
    start: int,
    i: int,
    wold: Seq<Winner>,
    dold: Seq<usize>,
    p: int,
    wnew: Seq<Winner>,
    dnew: Seq<usize>,
)
    requires
        0 <= i < s.len(),
        is_file(s, i),
        range_outcome(s, start, i, wold, dold),
        digests_kept(s, i, wold),
        0 <= p < wold.len(),
        Some(wold[p].digest@) == digest_of(s[i]),
        wnew.len() == wold.len(),
        forall|t: int| 0 <= t < wold.len() && t != p ==> wnew[t] == wold[t],
        wnew[p].digest@ == wold[p].digest@,
        wnew[p].index == start + i,
        dnew == dold.push(wold[p].index),
    ensures
        range_outcome(s, start, i + 1, wnew, dnew),
        digests_kept(s, i + 1, wnew),
{
    let q = wold[p].index - start;
    assert(last_within(s, q, i));
    assert(file_with(s, q, wold[p].digest@));
    // the kept file of this fingerprint is the only one that stops being last
    assert forall|k: int| last_within(s, k, i) && digest_of(s[k]) == digest_of(s[i]) implies k == q by {
        if k < q {
            assert(digest_of(s[q]) != digest_of(s[k]));
        } else if q < k {
            assert(digest_of(s[k]) != digest_of(s[q]));
        }
    }
    assert forall|k: int| k < i implies (last_within(s, k, i + 1) <==> (#[trigger] last_within(s, k, i) && k != q)) by {
        if last_within(s, k, i) && k != q {
            assert forall|k2: int| k < k2 < i + 1 implies #[trigger] digest_of(s[k2]) != digest_of(s[k]) by {
            }
        }
        if k == q {
            assert(digest_of(s[i]) == digest_of(s[q]));
        }
    }
    assert(last_within(s, i, i + 1));
    assert forall|t: int| 0 <= t < wnew.len() implies {
        &&& last_within(s, #[trigger] wnew[t].index - start, i + 1)
        &&& file_with(s, wnew[t].index - start, wnew[t].digest@)
    } by {
        if t != p {
            assert(wnew[t] == wold[t]);
            assert(last_within(s, wold[t].index - start, i));
            assert(wold[t].digest@ != wold[p].digest@);
        }
    }
    assert(distinct_digests(wnew)) by {
        assert forall|a: int, b: int|
            0 <= a < wnew.len() && 0 <= b < wnew.len() && a != b implies #[trigger] wnew[a].digest@
                != #[trigger] wnew[b].digest@ by {
            if a != p && b != p {
                assert(wnew[a] == wold[a] && wnew[b] == wold[b]);
            } else if a != p {
                assert(wnew[a] == wold[a]);
                assert(wold[a].digest@ != wold[p].digest@);
            } else {
                assert(wnew[b] == wold[b]);
                assert(wold[b].digest@ != wold[p].digest@);
            }
        }
    }
    assert forall|k: int| #[trigger] last_within(s, k, i + 1) implies exists|t: int|
        0 <= t < wnew.len() && #[trigger] wnew[t].index == start + k by {
        if k == i {
            assert(wnew[p].index == start + k);
        } else {
            assert(last_within(s, k, i));
            let t = choose|t: int| 0 <= t < wold.len() && #[trigger] wold[t].index == start + k;
            assert(t != p);
            assert(wnew[t] == wold[t]);
        }
    }
    assert forall|t: int| 0 <= t < dnew.len() implies {
        &&& is_file(s, #[trigger] dnew[t] - start)
        &&& dnew[t] - start < i + 1
        &&& !last_within(s, dnew[t] - start, i + 1)
    } by {
        if t < dold.len() {
            assert(dnew[t] == dold[t]);
            assert(!last_within(s, dold[t] - start, i));
        } else {
            assert(dnew[t] == wold[p].index);
        }
    }
    assert forall|k: int|
        #![trigger is_file(s, k)]
        is_file(s, k) && k < i + 1 && !last_within(s, k, i + 1) implies exists|t: int|
            0 <= t < dnew.len() && #[trigger] dnew[t] == start + k by {
        assert(k != i);
        if k == q {
            assert(dnew[dold.len() as int] == start + k);
        } else {
            assert(!last_within(s, k, i));
            let t = choose|t: int| 0 <= t < dold.len() && #[trigger] dold[t] == start + k;
            assert(dnew[t] == dold[t]);
        }
    }
    assert(dnew.no_duplicates()) by {
        assert forall|a: int, b: int| 0 <= a < dnew.len() && 0 <= b < dnew.len() && a != b implies dnew[a] != dnew[b] by {
            if a < dold.len() && b < dold.len() {
            } else if a < dold.len() {
                assert(!last_within(s, dold[a] - start, i));
            } else {
                assert(!last_within(s, dold[b] - start, i));
            }
        }
    }
    assert forall|k: int|
        #![trigger is_file(s, k)]
        is_file(s, k) && k < i + 1 implies exists|t: int|
            0 <= t < wnew.len() && Some(#[trigger] wnew[t].digest@) == digest_of(s[k]) by {
        if k == i {
            assert(Some(wnew[p].digest@) == digest_of(s[k]));
        } else {
            let t = choose|t: int| 0 <= t < wold.len() && Some(#[trigger] wold[t].digest@) == digest_of(s[k]);
            if t == p {
                assert(Some(wnew[p].digest@) == digest_of(s[k]));
            } else {
                assert(wnew[t] == wold[t]);
            }
        }
    }
}

} // verus!
