//! The merge of the workers' results: duplicates left between ranges.
use vstd::prelude::*;
use crate::fingerprint::{distinct_digests, Winner};
use crate::worker::{copy_bytes, find_digest, PartitionResult};

verus! {

/// The views `(fingerprint, index)` of a sequence of winners.
pub open spec fn views(ws: Seq<Winner>) -> Seq<(Seq<u8>, usize)> {
    ws.map_values(|w: Winner| w@)
}

/// The winners of all workers, in worker order.
pub open spec fn all_winners(rs: Seq<PartitionResult>) -> Seq<(Seq<u8>, usize)>
    decreases rs.len(),
{
    if rs.len() == 0 {
        Seq::empty()
    } else {
        all_winners(rs.drop_last()) + views(rs.last().winners@)
    }
}

/// Whether no entry before position `j` of `f` has the fingerprint of `f[j]`.
pub open spec fn first_in(f: Seq<(Seq<u8>, usize)>, j: int) -> bool {
    forall|j2: int| 0 <= j2 < j ==> #[trigger] f[j2].0 != f[j].0
}

/// The same as `first_in`, under a second name that the quantifiers which
/// start from a position of `f` are triggered on.
pub open spec fn kept_first(f: Seq<(Seq<u8>, usize)>, j: int) -> bool {
    first_in(f, j)
}

/// Whether the entries of `f` name pairwise distinct files.
pub open spec fn indices_distinct(f: Seq<(Seq<u8>, usize)>) -> bool {
    forall|a: int, b: int| 0 <= a < f.len() && 0 <= b < f.len() && a != b ==> #[trigger] f[a].1 != #[trigger] f[b].1
}

/// Every survivor is the first entry of its fingerprint in `f[0..end)`.
pub open spec fn survivors_are_firsts(f: Seq<(Seq<u8>, usize)>, end: int, survivors: Seq<Winner>) -> bool {
    forall|t: int| 0 <= t < survivors.len() ==> #[trigger] survivor_from(f, end, survivors, t)
}

/// Whether survivor `t` is the first entry of its fingerprint in `f[0..end)`.
pub open spec fn survivor_from(f: Seq<(Seq<u8>, usize)>, end: int, survivors: Seq<Winner>, t: int) -> bool {
    exists|j: int| #![trigger f[j]] 0 <= j < end && first_in(f, j) && survivors[t]@ == f[j]
}

/// Every first entry of a fingerprint in `f[0..end)` survives.
pub open spec fn firsts_survive(f: Seq<(Seq<u8>, usize)>, end: int, survivors: Seq<Winner>) -> bool {
    forall|j: int|
        0 <= j < end && #[trigger] kept_first(f, j) ==> exists|t: int|
            0 <= t < survivors.len() && #[trigger] survivors[t]@ == f[j]
}

/// Every deletion is the file of a later entry of its fingerprint in `f[0..end)`.
pub open spec fn deletions_are_repeats(f: Seq<(Seq<u8>, usize)>, end: int, deletions: Seq<usize>) -> bool {
    forall|t: int| 0 <= t < deletions.len() ==> #[trigger] deletion_from(f, end, deletions, t)
}

/// Whether deletion `t` is the file of a later entry of its fingerprint in `f[0..end)`.
pub open spec fn deletion_from(f: Seq<(Seq<u8>, usize)>, end: int, deletions: Seq<usize>, t: int) -> bool {
    exists|j: int| #![trigger f[j]] 0 <= j < end && !first_in(f, j) && deletions[t] == f[j].1
}

/// Every later entry of a fingerprint in `f[0..end)` is deleted.
pub open spec fn repeats_deleted(f: Seq<(Seq<u8>, usize)>, end: int, deletions: Seq<usize>) -> bool {
    forall|j: int|
        0 <= j < end && !#[trigger] kept_first(f, j) ==> exists|t: int|
            0 <= t < deletions.len() && #[trigger] deletions[t] == f[j].1
}

/// Every fingerprint in `f[0..end)` is the fingerprint of a survivor.
pub open spec fn digests_survive(f: Seq<(Seq<u8>, usize)>, end: int, survivors: Seq<Winner>) -> bool {
    forall|j: int|
        0 <= j < end ==> exists|t: int|
            0 <= t < survivors.len() && #[trigger] survivors[t].digest@ == #[trigger] f[j].0
}

/// What the merge leaves after going through `f[0..end)`: the first entry of
/// each fingerprint survives, and every later one is deleted.
#[verifier::opaque]
pub open spec fn merge_outcome(
    f: Seq<(Seq<u8>, usize)>,
    end: int,
    survivors: Seq<Winner>,
    deletions: Seq<usize>,
) -> bool {
    &&& survivors_are_firsts(f, end, survivors)
    &&& distinct_digests(survivors)
    &&& firsts_survive(f, end, survivors)
    &&& deletions_are_repeats(f, end, deletions)
    &&& repeats_deleted(f, end, deletions)
    &&& digests_survive(f, end, survivors)
    &&& indices_distinct(f.take(end)) ==> deletions.no_duplicates()
}

/// What the merge returns: the global survivors, one per fingerprint, and the
/// files it deleted.
pub struct MergeResult {
    pub survivors: Vec<Winner>,
    pub deletions: Vec<usize>,
}

/// The winners of all workers in one vector, in worker order.
pub fn concat_winners(results: &Vec<PartitionResult>) -> (r: Vec<Winner>)
    ensures
        views(r@) == all_winners(results@),
{
    let mut r: Vec<Winner> = Vec::new();
    let mut i: usize = 0;
    while i < results.len()
        invariant
            i <= results.len(),
            views(r@) == all_winners(results@.take(i as int)),
        decreases results.len() - i,
    {
        let ws = &results[i].winners;
        let ghost base = views(r@);
        let mut j: usize = 0;
        while j < ws.len()
            invariant
                j <= ws.len(),
                ws == results@[i as int].winners,
                views(r@) == base + views(ws@).take(j as int),
            decreases ws.len() - j,
        {
            let w = Winner { digest: copy_bytes(&ws[j].digest), index: ws[j].index };
            assert(w@ == views(ws@)[j as int]);
            let ghost before = r@;
            r.push(w);
            assert(views(r@) =~= views(before).push(w@));
            assert(views(ws@).take(j + 1) =~= views(ws@).take(j as int).push(views(ws@)[j as int]));
            j = j + 1;
            assert(views(r@) =~= base + views(ws@).take(j as int));
        }
        proof {
            assert(results@.take(i + 1).drop_last() =~= results@.take(i as int));
            assert(views(ws@).take(j as int) =~= views(ws@));
        }
        i = i + 1;
    }
    assert(results@.take(i as int) =~= results@);
    r
}

/// Merges winners taken in order: the first winner of each fingerprint
/// survives; each later winner with a fingerprint seen already is deleted.
pub fn merge_winners(f: &Vec<Winner>) -> (r: MergeResult)
    ensures
        merge_outcome(views(f@), f.len() as int, r.survivors@, r.deletions@),
        r.survivors.len() + r.deletions.len() == f.len(),
{
    let ghost fv = views(f@);
    let mut survivors: Vec<Winner> = Vec::new();
    let mut deletions: Vec<usize> = Vec::new();
    let mut i: usize = 0;
    proof {
        lemma_merge_start(fv);
    }
    while i < f.len()
        invariant
            fv == views(f@),
            i <= f.len(),
            merge_outcome(fv, i as int, survivors@, deletions@),
            survivors.len() + deletions.len() == i,
        decreases f.len() - i,
    {
        let ghost sold = survivors@;
        let ghost dold = deletions@;
        assert(fv[i as int] == f@[i as int]@);
        match find_digest(&survivors, &f[i].digest) {
            Some(p) => {
                deletions.push(f[i].index);
                proof {
                    lemma_merge_delete(fv, i as int, sold, dold, p as int, deletions@);
                }
            }
            None => {
                survivors.push(Winner { digest: copy_bytes(&f[i].digest), index: f[i].index });
                proof {
                    lemma_merge_keep(fv, i as int, sold, dold, survivors@);
                }
            }
        }
        i = i + 1;
    }
    MergeResult { survivors, deletions }
}

pub proof fn lemma_outcome_parts(f: Seq<(Seq<u8>, usize)>, end: int, s: Seq<Winner>, d: Seq<usize>)
    requires
        merge_outcome(f, end, s, d),
    ensures
        survivors_are_firsts(f, end, s),
        distinct_digests(s),
        firsts_survive(f, end, s),
        deletions_are_repeats(f, end, d),
        repeats_deleted(f, end, d),
        digests_survive(f, end, s),
        indices_distinct(f.take(end)) ==> d.no_duplicates(),
{
    reveal(merge_outcome);
}

proof fn lemma_outcome_from_parts(f: Seq<(Seq<u8>, usize)>, end: int, s: Seq<Winner>, d: Seq<usize>)
    requires
        survivors_are_firsts(f, end, s),
        distinct_digests(s),
        firsts_survive(f, end, s),
        deletions_are_repeats(f, end, d),
        repeats_deleted(f, end, d),
        digests_survive(f, end, s),
        indices_distinct(f.take(end)) ==> d.no_duplicates(),
    ensures
        merge_outcome(f, end, s, d),
{
    reveal(merge_outcome);
}

proof fn lemma_merge_start(f: Seq<(Seq<u8>, usize)>)
    ensures
        merge_outcome(f, 0, Seq::empty(), Seq::empty()),
{
    reveal(merge_outcome);
}

proof fn lemma_merge_delete(
    f: Seq<(Seq<u8>, usize)>,
    i: int,
    s: Seq<Winner>,
    dold: Seq<usize>,
    p: int,
    dnew: Seq<usize>,
)
    requires
        0 <= i < f.len(),
        merge_outcome(f, i, s, dold),
        0 <= p < s.len(),
        s[p].digest@ == f[i].0,
        dnew == dold.push(f[i].1),
    ensures
        merge_outcome(f, i + 1, s, dnew),
{
    lemma_outcome_parts(f, i, s, dold);
    lemma_repeat_seen(f, i, s, p);
    lemma_survivors_stay(f, i, s);
    lemma_repeat_pushed(f, i, dold, dnew);
    assert(digests_survive(f, i + 1, s)) by {
        assert forall|j: int| 0 <= j < i + 1 implies exists|t: int|
            0 <= t < s.len() && #[trigger] s[t].digest@ == #[trigger] f[j].0 by {
            if j == i {
                assert(s[p].digest@ == f[j].0);
            }
        }
    }
    lemma_merge_delete_no_dup(f, i, dold, dnew);
    lemma_outcome_from_parts(f, i + 1, s, dnew);
}

proof fn lemma_repeat_seen(f: Seq<(Seq<u8>, usize)>, i: int, s: Seq<Winner>, p: int)
    requires
        0 <= i < f.len(),
        survivors_are_firsts(f, i, s),
        0 <= p < s.len(),
        s[p].digest@ == f[i].0,
    ensures
        !first_in(f, i),
{
    assert(survivor_from(f, i, s, p));
    let j0 = choose|j: int| #![trigger f[j]] 0 <= j < i && first_in(f, j) && s[p]@ == f[j];
    assert(f[j0].0 == f[i].0);
}

proof fn lemma_survivors_stay(f: Seq<(Seq<u8>, usize)>, i: int, s: Seq<Winner>)
    requires
        0 <= i < f.len(),
        !first_in(f, i),
        survivors_are_firsts(f, i, s),
        firsts_survive(f, i, s),
    ensures
        survivors_are_firsts(f, i + 1, s),
        firsts_survive(f, i + 1, s),
{
    assert forall|t: int| 0 <= t < s.len() implies #[trigger] survivor_from(f, i + 1, s, t) by {
        assert(survivor_from(f, i, s, t));
        let j = choose|j: int| #![trigger f[j]] 0 <= j < i && first_in(f, j) && s[t]@ == f[j];
        assert(0 <= j < i + 1 && first_in(f, j) && s[t]@ == f[j]);
    }
    assert(firsts_survive(f, i + 1, s)) by {
        assert forall|j: int| 0 <= j < i + 1 && #[trigger] kept_first(f, j) implies exists|t: int|
            0 <= t < s.len() && #[trigger] s[t]@ == f[j] by {
            assert(j != i);
        }
    }
}

proof fn lemma_repeat_pushed(f: Seq<(Seq<u8>, usize)>, i: int, dold: Seq<usize>, dnew: Seq<usize>)
    requires
        0 <= i < f.len(),
        !first_in(f, i),
        deletions_are_repeats(f, i, dold),
        repeats_deleted(f, i, dold),
        dnew == dold.push(f[i].1),
    ensures
        deletions_are_repeats(f, i + 1, dnew),
        repeats_deleted(f, i + 1, dnew),
{
    assert forall|t: int| 0 <= t < dnew.len() implies #[trigger] deletion_from(f, i + 1, dnew, t) by {
        if t == dold.len() {
            assert(dnew[t] == f[i].1);
        } else {
            assert(dnew[t] == dold[t]);
            assert(deletion_from(f, i, dold, t));
            let j = choose|j: int| 0 <= j < i && !first_in(f, j) && dold[t] == f[j].1;
            assert(0 <= j < i + 1 && !first_in(f, j) && dnew[t] == f[j].1);
        }
    }
    assert forall|j: int| 0 <= j < i + 1 && !#[trigger] kept_first(f, j) implies exists|t: int|
        0 <= t < dnew.len() && #[trigger] dnew[t] == f[j].1 by {
        if j == i {
            assert(dnew[dold.len() as int] == f[j].1);
        } else {
            let t = choose|t: int| 0 <= t < dold.len() && #[trigger] dold[t] == f[j].1;
            assert(dnew[t] == dold[t]);
        }
    }
}

proof fn lemma_merge_delete_no_dup(f: Seq<(Seq<u8>, usize)>, i: int, dold: Seq<usize>, dnew: Seq<usize>)
    requires
        0 <= i < f.len(),
        deletions_are_repeats(f, i, dold),
        indices_distinct(f.take(i)) ==> dold.no_duplicates(),
        dnew == dold.push(f[i].1),
    ensures
        indices_distinct(f.take(i + 1)) ==> dnew.no_duplicates(),
{
    reveal(merge_outcome);
    if indices_distinct(f.take(i + 1)) {
        assert(indices_distinct(f.take(i))) by {
            assert forall|a: int, b: int| 0 <= a < f.take(i).len() && 0 <= b < f.take(i).len() && a != b implies #[trigger] f.take(i)[a].1 != #[trigger] f.take(i)[b].1 by {
                assert(f.take(i)[a] == f.take(i + 1)[a]);
                assert(f.take(i)[b] == f.take(i + 1)[b]);
            }
        }
        assert forall|a: int, b: int| 0 <= a < dnew.len() && 0 <= b < dnew.len() && a != b implies dnew[a] != dnew[b] by {
            if a < dold.len() && b < dold.len() {
                assert(dnew[a] == dold[a] && dnew[b] == dold[b]);
            } else {
                let x = if a < dold.len() { a } else { b };
                assert(deletion_from(f, i, dold, x));
                let j = choose|j: int| 0 <= j < i && !first_in(f, j) && dold[x] == f[j].1;
                assert(f.take(i + 1)[j] == f[j] && f.take(i + 1)[i] == f[i]);
            }
        }
        assert(dnew.no_duplicates());
    }
}

proof fn lemma_merge_keep(
    f: Seq<(Seq<u8>, usize)>,
    i: int,
    sold: Seq<Winner>,
    d: Seq<usize>,
    snew: Seq<Winner>,
)
    requires
        0 <= i < f.len(),
        merge_outcome(f, i, sold, d),
        forall|q: int| 0 <= q < sold.len() ==> sold[q].digest@ != f[i].0,
        snew.len() == sold.len() + 1,
        forall|t: int| 0 <= t < sold.len() ==> snew[t] == sold[t],
        snew[sold.len() as int]@ == f[i],
    ensures
        merge_outcome(f, i + 1, snew, d),
{
    reveal(merge_outcome);
    let n = sold.len() as int;
    assert(first_in(f, i)) by {
        assert forall|j2: int| 0 <= j2 < i implies #[trigger] f[j2].0 != f[i].0 by {
            let t = choose|t: int| 0 <= t < sold.len() && #[trigger] sold[t].digest@ == #[trigger] f[j2].0;
        }
    }
    assert forall|t: int| 0 <= t < snew.len() implies #[trigger] survivor_from(f, i + 1, snew, t) by {
        if t == n {
            assert(snew[t]@ == f[i]);
        } else {
            assert(snew[t] == sold[t]);
            assert(survivor_from(f, i, sold, t));
            let j = choose|j: int| 0 <= j < i && first_in(f, j) && sold[t]@ == f[j];
        }
    }
    assert(distinct_digests(snew)) by {
        assert forall|a: int, b: int|
            0 <= a < snew.len() && 0 <= b < snew.len() && a != b implies #[trigger] snew[a].digest@
                != #[trigger] snew[b].digest@ by {
            if a < n && b < n {
                assert(snew[a] == sold[a] && snew[b] == sold[b]);
            } else if a < n {
                assert(snew[a] == sold[a]);
            } else {
                assert(snew[b] == sold[b]);
            }
        }
    }
    assert forall|j: int| 0 <= j < i + 1 && #[trigger] kept_first(f, j) implies exists|t: int|
        0 <= t < snew.len() && #[trigger] snew[t]@ == f[j] by {
        if j == i {
            assert(snew[n]@ == f[j]);
        } else {
            let t = choose|t: int| 0 <= t < sold.len() && #[trigger] sold[t]@ == f[j];
            assert(snew[t] == sold[t]);
        }
    }
    assert forall|j: int| 0 <= j < i + 1 implies exists|t: int|
        0 <= t < snew.len() && #[trigger] snew[t].digest@ == #[trigger] f[j].0 by {
        if j == i {
            assert(snew[n].digest@ == f[j].0);
        } else {
            let t = choose|t: int| 0 <= t < sold.len() && #[trigger] sold[t].digest@ == #[trigger] f[j].0;
            assert(snew[t] == sold[t]);
        }
    }
    assert forall|t: int| 0 <= t < d.len() implies #[trigger] deletion_from(f, i + 1, d, t) by {
        assert(deletion_from(f, i, d, t));
        let j = choose|j: int| 0 <= j < i && !first_in(f, j) && d[t] == f[j].1;
        assert(0 <= j < i + 1 && !first_in(f, j) && d[t] == f[j].1);
    }
    if indices_distinct(f.take(i + 1)) {
        assert(indices_distinct(f.take(i))) by {
            assert forall|a: int, b: int| 0 <= a < f.take(i).len() && 0 <= b < f.take(i).len() && a != b implies #[trigger] f.take(i)[a].1 != #[trigger] f.take(i)[b].1 by {
                assert(f.take(i)[a] == f.take(i + 1)[a]);
                assert(f.take(i)[b] == f.take(i + 1)[b]);
            }
        }
        assert(d.no_duplicates());
    }
}

} // verus!
