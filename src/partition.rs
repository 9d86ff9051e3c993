//! The static split of a listing of `n` entries across `w` workers.
use vstd::prelude::*;

verus! {

/// Entries per worker: `n / w` rounded up.
pub open spec fn chunk_of(n: nat, w: nat) -> nat
    recommends
        w >= 1,
{
    if n % w == 0 {
        n / w
    } else {
        n / w + 1
    }
}

/// The first index of worker `i`'s range: `i * chunk`, clipped to `n`.
pub open spec fn range_start(n: nat, w: nat, i: nat) -> nat {
    let c = i * chunk_of(n, w);
    if c <= n {
        c
    } else {
        n
    }
}

/// One past the last index of worker `i`'s range: `(i + 1) * chunk`, clipped to `n`.
pub open spec fn range_end(n: nat, w: nat, i: nat) -> nat {
    range_start(n, w, i + 1)
}

/// Whether index `x` lies in worker `i`'s range.
pub open spec fn in_range(n: nat, w: nat, i: nat, x: int) -> bool {
    range_start(n, w, i) <= x < range_end(n, w, i)
}

/// Whether some worker's range holds index `x`.
pub open spec fn covered(n: nat, w: nat, x: int) -> bool {
    exists|i: nat| i < w && #[trigger] in_range(n, w, i, x)
}

/// The number of entries that each worker is given (the last one may get fewer).
pub fn chunk_size(n: usize, w: usize) -> (r: usize)
    requires
        w >= 1,
    ensures
        r == chunk_of(n as nat, w as nat),
        r as int * w >= n,
{
    let q = n / w;
    let r = if n % w == 0 {
        q
    } else {
        assert(q < n) by (nonlinear_arith)
            requires
                q == n / w,
                n % w != 0,
                w >= 1,
        ;
        q + 1
    };
    proof {
        assert(n == w * q + n % w) by (nonlinear_arith)
            requires
                w >= 1,
                q == n / w,
        ;
        assert(r as int * w >= n) by (nonlinear_arith)
            requires
                n == w * q + n % w,
                r == q || (r == q + 1 && n % w < w),
                r == q ==> n % w == 0,
        ;
    }
    r
}

proof fn lemma_mul_le(a: nat, b: nat, c: nat)
    requires
        a <= b,
    ensures
        a * c <= b * c,
{
    assert(a * c <= b * c) by (nonlinear_arith)
        requires
            a <= b,
    ;
}

proof fn lemma_chunk_covers(n: nat, w: nat)
    requires
        w >= 1,
    ensures
        w * chunk_of(n, w) >= n,
{
    let c = chunk_of(n, w);
    vstd::arithmetic::div_mod::lemma_fundamental_div_mod(n as int, w as int);
    assert(w * c >= n) by (nonlinear_arith)
        requires
            w >= 1,
            c == (if n % w == 0 { n / w } else { n / w + 1 }),
            n == w * (n / w) + n % w,
    ;
}

/// Worker `i`'s range `[start, end)` of a listing of `n` entries split across `w` workers.
pub fn partition_range(n: usize, w: usize, i: usize) -> (r: (usize, usize))
    requires
        w >= 1,
        i < w,
    ensures
        r.0 == range_start(n as nat, w as nat, i as nat),
        r.1 == range_end(n as nat, w as nat, i as nat),
{
    let c = chunk_size(n, w);
    (clipped_multiple(n, c, i), clipped_multiple(n, c, i + 1))
}

/// `min(i * c, n)`, computed without overflow.
fn clipped_multiple(n: usize, c: usize, i: usize) -> (r: usize)
    ensures
        r == (if i * c <= n {
            i * c
        } else {
            n as int
        }),
{
    if c == 0 {
        0
    } else if i <= n / c {
        proof {
            lemma_mul_le(i as nat, (n / c) as nat, c as nat);
            assert((n / c) * c <= n) by (nonlinear_arith)
                requires
                    c >= 1,
            ;
        }
        i * c
    } else {
        proof {
            lemma_mul_le((n / c + 1) as nat, i as nat, c as nat);
            assert((n / c + 1) * c > n) by (nonlinear_arith)
                requires
                    c >= 1,
            ;
        }
        n
    }
}

/// The ranges of all `w` workers, in worker order.
pub fn partition(n: usize, w: usize) -> (r: Vec<(usize, usize)>)
    requires
        w >= 1,
    ensures
        r.len() == w,
        forall|i: int|
            0 <= i < w ==> #[trigger] r@[i] == (
                range_start(n as nat, w as nat, i as nat) as usize,
                range_end(n as nat, w as nat, i as nat) as usize,
            ),
{
    let mut r: Vec<(usize, usize)> = Vec::new();
    let mut i: usize = 0;
    while i < w
        invariant
            i <= w,
            w >= 1,
            r.len() == i,
            forall|j: int|
                0 <= j < i ==> #[trigger] r@[j] == (
                    range_start(n as nat, w as nat, j as nat) as usize,
                    range_end(n as nat, w as nat, j as nat) as usize,
                ),
        decreases w - i,
    {
        let range = partition_range(n, w, i);
        r.push(range);
        i = i + 1;
    }
    r
}

/// Every range lies inside `[0, n)`, and the ranges follow each other in
/// worker order: the first starts at 0, each starts where the one before it
/// ends, and the last ends at `n`.
pub proof fn lemma_ranges_contiguous(n: nat, w: nat)
    requires
        w >= 1,
    ensures
        range_start(n, w, 0) == 0,
        range_end(n, w, (w - 1) as nat) == n,
        forall|i: nat| i < w ==> #[trigger] range_start(n, w, i) <= range_end(n, w, i) <= n,
{
    let c = chunk_of(n, w);
    lemma_chunk_covers(n, w);
    assert forall|i: nat| i < w implies #[trigger] range_start(n, w, i) <= range_end(n, w, i) <= n by {
        lemma_mul_le(i, i + 1, c);
    }
}

/// Every listing index in `[0, n)` lies in exactly one worker's range, and no
/// range holds an index outside `[0, n)`: the ranges leave no gap and do not overlap.
pub proof fn lemma_partition_coverage(n: nat, w: nat)
    requires
        w >= 1,
    ensures
        forall|x: int| 0 <= x < n ==> #[trigger] covered(n, w, x),
        forall|i: nat, j: nat, x: int|
            i < j < w && #[trigger] in_range(n, w, i, x) ==> !#[trigger] in_range(n, w, j, x),
        forall|i: nat, x: int| i < w && #[trigger] in_range(n, w, i, x) ==> 0 <= x < n,
{
    let c = chunk_of(n, w);
    lemma_chunk_covers(n, w);
    assert forall|x: int| 0 <= x < n implies #[trigger] covered(n, w, x) by {
        let i: nat = (x / c as int) as nat;
        assert(c > 0) by (nonlinear_arith)
            requires w * c >= n, x < n, 0 <= x;
        assert(i * c <= x < (i + 1) * c) by (nonlinear_arith)
            requires c > 0, i == x / c as int, 0 <= x;
        assert(i < w) by (nonlinear_arith)
            requires i * c <= x, x < n, w * c >= n, c > 0;
        assert(in_range(n, w, i, x));
    }
    assert forall|i: nat, j: nat, x: int|
        i < j < w && #[trigger] in_range(n, w, i, x) implies !#[trigger] in_range(n, w, j, x) by {
        lemma_mul_le(i + 1, j, c);
    }
}

} // verus!
