//! The block allocator of the data block pool: a bitmap with one bit per
//! block, set while the block is in use, and the list of its free runs for a
//! best-fit choice. Its image on disk is the bitmap followed by the
//! big-endian version of the last full flush.

use vstd::prelude::*;
use crate::bits::{
    bit_of, bits_of, extend_with_run, fill_bits, first_zero_window, get_bit, is_first_window,
    is_run, is_tail_start, test_bit, with_range, zero_window,
};
use crate::codec::{copy_range, push_u64_be, u64_to_be};

verus! {

/// Whether bit `i` lies in one of `runs`.
pub open spec fn covered(runs: Seq<(usize, usize)>, i: int) -> bool {
    exists|k: int| #![trigger runs[k]] 0 <= k < runs.len() && runs[k].0 <= i < runs[k].0 + runs[k].1
}

/// Whether `runs` lists exactly the maximal runs of clear bits of `b`, by
/// ascending start.
pub open spec fn runs_ok(b: Seq<bool>, runs: Seq<(usize, usize)>) -> bool {
    &&& forall|k: int|
        #![trigger runs[k]]
        0 <= k < runs.len() ==> is_run(b, runs[k].0 as int, runs[k].1 as int)
    &&& forall|k: int, l: int| #![trigger runs[k], runs[l]] 0 <= k < l < runs.len() ==> runs[k].0 < runs[l].0
    &&& forall|i: int| 0 <= i < b.len() && !#[trigger] b[i] ==> covered(runs, i)
}

/// Whether the maximal run of clear bits `b[s..s + l]` is the best fit for
/// `n` bits: no other run of at least `n` bits is shorter, and none as short
/// starts earlier.
pub open spec fn best_fit_run(b: Seq<bool>, s: int, l: int, n: int) -> bool {
    &&& is_run(b, s, l)
    &&& l >= n
    &&& forall|s2: int, l2: int|
        #[trigger] is_run(b, s2, l2) && l2 >= n ==> l2 > l || (l2 == l && s2 >= s)
}

/// Whether some maximal run of clear bits of `b` starting at `s` is the best
/// fit for `n` bits.
pub open spec fn is_best_fit(b: Seq<bool>, s: int, n: int) -> bool {
    exists|l: int| best_fit_run(b, s, l, n)
}

/// Whether `b` has a maximal run of clear bits of at least `n` bits.
pub open spec fn has_fit(b: Seq<bool>, n: int) -> bool {
    exists|s: int, l: int| #[trigger] is_run(b, s, l) && l >= n
}

/// A maximal run of clear bits is one of the listed runs.
proof fn lemma_run_listed(b: Seq<bool>, runs: Seq<(usize, usize)>, s: int, l: int) -> (k: int)
    requires
        runs_ok(b, runs),
        is_run(b, s, l),
    ensures
        0 <= k < runs.len(),
        runs[k].0 == s,
        runs[k].1 == l,
{
    assert(!b[s]);
    assert(covered(runs, s));
    let k = choose|k: int| #![trigger runs[k]] 0 <= k < runs.len() && runs[k].0 <= s < runs[k].0 + runs[k].1;
    let (s1, l1) = (runs[k].0 as int, runs[k].1 as int);
    assert(is_run(b, s1, l1));
    if s1 < s {
        assert(!b[s - 1]);
    }
    if s1 + l1 < s + l {
        assert(!b[s1 + l1]);
    }
    if s + l < s1 + l1 {
        assert(!b[s + l]);
    }
    k
}

/// A window of `n > 0` clear bits lies inside a listed run of at least `n` bits.
proof fn lemma_window_listed(b: Seq<bool>, runs: Seq<(usize, usize)>, s: int, n: int) -> (k: int)
    requires
        runs_ok(b, runs),
        zero_window(b, s, n),
        n > 0,
    ensures
        0 <= k < runs.len(),
        runs[k].1 >= n,
{
    assert(!b[s]);
    assert(covered(runs, s));
    let k = choose|k: int| #![trigger runs[k]] 0 <= k < runs.len() && runs[k].0 <= s < runs[k].0 + runs[k].1;
    let (s1, l1) = (runs[k].0 as int, runs[k].1 as int);
    assert(is_run(b, s1, l1));
    if s1 + l1 < s + n {
        assert(!b[s1 + l1]);
    }
    k
}

/// The maximal runs of clear bits of `bits`, by ascending start.
fn init_idles(bits: &Vec<u8>) -> (r: Vec<(usize, usize)>)
    requires
        bits@.len() * 8 <= usize::MAX,
    ensures
        runs_ok(bits_of(bits@), r@),
{
    let ghost b = bits_of(bits@);
    let total = bits.len() * 8;
    let mut idles: Vec<(usize, usize)> = Vec::new();
    let mut index: usize = 0;
    let mut size: usize = 0;
    let mut p: usize = 0;
    while p < total
        invariant
            b == bits_of(bits@),
            total == b.len(),
            p <= total,
            size <= p,
            size > 0 ==> index + size == p,
            size > 0 ==> (index == 0 || b[index - 1]),
            size == 0 ==> (p == 0 || b[p - 1]),
            forall|j: int| p - size <= j < p ==> !#[trigger] b[j],
            forall|k: int|
                #![trigger idles@[k]]
                0 <= k < idles@.len() ==> is_run(b, idles@[k].0 as int, idles@[k].1 as int),
            forall|k: int|
                #![trigger idles@[k]]
                0 <= k < idles@.len() ==> idles@[k].0 + idles@[k].1 < p - size || (size == 0
                    && idles@[k].0 + idles@[k].1 <= p),
            forall|k: int, l: int| #![trigger idles@[k], idles@[l]] 0 <= k < l < idles@.len() ==> idles@[k].0 < idles@[l].0,
            forall|i: int| 0 <= i < p - size && !#[trigger] b[i] ==> covered(idles@, i),
        decreases total - p,
    {
        if test_bit(bits, p) {
            if size > 0 {
                let ghost old_idles = idles@;
                idles.push((index, size));
                assert(is_run(b, index as int, size as int));
                assert forall|i: int| 0 <= i < p + 1 && !#[trigger] b[i] implies covered(
                    idles@,
                    i,
                ) by {
                    if i >= index {
                        assert(idles@[old_idles.len() as int] == (index, size));
                    } else {
                        assert(covered(old_idles, i));
                        let k = choose|k: int|
                            #![trigger old_idles[k]] 0 <= k < old_idles.len() && old_idles[k].0 <= i < old_idles[k].0
                                + old_idles[k].1;
                        assert(idles@[k] == old_idles[k]);
                    }
                }
            }
            size = 0;
        } else {
            if size == 0 {
                index = p;
            }
            size = size + 1;
        }
        p = p + 1;
    }
    if size > 0 {
        let ghost old_idles = idles@;
        idles.push((index, size));
        assert(is_run(b, index as int, size as int));
        assert forall|i: int| 0 <= i < total && !#[trigger] b[i] implies covered(idles@, i) by {
            if i >= index {
                assert(idles@[old_idles.len() as int] == (index, size));
            } else {
                assert(covered(old_idles, i));
                let k = choose|k: int|
                    #![trigger old_idles[k]] 0 <= k < old_idles.len() && old_idles[k].0 <= i < old_idles[k].0
                        + old_idles[k].1;
                assert(idles@[k] == old_idles[k]);
            }
        }
    }
    idles
}

/// Listed runs are apart: each ends before the next one starts.
proof fn lemma_runs_apart(b: Seq<bool>, runs: Seq<(usize, usize)>, k: int, l: int)
    requires
        runs_ok(b, runs),
        0 <= k < l < runs.len(),
    ensures
        runs[k].0 + runs[k].1 < runs[l].0,
{
    let (sk, lk) = (runs[k].0 as int, runs[k].1 as int);
    let (sl, ll) = (runs[l].0 as int, runs[l].1 as int);
    assert(is_run(b, sk, lk));
    assert(is_run(b, sl, ll));
    assert(sk < sl);
    if sl < sk + lk {
        assert(!b[sl - 1]);
    } else if sl == sk + lk {
        assert(!b[sl]);
    }
}

/// The runs `runs` with those listed at `[i, j)` replaced by the run
/// `[a, e)`.
pub open spec fn merged_runs(runs: Seq<(usize, usize)>, i: int, j: int, a: int, e: int) -> Seq<(usize, usize)> {
    runs.subrange(0, i).push((a as usize, (e - a) as usize)) + runs.subrange(j, runs.len() as int)
}

/// What `add_idle` knows once it has found the runs at `[i, j)` that touch
/// `[s, s + size)` and their hull `[a, e)`.
pub open spec fn merge_facts(
    b: Seq<bool>,
    runs: Seq<(usize, usize)>,
    s: int,
    size: int,
    i: int,
    j: int,
    a: int,
    e: int,
) -> bool {
    &&& runs_ok(b, runs)
    &&& b.len() <= usize::MAX
    &&& 0 <= s
    &&& size > 0
    &&& s + size <= b.len()
    &&& 0 <= i <= j <= runs.len()
    &&& forall|k: int| #![trigger runs[k]] 0 <= k < i ==> runs[k].0 + runs[k].1 < s
    &&& forall|k: int| #![trigger runs[k]] i <= k < j ==> runs[k].0 <= s + size
    &&& (i < runs.len() ==> runs[i].0 + runs[i].1 >= s)
    &&& (j < runs.len() ==> runs[j].0 > s + size)
    &&& a == (if j > i && runs[i].0 < s { runs[i].0 as int } else { s })
    &&& e == (if j > i && runs[j - 1].0 + runs[j - 1].1 > s + size {
        runs[j - 1].0 + runs[j - 1].1
    } else {
        s + size
    })
}

proof fn lemma_merged_index(runs: Seq<(usize, usize)>, i: int, j: int, a: int, e: int)
    requires
        0 <= i <= j <= runs.len(),
    ensures
        merged_runs(runs, i, j, a, e).len() == i + 1 + runs.len() - j,
        forall|x: int| 0 <= x < i ==> #[trigger] merged_runs(runs, i, j, a, e)[x] == runs[x],
        merged_runs(runs, i, j, a, e)[i] == (a as usize, (e - a) as usize),
        forall|x: int|
            i < x < i + 1 + runs.len() - j ==> #[trigger] merged_runs(runs, i, j, a, e)[x] == runs[x
                - i - 1 + j],
{
}

proof fn lemma_merged_valid(
    b: Seq<bool>,
    runs: Seq<(usize, usize)>,
    s: int,
    size: int,
    i: int,
    j: int,
    a: int,
    e: int,
)
    requires
        merge_facts(b, runs, s, size, i, j, a, e),
    ensures
        forall|x: int|
            #![trigger merged_runs(runs, i, j, a, e)[x]]
            0 <= x < merged_runs(runs, i, j, a, e).len() ==> is_run(
                with_range(b, b.len(), s, size, false),
                merged_runs(runs, i, j, a, e)[x].0 as int,
                merged_runs(runs, i, j, a, e)[x].1 as int,
            ),
{
    let r = merged_runs(runs, i, j, a, e);
    let nb = with_range(b, b.len(), s, size, false);
    let end = s + size;
    lemma_merged_index(runs, i, j, a, e);
    if j > i {
        assert(is_run(b, runs[i].0 as int, runs[i].1 as int));
        assert(is_run(b, runs[j - 1].0 as int, runs[j - 1].1 as int));
        if j - 1 > i {
            lemma_runs_apart(b, runs, i, j - 1);
        }
    }
    assert forall|x: int| #![trigger r[x]] 0 <= x < r.len() implies is_run(nb, r[x].0 as int, r[x].1 as int) by {
        if x < i {
            assert(is_run(b, runs[x].0 as int, runs[x].1 as int));
        } else if x > i {
            let y = x - i - 1 + j;
            assert(r[x] == runs[y]);
            assert(is_run(b, runs[y].0 as int, runs[y].1 as int));
            if y > j {
                lemma_runs_apart(b, runs, j, y);
            }
        } else {
            assert forall|t: int| a <= t < e implies !nb[t] by {
                if t < s {
                    assert(is_run(b, runs[i].0 as int, runs[i].1 as int));
                } else if t >= end {
                    assert(is_run(b, runs[j - 1].0 as int, runs[j - 1].1 as int));
                }
            }
            if a > 0 && a == s && !b[s - 1] {
                assert(covered(runs, s - 1));
                let m = choose|m: int| #![trigger runs[m]] 0 <= m < runs.len() && runs[m].0 <= s - 1 < runs[m].0 + runs[m].1;
                if m > j {
                    lemma_runs_apart(b, runs, j, m);
                }
                if i < m {
                    lemma_runs_apart(b, runs, i, m);
                }
            }
            if e < nb.len() && e == end && !b[end] {
                assert(covered(runs, end));
                let m = choose|m: int| #![trigger runs[m]] 0 <= m < runs.len() && runs[m].0 <= end < runs[m].0 + runs[m].1;
                if m > j {
                    lemma_runs_apart(b, runs, j, m);
                }
                if j > i && m < j - 1 {
                    lemma_runs_apart(b, runs, m, j - 1);
                }
            }
        }
    }
}

proof fn lemma_merged_sorted(
    b: Seq<bool>,
    runs: Seq<(usize, usize)>,
    s: int,
    size: int,
    i: int,
    j: int,
    a: int,
    e: int,
)
    requires
        merge_facts(b, runs, s, size, i, j, a, e),
    ensures
        forall|x: int, y: int|
            #![trigger merged_runs(runs, i, j, a, e)[x], merged_runs(runs, i, j, a, e)[y]]
            0 <= x < y < merged_runs(runs, i, j, a, e).len() ==> merged_runs(runs, i, j, a, e)[x].0
                < merged_runs(runs, i, j, a, e)[y].0,
{
    let r = merged_runs(runs, i, j, a, e);
    lemma_merged_index(runs, i, j, a, e);
    assert forall|x: int, y: int| #![trigger r[x], r[y]] 0 <= x < y < r.len() implies r[x].0 < r[y].0 by {
        if y < i {
            assert(runs[x].0 < runs[y].0);
        } else if x < i && y == i {
            assert(is_run(b, runs[x].0 as int, runs[x].1 as int));
            if j > i {
                assert(runs[x].0 < runs[i].0);
            }
        } else if x < i {
            let y2 = y - i - 1 + j;
            assert(runs[x].0 < runs[y2].0);
        } else if x == i {
            let y2 = y - i - 1 + j;
            if y2 > j {
                assert(runs[j].0 < runs[y2].0);
            }
        } else {
            let x2 = x - i - 1 + j;
            let y2 = y - i - 1 + j;
            assert(runs[x2].0 < runs[y2].0);
        }
    }
}

proof fn lemma_merged_covers(
    b: Seq<bool>,
    runs: Seq<(usize, usize)>,
    s: int,
    size: int,
    i: int,
    j: int,
    a: int,
    e: int,
)
    requires
        merge_facts(b, runs, s, size, i, j, a, e),
    ensures
        forall|t: int|
            0 <= t < b.len() && !#[trigger] with_range(b, b.len(), s, size, false)[t] ==> covered(
                merged_runs(runs, i, j, a, e),
                t,
            ),
{
    let r = merged_runs(runs, i, j, a, e);
    let nb = with_range(b, b.len(), s, size, false);
    let end = s + size;
    lemma_merged_index(runs, i, j, a, e);
    assert forall|t: int| 0 <= t < nb.len() && !#[trigger] nb[t] implies covered(r, t) by {
        if s <= t < end {
            assert(r[i] == (a as usize, (e - a) as usize));
        } else {
            assert(!b[t]);
            assert(covered(runs, t));
            let m = choose|m: int| #![trigger runs[m]] 0 <= m < runs.len() && runs[m].0 <= t < runs[m].0 + runs[m].1;
            if m < i {
                assert(r[m] == runs[m]);
            } else if m >= j {
                assert(r[m - j + i + 1] == runs[m]);
            } else {
                assert(r[i] == (a as usize, (e - a) as usize));
                if m > i {
                    lemma_runs_apart(b, runs, i, m);
                }
                if m < j - 1 {
                    lemma_runs_apart(b, runs, m, j - 1);
                }
            }
        }
    }
}

/// The free runs once the bits `[s, s + size)` of `b` are cleared: the runs
/// that touch that range merge with it into one.
fn add_idle(
    idles: &Vec<(usize, usize)>,
    s: usize,
    size: usize,
    Ghost(b): Ghost<Seq<bool>>,
) -> (r: Vec<(usize, usize)>)
    requires
        runs_ok(b, idles@),
        size > 0,
        s + size <= b.len(),
        b.len() <= usize::MAX,
    ensures
        runs_ok(with_range(b, b.len(), s as int, size as int, false), r@),
{
    let ghost runs = idles@;
    let ghost nb = with_range(b, b.len(), s as int, size as int, false);
    let n = idles.len();
    let mut i: usize = 0;
    while i < n && idles[i].0 + idles[i].1 < s
        invariant
            n == runs.len(),
            runs == idles@,
            runs_ok(b, runs),
            b.len() <= usize::MAX,
            i <= n,
            forall|k: int| #![trigger runs[k]] 0 <= k < i ==> runs[k].0 + runs[k].1 < s,
        decreases n - i,
    {
        assert(is_run(b, runs[i as int].0 as int, runs[i as int].1 as int));
        i = i + 1;
    }
    let end = s + size;
    let mut a: usize = s;
    let mut e: usize = end;
    let mut j: usize = i;
    while j < n && idles[j].0 <= end
        invariant
            n == runs.len(),
            runs == idles@,
            runs_ok(b, runs),
            i <= j <= n,
            b.len() <= usize::MAX,
            end == s + size,
            s + size <= b.len(),
            i < n ==> runs[i as int].0 + runs[i as int].1 >= s,
            forall|k: int| #![trigger runs[k]] i <= k < j ==> runs[k].0 <= end,
            j == i ==> a == s && e == end,
            j > i ==> a == (if runs[i as int].0 < s { runs[i as int].0 } else { s }),
            j > i ==> e == (if runs[j - 1].0 + runs[j - 1].1 > end { runs[j - 1].0 + runs[j - 1].1 } else { end as int }),
            a <= s,
            e >= end,
            e <= b.len(),
        decreases n - j,
    {
        assert(is_run(b, runs[j as int].0 as int, runs[j as int].1 as int));
        if idles[j].0 < a {
            a = idles[j].0;
        }
        let stop = idles[j].0 + idles[j].1;
        if stop > e {
            e = stop;
        }
        proof {
            if j > i {
                lemma_runs_apart(b, runs, i as int, j as int);
                lemma_runs_apart(b, runs, j - 1, j as int);
            }
        }
        j = j + 1;
    }
    let mut out: Vec<(usize, usize)> = Vec::new();
    let mut k: usize = 0;
    while k < i
        invariant
            k <= i <= n,
            n == runs.len(),
            runs == idles@,
            out@ == runs.subrange(0, k as int),
        decreases i - k,
    {
        out.push(idles[k]);
        k = k + 1;
        assert(out@ =~= runs.subrange(0, k as int));
    }
    out.push((a, e - a));
    let mut k: usize = j;
    while k < n
        invariant
            j <= k <= n,
            n == runs.len(),
            runs == idles@,
            out@ == runs.subrange(0, i as int).push((a, (e - a) as usize)) + runs.subrange(j as int, k as int),
        decreases n - k,
    {
        out.push(idles[k]);
        k = k + 1;
        assert(out@ =~= runs.subrange(0, i as int).push((a, (e - a) as usize)) + runs.subrange(j as int, k as int));
    }
    proof {
        assert(j < n ==> runs[j as int].0 > end);
        assert(out@ =~= merged_runs(runs, i as int, j as int, a as int, e as int));
        lemma_merged_valid(b, runs, s as int, size as int, i as int, j as int, a as int, e as int);
        lemma_merged_sorted(b, runs, s as int, size as int, i as int, j as int, a as int, e as int);
        lemma_merged_covers(b, runs, s as int, size as int, i as int, j as int, a as int, e as int);
    }
    out
}

/// The free runs once the first `n` bits of the run listed at `k` are taken.
fn consumer_idle(idles: &mut Vec<(usize, usize)>, k: usize, n: usize, Ghost(b): Ghost<Seq<bool>>)
    requires
        runs_ok(b, old(idles)@),
        k < old(idles)@.len(),
        0 < n <= old(idles)@[k as int].1,
        b.len() <= usize::MAX,
    ensures
        runs_ok(
            with_range(b, b.len(), old(idles)@[k as int].0 as int, n as int, true),
            final(idles)@,
        ),
{
    let ghost runs = idles@;
    let (s, l) = idles[k];
    let ghost nb = with_range(b, b.len(), s as int, n as int, true);
    assert(is_run(b, s as int, l as int));
    if n < l {
        idles.set(k, (s + n, l - n));
        proof {
            let r = idles@;
            assert forall|x: int| #![trigger r[x]] 0 <= x < r.len() implies is_run(nb, r[x].0 as int, r[x].1 as int) by {
                if x != k {
                    assert(is_run(b, runs[x].0 as int, runs[x].1 as int));
                    if x < k {
                        lemma_runs_apart(b, runs, x, k as int);
                    } else {
                        lemma_runs_apart(b, runs, k as int, x);
                    }
                }
            }
            assert forall|t: int| 0 <= t < nb.len() && !#[trigger] nb[t] implies covered(r, t) by {
                assert(!b[t]);
                assert(covered(runs, t));
                let m = choose|m: int| #![trigger runs[m]] 0 <= m < runs.len() && runs[m].0 <= t < runs[m].0 + runs[m].1;
                assert(r[m].0 <= t < r[m].0 + r[m].1);
            }
            assert forall|x: int, y: int| #![trigger r[x], r[y]] 0 <= x < y < r.len() implies r[x].0 < r[y].0 by {
                if y == k {
                    assert(runs[x].0 < runs[y].0);
                } else if x == k {
                    lemma_runs_apart(b, runs, x, y);
                } else {
                    assert(runs[x].0 < runs[y].0);
                }
            }
        }
    } else {
        idles.remove(k);
        proof {
            let r = idles@;
            assert forall|x: int| #![trigger r[x]] 0 <= x < r.len() implies is_run(nb, r[x].0 as int, r[x].1 as int) by {
                let x2 = if x < k { x } else { x + 1 };
                assert(r[x] == runs[x2]);
                assert(is_run(b, runs[x2].0 as int, runs[x2].1 as int));
                if x2 < k {
                    lemma_runs_apart(b, runs, x2, k as int);
                } else {
                    lemma_runs_apart(b, runs, k as int, x2);
                }
            }
            assert forall|t: int| 0 <= t < nb.len() && !#[trigger] nb[t] implies covered(r, t) by {
                assert(!b[t]);
                assert(covered(runs, t));
                let m = choose|m: int| #![trigger runs[m]] 0 <= m < runs.len() && runs[m].0 <= t < runs[m].0 + runs[m].1;
                if m < k {
                    assert(r[m] == runs[m]);
                } else {
                    assert(m != k);
                    assert(r[m - 1] == runs[m]);
                }
            }
            assert forall|x: int, y: int| #![trigger r[x], r[y]] 0 <= x < y < r.len() implies r[x].0 < r[y].0 by {
                let x2 = if x < k { x } else { x + 1 };
                let y2 = if y < k { y } else { y + 1 };
                assert(r[x] == runs[x2] && r[y] == runs[y2]);
                assert(runs[x2].0 < runs[y2].0);
            }
        }
    }
}

/// The bits of the block pool and the list of their free runs.
pub struct BlockMeta {
    bits: Vec<u8>,
    idles: Vec<(usize, usize)>,
}

impl View for BlockMeta {
    type V = Seq<bool>;

    open spec fn view(&self) -> Seq<bool> {
        bits_of(self.bytes())
    }
}

impl BlockMeta {
    /// The bytes of the bitmap.
    pub closed spec fn bytes(&self) -> Seq<u8> {
        self.bits@
    }

    /// The bit count fits a `usize`, and the free runs are exactly the maximal
    /// runs of clear bits.
    pub closed spec fn wf(&self) -> bool {
        &&& self.bits@.len() * 8 <= usize::MAX
        &&& runs_ok(bits_of(self.bits@), self.idles@)
    }

    /// A well-formed map indexes every bit with a `usize`.
    pub proof fn lemma_wf(&self)
        requires
            self.wf(),
        ensures
            self.bytes().len() * 8 <= usize::MAX,
            self@.len() == self.bytes().len() * 8,
    {
    }

    /// The listed free runs, by ascending start.
    pub closed spec fn runs(&self) -> Seq<(usize, usize)> {
        self.idles@
    }

    /// The allocator state of the given bitmap bytes: its free runs are the
    /// maximal runs of clear bits.
    pub fn new(bits: Vec<u8>) -> (r: Self)
        requires
            bits@.len() * 8 <= usize::MAX,
        ensures
            r.wf(),
            r.bytes() == bits@,
            runs_ok(r@, r.runs()),
    {
        let idles = init_idles(&bits);
        BlockMeta { bits, idles }
    }

    /// The position in the run list of the best fit for `len` bits.
    fn find_idle(&self, len: usize) -> (r: Option<usize>)
        ensures
            match r {
                Some(k) => {
                    &&& k < self.idles@.len()
                    &&& self.idles@[k as int].1 >= len
                    &&& forall|l: int|
                        0 <= l < self.idles@.len() && self.idles@[l].1 >= len ==> self.idles@[l].1
                            > self.idles@[k as int].1 || (self.idles@[l].1
                            == self.idles@[k as int].1 && l >= k)
                },
                None => forall|l: int|
                    0 <= l < self.idles@.len() ==> #[trigger] self.idles@[l].1 < len,
            },
    {
        let mut found: Option<usize> = None;
        let mut k: usize = 0;
        while k < self.idles.len()
            invariant
                k <= self.idles@.len(),
                match found {
                    Some(f) => {
                        &&& f < k
                        &&& self.idles@[f as int].1 >= len
                        &&& forall|l: int|
                            0 <= l < k && self.idles@[l].1 >= len ==> self.idles@[l].1
                                > self.idles@[f as int].1 || (self.idles@[l].1
                                == self.idles@[f as int].1 && l >= f)
                    },
                    None => forall|l: int|
                        0 <= l < k ==> #[trigger] self.idles@[l].1 < len,
                },
            decreases self.idles@.len() - k,
        {
            let run_len = self.idles[k].1;
            if run_len >= len {
                match found {
                    Some(f) => {
                        if run_len < self.idles[f].1 {
                            found = Some(k);
                        }
                    },
                    None => {
                        found = Some(k);
                    },
                }
            }
            k = k + 1;
        }
        found
    }

    /// Clears `size` bits from `index`, merging them with the free runs
    /// around them.
    fn free(&mut self, index: usize, size: usize)
        requires
            old(self).wf(),
            index + size <= old(self)@.len(),
        ensures
            final(self).wf(),
            final(self)@ == with_range(
                old(self)@,
                old(self)@.len(),
                index as int,
                size as int,
                false,
            ),
    {
        let ghost b = self@;
        fill_bits(&mut self.bits, index, size, false);
        if size > 0 {
            self.idles = add_idle(&self.idles, index, size, Ghost(b));
        } else {
            assert(self@ =~= b);
        }
    }

    /// Takes `n` bits by best fit, or at the end of the map when no free run
    /// is long enough; returns where they start.
    fn consumer(&mut self, n: usize) -> (r: usize)
        requires
            old(self).wf(),
            old(self)@.len() + n + 8 <= usize::MAX,
        ensures
            final(self).wf(),
            malloc_result(old(self)@, n as int, r as int, final(self)@),
    {
        let ghost b = self@;
        match self.find_idle(n) {
            Some(k) => {
                let s = self.idles[k].0;
                let l = self.idles[k].1;
                proof {
                    let runs = self.idles@;
                    assert(runs[k as int] == (s, l));
                    assert(is_run(b, s as int, l as int));
                    assert forall|s2: int, l2: int|
                        is_run(b, s2, l2) && l2 >= n implies l2 > l || (l2 == l && s2 >= s) by {
                        let j = lemma_run_listed(b, runs, s2, l2);
                        assert(runs[j].1 >= n);
                        if j > k {
                            assert(runs[k as int].0 < runs[j].0);
                        }
                    }
                    assert(best_fit_run(b, s as int, l as int, n as int));
                    assert(has_fit(b, n as int));
                }
                fill_bits(&mut self.bits, s, n, true);
                if n > 0 {
                    consumer_idle(&mut self.idles, k, n, Ghost(b));
                } else {
                    assert(self@ =~= b);
                }
                s
            },
            None => {
                proof {
                    let runs = self.idles@;
                    assert forall|s2: int, l2: int| is_run(b, s2, l2) implies l2 < n by {
                        let j = lemma_run_listed(b, runs, s2, l2);
                        assert(runs[j].1 < n);
                    }
                }
                if n == 0 {
                    proof {
                        assert forall|i: int| 0 <= i < b.len() implies b[i] by {
                            if !b[i] {
                                assert(covered(self.idles@, i));
                                let j = choose|j: int|
                                    #![trigger self.idles@[j]] 0 <= j < self.idles@.len() && self.idles@[j].0 <= i
                                        < self.idles@[j].0 + self.idles@[j].1;
                                assert(self.idles@[j].1 < n);
                            }
                        }
                        assert(b =~= with_range(b, b.len(), b.len() as int, 0, true));
                    }
                    self.bits.len() * 8
                } else {
                    proof {
                        assert forall|t: int| !zero_window(b, t, n as int) by {
                            if zero_window(b, t, n as int) {
                                let j = lemma_window_listed(b, self.idles@, t, n as int);
                            }
                        }
                    }
                    let r = extend_with_run(&mut self.bits, n);
                    self.idles = init_idles(&self.bits);
                    r
                }
            },
        }
    }

    /// Empties the map.
    fn truncate(&mut self)
        ensures
            final(self).wf(),
            final(self).bytes().len() == 0,
    {
        self.bits = Vec::new();
        self.idles = Vec::new();
        assert(runs_ok(bits_of(self.bits@), self.idles@));
    }
}

/// What taking `n` bits from the map `b` leaves, with the run at `r`: the best
/// fit when some free run is long enough, the map unchanged in length and
/// those bits set; otherwise a run that starts at the clear bits ending the
/// map, which grows to hold it.
pub open spec fn malloc_result(b: Seq<bool>, n: int, r: int, after: Seq<bool>) -> bool {
    if has_fit(b, n) {
        &&& is_best_fit(b, r, n)
        &&& after == with_range(b, b.len(), r, n, true)
    } else {
        &&& forall|t: int| n > 0 ==> !zero_window(b, t, n)
        &&& is_tail_start(b, r)
        &&& after.len() == if n == 0 { b.len() as int } else { ((r + n + 7) / 8) * 8 }
        &&& after == with_range(b, after.len(), r, n, true)
    }
}

/// The end (exclusive) of the bytes that hold bits `[index, index + size)`.
pub open spec fn touched_end(index: int, size: int) -> int {
    if size == 0 { index / 8 } else { (index + size - 1) / 8 + 1 }
}

/// The block allocator: the bitmap, its free runs, and the version of its
/// last full flush.
pub struct BitMap {
    meta: BlockMeta,
    version: u64,
}

impl View for BitMap {
    type V = Seq<bool>;

    open spec fn view(&self) -> Seq<bool> {
        self.meta()@
    }
}

impl BitMap {
    pub closed spec fn meta(&self) -> BlockMeta {
        self.meta
    }

    /// The version recorded by the last full flush.
    pub closed spec fn spec_checkpoint(&self) -> u64 {
        self.version
    }

    pub open spec fn wf(&self) -> bool {
        self.meta().wf()
    }

    /// An allocator over the given bitmap bytes, with no recorded version.
    pub fn new(bits: Vec<u8>) -> (r: Self)
        requires
            bits@.len() * 8 <= usize::MAX,
        ensures
            r.wf(),
            r.meta().bytes() == bits@,
            r.spec_checkpoint() == 0,
    {
        BitMap { meta: BlockMeta::new(bits), version: 0 }
    }

    /// An allocator over a full image: the bitmap bytes followed by the
    /// big-endian version of the flush that wrote them. An image shorter than
    /// the version holds bitmap bytes only.
    pub fn load(image: &Vec<u8>) -> (r: Self)
        requires
            image@.len() * 8 <= usize::MAX,
        ensures
            r.wf(),
            image@.len() >= 8 ==> {
                &&& r.meta().bytes() == image@.subrange(0, image@.len() - 8)
                &&& r.spec_checkpoint() == crate::codec::u64_from_be(
                    image@.subrange(image@.len() - 8, image@.len() as int),
                )
            },
            image@.len() < 8 ==> r.meta().bytes() == image@ && r.spec_checkpoint() == 0,
    {
        let n = image.len();
        if n >= 8 {
            let bits = copy_range(image, 0, n - 8);
            let version = crate::codec::read_u64_be(image, n - 8);
            BitMap { meta: BlockMeta::new(bits), version }
        } else {
            BitMap { meta: BlockMeta::new(copy_range(image, 0, n)), version: 0 }
        }
    }

    /// The bytes of the bitmap.
    pub fn bits(&self) -> (r: &Vec<u8>)
        ensures
            r@ == self.meta().bytes(),
    {
        &self.meta.bits
    }

    /// The number of bits in the map.
    pub fn len(&self) -> (r: usize)
        requires
            self.wf(),
        ensures
            r == self@.len(),
    {
        proof {
            self.meta.lemma_wf();
        }
        self.meta.bits.len() * 8
    }

    /// Bit `bit_index` of `byte`, counting from the most significant bit.
    pub fn get_bit(&self, byte: u8, bit_index: u8) -> (r: u8)
        requires
            bit_index < 8,
        ensures
            r == bit_of(byte, bit_index),
    {
        get_bit(byte, bit_index)
    }

    /// The start of the leftmost run of `n` free bits, if any (none for `n == 0`).
    pub fn find_next_n_zeros(&self, n: usize) -> (r: Option<usize>)
        requires
            self.wf(),
        ensures
            match r {
                Some(s) => n > 0 && is_first_window(self@, s as int, n as int),
                None => n == 0 || forall|t: int| !zero_window(self@, t, n as int),
            },
    {
        proof {
            self.meta.lemma_wf();
        }
        first_zero_window(&self.meta.bits, n)
    }

    /// Releases the `n` bits from `start_index`, merging them with the free
    /// runs around them.
    pub fn free(&mut self, start_index: usize, n: usize)
        requires
            old(self).wf(),
            start_index + n <= old(self)@.len(),
        ensures
            final(self).wf(),
            final(self)@ == with_range(
                old(self)@,
                old(self)@.len(),
                start_index as int,
                n as int,
                false,
            ),
            final(self).spec_checkpoint() == old(self).spec_checkpoint(),
    {
        self.meta.free(start_index, n);
    }

    /// Takes `n` consecutive free bits: the start of the shortest free run
    /// that is long enough (the first of equal ones); when none is, a run at
    /// the end of the map, which grows as needed.
    pub fn malloc(&mut self, n: usize) -> (r: usize)
        requires
            old(self).wf(),
            old(self)@.len() + n + 8 <= usize::MAX,
        ensures
            final(self).wf(),
            malloc_result(old(self)@, n as int, r as int, final(self)@),
            final(self).spec_checkpoint() == old(self).spec_checkpoint(),
    {
        self.meta.consumer(n)
    }

    /// The write that persists the bits touched by a change of `size` bits at
    /// `index`: the byte position `index / 8` and every byte from there that
    /// holds one of those bits, through byte `(index + size - 1) / 8`.
    pub fn flush(&self, index: usize, size: usize) -> (r: (usize, Vec<u8>))
        requires
            self.wf(),
            index + size <= self@.len(),
        ensures
            r.0 == index / 8,
            r.1@ == self.meta().bytes().subrange((index / 8) as int, touched_end(index as int, size as int)),
    {
        proof {
            self.meta.lemma_wf();
        }
        let pos = index / 8;
        let end = if size == 0 {
            pos
        } else {
            (index + size - 1) / 8 + 1
        };
        (pos, copy_range(&self.meta.bits, pos, end))
    }

    /// Records `version` as the checkpoint and returns the full image: the
    /// bitmap bytes followed by the big-endian version.
    pub fn flush_all(&mut self, version: u64) -> (r: Vec<u8>)
        requires
            old(self).wf(),
        ensures
            final(self).wf(),
            final(self)@ == old(self)@,
            final(self).meta().bytes() == old(self).meta().bytes(),
            final(self).spec_checkpoint() == version,
            r@ == old(self).meta().bytes() + u64_to_be(version),
    {
        self.version = version;
        let mut image = crate::codec::copy_all(&self.meta.bits);
        push_u64_be(&mut image, version);
        image
    }

    /// The version recorded by the last full flush, 0 if none.
    pub fn checkpoint(&self) -> (r: u64)
        ensures
            r == self.spec_checkpoint(),
    {
        self.version
    }

    /// Empties the map.
    pub fn truncate(&mut self)
        ensures
            final(self).wf(),
            final(self).meta().bytes().len() == 0,
            final(self).spec_checkpoint() == old(self).spec_checkpoint(),
    {
        self.meta.truncate();
    }
}

/// Releasing the run that `malloc` returned gives back the bits it found:
/// the same bits when a free run was long enough, and otherwise those bits
/// followed by clear ones.
pub proof fn lemma_free_undoes_malloc(b: Seq<bool>, n: int, r: int, after: Seq<bool>)
    requires
        n >= 0,
        malloc_result(b, n, r, after),
    ensures
        r + n <= after.len(),
        with_range(after, after.len(), r, n, false) == with_range(b, after.len(), 0, 0, false),
        has_fit(b, n) ==> with_range(after, after.len(), r, n, false) == b,
{
    if has_fit(b, n) {
        let l = choose|l: int| best_fit_run(b, r, l, n);
        assert(is_run(b, r, l));
        assert(with_range(after, after.len(), r, n, false) =~= b);
        assert(with_range(b, after.len(), 0, 0, false) =~= b);
    } else {
        if n > 0 {
            assert(!zero_window(b, r, n));
        }
        let z = with_range(b, after.len(), 0, 0, false);
        assert(with_range(after, after.len(), r, n, false) =~= z);
    }
}

} // verus!
