//! Repair of predicted timestamps.
//!
//! A longest non-decreasing subsequence of the predictions is kept; every run of other values
//! between two kept neighbours is filled in from them.

use crate::double::{interpolate, store};
use vstd::prelude::*;

verus! {

// ---------------------------------------------------------------------------
// The subsequence that is kept
// ---------------------------------------------------------------------------

/// The length of a longest non-decreasing subsequence of `data` that ends at `i`.
pub open spec fn chain_len(data: Seq<i64>, i: int) -> nat
    decreases i, 1int, 0int,
{
    if i < 0 {
        0
    } else {
        1 + longest_before(data, i, i)
    }
}

/// The largest [`chain_len`] among the positions below `j` that may precede `i`.
pub open spec fn longest_before(data: Seq<i64>, i: int, j: int) -> nat
    decreases i, 0int, j,
{
    if j <= 0 || j > i {
        0
    } else {
        let rest = longest_before(data, i, j - 1);
        let here = chain_len(data, j - 1);
        if data[j - 1] <= data[i] && here > rest {
            here
        } else {
            rest
        }
    }
}

/// Whether a longest subsequence that ends at `i` may come from `k`.
pub open spec fn is_link(data: Seq<i64>, i: int, k: int) -> bool {
    &&& 0 <= k < i
    &&& data[k] <= data[i]
    &&& chain_len(data, k) + 1 == chain_len(data, i)
}

/// The first link of `i` below `j`, or `-1`.
pub open spec fn first_link(data: Seq<i64>, i: int, j: int) -> int
    decreases j,
{
    if j <= 0 {
        -1
    } else {
        let earlier = first_link(data, i, j - 1);
        if earlier >= 0 {
            earlier
        } else if is_link(data, i, j - 1) {
            j - 1
        } else {
            -1
        }
    }
}

/// The first position below `j` with the largest [`chain_len`].
pub open spec fn first_peak(data: Seq<i64>, j: int) -> int
    decreases j,
{
    if j <= 1 {
        0
    } else {
        let earlier = first_peak(data, j - 1);
        if chain_len(data, j - 1) > chain_len(data, earlier) {
            j - 1
        } else {
            earlier
        }
    }
}

/// The positions of the subsequence that ends at `i`, each link the first possible one.
pub open spec fn chain(data: Seq<i64>, i: int) -> Seq<int>
    decreases i,
{
    let link = first_link(data, i, i);
    if 0 <= link < i {
        chain(data, link).push(i)
    } else {
        seq![i]
    }
}

/// The positions of `data` that the repair keeps.
pub open spec fn kept(data: Seq<i64>) -> Seq<int> {
    chain(data, first_peak(data, data.len() as int))
}

/// For each position whether the repair keeps it.
pub open spec fn keep_flags(data: Seq<i64>) -> Seq<bool> {
    Seq::new(data.len(), |k: int| kept(data).contains(k))
}

// ---------------------------------------------------------------------------
// The values that are filled in
// ---------------------------------------------------------------------------

/// Start of the run of positions that are not kept and that ends just before `k`, or at `k`.
pub open spec fn run_start(keep: Seq<bool>, k: int) -> int
    decreases k,
{
    if k <= 0 || keep[k - 1] {
        k
    } else {
        run_start(keep, k - 1)
    }
}

/// End, exclusive, of the run of positions that are not kept and that starts at `k`.
pub open spec fn run_end(keep: Seq<bool>, k: int) -> int
    decreases keep.len() - k,
{
    if k >= keep.len() || keep[k] {
        k
    } else {
        run_end(keep, k + 1)
    }
}

/// The repaired value at `k`.
///
/// A kept value stays. In a run of one or two, each takes the nearer kept neighbour, the left
/// one on a tie; a longer run is spaced evenly between the two. With one neighbour only, the
/// whole run takes its value.
pub open spec fn repaired(data: Seq<i64>, keep: Seq<bool>, k: int) -> int {
    let i = run_start(keep, k);
    let j = run_end(keep, k);
    if keep[k] {
        crate::double::stored(data[k] as int)
    } else if i > 0 && j < data.len() {
        let l = data[i - 1] as int;
        let r = data[j] as int;
        if j - i > 2 {
            crate::double::interpolated(l, r, j - i, k - i + 1)
        } else if k - (i - 1) <= j - k {
            crate::double::stored(l)
        } else {
            crate::double::stored(r)
        }
    } else if i > 0 {
        crate::double::stored(data[i - 1] as int)
    } else if j < data.len() {
        crate::double::stored(data[j] as int)
    } else {
        crate::double::stored(data[k] as int)
    }
}

/// The repaired sequence.
pub open spec fn repaired_all(data: Seq<i64>) -> Seq<int> {
    Seq::new(data.len(), |k: int| repaired(data, keep_flags(data), k))
}

// ---------------------------------------------------------------------------
// Facts about the kept subsequence
// ---------------------------------------------------------------------------

/// Whether `at` lists, in order, positions whose values do not decrease.
pub open spec fn is_non_decreasing_subsequence(data: Seq<i64>, at: Seq<int>) -> bool {
    &&& forall|a: int| 0 <= a < at.len() ==> 0 <= #[trigger] at[a] < data.len()
    &&& forall|a: int, b: int|
        0 <= a < b < at.len() ==> #[trigger] at[a] < #[trigger] at[b] && data[at[a]] <= data[at[b]]
}

proof fn lemma_longest_before(data: Seq<i64>, i: int, j: int)
    requires
        0 <= j <= i,
    ensures
        forall|k: int|
            0 <= k < j && data[k] <= data[i] ==> #[trigger] chain_len(data, k) <= longest_before(
                data,
                i,
                j,
            ),
        longest_before(data, i, j) > 0 ==> exists|k: int|
            0 <= k < j && data[k] <= data[i] && #[trigger] chain_len(data, k) == longest_before(
                data,
                i,
                j,
            ),
    decreases j,
{
    if j > 0 {
        lemma_longest_before(data, i, j - 1);
        let rest = longest_before(data, i, j - 1);
        let here = chain_len(data, j - 1);
        if data[j - 1] <= data[i] && here > rest {
            assert(longest_before(data, i, j) == here);
        } else if rest > 0 {
            let k = choose|k: int|
                0 <= k < j - 1 && data[k] <= data[i] && #[trigger] chain_len(data, k) == rest;
            assert(chain_len(data, k) == longest_before(data, i, j));
        }
    }
}

proof fn lemma_first_link(data: Seq<i64>, i: int, j: int)
    requires
        0 <= j <= i,
    ensures
        ({
            let p = first_link(data, i, j);
            &&& -1 <= p < j
            &&& p >= 0 ==> is_link(data, i, p)
            &&& forall|k: int| 0 <= k < j && (p < 0 || k < p) ==> !#[trigger] is_link(data, i, k)
        }),
    decreases j,
{
    if j > 0 {
        lemma_first_link(data, i, j - 1);
    }
}

/// A position without a link starts a subsequence; one with a link extends the linked one.
proof fn lemma_link_or_start(data: Seq<i64>, i: int)
    requires
        i >= 0,
    ensures
        first_link(data, i, i) < 0 <==> chain_len(data, i) == 1,
        -1 <= first_link(data, i, i) < i,
        first_link(data, i, i) >= 0 ==> is_link(data, i, first_link(data, i, i)),
{
    lemma_longest_before(data, i, i);
    lemma_first_link(data, i, i);
    if longest_before(data, i, i) > 0 {
        let k = choose|k: int|
            0 <= k < i && data[k] <= data[i] && #[trigger] chain_len(data, k) == longest_before(
                data,
                i,
                i,
            );
        assert(is_link(data, i, k));
    } else {
        assert forall|k: int| 0 <= k < i implies !#[trigger] is_link(data, i, k) by {
            assert(chain_len(data, k) >= 1);
        }
    }
}

proof fn lemma_chain(data: Seq<i64>, i: int)
    requires
        0 <= i < data.len(),
    ensures
        chain(data, i).len() == chain_len(data, i),
        chain(data, i).last() == i,
        is_non_decreasing_subsequence(data, chain(data, i)),
    decreases i,
{
    lemma_link_or_start(data, i);
    let p = first_link(data, i, i);
    if p >= 0 {
        lemma_chain(data, p);
        let before = chain(data, p);
        assert forall|a: int, b: int| 0 <= a < b < before.push(i).len() implies before.push(
            i,
        )[a] < #[trigger] before.push(i)[b] && data[#[trigger] before.push(i)[a]] <= data[before.push(
            i,
        )[b]] by {
            if b == before.len() {
                if a < before.len() - 1 {
                    assert(before[a] < before[before.len() - 1]);
                }
            } else {
                assert(before[a] < before[b]);
            }
        }
    }
}

proof fn lemma_first_peak(data: Seq<i64>, j: int)
    requires
        1 <= j <= data.len(),
    ensures
        0 <= first_peak(data, j) < j,
        forall|k: int|
            0 <= k < j ==> #[trigger] chain_len(data, k) <= chain_len(data, first_peak(data, j)),
        forall|k: int|
            0 <= k < first_peak(data, j) ==> #[trigger] chain_len(data, k) < chain_len(
                data,
                first_peak(data, j),
            ),
    decreases j,
{
    if j > 1 {
        lemma_first_peak(data, j - 1);
    }
}

/// No non-decreasing subsequence that ends where `at` ends is longer than [`chain_len`] there.
proof fn lemma_subsequence_bound(data: Seq<i64>, at: Seq<int>)
    requires
        is_non_decreasing_subsequence(data, at),
        at.len() > 0,
    ensures
        at.len() <= chain_len(data, at.last()),
    decreases at.len(),
{
    let i = at.last();
    assert(0 <= i);
    if at.len() > 1 {
        let before = at.drop_last();
        assert forall|a: int, b: int| 0 <= a < b < before.len() implies #[trigger] before[a]
            < #[trigger] before[b] && data[before[a]] <= data[before[b]] by {
            assert(at[a] < at[b]);
        }
        assert forall|a: int| 0 <= a < before.len() implies 0 <= #[trigger] before[a] < data.len() by {
            assert(0 <= at[a]);
        }
        lemma_subsequence_bound(data, before);
        assert(at[at.len() - 2] < at[at.len() - 1]);
        lemma_longest_before(data, i, i);
        assert(chain_len(data, before.last()) <= longest_before(data, i, i));
    }
}

/// What the repair keeps is a non-decreasing subsequence, and there is no longer one.
pub proof fn law_kept_is_longest(data: Seq<i64>)
    requires
        data.len() > 0,
    ensures
        is_non_decreasing_subsequence(data, kept(data)),
        forall|at: Seq<int>| #[trigger]
            is_non_decreasing_subsequence(data, at) ==> at.len() <= kept(data).len(),
{
    let n = data.len() as int;
    lemma_first_peak(data, n);
    lemma_chain(data, first_peak(data, n));
    assert forall|at: Seq<int>| #[trigger] is_non_decreasing_subsequence(data, at) implies at.len()
        <= kept(data).len() by {
        if at.len() > 0 {
            lemma_subsequence_bound(data, at);
            assert(0 <= at[at.len() - 1] < n);
            assert(chain_len(data, at.last()) <= chain_len(data, first_peak(data, n)));
        }
    }
}

/// Kept values are in order.
proof fn lemma_kept_in_order(data: Seq<i64>, a: int, b: int)
    requires
        0 <= a <= b < data.len(),
        keep_flags(data)[a],
        keep_flags(data)[b],
    ensures
        data[a] <= data[b],
{
    law_kept_is_longest(data);
    let at = kept(data);
    let x = choose|x: int| 0 <= x < at.len() && at[x] == a;
    let y = choose|y: int| 0 <= y < at.len() && at[y] == b;
    if x < y {
        assert(at[x] < at[y]);
    } else if y < x {
        assert(at[y] < at[x]);
    }
}

proof fn lemma_chain_len_bound(data: Seq<i64>, i: int)
    requires
        i >= 0,
    ensures
        1 <= chain_len(data, i) <= i + 1,
    decreases i,
{
    lemma_longest_before(data, i, i);
    if longest_before(data, i, i) > 0 {
        let k = choose|k: int|
            0 <= k < i && data[k] <= data[i] && #[trigger] chain_len(data, k) == longest_before(
                data,
                i,
                i,
            );
        lemma_chain_len_bound(data, k);
    }
}

/// The link of a position as the table holds it.
pub open spec fn link_option(data: Seq<i64>, i: int) -> Option<usize> {
    let p = first_link(data, i, i);
    if p < 0 {
        None
    } else {
        Some(p as usize)
    }
}

/// For each position the length of the longest subsequence that ends there, and its first link.
fn chain_table(data: &[i64]) -> (res: (Vec<usize>, Vec<Option<usize>>))
    ensures
        res.0.len() == data.len(),
        res.1.len() == data.len(),
        forall|i: int| 0 <= i < data.len() ==> #[trigger] res.0[i] == chain_len(data@, i),
        forall|i: int| 0 <= i < data.len() ==> #[trigger] res.1[i] == link_option(data@, i),
{
    let n: usize = data.len();
    let mut lens: Vec<usize> = Vec::new();
    let mut links: Vec<Option<usize>> = Vec::new();
    let mut i: usize = 0;
    while i < n
        invariant
            i <= n,
            n == data.len(),
            lens.len() == i,
            links.len() == i,
            forall|x: int| 0 <= x < i ==> #[trigger] lens[x] == chain_len(data@, x),
            forall|x: int| 0 <= x < i ==> #[trigger] links[x] == link_option(data@, x),
        decreases n - i,
    {
        let mut best: usize = 1;
        let mut link: Option<usize> = None;
        let mut j: usize = 0;
        while j < i
            invariant
                j <= i < n,
                n == data.len(),
                lens.len() == i,
                forall|x: int| 0 <= x < i ==> #[trigger] lens[x] == chain_len(data@, x),
                best == 1 + longest_before(data@, i as int, j as int),
                match link {
                    None => best == 1,
                    Some(p) => {
                        &&& p < j
                        &&& data@[p as int] <= data@[i as int]
                        &&& chain_len(data@, p as int) + 1 == best
                        &&& forall|x: int|
                            0 <= x < p && data@[x] <= data@[i as int] ==> #[trigger] chain_len(
                                data@,
                                x,
                            ) + 1 < best
                    },
                },
            decreases i - j,
        {
            proof {
                lemma_chain_len_bound(data@, j as int);
                lemma_longest_before(data@, i as int, j as int);
            }
            if data[j] <= data[i] && lens[j] + 1 > best {
                best = lens[j] + 1;
                link = Some(j);
            }
            j = j + 1;
        }
        proof {
            lemma_link_or_start(data@, i as int);
            lemma_first_link(data@, i as int, i as int);
            if let Some(p) = link {
                assert(is_link(data@, i as int, p as int));
            }
        }
        lens.push(best);
        links.push(link);
        i = i + 1;
    }
    (lens, links)
}

/// The first position with the largest entry.
fn find_peak(data: &[i64], lens: &Vec<usize>) -> (res: usize)
    requires
        data.len() > 0,
        lens.len() == data.len(),
        forall|i: int| 0 <= i < data.len() ==> #[trigger] lens[i] == chain_len(data@, i),
    ensures
        res == first_peak(data@, data.len() as int),
        res < data.len(),
{
    let mut res: usize = 0;
    let mut i: usize = 1;
    while i < lens.len()
        invariant
            1 <= i <= lens.len(),
            res < i,
            lens.len() == data.len(),
            forall|x: int| 0 <= x < data.len() ==> #[trigger] lens[x] == chain_len(data@, x),
            res == first_peak(data@, i as int),
        decreases lens.len() - i,
    {
        if lens[i] > lens[res] {
            res = i;
        }
        i = i + 1;
    }
    res
}

/// Marks the positions of the kept subsequence.
fn mark_kept(data: &[i64]) -> (res: Vec<bool>)
    requires
        data.len() > 0,
    ensures
        res@ == keep_flags(data@),
{
    let n: usize = data.len();
    let (lens, links) = chain_table(data);
    let peak: usize = find_peak(data, &lens);
    let mut res: Vec<bool> = Vec::new();
    let mut i: usize = 0;
    while i < n
        invariant
            i <= n,
            res.len() == i,
            forall|k: int| 0 <= k < i ==> !res[k],
        decreases n - i,
    {
        res.push(false);
        i = i + 1;
    }
    let mut at: usize = peak;
    let ghost mut rest: Seq<int> = chain(data@, peak as int);
    let mut more: bool = true;
    while more
        invariant
            n == data.len(),
            n == res.len(),
            at < n,
            links.len() == n,
            forall|i: int| 0 <= i < n ==> #[trigger] links[i] == link_option(data@, i),
            rest == if more {
                chain(data@, at as int)
            } else {
                Seq::<int>::empty()
            },
            forall|k: int|
                0 <= k < n ==> (#[trigger] res[k] || rest.contains(k) <==> kept(data@).contains(k)),
        decreases
            if more {
                at + 1
            } else {
                0
            },
    {
        proof {
            lemma_link_or_start(data@, at as int);
        }
        let ghost before = res@;
        let ghost whole = rest;
        res.set(at, true);
        let ghost here = at as int;
        match links[at] {
            Some(p) => {
                at = p;
                proof {
                    rest = chain(data@, p as int);
                    assert(whole == rest.push(here));
                    assert forall|k: int| whole.contains(k) implies rest.contains(k) || k == here by {
                        let x = choose|x: int| 0 <= x < whole.len() && whole[x] == k;
                        if x < rest.len() {
                            assert(rest[x] == k);
                        }
                    }
                    assert forall|k: int| rest.contains(k) || k == here implies whole.contains(k) by {
                        if k == here {
                            assert(whole[rest.len() as int] == k);
                        } else {
                            let x = choose|x: int| 0 <= x < rest.len() && rest[x] == k;
                            assert(whole[x] == k);
                        }
                    }
                }
            },
            None => {
                more = false;
                proof {
                    assert(whole == seq![here]);
                    assert(whole[0] == here);
                    rest = Seq::empty();
                    assert forall|k: int| whole.contains(k) implies k == here by {}
                    assert(whole.contains(here));
                }
            },
        }
        assert forall|k: int| 0 <= k < n implies (#[trigger] res[k] || rest.contains(k)
            <==> kept(data@).contains(k)) by {
            assert(before[k] || whole.contains(k) <==> kept(data@).contains(k));
        }
    }
    assert forall|k: int| 0 <= k < n implies res[k] == keep_flags(data@)[k] by {
        assert(!rest.contains(k));
    }
    assert(res@ =~= keep_flags(data@));
    res
}

proof fn lemma_run_end(keep: Seq<bool>, i: int, j: int)
    requires
        0 <= i <= j <= keep.len(),
        forall|x: int| i <= x < j ==> !keep[x],
        j < keep.len() ==> keep[j],
    ensures
        run_end(keep, i) == j,
    decreases j - i,
{
    if i < j {
        lemma_run_end(keep, i + 1, j);
    }
}

proof fn lemma_run_start(keep: Seq<bool>, i: int, k: int)
    requires
        0 <= i <= k <= keep.len(),
        forall|x: int| i <= x < k ==> !keep[x],
        i > 0 ==> keep[i - 1],
    ensures
        run_start(keep, k) == i,
    decreases k - i,
{
    if i < k {
        lemma_run_start(keep, i, k - 1);
    }
}

/// Repairs a sequence of timestamps: keeps a longest non-decreasing subsequence and fills in the
/// rest from the kept neighbours.
pub fn fix_timestamp(data: &[i64]) -> (res: Vec<i64>)
    ensures
        res.len() == data.len(),
        forall|k: int| 0 <= k < data.len() ==> #[trigger] res[k] == repaired_all(data@)[k],
        res@ == fixed(data@),
{
    let n: usize = data.len();
    let mut res: Vec<i64> = Vec::new();
    if n == 0 {
        return res;
    }
    let keep: Vec<bool> = mark_kept(data);
    let mut i: usize = 0;
    while i < n
        invariant
            i <= n,
            n == data.len(),
            keep@ == keep_flags(data@),
            keep.len() == n,
            res.len() == i,
            0 < i < n ==> keep[i - 1] || keep[i as int],
            forall|k: int| 0 <= k < i ==> #[trigger] res[k] == repaired(data@, keep@, k),
        decreases n - i,
    {
        if keep[i] {
            res.push(store(data[i]));
            i = i + 1;
        } else {
            let mut j: usize = i;
            while j < n && !keep[j]
                invariant
                    i <= j <= n,
                    n == keep.len(),
                    forall|x: int| i <= x < j ==> !keep[x],
                decreases n - j,
            {
                j = j + 1;
            }
            assert(j > i) by {
                if j == i {
                    assert(keep[i as int]);
                }
            }
            let count: usize = j - i;
            let left: bool = i > 0;
            let right: bool = j < n;
            if left && right {
                proof {
                    lemma_kept_in_order(data@, i - 1, j as int);
                }
            }
            let mut k: usize = i;
            while k < j
                invariant
                    i <= k <= j <= n,
                    i < j,
                    n == data.len(),
                    keep@ == keep_flags(data@),
                    keep.len() == n,
                    count == j - i,
                    left == (i > 0),
                    right == (j < n),
                    left ==> keep[i - 1],
                    right ==> keep[j as int],
                    left && right ==> data[i - 1] <= data[j as int],
                    forall|x: int| i <= x < j ==> !keep[x],
                    res.len() == k,
                    forall|x: int| 0 <= x < k ==> #[trigger] res[x] == repaired(data@, keep@, x),
                decreases j - k,
            {
                proof {
                    lemma_run_start(keep@, i as int, k as int);
                    lemma_run_end(keep@, k as int, j as int);
                }
                let value: i64 = if left && right {
                    if count <= 2 {
                        if k - i + 1 <= j - k {
                            store(data[i - 1])
                        } else {
                            store(data[j])
                        }
                    } else {
                        interpolate(data[i - 1], data[j], count, k - i + 1)
                    }
                } else if left {
                    store(data[i - 1])
                } else if right {
                    store(data[j])
                } else {
                    store(data[k])
                };
                res.push(value);
                k = k + 1;
            }
            i = j;
        }
    }
    res
}

// ---------------------------------------------------------------------------
// Laws of the repair
// ---------------------------------------------------------------------------

proof fn lemma_run(keep: Seq<bool>, k: int)
    requires
        0 <= k < keep.len(),
        !keep[k],
    ensures
        0 <= run_start(keep, k) <= k < run_end(keep, k) <= keep.len(),
        forall|x: int| run_start(keep, k) <= x < run_end(keep, k) ==> !#[trigger] keep[x],
        run_start(keep, k) > 0 ==> keep[run_start(keep, k) - 1],
        run_end(keep, k) < keep.len() ==> keep[run_end(keep, k)],
{
    lemma_run_down(keep, k);
    lemma_run_up(keep, k);
}

proof fn lemma_run_down(keep: Seq<bool>, k: int)
    requires
        0 <= k <= keep.len(),
    ensures
        0 <= run_start(keep, k) <= k,
        forall|x: int| run_start(keep, k) <= x < k ==> !#[trigger] keep[x],
        run_start(keep, k) > 0 ==> keep[run_start(keep, k) - 1],
    decreases k,
{
    if k > 0 && !keep[k - 1] {
        lemma_run_down(keep, k - 1);
    }
}

proof fn lemma_run_up(keep: Seq<bool>, k: int)
    requires
        0 <= k <= keep.len(),
    ensures
        k <= run_end(keep, k) <= keep.len(),
        forall|x: int| k <= x < run_end(keep, k) ==> !#[trigger] keep[x],
        run_end(keep, k) < keep.len() ==> keep[run_end(keep, k)],
    decreases keep.len() - k,
{
    if k < keep.len() && !keep[k] {
        lemma_run_up(keep, k + 1);
    }
}

proof fn lemma_stored_in_order(x: i64, y: i64)
    requires
        x <= y,
    ensures
        crate::double::stored(x as int) <= crate::double::stored(y as int),
{
    let u = crate::double::unit();
    vstd::arithmetic::power2::lemma_pow2_pos(1074);
    assert(x * u * 1 <= y * u * 1) by (nonlinear_arith)
        requires
            x <= y,
            u > 0,
    ;
    crate::double::lemma_nearest_monotone(x * u, 1, y * u, 1);
    crate::double::lemma_to_i64_monotone(
        crate::double::double_of(x as int),
        crate::double::double_of(y as int),
    );
}

/// A repaired value is at most every kept one to its right, and at least every one to its left.
proof fn lemma_between_kept(data: Seq<i64>, a: int, c: int)
    requires
        0 <= a < data.len() <= 0x8_0000_0000_0000,
        0 <= c < data.len(),
        keep_flags(data)[c],
    ensures
        a <= c ==> repaired(data, keep_flags(data), a) <= crate::double::stored(data[c] as int),
        a >= c ==> repaired(data, keep_flags(data), a) >= crate::double::stored(data[c] as int),
{
    let keep = keep_flags(data);
    if keep[a] {
        if a <= c {
            lemma_kept_in_order(data, a, c);
            lemma_stored_in_order(data[a], data[c]);
        } else {
            lemma_kept_in_order(data, c, a);
            lemma_stored_in_order(data[c], data[a]);
        }
    } else {
        lemma_run(keep, a);
        let i = run_start(keep, a);
        let j = run_end(keep, a);
        if i > 0 && j < data.len() {
            lemma_kept_in_order(data, i - 1, j);
            lemma_stored_in_order(data[i - 1], data[j]);
            if j - i > 2 {
                crate::double::lemma_interpolated_order(
                    data[i - 1] as int,
                    data[j] as int,
                    j - i,
                    a - i + 1,
                    a - i + 1,
                );
            }
        }
        if a <= c {
            assert(j <= c) by {
                if c < j {
                    assert(!keep[c]);
                }
            }
            lemma_kept_in_order(data, j, c);
            lemma_stored_in_order(data[j], data[c]);
            if i > 0 {
                lemma_kept_in_order(data, i - 1, c);
            }
        } else {
            assert(c <= i - 1) by {
                if c >= i {
                    assert(!keep[c]);
                }
            }
            lemma_kept_in_order(data, c, i - 1);
            lemma_stored_in_order(data[c], data[i - 1]);
        }
    }
}

/// The repaired sequence does not decrease.
///
/// The bound on the length is one of memory: it is beyond what can be allocated.
pub proof fn law_repaired_in_order(data: Seq<i64>, a: int, b: int)
    requires
        data.len() <= 0x8_0000_0000_0000,
        0 <= a <= b < data.len(),
    ensures
        repaired_all(data)[a] <= repaired_all(data)[b],
{
    let keep = keep_flags(data);
    if keep[a] {
        lemma_between_kept(data, b, a);
    } else if keep[b] {
        lemma_between_kept(data, a, b);
    } else {
        lemma_run(keep, a);
        lemma_run(keep, b);
        let i = run_start(keep, a);
        let j = run_end(keep, a);
        if j <= b {
            lemma_between_kept(data, a, j);
            lemma_between_kept(data, b, j);
        } else {
            lemma_run_start(keep, i, b);
            lemma_run_end(keep, b, j);
            if i > 0 && j < data.len() {
                lemma_kept_in_order(data, i - 1, j);
                lemma_stored_in_order(data[i - 1], data[j]);
                if j - i > 2 {
                    crate::double::lemma_interpolated_order(
                        data[i - 1] as int,
                        data[j] as int,
                        j - i,
                        a - i + 1,
                        b - i + 1,
                    );
                }
            } else if i == 0 && j == data.len() {
                // Something is always kept.
                law_kept_is_longest(data);
                lemma_first_peak(data, data.len() as int);
                let top = first_peak(data, data.len() as int);
                lemma_chain(data, top);
                assert(kept(data)[kept(data).len() - 1] == top);
                assert(keep[top]);
            }
        }
    }
}

proof fn lemma_sorted_chain(data: Seq<i64>, i: int)
    requires
        0 <= i < data.len(),
        forall|a: int, b: int| 0 <= a <= b < data.len() ==> data[a] <= data[b],
    ensures
        chain_len(data, i) == i + 1,
        forall|k: int| 0 <= k <= i ==> #[trigger] chain(data, i).contains(k),
    decreases i,
{
    lemma_link_or_start(data, i);
    lemma_first_link(data, i, i);
    if i > 0 {
        lemma_sorted_chain(data, i - 1);
        lemma_longest_before(data, i, i);
        lemma_chain_len_bound(data, i);
        assert(chain_len(data, i - 1) <= longest_before(data, i, i));
        let p = first_link(data, i, i);
        lemma_chain_len_bound(data, p);
        assert(p == i - 1);
        let before = chain(data, p);
        assert forall|k: int| 0 <= k <= i implies #[trigger] chain(data, i).contains(k) by {
            if k < i {
                assert(before.contains(k));
                let x = choose|x: int| 0 <= x < before.len() && before[x] == k;
                assert(before.push(i)[x] == k);
            } else {
                assert(before.push(i)[before.len() as int] == i);
            }
        }
    } else {
        lemma_chain_len_bound(data, 0);
        assert(chain(data, 0)[0] == 0);
    }
}

/// A sequence that does not decrease, of values that binary64 holds, is left as it is.
pub proof fn law_in_order_unchanged(data: Seq<i64>, k: int)
    requires
        forall|a: int, b: int| 0 <= a <= b < data.len() ==> data[a] <= data[b],
        0 <= k < data.len(),
        crate::double::stored(data[k] as int) == data[k],
    ensures
        repaired_all(data)[k] == data[k],
{
    let n = data.len() as int;
    let top = first_peak(data, n);
    lemma_first_peak(data, n);
    lemma_sorted_chain(data, n - 1);
    lemma_sorted_chain(data, top);
    assert(chain_len(data, n - 1) <= chain_len(data, top));
    assert(top == n - 1);
    assert(kept(data).contains(k));
}

/// Every repaired value is one that binary64 holds, and so is one of an `i64`.
proof fn lemma_repaired_stored(data: Seq<i64>, k: int)
    requires
        0 <= k < data.len(),
    ensures
        crate::double::stored(repaired_all(data)[k]) == repaired_all(data)[k],
        i64::MIN <= repaired_all(data)[k] <= i64::MAX,
{
    let keep = keep_flags(data);
    let i = run_start(keep, k);
    let j = run_end(keep, k);
    let u = crate::double::unit();
    lemma_run_down(keep, k);
    lemma_run_up(keep, k);
    if !keep[k] && i > 0 && j < data.len() && j - i > 2 {
        let l = crate::double::double_of(data[i - 1] as int);
        let r = crate::double::double_of(data[j] as int);
        let step = crate::double::double_div(
            crate::double::double_sub(r, l),
            crate::double::double_add(
                crate::double::double_of(j - i),
                crate::double::double_of(1),
            ),
        );
        let rise = crate::double::double_mul(step, crate::double::double_of(k - i + 1));
        crate::double::law_cut_is_stored_exactly(l + rise, 1);
    } else {
        let x = if keep[k] {
            k
        } else if i > 0 && j < data.len() {
            if k - (i - 1) <= j - k {
                i - 1
            } else {
                j
            }
        } else if i > 0 {
            i - 1
        } else if j < data.len() {
            j
        } else {
            k
        };
        crate::double::law_cut_is_stored_exactly(data[x] * u, 1);
    }
}

/// The repaired sequence, as the numbers that [`fix_timestamp`] returns.
pub open spec fn fixed(data: Seq<i64>) -> Seq<i64> {
    repaired_all(data).map_values(|x: int| x as i64)
}

/// The links of a subsequence: each position is the first that the next one may come from.
proof fn lemma_chain_links(data: Seq<i64>, i: int, x: int)
    requires
        0 <= i < data.len(),
        0 <= x < chain(data, i).len(),
    ensures
        ({
            let c = chain(data, i);
            &&& 0 <= c[x] < data.len()
            &&& chain_len(data, c[x]) == x + 1
            &&& x + 1 < c.len() ==> c[x] == first_link(data, c[x + 1], c[x + 1])
        }),
    decreases i,
{
    lemma_chain(data, i);
    lemma_link_or_start(data, i);
    let p = first_link(data, i, i);
    if p >= 0 {
        let before = chain(data, p);
        lemma_chain(data, p);
        if x < before.len() {
            lemma_chain_links(data, p, x);
            if x + 1 == before.len() {
                assert(before[x] == p);
            }
        }
    }
}

/// Of all longest non-decreasing subsequences the one that comes first is kept: compared from the
/// end, its positions are the smallest.
pub proof fn law_kept_comes_first(data: Seq<i64>, at: Seq<int>, x: int)
    requires
        data.len() > 0,
        is_non_decreasing_subsequence(data, at),
        at.len() == kept(data).len(),
        0 <= x < at.len(),
        forall|y: int| x < y < at.len() ==> #[trigger] at[y] == kept(data)[y],
    ensures
        kept(data)[x] <= at[x],
{
    let n = data.len() as int;
    let top = first_peak(data, n);
    let c = kept(data);
    lemma_first_peak(data, n);
    lemma_chain(data, top);
    lemma_chain_links(data, top, x);
    let part = at.take(x + 1);
    assert forall|a: int| 0 <= a < part.len() implies 0 <= #[trigger] part[a] < data.len() by {
        assert(part[a] == at[a]);
    }
    assert forall|a: int, b: int| 0 <= a < b < part.len() implies #[trigger] part[a]
        < #[trigger] part[b] && data[part[a]] <= data[part[b]] by {
        assert(part[a] == at[a] && part[b] == at[b]);
    }
    lemma_subsequence_bound(data, part);
    assert(part.last() == at[x]);
    assert(0 <= at[x] < n);
    if x + 1 == at.len() {
        assert(c[x] == top);
        assert(chain_len(data, at[x]) <= chain_len(data, top));
    } else {
        let next = c[x + 1];
        assert(at[x + 1] == next);
        assert(at[x] < at[x + 1] && data[at[x]] <= data[at[x + 1]]);
        lemma_chain_links(data, top, x + 1);
        lemma_longest_before(data, next, next);
        assert(chain_len(data, at[x]) <= longest_before(data, next, next));
        assert(is_link(data, next, at[x]));
        lemma_first_link(data, next, next);
    }
}

proof fn lemma_between_neighbours(data: Seq<i64>, x: int, k: int)
    requires
        data.len() > 0,
        -1 <= x < kept(data).len(),
        0 <= k < data.len(),
        x >= 0 ==> kept(data)[x] < k,
        x + 1 < kept(data).len() ==> k < kept(data)[x + 1],
    ensures
        ({
            let keep = keep_flags(data);
            let at = kept(data);
            &&& !keep[k]
            &&& run_start(keep, k) == if x >= 0 {
                at[x] + 1
            } else {
                0
            }
            &&& run_end(keep, k) == if x + 1 < at.len() {
                at[x + 1]
            } else {
                data.len() as int
            }
        }),
{
    let keep = keep_flags(data);
    let at = kept(data);
    let n = data.len() as int;
    law_kept_is_longest(data);
    let i = if x >= 0 {
        at[x] + 1
    } else {
        0
    };
    let j = if x + 1 < at.len() {
        at[x + 1]
    } else {
        n
    };
    assert forall|y: int| i <= y < j implies !#[trigger] keep[y] by {
        if at.contains(y) {
            let z = choose|z: int| 0 <= z < at.len() && at[z] == y;
            if z < x {
                assert(at[z] < at[x]);
            } else if z > x + 1 {
                assert(at[x + 1] < at[z]);
            }
        }
    }
    if x >= 0 {
        assert(0 <= at[x] < n);
        assert(at.contains(at[x]));
        assert(keep[i - 1]);
    }
    if x + 1 < at.len() {
        assert(0 <= at[x + 1] < n);
        assert(at.contains(at[x + 1]));
        assert(keep[j]);
    }
    lemma_run_start(keep, i, k);
    lemma_run_end(keep, k, j);
    assert(!keep[k]);
}

/// The repaired values, by the positions that are kept. A kept value stays. One or two values
/// between two kept neighbours take the value of the nearer one, the left one on a tie; more are
/// spaced evenly between the two. What is before the first kept value, or behind the last, takes
/// its value.
pub proof fn law_repaired_from_kept_neighbours(data: Seq<i64>, x: int, k: int)
    requires
        data.len() > 0,
        -1 <= x < kept(data).len(),
        0 <= k < data.len(),
        x >= 0 ==> kept(data)[x] <= k,
        x + 1 < kept(data).len() ==> k < kept(data)[x + 1],
    ensures
        ({
            let at = kept(data);
            let value = repaired_all(data)[k];
            if x < 0 {
                value == crate::double::stored(data[at[0]] as int)
            } else if k == at[x] || x + 1 == at.len() {
                value == crate::double::stored(data[at[x]] as int)
            } else {
                let l = data[at[x]] as int;
                let r = data[at[x + 1]] as int;
                let count = at[x + 1] - at[x] - 1;
                if count > 2 {
                    value == crate::double::interpolated(l, r, count, k - at[x])
                } else if k - at[x] <= at[x + 1] - k {
                    value == crate::double::stored(l)
                } else {
                    value == crate::double::stored(r)
                }
            }
        }),
{
    let at = kept(data);
    law_kept_is_longest(data);
    let one = seq![0int];
    assert(is_non_decreasing_subsequence(data, one));
    assert(at.len() >= 1);
    if x >= 0 && k == at[x] {
        assert(at.contains(k));
    } else {
        lemma_between_neighbours(data, x, k);
    }
}

/// Times of ordinary size: kept ones stay as they are, short gaps are filled with a neighbour, and
/// what is between two kept times that whole numbers divide evenly gets these numbers.
pub proof fn law_repaired_times(data: Seq<i64>, x: int, k: int, s: int)
    requires
        data.len() <= 0x8_0000_0000_0000,
        forall|i: int|
            0 <= i < data.len() ==> -0x10_0000_0000_0000 <= #[trigger] data[i]
                <= 0x10_0000_0000_0000,
        0 <= x < kept(data).len(),
        0 <= k < data.len(),
        kept(data)[x] <= k,
        x + 1 < kept(data).len() ==> k < kept(data)[x + 1],
    ensures
        ({
            let at = kept(data);
            let count = at[x + 1] - at[x] - 1;
            &&& fixed(data).len() == data.len()
            &&& k == at[x] || x + 1 == at.len() ==> fixed(data)[k] == data[at[x]]
            &&& k > at[x] && x + 1 < at.len() && count <= 2 ==> fixed(data)[k] == if k - at[x]
                <= at[x + 1] - k {
                data[at[x]]
            } else {
                data[at[x + 1]]
            }
            &&& k > at[x] && x + 1 < at.len() && count > 2 && s >= 0 && data[at[x + 1]]
                == data[at[x]] + (count + 1) * s ==> fixed(data)[k] == data[at[x]] + (k - at[x]) * s
        }),
{
    let at = kept(data);
    law_kept_is_longest(data);
    law_repaired_from_kept_neighbours(data, x, k);
    lemma_repaired_stored(data, k);
    assert(0 <= at[x] < data.len());
    crate::double::law_stored_exact(data[at[x]] as int);
    if x + 1 < at.len() {
        assert(at[x] < at[x + 1] < data.len());
        crate::double::law_stored_exact(data[at[x + 1]] as int);
        let count = at[x + 1] - at[x] - 1;
        if k > at[x] && count > 2 && s >= 0 && data[at[x + 1]] == data[at[x]] + (count + 1) * s {
            crate::double::law_even_spacing_is_exact(data[at[x]] as int, s, count, k - at[x]);
        }
    }
}

/// Repairing a repaired sequence changes nothing.
///
/// The bound on the length is one of memory: it is beyond what can be allocated.
pub proof fn law_repair_is_idempotent(data: Seq<i64>)
    requires
        data.len() <= 0x8_0000_0000_0000,
    ensures
        fixed(fixed(data)) == fixed(data),
{
    let once = fixed(data);
    assert forall|k: int| 0 <= k < once.len() implies once[k] == repaired_all(data)[k] by {
        lemma_repaired_stored(data, k);
    }
    assert forall|a: int, b: int| 0 <= a <= b < once.len() implies once[a] <= once[b] by {
        law_repaired_in_order(data, a, b);
    }
    assert forall|k: int| 0 <= k < once.len() implies fixed(once)[k] == once[k] by {
        lemma_repaired_stored(data, k);
        law_in_order_unchanged(once, k);
    }
    assert(fixed(once) =~= once);
}

/// Times that are not negative stay so.
///
/// The bound on the length is one of memory: it is beyond what can be allocated.
pub proof fn law_repaired_not_negative(data: Seq<i64>, k: int)
    requires
        data.len() <= 0x8_0000_0000_0000,
        0 <= k < data.len(),
        forall|i: int| 0 <= i < data.len() ==> #[trigger] data[i] >= 0,
    ensures
        repaired_all(data)[k] >= 0,
{
    let keep = keep_flags(data);
    crate::double::law_stored_exact(0);
    // The first value is one that was predicted, and none is smaller.
    law_repaired_in_order(data, 0, k);
    lemma_run_up(keep, 0);
    let j = run_end(keep, 0);
    if keep[0] || j == data.len() {
        lemma_stored_in_order(0, data[0]);
    } else {
        lemma_stored_in_order(0, data[j]);
    }
}

} // verus!
