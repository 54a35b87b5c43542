//! Sliding-window minima over a stream of hashes.
//!
//! Every window of `w` consecutive hashes yields the position and the value
//! of its minimum; among equal values the leftmost wins. The selectors below
//! differ in how much work they do per window, never in what they return.

use vstd::prelude::*;
use crate::error::InvalidParameter;

verus! {

/// `p` is the position of the leftmost minimum of `h[start .. start + w]`.
pub open spec fn is_window_min(h: Seq<u64>, start: int, w: int, p: int) -> bool {
    &&& start <= p < start + w
    &&& forall|j: int| start <= j < start + w ==> h[p] <= #[trigger] h[j]
    &&& forall|j: int| start <= j < p ==> h[p] < #[trigger] h[j]
}

/// The position of the leftmost minimum of `h[start .. start + w]`.
pub open spec fn argmin(h: Seq<u64>, start: int, w: int) -> int
    decreases w,
{
    if w <= 1 {
        start
    } else {
        let p = argmin(h, start, w - 1);
        if h[start + w - 1] < h[p] {
            start + w - 1
        } else {
            p
        }
    }
}

/// The number of windows of length `w` in a stream of `m` hashes.
pub open spec fn window_count(m: int, w: int) -> nat {
    if m >= w {
        (m - w + 1) as nat
    } else {
        0
    }
}

/// The minimizer of every window: its position in the stream and its hash.
pub open spec fn window_minima(h: Seq<u64>, w: int) -> Seq<(usize, u64)> {
    Seq::new(
        window_count(h.len() as int, w),
        |i: int|
            {
                let p = argmin(h, i, w);
                (p as usize, h[p])
            },
    )
}

/// The leftmost minimum of a window is where `argmin` says.
pub proof fn lemma_argmin_is_min(h: Seq<u64>, start: int, w: int)
    requires
        1 <= w,
    ensures
        is_window_min(h, start, w, argmin(h, start, w)),
    decreases w,
{
    if w > 1 {
        lemma_argmin_is_min(h, start, w - 1);
    }
}

/// A window has one leftmost minimum.
pub proof fn lemma_min_unique(h: Seq<u64>, start: int, w: int, p: int, q: int)
    requires
        is_window_min(h, start, w, p),
        is_window_min(h, start, w, q),
    ensures
        p == q,
{
    if p < q {
        assert(h[q] < h[p]);
        assert(h[p] <= h[q]);
    } else if q < p {
        assert(h[p] < h[q]);
        assert(h[q] <= h[p]);
    }
}

/// A list that holds the leftmost minimum of each window is the list of
/// window minima.
pub proof fn lemma_minima_characterized(h: Seq<u64>, w: int, out: Seq<(usize, u64)>)
    requires
        1 <= w,
        out.len() == window_count(h.len() as int, w),
        forall|i: int|
            0 <= i < out.len() ==> is_window_min(h, i, w, (#[trigger] out[i]).0 as int)
                && out[i].1 == h[out[i].0 as int],
    ensures
        out == window_minima(h, w),
{
    assert forall|i: int| 0 <= i < out.len() implies out[i] == window_minima(h, w)[i] by {
        lemma_argmin_is_min(h, i, w);
        lemma_min_unique(h, i, w, out[i].0 as int, argmin(h, i, w));
    }
    assert(out =~= window_minima(h, w));
}

/// Finds the leftmost minimum of one window by looking at each of its hashes.
pub fn scan_window(h: &Vec<u64>, start: usize, w: usize) -> (p: usize)
    requires
        1 <= w,
        start + w <= h.len(),
    ensures
        is_window_min(h@, start as int, w as int, p as int),
{
    let mut p: usize = start;
    let mut j: usize = start + 1;
    while j < start + w
        invariant
            1 <= w,
            start + w <= h.len(),
            start < j <= start + w,
            is_window_min(h@, start as int, j - start, p as int),
        decreases start + w - j,
    {
        if h[j] < h[p] {
            p = j;
        }
        j = j + 1;
    }
    p
}

/// The naive selector: every window is scanned anew.
pub fn sliding_min_naive(h: &Vec<u64>, w: usize) -> (r: Result<
    Vec<(usize, u64)>,
    InvalidParameter,
>)
    ensures
        w == 0 ==> r == Err::<Vec<(usize, u64)>, InvalidParameter>(InvalidParameter::ZeroW),
        w != 0 ==> r.is_ok() && r.unwrap()@ == window_minima(h@, w as int),
{
    if w == 0 {
        return Err(InvalidParameter::ZeroW);
    }
    let m: usize = h.len();
    let mut out: Vec<(usize, u64)> = Vec::new();
    let mut i: usize = 0;
    while w <= m && i <= m - w
        invariant
            1 <= w,
            m == h.len(),
            i <= window_count(m as int, w as int),
            out.len() == i,
            forall|t: int|
                0 <= t < i ==> is_window_min(h@, t, w as int, (#[trigger] out@[t]).0 as int)
                    && out@[t].1 == h@[out@[t].0 as int],
        decreases m + 1 - i,
    {
        let p: usize = scan_window(h, i, w);
        out.push((p, h[p]));
        i = i + 1;
    }
    proof {
        lemma_minima_characterized(h@, w as int, out@);
    }
    Ok(out)
}

/// The rescanning selector: the minimum of the last window is kept, and the
/// window is scanned again only when that minimum has left it.
pub fn sliding_min_rescan(h: &Vec<u64>, w: usize) -> (r: Result<
    Vec<(usize, u64)>,
    InvalidParameter,
>)
    ensures
        w == 0 ==> r == Err::<Vec<(usize, u64)>, InvalidParameter>(InvalidParameter::ZeroW),
        w != 0 ==> r.is_ok() && r.unwrap()@ == window_minima(h@, w as int),
{
    if w == 0 {
        return Err(InvalidParameter::ZeroW);
    }
    let m: usize = h.len();
    let mut out: Vec<(usize, u64)> = Vec::new();
    if m < w {
        proof {
            lemma_minima_characterized(h@, w as int, out@);
        }
        return Ok(out);
    }
    let mut p: usize = scan_window(h, 0, w);
    out.push((p, h[p]));
    let mut i: usize = 1;
    while i <= m - w
        invariant
            1 <= w <= m,
            m == h.len(),
            1 <= i <= m - w + 1,
            out.len() == i,
            is_window_min(h@, i - 1, w as int, p as int),
            forall|t: int|
                0 <= t < i ==> is_window_min(h@, t, w as int, (#[trigger] out@[t]).0 as int)
                    && out@[t].1 == h@[out@[t].0 as int],
        decreases m - i,
    {
        let incoming: usize = i + (w - 1);
        if p < i {
            p = scan_window(h, i, w);
        } else if h[incoming] < h[p] {
            p = incoming;
        }
        out.push((p, h[p]));
        i = i + 1;
    }
    proof {
        lemma_minima_characterized(h@, w as int, out@);
    }
    Ok(out)
}

/// Position `j` lies in the stretch that queue entry `a` answers for.
pub open spec fn answers(lo: Seq<int>, a: int, j: int) -> bool {
    lo[a] <= j
}

/// The queue of candidates after the hashes up to `last` have come in.
/// Entry `a` stands at position `q[a]` and answers for the stretch of hashes
/// from `lo[a]` to `last`: it is the leftmost minimum there. Positions
/// ascend to `last`, the stretches follow one another without a gap, and
/// the front entry answers for everything from `start` on.
pub open spec fn queue_ok(
    h: Seq<u64>,
    q: Seq<usize>,
    lo: Seq<int>,
    head: int,
    start: int,
    last: int,
) -> bool {
    &&& 0 <= head < q.len()
    &&& q.len() == lo.len()
    &&& 0 <= last < h.len()
    &&& q[q.len() - 1] == last
    &&& lo[head] <= start
    &&& forall|a: int| #![trigger lo[a]] head <= a < q.len() ==> 0 <= lo[a]
    &&& forall|a: int| #![trigger q[a]] head <= a < q.len() ==> lo[a] <= q[a]
    &&& forall|a: int| #![trigger q[a]] head <= a < q.len() ==> q[a] <= last
    &&& forall|a: int, b: int| #![trigger q[a], q[b]] head <= a < b < q.len() ==> q[a] < q[b]
    &&& forall|a: int| #![trigger q[a]] head <= a < q.len() - 1 ==> lo[a + 1] <= q[a] + 1
    &&& forall|a: int, j: int|
        #![trigger answers(lo, a, j)]
        head <= a < q.len() && answers(lo, a, j) && j <= last ==> h[q[a] as int] <= h[j]
    &&& forall|a: int, j: int|
        #![trigger answers(lo, a, j)]
        head <= a < q.len() && answers(lo, a, j) && j < q[a] ==> h[q[a] as int] < h[j]
}

/// A new hash joins the queue behind the `kept` candidates that it did not
/// drop, and answers for the stretch from `gap` on, where it is smallest.
proof fn lemma_queue_push(
    h: Seq<u64>,
    q0: Seq<usize>,
    lo0: Seq<int>,
    head: int,
    start: int,
    idx: int,
    kept: int,
    gap: int,
)
    requires
        0 <= idx < h.len(),
        idx <= usize::MAX,
        head <= kept <= q0.len(),
        idx > 0 ==> queue_ok(h, q0, lo0, head, start, idx - 1),
        idx == 0 ==> q0.len() == 0 && head == 0 && start == 0,
        0 <= gap <= idx,
        kept == q0.len() ==> gap == idx,
        kept < q0.len() ==> gap == lo0[kept],
        forall|j: int| gap <= j < idx ==> h[idx] < #[trigger] h[j],
        kept > head ==> h[q0[kept - 1] as int] <= h[idx],
    ensures
        queue_ok(
            h,
            q0.subrange(0, kept).push(idx as usize),
            lo0.subrange(0, kept).push(gap),
            head,
            start,
            idx,
        ),
{
    let q1 = q0.subrange(0, kept).push(idx as usize);
    let lo1 = lo0.subrange(0, kept).push(gap);
    if idx > 0 {
        assert(q0[q0.len() - 1] == idx - 1);
        assert(lo0[head] <= start);
    }
    assert forall|a: int| head <= a < kept implies q1[a] == q0[a] && lo1[a] == lo0[a] by {}
    assert(q1[kept] == idx && lo1[kept] == gap);
    assert(lo1[head] <= start);
    assert forall|a: int| #![trigger q1[a]] head <= a < q1.len() implies 0 <= lo1[a] && lo1[a]
        <= q1[a] && q1[a] <= idx by {
        if a < kept {
            assert(0 <= lo0[a]);
        }
        if a < kept {
            assert(lo0[a] <= q0[a]);
        }
    }
    assert forall|a: int, b: int| #![trigger q1[a], q1[b]] head <= a < b < q1.len() implies q1[a]
        < q1[b] by {
        assert(q0[a] <= idx - 1);
        if b < kept {
            assert(q0[a] < q0[b]);
        }
    }
    assert forall|a: int| #![trigger q1[a]] head <= a < q1.len() - 1 implies lo1[a + 1] <= q1[a]
        + 1 by {
        assert(lo0[a + 1] <= q0[a] + 1 || a + 1 == q0.len());
    }
    assert forall|a: int, j: int|
        #![trigger answers(lo1, a, j)]
        head <= a < q1.len() && answers(lo1, a, j) && j <= idx implies h[q1[a] as int]
        <= h[j] by {
        if a < kept {
            if j < idx {
                assert(answers(lo0, a, j));
            } else {
                let b = kept - 1;
                assert(lo0[a] <= q0[a] <= q0[b] <= idx - 1);
                assert(answers(lo0, a, q0[b] as int));
                assert(h[q0[a] as int] <= h[q0[b] as int]);
            }
        }
    }
    assert forall|a: int, j: int|
        #![trigger answers(lo1, a, j)]
        head <= a < q1.len() && answers(lo1, a, j) && j < q1[a] implies h[q1[a] as int]
        < h[j] by {
        if a < kept {
            assert(answers(lo0, a, j));
        }
    }
}

/// The front candidate leaves when the window has passed it; the next one
/// then answers for the window.
proof fn lemma_queue_pop_front(
    h: Seq<u64>,
    q: Seq<usize>,
    lo: Seq<int>,
    head: int,
    start: int,
    last: int,
)
    requires
        queue_ok(h, q, lo, head, start, last),
        q[head] < start <= last,
    ensures
        head + 1 < q.len(),
        queue_ok(h, q, lo, head + 1, start, last),
{
    assert(q[q.len() - 1] == last);
    assert(head + 1 < q.len());
    assert(lo[head + 1] <= q[head] + 1);
}

/// The monotonic-queue selector: candidates wait in a queue with ascending
/// positions and hashes; an incoming hash drops every candidate behind it
/// that is larger, and a candidate leaves at the front when the window has
/// passed it.
pub fn sliding_min_queue(h: &Vec<u64>, w: usize) -> (r: Result<
    Vec<(usize, u64)>,
    InvalidParameter,
>)
    ensures
        w == 0 ==> r == Err::<Vec<(usize, u64)>, InvalidParameter>(InvalidParameter::ZeroW),
        w != 0 ==> r.is_ok() && r.unwrap()@ == window_minima(h@, w as int),
{
    if w == 0 {
        return Err(InvalidParameter::ZeroW);
    }
    let m: usize = h.len();
    let mut out: Vec<(usize, u64)> = Vec::new();
    let mut q: Vec<usize> = Vec::new();
    let ghost mut lo: Seq<int> = Seq::empty();
    let mut head: usize = 0;
    let mut idx: usize = 0;
    while idx < m
        invariant
            1 <= w,
            m == h.len(),
            idx <= m,
            idx == 0 ==> q.len() == 0 && head == 0,
            idx > 0 ==> queue_ok(
                h@,
                q@,
                lo,
                head as int,
                if idx >= w {
                    idx - w
                } else {
                    0
                },
                idx - 1,
            ),
            out.len() == window_count(idx as int, w as int),
            forall|t: int|
                0 <= t < out.len() ==> is_window_min(h@, t, w as int, (#[trigger] out@[t]).0 as int)
                    && out@[t].1 == h@[out@[t].0 as int],
        decreases m - idx,
    {
        let x: u64 = h[idx];
        let ghost start_old: int = if idx >= w {
            idx - w
        } else {
            0
        };
        let ghost q0 = q@;
        let ghost lo0 = lo;
        let ghost mut gap: int = idx as int;
        // Candidates behind the incoming hash that are larger can never win.
        loop
            invariant
                m == h.len(),
                idx < m,
                x == h@[idx as int],
                head <= q.len() <= q0.len(),
                q@ == q0.subrange(0, q.len() as int),
                idx > 0 ==> queue_ok(h@, q0, lo0, head as int, start_old, idx - 1),
                idx == 0 ==> q0.len() == 0 && head == 0,
                0 <= gap <= idx,
                q.len() == q0.len() ==> gap == idx,
                q.len() < q0.len() ==> gap == lo0[q.len() as int],
                forall|j: int| gap <= j < idx ==> x < #[trigger] h@[j],
            ensures
                q.len() > head ==> h@[q0[q.len() - 1] as int] <= x,
            decreases q.len(),
        {
            if q.len() <= head {
                break ;
            }
            let back: usize = q[q.len() - 1];
            proof {
                assert(back == q0[q.len() - 1]);
                assert(lo0[q.len() - 1] <= back <= idx - 1);
            }
            if h[back] <= x {
                break ;
            }
            proof {
                let a = q.len() - 1;
                assert forall|j: int| lo0[a] <= j < idx implies x < #[trigger] h@[j] by {
                    assert(answers(lo0, a, j));
                    assert(h@[q0[a] as int] <= h@[j]);
                }
                gap = lo0[a];
            }
            q.pop();
        }
        let ghost kept: int = q.len() as int;
        q.push(idx);
        let first: usize = if idx + 1 >= w {
            idx + 1 - w
        } else {
            0
        };
        proof {
            lemma_queue_push(h@, q0, lo0, head as int, start_old, idx as int, kept, gap);
            lo = lo0.subrange(0, kept).push(gap);
            assert(q@ =~= q0.subrange(0, kept).push(idx));
        }
        // The front leaves once the window has passed it.
        while q[head] < first
            invariant
                m == h.len(),
                idx < m,
                first <= idx,
                queue_ok(h@, q@, lo, head as int, first as int, idx as int),
            decreases q.len() - head,
        {
            proof {
                lemma_queue_pop_front(h@, q@, lo, head as int, first as int, idx as int);
            }
            head = head + 1;
        }
        if idx + 1 >= w {
            let p: usize = q[head];
            proof {
                assert(lo[head as int] <= first <= p <= idx);
                assert forall|j: int| first <= j < first + w implies h@[p as int]
                    <= #[trigger] h@[j] by {
                    assert(answers(lo, head as int, j));
                }
                assert forall|j: int| first <= j < p implies h@[p as int] < #[trigger] h@[j] by {
                    assert(answers(lo, head as int, j));
                }
                assert(is_window_min(h@, first as int, w as int, p as int));
            }
            out.push((p, h[p]));
        }
        idx = idx + 1;
    }
    proof {
        lemma_minima_characterized(h@, w as int, out@);
    }
    Ok(out)
}

/// The start of the block of length `w` that holds position `j`.
pub open spec fn block_start(j: int, w: int) -> int
    decreases j,
{
    if w <= 0 || j < w {
        0
    } else {
        block_start(j - w, w) + w
    }
}

/// A position lies in its block.
pub proof fn lemma_block_bounds(j: int, w: int)
    requires
        1 <= w,
        0 <= j,
    ensures
        0 <= block_start(j, w) <= j < block_start(j, w) + w,
    decreases j,
{
    if j >= w {
        lemma_block_bounds(j - w, w);
    }
}

/// Two positions of one block have one block start.
pub proof fn lemma_same_block(j: int, other: int, w: int)
    requires
        1 <= w,
        0 <= j,
        block_start(j, w) <= other < block_start(j, w) + w,
    ensures
        block_start(other, w) == block_start(j, w),
    decreases j,
{
    if j >= w {
        lemma_block_bounds(j - w, w);
        lemma_same_block(j - w, other - w, w);
    }
}

/// A window either is one block, or runs from inside one block into the next.
pub proof fn lemma_window_blocks(i: int, w: int)
    requires
        1 <= w,
        0 <= i,
    ensures
        i == block_start(i, w) ==> block_start(i + w - 1, w) == i,
        i != block_start(i, w) ==> block_start(i + w - 1, w) == block_start(i, w) + w,
{
    lemma_block_bounds(i, w);
    if i == block_start(i, w) {
        lemma_same_block(i, i + w - 1, w);
    } else {
        lemma_same_block(i, i - 1, w);
        assert(i + w - 1 >= w);
    }
}

/// The block-split selector: within each block of `w` hashes the minima of
/// all prefixes and of all suffixes are computed once; a window is a suffix
/// of one block and a prefix of the next, so its minimum is the smaller of
/// two stored ones.
pub fn sliding_min_split(h: &Vec<u64>, w: usize) -> (r: Result<
    Vec<(usize, u64)>,
    InvalidParameter,
>)
    ensures
        w == 0 ==> r == Err::<Vec<(usize, u64)>, InvalidParameter>(InvalidParameter::ZeroW),
        w != 0 ==> r.is_ok() && r.unwrap()@ == window_minima(h@, w as int),
{
    if w == 0 {
        return Err(InvalidParameter::ZeroW);
    }
    let m: usize = h.len();
    let mut out: Vec<(usize, u64)> = Vec::new();
    if m < w {
        proof {
            lemma_minima_characterized(h@, w as int, out@);
        }
        return Ok(out);
    }
    // Forward: the block start of every position, and the minimum from
    // there to the position.
    let mut starts: Vec<usize> = Vec::new();
    let mut pre: Vec<usize> = Vec::new();
    let mut suf: Vec<usize> = Vec::new();
    let mut j: usize = 0;
    let mut bs: usize = 0;
    while j < m
        invariant
            1 <= w <= m,
            m == h.len(),
            j <= m,
            starts.len() == j,
            pre.len() == j,
            suf.len() == j,
            j < m ==> bs == block_start(j as int, w as int),
            forall|t: int| 0 <= t < j ==> #[trigger] starts@[t] == block_start(t, w as int),
            forall|t: int|
                0 <= t < j ==> is_window_min(
                    h@,
                    block_start(t, w as int),
                    t - block_start(t, w as int) + 1,
                    #[trigger] pre@[t] as int,
                ),
        decreases m - j,
    {
        proof {
            lemma_block_bounds(j as int, w as int);
        }
        let p: usize = if j == bs {
            j
        } else {
            let before: usize = pre[j - 1];
            proof {
                lemma_same_block(j as int, j - 1, w as int);
            }
            if h[j] < h[before] {
                j
            } else {
                before
            }
        };
        starts.push(bs);
        pre.push(p);
        suf.push(j);
        proof {
            if j + 1 < m {
                if j + 1 - bs == w {
                    lemma_same_block(j as int, bs as int, w as int);
                } else {
                    lemma_same_block(j as int, j + 1, w as int);
                }
            }
        }
        if j + 1 - bs == w {
            bs = j + 1;
        }
        j = j + 1;
    }
    // Backward: the minimum from every position to the end of its block.
    let mut j: usize = m;
    while j > 0
        invariant
            1 <= w <= m,
            m == h.len(),
            j <= m,
            starts.len() == m,
            pre.len() == m,
            suf.len() == m,
            forall|t: int| 0 <= t < m ==> #[trigger] starts@[t] == block_start(t, w as int),
            forall|t: int|
                0 <= t < m ==> is_window_min(
                    h@,
                    block_start(t, w as int),
                    t - block_start(t, w as int) + 1,
                    #[trigger] pre@[t] as int,
                ),
            forall|t: int|
                j <= t < m ==> is_window_min(
                    h@,
                    t,
                    (if block_start(t, w as int) + w <= m {
                        block_start(t, w as int) + w
                    } else {
                        m as int
                    }) - t,
                    #[trigger] suf@[t] as int,
                ),
        decreases j,
    {
        j = j - 1;
        proof {
            lemma_block_bounds(j as int, w as int);
        }
        let from: usize = starts[j];
        let p: usize = if j + 1 == m || j + 1 - from == w {
            j
        } else {
            let after: usize = suf[j + 1];
            proof {
                lemma_same_block(j as int, j + 1, w as int);
            }
            if h[after] < h[j] {
                after
            } else {
                j
            }
        };
        suf.set(j, p);
    }
    let mut i: usize = 0;
    while i <= m - w
        invariant
            1 <= w <= m,
            m == h.len(),
            i <= m - w + 1,
            out.len() == i,
            pre.len() == m,
            suf.len() == m,
            forall|t: int|
                0 <= t < m ==> is_window_min(
                    h@,
                    block_start(t, w as int),
                    t - block_start(t, w as int) + 1,
                    #[trigger] pre@[t] as int,
                ),
            forall|t: int|
                0 <= t < m ==> is_window_min(
                    h@,
                    t,
                    (if block_start(t, w as int) + w <= m {
                        block_start(t, w as int) + w
                    } else {
                        m as int
                    }) - t,
                    #[trigger] suf@[t] as int,
                ),
            forall|t: int|
                0 <= t < i ==> is_window_min(h@, t, w as int, (#[trigger] out@[t]).0 as int)
                    && out@[t].1 == h@[out@[t].0 as int],
        decreases m - i,
    {
        let e: usize = i + (w - 1);
        let a: usize = suf[i];
        let b: usize = pre[e];
        proof {
            lemma_block_bounds(i as int, w as int);
            lemma_block_bounds(e as int, w as int);
            lemma_window_blocks(i as int, w as int);
        }
        let p: usize = if h[b] < h[a] {
            b
        } else {
            a
        };
        proof {
            if i as int == block_start(i as int, w as int) {
                lemma_min_unique(h@, i as int, w as int, a as int, b as int);
            }
            assert(is_window_min(h@, i as int, w as int, p as int));
        }
        out.push((p, h[p]));
        i = i + 1;
    }
    proof {
        lemma_minima_characterized(h@, w as int, out@);
    }
    Ok(out)
}

/// The ways to select window minima. They differ in cost alone.
#[derive(Clone, Copy, Debug, PartialEq, Eq, Structural)]
pub enum Selector {
    /// Scan every window.
    Naive,
    /// Keep a queue of ascending candidates.
    Queue,
    /// Combine prefix and suffix minima of blocks.
    Split,
    /// Scan again only when the minimum has left the window.
    Rescan,
}

/// Selects the minimizer of every window by the given selector. Whichever
/// it is, the result is the same list.
pub fn sliding_min(alg: Selector, h: &Vec<u64>, w: usize) -> (r: Result<
    Vec<(usize, u64)>,
    InvalidParameter,
>)
    ensures
        w == 0 ==> r == Err::<Vec<(usize, u64)>, InvalidParameter>(InvalidParameter::ZeroW),
        w != 0 ==> r.is_ok() && r.unwrap()@ == window_minima(h@, w as int),
{
    match alg {
        Selector::Naive => sliding_min_naive(h, w),
        Selector::Queue => sliding_min_queue(h, w),
        Selector::Split => sliding_min_split(h, w),
        Selector::Rescan => sliding_min_rescan(h, w),
    }
}

/// The minimum of every whole block of `w` hashes from `start` on: the
/// blocks do not overlap, and a last partial block is left out.
pub open spec fn block_minima(h: Seq<u64>, w: int, start: int) -> Seq<(usize, u64)>
    decreases h.len() - start,
{
    if w <= 0 || start < 0 || start + w > h.len() {
        Seq::empty()
    } else {
        let p = argmin(h, start, w);
        seq![(p as usize, h[p])] + block_minima(h, w, start + w)
    }
}

/// The jumping selector: one minimum per block of `w` hashes, where the
/// blocks do not overlap. This is not the list of window minima.
pub fn jumping_min(h: &Vec<u64>, w: usize) -> (r: Result<Vec<(usize, u64)>, InvalidParameter>)
    ensures
        w == 0 ==> r == Err::<Vec<(usize, u64)>, InvalidParameter>(InvalidParameter::ZeroW),
        w != 0 ==> r.is_ok() && r.unwrap()@ == block_minima(h@, w as int, 0),
{
    if w == 0 {
        return Err(InvalidParameter::ZeroW);
    }
    let m: usize = h.len();
    let mut out: Vec<(usize, u64)> = Vec::new();
    let mut start: usize = 0;
    while m - start >= w
        invariant
            1 <= w,
            m == h.len(),
            start <= m,
            out@ + block_minima(h@, w as int, start as int) == block_minima(h@, w as int, 0),
        decreases m - start,
    {
        let p: usize = scan_window(h, start, w);
        proof {
            lemma_argmin_is_min(h@, start as int, w as int);
            lemma_min_unique(h@, start as int, w as int, p as int, argmin(h@, start as int, w as int));
            let rest = block_minima(h@, w as int, start + w);
            assert(out@.push((p, h@[p as int])) + rest =~= out@ + (seq![(p, h@[p as int])] + rest));
        }
        out.push((p, h[p]));
        start = start + w;
    }
    assert(out@ + Seq::<(usize, u64)>::empty() =~= out@);
    Ok(out)
}

/// The list with every run of equal positions collapsed to its first entry.
pub open spec fn deduped(s: Seq<(usize, u64)>) -> Seq<(usize, u64)>
    decreases s.len(),
{
    if s.len() <= 1 {
        s
    } else if s.last().0 == s[s.len() - 2].0 {
        deduped(s.drop_last())
    } else {
        deduped(s.drop_last()).push(s.last())
    }
}

/// No two neighbours of the list share a position.
pub open spec fn no_repeats(s: Seq<(usize, u64)>) -> bool {
    forall|i: int| 0 < i < s.len() ==> (#[trigger] s[i]).0 != s[i - 1].0
}

/// What collapsing keeps: it never grows the list, ends at the same
/// position, and leaves no two neighbours with one position.
pub proof fn lemma_deduped_shape(s: Seq<(usize, u64)>)
    ensures
        deduped(s).len() <= s.len(),
        s.len() > 0 ==> deduped(s).len() > 0 && deduped(s).last().0 == s.last().0,
        no_repeats(deduped(s)),
    decreases s.len(),
{
    if s.len() > 1 {
        lemma_deduped_shape(s.drop_last());
        assert(s.drop_last().last() == s[s.len() - 2]);
    }
}

/// A list without repeated neighbours is left as it is.
pub proof fn lemma_deduped_fixed(s: Seq<(usize, u64)>)
    requires
        no_repeats(s),
    ensures
        deduped(s) == s,
    decreases s.len(),
{
    if s.len() > 1 {
        let front = s.drop_last();
        assert(no_repeats(front)) by {
            assert forall|i: int| 0 < i < front.len() implies (#[trigger] front[i]).0 != front[i
                - 1].0 by {
                assert(s[i].0 != s[i - 1].0);
            }
        }
        lemma_deduped_fixed(front);
        assert(s.last() == s[s.len() - 1]);
        assert(s[s.len() - 1].0 != s[s.len() - 2].0);
        assert(front.push(s.last()) =~= s);
    }
}

/// Positions never fall from one entry to a later one.
pub open spec fn ascending(s: Seq<(usize, u64)>) -> bool {
    forall|i: int, j: int| 0 <= i <= j < s.len() ==> (#[trigger] s[i]).0 <= (#[trigger] s[j]).0
}

/// Positions rise from each entry to every later one.
pub open spec fn strictly_ascending(s: Seq<(usize, u64)>) -> bool {
    forall|i: int, j: int| 0 <= i < j < s.len() ==> (#[trigger] s[i]).0 < (#[trigger] s[j]).0
}

/// The minimum of a window stands at or behind that of the window before.
pub proof fn lemma_argmin_ascends(h: Seq<u64>, w: int, i: int, j: int)
    requires
        1 <= w,
        0 <= i <= j,
    ensures
        argmin(h, i, w) <= argmin(h, j, w),
        i <= argmin(h, i, w) < i + w,
    decreases j - i,
{
    lemma_argmin_is_min(h, i, w);
    if i < j {
        lemma_argmin_ascends(h, w, i, j - 1);
        lemma_argmin_is_min(h, j - 1, w);
        lemma_argmin_is_min(h, j, w);
        let p = argmin(h, j - 1, w);
        let q = argmin(h, j, w);
        if q < p {
            assert(h[p] < h[q]);
            assert(h[q] <= h[p]);
        }
    }
}

/// The list of window minima is in order of position, and each minimum
/// lies in its window.
pub proof fn lemma_minima_ascending(h: Seq<u64>, w: int)
    requires
        1 <= w,
        h.len() <= usize::MAX,
    ensures
        ascending(window_minima(h, w)),
        forall|i: int|
            0 <= i < window_minima(h, w).len() ==> i <= (#[trigger] window_minima(h, w)[i]).0 < i
                + w,
{
    let m = window_minima(h, w);
    assert forall|i: int, j: int| 0 <= i <= j < m.len() implies (#[trigger] m[i]).0 <= (
    #[trigger] m[j]).0 by {
        lemma_argmin_ascends(h, w, i, j);
        lemma_argmin_ascends(h, w, j, j);
    }
    assert forall|i: int| 0 <= i < m.len() implies i <= (#[trigger] m[i]).0 < i + w by {
        lemma_argmin_ascends(h, w, i, i);
    }
}

/// Collapsing a list in order of position leaves positions that rise
/// strictly.
pub proof fn lemma_deduped_strict(s: Seq<(usize, u64)>)
    requires
        ascending(s),
    ensures
        strictly_ascending(deduped(s)),
    decreases s.len(),
{
    if s.len() > 1 {
        let front = s.drop_last();
        assert(ascending(front)) by {
            assert forall|i: int, j: int| 0 <= i <= j < front.len() implies (#[trigger] front[i]).0
                <= (#[trigger] front[j]).0 by {
                assert(s[i].0 <= s[j].0);
            }
        }
        lemma_deduped_strict(front);
        lemma_deduped_shape(front);
        let d = deduped(front);
        assert(d.last().0 == s[s.len() - 2].0);
        assert(s[s.len() - 2].0 <= s[s.len() - 1].0);
        if s.last().0 != s[s.len() - 2].0 {
            let e = d.push(s.last());
            assert forall|i: int, j: int| 0 <= i < j < e.len() implies (#[trigger] e[i]).0 < (
            #[trigger] e[j]).0 by {
                if j == e.len() - 1 {
                    assert(e[i] == d[i]);
                    if i < d.len() - 1 {
                        assert(d[i].0 < d[d.len() - 1].0);
                    }
                } else {
                    assert(e[i] == d[i] && e[j] == d[j]);
                }
            }
        }
    }
}

/// Collapsing is idempotent, and never lengthens a list.
pub proof fn lemma_dedup_idempotent(s: Seq<(usize, u64)>)
    ensures
        deduped(deduped(s)) == deduped(s),
        deduped(s).len() <= s.len(),
{
    lemma_deduped_shape(s);
    lemma_deduped_fixed(deduped(s));
}

/// Collapses every run of equal positions to its first entry.
pub fn dedup(v: &Vec<(usize, u64)>) -> (out: Vec<(usize, u64)>)
    ensures
        out@ == deduped(v@),
        out.len() <= v.len(),
        no_repeats(out@),
{
    let mut out: Vec<(usize, u64)> = Vec::new();
    let mut i: usize = 0;
    while i < v.len()
        invariant
            i <= v.len(),
            out@ == deduped(v@.subrange(0, i as int)),
        decreases v.len() - i,
    {
        proof {
            let next = v@.subrange(0, i + 1);
            assert(next.drop_last() =~= v@.subrange(0, i as int));
            assert(next.last() == v@[i as int]);
            if i > 0 {
                assert(next[next.len() - 2] == v@[i - 1]);
            }
        }
        if i == 0 || v[i].0 != v[i - 1].0 {
            out.push(v[i]);
        }
        i = i + 1;
    }
    proof {
        assert(v@.subrange(0, v.len() as int) =~= v@);
        lemma_deduped_shape(v@);
    }
    out
}

} // verus!
