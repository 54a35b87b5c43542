//! Lanes: independent stretches of one sequence, and the merge of what they
//! yield.
//!
//! The windows of a sequence are dealt out to lanes in consecutive runs. A
//! lane reads the bases of its windows, which overlap those of the next lane
//! by `k + w - 2` bases, and reports positions counted from its own start.
//! Merging moves each lane's positions by the lane's start and strings the
//! lanes together; the result is what one pass over the whole sequence
//! yields.

use vstd::prelude::*;
use crate::error::{
    InvalidParameter,
    hash_verdict,
    minimizer_verdict,
    check_hash_parameters,
    check_minimizer_parameters,
};
use crate::hash::{hash_stream, hash_kmers};
use crate::packed::PackedSequence;
use crate::window::{
    argmin,
    window_count,
    window_minima,
    deduped,
    dedup,
    lemma_argmin_is_min,
    lemma_minima_ascending,
    lemma_deduped_strict,
    sliding_min_queue,
    sliding_min_split,
};

verus! {

/// The minimizers of a sequence: the window minima of its hash stream.
pub open spec fn minimizer_list(s: Seq<u8>, k: int, w: int) -> Seq<(usize, u64)> {
    window_minima(hash_stream(s, k), w)
}

/// The number of minimizers of a sequence of `n` bases: one per window.
pub open spec fn minimizer_count(n: int, k: int, w: int) -> int {
    if n - k - w + 2 > 0 {
        n - k - w + 2
    } else {
        0
    }
}

/// A sequence of `n` bases has `max(0, n - k - w + 2)` minimizers.
pub proof fn lemma_minimizer_count(s: Seq<u8>, k: int, w: int)
    requires
        1 <= k,
        1 <= w,
    ensures
        minimizer_list(s, k, w).len() == minimizer_count(s.len() as int, k, w),
{
}

/// A lane's list with every position moved by the lane's start.
pub open spec fn shifted(lane: Seq<(usize, u64)>, offset: int) -> Seq<(usize, u64)> {
    Seq::new(lane.len(), |i: int| ((lane[i].0 + offset) as usize, lane[i].1))
}

/// The lanes' lists, each moved by its offset, one after the other.
pub open spec fn merged(parts: Seq<Vec<(usize, u64)>>, offsets: Seq<usize>) -> Seq<(usize, u64)>
    decreases parts.len(),
{
    if parts.len() == 0 {
        Seq::empty()
    } else {
        merged(parts.drop_last(), offsets.drop_last()) + shifted(
            parts.last()@,
            offsets[parts.len() - 1] as int,
        )
    }
}

/// The hash stream of a stretch of a sequence is a stretch of its hash stream.
pub proof fn lemma_hash_stream_of_stretch(s: Seq<u8>, k: int, a: int, b: int)
    requires
        1 <= k,
        0 <= a,
        a + k <= b <= s.len(),
    ensures
        hash_stream(s.subrange(a, b), k) == hash_stream(s, k).subrange(a, b - k + 1),
{
    let part = s.subrange(a, b);
    assert forall|i: int| 0 <= i < b - a - k + 1 implies hash_stream(part, k)[i] == hash_stream(
        s,
        k,
    )[a + i] by {
        assert(part.subrange(i, i + k) =~= s.subrange(a + i, a + i + k));
    }
    assert(hash_stream(part, k) =~= hash_stream(s, k).subrange(a, b - k + 1));
}

/// The minimum of a window of a stretch is the minimum of that window in the
/// whole stream, at the position moved by the stretch's start.
pub proof fn lemma_argmin_shift(h: Seq<u64>, a: int, b: int, i: int, w: int)
    requires
        0 <= a <= b <= h.len(),
        0 <= i,
        1 <= w,
        a + i + w <= b,
    ensures
        argmin(h.subrange(a, b), i, w) + a == argmin(h, a + i, w),
        a + i <= argmin(h, a + i, w) < a + i + w,
    decreases w,
{
    lemma_argmin_is_min(h, a + i, w);
    if w > 1 {
        lemma_argmin_shift(h, a, b, i, w - 1);
    }
}

/// The minimizers of the windows `a .. b` are those of the stretch that the
/// windows cover, moved by `a`.
pub proof fn lemma_minima_of_stretch(h: Seq<u64>, w: int, a: int, b: int)
    requires
        1 <= w,
        0 <= a < b,
        b + w - 1 <= h.len(),
        b + w - 1 <= usize::MAX,
    ensures
        shifted(window_minima(h.subrange(a, b + w - 1), w), a) == window_minima(h, w).subrange(
            a,
            b,
        ),
{
    let part = h.subrange(a, b + w - 1);
    let local = window_minima(part, w);
    assert forall|i: int| 0 <= i < b - a implies shifted(local, a)[i] == window_minima(h, w)[a
        + i] by {
        lemma_argmin_shift(h, a, b + w - 1, i, w);
    }
    assert(shifted(local, a) =~= window_minima(h, w).subrange(a, b));
}

/// Where lane `l` ends: at the start of the next lane, or at `end` for
/// the last lane.
pub open spec fn lane_end(offsets: Seq<usize>, end: int, l: int) -> int {
    if l + 1 < offsets.len() {
        offsets[l + 1] as int
    } else {
        end
    }
}

/// The lanes hold the window minima of consecutive runs of the windows
/// `0 .. end`, each in its own count: lane `l` has the windows from
/// `offsets[l]` to where the next lane starts.
pub open spec fn lanes_hold(
    h: Seq<u64>,
    w: int,
    parts: Seq<Vec<(usize, u64)>>,
    offsets: Seq<usize>,
    end: int,
) -> bool {
    &&& parts.len() == offsets.len()
    &&& parts.len() == 0 ==> end == 0
    &&& parts.len() > 0 ==> offsets[0] == 0
    &&& forall|l: int|
        0 <= l < parts.len() ==> #[trigger] offsets[l] <= lane_end(offsets, end, l)
    &&& forall|l: int|
        0 <= l < parts.len() ==> (#[trigger] parts[l])@ == (if offsets[l] < lane_end(
            offsets,
            end,
            l,
        ) {
            window_minima(h.subrange(offsets[l] as int, lane_end(offsets, end, l) + w - 1), w)
        } else {
            Seq::empty()
        })
}

/// Merging the lanes gives the window minima of the whole stream, as one
/// pass over it does, however many lanes there are and wherever they are
/// cut.
pub proof fn lemma_merged_lanes_are_whole(
    h: Seq<u64>,
    w: int,
    parts: Seq<Vec<(usize, u64)>>,
    offsets: Seq<usize>,
    end: int,
)
    requires
        1 <= w,
        h.len() <= usize::MAX,
        0 <= end <= window_count(h.len() as int, w),
        lanes_hold(h, w, parts, offsets, end),
    ensures
        merged(parts, offsets) == window_minima(h, w).subrange(0, end),
    decreases parts.len(),
{
    let all = window_minima(h, w);
    if parts.len() == 0 {
        assert(merged(parts, offsets) =~= all.subrange(0, end));
    } else {
        let n = parts.len() as int;
        let a = offsets[n - 1] as int;
        let front = parts.drop_last();
        let starts = offsets.drop_last();
        assert(lane_end(offsets, end, n - 1) == end);
        assert(parts[n - 1] == parts.last());
        assert(offsets[n - 1] <= lane_end(offsets, end, n - 1));
        assert(lanes_hold(h, w, front, starts, a)) by {
            assert(offsets[0] == 0);
            assert forall|l: int| 0 <= l < front.len() implies #[trigger] starts[l] <= lane_end(
                starts,
                a,
                l,
            ) by {
                assert(starts[l] == offsets[l]);
                assert(lane_end(starts, a, l) == lane_end(offsets, end, l));
            }
            assert forall|l: int| 0 <= l < front.len() implies (#[trigger] front[l])@ == (if starts[l]
                < lane_end(starts, a, l) {
                window_minima(h.subrange(starts[l] as int, lane_end(starts, a, l) + w - 1), w)
            } else {
                Seq::empty()
            }) by {
                assert(front[l] == parts[l]);
                assert(lane_end(starts, a, l) == lane_end(offsets, end, l));
            }
        }
        lemma_merged_lanes_are_whole(h, w, front, starts, a);
        if a < end {
            lemma_minima_of_stretch(h, w, a, end);
        } else {
            assert(shifted(parts.last()@, a) =~= Seq::<(usize, u64)>::empty());
        }
        assert(all.subrange(0, a) + all.subrange(a, end) =~= all.subrange(0, end));
    }
}

/// Copies the bases `from .. to` of a sequence.
pub fn copy_range(seq: &Vec<u8>, from: usize, to: usize) -> (out: Vec<u8>)
    requires
        from <= to <= seq.len(),
    ensures
        out@ == seq@.subrange(from as int, to as int),
{
    let mut out: Vec<u8> = Vec::new();
    let mut i: usize = from;
    while i < to
        invariant
            from <= i <= to <= seq.len(),
            out@ == seq@.subrange(from as int, i as int),
        decreases to - i,
    {
        out.push(seq[i]);
        assert(out@ =~= seq@.subrange(from as int, i + 1));
        i = i + 1;
    }
    out
}

/// Appends a lane's list to the merged list, with every position moved from
/// the lane's own count to that of the whole sequence.
pub fn append_lane(out: &mut Vec<(usize, u64)>, lane: &Vec<(usize, u64)>, offset: usize)
    requires
        forall|i: int| 0 <= i < lane.len() ==> (#[trigger] lane@[i]).0 + offset <= usize::MAX,
    ensures
        final(out)@ == old(out)@ + shifted(lane@, offset as int),
{
    let ghost before = out@;
    let mut i: usize = 0;
    while i < lane.len()
        invariant
            i <= lane.len(),
            forall|t: int| 0 <= t < lane.len() ==> (#[trigger] lane@[t]).0 + offset <= usize::MAX,
            out@ == before + shifted(lane@, offset as int).subrange(0, i as int),
        decreases lane.len() - i,
    {
        let entry: (usize, u64) = lane[i];
        out.push((entry.0 + offset, entry.1));
        assert(out@ =~= before + shifted(lane@, offset as int).subrange(0, i + 1));
        i = i + 1;
    }
    assert(shifted(lane@, offset as int).subrange(0, lane.len() as int) =~= shifted(
        lane@,
        offset as int,
    ));
}

/// Merges the lists of all lanes: lane `l` starts at `offsets[l]`.
pub fn merge_lanes(parts: &Vec<Vec<(usize, u64)>>, offsets: &Vec<usize>) -> (out: Vec<
    (usize, u64),
>)
    requires
        parts.len() == offsets.len(),
        forall|l: int, i: int|
            0 <= l < parts.len() && 0 <= i < parts@[l].len() ==> (#[trigger] parts@[l]@[i]).0
                + offsets@[l] <= usize::MAX,
    ensures
        out@ == merged(parts@, offsets@),
{
    let mut out: Vec<(usize, u64)> = Vec::new();
    let mut l: usize = 0;
    while l < parts.len()
        invariant
            l <= parts.len(),
            parts.len() == offsets.len(),
            forall|l: int, i: int|
                0 <= l < parts.len() && 0 <= i < parts@[l].len() ==> (#[trigger] parts@[l]@[i]).0
                    + offsets@[l] <= usize::MAX,
            out@ == merged(parts@.subrange(0, l as int), offsets@.subrange(0, l as int)),
        decreases parts.len() - l,
    {
        proof {
            let p = parts@.subrange(0, l + 1);
            let o = offsets@.subrange(0, l + 1);
            assert(p.drop_last() =~= parts@.subrange(0, l as int));
            assert(o.drop_last() =~= offsets@.subrange(0, l as int));
            assert(p.last() == parts@[l as int]);
            assert(o[p.len() - 1] == offsets@[l as int]);
        }
        append_lane(&mut out, &parts[l], offsets[l]);
        l = l + 1;
    }
    proof {
        assert(parts@.subrange(0, parts.len() as int) =~= parts@);
        assert(offsets@.subrange(0, offsets.len() as int) =~= offsets@);
    }
    out
}

/// Appends the hashes of one lane to those of the lanes before it.
pub fn append_hashes(out: &mut Vec<u64>, part: &Vec<u64>)
    ensures
        final(out)@ == old(out)@ + part@,
{
    let ghost before = out@;
    let mut i: usize = 0;
    while i < part.len()
        invariant
            i <= part.len(),
            out@ == before + part@.subrange(0, i as int),
        decreases part.len() - i,
    {
        out.push(part[i]);
        assert(out@ =~= before + part@.subrange(0, i + 1));
        i = i + 1;
    }
    assert(part@.subrange(0, part.len() as int) =~= part@);
}

/// The verdict on `(k, n)` and a number of lanes.
pub open spec fn hash_lanes_verdict(k: int, n: int, lanes: int) -> Option<InvalidParameter> {
    if lanes == 0 {
        Some(InvalidParameter::ZeroLanes)
    } else {
        hash_verdict(k, n)
    }
}

/// The hash of every k-mer by lanes: the k-mers are dealt out to `lanes`
/// lanes in runs of near-equal length, and each lane rolls its own hash
/// over the bases of its k-mers, which overlap those of the next lane by
/// `k - 1` bases, so that each k-mer is hashed by one lane. The result is
/// that of [`hash_kmers`], whatever the number of lanes.
pub fn hash_kmers_lanes(seq: &Vec<u8>, k: usize, lanes: usize) -> (r: Result<
    Vec<u64>,
    InvalidParameter,
>)
    ensures
        match hash_lanes_verdict(k as int, seq.len() as int, lanes as int) {
            Some(e) => r == Err::<Vec<u64>, InvalidParameter>(e),
            None => r.is_ok() && r.unwrap()@ == hash_stream(seq@, k as int),
        },
{
    if lanes == 0 {
        return Err(InvalidParameter::ZeroLanes);
    }
    match check_hash_parameters(k, seq.len()) {
        Err(e) => {
            return Err(e);
        },
        Ok(_) => {},
    }
    let n: usize = seq.len();
    let total: usize = n - k + 1;
    let share: usize = total / lanes;
    let chunk: usize = if share < total && total % lanes != 0 {
        share + 1
    } else {
        share
    };
    let mut out: Vec<u64> = Vec::new();
    let ghost all = hash_stream(seq@, k as int);
    let mut ks: usize = 0;
    let mut l: usize = 0;
    while l < lanes
        invariant
            1 <= k <= n,
            k <= 64,
            n == seq.len(),
            total == n - k + 1,
            all == hash_stream(seq@, k as int),
            l <= lanes,
            ks <= total,
            l == lanes ==> ks == total,
            out@ == all.subrange(0, ks as int),
        decreases lanes - l,
    {
        let ke: usize = if l + 1 == lanes || total - ks < chunk {
            total
        } else {
            ks + chunk
        };
        if ke > ks {
            let bases: Vec<u8> = copy_range(seq, ks, ke + (k - 1));
            let part: Vec<u64> = match hash_kmers(&bases, k) {
                Ok(v) => v,
                Err(e) => {
                    return Err(e);
                },
            };
            proof {
                lemma_hash_stream_of_stretch(seq@, k as int, ks as int, ke + k - 1);
            }
            append_hashes(&mut out, &part);
            assert(out@ =~= all.subrange(0, ke as int));
        }
        ks = ke;
        l = l + 1;
    }
    assert(out@ =~= all);
    Ok(out)
}

/// The hash of every k-mer of a packed sequence.
pub fn hash_kmers_packed(seq: &PackedSequence, k: usize) -> (r: Result<
    Vec<u64>,
    InvalidParameter,
>)
    requires
        seq.wf(),
    ensures
        match hash_verdict(k as int, seq@.len() as int) {
            Some(e) => r == Err::<Vec<u64>, InvalidParameter>(e),
            None => r.is_ok() && r.unwrap()@ == hash_stream(seq@, k as int),
        },
{
    let bases: Vec<u8> = seq.unpack();
    hash_kmers(&bases, k)
}

/// The minimizers of a packed sequence.
pub fn minimizers_packed(seq: &PackedSequence, k: usize, w: usize) -> (r: Result<
    Vec<(usize, u64)>,
    InvalidParameter,
>)
    requires
        seq.wf(),
    ensures
        match minimizer_verdict(k as int, w as int, seq@.len() as int) {
            Some(e) => r == Err::<Vec<(usize, u64)>, InvalidParameter>(e),
            None => r.is_ok() && r.unwrap()@ == minimizer_list(seq@, k as int, w as int),
        },
{
    let bases: Vec<u8> = seq.unpack();
    minimizers(&bases, k, w)
}

/// The minimizers of a sequence by one pass: every k-mer is hashed by the
/// rolling recurrence, and the window minima are taken from a queue.
pub fn minimizers(seq: &Vec<u8>, k: usize, w: usize) -> (r: Result<
    Vec<(usize, u64)>,
    InvalidParameter,
>)
    ensures
        match minimizer_verdict(k as int, w as int, seq.len() as int) {
            Some(e) => r == Err::<Vec<(usize, u64)>, InvalidParameter>(e),
            None => r.is_ok() && r.unwrap()@ == minimizer_list(seq@, k as int, w as int)
                && r.unwrap().len() == minimizer_count(seq.len() as int, k as int, w as int),
        },
{
    match check_minimizer_parameters(k, w, seq.len()) {
        Err(e) => {
            return Err(e);
        },
        Ok(_) => {},
    }
    let hashes: Vec<u64> = match hash_kmers(seq, k) {
        Ok(v) => v,
        Err(e) => {
            return Err(e);
        },
    };
    sliding_min_queue(&hashes, w)
}

/// The positions of a list, without the hashes.
pub open spec fn positions(s: Seq<(usize, u64)>) -> Seq<usize> {
    Seq::new(s.len(), |i: int| s[i].0)
}

/// The positions at which a sequence has a minimizer, each once, in
/// strictly ascending order.
pub fn minimizer_positions(seq: &Vec<u8>, k: usize, w: usize) -> (r: Result<
    Vec<usize>,
    InvalidParameter,
>)
    ensures
        match minimizer_verdict(k as int, w as int, seq.len() as int) {
            Some(e) => r == Err::<Vec<usize>, InvalidParameter>(e),
            None => r.is_ok() && r.unwrap()@ == positions(
                deduped(minimizer_list(seq@, k as int, w as int)),
            ) && forall|i: int, j: int|
                0 <= i < j < r.unwrap().len() ==> r.unwrap()@[i] < r.unwrap()@[j],
        },
{
    let raw: Vec<(usize, u64)> = match minimizers(seq, k, w) {
        Ok(v) => v,
        Err(e) => {
            return Err(e);
        },
    };
    let kept: Vec<(usize, u64)> = dedup(&raw);
    proof {
        lemma_minima_ascending(hash_stream(seq@, k as int), w as int);
        lemma_deduped_strict(raw@);
    }
    let mut out: Vec<usize> = Vec::new();
    let mut i: usize = 0;
    while i < kept.len()
        invariant
            i <= kept.len(),
            out.len() == i,
            forall|t: int| 0 <= t < i ==> out@[t] == kept@[t].0,
        decreases kept.len() - i,
    {
        out.push(kept[i].0);
        i = i + 1;
    }
    assert(out@ =~= positions(kept@));
    assert forall|i: int, j: int| 0 <= i < j < out.len() implies out@[i] < out@[j] by {
        assert(kept@[i].0 < kept@[j].0);
    }
    Ok(out)
}

/// The verdict on `(k, w, n)` and a number of lanes.
pub open spec fn lanes_verdict(k: int, w: int, n: int, lanes: int) -> Option<InvalidParameter> {
    if lanes == 0 {
        Some(InvalidParameter::ZeroLanes)
    } else {
        minimizer_verdict(k, w, n)
    }
}

/// The minimizers of a sequence by lanes: the windows are dealt out to
/// `lanes` lanes in runs of near-equal length, each lane hashes the bases of
/// its windows and selects its minima by the block-split selector, and the
/// lanes are merged. The result is that of [`minimizers`], whatever the
/// number of lanes.
pub fn minimizers_lanes(seq: &Vec<u8>, k: usize, w: usize, lanes: usize) -> (r: Result<
    Vec<(usize, u64)>,
    InvalidParameter,
>)
    ensures
        match lanes_verdict(k as int, w as int, seq.len() as int, lanes as int) {
            Some(e) => r == Err::<Vec<(usize, u64)>, InvalidParameter>(e),
            None => r.is_ok() && r.unwrap()@ == minimizer_list(seq@, k as int, w as int)
                && r.unwrap().len() == minimizer_count(seq.len() as int, k as int, w as int),
        },
{
    if lanes == 0 {
        return Err(InvalidParameter::ZeroLanes);
    }
    match check_minimizer_parameters(k, w, seq.len()) {
        Err(e) => {
            return Err(e);
        },
        Ok(_) => {},
    }
    let n: usize = seq.len();
    let m: usize = n - k + 1;
    let mut out: Vec<(usize, u64)> = Vec::new();
    if m < w {
        return Ok(out);
    }
    let total: usize = m - w + 1;
    let share: usize = total / lanes;
    let chunk: usize = if share < total && total % lanes != 0 {
        share + 1
    } else {
        share
    };
    let ghost all = minimizer_list(seq@, k as int, w as int);
    let mut ws: usize = 0;
    let mut l: usize = 0;
    while l < lanes
        invariant
            1 <= k <= n,
            1 <= w,
            n == seq.len(),
            k <= 64,
            m == n - k + 1,
            w <= m,
            total == m - w + 1,
            all == minimizer_list(seq@, k as int, w as int),
            all.len() == total,
            l <= lanes,
            ws <= total,
            l == lanes ==> ws == total,
            out@ == all.subrange(0, ws as int),
        decreases lanes - l,
    {
        let we: usize = if l + 1 == lanes || total - ws < chunk {
            total
        } else {
            ws + chunk
        };
        if we > ws {
            let bases: Vec<u8> = copy_range(seq, ws, we + (w - 1) + (k - 1));
            let hashes: Vec<u64> = match hash_kmers(&bases, k) {
                Ok(v) => v,
                Err(e) => {
                    return Err(e);
                },
            };
            let local: Vec<(usize, u64)> = match sliding_min_split(&hashes, w) {
                Ok(v) => v,
                Err(e) => {
                    return Err(e);
                },
            };
            proof {
                let h = hash_stream(seq@, k as int);
                lemma_hash_stream_of_stretch(seq@, k as int, ws as int, we + w + k - 2);
                lemma_minima_of_stretch(h, w as int, ws as int, we as int);
                assert forall|i: int| 0 <= i < local.len() implies (#[trigger] local@[i]).0 + ws
                    <= usize::MAX by {
                    lemma_argmin_is_min(hashes@, i, w as int);
                }
            }
            append_lane(&mut out, &local, ws);
            assert(out@ =~= all.subrange(0, we as int));
        }
        ws = we;
        l = l + 1;
    }
    assert(out@ =~= all);
    Ok(out)
}

} // verus!
