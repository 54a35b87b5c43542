//! Strand-independent hashes.
//!
//! A k-mer and its reverse complement name the same place on the two
//! strands of a molecule. The canonical hash of a k-mer is the smaller of
//! its own hash and that of its reverse complement; where the two are equal
//! the forward strand is reported.

use vstd::prelude::*;
use crate::error::{
    InvalidParameter,
    hash_verdict,
    minimizer_verdict,
    check_hash_parameters,
    check_minimizer_parameters,
};
use crate::hash::{
    complement,
    seed,
    rot1,
    rotr1,
    rotl,
    kmer_hash,
    kmer_count,
    reverse_complement,
    lemma_hash_congruent,
    lemma_hash_peel_front,
    lemma_roll,
    base_seed,
    rotate1,
    hash_kmer_direct,
    leaving_table,
};
use crate::window::{
    argmin,
    window_minima,
    lemma_argmin_is_min,
    sliding_min_queue,
    sliding_min_split,
};
use crate::lanes::{lanes_verdict, copy_range, append_lane, lemma_minima_of_stretch};

verus! {

/// The strand whose hash was chosen.
#[derive(Clone, Copy, Debug, PartialEq, Eq, Structural)]
pub enum Strand {
    Forward,
    Reverse,
}

/// The canonical hash of a k-mer and the strand that it was taken from.
#[derive(Clone, Copy, Debug, PartialEq, Eq, Structural)]
pub struct CanonicalRecord {
    pub hash: u64,
    pub strand: Strand,
}

/// The hash of the reverse complement of a k-mer.
pub open spec fn rc_hash(s: Seq<u8>) -> u64 {
    kmer_hash(reverse_complement(s))
}

/// The smaller of two strand hashes; the forward strand wins a tie.
pub open spec fn choose_strand(forward: u64, reverse: u64) -> CanonicalRecord {
    if forward <= reverse {
        CanonicalRecord { hash: forward, strand: Strand::Forward }
    } else {
        CanonicalRecord { hash: reverse, strand: Strand::Reverse }
    }
}

/// The canonical record of a k-mer.
pub open spec fn canonical_record(s: Seq<u8>) -> CanonicalRecord {
    choose_strand(kmer_hash(s), rc_hash(s))
}

/// The canonical hash of a k-mer.
pub open spec fn canonical_hash(s: Seq<u8>) -> u64 {
    canonical_record(s).hash
}

/// The canonical records of a sequence, one per k-mer.
pub open spec fn canonical_records(s: Seq<u8>, k: int) -> Seq<CanonicalRecord> {
    Seq::new(kmer_count(s.len() as int, k), |i: int| canonical_record(s.subrange(i, i + k)))
}

/// The stream of canonical hashes of a sequence, one per k-mer.
pub open spec fn canonical_stream(s: Seq<u8>, k: int) -> Seq<u64> {
    Seq::new(kmer_count(s.len() as int, k), |i: int| canonical_hash(s.subrange(i, i + k)))
}

/// The canonical minimizers of a sequence.
pub open spec fn canonical_list(s: Seq<u8>, k: int, w: int) -> Seq<(usize, u64)> {
    window_minima(canonical_stream(s, k), w)
}

/// Sliding a k-mer by one base: the next reverse-complement hash from the
/// current one.
pub open spec fn roll_rc(r: u64, leaving: u64, incoming_rotated: u64) -> u64 {
    rotr1(r ^ leaving) ^ incoming_rotated
}

/// The reverse-complement hash rolls too: the leaving base is taken out,
/// the hash is rotated back, and the incoming base is mixed in at the far
/// end.
pub proof fn lemma_roll_rc(s: Seq<u8>, i: int, k: int)
    requires
        1 <= k,
        0 <= i,
        i + k < s.len(),
    ensures
        rc_hash(s.subrange(i + 1, i + k + 1)) == roll_rc(
            rc_hash(s.subrange(i, i + k)),
            seed(complement(s[i])),
            rotl(seed(complement(s[i + k])), (k - 1) as nat),
        ),
{
    let cur = reverse_complement(s.subrange(i, i + k));
    let next = reverse_complement(s.subrange(i + 1, i + k + 1));
    let mid = reverse_complement(s.subrange(i + 1, i + k));
    assert(cur.drop_last() =~= mid);
    assert(next.drop_first() =~= mid);
    assert(cur.last() == complement(s[i]));
    assert(next[0] == complement(s[i + k]));
    lemma_hash_peel_front(next);
    let m: u64 = kmer_hash(mid);
    let x: u64 = seed(complement(s[i]));
    let c: u64 = kmer_hash(cur);
    let rm: u64 = rot1(m);
    assert(c == rm ^ x);
    assert(m == rotr1(c ^ x)) by (bit_vector)
        requires
            rm == (m << 1) | (m >> 63),
            c == rm ^ x,
    ;
    let y: u64 = rotl(seed(complement(s[i + k])), (k - 1) as nat);
    assert(kmer_hash(next) == y ^ m);
    assert(y ^ m == m ^ y) by (bit_vector);
}

/// Taking the reverse complement twice changes no hash.
pub proof fn lemma_reverse_complement_twice(s: Seq<u8>)
    ensures
        kmer_hash(reverse_complement(reverse_complement(s))) == kmer_hash(s),
{
    lemma_hash_congruent(reverse_complement(reverse_complement(s)), s);
}

/// A k-mer and its reverse complement have one canonical hash.
pub proof fn lemma_canonical_strand_free(s: Seq<u8>)
    ensures
        canonical_hash(reverse_complement(s)) == canonical_hash(s),
{
    lemma_reverse_complement_twice(s);
}

/// The canonical stream of the reverse complement is the canonical stream
/// read backwards.
pub proof fn lemma_canonical_stream_mirror(s: Seq<u8>, k: int, j: int)
    requires
        1 <= k <= s.len(),
        0 <= j <= s.len() - k,
    ensures
        canonical_stream(reverse_complement(s), k).len() == canonical_stream(s, k).len(),
        canonical_stream(reverse_complement(s), k)[j] == canonical_stream(s, k)[s.len() - k - j],
{
    let n = s.len() as int;
    let there = s.subrange(n - k - j, n - j);
    assert(reverse_complement(s).subrange(j, j + k) =~= reverse_complement(there));
    lemma_canonical_strand_free(there);
}

/// `r` is `h` read backwards.
pub open spec fn is_mirror(h: Seq<u64>, r: Seq<u64>) -> bool {
    &&& r.len() == h.len()
    &&& forall|j: int| 0 <= j < h.len() ==> #[trigger] r[j] == h[h.len() - 1 - j]
}

/// The minimum of the window occurs once in it.
pub open spec fn untied(h: Seq<u64>, start: int, w: int) -> bool {
    forall|j: int|
        start <= j < start + w && j != argmin(h, start, w) ==> #[trigger] h[j] != h[argmin(
            h,
            start,
            w,
        )]
}

/// Window `i` of a stream read backwards is window `m - w - i` of the
/// stream: the two have one minimum, and where that minimum occurs once, it
/// stands at mirrored positions.
pub proof fn lemma_window_mirror(h: Seq<u64>, r: Seq<u64>, w: int, i: int)
    requires
        is_mirror(h, r),
        1 <= w,
        0 <= i,
        i + w <= h.len(),
    ensures
        r[argmin(r, i, w)] == h[argmin(h, h.len() - w - i, w)],
        untied(h, h.len() - w - i, w) ==> argmin(r, i, w) == h.len() - 1 - argmin(
            h,
            h.len() - w - i,
            w,
        ),
{
    let m = h.len() as int;
    let p = argmin(h, m - w - i, w);
    let q = argmin(r, i, w);
    lemma_argmin_is_min(h, m - w - i, w);
    lemma_argmin_is_min(r, i, w);
    assert(r[q] == h[m - 1 - q]);
    assert(r[m - 1 - p] == h[p]);
    assert(h[p] <= h[m - 1 - q]);
    assert(r[q] <= r[m - 1 - p]);
}

/// Strand independence of canonical minimizers: the `i`-th minimizer of the
/// reverse complement has the hash of the `i`-th minimizer from the end of
/// the sequence itself, and, where that hash occurs once in its window, it
/// stands at the mirrored position `n - k - p`.
pub proof fn lemma_canonical_minimizer_mirror(s: Seq<u8>, k: int, w: int, i: int)
    requires
        s.len() <= usize::MAX,
        1 <= k <= s.len(),
        1 <= w,
        0 <= i,
        i + w <= s.len() - k + 1,
    ensures
        canonical_list(reverse_complement(s), k, w).len() == canonical_list(s, k, w).len(),
        canonical_list(reverse_complement(s), k, w)[i].1 == canonical_list(s, k, w)[s.len() - k
            - w + 1 - i].1,
        untied(canonical_stream(s, k), s.len() - k - w + 1 - i, w) ==> canonical_list(
            reverse_complement(s),
            k,
            w,
        )[i].0 == s.len() - k - canonical_list(s, k, w)[s.len() - k - w + 1 - i].0,
{
    let h = canonical_stream(s, k);
    let r = canonical_stream(reverse_complement(s), k);
    assert(is_mirror(h, r)) by {
        assert forall|j: int| 0 <= j < h.len() implies #[trigger] r[j] == h[h.len() - 1 - j] by {
            lemma_canonical_stream_mirror(s, k, j);
        }
    }
    lemma_window_mirror(h, r, w, i);
    lemma_argmin_is_min(h, h.len() - w - i, w);
    lemma_argmin_is_min(r, i, w);
}

/// The complement of a base code.
pub fn complement_of(b: u8) -> (c: u8)
    ensures
        c == complement(b),
{
    (b % 4 + 2) % 4
}

/// The reverse complement of a sequence of base codes.
pub fn reverse_complement_of(seq: &Vec<u8>) -> (out: Vec<u8>)
    ensures
        out@ == reverse_complement(seq@),
{
    let n: usize = seq.len();
    let mut out: Vec<u8> = Vec::new();
    let mut j: usize = 0;
    while j < n
        invariant
            n == seq.len(),
            j <= n,
            out.len() == j,
            forall|t: int| 0 <= t < j ==> out@[t] == complement(seq@[n - 1 - t]),
        decreases n - j,
    {
        out.push(complement_of(seq[n - 1 - j]));
        j = j + 1;
    }
    assert(out@ =~= reverse_complement(seq@));
    out
}

/// Rotates a word by one bit to the right.
pub fn rotate_back1(x: u64) -> (r: u64)
    ensures
        r == rotr1(x),
{
    (x >> 1u64) | (x << 63u64)
}

/// Hashes the reverse complement of the k-mer that starts at `i` from
/// scratch.
pub fn rc_kmer_direct(seq: &Vec<u8>, i: usize, k: usize) -> (h: u64)
    requires
        i + k <= seq.len(),
    ensures
        h == rc_hash(seq@.subrange(i as int, i + k)),
{
    let ghost rc = reverse_complement(seq@.subrange(i as int, i + k));
    let mut h: u64 = 0;
    let mut j: usize = 0;
    while j < k
        invariant
            j <= k,
            i + k <= seq.len(),
            rc == reverse_complement(seq@.subrange(i as int, i + k)),
            h == kmer_hash(rc.subrange(0, j as int)),
        decreases k - j,
    {
        proof {
            let next = rc.subrange(0, j + 1);
            assert(next.drop_last() =~= rc.subrange(0, j as int));
            assert(next.last() == complement(seq@[i + k - 1 - j]));
        }
        h = rotate1(h) ^ base_seed(complement_of(seq[i + (k - 1 - j)]));
        j = j + 1;
    }
    assert(rc.subrange(0, k as int) =~= rc);
    h
}

/// Picks the smaller of the two strand hashes; the forward strand wins a tie.
pub fn pick_strand(forward: u64, reverse: u64) -> (r: CanonicalRecord)
    ensures
        r == choose_strand(forward, reverse),
{
    if forward <= reverse {
        CanonicalRecord { hash: forward, strand: Strand::Forward }
    } else {
        CanonicalRecord { hash: reverse, strand: Strand::Reverse }
    }
}

/// The canonical record of every k-mer of `seq`, in sequence order. Both
/// strand hashes are rolled from k-mer to k-mer; neither is computed anew.
pub fn canonical_kmers(seq: &Vec<u8>, k: usize) -> (r: Result<
    Vec<CanonicalRecord>,
    InvalidParameter,
>)
    ensures
        match hash_verdict(k as int, seq.len() as int) {
            Some(e) => r == Err::<Vec<CanonicalRecord>, InvalidParameter>(e),
            None => r.is_ok() && r.unwrap()@ == canonical_records(seq@, k as int),
        },
{
    match check_hash_parameters(k, seq.len()) {
        Err(e) => {
            return Err(e);
        },
        Ok(_) => {},
    }
    let n: usize = seq.len();
    let leaving: Vec<u64> = leaving_table(k);
    let entering: Vec<u64> = leaving_table(k - 1);
    let mut out: Vec<CanonicalRecord> = Vec::new();
    let mut f: u64 = hash_kmer_direct(seq, 0, k);
    let mut r: u64 = rc_kmer_direct(seq, 0, k);
    out.push(pick_strand(f, r));
    let mut i: usize = 0;
    while i + k < n
        invariant
            1 <= k <= n,
            n == seq.len(),
            i + k <= n,
            out.len() == i + 1,
            leaving.len() == 4,
            entering.len() == 4,
            forall|b: u8| leaving@[(b % 4) as int] == rotl(#[trigger] seed(b), k as nat),
            forall|b: u8| entering@[(b % 4) as int] == rotl(#[trigger] seed(b), (k - 1) as nat),
            f == kmer_hash(seq@.subrange(i as int, i + k)),
            r == rc_hash(seq@.subrange(i as int, i + k)),
            forall|j: int|
                0 <= j <= i ==> out@[j] == canonical_record(#[trigger] seq@.subrange(j, j + k)),
        decreases n - i,
    {
        proof {
            lemma_roll(seq@, i as int, k as int);
            lemma_roll_rc(seq@, i as int, k as int);
        }
        let gone: u8 = seq[i];
        let come: u8 = complement_of(seq[i + k]);
        assert(entering@[(come % 4) as int] == rotl(seed(come), (k - 1) as nat));
        f = (rotate1(f) ^ leaving[(gone % 4) as usize]) ^ base_seed(seq[i + k]);
        r = rotate_back1(r ^ base_seed(complement_of(gone))) ^ entering[(come % 4) as usize];
        out.push(pick_strand(f, r));
        i = i + 1;
    }
    assert(out@ =~= canonical_records(seq@, k as int));
    Ok(out)
}

/// The canonical hashes of a list of records.
pub fn record_hashes(records: &Vec<CanonicalRecord>) -> (out: Vec<u64>)
    ensures
        out.len() == records.len(),
        forall|i: int| 0 <= i < records.len() ==> out@[i] == records@[i].hash,
{
    let mut out: Vec<u64> = Vec::new();
    let mut i: usize = 0;
    while i < records.len()
        invariant
            i <= records.len(),
            out.len() == i,
            forall|j: int| 0 <= j < i ==> out@[j] == records@[j].hash,
        decreases records.len() - i,
    {
        out.push(records[i].hash);
        i = i + 1;
    }
    out
}

/// The canonical minimizers of a sequence: the window minima of its
/// canonical hashes, with the position of each.
pub fn canonical_minimizer(seq: &Vec<u8>, k: usize, w: usize) -> (r: Result<
    Vec<(usize, u64)>,
    InvalidParameter,
>)
    ensures
        match minimizer_verdict(k as int, w as int, seq.len() as int) {
            Some(e) => r == Err::<Vec<(usize, u64)>, InvalidParameter>(e),
            None => r.is_ok() && r.unwrap()@ == canonical_list(seq@, k as int, w as int),
        },
{
    match check_minimizer_parameters(k, w, seq.len()) {
        Err(e) => {
            return Err(e);
        },
        Ok(_) => {},
    }
    let records: Vec<CanonicalRecord> = match canonical_kmers(seq, k) {
        Ok(v) => v,
        Err(e) => {
            return Err(e);
        },
    };
    let hashes: Vec<u64> = record_hashes(&records);
    assert(hashes@ =~= canonical_stream(seq@, k as int));
    sliding_min_queue(&hashes, w)
}

/// The canonical stream of a stretch of a sequence is a stretch of its
/// canonical stream.
pub proof fn lemma_canonical_stream_of_stretch(s: Seq<u8>, k: int, a: int, b: int)
    requires
        1 <= k,
        0 <= a,
        a + k <= b <= s.len(),
    ensures
        canonical_stream(s.subrange(a, b), k) == canonical_stream(s, k).subrange(a, b - k + 1),
{
    let part = s.subrange(a, b);
    assert forall|i: int| 0 <= i < b - a - k + 1 implies canonical_stream(part, k)[i]
        == canonical_stream(s, k)[a + i] by {
        assert(part.subrange(i, i + k) =~= s.subrange(a + i, a + i + k));
    }
    assert(canonical_stream(part, k) =~= canonical_stream(s, k).subrange(a, b - k + 1));
}

/// The canonical minimizers of a sequence by lanes: the windows are dealt
/// out to `lanes` lanes, each lane rolls both strand hashes over the bases
/// of its windows and selects its minima, and the lanes are merged. The
/// result is that of [`canonical_minimizer`], whatever the number of lanes.
pub fn canonical_minimizer_lanes(seq: &Vec<u8>, k: usize, w: usize, lanes: usize) -> (r: Result<
    Vec<(usize, u64)>,
    InvalidParameter,
>)
    ensures
        match lanes_verdict(k as int, w as int, seq.len() as int, lanes as int) {
            Some(e) => r == Err::<Vec<(usize, u64)>, InvalidParameter>(e),
            None => r.is_ok() && r.unwrap()@ == canonical_list(seq@, k as int, w as int),
        },
{
    if lanes == 0 {
        return Err(InvalidParameter::ZeroLanes);
    }
    match check_minimizer_parameters(k, w, seq.len()) {
        Err(e) => {
            return Err(e);
        },
        Ok(_) => {},
    }
    let n: usize = seq.len();
    let m: usize = n - k + 1;
    let mut out: Vec<(usize, u64)> = Vec::new();
    if m < w {
        return Ok(out);
    }
    let total: usize = m - w + 1;
    let share: usize = total / lanes;
    let chunk: usize = if share < total && total % lanes != 0 {
        share + 1
    } else {
        share
    };
    let ghost all = canonical_list(seq@, k as int, w as int);
    let mut ws: usize = 0;
    let mut l: usize = 0;
    while l < lanes
        invariant
            1 <= k <= n,
            1 <= w,
            n == seq.len(),
            k <= 64,
            m == n - k + 1,
            w <= m,
            total == m - w + 1,
            all == canonical_list(seq@, k as int, w as int),
            all.len() == total,
            l <= lanes,
            ws <= total,
            l == lanes ==> ws == total,
            out@ == all.subrange(0, ws as int),
        decreases lanes - l,
    {
        let we: usize = if l + 1 == lanes || total - ws < chunk {
            total
        } else {
            ws + chunk
        };
        if we > ws {
            let bases: Vec<u8> = copy_range(seq, ws, we + (w - 1) + (k - 1));
            let records: Vec<CanonicalRecord> = match canonical_kmers(&bases, k) {
                Ok(v) => v,
                Err(e) => {
                    return Err(e);
                },
            };
            let hashes: Vec<u64> = record_hashes(&records);
            assert(hashes@ =~= canonical_stream(bases@, k as int));
            let local: Vec<(usize, u64)> = match sliding_min_split(&hashes, w) {
                Ok(v) => v,
                Err(e) => {
                    return Err(e);
                },
            };
            proof {
                let h = canonical_stream(seq@, k as int);
                lemma_canonical_stream_of_stretch(seq@, k as int, ws as int, we + w + k - 2);
                lemma_minima_of_stretch(h, w as int, ws as int, we as int);
                assert forall|i: int| 0 <= i < local.len() implies (#[trigger] local@[i]).0 + ws
                    <= usize::MAX by {
                    lemma_argmin_is_min(hashes@, i, w as int);
                }
            }
            append_lane(&mut out, &local, ws);
            assert(out@ =~= all.subrange(0, we as int));
        }
        ws = we;
        l = l + 1;
    }
    assert(out@ =~= all);
    Ok(out)
}

} // verus!
