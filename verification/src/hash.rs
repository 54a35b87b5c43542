//! Rolling hashes of k-mers.
//!
//! A k-mer is hashed by rotating the running hash one bit to the left and
//! mixing in the seed of the next base. Sliding the k-mer by one base removes
//! the rotated seed of the outgoing base and adds the seed of the incoming
//! one, so a whole stream costs constant work per base.

use vstd::prelude::*;
use crate::error::{InvalidParameter, hash_verdict, check_hash_parameters};

verus! {

pub const SEED_A: u64 = 0x3c8b_fbb3_95c6_0474;
pub const SEED_C: u64 = 0x3193_c185_62a0_2b4c;
pub const SEED_T: u64 = 0x2955_49f5_4be2_4456;
pub const SEED_G: u64 = 0x2032_3ed0_8257_2324;

/// The two-bit code of an ASCII base: `A` is 0, `C` is 1, `T` is 2, `G` is 3.
/// Any other byte is masked to one of these.
pub open spec fn code_of(c: u8) -> u8 {
    ((c / 2) % 4) as u8
}

/// The complement of a base code: `A` with `T`, `C` with `G`.
pub open spec fn complement(b: u8) -> u8 {
    ((b % 4 + 2) % 4) as u8
}

/// The seed that a base contributes to a hash; only the low two bits count.
pub open spec fn seed(b: u8) -> u64 {
    if b % 4 == 0 {
        SEED_A
    } else if b % 4 == 1 {
        SEED_C
    } else if b % 4 == 2 {
        SEED_T
    } else {
        SEED_G
    }
}

/// Rotation of a word by one bit to the left.
pub open spec fn rot1(x: u64) -> u64 {
    (x << 1) | (x >> 63)
}

/// Rotation of a word by one bit to the right.
pub open spec fn rotr1(x: u64) -> u64 {
    (x >> 1) | (x << 63)
}

/// Rotation of a word by `r` bits to the left.
pub open spec fn rotl(x: u64, r: nat) -> u64
    decreases r,
{
    if r == 0 {
        x
    } else {
        rot1(rotl(x, (r - 1) as nat))
    }
}

/// The hash of a k-mer, computed from scratch.
pub open spec fn kmer_hash(s: Seq<u8>) -> u64
    decreases s.len(),
{
    if s.len() == 0 {
        0
    } else {
        rot1(kmer_hash(s.drop_last())) ^ seed(s.last())
    }
}

/// The reverse complement of a sequence of base codes.
pub open spec fn reverse_complement(s: Seq<u8>) -> Seq<u8> {
    Seq::new(s.len(), |j: int| complement(s[s.len() - 1 - j]))
}

/// The number of k-mers in a sequence of `n` bases.
pub open spec fn kmer_count(n: int, k: int) -> nat {
    if n >= k {
        (n - k + 1) as nat
    } else {
        0
    }
}

/// The stream of forward hashes of a sequence, one per k-mer.
pub open spec fn hash_stream(s: Seq<u8>, k: int) -> Seq<u64> {
    Seq::new(kmer_count(s.len() as int, k), |i: int| kmer_hash(s.subrange(i, i + k)))
}

proof fn lemma_rot1_xor(a: u64, b: u64)
    ensures
        rot1(a ^ b) == rot1(a) ^ rot1(b),
{
    assert(((a ^ b) << 1) | ((a ^ b) >> 63) == ((a << 1) | (a >> 63)) ^ ((b << 1) | (b >> 63)))
        by (bit_vector);
}

/// Hashing depends on the low two bits of each base only.
pub proof fn lemma_hash_congruent(s: Seq<u8>, t: Seq<u8>)
    requires
        s.len() == t.len(),
        forall|i: int| 0 <= i < s.len() ==> s[i] % 4 == t[i] % 4,
    ensures
        kmer_hash(s) == kmer_hash(t),
    decreases s.len(),
{
    if s.len() > 0 {
        lemma_hash_congruent(s.drop_last(), t.drop_last());
    }
}

/// The first base of a k-mer contributes its seed rotated by `k - 1`.
pub proof fn lemma_hash_peel_front(s: Seq<u8>)
    requires
        s.len() >= 1,
    ensures
        kmer_hash(s) == rotl(seed(s[0]), (s.len() - 1) as nat) ^ kmer_hash(s.drop_first()),
    decreases s.len(),
{
    let x: u64 = seed(s[0]);
    if s.len() == 1 {
        assert(s.drop_last().len() == 0);
        assert(s.drop_first().len() == 0);
        assert(kmer_hash(s.drop_last()) == 0);
        assert(kmer_hash(s.drop_first()) == 0);
        assert(rotl(x, 0) == x);
        assert(((0u64 << 1) | (0u64 >> 63)) ^ x == x ^ 0u64) by (bit_vector);
    } else {
        let front = s.drop_last();
        let mid = front.drop_first();
        lemma_hash_peel_front(front);
        assert(s.drop_first().drop_last() =~= mid);
        let a: u64 = rotl(x, (s.len() - 2) as nat);
        let m: u64 = kmer_hash(mid);
        let c: u64 = seed(s.last());
        assert(front[0] == s[0]);
        assert(kmer_hash(front) == a ^ m);
        lemma_rot1_xor(a, m);
        let ra: u64 = rot1(a);
        let rm: u64 = rot1(m);
        assert(ra == rotl(x, (s.len() - 1) as nat));
        assert(kmer_hash(s) == (ra ^ rm) ^ c);
        assert(s.drop_first().last() == s.last());
        assert(kmer_hash(s.drop_first()) == rm ^ c);
        assert((ra ^ rm) ^ c == ra ^ (rm ^ c)) by (bit_vector);
    }
}

/// Sliding a k-mer by one base: the next hash from the current one.
pub open spec fn roll(h: u64, out_rotated: u64, incoming: u64) -> u64 {
    (rot1(h) ^ out_rotated) ^ incoming
}

/// The incremental recurrence yields the from-scratch hash at every position.
pub proof fn lemma_roll(s: Seq<u8>, i: int, k: int)
    requires
        1 <= k,
        0 <= i,
        i + k < s.len(),
    ensures
        kmer_hash(s.subrange(i + 1, i + k + 1)) == roll(
            kmer_hash(s.subrange(i, i + k)),
            rotl(seed(s[i]), k as nat),
            seed(s[i + k]),
        ),
{
    let cur = s.subrange(i, i + k);
    let next = s.subrange(i + 1, i + k + 1);
    let mid = s.subrange(i + 1, i + k);
    lemma_hash_peel_front(cur);
    assert(cur.drop_first() =~= mid);
    assert(next.drop_last() =~= mid);
    assert(cur[0] == s[i]);
    assert(next.last() == s[i + k]);
    let a: u64 = rotl(seed(s[i]), (k - 1) as nat);
    let m: u64 = kmer_hash(mid);
    let c: u64 = seed(s[i + k]);
    lemma_rot1_xor(a, m);
    let ra: u64 = rot1(a);
    let rm: u64 = rot1(m);
    assert(ra == rotl(seed(s[i]), k as nat));
    assert(kmer_hash(next) == rm ^ c);
    assert(rot1(kmer_hash(cur)) == ra ^ rm);
    assert(((ra ^ rm) ^ ra) ^ c == rm ^ c) by (bit_vector);
}

/// The seed of a base.
pub fn base_seed(b: u8) -> (r: u64)
    ensures
        r == seed(b),
{
    let c: u8 = b % 4;
    if c == 0 {
        SEED_A
    } else if c == 1 {
        SEED_C
    } else if c == 2 {
        SEED_T
    } else {
        SEED_G
    }
}

/// Rotates a word by one bit to the left.
pub fn rotate1(x: u64) -> (r: u64)
    ensures
        r == rot1(x),
{
    (x << 1u64) | (x >> 63u64)
}

/// Rotation by `s` bits to the left, written with two shifts.
pub open spec fn rot_by(x: u64, s: u64) -> u64 {
    if s == 0 {
        x
    } else {
        (x << s) | (x >> ((64 - s) as u64))
    }
}

proof fn lemma_rot_by_step(x: u64, s: u64)
    requires
        s < 64,
    ensures
        rot1(rot_by(x, s)) == rot_by(
            x,
            if s == 63 {
                0
            } else {
                (s + 1) as u64
            },
        ),
{
    if s == 0 {
        assert((x << 1u64) | (x >> ((64 - 1u64) as u64)) == (x << 1) | (x >> 63)) by (bit_vector);
    } else if s == 63 {
        let y: u64 = (x << 63u64) | (x >> ((64 - 63u64) as u64));
        assert(y == (x << 63u64) | (x >> 1u64)) by (bit_vector)
            requires
                y == (x << 63u64) | (x >> ((64 - 63u64) as u64)),
        ;
        assert((y << 1) | (y >> 63) == x) by (bit_vector)
            requires
                y == (x << 63u64) | (x >> 1u64),
        ;
    } else {
        let y: u64 = (x << s) | (x >> ((64 - s) as u64));
        let t: u64 = (s + 1) as u64;
        assert((y << 1) | (y >> 63) == (x << t) | (x >> ((64 - t) as u64))) by (bit_vector)
            requires
                0 < s < 63,
                t == s + 1,
                y == (x << s) | (x >> ((64 - s) as u64)),
        ;
    }
}

/// Rotating bit by bit comes to two shifts by the count modulo the width.
pub proof fn lemma_rotl_is_rot_by(x: u64, r: nat)
    ensures
        rotl(x, r) == rot_by(x, (r % 64) as u64),
    decreases r,
{
    if r > 0 {
        lemma_rotl_is_rot_by(x, (r - 1) as nat);
        lemma_rot_by_step(x, ((r - 1) % 64) as u64);
    }
}

/// Rotates a word by `r` bits to the left.
pub fn rotate(x: u64, r: usize) -> (y: u64)
    ensures
        y == rotl(x, r as nat),
{
    let s: u64 = (r % 64) as u64;
    proof {
        lemma_rotl_is_rot_by(x, r as nat);
    }
    if s == 0 {
        x
    } else {
        (x << s) | (x >> (64 - s))
    }
}

/// Hashes the k-mer that starts at `i` from scratch, without any rolling.
pub fn hash_kmer_direct(seq: &Vec<u8>, i: usize, k: usize) -> (h: u64)
    requires
        i + k <= seq.len(),
    ensures
        h == kmer_hash(seq@.subrange(i as int, i + k)),
{
    let mut h: u64 = 0;
    let mut j: usize = 0;
    while j < k
        invariant
            j <= k,
            i + k <= seq.len(),
            h == kmer_hash(seq@.subrange(i as int, i + j)),
        decreases k - j,
    {
        proof {
            let next = seq@.subrange(i as int, i + j + 1);
            assert(next.drop_last() =~= seq@.subrange(i as int, i + j));
            assert(next.last() == seq@[i + j]);
        }
        h = rotate1(h) ^ base_seed(seq[i + j]);
        j = j + 1;
    }
    h
}

/// The hash of every k-mer of `seq`, in sequence order, by the scalar
/// recurrence: one rotation and two mixes per base.
pub fn hash_kmers(seq: &Vec<u8>, k: usize) -> (r: Result<Vec<u64>, InvalidParameter>)
    ensures
        match hash_verdict(k as int, seq.len() as int) {
            Some(e) => r == Err::<Vec<u64>, InvalidParameter>(e),
            None => r.is_ok() && r.unwrap()@ == hash_stream(seq@, k as int),
        },
{
    match check_hash_parameters(k, seq.len()) {
        Err(e) => {
            return Err(e);
        },
        Ok(_) => {},
    }
    let n: usize = seq.len();
    let mut out: Vec<u64> = Vec::new();
    let mut h: u64 = hash_kmer_direct(seq, 0, k);
    out.push(h);
    let mut i: usize = 0;
    while i + k < n
        invariant
            1 <= k <= n,
            n == seq.len(),
            i + k <= n,
            out.len() == i + 1,
            h == kmer_hash(seq@.subrange(i as int, i + k)),
            forall|j: int| 0 <= j <= i ==> out@[j] == kmer_hash(#[trigger] seq@.subrange(j, j + k)),
        decreases n - i,
    {
        proof {
            lemma_roll(seq@, i as int, k as int);
        }
        let leaving: u64 = rotate(base_seed(seq[i]), k);
        h = (rotate1(h) ^ leaving) ^ base_seed(seq[i + k]);
        out.push(h);
        i = i + 1;
    }
    assert(out@ =~= hash_stream(seq@, k as int));
    Ok(out)
}

/// The seeds of the four bases, each rotated by `k`: what a base takes out of
/// the hash when it leaves the k-mer.
pub fn leaving_table(k: usize) -> (t: Vec<u64>)
    ensures
        t.len() == 4,
        forall|b: u8| t@[(b % 4) as int] == rotl(#[trigger] seed(b), k as nat),
{
    let mut t: Vec<u64> = Vec::new();
    t.push(rotate(SEED_A, k));
    t.push(rotate(SEED_C, k));
    t.push(rotate(SEED_T, k));
    t.push(rotate(SEED_G, k));
    t
}

/// The hash of every k-mer of `seq`, with the contribution of each leaving
/// base looked up in a table made once; the output is that of [`hash_kmers`].
pub fn hash_kmers_buffered(seq: &Vec<u8>, k: usize) -> (r: Result<Vec<u64>, InvalidParameter>)
    ensures
        match hash_verdict(k as int, seq.len() as int) {
            Some(e) => r == Err::<Vec<u64>, InvalidParameter>(e),
            None => r.is_ok() && r.unwrap()@ == hash_stream(seq@, k as int),
        },
{
    match check_hash_parameters(k, seq.len()) {
        Err(e) => {
            return Err(e);
        },
        Ok(_) => {},
    }
    let n: usize = seq.len();
    let table: Vec<u64> = leaving_table(k);
    let mut out: Vec<u64> = Vec::new();
    let mut h: u64 = hash_kmer_direct(seq, 0, k);
    out.push(h);
    let mut i: usize = 0;
    while i + k < n
        invariant
            1 <= k <= n,
            n == seq.len(),
            i + k <= n,
            out.len() == i + 1,
            table.len() == 4,
            forall|b: u8| table@[(b % 4) as int] == rotl(#[trigger] seed(b), k as nat),
            h == kmer_hash(seq@.subrange(i as int, i + k)),
            forall|j: int| 0 <= j <= i ==> out@[j] == kmer_hash(#[trigger] seq@.subrange(j, j + k)),
        decreases n - i,
    {
        proof {
            lemma_roll(seq@, i as int, k as int);
        }
        let b: u8 = seq[i];
        let leaving: u64 = table[(b % 4) as usize];
        h = (rotate1(h) ^ leaving) ^ base_seed(seq[i + k]);
        out.push(h);
        i = i + 1;
    }
    assert(out@ =~= hash_stream(seq@, k as int));
    Ok(out)
}

/// Turns ASCII bases into two-bit codes, masking whatever is no base.
pub fn encode_ascii(text: &Vec<u8>) -> (codes: Vec<u8>)
    ensures
        codes.len() == text.len(),
        forall|i: int| 0 <= i < text.len() ==> codes@[i] == code_of(text@[i]),
{
    let mut codes: Vec<u8> = Vec::new();
    let mut i: usize = 0;
    while i < text.len()
        invariant
            i <= text.len(),
            codes.len() == i,
            forall|j: int| 0 <= j < i ==> codes@[j] == code_of(text@[j]),
        decreases text.len() - i,
    {
        codes.push((text[i] / 2) % 4);
        i = i + 1;
    }
    codes
}

} // verus!
