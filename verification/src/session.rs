//! A rolling hasher that is fed base by base.
//!
//! The hasher owns its state: the running hash and the last `k` bases, kept
//! in a ring. It carries nothing over by itself from one sequence to the
//! next: `reset` forgets what was fed.

use vstd::prelude::*;
use crate::error::{InvalidParameter, MAX_K};
use crate::hash::{
    seed,
    rotl,
    kmer_hash,
    hash_stream,
    lemma_roll,
    base_seed,
    rotate1,
    leaving_table,
};

verus! {

/// The state of one rolling hash.
pub struct RollingHasher {
    k: usize,
    leaving: Vec<u64>,
    recent: Vec<u8>,
    oldest: usize,
    filled: usize,
    hash: u64,
    fed: Ghost<Seq<u8>>,
}

/// The last `k` of the bases in `fed`.
pub open spec fn last_kmer(fed: Seq<u8>, k: int) -> Seq<u8> {
    fed.subrange(fed.len() - k, fed.len() as int)
}

/// What feeding one more base yields, once `fed` holds it: the hash of the
/// last `k` bases, as soon as there are that many.
pub open spec fn yielded(fed: Seq<u8>, k: int) -> Option<u64> {
    if fed.len() >= k {
        Some(kmer_hash(last_kmer(fed, k)))
    } else {
        None
    }
}

impl RollingHasher {
    /// The bases fed since the hasher was made or reset.
    pub closed spec fn view(&self) -> Seq<u8> {
        self.fed@
    }

    /// The k-mer length.
    pub closed spec fn kmer_len(&self) -> int {
        self.k as int
    }

    /// The state is that of a hasher which was fed `self@`.
    pub closed spec fn wf(&self) -> bool {
        &&& 1 <= self.k <= MAX_K
        &&& self.leaving.len() == 4
        &&& forall|b: u8|
            self.leaving@[(b % 4) as int] == rotl(#[trigger] seed(b), self.k as nat)
        &&& self.recent.len() == self.k
        &&& self.filled <= self.k
        &&& self.oldest < self.k
        &&& self.filled < self.k ==> {
            &&& self.filled == self.fed@.len()
            &&& self.oldest == 0
            &&& self.hash == kmer_hash(self.fed@)
            &&& forall|t: int| 0 <= t < self.filled ==> self.recent@[t] == self.fed@[t]
        }
        &&& self.filled == self.k ==> {
            &&& self.fed@.len() >= self.k
            &&& self.hash == kmer_hash(last_kmer(self.fed@, self.k as int))
            &&& forall|t: int|
                self.oldest <= t < self.k ==> self.recent@[t] == last_kmer(
                    self.fed@,
                    self.k as int,
                )[t - self.oldest]
            &&& forall|t: int|
                0 <= t < self.oldest ==> self.recent@[t] == last_kmer(self.fed@, self.k as int)[self.k
                    - self.oldest + t]
        }
    }

    /// A hasher for k-mers of length `k`, fed nothing yet.
    pub fn new(k: usize) -> (r: Result<RollingHasher, InvalidParameter>)
        ensures
            k == 0 ==> r == Err::<RollingHasher, InvalidParameter>(InvalidParameter::ZeroK),
            k > MAX_K ==> r == Err::<RollingHasher, InvalidParameter>(InvalidParameter::KTooLarge),
            1 <= k <= MAX_K ==> r.is_ok() && r.unwrap().wf() && r.unwrap()@ == Seq::<u8>::empty()
                && r.unwrap().kmer_len() == k,
    {
        if k == 0 {
            return Err(InvalidParameter::ZeroK);
        }
        if k > MAX_K {
            return Err(InvalidParameter::KTooLarge);
        }
        let mut recent: Vec<u8> = Vec::new();
        let mut i: usize = 0;
        while i < k
            invariant
                i <= k,
                recent.len() == i,
            decreases k - i,
        {
            recent.push(0);
            i = i + 1;
        }
        Ok(
            RollingHasher {
                k,
                leaving: leaving_table(k),
                recent,
                oldest: 0,
                filled: 0,
                hash: 0,
                fed: Ghost(Seq::empty()),
            },
        )
    }

    /// The k-mer length.
    pub fn k(&self) -> (k: usize)
        ensures
            k == self.kmer_len(),
    {
        self.k
    }

    /// Forgets every base that was fed.
    pub fn reset(&mut self)
        requires
            old(self).wf(),
        ensures
            final(self).wf(),
            final(self)@ == Seq::<u8>::empty(),
            final(self).kmer_len() == old(self).kmer_len(),
    {
        self.oldest = 0;
        self.filled = 0;
        self.hash = 0;
        self.fed = Ghost(Seq::empty());
    }

    /// Feeds one base. Once `k` bases have been fed, every base yields
    /// the hash of the k-mer that ends with it.
    pub fn push(&mut self, b: u8) -> (r: Option<u64>)
        requires
            old(self).wf(),
        ensures
            final(self).wf(),
            final(self)@ == old(self)@.push(b),
            final(self).kmer_len() == old(self).kmer_len(),
            r == yielded(old(self)@.push(b), old(self).kmer_len()),
    {
        let ghost before = self.fed@;
        let ghost after = before.push(b);
        let ghost n = before.len() as int;
        if self.filled < self.k {
            proof {
                assert(after.drop_last() =~= before);
            }
            self.hash = rotate1(self.hash) ^ base_seed(b);
            self.recent.set(self.filled, b);
            self.filled = self.filled + 1;
            self.fed = Ghost(after);
            if self.filled == self.k {
                proof {
                    assert(last_kmer(after, self.k as int) =~= after);
                }
                Some(self.hash)
            } else {
                None
            }
        } else {
            let gone: u8 = self.recent[self.oldest];
            proof {
                let k = self.k as int;
                assert(gone == last_kmer(before, k)[0]);
                lemma_roll(after, n - k, k);
                assert(after.subrange(n - k, n) =~= last_kmer(before, k));
                assert(after.subrange(n - k + 1, n + 1) =~= last_kmer(after, k));
                assert(after[n - k] == gone);
                assert(after[n] == b);
                assert forall|t: int| 0 <= t < k - 1 implies last_kmer(after, k)[t] == last_kmer(
                    before,
                    k,
                )[t + 1] by {}
                assert(last_kmer(after, k)[k - 1] == b);
            }
            self.hash = (rotate1(self.hash) ^ self.leaving[(gone % 4) as usize]) ^ base_seed(b);
            self.recent.set(self.oldest, b);
            self.oldest = if self.oldest + 1 == self.k {
                0
            } else {
                self.oldest + 1
            };
            self.fed = Ghost(after);
            Some(self.hash)
        }
    }
}

/// The hash of every k-mer of `seq`, by a hasher that the caller keeps and
/// may use again: it is reset first, and fed `seq` when it returns. A
/// sequence shorter than the k-mer length yields no hash.
pub fn hash_kmers_with(hasher: &mut RollingHasher, seq: &Vec<u8>) -> (out: Vec<u64>)
    requires
        old(hasher).wf(),
    ensures
        final(hasher).wf(),
        final(hasher).kmer_len() == old(hasher).kmer_len(),
        final(hasher)@ == seq@,
        out@ == hash_stream(seq@, old(hasher).kmer_len()),
{
    hasher.reset();
    let k: usize = hasher.k();
    let mut out: Vec<u64> = Vec::new();
    let mut i: usize = 0;
    while i < seq.len()
        invariant
            i <= seq.len(),
            hasher.wf(),
            hasher.kmer_len() == k,
            1 <= k <= MAX_K,
            hasher@ == seq@.subrange(0, i as int),
            out.len() == (if i >= k {
                i - k + 1
            } else {
                0
            }),
            forall|j: int| 0 <= j < out.len() ==> out@[j] == kmer_hash(#[trigger] seq@.subrange(j, j + k)),
        decreases seq.len() - i,
    {
        proof {
            assert(seq@.subrange(0, i as int).push(seq@[i as int]) =~= seq@.subrange(0, i + 1));
            if i + 1 >= k {
                assert(last_kmer(seq@.subrange(0, i + 1), k as int) =~= seq@.subrange(
                    i + 1 - k,
                    i + 1,
                ));
            }
        }
        match hasher.push(seq[i]) {
            Some(h) => {
                out.push(h);
            },
            None => {},
        }
        i = i + 1;
    }
    proof {
        assert(seq@.subrange(0, seq.len() as int) =~= seq@);
        assert(out@ =~= hash_stream(seq@, k as int));
    }
    out
}

} // verus!
