//! Bit-packed sequences of bases.
//!
//! A base takes two bits. The bits of a sequence are numbered through the
//! buffer from the lowest bit of the first byte; base `i` holds the bits
//! `bit_offset + 2 i` (its low bit) and `bit_offset + 2 i + 1`. Bits behind
//! the last base are never read.

use vstd::prelude::*;

verus! {

/// The width of a base in bits.
pub const BITS_PER_BASE: usize = 2;

/// A view into a buffer of packed bases.
pub struct PackedSequence {
    pub bytes: Vec<u8>,
    pub length: usize,
    pub bit_offset: usize,
}

/// Two to the power `e`, for a bit number within a byte.
pub open spec fn bit_weight(e: int) -> int {
    if e <= 0 {
        1
    } else if e == 1 {
        2
    } else if e == 2 {
        4
    } else if e == 3 {
        8
    } else if e == 4 {
        16
    } else if e == 5 {
        32
    } else if e == 6 {
        64
    } else {
        128
    }
}

/// Bit `p` of the buffer.
pub open spec fn bit_at(bytes: Seq<u8>, p: int) -> int {
    (bytes[p / 8] as int / bit_weight(p % 8)) % 2
}

/// Base `i` of the sequence that starts at bit `bit_offset` of the buffer.
pub open spec fn base_at(bytes: Seq<u8>, bit_offset: int, i: int) -> u8 {
    (bit_at(bytes, bit_offset + 2 * i) + 2 * bit_at(bytes, bit_offset + 2 * i + 1)) as u8
}

/// Whether `length` bases from bit `bit_offset` on lie within `n` bytes.
pub open spec fn fits(n: int, length: int, bit_offset: int) -> bool {
    bit_offset < BITS_PER_BASE && bit_offset + 2 * length <= 8 * n
}

impl PackedSequence {
    /// The start lies within the first base, and every base within the buffer.
    pub open spec fn wf(&self) -> bool {
        fits(self.bytes.len() as int, self.length as int, self.bit_offset as int)
    }

    /// The base codes of the sequence.
    pub open spec fn view(&self) -> Seq<u8> {
        Seq::new(self.length as nat, |i: int| base_at(self.bytes@, self.bit_offset as int, i))
    }

    /// A view of `length` bases that start at bit `bit_offset` of `bytes`;
    /// none where they do not fit.
    pub fn new(bytes: Vec<u8>, length: usize, bit_offset: usize) -> (r: Option<PackedSequence>)
        ensures
            r.is_some() == fits(bytes.len() as int, length as int, bit_offset as int),
            r.is_some() ==> r.unwrap().wf() && r.unwrap().bytes == bytes && r.unwrap().length
                == length && r.unwrap().bit_offset == bit_offset,
    {
        if bit_offset >= BITS_PER_BASE {
            return None;
        }
        let room: u128 = 8 * (bytes.len() as u128);
        let need: u128 = (bit_offset as u128) + 2 * (length as u128);
        if need > room {
            return None;
        }
        Some(PackedSequence { bytes, length, bit_offset })
    }

    /// The number of bases.
    pub fn len(&self) -> (n: usize)
        ensures
            n == self@.len(),
    {
        self.length
    }

    /// Base `i`, in constant time.
    pub fn get(&self, i: usize) -> (b: u8)
        requires
            self.wf(),
            i < self.length,
        ensures
            b == self@[i as int],
            b < 4,
    {
        let byte: usize = i / 4;
        let low: usize = 2 * (i % 4) + self.bit_offset;
        let first: u8 = bit_of(self.bytes[byte], low);
        let second: u8 = if low == 7 {
            bit_of(self.bytes[byte + 1], 0)
        } else {
            bit_of(self.bytes[byte], low + 1)
        };
        first + 2 * second
    }

    /// The base codes, one per byte.
    pub fn unpack(&self) -> (out: Vec<u8>)
        requires
            self.wf(),
        ensures
            out@ == self@,
    {
        let mut out: Vec<u8> = Vec::new();
        let mut i: usize = 0;
        while i < self.length
            invariant
                self.wf(),
                i <= self.length,
                out.len() == i,
                forall|j: int| 0 <= j < i ==> out@[j] == self@[j],
            decreases self.length - i,
        {
            out.push(self.get(i));
            i = i + 1;
        }
        assert(out@ =~= self@);
        out
    }
}

/// Bit `e` of a byte.
pub fn bit_of(byte: u8, e: usize) -> (b: u8)
    requires
        e < 8,
    ensures
        b == (byte as int / bit_weight(e as int)) % 2,
        b <= 1,
{
    let weight: u8 = if e == 0 {
        1
    } else if e == 1 {
        2
    } else if e == 2 {
        4
    } else if e == 3 {
        8
    } else if e == 4 {
        16
    } else if e == 5 {
        32
    } else if e == 6 {
        64
    } else {
        128
    };
    (byte / weight) % 2
}

} // verus!
