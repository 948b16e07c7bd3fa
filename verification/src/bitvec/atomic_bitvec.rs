use crate::bitvec::bitvec::{lemma_index_fits, max_digits, BitVec};
use crate::digit::{
    bit_mask, digit_bit, low_mask, low_one, low_zero, lowest_one, lowest_zero, test_bit, BITS,
};
use crate::digit::{lemma_bit_and_not, lemma_bit_or};
use std::sync::atomic::AtomicU64;
use std::sync::atomic::Ordering;
use vstd::prelude::*;

verus! {

/// The number of digits that hold `n` bits.
pub open spec fn digits_for(n: nat) -> nat {
    if n % 64 > 0 {
        n / 64 + 1
    } else {
        n / 64
    }
}

/// Reads a digit: the value that some thread wrote there last. Nothing is
/// stated of it.
fn load(a: &AtomicU64) -> u64 {
    a.load(Ordering::Relaxed)
}

/// Writes a digit.
fn store(a: &AtomicU64, v: u64) {
    a.store(v, Ordering::Relaxed)
}

/// Sets in a digit the bits that are one in `v`.
fn fetch_or(a: &AtomicU64, v: u64) {
    a.fetch_or(v, Ordering::Relaxed);
}

/// Clears in a digit the bits that are zero in `v`.
fn fetch_and(a: &AtomicU64, v: u64) {
    a.fetch_and(v, Ordering::Relaxed);
}

/// An array of atomic digits to work with underlying bits.
///
/// `AtomicBitVec` must be initialized with **maximum number of the bits** that will be used.
/// Although the internal data structure is a vec, the data structure itself
/// should be considered a fixed-size array: it is passed around by shared
/// reference, and only its digits change.
///
/// Several threads may change the digits at once. So nothing is known here
/// of what a digit holds; what is known is how many digits there are.
#[derive(Debug)]
pub struct AtomicBitVec(pub Vec<AtomicU64>);

impl AtomicBitVec {
    /// Initialize with zeros that is at least n bits long.
    /// n signifies the number of bits that will be used.
    /// Actually allocated bits will be rounded up to the nearest multiple of 64.
    pub fn zeros(n: usize) -> (res: Self)
        ensures
            res.0@.len() == digits_for(n as nat),
    {
        let i: usize = n / BITS;
        let j: usize = n % BITS;
        let len: usize = if j > 0 {
            i + 1
        } else {
            i
        };
        let mut v: Vec<AtomicU64> = Vec::with_capacity(len);
        let mut k: usize = 0;
        while k < len
            invariant
                k <= len,
                v@.len() == k,
            decreases len - k,
        {
            v.push(AtomicU64::new(0));
            k += 1;
        }
        AtomicBitVec(v)
    }

    /// Initialize with zeros that is at least n bits long,
    /// and set the bit at the given index to 1.
    pub fn one(bit_index: usize, n: usize) -> (res: Self)
        requires
            bit_index / 64 < digits_for(n as nat),
        ensures
            res.0@.len() == digits_for(n as nat),
    {
        let res = Self::zeros(n);
        res.set_bit(bit_index, true);
        res
    }

    /// Set the bit at the given index to the given value.
    /// The index must be within the bit length of the array
    /// because the vec cannot be resized by reference.
    pub fn set_bit(&self, index: usize, value: bool)
        requires
            index / 64 < self.0@.len(),
    {
        let i: usize = index / BITS;
        let j: usize = index % BITS;
        let m = bit_mask(j);
        if value {
            fetch_or(&self.0[i], m);
        } else {
            fetch_and(&self.0[i], !m);
        }
    }

    /// Get the bit at the given index, in its digit as it is read now.
    /// The index must be within the bit length of the array.
    pub fn get_bit(&self, index: usize) -> (r: bool)
        requires
            index / 64 < self.0@.len(),
    {
        let i: usize = index / BITS;
        let j: usize = index % BITS;
        test_bit(load(&self.0[i]), j)
    }

    /// Reads digit number `k`, as it is now.
    pub fn digit(&self, k: usize) -> (r: u64)
        requires
            k < self.0@.len(),
    {
        load(&self.0[k])
    }

    /// Check if all bits are zero, in the digits as they are read one after
    /// the other. A vector without digits is zero.
    pub fn is_zero(&self) -> (r: bool)
        ensures
            self.0@.len() == 0 ==> r,
    {
        let mut k: usize = 0;
        while k < self.0.len()
            invariant
                k <= self.0@.len(),
            decreases self.0@.len() - k,
        {
            if load(&self.0[k]) != 0 {
                return false;
            }
            k += 1;
        }
        true
    }

    /// Iterate over each bit that is 1, returning the index of the bit.
    pub fn iter_ones(&self) -> (it: IterOnes<'_>)
        requires
            0 < self.0@.len() <= max_digits(),
        ensures
            it.wf(),
            it.len() == self.0@.len(),
            it.cursor() == 0,
            it.at() == 0,
    {
        IterOnes { data: self, array_index: 0, current: load(&self.0[0]), cursor: Ghost(0) }
    }

    /// Iterate over each bit that is 0, returning the index of the bit.
    pub fn iter_zeros(&self) -> (it: IterZeros<'_>)
        requires
            0 < self.0@.len() <= max_digits(),
        ensures
            it.wf(),
            it.len() == self.0@.len(),
            it.cursor() == 0,
            it.at() == 0,
    {
        IterZeros { data: self, array_index: 0, current: load(&self.0[0]), cursor: Ghost(0) }
    }

    /// Set all bits to 0.
    pub fn clear(&self) {
        let mut k: usize = 0;
        while k < self.0.len()
            invariant
                k <= self.0@.len(),
            decreases self.0@.len() - k,
        {
            store(&self.0[k], 0);
            k += 1;
        }
    }

    /// Convert from BitVec to AtomicBitVec.
    /// Set the length to at least n bits.
    pub fn from_bitvec(bits: &BitVec, n: usize) -> (res: Self)
        requires
            bits.0@.len() <= digits_for(n as nat),
        ensures
            res.0@.len() == digits_for(n as nat),
    {
        let res = Self::zeros(n);
        let mut k: usize = 0;
        while k < bits.0.len()
            invariant
                k <= bits.0@.len(),
                bits.0@.len() <= res.0@.len(),
            decreases bits.0@.len() - k,
        {
            let b: u64 = bits.0[k];
            if b != 0 {
                store(&res.0[k], b);
            }
            k += 1;
        }
        res
    }

    /// Convert from AtomicBitVec to BitVec: the digits as they are read, one
    /// after the other, without the zero digits at the end.
    pub fn into_bitvec(&self) -> (bits: BitVec)
        requires
            self.0@.len() <= max_digits(),
        ensures
            bits.wf(),
            bits.0@.len() <= self.0@.len(),
    {
        let mut bits: BitVec = BitVec(Vec::with_capacity(self.0.len()));
        let mut k: usize = 0;
        while k < self.0.len()
            invariant
                k <= self.0@.len(),
                bits.0@.len() == k,
            decreases self.0@.len() - k,
        {
            bits.0.push(load(&self.0[k]));
            k += 1;
        }
        bits.normalize();
        bits
    }

    /// Set values of this AtomicBitVec from the given BitVec.
    /// Digits past the end of `rhs` are set to zero.
    pub fn assign_from(&self, rhs: &BitVec) {
        let mut k: usize = 0;
        while k < self.0.len()
            invariant
                k <= self.0@.len(),
            decreases self.0@.len() - k,
        {
            if k < rhs.0.len() {
                store(&self.0[k], rhs.0[k]);
            } else {
                store(&self.0[k], 0);
            }
            k += 1;
        }
    }

    /// Truncate the size of the bitvec to the given length of bits.
    pub fn truncate(&mut self, bit_len: usize)
        requires
            bit_len % 64 > 0 ==> bit_len / 64 < old(self).0@.len(),
        ensures
            final(self).0@.len() == if digits_for(bit_len as nat) < old(self).0@.len() {
                digits_for(bit_len as nat)
            } else {
                old(self).0@.len() as nat
            },
    {
        let i: usize = bit_len / BITS;
        let j: usize = bit_len % BITS;
        let len: usize = if j > 0 {
            i + 1
        } else {
            i
        };
        self.0.truncate(len);
        if j > 0 {
            fetch_and(&self.0[i], low_mask(j));
        }
    }

    /// Checks if two bitvecs are equal, in the digits as they are read one
    /// after the other. Vectors with different numbers of digits are not, and
    /// two vectors without digits are.
    pub fn eq(&self, other: &BitVec) -> (r: bool)
        ensures
            self.0@.len() != other.0@.len() ==> !r,
            self.0@.len() == 0 && other.0@.len() == 0 ==> r,
    {
        if self.0.len() != other.0.len() {
            return false;
        }
        let mut k: usize = 0;
        while k < self.0.len()
            invariant
                k <= self.0@.len(),
                self.0@.len() == other.0@.len(),
            decreases self.0@.len() - k,
        {
            if load(&self.0[k]) != other.0[k] {
                return false;
            }
            k += 1;
        }
        true
    }

    /// a |= b
    pub fn bitor_assign(&self, rhs: &BitVec) {
        let mut k: usize = 0;
        while k < self.0.len() && k < rhs.0.len()
            invariant
                k <= self.0@.len(),
            decreases self.0@.len() - k,
        {
            let b: u64 = rhs.0[k];
            if b != 0 {
                fetch_or(&self.0[k], b);
            }
            k += 1;
        }
    }

    /// a |= b
    pub fn bitor_assign_atomic(&self, rhs: &AtomicBitVec) {
        let mut k: usize = 0;
        while k < self.0.len() && k < rhs.0.len()
            invariant
                k <= self.0@.len(),
            decreases self.0@.len() - k,
        {
            let b: u64 = load(&rhs.0[k]);
            if b != 0 {
                fetch_or(&self.0[k], b);
            }
            k += 1;
        }
    }
}

/// A source of bit indices in ascending order.
pub trait IndexIter {
    /// The source can be asked for its next index.
    spec fn ready(&self) -> bool;

    /// Every index that is still to come is at or above this one.
    spec fn floor(&self) -> nat;

    /// The index that the source has in hand, where it has one: it comes
    /// next, whatever the source would read further on.
    spec fn held(&self) -> Option<usize>;

    /// The next index, or `None` where none is left: the index in hand where
    /// there is one, and in any case one at or above the floor, which then
    /// rises past it.
    fn next_index(&mut self) -> (r: Option<usize>)
        requires
            old(self).ready(),
        ensures
            final(self).ready(),
            old(self).held() is Some ==> r == old(self).held(),
            match r {
                Some(i) => old(self).floor() <= i && final(self).floor() == i + 1,
                None => final(self).floor() == old(self).floor(),
            },
    ;
}

/// Iterates over each digit in the array,
/// and then over each one bit of the digit as it was read.
pub struct IterOnes<'a> {
    data: &'a AtomicBitVec,
    array_index: usize,
    current: u64,
    cursor: Ghost<nat>,
}

impl<'a> IterOnes<'a> {
    /// The number of digits of the vector that is read.
    pub closed spec fn len(&self) -> nat {
        self.data.0@.len()
    }

    /// Every index that is still to come is at or above the cursor.
    pub closed spec fn cursor(&self) -> nat {
        self.cursor@
    }

    /// The position of the digit in hand.
    pub closed spec fn at(&self) -> nat {
        self.array_index as nat
    }

    /// The digit in hand: what is left of the digit that was read last.
    pub closed spec fn scratch(&self) -> u64 {
        self.current
    }

    /// The index that comes next where the digit in hand still holds a one.
    pub open spec fn pending(&self) -> Option<usize> {
        if self.scratch() != 0 {
            Some((self.at() * 64 + low_one(self.scratch())) as usize)
        } else {
            None
        }
    }

    /// The walk stands within the vector, and the scratch digit holds no bit
    /// below the cursor.
    pub closed spec fn wf(&self) -> bool {
        &&& self.array_index < self.data.0@.len()
        &&& self.data.0@.len() <= max_digits()
        &&& self.cursor@ <= (self.array_index + 1) * 64
        &&& forall|j: nat| digit_bit(self.current, j) ==> self.array_index * 64 + j >= self.cursor@
    }

    /// Hands the indices out in chunks of `chunk_size`.
    pub fn chunks(self, chunk_size: usize) -> (r: ChunkIter<Self>)
        requires
            self.wf(),
        ensures
            r.iter == self,
            r.iter.ready(),
            r.chunk_size == chunk_size,
            !r.done,
    {
        ChunkIter { iter: self, chunk_size, done: false }
    }

    /// The index of the next one bit, in the digits as they are read on the
    /// way. The indices that one walk hands out ascend.
    ///
    /// While the digit in hand holds a one, its lowest one is handed out and
    /// taken from it. Else the digits that follow are read until one of them
    /// is not zero; with no digit left the walk has ended.
    pub fn next(&mut self) -> (r: Option<usize>)
        requires
            old(self).wf(),
        ensures
            final(self).wf(),
            final(self).len() == old(self).len(),
            old(self).scratch() != 0 ==> r == old(self).pending() && final(self).at() == old(
                self,
            ).at() && final(self).scratch() == old(self).scratch() & !(1u64 << (low_one(
                old(self).scratch(),
            ) as u64)),
            old(self).scratch() == 0 && old(self).at() + 1 >= old(self).len() ==> r is None,
            match r {
                Some(i) => {
                    &&& old(self).cursor() <= i < 64 * old(self).len()
                    &&& final(self).cursor() == i + 1
                    &&& old(self).at() <= final(self).at() == i / 64
                    &&& forall|j: nat| #[trigger]
                        digit_bit(final(self).scratch(), j) ==> j > i % 64
                },
                None => {
                    &&& final(self).cursor() == old(self).cursor()
                    &&& final(self).at() + 1 == old(self).len()
                    &&& final(self).scratch() == 0
                },
            },
    {
        let len: usize = self.data.0.len();
        while self.current == 0
            invariant
                self.wf(),
                self.data == old(self).data,
                self.cursor@ == old(self).cursor@,
                len == self.data.0@.len(),
                old(self).array_index <= self.array_index,
                self.array_index == old(self).array_index ==> self.current == old(self).current,
                old(self).current != 0 ==> self.current == old(self).current && self.array_index
                    == old(self).array_index,
            decreases len - self.array_index,
        {
            if self.array_index + 1 >= len {
                return None;
            }
            self.array_index += 1;
            self.current = load(&self.data.0[self.array_index]);
        }
        let t: usize = lowest_one(self.current);
        let m = bit_mask(t);
        proof {
            lemma_index_fits(self.array_index as nat, t as nat);
            assert forall|j: nat| digit_bit(self.current & !m, j) implies self.array_index * 64 + j
                >= self.array_index * 64 + t + 1 by {
                lemma_bit_and_not(self.current, m, j);
                if j < t {
                    assert(!digit_bit(self.current, j));
                }
            }
        }
        let i: usize = self.array_index * 64 + t;
        self.current = self.current & !m;
        self.cursor = Ghost((i + 1) as nat);
        Some(i)
    }
}

impl<'a> IndexIter for IterOnes<'a> {
    closed spec fn ready(&self) -> bool {
        self.wf()
    }

    open spec fn floor(&self) -> nat {
        self.cursor()
    }

    open spec fn held(&self) -> Option<usize> {
        self.pending()
    }

    fn next_index(&mut self) -> (r: Option<usize>) {
        self.next()
    }
}

/// Iterates over each digit in the array,
/// and then over each zero bit of the digit as it was read.
pub struct IterZeros<'a> {
    data: &'a AtomicBitVec,
    array_index: usize,
    current: u64,
    cursor: Ghost<nat>,
}

impl<'a> IterZeros<'a> {
    /// The number of digits of the vector that is read.
    pub closed spec fn len(&self) -> nat {
        self.data.0@.len()
    }

    /// Every index that is still to come is at or above the cursor.
    pub closed spec fn cursor(&self) -> nat {
        self.cursor@
    }

    /// The position of the digit in hand.
    pub closed spec fn at(&self) -> nat {
        self.array_index as nat
    }

    /// The digit in hand: the digit that was read last, with a one for each
    /// of its zeros that was handed out.
    pub closed spec fn scratch(&self) -> u64 {
        self.current
    }

    /// The index that comes next where the digit in hand still holds a zero.
    pub open spec fn pending(&self) -> Option<usize> {
        if self.scratch() != u64::MAX {
            Some((self.at() * 64 + low_zero(self.scratch())) as usize)
        } else {
            None
        }
    }

    /// The walk stands within the vector, and the scratch digit holds no zero
    /// bit below the cursor.
    pub closed spec fn wf(&self) -> bool {
        &&& self.array_index < self.data.0@.len()
        &&& self.data.0@.len() <= max_digits()
        &&& self.cursor@ <= (self.array_index + 1) * 64
        &&& forall|j: nat|
            j < 64 && !digit_bit(self.current, j) ==> self.array_index * 64 + j >= self.cursor@
    }

    /// Hands the indices out in chunks of `chunk_size`.
    pub fn chunks(self, chunk_size: usize) -> (r: ChunkIter<Self>)
        requires
            self.wf(),
        ensures
            r.iter == self,
            r.iter.ready(),
            r.chunk_size == chunk_size,
            !r.done,
    {
        ChunkIter { iter: self, chunk_size, done: false }
    }

    /// The index of the next zero bit, in the digits as they are read on the
    /// way. The indices that one walk hands out ascend, and the walk ends
    /// with the last digit.
    ///
    /// While the digit in hand holds a zero, its lowest zero is handed out
    /// and filled. Else the digits that follow are read until one of them is
    /// not all ones; with no digit left the walk has ended.
    pub fn next(&mut self) -> (r: Option<usize>)
        requires
            old(self).wf(),
        ensures
            final(self).wf(),
            final(self).len() == old(self).len(),
            old(self).scratch() != u64::MAX ==> r == old(self).pending() && final(self).at()
                == old(self).at() && final(self).scratch() == old(self).scratch() | (1u64 << (
            low_zero(old(self).scratch()) as u64)),
            old(self).scratch() == u64::MAX && old(self).at() + 1 >= old(self).len() ==> r is None,
            match r {
                Some(i) => {
                    &&& old(self).cursor() <= i < 64 * old(self).len()
                    &&& final(self).cursor() == i + 1
                    &&& old(self).at() <= final(self).at() == i / 64
                    &&& forall|j: nat|
                        j < 64 && !#[trigger] digit_bit(final(self).scratch(), j) ==> j > i % 64
                },
                None => {
                    &&& final(self).cursor() == old(self).cursor()
                    &&& final(self).at() + 1 == old(self).len()
                    &&& final(self).scratch() == u64::MAX
                },
            },
    {
        let len: usize = self.data.0.len();
        while self.current == u64::MAX
            invariant
                self.wf(),
                self.data == old(self).data,
                self.cursor@ == old(self).cursor@,
                len == self.data.0@.len(),
                old(self).array_index <= self.array_index,
                self.array_index == old(self).array_index ==> self.current == old(self).current,
                old(self).current != u64::MAX ==> self.current == old(self).current
                    && self.array_index == old(self).array_index,
            decreases len - self.array_index,
        {
            if self.array_index + 1 >= len {
                return None;
            }
            self.array_index += 1;
            self.current = load(&self.data.0[self.array_index]);
        }
        let t: usize = lowest_zero(self.current);
        let m = bit_mask(t);
        proof {
            lemma_index_fits(self.array_index as nat, t as nat);
            assert forall|j: nat| j < 64 && !digit_bit(self.current | m, j) implies self.array_index
                * 64 + j >= self.array_index * 64 + t + 1 by {
                lemma_bit_or(self.current, m, j);
                if j < t {
                    assert(digit_bit(self.current, j));
                }
            }
        }
        let i: usize = self.array_index * 64 + t;
        self.current = self.current | m;
        self.cursor = Ghost((i + 1) as nat);
        Some(i)
    }
}

impl<'a> IndexIter for IterZeros<'a> {
    closed spec fn ready(&self) -> bool {
        self.wf()
    }

    open spec fn floor(&self) -> nat {
        self.cursor()
    }

    open spec fn held(&self) -> Option<usize> {
        self.pending()
    }

    fn next_index(&mut self) -> (r: Option<usize>) {
        self.next()
    }
}

/// Hands out the indices of another iterator in chunks.
pub struct ChunkIter<I> {
    pub iter: I,
    pub chunk_size: usize,
    pub done: bool,
}

impl<I: IndexIter> ChunkIter<I> {
    /// The next `chunk_size` indices, or as many as are left; `None` where
    /// none is left.
    ///
    /// A chunk holds the indices in the order in which the source gave them,
    /// so they ascend, and it starts with the index that the source had in
    /// hand, where it had one. A chunk that is not full is the last one.
    pub fn next(&mut self) -> (r: Option<Vec<usize>>)
        requires
            old(self).iter.ready(),
        ensures
            final(self).iter.ready(),
            final(self).chunk_size == old(self).chunk_size,
            old(self).done ==> r is None && *final(self) == *old(self),
            !old(self).done && old(self).chunk_size > 0 && old(self).iter.held() is Some ==> r
                is Some && r->0@[0] == old(self).iter.held()->0,
            match r {
                Some(chunk) => {
                    &&& 0 < chunk@.len() <= old(self).chunk_size
                    &&& old(self).iter.floor() <= chunk@[0]
                    &&& forall|a: int, b: int|
                        0 <= a < b < chunk@.len() ==> chunk@[a] < chunk@[b]
                    &&& final(self).iter.floor() == chunk@[chunk@.len() - 1] + 1
                    &&& chunk@.len() < old(self).chunk_size ==> final(self).done
                },
                None => {
                    &&& final(self).iter.floor() == old(self).iter.floor()
                    &&& final(self).done || old(self).chunk_size == 0
                },
            },
    {
        if self.done {
            return None;
        }
        let mut chunk: Vec<usize> = Vec::with_capacity(self.chunk_size);
        let mut k: usize = 0;
        while k < self.chunk_size
            invariant_except_break
                !self.done,
                k == 0 ==> self.iter == old(self).iter,
            invariant
                k <= self.chunk_size,
                self.chunk_size == old(self).chunk_size,
                self.iter.ready(),
                chunk@.len() == k,
                k > 0 ==> self.iter.floor() == chunk@[k - 1] + 1 && old(self).iter.floor()
                    <= chunk@[0],
                k > 0 && old(self).iter.held() is Some ==> chunk@[0] == old(self).iter.held()->0,
                forall|a: int, b: int| 0 <= a < b < k ==> chunk@[a] < chunk@[b],
            ensures
                self.done || k == self.chunk_size,
                self.done ==> k > 0 || old(self).iter.held() is None,
                k == 0 ==> self.iter.floor() == old(self).iter.floor(),
            decreases self.chunk_size - k,
        {
            match self.iter.next_index() {
                Some(x) => {
                    chunk.push(x);
                },
                None => {
                    self.done = true;
                    break ;
                },
            }
            k += 1;
        }
        if chunk.is_empty() {
            None
        } else {
            Some(chunk)
        }
    }
}

} // verus!
