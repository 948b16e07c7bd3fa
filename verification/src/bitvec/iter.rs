use crate::bitvec::bitvec::{digit_at, max_digits, seq_bit, BitVec};
use crate::bitvec::bitvec::lemma_index_fits;
use crate::digit::{bit_mask, digit_bit, lowest_one, lowest_zero};
use crate::digit::{lemma_bit_and_not, lemma_bit_max, lemma_bit_or, lemma_bit_zero};
use vstd::prelude::*;

verus! {

/// Walks the one bits of a bit vector in ascending order.
///
/// The iterator stands for the vector it reads and a cursor: the bit index
/// from which the search for the next one bit starts.
pub struct IterOnes<'a> {
    data: &'a BitVec,
    array_index: usize,
    current: u64,
    cursor: Ghost<nat>,
}

impl<'a> IterOnes<'a> {
    /// The vector that is read.
    pub closed spec fn data(&self) -> BitVec {
        *self.data
    }

    /// Every one bit below the cursor has been yielded.
    pub closed spec fn cursor(&self) -> nat {
        self.cursor@
    }

    /// The scratch digit holds the bits of the current digit from the cursor upwards.
    pub closed spec fn wf(&self) -> bool {
        let s = self.data.0@;
        let a = self.array_index as nat;
        &&& s.len() <= max_digits()
        &&& (a < s.len() || (a == 0 && self.current == 0))
        &&& self.cursor@ <= (a + 1) * 64
        &&& forall|j: nat|
            j < 64 ==> digit_bit(self.current, j) == (digit_bit(digit_at(s, a as int), j) && a * 64
                + j >= self.cursor@)
        &&& forall|i: nat| self.cursor@ <= i < a * 64 ==> !seq_bit(s, i)
    }

    /// Starts at bit 0 of `data`.
    pub fn new(data: &'a BitVec) -> (it: Self)
        requires
            data.wf(),
        ensures
            it.wf(),
            it.data() == *data,
            it.cursor() == 0,
    {
        let current: u64 = if data.0.len() > 0 {
            data.0[0]
        } else {
            0
        };
        proof {
            assert forall|j: nat| j < 64 implies !digit_bit(0u64, j) by {
                lemma_bit_zero(j);
            }
        }
        IterOnes { data, array_index: 0, current, cursor: Ghost(0) }
    }

    /// One step of the walk from `self` to `after` with the result `r`: the
    /// index of the first one bit at or after the cursor, which then moves
    /// past it; `None`, and no move, when no one bit is left.
    pub open spec fn steps_to(&self, after: Self, r: Option<usize>) -> bool {
        &&& after.data() == self.data()
        &&& match r {
            Some(i) => {
                &&& self.cursor() <= i
                &&& self.data()@.contains(i as nat)
                &&& forall|j: nat| self.cursor() <= j < i ==> !self.data()@.contains(j)
                &&& after.cursor() == i + 1
            },
            None => {
                &&& forall|j: nat| self.cursor() <= j ==> !self.data()@.contains(j)
                &&& after.cursor() == self.cursor()
            },
        }
    }

    /// The index of the first one bit at or after the cursor, which then moves past it;
    /// `None` when no one bit is left.
    pub fn next(&mut self) -> (r: Option<usize>)
        requires
            old(self).wf(),
        ensures
            final(self).wf(),
            old(self).steps_to(*final(self), r),
    {
        let len: usize = self.data.0.len();
        while self.current == 0
            invariant
                self.wf(),
                self.data == old(self).data,
                self.cursor@ == old(self).cursor@,
                len == self.data.0@.len(),
            decreases len - self.array_index,
        {
            if len == 0 || self.array_index + 1 >= len {
                proof {
                    let s = self.data.0@;
                    assert forall|j: nat| self.cursor@ <= j implies !self.data@.contains(j) by {
                        lemma_bit_zero(j % 64);
                        if j / 64 == self.array_index {
                            assert(digit_bit(self.current, j % 64) == false);
                        }
                    }
                }
                return None;
            }
            proof {
                let s = self.data.0@;
                let a = self.array_index as nat;
                assert forall|i: nat| self.cursor@ <= i < (a + 1) * 64 implies !seq_bit(s, i) by {
                    lemma_bit_zero(i % 64);
                    if i / 64 == a {
                        assert(digit_bit(self.current, i % 64) == false);
                    }
                }
            }
            self.array_index += 1;
            self.current = self.data.0[self.array_index];
        }
        let t: usize = lowest_one(self.current);
        let m = bit_mask(t);
        proof {
            lemma_index_fits(self.array_index as nat, t as nat);
        }
        let i: usize = self.array_index * 64 + t;
        proof {
            let s = self.data.0@;
            let a = self.array_index as nat;
            assert(digit_bit(self.current, t as nat));
            assert(seq_bit(s, i as nat));
            assert(self.data@.contains(i as nat));
            assert forall|j: nat| self.cursor@ <= j < i implies !self.data@.contains(j) by {
                if j / 64 == a {
                    assert(!digit_bit(self.current, j % 64));
                }
            }
            assert forall|j: nat| j < 64 implies digit_bit(self.current & !m, j) == (digit_bit(
                digit_at(s, a as int),
                j,
            ) && a * 64 + j >= i + 1) by {
                lemma_bit_and_not(self.current, m, j);
                if j < t {
                    assert(!digit_bit(self.current, j));
                }
            }
        }
        self.current = self.current & !m;
        self.cursor = Ghost((i + 1) as nat);
        Some(i)
    }
}

/// Walks the zero bits of a bit vector in ascending order.
///
/// Past the last digit of the vector every bit is zero, so the walk goes on
/// there, one index per step, up to the largest index.
pub struct IterZeros<'a> {
    data: &'a BitVec,
    array_index: usize,
    current: u64,
    next_bit: usize,
    exhausted: bool,
}

impl<'a> IterZeros<'a> {
    /// The vector that is read.
    pub closed spec fn data(&self) -> BitVec {
        *self.data
    }

    /// Every zero bit below the cursor has been yielded.
    pub closed spec fn cursor(&self) -> nat {
        if self.exhausted {
            (usize::MAX + 1) as nat
        } else {
            self.next_bit as nat
        }
    }

    /// The scratch digit marks as one the bits of the current digit that are
    /// one or lie below the cursor.
    pub closed spec fn wf(&self) -> bool {
        let s = self.data.0@;
        let a = self.array_index as nat;
        let c = self.cursor();
        &&& s.len() <= max_digits()
        &&& !self.exhausted && a < s.len() ==> {
            &&& c <= (a + 1) * 64
            &&& forall|j: nat|
                j < 64 ==> digit_bit(self.current, j) == (digit_bit(s[a as int], j) || a * 64 + j
                    < c)
            &&& forall|i: nat| c <= i < a * 64 ==> seq_bit(s, i)
        }
        &&& !self.exhausted && a >= s.len() ==> c >= s.len() * 64
    }

    /// Starts at bit 0 of `data`.
    pub fn new(data: &'a BitVec) -> (it: Self)
        requires
            data.wf(),
        ensures
            it.wf(),
            it.data() == *data,
            it.cursor() == 0,
    {
        let current: u64 = if data.0.len() > 0 {
            data.0[0]
        } else {
            u64::MAX
        };
        IterZeros { data, array_index: 0, current, next_bit: 0, exhausted: false }
    }

    /// One step of the walk from `self` to `after` with the result `r`: the
    /// index of the first zero bit at or after the cursor, which then moves
    /// past it; `None` when every index up to the largest has been passed.
    pub open spec fn steps_to(&self, after: Self, r: Option<usize>) -> bool {
        &&& after.data() == self.data()
        &&& match r {
            Some(i) => {
                &&& self.cursor() <= i
                &&& !self.data()@.contains(i as nat)
                &&& forall|j: nat| self.cursor() <= j < i ==> self.data()@.contains(j)
                &&& after.cursor() == i + 1
            },
            None => {
                &&& forall|j: nat| self.cursor() <= j <= usize::MAX ==> self.data()@.contains(j)
                &&& after.cursor() == usize::MAX + 1
            },
        }
    }

    /// The index of the first zero bit at or after the cursor, which then moves past it;
    /// `None` when every index up to the largest has been passed.
    pub fn next(&mut self) -> (r: Option<usize>)
        requires
            old(self).wf(),
        ensures
            final(self).wf(),
            old(self).steps_to(*final(self), r),
    {
        if self.exhausted {
            return None;
        }
        let len: usize = self.data.0.len();
        // If we have exhausted the array, just return incremented bit index
        if self.array_index >= len {
            let ret: usize = self.next_bit;
            proof {
                lemma_bit_zero(0);
                assert(!seq_bit(self.data.0@, ret as nat));
            }
            if ret == usize::MAX {
                self.exhausted = true;
            } else {
                self.next_bit = ret + 1;
            }
            return Some(ret);
        }
        // If current is all ones, move to the next array index
        while self.current == u64::MAX
            invariant
                self.wf(),
                !self.exhausted,
                self.array_index < len,
                self.data == old(self).data,
                self.next_bit == old(self).next_bit,
                old(self).cursor() == self.next_bit,
                len == self.data.0@.len(),
                self.next_bit <= len * 64,
            decreases len - self.array_index,
        {
            proof {
                let s = self.data.0@;
                let a = self.array_index as nat;
                assert forall|i: nat| self.next_bit <= i < (a + 1) * 64 implies seq_bit(s, i) by {
                    lemma_bit_max(i % 64);
                    if i / 64 == a {
                        assert(digit_bit(self.current, i % 64));
                    }
                }
            }
            self.array_index += 1;
            if self.array_index >= len {
                // the first index past the array, if there is one
                if self.array_index > usize::MAX / 64 {
                    self.exhausted = true;
                    proof {
                        assert(usize::MAX == 0xffff_ffff || usize::MAX == 0xffff_ffff_ffff_ffff);
                        assert forall|j: nat|
                            old(self).cursor() <= j <= usize::MAX implies old(
                            self,
                        ).data()@.contains(j) by {
                            assert(seq_bit(self.data.0@, j));
                        }
                    }
                    return None;
                }
                let ret: usize = self.array_index * 64;
                proof {
                    lemma_bit_zero(0);
                    assert(!seq_bit(self.data.0@, ret as nat));
                    assert forall|j: nat| old(self).cursor() <= j < ret implies old(
                        self,
                    ).data()@.contains(j) by {
                        assert(seq_bit(self.data.0@, j));
                    }
                    assert(usize::MAX == 0xffff_ffff || usize::MAX == 0xffff_ffff_ffff_ffff);
                }
                self.next_bit = ret + 1;
                return Some(ret);
            }
            self.current = self.data.0[self.array_index];
        }
        // Find the next zero bit in the current digit
        let t: usize = lowest_zero(self.current);
        let m = bit_mask(t);
        proof {
            lemma_index_fits(self.array_index as nat, t as nat);
        }
        let ret: usize = self.array_index * 64 + t;
        proof {
            let s = self.data.0@;
            let a = self.array_index as nat;
            assert(!digit_bit(self.current, t as nat));
            assert(!seq_bit(s, ret as nat));
            assert forall|j: nat| old(self).cursor() <= j < ret implies old(self).data()@.contains(
                j,
            ) by {
                if j / 64 == a {
                    assert(digit_bit(self.current, j % 64));
                }
                assert(seq_bit(s, j));
            }
            assert forall|j: nat| j < 64 implies digit_bit(self.current | m, j) == (digit_bit(
                s[a as int],
                j,
            ) || a * 64 + j < ret + 1) by {
                lemma_bit_or(self.current, m, j);
                if j < t {
                    assert(digit_bit(self.current, j));
                }
            }
        }
        // Set this bit to 1 to mark it as visited
        self.current = self.current | m;
        if ret == usize::MAX {
            self.exhausted = true;
        } else {
            self.next_bit = ret + 1;
        }
        assert(self.wf());
        Some(ret)
    }
}

} // verus!
