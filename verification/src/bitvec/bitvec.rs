use crate::digit::{bit_mask, digit_bit, low_mask, test_bit, BITS};
use crate::digit::{lemma_bit_and, lemma_bit_and_not, lemma_bit_low_mask, lemma_bit_not};
use crate::digit::{lemma_bit_not_and, lemma_bit_single};
use crate::digit::{lemma_bit_max, lemma_bit_or, lemma_bit_xor, lemma_bit_zero};
use crate::digit::{lemma_digit_ext, lemma_nonzero_has_bit};
use crate::bitvec::atomic_bitvec::AtomicBitVec;
use crate::bitvec::iter::{IterOnes, IterZeros};
use crate::digit::{digit_count, lemma_digit_count_bound};
use vstd::prelude::*;

verus! {

/// Whether bit `i` is one in the digit array `s`. Bits past the array are zero.
pub open spec fn seq_bit(s: Seq<u64>, i: nat) -> bool {
    i / 64 < s.len() && digit_bit(s[(i / 64) as int], i % 64)
}

/// The set of the indices of the one bits of the digit array `s`.
pub open spec fn seq_bits(s: Seq<u64>) -> Set<nat> {
    Set::new(|i: nat| seq_bit(s, i))
}

/// A digit array is normalized when its last digit, if it has one, is not zero.
pub open spec fn normalized(s: Seq<u64>) -> bool {
    s.len() > 0 ==> s[s.len() - 1] != 0
}

/// The longest prefix of `s` that is normalized.
pub open spec fn trimmed(s: Seq<u64>) -> Seq<u64>
    decreases s.len(),
{
    if s.len() > 0 && s[s.len() - 1] == 0 {
        trimmed(s.drop_last())
    } else {
        s
    }
}

/// The number of one bits of the digit array `s`.
pub open spec fn seq_count(s: Seq<u64>) -> nat
    decreases s.len(),
{
    if s.len() == 0 {
        0
    } else {
        seq_count(s.drop_last()) + digit_count(s[s.len() - 1], 64)
    }
}

/// The one bits of the digit array `s` below index `n`.
pub open spec fn bits_below(s: Seq<u64>, n: nat) -> Set<nat> {
    Set::new(|i: nat| i < n && seq_bit(s, i))
}

/// The number of one bits of the digit array `s` below index `n`.
pub open spec fn count_below(s: Seq<u64>, n: nat) -> nat
    decreases n,
{
    if n == 0 {
        0
    } else {
        count_below(s, (n - 1) as nat) + if seq_bit(s, (n - 1) as nat) {
            1nat
        } else {
            0nat
        }
    }
}

/// The one bits below an index are as many as are counted.
pub proof fn lemma_bits_below(s: Seq<u64>, n: nat)
    ensures
        bits_below(s, n).finite(),
        bits_below(s, n).len() == count_below(s, n),
    decreases n,
{
    if n == 0 {
        assert(bits_below(s, 0) =~= Set::<nat>::empty());
    } else {
        let m = (n - 1) as nat;
        lemma_bits_below(s, m);
        if seq_bit(s, m) {
            assert(bits_below(s, n) =~= bits_below(s, m).insert(m));
        } else {
            assert(bits_below(s, n) =~= bits_below(s, m));
        }
    }
}

/// Counting bit by bit is counting digit by digit.
pub proof fn lemma_count_digits(s: Seq<u64>, k: nat, j: nat)
    requires
        k <= s.len(),
        j <= 64,
        j > 0 ==> k < s.len(),
    ensures
        count_below(s, 64 * k + j) == seq_count(s.subrange(0, k as int)) + if j > 0 {
            digit_count(s[k as int], j)
        } else {
            0
        },
    decreases k, j,
{
    if j == 0 {
        if k > 0 {
            lemma_count_digits(s, (k - 1) as nat, 64);
            assert(s.subrange(0, k as int).drop_last() =~= s.subrange(0, k - 1));
        }
    } else {
        lemma_count_digits(s, k, (j - 1) as nat);
        let i = (64 * k + j - 1) as nat;
        assert(i / 64 == k && i % 64 == j - 1);
    }
}

/// The one bits of a digit array are finitely many, as many as its digits count.
pub proof fn lemma_count(s: Seq<u64>)
    ensures
        seq_bits(s).finite(),
        seq_bits(s).len() == seq_count(s),
{
    let n = 64 * s.len();
    lemma_bits_below(s, n);
    lemma_count_digits(s, s.len(), 0);
    assert(s.subrange(0, s.len() as int) =~= s);
    assert(seq_bits(s) =~= bits_below(s, n));
}

/// The most digits a bit vector can have: every bit index then fits in `usize`.
pub open spec fn max_digits() -> nat {
    (usize::MAX / 64 + 1) as nat
}

/// An array of digits to work with underlying bits.
///
/// The vector stands for the set of the indices of its one bits, its view.
/// Bits past the last digit are zero.
#[derive(Debug)]
pub struct BitVec(pub Vec<u64>);

impl View for BitVec {
    type V = Set<nat>;

    open spec fn view(&self) -> Set<nat> {
        seq_bits(self.0@)
    }
}

/// A zero digit changes nothing: dropping it from the end keeps every bit.
pub proof fn lemma_drop_zero_digit(s: Seq<u64>)
    requires
        s.len() > 0,
        s[s.len() - 1] == 0,
    ensures
        seq_bits(s.drop_last()) == seq_bits(s),
{
    let t = s.drop_last();
    assert forall|i: nat| seq_bit(t, i) == seq_bit(s, i) by {
        lemma_bit_zero(i % 64);
    }
    assert(seq_bits(t) =~= seq_bits(s));
}

/// Trimming leaves a normalized array with the same bits.
pub proof fn lemma_trimmed(s: Seq<u64>)
    ensures
        normalized(trimmed(s)),
        seq_bits(trimmed(s)) == seq_bits(s),
        trimmed(s).len() <= s.len(),
        trimmed(s) == s.subrange(0, trimmed(s).len() as int),
        normalized(s) ==> trimmed(s) == s,
    decreases s.len(),
{
    if s.len() > 0 && s[s.len() - 1] == 0 {
        lemma_trimmed(s.drop_last());
        lemma_drop_zero_digit(s);
        assert(trimmed(s) =~= s.subrange(0, trimmed(s).len() as int));
    } else {
        assert(s =~= s.subrange(0, s.len() as int));
    }
}

/// Two normalized digit arrays with the same one bits are the same array.
pub proof fn lemma_normalized_unique(a: Seq<u64>, b: Seq<u64>)
    requires
        normalized(a),
        normalized(b),
        seq_bits(a) == seq_bits(b),
    ensures
        a == b,
{
    if a.len() > b.len() {
        let j = lemma_nonzero_has_bit(a[a.len() - 1]);
        let i = ((a.len() - 1) * 64 + j) as nat;
        assert(seq_bit(a, i));
        assert(seq_bits(a).contains(i));
        assert(seq_bits(b).contains(i));
        assert(seq_bit(b, i));
    }
    if b.len() > a.len() {
        let j = lemma_nonzero_has_bit(b[b.len() - 1]);
        let i = ((b.len() - 1) * 64 + j) as nat;
        assert(seq_bit(b, i));
        assert(seq_bits(b).contains(i));
        assert(seq_bits(a).contains(i));
        assert(seq_bit(a, i));
    }
    assert forall|k: int| 0 <= k < a.len() implies a[k] == b[k] by {
        assert forall|j: nat| j < 64 implies digit_bit(a[k], j) == digit_bit(b[k], j) by {
            let i = (k * 64 + j) as nat;
            assert(i / 64 == k && i % 64 == j);
            assert(seq_bits(a).contains(i) == seq_bit(a, i));
            assert(seq_bits(b).contains(i) == seq_bit(b, i));
            assert(seq_bit(a, i) == seq_bit(b, i));
        }
        lemma_digit_ext(a[k], b[k]);
    }
    assert(a =~= b);
}

/// The digit at position `k`, or zero past the end of the array.
pub open spec fn digit_at(s: Seq<u64>, k: int) -> u64 {
    if 0 <= k < s.len() {
        s[k]
    } else {
        0
    }
}

/// A digit array stands for the set `t` when it agrees with it on every bit.
pub proof fn lemma_bits_are(s: Seq<u64>, t: Set<nat>)
    requires
        forall|i: nat| seq_bit(s, i) == t.contains(i),
    ensures
        seq_bits(s) == t,
{
    assert(seq_bits(s) =~= t);
}

/// A digit with a one bit is not zero.
pub proof fn lemma_has_bit_nonzero(d: u64, j: nat)
    requires
        digit_bit(d, j),
    ensures
        d != 0,
{
    lemma_bit_zero(j);
}

/// The highest bit index that a vector of at most `max_digits()` digits can hold fits in `usize`.
pub proof fn lemma_index_fits(k: nat, j: nat)
    requires
        k < max_digits(),
        j < 64,
    ensures
        k * 64 + j <= usize::MAX,
{
    assert(usize::MAX == 0xffff_ffff || usize::MAX == 0xffff_ffff_ffff_ffff);
}

impl Clone for BitVec {
    fn clone(&self) -> (res: Self)
        ensures
            res.0@ == self.0@,
    {
        BitVec(self.0.clone())
    }
}

impl BitVec {
    /// The vector is normalized, and short enough for every bit index to fit in `usize`.
    pub open spec fn wf(&self) -> bool {
        normalized(self.0@) && self.0@.len() <= max_digits()
    }

    /// Whether bit `i` is one.
    pub open spec fn bit(&self, i: nat) -> bool {
        seq_bit(self.0@, i)
    }

    /// The empty vector: every bit is zero.
    pub fn zero() -> (res: Self)
        ensures
            res.wf(),
            res.0@.len() == 0,
            res@ == Set::<nat>::empty(),
    {
        let res = BitVec(Vec::new());
        assert(res@ =~= Set::<nat>::empty());
        res
    }

    /// The empty vector, with room for `capacity` digits.
    pub fn with_capacity(capacity: usize) -> (res: Self)
        ensures
            res.wf(),
            res.0@.len() == 0,
            res@ == Set::<nat>::empty(),
    {
        let res = BitVec(Vec::with_capacity(capacity));
        assert(res@ =~= Set::<nat>::empty());
        res
    }

    /// Initialize with a `true` bit at the given bit index.
    pub fn one(bit_index: usize) -> (res: Self)
        ensures
            res.wf(),
            res@ == set![bit_index as nat],
    {
        let i: usize = bit_index / BITS;
        let j: usize = bit_index % BITS;
        let mut v: Vec<u64> = Vec::with_capacity(i + 1);
        v.resize(i, 0);
        let m = bit_mask(j);
        v.push(m);
        let res = BitVec(v);
        proof {
            assert forall|n: nat| seq_bit(res.0@, n) == (n == bit_index) by {
                lemma_bit_zero(n % 64);
                if n / 64 == i {
                    assert(digit_bit(m, n % 64) == (n % 64 == j));
                }
            }
            assert(res@ =~= set![bit_index as nat]);
            assert(digit_bit(m, j as nat));
            lemma_bit_zero(j as nat);
        }
        res
    }

    /// Initialize and fill with 1's for the given number of bits.
    pub fn ones(bits: usize) -> (res: Self)
        ensures
            res.wf(),
            res@ == Set::new(|k: nat| k < bits),
    {
        let i: usize = bits / BITS;
        let j: usize = bits % BITS;
        let mut v: Vec<u64> = Vec::with_capacity(
            if j > 0 {
                i + 1
            } else {
                i
            },
        );
        v.resize(i, u64::MAX);
        if j > 0 {
            let m = low_mask(j);
            v.push(m);
            proof {
                assert(digit_bit(m, 0));
                lemma_bit_zero(0);
            }
        }
        let res = BitVec(v);
        proof {
            assert forall|n: nat| seq_bit(res.0@, n) == (n < bits) by {
                lemma_bit_max(n % 64);
                if j > 0 && n / 64 == i {
                    assert(digit_bit(res.0@[i as int], n % 64) == (n % 64 < j));
                }
            }
            assert(res@ =~= Set::new(|k: nat| k < bits));
        }
        res
    }

    /// Get the bit at the given index.
    ///
    /// If the bit index is out of range, it will return `false`.
    pub fn get_bit(&self, bit_index: usize) -> (r: bool)
        ensures
            r == self@.contains(bit_index as nat),
    {
        let i: usize = bit_index / BITS;
        let j: usize = bit_index % BITS;
        if i >= self.0.len() {
            return false;
        }
        test_bit(self.0[i], j)
    }

    /// Count the number of 1's in the bit vector.
    pub fn count_ones(&self) -> (r: usize)
        requires
            self.0@.len() <= usize::MAX / 64,
        ensures
            self@.finite(),
            r == self@.len(),
            r == seq_count(self.0@),
    {
        proof {
            lemma_count(self.0@);
        }
        let mut total: usize = 0;
        let mut k: usize = 0;
        while k < self.0.len()
            invariant
                k <= self.0@.len(),
                self.0@.len() <= usize::MAX / 64,
                total == seq_count(self.0@.subrange(0, k as int)),
                total <= 64 * k,
            decreases self.0@.len() - k,
        {
            proof {
                lemma_digit_count_bound(self.0@[k as int], 64);
                assert(self.0@.subrange(0, k + 1).drop_last() =~= self.0@.subrange(0, k as int));
            }
            let c: u32 = self.0[k].count_ones();
            total = total + c as usize;
            k += 1;
        }
        proof {
            assert(self.0@.subrange(0, k as int) =~= self.0@);
        }
        total
    }

    /// Check if the bit vector is all zeros.
    ///
    /// Internally, it just checks that the vector is empty.
    pub fn is_zero(&self) -> (r: bool)
        ensures
            r == (self.0@.len() == 0),
            normalized(self.0@) ==> r == (self@ == Set::<nat>::empty()),
    {
        proof {
            if self.0@.len() > 0 {
                if normalized(self.0@) {
                    let j = lemma_nonzero_has_bit(self.0@[self.0@.len() - 1]);
                    let i = ((self.0@.len() - 1) * 64 + j) as nat;
                    assert(self.bit(i));
                    assert(self@.contains(i));
                }
            } else {
                assert(self@ =~= Set::<nat>::empty());
            }
        }
        self.0.is_empty()
    }

    /// Iterate over bits and return the bit index of each `true` bits.
    pub fn iter_ones(&self) -> (it: IterOnes<'_>)
        requires
            self.wf(),
        ensures
            it.wf(),
            it.data() == *self,
            it.cursor() == 0,
    {
        IterOnes::new(self)
    }

    /// Iterate over bits and return the bit index of each `false` bits.
    ///
    /// Note that this iterator will continue to return zeros even after the array is exhausted.
    pub fn iter_zeros(&self) -> (it: IterZeros<'_>)
        requires
            self.wf(),
        ensures
            it.wf(),
            it.data() == *self,
            it.cursor() == 0,
    {
        IterZeros::new(self)
    }

    /// Clear all bits.
    /// Same as setting value to 0, but keeping the allocated memory.
    pub fn clear(&mut self)
        ensures
            final(self).wf(),
            final(self).0@.len() == 0,
            final(self)@ == Set::<nat>::empty(),
    {
        self.0.clear();
        assert(self@ =~= Set::<nat>::empty());
    }

    /// Set the bit at the given index to the given value.
    ///
    /// If the bit index is out of range, it will resize the array.
    pub fn set_bit(&mut self, bit_index: usize, value: bool)
        requires
            old(self).wf(),
        ensures
            final(self).wf(),
            final(self)@ == if value {
                old(self)@.insert(bit_index as nat)
            } else {
                old(self)@.remove(bit_index as nat)
            },
    {
        let i: usize = bit_index / BITS;
        let j: usize = bit_index % BITS;
        let ghost before = self.0@;
        // if setting value to 1, we might need to resize the array
        if value && i >= self.0.len() {
            self.0.resize(i + 1, 0);
        }
        let ghost grown = self.0@;
        if value {
            let m = bit_mask(j);
            let d: u64 = self.0[i] | m;
            self.0[i] = d;
            proof {
                assert(digit_bit(m, j as nat));
                lemma_bit_or(grown[i as int], m, j as nat);
                lemma_has_bit_nonzero(d, j as nat);
                assert forall|n: nat|
                    seq_bit(self.0@, n) == old(self)@.insert(bit_index as nat).contains(n) by {
                    lemma_bit_zero(n % 64);
                    assert(old(self)@.contains(n) == seq_bit(before, n));
                    if n / 64 == i {
                        lemma_bit_or(grown[i as int], m, n % 64);
                    }
                }
                lemma_bits_are(self.0@, old(self)@.insert(bit_index as nat));
            }
        } else if i < self.0.len() {
            let m = bit_mask(j);
            let d: u64 = self.0[i] & !m;
            self.0[i] = d;
            proof {
                assert forall|n: nat|
                    seq_bit(self.0@, n) == old(self)@.remove(bit_index as nat).contains(n) by {
                    assert(old(self)@.contains(n) == seq_bit(before, n));
                    if n / 64 == i {
                        lemma_bit_and_not(grown[i as int], m, n % 64);
                    }
                }
                lemma_bits_are(self.0@, old(self)@.remove(bit_index as nat));
            }
        } else {
            proof {
                assert forall|n: nat|
                    seq_bit(self.0@, n) == old(self)@.remove(bit_index as nat).contains(n) by {
                    assert(old(self)@.contains(n) == seq_bit(before, n));
                }
                lemma_bits_are(self.0@, old(self)@.remove(bit_index as nat));
            }
        }
        self.normalize();
    }

    /// Check if all bits are the same.
    pub fn eq(&self, other: &Self) -> (r: bool)
        ensures
            r == (self.0@ == other.0@),
            self.wf() && other.wf() ==> r == (self@ == other@),
    {
        proof {
            if self.wf() && other.wf() && self@ == other@ {
                lemma_normalized_unique(self.0@, other.0@);
            }
        }
        if self.0.len() != other.0.len() {
            return false;
        }
        let mut k: usize = 0;
        while k < self.0.len()
            invariant
                k <= self.0@.len(),
                self.0@.len() == other.0@.len(),
                forall|t: int| 0 <= t < k ==> self.0@[t] == other.0@[t],
                self.wf() && other.wf() && self@ == other@ ==> self.0@ == other.0@,
            decreases self.0@.len() - k,
        {
            if self.0[k] != other.0[k] {
                return false;
            }
            k += 1;
        }
        assert(self.0@ =~= other.0@);
        true
    }

    /// a = a & b
    pub fn bitand_assign(&mut self, rhs: &Self)
        requires
            old(self).wf(),
        ensures
            final(self).wf(),
            final(self)@ == old(self)@.intersect(rhs@),
    {
        let ghost before = self.0@;
        if self.0.len() > rhs.0.len() {
            self.0.truncate(rhs.0.len());
        }
        let n: usize = self.0.len();
        let mut k: usize = 0;
        while k < n
            invariant
                k <= n,
                n == self.0@.len(),
                n <= rhs.0@.len(),
                n <= before.len(),
                forall|t: int| 0 <= t < k ==> self.0@[t] == before[t] & rhs.0@[t],
                forall|t: int| k <= t < n ==> self.0@[t] == before[t],
            decreases n - k,
        {
            let d: u64 = self.0[k] & rhs.0[k];
            self.0[k] = d;
            k += 1;
        }
        proof {
            assert forall|i: nat|
                seq_bit(self.0@, i) == old(self)@.intersect(rhs@).contains(i) by {
                assert(old(self)@.contains(i) == seq_bit(before, i));
                assert(rhs@.contains(i) == seq_bit(rhs.0@, i));
                if i / 64 < n {
                    lemma_bit_and(before[(i / 64) as int], rhs.0@[(i / 64) as int], i % 64);
                }
            }
            lemma_bits_are(self.0@, old(self)@.intersect(rhs@));
        }
        self.normalize();
    }

    /// a = a & !b
    pub fn bitand_not_assign(&mut self, rhs: &Self)
        requires
            old(self).wf(),
        ensures
            final(self).wf(),
            final(self)@ == old(self)@.difference(rhs@),
    {
        let ghost before = self.0@;
        let n: usize = if self.0.len() < rhs.0.len() {
            self.0.len()
        } else {
            rhs.0.len()
        };
        let mut k: usize = 0;
        while k < n
            invariant
                k <= n,
                n <= self.0@.len(),
                n <= rhs.0@.len(),
                self.0@.len() == before.len(),
                forall|t: int| 0 <= t < k ==> self.0@[t] == before[t] & !rhs.0@[t],
                forall|t: int| k <= t < before.len() ==> self.0@[t] == before[t],
            decreases n - k,
        {
            let d: u64 = self.0[k] & !rhs.0[k];
            self.0[k] = d;
            k += 1;
        }
        proof {
            assert forall|i: nat|
                seq_bit(self.0@, i) == old(self)@.difference(rhs@).contains(i) by {
                assert(old(self)@.contains(i) == seq_bit(before, i));
                assert(rhs@.contains(i) == seq_bit(rhs.0@, i));
                if i / 64 < n {
                    lemma_bit_and_not(before[(i / 64) as int], rhs.0@[(i / 64) as int], i % 64);
                }
            }
            lemma_bits_are(self.0@, old(self)@.difference(rhs@));
        }
        self.normalize();
    }

    /// a = a & !b
    ///
    /// Takes an `AtomicBitVec` as the right-hand side. Its digits are read
    /// one after the other, while other threads may change them: bits of
    /// `self` are cleared, none is set, and those past the last digit of
    /// `rhs` stay as they are.
    pub fn bitand_not_assign_atomic(&mut self, rhs: &AtomicBitVec)
        requires
            old(self).wf(),
        ensures
            final(self).wf(),
            final(self)@.subset_of(old(self)@),
            forall|i: nat|
                i >= 64 * rhs.0@.len() ==> final(self)@.contains(i) == old(self)@.contains(i),
    {
        let ghost before = self.0@;
        let n: usize = if self.0.len() < rhs.0.len() {
            self.0.len()
        } else {
            rhs.0.len()
        };
        let mut k: usize = 0;
        while k < n
            invariant
                k <= n,
                n <= self.0@.len(),
                n <= rhs.0@.len(),
                self.0@.len() == before.len(),
                forall|t: int, j: nat|
                    0 <= t < before.len() && #[trigger] digit_bit(self.0@[t], j) ==> digit_bit(
                        before[t],
                        j,
                    ),
                forall|t: int| k <= t < before.len() ==> self.0@[t] == before[t],
            decreases n - k,
        {
            let b: u64 = rhs.digit(k);
            let d: u64 = self.0[k] & !b;
            proof {
                assert forall|j: nat| digit_bit(d, j) implies digit_bit(before[k as int], j) by {
                    lemma_bit_and_not(self.0@[k as int], b, j);
                }
            }
            self.0[k] = d;
            k += 1;
        }
        proof {
            assert forall|i: nat| self@.contains(i) implies old(self)@.contains(i) by {
                assert(seq_bit(self.0@, i));
                assert(seq_bit(before, i));
            }
            assert forall|i: nat| i >= 64 * rhs.0@.len() implies self@.contains(i) == old(
                self,
            )@.contains(i) by {
                assert(self@.contains(i) == seq_bit(self.0@, i));
                assert(old(self)@.contains(i) == seq_bit(before, i));
            }
        }
        self.normalize();
    }

    /// a = a | b
    pub fn bitor_assign(&mut self, rhs: &Self)
        requires
            old(self).wf(),
            rhs.wf(),
        ensures
            final(self).wf(),
            final(self)@ == old(self)@.union(rhs@),
    {
        let ghost before = self.0@;
        let la: usize = self.0.len();
        let lb: usize = rhs.0.len();
        let n: usize = if la < lb {
            la
        } else {
            lb
        };
        let mut k: usize = 0;
        while k < n
            invariant
                k <= n,
                n <= la,
                n <= lb,
                la == before.len(),
                lb == rhs.0@.len(),
                self.0@.len() == la,
                forall|t: int| 0 <= t < k ==> self.0@[t] == before[t] | rhs.0@[t],
                forall|t: int| k <= t < la ==> self.0@[t] == before[t],
            decreases n - k,
        {
            let d: u64 = self.0[k] | rhs.0[k];
            self.0[k] = d;
            k += 1;
        }
        let mut k: usize = la;
        while k < lb
            invariant
                n <= la,
                n <= lb,
                la == before.len(),
                lb == rhs.0@.len(),
                la <= k,
                k <= lb || la >= lb,
                self.0@.len() == if la < lb {
                    k
                } else {
                    la
                },
                forall|t: int| 0 <= t < n ==> self.0@[t] == before[t] | rhs.0@[t],
                forall|t: int| n <= t < la ==> self.0@[t] == before[t],
                forall|t: int| la <= t < self.0@.len() ==> self.0@[t] == rhs.0@[t],
            decreases lb - k,
        {
            self.0.push(rhs.0[k]);
            k += 1;
        }
        proof {
            assert forall|i: nat| seq_bit(self.0@, i) == old(self)@.union(rhs@).contains(i) by {
                assert(old(self)@.contains(i) == seq_bit(before, i));
                assert(rhs@.contains(i) == seq_bit(rhs.0@, i));
                lemma_bit_zero(i % 64);
                if i / 64 < n {
                    lemma_bit_or(before[(i / 64) as int], rhs.0@[(i / 64) as int], i % 64);
                }
            }
            lemma_bits_are(self.0@, old(self)@.union(rhs@));
            if la >= lb && la > 0 {
                let j = lemma_nonzero_has_bit(before[la - 1]);
                if la - 1 < n {
                    lemma_bit_or(before[la - 1], rhs.0@[la - 1], j);
                }
                lemma_has_bit_nonzero(self.0@[la - 1], j);
            }
        }
    }

    /// a = a | (b & c)
    pub fn bitor_and_assign(&mut self, rhs1: &Self, rhs2: &Self)
        requires
            old(self).wf(),
            rhs1.wf(),
            rhs2.wf(),
        ensures
            final(self).wf(),
            final(self)@ == old(self)@.union(rhs1@.intersect(rhs2@)),
    {
        let ghost before = self.0@;
        let la: usize = self.0.len();
        let lr: usize = if rhs1.0.len() < rhs2.0.len() {
            rhs1.0.len()
        } else {
            rhs2.0.len()
        };
        let n: usize = if la < lr {
            la
        } else {
            lr
        };
        let mut k: usize = 0;
        while k < n
            invariant
                k <= n,
                n <= la,
                n <= lr,
                lr <= rhs1.0@.len(),
                lr <= rhs2.0@.len(),
                la == before.len(),
                self.0@.len() == la,
                forall|t: int| 0 <= t < k ==> self.0@[t] == before[t] | (rhs1.0@[t] & rhs2.0@[t]),
                forall|t: int| k <= t < la ==> self.0@[t] == before[t],
            decreases n - k,
        {
            let d: u64 = self.0[k] | (rhs1.0[k] & rhs2.0[k]);
            self.0[k] = d;
            k += 1;
        }
        let mut k: usize = la;
        while k < lr
            invariant
                n <= la,
                n <= lr,
                lr <= rhs1.0@.len(),
                lr <= rhs2.0@.len(),
                la == before.len(),
                la <= k,
                k <= lr || la >= lr,
                self.0@.len() == if la < lr {
                    k
                } else {
                    la
                },
                forall|t: int| 0 <= t < n ==> self.0@[t] == before[t] | (rhs1.0@[t] & rhs2.0@[t]),
                forall|t: int| n <= t < la ==> self.0@[t] == before[t],
                forall|t: int| la <= t < self.0@.len() ==> self.0@[t] == rhs1.0@[t] & rhs2.0@[t],
            decreases lr - k,
        {
            self.0.push(rhs1.0[k] & rhs2.0[k]);
            k += 1;
        }
        proof {
            let goal = old(self)@.union(rhs1@.intersect(rhs2@));
            assert forall|i: nat| seq_bit(self.0@, i) == goal.contains(i) by {
                assert(old(self)@.contains(i) == seq_bit(before, i));
                assert(rhs1@.contains(i) == seq_bit(rhs1.0@, i));
                assert(rhs2@.contains(i) == seq_bit(rhs2.0@, i));
                lemma_bit_zero(i % 64);
                let t = (i / 64) as int;
                if t < lr {
                    lemma_bit_and(rhs1.0@[t], rhs2.0@[t], i % 64);
                    if t < la {
                        lemma_bit_or(before[t], rhs1.0@[t] & rhs2.0@[t], i % 64);
                    }
                }
            }
            lemma_bits_are(self.0@, goal);
        }
        self.normalize();
    }

    /// a = a | (!b & c)
    pub fn bitor_not_and_assign(&mut self, rhs1: &Self, rhs2: &Self)
        requires
            old(self).wf(),
            rhs1.wf(),
            rhs2.wf(),
        ensures
            final(self).wf(),
            final(self)@ == old(self)@.union(rhs2@.difference(rhs1@)),
    {
        let ghost before = self.0@;
        let la: usize = self.0.len();
        let lb: usize = rhs1.0.len();
        let lc: usize = rhs2.0.len();
        let n: usize = if la < lc {
            la
        } else {
            lc
        };
        let mut k: usize = 0;
        while k < n
            invariant
                k <= n,
                n <= la,
                n <= lc,
                lb == rhs1.0@.len(),
                lc == rhs2.0@.len(),
                la == before.len(),
                self.0@.len() == la,
                forall|t: int|
                    0 <= t < k ==> self.0@[t] == before[t] | (!digit_at(rhs1.0@, t) & rhs2.0@[t]),
                forall|t: int| k <= t < la ==> self.0@[t] == before[t],
            decreases n - k,
        {
            let b: u64 = if k < lb {
                rhs1.0[k]
            } else {
                0
            };
            let d: u64 = self.0[k] | (!b & rhs2.0[k]);
            self.0[k] = d;
            k += 1;
        }
        let mut k: usize = la;
        while k < lc
            invariant
                n <= la,
                n <= lc,
                lb == rhs1.0@.len(),
                lc == rhs2.0@.len(),
                la == before.len(),
                la <= k,
                k <= lc || la >= lc,
                self.0@.len() == if la < lc {
                    k
                } else {
                    la
                },
                forall|t: int|
                    0 <= t < n ==> self.0@[t] == before[t] | (!digit_at(rhs1.0@, t) & rhs2.0@[t]),
                forall|t: int| n <= t < la ==> self.0@[t] == before[t],
                forall|t: int|
                    la <= t < self.0@.len() ==> self.0@[t] == !digit_at(rhs1.0@, t) & rhs2.0@[t],
            decreases lc - k,
        {
            let b: u64 = if k < lb {
                rhs1.0[k]
            } else {
                0
            };
            self.0.push(!b & rhs2.0[k]);
            k += 1;
        }
        proof {
            let goal = old(self)@.union(rhs2@.difference(rhs1@));
            assert forall|i: nat| seq_bit(self.0@, i) == goal.contains(i) by {
                assert(old(self)@.contains(i) == seq_bit(before, i));
                assert(rhs1@.contains(i) == seq_bit(rhs1.0@, i));
                assert(rhs2@.contains(i) == seq_bit(rhs2.0@, i));
                lemma_bit_zero(i % 64);
                let t = (i / 64) as int;
                if t < lc {
                    let b = digit_at(rhs1.0@, t);
                    lemma_bit_not_and(b, rhs2.0@[t], i % 64);
                    if t < la {
                        lemma_bit_or(before[t], !b & rhs2.0@[t], i % 64);
                    }
                }
            }
            lemma_bits_are(self.0@, goal);
        }
        self.normalize();
    }

    /// a = a ^ b
    pub fn bitxor_assign(&mut self, rhs: &Self)
        requires
            old(self).wf(),
            rhs.wf(),
        ensures
            final(self).wf(),
            final(self)@ == old(self)@.difference(rhs@).union(rhs@.difference(old(self)@)),
    {
        let ghost before = self.0@;
        let la: usize = self.0.len();
        let lb: usize = rhs.0.len();
        let n: usize = if la < lb {
            la
        } else {
            lb
        };
        let mut k: usize = 0;
        while k < n
            invariant
                k <= n,
                n <= la,
                n <= lb,
                la == before.len(),
                lb == rhs.0@.len(),
                self.0@.len() == la,
                forall|t: int| 0 <= t < k ==> self.0@[t] == before[t] ^ rhs.0@[t],
                forall|t: int| k <= t < la ==> self.0@[t] == before[t],
            decreases n - k,
        {
            let d: u64 = self.0[k] ^ rhs.0[k];
            self.0[k] = d;
            k += 1;
        }
        let mut k: usize = la;
        while k < lb
            invariant
                n <= la,
                n <= lb,
                la == before.len(),
                lb == rhs.0@.len(),
                la <= k,
                k <= lb || la >= lb,
                self.0@.len() == if la < lb {
                    k
                } else {
                    la
                },
                forall|t: int| 0 <= t < n ==> self.0@[t] == before[t] ^ rhs.0@[t],
                forall|t: int| n <= t < la ==> self.0@[t] == before[t],
                forall|t: int| la <= t < self.0@.len() ==> self.0@[t] == rhs.0@[t],
            decreases lb - k,
        {
            self.0.push(rhs.0[k]);
            k += 1;
        }
        proof {
            let goal = old(self)@.difference(rhs@).union(rhs@.difference(old(self)@));
            assert forall|i: nat| seq_bit(self.0@, i) == goal.contains(i) by {
                assert(old(self)@.contains(i) == seq_bit(before, i));
                assert(rhs@.contains(i) == seq_bit(rhs.0@, i));
                lemma_bit_zero(i % 64);
                if i / 64 < n {
                    lemma_bit_xor(before[(i / 64) as int], rhs.0@[(i / 64) as int], i % 64);
                }
            }
            lemma_bits_are(self.0@, goal);
        }
        self.normalize();
    }

    /// Complements the lowest `bit_len` bits and clears every bit from `bit_len` upwards.
    pub fn not_assign(&mut self, bit_len: usize)
        requires
            old(self).wf(),
        ensures
            final(self).wf(),
            final(self)@ == Set::new(|i: nat| i < bit_len && !old(self)@.contains(i)),
    {
        let ghost before = self.0@;
        let last: usize = bit_len / BITS;
        let shift: usize = bit_len % BITS;
        let n: usize = if shift > 0 {
            last + 1
        } else {
            last
        };
        if self.0.len() > n {
            self.0.truncate(n);
        } else {
            self.0.resize(n, 0);
        }
        let mut k: usize = 0;
        while k < last
            invariant
                k <= last,
                last <= n,
                self.0@.len() == n,
                forall|t: int| 0 <= t < k ==> self.0@[t] == !digit_at(before, t),
                forall|t: int| k <= t < n ==> self.0@[t] == digit_at(before, t),
            decreases last - k,
        {
            let d: u64 = !self.0[k];
            self.0[k] = d;
            k += 1;
        }
        if shift > 0 {
            let m = low_mask(shift);
            let d: u64 = !self.0[last] & m;
            self.0[last] = d;
        }
        proof {
            let goal = Set::new(|i: nat| i < bit_len && !old(self)@.contains(i));
            assert forall|i: nat| seq_bit(self.0@, i) == goal.contains(i) by {
                assert(old(self)@.contains(i) == seq_bit(before, i));
                lemma_bit_zero(i % 64);
                let t = (i / 64) as int;
                let b = digit_at(before, t);
                if t < last {
                    lemma_bit_not(b, i % 64);
                } else if t == last && shift > 0 {
                    let m = u64::MAX >> ((64 - shift) as u64);
                    lemma_bit_not_and(b, m, i % 64);
                    lemma_bit_low_mask(shift as nat, i % 64);
                }
            }
            lemma_bits_are(self.0@, goal);
        }
        self.normalize();
    }

    /// The complement of the lowest `bit_len` bits, as a new vector.
    pub fn not(&self, bit_len: usize) -> (res: Self)
        requires
            self.wf(),
        ensures
            res.wf(),
            res@ == Set::new(|i: nat| i < bit_len && !self@.contains(i)),
    {
        let mut res = self.clone();
        res.not_assign(bit_len);
        res
    }

    /// Drops the zero digits at the end. The bits stay as they are.
    pub fn normalize(&mut self)
        ensures
            final(self).0@ == trimmed(old(self).0@),
            normalized(final(self).0@),
            final(self)@ == old(self)@,
            final(self).0@.len() <= old(self).0@.len(),
    {
        proof {
            lemma_trimmed(self.0@);
        }
        while self.0.len() > 0 && self.0[self.0.len() - 1] == 0
            invariant
                trimmed(self.0@) == trimmed(old(self).0@),
            decreases self.0@.len(),
        {
            proof {
                assert(trimmed(self.0@) == trimmed(self.0@.drop_last()));
            }
            self.0.pop();
        }
    }
}

/// Two fused combinators in one pass over the digits: `computed |= front &
/// !mask`, and `upsert |= front & !mask & !val` where `flip` is set, else
/// `upsert |= front & !mask & val`. The targets are digit arrays of one
/// length that `front` fits in; `mask` and `val` count as zero past their ends.
pub fn spread(
    upsert: &mut [u64],
    computed: &mut [u64],
    front: &[u64],
    mask: &[u64],
    val: &[u64],
    flip: bool,
)
    requires
        old(upsert)@.len() == old(computed)@.len(),
        front@.len() <= old(computed)@.len(),
    ensures
        final(upsert)@.len() == old(upsert)@.len(),
        final(computed)@.len() == old(computed)@.len(),
        seq_bits(final(computed)@) == seq_bits(old(computed)@).union(
            seq_bits(front@).difference(seq_bits(mask@)),
        ),
        seq_bits(final(upsert)@) == seq_bits(old(upsert)@).union(
            if flip {
                seq_bits(front@).difference(seq_bits(mask@)).difference(seq_bits(val@))
            } else {
                seq_bits(front@).difference(seq_bits(mask@)).intersect(seq_bits(val@))
            },
        ),
{
    let n: usize = front.len();
    let mlen: usize = mask.len();
    let vlen: usize = val.len();
    if upsert.len() < n || computed.len() < n {
        return ;
    }
    // the digits that all three vectors have
    let lim: usize = if mlen < vlen {
        if mlen < n {
            mlen
        } else {
            n
        }
    } else {
        if vlen < n {
            vlen
        } else {
            n
        }
    };
    let ghost up0 = upsert@;
    let ghost cp0 = computed@;
    let ghost f = front@;
    let ghost m = mask@;
    let ghost v = val@;
    let mut k: usize = 0;
    if flip {
        while k < lim
            invariant
                lim <= n,
                lim <= mlen,
                lim <= vlen,
                k <= lim,
                flip,
            k <= n,
            n == f.len(),
            mlen == m.len(),
            vlen == v.len(),
            f == front@,
            m == mask@,
            v == val@,
            upsert@.len() == up0.len(),
            computed@.len() == cp0.len(),
            up0.len() == cp0.len(),
            n <= cp0.len(),
            forall|t: int| k <= t < cp0.len() ==> computed@[t] == cp0[t] && upsert@[t] == up0[t],
            forall|t: int, j: nat|
                0 <= t < k ==> #[trigger] digit_bit(computed@[t], j) == (digit_bit(cp0[t], j) || (
                digit_bit(f[t], j) && !digit_bit(digit_at(m, t), j))),
            forall|t: int, j: nat|
                0 <= t < k ==> #[trigger] digit_bit(upsert@[t], j) == (digit_bit(up0[t], j) || (
                digit_bit(f[t], j) && !digit_bit(digit_at(m, t), j) && (digit_bit(
                    digit_at(v, t),
                    j,
                ) != flip))),
            decreases lim - k,
        {
            let md: u64 = mask[k];
            let vd: u64 = val[k];
            let cmd: u64 = front[k] & !md;
            let ud: u64 = !vd & cmd;
            let cd: u64 = computed[k] | cmd;
            let xd: u64 = upsert[k] | ud;
            proof {
                assert forall|j: nat| #[trigger]
                    digit_bit(cd, j) == (digit_bit(cp0[k as int], j) || (digit_bit(f[k as int], j)
                        && !digit_bit(md, j))) by {
                    lemma_bit_or(cp0[k as int], cmd, j);
                    lemma_bit_and_not(f[k as int], md, j);
                }
                assert forall|j: nat| #[trigger]
                    digit_bit(xd, j) == (digit_bit(up0[k as int], j) || (digit_bit(f[k as int], j)
                        && !digit_bit(md, j) && (digit_bit(vd, j) != flip))) by {
                    lemma_bit_or(up0[k as int], ud, j);
                    lemma_bit_and_not(f[k as int], md, j);
                    if flip {
                        lemma_bit_not_and(vd, cmd, j);
                    } else {
                        lemma_bit_and(vd, cmd, j);
                    }
                }
            }
            computed[k] = cd;
            upsert[k] = xd;
            k += 1;
        }
    } else {
        while k < lim
            invariant
                lim <= n,
                lim <= mlen,
                lim <= vlen,
                k <= lim,
                !flip,
            k <= n,
            n == f.len(),
            mlen == m.len(),
            vlen == v.len(),
            f == front@,
            m == mask@,
            v == val@,
            upsert@.len() == up0.len(),
            computed@.len() == cp0.len(),
            up0.len() == cp0.len(),
            n <= cp0.len(),
            forall|t: int| k <= t < cp0.len() ==> computed@[t] == cp0[t] && upsert@[t] == up0[t],
            forall|t: int, j: nat|
                0 <= t < k ==> #[trigger] digit_bit(computed@[t], j) == (digit_bit(cp0[t], j) || (
                digit_bit(f[t], j) && !digit_bit(digit_at(m, t), j))),
            forall|t: int, j: nat|
                0 <= t < k ==> #[trigger] digit_bit(upsert@[t], j) == (digit_bit(up0[t], j) || (
                digit_bit(f[t], j) && !digit_bit(digit_at(m, t), j) && (digit_bit(
                    digit_at(v, t),
                    j,
                ) != flip))),
            decreases lim - k,
        {
            let md: u64 = mask[k];
            let vd: u64 = val[k];
            let cmd: u64 = front[k] & !md;
            let ud: u64 = vd & cmd;
            let cd: u64 = computed[k] | cmd;
            let xd: u64 = upsert[k] | ud;
            proof {
                assert forall|j: nat| #[trigger]
                    digit_bit(cd, j) == (digit_bit(cp0[k as int], j) || (digit_bit(f[k as int], j)
                        && !digit_bit(md, j))) by {
                    lemma_bit_or(cp0[k as int], cmd, j);
                    lemma_bit_and_not(f[k as int], md, j);
                }
                assert forall|j: nat| #[trigger]
                    digit_bit(xd, j) == (digit_bit(up0[k as int], j) || (digit_bit(f[k as int], j)
                        && !digit_bit(md, j) && (digit_bit(vd, j) != flip))) by {
                    lemma_bit_or(up0[k as int], ud, j);
                    lemma_bit_and_not(f[k as int], md, j);
                    if flip {
                        lemma_bit_not_and(vd, cmd, j);
                    } else {
                        lemma_bit_and(vd, cmd, j);
                    }
                }
            }
            computed[k] = cd;
            upsert[k] = xd;
            k += 1;
        }
    }
    // the digits past the end of the mask or of the row
    while k < n
        invariant
            k <= n,
            n == f.len(),
            mlen == m.len(),
            vlen == v.len(),
            f == front@,
            m == mask@,
            v == val@,
            upsert@.len() == up0.len(),
            computed@.len() == cp0.len(),
            up0.len() == cp0.len(),
            n <= cp0.len(),
            forall|t: int| k <= t < cp0.len() ==> computed@[t] == cp0[t] && upsert@[t] == up0[t],
            forall|t: int, j: nat|
                0 <= t < k ==> #[trigger] digit_bit(computed@[t], j) == (digit_bit(cp0[t], j) || (
                digit_bit(f[t], j) && !digit_bit(digit_at(m, t), j))),
            forall|t: int, j: nat|
                0 <= t < k ==> #[trigger] digit_bit(upsert@[t], j) == (digit_bit(up0[t], j) || (
                digit_bit(f[t], j) && !digit_bit(digit_at(m, t), j) && (digit_bit(
                    digit_at(v, t),
                    j,
                ) != flip))),
        decreases n - k,
    {
        let md: u64 = if k < mlen {
            mask[k]
        } else {
            0
        };
        let vd: u64 = if k < vlen {
            val[k]
        } else {
            0
        };
        let cmd: u64 = front[k] & !md;
        let ud: u64 = if flip {
            !vd & cmd
        } else {
            vd & cmd
        };
        let cd: u64 = computed[k] | cmd;
        let xd: u64 = upsert[k] | ud;
        proof {
            assert forall|j: nat| #[trigger]
                digit_bit(cd, j) == (digit_bit(cp0[k as int], j) || (digit_bit(f[k as int], j)
                    && !digit_bit(md, j))) by {
                lemma_bit_or(cp0[k as int], cmd, j);
                lemma_bit_and_not(f[k as int], md, j);
            }
            assert forall|j: nat| #[trigger]
                digit_bit(xd, j) == (digit_bit(up0[k as int], j) || (digit_bit(f[k as int], j)
                    && !digit_bit(md, j) && (digit_bit(vd, j) != flip))) by {
                lemma_bit_or(up0[k as int], ud, j);
                lemma_bit_and_not(f[k as int], md, j);
                if flip {
                    lemma_bit_not_and(vd, cmd, j);
                } else {
                    lemma_bit_and(vd, cmd, j);
                }
            }
        }
        computed[k] = cd;
        upsert[k] = xd;
        k += 1;
    }
    proof {
        let want_cp = seq_bits(cp0).union(seq_bits(f).difference(seq_bits(m)));
        assert forall|i: nat| seq_bit(computed@, i) == want_cp.contains(i) by {
            let t = (i / 64) as int;
            assert(seq_bits(cp0).contains(i) == seq_bit(cp0, i));
            assert(seq_bits(f).contains(i) == seq_bit(f, i));
            assert(seq_bits(m).contains(i) == seq_bit(m, i));
            lemma_bit_zero(i % 64);
            if t < n {
                assert(digit_bit(computed@[t], i % 64) == (digit_bit(cp0[t], i % 64) || (digit_bit(
                    f[t],
                    i % 64,
                ) && !digit_bit(digit_at(m, t), i % 64))));
            }
        }
        lemma_bits_are(computed@, want_cp);
        let want_up = seq_bits(up0).union(
            if flip {
                seq_bits(f).difference(seq_bits(m)).difference(seq_bits(v))
            } else {
                seq_bits(f).difference(seq_bits(m)).intersect(seq_bits(v))
            },
        );
        assert forall|i: nat| seq_bit(upsert@, i) == want_up.contains(i) by {
            let t = (i / 64) as int;
            assert(seq_bits(up0).contains(i) == seq_bit(up0, i));
            assert(seq_bits(f).contains(i) == seq_bit(f, i));
            assert(seq_bits(m).contains(i) == seq_bit(m, i));
            assert(seq_bits(v).contains(i) == seq_bit(v, i));
            lemma_bit_zero(i % 64);
            if t < n {
                assert(digit_bit(upsert@[t], i % 64) == (digit_bit(up0[t], i % 64) || (digit_bit(
                    f[t],
                    i % 64,
                ) && !digit_bit(digit_at(m, t), i % 64) && (digit_bit(digit_at(v, t), i % 64)
                    != flip))));
            }
        }
        lemma_bits_are(upsert@, want_up);
    }
}

/// The digits as a bit vector, without `bit_index` and without the zero
/// digits at the end.
pub fn pack_without(digits: Vec<u64>, bit_index: usize) -> (r: BitVec)
    requires
        digits@.len() <= max_digits(),
    ensures
        r.wf(),
        r@ == seq_bits(digits@).remove(bit_index as nat),
{
    let mut r = BitVec(digits);
    let i: usize = bit_index / BITS;
    if i < r.0.len() {
        let m = bit_mask(bit_index % BITS);
        let d: u64 = r.0[i] & !m;
        r.0[i] = d;
        proof {
            assert forall|n: nat|
                seq_bit(r.0@, n) == seq_bits(digits@).remove(bit_index as nat).contains(n) by {
                assert(seq_bits(digits@).contains(n) == seq_bit(digits@, n));
                if n / 64 == i {
                    lemma_bit_and_not(digits@[i as int], m, n % 64);
                }
            }
            lemma_bits_are(r.0@, seq_bits(digits@).remove(bit_index as nat));
        }
    } else {
        proof {
            assert forall|n: nat|
                seq_bit(r.0@, n) == seq_bits(digits@).remove(bit_index as nat).contains(n) by {
                assert(seq_bits(digits@).contains(n) == seq_bit(digits@, n));
            }
            lemma_bits_are(r.0@, seq_bits(digits@).remove(bit_index as nat));
        }
    }
    r.normalize();
    r
}

impl BitVec {
    /// Whether no bit but `bit_index` is one.
    pub fn is_zero_without(&self, bit_index: usize) -> (r: bool)
        ensures
            r == (self@.remove(bit_index as nat) == Set::<nat>::empty()),
    {
        let si: usize = bit_index / BITS;
        let sm = bit_mask(bit_index % BITS);
        let mut k: usize = 0;
        while k < self.0.len()
            invariant
                k <= self.0@.len(),
                si == bit_index / 64,
                sm == 1u64 << ((bit_index % 64) as u64),
                forall|i: nat| i / 64 < k && i != bit_index ==> !seq_bit(self.0@, i),
            decreases self.0@.len() - k,
        {
            let d: u64 = if k == si {
                self.0[k] & !sm
            } else {
                self.0[k]
            };
            if d != 0 {
                proof {
                    let j = lemma_nonzero_has_bit(d);
                    let i = (k * 64 + j) as nat;
                    assert(i / 64 == k && i % 64 == j);
                    if k == si {
                        lemma_bit_and_not(self.0@[k as int], sm, j);
                        lemma_bit_single((bit_index % 64) as nat, j);
                    }
                    assert(seq_bit(self.0@, i));
                    assert(self@.remove(bit_index as nat).contains(i));
                }
                return false;
            }
            proof {
                assert forall|i: nat| i / 64 < k + 1 && i != bit_index implies !seq_bit(
                    self.0@,
                    i,
                ) by {
                    if i / 64 == k {
                        lemma_bit_zero(i % 64);
                        if k == si {
                            lemma_bit_and_not(self.0@[k as int], sm, i % 64);
                            lemma_bit_single((bit_index % 64) as nat, i % 64);
                        }
                    }
                }
            }
            k += 1;
        }
        proof {
            assert forall|i: nat| !self@.remove(bit_index as nat).contains(i) by {
                assert(self@.contains(i) == seq_bit(self.0@, i));
            }
            assert(self@.remove(bit_index as nat) =~= Set::<nat>::empty());
        }
        true
    }
}

} // verus!
