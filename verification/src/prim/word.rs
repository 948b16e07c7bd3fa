//! One packed word of 128 bits, as a set of node ids.

use crate::bitvec::bitvec::{lemma_bits_are, seq_bit, BitVec};
use crate::digit::{digit_bit, lemma_bit_zero, lemma_digit_ext};
use vstd::prelude::*;

verus! {

/// Whether bit `j` of the word `w` is one. Bits from 128 upwards are zero.
pub open spec fn word_bit(w: u128, j: nat) -> bool {
    j < 128 && (w >> (j as u128)) & 1 == 1
}

/// The set of the indices of the one bits of the word `w`.
pub open spec fn word_set(w: u128) -> Set<nat> {
    Set::new(|j: nat| word_bit(w, j))
}

/// The lower and the upper half of a word hold its bits.
pub proof fn lemma_halves(w: u128, j: nat)
    requires
        j < 64,
    ensures
        digit_bit(w as u64, j) == word_bit(w, j),
        digit_bit((w >> 64) as u64, j) == word_bit(w, j + 64),
{
    let k = j as u128;
    let k64 = j as u64;
    let lo = w as u64;
    let hi = (w >> 64) as u64;
    assert(((lo >> k64) & 1 == 1) == ((w >> k) & 1 == 1)) by (bit_vector)
        requires
            k < 64,
            k64 == k,
            lo == w as u64,
    ;
    let k2 = (j + 64) as u128;
    assert(((hi >> k64) & 1 == 1) == ((w >> k2) & 1 == 1)) by (bit_vector)
        requires
            k64 < 64,
            k2 == k64 + 64,
            hi == (w >> 64) as u64,
    ;
}

/// A word is made of its two halves.
pub proof fn lemma_join(lo: u64, hi: u64)
    ensures
        (((hi as u128) << 64) | (lo as u128)) as u64 == lo,
        ((((hi as u128) << 64) | (lo as u128)) >> 64) as u64 == hi,
{
    assert((((hi as u128) << 64) | (lo as u128)) as u64 == lo) by (bit_vector);
    assert(((((hi as u128) << 64) | (lo as u128)) >> 64) as u64 == hi) by (bit_vector);
}

/// Two words with the same halves are the same word.
pub proof fn lemma_word_ext(a: u128, b: u128)
    requires
        forall|j: nat| j < 128 ==> word_bit(a, j) == word_bit(b, j),
    ensures
        a == b,
{
    let alo = a as u64;
    let blo = b as u64;
    let ahi = (a >> 64) as u64;
    let bhi = (b >> 64) as u64;
    assert forall|j: nat| j < 64 implies digit_bit(alo, j) == digit_bit(blo, j) by {
        lemma_halves(a, j);
        lemma_halves(b, j);
    }
    lemma_digit_ext(alo, blo);
    assert forall|j: nat| j < 64 implies digit_bit(ahi, j) == digit_bit(bhi, j) by {
        lemma_halves(a, j);
        lemma_halves(b, j);
    }
    lemma_digit_ext(ahi, bhi);
    assert(a == b) by (bit_vector)
        requires
            a as u64 == b as u64,
            (a >> 64) as u64 == (b >> 64) as u64,
    ;
}

/// Two words that stand for the same set are the same word.
pub proof fn lemma_word_set_ext(a: u128, b: u128)
    requires
        word_set(a) == word_set(b),
    ensures
        a == b,
{
    assert forall|j: nat| j < 128 implies word_bit(a, j) == word_bit(b, j) by {
        assert(word_set(a).contains(j) == word_bit(a, j));
        assert(word_set(b).contains(j) == word_bit(b, j));
    }
    lemma_word_ext(a, b);
}

/// The word with the single bit `j`.
pub fn word_one(j: usize) -> (w: u128)
    requires
        j < 128,
    ensures
        word_set(w) == set![j as nat],
{
    let w: u128 = 1u128 << (j as u128);
    proof {
        assert forall|i: nat| word_bit(w, i) == (i == j) by {
            if i < 128 {
                let a = j as u128;
                let b = i as u128;
                assert((((1u128 << a) >> b) & 1 == 1) == (a == b)) by (bit_vector)
                    requires
                        a < 128,
                        b < 128,
                ;
            }
        }
        assert(word_set(w) =~= set![j as nat]);
    }
    w
}

/// Reads bit `j` of the word `w`.
pub fn word_test(w: u128, j: usize) -> (r: bool)
    requires
        j < 128,
    ensures
        r == word_set(w).contains(j as nat),
{
    let k: u128 = j as u128;
    proof {
        assert(((w & (1u128 << k)) != 0) == ((w >> k) & 1 == 1)) by (bit_vector)
            requires
                k < 128,
        ;
        assert(word_set(w).contains(j as nat) == word_bit(w, j as nat));
    }
    (w & (1u128 << k)) != 0
}

/// The union of two words.
pub fn word_or(a: u128, b: u128) -> (w: u128)
    ensures
        w == a | b,
        word_set(w) == word_set(a).union(word_set(b)),
{
    let w: u128 = a | b;
    proof {
        assert forall|i: nat| word_bit(w, i) == (word_bit(a, i) || word_bit(b, i)) by {
            if i < 128 {
                let k = i as u128;
                assert((((a | b) >> k) & 1 == 1) == (((a >> k) & 1 == 1) || ((b >> k) & 1 == 1)))
                    by (bit_vector);
            }
        }
        assert(word_set(w) =~= word_set(a).union(word_set(b)));
    }
    w
}

/// The bits of `a` that are not in `b`.
pub fn word_and_not(a: u128, b: u128) -> (w: u128)
    ensures
        w == a & !b,
        word_set(w) == word_set(a).difference(word_set(b)),
{
    let w: u128 = a & !b;
    proof {
        assert forall|i: nat| word_bit(w, i) == (word_bit(a, i) && !word_bit(b, i)) by {
            if i < 128 {
                let k = i as u128;
                assert((((a & !b) >> k) & 1 == 1) == (((a >> k) & 1 == 1) && !((b >> k) & 1
                    == 1))) by (bit_vector);
            }
        }
        assert(word_set(w) =~= word_set(a).difference(word_set(b)));
    }
    w
}

/// The empty word stands for the empty set.
pub proof fn lemma_word_zero()
    ensures
        word_set(0) == Set::<nat>::empty(),
{
    assert forall|i: nat| !word_bit(0, i) by {
        if i < 128 {
            let k = i as u128;
            assert((0u128 >> k) & 1 != 1) by (bit_vector);
        }
    }
    assert(word_set(0) =~= Set::<nat>::empty());
}

/// The word as a bit vector.
pub fn word_to_bitvec(w: u128) -> (r: BitVec)
    ensures
        r.wf(),
        r@ == word_set(w),
{
    let lo: u64 = w as u64;
    let hi: u64 = (w >> 64) as u64;
    let mut v: Vec<u64> = Vec::with_capacity(2);
    v.push(lo);
    v.push(hi);
    let mut r = BitVec(v);
    proof {
        assert forall|i: nat| seq_bit(r.0@, i) == word_set(w).contains(i) by {
            assert(word_set(w).contains(i) == word_bit(w, i));
            if i < 64 {
                lemma_halves(w, i);
            } else if i < 128 {
                lemma_halves(w, (i - 64) as nat);
            }
        }
        lemma_bits_are(r.0@, word_set(w));
    }
    r.normalize();
    r
}

/// The lowest 128 bits of a bit vector as a word.
pub fn bitvec_to_word(b: &BitVec) -> (w: u128)
    ensures
        word_set(w) == b@.intersect(Set::new(|i: nat| i < 128)),
{
    let lo: u64 = if b.0.len() > 0 {
        b.0[0]
    } else {
        0
    };
    let hi: u64 = if b.0.len() > 1 {
        b.0[1]
    } else {
        0
    };
    let w: u128 = ((hi as u128) << 64) | (lo as u128);
    proof {
        lemma_join(lo, hi);
        assert forall|i: nat|
            word_set(w).contains(i) == b@.intersect(Set::new(|i: nat| i < 128)).contains(i) by {
            assert(word_set(w).contains(i) == word_bit(w, i));
            assert(b@.contains(i) == seq_bit(b.0@, i));
            lemma_bit_zero(i % 64);
            if i < 64 {
                lemma_halves(w, i);
            } else if i < 128 {
                lemma_halves(w, (i - 64) as nat);
            }
        }
        assert(word_set(w) =~= b@.intersect(Set::new(|i: nat| i < 128)));
    }
    w
}

} // verus!
