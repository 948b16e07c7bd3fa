//! Facts about the bits of one 64-bit digit.
//!
//! A bit vector is an array of digits. Everything said about bit vectors
//! elsewhere is reduced to the statements of this module, which are the only
//! ones that need the bit-level solver.

use vstd::prelude::*;
use vstd::std_specs::bits::*;

verus! {

/// Number of bits in one digit.
pub const BITS: usize = 64;

/// Whether bit `j` of the digit `d` is one. Bits from 64 upwards are zero.
pub open spec fn digit_bit(d: u64, j: nat) -> bool {
    j < 64 && (d >> (j as u64)) & 1 == 1
}

/// The number of one bits among the lowest `n` bits of `d`.
pub open spec fn digit_count(d: u64, n: nat) -> nat
    decreases n,
{
    if n == 0 {
        0
    } else {
        digit_count(d, (n - 1) as nat) + if digit_bit(d, (n - 1) as nat) {
            1nat
        } else {
            0nat
        }
    }
}

/// The bits of a digit that are one are counted.
pub proof fn lemma_digit_count_bound(d: u64, n: nat)
    ensures
        digit_count(d, n) <= n,
    decreases n,
{
    if n > 0 {
        lemma_digit_count_bound(d, (n - 1) as nat);
    }
}

/// `u64::count_ones` of std: the number of ones in the binary representation
/// of its argument.
pub assume_specification[ u64::count_ones ](i: u64) -> (r: u32)
    ensures
        r == digit_count(i, 64),
;

/// The digit zero has no one bit.
pub proof fn lemma_bit_zero(j: nat)
    ensures
        !digit_bit(0, j),
{
    if j < 64 {
        let k = j as u64;
        assert((0u64 >> k) & 1 != 1) by (bit_vector);
    }
}

/// The digit of all ones has every bit below 64.
pub proof fn lemma_bit_max(j: nat)
    ensures
        digit_bit(u64::MAX, j) == (j < 64),
{
    if j < 64 {
        let k = j as u64;
        assert((0xffff_ffff_ffff_ffffu64 >> k) & 1 == 1) by (bit_vector)
            requires
                k < 64,
        ;
    }
}

/// The bits of `a | b` are those of `a` and those of `b`.
pub proof fn lemma_bit_or(a: u64, b: u64, j: nat)
    ensures
        digit_bit(a | b, j) == (digit_bit(a, j) || digit_bit(b, j)),
{
    if j < 64 {
        let k = j as u64;
        assert((((a | b) >> k) & 1 == 1) == (((a >> k) & 1 == 1) || ((b >> k) & 1 == 1)))
            by (bit_vector);
    }
}

/// The bits of `a & b` are those that `a` and `b` share.
pub proof fn lemma_bit_and(a: u64, b: u64, j: nat)
    ensures
        digit_bit(a & b, j) == (digit_bit(a, j) && digit_bit(b, j)),
{
    if j < 64 {
        let k = j as u64;
        assert((((a & b) >> k) & 1 == 1) == (((a >> k) & 1 == 1) && ((b >> k) & 1 == 1)))
            by (bit_vector);
    }
}

/// The bits of `a & !b` are those of `a` that `b` has not.
pub proof fn lemma_bit_and_not(a: u64, b: u64, j: nat)
    ensures
        digit_bit(a & !b, j) == (digit_bit(a, j) && !digit_bit(b, j)),
{
    if j < 64 {
        let k = j as u64;
        assert((((a & !b) >> k) & 1 == 1) == (((a >> k) & 1 == 1) && !((b >> k) & 1 == 1)))
            by (bit_vector);
    }
}

/// The bits of `!a & b` are those of `b` that `a` has not.
pub proof fn lemma_bit_not_and(a: u64, b: u64, j: nat)
    ensures
        digit_bit(!a & b, j) == (!digit_bit(a, j) && digit_bit(b, j)),
{
    if j < 64 {
        let k = j as u64;
        assert((((!a & b) >> k) & 1 == 1) == (!((a >> k) & 1 == 1) && ((b >> k) & 1 == 1)))
            by (bit_vector);
    }
}

/// The bits of `a ^ b` are those that one of `a` and `b` has and the other has not.
pub proof fn lemma_bit_xor(a: u64, b: u64, j: nat)
    ensures
        digit_bit(a ^ b, j) == (digit_bit(a, j) != digit_bit(b, j)),
{
    if j < 64 {
        let k = j as u64;
        assert((((a ^ b) >> k) & 1 == 1) == (((a >> k) & 1 == 1) != ((b >> k) & 1 == 1)))
            by (bit_vector);
    }
}

/// The bits of `!a` are those below 64 that `a` has not.
pub proof fn lemma_bit_not(a: u64, j: nat)
    ensures
        digit_bit(!a, j) == (j < 64 && !digit_bit(a, j)),
{
    if j < 64 {
        let k = j as u64;
        assert((((!a) >> k) & 1 == 1) == !((a >> k) & 1 == 1)) by (bit_vector)
            requires
                k < 64,
        ;
    }
}

/// The digit `1 << k` has the one bit `k`.
pub proof fn lemma_bit_single(k: nat, j: nat)
    requires
        k < 64,
    ensures
        digit_bit(1u64 << (k as u64), j) == (j == k),
{
    if j < 64 {
        let a = k as u64;
        let b = j as u64;
        assert((((1u64 << a) >> b) & 1 == 1) == (a == b)) by (bit_vector)
            requires
                a < 64,
                b < 64,
        ;
    }
}

/// The digit of all ones, shifted down to `n` bits, has the bits below `n`.
pub proof fn lemma_bit_low_mask(n: nat, j: nat)
    requires
        0 < n <= 64,
    ensures
        digit_bit(u64::MAX >> ((64 - n) as u64), j) == (j < n),
{
    if j < 64 {
        let a = (64 - n) as u64;
        let b = j as u64;
        assert((((0xffff_ffff_ffff_ffffu64 >> a) >> b) & 1 == 1) == (b < 64 - a)) by (bit_vector)
            requires
                a < 64,
                b < 64,
        ;
    }
}

/// A digit that is not zero has a one bit.
pub proof fn lemma_nonzero_has_bit(d: u64) -> (j: nat)
    requires
        d != 0,
    ensures
        j < 64,
        digit_bit(d, j),
        forall|i: nat| i < j ==> !digit_bit(d, i),
{
    axiom_u64_trailing_zeros(d);
    let t = u64_trailing_zeros(d);
    assert forall|i: nat| i < t implies !digit_bit(d, i) by {
        let k = i as u64;
        assert((d >> k) & 1u64 == 0u64);
    }
    t as nat
}

/// A digit that is not all ones has a zero bit.
pub proof fn lemma_not_max_has_zero(d: u64) -> (j: nat)
    requires
        d != u64::MAX,
    ensures
        j < 64,
        !digit_bit(d, j),
        forall|i: nat| i < j ==> digit_bit(d, i),
{
    axiom_u64_trailing_ones(d);
    let t = u64_trailing_ones(d);
    assert forall|i: nat| i < t implies digit_bit(d, i) by {
        let k = i as u64;
        assert((d >> k) & 1u64 == 1u64);
    }
    t as nat
}

/// Two digits with the same bits are the same digit.
pub proof fn lemma_digit_ext(a: u64, b: u64)
    requires
        forall|j: nat| j < 64 ==> digit_bit(a, j) == digit_bit(b, j),
    ensures
        a == b,
{
    if a != b {
        assert(a ^ b != 0) by (bit_vector)
            requires
                a != b,
        ;
        let j = lemma_nonzero_has_bit(a ^ b);
        lemma_bit_xor(a, b, j);
    }
}

/// The mask with the single bit `j` set.
pub fn bit_mask(j: usize) -> (m: u64)
    requires
        j < 64,
    ensures
        m == 1u64 << (j as u64),
        forall|i: nat| digit_bit(m, i) == (i == j),
{
    let m: u64 = 1u64 << (j as u64);
    proof {
        assert forall|i: nat| digit_bit(m, i) == (i == j) by {
            lemma_bit_single(j as nat, i);
        }
    }
    m
}

/// Reads bit `j` of the digit `d`.
pub fn test_bit(d: u64, j: usize) -> (r: bool)
    requires
        j < 64,
    ensures
        r == digit_bit(d, j as nat),
{
    let k: u64 = j as u64;
    proof {
        assert(((d & (1u64 << k)) != 0) == ((d >> k) & 1 == 1)) by (bit_vector)
            requires
                k < 64,
        ;
    }
    (d & (1u64 << k)) != 0
}

/// The mask with the lowest `n` bits set.
pub fn low_mask(n: usize) -> (m: u64)
    requires
        0 < n <= 64,
    ensures
        m == u64::MAX >> ((64 - n) as u64),
        forall|i: nat| digit_bit(m, i) == (i < n),
{
    let m: u64 = u64::MAX >> ((64 - n) as u64);
    proof {
        assert forall|i: nat| digit_bit(m, i) == (i < n) by {
            lemma_bit_low_mask(n as nat, i);
        }
    }
    m
}

/// The index of the lowest one bit of `d`, and 64 where it has none.
pub open spec fn low_one(d: u64) -> nat {
    u64_trailing_zeros(d) as nat
}

/// The index of the lowest zero bit of `d`, and 64 where it has none.
pub open spec fn low_zero(d: u64) -> nat {
    u64_trailing_ones(d) as nat
}

/// The index of the lowest one bit of a digit that is not zero.
pub fn lowest_one(d: u64) -> (j: usize)
    requires
        d != 0,
    ensures
        j == low_one(d),
        j < 64,
        digit_bit(d, j as nat),
        forall|i: nat| i < j ==> !digit_bit(d, i),
{
    proof {
        let t = lemma_nonzero_has_bit(d);
        axiom_u64_trailing_zeros(d);
        if t != u64_trailing_zeros(d) as nat {
            if t < u64_trailing_zeros(d) {
                let k = t as u64;
                assert((d >> k) & 1u64 == 0u64);
            }
        }
    }
    d.trailing_zeros() as usize
}

/// The index of the lowest zero bit of a digit that is not all ones.
pub fn lowest_zero(d: u64) -> (j: usize)
    requires
        d != u64::MAX,
    ensures
        j == low_zero(d),
        j < 64,
        !digit_bit(d, j as nat),
        forall|i: nat| i < j ==> digit_bit(d, i),
{
    proof {
        let t = lemma_not_max_has_zero(d);
        axiom_u64_trailing_ones(d);
    }
    d.trailing_ones() as usize
}

} // verus!
