use bit_gossip::bitvec::BitVec;

fn take_zeros(bv: &BitVec, n: usize) -> Vec<usize> {
    let mut it = bv.iter_zeros();
    let mut out = Vec::new();
    for _ in 0..n {
        match it.next() {
            Some(i) => out.push(i),
            None => break,
        }
    }
    out
}

fn all_ones(bv: &BitVec) -> Vec<usize> {
    let mut it = bv.iter_ones();
    let mut out = Vec::new();
    while let Some(i) = it.next() {
        out.push(i);
    }
    out
}

#[test]
fn test_iter_zeros() {
    let mut bv = BitVec::zero();
    bv.set_bit(0, true);
    bv.set_bit(2, true);
    bv.set_bit(3, true);
    bv.set_bit(5, true);
    bv.set_bit(7, true);
    bv.set_bit(8, true);
    bv.set_bit(10, true);
    bv.set_bit(12, true);

    let zeros: Vec<_> = take_zeros(&bv, 8);
    assert_eq!(zeros, vec![1, 4, 6, 9, 11, 13, 14, 15]);
    println!("{:?}", zeros);
    println!("{bv:?}");

    let bv = BitVec::ones(2);
    let zeros: Vec<_> = take_zeros(&bv, 14);
    assert_eq!(zeros, (2..16).collect::<Vec<_>>());

    println!("{:?}", zeros);
    println!("{bv:?}");

    let bv = BitVec::ones(17);
    let zeros: Vec<_> = take_zeros(&bv, 2);
    assert_eq!(zeros, vec![17, 18]);

    println!("{:?}", zeros);
    println!("{bv:?}");
}

#[test]
fn bitvec_test_iter_zeros() {
    let mut bv = BitVec::zero();
    bv.set_bit(0, true);
    bv.set_bit(2, true);
    bv.set_bit(3, true);
    bv.set_bit(5, true);
    bv.set_bit(7, true);
    bv.set_bit(8, true);
    bv.set_bit(10, true);
    bv.set_bit(12, true);

    let zeros: Vec<_> = take_zeros(&bv, 8);
    assert_eq!(zeros, vec![1, 4, 6, 9, 11, 13, 14, 15]);
    println!("{:?}", zeros);
    println!("{bv:?}");

    let bv = BitVec::ones(2);
    let zeros: Vec<_> = take_zeros(&bv, 14);
    assert_eq!(zeros, (2..16).collect::<Vec<_>>());

    println!("{:?}", zeros);
    println!("{bv:?}");

    let bv = BitVec::ones(17);
    let zeros: Vec<_> = take_zeros(&bv, 2);
    assert_eq!(zeros, vec![17, 18]);

    println!("{:?}", zeros);
    println!("{bv:?}");
}

#[test]
fn iter_zeros_goes_on_past_the_digits() {
    let bv = BitVec::ones(64);
    assert_eq!(bv.0.len(), 1);
    assert_eq!(take_zeros(&bv, 5), vec![64, 65, 66, 67, 68]);
    let empty = BitVec::zero();
    assert_eq!(take_zeros(&empty, 3), vec![0, 1, 2]);
}

#[test]
fn iter_ones_ascends() {
    let mut bv = BitVec::zero();
    for i in [200usize, 3, 64, 63, 127, 128, 0] {
        bv.set_bit(i, true);
    }
    assert_eq!(all_ones(&bv), vec![0, 3, 63, 64, 127, 128, 200]);
    assert_eq!(bv.count_ones(), 7);
    assert_eq!(all_ones(&BitVec::zero()), Vec::<usize>::new());
}

#[test]
fn one_and_ones() {
    let bv = BitVec::one(70);
    assert_eq!(bv.0, vec![0, 1 << 6]);
    assert!(bv.get_bit(70));
    assert!(!bv.get_bit(69));
    assert!(!bv.get_bit(7000));
    let bv = BitVec::ones(66);
    assert_eq!(bv.0, vec![u64::MAX, 3]);
    let bv = BitVec::ones(128);
    assert_eq!(bv.0, vec![u64::MAX, u64::MAX]);
    assert!(BitVec::ones(0).is_zero());
    assert!(BitVec::with_capacity(4).is_zero());
}

#[test]
fn set_bit_normalizes() {
    let mut bv = BitVec::zero();
    bv.set_bit(130, true);
    assert_eq!(bv.0.len(), 3);
    bv.set_bit(130, false);
    assert!(bv.is_zero());
    assert_eq!(bv.0.len(), 0);
    // clearing a bit past the end changes nothing
    bv.set_bit(500, false);
    assert!(bv.is_zero());
    bv.set_bit(1, true);
    bv.clear();
    assert!(bv.is_zero());
}

#[test]
fn or_then_and_not_is_difference() {
    let mut a = BitVec::zero();
    for i in [1usize, 5, 64, 200] {
        a.set_bit(i, true);
    }
    let mut b = BitVec::zero();
    for i in [5usize, 6, 200, 300] {
        b.set_bit(i, true);
    }
    let mut left = a.clone();
    left.bitor_assign(&b);
    assert_eq!(all_ones(&left), vec![1, 5, 6, 64, 200, 300]);
    left.bitand_not_assign(&b);
    let mut right = a.clone();
    right.bitand_not_assign(&b);
    assert!(left.eq(&right));
    assert_eq!(all_ones(&left), vec![1, 64]);
}

#[test]
fn fused_combinators() {
    let mut a = BitVec::one(0);
    let mut b = BitVec::zero();
    for i in [1usize, 2, 70] {
        b.set_bit(i, true);
    }
    let mut c = BitVec::zero();
    for i in [2usize, 3, 70, 140] {
        c.set_bit(i, true);
    }
    // a |= b & c
    a.bitor_and_assign(&b, &c);
    assert_eq!(all_ones(&a), vec![0, 2, 70]);
    // a |= !b & c: the bits of c past the end of b count too
    let mut a = BitVec::one(0);
    a.bitor_not_and_assign(&b, &c);
    assert_eq!(all_ones(&a), vec![0, 3, 140]);
}

#[test]
fn and_xor_not() {
    let mut a = BitVec::zero();
    for i in [1usize, 2, 100] {
        a.set_bit(i, true);
    }
    let mut b = BitVec::zero();
    for i in [2usize, 3] {
        b.set_bit(i, true);
    }
    let mut x = a.clone();
    x.bitand_assign(&b);
    assert_eq!(all_ones(&x), vec![2]);
    let mut x = a.clone();
    x.bitxor_assign(&b);
    assert_eq!(all_ones(&x), vec![1, 3, 100]);
    let mut x = BitVec::zero();
    x.bitxor_assign(&b);
    assert_eq!(all_ones(&x), vec![2, 3]);
    let mut x = a.clone();
    x.bitxor_assign(&a);
    assert!(x.is_zero());
    // complement of the lowest 5 bits
    let n = a.not(5);
    assert_eq!(all_ones(&n), vec![0, 3, 4]);
    let n = BitVec::zero().not(66);
    assert!(n.eq(&BitVec::ones(66)));
    let mut m = BitVec::ones(130);
    m.not_assign(64);
    assert!(m.is_zero());
}

#[test]
fn iter_ones_of_a_digit_boundary() {
    let mut bv = BitVec::zero();
    bv.set_bit(63, true);
    bv.set_bit(64, true);
    let mut it = bv.iter_ones();
    assert_eq!(it.next(), Some(63));
    assert_eq!(it.next(), Some(64));
    assert_eq!(it.next(), None);
    assert_eq!(it.next(), None);
}

#[test]
fn equal_vectors_have_equal_digits() {
    let mut a = BitVec::ones(70);
    let b = BitVec::ones(70);
    assert!(a.eq(&b));
    a.set_bit(69, false);
    assert!(!a.eq(&b));
    a.set_bit(69, true);
    assert!(a.eq(&b));
    a.normalize();
    assert_eq!(a.0, b.0);
    let mut c = a.clone();
    c.set_bit(200, true);
    assert!(!a.eq(&c));
    assert!(c.is_zero_without(200) == false);
    assert!(BitVec::one(200).is_zero_without(200));
}
