use bit_gossip::bitvec::atomic_bitvec::AtomicBitVec;
use bit_gossip::bitvec::BitVec;

fn ones_of(a: &AtomicBitVec) -> Vec<usize> {
    let mut it = a.iter_ones();
    let mut out = Vec::new();
    while let Some(i) = it.next() {
        out.push(i);
    }
    out
}

#[test]
fn atomic_zeros_and_one() {
    let a = AtomicBitVec::zeros(130);
    assert_eq!(a.0.len(), 3);
    assert!(a.is_zero());
    let a = AtomicBitVec::zeros(128);
    assert_eq!(a.0.len(), 2);
    let a = AtomicBitVec::one(70, 130);
    assert_eq!(a.0.len(), 3);
    assert!(a.get_bit(70));
    assert!(!a.get_bit(69));
    assert!(!a.is_zero());
    assert_eq!(a.digit(1), 1 << 6);
}

#[test]
fn atomic_set_get_clear() {
    let a = AtomicBitVec::zeros(200);
    a.set_bit(3, true);
    a.set_bit(64, true);
    a.set_bit(199, true);
    assert_eq!(ones_of(&a), vec![3, 64, 199]);
    a.set_bit(64, false);
    assert_eq!(ones_of(&a), vec![3, 199]);
    a.clear();
    assert!(a.is_zero());
    assert_eq!(ones_of(&a), Vec::<usize>::new());
}

#[test]
fn atomic_iter_zeros_ends_with_the_digits() {
    let a = AtomicBitVec::zeros(64);
    for i in 0..60 {
        a.set_bit(i, true);
    }
    let mut it = a.iter_zeros();
    let mut out = Vec::new();
    while let Some(i) = it.next() {
        out.push(i);
    }
    assert_eq!(out, vec![60, 61, 62, 63]);
}

#[test]
fn atomic_chunks() {
    let a = AtomicBitVec::zeros(128);
    for i in [1usize, 5, 9, 70, 100] {
        a.set_bit(i, true);
    }
    let mut chunks = a.iter_ones().chunks(2);
    assert_eq!(chunks.next(), Some(vec![1, 5]));
    assert_eq!(chunks.next(), Some(vec![9, 70]));
    assert_eq!(chunks.next(), Some(vec![100]));
    assert_eq!(chunks.next(), None);
    assert_eq!(chunks.next(), None);
    let mut chunks = a.iter_zeros().chunks(50);
    assert_eq!(chunks.next().map(|c| c.len()), Some(50));
    assert_eq!(chunks.next().map(|c| c.len()), Some(50));
    assert_eq!(chunks.next().map(|c| c.len()), Some(23));
    assert_eq!(chunks.next(), None);
}

#[test]
fn atomic_to_and_from_bitvec() {
    let mut bv = BitVec::zero();
    for i in [0usize, 65, 129] {
        bv.set_bit(i, true);
    }
    let a = AtomicBitVec::from_bitvec(&bv, 300);
    assert_eq!(a.0.len(), 5);
    assert_eq!(ones_of(&a), vec![0, 65, 129]);
    // the snapshot drops the zero digits at the end
    let back = a.into_bitvec();
    assert_eq!(back.0.len(), 3);
    assert!(back.eq(&bv));
    // digit arrays of different length are not equal
    assert!(!a.eq(&bv));
    let b = AtomicBitVec::from_bitvec(&bv, 192);
    assert!(b.eq(&bv));
}

#[test]
fn atomic_assign_and_or() {
    let a = AtomicBitVec::zeros(192);
    a.set_bit(150, true);
    let mut bv = BitVec::zero();
    bv.set_bit(7, true);
    // digits past the end of the right side are set to zero
    a.assign_from(&bv);
    assert_eq!(ones_of(&a), vec![7]);
    let mut more = BitVec::zero();
    more.set_bit(100, true);
    a.bitor_assign(&more);
    assert_eq!(ones_of(&a), vec![7, 100]);
    let b = AtomicBitVec::zeros(192);
    b.set_bit(8, true);
    b.bitor_assign_atomic(&a);
    assert_eq!(ones_of(&b), vec![7, 8, 100]);
    let mut x = BitVec::ones(10);
    x.bitand_not_assign_atomic(&b);
    let mut it = x.iter_ones();
    let mut left = Vec::new();
    while let Some(i) = it.next() {
        left.push(i);
    }
    assert_eq!(left, vec![0, 1, 2, 3, 4, 5, 6, 9]);
}

#[test]
fn atomic_truncate() {
    let mut a = AtomicBitVec::zeros(192);
    for i in [3usize, 66, 70, 130] {
        a.set_bit(i, true);
    }
    a.truncate(68);
    assert_eq!(a.0.len(), 2);
    assert_eq!(ones_of(&a), vec![3, 66]);
    a.truncate(64);
    assert_eq!(a.0.len(), 1);
    assert_eq!(ones_of(&a), vec![3]);
}

#[test]
fn atomic_without_digits() {
    let a = AtomicBitVec::zeros(0);
    assert_eq!(a.0.len(), 0);
    assert!(a.is_zero());
    assert!(a.eq(&BitVec::zero()));
    // a vector with a digit is not equal to one without
    assert!(!AtomicBitVec::zeros(64).eq(&BitVec::zero()));
    assert!(a.into_bitvec().is_zero());
}

#[test]
fn atomic_and_not_keeps_what_lies_past() {
    let rhs = AtomicBitVec::zeros(64);
    rhs.set_bit(3, true);
    rhs.set_bit(5, true);
    let mut x = BitVec::zero();
    x.set_bit(3, true);
    x.set_bit(4, true);
    x.set_bit(200, true);
    x.bitand_not_assign_atomic(&rhs);
    let mut it = x.iter_ones();
    let mut left = Vec::new();
    while let Some(i) = it.next() {
        left.push(i);
    }
    assert_eq!(left, vec![4, 200]);
}

#[test]
fn atomic_walk_keeps_the_digit_it_read() {
    let a = AtomicBitVec::zeros(128);
    a.set_bit(2, true);
    a.set_bit(9, true);
    a.set_bit(70, true);
    let mut it = a.iter_ones();
    assert_eq!(it.next(), Some(2));
    // what is written into a digit that the walk holds does not reach it
    a.set_bit(5, true);
    a.set_bit(9, false);
    a.set_bit(100, true);
    assert_eq!(it.next(), Some(9));
    assert_eq!(it.next(), Some(70));
    assert_eq!(it.next(), Some(100));
    assert_eq!(it.next(), None);
    assert_eq!(it.next(), None);
}
