use rsdict::RsDict;
use rsdict::RsDictIterator;
use rsdict::iter::clear_lower_bits;

fn collect_iter(mut it: RsDictIterator) -> Vec<u64> {
    let mut out = Vec::new();
    while let Some(x) = it.next() {
        out.push(x);
    }
    out
}

fn push_bits(r: &mut RsDict, bits: &[u8]) {
    for b in bits {
        r.push(*b == 1);
    }
}

#[test]
fn test_small_scenario() {
    let mut r = RsDict::new();
    push_bits(&mut r, &[1, 0, 1, 1, 0, 0, 0, 1]);
    assert_eq!(r.len(), 8);
    assert_eq!(r.count_ones(), 4);
    assert_eq!(r.count_zeros(), 4);
    assert_eq!(r.select1(0), Some(0));
    assert_eq!(r.select1(1), Some(2));
    assert_eq!(r.select1(2), Some(3));
    assert_eq!(r.select1(3), Some(7));
    assert_eq!(r.select1(4), None);
    assert_eq!(r.rank(5, true), 3);
    assert_eq!(r.rank(5, false), 2);
    assert_eq!(collect_iter(r.iter()), vec![0, 2, 3, 7]);
    assert_eq!(collect_iter(r.iter_in_range(1..4).unwrap()), vec![2, 3]);
}

#[test]
fn test_empty() {
    let r = RsDict::new();
    assert_eq!(r.len(), 0);
    assert_eq!(r.count_ones(), 0);
    assert_eq!(r.count_zeros(), 0);
    assert_eq!(r.select1(0), None);
    assert_eq!(r.select0(0), None);
    assert_eq!(r.rank(0, true), 0);
    assert_eq!(r.rank(0, false), 0);
    assert_eq!(collect_iter(r.iter()), Vec::<u64>::new());
    assert!(r.iter_in_range(0..10).is_none());
}

#[test]
fn test_with_capacity() {
    let mut r = RsDict::with_capacity(1000);
    assert_eq!(r.len(), 0);
    push_bits(&mut r, &[0, 1]);
    assert_eq!(r.select1(0), Some(1));
    assert_eq!(r.select0(0), Some(0));
}

#[test]
fn test_block_boundaries() {
    // Exactly one committed block, then a little more.
    let mut r = RsDict::new();
    for i in 0..64 {
        r.push(i % 3 == 0);
    }
    assert_eq!(r.len(), 64);
    let expected: Vec<u64> = (0..64).filter(|i| i % 3 == 0).collect();
    assert_eq!(collect_iter(r.iter()), expected);
    assert_eq!(r.rank(64, true), expected.len() as u64);
    r.push(true);
    assert_eq!(r.select1(expected.len() as u64), Some(64));
    assert_eq!(collect_iter(r.iter_in_range(63..65).unwrap()), vec![63, 64]);
}

#[test]
fn test_all_ones_and_all_zeros() {
    let mut ones = RsDict::new();
    let mut zeros = RsDict::new();
    for _ in 0..200 {
        ones.push(true);
        zeros.push(false);
    }
    assert_eq!(ones.count_ones(), 200);
    assert_eq!(ones.rank(200, true), 200);
    assert_eq!(ones.select1(199), Some(199));
    assert_eq!(ones.select0(0), None);
    assert_eq!(zeros.count_zeros(), 200);
    assert_eq!(zeros.rank(200, false), 200);
    assert_eq!(zeros.select0(199), Some(199));
    assert_eq!(zeros.select1(0), None);
    assert_eq!(collect_iter(zeros.iter()), Vec::<u64>::new());
}

#[test]
fn test_rank_totals_and_duality() {
    let mut r = RsDict::new();
    let mut seed: u64 = 0x12345678;
    for _ in 0..3000 {
        seed = seed.wrapping_mul(6364136223846793005).wrapping_add(1442695040888963407);
        r.push((seed >> 33) & 1 == 1);
    }
    let n = r.len() as u64;
    assert_eq!(r.rank(n, true), r.count_ones() as u64);
    assert_eq!(r.rank(n, false), r.count_zeros() as u64);
    let mut prev = 0u64;
    for p in 0..=n {
        let rp = r.rank(p, true);
        assert!(rp >= prev);
        prev = rp;
    }
    for k in 0..r.count_ones() as u64 {
        let p = r.select1(k).unwrap();
        assert_eq!(r.rank(p, true), k);
        assert_eq!(r.rank(p + 1, true), k + 1);
    }
    for k in 0..r.count_zeros() as u64 {
        let p = r.select0(k).unwrap();
        assert_eq!(r.rank(p, false), k);
        assert_eq!(r.rank(p + 1, false), k + 1);
    }
}

#[test]
fn test_iter_matches_select() {
    let mut r = RsDict::new();
    for i in 0..500 {
        r.push(i % 7 == 2 || i % 11 == 5);
    }
    let listed = collect_iter(r.iter());
    assert_eq!(listed.len(), r.count_ones());
    for (k, p) in listed.iter().enumerate() {
        assert_eq!(r.select1(k as u64), Some(*p));
    }
}

#[test]
fn test_clear_lower_bits() {
    assert_eq!(clear_lower_bits(0b1011_0110, 0), 0b1011_0110);
    assert_eq!(clear_lower_bits(0b1011_0110, 3), 0b1011_0000);
    assert_eq!(clear_lower_bits(u64::MAX, 63), 1u64 << 63);
    assert_eq!(clear_lower_bits(0, 17), 0);
}

#[test]
fn test_iterator_constructors() {
    let mut r = RsDict::new();
    push_bits(&mut r, &[0, 1, 1, 0, 1]);
    let direct = collect_iter(RsDictIterator::new(&r));
    assert_eq!(direct, vec![1, 2, 4]);
    let ranged = collect_iter(RsDictIterator::new_in_range(&r, 2..5).unwrap());
    assert_eq!(ranged, vec![2, 4]);
    assert!(RsDictIterator::new_in_range(&r, 5..9).is_none());
}
