use rsdict::RsDict;
use rsdict::RsDictIterator;

fn xorshift(mut x: u64) -> u64 {
    x ^= x << 13;
    x ^= x >> 7;
    x ^= x << 17;
    x
}

fn collect_iter(mut it: RsDictIterator) -> Vec<u64> {
    let mut out = Vec::new();
    while let Some(x) = it.next() {
        out.push(x);
    }
    out
}

/// A naive reference: the raw bit vector, scanned in full for every query.
struct Naive {
    bits: Vec<bool>,
}

impl Naive {
    fn rank(&self, pos: usize, b: bool) -> u64 {
        self.bits[..pos].iter().filter(|x| **x == b).count() as u64
    }

    fn select(&self, k: u64, b: bool) -> Option<u64> {
        let mut seen = 0u64;
        for (i, x) in self.bits.iter().enumerate() {
            if *x == b {
                if seen == k {
                    return Some(i as u64);
                }
                seen += 1;
            }
        }
        None
    }
}

#[test]
/// Cross-check every rank and select result on a fixed pseudorandom sequence
/// against the naive reference.
fn test_cross_check_random() {
    let mut r = RsDict::new();
    let mut naive = Naive { bits: Vec::new() };
    let mut seed = 0xdeadbeefu64;
    const N: usize = 10_000;
    for _ in 0..N {
        seed = xorshift(seed);
        let val = seed & 1 == 1;
        r.push(val);
        naive.bits.push(val);
    }
    assert_eq!(r.len(), N);
    assert_eq!(r.count_ones() as u64, naive.rank(N, true));
    assert_eq!(r.count_zeros() as u64, naive.rank(N, false));
    for p in 0..=N {
        assert_eq!(r.rank(p as u64, true), naive.rank(p, true));
        assert_eq!(r.rank(p as u64, false), naive.rank(p, false));
    }
    for k in 0..=r.count_ones() as u64 {
        assert_eq!(r.select1(k), naive.select(k, true));
    }
    for k in 0..=r.count_zeros() as u64 {
        assert_eq!(r.select0(k), naive.select(k, false));
    }
    let expected: Vec<u64> =
        (0..N).filter(|i| naive.bits[*i]).map(|i| i as u64).collect();
    assert_eq!(collect_iter(r.iter()), expected);

    let mut s2 = 0xfeedfaceu64;
    for _ in 0..50 {
        s2 = xorshift(s2);
        let a = s2 % (N as u64 + 5);
        s2 = xorshift(s2);
        let b = s2 % (N as u64 + 5);
        let window: Vec<u64> =
            expected.iter().cloned().filter(|x| a <= *x && *x < b).collect();
        match r.iter_in_range(a..b) {
            Some(it) => assert_eq!(collect_iter(it), window),
            None => {
                assert!(a >= N as u64);
                assert!(window.is_empty());
            },
        }
    }
}
