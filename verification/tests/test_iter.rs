use rsdict::RsDict;
use rsdict::RsDictIterator;

fn xorshift(mut x: u64) -> u64 {
    x ^= x << 13;
    x ^= x >> 7;
    x ^= x << 17;
    x
}

const SIZE: usize = 1_000_000;

fn collect_iter(mut it: RsDictIterator) -> Vec<u64> {
    let mut out = Vec::new();
    while let Some(x) = it.next() {
        out.push(x);
    }
    out
}

#[test]
/// Check that iteration reproduces the pushed set-bit positions over a long
/// pseudorandom sequence.
fn test_iter() {
    let mut r = RsDict::new();
    let mut seed = 0xdeadbeef;

    let mut vector = Vec::with_capacity(SIZE);

    for _ in 0..SIZE {
        seed = xorshift(seed);
        let val = (seed & 1) == 1;
        vector.push(val);
        r.push(val)
    }

    let indices: Vec<u64> = vector
        .iter()
        .enumerate()
        .filter(|(_i, x)| **x)
        .map(|(i, _x)| i as u64)
        .collect();

    assert_eq!(indices, collect_iter(r.iter()));
}

#[test]
/// Check range-bounded iteration against the set bits of the whole pushed
/// sequence that fall inside the queried window.
fn test_iter_in_range() {
    let mut r = RsDict::new();
    let mut seed = 0xc0febeef;
    let size = 100usize;

    let mut all_bits: Vec<bool> = Vec::new();

    for _ in 0..100 {
        let mut vector = Vec::with_capacity(size);
        let mut values = Vec::with_capacity(size);

        for i in 0..size {
            seed = xorshift(seed);
            let val = (seed & 1) == 1;
            vector.push(val);
            all_bits.push(val);
            r.push(val);
            if val {
                values.push(i);
            }
        }

        seed = xorshift(seed);
        let start = seed % (size + 9) as u64;
        let mut end = start;
        while end <= start {
            seed = xorshift(seed);
            end = seed % (size + 10) as u64;
        }

        let indices: Vec<usize> = all_bits
            .iter()
            .enumerate()
            .filter(|(i, x)| **x && (start..end).contains(&(*i as u64)))
            .map(|(i, _x)| i)
            .collect();

        let result: Vec<u64> = collect_iter(r.iter_in_range(start as u64..end as u64).unwrap());

        println!("$$$$$$$$$$$$$$$$$$$$$$$$$$$$$$$$$$$$$$$");
        println!("Start {:10} End {:10}", start, end);
        println!("Values: {:?}", values);
        println!("Truth:  {:?}", indices);
        println!("Result: {:?}", result);

        assert_eq!(indices.len(), result.len());
        for (a, b) in indices.iter().zip(result.iter()) {
            assert_eq!(*a, *b as usize);
        }
    }
}
