use rsdict::binomial::Tables;
use rsdict::enum_code::decode;
use rsdict::enum_code::encode;

#[test]
/// The enumerative coder is a bijection: decoding inverts encoding, and the
/// code fits in the stored width of its class.
fn test_codec_roundtrip() {
    let t = Tables::new();
    let samples: [u64; 12] = [
        0,
        1,
        u64::MAX,
        0x8000000000000000,
        0xdeadbeefdeadbeef,
        0x5555555555555555,
        0xaaaaaaaaaaaaaaaa,
        0x0123456789abcdef,
        3,
        u64::MAX - 1,
        0x00000000ffffffff,
        0xffff0000ffff0000,
    ];
    for w in samples {
        let (class, code) = encode(w, &t);
        assert_eq!(class as u32, w.count_ones());
        let width = t.widths[class as usize];
        if width < 64 {
            assert!(code < (1u64 << width));
        }
        assert_eq!(decode(code, class, &t), w);
    }
}

#[test]
fn test_codec_degenerate_classes() {
    let t = Tables::new();
    // The two degenerate classes need no payload bits.
    assert_eq!(t.widths[0], 0);
    assert_eq!(t.widths[64], 0);
    assert_eq!(encode(0, &t), (0, 0));
    assert_eq!(encode(u64::MAX, &t), (64, 0));
}

#[test]
fn test_codec_orders_by_value() {
    let t = Tables::new();
    // Within one class, codes are ranks in increasing numeric order.
    let (c1, k1) = encode(0b0011, &t);
    let (c2, k2) = encode(0b0101, &t);
    let (c3, k3) = encode(0b0110, &t);
    assert_eq!(c1, 2);
    assert_eq!(c2, 2);
    assert_eq!(c3, 2);
    assert!(k1 < k2 && k2 < k3);
    assert_eq!(k1, 0);
}
