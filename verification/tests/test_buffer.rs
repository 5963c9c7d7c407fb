use rsdict::bit_packed::BitPackedBuffer;

#[test]
/// Values pushed at any width come back bit-exact from any offset.
fn test_buffer_round_trip() {
    let mut buf = BitPackedBuffer::new();
    let mut expected: Vec<(usize, u8, u64)> = Vec::new();
    let mut offset = 0usize;
    let mut seed: u64 = 0x9e3779b97f4a7c15;
    for width in 0..=64u8 {
        seed = seed.wrapping_mul(6364136223846793005).wrapping_add(1442695040888963407);
        let value = if width == 64 {
            seed
        } else {
            seed & ((1u64 << width) - 1)
        };
        buf.push(value, width);
        expected.push((offset, width, value));
        offset += width as usize;
    }
    assert_eq!(buf.bit_length, offset);
    for (off, width, value) in expected {
        assert_eq!(buf.get(off, width), value);
    }
}

#[test]
fn test_buffer_spans_word_boundaries() {
    let mut buf = BitPackedBuffer::new();
    buf.push(0x3f, 6);
    buf.push(0x1ffffffffffffff, 61);
    buf.push(0, 3);
    buf.push(0x55, 8);
    assert_eq!(buf.get(0, 6), 0x3f);
    assert_eq!(buf.get(6, 61), 0x1ffffffffffffff);
    assert_eq!(buf.get(67, 3), 0);
    assert_eq!(buf.get(70, 8), 0x55);
}
