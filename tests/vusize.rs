use rbq::vusize::{decode_usize, decoded_len, encode_usize_to_slice, encoded_len};

const USIZE_BYTES: usize = core::mem::size_of::<usize>();

fn encode(value: usize, len: usize) -> Vec<u8> {
    let mut out = vec![0xEEu8; len + 2];
    encode_usize_to_slice(value, len, &mut out);
    assert_eq!(&out[len..], &[0xEE, 0xEE]);
    out.truncate(len);
    out
}

#[test]
fn encoded_len_is_minimal() {
    assert_eq!(encoded_len(0), 1);
    assert_eq!(encoded_len(127), 1);
    assert_eq!(encoded_len(128), 2);
    assert_eq!(encoded_len(16383), 2);
    assert_eq!(encoded_len(16384), 3);
    assert_eq!(encoded_len((1 << 21) - 1), 3);
    assert_eq!(encoded_len(1 << 21), 4);
    assert_eq!(encoded_len(usize::MAX), USIZE_BYTES + 1);
}

#[test]
fn decoded_len_counts_trailing_zeros() {
    assert_eq!(decoded_len(0b0000_0001), 1);
    assert_eq!(decoded_len(0b0000_0011), 1);
    assert_eq!(decoded_len(0b0000_0010), 2);
    assert_eq!(decoded_len(0b1000_0000), 8);
    assert_eq!(decoded_len(0), 9);
}

#[test]
fn encodes_exact_bytes() {
    assert_eq!(encode(0, 1), vec![0x01]);
    assert_eq!(encode(1, 1), vec![0x03]);
    assert_eq!(encode(127, 1), vec![0xFF]);
    assert_eq!(encode(300, 2), vec![0xB2, 0x04]);
    assert_eq!(encode(3, 3), vec![0x1C, 0x00, 0x00]);
    let mut max = vec![if USIZE_BYTES == 8 { 0x00 } else { 0x10 }];
    max.extend_from_slice(&usize::MAX.to_le_bytes());
    assert_eq!(encode(usize::MAX, USIZE_BYTES + 1), max);
}

#[test]
fn decodes_exact_bytes() {
    assert_eq!(decode_usize(&[0x01]), 0);
    assert_eq!(decode_usize(&[0xB2, 0x04, 0x99]), 300);
    assert_eq!(decode_usize(&[0x1C, 0x00, 0x00]), 3);
}

#[test]
fn varint_round_trip() {
    let mut values: Vec<usize> = vec![0, 1, 2, 63, 64, 127, 128, 255, 256, 16383, 16384, usize::MAX, usize::MAX - 1];
    for shift in 0..usize::BITS {
        values.push(1usize << shift);
        values.push((1usize << shift) - 1);
    }
    for v in values {
        let n = encoded_len(v);
        for len in n..=USIZE_BYTES + 1 {
            let bytes = encode(v, len);
            assert_eq!(decoded_len(bytes[0]), len);
            assert_eq!(decode_usize(&bytes), v);
        }
        if n > 1 && n <= USIZE_BYTES {
            // one byte shorter cannot carry it
            assert!(v >> (7 * (n - 1)) != 0);
        }
    }
}
