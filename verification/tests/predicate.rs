use libhf::is_zero_terminated;
use libhf::messages::HashFound;

#[test]
fn zero() {
    let zeroed = [0u8; 32];
    for i in 1..=64 {
        assert!(is_zero_terminated(zeroed.as_slice(), i));
    }
}

#[test]
fn no_tail_zero() {
    let v = &[
        1, 2, 3, 4, 5, 6, 7, 8, 9, 0, 1, 2, 3, 4, 5, 6, 7, 8, 9, 0, 1, 2, 3, 4, 5, 6, 7, 8, 9, 2,
        3, 21,
    ];
    for i in 1..=64 {
        assert!(!is_zero_terminated(v.as_slice(), i));
    }
}

#[test]
fn single_tail_zero() {
    let v = &[
        1, 2, 3, 4, 5, 6, 7, 8, 9, 0, 1, 2, 3, 4, 5, 6, 7, 8, 9, 0, 1, 2, 3, 4, 5, 6, 7, 8, 9, 2,
        3, 48,
    ];
    assert!(is_zero_terminated(v.as_slice(), 1));
    for i in 2..=64 {
        assert!(!is_zero_terminated(v.as_slice(), i));
    }
}

#[test]
fn even_tail_zeroes() {
    let v = &[
        1, 2, 3, 4, 5, 6, 7, 8, 9, 0, 1, 2, 3, 4, 5, 6, 7, 8, 9, 0, 1, 2, 3, 4, 5, 6, 7, 8, 9, 2,
        3, 0u8,
    ];
    assert!(is_zero_terminated(v.as_slice(), 1));
    assert!(is_zero_terminated(v.as_slice(), 2));
    for i in 3..=64 {
        assert!(!is_zero_terminated(v.as_slice(), i));
    }
}

#[test]
fn odd_tail_zeroes() {
    let v = &[
        1, 2, 3, 4, 5, 6, 7, 8, 9, 0, 1, 2, 3, 4, 5, 6, 7, 8, 9, 0, 1, 2, 3, 4, 5, 6, 7, 8, 9, 2,
        16, 0u8,
    ];
    assert!(is_zero_terminated(v.as_slice(), 1));
    assert!(is_zero_terminated(v.as_slice(), 2));
    assert!(is_zero_terminated(v.as_slice(), 3));
    for i in 4..=64 {
        assert!(!is_zero_terminated(v.as_slice(), i));
    }
}

#[test]
fn boundary_byte_with_high_nibble_only() {
    // 0x30: the low nibble is zero, the high nibble is not.
    let mut v = [7u8; 32];
    v[31] = 0x30;
    assert!(is_zero_terminated(v.as_slice(), 1));
    for i in 2..=64 {
        assert!(!is_zero_terminated(v.as_slice(), i));
    }
}

#[test]
fn hex_of_zero_digest() {
    let h = HashFound { digit: 0, hash: [0u8; 32] };
    let hex: Vec<u8> = h.hex_hash();
    assert_eq!(hex.len(), 64);
    assert!(hex.iter().all(|&b| b == b'0'));
}

#[test]
fn hex_of_known_bytes() {
    let mut hash = [0u8; 32];
    for i in 0..32 {
        hash[i] = (i as u8) * 8 + 3;
    }
    let h = HashFound { digit: 1, hash };
    let hex: String = h.hex_hash().into_iter().map(|b| b as char).collect();
    let expected: String = hash.iter().map(|b| format!("{:02x}", b)).collect();
    assert_eq!(hex, expected);
    assert_eq!(&hex[..6], "030b13");
}
