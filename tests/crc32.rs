use cndl::Crc32;

#[test]
fn test_crc32() {
    let crc = Crc32::new();
    let data: Vec<u8> = vec![0xC0, 0xFF, 0xEE];
    let checksum = crc.checksum(&data);
    assert_eq!(checksum, 0xBA787D5F)
}

#[test]
fn crc32_of_empty_input_is_zero() {
    assert_eq!(Crc32::new().checksum(&[]), 0);
}

#[test]
fn crc32_check_value() {
    assert_eq!(Crc32::new().checksum(b"123456789"), 0xCBF43926);
}

#[test]
fn crc32_default_matches_new() {
    let a = Crc32::default();
    let b = Crc32::new();
    assert_eq!(a.checksum(b"tick"), b.checksum(b"tick"));
}

#[test]
fn crc32_detects_every_single_bit_flip() {
    let crc = Crc32::new();
    let data: Vec<u8> = (0u8..40).collect();
    let base = crc.checksum(&data);
    for i in 0..data.len() {
        for bit in 0..8 {
            let mut d = data.clone();
            d[i] ^= 1 << bit;
            assert_ne!(crc.checksum(&d), base);
        }
    }
}
