use cndl::{CodecError, DeltaEncoding};

#[test]
fn test_delta_encoding() {
    let buf = [0b00111111];
    let mut pos: usize = 0;
    let res = DeltaEncoding::decode(&buf, &mut pos).unwrap();
    assert_eq!(res, DeltaEncoding::Tiny(-1))
}

#[test]
fn from_basis_picks_narrowest_variant() {
    assert_eq!(DeltaEncoding::from_basis(0).unwrap(), DeltaEncoding::Tiny(0));
    assert_eq!(DeltaEncoding::from_basis(-8).unwrap(), DeltaEncoding::Tiny(-8));
    assert_eq!(DeltaEncoding::from_basis(7).unwrap(), DeltaEncoding::Tiny(7));
    assert_eq!(DeltaEncoding::from_basis(8).unwrap(), DeltaEncoding::Small(8));
    assert_eq!(DeltaEncoding::from_basis(-9).unwrap(), DeltaEncoding::Small(-9));
    assert_eq!(DeltaEncoding::from_basis(8191).unwrap(), DeltaEncoding::Small(8191));
    assert_eq!(DeltaEncoding::from_basis(-8192).unwrap(), DeltaEncoding::Small(-8192));
    assert_eq!(DeltaEncoding::from_basis(8192).unwrap(), DeltaEncoding::Large(8192));
    assert_eq!(DeltaEncoding::from_basis(-8193).unwrap(), DeltaEncoding::Large(-8193));
    assert_eq!(DeltaEncoding::from_basis(i32::MAX).unwrap(), DeltaEncoding::Large(i32::MAX));
    assert_eq!(DeltaEncoding::from_basis(i32::MIN).unwrap(), DeltaEncoding::Large(i32::MIN));
}

#[test]
fn to_basis_gives_the_value() {
    assert_eq!(DeltaEncoding::Tiny(-3).to_basis(), -3);
    assert_eq!(DeltaEncoding::Small(-4000).to_basis(), -4000);
    assert_eq!(DeltaEncoding::Large(123456).to_basis(), 123456);
}

#[test]
fn encode_writes_tagged_frames() {
    let mut buf = vec![0xAA];
    DeltaEncoding::Tiny(-1).encode(&mut buf);
    assert_eq!(buf, vec![0xAA, 0x0F]);

    let mut buf = Vec::new();
    DeltaEncoding::Small(50).encode(&mut buf);
    assert_eq!(buf, vec![0x72, 0x00]);

    let mut buf = Vec::new();
    DeltaEncoding::Small(-1).encode(&mut buf);
    assert_eq!(buf, vec![0x7F, 0xFF]);

    let mut buf = Vec::new();
    DeltaEncoding::Large(0x12345678).encode(&mut buf);
    assert_eq!(buf, vec![0xC0, 0x78, 0x56, 0x34, 0x12]);
}

#[test]
fn every_boundary_value_round_trips() {
    for bp in [-9000, -8193, -8192, -8191, -100, -9, -8, -1, 0, 1, 7, 8, 100, 8191, 8192, 9000, i32::MIN, i32::MAX] {
        let e = DeltaEncoding::from_basis(bp).unwrap();
        let mut buf = Vec::new();
        e.encode(&mut buf);
        let mut pos = 0usize;
        let d = DeltaEncoding::decode(&buf, &mut pos).unwrap();
        assert_eq!(d, e);
        assert_eq!(d.to_basis(), bp);
        assert_eq!(pos, buf.len());
    }
}

#[test]
fn decode_advances_past_each_frame() {
    let buf = [0x03, 0x72, 0x00, 0xC0, 0x01, 0x00, 0x00, 0x80];
    let mut pos = 0usize;
    assert_eq!(DeltaEncoding::decode(&buf, &mut pos).unwrap(), DeltaEncoding::Tiny(3));
    assert_eq!(pos, 1);
    assert_eq!(DeltaEncoding::decode(&buf, &mut pos).unwrap(), DeltaEncoding::Small(50));
    assert_eq!(pos, 3);
    assert_eq!(DeltaEncoding::decode(&buf, &mut pos).unwrap(), DeltaEncoding::Large(i32::MIN + 1));
    assert_eq!(pos, 8);
}

#[test]
fn decode_tag_10_reads_a_large_frame() {
    let buf = [0x80, 0x05, 0x00, 0x00, 0x00];
    let mut pos = 0usize;
    assert_eq!(DeltaEncoding::decode(&buf, &mut pos).unwrap(), DeltaEncoding::Large(5));
    assert_eq!(pos, 5);
}

#[test]
fn decode_reports_underrun() {
    let mut pos = 0usize;
    assert_eq!(DeltaEncoding::decode(&[], &mut pos), Err(CodecError::DeltaUnderrun));
    assert_eq!(pos, 0);
    let mut pos = 0usize;
    assert_eq!(DeltaEncoding::decode(&[0x41], &mut pos), Err(CodecError::DeltaUnderrun));
    assert_eq!(pos, 0);
    let mut pos = 1usize;
    assert_eq!(DeltaEncoding::decode(&[0x00, 0xC0, 1, 2, 3], &mut pos), Err(CodecError::DeltaUnderrun));
    assert_eq!(pos, 1);
}
