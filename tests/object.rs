use cndl::object::{object_id, to_hex};

#[test]
fn hex_of_bytes() {
    assert_eq!(to_hex(&[0x00, 0xFF, 0x1A, 0x9c]), "00ff1a9c");
    assert_eq!(to_hex(&[]), "");
}

#[test]
fn object_id_is_sha256_hex() {
    assert_eq!(object_id(b"abc"), "ba7816bf8f01cfea414140de5dae2223b00361a396177a9cb410ff61f20015ad");
    assert_eq!(object_id(b""), "e3b0c44298fc1c149afbf4c8996fb92427ae41e4649b934ca495991b7852b855");
}
