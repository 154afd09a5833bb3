use droplet::checksum::{sha256_hex, to_hex};

#[test]
fn hex_renders_two_digits_per_byte() {
    assert_eq!(to_hex(&vec![]), "");
    assert_eq!(to_hex(&vec![0x00, 0xff, 0x1a]), "00ff1a");
    assert_eq!(to_hex(&vec![0x0f, 0xf0]), "0ff0");
}

#[test]
fn sha256_hex_matches_the_published_test_vector() {
    assert_eq!(
        sha256_hex(&b"abc".to_vec()),
        "ba7816bf8f01cfea414140de5dae2223b00361a396177a9cb410ff61f20015ad"
    );
    assert_eq!(
        sha256_hex(&Vec::new()),
        "e3b0c44298fc1c149afbf4c8996fb92427ae41e4649b934ca495991b7852b855"
    );
}
