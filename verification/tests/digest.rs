//! Digests with known values.

use roomeq_temporal::digest::{append_bytes, append_samples, hex_text, samples_sha256, sha256};

#[test]
fn digest_of_the_empty_message() {
    assert_eq!(
        sha256(b""),
        "e3b0c44298fc1c149afbf4c8996fb92427ae41e4649b934ca495991b7852b855"
    );
}

#[test]
fn digest_of_three_letters() {
    assert_eq!(
        sha256(b"abc"),
        "ba7816bf8f01cfea414140de5dae2223b00361a396177a9cb410ff61f20015ad"
    );
}

#[test]
fn bytes_are_written_in_two_digits_each() {
    assert_eq!(hex_text(&[0, 1, 0x0f, 0xa0, 0xff]), "00010fa0ff");
}

#[test]
fn samples_are_digested_low_byte_first() {
    let samples = [1.0_f32, -0.5, 0.0];
    let bits: Vec<u32> = samples.iter().map(|sample| sample.to_bits()).collect();
    let mut expected = Vec::new();
    for sample in samples {
        expected.extend_from_slice(&sample.to_le_bytes());
    }
    let mut bytes = vec![7];
    append_samples(&mut bytes, &bits);
    assert_eq!(bytes[1..], expected[..]);
    append_bytes(&mut bytes, b"x");
    assert_eq!(bytes.last(), Some(&b'x'));
    assert_eq!(samples_sha256(&bits), sha256(&expected));
}
