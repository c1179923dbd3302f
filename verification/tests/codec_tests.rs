use auth_core::base64url::{b64url_decode_range, b64url_encode};

#[test]
fn base64url_known_vectors() {
    assert_eq!(b64url_encode(b"f"), b"Zg".to_vec());
    assert_eq!(b64url_encode(b"fo"), b"Zm8".to_vec());
    assert_eq!(b64url_encode(b"foo"), b"Zm9v".to_vec());
    assert_eq!(b64url_encode(b""), Vec::<u8>::new());
    // bytes that need the url-safe alphabet
    assert_eq!(b64url_encode(&[0xfb, 0xff]), b"-_8".to_vec());
}

#[test]
fn base64url_round_trip() {
    let data: Vec<u8> = (0u16..=255).map(|b| b as u8).collect();
    for take in [0, 1, 2, 3, 10, 255, 256] {
        let enc = b64url_encode(&data[..take]);
        let dec = b64url_decode_range(&enc, 0, enc.len()).unwrap();
        assert_eq!(dec, &data[..take]);
    }
}

#[test]
fn base64url_rejects_non_canonical_input() {
    // padding, characters outside the alphabet, a leftover single
    // character, and non-zero trailing bits are all rejected
    for bad in ["Zm8=", "Zm9v!", "Z", "Zh"] {
        assert!(b64url_decode_range(bad.as_bytes(), 0, bad.len()).is_none());
    }
    // the canonical form of the same group is accepted
    assert!(b64url_decode_range(b"Zg", 0, 2).is_some());
}
