//! Base64.

use bunnymeshdb::util::{b64_decode, b64_encode, b64url_decode, b64url_encode};

#[test]
fn known_vectors() {
    assert_eq!(b64_encode(b""), "");
    assert_eq!(b64_encode(b"f"), "Zg");
    assert_eq!(b64_encode(b"fo"), "Zm8");
    assert_eq!(b64_encode(b"foo"), "Zm9v");
    assert_eq!(b64_encode(b"foob"), "Zm9vYg");
    assert_eq!(b64_encode(b"fooba"), "Zm9vYmE");
    assert_eq!(b64_encode(b"foobar"), "Zm9vYmFy");
    assert_eq!(b64_decode("Zm9vYmFy").unwrap(), b"foobar");
    assert_eq!(b64_decode("Zg").unwrap(), b"f");
    let data = [0u8, 255, 128, 42, 13, 10];
    assert_eq!(b64url_decode(&b64url_encode(&data)).unwrap(), data);
    assert_eq!(b64_decode(&b64_encode(&data)).unwrap(), data);
    assert!(b64_decode("!!!!").is_err());
    assert!(b64_decode("a").is_err(), "mod-4 == 1 invalid");
    assert!(b64_decode("Zm9vYg==ünï").is_err());
}

#[test]
fn url_alphabet_differs_from_standard() {
    let v = [0xfb, 0xff, 0x00];
    assert!(b64_encode(&v).contains('+'));
    assert!(!b64url_encode(&v).contains('+'));
    assert_eq!(b64url_decode(&b64url_encode(&v)).unwrap(), v);
}

#[test]
fn padding_is_optional() {
    assert_eq!(b64_decode("Zg==").unwrap(), b"f");
    assert_eq!(b64_decode("Zm8=").unwrap(), b"fo");
    assert_eq!(b64_decode("").unwrap(), b"");
}
