use kartei::osc52::{base64, sequence};

#[test]
fn base64_matches_rfc_4648_vectors() {
    for (input, expected) in [
        ("", ""),
        ("f", "Zg=="),
        ("fo", "Zm8="),
        ("foo", "Zm9v"),
        ("foob", "Zm9vYg=="),
        ("fooba", "Zm9vYmE="),
        ("foobar", "Zm9vYmFy"),
        ("Grüße 日本", "R3LDvMOfZSDml6XmnKw="),
    ] {
        assert_eq!(base64(input.as_bytes()), expected, "{input:?}");
    }
}

#[test]
fn sequence_wraps_the_base64_in_osc_52() {
    assert_eq!(sequence("foo"), "\x1b]52;c;Zm9v\x07");
}

#[test]
fn base64_uses_the_whole_alphabet() {
    assert_eq!(base64(&[0x00, 0x10, 0x83, 0x10, 0x51, 0x87]), "ABCDEFGH");
    assert_eq!(base64(&[0xfb, 0xff, 0xbf]), "+/+/");
    assert_eq!(base64(&[0xff]), "/w==");
}

#[test]
fn base64_length_is_four_per_three_bytes_begun() {
    for n in 0..10usize {
        let bytes = vec![0x61u8; n];
        assert_eq!(base64(&bytes).len(), 4 * n.div_ceil(3));
    }
}
