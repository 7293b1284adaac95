use tnviz::md5::md5_hex;

#[test]
fn rfc_1321_vectors() {
    assert_eq!(md5_hex(b""), "D41D8CD98F00B204E9800998ECF8427E");
    assert_eq!(md5_hex(b"abc"), "900150983CD24FB0D6963F7D28E17F72");
    assert_eq!(md5_hex(b"message digest"), "F96B697D7CB7938D525A2F31AAF161D0");
    assert_eq!(
        md5_hex(b"12345678901234567890123456789012345678901234567890123456789012345678901234567890"),
        "57EDF4A22BE3C955AC49DA2E2107B67A"
    );
    // What TeX gave for the file "hello\n".
    assert_eq!(md5_hex(b"hello\n"), "B1946AC92492D2347C6235B4D2611184");
}

#[test]
fn digests_are_thirty_two_upper_hex_digits() {
    for data in [&b""[..], b"a", b"tensor network", &[0u8, 255, 7, 128][..]] {
        let h = md5_hex(data);
        assert_eq!(h.len(), 32);
        assert!(h.chars().all(|c| c.is_ascii_digit() || ('A'..='F').contains(&c)), "{h}");
    }
}
