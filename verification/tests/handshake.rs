use f1r3x_serve::ws;

#[test]
fn the_handshake_accept_value_is_the_one_rfc_6455_gives() {
    // The worked example from RFC 6455 §1.3.
    let key = "dGhlIHNhbXBsZSBub25jZQ==";
    let d = ws::sha1(format!("{key}258EAFA5-E914-47DA-95CA-C5AB0DC85B11").as_bytes());
    assert_eq!(ws::b64(&d), "s3pPLMBiTxaQ9kYGzzhZRbK+xOo=");
}

#[test]
fn sha1_and_base64_agree_with_their_published_vectors() {
    let hex = |d: [u8; 20]| d.iter().map(|b| format!("{b:02x}")).collect::<String>();
    assert_eq!(
        hex(ws::sha1(b"abc")),
        "a9993e364706816aba3e25717850c26c9cd0d89d"
    );
    assert_eq!(
        hex(ws::sha1(b"")),
        "da39a3ee5e6b4b0d3255bfef95601890afd80709"
    );
    assert_eq!(ws::b64(b"f"), "Zg==");
    assert_eq!(ws::b64(b"fo"), "Zm8=");
    assert_eq!(ws::b64(b"foo"), "Zm9v");
    assert_eq!(ws::b64(b"foobar"), "Zm9vYmFy");
}
