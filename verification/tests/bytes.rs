use ripdis::bytes::{bytes_eq, bytes_lt_exec, safe_format_bytes, split_lines_vec};
use ripdis::signature::Signature;

#[test]
fn test_safe_format_bytes_valid_utf8() {
    assert_eq!(safe_format_bytes(b"plain text"), "plain text");
    assert_eq!(safe_format_bytes("héllo wörld".as_bytes()), "héllo wörld");
    assert_eq!(safe_format_bytes(b""), "");
}

#[test]
fn test_safe_format_bytes_invalid_utf8() {
    assert_eq!(
        safe_format_bytes(&[31u8, 32, 255]),
        "INVALID UTF-8: [1F, 20, FF]"
    );
    assert_eq!(safe_format_bytes(&[0xffu8]), "INVALID UTF-8: [FF]");
    // A truncated multi-byte sequence falls back too.
    assert_eq!(
        safe_format_bytes(&[0xc3u8]),
        format!("INVALID UTF-8: {:02X?}", [0xc3u8])
    );
}

#[test]
fn test_safe_format_bytes_matches_debug_hex() {
    let bytes: Vec<u8> = vec![0, 1, 0x7f, 0x80, 0xfe, 0xff];
    assert_eq!(
        safe_format_bytes(&bytes),
        format!("INVALID UTF-8: {:02X?}", bytes.as_slice())
    );
}

#[test]
fn test_split_lines_like_str_lines() {
    let cases = [
        "",
        "one",
        "one\n",
        "one\ntwo",
        "a\n\nb\n\n\n",
        "crlf\r\nline\r\n",
        "trailing\r",
    ];
    for text in cases {
        let got = split_lines_vec(text.as_bytes());
        let expected: Vec<Vec<u8>> = text.lines().map(|l| l.as_bytes().to_vec()).collect();
        assert_eq!(got, expected, "splitting {:?}", text);
    }
}

#[test]
fn test_bytes_lt_order() {
    assert!(bytes_lt_exec(b"", b"a"));
    assert!(bytes_lt_exec(b"a", b"b"));
    assert!(bytes_lt_exec(b"a", b"aa"));
    assert!(bytes_lt_exec(b"foo2", b"foo3 "));
    assert!(!bytes_lt_exec(b"a", b"a"));
    assert!(!bytes_lt_exec(b"b", b"a"));
}

#[test]
fn test_bytes_eq() {
    assert!(bytes_eq(b"", b""));
    assert!(bytes_eq(b"abc", b"abc"));
    assert!(!bytes_eq(b"abc", b"abd"));
    assert!(!bytes_eq(b"abc", b"abcd"));
}

#[test]
fn test_render_marks_invalid_utf8() {
    // For any non-UTF-8 payload the rendering carries the literal marker
    // followed by the exact uppercase two-digit hex list of the bytes.
    let payload = [0x80u8, 0x00, 0xab];
    let rendered = ripdis::answers::Answer::from_bytes(&payload).safe_format();
    assert!(rendered.contains("INVALID UTF-8: [80, 00, AB]"));
}

#[test]
fn test_signature_safe_format() {
    assert_eq!(Signature::from("ipdisbeacon").safe_format(), "ipdisbeacon");
    assert_eq!(
        Signature::from_bytes(&[0xffu8, 0x41]).safe_format(),
        "INVALID UTF-8: [FF, 41]"
    );
}
