use bytes::{BufMut, BytesMut};
use srp::{ProtoError, TargetAddr};

fn roundtrip(a: TargetAddr) {
    let mut buf = BytesMut::new();
    a.encode(&mut buf);
    assert_eq!(buf.len(), a.encoded_len(), "encoded_len mismatch for {a:?}");
    let mut cursor = buf.clone();
    let out = TargetAddr::decode(&mut cursor).expect("decode");
    assert_eq!(out, a);
    assert_eq!(cursor.len(), 0, "leftover bytes");
}

#[test]
fn roundtrips_all_kinds() {
    roundtrip(TargetAddr::V4([127, 0, 0, 1], 8080));
    roundtrip(TargetAddr::V6([0u8; 16], 443));
    roundtrip(TargetAddr::Domain("example.com".into(), 80));
}

#[test]
fn rejects_truncated_and_bad_kind() {
    let mut b = BytesMut::from(&[TargetAddr::KIND_V4, 1, 2][..]);
    assert!(matches!(
        TargetAddr::decode(&mut b),
        Err(ProtoError::Truncated)
    ));

    let mut b = BytesMut::from(&[9u8, 0, 0][..]);
    assert!(matches!(
        TargetAddr::decode(&mut b),
        Err(ProtoError::BadAddrKind(9))
    ));
}

#[test]
fn rejects_non_utf8_domain() {
    let mut buf = BytesMut::new();
    buf.put_u8(TargetAddr::KIND_DOMAIN);
    buf.put_u8(2);
    buf.put_slice(&[0xff, 0xfe]);
    buf.put_u16(80);
    assert!(matches!(
        TargetAddr::decode(&mut buf),
        Err(ProtoError::BadDomain)
    ));
}

#[test]
fn host_string_matches_display_for_domain() {
    let a = TargetAddr::Domain("srv.internal".into(), 22);
    assert_eq!(a.host_string(), "srv.internal");
    assert_eq!(a.display(), "srv.internal:22");
    assert_eq!(a.port(), 22);
}

#[test]
fn the_encoded_length_counts_bytes() {
    let cases = [
        (TargetAddr::V4([10, 0, 0, 1], 1), 7),
        (TargetAddr::V6([1u8; 16], 1), 19),
        (TargetAddr::Domain("example.com".into(), 1), 15),
        (TargetAddr::Domain("m\u{fc}nchen.de".into(), 1), 15),
    ];
    for (addr, len) in cases {
        assert_eq!(addr.encoded_len(), len);
        let mut buf = BytesMut::from(&b"before"[..]);
        addr.encode(&mut buf);
        assert_eq!(buf.len(), 6 + len);
    }
}
