use srp::ip::{parse_ip, parse_ipv4, parse_ipv6, Ip};
use srp::{ProtoError, ResetCode, ResumeError, TargetAddr};

fn chars(s: &str) -> Vec<char> {
    s.chars().collect()
}

fn v6(groups: [u16; 8]) -> [u8; 16] {
    let mut o = [0u8; 16];
    for (i, g) in groups.iter().enumerate() {
        o[2 * i] = (g >> 8) as u8;
        o[2 * i + 1] = (g & 0xff) as u8;
    }
    o
}

#[test]
fn dotted_addresses_are_read_strictly() {
    assert_eq!(parse_ipv4(&chars("127.0.0.1")), Some([127, 0, 0, 1]));
    assert_eq!(parse_ipv4(&chars("255.255.255.255")), Some([255; 4]));
    for bad in ["", "1.2.3", "1.2.3.4.5", "256.0.0.1", "01.2.3.4", "1..2.3", "a.b.c.d", "1.2.3.4 "] {
        assert_eq!(parse_ipv4(&chars(bad)), None, "{bad:?}");
    }
}

#[test]
fn colon_addresses_are_read() {
    let cases = [
        ("::", v6([0; 8])),
        ("::1", v6([0, 0, 0, 0, 0, 0, 0, 1])),
        ("1::", v6([1, 0, 0, 0, 0, 0, 0, 0])),
        ("2001:DB8::A:b", v6([0x2001, 0xdb8, 0, 0, 0, 0, 0xa, 0xb])),
        ("1:2:3:4:5:6:7:8", v6([1, 2, 3, 4, 5, 6, 7, 8])),
        ("1:2:3:4:5:6:7::", v6([1, 2, 3, 4, 5, 6, 7, 0])),
        ("::ffff:1.2.3.4", v6([0, 0, 0, 0, 0, 0xffff, 0x102, 0x304])),
        ("1:2:3:4:5:6:1.2.3.4", v6([1, 2, 3, 4, 5, 6, 0x102, 0x304])),
    ];
    for (text, want) in cases {
        assert_eq!(parse_ipv6(&chars(text)), Some(want), "{text}");
    }
    for bad in [
        "", ":", ":::", "1:2:3:4:5:6:7", "1:2:3:4:5:6:7:8:9", "1::2::3", "12345::", "g::",
        "1:2:3:4:5:6:7:1.2.3.4", "1.2.3.4::", "::1.2.3", "1:2:3:4:5:6:7:8::",
    ] {
        assert_eq!(parse_ipv6(&chars(bad)), None, "{bad:?}");
    }
}

#[test]
fn either_form_is_an_address() {
    assert_eq!(parse_ip(&chars("10.0.0.1")), Some(Ip::V4([10, 0, 0, 1])));
    assert_eq!(parse_ip(&chars("::1")), Some(Ip::V6(v6([0, 0, 0, 0, 0, 0, 0, 1]))));
    assert_eq!(parse_ip(&chars("localhost")), None);
}

#[test]
fn addresses_are_printed_as_usual() {
    let cases = [
        (v6([0; 8]), "::"),
        (v6([0, 0, 0, 0, 0, 0, 0, 1]), "::1"),
        (v6([1, 0, 0, 0, 0, 0, 0, 0]), "1::"),
        (v6([0x2001, 0xdb8, 0, 0, 1, 0, 0, 1]), "2001:db8::1:0:0:1"),
        (v6([1, 0, 2, 0, 0, 0, 3, 0]), "1:0:2::3:0"),
        (v6([1, 2, 3, 4, 5, 6, 7, 8]), "1:2:3:4:5:6:7:8"),
        (v6([1, 0, 3, 4, 5, 6, 7, 8]), "1:0:3:4:5:6:7:8"),
        (v6([0, 0, 0, 0, 0, 0xffff, 0x102, 0x304]), "::ffff:1.2.3.4"),
        (v6([0, 0, 0, 0, 0, 0, 0x102, 0x304]), "::102:304"),
    ];
    for (octets, text) in cases {
        let addr = TargetAddr::V6(octets, 443);
        assert_eq!(addr.host_string(), text);
        assert_eq!(addr.display(), format!("[{text}]:443"));
        assert_eq!(parse_ipv6(&chars(text)), Some(octets));
    }
    let addr = TargetAddr::V4([192, 168, 0, 255], 0);
    assert_eq!(addr.host_string(), "192.168.0.255");
    assert_eq!(addr.display(), "192.168.0.255:0");
}

#[test]
fn errors_have_their_words() {
    let cases = [
        (ProtoError::Truncated, "buffer truncated"),
        (ProtoError::BadAddrKind(9), "unknown address kind 9"),
        (ProtoError::BadDomain, "invalid domain name"),
        (ProtoError::BadFrameType(0x0e), "unknown frame type 0x0e"),
        (ProtoError::FrameTooLarge(262145), "frame payload too large: 262145 bytes"),
        (
            ProtoError::VersionMismatch { local: 1, peer: 255 },
            "protocol version mismatch: local 1, peer 255",
        ),
    ];
    for (error, text) in cases {
        assert_eq!(error.message(), text);
    }
    assert_eq!(
        ResumeError::AckBeyondSent { ack: 99, sent: 4 }.message(),
        "peer acked 99 but only 4 bytes were ever sent"
    );
    assert_eq!(
        ResumeError::GapUnrecoverable { peer_recv: 3, acked: 8 }.message(),
        "peer received only 3 but buffer was already released up to 8; resume impossible"
    );
    assert_eq!(
        ResumeError::Gap { expected: 2, got: 18446744073709551615 }.message(),
        "data gap: expected offset 2, got 18446744073709551615"
    );
}

#[test]
fn reset_codes_are_read_back() {
    for code in [
        ResetCode::Normal,
        ResetCode::ConnectFailed,
        ResetCode::UnknownStream,
        ResetCode::ResumeImpossible,
        ResetCode::Internal,
        ResetCode::Forbidden,
    ] {
        assert_eq!(ResetCode::from_u8(code.to_u8()), code);
    }
    assert_eq!(ResetCode::from_u8(200), ResetCode::Internal);
}

#[test]
fn addresses_are_read_back() {
    let mut octets = [0u8; 16];
    for round in 0..2000u32 {
        // A few bits of each round decide which bytes are zero.
        for (i, o) in octets.iter_mut().enumerate() {
            let x = round.wrapping_mul(2654435761).rotate_left(i as u32);
            *o = if x & 3 == 0 { 0 } else { (x >> 8) as u8 };
        }
        let six = TargetAddr::V6(octets, 1).host_string();
        assert_eq!(parse_ip(&chars(&six)), Some(Ip::V6(octets)), "{six}");
        let short = [octets[0], octets[1], octets[2], octets[3]];
        let four = TargetAddr::V4(short, 1).host_string();
        assert_eq!(parse_ip(&chars(&four)), Some(Ip::V4(short)), "{four}");
    }
}
