//! Target addresses, with the address kinds of SOCKS5.

use bytes::BytesMut;
use vstd::prelude::*;
use vstd::slice::{slice_subrange, slice_to_vec};
use vstd::utf8::{decode_utf8, encode_utf8, valid_utf8};

use crate::bigendian::{be, from_be};
use crate::buf::{advance, buffered, get_u16, get_u8, put_u16, put_u8, view_buffered};
use crate::ip::{ipv4_text, ipv6_text, push_ipv4, push_ipv6};
use crate::text::{decimal, push_decimal, push_text, string_from_chars, string_from_utf8};
use crate::ProtoError;

verus! {

/// Where a proxied connection is to go. A domain name is passed on as it is,
/// and looked up at the remote end.
#[derive(Debug, PartialEq, Eq, Hash)]
pub enum TargetAddr {
    V4([u8; 4], u16),
    V6([u8; 16], u16),
    Domain(String, u16),
}

/// What a target address stands for.
#[verifier::ext_equal]
pub enum AddrView {
    V4(Seq<u8>, u16),
    V6(Seq<u8>, u16),
    Domain(Seq<char>, u16),
}

impl View for TargetAddr {
    type V = AddrView;

    open spec fn view(&self) -> AddrView {
        match self {
            TargetAddr::V4(o, p) => AddrView::V4(o@, *p),
            TargetAddr::V6(o, p) => AddrView::V6(o@, *p),
            TargetAddr::Domain(d, p) => AddrView::Domain(d@, *p),
        }
    }
}

impl AddrView {
    pub open spec fn port(self) -> u16 {
        match self {
            AddrView::V4(_, p) => p,
            AddrView::V6(_, p) => p,
            AddrView::Domain(_, p) => p,
        }
    }

    /// The address on the wire: its kind, the host and the port. A domain
    /// name has the low byte of its length in front.
    pub open spec fn wire(self) -> Seq<u8> {
        match self {
            AddrView::V4(o, p) => seq![TargetAddr::KIND_V4] + o + be(p as nat, 2),
            AddrView::V6(o, p) => seq![TargetAddr::KIND_V6] + o + be(p as nat, 2),
            AddrView::Domain(d, p) => {
                let name = encode_utf8(d);
                seq![TargetAddr::KIND_DOMAIN, (name.len() % 256) as u8] + name + be(p as nat, 2)
            },
        }
    }

    /// How many bytes the address takes on the wire.
    pub open spec fn wire_len(self) -> nat {
        match self {
            AddrView::V4(..) => 7,
            AddrView::V6(..) => 19,
            AddrView::Domain(d, _) => 4 + encode_utf8(d).len(),
        }
    }

    /// The host alone, in text.
    pub open spec fn host_text(self) -> Seq<char> {
        match self {
            AddrView::V4(o, _) => ipv4_text(o),
            AddrView::V6(o, _) => ipv6_text(o),
            AddrView::Domain(d, _) => d,
        }
    }

    /// Host and port in text, an IPv6 host in brackets.
    pub open spec fn text(self) -> Seq<char> {
        match self {
            AddrView::V6(o, p) => seq!['['] + ipv6_text(o) + seq![']', ':'] + decimal(p as nat),
            _ => self.host_text() + seq![':'] + decimal(self.port() as nat),
        }
    }

    /// Whether the address can be read back from its bytes.
    pub open spec fn encodable(self) -> bool {
        match self {
            AddrView::V4(o, _) => o.len() == 4,
            AddrView::V6(o, _) => o.len() == 16,
            AddrView::Domain(d, _) => 0 < encode_utf8(d).len() <= 255,
        }
    }
}

/// What reading an address from the front of `s` gives.
pub open spec fn parse_addr(s: Seq<u8>) -> Result<AddrView, ProtoError> {
    if s.len() < 1 {
        Err(ProtoError::Truncated)
    } else if s[0] == TargetAddr::KIND_V4 {
        if s.len() < 7 {
            Err(ProtoError::Truncated)
        } else {
            Ok(AddrView::V4(s.subrange(1, 5), from_be(s.subrange(5, 7)) as u16))
        }
    } else if s[0] == TargetAddr::KIND_V6 {
        if s.len() < 19 {
            Err(ProtoError::Truncated)
        } else {
            Ok(AddrView::V6(s.subrange(1, 17), from_be(s.subrange(17, 19)) as u16))
        }
    } else if s[0] == TargetAddr::KIND_DOMAIN {
        if s.len() < 2 || s.len() < 2 + s[1] + 2 {
            Err(ProtoError::Truncated)
        } else {
            let end = 2 + s[1] as int;
            let name = s.subrange(2, end);
            if name.len() == 0 || !valid_utf8(name) {
                Err(ProtoError::BadDomain)
            } else {
                Ok(AddrView::Domain(decode_utf8(name), from_be(s.subrange(end, end + 2)) as u16))
            }
        }
    } else {
        Err(ProtoError::BadAddrKind(s[0]))
    }
}

/// How many bytes reading an address takes from the front of `s`.
pub open spec fn addr_consumed(s: Seq<u8>) -> int {
    if s.len() < 1 {
        0
    } else if s[0] == TargetAddr::KIND_V4 {
        if s.len() < 7 {
            1
        } else {
            7
        }
    } else if s[0] == TargetAddr::KIND_V6 {
        if s.len() < 19 {
            1
        } else {
            19
        }
    } else if s[0] == TargetAddr::KIND_DOMAIN {
        if s.len() < 2 {
            1
        } else if s.len() < 2 + s[1] + 2 {
            2
        } else if parse_addr(s) is Err {
            2 + s[1] as int
        } else {
            2 + s[1] as int + 2
        }
    } else {
        1
    }
}

/// The first four bytes of a slice.
pub(crate) fn first_4(s: &[u8]) -> (a: [u8; 4])
    requires
        s@.len() >= 4,
    ensures
        a@ == s@.take(4),
{
    let a: [u8; 4] = [s[0], s[1], s[2], s[3]];
    assert(a@ =~= s@.take(4));
    a
}

/// The first sixteen bytes of a slice.
pub(crate) fn first_16(s: &[u8]) -> (a: [u8; 16])
    requires
        s@.len() >= 16,
    ensures
        a@ == s@.take(16),
{
    let a: [u8; 16] = [
        s[0],
        s[1],
        s[2],
        s[3],
        s[4],
        s[5],
        s[6],
        s[7],
        s[8],
        s[9],
        s[10],
        s[11],
        s[12],
        s[13],
        s[14],
        s[15],
    ];
    assert(a@ =~= s@.take(16));
    a
}

impl Clone for TargetAddr {
    fn clone(&self) -> (r: TargetAddr)
        ensures
            r@ == self@,
    {
        match self {
            TargetAddr::V4(o, p) => TargetAddr::V4(*o, *p),
            TargetAddr::V6(o, p) => TargetAddr::V6(*o, *p),
            TargetAddr::Domain(d, p) => TargetAddr::Domain(d.clone(), *p),
        }
    }
}

impl TargetAddr {
    pub const KIND_V4: u8 = 1;

    pub const KIND_DOMAIN: u8 = 3;

    pub const KIND_V6: u8 = 4;

    /// The port.
    pub fn port(&self) -> (r: u16)
        ensures
            r == self@.port(),
    {
        match self {
            TargetAddr::V4(_, p) => *p,
            TargetAddr::V6(_, p) => *p,
            TargetAddr::Domain(_, p) => *p,
        }
    }

    /// The characters of the host.
    pub(crate) fn host_chars(&self) -> (r: Vec<char>)
        ensures
            r@ == self@.host_text(),
    {
        let mut out: Vec<char> = Vec::new();
        match self {
            TargetAddr::V4(o, _) => push_ipv4(&mut out, o.as_slice()),
            TargetAddr::V6(o, _) => push_ipv6(&mut out, o),
            TargetAddr::Domain(d, _) => push_text(&mut out, d.as_str()),
        }
        assert(out@ =~= self@.host_text());
        out
    }

    /// The host alone, as a direct connection names it.
    pub fn host_string(&self) -> (r: String)
        ensures
            r@ == self@.host_text(),
    {
        string_from_chars(self.host_chars())
    }

    /// Host and port for people to read.
    pub fn display(&self) -> (r: String)
        ensures
            r@ == self@.text(),
    {
        let mut out: Vec<char> = Vec::new();
        let mut host = self.host_chars();
        match self {
            TargetAddr::V6(_, p) => {
                out.push('[');
                out.append(&mut host);
                out.push(']');
                out.push(':');
                push_decimal(&mut out, *p as u64);
            },
            _ => {
                out.append(&mut host);
                out.push(':');
                push_decimal(&mut out, self.port() as u64);
            },
        }
        assert(out@ =~= self@.text());
        string_from_chars(out)
    }

    /// How many bytes the address takes on the wire.
    pub fn encoded_len(&self) -> (r: usize)
        requires
            self@.wire_len() <= usize::MAX,
        ensures
            r == self@.wire_len(),
    {
        match self {
            TargetAddr::V4(..) => 1 + 4 + 2,
            TargetAddr::V6(..) => 1 + 16 + 2,
            TargetAddr::Domain(d, _) => 1 + 1 + d.as_str().len() + 2,
        }
    }

    /// Appends the address.
    pub fn encode(&self, dst: &mut BytesMut)
        requires
            buffered(*old(dst)).len() + self@.wire().len() <= isize::MAX,
        ensures
            buffered(*final(dst)) == buffered(*old(dst)) + self@.wire(),
    {
        broadcast use crate::bigendian::lemma_be_len;

        let ghost before = buffered(*dst);
        match self {
            TargetAddr::V4(o, p) => {
                put_u8(dst, TargetAddr::KIND_V4);
                dst.extend_from_slice(o.as_slice());
                put_u16(dst, *p);
            },
            TargetAddr::V6(o, p) => {
                put_u8(dst, TargetAddr::KIND_V6);
                dst.extend_from_slice(o.as_slice());
                put_u16(dst, *p);
            },
            TargetAddr::Domain(d, p) => {
                let name = d.as_str().as_bytes();
                put_u8(dst, TargetAddr::KIND_DOMAIN);
                put_u8(dst, (name.len() % 256) as u8);
                dst.extend_from_slice(name);
                put_u16(dst, *p);
            },
        }
        assert(buffered(*dst) =~= before + self@.wire());
    }

    /// Reads an address from the front of `src`.
    pub fn decode(src: &mut BytesMut) -> (r: Result<TargetAddr, ProtoError>)
        ensures
            match parse_addr(buffered(*old(src))) {
                Ok(a) => r matches Ok(t) && t@ == a,
                Err(e) => r matches Err(f) && f == e,
            },
            buffered(*final(src)) == buffered(*old(src)).skip(
                addr_consumed(buffered(*old(src))),
            ),
    {
        let ghost s = buffered(*src);
        if src.len() < 1 {
            assert(s.skip(0) =~= s);
            return Err(ProtoError::Truncated);
        }
        let kind: u8 = get_u8(src);
        if kind == TargetAddr::KIND_V4 {
            if src.len() < 6 {
                return Err(ProtoError::Truncated);
            }
            let o = first_4(view_buffered(src));
            advance(src, 4);
            let ghost rest = buffered(*src);
            let p: u16 = get_u16(src);
            proof {
                assert(o@ =~= s.subrange(1, 5));
                assert(rest.take(2) =~= s.subrange(5, 7));
                assert(buffered(*src) =~= s.skip(7));
            }
            Ok(TargetAddr::V4(o, p))
        } else if kind == TargetAddr::KIND_V6 {
            if src.len() < 18 {
                return Err(ProtoError::Truncated);
            }
            let o = first_16(view_buffered(src));
            advance(src, 16);
            let ghost rest = buffered(*src);
            let p: u16 = get_u16(src);
            proof {
                assert(o@ =~= s.subrange(1, 17));
                assert(rest.take(2) =~= s.subrange(17, 19));
                assert(buffered(*src) =~= s.skip(19));
            }
            Ok(TargetAddr::V6(o, p))
        } else if kind == TargetAddr::KIND_DOMAIN {
            if src.len() < 1 {
                return Err(ProtoError::Truncated);
            }
            let len: usize = get_u8(src) as usize;
            assert(buffered(*src) =~= s.skip(2));
            if src.len() < len + 2 {
                return Err(ProtoError::Truncated);
            }
            let name = slice_to_vec(slice_subrange(view_buffered(src), 0, len));
            advance(src, len);
            proof {
                assert(name@ =~= s.subrange(2, 2 + len));
                assert(buffered(*src) =~= s.skip(2 + len));
            }
            match string_from_utf8(name) {
                None => Err(ProtoError::BadDomain),
                Some(domain) => {
                    if len == 0 {
                        return Err(ProtoError::BadDomain);
                    }
                    let p: u16 = get_u16(src);
                    proof {
                        assert(s.skip(2 + len).take(2) =~= s.subrange(2 + len, 2 + len + 2));
                        assert(buffered(*src) =~= s.skip(2 + len + 2));
                    }
                    Ok(TargetAddr::Domain(domain, p))
                },
            }
        } else {
            Err(ProtoError::BadAddrKind(kind))
        }
    }
}

/// Encoding an address appends exactly as many bytes as its encoded length
/// says, whatever the buffer held.
pub proof fn law_encoding_takes_its_length(a: TargetAddr, before: Seq<u8>)
    ensures
        a@.wire().len() == a@.wire_len(),
        (before + a@.wire()).len() == before.len() + a@.wire_len(),
{
    broadcast use crate::bigendian::lemma_be_len;

}

/// An address with a name of at most 255 bytes is read back from its bytes,
/// whatever follows them.
pub proof fn law_addr_round_trip(a: AddrView, rest: Seq<u8>)
    requires
        a.encodable(),
    ensures
        parse_addr(a.wire() + rest) == Ok::<AddrView, ProtoError>(a),
        addr_consumed(a.wire() + rest) == a.wire().len(),
{
    broadcast use {crate::bigendian::lemma_be_inverse, crate::bigendian::lemma_be_len};
    broadcast use {vstd::utf8::encode_utf8_decode_utf8, vstd::utf8::encode_utf8_valid_utf8};

    crate::bigendian::lemma_base_values();
    let s = a.wire() + rest;
    match a {
        AddrView::V4(o, p) => {
            assert(s.subrange(1, 5) =~= o);
            assert(s.subrange(5, 7) =~= be(p as nat, 2));
        },
        AddrView::V6(o, p) => {
            assert(s.subrange(1, 17) =~= o);
            assert(s.subrange(17, 19) =~= be(p as nat, 2));
        },
        AddrView::Domain(d, p) => {
            let n = encode_utf8(d).len() as int;
            assert(s.subrange(2, 2 + n) =~= encode_utf8(d));
            assert(s.subrange(2 + n, 2 + n + 2) =~= be(p as nat, 2));
        },
    }
}

/// An address on the wire: its kind, the host, and the port with its high byte
/// first. A name has its length in front.
pub proof fn law_addresses_on_the_wire(o: Seq<u8>, d: Seq<char>, port: u16)
    ensures
        ({
            let high = (port / 256) as u8;
            let low = (port % 256) as u8;
            &&& AddrView::V4(o, port).wire() =~= seq![0x01u8] + o + seq![high, low]
            &&& AddrView::V6(o, port).wire() =~= seq![0x04u8] + o + seq![high, low]
            &&& encode_utf8(d).len() <= 255 ==> AddrView::Domain(d, port).wire() =~= seq![
                0x03u8,
                encode_utf8(d).len() as u8,
            ] + encode_utf8(d) + seq![high, low]
        }),
{
    crate::bigendian::law_two_bytes(port as nat, 0, 0);
}

/// What is no address: an unknown kind, a name that is empty or no text, and
/// anything that ends before the address does.
pub proof fn law_what_is_no_address(s: Seq<u8>, name: Seq<u8>, rest: Seq<u8>)
    requires
        name.len() <= 255,
        rest.len() >= 2,
    ensures
        parse_addr(seq![]) == Err::<AddrView, ProtoError>(ProtoError::Truncated),
        s.len() > 0 && s[0] != 1 && s[0] != 3 && s[0] != 4 ==> parse_addr(s) == Err::<
            AddrView,
            ProtoError,
        >(ProtoError::BadAddrKind(s[0])),
        s.len() > 0 && s[0] == 1 && s.len() < 7 ==> parse_addr(s) == Err::<AddrView, ProtoError>(
            ProtoError::Truncated,
        ),
        s.len() > 0 && s[0] == 4 && s.len() < 19 ==> parse_addr(s) == Err::<AddrView, ProtoError>(
            ProtoError::Truncated,
        ),
        s.len() > 1 && s[0] == 3 && s.len() < 4 + s[1] ==> parse_addr(s) == Err::<
            AddrView,
            ProtoError,
        >(ProtoError::Truncated),
        name.len() == 0 || !valid_utf8(name) ==> parse_addr(
            seq![0x03u8, name.len() as u8] + name + rest,
        ) == Err::<AddrView, ProtoError>(ProtoError::BadDomain),
{
    let p = seq![0x03u8, name.len() as u8] + name + rest;
    assert(p[0] == 0x03 && p[1] == name.len());
    assert(p.subrange(2, 2 + name.len() as int) =~= name);
}

/// Reading an address takes as many bytes as it has on the wire, whatever
/// follows.
pub proof fn law_reading_takes_the_address_only(addr: AddrView, rest: Seq<u8>)
    requires
        addr.encodable(),
    ensures
        addr_consumed(addr.wire() + rest) == addr.wire().len(),
{
    broadcast use crate::bigendian::lemma_be_len;

    law_addr_round_trip(addr, rest);
    let s = addr.wire() + rest;
    assert(s[0] == addr.wire()[0]);
    if addr is Domain {
        assert(s[1] == addr.wire()[1]);
    }
}

/// An address in text is the host, a colon and the port, and an IPv6 host
/// stands in brackets.
pub proof fn law_addresses_in_text(addr: AddrView)
    ensures
        addr is V6 ==> addr.text() =~= seq!['['] + addr.host_text() + seq![']', ':'] + decimal(
            addr.port() as nat,
        ),
        !(addr is V6) ==> addr.text() =~= addr.host_text() + seq![':'] + decimal(
            addr.port() as nat,
        ),
        addr matches AddrView::Domain(d, _) ==> addr.host_text() == d,
        addr matches AddrView::V4(o, _) ==> addr.host_text() == ipv4_text(o),
        addr matches AddrView::V6(o, _) ==> addr.host_text() == ipv6_text(o),
{
}

} // verus!
