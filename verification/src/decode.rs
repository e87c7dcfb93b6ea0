use vstd::prelude::*;
use vstd::slice::slice_subrange;
use crate::stats::{IpAddress, TrafficEvent};

verus! {

/// The ethertype that marks an IPv4 payload.
pub const ETHERTYPE_IPV4: u16 = 0x0800;

/// The ethertype that marks an IPv6 payload.
pub const ETHERTYPE_IPV6: u16 = 0x86DD;

/// The big-endian 16-bit value held at offset `i` of a byte string.
pub open spec fn be16(s: Seq<u8>, i: int) -> u16 {
    (s[i] * 256 + s[i + 1]) as u16
}

/// Relies on pnet's `EthernetPacket`: `new` accepts exactly the buffers
/// that hold at least the 14-byte Ethernet header, and `get_ethertype`
/// reads the big-endian pair at offset 12.
#[verifier::external_body]
fn eth_ethertype(frame: &[u8]) -> (r: Option<u16>)
    ensures
        r == (if frame@.len() >= 14 {
            Some(be16(frame@, 12))
        } else {
            None::<u16>
        }),
{
    match pnet::packet::ethernet::EthernetPacket::new(frame) {
        Some(p) => Some(p.get_ethertype().0),
        None => None,
    }
}

/// Relies on pnet's `Ipv4Packet`: `new` accepts exactly the buffers that
/// hold at least the 20-byte IPv4 header, and `get_source` reads the four
/// source-address octets at offset 12.
#[verifier::external_body]
fn ipv4_source(payload: &[u8]) -> (r: Option<(u8, u8, u8, u8)>)
    ensures
        r == (if payload@.len() >= 20 {
            Some((payload@[12], payload@[13], payload@[14], payload@[15]))
        } else {
            None::<(u8, u8, u8, u8)>
        }),
{
    match pnet::packet::ipv4::Ipv4Packet::new(payload) {
        Some(p) => {
            let o = p.get_source().octets();
            Some((o[0], o[1], o[2], o[3]))
        },
        None => None,
    }
}

/// Relies on pnet's `Ipv6Packet`: `new` accepts exactly the buffers that
/// hold at least the 40-byte IPv6 header, and `get_source` reads the eight
/// big-endian source-address groups at offsets 8 through 23.
#[verifier::external_body]
fn ipv6_source(payload: &[u8]) -> (r: Option<(u16, u16, u16, u16, u16, u16, u16, u16)>)
    ensures
        r == (if payload@.len() >= 40 {
            Some((
                be16(payload@, 8),
                be16(payload@, 10),
                be16(payload@, 12),
                be16(payload@, 14),
                be16(payload@, 16),
                be16(payload@, 18),
                be16(payload@, 20),
                be16(payload@, 22),
            ))
        } else {
            None::<(u16, u16, u16, u16, u16, u16, u16, u16)>
        }),
{
    match pnet::packet::ipv6::Ipv6Packet::new(payload) {
        Some(p) => {
            let g = p.get_source().segments();
            Some((g[0], g[1], g[2], g[3], g[4], g[5], g[6], g[7]))
        },
        None => None,
    }
}

/// What a raw frame yields: the source address and the total frame length
/// for a well-formed IPv4/IPv6 frame, nothing for anything else.
pub open spec fn spec_decode(frame: Seq<u8>) -> Option<(IpAddress, u64)> {
    if frame.len() < 14 {
        None
    } else {
        let et = be16(frame, 12);
        let payload = frame.skip(14);
        if et == ETHERTYPE_IPV4 {
            if payload.len() >= 20 {
                Some((
                    IpAddress::V4 { a: payload[12], b: payload[13], c: payload[14], d: payload[15] },
                    frame.len() as u64,
                ))
            } else {
                None
            }
        } else if et == ETHERTYPE_IPV6 {
            if payload.len() >= 40 {
                Some((
                    IpAddress::V6 {
                        g0: be16(payload, 8),
                        g1: be16(payload, 10),
                        g2: be16(payload, 12),
                        g3: be16(payload, 14),
                        g4: be16(payload, 16),
                        g5: be16(payload, 18),
                        g6: be16(payload, 20),
                        g7: be16(payload, 22),
                    },
                    frame.len() as u64,
                ))
            } else {
                None
            }
        } else {
            None
        }
    }
}

/// Decode one raw link-layer frame: the source address and total frame
/// length of a recognized IP frame, or nothing for short frames, other
/// ethertypes, and truncated IP headers.
pub fn decode_frame(frame: &[u8]) -> (r: Option<(IpAddress, u64)>)
    ensures
        r == spec_decode(frame@),
{
    match eth_ethertype(frame) {
        None => None,
        Some(et) => {
            let payload = slice_subrange(frame, 14, frame.len());
            proof {
                assert(payload@ =~= frame@.skip(14));
            }
            if et == ETHERTYPE_IPV4 {
                match ipv4_source(payload) {
                    Some((a, b, c, d)) => Some((
                        IpAddress::V4 { a, b, c, d },
                        frame.len() as u64,
                    )),
                    None => None,
                }
            } else if et == ETHERTYPE_IPV6 {
                match ipv6_source(payload) {
                    Some((g0, g1, g2, g3, g4, g5, g6, g7)) => Some((
                        IpAddress::V6 { g0, g1, g2, g3, g4, g5, g6, g7 },
                        frame.len() as u64,
                    )),
                    None => None,
                }
            } else {
                None
            }
        },
    }
}

/// The per-frame step of a capture worker: decode the frame and, for a
/// recognized IP frame, emit the traffic event that attributes it to the
/// frame's source address on the given interface.
pub fn frame_event(interface: Vec<u8>, frame: &[u8]) -> (r: Option<TrafficEvent>)
    ensures
        match spec_decode(frame@) {
            Some(v) => (match r {
                Some(e) => e.interface@ == interface@ && e.source_ip == v.0 && e.frame_size == v.1,
                None => false,
            }),
            None => r is None,
        },
{
    match decode_frame(frame) {
        Some((ip, size)) => Some(TrafficEvent { interface, source_ip: ip, frame_size: size }),
        None => None,
    }
}

/// Drop of non-IP traffic: a frame that is too short to carry an ethertype
/// or whose ethertype is neither IPv4 nor IPv6 yields no event at all — and
/// with no event, nothing is ever applied to a counter table.
pub proof fn lemma_non_ip_dropped(frame: Seq<u8>)
    requires
        frame.len() < 14 || (be16(frame, 12) != ETHERTYPE_IPV4 && be16(frame, 12) != ETHERTYPE_IPV6),
    ensures
        spec_decode(frame) == None::<(IpAddress, u64)>,
{
}

} // verus!
