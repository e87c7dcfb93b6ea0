use vstd::prelude::*;

verus! {

/// Packet and byte totals attributed to one (interface, source address) key.
///
/// Both fields only ever grow while a key is live; they saturate at
/// `u64::MAX` rather than wrap.
#[derive(Clone, Copy, PartialEq, Eq, Structural, Debug)]
pub struct PacketStats {
    pub count: u64,
    pub size: u64,
}

/// A source address seen on the wire: the four octets of an IPv4 address or
/// the eight 16-bit groups of an IPv6 address, most significant first.
#[derive(Clone, Copy, PartialEq, Eq, Structural, Debug)]
pub enum IpAddress {
    V4 { a: u8, b: u8, c: u8, d: u8 },
    V6 { g0: u16, g1: u16, g2: u16, g3: u16, g4: u16, g5: u16, g6: u16, g7: u16 },
}

/// One recognized IP frame, as reported by a capture worker: the interface it
/// arrived on, the source address, and the total frame length in bytes.
#[derive(Clone, Debug)]
pub struct TrafficEvent {
    pub interface: Vec<u8>,
    pub source_ip: IpAddress,
    pub frame_size: u64,
}

/// The stats a key has before any frame was attributed to it.
pub open spec fn zero_stats() -> PacketStats {
    PacketStats { count: 0, size: 0 }
}

/// Saturating 64-bit addition, the arithmetic the counters use.
pub open spec fn sat_add64(a: int, b: int) -> u64 {
    if a + b > u64::MAX {
        u64::MAX
    } else {
        (a + b) as u64
    }
}

/// The stats a key holds after one more frame of `size` bytes.
pub open spec fn bump_stats(s: PacketStats, size: u64) -> PacketStats {
    PacketStats { count: sat_add64(s.count as int, 1), size: sat_add64(s.size as int, size as int) }
}

} // verus!
