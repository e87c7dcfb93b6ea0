use packet_sniffer::decode::decode_frame;
use packet_sniffer::decode::frame_event;
use packet_sniffer::stats::IpAddress;

/// An Ethernet frame: 12 bytes of addresses, the ethertype big-endian,
/// then the payload.
fn eth_frame(ethertype: u16, payload: Vec<u8>) -> Vec<u8> {
    let mut f = vec![0u8; 12];
    f.push((ethertype >> 8) as u8);
    f.push((ethertype & 0xff) as u8);
    f.extend(payload);
    f
}

/// An IPv4 payload of the given length with the given source address.
fn ipv4_payload(src: [u8; 4], len: usize) -> Vec<u8> {
    let mut p = vec![0u8; len];
    p[12..16].copy_from_slice(&src);
    p
}

/// An IPv6 payload of the given length with the given source groups.
fn ipv6_payload(src: [u16; 8], len: usize) -> Vec<u8> {
    let mut p = vec![0u8; len];
    for (k, g) in src.iter().enumerate() {
        p[8 + 2 * k] = (g >> 8) as u8;
        p[9 + 2 * k] = (g & 0xff) as u8;
    }
    p
}

#[test]
fn ipv4_frame_decodes_to_source_and_total_length() {
    let frame = eth_frame(0x0800, ipv4_payload([10, 0, 0, 5], 46));
    assert_eq!(frame.len(), 60);
    let r = decode_frame(&frame);
    assert_eq!(r, Some((IpAddress::V4 { a: 10, b: 0, c: 0, d: 5 }, 60)));
}

#[test]
fn ipv6_frame_decodes_to_source_groups() {
    let src = [0xfe80, 0, 0, 0, 0, 0, 0, 1];
    let frame = eth_frame(0x86DD, ipv6_payload(src, 40));
    let r = decode_frame(&frame);
    assert_eq!(
        r,
        Some((
            IpAddress::V6 { g0: 0xfe80, g1: 0, g2: 0, g3: 0, g4: 0, g5: 0, g6: 0, g7: 1 },
            54
        ))
    );
}

#[test]
fn non_ip_ethertype_yields_no_event() {
    let frame = eth_frame(0x0806, vec![0u8; 28]);
    assert_eq!(decode_frame(&frame), None);
}

#[test]
fn short_frame_yields_no_event() {
    let frame = vec![0u8; 10];
    assert_eq!(decode_frame(&frame), None);
}

#[test]
fn truncated_ipv4_header_yields_no_event() {
    let frame = eth_frame(0x0800, vec![0u8; 10]);
    assert_eq!(decode_frame(&frame), None);
}

#[test]
fn truncated_ipv6_header_yields_no_event() {
    let frame = eth_frame(0x86DD, vec![0u8; 39]);
    assert_eq!(decode_frame(&frame), None);
}

#[test]
fn frame_event_carries_the_interface_name() {
    let frame = eth_frame(0x0800, ipv4_payload([192, 168, 1, 7], 32));
    let e = frame_event(b"eth0".to_vec(), &frame).unwrap();
    assert_eq!(e.interface, b"eth0".to_vec());
    assert_eq!(e.source_ip, IpAddress::V4 { a: 192, b: 168, c: 1, d: 7 });
    assert_eq!(e.frame_size, frame.len() as u64);
}
