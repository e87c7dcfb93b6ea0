use packet_sniffer::agg::Aggregator;
use packet_sniffer::codec::render_snapshot;
use packet_sniffer::decode::decode_frame;
use packet_sniffer::stats::IpAddress;
use packet_sniffer::stats::TrafficEvent;
use packet_sniffer::table::CounterTable;

fn ipv4_frame(src: [u8; 4], total_len: usize) -> Vec<u8> {
    let mut f = vec![0u8; 12];
    f.push(0x08);
    f.push(0x00);
    let mut p = vec![0u8; total_len - 14];
    p[12..16].copy_from_slice(&src);
    f.extend(p);
    f
}

fn event(iface: &[u8], ip: IpAddress, size: u64) -> TrafficEvent {
    TrafficEvent { interface: iface.to_vec(), source_ip: ip, frame_size: size }
}

#[test]
fn eth0_three_frames_from_one_source() {
    let mut table = CounterTable::new();
    for len in [60usize, 60, 1500] {
        let frame = ipv4_frame([10, 0, 0, 5], len);
        let (ip, size) = decode_frame(&frame).unwrap();
        table.record(b"eth0".to_vec(), ip, size);
    }
    let st = table
        .get(&b"eth0".to_vec(), IpAddress::V4 { a: 10, b: 0, c: 0, d: 5 })
        .unwrap();
    assert_eq!(st.count, 3);
    assert_eq!(st.size, 1620);
}

#[test]
fn count_threshold_two_flushes_exactly_once() {
    let mut agg = Aggregator::new(2, 1_000_000, 0);
    let ip = IpAddress::V4 { a: 10, b: 0, c: 0, d: 1 };
    let mut flushes = 0;
    for _ in 0..2 {
        if agg.handle_event(event(b"eth0", ip, 100), 0) {
            flushes += 1;
        }
    }
    assert_eq!(flushes, 1);
    assert_eq!(agg.events_since_flush, 0);
}

#[test]
fn time_threshold_flushes_on_the_next_event() {
    let mut agg = Aggregator::new(1000, 1000, 0);
    let ip = IpAddress::V4 { a: 10, b: 0, c: 0, d: 1 };
    assert!(!agg.handle_event(event(b"eth0", ip, 100), 10));
    assert!(agg.handle_event(event(b"eth0", ip, 100), 1000));
    assert_eq!(agg.events_since_flush, 0);
    assert_eq!(agg.last_flush_ms, 1000);
}

#[test]
fn events_for_one_interface_leave_others_alone() {
    let mut table = CounterTable::new();
    let ip = IpAddress::V4 { a: 192, b: 168, c: 1, d: 1 };
    table.record(b"eth1".to_vec(), ip, 400);
    table.record(b"eth0".to_vec(), ip, 999);
    table.record(b"eth0".to_vec(), ip, 999);
    let st = table.get(&b"eth1".to_vec(), ip).unwrap();
    assert_eq!(st.count, 1);
    assert_eq!(st.size, 400);
}

#[test]
fn totals_do_not_depend_on_arrival_order() {
    let ip = IpAddress::V4 { a: 10, b: 0, c: 0, d: 5 };
    let mut t1 = CounterTable::new();
    for s in [1u64, 2, 3] {
        t1.record(b"eth0".to_vec(), ip, s);
    }
    let mut t2 = CounterTable::new();
    for s in [3u64, 2, 1] {
        t2.record(b"eth0".to_vec(), ip, s);
    }
    assert_eq!(
        t1.get(&b"eth0".to_vec(), ip).unwrap(),
        t2.get(&b"eth0".to_vec(), ip).unwrap()
    );
}

#[test]
fn malformed_frame_leaves_the_table_byte_for_byte_unchanged() {
    let mut table = CounterTable::new();
    table.record(b"eth0".to_vec(), IpAddress::V4 { a: 10, b: 0, c: 0, d: 5 }, 60);
    let before = render_snapshot(&table);
    let mut arp = vec![0u8; 12];
    arp.push(0x08);
    arp.push(0x06);
    arp.extend(vec![0u8; 28]);
    if let Some((ip, size)) = decode_frame(&arp) {
        table.record(b"eth0".to_vec(), ip, size);
    }
    let after = render_snapshot(&table);
    assert_eq!(before, after);
}

#[test]
fn counters_saturate_instead_of_wrapping() {
    let mut table = CounterTable::new();
    let ip = IpAddress::V4 { a: 1, b: 2, c: 3, d: 4 };
    table.record(b"eth0".to_vec(), ip, u64::MAX);
    table.record(b"eth0".to_vec(), ip, u64::MAX);
    let st = table.get(&b"eth0".to_vec(), ip).unwrap();
    assert_eq!(st.count, 2);
    assert_eq!(st.size, u64::MAX);
}
