use packet_sniffer::agg::Aggregator;
use packet_sniffer::codec::parse_snapshot;
use packet_sniffer::codec::reload_snapshot;
use packet_sniffer::codec::render_interface_doc;
use packet_sniffer::codec::render_snapshot;
use packet_sniffer::stats::IpAddress;
use packet_sniffer::stats::TrafficEvent;
use packet_sniffer::table::CounterTable;

fn v4(a: u8, b: u8, c: u8, d: u8) -> IpAddress {
    IpAddress::V4 { a, b, c, d }
}

#[test]
fn loaded_snapshot_continues_counting() {
    let doc = String::from("{\"eth1\":{\"192.168.1.1\":{\"count\":10,\"size\":4000}}}")
        .into_bytes();
    let table = parse_snapshot(&doc).unwrap();
    let mut agg = Aggregator::new(500, 1000, 0);
    agg.load_table(table);
    agg.handle_event(
        TrafficEvent {
            interface: b"eth1".to_vec(),
            source_ip: v4(192, 168, 1, 1),
            frame_size: 100,
        },
        0,
    );
    let st = agg.table.get(&b"eth1".to_vec(), v4(192, 168, 1, 1)).unwrap();
    assert_eq!(st.count, 11);
    assert_eq!(st.size, 4100);
}

#[test]
fn snapshot_text_is_exactly_the_documented_layout() {
    let mut table = CounterTable::new();
    for _ in 0..2 {
        table.record(b"eth0".to_vec(), v4(10, 0, 0, 5), 810);
    }
    table.record(b"eth0".to_vec(), v4(10, 0, 0, 5), 0);
    let text = String::from_utf8(render_snapshot(&table)).unwrap();
    assert_eq!(text, "{\"eth0\":{\"10.0.0.5\":{\"count\":3,\"size\":1620}}}");
}

#[test]
fn per_interface_document_matches_the_combined_nesting() {
    let mut table = CounterTable::new();
    table.record(b"wlan0".to_vec(), v4(172, 16, 0, 9), 99);
    let doc = String::from_utf8(render_interface_doc(&table.ifaces[0])).unwrap();
    assert_eq!(doc, "{\"172.16.0.9\":{\"count\":1,\"size\":99}}");
}

#[test]
fn serialize_then_reload_reproduces_the_mapping() {
    let mut table = CounterTable::new();
    table.record(b"eth0".to_vec(), v4(10, 0, 0, 5), 60);
    table.record(
        b"eth0".to_vec(),
        IpAddress::V6 { g0: 0xfe80, g1: 0, g2: 0, g3: 0, g4: 0, g5: 0, g6: 0, g7: 1 },
        1280,
    );
    table.record(b"wlan0".to_vec(), v4(192, 168, 1, 7), 1500);
    let reloaded = parse_snapshot(&render_snapshot(&table)).unwrap();
    for (iface, ip) in [
        (b"eth0".to_vec(), v4(10, 0, 0, 5)),
        (
            b"eth0".to_vec(),
            IpAddress::V6 { g0: 0xfe80, g1: 0, g2: 0, g3: 0, g4: 0, g5: 0, g6: 0, g7: 1 },
        ),
        (b"wlan0".to_vec(), v4(192, 168, 1, 7)),
    ] {
        assert_eq!(reloaded.get(&iface, ip), table.get(&iface, ip));
    }
    let twice = reload_snapshot(&reloaded);
    assert_eq!(render_snapshot(&twice), render_snapshot(&reloaded));
}

#[test]
fn ipv6_keys_use_plain_hexadecimal_groups() {
    let mut table = CounterTable::new();
    table.record(
        b"eth0".to_vec(),
        IpAddress::V6 { g0: 0xfe80, g1: 0, g2: 0, g3: 0, g4: 0, g5: 0, g6: 0, g7: 1 },
        54,
    );
    let text = String::from_utf8(render_snapshot(&table)).unwrap();
    assert_eq!(text, "{\"eth0\":{\"fe80:0:0:0:0:0:0:1\":{\"count\":1,\"size\":54}}}");
    let back = parse_snapshot(&render_snapshot(&table)).unwrap();
    assert!(back
        .get(
            &b"eth0".to_vec(),
            IpAddress::V6 { g0: 0xfe80, g1: 0, g2: 0, g3: 0, g4: 0, g5: 0, g6: 0, g7: 1 },
        )
        .is_some());
}

#[test]
fn empty_table_round_trips() {
    let table = CounterTable::new();
    let bytes = render_snapshot(&table);
    assert_eq!(bytes, String::from("{}").into_bytes());
    assert!(parse_snapshot(&bytes).is_some());
}

#[test]
fn garbage_is_rejected() {
    assert!(parse_snapshot(&String::from("not a snapshot").into_bytes()).is_none());
    assert!(parse_snapshot(&String::from("").into_bytes()).is_none());
    assert!(parse_snapshot(&String::from("{\"eth0\"}").into_bytes()).is_none());
}

#[test]
fn trailing_bytes_are_rejected() {
    let doc = String::from("{\"eth1\":{\"192.168.1.1\":{\"count\":10,\"size\":4000}}}x")
        .into_bytes();
    assert!(parse_snapshot(&doc).is_none());
}

#[test]
fn counts_that_overflow_are_rejected() {
    let doc = String::from(
        "{\"eth1\":{\"192.168.1.1\":{\"count\":99999999999999999999,\"size\":1}}}",
    )
    .into_bytes();
    assert!(parse_snapshot(&doc).is_none());
}

#[test]
fn snapshot_is_valid_json_for_other_readers() {
    let mut table = CounterTable::new();
    table.record(b"eth0".to_vec(), v4(10, 0, 0, 5), 60);
    table.record(b"eth0".to_vec(), v4(10, 0, 0, 5), 1560);
    let bytes = render_snapshot(&table);
    let value: serde_json::Value = serde_json::from_slice(&bytes).unwrap();
    let stats = value.get("eth0").unwrap().get("10.0.0.5").unwrap();
    assert_eq!(stats.get("count").unwrap().as_u64(), Some(2));
    assert_eq!(stats.get("size").unwrap().as_u64(), Some(1620));
}

#[test]
fn names_needing_escapes_round_trip() {
    let mut table = CounterTable::new();
    let name = vec![101u8, 34, 92, 9, 48];
    table.record(name.clone(), v4(10, 0, 0, 1), 60);
    let text = String::from_utf8(render_snapshot(&table)).unwrap();
    assert_eq!(
        text,
        "{\"e\\\"\\\\\\u00090\":{\"10.0.0.1\":{\"count\":1,\"size\":60}}}"
    );
    let back = parse_snapshot(&render_snapshot(&table)).unwrap();
    assert_eq!(back.get(&name, v4(10, 0, 0, 1)), table.get(&name, v4(10, 0, 0, 1)));
    let twice = reload_snapshot(&table);
    assert_eq!(render_snapshot(&twice), render_snapshot(&table));
}

#[test]
fn escaped_names_read_as_other_writers_wrote_them() {
    let doc = String::from("{\"a\\\"b\\\\c\\td\\ne\":{\"10.0.0.1\":{\"count\":2,\"size\":9}}}")
        .into_bytes();
    let table = parse_snapshot(&doc).unwrap();
    let name = b"a\"b\\c\td\ne".to_vec();
    let st = table.get(&name, v4(10, 0, 0, 1)).unwrap();
    assert_eq!((st.count, st.size), (2, 9));
}

#[test]
fn pretty_printed_documents_load() {
    let doc = String::from(
        "{\n  \"eth1\": {\n    \"192.168.1.1\": {\n      \"count\": 10,\n      \"size\": 4000\n    }\n  }\n}",
    )
    .into_bytes();
    let table = parse_snapshot(&doc).unwrap();
    let st = table.get(&b"eth1".to_vec(), v4(192, 168, 1, 1)).unwrap();
    assert_eq!((st.count, st.size), (10, 4000));
}

#[test]
fn compressed_ipv6_keys_load() {
    let doc = String::from(
        "{\"eth0\":{\"fe80::1\":{\"count\":1,\"size\":54},\"::\":{\"count\":2,\"size\":80},\"1:2::3:4\":{\"count\":3,\"size\":90}}}",
    )
    .into_bytes();
    let table = parse_snapshot(&doc).unwrap();
    let fe80 = IpAddress::V6 { g0: 0xfe80, g1: 0, g2: 0, g3: 0, g4: 0, g5: 0, g6: 0, g7: 1 };
    let zero = IpAddress::V6 { g0: 0, g1: 0, g2: 0, g3: 0, g4: 0, g5: 0, g6: 0, g7: 0 };
    let mid = IpAddress::V6 { g0: 1, g1: 2, g2: 0, g3: 0, g4: 0, g5: 0, g6: 3, g7: 4 };
    assert_eq!(table.get(&b"eth0".to_vec(), fe80).unwrap().size, 54);
    assert_eq!(table.get(&b"eth0".to_vec(), zero).unwrap().count, 2);
    assert_eq!(table.get(&b"eth0".to_vec(), mid).unwrap().size, 90);
}

#[test]
fn escaped_snapshot_is_valid_json_for_other_readers() {
    let mut table = CounterTable::new();
    table.record(b"e\"0".to_vec(), v4(10, 0, 0, 1), 60);
    let bytes = render_snapshot(&table);
    let value: serde_json::Value = serde_json::from_slice(&bytes).unwrap();
    let stats = value.get("e\"0").unwrap().get("10.0.0.1").unwrap();
    assert_eq!(stats.get("size").unwrap().as_u64(), Some(60));
}

#[test]
fn serde_pretty_output_round_trips_through_the_parser() {
    let mut table = CounterTable::new();
    table.record(b"eth0".to_vec(), v4(10, 0, 0, 5), 60);
    let value: serde_json::Value =
        serde_json::from_slice(&render_snapshot(&table)).unwrap();
    let pretty = serde_json::to_string_pretty(&value).unwrap().into_bytes();
    let back = parse_snapshot(&pretty).unwrap();
    assert_eq!(back.get(&b"eth0".to_vec(), v4(10, 0, 0, 5)), table.get(&b"eth0".to_vec(), v4(10, 0, 0, 5)));
}
