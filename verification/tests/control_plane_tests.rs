use symmetrix::control_plane::{vxlan_payload, websocket_binary_payload};

#[test]
fn vxlan_payload_follows_the_header() {
    let mut packet = vec![0x08, 0, 0, 0, 0xff, 0xff, 0xff, 0];
    packet.extend_from_slice(b"{\"cmd\":\"Health\"}");
    assert_eq!(vxlan_payload(&packet), Some(b"{\"cmd\":\"Health\"}".to_vec()));
    assert_eq!(vxlan_payload(&[1, 2, 3, 4, 5, 6, 7, 8]), Some(Vec::new()));
    assert_eq!(vxlan_payload(&[1, 2, 3]), None);
}

#[test]
fn websocket_binary_payload_needs_more_than_a_header() {
    assert_eq!(websocket_binary_payload(&[0, 0, 0, 0, 0, 0, 0, 0]), None);
    assert_eq!(websocket_binary_payload(&[0, 0, 0, 0, 0, 0, 0, 0, 42]), Some(vec![42]));
    assert_eq!(websocket_binary_payload(&[]), None);
}

#[test]
fn server_stats_count_commands_and_cache_lookups() {
    let mut s = symmetrix::control_plane::ServerStats::default();
    s.record_command(250);
    s.record_command(50);
    s.record_cache_hit();
    s.record_cache_miss();
    s.record_cache_miss();
    assert_eq!(s.commands_processed, 2);
    assert_eq!(s.total_latency_ns, 300);
    assert_eq!(s.cache_hits, 1);
    assert_eq!(s.cache_misses, 2);
    assert_eq!(s.http_requests, 0);
}

#[test]
fn server_stats_count_http_requests() {
    let mut s = symmetrix::control_plane::ServerStats::default();
    s.record_http_request();
    s.record_http_request();
    assert_eq!(s.http_requests, 2);
    assert_eq!(s.commands_processed, 0);
}
