use rotonda::ingress::{IngressInfo, PeerRibType};
use rotonda::net::{AfiSafiType, Asn, IpAddr, PeerType, Prefix};
use rotonda::payload::{OwnedPathAttributes, PduParseInfo, RotondaPaMap, RotondaRoute};
use rotonda::text::escape_json_string;
use rotonda::units::bmp_tcp_in::io::{bmp_read, TracingMode};
use rotonda::units::bmp_tcp_out::bmp_builder::{
    build_admin_label_json, build_aggregated_route_monitoring_at, build_bgp_open,
    build_bgp_update, build_end_of_rib_marker, build_end_of_rib_marker_at, build_eor_ipv4,
    build_eor_mp_unreach, build_initiation_message, build_peer_down, build_peer_down_at,
    build_peer_up, build_peer_up_at, build_route_monitoring, build_route_monitoring_from_route,
    build_statistics_report, build_statistics_report_at, build_termination_message,
    encode_prefix_nlri, fan_in_distinguisher_tag, filter_raw_path_attributes, nlri_encoded_len,
    PeerInfo, Timestamp, BGP_MSG_UPDATE, BMP_COMMON_HEADER_LEN, BMP_MSG_ROUTE_MONITORING,
    BMP_PER_PEER_HEADER_LEN, BMP_VERSION, MAX_BGP_UPDATE_LEN,
};
use std::hash::Hasher;

fn v4(a: u8, b: u8, c: u8, d: u8) -> IpAddr {
    IpAddr::V4(u32::from_be_bytes([a, b, c, d]))
}

fn peer_with(flags: u8, address: IpAddr, label: Option<String>) -> PeerInfo {
    PeerInfo {
        peer_type: PeerType::GlobalInstance,
        peer_flags: flags,
        peer_distinguisher: [0u8; 8],
        peer_address: address,
        peer_asn: Asn::from_u32(65000),
        peer_bgp_id: [0u8; 4],
        admin_label: label,
    }
}

fn test_peer() -> PeerInfo {
    peer_with(0x40, v4(10, 0, 0, 1), None)
}

fn stated_len(msg: &[u8]) -> usize {
    u32::from_be_bytes([msg[1], msg[2], msg[3], msg[4]]) as usize
}

#[test]
fn test_build_initiation_message() {
    let msg = build_initiation_message("test-router", "Test BMP out");

    assert_eq!(msg[0], 3);
    assert_eq!(msg[5], 4);
    assert_eq!(stated_len(&msg), msg.len());
}

#[test]
fn initiation_message_octets() {
    assert_eq!(
        build_initiation_message("r", "xy"),
        vec![3, 0, 0, 0, 17, 4, 0, 1, 0, 2, b'x', b'y', 0, 2, 0, 1, b'r']
    );
}

#[test]
fn test_build_termination_message() {
    let msg = build_termination_message();

    assert_eq!(msg[0], 3);
    assert_eq!(msg[5], 5);
    assert_eq!(stated_len(&msg), msg.len());
}

#[test]
fn termination_message_octets() {
    assert_eq!(build_termination_message(), vec![3, 0, 0, 0, 12, 5, 0, 0, 0, 2, 0, 0]);
}

#[test]
fn test_build_peer_up() {
    let msg = build_peer_up(&test_peer(), true);

    assert_eq!(msg[0], 3);
    assert_eq!(msg[5], 3);
    assert_eq!(stated_len(&msg), msg.len());
}

#[test]
fn test_build_statistics_report() {
    let body: &[u8] = &[
        0x00, 0x00, 0x00, 0x01, // stats count = 1
        0x00, 0x00, // stat type = 0
        0x00, 0x04, // stat length = 4
        0x00, 0x00, 0x00, 0xAA, // stat value
    ];
    let msg = build_statistics_report(&test_peer(), body);

    assert_eq!(msg[0], 3);
    assert_eq!(msg[5], 1);
    assert_eq!(stated_len(&msg), msg.len());
    assert_eq!(msg.len(), BMP_COMMON_HEADER_LEN + BMP_PER_PEER_HEADER_LEN + body.len());
    let body_offset = BMP_COMMON_HEADER_LEN + BMP_PER_PEER_HEADER_LEN;
    assert_eq!(&msg[body_offset..], body);
}

#[test]
fn test_build_peer_down() {
    let msg = build_peer_down(&test_peer());

    assert_eq!(msg[0], 3);
    assert_eq!(msg[5], 2);
    assert_eq!(stated_len(&msg), msg.len());
    assert_eq!(*msg.last().unwrap(), 4);
}

#[test]
fn per_peer_header_octets() {
    let t = Timestamp { secs: 0x01020304, micros: 999_999 };
    let mut peer = test_peer();
    peer.peer_type = PeerType::RdInstance;
    peer.peer_distinguisher = [1, 2, 3, 4, 5, 6, 7, 8];
    peer.peer_bgp_id = [9, 9, 9, 9];
    let msg = build_peer_down_at(&peer, t);
    let mut want = vec![3, 0, 0, 0, 49, 2, 1, 0x40, 1, 2, 3, 4, 5, 6, 7, 8];
    want.extend_from_slice(&[0; 12]);
    want.extend_from_slice(&[10, 0, 0, 1]);
    want.extend_from_slice(&65000u32.to_be_bytes());
    want.extend_from_slice(&[9, 9, 9, 9]);
    want.extend_from_slice(&[1, 2, 3, 4]);
    want.extend_from_slice(&999_999u32.to_be_bytes());
    want.push(4);
    assert_eq!(msg, want);
}

#[test]
fn ipv6_peer_address_takes_the_whole_field() {
    let a = 0x2001_0db8_0000_0000_0000_0000_0000_0001u128;
    let peer = peer_with(0xc0, IpAddr::V6(a), None);
    let msg = build_peer_down(&peer);
    assert_eq!(&msg[16..32], &a.to_be_bytes());
}

#[test]
fn the_clock_is_read() {
    let t = Timestamp::now();
    // Some time after the year 2020, and below one second of microseconds.
    assert!(t.secs > 1_577_836_800);
    assert!(t.micros < 1_000_000);
    assert_eq!(Timestamp::from_clock(None), Timestamp { secs: 0, micros: 0 });
    assert_eq!(
        Timestamp::from_clock(Some((0x1_0000_0005, 1_999))),
        Timestamp { secs: 5, micros: 1 }
    );
}

#[test]
fn test_encode_prefix_nlri_v4() {
    let prefix = Prefix::new(v4(10, 0, 0, 0), 24).unwrap();

    let bytes = encode_prefix_nlri(prefix);
    assert_eq!(bytes[0], 24);
    assert_eq!(bytes[1..], [10, 0, 0]);
}

#[test]
fn test_encode_prefix_nlri_v4_host() {
    let prefix = Prefix::new(v4(192, 168, 1, 1), 32).unwrap();

    let bytes = encode_prefix_nlri(prefix);
    assert_eq!(bytes[0], 32);
    assert_eq!(bytes[1..], [192, 168, 1, 1]);
}

#[test]
fn encoded_prefixes_have_their_stated_size() {
    for len in 0..=32u8 {
        let prefix = Prefix::new(v4(0, 0, 0, 0), len).unwrap();
        assert_eq!(encode_prefix_nlri(prefix).len(), nlri_encoded_len(prefix));
        assert_eq!(nlri_encoded_len(prefix), 1 + (len as usize + 7) / 8);
    }
    let v6 = Prefix::new(IpAddr::V6(0x2001_0db8u128 << 96), 33).unwrap();
    assert_eq!(encode_prefix_nlri(v6), vec![33, 0x20, 0x01, 0x0d, 0xb8, 0x00]);
}

#[test]
fn test_filter_raw_path_attributes_empty() {
    let pamap = RotondaPaMap::default();
    let (result, next_hop) = filter_raw_path_attributes(&pamap);
    assert!(result.is_empty());
    assert!(next_hop.is_none());
}

#[test]
fn filter_drops_nlri_and_keeps_the_next_hop() {
    // ORIGIN, MP_REACH_NLRI with a next hop of four octets, an attribute with a
    // length of two octets, MP_UNREACH_NLRI, and one that is cut short.
    let pamap = RotondaPaMap::from(vec![
        0x40, 1, 1, 0, //
        0x80, 14, 9, 0, 1, 1, 4, 10, 0, 0, 9, 0, //
        0xd0, 99, 0, 2, 7, 8, //
        0x80, 15, 3, 0, 2, 1, //
        0x40, 2, 9, 1,
    ]);
    let (kept, next_hop) = filter_raw_path_attributes(&pamap);
    assert_eq!(kept, vec![0x40, 1, 1, 0, 0xd0, 99, 0, 2, 7, 8]);
    assert_eq!(next_hop, Some(vec![10, 0, 0, 9]));
}

#[test]
fn filter_takes_the_last_next_hop_that_is_whole() {
    let pamap = RotondaPaMap::from(vec![
        0x80, 14, 6, 0, 1, 1, 1, 5, 0, //
        0x80, 14, 6, 0, 1, 1, 1, 6, 0, //
        0x80, 14, 4, 0, 1, 1, 9,
    ]);
    let (kept, next_hop) = filter_raw_path_attributes(&pamap);
    assert!(kept.is_empty());
    assert_eq!(next_hop, Some(vec![6]));
}

fn capabilities(open: &[u8]) -> Vec<(u8, usize)> {
    let bgp_body = &open[19..];
    let opt_params_len = bgp_body[9] as usize;
    let opt_params = &bgp_body[10..10 + opt_params_len];
    assert_eq!(opt_params[0], 2);
    let caps = &opt_params[2..];
    let mut found = Vec::new();
    let mut pos = 0;
    while pos < caps.len() {
        let cap_len = caps[pos + 1] as usize;
        found.push((caps[pos], cap_len));
        pos += 2 + cap_len;
    }
    found
}

#[test]
fn test_bgp_open_contains_graceful_restart() {
    // IPv4-only peer: 2 (restart flags/time) + 4 (one AFI/SAFI) = 6
    let open = build_bgp_open(Asn::from_u32(65000), false, true);
    let mut found_gr = false;
    for (code, len) in capabilities(&open) {
        if code == 64 {
            found_gr = true;
            assert_eq!(len, 6);
        }
    }
    assert!(found_gr, "Graceful Restart capability not found in BGP OPEN");

    // IPv6 peer: 2 (restart flags/time) + 4*2 (two AFI/SAFIs) = 10
    let open_v6 = build_bgp_open(Asn::from_u32(65000), true, true);
    for (code, len) in capabilities(&open_v6) {
        if code == 64 {
            assert_eq!(len, 10);
        }
    }
}

#[test]
fn test_bgp_open_can_omit_graceful_restart() {
    let open = build_bgp_open(Asn::from_u32(65000), true, false);
    for (code, _) in capabilities(&open) {
        assert_ne!(code, 64);
    }
}

#[test]
fn open_states_its_size_and_a_large_as() {
    let open = build_bgp_open(Asn::from_u32(400_000), true, true);
    assert_eq!(u16::from_be_bytes([open[16], open[17]]) as usize, open.len());
    assert_eq!(open[18], 1);
    assert_eq!(open[19], 4);
    assert_eq!(u16::from_be_bytes([open[20], open[21]]), 23456);
    assert_eq!(u16::from_be_bytes([open[22], open[23]]), 90);
    let small = build_bgp_open(Asn::from_u32(65535), false, false);
    assert_eq!(u16::from_be_bytes([small[20], small[21]]), 65535);
}

#[test]
fn test_eor_ipv4_is_valid_bgp_update() {
    let msg = build_eor_ipv4(&test_peer(), Timestamp::now());
    let total_len = BMP_COMMON_HEADER_LEN + BMP_PER_PEER_HEADER_LEN + 23;
    assert_eq!(msg.len(), total_len);

    let bgp_offset = BMP_COMMON_HEADER_LEN + BMP_PER_PEER_HEADER_LEN;
    let bgp_msg = &msg[bgp_offset..];
    assert_eq!(&bgp_msg[..16], &[0xFF; 16]);
    let bgp_len = u16::from_be_bytes([bgp_msg[16], bgp_msg[17]]);
    assert_eq!(bgp_len, 23);
    assert_eq!(bgp_msg[18], BGP_MSG_UPDATE);
    assert_eq!(u16::from_be_bytes([bgp_msg[19], bgp_msg[20]]), 0);
    assert_eq!(u16::from_be_bytes([bgp_msg[21], bgp_msg[22]]), 0);
}

#[test]
fn test_eor_ipv6_has_mp_unreach_nlri() {
    let peer = peer_with(
        0xC0,
        IpAddr::V6(0x2001_0db8_0000_0000_0000_0000_0000_0001),
        None,
    );

    let msg = build_eor_mp_unreach(&peer, AfiSafiType::Ipv6Unicast, Timestamp::now());

    let bgp_offset = BMP_COMMON_HEADER_LEN + BMP_PER_PEER_HEADER_LEN;
    let bgp_msg = &msg[bgp_offset..];
    assert_eq!(&bgp_msg[..16], &[0xFF; 16]);
    assert_eq!(bgp_msg[18], BGP_MSG_UPDATE);
    assert_eq!(u16::from_be_bytes([bgp_msg[19], bgp_msg[20]]), 0);
    let pa_len = u16::from_be_bytes([bgp_msg[21], bgp_msg[22]]) as usize;
    assert_eq!(pa_len, 6);
    assert_eq!(bgp_msg[23], 0x80);
    assert_eq!(bgp_msg[24], 15);
    assert_eq!(bgp_msg[25], 3);
    assert_eq!(u16::from_be_bytes([bgp_msg[26], bgp_msg[27]]), 2);
    assert_eq!(bgp_msg[28], 1);
}

#[test]
fn every_family_has_an_end_of_rib_marker() {
    let peer = test_peer();
    let t = Timestamp { secs: 1, micros: 2 };
    assert_eq!(
        build_end_of_rib_marker_at(&peer, AfiSafiType::Ipv4Unicast, t),
        Some(build_eor_ipv4(&peer, t))
    );
    assert_eq!(
        build_end_of_rib_marker_at(&peer, AfiSafiType::Ipv6Unicast, t),
        Some(build_eor_mp_unreach(&peer, AfiSafiType::Ipv6Unicast, t))
    );
    let msg = build_end_of_rib_marker(&peer, AfiSafiType::Ipv4Multicast).unwrap();
    assert_eq!(&msg[48 + 23..], &[0x80, 15, 3, 0, 1, 2]);
    let msg = build_end_of_rib_marker(&peer, AfiSafiType::Unsupported(0x102, 9)).unwrap();
    assert_eq!(&msg[48 + 23..], &[0x80, 15, 3, 1, 2, 9]);
}

#[test]
fn test_escape_json_string() {
    assert_eq!(escape_json_string("hello"), "hello");
    assert_eq!(escape_json_string(r#"say "hi""#), r#"say \"hi\""#);
    assert_eq!(escape_json_string("back\\slash"), "back\\\\slash");
    assert_eq!(escape_json_string("line\nbreak"), "line\\nbreak");
    assert_eq!(escape_json_string("tab\there"), "tab\\there");
    assert_eq!(escape_json_string("cr\rhere"), "cr\\rhere");
    assert_eq!(escape_json_string("bell\x07"), "bell\\u0007");
}

#[test]
fn every_control_character_is_escaped() {
    for n in 0..0x180u32 {
        let c = char::from_u32(n).unwrap();
        let text = escape_json_string(&c.to_string());
        let want = match c {
            '"' => "\\\"".to_string(),
            '\\' => "\\\\".to_string(),
            '\n' => "\\n".to_string(),
            '\r' => "\\r".to_string(),
            '\t' => "\\t".to_string(),
            c if c.is_control() => format!("\\u{:04x}", n),
            c => c.to_string(),
        };
        assert_eq!(text, want);
    }
}

#[test]
fn test_build_admin_label_json() {
    let json = build_admin_label_json(Some("router1"), Some("Cisco IOS"));
    assert_eq!(json.unwrap(), r#"{"sysName":"router1","sysDescr":"Cisco IOS"}"#);

    let json = build_admin_label_json(Some("router1"), None);
    assert_eq!(json.unwrap(), r#"{"sysName":"router1"}"#);

    let json = build_admin_label_json(None, Some("Cisco IOS"));
    assert_eq!(json.unwrap(), r#"{"sysDescr":"Cisco IOS"}"#);

    assert!(build_admin_label_json(None, None).is_none());

    assert!(build_admin_label_json(Some("no-sysname"), Some("no-sysdesc")).is_none());

    let json = build_admin_label_json(Some(r#"rtr "A""#), None);
    assert_eq!(json.unwrap(), r#"{"sysName":"rtr \"A\""}"#);
}

#[test]
fn placeholders_count_only_in_their_place() {
    assert!(build_admin_label_json(Some(""), Some("")).is_none());
    assert_eq!(
        build_admin_label_json(Some("no-sysdesc"), Some("no-sysdesc")).unwrap(),
        r#"{"sysName":"no-sysdesc"}"#
    );
}

#[test]
fn test_build_peer_up_with_admin_label() {
    let label = r#"{"sysName":"router1"}"#;
    let peer = peer_with(0x40, v4(10, 0, 0, 1), Some(label.to_string()));

    let msg = build_peer_up(&peer, true);

    assert_eq!(msg[0], 3);
    assert_eq!(msg[5], 3);
    assert_eq!(stated_len(&msg), msg.len());

    let tlv_offset = msg.len() - 4 - label.len();
    assert_eq!(u16::from_be_bytes([msg[tlv_offset], msg[tlv_offset + 1]]), 4);
    assert_eq!(
        u16::from_be_bytes([msg[tlv_offset + 2], msg[tlv_offset + 3]]),
        label.len() as u16
    );
    assert_eq!(&msg[tlv_offset + 4..], label.as_bytes());
}

#[test]
fn a_label_that_is_too_long_is_left_out() {
    let t = Timestamp { secs: 1, micros: 2 };
    let plain = build_peer_up_at(&test_peer(), false, t);
    let long = peer_with(0x40, v4(10, 0, 0, 1), Some("x".repeat(65536)));
    assert_eq!(build_peer_up_at(&long, false, t), plain);
    let fits = peer_with(0x40, v4(10, 0, 0, 1), Some("x".repeat(65535)));
    assert_eq!(build_peer_up_at(&fits, false, t).len(), plain.len() + 4 + 65535);
}

fn pd_from_msg(msg: &[u8]) -> [u8; 8] {
    let off = BMP_COMMON_HEADER_LEN + 2;
    msg[off..off + 8].try_into().expect("pd slice")
}

fn make_peer(pd: [u8; 8]) -> PeerInfo {
    PeerInfo {
        peer_type: PeerType::GlobalInstance,
        peer_flags: 0x40,
        peer_distinguisher: pd,
        peer_address: IpAddr::V6(0x2001_07f8_006c_0000_0000_0000_0000_0230),
        peer_asn: Asn::from_u32(6939),
        peer_bgp_id: [0u8; 4],
        admin_label: None,
    }
}

#[test]
fn fan_in_tag_is_non_zero_and_stable() {
    let t1a = fan_in_distinguisher_tag(7);
    let t1b = fan_in_distinguisher_tag(7);
    assert_eq!(t1a, t1b, "tag must be deterministic for same parent IngressId");
    assert_ne!(t1a, [0u8; 8], "tag must never be zero");
}

#[test]
fn fan_in_tag_is_the_hash_of_prefix_and_id() {
    for id in [0u32, 1, 7, 0x01020304, u32::MAX] {
        let mut hasher = std::collections::hash_map::DefaultHasher::new();
        hasher.write(b"rotonda:bmp-out:fan-in:v1");
        hasher.write_u32(id);
        assert_eq!(fan_in_distinguisher_tag(id), hasher.finish().to_be_bytes());
    }
}

#[test]
fn fan_in_tag_differs_per_parent() {
    let mut tags: Vec<[u8; 8]> = (1..=64).map(fan_in_distinguisher_tag).collect();
    tags.sort();
    let original_len = tags.len();
    tags.dedup();
    assert_eq!(
        tags.len(),
        original_len,
        "fan-in tags collided across distinct parent IngressIds"
    );
}

#[test]
fn apply_fan_in_only_stamps_zero_pd() {
    let tag = fan_in_distinguisher_tag(42);
    let mut p = make_peer([0u8; 8]);
    p.apply_fan_in_distinguisher(tag);
    assert_eq!(p.peer_distinguisher, tag);

    let real_rd = [1, 2, 3, 4, 9, 9, 9, 9];
    let mut p = make_peer(real_rd);
    p.apply_fan_in_distinguisher(tag);
    assert_eq!(p.peer_distinguisher, real_rd, "must not overwrite real RD");
}

#[test]
fn fan_in_two_upstreams_same_peer_produce_different_pd_on_wire() {
    let tag_a = fan_in_distinguisher_tag(101);
    let tag_b = fan_in_distinguisher_tag(202);
    assert_ne!(tag_a, tag_b);
    assert_ne!(tag_a, [0u8; 8]);
    assert_ne!(tag_b, [0u8; 8]);

    let mut peer_a = make_peer([0u8; 8]);
    peer_a.apply_fan_in_distinguisher(tag_a);

    let mut peer_b = make_peer([0u8; 8]);
    peer_b.apply_fan_in_distinguisher(tag_b);

    let msg_a = build_peer_up(&peer_a, false);
    let msg_b = build_peer_up(&peer_b, false);

    let pd_a = pd_from_msg(&msg_a);
    let pd_b = pd_from_msg(&msg_b);

    assert_eq!(pd_a, tag_a);
    assert_eq!(pd_b, tag_b);
    assert_ne!(pd_a, pd_b);
    assert_ne!(pd_a, [0u8; 8]);
}

#[test]
fn fan_in_pd_consistent_across_message_types_for_one_upstream() {
    let tag = fan_in_distinguisher_tag(303);
    let mut peer = make_peer([0u8; 8]);
    peer.apply_fan_in_distinguisher(tag);

    let pd_peer_up = pd_from_msg(&build_peer_up(&peer, false));
    let pd_peer_down = pd_from_msg(&build_peer_down(&peer));
    let pd_eor = pd_from_msg(&build_eor_ipv4(&peer, Timestamp::now()));
    let pd_eor6 = pd_from_msg(&build_eor_mp_unreach(
        &peer,
        AfiSafiType::Ipv6Unicast,
        Timestamp::now(),
    ));
    let pd_stats = pd_from_msg(&build_statistics_report(&peer, &[0u8, 0, 0, 0]));

    assert_eq!(pd_peer_up, tag);
    assert_eq!(pd_peer_down, tag);
    assert_eq!(pd_eor, tag);
    assert_eq!(pd_eor6, tag);
    assert_eq!(pd_stats, tag);
}

#[test]
fn fan_in_preserves_inbound_non_zero_pd_on_wire() {
    let real_rd = [0u8, 1, 0, 0xfd, 0xe9, 0, 0, 1];
    let tag = fan_in_distinguisher_tag(404);
    let mut peer = make_peer(real_rd);
    peer.apply_fan_in_distinguisher(tag);

    assert_eq!(peer.peer_distinguisher, real_rd);
    assert_eq!(pd_from_msg(&build_peer_up(&peer, false)), real_rd);
    assert_eq!(pd_from_msg(&build_peer_down(&peer)), real_rd);
}

#[test]
fn aggregated_v4_packs_multiple_nlri() {
    let peer = peer_with(0, v4(10, 0, 0, 1), None);
    let pamap = RotondaPaMap::from(vec![0x40, 1, 1, 0]); // ORIGIN=IGP
    let (pa_bytes, nh) = filter_raw_path_attributes(&pamap);
    let prefixes = vec![
        Prefix::new(v4(10, 1, 0, 0), 24).unwrap(),
        Prefix::new(v4(10, 2, 0, 0), 24).unwrap(),
        Prefix::new(v4(10, 3, 0, 0), 16).unwrap(),
    ];
    let msg = build_aggregated_route_monitoring_at(
        &peer,
        &prefixes,
        &pa_bytes,
        nh.as_deref(),
        true,
        Timestamp::now(),
    );

    assert_eq!(msg[0], BMP_VERSION);
    assert_eq!(msg[5], BMP_MSG_ROUTE_MONITORING);
    assert_eq!(stated_len(&msg), msg.len());

    let bgp = &msg[BMP_COMMON_HEADER_LEN + BMP_PER_PEER_HEADER_LEN..];
    let bgp_len = u16::from_be_bytes([bgp[16], bgp[17]]) as usize;
    assert_eq!(bgp_len, bgp.len());
    assert_eq!(bgp[18], BGP_MSG_UPDATE);
    assert_eq!(u16::from_be_bytes([bgp[19], bgp[20]]), 0);
    let pa_len = u16::from_be_bytes([bgp[21], bgp[22]]) as usize;
    assert_eq!(pa_len, pa_bytes.len());
    // NLRI: (1+3) + (1+3) + (1+2) = 11 bytes for the three prefixes.
    let nlri = &bgp[23 + pa_len..];
    assert_eq!(nlri.len(), 11);
    assert_eq!(nlri[0], 24);
    assert!(bgp_len <= MAX_BGP_UPDATE_LEN);
}

#[test]
fn updates_for_both_families() {
    let attrs = vec![0x40, 1, 1, 0, 0x80, 14, 7, 0, 2, 1, 2, 0xfe, 0x80, 0];
    let pamap = RotondaPaMap::from(attrs);
    let p4 = Prefix::new(v4(10, 0, 0, 0), 8).unwrap();
    let p6 = Prefix::new(IpAddr::V6(0x2001_0db8u128 << 96), 32).unwrap();

    let msg = build_bgp_update(p4, &pamap, false).unwrap();
    assert_eq!(&msg[19..], &[0, 0, 0, 4, 0x40, 1, 1, 0, 8, 10]);
    let msg = build_bgp_update(p4, &pamap, true).unwrap();
    assert_eq!(&msg[19..], &[0, 2, 8, 10, 0, 0]);
    let msg = build_bgp_update(p6, &pamap, false).unwrap();
    assert_eq!(
        &msg[19..],
        &[
            0, 0, 0, 19, 0x40, 1, 1, 0, 0x80, 14, 12, 0, 2, 1, 2, 0xfe, 0x80, 0, 32, 0x20, 0x01,
            0x0d, 0xb8
        ]
    );
    let msg = build_bgp_update(p6, &pamap, true).unwrap();
    assert_eq!(
        &msg[19..],
        &[0, 0, 0, 11, 0x80, 15, 8, 0, 2, 1, 32, 0x20, 0x01, 0x0d, 0xb8]
    );
}

#[test]
fn an_update_that_does_not_fit_is_dropped() {
    // One attribute of the largest size: 4 + 65535 octets.
    let mut attrs = vec![0xd0, 99, 0xff, 0xff];
    attrs.extend(std::iter::repeat(0).take(65535));
    let pamap = RotondaPaMap::from(attrs);
    let prefix = Prefix::new(v4(10, 0, 0, 0), 8).unwrap();
    assert!(build_bgp_update(prefix, &pamap, false).is_none());
    assert!(build_route_monitoring(&test_peer(), prefix, &pamap, false).is_none());
    assert!(build_route_monitoring(&test_peer(), prefix, &pamap, true).is_some());

    // The largest that fits: 19 + 4 + attributes + 2 octets of NLRI.
    let fits = 65535 - 19 - 4 - 2 - 4;
    let mut attrs = vec![0xd0, 99, (fits >> 8) as u8, (fits & 0xff) as u8];
    attrs.extend(std::iter::repeat(0).take(fits));
    let pamap = RotondaPaMap::from(attrs);
    assert_eq!(build_bgp_update(prefix, &pamap, false).unwrap().len(), 65535);
}

#[test]
fn routes_of_every_family_become_messages() {
    let pamap = RotondaPaMap::from(vec![0x40, 1, 1, 0]);
    let p4 = Prefix::new(v4(10, 0, 0, 0), 8).unwrap();
    let p6 = Prefix::new(IpAddr::V6(0), 0).unwrap();
    for route in [
        RotondaRoute::Ipv4Unicast(p4, pamap.clone()),
        RotondaRoute::Ipv6Unicast(p6, pamap.clone()),
        RotondaRoute::Ipv4Multicast(p4, pamap.clone()),
        RotondaRoute::Ipv6Multicast(p6, pamap.clone()),
    ] {
        let msg = build_route_monitoring_from_route(&test_peer(), &route, false).unwrap();
        assert_eq!(msg[5], BMP_MSG_ROUTE_MONITORING);
        assert_eq!(stated_len(&msg), msg.len());
    }
}

#[test]
fn a_peer_is_described_by_its_source() {
    let info = IngressInfo::new();
    let peer = PeerInfo::from_ingress_info(&info);
    assert_eq!(peer.peer_type, PeerType::GlobalInstance);
    assert_eq!(peer.peer_flags, 0x40);
    assert_eq!(peer.peer_address, v4(0, 0, 0, 0));
    assert_eq!(peer.peer_asn, Asn::from_u32(0));

    let flags = |rib| {
        PeerInfo::from_ingress_info(
            &IngressInfo::new().with_remote_addr(IpAddr::V6(1)).with_peer_rib_type(rib),
        )
        .peer_flags
    };
    assert_eq!(flags(PeerRibType::InPre), 0x80);
    assert_eq!(flags(PeerRibType::InPost), 0xc0);
    assert_eq!(flags(PeerRibType::OutPre), 0x90);
    assert_eq!(flags(PeerRibType::OutPost), 0xd0);
    assert_eq!(flags(PeerRibType::Loc), 0xc0);
}

#[test]
fn statistics_keep_unknown_elements() {
    let t = Timestamp { secs: 1, micros: 2 };
    let body = [0, 0, 0, 1, 0xff, 0xff, 0, 1, 42];
    let msg = build_statistics_report_at(&test_peer(), &body, t);
    assert_eq!(&msg[48..], &body);
}

#[test]
fn attributes_of_an_old_session_are_filtered_alike() {
    let attrs = vec![0x40, 1, 1, 0];
    let old = RotondaPaMap::new(OwnedPathAttributes::new(PduParseInfo::legacy(), attrs.clone()));
    assert_eq!(filter_raw_path_attributes(&old), (attrs, None));
}

#[test]
fn escaped_text_is_read_back_by_a_json_parser() {
    let mut text = String::new();
    for n in 0..0x300u32 {
        text.push(char::from_u32(n).unwrap());
    }
    for t in [text.as_str(), "", "\\u0041", "\"}", "\u{10ffff}\u{2028}"] {
        let json = format!("\"{}\"", escape_json_string(t));
        assert_eq!(serde_json::from_str::<String>(&json).unwrap(), t);
    }
    let label = build_admin_label_json(Some("a\"b\n"), Some("c\\d\u{7f}")).unwrap();
    let value: serde_json::Value = serde_json::from_str(&label).unwrap();
    assert_eq!(value["sysName"], "a\"b\n");
    assert_eq!(value["sysDescr"], "c\\d\u{7f}");
}

#[test]
fn built_messages_are_accepted_by_the_parser() {
    let peer = test_peer();
    let pamap = RotondaPaMap::from(vec![0x40, 1, 1, 0]);
    let p4 = Prefix::new(v4(10, 0, 0, 0), 8).unwrap();
    let p6 = Prefix::new(IpAddr::V6(0x2001_0db8u128 << 96), 32).unwrap();
    let messages = vec![
        build_initiation_message("name", "description"),
        build_termination_message(),
        build_peer_up(&peer, true),
        build_peer_up(&peer, false),
        build_peer_down(&peer),
        build_route_monitoring(&peer, p4, &pamap, false).unwrap(),
        build_route_monitoring(&peer, p4, &pamap, true).unwrap(),
        build_route_monitoring(&peer, p6, &pamap, false).unwrap(),
        build_route_monitoring(&peer, p6, &pamap, true).unwrap(),
        build_statistics_report(&peer, &[0, 0, 0, 1, 0, 0, 0, 4, 0, 0, 0, 1]),
        build_end_of_rib_marker(&peer, AfiSafiType::Ipv4Unicast).unwrap(),
        build_end_of_rib_marker(&peer, AfiSafiType::Ipv6Unicast).unwrap(),
        build_aggregated_route_monitoring_at(
            &peer,
            &[p6, p6],
            &[0x40, 1, 1, 0],
            None,
            false,
            Timestamp::now(),
        ),
    ];
    for msg in messages {
        match bmp_read(&msg, TracingMode::Off) {
            Ok((read, _)) => assert_eq!(read, msg),
            Err(e) => panic!("message type {}: {}", msg[5], e.message()),
        }
    }
}

#[test]
fn different_prefixes_have_different_nlri() {
    let mut seen = std::collections::BTreeSet::new();
    for len in 0..=32u8 {
        for n in [0u32, u32::MAX, 0x0a00_0000, 0x0a0a_0a0a] {
            let mask = if len == 0 { 0 } else { u32::MAX << (32 - len) };
            let prefix = Prefix::new(IpAddr::V4(n & mask), len).unwrap();
            seen.insert((encode_prefix_nlri(prefix), n & mask, len));
        }
    }
    let nlris: std::collections::BTreeSet<&Vec<u8>> = seen.iter().map(|s| &s.0).collect();
    assert_eq!(nlris.len(), seen.len());
}
