use rotonda::net::{Asn, IpAddr, PeerType, Prefix};
use rotonda::payload::RotondaPaMap;
use rotonda::units::bmp_tcp_out::aggregator::{CollectingSink, MessageSink, RouteAggregator};
use rotonda::units::bmp_tcp_out::bmp_builder::{
    build_aggregated_route_monitoring_at, build_bgp_update, filter_raw_path_attributes, PeerInfo,
    Timestamp, BMP_COMMON_HEADER_LEN, BMP_PER_PEER_HEADER_LEN, MAX_BGP_UPDATE_LEN,
};
use std::collections::{BTreeSet, HashMap};

fn v4(a: u8, b: u8, c: u8, d: u8) -> IpAddr {
    IpAddr::V4(u32::from_be_bytes([a, b, c, d]))
}

fn agg_test_peer() -> PeerInfo {
    PeerInfo {
        peer_type: PeerType::GlobalInstance,
        peer_flags: 0,
        peer_distinguisher: [0u8; 8],
        peer_address: v4(10, 0, 0, 1),
        peer_asn: Asn::from_u32(65000),
        peer_bgp_id: [0u8; 4],
        admin_label: None,
    }
}

fn sink() -> CollectingSink {
    CollectingSink::new()
}

fn aggregator(budget: usize) -> RouteAggregator {
    let mut peers = HashMap::new();
    peers.insert(7, agg_test_peer());
    RouteAggregator::new(budget, peers)
}

fn bgp_of(msg: &[u8]) -> &[u8] {
    &msg[BMP_COMMON_HEADER_LEN + BMP_PER_PEER_HEADER_LEN..]
}

/// The NLRI in the announced-routes field of an IPv4 UPDATE.
fn nlri_of(msg: &[u8]) -> Vec<Vec<u8>> {
    let bgp = bgp_of(msg);
    let pa_len = u16::from_be_bytes([bgp[21], bgp[22]]) as usize;
    let mut rest = &bgp[23 + pa_len..];
    let mut found = Vec::new();
    while !rest.is_empty() {
        let n = 1 + (rest[0] as usize + 7) / 8;
        found.push(rest[..n].to_vec());
        rest = &rest[n..];
    }
    found
}

#[test]
fn aggregator_respects_update_size_limit() {
    let pamap = RotondaPaMap::from(vec![0x40, 1, 1, 0]);
    let mut agg = aggregator(64 * 1024 * 1024);
    let mut sink = sink();
    for i in 0..5000u32 {
        let p = Prefix::new(v4(100, (i >> 8) as u8, (i & 0xff) as u8, 0), 24).unwrap();
        assert!(agg.add(7, p, &pamap, &mut sink));
    }
    assert!(agg.flush_all(&mut sink));

    let mut total_routes = 0usize;
    for (m, n) in &sink.messages {
        total_routes += n;
        let bgp = bgp_of(m);
        let bgp_len = u16::from_be_bytes([bgp[16], bgp[17]]) as usize;
        assert_eq!(bgp_len, bgp.len());
        assert!(bgp_len <= MAX_BGP_UPDATE_LEN);
    }
    assert_eq!(total_routes, 5000);
    assert!(sink.messages.len() < 100, "expected heavy aggregation");
    assert_eq!(agg.stats(), (1, 0));
}

#[test]
fn aggregator_tiny_budget_loses_no_routes() {
    // Two distinct attribute sets so multiple groups coexist.
    let pamap_a = RotondaPaMap::from(vec![0x40, 1, 1, 0]); // ORIGIN IGP
    let pamap_b = RotondaPaMap::from(vec![0x40, 1, 1, 2]); // ORIGIN INCOMPLETE
    // Budget of 1 KiB forces frequent eviction.
    let mut agg = aggregator(1024);
    let mut sink = sink();
    for i in 0..2000u32 {
        let p = Prefix::new(v4(172, (i >> 8) as u8, (i & 0xff) as u8, 0), 24).unwrap();
        let pamap = if i % 2 == 0 { &pamap_a } else { &pamap_b };
        assert!(agg.add(7, p, pamap, &mut sink));
    }
    assert!(agg.flush_all(&mut sink));
    let delivered = sink.messages.len();
    assert!(agg.flush_all(&mut sink));
    assert_eq!(sink.messages.len(), delivered);

    let mut total = 0usize;
    let mut seen = BTreeSet::new();
    for (m, n) in &sink.messages {
        total += n;
        let bgp = bgp_of(m);
        let bgp_len = u16::from_be_bytes([bgp[16], bgp[17]]) as usize;
        assert!(bgp_len == bgp.len() && bgp_len <= MAX_BGP_UPDATE_LEN);
        let nlri = nlri_of(m);
        assert_eq!(nlri.len(), *n);
        for one in nlri {
            assert!(seen.insert(one), "a route was sent twice");
        }
    }
    assert_eq!(total, 2000);
    assert_eq!(seen.len(), 2000);
    // The budget was small enough that eviction actually fired.
    assert!(agg.stats().1 > 0, "expected budget evictions to occur");
}

#[test]
fn the_fullest_group_is_evicted_first() {
    let small = RotondaPaMap::from(vec![0x40, 1, 1, 0]);
    let large = RotondaPaMap::from(vec![0x40, 1, 1, 2]);
    // A group of one is charged 160, one of nine 416.
    let mut agg = aggregator(575);
    let mut sink = sink();
    assert!(agg.add(7, Prefix::new(v4(9, 0, 0, 0), 8).unwrap(), &small, &mut sink));
    for i in 0..9u8 {
        assert!(sink.messages.is_empty());
        let p = Prefix::new(v4(10, i, 0, 0), 16).unwrap();
        assert!(agg.add(7, p, &large, &mut sink));
    }
    assert_eq!(sink.messages.len(), 1);
    assert_eq!(sink.messages[0].1, 9);
    assert_eq!(agg.stats(), (2, 1));
    assert!(agg.flush_all(&mut sink));
    assert_eq!(sink.messages[1].1, 1);
}

#[test]
fn routes_of_unknown_sources_are_dropped() {
    let pamap = RotondaPaMap::from(vec![0x40, 1, 1, 0]);
    let prefix = Prefix::new(v4(10, 0, 0, 0), 8).unwrap();
    let mut agg = aggregator(1024);
    let mut sink = sink();
    assert!(!agg.has_peer(8));
    assert!(agg.add(8, prefix, &pamap, &mut sink));
    assert!(agg.flush_all(&mut sink));
    assert!(sink.messages.is_empty());
    agg.insert_peer(8, agg_test_peer());
    assert!(agg.has_peer(8));
    assert!(agg.add(8, prefix, &pamap, &mut sink));
    assert!(agg.flush_all(&mut sink));
    assert_eq!(sink.messages.len(), 1);
}

#[test]
fn families_and_sources_are_kept_apart() {
    let pamap = RotondaPaMap::from(vec![0x40, 1, 1, 0]);
    let mut agg = aggregator(64 * 1024);
    agg.insert_peer(8, agg_test_peer());
    let mut sink = sink();
    let p4 = Prefix::new(v4(10, 0, 0, 0), 8).unwrap();
    let p6 = Prefix::new(IpAddr::V6(0x2001_0db8u128 << 96), 32).unwrap();
    for (id, p) in [(7, p4), (7, p6), (8, p4), (8, p6)] {
        assert!(agg.add(id, p, &pamap, &mut sink));
    }
    assert!(agg.flush_all(&mut sink));
    assert_eq!(sink.messages.len(), 4);
    assert_eq!(agg.stats().0, 4);
    // The IPv6 prefix goes into an MP_REACH_NLRI with a length of two octets.
    let with_reach = sink
        .messages
        .iter()
        .filter(|(m, _)| bgp_of(m).windows(2).any(|w| w == [0x90, 14]))
        .count();
    assert_eq!(with_reach, 2);
}

#[test]
fn attributes_without_room_go_on_their_own() {
    // Attributes of 4090 octets leave no room under the limit of 4096.
    let mut attrs = vec![0xd0, 99, 0x0f, 0xf6];
    attrs.extend(std::iter::repeat(0).take(0x0ff6));
    let pamap = RotondaPaMap::from(attrs);
    let mut agg = aggregator(1024);
    let mut sink = sink();
    let p = Prefix::new(v4(10, 0, 0, 0), 8).unwrap();
    assert!(agg.add(7, p, &pamap, &mut sink));
    assert_eq!(sink.messages.len(), 1);
    assert_eq!(sink.messages[0].1, 1);
    assert!(bgp_of(&sink.messages[0].0).len() > MAX_BGP_UPDATE_LEN);

    // And those that fit no UPDATE at all are dropped.
    let mut attrs = vec![0xd0, 99, 0xff, 0xff];
    attrs.extend(std::iter::repeat(0).take(0xffff));
    assert!(agg.add(7, p, &RotondaPaMap::from(attrs), &mut sink));
    assert!(agg.flush_all(&mut sink));
    assert_eq!(sink.messages.len(), 1);
}

#[test]
fn a_gone_consumer_ends_the_walk() {
    let pamap = RotondaPaMap::from(vec![0x40, 1, 1, 0]);
    let mut agg = aggregator(0);
    let mut sink = CollectingSink { messages: Vec::new(), limit: Some(2) };
    let p = Prefix::new(v4(10, 0, 0, 0), 8).unwrap();
    assert!(agg.add(7, p, &pamap, &mut sink));
    assert!(!agg.add(7, p, &pamap, &mut sink));
    assert_eq!(sink.messages.len(), 2);
    assert!(!sink.deliver(vec![1], 0));
}

#[test]
fn the_answer_of_a_flush_is_that_of_the_consumer() {
    let mut agg = aggregator(64 * 1024);
    agg.insert_peer(8, agg_test_peer());
    let p = Prefix::new(v4(10, 0, 0, 0), 8).unwrap();
    // Nothing is open, so nothing can be refused.
    let mut gone = CollectingSink { messages: Vec::new(), limit: Some(1) };
    assert!(agg.flush_all(&mut gone));
    assert!(gone.messages.is_empty());
    for id in [7, 8] {
        let pamap = RotondaPaMap::from(vec![0x40, 1, 1, 0]);
        assert!(agg.add(id, p, &pamap, &mut gone));
    }
    // The refused delivery is the last.
    assert!(!agg.flush_all(&mut gone));
    assert_eq!(gone.messages.len(), 1);
    let mut sink = sink();
    assert!(agg.flush_all(&mut sink));
    assert!(sink.messages.is_empty());
}

#[test]
fn one_packed_ipv4_prefix_is_the_plain_update() {
    let pamap = RotondaPaMap::from(vec![0x40, 1, 1, 0, 0x40, 3, 4, 10, 0, 0, 1]);
    let p = Prefix::new(v4(10, 20, 0, 0), 14).unwrap();
    let mut agg = aggregator(1024);
    let mut sink = sink();
    assert!(agg.add(7, p, &pamap, &mut sink));
    assert!(agg.flush_all(&mut sink));
    let plain = build_bgp_update(p, &pamap, false).unwrap();
    assert_eq!(bgp_of(&sink.messages[0].0), &plain[..]);

    // Beyond the size limit of a packed UPDATE too.
    let mut attrs = vec![0xd0, 99, 0x20, 0];
    attrs.extend(std::iter::repeat(7).take(0x2000));
    let pamap = RotondaPaMap::from(attrs);
    let (pa, _) = filter_raw_path_attributes(&pamap);
    let packed = build_aggregated_route_monitoring_at(
        &agg_test_peer(),
        &[p],
        &pa,
        None,
        true,
        Timestamp::now(),
    );
    let plain = build_bgp_update(p, &pamap, false).unwrap();
    assert!(plain.len() > MAX_BGP_UPDATE_LEN);
    assert_eq!(bgp_of(&packed), &plain[..]);
}
