use rotonda::ingress::{IngressInfo, IngressState, IngressType, Register};
use rotonda::mem_stats::{bmp_out_snapshot, BmpOutCounters};
use rotonda::net::{AfiSafiType, Asn, IpAddr, PeerType, Prefix};
use rotonda::payload::{
    OutputBatch, Payload, PayloadBatch, RotondaPaMap, RotondaRoute, RouteStatus, StatsBody, Update,
    WithdrawBatch, WithdrawnSource,
};
use rotonda::units::bmp_tcp_out::bmp_builder::{
    fan_in_distinguisher_tag, PeerInfo, BMP_MSG_PEER_DOWN, BMP_MSG_PEER_UP,
    BMP_MSG_ROUTE_MONITORING, BMP_MSG_STATISTICS_REPORT,
};
use rotonda::units::bmp_tcp_out::client_handler::{
    build_peer_info_for_emit, resolve_admin_label, send_failed, send_payload_to_client,
    send_peer_down, send_peer_reappeared, send_peer_stats, send_update_to_client, update_parts,
    FanInPeerDistinguisher, Outgoing,
};
use rotonda::units::bmp_tcp_out::client_state::{
    BufferUpdateResult, ClientPhase, ClientState, SendOutcome,
};
use rotonda::units::bmp_tcp_out::drain_run::{DrainAction, DrainRun};
use rotonda::units::bmp_tcp_out::update_run::{UpdateAction, UpdateRun};

fn v4(a: u8, b: u8, c: u8, d: u8) -> IpAddr {
    IpAddr::V4(u32::from_be_bytes([a, b, c, d]))
}

fn types_of(plan: &[Outgoing]) -> Vec<u8> {
    plan.iter().map(|o| o.msg[5]).collect()
}

fn route() -> RotondaRoute {
    let prefix = Prefix::new(v4(10, 0, 0, 0), 8).unwrap();
    RotondaRoute::Ipv4Unicast(prefix, RotondaPaMap::from(vec![0x40, 1, 1, 0]))
}

fn payload(id: u32) -> Payload {
    Payload::new(route(), None, id, RouteStatus::Active)
}

/// A register with a router and a session that it reports.
fn router_and_peer() -> (Register, u32, u32) {
    let mut register = Register::new();
    let parent = register.register();
    let peer = register.register();
    register.update_info(
        parent,
        IngressInfo::new()
            .with_ingress_type(IngressType::Bmp)
            .with_name("edge")
            .with_desc("a router"),
    );
    register.update_info(
        peer,
        IngressInfo::new()
            .with_ingress_type(IngressType::BgpViaBmp)
            .with_state(IngressState::Connected)
            .with_parent_ingress(parent)
            .with_remote_addr(v4(10, 0, 0, 1))
            .with_remote_asn(Asn::from_u32(65001)),
    );
    (register, parent, peer)
}

#[test]
fn build_peer_info_stamps_pd_from_parent_ingress() {
    let mut register = Register::default();
    let parent_a = register.register();
    let parent_b = register.register();
    register.update_info(parent_a, IngressInfo::new().with_name("router-edge-1"));
    register.update_info(parent_b, IngressInfo::new().with_name("router-edge-2"));

    let peer_for = |parent_id| {
        IngressInfo::new()
            .with_parent_ingress(parent_id)
            .with_remote_addr(IpAddr::V6(0x2001_07f8_006c_0000_0000_0000_0000_0230))
            .with_remote_asn(Asn::from_u32(6939))
    };

    let info_a = peer_for(parent_a);
    let info_b = peer_for(parent_b);

    let pi_a = build_peer_info_for_emit(
        &info_a,
        &register,
        false,
        FanInPeerDistinguisher::IngressHash,
    );
    let pi_b = build_peer_info_for_emit(
        &info_b,
        &register,
        false,
        FanInPeerDistinguisher::IngressHash,
    );
    assert_ne!(pi_a.peer_distinguisher, [0u8; 8]);
    assert_ne!(pi_b.peer_distinguisher, [0u8; 8]);
    assert_ne!(pi_a.peer_distinguisher, pi_b.peer_distinguisher);
    assert_eq!(pi_a.peer_distinguisher, fan_in_distinguisher_tag(parent_a));

    let off_a =
        build_peer_info_for_emit(&info_a, &register, false, FanInPeerDistinguisher::Off);
    let off_b =
        build_peer_info_for_emit(&info_b, &register, false, FanInPeerDistinguisher::Off);
    assert_eq!(off_a.peer_distinguisher, [0u8; 8]);
    assert_eq!(off_b.peer_distinguisher, [0u8; 8]);
}

#[test]
fn build_peer_info_no_parent_leaves_pd_zero() {
    let register = Register::default();
    let info = IngressInfo::new();
    let pi = build_peer_info_for_emit(
        &info,
        &register,
        false,
        FanInPeerDistinguisher::IngressHash,
    );
    assert_eq!(pi.peer_distinguisher, [0u8; 8]);
}

#[test]
fn build_peer_info_preserves_real_rd() {
    let mut register = Register::default();
    let parent = register.register();
    let real_rd = [0u8, 1, 0, 0xfd, 0xe9, 0, 0, 7];
    let info = IngressInfo::new().with_parent_ingress(parent).with_distinguisher(real_rd);
    let pi = build_peer_info_for_emit(
        &info,
        &register,
        false,
        FanInPeerDistinguisher::IngressHash,
    );
    assert_eq!(pi.peer_distinguisher, real_rd);
}

#[test]
fn the_label_names_the_router() {
    let (register, _, peer) = router_and_peer();
    let info = register.get(peer).unwrap();
    assert_eq!(
        resolve_admin_label(info, &register, true).unwrap(),
        r#"{"sysName":"edge","sysDescr":"a router"}"#
    );
    assert!(resolve_admin_label(info, &register, false).is_none());
    // Without a router, or with one that is not registered, there is none.
    assert!(resolve_admin_label(&IngressInfo::new(), &register, true).is_none());
    let orphan = IngressInfo::new().with_parent_ingress(999);
    assert!(resolve_admin_label(&orphan, &register, true).is_none());
}

#[test]
fn fan_in_is_enabled_by_the_hash() {
    assert!(FanInPeerDistinguisher::IngressHash.is_enabled());
    assert!(!FanInPeerDistinguisher::Off.is_enabled());
}

#[test]
fn the_first_route_of_a_peer_brings_its_peer_up() {
    let (register, _, peer) = router_and_peer();
    let mut client = ClientState::new(10, 10_000);
    let off = FanInPeerDistinguisher::Off;
    let plan = send_payload_to_client(&mut client, &payload(peer), &register, true, off);
    assert_eq!(types_of(&plan), vec![BMP_MSG_PEER_UP, BMP_MSG_ROUTE_MONITORING]);
    assert_eq!(plan[0].peer_up_for, Some(peer));
    assert_eq!(plan[1].peer_up_for, None);
    assert!(client.has_known_peer(peer));
    assert_eq!(client.cached_peer_info(peer).unwrap().peer_asn, Asn::from_u32(65001));
    let plan = send_payload_to_client(&mut client, &payload(peer), &register, true, off);
    assert_eq!(types_of(&plan), vec![BMP_MSG_ROUTE_MONITORING]);
}

#[test]
fn a_peer_up_that_could_not_be_sent_is_sent_again() {
    let (register, _, peer) = router_and_peer();
    let mut client = ClientState::new(10, 10_000);
    let off = FanInPeerDistinguisher::Off;
    let plan = send_payload_to_client(&mut client, &payload(peer), &register, true, off);
    send_failed(&mut client, &plan[1]);
    assert!(client.has_known_peer(peer));
    send_failed(&mut client, &plan[0]);
    assert!(!client.has_known_peer(peer));
    assert!(client.cached_peer_info(peer).is_none());
    let plan = send_payload_to_client(&mut client, &payload(peer), &register, true, off);
    assert_eq!(types_of(&plan), vec![BMP_MSG_PEER_UP, BMP_MSG_ROUTE_MONITORING]);
}

#[test]
fn a_known_peer_goes_down_once() {
    let (register, _, peer) = router_and_peer();
    let mut client = ClientState::new(10, 10_000);
    let off = FanInPeerDistinguisher::Off;
    let plan = send_peer_down(&mut client, peer, None, &register, true, off);
    assert!(plan.is_empty());
    send_payload_to_client(&mut client, &payload(peer), &register, true, off);
    let plan = send_peer_down(&mut client, peer, None, &register, true, off);
    assert_eq!(types_of(&plan), vec![BMP_MSG_PEER_DOWN]);
    assert!(!client.has_known_peer(peer));
    let plan = send_peer_down(&mut client, peer, None, &register, true, off);
    assert!(plan.is_empty());
}

#[test]
fn peer_up_and_peer_down_agree_on_the_distinguisher() {
    let (register, parent, peer) = router_and_peer();
    let mut client = ClientState::new(10, 10_000);
    let hash = FanInPeerDistinguisher::IngressHash;
    let up = send_payload_to_client(&mut client, &payload(peer), &register, true, hash);
    let tag = fan_in_distinguisher_tag(parent);
    assert_eq!(&up[0].msg[8..16], &tag);
    assert_eq!(&up[1].msg[8..16], &tag);
    let down = send_peer_down(&mut client, peer, None, &register, true, hash);
    assert_eq!(&down[0].msg[8..16], &tag);
}

#[test]
fn a_peer_that_reappears_is_announced_unless_known() {
    let (register, _, peer) = router_and_peer();
    let mut client = ClientState::new(10, 10_000);
    let off = FanInPeerDistinguisher::Off;
    let plan = send_peer_reappeared(&mut client, peer, &register, true, off);
    assert_eq!(types_of(&plan), vec![BMP_MSG_PEER_UP]);
    let plan = send_peer_reappeared(&mut client, peer, &register, true, off);
    assert!(plan.is_empty());
    let plan = send_peer_reappeared(&mut client, 12345, &register, true, off);
    assert!(plan.is_empty());
}

#[test]
fn statistics_are_passed_on_for_known_peers() {
    let (register, _, peer) = router_and_peer();
    let mut client = ClientState::new(10, 10_000);
    let off = FanInPeerDistinguisher::Off;
    send_payload_to_client(&mut client, &payload(peer), &register, true, off);
    let body = [0, 0, 0, 0];
    let plan = send_peer_stats(&mut client, peer, &body, &register, true, off);
    assert_eq!(types_of(&plan), vec![BMP_MSG_STATISTICS_REPORT]);
    assert_eq!(&plan[0].msg[48..], &body);
}

#[test]
fn updates_are_sent_part_by_part() {
    let (register, _, peer) = router_and_peer();
    let mut client = ClientState::new(10, 10_000);
    let off = FanInPeerDistinguisher::Off;
    let send = |client: &mut ClientState, update: &Update| {
        let mut types = Vec::new();
        for part in 0..update_parts(update) {
            let plan = send_update_to_client(client, update, part, &register, false, off);
            types.extend(types_of(&plan));
        }
        types
    };

    let mut batch = PayloadBatch::new();
    batch.push(payload(peer));
    batch.push(payload(peer));
    let bulk = Update::from(batch);
    assert_eq!(update_parts(&bulk), 2);
    assert_eq!(
        send(&mut client, &bulk),
        vec![BMP_MSG_PEER_UP, BMP_MSG_ROUTE_MONITORING, BMP_MSG_ROUTE_MONITORING]
    );
    assert_eq!(
        send(&mut client, &Update::from(payload(peer))),
        vec![BMP_MSG_ROUTE_MONITORING]
    );
    let stats = Update::PeerStats { ingress_id: peer, body: StatsBody::new(&[0, 0, 0, 0]) };
    assert_eq!(send(&mut client, &stats), vec![BMP_MSG_STATISTICS_REPORT]);
    assert_eq!(send(&mut client, &Update::Withdraw(peer, None)), vec![BMP_MSG_PEER_DOWN]);
    assert_eq!(send(&mut client, &Update::IngressReappeared(peer)), vec![BMP_MSG_PEER_UP]);

    let mut sources = WithdrawBatch::new();
    sources.push(WithdrawnSource { ingress_id: peer, ingress_info: Some(IngressInfo::new()) });
    sources.push(WithdrawnSource { ingress_id: 777, ingress_info: None });
    let bulk = Update::WithdrawBulk(Box::new(sources));
    assert_eq!(update_parts(&bulk), 2);
    assert_eq!(send(&mut client, &bulk), vec![BMP_MSG_PEER_DOWN]);
    assert_eq!(update_parts(&Update::OutputStream(Box::new(OutputBatch::new()))), 0);
}

#[test]
fn a_withdrawal_of_one_family_ends_the_session_too() {
    let (register, _, peer) = router_and_peer();
    let mut client = ClientState::new(10, 10_000);
    let off = FanInPeerDistinguisher::Off;
    client.add_known_peer(peer);
    let update = Update::Withdraw(peer, Some(AfiSafiType::Ipv4Unicast));
    let plan = send_update_to_client(&mut client, &update, 0, &register, false, off);
    assert_eq!(types_of(&plan), vec![BMP_MSG_PEER_DOWN]);
    assert!(!client.has_known_peer(peer));
}

#[test]
fn what_was_known_of_a_source_that_is_gone_is_used() {
    let register = Register::new();
    let mut client = ClientState::new(10, 10_000);
    client.add_known_peer(4);
    let info = IngressInfo::new().with_remote_asn(Asn::from_u32(65009));
    let off = FanInPeerDistinguisher::Off;
    let plan = send_peer_down(&mut client, 4, Some(&info), &register, false, off);
    assert_eq!(&plan[0].msg[32..36], &65009u32.to_be_bytes());
}

#[test]
fn updates_are_buffered_within_limits() {
    let size = Update::from(payload(1)).shallow_bytes();
    let mut client = ClientState::new(2, size * 10);
    assert_eq!(client.phase(), ClientPhase::Dumping);
    let buffer = |client: &mut ClientState| client.buffer_update_if_dumping(payload(1).into());
    assert_eq!(buffer(&mut client), BufferUpdateResult::Buffered);
    assert_eq!(buffer(&mut client), BufferUpdateResult::Buffered);
    assert_eq!(client.buffered(), (2, size * 2));
    assert_eq!(buffer(&mut client), BufferUpdateResult::Overflow);

    let mut client = ClientState::new(10, size * 2);
    assert_eq!(buffer(&mut client), BufferUpdateResult::Buffered);
    assert_eq!(buffer(&mut client), BufferUpdateResult::Buffered);
    assert_eq!(buffer(&mut client), BufferUpdateResult::Overflow);
}

#[test]
fn a_client_goes_live_once_its_buffer_is_drained() {
    let mut client = ClientState::new(10, 1_000_000);
    client.buffer_update_if_dumping(payload(1).into());
    client.buffer_update_if_dumping(payload(2).into());
    let batch = client.drain_or_go_live().unwrap();
    assert_eq!(batch.len(), 2);
    match (&batch[0], &batch[1]) {
        (Update::Single(a), Update::Single(b)) => {
            assert_eq!((a.ingress_id, b.ingress_id), (1, 2));
        }
        _ => panic!("the updates changed"),
    }
    assert_eq!(client.phase(), ClientPhase::Dumping);
    assert_eq!(client.buffered(), (0, 0));
    assert!(client.drain_or_go_live().is_none());
    assert_eq!(client.phase(), ClientPhase::Live);
    assert_eq!(
        client.buffer_update_if_dumping(payload(3).into()),
        BufferUpdateResult::NotDumping
    );
}

#[test]
fn the_buffer_can_be_taken() {
    let mut client = ClientState::new(10, 1_000_000);
    client.buffer_update_if_dumping(payload(1).into());
    assert_eq!(client.take_buffered_updates().len(), 1);
    assert_eq!(client.buffered(), (0, 0));
    assert!(client.take_buffered_updates().is_empty());
}

#[test]
fn messages_are_counted_once_sent() {
    let mut client = ClientState::new(1, 1);
    assert_eq!(client.send_message_mode(100, SendOutcome::Sent), (true, false));
    assert_eq!(client.totals(), (1, 100));
    assert!(client.send_message(20, true));
    assert!(!client.send_message(20, false));
    assert_eq!(client.totals(), (2, 120));
    // A consumer that does not keep up is asked to leave, once.
    assert_eq!(client.send_message_mode(50, SendOutcome::Full), (false, true));
    assert_eq!(client.totals(), (2, 120));
    assert!(client.is_leaving());
    assert!(!client.request_disconnect());
}

#[test]
fn disconnecting_is_requested_once() {
    let mut client = ClientState::new(1, 1);
    assert!(!client.is_leaving());
    assert!(client.request_disconnect());
    assert!(!client.request_disconnect());
    assert!(client.is_leaving());
}

#[test]
fn known_peers_come_and_go() {
    let mut client = ClientState::new(1, 1);
    assert!(client.register_known_peer_if_absent(4));
    assert!(!client.register_known_peer_if_absent(4));
    let peer = PeerInfo {
        peer_type: PeerType::GlobalInstance,
        peer_flags: 0,
        peer_distinguisher: [0; 8],
        peer_address: v4(10, 0, 0, 1),
        peer_asn: Asn::from_u32(1),
        peer_bgp_id: [0; 4],
        admin_label: None,
    };
    client.cache_peer_info(4, peer);
    assert!(client.cached_peer_info(4).is_some());
    assert!(client.remove_known_peer(4));
    assert!(!client.remove_known_peer(4));
    assert!(!client.has_known_peer(4));
    assert!(client.cached_peer_info(4).is_none());
}

#[test]
fn sources_that_are_not_registered_do_not_become_known() {
    let (register, _, peer) = router_and_peer();
    let mut client = ClientState::new(10, 10_000);
    let off = FanInPeerDistinguisher::Off;
    let plan = send_peer_stats(&mut client, 777, &[0, 0, 0, 0], &register, true, off);
    assert!(plan.is_empty());
    assert!(!client.has_known_peer(777));
    let plan = send_payload_to_client(&mut client, &payload(777), &register, true, off);
    assert_eq!(types_of(&plan), vec![BMP_MSG_ROUTE_MONITORING]);
    assert!(!client.has_known_peer(777));
    assert!(send_peer_down(&mut client, 777, None, &register, true, off).is_empty());
    let plan = send_peer_stats(&mut client, peer, &[0, 0, 0, 0], &register, true, off);
    assert_eq!(types_of(&plan), vec![BMP_MSG_PEER_UP, BMP_MSG_STATISTICS_REPORT]);
    assert!(client.has_known_peer(peer));
}

#[test]
fn an_update_is_sent_message_by_message() {
    let (register, _, peer) = router_and_peer();
    let mut client = ClientState::new(10, 10_000);
    let off = FanInPeerDistinguisher::Off;
    let mut batch = PayloadBatch::new();
    batch.push(payload(peer));
    batch.push(payload(peer));
    let update = Update::from(batch);

    // The Peer Up cannot be sent: nothing follows, and the peer is not known.
    let mut run = UpdateRun::new();
    let action = run.next(&mut client, &update, &register, false, off, true);
    assert!(matches!(action, UpdateAction::Send(msg) if msg[5] == BMP_MSG_PEER_UP));
    let action = run.next(&mut client, &update, &register, false, off, false);
    assert!(matches!(action, UpdateAction::Failed));
    let action = run.next(&mut client, &update, &register, false, off, true);
    assert!(matches!(action, UpdateAction::Failed));
    assert!(!client.has_known_peer(peer));

    // All goes well.
    let mut run = UpdateRun::new();
    let mut sent = Vec::new();
    loop {
        match run.next(&mut client, &update, &register, false, off, true) {
            UpdateAction::Send(msg) => sent.push(msg),
            UpdateAction::Done => break,
            UpdateAction::Failed => panic!("the update failed"),
        }
    }
    let types: Vec<u8> = sent.iter().map(|msg| msg[5]).collect();
    assert_eq!(types, vec![BMP_MSG_PEER_UP, BMP_MSG_ROUTE_MONITORING, BMP_MSG_ROUTE_MONITORING]);
    assert_eq!(&sent[0][6..40], &sent[1][6..40]);
    assert!(client.has_known_peer(peer));
    let action = run.next(&mut client, &update, &register, false, off, true);
    assert!(matches!(action, UpdateAction::Done));

    // A route that cannot be sent leaves the peer known.
    let mut run = UpdateRun::new();
    let action = run.next(&mut client, &update, &register, false, off, true);
    assert!(matches!(action, UpdateAction::Send(msg) if msg[5] == BMP_MSG_ROUTE_MONITORING));
    let action = run.next(&mut client, &update, &register, false, off, false);
    assert!(matches!(action, UpdateAction::Failed));
    assert!(client.has_known_peer(peer));

    // Nothing is sent for an update without messages.
    let none = Update::OutputStream(Box::new(OutputBatch::new()));
    let action = UpdateRun::new().next(&mut client, &none, &register, false, off, true);
    assert!(matches!(action, UpdateAction::Done));
}

#[test]
fn the_counters_follow_the_buffers() {
    let mut counters = BmpOutCounters { clients: 0, buffered_bytes: 0, buffered_entries: 0 };
    let mut clients = vec![ClientState::new(10, 100_000), ClientState::new(10, 100_000)];
    counters.client_joined();
    counters.client_joined();
    for client in &mut clients {
        let s0 = bmp_out_snapshot(&counters);
        let result = client.buffer_and_count(Update::from(payload(1)), &mut counters);
        assert_eq!(result, BufferUpdateResult::Buffered);
        let s1 = bmp_out_snapshot(&counters);
        assert_eq!(s1.buffered_entries, s0.buffered_entries + 1);
        assert_eq!(s1.clients, s0.clients);
    }
    let size = Update::from(payload(1)).shallow_bytes();
    assert_eq!(
        counters,
        BmpOutCounters { clients: 2, buffered_bytes: 2 * size, buffered_entries: 2 }
    );
    let before = clients[0].buffered();
    assert_eq!(clients[0].drain_or_go_live().unwrap().len(), 1);
    counters.buffer_changed(before, clients[0].buffered());
    assert_eq!(counters.buffered_entries, 1);
    // One that is not buffered is not counted.
    let mut full = ClientState::new(0, 0);
    let result = full.buffer_and_count(Update::from(payload(1)), &mut counters);
    assert_eq!(result, BufferUpdateResult::Overflow);
    assert_eq!(counters.buffered_entries, 1);
    counters.client_left(clients[1].buffered());
    counters.client_left(clients[0].buffered());
    assert_eq!(
        counters,
        BmpOutCounters { clients: 0, buffered_bytes: 0, buffered_entries: 0 }
    );
}

#[test]
fn buffered_updates_are_sent_in_order_until_the_client_is_live() {
    let (register, _, peer) = router_and_peer();
    let off = FanInPeerDistinguisher::Off;
    let mut client = ClientState::new(10, 100_000);
    client.buffer_update_if_dumping(Update::from(payload(peer)));
    client.buffer_update_if_dumping(Update::Withdraw(peer, None));
    let mut run = DrainRun::new();
    let mut types = Vec::new();
    loop {
        match run.next(&mut client, &register, false, off, true) {
            DrainAction::Send(msg) => {
                if types.is_empty() {
                    // This one comes while the others are being sent.
                    client.buffer_update_if_dumping(Update::from(payload(peer)));
                }
                types.push(msg[5]);
            }
            DrainAction::Live => break,
            DrainAction::Failed => panic!("the consumer is there"),
        }
    }
    let up_and_route = [BMP_MSG_PEER_UP, BMP_MSG_ROUTE_MONITORING];
    let mut expected = up_and_route.to_vec();
    expected.push(BMP_MSG_PEER_DOWN);
    expected.extend(up_and_route);
    assert_eq!(types, expected);
    assert_eq!(client.phase(), ClientPhase::Live);
    assert_eq!(client.buffered(), (0, 0));
    assert!(matches!(run.next(&mut client, &register, false, off, true), DrainAction::Live));

    // A consumer that is gone does not go live.
    let mut client = ClientState::new(10, 100_000);
    client.buffer_update_if_dumping(Update::from(payload(peer)));
    client.buffer_update_if_dumping(Update::Withdraw(peer, None));
    let mut run = DrainRun::new();
    assert!(matches!(run.next(&mut client, &register, false, off, true), DrainAction::Send(_)));
    assert!(matches!(run.next(&mut client, &register, false, off, false), DrainAction::Failed));
    assert!(matches!(run.next(&mut client, &register, false, off, true), DrainAction::Failed));
    assert_eq!(client.phase(), ClientPhase::Dumping);
    assert!(!client.has_known_peer(peer));
}
