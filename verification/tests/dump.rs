use rotonda::ingress::{IngressInfo, IngressState, IngressType, Register};
use rotonda::net::{Asn, IpAddr, Prefix};
use rotonda::payload::{RotondaPaMap, RotondaRoute, RouteStatus};
use rotonda::units::bmp_tcp_out::aggregator::CollectingSink;
use rotonda::units::bmp_tcp_out::bmp_builder::build_initiation_message;
use rotonda::units::bmp_tcp_out::client_handler::FanInPeerDistinguisher;
use rotonda::units::bmp_tcp_out::client_state::ClientState;
use rotonda::units::bmp_tcp_out::dump::{
    dump_peers, end_dump, end_of_rib_messages, start_dump, DumpAction, DumpRun,
};
use rotonda::units::bmp_tcp_out::dump_walk::{walk_table, DumpWalk, TableWalk};
use rotonda::units::rib_unit::records::{PrefixRecord, RouteRecord};
use rotonda::units::rib_unit::rib::Rib;

fn v4(a: u8, b: u8, c: u8, d: u8) -> IpAddr {
    IpAddr::V4(u32::from_be_bytes([a, b, c, d]))
}

fn sink() -> CollectingSink {
    CollectingSink::new()
}

fn source(register: &mut Register, t: IngressType, s: Option<IngressState>) -> u32 {
    let id = register.register();
    let mut info = IngressInfo::new()
        .with_ingress_type(t)
        .with_remote_addr(v4(10, 0, 0, id as u8))
        .with_remote_asn(Asn::from_u32(65000 + id));
    if let Some(s) = s {
        info = info.with_state(s);
    }
    register.update_info(id, info);
    id
}

fn record(id: u32, status: RouteStatus) -> RouteRecord {
    RouteRecord {
        multi_uniq_id: id,
        ltime: 0,
        status,
        meta: RotondaPaMap::from(vec![0x40, 1, 1, 0]),
    }
}

#[test]
fn live_sessions_and_replayed_files_are_dumped() {
    let mut register = Register::new();
    let connected = Some(IngressState::Connected);
    let mrt = source(&mut register, IngressType::Mrt, None);
    let bgp = source(&mut register, IngressType::Bgp, connected);
    source(&mut register, IngressType::Bgp, Some(IngressState::Disconnected));
    let via = source(&mut register, IngressType::BgpViaBmp, connected);
    source(&mut register, IngressType::BgpViaBmp, Some(IngressState::Disconnected));
    source(&mut register, IngressType::Bmp, connected);
    let peers = dump_peers(&register);
    let ids: Vec<u32> = peers.iter().map(|p| p.ingress_id).collect();
    assert_eq!(ids, vec![via, bgp, mrt]);

    let (ups, map) = start_dump(&peers, &register, false, FanInPeerDistinguisher::Off);
    assert_eq!(ups.len(), 3);
    assert_eq!(map.len(), 3);
    for (i, up) in ups.iter().enumerate() {
        assert_eq!(up.ingress_id, ids[i]);
        assert_eq!(up.peer_up[5], 3);
        assert_eq!(up.peer_info.peer_asn, Asn::from_u32(65000 + ids[i]));
    }
}

#[test]
fn a_dump_takes_its_course() {
    let mut register = Register::new();
    let connected = Some(IngressState::Connected);
    let a = source(&mut register, IngressType::Bgp, connected);
    let b = source(&mut register, IngressType::Bgp, connected);
    let off = FanInPeerDistinguisher::Off;
    let mut client = ClientState::new(10, 1000);
    let (mut run, map) = DumpRun::new("name", "descr", &register, false, off);
    assert_eq!(map.len(), 2);
    let found = map[&a].clone();
    let mut types = Vec::new();
    let mut action = run.perform_initial_dump(&mut client, true);
    let mut walked = false;
    loop {
        match action {
            DumpAction::Send(msg) => {
                if types.is_empty() {
                    assert_eq!(msg, build_initiation_message("name", "descr"));
                }
                types.push(msg[5])
            }
            DumpAction::Walk => {
                walked = true;
                assert!(client.has_known_peer(a) && client.has_known_peer(b));
                assert!(!client.has_known_peer(77));
                assert_eq!(types, vec![4, 3, 3]);
                run.walk_ended(&vec![(77, found.clone())]);
            }
            DumpAction::Drain => break,
            DumpAction::GiveUp => panic!("the dump was given up"),
        }
        action = run.perform_initial_dump(&mut client, true);
    }
    assert!(walked);
    // Two markers for each of the three peers.
    assert_eq!(types, vec![4, 3, 3, 0, 0, 0, 0, 0, 0]);
    assert!(client.has_known_peer(77));
}

#[test]
fn a_dump_to_a_consumer_that_is_gone_is_given_up() {
    let mut client = ClientState::new(10, 1000);
    let off = FanInPeerDistinguisher::Off;
    let (mut run, map) = DumpRun::new("", "", &Register::new(), false, off);
    assert!(map.is_empty());
    assert!(matches!(run.perform_initial_dump(&mut client, true), DumpAction::Send(_)));
    assert!(matches!(run.perform_initial_dump(&mut client, false), DumpAction::GiveUp));
    assert!(matches!(run.perform_initial_dump(&mut client, true), DumpAction::GiveUp));
}

#[test]
fn a_walk_dumps_each_route_of_a_peer_once() {
    let mut register = Register::new();
    let connected = Some(IngressState::Connected);
    let a = source(&mut register, IngressType::Bgp, connected);
    let off = FanInPeerDistinguisher::Off;
    let (_, map) = start_dump(&dump_peers(&register), &register, false, off);
    // A peer that came after the list was made.
    let late = source(&mut register, IngressType::BgpViaBmp, connected);

    let mut walk = DumpWalk::new(map);
    let mut sink = sink();
    for i in 0..10u8 {
        let pr = PrefixRecord {
            prefix: Prefix::new(v4(10, i, 0, 0), 16).unwrap(),
            meta: vec![
                record(a, RouteStatus::Active),
                record(late, RouteStatus::Active),
                record(999, RouteStatus::Active),
            ],
        };
        assert!(walk.visit(&pr, &register, false, off, &mut sink));
    }
    assert_eq!(walk.discovered().len(), 1);
    assert_eq!(walk.discovered()[0].0, late);
    // Only the Peer Up of the late peer went out so far.
    assert_eq!(sink.messages.len(), 1);
    assert_eq!(sink.messages[0].0[5], 3);
    assert!(walk.finish(&mut sink));
    let routes: usize = sink.messages.iter().map(|m| m.1).sum();
    assert_eq!(routes, 20);
    assert_eq!(sink.messages.len(), 3);
    assert_eq!(walk.stats().0, 2);
}

#[test]
fn a_walk_ends_when_the_consumer_is_gone() {
    let register = {
        let mut r = Register::new();
        source(&mut r, IngressType::Bgp, Some(IngressState::Connected));
        r
    };
    let off = FanInPeerDistinguisher::Off;
    let mut walk = DumpWalk::new(Default::default());
    let mut sink = CollectingSink { messages: Vec::new(), limit: Some(1) };
    let id = dump_peers(&register)[0].ingress_id;
    let pr = PrefixRecord {
        prefix: Prefix::new(v4(10, 0, 0, 0), 16).unwrap(),
        meta: vec![record(id, RouteStatus::Active)],
    };
    assert!(!walk.visit(&pr, &register, false, off, &mut sink));
}

#[test]
fn markers_name_their_family() {
    let mut register = Register::new();
    source(&mut register, IngressType::Bgp, Some(IngressState::Connected));
    let off = FanInPeerDistinguisher::Off;
    let (ups, _) = start_dump(&dump_peers(&register), &register, false, off);
    let (ipv4, ipv6) = end_of_rib_messages(&ups[0].peer_info);
    assert_eq!(ipv4.len(), 48 + 23);
    assert_eq!(&ipv6[48 + 23..], &[0x80, 15, 3, 0, 2, 1]);
    let marks = end_dump(&ups, &vec![(5, ups[0].peer_info.clone())]);
    assert_eq!(marks.len(), 2);
    assert!(!marks[0].found && marks[1].found);
    assert_eq!(marks[1].ingress_id, 5);
}

#[test]
fn a_walk_over_the_table_sends_every_live_route_once() {
    let mut register = Register::new();
    let connected = Some(IngressState::Connected);
    let a = source(&mut register, IngressType::Bgp, connected);
    let gone = source(&mut register, IngressType::Bgp, connected);
    let off = FanInPeerDistinguisher::Off;
    let (_, map) = start_dump(&dump_peers(&register), &register, false, off);
    let late = source(&mut register, IngressType::Mrt, None);
    let mut rib = Rib::new().unwrap();
    for i in 0..30u8 {
        for id in [a, gone, late, 999] {
            let prefix = Prefix::new(v4(10, i, 0, 0), 16).unwrap();
            let route = RotondaRoute::Ipv4Unicast(prefix, RotondaPaMap::from(vec![0x40, 1, 1, 0]));
            rib.insert(&route, RouteStatus::Active, 1, id, true, true).unwrap();
        }
    }
    let v6 = Prefix::new(IpAddr::V6(0x2001_0db8u128 << 96), 32).unwrap();
    let route = RotondaRoute::Ipv6Unicast(v6, RotondaPaMap::from(vec![0x40, 1, 1, 0]));
    rib.insert(&route, RouteStatus::Active, 1, a, true, true).unwrap();
    rib.withdraw_for_ingress(gone, None, true);

    let mut sink = sink();
    let (walk, open) = walk_table(&rib, map, &register, false, off, &mut sink);
    assert!(open);
    assert_eq!(sink.messages.iter().map(|m| m.1).sum::<usize>(), 61);
    // One Peer Up, and one message for each peer and family.
    assert_eq!(sink.messages.len(), 4);
    assert_eq!(sink.messages[0].0[5], 3);
    assert_eq!(walk.discovered().len(), 1);
    assert_eq!(walk.discovered()[0].0, late);
    assert_eq!(walk.routes_seen(a), 31);
    assert_eq!(walk.routes_seen(late), 30);
    assert_eq!(walk.routes_seen(gone), 0);
    assert_eq!(walk.routes_skipped(999), 30);

    // The same, step by step.
    let (_, map) = DumpRun::new("", "", &register, false, off);
    let mut steps = TableWalk::new(&rib, map);
    let mut n = 0;
    let mut routes = 0;
    while !steps.is_over() {
        let mut sink = CollectingSink::new();
        assert!(steps.step(&rib, &register, false, off, &mut sink));
        routes += sink.messages.iter().map(|m| m.1).sum::<usize>();
        n += 1;
    }
    // One step for each prefix, and one for the end.
    assert_eq!((n, routes), (32, 61));
    let mut sink = CollectingSink::new();
    assert!(steps.step(&rib, &register, false, off, &mut sink));
    assert!(sink.messages.is_empty());
    let walk = steps.into_walk();
    assert!(walk.discovered().is_empty());
    assert_eq!(walk.routes_seen(late), 30);
}

#[test]
fn a_walk_over_the_table_stops_at_a_refusal() {
    let mut register = Register::new();
    let a = source(&mut register, IngressType::Bgp, Some(IngressState::Connected));
    let off = FanInPeerDistinguisher::Off;
    let mut rib = Rib::new().unwrap();
    let mut sink = CollectingSink { messages: Vec::new(), limit: Some(1) };
    // An empty table: nothing is refused.
    let (walk, open) = walk_table(&rib, Default::default(), &register, false, off, &mut sink);
    assert!(open && walk.discovered().is_empty() && sink.messages.is_empty());
    for i in 0..3u8 {
        let prefix = Prefix::new(v4(10, i, 0, 0), 16).unwrap();
        let route = RotondaRoute::Ipv4Unicast(prefix, RotondaPaMap::from(vec![0x40, 1, 1, 0]));
        rib.insert(&route, RouteStatus::Active, 1, a, true, true).unwrap();
    }
    let (walk, open) = walk_table(&rib, Default::default(), &register, false, off, &mut sink);
    assert!(!open);
    assert_eq!(sink.messages.len(), 1);
    assert!(walk.discovered().is_empty());
}
