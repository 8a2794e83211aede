use rotonda::ingress::{IngressInfo, IngressState, IngressType, Register};
use rotonda::net::{AfiSafiType, Asn, IpAddr, PeerType, Prefix, PrefixError};
use rotonda::payload::{
    hash_bytes, shows_attribute, OutputBatch, OutputStreamMessage, OwnedPathAttributes, PathAttributeInterner,
    Payload, PayloadBatch, PduParseInfo, RotondaPaMap, RotondaRoute, RouteStatus, StatsBody,
    RouteOrigin, RtrUpdate, Update, UpstreamStatus, WithdrawBatch, WithdrawnSource,
};
use rotonda::units::rib_unit::rpki::{RovStatus, RpkiInfo};
use rotonda::wire::{push_u16, push_u64, read_u16};
use std::collections::hash_map::DefaultHasher;
use std::hash::{Hash, Hasher};
use std::sync::Arc;

fn v4(a: u8, b: u8, c: u8, d: u8) -> IpAddr {
    IpAddr::V4(u32::from_be_bytes([a, b, c, d]))
}

fn payload(trace: Option<u8>, id: u32) -> Payload {
    let prefix = Prefix::new(v4(10, 0, 0, 0), 8).unwrap();
    let route = RotondaRoute::Ipv4Unicast(prefix, RotondaPaMap::default());
    Payload::new(route, trace, id, RouteStatus::Active)
}

#[test]
fn interned_copies_are_shared() {
    let mut interner = PathAttributeInterner::new();
    let a = interner.intern(&[1, 2, 3]);
    let b = interner.intern(&[1, 2, 3]);
    let c = interner.intern(&[1, 2, 4]);
    assert!(Arc::ptr_eq(&a, &b));
    assert!(!Arc::ptr_eq(&a, &c));
    assert_eq!(&a[..], &[1, 2, 3]);
    assert_eq!(&c[..], &[1, 2, 4]);
    drop(a);
    drop(b);
    let again = interner.intern(&[1, 2, 3]);
    assert_eq!(&again[..], &[1, 2, 3]);
}

#[test]
fn routes_share_their_attributes() {
    let mut interner = PathAttributeInterner::default();
    let a = RotondaPaMap::from(vec![0x40, 1, 1, 0]).dedup_with(&mut interner);
    let b = RotondaPaMap::from(vec![0x40, 1, 1, 0]).dedup_with(&mut interner);
    assert!(a == b);
    assert!(Arc::ptr_eq(&a.raw_arc(), &b.raw_arc()));
}

#[test]
fn content_is_hashed_as_a_slice() {
    let mut hasher = DefaultHasher::new();
    [1u8, 2, 3][..].hash(&mut hasher);
    assert_eq!(hash_bytes(&[1, 2, 3]), hasher.finish());
}

#[test]
fn attributes_are_read_back() {
    for ppi in [PduParseInfo::modern(), PduParseInfo::legacy()] {
        let four = ppi.four_octet_enabled();
        let pamap = RotondaPaMap::new(OwnedPathAttributes::new(ppi, vec![7, 8, 9]));
        assert_eq!(pamap.as_ref(), &[0, four as u8, 7, 8, 9]);
        let pa = pamap.path_attributes();
        assert_eq!(pa.as_slice(), &[7, 8, 9]);
        assert_eq!(pa.pdu_parse_info().four_octet_enabled(), four);
        assert_eq!(pa.into_vec(), vec![7, 8, 9]);
        assert_eq!(pamap.rpki_info().rov_status(), RovStatus::NotChecked);
        assert!(RotondaPaMap::from_raw_arc(pamap.raw_arc()) == pamap);
    }
    assert_eq!(RotondaPaMap::empty_path_attributes().as_ref(), &[0, 1]);
}

#[test]
fn rpki_information_is_set_on_one_copy() {
    let mut a = RotondaPaMap::from(vec![0x40, 1, 1, 0]);
    let b = a.clone();
    for status in [RovStatus::NotFound, RovStatus::Valid, RovStatus::Invalid, RovStatus::NotChecked]
    {
        a.set_rpki_info(RpkiInfo::new(status));
        assert_eq!(a.rpki_info().rov_status(), status);
        assert_eq!(b.rpki_info().rov_status(), RovStatus::NotChecked);
        assert_eq!(a.path_attributes().as_slice(), b.path_attributes().as_slice());
        assert_eq!(RpkiInfo::from_octet(RpkiInfo::new(status).to_octet()).rov_status(), status);
    }
}

#[test]
fn withdrawn_nlri_are_not_shown() {
    assert!(!shows_attribute(15, None));
    assert!(!shows_attribute(15, Some(&vec![15])));
    assert!(shows_attribute(1, None));
    assert!(shows_attribute(1, Some(&vec![2, 1])));
    assert!(!shows_attribute(3, Some(&vec![2, 1])));
    assert!(!shows_attribute(1, Some(&vec![])));
}

#[test]
fn routes_know_their_family() {
    let p = Prefix::new(v4(10, 0, 0, 0), 8).unwrap();
    let m = RotondaPaMap::from(vec![1]);
    let families = [
        (RotondaRoute::Ipv4Unicast(p, m.clone()), AfiSafiType::Ipv4Unicast),
        (RotondaRoute::Ipv6Unicast(p, m.clone()), AfiSafiType::Ipv6Unicast),
        (RotondaRoute::Ipv4Multicast(p, m.clone()), AfiSafiType::Ipv4Multicast),
        (RotondaRoute::Ipv6Multicast(p, m.clone()), AfiSafiType::Ipv6Multicast),
    ];
    for (mut route, afisafi) in families {
        assert_eq!(route.afisafi(), afisafi);
        assert_eq!(route.prefix(), p);
        assert!(*route.rotonda_pamap() == m);
        assert_eq!(route.owned_map().as_slice(), &[1]);
        let copy = route.clone();
        assert!(copy == route);
        route.rotonda_pamap_mut().set_rpki_info(RpkiInfo::new(RovStatus::Valid));
        assert!(copy != route);
    }
}

#[test]
fn the_moment_of_receipt_does_not_count_for_equality() {
    let a = payload(Some(1), 1);
    let b = payload(Some(1), 2);
    assert!(a == b);
    assert!(a != payload(Some(2), 1));
    let c = Payload::with_received(
        a.rx_value.clone(),
        a.trace_id(),
        a.received,
        7,
        RouteStatus::Withdrawn,
    );
    assert!(a == c);
    assert_eq!((c.ingress_id, c.received), (7, a.received));
}

#[test]
fn batches_keep_their_order() {
    let mut batch = PayloadBatch::new();
    for i in 0..20 {
        batch.push(payload(Some(i), i as u32));
    }
    let copy = batch.clone();
    assert_eq!(copy.len(), 20);
    for i in 0..20 {
        assert_eq!(copy.get(i).ingress_id, i as u32);
    }
    let mut sources = WithdrawBatch::new();
    for i in 0..20 {
        sources.push(WithdrawnSource { ingress_id: i, ingress_info: None });
    }
    let copy = sources.clone();
    assert_eq!(copy.len(), 20);
    assert_eq!(copy.get(19).ingress_id, 19);
}

#[test]
fn traced_routes_are_found() {
    let mut batch = PayloadBatch::new();
    batch.push(payload(None, 1));
    batch.push(payload(Some(3), 2));
    batch.push(payload(Some(4), 3));
    let update = Update::from(batch);
    let ids: Vec<u32> = update.trace_ids().iter().map(|p| p.ingress_id).collect();
    assert_eq!(ids, vec![2, 3]);
    let update = Update::from([payload(Some(5), 8), payload(None, 9)]);
    assert_eq!(update.trace_ids()[0].ingress_id, 8);
    assert_eq!(Update::from(payload(None, 1)).trace_ids().len(), 0);
    assert_eq!(Update::from(payload(Some(0), 1)).trace_ids().len(), 1);
    assert_eq!(Update::IngressReappeared(1).trace_ids().len(), 0);
}

#[test]
fn updates_are_charged_for_what_they_hold() {
    let base = std::mem::size_of::<Update>();
    assert_eq!(Update::IngressReappeared(1).shallow_bytes(), base);
    let mut batch = PayloadBatch::new();
    batch.push(payload(None, 1));
    batch.push(payload(None, 1));
    assert_eq!(
        Update::from(batch).shallow_bytes(),
        base + 2 * std::mem::size_of::<Payload>()
    );
    let msg = OutputStreamMessage {
        name: String::new(),
        topic: String::new(),
        record: Vec::new(),
        ingress_id: None,
    };
    let mut messages = OutputBatch::new();
    messages.push(msg);
    assert_eq!(messages.clone().len(), 1);
    assert_eq!(
        Update::OutputStream(Box::new(messages)).shallow_bytes(),
        base + std::mem::size_of::<OutputStreamMessage>()
    );
    let mut sources = WithdrawBatch::new();
    sources.push(WithdrawnSource { ingress_id: 1, ingress_info: None });
    assert_eq!(
        Update::WithdrawBulk(Box::new(sources)).shallow_bytes(),
        base + std::mem::size_of::<WithdrawnSource>()
    );
}

#[test]
fn statistics_are_kept_as_they_came() {
    let body = StatsBody::new(&[1, 2, 3]);
    assert_eq!(body.clone().as_slice(), &[1, 2, 3]);
}

#[test]
fn prefixes_have_no_host_bits() {
    assert_eq!(Prefix::new(v4(10, 0, 0, 1), 8), Err(PrefixError::NonZeroHost));
    assert_eq!(Prefix::new(v4(10, 0, 0, 0), 33), Err(PrefixError::LenOverflow));
    assert_eq!(Prefix::new(IpAddr::V6(1), 127), Err(PrefixError::NonZeroHost));
    assert_eq!(Prefix::new(IpAddr::V6(1), 129), Err(PrefixError::LenOverflow));
    let p = Prefix::new(IpAddr::V6(1), 128).unwrap();
    assert_eq!((p.addr(), p.len(), p.is_v4()), (IpAddr::V6(1), 128, false));
    assert!(p.addr().is_ipv6());
}

#[test]
fn numbers_on_the_wire() {
    assert_eq!(PeerType::GlobalInstance.to_u8(), 0);
    assert_eq!(PeerType::RdInstance.to_u8(), 1);
    assert_eq!(PeerType::Unimplemented(77).to_u8(), 77);
    assert_eq!(AfiSafiType::Ipv6Multicast.to_codes(), (2, 2));
    assert_eq!(AfiSafiType::L2VpnEvpn.to_codes(), (25, 70));
    let mut out = Vec::new();
    push_u16(&mut out, 0x1234);
    push_u64(&mut out, 5);
    assert_eq!(out, vec![0x12, 0x34, 0, 0, 0, 0, 0, 0, 0, 5]);
    assert_eq!(read_u16(0x12, 0x34), 0x1234);
    let mut name = String::new();
    AfiSafiType::Unsupported(7, 8).push_name(&mut name);
    assert_eq!(name, "UnsupportedAfiSafi(7, 8)");
}

#[test]
fn sources_are_registered_and_found() {
    let mut register = Register::new();
    let a = register.register();
    let b = register.register();
    assert_ne!(a, b);
    assert!(register.get(999).is_none());
    let connected = IngressInfo::new()
        .with_ingress_type(IngressType::Bgp)
        .with_state(IngressState::Connected)
        .with_remote_asn(Asn::from_u32(1));
    register.update_info(a, connected);
    register.update_info(b, IngressInfo::new().with_ingress_type(IngressType::Bgp));
    assert_eq!(register.search(IngressType::Bgp, None).len(), 2);
    let live = register.search(IngressType::Bgp, Some(IngressState::Connected));
    assert_eq!(live.len(), 1);
    assert_eq!(live[0].ingress_id, a);
    assert_eq!(register.search(IngressType::Rtr, None).len(), 0);
    assert_eq!(register.cloned_info().len(), 2);
    assert_eq!(register.get(a).unwrap().remote_asn, Some(Asn::from_u32(1)));
}

#[test]
fn statuses_have_names() {
    assert_eq!(RouteStatus::Active.name(), "active");
    assert_eq!(RouteStatus::InActive.name(), "inactive");
    assert_eq!(RouteStatus::Withdrawn.name(), "withdrawn");
}

#[test]
fn copies_of_updates_carry_the_same() {
    let origin = RouteOrigin {
        prefix: Prefix::new(v4(10, 0, 0, 0), 8).unwrap(),
        max_len: 24,
        asn: Asn::from_u32(65000),
    };
    let mut sources = WithdrawBatch::new();
    sources.push(WithdrawnSource {
        ingress_id: 3,
        ingress_info: Some(IngressInfo::new().with_name("x").with_peer_type(PeerType::RdInstance)),
    });
    let mut messages = OutputBatch::new();
    messages.push(OutputStreamMessage {
        name: "n".to_string(),
        topic: "t".to_string(),
        record: vec![1, 2],
        ingress_id: Some(4),
    });
    let updates = vec![
        Update::from(payload(Some(1), 1)),
        Update::from([payload(Some(1), 1), payload(None, 2)]),
        Update::Withdraw(5, Some(AfiSafiType::Ipv4Unicast)),
        Update::WithdrawBulk(Box::new(sources)),
        Update::IngressReappeared(6),
        Update::UpstreamStatusChange(UpstreamStatus::EndOfStream { ingress_id: 7 }),
        Update::OutputStream(Box::new(messages)),
        Update::Rtr(RtrUpdate::Full(vec![origin])),
        Update::Rtr(RtrUpdate::Delta { announced: vec![origin], withdrawn: vec![] }),
        Update::PeerStats { ingress_id: 8, body: StatsBody::new(&[9]) },
    ];
    for update in &updates {
        assert_eq!(format!("{:?}", update.clone()), format!("{:?}", update));
    }
}
