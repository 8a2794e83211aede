use rotonda::ingress::{IngressInfo, PeerRibType, Register};
use rotonda::net::{AfiSafiType, Asn, IpAddr, Prefix};
use rotonda::payload::{RotondaPaMap, RotondaRoute, RouteStatus};
use rotonda::units::rib_unit::filter::{attributes_match, meets_attribute_criteria, AttributeValues};
use rotonda::units::rib_unit::http_ng::{Include, QueryFilter};
use rotonda::units::rib_unit::lines::Section;
use rotonda::units::rib_unit::rib::{
    withdrawal_plan, MatchOptions, Rib, WithdrawalPlan,
};
use rotonda::units::rib_unit::rpki::{RovStatus, RpkiInfo};
use rotonda::units::rib_unit::table::RouteTable;

fn p4(a: u8, b: u8, len: u8) -> Prefix {
    Prefix::new(IpAddr::V4(u32::from_be_bytes([a, b, 0, 0])), len).unwrap()
}

fn p6(top: u32, len: u8) -> Prefix {
    Prefix::new(IpAddr::V6((top as u128) << 96), len).unwrap()
}

/// Path attributes with an AS path that ends in `origin`.
fn attrs(origin: u32) -> Vec<u8> {
    let mut raw = vec![0x40, 1, 1, 0, 0x40, 2, 10, 2, 2, 0, 0, 0xfd, 0xe8];
    raw.extend_from_slice(&origin.to_be_bytes());
    // COMMUNITIES 65000:1, LARGE_COMMUNITIES 1:2:3, ONLY_TO_CUSTOMER 65010.
    raw.extend_from_slice(&[0xc0, 8, 4, 0xfd, 0xe8, 0, 1]);
    raw.extend_from_slice(&[0xc0, 32, 12, 0, 0, 0, 1, 0, 0, 0, 2, 0, 0, 0, 3]);
    raw.extend_from_slice(&[0xc0, 35, 4, 0, 0, 0xfd, 0xf2]);
    raw
}

fn pamap(origin: u32) -> RotondaPaMap {
    RotondaPaMap::from(attrs(origin))
}

fn put(rib: &mut Rib, prefix: Prefix, origin: u32, id: u32) {
    let route = if prefix.is_v4() {
        RotondaRoute::Ipv4Unicast(prefix, pamap(origin))
    } else {
        RotondaRoute::Ipv6Unicast(prefix, pamap(origin))
    };
    rib.insert(&route, RouteStatus::Active, 1, id, false, true).unwrap();
}

fn options() -> MatchOptions {
    MatchOptions {
        longest: false,
        include_withdrawn: false,
        include_less_specifics: false,
        include_more_specifics: false,
        mui: None,
    }
}

const NO_FUNCTION: Option<fn(&RotondaPaMap) -> bool> = None;

#[test]
fn an_inserted_route_is_found() {
    let mut rib = Rib::new().unwrap();
    assert!(rib.has_room());
    put(&mut rib, p4(10, 0, 8), 1, 7);
    let found = rib.match_prefix(p4(10, 0, 8), &options());
    assert_eq!(found.prefix, Some(p4(10, 0, 8)));
    assert_eq!(found.records.len(), 1);
    let r = &found.records[0];
    assert_eq!((r.multi_uniq_id, r.ltime, r.status), (7, 1, RouteStatus::Active));
    assert!(r.meta == pamap(1));
    assert!(rib.match_prefix(p4(11, 0, 8), &options()).prefix.is_none());
    assert!(rib.match_prefix(p4(10, 1, 16), &options()).prefix.is_none());
    let longest = MatchOptions { longest: true, ..options() };
    assert_eq!(rib.match_prefix(p4(10, 1, 16), &longest).prefix, Some(p4(10, 0, 8)));
}

#[test]
fn a_route_replaces_the_one_of_its_source() {
    let mut rib = Rib::new().unwrap();
    let p = p4(10, 0, 8);
    let first = rib
        .insert(&RotondaRoute::Ipv4Unicast(p, pamap(1)), RouteStatus::Active, 1, 7, true, true)
        .unwrap();
    assert!(first.prefix_new && first.mui_new);
    let second = rib
        .insert(&RotondaRoute::Ipv4Unicast(p, pamap(2)), RouteStatus::Active, 2, 7, true, false)
        .unwrap();
    assert!(!second.prefix_new);
    put(&mut rib, p, 3, 8);
    let found = rib.match_prefix(p, &options());
    assert_eq!(found.records.len(), 2);
    let of = |id: u32| found.records.iter().find(|r| r.multi_uniq_id == id).unwrap();
    assert!(of(7).meta == pamap(2));
    assert_eq!(of(7).ltime, 2);
    assert!(of(8).meta == pamap(3));
    let only = rib.match_prefix(p, &MatchOptions { mui: Some(8), ..options() });
    assert_eq!(only.records.len(), 1);
    assert_eq!(only.records[0].multi_uniq_id, 8);
}

#[test]
fn more_and_less_specifics_are_listed() {
    let mut rib = Rib::new().unwrap();
    for p in [p4(10, 0, 8), p4(10, 1, 16), p4(10, 2, 16), p4(11, 0, 8)] {
        put(&mut rib, p, 1, 7);
    }
    let more = MatchOptions { include_more_specifics: true, ..options() };
    let found = rib.match_prefix(p4(10, 0, 8), &more);
    let mut below: Vec<Prefix> =
        found.more_specifics.unwrap().iter().map(|pr| pr.prefix).collect();
    below.sort_by_key(|p| p.addr() == p4(10, 2, 16).addr());
    assert_eq!(below, vec![p4(10, 1, 16), p4(10, 2, 16)]);
    assert!(found.less_specifics.is_none());
    let less = MatchOptions { include_less_specifics: true, ..options() };
    let found = rib.match_prefix(p4(10, 2, 16), &less);
    let above: Vec<Prefix> =
        found.less_specifics.unwrap().iter().map(|pr| pr.prefix).collect();
    assert_eq!(above, vec![p4(10, 0, 8)]);
}

#[test]
fn families_are_stored_apart() {
    let mut rib = Rib::new().unwrap();
    let p = p4(10, 0, 8);
    let route = RotondaRoute::Ipv4Multicast(p, pamap(5));
    rib.insert(&route, RouteStatus::Active, 1, 7, false, true).unwrap();
    assert!(rib.stored_prefixes(false, true).is_empty());
    assert_eq!(rib.stored_prefixes(true, true), vec![p]);
    assert_eq!(rib.live_records(true, p).len(), 1);
    assert_eq!(rib.live_records(false, p).len(), 0);
    // Where unicast has nothing, multicast is tried.
    let found = rib.match_prefix(p, &options());
    assert_eq!(found.records.len(), 1);
    put(&mut rib, p6(0x2001_0db8, 32), 1, 7);
    assert_eq!(rib.stored_prefixes(false, false), vec![p6(0x2001_0db8, 32)]);
    assert!(rib.stored_prefixes(false, true).is_empty());
}

#[test]
fn single_withdrawals() {
    assert_eq!(withdrawal_plan(true, false), WithdrawalPlan::Mark);
    assert_eq!(withdrawal_plan(true, true), WithdrawalPlan::Mark);
    assert_eq!(withdrawal_plan(false, true), WithdrawalPlan::Replace);
    assert_eq!(withdrawal_plan(false, false), WithdrawalPlan::Ignore);

    for retain in [true, false] {
        let mut rib = Rib::new().unwrap();
        let p = p4(10, 0, 8);
        put(&mut rib, p, 1, 7);
        put(&mut rib, p, 1, 8);
        let gone = RotondaRoute::Ipv4Unicast(p, RotondaPaMap::default());
        rib.insert(&gone, RouteStatus::Withdrawn, 2, 7, retain, true).unwrap();
        let found = rib.match_prefix(p, &options());
        assert_eq!(found.records.len(), 1);
        assert_eq!(found.records[0].multi_uniq_id, 8);
        let all = rib.match_prefix(p, &MatchOptions { include_withdrawn: true, ..options() });
        assert_eq!(all.records.len(), 2);
        let r = all.records.iter().find(|r| r.multi_uniq_id == 7).unwrap();
        assert_eq!(r.status, RouteStatus::Withdrawn);
        if retain {
            assert!(r.meta == pamap(1));
        } else {
            assert_eq!(r.meta.as_ref(), &[0, 1]);
        }
        assert_eq!(rib.live_records(false, p).len(), 1);
    }
}

#[test]
fn withdrawing_what_is_not_there() {
    let mut rib = Rib::new().unwrap();
    let gone = RotondaRoute::Ipv4Unicast(p4(10, 0, 8), RotondaPaMap::default());
    let report = rib.insert(&gone, RouteStatus::Withdrawn, 2, 7, false, true).unwrap();
    assert!(!report.prefix_new && !report.mui_new);
    assert_eq!((report.cas_count, report.mui_count), (0, 0));
    assert!(rib.stored_prefixes(false, true).is_empty());
    // With attributes retained the store is asked to mark the route: it does not
    // know the prefix the first time.
    let err = rib.insert(&gone, RouteStatus::Withdrawn, 2, 7, true, true).unwrap_err();
    assert_eq!(err, "Error: The Prefix cannot be found.");
    let again = rib.insert(&gone, RouteStatus::Withdrawn, 2, 7, true, true).unwrap();
    assert_eq!(again, report);
    assert!(rib.stored_prefixes(false, true).is_empty());
}

#[test]
fn the_report_of_an_insertion_counts_sources() {
    let mut rib = Rib::new().unwrap();
    let route = RotondaRoute::Ipv4Unicast(p4(10, 0, 8), pamap(1));
    let mut insert = |id| rib.insert(&route, RouteStatus::Active, 1, id, false, true).unwrap();
    for (id, new, count) in [(1, true, 1), (2, false, 1), (3, false, 1), (2, false, 3)] {
        let report = insert(id);
        assert_eq!((report.prefix_new, report.mui_new), (new, true));
        assert_eq!((report.cas_count, report.mui_count), (0, count));
    }
}

#[test]
fn a_session_that_ends_and_comes_back() {
    for retain in [true, false] {
        let mut rib = Rib::new().unwrap();
        let (a, b) = (p4(10, 0, 8), p6(0x2001_0db8, 32));
        put(&mut rib, a, 1, 7);
        put(&mut rib, b, 1, 7);
        put(&mut rib, a, 1, 8);
        let refusals = rib.withdraw_for_ingress(7, None, retain);
        assert!(refusals.unicast.is_empty() && refusals.multicast.is_empty());
        assert_eq!(rib.match_prefix(a, &options()).records.len(), 1);
        assert_eq!(rib.match_prefix(b, &options()).records.len(), 0);
        assert_eq!(rib.live_records(false, b).len(), 0);
        rib.mark_ingress_active(7);
        let back = rib.match_prefix(b, &options()).records.len();
        assert_eq!(back, if retain { 1 } else { 0 });
    }
}

#[test]
fn one_family_of_a_source_is_withdrawn() {
    let mut rib = Rib::new().unwrap();
    let (a, b) = (p4(10, 0, 8), p6(0x2001_0db8, 32));
    put(&mut rib, a, 1, 7);
    put(&mut rib, b, 1, 7);
    rib.withdraw_for_ingress(7, Some(AfiSafiType::Ipv6Unicast), true);
    assert_eq!(rib.match_prefix(a, &options()).records.len(), 1);
    assert_eq!(rib.match_prefix(b, &options()).records.len(), 0);
}

#[test]
fn attributes_of_a_source_are_cleared() {
    let mut rib = Rib::new().unwrap();
    let a = p4(10, 0, 8);
    put(&mut rib, a, 1, 7);
    put(&mut rib, a, 2, 8);
    rib.compact_withdrawn_attributes_for_ingress(7, Some(AfiSafiType::Ipv4Unicast));
    let all = rib.match_prefix(a, &MatchOptions { include_withdrawn: true, ..options() });
    for r in &all.records {
        if r.multi_uniq_id == 7 {
            assert_eq!((r.status, r.meta.as_ref()), (RouteStatus::Withdrawn, &[0u8, 1][..]));
        } else {
            assert!(r.meta == pamap(2));
        }
    }
}

#[test]
fn all_routes_and_those_of_a_source() {
    let mut rib = Rib::new().unwrap();
    put(&mut rib, p4(10, 0, 8), 1, 7);
    put(&mut rib, p4(10, 0, 8), 1, 8);
    put(&mut rib, p6(0x2001_0db8, 32), 1, 7);
    let all = rib.iter_all_prefix_records();
    assert_eq!(all.len(), 2);
    assert_eq!(all.iter().map(|pr| pr.meta.len()).sum::<usize>(), 3);
    let of = rib.match_ingress_id(8);
    assert_eq!(of.len(), 1);
    assert_eq!(of[0].prefix, p4(10, 0, 8));
    assert_eq!(rib.match_ingress_id(7).len(), 2);
    assert_eq!(rib.store().all_prefixes(true, true).len(), 2);
}

#[test]
fn the_table_by_itself() {
    let mut table = RouteTable::new().unwrap();
    let p = p4(10, 0, 8);
    assert!(table.insert(p, 7, 1, RouteStatus::Active, pamap(1)).is_ok());
    assert!(!table.contains(p4(12, 0, 8), 7));
    assert!(table.mark_withdrawn_for_prefix(p, 7, 3).is_ok());
    let found = table.match_prefix(p, false, true, false, false, None);
    assert_eq!(found.records[0].status, RouteStatus::Withdrawn);
    assert_eq!(table.source_prefixes(7, true, true), vec![p]);
    assert_eq!(table.all_routes(true, false).len(), 1);
    // Of one source, only the active routes are listed.
    assert_eq!(table.source_routes(7, true).len(), 0);
    assert!(table.insert(p, 7, 4, RouteStatus::Active, pamap(1)).is_ok());
    assert_eq!(table.source_routes(7, true).len(), 1);
    table.mark_source_withdrawn(7, true, true);
    table.mark_source_active(7);
}

#[test]
fn searches_are_narrowed() {
    let mut rib = Rib::new().unwrap();
    let mut register = Register::new();
    let a = register.register();
    let b = register.register();
    register.update_info(
        a,
        IngressInfo::new()
            .with_remote_asn(Asn::from_u32(65001))
            .with_remote_addr(IpAddr::V4(1))
            .with_peer_rib_type(PeerRibType::InPre),
    );
    register.update_info(
        b,
        IngressInfo::new()
            .with_remote_asn(Asn::from_u32(65002))
            .with_remote_addr(IpAddr::V4(2))
            .with_peer_rib_type(PeerRibType::InPost),
    );
    let p = p4(10, 0, 8);
    put(&mut rib, p, 100, a);
    put(&mut rib, p, 200, b);
    let hits = |filter: QueryFilter| {
        let res = rib
            .search_routes(AfiSafiType::Ipv4Unicast, p, filter, &NO_FUNCTION, &register)
            .unwrap();
        let mut ids: Vec<u32> =
            res.query_result.records.iter().map(|r| r.multi_uniq_id).collect();
        ids.sort();
        ids
    };
    let any = || QueryFilter::default();
    assert_eq!(hits(any()), vec![a, b]);
    assert_eq!(hits(QueryFilter { origin_asn: Some(Asn(200)), ..any() }), vec![b]);
    assert_eq!(hits(QueryFilter { origin_asn: Some(Asn(300)), ..any() }), vec![]);
    assert_eq!(hits(QueryFilter { otc: Some(Asn(65010)), ..any() }), vec![a, b]);
    assert_eq!(hits(QueryFilter { otc: Some(Asn(65011)), ..any() }), vec![]);
    assert_eq!(hits(QueryFilter { community: Some(0xfde8_0001), ..any() }), vec![a, b]);
    assert_eq!(hits(QueryFilter { community: Some(0xfde8_0002), ..any() }), vec![]);
    assert_eq!(hits(QueryFilter { large_community: Some((1, 2, 3)), ..any() }), vec![a, b]);
    assert_eq!(hits(QueryFilter { large_community: Some((1, 2, 4)), ..any() }), vec![]);
    assert_eq!(hits(QueryFilter { rov_status: Some(RovStatus::NotChecked), ..any() }), vec![a, b]);
    assert_eq!(hits(QueryFilter { rov_status: Some(RovStatus::Valid), ..any() }), vec![]);
    assert_eq!(hits(QueryFilter { peer_asn: Some(Asn(65001)), ..any() }), vec![a]);
    assert_eq!(hits(QueryFilter { peer_addr: Some(IpAddr::V4(2)), ..any() }), vec![b]);
    assert_eq!(hits(QueryFilter { rib_type: Some(PeerRibType::InPre), ..any() }), vec![a]);
    assert_eq!(hits(QueryFilter { ingress_id: Some(b), ..any() }), vec![b]);
}

#[test]
fn searches_run_a_function() {
    let mut rib = Rib::new().unwrap();
    let register = Register::new();
    let p = p4(10, 0, 8);
    put(&mut rib, p, 100, 1);
    put(&mut rib, p, 200, 2);
    let function = Some(|m: &RotondaPaMap| m.as_ref()[18] == 200);
    let filter = QueryFilter { roto_function: Some("f".to_string()), ..QueryFilter::default() };
    let res =
        rib.search_routes(AfiSafiType::Ipv4Unicast, p, filter, &function, &register).unwrap();
    assert_eq!(res.query_result.records.len(), 1);
    assert_eq!(res.query_result.records[0].multi_uniq_id, 2);
    // A function that was not asked for is not run.
    let filter = QueryFilter::default();
    let res =
        rib.search_routes(AfiSafiType::Ipv4Unicast, p, filter, &function, &register).unwrap();
    assert_eq!(res.query_result.records.len(), 2);
}

#[test]
fn searches_are_refused() {
    let rib = Rib::new().unwrap();
    let register = Register::new();
    let search = |afisafi, filter| {
        rib.search_routes(afisafi, p4(10, 0, 8), filter, &NO_FUNCTION, &register).map(|_| ())
    };
    assert_eq!(
        search(AfiSafiType::L2VpnEvpn, QueryFilter::default()),
        Err("address family L2VpnEvpn unsupported".to_string())
    );
    let filter = || QueryFilter { roto_function: Some("f".to_string()), ..QueryFilter::default() };
    assert_eq!(
        search(AfiSafiType::Ipv4Unicast, filter()),
        Err("no roto function 'f' defined".to_string())
    );
    assert!(search(AfiSafiType::Ipv4Multicast, QueryFilter::default()).is_ok());
    let err = rib
        .search_and_output_routes(
            AfiSafiType::L2VpnEvpn,
            p4(10, 0, 8),
            QueryFilter::default(),
            &NO_FUNCTION,
            &register,
        )
        .unwrap_err();
    assert_eq!(err, "store error: address family L2VpnEvpn unsupported");
    assert!(rib.check_filter_and_store(AfiSafiType::Ipv4Unicast, &filter(), true).is_ok());
}

#[test]
fn answers_are_written_line_by_line() {
    let mut rib = Rib::new().unwrap();
    let mut register = Register::new();
    let id = register.register();
    register.update_info(id, IngressInfo::new().with_name("x"));
    for p in [p4(10, 0, 8), p4(10, 1, 16), p4(10, 1, 17)] {
        put(&mut rib, p, 1, id);
    }
    let filter = QueryFilter {
        included: vec![Include::MoreSpecifics, Include::LessSpecifics],
        ..QueryFilter::default()
    };
    let res = rib
        .search_routes(AfiSafiType::Ipv4Unicast, p4(10, 1, 16), filter, &NO_FUNCTION, &register)
        .unwrap();
    let lines = res.write_jsonl();
    let shape: Vec<(Prefix, &str)> = lines.iter().map(|l| (l.prefix, l.section.name())).collect();
    assert_eq!(
        shape,
        vec![
            (p4(10, 1, 16), "data"),
            (p4(10, 1, 17), "moreSpecifics"),
            (p4(10, 0, 8), "lessSpecifics"),
        ]
    );
    let keys: std::collections::BTreeSet<(String, u32)> =
        lines.iter().map(|l| (format!("{:?}", l.prefix), l.ingress_id)).collect();
    assert_eq!(keys.len(), lines.len());
    for line in &lines {
        assert_eq!((line.status, line.ingress_id), (RouteStatus::Active, id));
        assert_eq!(line.ingress.as_ref().unwrap().name.as_deref(), Some("x"));
        assert!(line.meta == pamap(1));
    }
    assert_eq!(res.ingress_info(id).unwrap().name.as_deref(), Some("x"));
    assert!(res.ingress_info(999).is_none());
    assert_eq!(res.query_filter().included.len(), 2);
}

#[test]
fn all_routes_are_streamed() {
    let mut rib = Rib::new().unwrap();
    let register = Register::new();
    for i in 0..50u8 {
        put(&mut rib, p4(10, i, 16), i as u32, 1);
        put(&mut rib, p4(10, i, 16), i as u32, 2);
    }
    rib.withdraw_for_ingress(2, None, true);
    let everything = Prefix::new(IpAddr::V4(0), 0).unwrap();
    let filter = QueryFilter::default();
    let afisafi = AfiSafiType::Ipv4Unicast;
    let prefixes = rib.start_jsonl_stream(afisafi, everything, &filter, false).unwrap();
    assert_eq!(prefixes.len(), 50);
    let info = register.cloned_info();
    let mut lines = 0;
    for p in prefixes {
        for line in
            rib.write_jsonl_stream(afisafi, everything, p, &filter, &NO_FUNCTION, &info)
        {
            assert_eq!((line.ingress_id, line.section), (1, Section::MoreSpecifics));
            lines += 1;
        }
    }
    assert_eq!(lines, 50);
    assert!(rib.start_jsonl_stream(AfiSafiType::L2VpnVpls, everything, &filter, false).is_err());
}

#[test]
fn criteria_on_given_values() {
    let values = AttributeValues {
        rov_status: RovStatus::Valid,
        otc: Some(5),
        communities: Some(vec![1, 2]),
        large_communities: None,
        origin: None,
    };
    let any = || QueryFilter::default();
    assert!(attributes_match(&any(), &values));
    assert!(attributes_match(&QueryFilter { community: Some(2), ..any() }, &values));
    assert!(!attributes_match(&QueryFilter { community: Some(3), ..any() }, &values));
    assert!(!attributes_match(&QueryFilter { large_community: Some((1, 1, 1)), ..any() }, &values));
    assert!(!attributes_match(&QueryFilter { origin_asn: Some(Asn(1)), ..any() }, &values));
    let mut meta = pamap(9);
    meta.set_rpki_info(RpkiInfo::new(RovStatus::Valid));
    let filter = QueryFilter { rov_status: Some(RovStatus::Valid), ..any() };
    assert!(meets_attribute_criteria(&filter, &meta));
    let filter = QueryFilter { origin_asn: Some(Asn(9)), ..filter };
    assert!(meets_attribute_criteria(&filter, &meta));
}

#[test]
fn criteria_on_octets_that_are_no_attributes() {
    let filter = QueryFilter {
        origin_asn: Some(Asn(1)),
        otc: Some(Asn(1)),
        community: Some(1),
        large_community: Some((1, 1, 1)),
        rov_status: Some(RovStatus::NotChecked),
        ..QueryFilter::default()
    };
    let mut x = 0x2545_f491_4f6c_dd1du64;
    for _ in 0..20_000 {
        let mut raw = attrs(1);
        for _ in 0..4 {
            x ^= x << 13;
            x ^= x >> 7;
            x ^= x << 17;
            let n = raw.len();
            raw[(x >> 8) as usize % n] = x as u8;
        }
        raw.truncate((x >> 32) as usize % 60);
        meets_attribute_criteria(&filter, &RotondaPaMap::from(raw));
    }
}

#[test]
fn criteria_on_attributes_need_readable_routes() {
    let mut rib = Rib::new().unwrap();
    let plain = QueryFilter::default();
    let asking = QueryFilter { otc: Some(Asn(1)), ..QueryFilter::default() };
    put(&mut rib, p4(10, 0, 16), 1, 1);
    let (unicast, multicast) = (AfiSafiType::Ipv4Unicast, AfiSafiType::Ipv4Multicast);
    assert!(rib.can_filter(unicast, &plain) && rib.can_filter(unicast, &asking));
    let empty = RotondaPaMap::from_raw_arc(Vec::new().into());
    let route = RotondaRoute::Ipv4Unicast(p4(10, 1, 16), empty);
    rib.insert(&route, RouteStatus::Active, 1, 1, false, true).unwrap();
    assert!(rib.can_filter(unicast, &plain) && !rib.can_filter(unicast, &asking));
    // The other table is not concerned.
    assert!(rib.can_filter(multicast, &asking));
    // The route can be read once it is replaced.
    put(&mut rib, p4(10, 1, 16), 1, 1);
    assert!(rib.can_filter(unicast, &asking));
}
