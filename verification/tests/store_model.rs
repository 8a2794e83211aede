use rotonda::net::{IpAddr, Prefix};
use rotonda::payload::{RotondaPaMap, RouteStatus};
use rotonda::units::rib_unit::records::{PrefixRecord, RouteRecord};
use rotonda::units::rib_unit::table::RouteTable;
use std::collections::{BTreeMap, BTreeSet};

/// A sequence of numbers that looks random.
struct Numbers(u64);

impl Numbers {
    fn next(&mut self, below: u64) -> u64 {
        self.0 ^= self.0 << 13;
        self.0 ^= self.0 >> 7;
        self.0 ^= self.0 << 17;
        (self.0 >> 11) % below
    }
}

/// A prefix as a key: family, address and length.
type Key = (bool, u128, u8);

fn key(p: Prefix) -> Key {
    match p.addr() {
        IpAddr::V4(n) => (true, n as u128, p.len()),
        IpAddr::V6(n) => (false, n, p.len()),
    }
}

fn covers(a: Key, b: Key) -> bool {
    let width = if a.0 { 32 } else { 128 };
    if a.0 != b.0 || a.2 > b.2 {
        return false;
    }
    if a.2 == 0 {
        return true;
    }
    let shift = width - a.2 as u32;
    a.1 >> shift == b.1 >> shift
}

fn some_prefix(numbers: &mut Numbers) -> Prefix {
    let v4 = numbers.next(2) == 0;
    let lens: [u8; 8] = if v4 {
        [0, 1, 8, 9, 16, 24, 31, 32]
    } else {
        [0, 1, 16, 32, 33, 64, 127, 128]
    };
    let len = lens[numbers.next(8) as usize];
    let bits = [0u128, u128::MAX, 0x0a0a_0a0a_0a0a_0a0a_0a0a_0a0a_0a0a_0a0a, 1 << 127 | 0xffff]
        [numbers.next(4) as usize];
    if v4 {
        let n = (bits >> 96) as u32;
        let mask = if len == 0 { 0 } else { u32::MAX << (32 - len) };
        Prefix::new(IpAddr::V4(n & mask), len).unwrap()
    } else {
        let mask = if len == 0 { 0 } else { u128::MAX << (128 - len) };
        Prefix::new(IpAddr::V6(bits & mask), len).unwrap()
    }
}

#[derive(Default)]
struct Model {
    routes: BTreeMap<(Key, u32), (u64, RouteStatus, u8)>,
    withdrawn: BTreeSet<(bool, u32)>,
    // The prefixes that were stored or marked.
    places: BTreeSet<Key>,
}

type Row = (u32, u64, &'static str, u8);

impl Model {
    fn seen(&self, p: Key, only: Option<u32>, include_withdrawn: bool) -> BTreeSet<Row> {
        let mut rows = BTreeSet::new();
        for ((k, mui), (ltime, status, tag)) in &self.routes {
            if *k != p || only.map_or(false, |m| m != *mui) {
                continue;
            }
            let gone = self.withdrawn.contains(&(p.0, *mui));
            if include_withdrawn {
                let status = if gone { RouteStatus::Withdrawn } else { *status };
                rows.insert((*mui, *ltime, status.name(), *tag));
            } else if *status == RouteStatus::Active && (only.is_some() || !gone) {
                rows.insert((*mui, *ltime, status.name(), *tag));
            }
        }
        rows
    }

    fn stored(&self) -> BTreeSet<Key> {
        self.routes.keys().map(|(k, _)| *k).collect()
    }
}

fn rows(records: &[RouteRecord]) -> BTreeSet<Row> {
    let set: BTreeSet<Row> = records
        .iter()
        .map(|r| (r.multi_uniq_id, r.ltime, r.status.name(), r.meta.as_ref()[2]))
        .collect();
    assert_eq!(set.len(), records.len());
    set
}

fn groups(prs: &[PrefixRecord]) -> BTreeMap<Key, BTreeSet<Row>> {
    let map: BTreeMap<Key, BTreeSet<Row>> =
        prs.iter().map(|pr| (key(pr.prefix), rows(&pr.meta))).collect();
    assert_eq!(map.len(), prs.len());
    map
}

fn compare(table: &RouteTable, model: &Model, numbers: &mut Numbers) {
    let prefix = some_prefix(numbers);
    let p = key(prefix);
    let longest = numbers.next(2) == 0;
    let include_withdrawn = numbers.next(2) == 0;
    let less = numbers.next(2) == 0;
    let more = numbers.next(2) == 0;
    let only = if numbers.next(3) == 0 { Some(numbers.next(4) as u32) } else { None };
    let found = table.match_prefix(prefix, longest, include_withdrawn, less, more, only);
    let stored = model.stored();
    let best = stored
        .iter()
        .filter(|k| covers(**k, p) && k.2 > 0 && (longest || **k == p))
        .max_by_key(|k| k.2);
    let want = best.map_or(BTreeSet::new(), |k| model.seen(*k, only, include_withdrawn));
    assert_eq!(rows(&found.records), want);
    assert_eq!(found.prefix.map(key), if want.is_empty() { None } else { best.copied() });

    let list = |keep: &dyn Fn(Key) -> bool| {
        stored
            .iter()
            .filter(|k| keep(**k))
            .map(|k| (*k, model.seen(*k, only, include_withdrawn)))
            .filter(|(_, rows)| !rows.is_empty())
            .collect::<BTreeMap<_, _>>()
    };
    assert_eq!(found.more_specifics.is_some(), more);
    if let Some(prs) = &found.more_specifics {
        assert_eq!(groups(prs), list(&|k| covers(p, k) && k != p));
    }
    assert_eq!(found.less_specifics.is_some(), less);
    if let Some(prs) = &found.less_specifics {
        assert_eq!(groups(prs), list(&|k| covers(k, p) && k != p && k.2 > 0));
    }
}

fn compare_lists(table: &RouteTable, model: &Model) {
    for (v4, v6) in [(true, true), (true, false), (false, true)] {
        let want: BTreeMap<Key, BTreeSet<Row>> = model
            .stored()
            .into_iter()
            .filter(|k| k.2 > 0 && if k.0 { v4 } else { v6 })
            .map(|k| (k, model.seen(k, None, true)))
            .collect();
        assert_eq!(groups(&table.all_routes(v4, v6)), want);
    }
    for mui in 0..4 {
        for v4 in [true, false] {
            let want: BTreeMap<Key, BTreeSet<Row>> = if model.withdrawn.contains(&(v4, mui)) {
                BTreeMap::new()
            } else {
                model
                    .stored()
                    .into_iter()
                    .filter(|k| k.2 > 0 && k.0 == v4)
                    .map(|k| (k, model.seen(k, Some(mui), false)))
                    .filter(|(_, rows)| !rows.is_empty())
                    .collect()
            };
            assert_eq!(groups(&table.source_routes(mui, v4)), want);
        }
    }
}

#[test]
fn the_table_behaves_as_a_map_of_routes() {
    for seed in 1..40u64 {
        let mut numbers = Numbers(seed * 0x9e37_79b9_7f4a_7c15);
        let mut table = RouteTable::new().unwrap();
        let mut model = Model::default();
        for step in 0..150u64 {
            let prefix = some_prefix(&mut numbers);
            let mui = numbers.next(4) as u32;
            match numbers.next(8) {
                0..=3 => {
                    let status = [RouteStatus::Active, RouteStatus::InActive, RouteStatus::Withdrawn]
                        [numbers.next(3) as usize];
                    let tag = numbers.next(200) as u8;
                    let meta = RotondaPaMap::from(vec![tag]);
                    let new = !model.stored().contains(&key(prefix));
                    let report = table.insert(prefix, mui, step, status, meta).unwrap();
                    assert_eq!((report.prefix_new, report.mui_new), (new, true));
                    let p = key(prefix);
                    let sources = if model.routes.contains_key(&(p, mui)) {
                        model.routes.keys().filter(|(k, _)| *k == p).count()
                    } else {
                        1
                    };
                    assert_eq!((report.cas_count, report.mui_count), (0, sources));
                    model.places.insert(p);
                    model.routes.insert((key(prefix), mui), (step, status, tag));
                }
                4 => {
                    let known = !model.places.insert(key(prefix));
                    match table.mark_withdrawn_for_prefix(prefix, mui, step) {
                        Ok(()) => assert!(known),
                        Err(e) => {
                            assert!(!known);
                            assert_eq!(e, "Error: The Prefix cannot be found.");
                        }
                    }
                    if let Some(route) = model.routes.get_mut(&(key(prefix), mui)) {
                        *route = (step, RouteStatus::Withdrawn, route.2);
                    }
                }
                5 => {
                    let (v4, v6) = [(true, true), (true, false), (false, true)]
                        [numbers.next(3) as usize];
                    table.mark_source_withdrawn(mui, v4, v6);
                    if v4 {
                        model.withdrawn.insert((true, mui));
                    }
                    if v6 {
                        model.withdrawn.insert((false, mui));
                    }
                }
                6 => {
                    table.mark_source_active(mui);
                    model.withdrawn.remove(&(true, mui));
                    model.withdrawn.remove(&(false, mui));
                }
                _ => {
                    let found = table.contains(prefix, mui);
                    let p = key(prefix);
                    let stored = model.stored();
                    if found {
                        assert!(stored.contains(&p) && p.2 > 0);
                        assert!(
                            mui == 0
                                || model.routes.keys().any(|(k, m)| k.0 == p.0 && *m == mui)
                        );
                    } else if model.routes.contains_key(&(p, mui)) && p.2 > 0 {
                        assert!(p.2 > 8);
                        assert!(stored
                            .iter()
                            .any(|k| k.0 == p.0 && !model.routes.contains_key(&(*k, mui))));
                    }
                }
            }
            compare(&table, &model, &mut numbers);
        }
        compare_lists(&table, &model);
    }
}

#[test]
fn a_source_that_announced_everything_is_found() {
    let mut numbers = Numbers(0x9e37_79b9_7f4a_7c15);
    let mut table = RouteTable::new().unwrap();
    let mut prefixes = Vec::new();
    for step in 0..300u64 {
        let bits = (numbers.next(1 << 16) as u32) << 16 | 0x1234;
        let len = 1 + numbers.next(32) as u8;
        let prefix = Prefix::new(IpAddr::V4(bits & (u32::MAX << (32 - len))), len).unwrap();
        let meta = RotondaPaMap::from(vec![1]);
        assert!(table.insert(prefix, 9, step, RouteStatus::Active, meta.clone()).is_ok());
        if step % 3 == 0 {
            assert!(table.insert(prefix, 5, step, RouteStatus::Active, meta).is_ok());
        }
        prefixes.push(prefix);
        for p in &prefixes {
            assert!(table.contains(*p, 9));
        }
    }
    assert!(!table.contains(prefixes[0], 77));
}
