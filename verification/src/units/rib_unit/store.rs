//! The prefix store that holds the routes of one kind of address family.
//!
//! The store files, for each prefix and source, a time, a status and a number.
//! The number is a handle by which the path attributes are found again.
use crate::net::{outside_prefix, Prefix};
use crate::payload::RouteStatus;
use rotonda_store::epoch;
use rotonda_store::match_options::{IncludeHistory, MatchOptions, MatchType as OutsideMatch};
use rotonda_store::prefix_record::{Record, RecordSet, RouteStatus as OutsideStatus};
use rotonda_store::rib::config::MemoryOnlyConfig;
use rotonda_store::rib::StarCastRib;
use rotonda_store::test_types::BeBytesAsn;
use vstd::prelude::*;

verus! {

/// What is filed for a prefix and a source.
pub struct Filed<T> {
    pub ltime: u64,
    pub status: RouteStatus,
    pub value: T,
}

/// What is filed, by prefix and source.
pub type Routes<T> = Map<(Prefix, u32), Filed<T>>;

/// A record as the store hands it out: the source, the time, the octet that
/// stands for the status, and the handle.
pub type RawRecord = (u32, u64, u8, u32);

/// The octet that stands for a status.
pub open spec fn status_octet(status: RouteStatus) -> u8 {
    match status {
        RouteStatus::Active => 1,
        RouteStatus::InActive => 2,
        RouteStatus::Withdrawn => 3,
    }
}

/// The record of a route.
pub open spec fn raw_record(mui: u32, route: Filed<u32>) -> RawRecord {
    (mui, route.ltime, status_octet(route.status), route.value)
}

/// A prefix store that is kept in memory.
#[verifier::external_body]
pub struct RouteStore {
    inner: StarCastRib<BeBytesAsn, MemoryOnlyConfig>,
}

/// The stored routes by prefix and source.
pub uninterp spec fn stored_routes(store: RouteStore) -> Map<(Prefix, u32), Filed<u32>>;

/// The sources that are withdrawn as a whole, for IPv4 (true) and for IPv6
/// (false).
pub uninterp spec fn withdrawn_sources(store: RouteStore) -> Set<(bool, u32)>;

/// The prefixes that have a place in the store: those for which a route was
/// filed, or was to be marked as withdrawn.
pub uninterp spec fn placed_prefixes(store: RouteStore) -> Set<Prefix>;

/// What a query sees of the route to a prefix from a source. With withdrawn
/// routes wanted, all routes are seen, and those of a withdrawn source as
/// withdrawn. Without, only active routes are seen, and those of a withdrawn
/// source only if that source is asked for.
pub open spec fn seen<T>(
    routes: Routes<T>,
    withdrawn: Set<(bool, u32)>,
    prefix: Prefix,
    mui: u32,
    only: Option<u32>,
    include_withdrawn: bool,
) -> Option<Filed<T>> {
    let gone = withdrawn.contains((prefix.addr_spec() is V4, mui));
    if !routes.contains_key((prefix, mui)) || (only is Some && only != Some(mui)) {
        None
    } else if include_withdrawn {
        Some(
            Filed {
                status: if gone {
                    RouteStatus::Withdrawn
                } else {
                    routes[(prefix, mui)].status
                },
                ..routes[(prefix, mui)]
            },
        )
    } else if routes[(prefix, mui)].status == RouteStatus::Active && (only is Some || !gone) {
        Some(routes[(prefix, mui)])
    } else {
        None
    }
}

/// A view of the routes of a store under a query: what is seen of each prefix
/// and source.
pub struct Sight<T> {
    pub routes: Routes<T>,
    pub withdrawn: Set<(bool, u32)>,
    pub only: Option<u32>,
    pub include_withdrawn: bool,
}

impl<T> Sight<T> {
    /// What is seen of the route to a prefix from a source.
    pub open spec fn at(self, prefix: Prefix, mui: u32) -> Option<Filed<T>> {
        seen(self.routes, self.withdrawn, prefix, mui, self.only, self.include_withdrawn)
    }

    /// Whether anything is seen of a prefix.
    pub open spec fn shows(self, prefix: Prefix) -> bool {
        exists|mui: u32| #[trigger] self.at(prefix, mui) is Some
    }
}

impl Sight<u32> {
    /// Whether the records are what is seen of a prefix: one for each source,
    /// in any order.
    pub open spec fn lists(self, prefix: Prefix, records: Seq<RawRecord>) -> bool {
        &&& forall|i: int|
            0 <= i < records.len() ==> self.at(prefix, (#[trigger] records[i]).0) is Some
                && records[i] == raw_record(records[i].0, self.at(prefix, records[i].0)->0)
        &&& forall|i: int, j: int|
            0 <= i < j < records.len() ==> (#[trigger] records[i]).0 != (#[trigger] records[j]).0
        &&& forall|mui: u32| #[trigger]
            self.at(prefix, mui) is Some ==> exists|i: int|
                0 <= i < records.len() && (#[trigger] records[i]).0 == mui
    }

    /// Whether the groups are what is seen of the prefixes: one for each, in
    /// the same order.
    pub open spec fn lists_all(self, prefixes: Seq<Prefix>, groups: Seq<Vec<RawRecord>>) -> bool {
        &&& prefixes.no_duplicates()
        &&& prefixes.len() == groups.len()
        &&& forall|i: int|
            0 <= i < groups.len() ==> self.lists(#[trigger] prefixes[i], groups[i]@)
    }
}

/// What is seen of a store under a query.
pub open spec fn sight(store: RouteStore, only: Option<u32>, include_withdrawn: bool) -> Sight<
    u32,
> {
    Sight {
        routes: stored_routes(store),
        withdrawn: withdrawn_sources(store),
        only,
        include_withdrawn,
    }
}

/// Whether these are the prefixes below one that something is seen of: those
/// that it covers, but for itself.
pub open spec fn all_below<T>(s: Sight<T>, prefix: Prefix, prefixes: Seq<Prefix>) -> bool {
    forall|p: Prefix| #[trigger]
        prefixes.contains(p) <==> (s.shows(p) && prefix.covers(p) && p != prefix)
}

/// Whether these are the prefixes above one that something is seen of: those
/// that cover it, but for itself and the one without bits.
pub open spec fn all_above<T>(s: Sight<T>, prefix: Prefix, prefixes: Seq<Prefix>) -> bool {
    forall|p: Prefix| #[trigger]
        prefixes.contains(p) <==> (s.shows(p) && p.covers(prefix) && p != prefix && p.len_spec()
            > 0)
}

/// Whether these are all prefixes of a family that something is seen of, but
/// for the one without bits.
pub open spec fn all_stored<T>(s: Sight<T>, v4: bool, v6: bool, prefixes: Seq<Prefix>) -> bool {
    forall|p: Prefix| #[trigger]
        prefixes.contains(p) <==> (s.shows(p) && p.len_spec() > 0 && (if p.addr_spec() is V4 {
            v4
        } else {
            v6
        }))
}

/// Whether the groups are what is seen of the prefixes below one.
pub open spec fn lists_below(s: Sight<u32>, prefix: Prefix, groups: Seq<Vec<RawRecord>>) -> bool {
    exists|ps: Seq<Prefix>| #[trigger] s.lists_all(ps, groups) && all_below(s, prefix, ps)
}

/// Whether the groups are what is seen of the prefixes above one.
pub open spec fn lists_above(s: Sight<u32>, prefix: Prefix, groups: Seq<Vec<RawRecord>>) -> bool {
    exists|ps: Seq<Prefix>| #[trigger] s.lists_all(ps, groups) && all_above(s, prefix, ps)
}

/// Whether the groups are what is seen of all prefixes of a family.
pub open spec fn lists_stored(s: Sight<u32>, v4: bool, v6: bool, groups: Seq<Vec<RawRecord>>) -> bool {
    exists|ps: Seq<Prefix>| #[trigger] s.lists_all(ps, groups) && all_stored(s, v4, v6, ps)
}

/// Whether a store holds no route and no source is withdrawn.
pub open spec fn holds_nothing(store: RouteStore) -> bool {
    &&& forall|prefix: Prefix, mui: u32| !stored_routes(store).contains_key((prefix, mui))
    &&& forall|v4: bool, mui: u32| !withdrawn_sources(store).contains((v4, mui))
    &&& placed_prefixes(store) == Set::<Prefix>::empty()
}

/// Whether a prefix is stored.
pub open spec fn is_stored<T>(routes: Routes<T>, prefix: Prefix) -> bool {
    exists|mui: u32| routes.contains_key((prefix, mui))
}

/// The sources of the routes to a prefix.
pub open spec fn sources_of<T>(routes: Routes<T>, prefix: Prefix) -> Set<u32> {
    Set::new(|mui: u32| routes.contains_key((prefix, mui)))
}

/// The number of sources that the store reports when it files a route: of all
/// routes to the prefix if the route replaces one, else one.
pub open spec fn reported_sources<T>(routes: Routes<T>, prefix: Prefix, mui: u32) -> nat {
    if routes.contains_key((prefix, mui)) {
        sources_of(routes, prefix).len()
    } else {
        1
    }
}

/// Whether a source announced something in a family.
pub open spec fn announced_in<T>(routes: Routes<T>, v4: bool, mui: u32) -> bool {
    exists|p: Prefix| #[trigger] routes.contains_key((p, mui)) && p.addr_spec() is V4 == v4
}

/// Whether a source announced every stored prefix of a family.
pub open spec fn announced_all<T>(routes: Routes<T>, v4: bool, mui: u32) -> bool {
    forall|p: Prefix| #[trigger]
        is_stored(routes, p) && p.addr_spec() is V4 == v4 ==> routes.contains_key((p, mui))
}

/// Whether a search for a prefix of a source may come out like this. The route
/// is found for certain if the prefix has up to eight bits or if the source
/// announced every prefix of the family. Nothing is found if the prefix is not
/// stored, has no bits, or the source announced nothing in the family.
pub open spec fn may_be_found<T>(routes: Routes<T>, prefix: Prefix, mui: u32, found: bool) -> bool {
    let v4 = prefix.addr_spec() is V4;
    if found {
        is_stored(routes, prefix) && prefix.len_spec() > 0 && (mui == 0 || announced_in(
            routes,
            v4,
            mui,
        ))
    } else {
        routes.contains_key((prefix, mui)) && prefix.len_spec() > 0 ==> prefix.len_spec() > 8
            && !announced_all(routes, v4, mui)
    }
}

/// Whether a prefix is the longest stored one, with at least one bit, that
/// covers another.
pub open spec fn is_longest_match<T>(
    routes: Routes<T>,
    prefix: Prefix,
    found: Prefix,
) -> bool {
    &&& is_stored(routes, found)
    &&& found.covers(prefix)
    &&& found.len_spec() > 0
    &&& forall|p: Prefix|
        is_stored(routes, p) && #[trigger] p.covers(prefix) ==> p.len_spec() <= found.len_spec()
}

/// Whether a prefix matches the one asked for: the longest match if that is
/// wanted, else the prefix itself.
pub open spec fn is_match<T>(
    routes: Routes<T>,
    longest: bool,
    prefix: Prefix,
    found: Prefix,
) -> bool {
    is_longest_match(routes, prefix, found) && (!longest ==> found == prefix)
}

/// What a query found: the records of the matching prefix, and those of the
/// prefixes below and above it where they were asked for.
pub type RawMatch = (Vec<RawRecord>, Option<Vec<Vec<RawRecord>>>, Option<Vec<Vec<RawRecord>>>);

impl RouteStore {
    /// `StarCastRib::match_prefix`: looks a prefix up.
    ///
    /// The records are those of the matching prefix, none if there is no match.
    /// The longest match is sought among all stored prefixes of at least one
    /// bit, whatever is seen of them. The prefixes below and above are listed
    /// if and only if they are asked for; those of which nothing is seen are
    /// left out.
    #[verifier::external_body]
    pub(crate) fn match_prefix(
        &self,
        prefix: Prefix,
        longest: bool,
        include_withdrawn: bool,
        include_less_specifics: bool,
        include_more_specifics: bool,
        mui: Option<u32>,
    ) -> (found: RawMatch)
        ensures
            forall|p: Prefix| #[trigger]
                is_match(stored_routes(*self), longest, prefix, p) ==> sight(
                    *self,
                    mui,
                    include_withdrawn,
                ).lists(p, found.0@),
            (forall|p: Prefix| !is_match(stored_routes(*self), longest, prefix, p))
                ==> found.0@.len() == 0,
            found.1 is Some == include_more_specifics,
            found.1 matches Some(groups) ==> lists_below(
                sight(*self, mui, include_withdrawn),
                prefix,
                groups@,
            ),
            found.2 is Some == include_less_specifics,
            found.2 matches Some(groups) ==> lists_above(
                sight(*self, mui, include_withdrawn),
                prefix,
                groups@,
            ),
    {
        let plain = |r: &Record<BeBytesAsn>| (r.multi_uniq_id, r.ltime, r.status.into(), u32::from_be_bytes(r.meta.0));
        let set = |s: RecordSet<_>| s.iter().map(|pr| pr.meta.iter().map(plain).collect()).collect();
        let match_type = if longest { OutsideMatch::LongestMatch } else { OutsideMatch::ExactMatch };
        let options = MatchOptions { match_type, include_withdrawn, include_less_specifics, include_more_specifics, mui, include_history: IncludeHistory::None };
        let res = self.inner.match_prefix(&outside_prefix(prefix.addr, prefix.len).unwrap(), &options, &epoch::pin()).unwrap();
        (res.records.iter().map(plain).collect(), res.more_specifics.map(set), res.less_specifics.map(set))
    }
}

/// What the store reports of an insertion.
#[derive(Clone, Copy, Debug, PartialEq, Eq, Structural)]
pub struct UpsertReport {
    pub cas_count: usize,
    pub prefix_new: bool,
    pub mui_new: bool,
    pub mui_count: usize,
}

/// A store could not be made.
#[derive(Clone, Copy, Debug, PartialEq, Eq, Structural)]
pub struct StoreNotReady;

impl RouteStore {
    /// `StarCastRib::try_default`: a store that holds nothing. With a store in
    /// memory this cannot fail; only one on disk can fail to be made.
    #[verifier::external_body]
    pub(crate) fn try_default() -> (res: Result<RouteStore, StoreNotReady>)
        ensures
            res is Ok,
            res matches Ok(store) ==> holds_nothing(store),
    {
        match StarCastRib::try_default() {
            Ok(inner) => Ok(RouteStore { inner }),
            Err(_) => Err(StoreNotReady),
        }
    }

    /// `StarCastRib::contains` with a source: whether the prefix is stored for
    /// the source.
    ///
    /// The store answers from bits that say which prefixes are stored, and from
    /// an index of sources that is kept for groups of prefixes. So a prefix is
    /// found only if it is stored and has bits, and only for a source that
    /// announced something in its family, or for the source zero, with which
    /// the index starts. On the way to a group the indexes of other groups are
    /// asked, and one that lacks the source ends the search. There is none on
    /// the way to a prefix of up to eight bits, and none lacks a source that
    /// announced every prefix of the family. Whether any other prefix is found
    /// is left unsaid.
    #[verifier::external_body]
    pub(crate) fn contains(&self, prefix: Prefix, mui: u32) -> (found: bool)
        ensures
            may_be_found(stored_routes(*self), prefix, mui, found),
    {
        let p = outside_prefix(prefix.addr, prefix.len).unwrap();
        self.inner.contains(&p, Some(mui))
    }

    /// `StarCastRib::insert`: files a route under its prefix and source, in
    /// place of the one that is filed there.
    ///
    /// It succeeds, and at once: the place of a prefix in the store is
    /// determined by its bits, and nobody else writes. The report says whether
    /// the prefix was not stored before, and always says that the source was
    /// new. It counts no further tries. The number of sources is that of the
    /// routes to the prefix if a route was replaced, else one.
    #[verifier::external_body]
    pub(crate) fn insert(
        &mut self,
        prefix: Prefix,
        mui: u32,
        ltime: u64,
        status: RouteStatus,
        handle: u32,
    ) -> (res: Result<UpsertReport, String>)
        ensures
            withdrawn_sources(*final(self)) == withdrawn_sources(*old(self)),
            stored_routes(*final(self)) == stored_routes(*old(self)).insert(
                (prefix, mui),
                (Filed { ltime, status, value: handle }),
            ),
            res is Ok,
            res matches Ok(r) ==> r.prefix_new == !is_stored(stored_routes(*old(self)), prefix),
            res matches Ok(r) ==> r.mui_new,
            res matches Ok(r) ==> r.cas_count == 0,
            res matches Ok(r) ==> r.mui_count == reported_sources(
                stored_routes(*old(self)),
                prefix,
                mui,
            ),
            placed_prefixes(*final(self)) == placed_prefixes(*old(self)).insert(prefix),
    {
        let p = outside_prefix(prefix.addr, prefix.len).unwrap();
        let status = match status {
            RouteStatus::Active => OutsideStatus::Active,
            RouteStatus::InActive => OutsideStatus::InActive,
            RouteStatus::Withdrawn => OutsideStatus::Withdrawn,
        };
        let meta = BeBytesAsn(handle.to_be_bytes());
        let res = self.inner.insert(&p, Record::new(mui, ltime, status, meta), None);
        res.map(|r| UpsertReport { cas_count: r.cas_count, prefix_new: r.prefix_new, mui_new: r.mui_new, mui_count: r.mui_count }).map_err(|e| e.to_string())
    }

    /// `StarCastRib::mark_mui_as_withdrawn_for_prefix`: marks the route to a
    /// prefix from a source as withdrawn at the given time, if there is one.
    ///
    /// It succeeds if and only if the prefix has a place in the store, and says
    /// else that the prefix cannot be found. The prefix has a place afterwards
    /// in either case.
    #[verifier::external_body]
    pub(crate) fn mark_withdrawn_for_prefix(&mut self, prefix: Prefix, mui: u32, ltime: u64) -> (res:
        Result<(), String>)
        ensures
            withdrawn_sources(*final(self)) == withdrawn_sources(*old(self)),
            res is Ok == placed_prefixes(*old(self)).contains(prefix),
            res matches Err(e) ==> e@ == "Error: The Prefix cannot be found."@,
            placed_prefixes(*final(self)) == placed_prefixes(*old(self)).insert(prefix),
            stored_routes(*final(self)) == if stored_routes(*old(self)).contains_key((prefix, mui)) {
                stored_routes(*old(self)).insert(
                    (prefix, mui),
                    (Filed {
                        ltime,
                        status: RouteStatus::Withdrawn,
                        value: stored_routes(*old(self))[(prefix, mui)].value,
                    }),
                )
            } else {
                stored_routes(*old(self))
            },
    {
        let p = outside_prefix(prefix.addr, prefix.len).unwrap();
        self.inner.mark_mui_as_withdrawn_for_prefix(&p, mui, ltime).map_err(|e| e.to_string())
    }

    /// `StarCastRib::mark_mui_as_withdrawn`: withdraws a source as a whole, for
    /// both address families.
    #[verifier::external_body]
    pub(crate) fn mark_withdrawn(&mut self, mui: u32) -> (res: Result<(), String>)
        ensures
            stored_routes(*final(self)) == stored_routes(*old(self)),
            placed_prefixes(*final(self)) == placed_prefixes(*old(self)),
            res is Ok,
            withdrawn_sources(*final(self)) == withdrawn_sources(*old(self)).insert(
                (true, mui),
            ).insert((false, mui)),
    {
        self.inner.mark_mui_as_withdrawn(mui).map_err(|e| e.to_string())
    }

    /// `StarCastRib::mark_mui_as_withdrawn_v4`: withdraws a source as a whole,
    /// for IPv4.
    #[verifier::external_body]
    pub(crate) fn mark_withdrawn_v4(&mut self, mui: u32) -> (res: Result<(), String>)
        ensures
            stored_routes(*final(self)) == stored_routes(*old(self)),
            placed_prefixes(*final(self)) == placed_prefixes(*old(self)),
            res is Ok,
            withdrawn_sources(*final(self)) == withdrawn_sources(*old(self)).insert((true, mui)),
    {
        self.inner.mark_mui_as_withdrawn_v4(mui).map_err(|e| e.to_string())
    }

    /// `StarCastRib::mark_mui_as_withdrawn_v6`: withdraws a source as a whole,
    /// for IPv6.
    #[verifier::external_body]
    pub(crate) fn mark_withdrawn_v6(&mut self, mui: u32) -> (res: Result<(), String>)
        ensures
            stored_routes(*final(self)) == stored_routes(*old(self)),
            placed_prefixes(*final(self)) == placed_prefixes(*old(self)),
            res is Ok,
            withdrawn_sources(*final(self)) == withdrawn_sources(*old(self)).insert((false, mui)),
    {
        self.inner.mark_mui_as_withdrawn_v6(mui).map_err(|e| e.to_string())
    }

    /// `StarCastRib::mark_mui_as_active_v4`: takes the withdrawal of a source
    /// as a whole back, for IPv4.
    #[verifier::external_body]
    pub(crate) fn mark_active_v4(&mut self, mui: u32) -> (res: Result<(), String>)
        ensures
            stored_routes(*final(self)) == stored_routes(*old(self)),
            placed_prefixes(*final(self)) == placed_prefixes(*old(self)),
            res is Ok,
            withdrawn_sources(*final(self)) == withdrawn_sources(*old(self)).remove((true, mui)),
    {
        self.inner.mark_mui_as_active_v4(mui).map_err(|e| e.to_string())
    }

    /// `StarCastRib::mark_mui_as_active_v6`: takes the withdrawal of a source
    /// as a whole back, for IPv6.
    #[verifier::external_body]
    pub(crate) fn mark_active_v6(&mut self, mui: u32) -> (res: Result<(), String>)
        ensures
            stored_routes(*final(self)) == stored_routes(*old(self)),
            placed_prefixes(*final(self)) == placed_prefixes(*old(self)),
            res is Ok,
            withdrawn_sources(*final(self)) == withdrawn_sources(*old(self)).remove((false, mui)),
    {
        self.inner.mark_mui_as_active_v6(mui).map_err(|e| e.to_string())
    }

    /// `StarCastRib::prefixes_iter`: all routes, those of withdrawn sources as
    /// withdrawn, grouped by prefix. The prefixes without bits are left out.
    #[verifier::external_body]
    pub(crate) fn all_records(&self) -> (groups: Vec<Vec<RawRecord>>)
        ensures
            lists_stored(sight(*self, None, true), true, true, groups@),
    {
        let guard = epoch::pin();
        self.inner.prefixes_iter(&guard).flatten().map(|pr| pr.meta.iter().map(|r| (r.multi_uniq_id, r.ltime, r.status.into(), u32::from_be_bytes(r.meta.0))).collect()).collect()
    }

    /// `StarCastRib::prefixes_iter_v4`: all routes to IPv4 prefixes, those of
    /// withdrawn sources as withdrawn, grouped by prefix. The prefix without
    /// bits is left out.
    #[verifier::external_body]
    pub(crate) fn all_records_v4(&self) -> (groups: Vec<Vec<RawRecord>>)
        ensures
            lists_stored(sight(*self, None, true), true, false, groups@),
    {
        let guard = epoch::pin();
        self.inner.prefixes_iter_v4(&guard).flatten().map(|pr| pr.meta.iter().map(|r| (r.multi_uniq_id, r.ltime, r.status.into(), u32::from_be_bytes(r.meta.0))).collect()).collect()
    }

    /// `StarCastRib::prefixes_iter_v6`: all routes to IPv6 prefixes, those of
    /// withdrawn sources as withdrawn, grouped by prefix. The prefix without
    /// bits is left out.
    #[verifier::external_body]
    pub(crate) fn all_records_v6(&self) -> (groups: Vec<Vec<RawRecord>>)
        ensures
            lists_stored(sight(*self, None, true), false, true, groups@),
    {
        let guard = epoch::pin();
        self.inner.prefixes_iter_v6(&guard).flatten().map(|pr| pr.meta.iter().map(|r| (r.multi_uniq_id, r.ltime, r.status.into(), u32::from_be_bytes(r.meta.0))).collect()).collect()
    }

    /// `StarCastRib::iter_records_for_mui_v4` without withdrawn routes: the
    /// active routes to IPv4 prefixes from one source, each in a group of its
    /// own; none if the source is withdrawn as a whole. The prefix without bits
    /// is left out.
    #[verifier::external_body]
    pub(crate) fn source_records_v4(&self, mui: u32) -> (groups: Vec<Vec<RawRecord>>)
        ensures
            withdrawn_sources(*self).contains((true, mui)) ==> groups@.len() == 0,
            !withdrawn_sources(*self).contains((true, mui)) ==> lists_stored(sight(*self, Some(mui), false), true, false, groups@),
    {
        let guard = epoch::pin();
        self.inner.iter_records_for_mui_v4(mui, false, &guard).flatten().map(|pr| pr.meta.iter().map(|r| (r.multi_uniq_id, r.ltime, r.status.into(), u32::from_be_bytes(r.meta.0))).collect()).collect()
    }

    /// `StarCastRib::iter_records_for_mui_v6` without withdrawn routes: the
    /// active routes to IPv6 prefixes from one source, each in a group of its
    /// own; none if the source is withdrawn as a whole. The prefix without bits
    /// is left out.
    #[verifier::external_body]
    pub(crate) fn source_records_v6(&self, mui: u32) -> (groups: Vec<Vec<RawRecord>>)
        ensures
            withdrawn_sources(*self).contains((false, mui)) ==> groups@.len() == 0,
            !withdrawn_sources(*self).contains((false, mui)) ==> lists_stored(sight(*self, Some(mui), false), false, true, groups@),
    {
        let guard = epoch::pin();
        self.inner.iter_records_for_mui_v6(mui, false, &guard).flatten().map(|pr| pr.meta.iter().map(|r| (r.multi_uniq_id, r.ltime, r.status.into(), u32::from_be_bytes(r.meta.0))).collect()).collect()
    }
}

} // verus!
