//! The routes of one kind of address family with their path attributes.
//!
//! The prefix store files a handle for each prefix and source. The table keeps,
//! for each handle, the path attributes and the prefix that it was given out
//! for.
use crate::ingress::IngressId;
use crate::net::{default_route, default_route_has_no_bits, default_route_is_unique, Prefix};
use crate::payload::{RotondaPaMap, RouteStatus};
use crate::units::rib_unit::records::{PrefixRecord, RouteRecord};
use crate::units::rib_unit::store::{
    all_above, all_below, all_stored, announced_all, announced_in, is_match, is_stored,
    may_be_found, placed_prefixes, raw_record, reported_sources, sight, sources_of, status_octet,
    stored_routes, withdrawn_sources, Filed, RawRecord, RouteStore, Routes, Sight, StoreNotReady,
    UpsertReport,
};
use std::collections::HashMap;
use vstd::prelude::*;
use vstd::std_specs::hash::*;

verus! {

//------------ What queries return -------------------------------------------

/// The record of a route.
pub open spec fn is_record(r: RouteRecord, mui: IngressId, route: Filed<Seq<u8>>) -> bool {
    &&& r.multi_uniq_id == mui
    &&& r.ltime == route.ltime
    &&& r.status == route.status
    &&& r.meta@ == route.value
}

impl Sight<Seq<u8>> {
    /// Whether the records are what is seen of a prefix: one for each source,
    /// in any order.
    pub open spec fn lists_routes(self, prefix: Prefix, records: Seq<RouteRecord>) -> bool {
        &&& forall|i: int|
            0 <= i < records.len() ==> self.at(prefix, (#[trigger] records[i]).multi_uniq_id)
                is Some && is_record(
                records[i],
                records[i].multi_uniq_id,
                self.at(prefix, records[i].multi_uniq_id)->0,
            )
        &&& forall|i: int, j: int|
            0 <= i < j < records.len() ==> (#[trigger] records[i]).multi_uniq_id != (
            #[trigger] records[j]).multi_uniq_id
        &&& forall|mui: IngressId| #[trigger]
            self.at(prefix, mui) is Some ==> exists|i: int|
                0 <= i < records.len() && (#[trigger] records[i]).multi_uniq_id == mui
    }

    /// Whether each entry is what is seen of its prefix, and no prefix has two.
    pub open spec fn lists_prefixes(self, prs: Seq<PrefixRecord>) -> bool {
        &&& prefixes_of(prs).no_duplicates()
        &&& forall|i: int|
            0 <= i < prs.len() ==> self.lists_routes((#[trigger] prs[i]).prefix, prs[i].meta@)
    }
}

/// The prefixes of entries.
pub open spec fn prefixes_of(prs: Seq<PrefixRecord>) -> Seq<Prefix> {
    prs.map_values(|pr: PrefixRecord| pr.prefix)
}

/// The status that an octet stands for.
fn status_of(octet: u8) -> (status: RouteStatus)
    ensures
        1 <= octet <= 3 ==> status_octet(status) == octet,
{
    if octet == 1 {
        RouteStatus::Active
    } else if octet == 2 {
        RouteStatus::InActive
    } else {
        RouteStatus::Withdrawn
    }
}

//------------ RouteTable ----------------------------------------------------

/// What a handle stands for.
#[derive(Debug)]
struct Slot {
    prefix: Prefix,
    meta: RotondaPaMap,
}

/// The routes of one kind of address family.
pub struct RouteTable {
    store: RouteStore,
    slots: Vec<Slot>,
    // The handles of the routes to the prefixes without bits, which the store
    // does not give back.
    defaults: HashMap<u64, u32>,
    // The number of routes whose path attributes cannot be read.
    unreadable: usize,
}

/// Whether the path attributes of all routes can be read.
pub open spec fn routes_readable(routes: Routes<Seq<u8>>) -> bool {
    forall|k: (Prefix, u32)| #[trigger] routes.contains_key(k) ==> routes[k].value.len() >= 2
}

/// One for path attributes that cannot be read.
spec fn flaw(slot: Slot) -> nat {
    if slot.meta@.len() < 2 {
        1
    } else {
        0
    }
}

/// The number of slots whose path attributes cannot be read.
spec fn flaws(slots: Seq<Slot>) -> nat
    decreases slots.len(),
{
    if slots.len() == 0 {
        0
    } else {
        flaws(slots.drop_last()) + flaw(slots.last())
    }
}

/// Replacing a slot replaces what it counts.
proof fn flaws_update(slots: Seq<Slot>, i: int, slot: Slot)
    requires
        0 <= i < slots.len(),
    ensures
        flaws(slots.update(i, slot)) + flaw(slots[i]) == flaws(slots) + flaw(slot),
        flaws(slots) <= slots.len(),
        flaw(slots[i]) <= flaws(slots),
    decreases slots.len(),
{
    let after = slots.update(i, slot);
    flaws_bounded(slots.drop_last());
    if i == slots.len() - 1 {
        assert(after.drop_last() =~= slots.drop_last());
    } else {
        assert(after.drop_last() =~= slots.drop_last().update(i, slot));
        flaws_update(slots.drop_last(), i, slot);
    }
}

proof fn flaws_bounded(slots: Seq<Slot>)
    ensures
        flaws(slots) <= slots.len(),
    decreases slots.len(),
{
    if slots.len() > 0 {
        flaws_bounded(slots.drop_last());
    }
}

/// There is no flaw if and only if all slots can be read.
proof fn no_flaws(slots: Seq<Slot>)
    ensures
        flaws(slots) == 0 <==> forall|i: int|
            0 <= i < slots.len() ==> (#[trigger] slots[i]).meta@.len() >= 2,
    decreases slots.len(),
{
    if slots.len() > 0 {
        let init = slots.drop_last();
        no_flaws(init);
        if flaws(slots) == 0 {
            assert forall|i: int| 0 <= i < slots.len() implies (#[trigger] slots[i]).meta@.len()
                >= 2 by {
                if i < init.len() {
                    assert(init[i] == slots[i]);
                }
            }
        } else {
            if flaw(slots.last()) > 0 {
                assert(slots[slots.len() - 1].meta@.len() < 2);
            } else {
                let i = choose|i: int|
                    0 <= i < init.len() && !((#[trigger] init[i]).meta@.len() >= 2);
                assert(slots[i] == init[i]);
            }
        }
    }
}

/// A family and a source as one number.
spec fn default_key(v4: bool, mui: IngressId) -> u64 {
    (mui * 2 + (if v4 {
        1int
    } else {
        0int
    })) as u64
}

fn make_default_key(v4: bool, mui: IngressId) -> (key: u64)
    ensures
        key == default_key(v4, mui),
{
    mui as u64 * 2 + (if v4 {
        1
    } else {
        0
    })
}

impl RouteTable {
    /// The routes by prefix and source.
    pub closed spec fn routes(&self) -> Routes<Seq<u8>> {
        Map::new(
            |k: (Prefix, u32)| stored_routes(self.store).contains_key(k),
            |k: (Prefix, u32)| self.filed(k),
        )
    }

    spec fn filed(&self, k: (Prefix, u32)) -> Filed<Seq<u8>> {
        let f = stored_routes(self.store)[k];
        Filed { ltime: f.ltime, status: f.status, value: self.slots@[f.value as int].meta@ }
    }

    /// The sources that are withdrawn as a whole, for IPv4 (true) and for IPv6
    /// (false).
    pub closed spec fn withdrawn(&self) -> Set<(bool, IngressId)> {
        withdrawn_sources(self.store)
    }

    /// The prefixes that have a place in the store: those that are stored, and
    /// those of which a route was to be marked as withdrawn.
    pub closed spec fn places(&self) -> Set<Prefix> {
        placed_prefixes(self.store)
    }

    /// Whether one more route can be told apart.
    pub closed spec fn room(&self) -> bool {
        self.slots@.len() <= u32::MAX
    }

    /// What is seen of the table under a query.
    pub open spec fn sight(&self, only: Option<IngressId>, include_withdrawn: bool) -> Sight<
        Seq<u8>,
    > {
        Sight { routes: self.routes(), withdrawn: self.withdrawn(), only, include_withdrawn }
    }

    spec fn handle_ok(&self, k: (Prefix, u32)) -> bool {
        let h = stored_routes(self.store)[k].value;
        &&& h < self.slots@.len()
        &&& self.slots@[h as int].prefix == k.0
    }

    /// A handle is that of a route.
    spec fn in_use(&self, h: int) -> bool {
        exists|k: (Prefix, u32)| #[trigger]
            stored_routes(self.store).contains_key(k) && stored_routes(self.store)[k].value == h
    }

    /// Each route has a handle of its own, which was given out for its prefix,
    /// and each handle is that of a route; stored prefixes have a place.
    pub closed spec fn wf(&self) -> bool {
        let stored = stored_routes(self.store);
        &&& self.slots@.len() <= u32::MAX + 1
        &&& self.unreadable == flaws(self.slots@)
        &&& forall|h: int| 0 <= h < self.slots@.len() ==> #[trigger] self.in_use(h)
        &&& forall|k: (Prefix, u32)| #[trigger]
            stored.contains_key(k) ==> placed_prefixes(self.store).contains(k.0)
        &&& forall|k: (Prefix, u32)| #[trigger] stored.contains_key(k) ==> self.handle_ok(k)
        &&& forall|k: (Prefix, u32), l: (Prefix, u32)|
            #![trigger stored.contains_key(k), stored.contains_key(l)]
            stored.contains_key(k) && stored.contains_key(l) && stored[k].value == stored[l].value
                ==> k == l
        &&& forall|k: (Prefix, u32)| #[trigger]
            stored.contains_key(k) && k.0.len_spec() == 0 ==> k.0 == default_route(
                k.0.addr_spec() is V4,
            )
        &&& forall|v4: bool, mui: u32|
            #![trigger self.defaults@.contains_key(default_key(v4, mui))]
            self.defaults@.contains_key(default_key(v4, mui)) <==> stored.contains_key(
                (default_route(v4), mui),
            )
        &&& forall|v4: bool, mui: u32|
            #![trigger self.defaults@[default_key(v4, mui)]]
            stored.contains_key((default_route(v4), mui)) ==> self.defaults@[default_key(v4, mui)]
                == stored[(default_route(v4), mui)].value
    }

    /// A table without routes.
    pub fn new() -> (res: Result<Self, StoreNotReady>)
        ensures
            res matches Ok(table) && {
                &&& table.wf()
                &&& table.room()
                &&& table.routes() == Map::<(Prefix, u32), Filed<Seq<u8>>>::empty()
                &&& table.withdrawn() == Set::<(bool, u32)>::empty()
                &&& table.places() == Set::<Prefix>::empty()
            },
    {
        match RouteStore::try_default() {
            Ok(store) => {
                let table = RouteTable {
                    store,
                    slots: Vec::new(),
                    defaults: HashMap::new(),
                    unreadable: 0,
                };
                proof {
                    assert forall|k: (Prefix, u32)| !stored_routes(store).contains_key(k) by {
                        assert(!stored_routes(store).contains_key((k.0, k.1)));
                    }
                    assert forall|k: (bool, u32)| !withdrawn_sources(store).contains(k) by {
                        assert(!withdrawn_sources(store).contains((k.0, k.1)));
                    }
                    assert(table.routes() =~= Map::empty());
                    assert(table.withdrawn() =~= Set::empty());
                }
                Ok(table)
            },
            Err(e) => Err(e),
        }
    }

    /// Whether one more route can be told apart.
    pub fn has_room(&self) -> (yes: bool)
        ensures
            yes == self.room(),
    {
        self.slots.len() as u64 <= u32::MAX as u64
    }

    /// Whether the path attributes of all routes can be read.
    pub fn is_readable(&self) -> (yes: bool)
        requires
            self.wf(),
        ensures
            yes == routes_readable(self.routes()),
    {
        proof {
            let stored = stored_routes(self.store);
            no_flaws(self.slots@);
            if self.unreadable == 0 {
                assert forall|k: (Prefix, u32)| #[trigger] self.routes().contains_key(k) implies
                    self.routes()[k].value.len() >= 2 by {
                    assert(stored.contains_key(k));
                    assert(self.handle_ok(k));
                }
            } else {
                let h = choose|h: int|
                    0 <= h < self.slots@.len() && !((#[trigger] self.slots@[h]).meta@.len() >= 2);
                assert(self.in_use(h));
                let k = choose|k: (Prefix, u32)| #[trigger]
                    stored.contains_key(k) && stored[k].value == h;
                assert(self.routes().contains_key(k));
            }
        }
        self.unreadable == 0
    }

    /// Stored prefixes have a place in the store.
    pub proof fn stored_prefixes_have_places(&self, prefix: Prefix)
        requires
            self.wf(),
            is_stored(self.routes(), prefix),
        ensures
            self.places().contains(prefix),
    {
        let m = choose|m: u32| self.routes().contains_key((prefix, m));
        assert(stored_routes(self.store).contains_key((prefix, m)));
    }

    /// The handle of a route, if there is one.
    fn handle_of(&self, prefix: Prefix, mui: IngressId) -> (handle: Option<u32>)
        requires
            self.wf(),
        ensures
            match handle {
                Some(h) => stored_routes(self.store).contains_key((prefix, mui))
                    && stored_routes(self.store)[(prefix, mui)].value == h,
                None => !stored_routes(self.store).contains_key((prefix, mui)),
            },
    {
        let ghost stored = stored_routes(self.store);
        if prefix.len() == 0 {
            let v4 = prefix.is_v4();
            proof {
                use_type_invariant(&prefix);
                default_route_is_unique(prefix);
            }
            let key: u64 = make_default_key(v4, mui);
            assert(self.defaults@.contains_key(default_key(v4, mui)) <==> stored.contains_key(
                (prefix, mui),
            ));
            return match self.defaults.get(&key) {
                Some(h) => Some(*h),
                None => None,
            };
        }
        let (records, _more, _less) = self.store.match_prefix(
            prefix,
            false,
            true,
            false,
            false,
            Some(mui),
        );
        let ghost s = sight(self.store, Some(mui), true);
        proof {
            if stored.contains_key((prefix, mui)) {
                assert(is_stored(stored, prefix));
                assert(is_match(stored, false, prefix, prefix));
                assert(s.lists(prefix, records@));
                assert(s.at(prefix, mui) is Some);
                let i = choose|i: int| 0 <= i < records@.len() && (#[trigger] records@[i]).0 == mui;
                assert(s.at(prefix, records@[0].0) is Some);
            } else if is_match(stored, false, prefix, prefix) {
                assert(s.lists(prefix, records@));
                if records@.len() > 0 {
                    assert(s.at(prefix, records@[0].0) is Some);
                }
            } else {
                assert forall|p: Prefix| !is_match(stored, false, prefix, p) by {
                    if is_match(stored, false, prefix, p) {
                        assert(p == prefix);
                    }
                }
            }
        }
        if records.len() > 0 {
            Some(records[0].3)
        } else {
            None
        }
    }

    /// Keeps the path attributes of a route: in place of those of the route that
    /// it replaces, or under a handle of their own.
    fn keep(&mut self, before: Option<u32>, prefix: Prefix, meta: RotondaPaMap) -> (handle: u32)
        requires
            old(self).slots@.len() <= u32::MAX + 1,
            old(self).unreadable == flaws(old(self).slots@),
            match before {
                Some(h) => h < old(self).slots@.len(),
                None => old(self).room(),
            },
        ensures
            final(self).store == old(self).store,
            final(self).defaults == old(self).defaults,
            final(self).unreadable == flaws(final(self).slots@),
            match before {
                Some(h) => handle == h && final(self).slots@ == old(self).slots@.update(
                    h as int,
                    Slot { prefix, meta },
                ),
                None => handle == old(self).slots@.len() && final(self).slots@
                    == old(self).slots@.push(Slot { prefix, meta }),
            },
    {
        let short: usize = if meta.as_ref().len() < 2 {
            1
        } else {
            0
        };
        match before {
            Some(h) => {
                let was: usize = if self.slots[h as usize].meta.as_ref().len() < 2 {
                    1
                } else {
                    0
                };
                let slot = Slot { prefix, meta };
                proof {
                    flaws_update(self.slots@, h as int, slot);
                    flaws_bounded(self.slots@.update(h as int, slot));
                    assert(self.slots@.len() == self.slots.len());
                }
                self.unreadable = self.unreadable - was + short;
                self.slots[h as usize] = slot;
                h
            },
            None => {
                let h: u32 = self.slots.len() as u32;
                self.slots.push(Slot { prefix, meta });
                proof {
                    assert(self.slots@.drop_last() =~= old(self).slots@);
                    flaws_bounded(self.slots@);
                    assert(self.slots@.len() == self.slots.len());
                }
                self.unreadable = self.unreadable + short;
                h
            },
        }
    }
}

impl RouteTable {
    /// Files a route in place of the one with the same prefix and source.
    pub fn insert(
        &mut self,
        prefix: Prefix,
        mui: IngressId,
        ltime: u64,
        status: RouteStatus,
        meta: RotondaPaMap,
    ) -> (res: Result<UpsertReport, String>)
        requires
            old(self).wf(),
            old(self).room() || old(self).routes().contains_key((prefix, mui)),
        ensures
            final(self).wf(),
            final(self).withdrawn() == old(self).withdrawn(),
            final(self).routes() == old(self).routes().insert(
                (prefix, mui),
                (Filed { ltime, status, value: meta@ }),
            ),
            final(self).places() == old(self).places().insert(prefix),
            res matches Ok(report) && is_filing_report(old(self).routes(), prefix, mui, report),
            old(self).routes().contains_key((prefix, mui)) ==> final(self).room() == old(
                self,
            ).room(),
    {
        let ghost stored = stored_routes(self.store);
        let ghost key = (prefix, mui);
        let before = self.handle_of(prefix, mui);
        assert(stored.contains_key(key) ==> self.handle_ok(key));
        let handle: u32 = self.keep(before, prefix, meta);
        let res = self.store.insert(prefix, mui, ltime, status, handle);
        let v4 = prefix.is_v4();
        if prefix.len() == 0 {
            self.defaults.insert(make_default_key(v4, mui), handle);
        }
        let ghost now = stored_routes(self.store);
        proof {
            use_type_invariant(&prefix);
            if prefix.len_spec() == 0 {
                default_route_is_unique(prefix);
            }
            default_route_has_no_bits(true);
            default_route_has_no_bits(false);
            assert forall|k: (Prefix, u32)| stored.contains_key(k) && k != key implies #[trigger]
                stored[k].value != handle by {
                assert(old(self).handle_ok(k));
            }
            assert forall|k: (Prefix, u32)| #[trigger] now.contains_key(k) implies self.handle_ok(
                k,
            ) by {
                if k != key {
                    assert(stored.contains_key(k));
                    assert(old(self).handle_ok(k));
                    assert(stored[k].value != handle);
                }
            }
            assert forall|k: (Prefix, u32), l: (Prefix, u32)|
                #![trigger now.contains_key(k), now.contains_key(l)]
                now.contains_key(k) && now.contains_key(l) && now[k].value == now[l].value implies k
                == l by {
                if k != key {
                    assert(stored.contains_key(k));
                    assert(stored[k].value != handle);
                }
                if l != key {
                    assert(stored.contains_key(l));
                    assert(stored[l].value != handle);
                }
            }
            assert forall|k: (Prefix, u32)| #[trigger]
                now.contains_key(k) && k.0.len_spec() == 0 implies k.0 == default_route(
                k.0.addr_spec() is V4,
            ) by {
                if k != key {
                    assert(stored.contains_key(k));
                }
            }
            assert forall|k: (Prefix, u32)| stored.contains_key(k) && k != key implies
                #[trigger] self.filed(k) == old(self).filed(k) by {
                assert(old(self).handle_ok(k));
                assert(stored[k].value != handle);
            }
            assert(self.routes() =~= old(self).routes().insert(
                key,
                Filed { ltime, status, value: meta@ },
            ));
            assert forall|h: int| 0 <= h < self.slots@.len() implies #[trigger] self.in_use(h) by {
                if h == handle {
                    assert(now.contains_key(key));
                } else {
                    assert(old(self).in_use(h));
                    let k = choose|k: (Prefix, u32)| #[trigger]
                        stored.contains_key(k) && stored[k].value == h;
                    assert(now.contains_key(k));
                }
            }
            stored_alike(stored, old(self).routes(), prefix);
            assert(sources_of(stored, prefix) =~= sources_of(old(self).routes(), prefix));
        }
        res
    }

    /// Marks a route as withdrawn, if there is one. The path attributes are
    /// kept. It succeeds if and only if the prefix has a place in the store,
    /// which it has afterwards.
    pub fn mark_withdrawn_for_prefix(&mut self, prefix: Prefix, mui: IngressId, ltime: u64) -> (res:
        Result<(), String>)
        requires
            old(self).wf(),
        ensures
            final(self).wf(),
            final(self).room() == old(self).room(),
            final(self).withdrawn() == old(self).withdrawn(),
            final(self).places() == old(self).places().insert(prefix),
            res is Ok == old(self).places().contains(prefix),
            res matches Err(e) ==> e@ == "Error: The Prefix cannot be found."@,
            final(self).routes() == if old(self).routes().contains_key((prefix, mui)) {
                old(self).routes().insert(
                    (prefix, mui),
                    (Filed {
                        ltime,
                        status: RouteStatus::Withdrawn,
                        value: old(self).routes()[(prefix, mui)].value,
                    }),
                )
            } else {
                old(self).routes()
            },
    {
        let ghost stored = stored_routes(self.store);
        let res = self.store.mark_withdrawn_for_prefix(prefix, mui, ltime);
        proof {
            let now = stored_routes(self.store);
            stored_alike(stored, old(self).routes(), prefix);
            assert(now.dom() =~= stored.dom());
            self.same_handles(old(self));
            assert(self.routes() =~= if stored.contains_key((prefix, mui)) {
                old(self).routes().insert(
                    (prefix, mui),
                    Filed {
                        ltime,
                        status: RouteStatus::Withdrawn,
                        value: old(self).routes()[(prefix, mui)].value,
                    },
                )
            } else {
                old(self).routes()
            });
        }
        res
    }

    /// A table whose routes have the handles that they had in one that is in
    /// order is in order.
    proof fn same_handles(&self, before: &RouteTable)
        requires
            before.wf(),
            self.slots == before.slots,
            self.defaults == before.defaults,
            self.unreadable == before.unreadable,
            before.places().subset_of(self.places()),
            stored_routes(self.store).dom() == stored_routes(before.store).dom(),
            forall|k: (Prefix, u32)| #[trigger]
                stored_routes(self.store).contains_key(k) ==> stored_routes(self.store)[k].value
                    == stored_routes(before.store)[k].value,
        ensures
            self.wf(),
    {
        let was = stored_routes(before.store);
        let now = stored_routes(self.store);
        assert forall|h: int| 0 <= h < self.slots@.len() implies #[trigger] self.in_use(h) by {
            assert(before.in_use(h));
            let k = choose|k: (Prefix, u32)| #[trigger] was.contains_key(k) && was[k].value == h;
            assert(now.dom().contains(k));
            assert(now.contains_key(k));
        }
        assert forall|k: (Prefix, u32)| #[trigger] now.contains_key(k) implies placed_prefixes(
            self.store,
        ).contains(k.0) by {
            assert(was.dom().contains(k));
            assert(was.contains_key(k));
            assert(before.places().contains(k.0));
        }
        assert forall|k: (Prefix, u32)| #[trigger] now.contains_key(k) implies self.handle_ok(
            k,
        ) by {
            assert(was.contains_key(k));
            assert(before.handle_ok(k));
        }
        assert forall|k: (Prefix, u32), l: (Prefix, u32)|
            #![trigger now.contains_key(k), now.contains_key(l)]
            now.contains_key(k) && now.contains_key(l) && now[k].value == now[l].value implies k
            == l by {
            assert(was.contains_key(k) && was.contains_key(l));
        }
        assert forall|k: (Prefix, u32)| #[trigger]
            now.contains_key(k) && k.0.len_spec() == 0 implies k.0 == default_route(
            k.0.addr_spec() is V4,
        ) by {
            assert(was.contains_key(k));
        }
        assert forall|w: bool, m: u32|
            #![trigger self.defaults@.contains_key(default_key(w, m))]
            self.defaults@.contains_key(default_key(w, m)) <==> now.contains_key(
                (default_route(w), m),
            ) by {
            assert(before.defaults@.contains_key(default_key(w, m)) <==> was.contains_key(
                (default_route(w), m),
            ));
        }
        assert forall|w: bool, m: u32|
            #![trigger self.defaults@[default_key(w, m)]]
            now.contains_key((default_route(w), m)) implies self.defaults@[default_key(w, m)]
            == now[(default_route(w), m)].value by {
            assert(before.defaults@[default_key(w, m)] == was[(default_route(w), m)].value);
        }
    }

    /// Withdraws a source as a whole, for the given families.
    pub fn mark_source_withdrawn(&mut self, mui: IngressId, v4: bool, v6: bool)
        requires
            old(self).wf(),
        ensures
            final(self).wf(),
            final(self).room() == old(self).room(),
            final(self).routes() == old(self).routes(),
            final(self).places() == old(self).places(),
            final(self).withdrawn() == with_families(old(self).withdrawn(), mui, v4, v6),
    {
        if v4 && v6 {
            let _ = self.store.mark_withdrawn(mui);
        } else if v4 {
            let _ = self.store.mark_withdrawn_v4(mui);
        } else if v6 {
            let _ = self.store.mark_withdrawn_v6(mui);
        }
        proof {
            self.same_handles(old(self));
            assert(self.routes() =~= old(self).routes());
            let want = with_families(old(self).withdrawn(), mui, v4, v6);
            assert forall|k: (bool, IngressId)| self.withdrawn().contains(k) == want.contains(k) by {
                assert(k == (k.0, k.1));
                assert(k.0 == true || k.0 == false);
            }
            assert(self.withdrawn() =~= want);
        }
    }

    /// Takes the withdrawal of a source as a whole back, for both families.
    pub fn mark_source_active(&mut self, mui: IngressId)
        requires
            old(self).wf(),
        ensures
            final(self).wf(),
            final(self).room() == old(self).room(),
            final(self).routes() == old(self).routes(),
            final(self).places() == old(self).places(),
            final(self).withdrawn() == old(self).withdrawn().remove((true, mui)).remove(
                (false, mui),
            ),
    {
        let _ = self.store.mark_active_v4(mui);
        let _ = self.store.mark_active_v6(mui);
        proof {
            self.same_handles(old(self));
            assert(self.routes() =~= old(self).routes());
        }
    }

    /// Whether the store finds a prefix for a source. It can miss a source that
    /// announced the prefix, and can take another prefix of the source for this
    /// one.
    pub fn contains(&self, prefix: Prefix, mui: IngressId) -> (found: bool)
        ensures
            may_be_found(self.routes(), prefix, mui, found),
    {
        let found = self.store.contains(prefix, mui);
        proof {
            found_alike(stored_routes(self.store), self.routes(), prefix, mui, found);
        }
        found
    }
}

/// Whether this is the report on a route that was filed.
pub open spec fn is_filing_report(
    before: Routes<Seq<u8>>,
    prefix: Prefix,
    mui: IngressId,
    report: UpsertReport,
) -> bool {
    &&& report.prefix_new == !is_stored(before, prefix)
    &&& report.mui_new
    &&& report.cas_count == 0
    &&& report.mui_count == reported_sources(before, prefix, mui)
}

/// The withdrawn sources with one more, for the given families.
pub open spec fn with_families(
    withdrawn: Set<(bool, IngressId)>,
    mui: IngressId,
    v4: bool,
    v6: bool,
) -> Set<(bool, IngressId)> {
    Set::new(
        |k: (bool, IngressId)|
            withdrawn.contains(k) || (k.1 == mui && (if k.0 {
                v4
            } else {
                v6
            })),
    )
}

/// A search may come out alike in two maps with the same keys.
proof fn found_alike<T, U>(a: Routes<T>, b: Routes<U>, prefix: Prefix, mui: u32, found: bool)
    requires
        forall|k: (Prefix, u32)| #[trigger] a.contains_key(k) == b.contains_key(k),
        may_be_found(a, prefix, mui, found),
    ensures
        may_be_found(b, prefix, mui, found),
{
    let v4 = prefix.addr_spec() is V4;
    stored_alike(a, b, prefix);
    if announced_in(a, v4, mui) {
        let p = choose|p: Prefix| #[trigger]
            a.contains_key((p, mui)) && p.addr_spec() is V4 == v4;
        assert(b.contains_key((p, mui)));
    }
    if announced_all(b, v4, mui) {
        assert forall|p: Prefix| #[trigger]
            is_stored(a, p) && p.addr_spec() is V4 == v4 implies a.contains_key((p, mui)) by {
            stored_alike(a, b, p);
        }
    }
}

/// A prefix is stored in either of two maps with the same keys or in neither.
proof fn stored_alike<T, U>(a: Routes<T>, b: Routes<U>, prefix: Prefix)
    requires
        forall|k: (Prefix, u32)| #[trigger] a.contains_key(k) == b.contains_key(k),
    ensures
        is_stored(a, prefix) == is_stored(b, prefix),
{
    if is_stored(a, prefix) {
        let m = choose|m: u32| a.contains_key((prefix, m));
        assert(b.contains_key((prefix, m)));
    }
    if is_stored(b, prefix) {
        let m = choose|m: u32| b.contains_key((prefix, m));
        assert(a.contains_key((prefix, m)));
    }
}

//------------ Queries -------------------------------------------------------

/// Whether entries are what is seen of the prefixes below one.
pub open spec fn routes_below(s: Sight<Seq<u8>>, prefix: Prefix, prs: Seq<PrefixRecord>) -> bool {
    s.lists_prefixes(prs) && all_below(s, prefix, prefixes_of(prs))
}

/// Whether entries are what is seen of the prefixes above one.
pub open spec fn routes_above(s: Sight<Seq<u8>>, prefix: Prefix, prs: Seq<PrefixRecord>) -> bool {
    s.lists_prefixes(prs) && all_above(s, prefix, prefixes_of(prs))
}

/// Whether entries are what is seen of all prefixes of a family.
pub open spec fn routes_stored(s: Sight<Seq<u8>>, v4: bool, v6: bool, prs: Seq<PrefixRecord>) -> bool {
    s.lists_prefixes(prs) && all_stored(s, v4, v6, prefixes_of(prs))
}

/// What a query found: the records of the matching prefix, and the entries of
/// the prefixes below and above it where they were asked for.
#[derive(Debug)]
pub struct TableMatch {
    pub prefix: Option<Prefix>,
    pub records: Vec<RouteRecord>,
    pub more_specifics: Option<Vec<PrefixRecord>>,
    pub less_specifics: Option<Vec<PrefixRecord>>,
}

/// Whether this is what a query finds. A matching prefix of which nothing is
/// seen counts as no match.
pub open spec fn is_found(
    s: Sight<Seq<u8>>,
    prefix: Prefix,
    longest: bool,
    less: bool,
    more: bool,
    found: TableMatch,
) -> bool {
    &&& match found.prefix {
        Some(p) => is_match(s.routes, longest, prefix, p) && s.shows(p) && s.lists_routes(
            p,
            found.records@,
        ) && found.records@.len() > 0,
        None => found.records@.len() == 0 && forall|p: Prefix| #[trigger]
            is_match(s.routes, longest, prefix, p) ==> !s.shows(p),
    }
    &&& found.more_specifics is Some == more
    &&& found.more_specifics matches Some(prs) ==> routes_below(s, prefix, prs@)
    &&& found.less_specifics is Some == less
    &&& found.less_specifics matches Some(prs) ==> routes_above(s, prefix, prs@)
}

impl RouteTable {
    /// The table and its store see the same routes.
    proof fn sees_alike(&self, only: Option<u32>, include_withdrawn: bool)
        ensures
            forall|p: Prefix, m: u32|
                #![trigger self.sight(only, include_withdrawn).at(p, m)]
                #![trigger sight(self.store, only, include_withdrawn).at(p, m)]
                {
                    let mine = self.sight(only, include_withdrawn).at(p, m);
                    let its = sight(self.store, only, include_withdrawn).at(p, m);
                    &&& mine is Some == its is Some
                    &&& its matches Some(f) ==> stored_routes(self.store).contains_key((p, m))
                        && f.value == stored_routes(self.store)[(p, m)].value && mine == Some(
                        Filed {
                            ltime: f.ltime,
                            status: f.status,
                            value: self.slots@[f.value as int].meta@,
                        },
                    )
                },
            forall|p: Prefix|
                #![trigger self.sight(only, include_withdrawn).shows(p)]
                #![trigger sight(self.store, only, include_withdrawn).shows(p)]
                self.sight(only, include_withdrawn).shows(p) == sight(
                    self.store,
                    only,
                    include_withdrawn,
                ).shows(p),
    {
        let mine = self.sight(only, include_withdrawn);
        let its = sight(self.store, only, include_withdrawn);
        assert forall|p: Prefix, m: u32|
            #![trigger mine.at(p, m)]
            #![trigger its.at(p, m)]
            {
                &&& mine.at(p, m) is Some == its.at(p, m) is Some
                &&& its.at(p, m) matches Some(f) ==> stored_routes(self.store).contains_key((p, m))
                    && f.value == stored_routes(self.store)[(p, m)].value && mine.at(p, m) == Some(
                    Filed {
                        ltime: f.ltime,
                        status: f.status,
                        value: self.slots@[f.value as int].meta@,
                    },
                )
            } by {
            assert(self.routes().contains_key((p, m)) == stored_routes(self.store).contains_key(
                (p, m),
            ));
            if self.routes().contains_key((p, m)) {
                assert(self.routes()[(p, m)] == self.filed((p, m)));
            }
        }
        assert forall|p: Prefix| mine.shows(p) == its.shows(p) by {
            if mine.shows(p) {
                let m = choose|m: u32| #[trigger] mine.at(p, m) is Some;
                assert(its.at(p, m) is Some);
            }
            if its.shows(p) {
                let m = choose|m: u32| #[trigger] its.at(p, m) is Some;
                assert(mine.at(p, m) is Some);
            }
        }
    }

    /// The records of a prefix with their path attributes.
    fn fetch_records(
        &self,
        raw: &Vec<RawRecord>,
        Ghost(prefix): Ghost<Prefix>,
        Ghost(only): Ghost<Option<u32>>,
        Ghost(include_withdrawn): Ghost<bool>,
    ) -> (records: Vec<RouteRecord>)
        requires
            self.wf(),
            sight(self.store, only, include_withdrawn).lists(prefix, raw@),
        ensures
            records@.len() == raw@.len(),
            self.sight(only, include_withdrawn).lists_routes(prefix, records@),
    {
        let ghost mine = self.sight(only, include_withdrawn);
        let ghost its = sight(self.store, only, include_withdrawn);
        proof {
            self.sees_alike(only, include_withdrawn);
        }
        let mut records: Vec<RouteRecord> = Vec::new();
        let mut i: usize = 0;
        while i < raw.len()
            invariant
                i <= raw@.len(),
                records@.len() == i,
                self.wf(),
                mine == self.sight(only, include_withdrawn),
                its == sight(self.store, only, include_withdrawn),
                its.lists(prefix, raw@),
                forall|p: Prefix, m: u32|
                    #![trigger mine.at(p, m)]
                    #![trigger its.at(p, m)]
                    {
                        &&& mine.at(p, m) is Some == its.at(p, m) is Some
                        &&& its.at(p, m) matches Some(f) ==> stored_routes(
                            self.store,
                        ).contains_key((p, m)) && f.value == stored_routes(self.store)[(
                            p,
                            m,
                        )].value && mine.at(p, m) == Some(
                            Filed {
                                ltime: f.ltime,
                                status: f.status,
                                value: self.slots@[f.value as int].meta@,
                            },
                        )
                    },
                forall|j: int|
                    0 <= j < i ==> (#[trigger] records@[j]).multi_uniq_id == raw@[j].0 && mine.at(
                        prefix,
                        records@[j].multi_uniq_id,
                    ) is Some && is_record(
                        records@[j],
                        records@[j].multi_uniq_id,
                        mine.at(prefix, records@[j].multi_uniq_id)->0,
                    ),
            decreases raw@.len() - i,
        {
            let r = raw[i];
            proof {
                assert(its.at(prefix, raw@[i as int].0) is Some);
                assert(raw@[i as int] == raw_record(r.0, its.at(prefix, r.0)->0));
                assert(stored_routes(self.store).contains_key((prefix, r.0)));
                assert(self.handle_ok((prefix, r.0)));
                assert(mine.at(prefix, r.0) is Some);
            }
            let status = status_of(r.2);
            let meta = self.slots[r.3 as usize].meta.clone();
            records.push(RouteRecord { multi_uniq_id: r.0, ltime: r.1, status, meta });
            i += 1;
        }
        proof {
            assert forall|a: int, b: int| 0 <= a < b < records@.len() implies (
            #[trigger] records@[a]).multi_uniq_id != (#[trigger] records@[b]).multi_uniq_id by {
                assert(raw@[a].0 != raw@[b].0);
            }
            assert forall|m: u32| #[trigger] mine.at(prefix, m) is Some implies exists|j: int|
                0 <= j < records@.len() && (#[trigger] records@[j]).multi_uniq_id == m by {
                assert(its.at(prefix, m) is Some);
                let j = choose|j: int| 0 <= j < raw@.len() && (#[trigger] raw@[j]).0 == m;
                assert(records@[j].multi_uniq_id == m);
            }
        }
        records
    }

    /// The entries of groups of records, none of which is empty.
    fn fetch_groups(
        &self,
        groups: &Vec<Vec<RawRecord>>,
        Ghost(ps): Ghost<Seq<Prefix>>,
        Ghost(only): Ghost<Option<u32>>,
        Ghost(include_withdrawn): Ghost<bool>,
    ) -> (prs: Vec<PrefixRecord>)
        requires
            self.wf(),
            sight(self.store, only, include_withdrawn).lists_all(ps, groups@),
            forall|p: Prefix| #[trigger]
                ps.contains(p) ==> sight(self.store, only, include_withdrawn).shows(p),
        ensures
            prefixes_of(prs@) == ps,
            self.sight(only, include_withdrawn).lists_prefixes(prs@),
    {
        let ghost its = sight(self.store, only, include_withdrawn);
        let ghost mine = self.sight(only, include_withdrawn);
        let mut prs: Vec<PrefixRecord> = Vec::new();
        let mut i: usize = 0;
        while i < groups.len()
            invariant
                i <= groups@.len(),
                prs@.len() == i,
                self.wf(),
                its == sight(self.store, only, include_withdrawn),
                mine == self.sight(only, include_withdrawn),
                its.lists_all(ps, groups@),
                forall|p: Prefix| #[trigger] ps.contains(p) ==> its.shows(p),
                forall|j: int|
                    0 <= j < i ==> (#[trigger] prs@[j]).prefix == ps[j] && mine.lists_routes(
                        prs@[j].prefix,
                        prs@[j].meta@,
                    ),
            decreases groups@.len() - i,
        {
            let group = &groups[i];
            let ghost p = ps[i as int];
            proof {
                assert(ps.contains(p));
                assert(its.lists(ps[i as int], groups@[i as int]@));
                let m = choose|m: u32| #[trigger] its.at(p, m) is Some;
                let j = choose|j: int| 0 <= j < group@.len() && (#[trigger] group@[j]).0 == m;
                assert(its.at(p, group@[0].0) is Some);
                assert(stored_routes(self.store).contains_key((p, group@[0].0)));
                assert(self.handle_ok((p, group@[0].0)));
            }
            let prefix = self.slots[group[0].3 as usize].prefix;
            let meta = self.fetch_records(
                group,
                Ghost(p),
                Ghost(only),
                Ghost(include_withdrawn),
            );
            prs.push(PrefixRecord { prefix, meta });
            i += 1;
        }
        assert(prefixes_of(prs@) =~= ps);
        prs
    }

    /// Looks a prefix up: the prefix itself or, if that is wanted, the longest
    /// stored prefix that covers it; with the prefixes that it covers and those
    /// that cover it, where they are asked for.
    pub fn match_prefix(
        &self,
        prefix: Prefix,
        longest: bool,
        include_withdrawn: bool,
        include_less_specifics: bool,
        include_more_specifics: bool,
        mui: Option<IngressId>,
    ) -> (found: TableMatch)
        requires
            self.wf(),
        ensures
            is_found(
                self.sight(mui, include_withdrawn),
                prefix,
                longest,
                include_less_specifics,
                include_more_specifics,
                found,
            ),
    {
        let ghost its = sight(self.store, mui, include_withdrawn);
        let ghost mine = self.sight(mui, include_withdrawn);
        let ghost stored = stored_routes(self.store);
        let (raw, raw_more, raw_less) = self.store.match_prefix(
            prefix,
            longest,
            include_withdrawn,
            include_less_specifics,
            include_more_specifics,
            mui,
        );
        proof {
            self.sees_alike(mui, include_withdrawn);
            assert forall|p: Prefix| #[trigger]
                is_match(stored, longest, prefix, p) == is_match(
                    self.routes(),
                    longest,
                    prefix,
                    p,
                ) by {
                match_alike(stored, self.routes(), longest, prefix, p);
            }
        }
        let more_specifics = match &raw_more {
            Some(groups) => {
                let ghost ps = choose|ps: Seq<Prefix>| #[trigger]
                    its.lists_all(ps, groups@) && all_below(its, prefix, ps);
                let prs = self.fetch_groups(
                    groups,
                    Ghost(ps),
                    Ghost(mui),
                    Ghost(include_withdrawn),
                );
                assert(all_below(mine, prefix, prefixes_of(prs@)));
                Some(prs)
            },
            None => None,
        };
        let less_specifics = match &raw_less {
            Some(groups) => {
                let ghost ps = choose|ps: Seq<Prefix>| #[trigger]
                    its.lists_all(ps, groups@) && all_above(its, prefix, ps);
                let prs = self.fetch_groups(
                    groups,
                    Ghost(ps),
                    Ghost(mui),
                    Ghost(include_withdrawn),
                );
                assert(all_above(mine, prefix, prefixes_of(prs@)));
                Some(prs)
            },
            None => None,
        };
        if raw.len() == 0 {
            proof {
                assert forall|p: Prefix| #[trigger]
                    is_match(mine.routes, longest, prefix, p) implies !mine.shows(p) by {
                    assert(is_match(stored, longest, prefix, p));
                    assert(its.lists(p, raw@));
                    if its.shows(p) {
                        let m = choose|m: u32| #[trigger] its.at(p, m) is Some;
                        let j = choose|j: int| 0 <= j < raw@.len() && (#[trigger] raw@[j]).0 == m;
                    }
                }
            }
            return TableMatch {
                prefix: None,
                records: Vec::new(),
                more_specifics,
                less_specifics,
            };
        }
        let ghost p = choose|p: Prefix| #[trigger] is_match(stored, longest, prefix, p);
        proof {
            if !(exists|p: Prefix| #[trigger] is_match(stored, longest, prefix, p)) {
                assert(forall|p: Prefix| !is_match(stored, longest, prefix, p));
            }
            assert(its.lists(p, raw@));
            assert(its.at(p, raw@[0].0) is Some);
            assert(its.shows(p));
            assert(stored.contains_key((p, raw@[0].0)));
            assert(self.handle_ok((p, raw@[0].0)));
        }
        let found = self.slots[raw[0].3 as usize].prefix;
        let records = self.fetch_records(&raw, Ghost(p), Ghost(mui), Ghost(include_withdrawn));
        assert(mine.shows(found));
        TableMatch { prefix: Some(found), records, more_specifics, less_specifics }
    }

    /// All routes of the given families, those of withdrawn sources as
    /// withdrawn. The prefixes without bits are left out.
    pub fn all_routes(&self, v4: bool, v6: bool) -> (prs: Vec<PrefixRecord>)
        requires
            self.wf(),
            v4 || v6,
        ensures
            routes_stored(self.sight(None, true), v4, v6, prs@),
    {
        let ghost its = sight(self.store, None, true);
        let groups = if v4 && v6 {
            self.store.all_records()
        } else if v4 {
            self.store.all_records_v4()
        } else {
            self.store.all_records_v6()
        };
        let ghost ps = choose|ps: Seq<Prefix>| #[trigger]
            its.lists_all(ps, groups@) && all_stored(its, v4, v6, ps);
        proof {
            self.sees_alike(None, true);
        }
        let prs = self.fetch_groups(&groups, Ghost(ps), Ghost(None), Ghost(true));
        assert(all_stored(self.sight(None, true), v4, v6, prefixes_of(prs@)));
        prs
    }

    /// The active routes from one source to the prefixes of one family; none if
    /// the source is withdrawn as a whole. The prefix without bits is left out.
    pub fn source_routes(&self, mui: IngressId, v4: bool) -> (prs: Vec<PrefixRecord>)
        requires
            self.wf(),
        ensures
            if self.withdrawn().contains((v4, mui)) {
                prs@.len() == 0
            } else {
                routes_stored(self.sight(Some(mui), false), v4, !v4, prs@)
            },
    {
        let ghost its = sight(self.store, Some(mui), false);
        let groups = if v4 {
            self.store.source_records_v4(mui)
        } else {
            self.store.source_records_v6(mui)
        };
        let ghost ps = if self.withdrawn().contains((v4, mui)) {
            Seq::empty()
        } else {
            choose|ps: Seq<Prefix>| #[trigger]
                its.lists_all(ps, groups@) && all_stored(its, v4, !v4, ps)
        };
        proof {
            self.sees_alike(Some(mui), false);
        }
        let prs = self.fetch_groups(&groups, Ghost(ps), Ghost(Some(mui)), Ghost(false));
        proof {
            assert(prefixes_of(prs@).len() == prs@.len());
            if !self.withdrawn().contains((v4, mui)) {
                assert(all_stored(self.sight(Some(mui), false), v4, !v4, prefixes_of(prs@)));
            }
        }
        prs
    }
}

/// Maps with the same keys have the same matches.
proof fn match_alike<T, U>(
    a: Routes<T>,
    b: Routes<U>,
    longest: bool,
    prefix: Prefix,
    found: Prefix,
)
    requires
        forall|k: (Prefix, u32)| #[trigger] a.contains_key(k) == b.contains_key(k),
    ensures
        is_match(a, longest, prefix, found) == is_match(b, longest, prefix, found),
{
    assert forall|p: Prefix| is_stored(a, p) == is_stored(b, p) by {
        stored_alike(a, b, p);
    }
}

/// Whether a prefix belongs to one of the given families.
pub open spec fn in_families(prefix: Prefix, v4: bool, v6: bool) -> bool {
    if prefix.addr_spec() is V4 {
        v4
    } else {
        v6
    }
}

impl RouteTable {
    /// The prefixes of the given families, but for those without bits.
    pub fn all_prefixes(&self, v4: bool, v6: bool) -> (prefixes: Vec<Prefix>)
        requires
            self.wf(),
            v4 || v6,
        ensures
            prefixes@.no_duplicates(),
            forall|p: Prefix| #[trigger]
                prefixes@.contains(p) <==> (is_stored(self.routes(), p) && p.len_spec() > 0
                    && in_families(p, v4, v6)),
    {
        self.list_prefixes(None, v4, v6)
    }

    /// The prefixes of the given families that a source announced, but for
    /// those without bits.
    pub fn source_prefixes(&self, mui: IngressId, v4: bool, v6: bool) -> (prefixes: Vec<Prefix>)
        requires
            self.wf(),
            v4 || v6,
        ensures
            prefixes@.no_duplicates(),
            forall|p: Prefix| #[trigger]
                prefixes@.contains(p) <==> (self.routes().contains_key((p, mui)) && p.len_spec() > 0
                    && in_families(p, v4, v6)),
    {
        self.list_prefixes(Some(mui), v4, v6)
    }

    /// The prefixes of the given families that a source, or any, announced, but
    /// for those without bits.
    fn list_prefixes(&self, mui: Option<IngressId>, v4: bool, v6: bool) -> (prefixes: Vec<Prefix>)
        requires
            self.wf(),
            v4 || v6,
        ensures
            prefixes@.no_duplicates(),
            forall|p: Prefix| #[trigger]
                prefixes@.contains(p) <==> ((match mui {
                    Some(m) => self.routes().contains_key((p, m)),
                    None => is_stored(self.routes(), p),
                }) && p.len_spec() > 0 && in_families(p, v4, v6)),
    {
        let ghost its = sight(self.store, None, true);
        let ghost stored = stored_routes(self.store);
        let groups = if v4 && v6 {
            self.store.all_records()
        } else if v4 {
            self.store.all_records_v4()
        } else {
            self.store.all_records_v6()
        };
        let ghost ps = choose|ps: Seq<Prefix>| #[trigger]
            its.lists_all(ps, groups@) && all_stored(its, v4, v6, ps);
        let mut prefixes: Vec<Prefix> = Vec::new();
        let mut i: usize = 0;
        while i < groups.len()
            invariant
                i <= groups@.len(),
                self.wf(),
                its == sight(self.store, None, true),
                stored == stored_routes(self.store),
                its.lists_all(ps, groups@),
                all_stored(its, v4, v6, ps),
                prefixes@.no_duplicates(),
                forall|p: Prefix| #[trigger]
                    prefixes@.contains(p) <==> (ps.take(i as int).contains(p) && (mui matches Some(
                        m,
                    ) ==> stored.contains_key((p, m)))),
            decreases groups@.len() - i,
        {
            let group = &groups[i];
            let ghost p = ps[i as int];
            proof {
                assert(ps.contains(p));
                assert(its.lists(ps[i as int], groups@[i as int]@));
                let m = choose|m: u32| #[trigger] its.at(p, m) is Some;
                let j = choose|j: int| 0 <= j < group@.len() && (#[trigger] group@[j]).0 == m;
                assert(its.at(p, group@[0].0) is Some);
                assert(stored.contains_key((p, group@[0].0)));
                assert(self.handle_ok((p, group@[0].0)));
            }
            let wanted = match mui {
                Some(m) => {
                    let mut found = false;
                    let mut j: usize = 0;
                    while j < group.len() && !found
                        invariant
                            j <= group@.len(),
                            its == sight(self.store, None, true),
                            stored == stored_routes(self.store),
                            its.lists(p, group@),
                            found ==> stored.contains_key((p, m)),
                            !found ==> forall|k: int| 0 <= k < j ==> (#[trigger] group@[k]).0 != m,
                        decreases group@.len() - j, (if found { 0int } else { 1int }),
                    {
                        if group[j].0 == m {
                            assert(its.at(p, group@[j as int].0) is Some);
                            found = true;
                        } else {
                            j += 1;
                        }
                    }
                    proof {
                        if !found && stored.contains_key((p, m)) {
                            assert(its.at(p, m) is Some);
                        }
                    }
                    found
                },
                None => true,
            };
            let ghost before = prefixes@;
            let ghost done = ps.take(i as int);
            if wanted {
                prefixes.push(self.slots[group[0].3 as usize].prefix);
            }
            proof {
                let next = ps.take(i + 1);
                assert(next =~= done.push(p));
                assert(!done.contains(p)) by {
                    if done.contains(p) {
                        let j = choose|j: int| 0 <= j < done.len() && done[j] == p;
                        assert(ps[j] == ps[i as int]);
                    }
                }
                assert forall|q: Prefix| #[trigger] next.contains(q) == (done.contains(q) || q
                    == p) by {
                    if done.contains(q) {
                        let j = choose|j: int| 0 <= j < done.len() && done[j] == q;
                        assert(next[j] == q);
                    }
                    assert(next[i as int] == p);
                    if next.contains(q) && q != p {
                        let j = choose|j: int| 0 <= j < next.len() && next[j] == q;
                        assert(done[j] == q);
                    }
                }
                assert forall|q: Prefix| #[trigger] prefixes@.contains(q) == (before.contains(q)
                    || (wanted && q == p)) by {
                    if before.contains(q) {
                        let j = choose|j: int| 0 <= j < before.len() && before[j] == q;
                        assert(prefixes@[j] == q);
                    }
                    if wanted {
                        assert(prefixes@[before.len() as int] == p);
                    }
                    if prefixes@.contains(q) && !(wanted && q == p) {
                        let j = choose|j: int| 0 <= j < prefixes@.len() && prefixes@[j] == q;
                        assert(before[j] == q);
                    }
                }
                assert(prefixes@.no_duplicates()) by {
                    assert(!before.contains(p));
                    assert forall|a: int, b: int|
                        0 <= a < prefixes@.len() && 0 <= b < prefixes@.len() && a != b implies
                        prefixes@[a] != prefixes@[b] by {
                        if a < before.len() && b < before.len() {
                            assert(before[a] != before[b]);
                        } else if a < before.len() {
                            assert(before.contains(before[a]));
                        } else if b < before.len() {
                            assert(before.contains(before[b]));
                        }
                    }
                }
            }
            i += 1;
        }
        proof {
            self.sees_alike(None, true);
            assert(ps.take(i as int) =~= ps);
            assert forall|p: Prefix| its.shows(p) == is_stored(self.routes(), p) by {
                stored_alike(stored, self.routes(), p);
                if its.shows(p) {
                    let m = choose|m: u32| #[trigger] its.at(p, m) is Some;
                    assert(stored.contains_key((p, m)));
                }
                if is_stored(stored, p) {
                    let m = choose|m: u32| stored.contains_key((p, m));
                    assert(its.at(p, m) is Some);
                }
            }
            assert forall|p: Prefix, m: u32| #[trigger] stored.contains_key((p, m))
                == self.routes().contains_key((p, m)) by {}
            assert forall|p: Prefix| #[trigger]
                prefixes@.contains(p) <==> ((match mui {
                    Some(m) => self.routes().contains_key((p, m)),
                    None => is_stored(self.routes(), p),
                }) && p.len_spec() > 0 && in_families(p, v4, v6)) by {
                if let Some(m) = mui {
                    assert(stored.contains_key((p, m)) == self.routes().contains_key((p, m)));
                    if stored.contains_key((p, m)) {
                        assert(its.at(p, m) is Some);
                        assert(its.shows(p));
                    }
                }
                assert(its.shows(p) == is_stored(self.routes(), p));
            }
        }
        prefixes
    }
}

} // verus!
