//! The routing information base.
use crate::ingress::{IngressId, IngressInfo, Register};
use crate::net::{AfiSafiType, Prefix};
use crate::payload::{PathAttributeInterner, RotondaPaMap, RotondaRoute, RouteStatus};
use crate::text::opt_text;
use crate::units::rib_unit::filter::{
    all_readable, apply_filter, are_verdicts, asks_for_attributes, selection,
};
use crate::units::rib_unit::http_ng::{Include, QueryFilter};
use crate::units::rib_unit::records::{PrefixRecord, RouteRecord};
use crate::units::rib_unit::store::{
    is_match, is_stored, may_be_found, Filed, Routes, Sight, StoreNotReady, UpsertReport,
};
use crate::units::rib_unit::table::{
    in_families, is_filing_report, is_found, routes_readable, routes_stored, with_families,
    RouteTable, TableMatch,
};
use std::collections::HashMap;
use vstd::prelude::*;
use vstd::std_specs::hash::*;
use vstd::string::*;

verus! {

//------------ Rib -----------------------------------------------------------

/// The routes of all sources.
pub struct Rib {
    unicast: RouteTable,
    multicast: RouteTable,
    path_attribute_interner: PathAttributeInterner,
}

/// What inserting a route did.
#[derive(Clone, Copy, Debug, PartialEq, Eq, Structural)]
pub enum StoreInsertionEffect {
    RoutesWithdrawn(usize),
    RoutesRemoved(usize),
    RouteAdded,
    RouteUpdated,
}

/// The report of an insertion that did nothing.
pub open spec fn empty_report() -> UpsertReport {
    UpsertReport { cas_count: 0, prefix_new: false, mui_new: false, mui_count: 0 }
}

/// How a single withdrawal is carried out.
#[derive(Clone, Copy, Debug, PartialEq, Eq, Structural)]
pub enum WithdrawalPlan {
    /// The route is marked as withdrawn, and keeps its path attributes.
    Mark,
    /// The route is replaced by a withdrawn one without path attributes.
    Replace,
    /// There is no such route.
    Ignore,
}

/// How a single withdrawal is carried out, given whether attributes are kept
/// and whether the store finds the route.
pub open spec fn withdrawal_plan_spec(retain: bool, found: bool) -> WithdrawalPlan {
    if retain {
        WithdrawalPlan::Mark
    } else if found {
        WithdrawalPlan::Replace
    } else {
        WithdrawalPlan::Ignore
    }
}

/// Decides how a single withdrawal is carried out.
pub fn withdrawal_plan(retain: bool, found: bool) -> (plan: WithdrawalPlan)
    ensures
        plan == withdrawal_plan_spec(retain, found),
{
    if retain {
        WithdrawalPlan::Mark
    } else if found {
        WithdrawalPlan::Replace
    } else {
        WithdrawalPlan::Ignore
    }
}

/// Whether routes of an address family are kept apart as multicast.
pub open spec fn is_multicast(afisafi: AfiSafiType) -> bool {
    afisafi is Ipv4Multicast || afisafi is Ipv6Multicast
}

/// Whether routes of an address family are kept.
pub open spec fn is_supported(afisafi: AfiSafiType) -> bool {
    afisafi is Ipv4Unicast || afisafi is Ipv6Unicast || is_multicast(afisafi)
}

/// A withdrawn route without path attributes.
pub open spec fn cleared(ltime: u64) -> Filed<Seq<u8>> {
    Filed { ltime, status: RouteStatus::Withdrawn, value: seq![0u8, 1u8] }
}

/// Whether a route was filed, and the report says so.
pub open spec fn was_filed(
    before: RouteTable,
    after: RouteTable,
    prefix: Prefix,
    mui: IngressId,
    route: Filed<Seq<u8>>,
    res: Result<UpsertReport, String>,
) -> bool {
    &&& after.routes() == before.routes().insert((prefix, mui), route)
    &&& after.places() == before.places().insert(prefix)
    &&& res matches Ok(report) && is_filing_report(before.routes(), prefix, mui, report)
}

/// The routes after one was marked as withdrawn at the given time, if there is
/// such a route.
pub open spec fn with_withdrawn(
    routes: Routes<Seq<u8>>,
    prefix: Prefix,
    mui: IngressId,
    ltime: u64,
) -> Routes<Seq<u8>> {
    if routes.contains_key((prefix, mui)) {
        routes.insert(
            (prefix, mui),
            Filed {
                ltime,
                status: RouteStatus::Withdrawn,
                value: routes[(prefix, mui)].value,
            },
        )
    } else {
        routes
    }
}

/// What inserting a route does to the table it belongs to.
///
/// An announcement is filed. A withdrawal marks the route and keeps its
/// attributes if they are to be retained, which fails if the prefix was neither
/// stored nor marked before; else it replaces the route by one without
/// attributes if the store finds it, and does nothing if it does not.
pub open spec fn inserted(
    before: RouteTable,
    after: RouteTable,
    val: RotondaRoute,
    route_status: RouteStatus,
    ltime: u64,
    mui: IngressId,
    retain: bool,
    res: Result<UpsertReport, String>,
) -> bool {
    let prefix = val.prefix_spec();
    &&& after.withdrawn() == before.withdrawn()
    &&& if route_status != RouteStatus::Withdrawn {
        was_filed(
            before,
            after,
            prefix,
            mui,
            Filed { ltime, status: route_status, value: val.pamap_spec()@ },
            res,
        )
    } else if retain {
        &&& after.routes() == with_withdrawn(before.routes(), prefix, mui, 0)
        &&& after.places() == before.places().insert(prefix)
        &&& match res {
            Ok(report) => before.places().contains(prefix) && report == empty_report(),
            Err(e) => !before.places().contains(prefix) && e@
                == "Error: The Prefix cannot be found."@,
        }
    } else {
        ||| {
            &&& may_be_found(before.routes(), prefix, mui, false)
            &&& after.routes() == before.routes()
            &&& after.places() == before.places()
            &&& res matches Ok(report) && report == empty_report()
        }
        ||| {
            &&& may_be_found(before.routes(), prefix, mui, true)
            &&& was_filed(before, after, prefix, mui, cleared(ltime), res)
        }
    }
}

/// What inserting a route does to the RIB: the route goes to the table of its
/// address family, and the other table stays as it was.
pub open spec fn route_inserted(
    before: Rib,
    after: Rib,
    val: RotondaRoute,
    route_status: RouteStatus,
    ltime: u64,
    mui: IngressId,
    retain: bool,
    res: Result<UpsertReport, String>,
) -> bool {
    let multicast = is_multicast(val.afisafi_spec());
    &&& inserted(
        before.table(multicast),
        after.table(multicast),
        val,
        route_status,
        ltime,
        mui,
        retain,
        res,
    )
    &&& after.table(!multicast) == before.table(!multicast)
}

impl Rib {
    /// The unicast routes.
    pub closed spec fn unicast_spec(&self) -> RouteTable {
        self.unicast
    }

    /// The multicast routes.
    pub closed spec fn multicast_spec(&self) -> RouteTable {
        self.multicast
    }

    /// The table for multicast or for unicast.
    pub open spec fn table(&self, multicast: bool) -> RouteTable {
        if multicast {
            self.multicast_spec()
        } else {
            self.unicast_spec()
        }
    }

    /// Both tables are in order, and so are the shared path attributes.
    pub closed spec fn wf(&self) -> bool {
        &&& self.unicast.wf()
        &&& self.multicast.wf()
        &&& self.path_attribute_interner.wf()
    }

    /// One more route can be told apart in either table.
    pub open spec fn room(&self) -> bool {
        self.unicast_spec().room() && self.multicast_spec().room()
    }

    /// A RIB without routes.
    pub fn new() -> (res: Result<Self, StoreNotReady>)
        ensures
            res matches Ok(rib) && {
                &&& rib.wf()
                &&& rib.room()
                &&& forall|multicast: bool| #[trigger]
                    rib.table(multicast).routes() == Map::<(Prefix, u32), Filed<Seq<u8>>>::empty()
                &&& forall|multicast: bool| #[trigger]
                    rib.table(multicast).withdrawn() == Set::<(bool, u32)>::empty()
                &&& forall|multicast: bool| #[trigger]
                    rib.table(multicast).places() == Set::<Prefix>::empty()
            },
    {
        let unicast = match RouteTable::new() {
            Ok(table) => table,
            Err(e) => {
                return Err(e);
            },
        };
        let multicast = match RouteTable::new() {
            Ok(table) => table,
            Err(e) => {
                return Err(e);
            },
        };
        Ok(
            Rib {
                unicast,
                multicast,
                path_attribute_interner: PathAttributeInterner::new(),
            },
        )
    }

    /// The unicast routes.
    pub fn store(&self) -> (table: &RouteTable)
        ensures
            *table == self.unicast_spec(),
    {
        &self.unicast
    }

    /// Whether one more route can be told apart in either table.
    pub fn has_room(&self) -> (yes: bool)
        ensures
            yes == self.room(),
    {
        self.unicast.has_room() && self.multicast.has_room()
    }

    /// Files an announced route, or carries out the withdrawal of one.
    pub fn insert(
        &mut self,
        val: &RotondaRoute,
        route_status: RouteStatus,
        ltime: u64,
        ingress_id: IngressId,
        retain_withdrawn_attributes: bool,
        deduplicate_path_attributes: bool,
    ) -> (res: Result<UpsertReport, String>)
        requires
            old(self).wf(),
            old(self).room(),
        ensures
            final(self).wf(),
            route_inserted(
                *old(self),
                *final(self),
                *val,
                route_status,
                ltime,
                ingress_id,
                retain_withdrawn_attributes,
                res,
            ),
    {
        let multicast = matches!(
            val,
            RotondaRoute::Ipv4Multicast(..) | RotondaRoute::Ipv6Multicast(..)
        );
        self.insert_prefix(
            val.prefix(),
            multicast,
            val,
            route_status,
            ltime,
            ingress_id,
            retain_withdrawn_attributes,
            deduplicate_path_attributes,
        )
    }

    /// Files an announced route in a table, or carries out the withdrawal of
    /// one.
    fn insert_prefix(
        &mut self,
        prefix: Prefix,
        multicast: bool,
        val: &RotondaRoute,
        route_status: RouteStatus,
        ltime: u64,
        ingress_id: IngressId,
        retain_withdrawn_attributes: bool,
        deduplicate_path_attributes: bool,
    ) -> (res: Result<UpsertReport, String>)
        requires
            old(self).wf(),
            old(self).room(),
            prefix == val.prefix_spec(),
        ensures
            final(self).wf(),
            inserted(
                old(self).table(multicast),
                final(self).table(multicast),
                *val,
                route_status,
                ltime,
                ingress_id,
                retain_withdrawn_attributes,
                res,
            ),
            final(self).table(!multicast) == old(self).table(!multicast),
    {
        if route_status == RouteStatus::Withdrawn {
            let found = if multicast {
                self.multicast.contains(prefix, ingress_id)
            } else {
                self.unicast.contains(prefix, ingress_id)
            };
            let nothing = UpsertReport {
                cas_count: 0,
                prefix_new: false,
                mui_new: false,
                mui_count: 0,
            };
            return match withdrawal_plan(retain_withdrawn_attributes, found) {
                WithdrawalPlan::Ignore => Ok(nothing),
                WithdrawalPlan::Replace => {
                    let none = RotondaPaMap::empty_path_attributes();
                    let status = RouteStatus::Withdrawn;
                    if multicast {
                        self.multicast.insert(prefix, ingress_id, ltime, status, none)
                    } else {
                        self.unicast.insert(prefix, ingress_id, ltime, status, none)
                    }
                },
                WithdrawalPlan::Mark => {
                    let res = if multicast {
                        self.multicast.mark_withdrawn_for_prefix(prefix, ingress_id, 0)
                    } else {
                        self.unicast.mark_withdrawn_for_prefix(prefix, ingress_id, 0)
                    };
                    match res {
                        Ok(_) => Ok(nothing),
                        Err(e) => Err(e),
                    }
                },
            };
        }
        let meta = if deduplicate_path_attributes {
            val.rotonda_pamap().dedup_with(&mut self.path_attribute_interner)
        } else {
            val.rotonda_pamap().clone()
        };
        if multicast {
            self.multicast.insert(prefix, ingress_id, ltime, route_status, meta)
        } else {
            self.unicast.insert(prefix, ingress_id, ltime, route_status, meta)
        }
    }
}

//------------ Withdrawal of a source ----------------------------------------

/// A prefix whose routes could not be cleared, and why.
#[derive(Debug)]
pub struct Refusal {
    pub prefix: Prefix,
    pub reason: String,
}

/// Whether a prefix was refused.
pub open spec fn was_refused(refusals: Seq<Refusal>, prefix: Prefix) -> bool {
    exists|i: int| 0 <= i < refusals.len() && (#[trigger] refusals[i]).prefix == prefix
}

/// Whether a route is to be cleared: it comes from the source, and its prefix
/// belongs to one of the families and has bits.
pub open spec fn to_be_cleared(k: (Prefix, u32), mui: IngressId, v4: bool, v6: bool) -> bool {
    k.1 == mui && k.0.len_spec() > 0 && in_families(k.0, v4, v6)
}

/// Whether the routes of a source were cleared: each is withdrawn and without
/// path attributes, but for those that were refused; all others are as before.
pub open spec fn source_cleared(
    before: Routes<Seq<u8>>,
    after: Routes<Seq<u8>>,
    mui: IngressId,
    v4: bool,
    v6: bool,
    refusals: Seq<Refusal>,
) -> bool {
    &&& after.dom() == before.dom()
    &&& forall|k: (Prefix, u32)| #[trigger]
        before.contains_key(k) ==> after[k] == if to_be_cleared(k, mui, v4, v6) && !was_refused(
            refusals,
            k.0,
        ) {
            cleared(0)
        } else {
            before[k]
        }
}

/// Clears the routes of a source in a table, to free the memory of their path
/// attributes. Returns what the store refused.
fn compact_withdrawn_attributes_in_store(
    table: &mut RouteTable,
    ingress_id: IngressId,
    v4: bool,
    v6: bool,
) -> (refusals: Vec<Refusal>)
    requires
        old(table).wf(),
        v4 || v6,
    ensures
        final(table).wf(),
        final(table).room() == old(table).room(),
        final(table).withdrawn() == old(table).withdrawn(),
        final(table).places() == old(table).places(),
        source_cleared(
            old(table).routes(),
            final(table).routes(),
            ingress_id,
            v4,
            v6,
            refusals@,
        ),
        refusals@.len() == 0,
{
    let prefixes = table.source_prefixes(ingress_id, v4, v6);
    let ghost before = table.routes();
    let mut refusals: Vec<Refusal> = Vec::new();
    let mut i: usize = 0;
    proof {
        assert(prefixes@.take(0) =~= Seq::empty());
    }
    while i < prefixes.len()
        invariant
            i <= prefixes@.len(),
            table.wf(),
            table.room() == old(table).room(),
            before == old(table).routes(),
            table.withdrawn() == old(table).withdrawn(),
            table.places() == old(table).places(),
            table.routes().dom() == before.dom(),
            prefixes@.no_duplicates(),
            refusals@.len() == 0,
            forall|p: Prefix| #[trigger]
                prefixes@.contains(p) <==> (before.contains_key((p, ingress_id)) && p.len_spec() > 0
                    && in_families(p, v4, v6)),
            forall|j: int|
                0 <= j < refusals@.len() ==> prefixes@.take(i as int).contains(
                    (#[trigger] refusals@[j]).prefix,
                ),
            forall|k: (Prefix, u32)| #[trigger]
                before.contains_key(k) ==> table.routes()[k] == if k.1 == ingress_id
                    && prefixes@.take(i as int).contains(k.0) && !was_refused(refusals@, k.0) {
                    cleared(0)
                } else {
                    before[k]
                },
        decreases prefixes@.len() - i,
    {
        let prefix = prefixes[i];
        let ghost done = prefixes@.take(i as int);
        let ghost next = prefixes@.take(i + 1);
        let ghost mid = table.routes();
        let ghost was = refusals@;
        proof {
            assert(prefixes@.contains(prefixes@[i as int]));
            assert(before.contains_key((prefix, ingress_id)));
            assert(mid.dom().contains((prefix, ingress_id)));
            assert(!done.contains(prefix)) by {
                if done.contains(prefix) {
                    let j = choose|j: int| 0 <= j < done.len() && done[j] == prefix;
                    assert(prefixes@[j] == prefixes@[i as int]);
                }
            }
            assert forall|q: Prefix| #[trigger] next.contains(q) == (done.contains(q) || q
                == prefix) by {
                if done.contains(q) {
                    let j = choose|j: int| 0 <= j < done.len() && done[j] == q;
                    assert(next[j] == q);
                }
                assert(next[i as int] == prefix);
                if next.contains(q) && q != prefix {
                    let j = choose|j: int| 0 <= j < next.len() && next[j] == q;
                    assert(done[j] == q);
                }
            }
            if was_refused(was, prefix) {
                let j = choose|j: int| 0 <= j < was.len() && (#[trigger] was[j]).prefix == prefix;
                assert(done.contains(was[j].prefix));
            }
        }
        proof {
            table.stored_prefixes_have_places(prefix);
            assert(table.places().insert(prefix) =~= table.places());
        }
        let none = RotondaPaMap::empty_path_attributes();
        match table.insert(prefix, ingress_id, 0, RouteStatus::Withdrawn, none) {
            Ok(_) => {
                assert(table.routes().dom() =~= before.dom());
            },
            Err(reason) => {
                refusals.push(Refusal { prefix, reason });
                proof {
                    assert(refusals@[was.len() as int].prefix == prefix);
                }
            },
        }
        proof {
            assert forall|q: Prefix| #[trigger] was_refused(refusals@, q) == (was_refused(was, q)
                || (refusals@.len() > was.len() && q == prefix)) by {
                if was_refused(was, q) {
                    let j = choose|j: int| 0 <= j < was.len() && (#[trigger] was[j]).prefix == q;
                    assert(refusals@[j].prefix == q);
                }
                if was_refused(refusals@, q) {
                    let j = choose|j: int|
                        0 <= j < refusals@.len() && (#[trigger] refusals@[j]).prefix == q;
                    if j < was.len() {
                        assert(was[j].prefix == q);
                    }
                }
            }
            assert forall|j: int| 0 <= j < refusals@.len() implies next.contains(
                (#[trigger] refusals@[j]).prefix,
            ) by {
                if j < was.len() {
                    assert(done.contains(was[j].prefix));
                }
            }
        }
        i += 1;
    }
    proof {
        assert(prefixes@.take(i as int) =~= prefixes@);
        assert forall|k: (Prefix, u32)| #[trigger] before.contains_key(k) implies table.routes()[k]
            == if to_be_cleared(k, ingress_id, v4, v6) && !was_refused(refusals@, k.0) {
            cleared(0)
        } else {
            before[k]
        } by {
            if k.1 == ingress_id {
                assert(k == (k.0, ingress_id));
                assert(prefixes@.contains(k.0) <==> (before.contains_key((k.0, ingress_id))
                    && k.0.len_spec() > 0 && in_families(k.0, v4, v6)));
            }
        }
    }
    refusals
}

/// The families of a table that a withdrawal concerns: both tables and both
/// families without a choice; else the one that is chosen, if routes of it are
/// kept.
pub open spec fn concerned(specific: Option<AfiSafiType>, multicast: bool) -> (bool, bool) {
    match specific {
        None => (true, true),
        Some(AfiSafiType::Ipv4Unicast) => (!multicast, false),
        Some(AfiSafiType::Ipv6Unicast) => (false, !multicast),
        Some(AfiSafiType::Ipv4Multicast) => (multicast, false),
        Some(AfiSafiType::Ipv6Multicast) => (false, multicast),
        Some(_) => (false, false),
    }
}

fn concerned_families(specific: Option<AfiSafiType>, multicast: bool) -> (families: (bool, bool))
    ensures
        families == concerned(specific, multicast),
{
    match specific {
        None => (true, true),
        Some(AfiSafiType::Ipv4Unicast) => (!multicast, false),
        Some(AfiSafiType::Ipv6Unicast) => (false, !multicast),
        Some(AfiSafiType::Ipv4Multicast) => (multicast, false),
        Some(AfiSafiType::Ipv6Multicast) => (false, multicast),
        Some(_) => (false, false),
    }
}

/// What the store refused, in the unicast and in the multicast table.
#[derive(Debug)]
pub struct Refusals {
    pub unicast: Vec<Refusal>,
    pub multicast: Vec<Refusal>,
}

/// What the withdrawal of a source, or of one address family of it, does to the
/// RIB: the source counts as withdrawn in the families that are concerned, and
/// its routes there keep their path attributes or are cleared.
pub open spec fn source_withdrawn(
    before: Rib,
    after: Rib,
    mui: IngressId,
    specific: Option<AfiSafiType>,
    retain: bool,
    refusals: Refusals,
) -> bool {
    let u = concerned(specific, false);
    let m = concerned(specific, true);
    let was = (before.unicast_spec(), before.multicast_spec());
    let now = (after.unicast_spec(), after.multicast_spec());
    &&& now.0.withdrawn() == with_families(was.0.withdrawn(), mui, u.0, u.1)
    &&& now.1.withdrawn() == with_families(was.1.withdrawn(), mui, m.0, m.1)
    &&& now.0.places() == was.0.places()
    &&& now.1.places() == was.1.places()
    &&& if retain {
        now.0.routes() == was.0.routes() && now.1.routes() == was.1.routes()
    } else {
        source_cleared(
            was.0.routes(),
            now.0.routes(),
            mui,
            u.0,
            u.1,
            refusals.unicast@,
        ) && source_cleared(
            was.1.routes(),
            now.1.routes(),
            mui,
            m.0,
            m.1,
            refusals.multicast@,
        )
    }
}

/// What taking the withdrawal of a source back does to the RIB: the source no
/// longer counts as withdrawn anywhere.
pub open spec fn source_reactivated(before: Rib, after: Rib, mui: IngressId) -> bool {
    &&& forall|multicast: bool| #[trigger]
        after.table(multicast).routes() == before.table(multicast).routes()
    &&& forall|multicast: bool| #[trigger]
        after.table(multicast).places() == before.table(multicast).places()
    &&& forall|multicast: bool| #[trigger]
        after.table(multicast).withdrawn() == before.table(multicast).withdrawn().remove(
            (true, mui),
        ).remove((false, mui))
}

/// Clears the routes of a source in a table, in the given families.
fn clear_families(table: &mut RouteTable, mui: IngressId, families: (bool, bool)) -> (refusals: Vec<
    Refusal,
>)
    requires
        old(table).wf(),
    ensures
        final(table).wf(),
        final(table).room() == old(table).room(),
        final(table).withdrawn() == old(table).withdrawn(),
        final(table).places() == old(table).places(),
        source_cleared(
            old(table).routes(),
            final(table).routes(),
            mui,
            families.0,
            families.1,
            refusals@,
        ),
        refusals@.len() == 0,
{
    if families.0 || families.1 {
        compact_withdrawn_attributes_in_store(table, mui, families.0, families.1)
    } else {
        Vec::new()
    }
}

impl Rib {
    /// Clears the routes of a source, of all address families or of one. An
    /// address family whose routes are not kept has none.
    pub fn compact_withdrawn_attributes_for_ingress(
        &mut self,
        ingress_id: IngressId,
        specific_afisafi: Option<AfiSafiType>,
    ) -> (refusals: Refusals)
        requires
            old(self).wf(),
        ensures
            final(self).wf(),
            final(self).room() == old(self).room(),
            refusals.unicast@.len() == 0,
            refusals.multicast@.len() == 0,
            ({
                let u = concerned(specific_afisafi, false);
                let m = concerned(specific_afisafi, true);
                &&& final(self).unicast_spec().withdrawn() == old(self).unicast_spec().withdrawn()
                &&& final(self).multicast_spec().withdrawn() == old(self).multicast_spec().withdrawn()
                &&& final(self).unicast_spec().places() == old(self).unicast_spec().places()
                &&& final(self).multicast_spec().places() == old(self).multicast_spec().places()
                &&& source_cleared(
                    old(self).unicast_spec().routes(),
                    final(self).unicast_spec().routes(),
                    ingress_id,
                    u.0,
                    u.1,
                    refusals.unicast@,
                )
                &&& source_cleared(
                    old(self).multicast_spec().routes(),
                    final(self).multicast_spec().routes(),
                    ingress_id,
                    m.0,
                    m.1,
                    refusals.multicast@,
                )
            }),
    {
        let unicast = clear_families(
            &mut self.unicast,
            ingress_id,
            concerned_families(specific_afisafi, false),
        );
        let multicast = clear_families(
            &mut self.multicast,
            ingress_id,
            concerned_families(specific_afisafi, true),
        );
        Refusals { unicast, multicast }
    }

    /// Withdraws everything of a source, or one address family of it, because
    /// its session ended. Unless they are to be retained, the path attributes
    /// are dropped.
    pub fn withdraw_for_ingress(
        &mut self,
        ingress_id: IngressId,
        specific_afisafi: Option<AfiSafiType>,
        retain_withdrawn_attributes: bool,
    ) -> (refusals: Refusals)
        requires
            old(self).wf(),
            specific_afisafi matches Some(afisafi) ==> is_supported(afisafi),
        ensures
            final(self).wf(),
            final(self).room() == old(self).room(),
            refusals.unicast@.len() == 0,
            refusals.multicast@.len() == 0,
            source_withdrawn(
                *old(self),
                *final(self),
                ingress_id,
                specific_afisafi,
                retain_withdrawn_attributes,
                refusals,
            ),
    {
        let refusals = if retain_withdrawn_attributes {
            Refusals { unicast: Vec::new(), multicast: Vec::new() }
        } else {
            self.compact_withdrawn_attributes_for_ingress(ingress_id, specific_afisafi)
        };
        let u = concerned_families(specific_afisafi, false);
        let m = concerned_families(specific_afisafi, true);
        self.unicast.mark_source_withdrawn(ingress_id, u.0, u.1);
        self.multicast.mark_source_withdrawn(ingress_id, m.0, m.1);
        refusals
    }

    /// Takes the withdrawal of a source back: it is active again in all address
    /// families. Routes that were withdrawn one by one, or cleared, stay so.
    pub fn mark_ingress_active(&mut self, ingress_id: IngressId)
        requires
            old(self).wf(),
        ensures
            final(self).wf(),
            old(self).room() ==> final(self).room(),
            source_reactivated(*old(self), *final(self), ingress_id),
    {
        self.unicast.mark_source_active(ingress_id);
        self.multicast.mark_source_active(ingress_id);
    }
}

/// After everything of a source was withdrawn, no query that leaves withdrawn
/// routes out, and asks for no source, shows a route of it.
pub proof fn withdrawn_source_is_not_seen(
    before: RouteTable,
    after: RouteTable,
    mui: IngressId,
    prefix: Prefix,
)
    requires
        after.withdrawn() == with_families(before.withdrawn(), mui, true, true),
    ensures
        after.sight(None, false).at(prefix, mui) is None,
        after.sight(None, true).at(prefix, mui) matches Some(route) ==> route.status
            == RouteStatus::Withdrawn,
{
    assert(after.withdrawn().contains((prefix.addr_spec() is V4, mui)));
}

/// A source that is active again after it was withdrawn with its attributes
/// retained shows the routes that it showed before it was withdrawn.
pub proof fn reactivated_source_is_seen_again(
    before: RouteTable,
    after: RouteTable,
    mui: IngressId,
    prefix: Prefix,
    only: Option<IngressId>,
    include_withdrawn: bool,
)
    requires
        after.routes() == before.routes(),
        !before.withdrawn().contains((true, mui)),
        !before.withdrawn().contains((false, mui)),
        after.withdrawn() == with_families(before.withdrawn(), mui, true, true).remove(
            (true, mui),
        ).remove((false, mui)),
    ensures
        after.sight(only, include_withdrawn).at(prefix, mui) == before.sight(
            only,
            include_withdrawn,
        ).at(prefix, mui),
{
    assert(after.withdrawn().contains((prefix.addr_spec() is V4, mui))
        == before.withdrawn().contains((prefix.addr_spec() is V4, mui)));
}

//------------ Queries -------------------------------------------------------

/// A prefix and its records.
pub open spec fn entry(pr: PrefixRecord) -> (Prefix, Seq<RouteRecord>) {
    (pr.prefix, pr.meta@)
}

/// Entries as prefixes and their records.
pub open spec fn entries(prs: Seq<PrefixRecord>) -> Seq<(Prefix, Seq<RouteRecord>)> {
    prs.map_values(|pr: PrefixRecord| entry(pr))
}

/// The records that are not withdrawn, in order.
pub open spec fn live(records: Seq<RouteRecord>) -> Seq<RouteRecord>
    decreases records.len(),
{
    if records.len() == 0 {
        Seq::empty()
    } else if records.last().status == RouteStatus::Withdrawn {
        live(records.drop_last())
    } else {
        live(records.drop_last()).push(records.last())
    }
}

/// The entries with the records that are not withdrawn, in order. Entries of
/// which none is left are dropped.
pub open spec fn live_entries(all: Seq<(Prefix, Seq<RouteRecord>)>) -> Seq<
    (Prefix, Seq<RouteRecord>),
>
    decreases all.len(),
{
    if all.len() == 0 {
        Seq::empty()
    } else if live(all.last().1).len() == 0 {
        live_entries(all.drop_last())
    } else {
        live_entries(all.drop_last()).push((all.last().0, live(all.last().1)))
    }
}

/// Keeps the records that are not withdrawn.
fn keep_live(records: &Vec<RouteRecord>) -> (kept: Vec<RouteRecord>)
    ensures
        kept@ == live(records@),
{
    let mut kept: Vec<RouteRecord> = Vec::new();
    let mut i: usize = 0;
    assert(records@.take(0) =~= Seq::empty());
    while i < records.len()
        invariant
            i <= records@.len(),
            kept@ == live(records@.take(i as int)),
        decreases records@.len() - i,
    {
        assert(records@.take(i + 1).drop_last() =~= records@.take(i as int));
        if records[i].status != RouteStatus::Withdrawn {
            kept.push(records[i].clone());
        }
        i += 1;
    }
    assert(records@.take(i as int) =~= records@);
    kept
}

/// No withdrawn record is left, every other record is, and nothing else is
/// added.
pub proof fn live_records_are_live(records: Seq<RouteRecord>)
    ensures
        forall|r: RouteRecord| #[trigger]
            live(records).contains(r) <==> (records.contains(r) && r.status
                != RouteStatus::Withdrawn),
    decreases records.len(),
{
    if records.len() > 0 {
        let init = records.drop_last();
        let last = records.last();
        live_records_are_live(init);
        assert forall|r: RouteRecord| #[trigger]
            live(records).contains(r) <==> (records.contains(r) && r.status
                != RouteStatus::Withdrawn) by {
            assert(live(init).contains(r) <==> (init.contains(r) && r.status
                != RouteStatus::Withdrawn));
            if init.contains(r) {
                let i = choose|i: int| 0 <= i < init.len() && init[i] == r;
                assert(records[i] == r);
            }
            if records.contains(r) && r != last {
                let i = choose|i: int| 0 <= i < records.len() && records[i] == r;
                assert(init[i] == r);
            }
            assert(records[records.len() - 1] == last);
            if last.status != RouteStatus::Withdrawn {
                let l = live(records);
                assert(l[l.len() - 1] == last);
                if live(init).contains(r) {
                    let i = choose|i: int| 0 <= i < live(init).len() && live(init)[i] == r;
                    assert(l[i] == r);
                }
                if l.contains(r) && r != last {
                    let i = choose|i: int| 0 <= i < l.len() && l[i] == r;
                    assert(live(init)[i] == r);
                }
            }
        }
    }
}

/// What a query may ask for besides the prefix.
#[derive(Clone, Copy, Debug, PartialEq, Eq, Structural)]
pub struct MatchOptions {
    /// The longest stored prefix that covers the one asked for, and not only
    /// that prefix itself.
    pub longest: bool,
    pub include_withdrawn: bool,
    pub include_less_specifics: bool,
    pub include_more_specifics: bool,
    pub mui: Option<IngressId>,
}

/// Whether this is what a query finds in a table.
pub open spec fn found_in(table: RouteTable, prefix: Prefix, o: MatchOptions, found: TableMatch) -> bool {
    is_found(
        table.sight(o.mui, o.include_withdrawn),
        prefix,
        o.longest,
        o.include_less_specifics,
        o.include_more_specifics,
        found,
    )
}

/// Whether a query found nothing and was not asked for other prefixes.
pub open spec fn came_back_empty(found: TableMatch) -> bool {
    found.records@.len() == 0 && found.less_specifics is None && found.more_specifics is None
}

/// Whether this is what looking a prefix up finds: what is found among the
/// unicast routes or, where that comes back empty and they do not, among the
/// multicast routes.
pub open spec fn matched(rib: Rib, prefix: Prefix, o: MatchOptions, found: TableMatch) -> bool {
    exists|unicast: TableMatch| #[trigger]
        found_in(rib.unicast_spec(), prefix, o, unicast) && if came_back_empty(unicast) {
            exists|multicast: TableMatch| #[trigger]
                found_in(rib.multicast_spec(), prefix, o, multicast) && found == if came_back_empty(
                    multicast,
                ) {
                    unicast
                } else {
                    multicast
                }
        } else {
            found == unicast
        }
}

impl Rib {
    /// Looks a prefix up among the unicast routes. Where nothing is found, and
    /// no other prefixes were asked for, the multicast routes are tried.
    pub fn match_prefix(&self, prefix: Prefix, match_options: &MatchOptions) -> (found: TableMatch)
        requires
            self.wf(),
        ensures
            matched(*self, prefix, *match_options, found),
    {
        let unicast = self.unicast.match_prefix(
            prefix,
            match_options.longest,
            match_options.include_withdrawn,
            match_options.include_less_specifics,
            match_options.include_more_specifics,
            match_options.mui,
        );
        assert(found_in(self.unicast_spec(), prefix, *match_options, unicast));
        if unicast.records.len() == 0 && unicast.less_specifics.is_none()
            && unicast.more_specifics.is_none() {
            let multicast = self.multicast.match_prefix(
                prefix,
                match_options.longest,
                match_options.include_withdrawn,
                match_options.include_less_specifics,
                match_options.include_more_specifics,
                match_options.mui,
            );
            assert(found_in(self.multicast_spec(), prefix, *match_options, multicast));
            if !(multicast.records.len() == 0 && multicast.less_specifics.is_none()
                && multicast.more_specifics.is_none()) {
                return multicast;
            }
        }
        unicast
    }

    /// All unicast routes that are not withdrawn, by prefix. Prefixes of which
    /// every route is withdrawn are left out.
    pub fn iter_all_prefix_records(&self) -> (res: Vec<PrefixRecord>)
        requires
            self.wf(),
        ensures
            live_routes_listed(*self, res@),
    {
        let all = self.unicast.all_routes(true, true);
        let mut res: Vec<PrefixRecord> = Vec::new();
        let mut i: usize = 0;
        let ghost list = entries(all@);
        proof {
            assert(list.take(0) =~= Seq::empty());
            assert(entries(res@) =~= Seq::empty());
        }
        while i < all.len()
            invariant
                i <= all@.len(),
                list == entries(all@),
                entries(res@) == live_entries(list.take(i as int)),
            decreases all@.len() - i,
        {
            let meta = keep_live(&all[i].meta);
            proof {
                assert(list.take(i + 1).drop_last() =~= list.take(i as int));
                assert(list[i as int] == entry(all@[i as int]));
            }
            if meta.len() > 0 {
                let ghost before = res@;
                res.push(PrefixRecord { prefix: all[i].prefix, meta });
                assert(entries(res@) =~= entries(before).push(entry(res@.last())));
            }
            i += 1;
        }
        assert(list.take(i as int) =~= list);
        res
    }

    /// The active unicast routes of a source, the IPv4 prefixes first.
    pub fn match_ingress_id(&self, ingress_id: IngressId) -> (res: Vec<PrefixRecord>)
        requires
            self.wf(),
        ensures
            source_routes_listed(*self, ingress_id, res@),
    {
        let mut res = self.unicast.source_routes(ingress_id, true);
        let mut more = self.unicast.source_routes(ingress_id, false);
        proof {
            assert(source_listed(self.unicast_spec(), ingress_id, true, res@));
            assert(source_listed(self.unicast_spec(), ingress_id, false, more@));
        }
        let ghost v4 = res@;
        let ghost v6 = more@;
        res.append(&mut more);
        assert(res@ =~= v4 + v6);
        res
    }

    /// The prefixes of a family, but for the one without bits.
    pub fn stored_prefixes(&self, multicast: bool, v4: bool) -> (prefixes: Vec<Prefix>)
        requires
            self.wf(),
        ensures
            prefixes@.no_duplicates(),
            forall|p: Prefix| #[trigger]
                prefixes@.contains(p) <==> (is_stored(self.table(multicast).routes(), p)
                    && p.len_spec() > 0 && p.addr_spec() is V4 == v4),
    {
        if multicast {
            self.multicast.all_prefixes(v4, !v4)
        } else {
            self.unicast.all_prefixes(v4, !v4)
        }
    }

    /// The routes to a prefix that are not withdrawn.
    pub fn live_records(&self, multicast: bool, prefix: Prefix) -> (records: Vec<RouteRecord>)
        requires
            self.wf(),
        ensures
            exists|all: Seq<RouteRecord>|
                #[trigger] listed_for(self.table(multicast), prefix, all) && records@ == live(all),
    {
        let found = if multicast {
            self.multicast.match_prefix(prefix, false, true, false, false, None)
        } else {
            self.unicast.match_prefix(prefix, false, true, false, false, None)
        };
        proof {
            let s = self.table(multicast).sight(None, true);
            if prefix.len_spec() > 0 {
                if found.prefix is None && s.shows(prefix) {
                    let m = choose|m: u32| #[trigger] s.at(prefix, m) is Some;
                    assert(s.routes.contains_key((prefix, m)));
                    assert(is_stored(s.routes, prefix));
                    assert(is_match(s.routes, false, prefix, prefix));
                }
            } else if let Some(p) = found.prefix {
                assert(is_match(s.routes, false, prefix, p));
            }
            assert(listed_for(self.table(multicast), prefix, found.records@));
        }
        keep_live(&found.records)
    }
}

/// Whether these are all routes to a prefix, those of withdrawn sources as
/// withdrawn. Of the prefix without bits there are none to be had.
pub open spec fn listed_for(table: RouteTable, prefix: Prefix, records: Seq<RouteRecord>) -> bool {
    if prefix.len_spec() > 0 {
        table.sight(None, true).lists_routes(prefix, records)
    } else {
        records.len() == 0
    }
}

/// Whether these are the active routes of a source to the prefixes of a family;
/// there are none if the source is withdrawn.
pub open spec fn source_listed(
    table: RouteTable,
    mui: IngressId,
    v4: bool,
    prs: Seq<PrefixRecord>,
) -> bool {
    if table.withdrawn().contains((v4, mui)) {
        prs.len() == 0
    } else {
        routes_stored(table.sight(Some(mui), false), v4, !v4, prs)
    }
}

/// Whether these are the active unicast routes of a source: those to IPv4
/// prefixes and then those to IPv6 prefixes.
pub open spec fn source_routes_listed(
    rib: Rib,
    ingress_id: IngressId,
    prs: Seq<PrefixRecord>,
) -> bool {
    exists|v4: Seq<PrefixRecord>, v6: Seq<PrefixRecord>|
        #![trigger source_listed(rib.unicast_spec(), ingress_id, true, v4), source_listed(
            rib.unicast_spec(),
            ingress_id,
            false,
            v6,
        )]
        source_listed(rib.unicast_spec(), ingress_id, true, v4) && source_listed(
            rib.unicast_spec(),
            ingress_id,
            false,
            v6,
        ) && prs == v4 + v6
}

/// Whether these are all unicast routes that are not withdrawn, by prefix.
pub open spec fn live_routes_listed(rib: Rib, prs: Seq<PrefixRecord>) -> bool {
    exists|all: Seq<PrefixRecord>| #[trigger]
        routes_stored(rib.unicast_spec().sight(None, true), true, true, all) && entries(prs)
            == live_entries(entries(all))
}

//------------ SearchResult --------------------------------------------------

/// What a search found, with what is known of the sources and what was asked
/// for.
#[derive(Debug)]
pub struct SearchResult {
    pub query_result: TableMatch,
    pub ingress_info: HashMap<IngressId, IngressInfo>,
    pub query_filter: QueryFilter,
}

/// The selected routes of entries, in order. Entries of which none is left are
/// dropped.
pub open spec fn selected_entries(
    filter: QueryFilter,
    sources: Map<IngressId, IngressInfo>,
    all: Seq<(Prefix, Seq<RouteRecord>)>,
    verdicts: Seq<Seq<bool>>,
) -> Seq<(Prefix, Seq<RouteRecord>)>
    decreases all.len(),
{
    if all.len() == 0 {
        Seq::empty()
    } else {
        let rest = selected_entries(filter, sources, all.drop_last(), verdicts.drop_last());
        let kept = selection(filter, sources, all.last().1, verdicts.last());
        if kept.len() == 0 {
            rest
        } else {
            rest.push((all.last().0, kept))
        }
    }
}

/// Whether entries are what is left of others after selection.
pub open spec fn are_selected_from<F: Fn(&RotondaPaMap) -> bool>(
    function: Option<F>,
    filter: QueryFilter,
    sources: Map<IngressId, IngressInfo>,
    all: Seq<(Prefix, Seq<RouteRecord>)>,
    kept: Seq<(Prefix, Seq<RouteRecord>)>,
) -> bool {
    exists|verdicts: Seq<Seq<bool>>|
        {
            &&& verdicts.len() == all.len()
            &&& forall|i: int|
                0 <= i < all.len() ==> are_verdicts(
                    function,
                    filter,
                    sources,
                    all[i].1,
                    #[trigger] verdicts[i],
                )
            &&& kept == #[trigger] selected_entries(filter, sources, all, verdicts)
        }
}

/// Whether records are what is left of others after selection.
pub open spec fn is_selected_from<F: Fn(&RotondaPaMap) -> bool>(
    function: Option<F>,
    filter: QueryFilter,
    sources: Map<IngressId, IngressInfo>,
    all: Seq<RouteRecord>,
    kept: Seq<RouteRecord>,
) -> bool {
    exists|verdicts: Seq<bool>| #[trigger]
        are_verdicts(function, filter, sources, all, verdicts) && kept == selection(
            filter,
            sources,
            all,
            verdicts,
        )
}

/// Whether optional entries are what is left of others after selection.
pub open spec fn opt_selected_from<F: Fn(&RotondaPaMap) -> bool>(
    function: Option<F>,
    filter: QueryFilter,
    sources: Map<IngressId, IngressInfo>,
    all: Option<Vec<PrefixRecord>>,
    kept: Option<Vec<PrefixRecord>>,
) -> bool {
    match all {
        Some(a) => kept matches Some(k) && are_selected_from(
            function,
            filter,
            sources,
            entries(a@),
            entries(k@),
        ),
        None => kept is None,
    }
}

/// Whether the path attributes of all entries can be read.
pub open spec fn entries_readable(prs: Seq<PrefixRecord>) -> bool {
    forall|i: int| 0 <= i < prs.len() ==> all_readable((#[trigger] prs[i]).meta@)
}

/// Keeps the routes of entries that meet the criteria of a query, and the
/// entries of which some are left.
fn filter_entries<F: Fn(&RotondaPaMap) -> bool>(
    prs: Vec<PrefixRecord>,
    filter: &QueryFilter,
    roto_filter: &Option<F>,
    ingress_info: &HashMap<IngressId, IngressInfo>,
) -> (kept: Vec<PrefixRecord>)
    requires
        asks_for_attributes(*filter) ==> entries_readable(prs@),
        roto_filter matches Some(f) ==> forall|meta: &RotondaPaMap| call_requires(f, (meta,)),
    ensures
        are_selected_from(*roto_filter, *filter, ingress_info@, entries(prs@), entries(kept@)),
{
    let ghost all = entries(prs@);
    let ghost mut verdicts: Seq<Seq<bool>> = Seq::empty();
    let mut kept: Vec<PrefixRecord> = Vec::new();
    let mut i: usize = 0;
    proof {
        assert(all.take(0) =~= Seq::empty());
        assert(entries(kept@) =~= Seq::empty());
    }
    while i < prs.len()
        invariant
            i <= prs@.len(),
            all == entries(prs@),
            asks_for_attributes(*filter) ==> entries_readable(prs@),
            roto_filter matches Some(f) ==> forall|meta: &RotondaPaMap| call_requires(f, (meta,)),
            verdicts.len() == i,
            forall|j: int|
                0 <= j < i ==> are_verdicts(
                    *roto_filter,
                    *filter,
                    ingress_info@,
                    all[j].1,
                    #[trigger] verdicts[j],
                ),
            entries(kept@) == selected_entries(
                *filter,
                ingress_info@,
                all.take(i as int),
                verdicts,
            ),
        decreases prs@.len() - i,
    {
        let mut records: Vec<RouteRecord> = Vec::new();
        let mut j: usize = 0;
        while j < prs[i].meta.len()
            invariant
                i < prs@.len(),
                j <= prs@[i as int].meta@.len(),
                records@ == prs@[i as int].meta@.take(j as int),
            decreases prs@[i as int].meta@.len() - j,
        {
            records.push(prs[i].meta[j].clone());
            j += 1;
            assert(records@ =~= prs@[i as int].meta@.take(j as int));
        }
        assert(records@ =~= prs@[i as int].meta@);
        assert(all[i as int] == entry(prs@[i as int]));
        apply_filter(&mut records, filter, roto_filter, ingress_info);
        proof {
            let v = choose|v: Seq<bool>| #[trigger]
                are_verdicts(*roto_filter, *filter, ingress_info@, all[i as int].1, v)
                    && records@ == selection(*filter, ingress_info@, all[i as int].1, v);
            let before = verdicts;
            verdicts = verdicts.push(v);
            assert(all.take(i + 1).drop_last() =~= all.take(i as int));
            assert(verdicts.drop_last() =~= before);
            assert forall|j: int| 0 <= j < i + 1 implies are_verdicts(
                *roto_filter,
                *filter,
                ingress_info@,
                all[j].1,
                #[trigger] verdicts[j],
            ) by {
                if j < i {
                    assert(verdicts[j] == before[j]);
                }
            }
        }
        if records.len() > 0 {
            let ghost before = kept@;
            kept.push(PrefixRecord { prefix: prs[i].prefix, meta: records });
            assert(entries(kept@) =~= entries(before).push(entry(kept@.last())));
        }
        i += 1;
    }
    assert(all.take(i as int) =~= all);
    kept
}

/// Why a search is refused.
pub open spec fn search_error(afisafi: AfiSafiType, roto_function: Option<Seq<char>>, defined: bool) -> Option<
    Seq<char>,
> {
    if !is_supported(afisafi) {
        Some("address family "@ + afisafi.name() + " unsupported"@)
    } else {
        match roto_function {
            Some(name) => if defined {
                None
            } else {
                Some("no roto function '"@ + name + "' defined"@)
            },
            None => None,
        }
    }
}

/// The function that is applied: the one that was found under the name that the
/// query gives, if it gives one.
pub open spec fn function_of<F>(filter: QueryFilter, found: Option<F>) -> Option<F> {
    if filter.roto_function is Some {
        found
    } else {
        None
    }
}

/// Whether this is the answer to a search in a table: what is found, narrowed
/// by the criteria. Withdrawn routes are left out. Only the prefix itself
/// matches; whether more or less specific prefixes are listed is asked by the
/// query.
pub open spec fn is_answer<F: Fn(&RotondaPaMap) -> bool>(
    table: RouteTable,
    prefix: Prefix,
    filter: QueryFilter,
    function: Option<F>,
    sources: Map<IngressId, IngressInfo>,
    answer: TableMatch,
) -> bool {
    exists|found: TableMatch|
        {
            &&& #[trigger] is_found(
                table.sight(filter.ingress_id, false),
                prefix,
                false,
                filter.included@.contains(Include::LessSpecifics),
                filter.included@.contains(Include::MoreSpecifics),
                found,
            )
            &&& answer.prefix == found.prefix
            &&& is_selected_from(function, filter, sources, found.records@, answer.records@)
            &&& opt_selected_from(
                function,
                filter,
                sources,
                found.more_specifics,
                answer.more_specifics,
            )
            &&& opt_selected_from(
                function,
                filter,
                sources,
                found.less_specifics,
                answer.less_specifics,
            )
        }
}

/// Whether this answers a search in the RIB: what is found in the table of the
/// address family, with what is known of the sources and what was asked for.
pub open spec fn answers<F: Fn(&RotondaPaMap) -> bool>(
    found: SearchResult,
    rib: Rib,
    afisafi: AfiSafiType,
    prefix: Prefix,
    filter: QueryFilter,
    function: Option<F>,
    sources: Map<IngressId, IngressInfo>,
) -> bool {
    &&& found.query_filter == filter
    &&& found.ingress_info@ == sources
    &&& is_answer(
        rib.table(is_multicast(afisafi)),
        prefix,
        filter,
        function_of(filter, function),
        sources,
        found.query_result,
    )
}

/// Records that are seen of routes with readable attributes are readable.
pub(crate) proof fn seen_is_readable(s: Sight<Seq<u8>>, prefix: Prefix, records: Seq<RouteRecord>)
    requires
        routes_readable(s.routes),
        s.lists_routes(prefix, records),
    ensures
        all_readable(records),
{
    assert forall|i: int| 0 <= i < records.len() implies (#[trigger] records[i]).meta@.len()
        >= 2 by {
        let m = records[i].multi_uniq_id;
        assert(s.at(prefix, m) is Some);
        assert(s.routes.contains_key((prefix, m)));
    }
}

/// Entries that are seen of routes with readable attributes are readable.
proof fn seen_entries_are_readable(s: Sight<Seq<u8>>, prs: Seq<PrefixRecord>)
    requires
        routes_readable(s.routes),
        s.lists_prefixes(prs),
    ensures
        entries_readable(prs),
{
    assert forall|i: int| 0 <= i < prs.len() implies all_readable((#[trigger] prs[i]).meta@) by {
        seen_is_readable(s, prs[i].prefix, prs[i].meta@);
    }
}

impl Rib {
    /// Whether the criteria of a query can be held against all routes of an
    /// address family's table: it has none on path attributes, or the path
    /// attributes can be read.
    pub fn can_filter(&self, afisafi: AfiSafiType, filter: &QueryFilter) -> (yes: bool)
        requires
            self.wf(),
        ensures
            yes == (asks_for_attributes(*filter) ==> routes_readable(
                self.table(is_multicast(afisafi)).routes(),
            )),
    {
        let asks = filter.origin_asn.is_some() || filter.otc.is_some()
            || filter.community.is_some() || filter.large_community.is_some()
            || filter.rov_status.is_some();
        let multicast = matches!(
            afisafi,
            AfiSafiType::Ipv4Multicast | AfiSafiType::Ipv6Multicast
        );
        !asks || if multicast {
            self.multicast.is_readable()
        } else {
            self.unicast.is_readable()
        }
    }

    /// Says why a query is refused, given whether its function was found.
    pub fn check_filter_and_store(
        &self,
        afisafi: AfiSafiType,
        filter: &QueryFilter,
        roto_defined: bool,
    ) -> (res: Result<(), String>)
        ensures
            match search_error(afisafi, opt_text(filter.roto_function), roto_defined) {
                Some(text) => res matches Err(e) && e@ == text,
                None => res is Ok,
            },
    {
        match afisafi {
            AfiSafiType::Ipv4Unicast
            | AfiSafiType::Ipv6Unicast
            | AfiSafiType::Ipv4Multicast
            | AfiSafiType::Ipv6Multicast => {},
            u => {
                let mut text = String::new();
                text.append("address family ");
                u.push_name(&mut text);
                text.append(" unsupported");
                assert(text@ =~= "address family "@ + afisafi.name() + " unsupported"@);
                return Err(text);
            },
        }
        if let Some(name) = &filter.roto_function {
            if !roto_defined {
                let mut text = String::new();
                text.append("no roto function '");
                text.append(name.as_str());
                text.append("' defined");
                assert(text@ =~= "no roto function '"@ + name@ + "' defined"@);
                return Err(text);
            }
        }
        Ok(())
    }

    /// Searches the routes of an address family for a prefix.
    ///
    /// The function of the query was looked up by its name; where it was not
    /// found, the search is refused.
    pub fn search_routes<F: Fn(&RotondaPaMap) -> bool>(
        &self,
        afisafi: AfiSafiType,
        nlri: Prefix,
        filter: QueryFilter,
        roto_function: &Option<F>,
        ingress_register: &Register,
    ) -> (res: Result<SearchResult, String>)
        requires
            self.wf(),
            asks_for_attributes(filter) && search_error(
                afisafi,
                opt_text(filter.roto_function),
                roto_function is Some,
            ) is None ==> routes_readable(self.table(is_multicast(afisafi)).routes()),
            ingress_register.wf(),
            roto_function matches Some(f) ==> forall|meta: &RotondaPaMap|
                call_requires(f, (meta,)),
        ensures
            match search_error(afisafi, opt_text(filter.roto_function), roto_function is Some) {
                Some(text) => res matches Err(e) && e@ == text,
                None => res matches Ok(found) && answers(
                    found,
                    *self,
                    afisafi,
                    nlri,
                    filter,
                    *roto_function,
                    ingress_register@,
                ),
            },
    {
        if let Err(e) = self.check_filter_and_store(afisafi, &filter, roto_function.is_some()) {
            return Err(e);
        }
        let multicast = matches!(
            afisafi,
            AfiSafiType::Ipv4Multicast | AfiSafiType::Ipv6Multicast
        );
        let less = filter.includes(Include::LessSpecifics);
        let more = filter.includes(Include::MoreSpecifics);
        let found = if multicast {
            self.multicast.match_prefix(nlri, false, false, less, more, filter.ingress_id)
        } else {
            self.unicast.match_prefix(nlri, false, false, less, more, filter.ingress_id)
        };
        let ghost s = self.table(multicast).sight(filter.ingress_id, false);
        let ghost whole = found;
        let ingress_info = ingress_register.cloned_info();
        let TableMatch { prefix, records, more_specifics, less_specifics } = found;
        let mut records = records;
        proof {
            if asks_for_attributes(filter) {
                if let Some(p) = prefix {
                    seen_is_readable(s, p, records@);
                }
                if more_specifics is Some {
                    seen_entries_are_readable(s, (more_specifics->0)@);
                }
                if less_specifics is Some {
                    seen_entries_are_readable(s, (less_specifics->0)@);
                }
            }
        }
        let none: Option<F> = None;
        let function = if filter.roto_function.is_some() {
            roto_function
        } else {
            &none
        };
        apply_filter(&mut records, &filter, function, &ingress_info);
        let more_specifics = match more_specifics {
            Some(prs) => Some(filter_entries(prs, &filter, function, &ingress_info)),
            None => None,
        };
        let less_specifics = match less_specifics {
            Some(prs) => Some(filter_entries(prs, &filter, function, &ingress_info)),
            None => None,
        };
        let query_result = TableMatch { prefix, records, more_specifics, less_specifics };
        proof {
            assert(is_found(
                s,
                nlri,
                false,
                filter.included@.contains(Include::LessSpecifics),
                filter.included@.contains(Include::MoreSpecifics),
                whole,
            ));
        }
        Ok(SearchResult { query_result, ingress_info, query_filter: filter })
    }

    /// Searches the routes of an address family for a prefix, for output: what
    /// is found is to be written.
    pub fn search_and_output_routes<F: Fn(&RotondaPaMap) -> bool>(
        &self,
        afisafi: AfiSafiType,
        nlri: Prefix,
        filter: QueryFilter,
        roto_function: &Option<F>,
        ingress_register: &Register,
    ) -> (res: Result<SearchResult, String>)
        requires
            self.wf(),
            asks_for_attributes(filter) && search_error(
                afisafi,
                opt_text(filter.roto_function),
                roto_function is Some,
            ) is None ==> routes_readable(self.table(is_multicast(afisafi)).routes()),
            ingress_register.wf(),
            roto_function matches Some(f) ==> forall|meta: &RotondaPaMap|
                call_requires(f, (meta,)),
        ensures
            match search_error(afisafi, opt_text(filter.roto_function), roto_function is Some) {
                Some(text) => res matches Err(e) && e@ == "store error: "@ + text,
                None => res matches Ok(found) && answers(
                    found,
                    *self,
                    afisafi,
                    nlri,
                    filter,
                    *roto_function,
                    ingress_register@,
                ),
            },
    {
        match self.search_routes(afisafi, nlri, filter, roto_function, ingress_register) {
            Ok(found) => Ok(found),
            Err(e) => {
                let mut text = String::new();
                text.append("store error: ");
                text.append(e.as_str());
                assert(text@ =~= "store error: "@ + e@);
                Err(text)
            },
        }
    }
}

impl SearchResult {
    /// What was asked for.
    pub fn query_filter(&self) -> (filter: &QueryFilter)
        ensures
            *filter == self.query_filter,
    {
        &self.query_filter
    }

    /// What is known of a source.
    pub fn ingress_info(&self, ingress_id: IngressId) -> (info: Option<&IngressInfo>)
        ensures
            match info {
                Some(i) => self.ingress_info@.contains_key(ingress_id) && *i
                    == self.ingress_info@[ingress_id],
                None => !self.ingress_info@.contains_key(ingress_id),
            },
    {
        self.ingress_info.get(&ingress_id)
    }
}

//------------ What is read back ---------------------------------------------

/// A stored prefix with bits matches itself.
proof fn stored_prefix_matches_itself(routes: Routes<Seq<u8>>, prefix: Prefix)
    requires
        is_stored(routes, prefix),
        prefix.len_spec() > 0,
    ensures
        is_match(routes, false, prefix, prefix),
{
}

/// An announced route is found again: a query for its prefix returns it with
/// the path attributes, the time and the status that it was inserted with. All
/// other routes are as before.
pub proof fn inserted_route_is_found(
    before: RouteTable,
    after: RouteTable,
    val: RotondaRoute,
    ltime: u64,
    mui: IngressId,
    retain: bool,
    res: Result<UpsertReport, String>,
    less: bool,
    more: bool,
    found: TableMatch,
)
    requires
        inserted(before, after, val, RouteStatus::Active, ltime, mui, retain, res),
        !before.withdrawn().contains((val.prefix_spec().addr_spec() is V4, mui)),
        val.prefix_spec().len_spec() > 0,
        is_found(after.sight(None, false), val.prefix_spec(), false, less, more, found),
    ensures
        res is Ok,
        found.prefix == Some(val.prefix_spec()),
        exists|i: int|
            {
                &&& 0 <= i < found.records@.len()
                &&& (#[trigger] found.records@[i]).multi_uniq_id == mui
                &&& found.records@[i].ltime == ltime
                &&& found.records@[i].status == RouteStatus::Active
                &&& found.records@[i].meta@ == val.pamap_spec()@
            },
        forall|k: (Prefix, u32)|
            k != (val.prefix_spec(), mui) ==> #[trigger] after.routes().contains_key(k)
                == before.routes().contains_key(k) && after.routes()[k] == before.routes()[k],
{
    let s = after.sight(None, false);
    let prefix = val.prefix_spec();
    assert(after.routes().contains_key((prefix, mui)));
    assert(s.at(prefix, mui) is Some);
    assert(s.shows(prefix));
    stored_prefix_matches_itself(after.routes(), prefix);
    assert(is_match(s.routes, false, prefix, prefix));
    let i = choose|i: int|
        0 <= i < found.records@.len() && (#[trigger] found.records@[i]).multi_uniq_id == mui;
    assert(found.records@[i].multi_uniq_id == mui);
}

/// A route that was withdrawn, with its path attributes retained, is not found
/// any more by queries that leave withdrawn routes out; those that do not still
/// return it, as withdrawn and with its path attributes.
pub proof fn withdrawn_route_is_not_found(
    before: RouteTable,
    after: RouteTable,
    val: RotondaRoute,
    ltime: u64,
    mui: IngressId,
    res: Result<UpsertReport, String>,
    only: Option<u32>,
)
    requires
        inserted(before, after, val, RouteStatus::Withdrawn, ltime, mui, true, res),
    ensures
        after.sight(only, false).at(val.prefix_spec(), mui) is None,
        before.routes().contains_key((val.prefix_spec(), mui)) ==> after.sight(None, true).at(
            val.prefix_spec(),
            mui,
        ) == Some(
            Filed {
                ltime: 0,
                status: RouteStatus::Withdrawn,
                value: before.routes()[(val.prefix_spec(), mui)].value,
            },
        ),
{
}

} // verus!
