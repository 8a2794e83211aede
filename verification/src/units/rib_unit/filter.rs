//! Selection of routes by the criteria of a query.
use crate::ingress::{IngressId, IngressInfo};
use crate::payload::{attribute_octets, RotondaPaMap};
use crate::units::rib_unit::attributes::{
    communities, communities_in, large_communities, large_communities_in, opt_list, origin,
    origin_in, otc, otc_in,
};
use crate::units::rib_unit::http_ng::QueryFilter;
use crate::units::rib_unit::records::RouteRecord;
use crate::units::rib_unit::rpki::{rov_status_of, RovStatus};
use std::collections::HashMap;
use vstd::prelude::*;
use vstd::std_specs::hash::*;

verus! {

/// What the path attributes of a route say, as far as a query may ask for it.
#[derive(Debug)]
pub struct AttributeValues {
    pub rov_status: RovStatus,
    pub otc: Option<u32>,
    pub communities: Option<Vec<u32>>,
    pub large_communities: Option<Vec<(u32, u32, u32)>>,
    pub origin: Option<u32>,
}

/// Whether an optional list holds an item.
pub open spec fn list_holds<T>(list: Option<Seq<T>>, item: T) -> bool {
    list matches Some(l) && l.contains(item)
}

/// Whether the path attributes of a route meet the criteria of a query: each
/// that is set asks for a value, and a route without the attribute does not
/// meet it.
pub open spec fn attributes_meet(
    filter: QueryFilter,
    rov_status: RovStatus,
    otc: Option<u32>,
    communities: Option<Seq<u32>>,
    large_communities: Option<Seq<(u32, u32, u32)>>,
    origin: Option<u32>,
) -> bool {
    &&& filter.rov_status matches Some(s) ==> rov_status == s
    &&& filter.otc matches Some(asn) ==> otc == Some(asn.0)
    &&& filter.large_community matches Some(c) ==> list_holds(large_communities, c)
    &&& filter.community matches Some(c) ==> list_holds(communities, c)
    &&& filter.origin_asn matches Some(asn) ==> origin == Some(asn.0)
}

/// Whether a route meets the criteria of a query on its path attributes.
pub open spec fn meets_attributes(filter: QueryFilter, octets: Seq<u8>) -> bool {
    let four_octet = octets[1] == 1;
    let attributes = attribute_octets(octets);
    attributes_meet(
        filter,
        rov_status_of(octets[0]),
        otc_in(four_octet, attributes),
        communities_in(four_octet, attributes),
        large_communities_in(four_octet, attributes),
        origin_in(four_octet, attributes),
    )
}

/// Whether a query has a criterion on path attributes.
pub open spec fn asks_for_attributes(filter: QueryFilter) -> bool {
    filter.origin_asn is Some || filter.otc is Some || filter.community is Some
        || filter.large_community is Some || filter.rov_status is Some
}

/// Whether a route meets the criteria of a query on its source. A source of
/// which nothing is known meets those on what is known of it.
pub open spec fn meets_source(
    filter: QueryFilter,
    sources: Map<IngressId, IngressInfo>,
    mui: IngressId,
) -> bool {
    &&& filter.ingress_id matches Some(id) ==> mui == id
    &&& filter.rib_type matches Some(t) ==> (sources.contains_key(mui) ==> sources[mui].peer_rib_type
        == Some(t))
    &&& filter.peer_asn matches Some(a) ==> (sources.contains_key(mui) ==> sources[mui].remote_asn
        == Some(a))
    &&& filter.peer_addr matches Some(a) ==> (sources.contains_key(mui) ==> sources[mui].remote_addr
        == Some(a))
}

/// Whether two optional numbers are the same.
fn same_number(a: Option<u32>, b: u32) -> (same: bool)
    ensures
        same == (a == Some(b)),
{
    match a {
        Some(n) => n == b,
        None => false,
    }
}

/// Says whether values of path attributes meet the criteria of a query.
pub fn attributes_match(filter: &QueryFilter, values: &AttributeValues) -> (meets: bool)
    ensures
        meets == attributes_meet(
            *filter,
            values.rov_status,
            values.otc,
            opt_list(values.communities),
            opt_list(values.large_communities),
            values.origin,
        ),
{
    if let Some(rov_status) = filter.rov_status {
        if values.rov_status != rov_status {
            return false;
        }
    }
    if let Some(asn) = filter.otc {
        if !same_number(values.otc, asn.0) {
            return false;
        }
    }
    if let Some(wanted) = filter.large_community {
        let mut found = false;
        if let Some(list) = &values.large_communities {
            let mut i: usize = 0;
            while i < list.len() && !found
                invariant
                    i <= list@.len(),
                    found ==> list@.contains(wanted),
                    !found ==> forall|j: int| 0 <= j < i ==> list@[j] != wanted,
                decreases list@.len() - i, (if found { 0int } else { 1int }),
            {
                let c = list[i];
                if c.0 == wanted.0 && c.1 == wanted.1 && c.2 == wanted.2 {
                    assert(list@[i as int] == wanted);
                    found = true;
                } else {
                    i += 1;
                }
            }
        }
        if !found {
            return false;
        }
    }
    if let Some(wanted) = filter.community {
        let mut found = false;
        if let Some(list) = &values.communities {
            let mut i: usize = 0;
            while i < list.len() && !found
                invariant
                    i <= list@.len(),
                    found ==> list@.contains(wanted),
                    !found ==> forall|j: int| 0 <= j < i ==> list@[j] != wanted,
                decreases list@.len() - i, (if found { 0int } else { 1int }),
            {
                if list[i] == wanted {
                    assert(list@[i as int] == wanted);
                    found = true;
                } else {
                    i += 1;
                }
            }
        }
        if !found {
            return false;
        }
    }
    if let Some(asn) = filter.origin_asn {
        if !same_number(values.origin, asn.0) {
            return false;
        }
    }
    true
}

/// Says whether a route meets the criteria of a query on its path attributes.
pub fn meets_attribute_criteria(filter: &QueryFilter, meta: &RotondaPaMap) -> (meets: bool)
    requires
        meta@.len() >= 2,
    ensures
        meets == meets_attributes(*filter, meta@),
{
    let pa = meta.path_attributes();
    let four_octet = pa.pdu_parse_info().four_octet_enabled();
    // Only what is asked for is looked up.
    let values = AttributeValues {
        rov_status: meta.rpki_info().rov_status(),
        otc: if filter.otc.is_some() {
            otc(four_octet, pa.as_slice())
        } else {
            None
        },
        communities: if filter.community.is_some() {
            communities(four_octet, pa.as_slice())
        } else {
            None
        },
        large_communities: if filter.large_community.is_some() {
            large_communities(four_octet, pa.as_slice())
        } else {
            None
        },
        origin: if filter.origin_asn.is_some() {
            origin(four_octet, pa.as_slice())
        } else {
            None
        },
    };
    attributes_match(filter, &values)
}

/// Says whether a route meets the criteria of a query on its source.
pub fn meets_source_criteria(
    filter: &QueryFilter,
    ingress_info: &HashMap<IngressId, IngressInfo>,
    mui: IngressId,
) -> (meets: bool)
    ensures
        meets == meets_source(*filter, ingress_info@, mui),
{
    if let Some(id) = filter.ingress_id {
        if mui != id {
            return false;
        }
    }
    let info = match ingress_info.get(&mui) {
        Some(info) => info,
        None => {
            return true;
        },
    };
    if let Some(rib_type) = filter.rib_type {
        match info.peer_rib_type {
            Some(t) => {
                if t != rib_type {
                    return false;
                }
            },
            None => {
                return false;
            },
        }
    }
    if let Some(peer_asn) = filter.peer_asn {
        match info.remote_asn {
            Some(asn) => {
                if asn != peer_asn {
                    return false;
                }
            },
            None => {
                return false;
            },
        }
    }
    if let Some(peer_addr) = filter.peer_addr {
        match info.remote_addr {
            Some(addr) => {
                if addr != peer_addr {
                    return false;
                }
            },
            None => {
                return false;
            },
        }
    }
    true
}

/// Whether a route is selected, given what the function of the query, if it has
/// one, says of the route.
pub open spec fn selected(
    filter: QueryFilter,
    sources: Map<IngressId, IngressInfo>,
    record: RouteRecord,
    verdict: bool,
) -> bool {
    meets_source(filter, sources, record.multi_uniq_id) && verdict && (asks_for_attributes(filter)
        ==> meets_attributes(filter, record.meta@))
}

/// The selected ones of some routes, in order.
pub open spec fn selection(
    filter: QueryFilter,
    sources: Map<IngressId, IngressInfo>,
    records: Seq<RouteRecord>,
    verdicts: Seq<bool>,
) -> Seq<RouteRecord>
    decreases records.len(),
{
    if records.len() == 0 {
        Seq::empty()
    } else {
        let rest = selection(filter, sources, records.drop_last(), verdicts.drop_last());
        if selected(filter, sources, records.last(), verdicts.last()) {
            rest.push(records.last())
        } else {
            rest
        }
    }
}

/// Whether the verdicts are what a function says of the routes whose source
/// meets the criteria. Without a function every route is accepted.
pub open spec fn are_verdicts<F: Fn(&RotondaPaMap) -> bool>(
    function: Option<F>,
    filter: QueryFilter,
    sources: Map<IngressId, IngressInfo>,
    records: Seq<RouteRecord>,
    verdicts: Seq<bool>,
) -> bool {
    &&& verdicts.len() == records.len()
    &&& forall|i: int|
        #![trigger verdicts[i]]
        0 <= i < records.len() ==> match function {
            Some(f) => meets_source(filter, sources, records[i].multi_uniq_id) ==> call_ensures(
                f,
                (&records[i].meta,),
                verdicts[i],
            ),
            None => verdicts[i],
        }
}

/// Whether every route has attributes that can be read.
pub open spec fn all_readable(records: Seq<RouteRecord>) -> bool {
    forall|i: int| 0 <= i < records.len() ==> (#[trigger] records[i]).meta@.len() >= 2
}

/// Keeps the routes that meet all criteria of a query. The function of the
/// query is asked only of routes whose source meets the criteria.
pub fn apply_filter<F: Fn(&RotondaPaMap) -> bool>(
    records: &mut Vec<RouteRecord>,
    filter: &QueryFilter,
    roto_filter: &Option<F>,
    ingress_info: &HashMap<IngressId, IngressInfo>,
)
    requires
        asks_for_attributes(*filter) ==> all_readable(old(records)@),
        roto_filter matches Some(f) ==> forall|meta: &RotondaPaMap| call_requires(f, (meta,)),
    ensures
        exists|verdicts: Seq<bool>|
            #[trigger] are_verdicts(
                *roto_filter,
                *filter,
                ingress_info@,
                old(records)@,
                verdicts,
            ) && final(records)@ == selection(*filter, ingress_info@, old(records)@, verdicts),
{
    let ghost all = records@;
    let ghost mut verdicts: Seq<bool> = Seq::empty();
    let mut kept: Vec<RouteRecord> = Vec::new();
    let by_attributes = filter.origin_asn.is_some() || filter.otc.is_some()
        || filter.community.is_some() || filter.large_community.is_some()
        || filter.rov_status.is_some();
    let mut i: usize = 0;
    assert(all.take(0) =~= Seq::empty());
    while i < records.len()
        invariant
            i <= records@.len(),
            all == records@,
            all == old(records)@,
            asks_for_attributes(*filter) ==> all_readable(all),
            by_attributes == asks_for_attributes(*filter),
            roto_filter matches Some(f) ==> forall|meta: &RotondaPaMap|
                call_requires(f, (meta,)),
            are_verdicts(
                *roto_filter,
                *filter,
                ingress_info@,
                all.take(i as int),
                verdicts,
            ),
            kept@ == selection(*filter, ingress_info@, all.take(i as int), verdicts),
        decreases records@.len() - i,
    {
        let record = &records[i];
        let mut verdict = true;
        let source_ok = meets_source_criteria(filter, ingress_info, record.multi_uniq_id);
        if source_ok {
            if let Some(f) = roto_filter {
                verdict = f(&record.meta);
            }
        }
        let ghost done = all.take(i as int);
        let ghost more = all.take(i + 1);
        let ghost before = verdicts;
        proof {
            verdicts = verdicts.push(verdict);
            assert(more.drop_last() =~= done);
            assert(verdicts.drop_last() =~= before);
            assert(more.last() == *record);
            assert forall|j: int|
                #![trigger verdicts[j]]
                0 <= j < more.len() implies match *roto_filter {
                Some(f) => meets_source(*filter, ingress_info@, more[j].multi_uniq_id)
                    ==> call_ensures(f, (&more[j].meta,), verdicts[j]),
                None => verdicts[j],
            } by {
                if j < done.len() {
                    assert(done[j] == more[j]);
                    assert(before[j] == verdicts[j]);
                }
            }
        }
        if source_ok && verdict && (!by_attributes || meets_attribute_criteria(
            filter,
            &record.meta,
        )) {
            kept.push(record.clone());
        }
        i += 1;
    }
    assert(all.take(i as int) =~= all);
    *records = kept;
}

//------------ What a selection keeps ----------------------------------------

/// Whether a query sets no criterion.
pub open spec fn has_no_criteria(filter: QueryFilter) -> bool {
    filter.ingress_id is None && filter.rib_type is None && filter.peer_asn is None
        && filter.peer_addr is None && !asks_for_attributes(filter)
}

/// A query without criteria and without function keeps every route.
pub proof fn open_query_keeps_everything(
    filter: QueryFilter,
    sources: Map<IngressId, IngressInfo>,
    records: Seq<RouteRecord>,
    verdicts: Seq<bool>,
)
    requires
        has_no_criteria(filter),
        verdicts.len() == records.len(),
        forall|i: int| 0 <= i < verdicts.len() ==> #[trigger] verdicts[i],
    ensures
        selection(filter, sources, records, verdicts) == records,
    decreases records.len(),
{
    if records.len() > 0 {
        assert(verdicts.last() == verdicts[verdicts.len() - 1]);
        assert forall|i: int| 0 <= i < verdicts.drop_last().len() implies #[trigger]
            verdicts.drop_last()[i] by {
            assert(verdicts[i]);
        }
        open_query_keeps_everything(filter, sources, records.drop_last(), verdicts.drop_last());
        assert(records.drop_last().push(records.last()) =~= records);
    } else {
        assert(records =~= Seq::empty());
    }
}

/// A selection holds the selected routes and no others.
pub proof fn selection_holds_the_selected(
    filter: QueryFilter,
    sources: Map<IngressId, IngressInfo>,
    records: Seq<RouteRecord>,
    verdicts: Seq<bool>,
)
    requires
        verdicts.len() == records.len(),
    ensures
        forall|r: RouteRecord| #[trigger]
            selection(filter, sources, records, verdicts).contains(r) <==> exists|i: int|
                0 <= i < records.len() && #[trigger] records[i] == r && selected(
                    filter,
                    sources,
                    r,
                    verdicts[i],
                ),
    decreases records.len(),
{
    if records.len() > 0 {
        let init = records.drop_last();
        let last = records.last();
        let kept = selection(filter, sources, init, verdicts.drop_last());
        let all = selection(filter, sources, records, verdicts);
        selection_holds_the_selected(filter, sources, init, verdicts.drop_last());
        assert forall|r: RouteRecord| #[trigger] all.contains(r) <==> exists|i: int|
            0 <= i < records.len() && #[trigger] records[i] == r && selected(
                filter,
                sources,
                r,
                verdicts[i],
            ) by {
            let n = records.len() - 1;
            if kept.contains(r) {
                let i = choose|i: int|
                    0 <= i < init.len() && #[trigger] init[i] == r && selected(
                        filter,
                        sources,
                        r,
                        verdicts.drop_last()[i],
                    );
                assert(records[i] == r && verdicts[i] == verdicts.drop_last()[i]);
                let k = choose|k: int| 0 <= k < kept.len() && kept[k] == r;
                assert(all[k] == r);
            }
            if r == last && selected(filter, sources, last, verdicts.last()) {
                assert(all[all.len() - 1] == r);
                assert(records[n] == r && verdicts[n] == verdicts.last());
            }
            if exists|i: int|
                0 <= i < records.len() && #[trigger] records[i] == r && selected(
                    filter,
                    sources,
                    r,
                    verdicts[i],
                ) {
                let i = choose|i: int|
                    0 <= i < records.len() && #[trigger] records[i] == r && selected(
                        filter,
                        sources,
                        r,
                        verdicts[i],
                    );
                if i < n {
                    assert(init[i] == r && verdicts.drop_last()[i] == verdicts[i]);
                    assert(kept.contains(r));
                }
            }
            if all.contains(r) && !kept.contains(r) {
                let k = choose|k: int| 0 <= k < all.len() && all[k] == r;
                if k < kept.len() {
                    assert(kept[k] == r);
                }
                assert(r == last);
            }
        }
    }
}

/// No source has two of the records.
pub open spec fn one_per_source(records: Seq<RouteRecord>) -> bool {
    forall|i: int, j: int|
        0 <= i < j < records.len() ==> (#[trigger] records[i]).multi_uniq_id != (
        #[trigger] records[j]).multi_uniq_id
}

/// A selection keeps at most one route of each source, if there was one.
pub proof fn selection_keeps_one_per_source(
    filter: QueryFilter,
    sources: Map<IngressId, IngressInfo>,
    records: Seq<RouteRecord>,
    verdicts: Seq<bool>,
)
    requires
        one_per_source(records),
        verdicts.len() == records.len(),
    ensures
        one_per_source(selection(filter, sources, records, verdicts)),
    decreases records.len(),
{
    if records.len() > 0 {
        let init = records.drop_last();
        let kept = selection(filter, sources, init, verdicts.drop_last());
        selection_keeps_one_per_source(filter, sources, init, verdicts.drop_last());
        selection_holds_the_selected(filter, sources, init, verdicts.drop_last());
        assert forall|k: int| 0 <= k < kept.len() implies (#[trigger] kept[k]).multi_uniq_id
            != records.last().multi_uniq_id by {
            assert(kept.contains(kept[k]));
            let i = choose|i: int|
                0 <= i < init.len() && #[trigger] init[i] == kept[k] && selected(
                    filter,
                    sources,
                    kept[k],
                    verdicts.drop_last()[i],
                );
            assert(records[i] == kept[k]);
        }
    }
}

} // verus!
