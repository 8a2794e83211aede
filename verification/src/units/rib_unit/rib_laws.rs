//! What holds of the routing information base over several operations.
use crate::ingress::{IngressId, IngressInfo};
use crate::net::{AfiSafiType, Prefix};
use crate::payload::{attribute_octets, route_of, RotondaPaMap, RotondaRoute, RouteStatus};
use crate::units::rib_unit::attributes::{communities_in, large_communities_in, origin_in, otc_in};
use crate::units::rib_unit::filter::{
    are_verdicts, selected, selection, selection_holds_the_selected,
};
use crate::units::rib_unit::http_ng::{Include, QueryFilter};
use crate::units::rib_unit::records::{PrefixRecord, RouteRecord};
use crate::units::rib_unit::rib::{
    answers, are_selected_from, came_back_empty, entries, found_in, function_of, is_selected_from,
    matched, opt_selected_from, route_inserted, search_error, selected_entries, source_listed,
    source_reactivated, source_routes_listed, source_withdrawn, MatchOptions, Refusals, Rib,
    SearchResult,
};
use crate::units::rib_unit::rpki::rov_status_of;
use crate::units::rib_unit::store::{is_match, is_stored, Filed, Sight, UpsertReport};
use crate::units::rib_unit::table::{is_found, prefixes_of, RouteTable, TableMatch};
use vstd::prelude::*;

verus! {

//------------ Withdrawal of a source ----------------------------------------

/// Whether the routes to a prefix in one of the two tables are of an address
/// family.
pub open spec fn is_of_family(prefix: Prefix, multicast: bool, afisafi: AfiSafiType) -> bool {
    match afisafi {
        AfiSafiType::Ipv4Unicast => prefix.addr_spec() is V4 && !multicast,
        AfiSafiType::Ipv6Unicast => prefix.addr_spec() is V6 && !multicast,
        AfiSafiType::Ipv4Multicast => prefix.addr_spec() is V4 && multicast,
        AfiSafiType::Ipv6Multicast => prefix.addr_spec() is V6 && multicast,
        _ => false,
    }
}

/// The withdrawal of one address family of a source leaves every route of the
/// other families, and every route of other sources, as it was: any query sees
/// of it what it saw before.
pub proof fn withdrawal_of_a_family_spares_the_others(
    before: Rib,
    after: Rib,
    mui: IngressId,
    family: AfiSafiType,
    retain: bool,
    refusals: Refusals,
    multicast: bool,
    prefix: Prefix,
    source: IngressId,
    only: Option<IngressId>,
    include_withdrawn: bool,
)
    requires
        source_withdrawn(before, after, mui, Some(family), retain, refusals),
        !is_of_family(prefix, multicast, family) || source != mui,
    ensures
        after.table(multicast).sight(only, include_withdrawn).at(prefix, source) == before.table(
            multicast,
        ).sight(only, include_withdrawn).at(prefix, source),
{
    let was = before.table(multicast);
    let now = after.table(multicast);
    assert(now.withdrawn().contains((prefix.addr_spec() is V4, source))
        == was.withdrawn().contains((prefix.addr_spec() is V4, source)));
    assert(now.routes().contains_key((prefix, source)) == was.routes().contains_key(
        (prefix, source),
    )) by {
        assert(now.routes().dom().contains((prefix, source)) == was.routes().dom().contains(
            (prefix, source),
        ));
    }
}

/// After the withdrawal of one address family of a source no query that leaves
/// withdrawn routes out, and asks for no source, shows a route of the source to
/// a prefix of the family; one that does not leave them out shows the same
/// routes as before, all as withdrawn, and with their path attributes if these
/// are retained.
pub proof fn withdrawn_family_is_not_seen(
    before: Rib,
    after: Rib,
    mui: IngressId,
    family: AfiSafiType,
    retain: bool,
    refusals: Refusals,
    multicast: bool,
    prefix: Prefix,
)
    requires
        source_withdrawn(before, after, mui, Some(family), retain, refusals),
        is_of_family(prefix, multicast, family),
    ensures
        after.table(multicast).sight(None, false).at(prefix, mui) is None,
        ({
            let was = before.table(multicast).sight(None, true).at(prefix, mui);
            let now = after.table(multicast).sight(None, true).at(prefix, mui);
            &&& now is Some == was is Some
            &&& now matches Some(route) ==> route.status == RouteStatus::Withdrawn
            &&& now matches Some(route) ==> retain ==> route.value == (was->0).value
        }),
{
    let was = before.table(multicast);
    let now = after.table(multicast);
    assert(now.withdrawn().contains((prefix.addr_spec() is V4, mui)));
    assert(now.routes().dom().contains((prefix, mui)) == was.routes().dom().contains(
        (prefix, mui),
    ));
}

/// After the withdrawal of everything of a source no query that leaves
/// withdrawn routes out, and asks for no source, shows a route of it in either
/// table; one that does not leave them out shows the same routes as before, all
/// as withdrawn, and with their path attributes if these are retained. Any
/// query sees of other sources what it saw before.
pub proof fn withdrawal_of_a_source_takes_all_of_it(
    before: Rib,
    after: Rib,
    mui: IngressId,
    retain: bool,
    refusals: Refusals,
    multicast: bool,
    prefix: Prefix,
    source: IngressId,
    only: Option<IngressId>,
    include_withdrawn: bool,
)
    requires
        source_withdrawn(before, after, mui, None, retain, refusals),
    ensures
        after.table(multicast).sight(None, false).at(prefix, mui) is None,
        ({
            let was = before.table(multicast).sight(None, true).at(prefix, mui);
            let now = after.table(multicast).sight(None, true).at(prefix, mui);
            &&& now is Some == was is Some
            &&& now matches Some(route) ==> route.status == RouteStatus::Withdrawn
            &&& now matches Some(route) ==> retain ==> route.value == (was->0).value
        }),
        source != mui ==> after.table(multicast).sight(only, include_withdrawn).at(prefix, source)
            == before.table(multicast).sight(only, include_withdrawn).at(prefix, source),
{
    let was = before.table(multicast);
    let now = after.table(multicast);
    assert(now.withdrawn().contains((prefix.addr_spec() is V4, mui)));
    assert(now.routes().dom().contains((prefix, mui)) == was.routes().dom().contains(
        (prefix, mui),
    ));
    assert(now.routes().dom().contains((prefix, source)) == was.routes().dom().contains(
        (prefix, source),
    ));
}

/// Without retaining them, the withdrawal of a source leaves nothing of the path
/// attributes of its routes that are concerned, but for those to prefixes
/// without bits, if the store refuses none.
pub proof fn withdrawal_frees_the_attributes(
    before: Rib,
    after: Rib,
    mui: IngressId,
    specific: Option<AfiSafiType>,
    refusals: Refusals,
    multicast: bool,
    prefix: Prefix,
)
    requires
        source_withdrawn(before, after, mui, specific, false, refusals),
        refusals.unicast@.len() == 0,
        refusals.multicast@.len() == 0,
        specific matches Some(family) ==> is_of_family(prefix, multicast, family),
        prefix.len_spec() > 0,
        before.table(multicast).routes().contains_key((prefix, mui)),
    ensures
        after.table(multicast).routes().contains_key((prefix, mui)),
        after.table(multicast).routes()[(prefix, mui)].value.len() == 2,
        after.table(multicast).routes()[(prefix, mui)].status == RouteStatus::Withdrawn,
{
    let was = before.table(multicast);
    let now = after.table(multicast);
    assert(now.routes().dom().contains((prefix, mui)) == was.routes().dom().contains(
        (prefix, mui),
    ));
}

/// A source that is active again after it was withdrawn, in whole or in part,
/// with its path attributes retained, is seen as before, if it was not withdrawn
/// already then: any query sees of every route what it saw before.
pub proof fn reactivation_undoes_a_withdrawal(
    before: Rib,
    between: Rib,
    after: Rib,
    mui: IngressId,
    specific: Option<AfiSafiType>,
    refusals: Refusals,
    multicast: bool,
    prefix: Prefix,
    source: IngressId,
    only: Option<IngressId>,
    include_withdrawn: bool,
)
    requires
        source_withdrawn(before, between, mui, specific, true, refusals),
        source_reactivated(between, after, mui),
        !before.table(multicast).withdrawn().contains((true, mui)),
        !before.table(multicast).withdrawn().contains((false, mui)),
    ensures
        after.table(multicast).sight(only, include_withdrawn).at(prefix, source) == before.table(
            multicast,
        ).sight(only, include_withdrawn).at(prefix, source),
{
    let was = before.table(multicast);
    let now = after.table(multicast);
    assert(now.routes() == between.table(multicast).routes());
    assert(now.withdrawn().contains((prefix.addr_spec() is V4, source))
        == was.withdrawn().contains((prefix.addr_spec() is V4, source)));
}

/// When a source is active again, all its active routes are seen, in both
/// tables, whatever withdrew the source before; and any query sees of other
/// sources what it saw before.
pub proof fn reactivated_source_is_seen(
    before: Rib,
    after: Rib,
    mui: IngressId,
    multicast: bool,
    prefix: Prefix,
    source: IngressId,
    only: Option<IngressId>,
    include_withdrawn: bool,
)
    requires
        source_reactivated(before, after, mui),
    ensures
        before.table(multicast).routes().contains_key((prefix, mui)) && before.table(
            multicast,
        ).routes()[(prefix, mui)].status == RouteStatus::Active ==> after.table(multicast).sight(
            None,
            false,
        ).at(prefix, mui) == Some(before.table(multicast).routes()[(prefix, mui)]),
        source != mui ==> after.table(multicast).sight(only, include_withdrawn).at(prefix, source)
            == before.table(multicast).sight(only, include_withdrawn).at(prefix, source),
{
    assert(after.table(multicast).routes() == before.table(multicast).routes());
    assert(after.table(multicast).withdrawn().contains((prefix.addr_spec() is V4, source))
        == (before.table(multicast).withdrawn().contains((prefix.addr_spec() is V4, source))
        && source != mui));
    assert(!after.table(multicast).withdrawn().contains((prefix.addr_spec() is V4, mui)));
}

//------------ Insertion of a route ------------------------------------------

/// A route, as the address family, the prefix and the stored octets that it is
/// made of.
pub open spec fn made_of(
    val: RotondaRoute,
    multicast: bool,
    prefix: Prefix,
    octets: Seq<u8>,
) -> bool {
    match val {
        RotondaRoute::Ipv4Unicast(p, m) => !multicast && p == prefix && m@ == octets,
        RotondaRoute::Ipv6Unicast(p, m) => !multicast && p == prefix && m@ == octets,
        RotondaRoute::Ipv4Multicast(p, m) => multicast && p == prefix && m@ == octets,
        RotondaRoute::Ipv6Multicast(p, m) => multicast && p == prefix && m@ == octets,
    }
}

/// An announced route is filed in the table of its kind, under its prefix and
/// source, with the time, the status and the octets that it came with; no other
/// route of either table changes, and no source counts as withdrawn that did
/// not, nor the other way round.
pub proof fn announced_route_is_filed(
    before: Rib,
    after: Rib,
    val: RotondaRoute,
    status: RouteStatus,
    ltime: u64,
    mui: IngressId,
    retain: bool,
    res: Result<UpsertReport, String>,
    multicast: bool,
    prefix: Prefix,
    octets: Seq<u8>,
    other: (Prefix, u32),
)
    requires
        route_inserted(before, after, val, status, ltime, mui, retain, res),
        status != RouteStatus::Withdrawn,
        made_of(val, multicast, prefix, octets),
    ensures
        res is Ok,
        after.table(multicast).routes().contains_key((prefix, mui)),
        after.table(multicast).routes()[(prefix, mui)].ltime == ltime,
        after.table(multicast).routes()[(prefix, mui)].status == status,
        after.table(multicast).routes()[(prefix, mui)].value == octets,
        other != (prefix, mui) ==> after.table(multicast).routes().contains_key(other)
            == before.table(multicast).routes().contains_key(other) && after.table(
            multicast,
        ).routes()[other] == before.table(multicast).routes()[other],
        after.table(!multicast) == before.table(!multicast),
        after.table(multicast).withdrawn() == before.table(multicast).withdrawn(),
        (res->Ok_0).prefix_new <==> forall|m: u32|
            !before.table(multicast).routes().contains_key((prefix, m)),
{
}

/// The withdrawal of a route takes nothing but that route: no other route of
/// either table changes. The route itself, if there is one, is then seen as
/// withdrawn or not at all, if its path attributes are retained or if its
/// prefix has one to eight bits; and no route appears that was not there.
pub proof fn withdrawn_route_is_gone(
    before: Rib,
    after: Rib,
    val: RotondaRoute,
    ltime: u64,
    mui: IngressId,
    retain: bool,
    res: Result<UpsertReport, String>,
    multicast: bool,
    prefix: Prefix,
    octets: Seq<u8>,
    other: (Prefix, u32),
    only: Option<IngressId>,
    include_withdrawn: bool,
)
    requires
        route_inserted(before, after, val, RouteStatus::Withdrawn, ltime, mui, retain, res),
        made_of(val, multicast, prefix, octets),
    ensures
        other != (prefix, mui) ==> after.table(multicast).routes().contains_key(other)
            == before.table(multicast).routes().contains_key(other) && after.table(
            multicast,
        ).routes()[other] == before.table(multicast).routes()[other],
        after.table(!multicast) == before.table(!multicast),
        after.table(multicast).withdrawn() == before.table(multicast).withdrawn(),
        retain || 0 < prefix.len_spec() <= 8 ==> {
            let now = after.table(multicast).sight(only, include_withdrawn).at(prefix, mui);
            now is None || (include_withdrawn && (now->0).status == RouteStatus::Withdrawn)
        },
        retain ==> after.table(multicast).routes().contains_key((prefix, mui)) == before.table(
            multicast,
        ).routes().contains_key((prefix, mui)),
        retain && before.table(multicast).routes().contains_key((prefix, mui)) ==> after.table(
            multicast,
        ).routes()[(prefix, mui)].value == before.table(multicast).routes()[(prefix, mui)].value,
        after.table(multicast).sight(only, false).at(prefix, mui) is Some ==> before.table(
            multicast,
        ).sight(only, false).at(prefix, mui) == after.table(multicast).sight(only, false).at(
            prefix,
            mui,
        ),
{
}

//------------ Queries -------------------------------------------------------

/// Whether every criterion that a query sets holds of a route: of its source,
/// as far as something is known of it, and of its path attributes.
pub open spec fn meets_every_criterion(
    filter: QueryFilter,
    sources: Map<IngressId, IngressInfo>,
    r: RouteRecord,
) -> bool {
    let source = sources[r.multi_uniq_id];
    let known = sources.contains_key(r.multi_uniq_id);
    let wide = r.meta@[1] == 1;
    let attrs = attribute_octets(r.meta@);
    &&& filter.ingress_id is Some ==> filter.ingress_id == Some(r.multi_uniq_id)
    &&& known && filter.rib_type is Some ==> source.peer_rib_type == filter.rib_type
    &&& known && filter.peer_asn is Some ==> source.remote_asn == filter.peer_asn
    &&& known && filter.peer_addr is Some ==> source.remote_addr == filter.peer_addr
    &&& filter.origin_asn matches Some(asn) ==> origin_in(wide, attrs) == Some(asn.0)
    &&& filter.otc matches Some(asn) ==> otc_in(wide, attrs) == Some(asn.0)
    &&& filter.community matches Some(c) ==> communities_in(wide, attrs) is Some
        && communities_in(wide, attrs)->0.contains(c)
    &&& filter.large_community matches Some(c) ==> large_communities_in(wide, attrs) is Some
        && large_communities_in(wide, attrs)->0.contains(c)
    &&& filter.rov_status matches Some(status) ==> rov_status_of(r.meta@[0]) == status
}

/// Whether a record shows a route as it is filed.
pub open spec fn shows_route(r: RouteRecord, table: RouteTable, prefix: Prefix) -> bool {
    let k = (prefix, r.multi_uniq_id);
    &&& table.routes().contains_key(k)
    &&& table.routes()[k].status == RouteStatus::Active
    &&& r.status == RouteStatus::Active
    &&& r.ltime == table.routes()[k].ltime
    &&& r.meta@ == table.routes()[k].value
}

/// A record that is selected meets the criteria, and one that meets them is
/// selected unless a function rejects it.
proof fn selected_means_criteria(
    filter: QueryFilter,
    sources: Map<IngressId, IngressInfo>,
    r: RouteRecord,
    verdict: bool,
)
    ensures
        selected(filter, sources, r, verdict) == (meets_every_criterion(filter, sources, r)
            && verdict),
{
}

pub(crate) proof fn selection_meets_criteria<F: Fn(&RotondaPaMap) -> bool>(
    function: Option<F>,
    filter: QueryFilter,
    sources: Map<IngressId, IngressInfo>,
    all: Seq<RouteRecord>,
    kept: Seq<RouteRecord>,
)
    requires
        is_selected_from(function, filter, sources, all, kept),
    ensures
        forall|i: int|
            0 <= i < kept.len() ==> meets_every_criterion(filter, sources, #[trigger] kept[i])
                && all.contains(kept[i]),
        function is None ==> forall|j: int|
            0 <= j < all.len() && meets_every_criterion(filter, sources, #[trigger] all[j])
                ==> kept.contains(all[j]),
        function matches Some(f) ==> forall|i: int|
            0 <= i < kept.len() ==> call_ensures(f, (&(#[trigger] kept[i]).meta,), true),
{
    let verdicts = choose|v: Seq<bool>| #[trigger]
        are_verdicts(function, filter, sources, all, v) && kept == selection(
            filter,
            sources,
            all,
            v,
        );
    selection_holds_the_selected(filter, sources, all, verdicts);
    assert forall|i: int| 0 <= i < kept.len() implies meets_every_criterion(
        filter,
        sources,
        #[trigger] kept[i],
    ) && all.contains(kept[i]) && (function matches Some(f) ==> call_ensures(
        f,
        (&kept[i].meta,),
        true,
    )) by {
        assert(selection(filter, sources, all, verdicts).contains(kept[i]));
        let j = choose|j: int|
            0 <= j < all.len() && #[trigger] all[j] == kept[i] && selected(
                filter,
                sources,
                kept[i],
                verdicts[j],
            );
        selected_means_criteria(filter, sources, kept[i], verdicts[j]);
        assert(verdicts[j]);
    }
    if function is None {
        assert forall|j: int|
            0 <= j < all.len() && meets_every_criterion(
                filter,
                sources,
                #[trigger] all[j],
            ) implies kept.contains(all[j]) by {
            assert(verdicts[j]);
            selected_means_criteria(filter, sources, all[j], verdicts[j]);
        }
    }
}

/// What a query answers with: each route of the answer is an active one that is
/// filed, under the prefix asked for; it meets every criterion that the query
/// sets, whatever else the query sets; and the function of the query, if there
/// is one, accepts it.
pub proof fn answer_meets_the_criteria<F: Fn(&RotondaPaMap) -> bool>(
    found: SearchResult,
    rib: Rib,
    afisafi: AfiSafiType,
    prefix: Prefix,
    filter: QueryFilter,
    function: Option<F>,
    sources: Map<IngressId, IngressInfo>,
    multicast: bool,
    i: int,
)
    requires
        answers(found, rib, afisafi, prefix, filter, function, sources),
        multicast == (afisafi == AfiSafiType::Ipv4Multicast || afisafi
            == AfiSafiType::Ipv6Multicast),
        0 <= i < found.query_result.records@.len(),
    ensures
        ({
            let r = found.query_result.records@[i];
            &&& meets_every_criterion(filter, sources, r)
            &&& shows_route(r, rib.table(multicast), prefix)
            &&& filter.roto_function is Some ==> (function matches Some(f) ==> call_ensures(
                f,
                (&r.meta,),
                true,
            ))
            &&& found.query_result.prefix == Some(prefix)
        }),
{
    let table = rib.table(multicast);
    let answer = found.query_result;
    let raw = choose|raw: TableMatch|
        {
            &&& #[trigger] is_found(
                table.sight(filter.ingress_id, false),
                prefix,
                false,
                filter.included@.contains(Include::LessSpecifics),
                filter.included@.contains(Include::MoreSpecifics),
                raw,
            )
            &&& answer.prefix == raw.prefix
            &&& is_selected_from(
                function_of(filter, function),
                filter,
                sources,
                raw.records@,
                answer.records@,
            )
        };
    selection_meets_criteria(
        function_of(filter, function),
        filter,
        sources,
        raw.records@,
        answer.records@,
    );
    let r = answer.records@[i];
    assert(raw.records@.contains(r));
    let j = choose|j: int| 0 <= j < raw.records@.len() && raw.records@[j] == r;
    assert(raw.records@[j] == r);
    assert(raw.prefix is Some);
}

/// What a query without function answers with is complete: every route to the
/// prefix that is seen and meets every criterion is in the answer.
pub proof fn answer_is_complete<F: Fn(&RotondaPaMap) -> bool>(
    found: SearchResult,
    rib: Rib,
    afisafi: AfiSafiType,
    prefix: Prefix,
    filter: QueryFilter,
    function: Option<F>,
    sources: Map<IngressId, IngressInfo>,
    multicast: bool,
    r: RouteRecord,
)
    requires
        answers(found, rib, afisafi, prefix, filter, function, sources),
        filter.roto_function is None || function is None,
        multicast == (afisafi == AfiSafiType::Ipv4Multicast || afisafi
            == AfiSafiType::Ipv6Multicast),
        prefix.len_spec() > 0,
        shows_route(r, rib.table(multicast), prefix),
        filter.ingress_id is None ==> !rib.table(multicast).withdrawn().contains(
            (prefix.addr_spec() is V4, r.multi_uniq_id),
        ),
        meets_every_criterion(filter, sources, r),
    ensures
        exists|i: int|
            {
                &&& 0 <= i < found.query_result.records@.len()
                &&& (#[trigger] found.query_result.records@[i]).multi_uniq_id == r.multi_uniq_id
                &&& found.query_result.records@[i].ltime == r.ltime
                &&& found.query_result.records@[i].status == r.status
                &&& found.query_result.records@[i].meta@ == r.meta@
            },
{
    let table = rib.table(multicast);
    let answer = found.query_result;
    let s = table.sight(filter.ingress_id, false);
    let raw = choose|raw: TableMatch|
        {
            &&& #[trigger] is_found(
                s,
                prefix,
                false,
                filter.included@.contains(Include::LessSpecifics),
                filter.included@.contains(Include::MoreSpecifics),
                raw,
            )
            &&& answer.prefix == raw.prefix
            &&& is_selected_from(
                function_of(filter, function),
                filter,
                sources,
                raw.records@,
                answer.records@,
            )
        };
    selection_meets_criteria(
        function_of(filter, function),
        filter,
        sources,
        raw.records@,
        answer.records@,
    );
    let m = r.multi_uniq_id;
    assert(s.at(prefix, m) is Some);
    assert(s.shows(prefix));
    assert(is_stored(s.routes, prefix)) by {
        assert(s.routes.contains_key((prefix, m)));
    }
    assert(is_match(s.routes, false, prefix, prefix));
    assert(raw.prefix == Some(prefix));
    let j = choose|j: int|
        0 <= j < raw.records@.len() && (#[trigger] raw.records@[j]).multi_uniq_id == m;
    let q = raw.records@[j];
    assert(q.meta@ == r.meta@ && q.ltime == r.ltime && q.status == r.status);
    assert(meets_every_criterion(filter, sources, q));
    assert(answer.records@.contains(q));
}

/// Whether a query asks for all that another asks for, and maybe for more.
pub open spec fn asks_for_more(narrow: QueryFilter, wide: QueryFilter) -> bool {
    &&& wide.ingress_id is Some ==> narrow.ingress_id == wide.ingress_id
    &&& wide.rib_type is Some ==> narrow.rib_type == wide.rib_type
    &&& wide.peer_asn is Some ==> narrow.peer_asn == wide.peer_asn
    &&& wide.peer_addr is Some ==> narrow.peer_addr == wide.peer_addr
    &&& wide.origin_asn is Some ==> narrow.origin_asn == wide.origin_asn
    &&& wide.otc is Some ==> narrow.otc == wide.otc
    &&& wide.community is Some ==> narrow.community == wide.community
    &&& wide.large_community is Some ==> narrow.large_community == wide.large_community
    &&& wide.rov_status is Some ==> narrow.rov_status == wide.rov_status
}

/// One more criterion, or a function, never adds a route: each route in the
/// answer to the narrower query is in the answer to the wider one, of a source
/// that is not withdrawn as a whole. (Of one that is, routes are seen only by
/// those who ask for it.)
pub proof fn narrower_query_finds_no_more<F: Fn(&RotondaPaMap) -> bool>(
    narrow: (QueryFilter, SearchResult),
    wide: (QueryFilter, SearchResult),
    rib: Rib,
    afisafi: AfiSafiType,
    prefix: Prefix,
    function: Option<F>,
    sources: Map<IngressId, IngressInfo>,
    multicast: bool,
    i: int,
)
    requires
        answers(narrow.1, rib, afisafi, prefix, narrow.0, function, sources),
        answers(wide.1, rib, afisafi, prefix, wide.0, function, sources),
        asks_for_more(narrow.0, wide.0),
        wide.0.roto_function is None,
        multicast == (afisafi == AfiSafiType::Ipv4Multicast || afisafi
            == AfiSafiType::Ipv6Multicast),
        prefix.len_spec() > 0,
        0 <= i < narrow.1.query_result.records@.len(),
        wide.0.ingress_id is None ==> !rib.table(multicast).withdrawn().contains(
            (
                prefix.addr_spec() is V4,
                narrow.1.query_result.records@[i].multi_uniq_id,
            ),
        ),
    ensures
        exists|j: int|
            {
                let r = narrow.1.query_result.records@[i];
                &&& 0 <= j < wide.1.query_result.records@.len()
                &&& (#[trigger] wide.1.query_result.records@[j]).multi_uniq_id == r.multi_uniq_id
                &&& wide.1.query_result.records@[j].ltime == r.ltime
                &&& wide.1.query_result.records@[j].status == r.status
                &&& wide.1.query_result.records@[j].meta@ == r.meta@
            },
{
    let r = narrow.1.query_result.records@[i];
    answer_meets_the_criteria(
        narrow.1,
        rib,
        afisafi,
        prefix,
        narrow.0,
        function,
        sources,
        multicast,
        i,
    );
    answer_is_complete(
        wide.1,
        rib,
        afisafi,
        prefix,
        wide.0,
        function,
        sources,
        multicast,
        r,
    );
}

/// The entries of an answer for more specific or less specific prefixes: what
/// was found, narrowed entry by entry.
proof fn entries_meet_criteria<F: Fn(&RotondaPaMap) -> bool>(
    function: Option<F>,
    filter: QueryFilter,
    sources: Map<IngressId, IngressInfo>,
    all: Seq<(Prefix, Seq<RouteRecord>)>,
    kept: Seq<(Prefix, Seq<RouteRecord>)>,
    verdicts: Seq<Seq<bool>>,
)
    requires
        verdicts.len() == all.len(),
        forall|i: int|
            0 <= i < all.len() ==> are_verdicts(
                function,
                filter,
                sources,
                all[i].1,
                #[trigger] verdicts[i],
            ),
        kept == selected_entries(filter, sources, all, verdicts),
    ensures
        forall|i: int|
            0 <= i < kept.len() ==> (#[trigger] kept[i]).1.len() > 0 && exists|j: int|
                0 <= j < all.len() && (#[trigger] all[j]).0 == kept[i].0 && is_selected_from(
                    function,
                    filter,
                    sources,
                    all[j].1,
                    kept[i].1,
                ),
        forall|j: int, k: int|
            function is None && 0 <= j < all.len() && 0 <= k < all[j].1.len()
                && meets_every_criterion(filter, sources, #[trigger] all[j].1[k]) ==> exists|
                i: int,
            |
                0 <= i < kept.len() && (#[trigger] kept[i]).0 == all[j].0 && kept[i].1.contains(
                    all[j].1[k],
                ),
    decreases all.len(),
{
    if all.len() > 0 {
        let last = all.len() - 1;
        let init = all.drop_last();
        let before = selected_entries(filter, sources, init, verdicts.drop_last());
        assert forall|i: int| 0 <= i < init.len() implies are_verdicts(
            function,
            filter,
            sources,
            init[i].1,
            #[trigger] verdicts.drop_last()[i],
        ) by {
            assert(verdicts[i] == verdicts.drop_last()[i]);
            assert(init[i] == all[i]);
        }
        entries_meet_criteria(function, filter, sources, init, before, verdicts.drop_last());
        let own = selection(filter, sources, all.last().1, verdicts.last());
        assert(are_verdicts(function, filter, sources, all[last].1, verdicts[last]));
        assert(is_selected_from(function, filter, sources, all[last].1, own));
        selection_meets_criteria(function, filter, sources, all[last].1, own);
        assert forall|i: int| 0 <= i < kept.len() implies (#[trigger] kept[i]).1.len() > 0
            && exists|j: int|
            0 <= j < all.len() && (#[trigger] all[j]).0 == kept[i].0 && is_selected_from(
                function,
                filter,
                sources,
                all[j].1,
                kept[i].1,
            ) by {
            if i < before.len() {
                assert(kept[i] == before[i]);
                let j = choose|j: int|
                    0 <= j < init.len() && (#[trigger] init[j]).0 == before[i].0
                        && is_selected_from(function, filter, sources, init[j].1, before[i].1);
                assert(all[j] == init[j]);
            } else {
                assert(kept[i] == (all[last].0, own));
            }
        }
        assert forall|j: int, k: int|
            function is None && 0 <= j < all.len() && 0 <= k < all[j].1.len()
                && meets_every_criterion(filter, sources, #[trigger] all[j].1[k]) implies exists|
            i: int,
        |
            0 <= i < kept.len() && (#[trigger] kept[i]).0 == all[j].0 && kept[i].1.contains(
                all[j].1[k],
            ) by {
            if j < last {
                assert(init[j] == all[j]);
                assert(meets_every_criterion(filter, sources, init[j].1[k]));
                let i = choose|i: int|
                    0 <= i < before.len() && (#[trigger] before[i]).0 == init[j].0
                        && before[i].1.contains(init[j].1[k]);
                assert(kept[i] == before[i]);
            } else {
                assert(own.contains(all[j].1[k]));
                assert(own.len() > 0);
                assert(kept[kept.len() - 1] == (all[last].0, own));
            }
        }
    }
}

/// What is listed of entries that are seen, after selection.
proof fn listed_meet_criteria<F: Fn(&RotondaPaMap) -> bool>(
    table: RouteTable,
    function: Option<F>,
    filter: QueryFilter,
    sources: Map<IngressId, IngressInfo>,
    all: Seq<PrefixRecord>,
    prs: Seq<PrefixRecord>,
    i: int,
)
    requires
        table.sight(filter.ingress_id, false).lists_prefixes(all),
        are_selected_from(function, filter, sources, entries(all), entries(prs)),
        0 <= i < prs.len(),
    ensures
        prefixes_of(all).contains(prs[i].prefix),
        prs[i].meta@.len() > 0,
        forall|k: int|
            0 <= k < prs[i].meta@.len() ==> meets_every_criterion(
                filter,
                sources,
                #[trigger] prs[i].meta@[k],
            ) && shows_route(prs[i].meta@[k], table, prs[i].prefix),
{
    let s = table.sight(filter.ingress_id, false);
    let verdicts = choose|v: Seq<Seq<bool>>|
        {
            &&& v.len() == entries(all).len()
            &&& forall|i: int|
                0 <= i < entries(all).len() ==> are_verdicts(
                    function,
                    filter,
                    sources,
                    entries(all)[i].1,
                    #[trigger] v[i],
                )
            &&& entries(prs) == #[trigger] selected_entries(filter, sources, entries(all), v)
        };
    entries_meet_criteria(function, filter, sources, entries(all), entries(prs), verdicts);
    let kept = entries(prs)[i];
    assert(kept == (prs[i].prefix, prs[i].meta@));
    let j = choose|j: int|
        0 <= j < entries(all).len() && (#[trigger] entries(all)[j]).0 == kept.0
            && is_selected_from(function, filter, sources, entries(all)[j].1, kept.1);
    assert(entries(all)[j] == (all[j].prefix, all[j].meta@));
    selection_meets_criteria(function, filter, sources, all[j].meta@, prs[i].meta@);
    assert(prefixes_of(all)[j] == all[j].prefix);
    assert(s.lists_routes(all[j].prefix, all[j].meta@));
    assert forall|k: int| 0 <= k < prs[i].meta@.len() implies shows_route(
        #[trigger] prs[i].meta@[k],
        table,
        prs[i].prefix,
    ) by {
        let r = prs[i].meta@[k];
        assert(all[j].meta@.contains(r));
        let q = choose|q: int| 0 <= q < all[j].meta@.len() && all[j].meta@[q] == r;
        assert(all[j].meta@[q] == r);
    }
}

/// What is listed of entries that are seen, after selection, is complete.
proof fn listed_are_complete<F: Fn(&RotondaPaMap) -> bool>(
    table: RouteTable,
    function: Option<F>,
    filter: QueryFilter,
    sources: Map<IngressId, IngressInfo>,
    all: Seq<PrefixRecord>,
    prs: Seq<PrefixRecord>,
    p: Prefix,
    r: RouteRecord,
)
    requires
        table.sight(filter.ingress_id, false).lists_prefixes(all),
        are_selected_from(function, filter, sources, entries(all), entries(prs)),
        function is None,
        prefixes_of(all).contains(p),
        shows_route(r, table, p),
        filter.ingress_id is None ==> !table.withdrawn().contains(
            (p.addr_spec() is V4, r.multi_uniq_id),
        ),
        meets_every_criterion(filter, sources, r),
    ensures
        is_listed(prs, p, r),
{
    let s = table.sight(filter.ingress_id, false);
    let m = r.multi_uniq_id;
    assert(s.at(p, m) is Some);
    let j = choose|j: int| 0 <= j < prefixes_of(all).len() && prefixes_of(all)[j] == p;
    assert(prefixes_of(all)[j] == all[j].prefix);
    assert(s.lists_routes(all[j].prefix, all[j].meta@));
    let q = choose|q: int|
        0 <= q < all[j].meta@.len() && (#[trigger] all[j].meta@[q]).multi_uniq_id == m;
    let verdicts = choose|v: Seq<Seq<bool>>|
        {
            &&& v.len() == entries(all).len()
            &&& forall|i: int|
                0 <= i < entries(all).len() ==> are_verdicts(
                    function,
                    filter,
                    sources,
                    entries(all)[i].1,
                    #[trigger] v[i],
                )
            &&& entries(prs) == #[trigger] selected_entries(filter, sources, entries(all), v)
        };
    entries_meet_criteria(function, filter, sources, entries(all), entries(prs), verdicts);
    assert(entries(all)[j] == (all[j].prefix, all[j].meta@));
    assert(all[j].meta@[q].meta@ == r.meta@);
    assert(meets_every_criterion(filter, sources, entries(all)[j].1[q]));
    let i = choose|i: int|
        0 <= i < entries(prs).len() && (#[trigger] entries(prs)[i]).0 == entries(all)[j].0
            && entries(prs)[i].1.contains(entries(all)[j].1[q]);
    assert(entries(prs)[i] == (prs[i].prefix, prs[i].meta@));
    let k = choose|k: int| 0 <= k < prs[i].meta@.len() && prs[i].meta@[k] == all[j].meta@[q];
    assert(prs[i].meta@[k].multi_uniq_id == m);
}

/// Whether entries list a route under a prefix.
pub open spec fn is_listed(prs: Seq<PrefixRecord>, p: Prefix, r: RouteRecord) -> bool {
    exists|i: int, k: int|
        {
            &&& 0 <= i < prs.len()
            &&& prs[i].prefix == p
            &&& 0 <= k < prs[i].meta@.len()
            &&& (#[trigger] prs[i].meta@[k]).multi_uniq_id == r.multi_uniq_id
            &&& prs[i].meta@[k].ltime == r.ltime
            &&& prs[i].meta@[k].status == r.status
            &&& prs[i].meta@[k].meta@ == r.meta@
        }
}

/// The more specific prefixes that an answer lists, if and only if they were
/// asked for: each is covered by the one asked for and is not it itself; its
/// entry holds at least one route; and each of these is an active one that is
/// filed under it and meets every criterion that the query sets. Without a
/// function, every route that is seen, is of such a prefix and meets every
/// criterion is listed.
pub proof fn more_specifics_are_those_below<F: Fn(&RotondaPaMap) -> bool>(
    found: SearchResult,
    rib: Rib,
    afisafi: AfiSafiType,
    prefix: Prefix,
    filter: QueryFilter,
    function: Option<F>,
    sources: Map<IngressId, IngressInfo>,
    multicast: bool,
    i: int,
    p: Prefix,
    r: RouteRecord,
)
    requires
        answers(found, rib, afisafi, prefix, filter, function, sources),
        multicast == (afisafi == AfiSafiType::Ipv4Multicast || afisafi
            == AfiSafiType::Ipv6Multicast),
    ensures
        found.query_result.more_specifics is Some <==> filter.included@.contains(
            Include::MoreSpecifics,
        ),
        found.query_result.more_specifics matches Some(prs) ==> 0 <= i < prs@.len() ==> {
            &&& prs@[i].prefix != prefix
            &&& prefix.covers(prs@[i].prefix)
            &&& prs@[i].meta@.len() > 0
            &&& forall|k: int|
                0 <= k < prs@[i].meta@.len() ==> meets_every_criterion(
                    filter,
                    sources,
                    #[trigger] prs@[i].meta@[k],
                ) && shows_route(prs@[i].meta@[k], rib.table(multicast), prs@[i].prefix)
        },
        found.query_result.more_specifics matches Some(prs) ==> {
            &&& filter.roto_function is None || function is None
            &&& p != prefix
            &&& prefix.covers(p)
            &&& shows_route(r, rib.table(multicast), p)
            &&& filter.ingress_id is None ==> !rib.table(multicast).withdrawn().contains(
                (p.addr_spec() is V4, r.multi_uniq_id),
            )
            &&& meets_every_criterion(filter, sources, r)
        } ==> is_listed(prs@, p, r),
{
    let table = rib.table(multicast);
    let answer = found.query_result;
    let s = table.sight(filter.ingress_id, false);
    let f = function_of(filter, function);
    let raw = choose|raw: TableMatch|
        {
            &&& #[trigger] is_found(
                s,
                prefix,
                false,
                filter.included@.contains(Include::LessSpecifics),
                filter.included@.contains(Include::MoreSpecifics),
                raw,
            )
            &&& opt_selected_from(f, filter, sources, raw.more_specifics, answer.more_specifics)
            &&& opt_selected_from(f, filter, sources, raw.less_specifics, answer.less_specifics)
        };
    if answer.more_specifics is Some {
        let prs = (answer.more_specifics->0)@;
        let all = (raw.more_specifics->0)@;
        if 0 <= i < prs.len() {
            listed_meet_criteria(table, f, filter, sources, all, prs, i);
        }
        if f is None && p != prefix && prefix.covers(p) && shows_route(r, table, p) && (
        filter.ingress_id is None ==> !table.withdrawn().contains(
            (p.addr_spec() is V4, r.multi_uniq_id),
        )) && meets_every_criterion(filter, sources, r) {
            assert(s.at(p, r.multi_uniq_id) is Some);
            assert(s.shows(p));
            listed_are_complete(table, f, filter, sources, all, prs, p, r);
        }
    }
}

/// The less specific prefixes that an answer lists, if and only if they were
/// asked for: each covers the one asked for, is not it itself and has bits; its
/// entry holds at least one route; and each of these is an active one that is
/// filed under it and meets every criterion that the query sets. Without a
/// function, every route that is seen, is of such a prefix and meets every
/// criterion is listed.
pub proof fn less_specifics_are_those_above<F: Fn(&RotondaPaMap) -> bool>(
    found: SearchResult,
    rib: Rib,
    afisafi: AfiSafiType,
    prefix: Prefix,
    filter: QueryFilter,
    function: Option<F>,
    sources: Map<IngressId, IngressInfo>,
    multicast: bool,
    i: int,
    p: Prefix,
    r: RouteRecord,
)
    requires
        answers(found, rib, afisafi, prefix, filter, function, sources),
        multicast == (afisafi == AfiSafiType::Ipv4Multicast || afisafi
            == AfiSafiType::Ipv6Multicast),
    ensures
        found.query_result.less_specifics is Some <==> filter.included@.contains(
            Include::LessSpecifics,
        ),
        found.query_result.less_specifics matches Some(prs) ==> 0 <= i < prs@.len() ==> {
            &&& prs@[i].prefix != prefix
            &&& prs@[i].prefix.covers(prefix)
            &&& prs@[i].prefix.len_spec() > 0
            &&& prs@[i].meta@.len() > 0
            &&& forall|k: int|
                0 <= k < prs@[i].meta@.len() ==> meets_every_criterion(
                    filter,
                    sources,
                    #[trigger] prs@[i].meta@[k],
                ) && shows_route(prs@[i].meta@[k], rib.table(multicast), prs@[i].prefix)
        },
        found.query_result.less_specifics matches Some(prs) ==> {
            &&& filter.roto_function is None || function is None
            &&& p != prefix
            &&& p.covers(prefix)
            &&& p.len_spec() > 0
            &&& shows_route(r, rib.table(multicast), p)
            &&& filter.ingress_id is None ==> !rib.table(multicast).withdrawn().contains(
                (p.addr_spec() is V4, r.multi_uniq_id),
            )
            &&& meets_every_criterion(filter, sources, r)
        } ==> is_listed(prs@, p, r),
{
    let table = rib.table(multicast);
    let answer = found.query_result;
    let s = table.sight(filter.ingress_id, false);
    let f = function_of(filter, function);
    let raw = choose|raw: TableMatch|
        {
            &&& #[trigger] is_found(
                s,
                prefix,
                false,
                filter.included@.contains(Include::LessSpecifics),
                filter.included@.contains(Include::MoreSpecifics),
                raw,
            )
            &&& opt_selected_from(f, filter, sources, raw.more_specifics, answer.more_specifics)
            &&& opt_selected_from(f, filter, sources, raw.less_specifics, answer.less_specifics)
        };
    if answer.less_specifics is Some {
        let prs = (answer.less_specifics->0)@;
        let all = (raw.less_specifics->0)@;
        if 0 <= i < prs.len() {
            listed_meet_criteria(table, f, filter, sources, all, prs, i);
        }
        if f is None && p != prefix && p.covers(prefix) && p.len_spec() > 0 && shows_route(
            r,
            table,
            p,
        ) && (filter.ingress_id is None ==> !table.withdrawn().contains(
            (p.addr_spec() is V4, r.multi_uniq_id),
        )) && meets_every_criterion(filter, sources, r) {
            assert(s.at(p, r.multi_uniq_id) is Some);
            assert(s.shows(p));
            listed_are_complete(table, f, filter, sources, all, prs, p, r);
        }
    }
}

//------------ Looking a prefix up -------------------------------------------

/// What looking up one prefix of at least one bit finds, where only that prefix
/// is asked for: if
/// anything is seen of it among the unicast routes, each of those routes and
/// nothing else, and what is among the multicast routes does not matter; else
/// each of the multicast routes to it that are seen. Either way there is one
/// record for each source.
pub proof fn unicast_routes_come_first(
    rib: Rib,
    prefix: Prefix,
    o: MatchOptions,
    found: TableMatch,
    mui: IngressId,
)
    requires
        matched(rib, prefix, o, found),
        !o.longest,
        !o.include_less_specifics,
        !o.include_more_specifics,
        prefix.wf(),
        prefix.len_spec() > 0,
    ensures
        ({
            let among_unicast = rib.unicast_spec().sight(o.mui, o.include_withdrawn);
            let among_multicast = rib.multicast_spec().sight(o.mui, o.include_withdrawn);
            let s = if among_unicast.shows(prefix) {
                among_unicast
            } else {
                among_multicast
            };
            &&& found.prefix == if s.shows(prefix) {
                Some(prefix)
            } else {
                None
            }
            &&& s.at(prefix, mui) is Some <==> exists|i: int|
                0 <= i < found.records@.len() && (#[trigger] found.records@[i]).multi_uniq_id == mui
            &&& forall|i: int|
                0 <= i < found.records@.len() && (#[trigger] found.records@[i]).multi_uniq_id == mui
                    ==> s.at(prefix, mui) == Some(
                    (Filed {
                        ltime: found.records@[i].ltime,
                        status: found.records@[i].status,
                        value: found.records@[i].meta@,
                    }),
                )
        }),
{
    let u = rib.unicast_spec().sight(o.mui, o.include_withdrawn);
    let m = rib.multicast_spec().sight(o.mui, o.include_withdrawn);
    let unicast = choose|unicast: TableMatch| #[trigger]
        found_in(rib.unicast_spec(), prefix, o, unicast) && if came_back_empty(unicast) {
            exists|multicast: TableMatch| #[trigger]
                found_in(rib.multicast_spec(), prefix, o, multicast) && found == if came_back_empty(
                    multicast,
                ) {
                    unicast
                } else {
                    multicast
                }
        } else {
            found == unicast
        };
    exact_match_is_the_prefix(u, prefix, unicast);
    if came_back_empty(unicast) {
        let multicast = choose|multicast: TableMatch| #[trigger]
            found_in(rib.multicast_spec(), prefix, o, multicast) && found == if came_back_empty(
                multicast,
            ) {
                unicast
            } else {
                multicast
            };
        exact_match_is_the_prefix(m, prefix, multicast);
    }
}

proof fn exact_match_is_the_prefix(
    s: Sight<Seq<u8>>,
    prefix: Prefix,
    found: TableMatch,
)
    requires
        is_found(s, prefix, false, false, false, found),
        prefix.wf(),
        prefix.len_spec() > 0,
    ensures
        found.prefix == if s.shows(prefix) {
            Some(prefix)
        } else {
            None
        },
        found.records@.len() == 0 <==> !s.shows(prefix),
        s.lists_routes(prefix, found.records@),
{
    if s.shows(prefix) {
        let m = choose|m: u32| #[trigger] s.at(prefix, m) is Some;
        assert(s.routes.contains_key((prefix, m)));
        assert(is_stored(s.routes, prefix));
        assert(prefix.covers(prefix));
        assert(is_match(s.routes, false, prefix, prefix));
    } else {
        assert(found.prefix is None);
        assert forall|mui: IngressId| #[trigger] s.at(prefix, mui) is Some implies false by {
            assert(s.shows(prefix));
        }
    }
}

/// A search is accepted in exactly the address families that routes can have,
/// if there is a function under the name that it gives, where it gives one.
pub proof fn searched_are_the_families_of_routes(
    afisafi: AfiSafiType,
    roto_function: Option<Seq<char>>,
    defined: bool,
    prefix: Prefix,
    pamap: RotondaPaMap,
)
    ensures
        search_error(afisafi, roto_function, defined) is None <==> route_of(
            afisafi,
            prefix,
            pamap,
        ) is Some && (roto_function is None || defined),
{
}

//------------ Lists of routes -----------------------------------------------

proof fn half_of_a_source(
    rib: Rib,
    id: IngressId,
    v4: bool,
    prs: Seq<PrefixRecord>,
    i: int,
    p: Prefix,
)
    requires
        source_listed(rib.unicast_spec(), id, v4, prs),
    ensures
        prefixes_of(prs).no_duplicates(),
        0 <= i < prs.len() ==> {
            &&& prs[i].prefix.len_spec() > 0
            &&& prs[i].prefix.addr_spec() is V4 == v4
            &&& prs[i].meta@.len() == 1
            &&& prs[i].meta@[0].multi_uniq_id == id
            &&& shows_route(prs[i].meta@[0], rib.unicast_spec(), prs[i].prefix)
            &&& !rib.unicast_spec().withdrawn().contains((v4, id))
        },
        prefixes_of(prs).contains(p) <==> {
            &&& p.len_spec() > 0
            &&& p.addr_spec() is V4 == v4
            &&& rib.unicast_spec().routes().contains_key((p, id))
            &&& rib.unicast_spec().routes()[(p, id)].status == RouteStatus::Active
            &&& !rib.unicast_spec().withdrawn().contains((v4, id))
        },
{
    let table = rib.unicast_spec();
    let s = table.sight(Some(id), false);
    if !table.withdrawn().contains((v4, id)) {
        assert(prefixes_of(prs).contains(p) ==> s.shows(p));
        if s.shows(p) {
            let m = choose|m: u32| #[trigger] s.at(p, m) is Some;
            assert(m == id);
        }
        if table.routes().contains_key((p, id)) && table.routes()[(p, id)].status
            == RouteStatus::Active {
            assert(s.at(p, id) is Some);
        }
        if 0 <= i < prs.len() {
            let q = prs[i].prefix;
            let records = prs[i].meta@;
            assert(prefixes_of(prs)[i] == q);
            assert(prefixes_of(prs).contains(q));
            assert(s.shows(q));
            let m = choose|m: u32| #[trigger] s.at(q, m) is Some;
            assert(m == id);
            assert(s.lists_routes(q, records));
            let k = choose|k: int|
                0 <= k < records.len() && (#[trigger] records[k]).multi_uniq_id == id;
            assert(s.at(q, records[0].multi_uniq_id) is Some);
            if records.len() > 1 {
                assert(s.at(q, records[1].multi_uniq_id) is Some);
                assert(records[0].multi_uniq_id != records[1].multi_uniq_id);
            }
        }
    } else {
        assert(prefixes_of(prs) =~= Seq::empty());
    }
}

/// The routes that are listed for a source are its active unicast routes, to
/// prefixes of at least one bit: each listed route is one that is filed for that
/// source under its prefix, each such route is listed, and none twice. A source
/// that is withdrawn in an address family has none in it.
pub proof fn source_lists_its_own_routes(
    rib: Rib,
    id: IngressId,
    prs: Seq<PrefixRecord>,
    i: int,
    p: Prefix,
)
    requires
        source_routes_listed(rib, id, prs),
    ensures
        prefixes_of(prs).no_duplicates(),
        0 <= i < prs.len() ==> {
            &&& prs[i].meta@.len() == 1
            &&& prs[i].meta@[0].multi_uniq_id == id
            &&& shows_route(prs[i].meta@[0], rib.unicast_spec(), prs[i].prefix)
        },
        prefixes_of(prs).contains(p) <==> {
            &&& p.len_spec() > 0
            &&& rib.unicast_spec().routes().contains_key((p, id))
            &&& rib.unicast_spec().routes()[(p, id)].status == RouteStatus::Active
            &&& !rib.unicast_spec().withdrawn().contains((p.addr_spec() is V4, id))
        },
{
    let (v4, v6) = choose|v4: Seq<PrefixRecord>, v6: Seq<PrefixRecord>|
        #![trigger source_listed(rib.unicast_spec(), id, true, v4), source_listed(
            rib.unicast_spec(),
            id,
            false,
            v6,
        )]
        source_listed(rib.unicast_spec(), id, true, v4) && source_listed(
            rib.unicast_spec(),
            id,
            false,
            v6,
        ) && prs == v4 + v6;
    let a = prefixes_of(v4);
    let b = prefixes_of(v6);
    let all = prefixes_of(prs);
    assert(all =~= a + b);
    half_of_a_source(rib, id, true, v4, i, p);
    half_of_a_source(rib, id, false, v6, i - v4.len(), p);
    if 0 <= i < prs.len() {
        if i < v4.len() {
            assert(prs[i] == v4[i]);
        } else {
            assert(prs[i] == v6[i - v4.len()]);
        }
    }
    if a.contains(p) {
        let k = choose|k: int| 0 <= k < a.len() && a[k] == p;
        assert(all[k] == p);
    }
    if b.contains(p) {
        let k = choose|k: int| 0 <= k < b.len() && b[k] == p;
        assert(all[a.len() + k] == p);
    }
    if all.contains(p) {
        let k = choose|k: int| 0 <= k < all.len() && all[k] == p;
        if k < a.len() {
            assert(a[k] == p);
        } else {
            assert(b[k - a.len()] == p);
        }
    }
    assert forall|j: int, k: int| 0 <= j < all.len() && 0 <= k < all.len() && j != k implies all[j]
        != all[k] by {
        half_of_a_source(rib, id, true, v4, j, all[j]);
        half_of_a_source(rib, id, false, v6, j - a.len(), all[j]);
        half_of_a_source(rib, id, true, v4, k, all[k]);
        half_of_a_source(rib, id, false, v6, k - a.len(), all[k]);
        if j < a.len() && k < a.len() {
            assert(all[j] == a[j] && all[k] == a[k]);
        } else if j >= a.len() && k >= a.len() {
            assert(all[j] == b[j - a.len()] && all[k] == b[k - a.len()]);
        }
    }
}

} // verus!
