//! What packing makes of routes, message by message.
use crate::ingress::IngressId;
use crate::net::Prefix;
use crate::payload::{attribute_octets, content_hash};
use crate::units::bmp_tcp_out::aggregator::{
    budget_kept, cost_at, group_of, pack_cost, packed_base_len, packed_by_add, packed_with, total,
    total_remove, GroupId, Pack, RouteAggregator,
};
use crate::units::bmp_tcp_out::bmp_builder::{
    bgp_message, bgp_update, nlri, nlris, packed_body, packed_message, peer_message_layout,
    per_peer_header, plain_attributes, recovered_next_hop, route_monitoring, PeerInfo, Timestamp,
    BGP_MSG_UPDATE, BMP_MSG_ROUTE_MONITORING,
};
use crate::units::bmp_tcp_out::readback::{
    announcement_is_read_back, announces, announces_all, is_update, packed_update_is_read_back,
    update_is_framed,
};
use crate::wire::capped;
use vstd::prelude::*;

verus! {

/// The size of the UPDATE that announces prefixes with the path attributes of a
/// route.
pub open spec fn update_size(is_v4: bool, raw: Seq<u8>, prefixes: Seq<Prefix>) -> nat {
    19 + packed_body(is_v4, plain_attributes(raw), recovered_next_hop(raw), prefixes).len()
}

/// The message that a pack becomes is read back: it is a Route Monitoring
/// message (type 0) under the header of the pack's own peer, whose UPDATE
/// announces the prefixes of the pack, in their order and each once, with the
/// path attributes and the next hop of its routes. The UPDATE has at most 4096
/// octets, unless it is that of a single prefix.
pub proof fn pack_is_read_back(
    pack: Pack,
    peers: Map<IngressId, PeerInfo>,
    msg: (Seq<u8>, nat),
)
    requires
        pack.becomes(peers, msg),
    ensures
        peers.contains_key(pack.ingress_id),
        msg.1 == pack.prefixes.len(),
        msg.0[5] == 0,
        exists|t: Timestamp|
            t.wf() && msg.0.subrange(6, 48) == #[trigger] per_peer_header(
                peers[pack.ingress_id],
                t,
            ),
        is_update(msg.0.skip(48)),
        if update_size(pack.is_v4, pack.raw, pack.prefixes) <= 4096 {
            announces_all(msg.0.skip(48).skip(19), pack.is_v4, pack.raw, pack.prefixes)
                && msg.0.skip(48).len() <= 4096
        } else {
            pack.prefixes.len() == 1 && announces(msg.0.skip(48), pack.prefixes[0], pack.raw)
        },
{
    reveal(Pack::becomes);
    reveal(Pack::becomes_for);
    let peer = peers[pack.ingress_id];
    let t = choose|t: Timestamp|
        #![trigger t.wf()]
        t.wf() && if packed_base_len(pack.is_v4, pack.raw) + nlris(pack.prefixes).len() <= 4096 {
            msg.0 == packed_message(peer, t, pack.is_v4, pack.raw, pack.prefixes)
        } else {
            pack.prefixes.len() == 1 && Some(msg.0) == route_monitoring(
                peer,
                t,
                pack.prefixes[0],
                pack.raw,
                false,
            )
        };
    let body = packed_body(
        pack.is_v4,
        plain_attributes(pack.raw),
        recovered_next_hop(pack.raw),
        pack.prefixes,
    );
    assert(19 + body.len() == packed_base_len(pack.is_v4, pack.raw) + nlris(pack.prefixes).len());
    if 19 + body.len() <= 4096 {
        let update = bgp_message(BGP_MSG_UPDATE, body);
        packed_update_is_read_back(pack.is_v4, pack.raw, pack.prefixes);
        update_is_framed(body);
        peer_message_layout(BMP_MSG_ROUTE_MONITORING, peer, t, update);
        assert(msg.0.subrange(6, 48) == per_peer_header(peer, t));
    } else {
        let update = bgp_update(pack.prefixes[0], pack.raw, false)->0;
        announcement_is_read_back(pack.prefixes[0], pack.raw);
        peer_message_layout(BMP_MSG_ROUTE_MONITORING, peer, t, update);
        assert(msg.0.subrange(6, 48) == per_peer_header(peer, t));
    }
}

/// The place of a route among the open groups.
pub open spec fn place_of(ingress_id: IngressId, prefix: Prefix, raw: Seq<u8>) -> GroupId {
    (ingress_id, prefix.addr_spec() is V4, content_hash(attribute_octets(raw)))
}

/// A route joins the open group of its source, family and path attributes at the
/// end, as long as the group's UPDATE stays within 4096 octets with it: nothing
/// is handed over unless the budget is exceeded, and all other groups stay as
/// they are.
pub proof fn route_joins_its_group(
    before: RouteAggregator,
    after: RouteAggregator,
    ingress_id: IngressId,
    prefix: Prefix,
    raw: Seq<u8>,
    packs: Seq<Pack>,
    id: GroupId,
)
    requires
        packed_by_add(before, after, ingress_id, prefix, raw, packs, true),
        before.peers().contains_key(ingress_id),
        id == place_of(ingress_id, prefix, raw),
        before.open().contains_key(id),
        attribute_octets(before.open()[id].raw) == attribute_octets(raw),
        before.open()[id].prefixes.len() > 0,
        update_size(
            before.open()[id].is_v4,
            before.open()[id].raw,
            before.open()[id].prefixes.push(prefix),
        ) <= 4096,
        before.buffered() + 32 <= after.budget(),
    ensures
        packs.len() == 0,
        after.buffered() == before.buffered() + 32,
        after.open().dom() == before.open().dom(),
        after.open()[id].prefixes == before.open()[id].prefixes.push(prefix),
        after.open()[id].raw == before.open()[id].raw,
        after.open()[id].ingress_id == before.open()[id].ingress_id,
        forall|other: GroupId|
            other != id && #[trigger] before.open().contains_key(other) ==> after.open()[other]
                == before.open()[other],
{
    let group = before.open()[id];
    one_more_nlri(group.prefixes, prefix);
    size_of_packed(group.is_v4, group.raw, group.prefixes.push(prefix));
    let packing = packed_with(before.open(), ingress_id, prefix, raw);
    assert(packing.packs =~= Seq::empty());
    let cost = (before.buffered() - pack_cost(group) + pack_cost(packing.open[id])) as nat;
    let evicted = choose|evicted: Seq<Pack>|
        {
            &&& packs == packing.packs + evicted
            &&& #[trigger] budget_kept(packing.open, cost, after, evicted)
        };
    assert(cost == before.buffered() + 32);
    assert(packs =~= Seq::empty());
    assert(packing.open.dom() =~= before.open().dom());
}

proof fn one_more_nlri(prefixes: Seq<Prefix>, prefix: Prefix)
    ensures
        nlris(prefixes.push(prefix)) == nlris(prefixes) + nlri(prefix),
{
    assert(prefixes.push(prefix).drop_last() =~= prefixes);
}

/// A group whose UPDATE would exceed 4096 octets with one more prefix is handed
/// over as it is, and goes on with that prefix alone, if there is room for it.
pub proof fn full_group_is_handed_over(
    before: RouteAggregator,
    after: RouteAggregator,
    ingress_id: IngressId,
    prefix: Prefix,
    raw: Seq<u8>,
    packs: Seq<Pack>,
    id: GroupId,
)
    requires
        before.wf(),
        packed_by_add(before, after, ingress_id, prefix, raw, packs, true),
        before.peers().contains_key(ingress_id),
        id == place_of(ingress_id, prefix, raw),
        before.open().contains_key(id),
        attribute_octets(before.open()[id].raw) == attribute_octets(raw),
        before.open()[id].is_v4 == (prefix.addr_spec() is V4),
        before.open()[id].prefixes.len() > 0,
        update_size(
            before.open()[id].is_v4,
            before.open()[id].raw,
            before.open()[id].prefixes.push(prefix),
        ) > 4096,
        update_size(prefix.addr_spec() is V4, raw, seq![prefix]) <= 4096,
        before.buffered() <= after.budget(),
    ensures
        packs == seq![before.open()[id]],
        after.open()[id].prefixes == seq![prefix],
        after.open()[id].raw == before.open()[id].raw,
        forall|other: GroupId|
            other != id && #[trigger] before.open().contains_key(other) ==> after.open()[other]
                == before.open()[other],
{
    let group = before.open()[id];
    let packing = packed_with(before.open(), ingress_id, prefix, raw);
    packing_of_a_full_group(before.open(), ingress_id, prefix, raw, id);
    let cost = (before.buffered() - pack_cost(group) + pack_cost(packing.open[id])) as nat;
    group_is_within_what_is_buffered(before, id);
    assert(pack_cost(packing.open[id]) == 160);
    assert(pack_cost(group) >= 160);
    let evicted = choose|evicted: Seq<Pack>|
        {
            &&& packs == packing.packs + evicted
            &&& #[trigger] budget_kept(packing.open, cost, after, evicted)
        };
    assert(cost <= before.buffered());
    assert(evicted.len() == 0);
    assert(packs =~= seq![group]);
}

proof fn group_is_within_what_is_buffered(agg: RouteAggregator, id: GroupId)
    requires
        agg.wf(),
        agg.open().contains_key(id),
    ensures
        pack_cost(agg.open()[id]) <= agg.buffered(),
{
    agg.charges_add_up();
    let costs = agg.open().map_values(|pack: Pack| pack_cost(pack));
    assert(costs.dom() =~= agg.open().dom());
    total_remove(costs, id);
}

proof fn packing_of_a_full_group(
    open: Map<GroupId, Pack>,
    ingress_id: IngressId,
    prefix: Prefix,
    raw: Seq<u8>,
    id: GroupId,
)
    requires
        id == place_of(ingress_id, prefix, raw),
        open.contains_key(id),
        attribute_octets(open[id].raw) == attribute_octets(raw),
        open[id].is_v4 == (prefix.addr_spec() is V4),
        open[id].prefixes.len() > 0,
        update_size(open[id].is_v4, open[id].raw, open[id].prefixes.push(prefix)) > 4096,
        update_size(prefix.addr_spec() is V4, raw, seq![prefix]) <= 4096,
    ensures
        packed_with(open, ingress_id, prefix, raw).packs == seq![open[id]],
        packed_with(open, ingress_id, prefix, raw).open == open.insert(
            id,
            Pack { prefixes: seq![prefix], ..open[id] },
        ),
{
    let group = open[id];
    one_more_nlri(group.prefixes, prefix);
    one_more_nlri(Seq::empty(), prefix);
    assert(Seq::<Prefix>::empty().push(prefix) =~= seq![prefix]);
    assert(nlris(Seq::<Prefix>::empty()) + nlri(prefix) =~= nlri(prefix));
    size_of_packed(group.is_v4, group.raw, group.prefixes.push(prefix));
    size_of_packed(group.is_v4, raw, seq![prefix]);
    assert(packed_with(open, ingress_id, prefix, raw).packs =~= seq![group]);
}

proof fn size_of_packed(is_v4: bool, raw: Seq<u8>, prefixes: Seq<Prefix>)
    ensures
        update_size(is_v4, raw, prefixes) == packed_base_len(is_v4, raw) + nlris(prefixes).len(),
{
}

/// A route for which no group is open opens one of its own, if its UPDATE stays
/// within 4096 octets: nothing is handed over unless the budget is exceeded, and
/// all other groups stay as they are.
pub proof fn route_opens_a_group(
    before: RouteAggregator,
    after: RouteAggregator,
    ingress_id: IngressId,
    prefix: Prefix,
    raw: Seq<u8>,
    packs: Seq<Pack>,
    id: GroupId,
)
    requires
        packed_by_add(before, after, ingress_id, prefix, raw, packs, true),
        before.peers().contains_key(ingress_id),
        id == place_of(ingress_id, prefix, raw),
        !before.open().contains_key(id),
        update_size(prefix.addr_spec() is V4, raw, seq![prefix]) <= 4096,
        before.buffered() + 160 <= after.budget(),
    ensures
        packs.len() == 0,
        after.buffered() == before.buffered() + 160,
        after.open().contains_key(id),
        after.open()[id].prefixes == seq![prefix],
        after.open()[id].raw == raw,
        after.open()[id].ingress_id == ingress_id,
        after.open()[id].is_v4 == (prefix.addr_spec() is V4),
        forall|other: GroupId|
            other != id && #[trigger] before.open().contains_key(other)
                ==> after.open().contains_key(other) && after.open()[other]
                == before.open()[other],
{
    one_more_nlri(Seq::empty(), prefix);
    assert(Seq::<Prefix>::empty().push(prefix) =~= seq![prefix]);
    assert(nlris(Seq::<Prefix>::empty()) + nlri(prefix) =~= nlri(prefix));
    let is_v4 = prefix.addr_spec() is V4;
    size_of_packed(is_v4, raw, seq![prefix]);
    let packing = packed_with(before.open(), ingress_id, prefix, raw);
    assert(packing.packs =~= Seq::empty());
    assert(packing.open[id].prefixes =~= seq![prefix]);
    let cost = (before.buffered() - 0 + pack_cost(packing.open[id])) as nat;
    let evicted = choose|evicted: Seq<Pack>|
        {
            &&& packs == packing.packs + evicted
            &&& #[trigger] budget_kept(packing.open, cost, after, evicted)
        };
    assert(packs =~= Seq::empty());
}

/// A group of other path attributes that is filed in the place of a route's
/// group is handed over before the route takes its place.
pub proof fn group_in_the_way_is_handed_over(
    before: RouteAggregator,
    after: RouteAggregator,
    ingress_id: IngressId,
    prefix: Prefix,
    raw: Seq<u8>,
    packs: Seq<Pack>,
    id: GroupId,
)
    requires
        packed_by_add(before, after, ingress_id, prefix, raw, packs, true),
        before.peers().contains_key(ingress_id),
        id == place_of(ingress_id, prefix, raw),
        before.open().contains_key(id),
        attribute_octets(before.open()[id].raw) != attribute_octets(raw),
    ensures
        packs.len() > 0,
        packs[0] == before.open()[id],
{
    let packing = packed_with(before.open(), ingress_id, prefix, raw);
    assert(packing.packs[0] == before.open()[id]);
}

/// A route whose UPDATE exceeds 4096 octets on its own is handed over at once
/// and on its own, if there is an UPDATE for it, and opens no group.
pub proof fn large_route_goes_on_its_own(
    before: RouteAggregator,
    after: RouteAggregator,
    ingress_id: IngressId,
    prefix: Prefix,
    raw: Seq<u8>,
    packs: Seq<Pack>,
    id: GroupId,
)
    requires
        packed_by_add(before, after, ingress_id, prefix, raw, packs, true),
        before.peers().contains_key(ingress_id),
        id == place_of(ingress_id, prefix, raw),
        !before.open().contains_key(id),
        update_size(prefix.addr_spec() is V4, raw, seq![prefix]) > 4096,
        before.buffered() <= after.budget(),
    ensures
        bgp_update(prefix, raw, false) is Some ==> {
            &&& packs.len() == 1
            &&& packs[0].ingress_id == ingress_id
            &&& packs[0].is_v4 == (prefix.addr_spec() is V4)
            &&& packs[0].raw == raw
            &&& packs[0].prefixes == seq![prefix]
        },
        bgp_update(prefix, raw, false) is None ==> packs.len() == 0,
        after.open() == before.open(),
        after.buffered() == before.buffered(),
{
    one_more_nlri(Seq::empty(), prefix);
    assert(Seq::<Prefix>::empty().push(prefix) =~= seq![prefix]);
    assert(nlris(Seq::<Prefix>::empty()) + nlri(prefix) =~= nlri(prefix));
    let is_v4 = prefix.addr_spec() is V4;
    size_of_packed(is_v4, raw, seq![prefix]);
    let packing = packed_with(before.open(), ingress_id, prefix, raw);
    assert(packing.open =~= before.open());
    let cost = before.buffered();
    let evicted = choose|evicted: Seq<Pack>|
        {
            &&& packs == packing.packs + evicted
            &&& #[trigger] budget_kept(packing.open, cost, after, evicted)
        };
    assert(packs =~= packing.packs);
}

/// What is buffered never exceeds the budget for long: after a route was added
/// it is within the budget, and if groups had to go for that, it is within half
/// of it, and would not be if the last of them had stayed. A route of a source
/// that is not a known peer changes nothing.
pub proof fn budget_is_kept(
    before: RouteAggregator,
    after: RouteAggregator,
    ingress_id: IngressId,
    prefix: Prefix,
    raw: Seq<u8>,
    packs: Seq<Pack>,
)
    requires
        packed_by_add(before, after, ingress_id, prefix, raw, packs, true),
        before.buffered() <= before.budget(),
        after.budget() == before.budget(),
    ensures
        after.buffered() <= after.budget(),
        after.counters().1 > before.counters().1 ==> 2 * after.buffered() <= after.budget()
            && packs.len() > 0 && after.budget() < 2 * (after.buffered() + 128 + 32
            * packs.last().prefixes.len()) + 2,
        !before.peers().contains_key(ingress_id) ==> packs.len() == 0 && after.open()
            == before.open() && after.buffered() == before.buffered() && after.counters()
            == before.counters(),
{
}

/// What is buffered is 128 for each open group and 32 for each prefix in it.
pub proof fn groups_are_charged(agg: RouteAggregator)
    requires
        agg.wf(),
    ensures
        agg.buffered() == total(
            agg.open().map_values(|pack: Pack| (128 + 32 * pack.prefixes.len()) as nat),
        ),
{
    agg.charges_add_up();
    assert(agg.open().map_values(|pack: Pack| pack_cost(pack)) =~= agg.open().map_values(
        |pack: Pack| (128 + 32 * pack.prefixes.len()) as nat,
    ));
}

/// Groups that have to go for the budget go by their size: as many of the packs
/// that are handed over last as groups were counted for it, the one with most
/// prefixes first, and each has at least as many as any group that stays.
pub proof fn fullest_groups_go_first(
    before: RouteAggregator,
    after: RouteAggregator,
    ingress_id: IngressId,
    prefix: Prefix,
    raw: Seq<u8>,
    packs: Seq<Pack>,
    i: int,
    j: int,
    id: GroupId,
)
    requires
        packed_by_add(before, after, ingress_id, prefix, raw, packs, true),
        packs.len() - (after.counters().1 - before.counters().1) <= i <= j < packs.len(),
    ensures
        0 <= i,
        packs[i].prefixes.len() >= packs[j].prefixes.len(),
        after.open().contains_key(id) ==> packs[j].prefixes.len()
            >= after.open()[id].prefixes.len(),
{
    let packing = packed_with(before.open(), ingress_id, prefix, raw);
    let place = group_of(ingress_id, prefix, raw);
    let cost = (before.buffered() - cost_at(before.open(), place) + cost_at(packing.open, place))
        as nat;
    let evicted = choose|evicted: Seq<Pack>|
        {
            &&& packs == packing.packs + evicted
            &&& #[trigger] budget_kept(packing.open, cost, after, evicted)
            &&& after.counters().1 == capped(before.counters().1 + evicted.len())
        };
    let a = i - packing.packs.len();
    let b = j - packing.packs.len();
    assert(0 <= a <= b < evicted.len());
    assert(packs[i] == evicted[a] && packs[j] == evicted[b]);
    if after.open().contains_key(id) {
        assert(evicted[b].prefixes.len() >= after.open()[id].prefixes.len());
    }
}

} // verus!
