//! The walk over the table in an initial table dump.
use crate::ingress::{IngressId, IngressInfo, IngressType, Register};
use crate::net::Prefix;
use crate::payload::{attribute_octets, RouteStatus};
use crate::units::bmp_tcp_out::aggregator::{
    added_count, all_taken_out, answered, answered_chain, answered_nothing, answered_one_more,
    becomes_with_more_peers, handed_count, log_gained, never_refused, nothing_invented,
    nothing_lost, open_unless_refused, packed_by_add, route_fits, route_is_sent, BufferedRoute,
    MessageSink, Pack, RouteAggregator,
};
use crate::units::bmp_tcp_out::bmp_builder::{
    build_peer_up, peer_message, peer_up_body, PeerInfo, Timestamp, BMP_MSG_PEER_UP,
};
use crate::units::bmp_tcp_out::client_handler::{
    build_peer_info_for_emit, emitted, EmitContext, FanInPeerDistinguisher,
};
use crate::units::rib_unit::filter::one_per_source;
use crate::units::rib_unit::lines::live_keeps_one_per_source;
use crate::units::rib_unit::records::{PrefixRecord, RouteRecord};
use crate::units::rib_unit::rib::{listed_for, live, live_records_are_live, Rib};
use crate::units::rib_unit::store::is_stored;
use crate::units::rib_unit::table::RouteTable;
use crate::wire::capped;
use std::collections::HashMap;
use vstd::prelude::*;
use vstd::std_specs::hash::*;

verus! {

/// The budget of the aggregator of a dump. It holds the groups of a full table,
/// so that packing reaches what the table's shared attributes allow.
pub const DUMP_AGGREGATOR_MAX_BYTES: usize = 268_435_456;

//------------ What a walk hands over ----------------------------------------

/// One message of a walk over the table.
pub enum DumpItem {
    /// The Peer Up of a peer that was found on the way.
    PeerUp(IngressId),
    Routes(Pack),
}

/// Whether a message is the Peer Up of a peer that was found on the way.
#[verifier::opaque]
pub open spec fn is_found_peer_up(msg: Seq<u8>, peer: PeerInfo) -> bool {
    exists|t: Timestamp|
        t.wf() && msg == #[trigger] peer_message(BMP_MSG_PEER_UP, peer, t, peer_up_body(peer, false))
}

impl DumpItem {
    /// Whether a message is what the item becomes for these peers.
    pub open spec fn becomes(self, peers: Map<IngressId, PeerInfo>, msg: (Seq<u8>, nat)) -> bool {
        match self {
            DumpItem::PeerUp(id) => peers.contains_key(id) && msg.1 == 0 && is_found_peer_up(
                msg.0,
                peers[id],
            ),
            DumpItem::Routes(pack) => pack.becomes(peers, msg),
        }
    }

    /// How often the item holds a route.
    pub open spec fn count(self, r: BufferedRoute) -> nat {
        match self {
            DumpItem::PeerUp(_) => 0,
            DumpItem::Routes(pack) => pack.count(r),
        }
    }
}

/// How often a route occurs in items.
pub open spec fn items_count(items: Seq<DumpItem>, r: BufferedRoute) -> nat
    decreases items.len(),
{
    if items.len() == 0 {
        0
    } else {
        items_count(items.drop_last(), r) + items.last().count(r)
    }
}

/// Whether the messages that a log gained are what the items become, one for
/// one and in order.
pub open spec fn walk_log(
    before: Seq<(Seq<u8>, nat)>,
    after: Seq<(Seq<u8>, nat)>,
    peers: Map<IngressId, PeerInfo>,
    items: Seq<DumpItem>,
) -> bool {
    &&& after.len() == before.len() + items.len()
    &&& after.take(before.len() as int) == before
    &&& forall|i: int|
        0 <= i < items.len() ==> (#[trigger] items[i]).becomes(peers, after[before.len() + i])
}

/// Whether the items hold the Peer Up of a peer.
pub open spec fn announces(items: Seq<DumpItem>, id: IngressId) -> bool {
    exists|j: int| 0 <= j < items.len() && #[trigger] items[j] == DumpItem::PeerUp(id)
}

/// Whether every pack of a peer that was not known at the start comes after the
/// peer's Peer Up.
pub open spec fn peer_ups_first(start: Map<IngressId, PeerInfo>, items: Seq<DumpItem>) -> bool {
    forall|i: int|
        #![trigger items[i]]
        0 <= i < items.len() ==> match items[i] {
            DumpItem::Routes(pack) => start.contains_key(pack.ingress_id) || announces(
                items.take(i),
                pack.ingress_id,
            ),
            DumpItem::PeerUp(_) => true,
        }
}

/// Whether a source is one whose routes are dumped though it was not listed: a
/// peer whose routes are active while its session counts as down.
pub open spec fn is_real_peer(sources: Map<IngressId, IngressInfo>, id: IngressId) -> bool {
    sources.contains_key(id) && match sources[id].ingress_type {
        Some(IngressType::BgpViaBmp) => true,
        Some(IngressType::Bgp) => true,
        Some(IngressType::Mrt) => true,
        _ => false,
    }
}

/// Whether a peer was found on the way: a source whose routes are dumped, with
/// what the messages about it say.
pub open spec fn is_find(id: IngressId, peer: PeerInfo, cx: EmitContext) -> bool {
    is_real_peer(cx.0, id) && emitted(peer, cx.0[id], cx)
}

/// The routes among stored records of a prefix that reach the consumer.
pub open spec fn sent_routes(
    peers: Map<IngressId, PeerInfo>,
    sources: Map<IngressId, IngressInfo>,
    prefix: Prefix,
    records: Seq<RouteRecord>,
) -> Seq<BufferedRoute>
    decreases records.len(),
{
    if records.len() == 0 {
        Seq::empty()
    } else {
        let rest = sent_routes(peers, sources, prefix, records.drop_last());
        let r = records.last();
        if (peers.contains_key(r.multi_uniq_id) || is_real_peer(sources, r.multi_uniq_id))
            && route_fits(prefix, r.meta@) {
            rest.push(
                BufferedRoute {
                    ingress_id: r.multi_uniq_id,
                    prefix,
                    attributes: attribute_octets(r.meta@),
                },
            )
        } else {
            rest
        }
    }
}

/// The number of records of a source.
pub open spec fn tally(records: Seq<RouteRecord>, id: IngressId) -> nat
    decreases records.len(),
{
    if records.len() == 0 {
        0
    } else {
        tally(records.drop_last(), id) + (if records.last().multi_uniq_id == id {
            1nat
        } else {
            0nat
        })
    }
}

/// What is counted for a source.
pub open spec fn counted(counts: Map<IngressId, usize>, id: IngressId) -> nat {
    if counts.contains_key(id) {
        counts[id] as nat
    } else {
        0
    }
}

/// Whether a stretch of a walk counted these records: those of peers, and those
/// of other sources.
pub open spec fn visit_counted(
    before: DumpWalk,
    after: DumpWalk,
    sources: Map<IngressId, IngressInfo>,
    records: Seq<RouteRecord>,
) -> bool {
    forall|id: IngressId|
        #![trigger after.routes_of(id)]
        #![trigger after.skipped_of(id)]
        {
            let peer = before.peers().contains_key(id) || is_real_peer(sources, id);
            &&& after.routes_of(id) == capped(
                before.routes_of(id) + if peer {
                    tally(records, id)
                } else {
                    0
                },
            )
            &&& after.skipped_of(id) == capped(
                before.skipped_of(id) + if peer {
                    0
                } else {
                    tally(records, id)
                },
            )
        }
}

/// Counts one more for a source.
fn bump(counts: &mut HashMap<IngressId, usize>, id: IngressId)
    ensures
        forall|other: IngressId| #[trigger]
            counted(final(counts)@, other) == if other == id {
                capped(counted(old(counts)@, other) + 1)
            } else {
                counted(old(counts)@, other)
            },
{
    let n: usize = match counts.get(&id) {
        Some(n) => *n,
        None => 0,
    };
    counts.insert(id, n.saturating_add(1));
}

proof fn items_count_chain(a: Seq<DumpItem>, b: Seq<DumpItem>, r: BufferedRoute)
    ensures
        items_count(a + b, r) == items_count(a, r) + items_count(b, r),
    decreases b.len(),
{
    if b.len() == 0 {
        assert(a + b =~= a);
    } else {
        assert((a + b).drop_last() =~= a + b.drop_last());
        items_count_chain(a, b.drop_last(), r);
    }
}

/// Packs as items.
pub open spec fn as_items(packs: Seq<Pack>) -> Seq<DumpItem> {
    packs.map_values(|p: Pack| DumpItem::Routes(p))
}

proof fn as_items_facts(
    before: Seq<(Seq<u8>, nat)>,
    after: Seq<(Seq<u8>, nat)>,
    peers: Map<IngressId, PeerInfo>,
    packs: Seq<Pack>,
)
    requires
        log_gained(before, after, peers, packs),
    ensures
        walk_log(before, after, peers, as_items(packs)),
        forall|r: BufferedRoute| #[trigger]
            items_count(as_items(packs), r) == handed_count(packs, r),
        forall|i: int|
            0 <= i < packs.len() ==> peers.contains_key((#[trigger] packs[i]).ingress_id),
{
    let items = as_items(packs);
    assert forall|i: int| 0 <= i < items.len() implies (#[trigger] items[i]).becomes(
        peers,
        after[before.len() + i],
    ) by {
        assert(packs[i].becomes(peers, after[before.len() + i]));
    }
    assert forall|i: int| 0 <= i < packs.len() implies peers.contains_key(
        (#[trigger] packs[i]).ingress_id,
    ) by {
        becomes_with_more_peers(packs[i], peers, peers, after[before.len() + i]);
    }
    assert forall|r: BufferedRoute| #[trigger]
        items_count(as_items(packs), r) == handed_count(packs, r) by {
        as_items_count(packs, r);
    }
}

proof fn as_items_count(packs: Seq<Pack>, r: BufferedRoute)
    ensures
        items_count(as_items(packs), r) == handed_count(packs, r),
    decreases packs.len(),
{
    if packs.len() > 0 {
        assert(as_items(packs).drop_last() =~= as_items(packs.drop_last()));
        as_items_count(packs.drop_last(), r);
    }
}

proof fn item_with_more_peers(
    item: DumpItem,
    few: Map<IngressId, PeerInfo>,
    many: Map<IngressId, PeerInfo>,
    msg: (Seq<u8>, nat),
)
    requires
        item.becomes(few, msg),
        few.submap_of(many),
    ensures
        item.becomes(many, msg),
{
    match item {
        DumpItem::PeerUp(id) => {
            assert(few.dom().contains(id));
            assert(many.dom().contains(id));
            assert(many[id] == few[id]);
        },
        DumpItem::Routes(pack) => {
            becomes_with_more_peers(pack, few, many, msg);
        },
    }
}

proof fn walk_log_chain(
    before: Seq<(Seq<u8>, nat)>,
    mid: Seq<(Seq<u8>, nat)>,
    after: Seq<(Seq<u8>, nat)>,
    few: Map<IngressId, PeerInfo>,
    many: Map<IngressId, PeerInfo>,
    a: Seq<DumpItem>,
    b: Seq<DumpItem>,
)
    requires
        walk_log(before, mid, few, a),
        walk_log(mid, after, many, b),
        few.submap_of(many),
    ensures
        walk_log(before, after, many, a + b),
{
    assert(after.take(before.len() as int) =~= mid.take(before.len() as int));
    assert forall|i: int| 0 <= i < (a + b).len() implies (#[trigger] (a + b)[i]).becomes(
        many,
        after[before.len() + i],
    ) by {
        if i < a.len() {
            let msg = mid[before.len() + i];
            assert(a[i].becomes(few, msg));
            assert(after.take(mid.len() as int)[before.len() + i] == after[before.len() + i]);
            item_with_more_peers(a[i], few, many, msg);
        } else {
            assert(b[i - a.len()].becomes(many, after[mid.len() + (i - a.len())]));
        }
    }
}

proof fn peer_ups_first_chain(
    start: Map<IngressId, PeerInfo>,
    mid: Map<IngressId, PeerInfo>,
    a: Seq<DumpItem>,
    b: Seq<DumpItem>,
)
    requires
        peer_ups_first(start, a),
        peer_ups_first(mid, b),
        forall|id: IngressId| #[trigger]
            mid.contains_key(id) ==> start.contains_key(id) || announces(a, id),
    ensures
        peer_ups_first(start, a + b),
{
    let all = a + b;
    assert forall|i: int|
        #![trigger all[i]]
        0 <= i < all.len() implies match all[i] {
        DumpItem::Routes(pack) => start.contains_key(pack.ingress_id) || announces(
            all.take(i),
            pack.ingress_id,
        ),
        DumpItem::PeerUp(_) => true,
    } by {
        if i < a.len() {
            assert(all[i] == a[i]);
            assert(all.take(i) =~= a.take(i));
        } else {
            assert(all[i] == b[i - a.len()]);
            if let DumpItem::Routes(pack) = all[i] {
                let id = pack.ingress_id;
                if mid.contains_key(id) {
                    if !start.contains_key(id) {
                        let j = choose|j: int|
                            0 <= j < a.len() && #[trigger] a[j] == DumpItem::PeerUp(id);
                        assert(all.take(i)[j] == DumpItem::PeerUp(id));
                    }
                } else {
                    let bt = b.take(i - a.len());
                    let j = choose|j: int|
                        0 <= j < bt.len() && #[trigger] bt[j] == DumpItem::PeerUp(id);
                    assert(all.take(i)[a.len() + j] == DumpItem::PeerUp(id));
                }
            }
        }
    }
}

//------------ Found peers ---------------------------------------------------

/// Whether one of the found peers has this identifier.
pub open spec fn is_among(found: Seq<(IngressId, PeerInfo)>, id: IngressId) -> bool {
    exists|i: int| 0 <= i < found.len() && (#[trigger] found[i]).0 == id
}

/// The peers but for those that were found on the way.
#[verifier::opaque]
pub open spec fn without_found(
    peers: Map<IngressId, PeerInfo>,
    found: Seq<(IngressId, PeerInfo)>,
) -> Map<IngressId, PeerInfo> {
    peers.restrict(Set::new(|id: IngressId| !is_among(found, id)))
}

/// Whether the found peers are among the peers, each once.
#[verifier::opaque]
pub open spec fn found_once(
    peers: Map<IngressId, PeerInfo>,
    found: Seq<(IngressId, PeerInfo)>,
) -> bool {
    &&& forall|i: int|
        0 <= i < found.len() ==> peers.contains_key((#[trigger] found[i]).0) && peers[found[i].0]
            == found[i].1
    &&& forall|i: int, j: int|
        0 <= i < j < found.len() ==> (#[trigger] found[i]).0 != (#[trigger] found[j]).0
}

proof fn find_one(
    peers: Map<IngressId, PeerInfo>,
    found: Seq<(IngressId, PeerInfo)>,
    id: IngressId,
    peer: PeerInfo,
)
    requires
        found_once(peers, found),
        !peers.contains_key(id),
    ensures
        found_once(peers.insert(id, peer), found.push((id, peer))),
        without_found(peers.insert(id, peer), found.push((id, peer))) == without_found(
            peers,
            found,
        ),
{
    reveal(found_once);
    reveal(without_found);
    let more = found.push((id, peer));
    assert forall|i: int| 0 <= i < more.len() implies peers.insert(id, peer).contains_key(
        (#[trigger] more[i]).0,
    ) && peers.insert(id, peer)[more[i].0] == more[i].1 by {
        if i < found.len() {
            assert(more[i] == found[i]);
        }
    }
    assert forall|i: int, j: int| 0 <= i < j < more.len() implies (#[trigger] more[i]).0 != (
    #[trigger] more[j]).0 by {
        assert(more[i] == found[i]);
        if j < found.len() {
            assert(more[j] == found[j]);
        }
    }
    assert forall|k: IngressId| #[trigger] is_among(more, k) == (k == id || is_among(found, k)) by {
        assert(more[found.len() as int].0 == id);
        if is_among(found, k) {
            let i = choose|i: int| 0 <= i < found.len() && (#[trigger] found[i]).0 == k;
            assert(more[i].0 == k);
        }
        if is_among(more, k) && k != id {
            let i = choose|i: int| 0 <= i < more.len() && (#[trigger] more[i]).0 == k;
            assert(found[i].0 == k);
        }
    }
    assert(without_found(peers.insert(id, peer), more) =~= without_found(peers, found));
}

//------------ The walk ------------------------------------------------------

/// The walk over the table that sends the routes of all peers.
#[derive(Debug)]
pub struct DumpWalk {
    aggregator: RouteAggregator,
    routes_per_ingress: HashMap<IngressId, usize>,
    skipped_unknown: HashMap<IngressId, usize>,
    // The peers that were found on the way.
    discovered: Vec<(IngressId, PeerInfo)>,
}

/// What a stretch of a walk did, for these peers and items: each message is
/// what an item becomes; no pack of a peer comes before the peer's Peer Up;
/// every route that is sent was waiting or is one of the stretch, and as long
/// as the consumer is there none of them is lost.
pub open spec fn walked(
    before: DumpWalk,
    after: DumpWalk,
    logs: (Seq<(Seq<u8>, nat)>, Seq<(Seq<u8>, nat)>),
    cx: EmitContext,
    added: Seq<BufferedRoute>,
    open: bool,
    peers: Map<IngressId, PeerInfo>,
    items: Seq<DumpItem>,
) -> bool {
    &&& before.peers().submap_of(peers)
    &&& open ==> after.peers() == peers
    &&& forall|id: IngressId| #[trigger]
        peers.contains_key(id) ==> before.peers().contains_key(id) || (is_find(id, peers[id], cx)
            && announces(items, id))
    &&& walk_log(logs.0, logs.1, peers, items)
    &&& peer_ups_first(before.peers(), items)
    &&& forall|r: BufferedRoute|
        #![trigger after.pending(r)]
        before.pending(r) + added_count(added, r) >= after.pending(r) + items_count(items, r)
    &&& open ==> forall|r: BufferedRoute|
        #![trigger after.pending(r)]
        before.pending(r) + added_count(added, r) == after.pending(r) + items_count(items, r)
}

/// Whether two aggregators differ in the known peers alone, of which the second
/// has one more.
pub open spec fn knows_one_more(
    before: RouteAggregator,
    after: RouteAggregator,
    id: IngressId,
    peer: PeerInfo,
) -> bool {
    &&& after.peers() == before.peers().insert(id, peer)
    &&& after.open() == before.open()
    &&& after.buffered() == before.buffered()
    &&& after.budget() == before.budget()
    &&& after.counters() == before.counters()
}

/// What the visit of one stored route did, for these items. The route of a peer
/// is packed. A peer that is found on the way becomes known, and its Peer Up
/// goes out, before its route is packed. Other routes are left out.
pub open spec fn route_visited(
    before: DumpWalk,
    after: DumpWalk,
    prefix: Prefix,
    record: RouteRecord,
    cx: EmitContext,
    open: bool,
    items: Seq<DumpItem>,
) -> bool {
    let id = record.multi_uniq_id;
    if before.peers().contains_key(id) {
        exists|packs: Seq<Pack>|
            items == #[trigger] as_items(packs) && packed_by_add(
                before.packer(),
                after.packer(),
                id,
                prefix,
                record.meta@,
                packs,
                open,
            )
    } else if is_real_peer(cx.0, id) {
        ||| !open && items == seq![DumpItem::PeerUp(id)] && after.packer() == before.packer()
        ||| exists|known: RouteAggregator, packs: Seq<Pack>|
            {
                &&& items == seq![DumpItem::PeerUp(id)] + as_items(packs)
                &&& known.peers().contains_key(id) && is_find(id, known.peers()[id], cx)
                &&& knows_one_more(before.packer(), known, id, known.peers()[id])
                &&& #[trigger] packed_by_add(
                    known,
                    after.packer(),
                    id,
                    prefix,
                    record.meta@,
                    packs,
                    open,
                )
            }
    } else {
        open && items.len() == 0 && after.packer() == before.packer()
    }
}

/// The items of several visits, in a row.
pub open spec fn joined(parts: Seq<Seq<DumpItem>>) -> Seq<DumpItem>
    decreases parts.len(),
{
    if parts.len() == 0 {
        Seq::empty()
    } else {
        joined(parts.drop_last()) + parts.last()
    }
}

/// What the visits of the routes to a prefix did, one after the other: each
/// leads from one state of the walk to the next. All are visited if the
/// consumer is still there.
pub open spec fn routes_visited(
    before: DumpWalk,
    after: DumpWalk,
    prefix: Prefix,
    records: Seq<RouteRecord>,
    cx: EmitContext,
    open: bool,
    items: Seq<DumpItem>,
) -> bool {
    exists|states: Seq<DumpWalk>, parts: Seq<Seq<DumpItem>>| #[trigger]
        visited_in_turn(before, after, prefix, records, cx, open, states, parts) && items == joined(
            parts,
        )
}

/// Whether these are the states of a walk and the items handed over between
/// them.
pub open spec fn visited_in_turn(
    before: DumpWalk,
    after: DumpWalk,
    prefix: Prefix,
    records: Seq<RouteRecord>,
    cx: EmitContext,
    open: bool,
    states: Seq<DumpWalk>,
    parts: Seq<Seq<DumpItem>>,
) -> bool {
    &&& states.len() == parts.len() + 1
    &&& parts.len() <= records.len()
    &&& open ==> parts.len() == records.len()
    &&& !open ==> parts.len() > 0
    &&& states[0] == before
    &&& states.last() == after
    &&& forall|i: int|
        0 <= i < parts.len() ==> route_visited(
            states[i],
            states[i + 1],
            prefix,
            records[i],
            cx,
            open || i + 1 < parts.len(),
            #[trigger] parts[i],
        )
}

/// One more visit.
proof fn visited_one_more(
    before: DumpWalk,
    mid: DumpWalk,
    after: DumpWalk,
    prefix: Prefix,
    records: Seq<RouteRecord>,
    n: int,
    cx: EmitContext,
    open: bool,
    states: Seq<DumpWalk>,
    parts: Seq<Seq<DumpItem>>,
    part: Seq<DumpItem>,
)
    requires
        0 <= n < records.len(),
        visited_in_turn(before, mid, prefix, records.take(n), cx, true, states, parts),
        route_visited(mid, after, prefix, records[n], cx, open, part),
    ensures
        visited_in_turn(
            before,
            after,
            prefix,
            records.take(n + 1),
            cx,
            open,
            states.push(after),
            parts.push(part),
        ),
        !open ==> visited_in_turn(
            before,
            after,
            prefix,
            records,
            cx,
            open,
            states.push(after),
            parts.push(part),
        ),
        joined(parts.push(part)) == joined(parts) + part,
{
    let s = states.push(after);
    let p = parts.push(part);
    assert(p.drop_last() =~= parts);
    assert forall|i: int| 0 <= i < p.len() implies route_visited(
        s[i],
        s[i + 1],
        prefix,
        records[i],
        cx,
        open || i + 1 < p.len(),
        #[trigger] p[i],
    ) by {
        if i < parts.len() {
            assert(p[i] == parts[i]);
            assert(s[i] == states[i] && s[i + 1] == states[i + 1]);
            assert(records.take(n)[i] == records[i]);
            assert(route_visited(
                states[i],
                states[i + 1],
                prefix,
                records.take(n)[i],
                cx,
                true,
                parts[i],
            ));
        }
    }
    assert forall|i: int| 0 <= i < p.len() implies records.take(n + 1)[i] == records[i] by {}
}

/// What the end of a walk did: no peer is found any more, whatever the register
/// holds, and no route is added.
pub open spec fn walk_ended(
    before: DumpWalk,
    after: DumpWalk,
    logs: (Seq<(Seq<u8>, nat)>, Seq<(Seq<u8>, nat)>),
    open: bool,
    items: Seq<DumpItem>,
) -> bool {
    forall|cx: EmitContext| #[trigger]
        walked(before, after, logs, cx, Seq::empty(), open, before.peers(), items)
}

proof fn added_chain(a: Seq<BufferedRoute>, b: Seq<BufferedRoute>, r: BufferedRoute)
    ensures
        added_count(a + b, r) == added_count(a, r) + added_count(b, r),
    decreases b.len(),
{
    if b.len() == 0 {
        assert(a + b =~= a);
    } else {
        assert((a + b).drop_last() =~= a + b.drop_last());
        added_chain(a, b.drop_last(), r);
    }
}

/// Two stretches of a walk make one.
pub proof fn walk_goes_on(
    first: DumpWalk,
    second: DumpWalk,
    third: DumpWalk,
    log1: Seq<(Seq<u8>, nat)>,
    log2: Seq<(Seq<u8>, nat)>,
    log3: Seq<(Seq<u8>, nat)>,
    cx: EmitContext,
    added1: Seq<BufferedRoute>,
    added2: Seq<BufferedRoute>,
    open: bool,
    peers1: Map<IngressId, PeerInfo>,
    peers2: Map<IngressId, PeerInfo>,
    items1: Seq<DumpItem>,
    items2: Seq<DumpItem>,
)
    requires
        walked(first, second, (log1, log2), cx, added1, true, peers1, items1),
        walked(second, third, (log2, log3), cx, added2, open, peers2, items2),
    ensures
        walked(
            first,
            third,
            (log1, log3),
            cx,
            added1 + added2,
            open,
            peers2,
            items1 + items2,
        ),
{
    walk_log_chain(log1, log2, log3, peers1, peers2, items1, items2);
    peer_ups_first_chain(first.peers(), peers1, items1, items2);
    let items = items1 + items2;
    let added = added1 + added2;
    assert forall|id: IngressId| #[trigger] peers2.contains_key(id) implies first.peers().contains_key(
        id,
    ) || (is_find(id, peers2[id], cx) && announces(items, id)) by {
        if !first.peers().contains_key(id) {
            if peers1.contains_key(id) {
                let j = choose|j: int|
                    0 <= j < items1.len() && #[trigger] items1[j] == DumpItem::PeerUp(id);
                assert(items[j] == DumpItem::PeerUp(id));
            } else {
                let j = choose|j: int|
                    0 <= j < items2.len() && #[trigger] items2[j] == DumpItem::PeerUp(id);
                assert(items[items1.len() + j] == DumpItem::PeerUp(id));
            }
        }
    }
    assert forall|r: BufferedRoute|
        #![trigger third.pending(r)]
        first.pending(r) + added_count(added, r) >= third.pending(r) + items_count(items, r) by {
        added_chain(added1, added2, r);
        items_count_chain(items1, items2, r);
        assert(first.pending(r) + added_count(added1, r) == second.pending(r) + items_count(
            items1,
            r,
        ));
    }
    if open {
        assert forall|r: BufferedRoute|
            #![trigger third.pending(r)]
            first.pending(r) + added_count(added, r) == third.pending(r) + items_count(
                items,
                r,
            ) by {
            added_chain(added1, added2, r);
            items_count_chain(items1, items2, r);
            assert(first.pending(r) + added_count(added1, r) == second.pending(r) + items_count(
                items1,
                r,
            ));
        }
    }
    assert(first.peers().submap_of(peers2)) by {
        assert forall|k: IngressId| #[trigger]
            first.peers().dom().contains(k) implies #[trigger] peers2.dom().contains(k)
            && first.peers()[k] == peers2[k] by {
            assert(peers1.dom().contains(k));
            assert(peers2.dom().contains(k));
        }
    }
}

impl DumpWalk {
    /// The peers that routes are attributed to.
    pub closed spec fn peers(&self) -> Map<IngressId, PeerInfo> {
        self.aggregator.peers()
    }

    /// How often a route waits to be sent.
    pub closed spec fn pending(&self, r: BufferedRoute) -> nat {
        self.aggregator.pending(r)
    }

    /// What packs the routes.
    pub closed spec fn packer(&self) -> RouteAggregator {
        self.aggregator
    }

    /// The number of routes seen of a source that is a peer.
    pub closed spec fn routes_of(&self, id: IngressId) -> nat {
        counted(self.routes_per_ingress@, id)
    }

    /// The number of routes seen of a source that is none.
    pub closed spec fn skipped_of(&self, id: IngressId) -> nat {
        counted(self.skipped_unknown@, id)
    }

    /// The peers that were found on the way, in order.
    pub closed spec fn found(&self) -> Seq<(IngressId, PeerInfo)> {
        self.discovered@
    }

    /// How many groups were opened, and how many the budget forced out.
    pub closed spec fn counters(&self) -> (nat, nat) {
        self.aggregator.counters()
    }

    /// Whether a peer was found on the way.
    pub open spec fn was_found(&self, id: IngressId) -> bool {
        is_among(self.found(), id)
    }

    /// The peers that the walk started with.
    pub open spec fn listed(&self) -> Map<IngressId, PeerInfo> {
        without_found(self.peers(), self.found())
    }

    /// The aggregator is in order; each peer that was found is one that routes
    /// are attributed to, and was found once.
    pub closed spec fn wf(&self) -> bool {
        &&& self.aggregator.wf()
        &&& found_once(self.peers(), self.found())
    }

    /// The peers are those that the walk started with and those that were found
    /// on the way, with what was found.
    pub proof fn peers_are_listed_or_found(&self)
        requires
            self.wf(),
        ensures
            self.listed().submap_of(self.peers()),
            forall|id: IngressId| #[trigger]
                self.peers().contains_key(id) ==> self.listed().contains_key(id) || self.was_found(
                    id,
                ),
            forall|i: int|
                0 <= i < self.found().len() ==> self.peers().contains_key(
                    (#[trigger] self.found()[i]).0,
                ) && self.peers()[self.found()[i].0] == self.found()[i].1
                    && !self.listed().contains_key(self.found()[i].0),
    {
        reveal(found_once);
        reveal(without_found);
        assert forall|i: int| 0 <= i < self.found().len() implies self.peers().contains_key(
            (#[trigger] self.found()[i]).0,
        ) && self.peers()[self.found()[i].0] == self.found()[i].1 && !self.listed().contains_key(
            self.found()[i].0,
        ) by {
            assert(is_among(self.found(), self.found()[i].0));
        }
    }

    /// More routes can be added.
    pub closed spec fn in_budget(&self) -> bool {
        self.aggregator.buffered() <= self.aggregator.budget()
    }

    /// A walk that starts with these peers.
    pub fn new(peer_info: HashMap<IngressId, PeerInfo>) -> (walk: Self)
        ensures
            walk.wf(),
            walk.in_budget(),
            walk.peers() == peer_info@,
            walk.listed() == peer_info@,
            walk.found() == Seq::<(IngressId, PeerInfo)>::empty(),
            forall|r: BufferedRoute| #[trigger] walk.pending(r) == 0,
            forall|id: IngressId| #[trigger] walk.routes_of(id) == 0,
            forall|id: IngressId| #[trigger] walk.skipped_of(id) == 0,
    {
        let walk = DumpWalk {
            aggregator: RouteAggregator::new(DUMP_AGGREGATOR_MAX_BYTES, peer_info),
            routes_per_ingress: HashMap::new(),
            skipped_unknown: HashMap::new(),
            discovered: Vec::new(),
        };
        proof {
            reveal(found_once);
            reveal(without_found);
            assert(walk.listed() =~= peer_info@);
        }
        walk
    }

    /// Makes a peer known that has active routes but was not listed, and hands
    /// over its Peer Up.
    fn discover<S: MessageSink>(
        &mut self,
        ingress_id: IngressId,
        info: &IngressInfo,
        ingress_register: &Register,
        forward_router_info: bool,
        fan_in_peer_distinguisher: FanInPeerDistinguisher,
        sink: &mut S,
    ) -> (res: (bool, Ghost<PeerInfo>))
        requires
            old(self).wf(),
            old(self).in_budget(),
            !old(self).peers().contains_key(ingress_id),
        ensures
            final(self).wf(),
            final(self).in_budget(),
            emitted(
                res.1@,
                *info,
                (ingress_register@, forward_router_info, fan_in_peer_distinguisher),
            ),
            final(self).peers() == if res.0 {
                old(self).peers().insert(ingress_id, res.1@)
            } else {
                old(self).peers()
            },
            final(self).found() == if res.0 {
                old(self).found().push((ingress_id, res.1@))
            } else {
                old(self).found()
            },
            final(self).listed() == old(self).listed(),
            res.0 ==> knows_one_more(
                old(self).packer(),
                final(self).packer(),
                ingress_id,
                res.1@,
            ),
            !res.0 ==> final(self).packer() == old(self).packer(),
            final(self).routes_per_ingress == old(self).routes_per_ingress,
            final(self).skipped_unknown == old(self).skipped_unknown,
            forall|r: BufferedRoute| #[trigger] final(self).pending(r) == old(self).pending(r),
            walk_log(
                old(sink).handed(),
                final(sink).handed(),
                old(self).peers().insert(ingress_id, res.1@),
                seq![DumpItem::PeerUp(ingress_id)],
            ),
            answered(old(sink).answers(), final(sink).answers(), 1, res.0),
    {
        let peer = build_peer_info_for_emit(
            info,
            ingress_register,
            forward_router_info,
            fan_in_peer_distinguisher,
        );
        let peer_up = build_peer_up(&peer, false);
        assert(is_found_peer_up(peer_up@, peer)) by {
            reveal(is_found_peer_up);
        }
        let open = sink.deliver(peer_up, 0);
        proof {
            let replies = old(sink).answers();
            answered_nothing(replies);
            answered_one_more(replies, replies, 0, open);
        }
        assert(sink.handed().take(old(sink).handed().len() as int) =~= old(sink).handed());
        let ghost said = peer;
        if open {
            self.aggregator.insert_peer(ingress_id, peer.clone());
            self.discovered.push((ingress_id, peer));
            proof {
                find_one(old(self).peers(), old(self).found(), ingress_id, said);
            }
        }
        (open, Ghost(said))
    }
}

/// Whether a source of the register is a peer whose routes are dumped.
fn real_peer(info: &IngressInfo) -> (yes: bool)
    ensures
        forall|sources: Map<IngressId, IngressInfo>, id: IngressId|
            sources.contains_key(id) && sources[id] == *info ==> yes == #[trigger] is_real_peer(
                sources,
                id,
            ),
{
    match info.ingress_type {
        Some(IngressType::BgpViaBmp) => true,
        Some(IngressType::Bgp) => true,
        Some(IngressType::Mrt) => true,
        _ => false,
    }
}

/// A stretch of a walk in which nothing happens.
proof fn walked_nowhere(
    walk: DumpWalk,
    after: DumpWalk,
    log: Seq<(Seq<u8>, nat)>,
    cx: EmitContext,
)
    requires
        after.peers() == walk.peers(),
        forall|r: BufferedRoute| #[trigger] after.pending(r) == walk.pending(r),
    ensures
        walked(
            walk,
            after,
            (log, log),
            cx,
            Seq::empty(),
            true,
            walk.peers(),
            Seq::empty(),
        ),
{
    assert(log.take(log.len() as int) =~= log);
}

impl DumpWalk {
    /// Adds the route of a known peer.
    fn add_route<S: MessageSink>(
        &mut self,
        prefix: Prefix,
        record: &RouteRecord,
        Ghost(cx): Ghost<EmitContext>,
        sink: &mut S,
    ) -> (res: (bool, Ghost<Seq<DumpItem>>))
        requires
            old(self).wf(),
            old(self).in_budget(),
            old(self).peers().contains_key(record.multi_uniq_id),
        ensures
            final(self).wf(),
            res.0 ==> final(self).in_budget(),
            final(self).peers() == old(self).peers(),
            final(self).found() == old(self).found(),
            exists|packs: Seq<Pack>|
                res.1@ == #[trigger] as_items(packs) && packed_by_add(
                    old(self).packer(),
                    final(self).packer(),
                    record.multi_uniq_id,
                    prefix,
                    record.meta@,
                    packs,
                    res.0,
                ),
            forall|id: IngressId| #[trigger] final(self).skipped_of(id) == old(self).skipped_of(id),
            forall|id: IngressId| #[trigger]
                final(self).routes_of(id) == if id == record.multi_uniq_id {
                    capped(old(self).routes_of(id) + 1)
                } else {
                    old(self).routes_of(id)
                },
            walked(
                *old(self),
                *final(self),
                (old(sink).handed(), final(sink).handed()),
                cx,
                if route_fits(prefix, record.meta@) {
                    seq![
                        BufferedRoute {
                            ingress_id: record.multi_uniq_id,
                            prefix,
                            attributes: attribute_octets(record.meta@),
                        },
                    ]
                } else {
                    Seq::empty()
                },
                res.0,
                old(self).peers(),
                res.1@,
            ),
            answered(old(sink).answers(), final(sink).answers(), res.1@.len(), res.0),
    {
        let ghost log = sink.handed();
        let ghost before = self.aggregator;
        bump(&mut self.routes_per_ingress, record.multi_uniq_id);
        let open = self.aggregator.add(record.multi_uniq_id, prefix, &record.meta, sink);
        let ghost route = BufferedRoute {
            ingress_id: record.multi_uniq_id,
            prefix,
            attributes: attribute_octets(record.meta@),
        };
        let ghost added = if route_is_sent(
            before.peers(),
            record.multi_uniq_id,
            prefix,
            record.meta@,
        ) {
            seq![route]
        } else {
            Seq::empty()
        };
        let ghost packs = choose|packs: Seq<Pack>|
            #![trigger log_gained(log, sink.handed(), before.peers(), packs)]
            log_gained(log, sink.handed(), before.peers(), packs) && answered(
                old(sink).answers(),
                sink.answers(),
                packs.len(),
                open,
            ) && packed_by_add(
                before,
                self.aggregator,
                record.multi_uniq_id,
                prefix,
                record.meta@,
                packs,
                open,
            ) && nothing_invented(before, added, self.aggregator, packs) && (open ==> nothing_lost(
                before,
                added,
                self.aggregator,
                packs,
            ));
        let ghost items = as_items(packs);
        proof {
            as_items_facts(log, sink.handed(), before.peers(), packs);
            assert forall|r: BufferedRoute|
                #![trigger self.pending(r)]
                (old(self).pending(r) + added_count(added, r) >= self.pending(r) + items_count(
                    items,
                    r,
                )) && (open ==> old(self).pending(r) + added_count(added, r) == self.pending(r)
                    + items_count(items, r)) by {
                assert(items_count(items, r) == handed_count(packs, r));
                assert(self.aggregator.pending(r) == self.pending(r));
            }
            assert(peer_ups_first(old(self).peers(), items)) by {
                assert forall|i: int|
                    #![trigger items[i]]
                    0 <= i < items.len() implies match items[i] {
                    DumpItem::Routes(pack) => old(self).peers().contains_key(pack.ingress_id)
                        || announces(items.take(i), pack.ingress_id),
                    DumpItem::PeerUp(_) => true,
                } by {
                    assert(old(self).peers().contains_key(packs[i].ingress_id));
                }
            }
        }
        (open, Ghost(items))
    }

    /// Visits one stored route.
    fn visit_record<S: MessageSink>(
        &mut self,
        prefix: Prefix,
        record: &RouteRecord,
        ingress_register: &Register,
        forward_router_info: bool,
        fan_in_peer_distinguisher: FanInPeerDistinguisher,
        sink: &mut S,
    ) -> (res: (bool, Ghost<Map<IngressId, PeerInfo>>, Ghost<Seq<DumpItem>>))
        requires
            old(self).wf(),
            old(self).in_budget(),
        ensures
            final(self).wf(),
            final(self).listed() == old(self).listed(),
            res.0 ==> final(self).in_budget(),
            route_visited(
                *old(self),
                *final(self),
                prefix,
                *record,
                (ingress_register@, forward_router_info, fan_in_peer_distinguisher),
                res.0,
                res.2@,
            ),
            walked(
                *old(self),
                *final(self),
                (old(sink).handed(), final(sink).handed()),
                (ingress_register@, forward_router_info, fan_in_peer_distinguisher),
                sent_routes(old(self).peers(), ingress_register@, prefix, seq![*record]),
                res.0,
                res.1@,
                res.2@,
            ),
            answered(old(sink).answers(), final(sink).answers(), res.2@.len(), res.0),
            res.0 ==> forall|id: IngressId|
                #![trigger final(self).routes_of(id)]
                #![trigger final(self).skipped_of(id)]
                {
                    let peer = old(self).peers().contains_key(id) || is_real_peer(
                        ingress_register@,
                        id,
                    );
                    let n = if id == record.multi_uniq_id {
                        1nat
                    } else {
                        0nat
                    };
                    &&& final(self).routes_of(id) == capped(
                        old(self).routes_of(id) + if peer {
                            n
                        } else {
                            0
                        },
                    )
                    &&& final(self).skipped_of(id) == capped(
                        old(self).skipped_of(id) + if peer {
                            0
                        } else {
                            n
                        },
                    )
                },
    {
        let ingress_id: IngressId = record.multi_uniq_id;
        let ghost log = sink.handed();
        let ghost start = *self;
        let ghost cx = (ingress_register@, forward_router_info, fan_in_peer_distinguisher);
        let ghost none = Seq::<BufferedRoute>::empty();
        proof {
            sent_one(self.peers(), cx.0, prefix, *record);
            counts_are_capped(*self);
        }
        if self.aggregator.has_peer(ingress_id) {
            let (open, Ghost(items)) = self.add_route(prefix, record, Ghost(cx), sink);
            return (open, Ghost(start.peers()), Ghost(items));
        }
        let found = match ingress_register.get(ingress_id) {
            Some(info) => if real_peer(info) {
                Some(info)
            } else {
                None
            },
            None => None,
        };
        let info = match found {
            Some(info) => info,
            None => {
                bump(&mut self.skipped_unknown, ingress_id);
                proof {
                    walked_nowhere(start, *self, log, cx);
                    answered_nothing(sink.answers());
                }
                return (true, Ghost(start.peers()), Ghost(Seq::empty()));
            },
        };
        let (open, Ghost(peer)) = self.discover(
            ingress_id,
            info,
            ingress_register,
            forward_router_info,
            fan_in_peer_distinguisher,
            sink,
        );
        let ghost mid = *self;
        let ghost mid_log = sink.handed();
        let ghost replies = sink.answers();
        let ghost peers = start.peers().insert(ingress_id, peer);
        let ghost up = seq![DumpItem::PeerUp(ingress_id)];
        proof {
            assert(up[0] == DumpItem::PeerUp(ingress_id));
            assert(announces(up, ingress_id));
            peer_up_holds_no_route(ingress_id);
            assert(walked(start, mid, (log, mid_log), cx, none, open, peers, up));
        }
        if !open {
            proof {
                assert forall|r: BufferedRoute|
                    #![trigger self.pending(r)]
                    start.pending(r) + added_count(
                        sent_routes(start.peers(), cx.0, prefix, seq![*record]),
                        r,
                    ) >= self.pending(r) + items_count(up, r) by {
                    assert(mid.pending(r) == start.pending(r));
                }
            }
            return (false, Ghost(peers), Ghost(up));
        }
        let (open, Ghost(items)) = self.add_route(prefix, record, Ghost(cx), sink);
        proof {
            let added = if route_fits(prefix, record.meta@) {
                seq![
                    BufferedRoute {
                        ingress_id,
                        prefix,
                        attributes: attribute_octets(record.meta@),
                    },
                ]
            } else {
                Seq::empty()
            };
            walk_goes_on(
                start,
                mid,
                *self,
                log,
                mid_log,
                sink.handed(),
                cx,
                none,
                added,
                open,
                peers,
                peers,
                up,
                items,
            );
            assert(none + added =~= added);
            answered_chain(
                old(sink).answers(),
                replies,
                sink.answers(),
                1,
                items.len(),
                open,
            );
        }
        (open, Ghost(peers), Ghost(up + items))
    }
}

proof fn peer_up_holds_no_route(id: IngressId)
    ensures
        forall|r: BufferedRoute| #[trigger] items_count(seq![DumpItem::PeerUp(id)], r) == 0,
{
    reveal_with_fuel(items_count, 2);
    assert(seq![DumpItem::PeerUp(id)].drop_last() =~= Seq::empty());
}

proof fn counts_are_capped(walk: DumpWalk)
    ensures
        forall|id: IngressId| #[trigger] walk.routes_of(id) == capped(walk.routes_of(id)),
        forall|id: IngressId| #[trigger] walk.skipped_of(id) == capped(walk.skipped_of(id)),
{
}

proof fn sent_one(
    peers: Map<IngressId, PeerInfo>,
    sources: Map<IngressId, IngressInfo>,
    prefix: Prefix,
    record: RouteRecord,
)
    ensures
        sent_routes(peers, sources, prefix, seq![record]) == if (peers.contains_key(
            record.multi_uniq_id,
        ) || is_real_peer(sources, record.multi_uniq_id)) && route_fits(prefix, record.meta@) {
            seq![
                BufferedRoute {
                    ingress_id: record.multi_uniq_id,
                    prefix,
                    attributes: attribute_octets(record.meta@),
                },
            ]
        } else {
            Seq::empty()
        },
{
    reveal_with_fuel(sent_routes, 2);
    assert(seq![record].drop_last() =~= Seq::empty());
    let r = BufferedRoute {
        ingress_id: record.multi_uniq_id,
        prefix,
        attributes: attribute_octets(record.meta@),
    };
    assert(Seq::empty().push(r) =~= seq![r]);
}

proof fn sent_routes_split(
    peers: Map<IngressId, PeerInfo>,
    now: Map<IngressId, PeerInfo>,
    sources: Map<IngressId, IngressInfo>,
    prefix: Prefix,
    records: Seq<RouteRecord>,
    n: int,
)
    requires
        0 <= n < records.len(),
        peers.submap_of(now),
        forall|id: IngressId| #[trigger]
            now.contains_key(id) ==> peers.contains_key(id) || is_real_peer(sources, id),
    ensures
        sent_routes(peers, sources, prefix, records.take(n + 1)) == sent_routes(
            peers,
            sources,
            prefix,
            records.take(n),
        ) + sent_routes(now, sources, prefix, seq![records[n]]),
{
    let t = records.take(n + 1);
    assert(t.drop_last() =~= records.take(n));
    sent_one(now, sources, prefix, records[n]);
    let id = records[n].multi_uniq_id;
    if peers.contains_key(id) {
        assert(peers.dom().contains(id) && now.dom().contains(id));
    }
    let r = BufferedRoute {
        ingress_id: id,
        prefix,
        attributes: attribute_octets(records[n].meta@),
    };
    let rest = sent_routes(peers, sources, prefix, records.take(n));
    assert(rest.push(r) =~= rest + seq![r]);
    assert(rest + Seq::empty() =~= rest);
}

impl DumpWalk {
    /// Visits the routes to one prefix, and hands over the messages that are
    /// complete. Returns false once the consumer is gone; the walk ends then.
    ///
    /// A peer that has routes but was not listed is looked up in the register.
    /// If it is a real peer, its Peer Up goes out before its routes; else its
    /// routes are counted and skipped.
    pub fn visit<S: MessageSink>(
        &mut self,
        pr: &PrefixRecord,
        ingress_register: &Register,
        forward_router_info: bool,
        fan_in_peer_distinguisher: FanInPeerDistinguisher,
        sink: &mut S,
    ) -> (open: bool)
        requires
            old(self).wf(),
            old(self).in_budget(),
        ensures
            final(self).wf(),
            final(self).listed() == old(self).listed(),
            open ==> final(self).in_budget(),
            exists|peers: Map<IngressId, PeerInfo>, items: Seq<DumpItem>|
                #[trigger] walked(
                    *old(self),
                    *final(self),
                    (old(sink).handed(), final(sink).handed()),
                    (ingress_register@, forward_router_info, fan_in_peer_distinguisher),
                    sent_routes(old(self).peers(), ingress_register@, pr.prefix, pr.meta@),
                    open,
                    peers,
                    items,
                ) && routes_visited(
                    *old(self),
                    *final(self),
                    pr.prefix,
                    pr.meta@,
                    (ingress_register@, forward_router_info, fan_in_peer_distinguisher),
                    open,
                    items,
                ) && answered(old(sink).answers(), final(sink).answers(), items.len(), open),
            open ==> visit_counted(*old(self), *final(self), ingress_register@, pr.meta@),
    {
        let ghost start = *self;
        let ghost log = sink.handed();
        let ghost cx = (ingress_register@, forward_router_info, fan_in_peer_distinguisher);
        let ghost records = pr.meta@;
        let ghost mut items: Seq<DumpItem> = Seq::empty();
        let ghost mut states: Seq<DumpWalk> = seq![start];
        let ghost mut parts: Seq<Seq<DumpItem>> = Seq::empty();
        let mut i: usize = 0;
        proof {
            walked_nowhere(start, *self, log, cx);
            answered_nothing(sink.answers());
            counts_are_capped(start);
            assert(records.take(0) =~= Seq::empty());
        }
        while i < pr.meta.len()
            invariant
                i <= pr.meta@.len(),
                records == pr.meta@,
                cx == (ingress_register@, forward_router_info, fan_in_peer_distinguisher),
                self.wf(),
                self.in_budget(),
                self.listed() == old(self).listed(),
                log == old(sink).handed(),
                start == *old(self),
                items == joined(parts),
                visited_in_turn(
                    start,
                    *self,
                    pr.prefix,
                    records.take(i as int),
                    cx,
                    true,
                    states,
                    parts,
                ),
                walked(
                    start,
                    *self,
                    (log, sink.handed()),
                    cx,
                    sent_routes(start.peers(), cx.0, pr.prefix, records.take(i as int)),
                    true,
                    self.peers(),
                    items,
                ),
                visit_counted(start, *self, cx.0, records.take(i as int)),
                answered(old(sink).answers(), sink.answers(), items.len(), true),
            decreases pr.meta@.len() - i,
        {
            let ghost mid = *self;
            let ghost mid_log = sink.handed();
            let ghost replies = sink.answers();
            let (open, Ghost(peers), Ghost(more)) = self.visit_record(
                pr.prefix,
                &pr.meta[i],
                ingress_register,
                forward_router_info,
                fan_in_peer_distinguisher,
                sink,
            );
            proof {
                let done = sent_routes(start.peers(), cx.0, pr.prefix, records.take(i as int));
                let step = sent_routes(mid.peers(), cx.0, pr.prefix, seq![records[i as int]]);
                sent_routes_split(
                    start.peers(),
                    mid.peers(),
                    cx.0,
                    pr.prefix,
                    records,
                    i as int,
                );
                walk_goes_on(
                    start,
                    mid,
                    *self,
                    log,
                    mid_log,
                    sink.handed(),
                    cx,
                    done,
                    step,
                    open,
                    mid.peers(),
                    peers,
                    items,
                    more,
                );
                visited_one_more(
                    start,
                    mid,
                    *self,
                    pr.prefix,
                    records,
                    i as int,
                    cx,
                    open,
                    states,
                    parts,
                    more,
                );
                answered_chain(
                    old(sink).answers(),
                    replies,
                    sink.answers(),
                    items.len(),
                    more.len(),
                    open,
                );
                states = states.push(*self);
                parts = parts.push(more);
                items = items + more;
                let t = records.take(i + 1);
                assert(t.drop_last() =~= records.take(i as int));
                if !open {
                    sent_routes_grow(
                        start,
                        *self,
                        (log, sink.handed()),
                        cx,
                        pr.prefix,
                        records,
                        i + 1,
                        peers,
                        items,
                    );
                } else {
                    assert forall|id: IngressId|
                        #![trigger self.routes_of(id)]
                        #![trigger self.skipped_of(id)]
                        ({
                            let peer = start.peers().contains_key(id) || is_real_peer(cx.0, id);
                            &&& self.routes_of(id) == capped(
                                start.routes_of(id) + if peer {
                                    tally(t, id)
                                } else {
                                    0
                                },
                            )
                            &&& self.skipped_of(id) == capped(
                                start.skipped_of(id) + if peer {
                                    0
                                } else {
                                    tally(t, id)
                                },
                            )
                        }) by {
                        assert(mid.routes_of(id) >= 0 && mid.skipped_of(id) >= 0);
                        if start.peers().contains_key(id) {
                            assert(start.peers().dom().contains(id) && mid.peers().dom().contains(
                                id,
                            ));
                        }
                        assert(mid.peers().contains_key(id) ==> start.peers().contains_key(id)
                            || is_real_peer(cx.0, id));
                    }
                }
            }
            if !open {
                return false;
            }
            i += 1;
        }
        assert(records.take(i as int) =~= records);
        assert(visited_in_turn(start, *self, pr.prefix, records, cx, true, states, parts));
        true
    }

    /// Ends the walk: hands over whatever still waits. Not called once the
    /// consumer is gone.
    pub fn finish<S: MessageSink>(&mut self, sink: &mut S) -> (open: bool)
        requires
            old(self).wf(),
        ensures
            final(self).wf(),
            final(self).peers() == old(self).peers(),
            final(self).listed() == old(self).listed(),
            final(self).found() == old(self).found(),
            final(self).counters() == old(self).counters(),
            forall|id: IngressId| #[trigger] final(self).routes_of(id) == old(self).routes_of(id),
            forall|id: IngressId| #[trigger] final(self).skipped_of(id) == old(self).skipped_of(id),
            forall|r: BufferedRoute| #[trigger] final(self).pending(r) == 0,
            exists|packs: Seq<Pack>|
                walk_ended(
                    *old(self),
                    *final(self),
                    (old(sink).handed(), final(sink).handed()),
                    open,
                    #[trigger] as_items(packs),
                ) && all_taken_out(old(self).packer().open(), packs, open) && answered(
                    old(sink).answers(),
                    final(sink).answers(),
                    packs.len(),
                    open,
                ),
    {
        let ghost before = self.aggregator;
        let ghost log = sink.handed();
        let open = self.aggregator.flush_all(sink);
        proof {
            let packs = choose|packs: Seq<Pack>|
                #![trigger log_gained(log, sink.handed(), before.peers(), packs)]
                log_gained(log, sink.handed(), before.peers(), packs) && answered(
                    old(sink).answers(),
                    sink.answers(),
                    packs.len(),
                    open,
                ) && all_taken_out(before.open(), packs, open) && nothing_invented(
                    before,
                    Seq::empty(),
                    self.aggregator,
                    packs,
                ) && (open ==> nothing_lost(before, Seq::empty(), self.aggregator, packs));
            let items = as_items(packs);
            as_items_facts(log, sink.handed(), before.peers(), packs);
            assert forall|r: BufferedRoute|
                #![trigger self.pending(r)]
                (old(self).pending(r) + added_count(Seq::empty(), r) >= self.pending(r)
                    + items_count(items, r)) && (open ==> old(self).pending(r) + added_count(
                    Seq::empty(),
                    r,
                ) == self.pending(r) + items_count(items, r)) by {
                assert(items_count(items, r) == handed_count(packs, r));
                assert(self.aggregator.pending(r) == self.pending(r));
            }
            assert forall|i: int|
                #![trigger items[i]]
                0 <= i < items.len() implies match items[i] {
                DumpItem::Routes(pack) => old(self).peers().contains_key(pack.ingress_id)
                    || announces(items.take(i), pack.ingress_id),
                DumpItem::PeerUp(_) => true,
            } by {
                assert(old(self).peers().contains_key(packs[i].ingress_id));
            }
            assert(walk_ended(*old(self), *self, (log, sink.handed()), open, items));
        }
        open
    }

    /// How many groups were opened, and how many the budget forced out.
    pub fn stats(&self) -> (s: (usize, usize))
        ensures
            s.0 == self.counters().0,
            s.1 == self.counters().1,
    {
        self.aggregator.stats()
    }

    /// The number of routes seen of a source that is a peer.
    pub fn routes_seen(&self, ingress_id: IngressId) -> (n: usize)
        ensures
            n == self.routes_of(ingress_id),
    {
        match self.routes_per_ingress.get(&ingress_id) {
            Some(n) => *n,
            None => 0,
        }
    }

    /// The number of routes seen of a source that is none, which were skipped.
    pub fn routes_skipped(&self, ingress_id: IngressId) -> (n: usize)
        ensures
            n == self.skipped_of(ingress_id),
    {
        match self.skipped_unknown.get(&ingress_id) {
            Some(n) => *n,
            None => 0,
        }
    }

    /// The peers that were found on the way, in order.
    pub fn discovered(&self) -> (found: &Vec<(IngressId, PeerInfo)>)
        ensures
            found@ == self.found(),
    {
        &self.discovered
    }
}

/// A stretch that broke off also sent no more than all routes of its prefix.
proof fn sent_routes_grow(
    start: DumpWalk,
    end: DumpWalk,
    logs: (Seq<(Seq<u8>, nat)>, Seq<(Seq<u8>, nat)>),
    cx: EmitContext,
    prefix: Prefix,
    records: Seq<RouteRecord>,
    n: int,
    peers: Map<IngressId, PeerInfo>,
    items: Seq<DumpItem>,
)
    requires
        0 <= n <= records.len(),
        walked(
            start,
            end,
            logs,
            cx,
            sent_routes(start.peers(), cx.0, prefix, records.take(n)),
            false,
            peers,
            items,
        ),
    ensures
        walked(
            start,
            end,
            logs,
            cx,
            sent_routes(start.peers(), cx.0, prefix, records),
            false,
            peers,
            items,
        ),
    decreases records.len() - n,
{
    if n == records.len() {
        assert(records.take(n) =~= records);
    } else {
        let few = sent_routes(start.peers(), cx.0, prefix, records.take(n));
        let many = sent_routes(start.peers(), cx.0, prefix, records.take(n + 1));
        assert(records.take(n + 1).drop_last() =~= records.take(n));
        assert forall|r: BufferedRoute| #[trigger] added_count(many, r) >= added_count(few, r) by {
            if many.len() > few.len() {
                assert(many.drop_last() =~= few);
            }
        }
        assert forall|r: BufferedRoute|
            #![trigger end.pending(r)]
            start.pending(r) + added_count(many, r) >= end.pending(r) + items_count(items, r) by {
            assert(added_count(many, r) >= added_count(few, r));
        }
        sent_routes_grow(start, end, logs, cx, prefix, records, n + 1, peers, items);
    }
}

/// Over a whole walk, from its start to the end of `finish`, each route of a
/// peer that fits a message is sent exactly as often as it was visited.
pub proof fn each_route_is_dumped_once(
    start: DumpWalk,
    end: DumpWalk,
    logs: (Seq<(Seq<u8>, nat)>, Seq<(Seq<u8>, nat)>),
    cx: EmitContext,
    added: Seq<BufferedRoute>,
    peers: Map<IngressId, PeerInfo>,
    items: Seq<DumpItem>,
)
    requires
        walked(start, end, logs, cx, added, true, peers, items),
        forall|r: BufferedRoute| #[trigger] start.pending(r) == 0,
        forall|r: BufferedRoute| #[trigger] end.pending(r) == 0,
    ensures
        forall|r: BufferedRoute| #[trigger] items_count(items, r) == added_count(added, r),
{
    assert forall|r: BufferedRoute| #[trigger] items_count(items, r) == added_count(added, r) by {
        assert(start.pending(r) + added_count(added, r) == end.pending(r) + items_count(items, r));
    }
}

//------------ The whole walk ------------------------------------------------

/// The routes of entries that reach the consumer.
pub open spec fn table_routes(
    peers: Map<IngressId, PeerInfo>,
    sources: Map<IngressId, IngressInfo>,
    all: Seq<(Prefix, Seq<RouteRecord>)>,
) -> Seq<BufferedRoute>
    decreases all.len(),
{
    if all.len() == 0 {
        Seq::empty()
    } else {
        table_routes(peers, sources, all.drop_last()) + sent_routes(
            peers,
            sources,
            all.last().0,
            all.last().1,
        )
    }
}

/// Whether these are the routes to a prefix that are not withdrawn.
pub open spec fn live_at(table: RouteTable, prefix: Prefix, records: Seq<RouteRecord>) -> bool {
    exists|all: Seq<RouteRecord>| #[trigger] listed_for(table, prefix, all) && records == live(all)
}

/// Whether entries are prefixes of a table, each once, with the routes to them
/// that are not withdrawn.
pub open spec fn are_live_entries(table: RouteTable, all: Seq<(Prefix, Seq<RouteRecord>)>) -> bool {
    &&& forall|i: int, j: int|
        0 <= i < j < all.len() ==> (#[trigger] all[i]).0 != (#[trigger] all[j]).0
    &&& forall|i: int| 0 <= i < all.len() ==> live_at(table, (#[trigger] all[i]).0, all[i].1)
}

/// Whether one of the entries is that of a prefix.
pub open spec fn has_entry(all: Seq<(Prefix, Seq<RouteRecord>)>, prefix: Prefix) -> bool {
    exists|i: int| 0 <= i < all.len() && (#[trigger] all[i]).0 == prefix
}

/// Whether every stored prefix with bits has an entry.
pub open spec fn covers_table(table: RouteTable, all: Seq<(Prefix, Seq<RouteRecord>)>) -> bool {
    forall|p: Prefix| #[trigger]
        has_entry(all, p) <==> is_stored(table.routes(), p) && p.len_spec() > 0
}

/// What a whole walk did, for these peers and items: each message is what an
/// item becomes; a peer was listed or found; no pack of a peer comes before the
/// peer's Peer Up unless the peer was listed; no route is sent more often than
/// it is stored and, as long as the consumer is there, none less often.
pub open spec fn table_walked(
    listed: Map<IngressId, PeerInfo>,
    logs: (Seq<(Seq<u8>, nat)>, Seq<(Seq<u8>, nat)>),
    cx: EmitContext,
    routes: Seq<BufferedRoute>,
    open: bool,
    peers: Map<IngressId, PeerInfo>,
    items: Seq<DumpItem>,
) -> bool {
    &&& listed.submap_of(peers)
    &&& forall|id: IngressId| #[trigger]
        peers.contains_key(id) ==> listed.contains_key(id) || (is_find(id, peers[id], cx)
            && announces(items, id))
    &&& walk_log(logs.0, logs.1, peers, items)
    &&& peer_ups_first(listed, items)
    &&& forall|r: BufferedRoute| #[trigger] items_count(items, r) <= added_count(routes, r)
    &&& open ==> forall|r: BufferedRoute| #[trigger]
        items_count(items, r) == added_count(routes, r)
}

/// The number of records of a source in entries.
pub open spec fn tally_all(all: Seq<(Prefix, Seq<RouteRecord>)>, id: IngressId) -> nat
    decreases all.len(),
{
    if all.len() == 0 {
        0
    } else {
        tally_all(all.drop_last(), id) + tally(all.last().1, id)
    }
}

/// Whether a walk counted the records of these entries: those of peers, and
/// those of other sources.
pub open spec fn counts_all(
    walk: DumpWalk,
    listed: Map<IngressId, PeerInfo>,
    sources: Map<IngressId, IngressInfo>,
    all: Seq<(Prefix, Seq<RouteRecord>)>,
) -> bool {
    forall|id: IngressId|
        #![trigger walk.routes_of(id)]
        #![trigger walk.skipped_of(id)]
        {
            let peer = listed.contains_key(id) || is_real_peer(sources, id);
            &&& walk.routes_of(id) == capped(
                if peer {
                    tally_all(all, id)
                } else {
                    0
                },
            )
            &&& walk.skipped_of(id) == capped(
                if peer {
                    0
                } else {
                    tally_all(all, id)
                },
            )
        }
}

/// Peers that were found on the way do not change which routes are sent.
proof fn sent_routes_alike(
    peers: Map<IngressId, PeerInfo>,
    now: Map<IngressId, PeerInfo>,
    sources: Map<IngressId, IngressInfo>,
    prefix: Prefix,
    records: Seq<RouteRecord>,
)
    requires
        peers.submap_of(now),
        forall|id: IngressId| #[trigger]
            now.contains_key(id) ==> peers.contains_key(id) || is_real_peer(sources, id),
    ensures
        sent_routes(now, sources, prefix, records) == sent_routes(peers, sources, prefix, records),
    decreases records.len(),
{
    if records.len() > 0 {
        sent_routes_alike(peers, now, sources, prefix, records.drop_last());
        let id = records.last().multi_uniq_id;
        if peers.contains_key(id) {
            assert(peers.dom().contains(id) && now.dom().contains(id));
        }
    }
}

/// How far a walk over the table has come, given what it started with.
#[verifier::opaque]
spec fn walk_so_far(
    start: DumpWalk,
    walk: DumpWalk,
    logs: (Seq<(Seq<u8>, nat)>, Seq<(Seq<u8>, nat)>),
    cx: EmitContext,
    all: Seq<(Prefix, Seq<RouteRecord>)>,
    items: Seq<DumpItem>,
) -> bool {
    &&& walk.wf()
    &&& walk.in_budget()
    &&& walk.listed() == start.listed()
    &&& walked(
        start,
        walk,
        logs,
        cx,
        table_routes(start.peers(), cx.0, all),
        true,
        walk.peers(),
        items,
    )
    &&& counts_all(walk, start.peers(), cx.0, all)
}

/// A walk over the table goes on to the next prefix.
proof fn walk_so_far_goes_on(
    start: DumpWalk,
    mid: DumpWalk,
    end: DumpWalk,
    logs: (Seq<(Seq<u8>, nat)>, Seq<(Seq<u8>, nat)>, Seq<(Seq<u8>, nat)>),
    cx: EmitContext,
    all: Seq<(Prefix, Seq<RouteRecord>)>,
    next: (Prefix, Seq<RouteRecord>),
    open: bool,
    peers: Map<IngressId, PeerInfo>,
    items: Seq<DumpItem>,
    more: Seq<DumpItem>,
)
    requires
        walk_so_far(start, mid, (logs.0, logs.1), cx, all, items),
        end.wf(),
        open ==> end.in_budget(),
        end.listed() == mid.listed(),
        walked(
            mid,
            end,
            (logs.1, logs.2),
            cx,
            sent_routes(mid.peers(), cx.0, next.0, next.1),
            open,
            peers,
            more,
        ),
        open ==> visit_counted(mid, end, cx.0, next.1),
    ensures
        walked(
            start,
            end,
            (logs.0, logs.2),
            cx,
            table_routes(start.peers(), cx.0, all.push(next)),
            open,
            peers,
            items + more,
        ),
        open ==> walk_so_far(start, end, (logs.0, logs.2), cx, all.push(next), items + more),
{
    reveal(walk_so_far);
    let now = all.push(next);
    assert(now.drop_last() =~= all);
    sent_routes_alike(start.peers(), mid.peers(), cx.0, next.0, next.1);
    walk_goes_on(
        start,
        mid,
        end,
        logs.0,
        logs.1,
        logs.2,
        cx,
        table_routes(start.peers(), cx.0, all),
        sent_routes(mid.peers(), cx.0, next.0, next.1),
        open,
        mid.peers(),
        peers,
        items,
        more,
    );
    if open {
        assert forall|id: IngressId|
            #![trigger end.routes_of(id)]
            #![trigger end.skipped_of(id)]
            ({
                let peer = start.peers().contains_key(id) || is_real_peer(cx.0, id);
                &&& end.routes_of(id) == capped(
                    if peer {
                        tally_all(now, id)
                    } else {
                        0
                    },
                )
                &&& end.skipped_of(id) == capped(
                    if peer {
                        0
                    } else {
                        tally_all(now, id)
                    },
                )
            }) by {
            assert(mid.routes_of(id) >= 0 && mid.skipped_of(id) >= 0);
            if start.peers().contains_key(id) {
                assert(start.peers().dom().contains(id) && mid.peers().dom().contains(id));
            }
            assert(mid.peers().contains_key(id) ==> start.peers().contains_key(id)
                || is_real_peer(cx.0, id));
        }
    }
}

/// The prefixes that a walk visits: those of the unicast table that have bits,
/// each once, the IPv4 prefixes first.
fn walk_prefixes(rib: &Rib) -> (prefixes: Vec<Prefix>)
    requires
        rib.wf(),
    ensures
        prefixes@.no_duplicates(),
        forall|p: Prefix| #[trigger]
            prefixes@.contains(p) <==> is_stored(rib.unicast_spec().routes(), p) && p.len_spec()
                > 0,
{
    let mut prefixes = rib.stored_prefixes(false, true);
    let mut more = rib.stored_prefixes(false, false);
    let ghost v4 = prefixes@;
    let ghost v6 = more@;
    prefixes.append(&mut more);
    proof {
        assert(prefixes@ =~= v4 + v6);
        assert forall|a: int, b: int|
            0 <= a < prefixes@.len() && 0 <= b < prefixes@.len() && a != b implies prefixes@[a]
            != prefixes@[b] by {
            if a < v4.len() && b >= v4.len() {
                assert(v4.contains(v4[a]) && v6.contains(v6[b - v4.len()]));
            }
            if b < v4.len() && a >= v4.len() {
                assert(v4.contains(v4[b]) && v6.contains(v6[a - v4.len()]));
            }
        }
        assert forall|p: Prefix| #[trigger]
            prefixes@.contains(p) <==> is_stored(rib.unicast_spec().routes(), p) && p.len_spec()
                > 0 by {
            assert(prefixes@.contains(p) <==> v4.contains(p) || v6.contains(p)) by {
                if v4.contains(p) {
                    let a = choose|a: int| 0 <= a < v4.len() && v4[a] == p;
                    assert(prefixes@[a] == p);
                }
                if v6.contains(p) {
                    let a = choose|a: int| 0 <= a < v6.len() && v6[a] == p;
                    assert(prefixes@[v4.len() + a] == p);
                }
                if prefixes@.contains(p) {
                    let a = choose|a: int| 0 <= a < prefixes@.len() && prefixes@[a] == p;
                    if a < v4.len() {
                        assert(v4[a] == p);
                    } else {
                        assert(v6[a - v4.len()] == p);
                    }
                }
            }
        }
    }
    prefixes
}

/// Whether a walk went over a table, for these entries, peers and items: all of
/// the table if the consumer is still there.
pub open spec fn went_over(
    table: RouteTable,
    listed: Map<IngressId, PeerInfo>,
    logs: (Seq<(Seq<u8>, nat)>, Seq<(Seq<u8>, nat)>),
    cx: EmitContext,
    all: Seq<(Prefix, Seq<RouteRecord>)>,
    open: bool,
    peers: Map<IngressId, PeerInfo>,
    items: Seq<DumpItem>,
) -> bool {
    &&& are_live_entries(table, all)
    &&& open ==> covers_table(table, all)
    &&& table_walked(listed, logs, cx, table_routes(listed, cx.0, all), open, peers, items)
}

/// A walk over the unicast table, prefix by prefix: the IPv4 prefixes first.
///
/// The table is read for one prefix at a time, so that the walk can let go of
/// it while the consumer reads.
#[derive(Debug)]
pub struct TableWalk {
    walk: DumpWalk,
    prefixes: Vec<Prefix>,
    // The number of prefixes visited.
    at: usize,
    over: bool,
}

/// What one step of a walk over the table did, for these records, peers and
/// items: it visited the next prefix with the routes to it that are not
/// withdrawn, or, after the last, handed over whatever still waited. The walk
/// is over then, and once the consumer is gone.
pub open spec fn table_step(
    before: TableWalk,
    after: TableWalk,
    table: RouteTable,
    logs: (Seq<(Seq<u8>, nat)>, Seq<(Seq<u8>, nat)>),
    cx: EmitContext,
    open: bool,
    records: Seq<RouteRecord>,
    peers: Map<IngressId, PeerInfo>,
    items: Seq<DumpItem>,
) -> bool {
    if before.is_over_spec() {
        open && items.len() == 0 && after == before && logs.1 == logs.0
    } else if before.visited() < before.prefixes_spec().len() {
        let prefix = before.prefixes_spec()[before.visited() as int];
        &&& live_at(table, prefix, records)
        &&& walked(
            before.walk_spec(),
            after.walk_spec(),
            logs,
            cx,
            sent_routes(before.walk_spec().peers(), cx.0, prefix, records),
            open,
            peers,
            items,
        )
        &&& routes_visited(
            before.walk_spec(),
            after.walk_spec(),
            prefix,
            records,
            cx,
            open,
            items,
        )
        &&& open ==> visit_counted(before.walk_spec(), after.walk_spec(), cx.0, records)
        &&& after.visited() == before.visited() + 1
        &&& after.is_over_spec() == !open
    } else {
        &&& after.walk_spec().peers() == before.walk_spec().peers()
        &&& after.walk_spec().found() == before.walk_spec().found()
        &&& forall|id: IngressId| #[trigger]
            after.walk_spec().routes_of(id) == before.walk_spec().routes_of(id)
        &&& forall|id: IngressId| #[trigger]
            after.walk_spec().skipped_of(id) == before.walk_spec().skipped_of(id)
        &&& forall|r: BufferedRoute| #[trigger] after.walk_spec().pending(r) == 0
        &&& exists|packs: Seq<Pack>|
            items == #[trigger] as_items(packs) && walk_ended(
                before.walk_spec(),
                after.walk_spec(),
                logs,
                open,
                items,
            ) && all_taken_out(before.walk_spec().packer().open(), packs, open)
        &&& after.visited() == before.visited()
        &&& after.is_over_spec()
    }
}

impl TableWalk {
    /// What packs and counts the routes.
    pub closed spec fn walk_spec(&self) -> DumpWalk {
        self.walk
    }

    /// The prefixes to be visited, in order.
    pub closed spec fn prefixes_spec(&self) -> Seq<Prefix> {
        self.prefixes@
    }

    /// The number of prefixes visited.
    pub closed spec fn visited(&self) -> nat {
        self.at as nat
    }

    /// Whether there is nothing left to do.
    pub closed spec fn is_over_spec(&self) -> bool {
        self.over
    }

    /// The routes are in order, and more can be added until the walk is over.
    pub open spec fn wf(&self) -> bool {
        &&& self.walk_spec().wf()
        &&& self.visited() <= self.prefixes_spec().len()
        &&& !self.is_over_spec() ==> self.walk_spec().in_budget()
    }

    /// A walk over the prefixes that the table holds now, each once, that
    /// starts with these peers.
    pub fn new(rib: &Rib, peer_info: HashMap<IngressId, PeerInfo>) -> (walk: Self)
        requires
            rib.wf(),
        ensures
            walk.wf(),
            !walk.is_over_spec(),
            walk.visited() == 0,
            walk.prefixes_spec().no_duplicates(),
            forall|p: Prefix| #[trigger]
                walk.prefixes_spec().contains(p) <==> is_stored(rib.unicast_spec().routes(), p)
                    && p.len_spec() > 0,
            walk.walk_spec().peers() == peer_info@,
            walk.walk_spec().listed() == peer_info@,
            walk.walk_spec().found() == Seq::<(IngressId, PeerInfo)>::empty(),
            forall|r: BufferedRoute| #[trigger] walk.walk_spec().pending(r) == 0,
            forall|id: IngressId| #[trigger] walk.walk_spec().routes_of(id) == 0,
            forall|id: IngressId| #[trigger] walk.walk_spec().skipped_of(id) == 0,
    {
        TableWalk {
            walk: DumpWalk::new(peer_info),
            prefixes: walk_prefixes(rib),
            at: 0,
            over: false,
        }
    }

    /// Takes the next step: visits the next prefix, or ends the walk after the
    /// last. Returns false once the consumer is gone.
    pub fn step<S: MessageSink>(
        &mut self,
        rib: &Rib,
        ingress_register: &Register,
        forward_router_info: bool,
        fan_in_peer_distinguisher: FanInPeerDistinguisher,
        sink: &mut S,
    ) -> (open: bool)
        requires
            old(self).wf(),
            rib.wf(),
        ensures
            final(self).wf(),
            final(self).prefixes_spec() == old(self).prefixes_spec(),
            final(self).walk_spec().listed() == old(self).walk_spec().listed(),
            exists|
                records: Seq<RouteRecord>,
                peers: Map<IngressId, PeerInfo>,
                items: Seq<DumpItem>,
            | #[trigger]
                table_step(
                    *old(self),
                    *final(self),
                    rib.unicast_spec(),
                    (old(sink).handed(), final(sink).handed()),
                    (ingress_register@, forward_router_info, fan_in_peer_distinguisher),
                    open,
                    records,
                    peers,
                    items,
                ) && answered(old(sink).answers(), final(sink).answers(), items.len(), open),
    {
        let ghost cx = (ingress_register@, forward_router_info, fan_in_peer_distinguisher);
        let ghost table = rib.unicast_spec();
        let ghost log = sink.handed();
        let ghost logs = (log, log);
        if self.over {
            proof {
                answered_nothing(sink.answers());
                assert(table_step(
                    *old(self),
                    *self,
                    table,
                    logs,
                    cx,
                    true,
                    Seq::empty(),
                    Map::empty(),
                    Seq::empty(),
                ));
            }
            return true;
        }
        if self.at < self.prefixes.len() {
            let prefix = self.prefixes[self.at];
            let meta = rib.live_records(false, prefix);
            assert(live_at(table, prefix, meta@));
            let pr = PrefixRecord { prefix, meta };
            let open = self.walk.visit(
                &pr,
                ingress_register,
                forward_router_info,
                fan_in_peer_distinguisher,
                sink,
            );
            self.at = self.at + 1;
            self.over = !open;
            proof {
                let logs = (log, sink.handed());
                let (peers, items) = choose|peers: Map<IngressId, PeerInfo>, items: Seq<DumpItem>|
                    #[trigger] walked(
                        old(self).walk,
                        self.walk,
                        logs,
                        cx,
                        sent_routes(old(self).walk.peers(), cx.0, pr.prefix, pr.meta@),
                        open,
                        peers,
                        items,
                    ) && routes_visited(
                        old(self).walk,
                        self.walk,
                        pr.prefix,
                        pr.meta@,
                        cx,
                        open,
                        items,
                    ) && answered(old(sink).answers(), sink.answers(), items.len(), open);
                assert(table_step(
                    *old(self),
                    *self,
                    table,
                    logs,
                    cx,
                    open,
                    pr.meta@,
                    peers,
                    items,
                ));
            }
            return open;
        }
        let open = self.walk.finish(sink);
        self.over = true;
        proof {
            let logs = (log, sink.handed());
            let packs = choose|packs: Seq<Pack>|
                walk_ended(old(self).walk, self.walk, logs, open, #[trigger] as_items(packs))
                    && all_taken_out(old(self).walk.packer().open(), packs, open) && answered(
                    old(sink).answers(),
                    sink.answers(),
                    packs.len(),
                    open,
                );
            assert(table_step(
                *old(self),
                *self,
                table,
                logs,
                cx,
                open,
                Seq::empty(),
                Map::empty(),
                as_items(packs),
            ));
        }
        open
    }

    /// Whether there is nothing left to do.
    pub fn is_over(&self) -> (over: bool)
        ensures
            over == self.is_over_spec(),
    {
        self.over
    }

    /// What the walk found and counted.
    pub fn into_walk(self) -> (walk: DumpWalk)
        ensures
            walk == self.walk_spec(),
    {
        self.walk
    }
}

/// Walks over the unicast table at once: hands over the messages with the
/// routes that are not withdrawn. Returns what the walk found, and false if the
/// consumer went away before the end.
pub fn walk_table<S: MessageSink>(
    rib: &Rib,
    peer_info: HashMap<IngressId, PeerInfo>,
    ingress_register: &Register,
    forward_router_info: bool,
    fan_in_peer_distinguisher: FanInPeerDistinguisher,
    sink: &mut S,
) -> (res: (DumpWalk, bool))
    requires
        rib.wf(),
    ensures
        res.0.wf(),
        res.0.listed() == peer_info@,
        exists|
            all: Seq<(Prefix, Seq<RouteRecord>)>,
            peers: Map<IngressId, PeerInfo>,
            items: Seq<DumpItem>,
        | #[trigger]
            went_over(
                rib.unicast_spec(),
                peer_info@,
                (old(sink).handed(), final(sink).handed()),
                (ingress_register@, forward_router_info, fan_in_peer_distinguisher),
                all,
                res.1,
                peers,
                items,
            ) && answered(old(sink).answers(), final(sink).answers(), items.len(), res.1) && (res.1
                ==> res.0.peers() == peers && counts_all(
                res.0,
                peer_info@,
                ingress_register@,
                all,
            )),
{
    let ghost cx = (ingress_register@, forward_router_info, fan_in_peer_distinguisher);
    let ghost table = rib.unicast_spec();
    let ghost log = sink.handed();
    let mut walk = TableWalk::new(rib, peer_info);
    let ghost start = walk.walk_spec();
    let ghost prefixes = walk.prefixes_spec();
    let ghost mut all: Seq<(Prefix, Seq<RouteRecord>)> = Seq::empty();
    let ghost mut items: Seq<DumpItem> = Seq::empty();
    proof {
        walk_starts(table, start, log, cx);
        answered_nothing(sink.answers());
    }
    loop
        invariant
            walk.wf(),
            !walk.is_over_spec(),
            walk.prefixes_spec() == prefixes,
            walk.walk_spec().listed() == peer_info@,
            rib.wf(),
            table == rib.unicast_spec(),
            cx == (ingress_register@, forward_router_info, fan_in_peer_distinguisher),
            start.peers() == peer_info@,
            forall|r: BufferedRoute| #[trigger] start.pending(r) == 0,
            prefixes.no_duplicates(),
            forall|p: Prefix| #[trigger]
                prefixes.contains(p) <==> is_stored(table.routes(), p) && p.len_spec() > 0,
            log == old(sink).handed(),
            walk_so_far(start, walk.walk_spec(), (log, sink.handed()), cx, all, items),
            answered(old(sink).answers(), sink.answers(), items.len(), true),
            all.len() == walk.visited(),
            forall|j: int| 0 <= j < all.len() ==> (#[trigger] all[j]).0 == prefixes[j],
            are_live_entries(table, all),
        decreases prefixes.len() - walk.visited(),
    {
        let ghost before = walk;
        let ghost mid = sink.handed();
        let ghost replies = sink.answers();
        let open = walk.step(
            rib,
            ingress_register,
            forward_router_info,
            fan_in_peer_distinguisher,
            sink,
        );
        let ghost (records, found, more) = choose|
            records: Seq<RouteRecord>,
            peers: Map<IngressId, PeerInfo>,
            items: Seq<DumpItem>,
        | #[trigger]
            table_step(
                before,
                walk,
                table,
                (mid, sink.handed()),
                cx,
                open,
                records,
                peers,
                items,
            ) && answered(replies, sink.answers(), items.len(), open);
        let ghost so_far = (start, log, all, items);
        proof {
            answered_chain(
                old(sink).answers(),
                replies,
                sink.answers(),
                items.len(),
                more.len(),
                open,
            );
            items = items + more;
        }
        if walk.is_over() {
            let res = (walk.into_walk(), open);
            proof {
                if before.visited() < prefixes.len() {
                    let next = (prefixes[before.visited() as int], records);
                    assert(!has_entry(all, next.0));
                    table_visited(
                        table,
                        before.walk_spec(),
                        res.0,
                        (mid, sink.handed()),
                        cx,
                        so_far,
                        next,
                        open,
                        found,
                        more,
                    );
                    assert(went_over(
                        table,
                        peer_info@,
                        (log, sink.handed()),
                        cx,
                        all.push(next),
                        res.1,
                        found,
                        items,
                    ));
                } else {
                    entries_cover(table, prefixes, all);
                    table_ended(
                        before.walk_spec(),
                        res.0,
                        (mid, sink.handed()),
                        cx,
                        so_far,
                        open,
                        more,
                    );
                    assert(went_over(
                        table,
                        peer_info@,
                        (log, sink.handed()),
                        cx,
                        all,
                        res.1,
                        res.0.peers(),
                        items,
                    ));
                }
            }
            return res;
        }
        proof {
            let next = (prefixes[before.visited() as int], records);
            assert(!has_entry(all, next.0));
            table_visited(
                table,
                before.walk_spec(),
                walk.walk_spec(),
                (mid, sink.handed()),
                cx,
                so_far,
                next,
                open,
                found,
                more,
            );
            all = all.push(next);
        }
    }
}

/// Where a walk started, what was handed over before, what it visited, and what
/// it handed over.
type WalkSoFar = (DumpWalk, Seq<(Seq<u8>, nat)>, Seq<(Prefix, Seq<RouteRecord>)>, Seq<DumpItem>);

/// A walk over the table visited the next prefix.
proof fn table_visited(
    table: RouteTable,
    mid: DumpWalk,
    end: DumpWalk,
    logs: (Seq<(Seq<u8>, nat)>, Seq<(Seq<u8>, nat)>),
    cx: EmitContext,
    so_far: WalkSoFar,
    next: (Prefix, Seq<RouteRecord>),
    open: bool,
    peers: Map<IngressId, PeerInfo>,
    more: Seq<DumpItem>,
)
    requires
        end.wf(),
        open ==> end.in_budget(),
        end.listed() == mid.listed(),
        forall|r: BufferedRoute| #[trigger] so_far.0.pending(r) == 0,
        walk_so_far(so_far.0, mid, (so_far.1, logs.0), cx, so_far.2, so_far.3),
        are_live_entries(table, so_far.2),
        !has_entry(so_far.2, next.0),
        live_at(table, next.0, next.1),
        walked(
            mid,
            end,
            logs,
            cx,
            sent_routes(mid.peers(), cx.0, next.0, next.1),
            open,
            peers,
            more,
        ),
        open ==> visit_counted(mid, end, cx.0, next.1),
    ensures
        are_live_entries(table, so_far.2.push(next)),
        open ==> walk_so_far(
            so_far.0,
            end,
            (so_far.1, logs.1),
            cx,
            so_far.2.push(next),
            so_far.3 + more,
        ),
        !open ==> went_over(
            table,
            so_far.0.peers(),
            (so_far.1, logs.1),
            cx,
            so_far.2.push(next),
            false,
            peers,
            so_far.3 + more,
        ),
{
    let all = so_far.2.push(next);
    walk_so_far_goes_on(
        so_far.0,
        mid,
        end,
        (so_far.1, logs.0, logs.1),
        cx,
        so_far.2,
        next,
        open,
        peers,
        so_far.3,
        more,
    );
    assert forall|i: int, j: int| 0 <= i < j < all.len() implies (#[trigger] all[i]).0 != (
    #[trigger] all[j]).0 by {
        if j == so_far.2.len() {
            assert(so_far.2[i].0 != next.0);
        }
    }
    if !open {
        walk_is_over(
            so_far.0,
            end,
            (so_far.1, logs.1),
            cx,
            all,
            open,
            peers,
            so_far.3 + more,
        );
    }
}

/// A walk over the table came to its end.
proof fn table_ended(
    mid: DumpWalk,
    end: DumpWalk,
    logs: (Seq<(Seq<u8>, nat)>, Seq<(Seq<u8>, nat)>),
    cx: EmitContext,
    so_far: WalkSoFar,
    open: bool,
    more: Seq<DumpItem>,
)
    requires
        forall|r: BufferedRoute| #[trigger] so_far.0.pending(r) == 0,
        forall|r: BufferedRoute| #[trigger] end.pending(r) == 0,
        end.peers() == mid.peers(),
        forall|id: IngressId| #[trigger] end.routes_of(id) == mid.routes_of(id),
        forall|id: IngressId| #[trigger] end.skipped_of(id) == mid.skipped_of(id),
        walk_so_far(so_far.0, mid, (so_far.1, logs.0), cx, so_far.2, so_far.3),
        walk_ended(mid, end, logs, open, more),
    ensures
        counts_all(end, so_far.0.peers(), cx.0, so_far.2),
        table_walked(
            so_far.0.peers(),
            (so_far.1, logs.1),
            cx,
            table_routes(so_far.0.peers(), cx.0, so_far.2),
            open,
            end.peers(),
            so_far.3 + more,
        ),
{
    assert(counts_all(mid, so_far.0.peers(), cx.0, so_far.2)) by {
        reveal(walk_so_far);
    }
    walk_so_far_ends(
        so_far.0,
        mid,
        end,
        (so_far.1, logs.0, logs.1),
        cx,
        so_far.2,
        open,
        so_far.3,
        more,
    );
    walk_is_over(
        so_far.0,
        end,
        (so_far.1, logs.1),
        cx,
        so_far.2,
        open,
        mid.peers(),
        so_far.3 + more,
    );
}

/// Entries for all stored prefixes cover the table.
proof fn entries_cover(
    table: RouteTable,
    prefixes: Seq<Prefix>,
    all: Seq<(Prefix, Seq<RouteRecord>)>,
)
    requires
        all.len() == prefixes.len(),
        forall|j: int| 0 <= j < all.len() ==> (#[trigger] all[j]).0 == prefixes[j],
        forall|p: Prefix| #[trigger]
            prefixes.contains(p) <==> is_stored(table.routes(), p) && p.len_spec() > 0,
    ensures
        covers_table(table, all),
{
    assert forall|p: Prefix| #[trigger]
        has_entry(all, p) <==> is_stored(table.routes(), p) && p.len_spec() > 0 by {
        if has_entry(all, p) {
            let a = choose|a: int| 0 <= a < all.len() && (#[trigger] all[a]).0 == p;
            assert(prefixes[a] == p);
            assert(prefixes.contains(p));
        }
        if prefixes.contains(p) {
            let a = choose|a: int| 0 <= a < prefixes.len() && prefixes[a] == p;
            assert(all[a].0 == p);
        }
        assert(prefixes.contains(p) <==> is_stored(table.routes(), p) && p.len_spec() > 0);
    }
}

/// A walk that starts has visited nothing.
proof fn walk_starts(
    table: RouteTable,
    start: DumpWalk,
    log: Seq<(Seq<u8>, nat)>,
    cx: EmitContext,
)
    requires
        start.wf(),
        start.in_budget(),
        forall|id: IngressId| #[trigger] start.routes_of(id) == 0,
        forall|id: IngressId| #[trigger] start.skipped_of(id) == 0,
    ensures
        are_live_entries(table, Seq::empty()),
        walk_so_far(start, start, (log, log), cx, Seq::empty(), Seq::empty()),
{
    reveal(walk_so_far);
    walked_nowhere(start, start, log, cx);
    counts_are_capped(start);
}

/// The end of a walk adds no routes.
proof fn walk_so_far_ends(
    start: DumpWalk,
    mid: DumpWalk,
    end: DumpWalk,
    logs: (Seq<(Seq<u8>, nat)>, Seq<(Seq<u8>, nat)>, Seq<(Seq<u8>, nat)>),
    cx: EmitContext,
    all: Seq<(Prefix, Seq<RouteRecord>)>,
    open: bool,
    items: Seq<DumpItem>,
    more: Seq<DumpItem>,
)
    requires
        walk_so_far(start, mid, (logs.0, logs.1), cx, all, items),
        walk_ended(mid, end, (logs.1, logs.2), open, more),
    ensures
        walked(
            start,
            end,
            (logs.0, logs.2),
            cx,
            table_routes(start.peers(), cx.0, all),
            open,
            mid.peers(),
            items + more,
        ),
{
    reveal(walk_so_far);
    let none = Seq::<BufferedRoute>::empty();
    assert(walked(mid, end, (logs.1, logs.2), cx, none, open, mid.peers(), more));
    let routes = table_routes(start.peers(), cx.0, all);
    walk_goes_on(
        start,
        mid,
        end,
        logs.0,
        logs.1,
        logs.2,
        cx,
        routes,
        none,
        open,
        mid.peers(),
        mid.peers(),
        items,
        more,
    );
    assert(routes + none =~= routes);
}

/// What was walked, once nothing waits or the consumer is gone.
proof fn walk_is_over(
    start: DumpWalk,
    end: DumpWalk,
    logs: (Seq<(Seq<u8>, nat)>, Seq<(Seq<u8>, nat)>),
    cx: EmitContext,
    all: Seq<(Prefix, Seq<RouteRecord>)>,
    open: bool,
    peers: Map<IngressId, PeerInfo>,
    items: Seq<DumpItem>,
)
    requires
        walked(
            start,
            end,
            logs,
            cx,
            table_routes(start.peers(), cx.0, all),
            open,
            peers,
            items,
        ),
        forall|r: BufferedRoute| #[trigger] start.pending(r) == 0,
        open ==> forall|r: BufferedRoute| #[trigger] end.pending(r) == 0,
    ensures
        table_walked(
            start.peers(),
            logs,
            cx,
            table_routes(start.peers(), cx.0, all),
            open,
            peers,
            items,
        ),
{
    let routes = table_routes(start.peers(), cx.0, all);
    assert forall|r: BufferedRoute| #[trigger] items_count(items, r) <= added_count(routes, r) by {
        assert(start.pending(r) + added_count(routes, r) >= end.pending(r) + items_count(items, r));
    }
    if open {
        assert forall|r: BufferedRoute| #[trigger]
            items_count(items, r) == added_count(routes, r) by {
            assert(start.pending(r) + added_count(routes, r) == end.pending(r) + items_count(
                items,
                r,
            ));
        }
    }
}

//------------ What a dump sends ---------------------------------------------

/// Whether a route is one that a dump sends: it is stored under a prefix with
/// bits and not withdrawn, its source is a peer, and it fits a message.
pub open spec fn is_dumped(
    table: RouteTable,
    listed: Map<IngressId, PeerInfo>,
    sources: Map<IngressId, IngressInfo>,
    r: BufferedRoute,
) -> bool {
    &&& r.prefix.len_spec() > 0
    &&& listed.contains_key(r.ingress_id) || is_real_peer(sources, r.ingress_id)
    &&& table.sight(None, true).at(r.prefix, r.ingress_id) matches Some(route)
        && route.status != RouteStatus::Withdrawn && route_fits(r.prefix, route.value)
        && r.attributes == attribute_octets(route.value)
}

/// Whether a record of a prefix is this route, and sent.
spec fn is_sent_as(
    peers: Map<IngressId, PeerInfo>,
    sources: Map<IngressId, IngressInfo>,
    prefix: Prefix,
    record: RouteRecord,
    r: BufferedRoute,
) -> bool {
    &&& prefix == r.prefix
    &&& record.multi_uniq_id == r.ingress_id
    &&& peers.contains_key(r.ingress_id) || is_real_peer(sources, r.ingress_id)
    &&& route_fits(prefix, record.meta@)
    &&& attribute_octets(record.meta@) == r.attributes
}

/// Of the records of a prefix, a route is sent once if one of them is it.
proof fn sent_once(
    peers: Map<IngressId, PeerInfo>,
    sources: Map<IngressId, IngressInfo>,
    prefix: Prefix,
    records: Seq<RouteRecord>,
    r: BufferedRoute,
)
    requires
        one_per_source(records),
    ensures
        forall|i: int|
            0 <= i < records.len() && #[trigger] is_sent_as(peers, sources, prefix, records[i], r)
                ==> added_count(sent_routes(peers, sources, prefix, records), r) == 1,
        (forall|i: int|
            0 <= i < records.len() ==> !#[trigger] is_sent_as(
                peers,
                sources,
                prefix,
                records[i],
                r,
            )) ==> added_count(sent_routes(peers, sources, prefix, records), r) == 0,
    decreases records.len(),
{
    if records.len() > 0 {
        let init = records.drop_last();
        let last = records.last();
        sent_once(peers, sources, prefix, init, r);
        let rest = sent_routes(peers, sources, prefix, init);
        let all = sent_routes(peers, sources, prefix, records);
        if all.len() > rest.len() {
            assert(all.drop_last() =~= rest);
        }
        assert forall|i: int| 0 <= i < init.len() implies #[trigger] is_sent_as(
            peers,
            sources,
            prefix,
            records[i],
            r,
        ) == is_sent_as(peers, sources, prefix, init[i], r) by {}
        if is_sent_as(peers, sources, prefix, last, r) {
            assert forall|i: int| 0 <= i < init.len() implies !#[trigger] is_sent_as(
                peers,
                sources,
                prefix,
                init[i],
                r,
            ) by {
                assert(records[i].multi_uniq_id != records[records.len() - 1].multi_uniq_id);
            }
            assert(all.last() == r);
        } else {
            assert(all == rest || all.last() != r);
            assert(added_count(all, r) == added_count(rest, r));
            assert forall|i: int|
                0 <= i < records.len() && #[trigger] is_sent_as(
                    peers,
                    sources,
                    prefix,
                    records[i],
                    r,
                ) implies added_count(all, r) == 1 by {
                assert(is_sent_as(peers, sources, prefix, init[i], r));
            }
        }
    }
}

/// Of entries with different prefixes, only that of a route's prefix sends it.
proof fn sent_for_its_prefix(
    peers: Map<IngressId, PeerInfo>,
    sources: Map<IngressId, IngressInfo>,
    all: Seq<(Prefix, Seq<RouteRecord>)>,
    r: BufferedRoute,
)
    requires
        forall|i: int, j: int|
            0 <= i < j < all.len() ==> (#[trigger] all[i]).0 != (#[trigger] all[j]).0,
        forall|i: int| 0 <= i < all.len() ==> one_per_source((#[trigger] all[i]).1),
    ensures
        forall|i: int|
            0 <= i < all.len() && (#[trigger] all[i]).0 == r.prefix ==> added_count(
                table_routes(peers, sources, all),
                r,
            ) == added_count(sent_routes(peers, sources, all[i].0, all[i].1), r),
        !has_entry(all, r.prefix) ==> added_count(table_routes(peers, sources, all), r) == 0,
    decreases all.len(),
{
    if all.len() > 0 {
        let init = all.drop_last();
        let last = all.last();
        sent_for_its_prefix(peers, sources, init, r);
        let rest = table_routes(peers, sources, init);
        let step = sent_routes(peers, sources, last.0, last.1);
        added_chain(rest, step, r);
        sent_once(peers, sources, last.0, last.1, r);
        assert forall|i: int| 0 <= i < init.len() implies #[trigger] all[i] == init[i] by {}
        if last.0 == r.prefix {
            assert(!has_entry(init, r.prefix)) by {
                if has_entry(init, r.prefix) {
                    let i = choose|i: int| 0 <= i < init.len() && (#[trigger] init[i]).0 == r.prefix;
                    assert(all[i].0 != all[all.len() - 1].0);
                }
            }
            assert(has_entry(all, r.prefix)) by {
                assert(all[all.len() - 1].0 == r.prefix);
            }
        } else {
            assert(added_count(step, r) == 0);
            if has_entry(init, r.prefix) {
                let i = choose|i: int| 0 <= i < init.len() && (#[trigger] init[i]).0 == r.prefix;
                assert(all[i].0 == r.prefix);
            }
        }
    }
}

/// A walk over the table to a consumer that refuses no delivery comes to its
/// end, and sends every route of the table that is not withdrawn, belongs to a
/// peer and fits a message, exactly once, and no other route.
pub proof fn every_live_route_is_sent_once(
    table: RouteTable,
    listed: Map<IngressId, PeerInfo>,
    logs: (Seq<(Seq<u8>, nat)>, Seq<(Seq<u8>, nat)>),
    cx: EmitContext,
    all: Seq<(Prefix, Seq<RouteRecord>)>,
    answers: (Seq<bool>, Seq<bool>),
    open: bool,
    peers: Map<IngressId, PeerInfo>,
    items: Seq<DumpItem>,
    r: BufferedRoute,
)
    requires
        went_over(table, listed, logs, cx, all, open, peers, items),
        answered(answers.0, answers.1, items.len(), open),
        never_refused(answers.0, answers.1),
    ensures
        open,
        items_count(items, r) == if is_dumped(table, listed, cx.0, r) {
            1nat
        } else {
            0nat
        },
{
    open_unless_refused(answers.0, answers.1, items.len(), open);
    let s = table.sight(None, true);
    let sources = cx.0;
    let routes = table_routes(listed, sources, all);
    assert(items_count(items, r) == added_count(routes, r));
    assert forall|i: int| 0 <= i < all.len() implies one_per_source((#[trigger] all[i]).1) by {
        assert(live_at(table, all[i].0, all[i].1));
        let records = choose|records: Seq<RouteRecord>| #[trigger]
            listed_for(table, all[i].0, records) && all[i].1 == live(records);
        live_keeps_one_per_source(records);
    }
    sent_for_its_prefix(listed, sources, all, r);
    if has_entry(all, r.prefix) {
        let i = choose|i: int| 0 <= i < all.len() && (#[trigger] all[i]).0 == r.prefix;
        let kept = all[i].1;
        assert(live_at(table, all[i].0, kept));
        let records = choose|records: Seq<RouteRecord>| #[trigger]
            listed_for(table, all[i].0, records) && kept == live(records);
        live_records_are_live(records);
        sent_once(listed, sources, r.prefix, kept, r);
        if is_dumped(table, listed, sources, r) {
            assert(s.at(r.prefix, r.ingress_id) is Some);
            let j = choose|j: int|
                0 <= j < records.len() && (#[trigger] records[j]).multi_uniq_id == r.ingress_id;
            assert(records.contains(records[j]));
            assert(kept.contains(records[j]));
            let k = choose|k: int| 0 <= k < kept.len() && kept[k] == records[j];
            assert(is_sent_as(listed, sources, r.prefix, kept[k], r));
        } else {
            assert forall|k: int| 0 <= k < kept.len() implies !#[trigger] is_sent_as(
                listed,
                sources,
                r.prefix,
                kept[k],
                r,
            ) by {
                assert(kept.contains(kept[k]));
                let j = choose|j: int| 0 <= j < records.len() && records[j] == kept[k];
                assert(s.at(r.prefix, records[j].multi_uniq_id) is Some);
            }
        }
    } else {
        assert(!(is_stored(table.routes(), r.prefix) && r.prefix.len_spec() > 0));
        if is_dumped(table, listed, sources, r) {
            assert(table.routes().contains_key((r.prefix, r.ingress_id)));
        }
    }
}

} // verus!
