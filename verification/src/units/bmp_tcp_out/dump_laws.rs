//! What a consumer is sent by a dump, from its start to its end.
use crate::ingress::{source_matches, IngressId, IngressInfo, IngressState, IngressType, Register};
use crate::net::{AfiSafiType, Prefix};
use crate::payload::{attribute_octets, RouteStatus};
use crate::units::bmp_tcp_out::aggregator::{
    answered, never_refused, occurrences, BufferedRoute, Pack,
};
use crate::units::bmp_tcp_out::bmp_builder::{
    bgp_update, end_of_rib_marker, end_of_rib_update, peer_message, peer_message_layout,
    peer_up_body, per_peer_header, PeerInfo, Timestamp, BMP_MSG_PEER_UP, BMP_MSG_ROUTE_MONITORING,
};
use crate::units::bmp_tcp_out::client_handler::{emitted, EmitContext};
use crate::units::bmp_tcp_out::client_state::ClientState;
use crate::units::bmp_tcp_out::dump::{
    announces_source, dump_step, dumped_ids, ends, matching_ids, peer_map, DumpAction, DumpPeer,
    DumpRun, DumpStage, PeerEnd,
};
use crate::units::bmp_tcp_out::dump_walk::{
    counts_all, every_live_route_is_sent_once, is_found_peer_up, items_count, tally, tally_all,
    went_over, DumpItem, DumpWalk,
};
use crate::units::bmp_tcp_out::packing_laws::{pack_is_read_back, update_size};
use crate::units::bmp_tcp_out::readback::{
    announces, announces_all, end_of_rib_is_read_back, is_update, source_is_read_back, tells_of,
};
use crate::units::rib_unit::records::RouteRecord;
use crate::units::rib_unit::table::RouteTable;
use vstd::prelude::*;

verus! {

//------------ The course of a dump ------------------------------------------

/// The octets of the message that is to be sent, if one is.
pub open spec fn dump_sends(action: DumpAction) -> Option<Seq<u8>> {
    match action {
        DumpAction::Send(msg) => Some(msg@),
        _ => None,
    }
}

/// Whether these are steps of a dump, one after the other, that all go well.
pub open spec fn dumped_in_turn(
    runs: Seq<DumpRun>,
    clients: Seq<ClientState>,
    actions: Seq<DumpAction>,
) -> bool {
    &&& runs.len() == actions.len() + 1
    &&& clients.len() == actions.len() + 1
    &&& forall|i: int|
        0 <= i < actions.len() ==> dump_step(
            runs[i],
            runs[i + 1],
            (clients[i], clients[i + 1]),
            true,
            #[trigger] actions[i],
        )
    &&& forall|i: int| 0 <= i < runs.len() ==> (#[trigger] runs[i]).wf()
}

/// The peers of a dump whose Peer Up is among the first.
pub open spec fn is_up(ups: Seq<DumpPeer>, n: int, id: IngressId) -> bool {
    exists|j: int| 0 <= j < n && (#[trigger] ups[j]).ingress_id == id
}

proof fn first_half_so_far(
    runs: Seq<DumpRun>,
    clients: Seq<ClientState>,
    actions: Seq<DumpAction>,
    n: int,
)
    requires
        dumped_in_turn(runs, clients, actions),
        runs[0].stage_spec() == DumpStage::Start,
        0 <= n <= actions.len(),
        n <= runs[0].peer_ups_spec().len() + 2,
        runs[0].peer_ups_spec().len() <= usize::MAX,
    ensures
        runs[n].peer_ups_spec() == runs[0].peer_ups_spec(),
        runs[n].initiation_spec() == runs[0].initiation_spec(),
        n == 0 ==> runs[n].stage_spec() == DumpStage::Start,
        n == 1 ==> runs[n].stage_spec() == DumpStage::Initiation,
        2 <= n <= runs[0].peer_ups_spec().len() + 1 ==> runs[n].stage_spec() == DumpStage::PeerUp(
            (n - 2) as usize,
        ),
        n == runs[0].peer_ups_spec().len() + 2 ==> runs[n].stage_spec() == DumpStage::Walk,
        forall|id: IngressId| #[trigger]
            clients[n].known().contains(id) <==> clients[0].known().contains(id) || is_up(
                runs[0].peer_ups_spec(),
                n - 2,
                id,
            ),
    decreases n,
{
    let ups = runs[0].peer_ups_spec();
    if n > 0 {
        let k = n - 1;
        first_half_so_far(runs, clients, actions, k);
        assert(dump_step(
            runs[k],
            runs[k + 1],
            (clients[k], clients[k + 1]),
            true,
            actions[k],
        ));
        assert forall|id: IngressId| #[trigger] clients[n].known().contains(id) <==> clients[
            0
        ].known().contains(id) || is_up(ups, n - 2, id) by {
            assert(clients[k].known().contains(id) <==> clients[0].known().contains(id) || is_up(
                ups,
                k - 2,
                id,
            ));
            if is_up(ups, k - 2, id) {
                let j = choose|j: int| 0 <= j < k - 2 && (#[trigger] ups[j]).ingress_id == id;
                assert(0 <= j < n - 2 && ups[j].ingress_id == id);
            }
            if is_up(ups, n - 2, id) && !is_up(ups, k - 2, id) {
                let j = choose|j: int| 0 <= j < n - 2 && (#[trigger] ups[j]).ingress_id == id;
                assert(j == n - 3);
            }
            if n >= 3 && ups[n - 3].ingress_id == id {
                assert(is_up(ups, n - 2, id));
            }
        }
    }
}

/// The first half of a dump that goes well: first the Initiation is sent, then
/// the Peer Up of each peer, in order and each once, and then the table is
/// walked. The consumer knows a peer as soon as its Peer Up was sent, and until
/// then no other than before.
pub proof fn dump_starts_with_every_peer(
    runs: Seq<DumpRun>,
    clients: Seq<ClientState>,
    actions: Seq<DumpAction>,
    i: int,
    id: IngressId,
)
    requires
        dumped_in_turn(runs, clients, actions),
        runs[0].stage_spec() == DumpStage::Start,
        actions.len() == runs[0].peer_ups_spec().len() + 2,
        runs[0].peer_ups_spec().len() <= usize::MAX,
        0 <= i < runs[0].peer_ups_spec().len(),
    ensures
        dump_sends(actions[0]) == Some(runs[0].initiation_spec()),
        dump_sends(actions[1 + i]) == Some(runs[0].peer_ups_spec()[i].peer_up@),
        actions.last() is Walk,
        runs.last().stage_spec() == DumpStage::Walk,
        clients[2 + i].known().contains(id) <==> clients[0].known().contains(id) || is_up(
            runs[0].peer_ups_spec(),
            i,
            id,
        ),
        clients.last().known().contains(id) <==> clients[0].known().contains(id) || is_up(
            runs[0].peer_ups_spec(),
            runs[0].peer_ups_spec().len() as int,
            id,
        ),
{
    let n = runs[0].peer_ups_spec().len() as int;
    first_half_so_far(runs, clients, actions, 0);
    first_half_so_far(runs, clients, actions, 1 + i);
    first_half_so_far(runs, clients, actions, 2 + i);
    first_half_so_far(runs, clients, actions, n + 1);
    first_half_so_far(runs, clients, actions, n + 2);
    assert(dump_step(runs[0], runs[1], (clients[0], clients[1]), true, actions[0]));
    assert(dump_step(
        runs[1 + i],
        runs[1 + i + 1],
        (clients[1 + i], clients[1 + i + 1]),
        true,
        actions[1 + i],
    ));
    assert(dump_step(
        runs[n + 1],
        runs[n + 1 + 1],
        (clients[n + 1], clients[n + 1 + 1]),
        true,
        actions[n + 1],
    ));
}

/// The peers that a dump found on the way whose markers are among the first.
pub open spec fn is_found_mark(marks: Seq<PeerEnd>, n: int, id: IngressId) -> bool {
    exists|j: int|
        0 <= j < n && (#[trigger] marks[j]).ingress_id == id && marks[j].found
}

proof fn second_half_so_far(
    runs: Seq<DumpRun>,
    clients: Seq<ClientState>,
    actions: Seq<DumpAction>,
    n: int,
)
    requires
        dumped_in_turn(runs, clients, actions),
        runs[0].stage_spec() == DumpStage::Walk,
        0 <= n <= actions.len(),
        n <= 2 * runs[0].marks_spec().len() + 1,
        runs[0].marks_spec().len() <= usize::MAX,
    ensures
        runs[n].marks_spec() == runs[0].marks_spec(),
        n == 0 ==> runs[n].stage_spec() == DumpStage::Walk,
        0 < n <= 2 * runs[0].marks_spec().len() && n % 2 == 1 ==> runs[n].stage_spec()
            == DumpStage::EndIpv4(((n - 1) / 2) as usize),
        0 < n <= 2 * runs[0].marks_spec().len() && n % 2 == 0 ==> runs[n].stage_spec()
            == DumpStage::EndIpv6(((n - 2) / 2) as usize),
        n == 2 * runs[0].marks_spec().len() + 1 ==> runs[n].stage_spec() == DumpStage::Drain,
        forall|id: IngressId| #[trigger]
            clients[n].known().contains(id) <==> clients[0].known().contains(id) || (
            is_found_mark(
                runs[0].marks_spec(),
                if (n + 1) / 2 <= runs[0].marks_spec().len() {
                    (n + 1) / 2
                } else {
                    runs[0].marks_spec().len() as int
                },
                id,
            )),
    decreases n,
{
    let marks = runs[0].marks_spec();
    let m = marks.len() as int;
    if n > 0 {
        let k = n - 1;
        second_half_so_far(runs, clients, actions, k);
        assert(dump_step(
            runs[k],
            runs[k + 1],
            (clients[k], clients[k + 1]),
            true,
            actions[k],
        ));
        let now = if (n + 1) / 2 <= m {
            (n + 1) / 2
        } else {
            m
        };
        let was = if (k + 1) / 2 <= m {
            (k + 1) / 2
        } else {
            m
        };
        assert(now == was || now == was + 1);
        assert forall|id: IngressId| #[trigger] clients[n].known().contains(id) <==> clients[
            0
        ].known().contains(id) || is_found_mark(marks, now, id) by {
            assert(clients[k].known().contains(id) <==> clients[0].known().contains(id)
                || is_found_mark(marks, was, id));
            if is_found_mark(marks, was, id) {
                let j = choose|j: int|
                    0 <= j < was && (#[trigger] marks[j]).ingress_id == id && marks[j].found;
                assert(0 <= j < now && marks[j].ingress_id == id);
            }
            if is_found_mark(marks, now, id) && !is_found_mark(marks, was, id) {
                let j = choose|j: int|
                    0 <= j < now && (#[trigger] marks[j]).ingress_id == id && marks[j].found;
                assert(j == was);
            }
            if now > was && marks[was].ingress_id == id && marks[was].found {
                assert(is_found_mark(marks, now, id));
            }
        }
    }
}

/// The second half of a dump that goes well, after the walk: for each peer, in
/// order, the marker for IPv4 is sent and then the one for IPv6, and after the
/// last the buffered updates are due. The consumer then knows, besides those it
/// knew, the peers that the walk found, and no other.
pub proof fn dump_ends_with_every_peer(
    runs: Seq<DumpRun>,
    clients: Seq<ClientState>,
    actions: Seq<DumpAction>,
    i: int,
    id: IngressId,
)
    requires
        dumped_in_turn(runs, clients, actions),
        runs[0].stage_spec() == DumpStage::Walk,
        actions.len() == 2 * runs[0].marks_spec().len() + 1,
        runs[0].marks_spec().len() <= usize::MAX,
        0 <= i < runs[0].marks_spec().len(),
    ensures
        dump_sends(actions[2 * i]) == Some(runs[0].marks_spec()[i].ipv4@),
        dump_sends(actions[2 * i + 1]) == Some(runs[0].marks_spec()[i].ipv6@),
        actions.last() is Drain,
        clients.last().known().contains(id) <==> clients[0].known().contains(id) || is_found_mark(
            runs[0].marks_spec(),
            runs[0].marks_spec().len() as int,
            id,
        ),
{
    let m = runs[0].marks_spec().len() as int;
    second_half_so_far(runs, clients, actions, 2 * i);
    second_half_so_far(runs, clients, actions, 2 * i + 1);
    second_half_so_far(runs, clients, actions, 2 * m);
    second_half_so_far(runs, clients, actions, 2 * m + 1);
    assert(dump_step(
        runs[2 * i],
        runs[2 * i + 1],
        (clients[2 * i], clients[2 * i + 1]),
        true,
        actions[2 * i],
    ));
    assert(dump_step(
        runs[2 * i + 1],
        runs[2 * i + 1 + 1],
        (clients[2 * i + 1], clients[2 * i + 1 + 1]),
        true,
        actions[2 * i + 1],
    ));
    assert(dump_step(
        runs[2 * m],
        runs[2 * m + 1],
        (clients[2 * m], clients[2 * m + 1]),
        true,
        actions[2 * m],
    ));
}

//------------ Who is dumped -------------------------------------------------

/// The peers of a dump are the sources in the register that are BGP sessions,
/// our own or reported by a router, and connected, and those that are replayed
/// files, connected or not; each once.
pub proof fn dumped_are_the_active_peers(register: Register, id: IngressId)
    requires
        register.wf(),
    ensures
        dumped_ids(register).contains(id) <==> {
            let info = register@[id];
            &&& register@.contains_key(id)
            &&& {
                ||| info.ingress_type == Some(IngressType::Mrt)
                ||| (info.ingress_type == Some(IngressType::BgpViaBmp) || info.ingress_type
                    == Some(IngressType::Bgp)) && info.state == Some(IngressState::Connected)
            }
        },
        dumped_ids(register).no_duplicates(),
{
    let via = matching_ids(register, IngressType::BgpViaBmp, Some(IngressState::Connected));
    let own = matching_ids(register, IngressType::Bgp, Some(IngressState::Connected));
    let mrt = matching_ids(register, IngressType::Mrt, None);
    register.ids_are_those_registered(id);
    matches_are_filtered(
        register,
        IngressType::BgpViaBmp,
        Some(IngressState::Connected),
    );
    matches_are_filtered(register, IngressType::Bgp, Some(IngressState::Connected));
    matches_are_filtered(register, IngressType::Mrt, None);
    let all = dumped_ids(register);
    assert(all =~= via + own + mrt);
    if via.contains(id) {
        let j = choose|j: int| 0 <= j < via.len() && via[j] == id;
        assert(all[j] == id);
    }
    if own.contains(id) {
        let j = choose|j: int| 0 <= j < own.len() && own[j] == id;
        assert(all[via.len() + j] == id);
    }
    if mrt.contains(id) {
        let j = choose|j: int| 0 <= j < mrt.len() && mrt[j] == id;
        assert(all[via.len() + own.len() + j] == id);
    }
    if all.contains(id) {
        let j = choose|j: int| 0 <= j < all.len() && all[j] == id;
        if j < via.len() {
            assert(via[j] == id);
        } else if j < via.len() + own.len() {
            assert(own[j - via.len()] == id);
        } else {
            assert(mrt[j - via.len() - own.len()] == id);
        }
    }
    assert forall|i: int, j: int| 0 <= i < all.len() && 0 <= j < all.len() && i != j implies all[i]
        != all[j] by {
        let (a, x) = part_of(via, own, mrt, i);
        let (b, y) = part_of(via, own, mrt, j);
        if a == b && all[i] == all[j] {
            assert(x != y);
        }
    }
}

proof fn part_of(
    a: Seq<IngressId>,
    b: Seq<IngressId>,
    c: Seq<IngressId>,
    i: int,
) -> (res: (int, int))
    requires
        0 <= i < a.len() + b.len() + c.len(),
    ensures
        res.0 == 0 ==> res.1 == i && i < a.len() && (a + b + c)[i] == a[res.1] && a.contains(
            a[res.1],
        ),
        res.0 == 1 ==> res.1 == i - a.len() && 0 <= res.1 < b.len() && (a + b + c)[i] == b[res.1]
            && b.contains(b[res.1]),
        res.0 == 2 ==> res.1 == i - a.len() - b.len() && 0 <= res.1 < c.len() && (a + b + c)[i]
            == c[res.1] && c.contains(c[res.1]),
        0 <= res.0 <= 2,
{
    if i < a.len() {
        (0, i)
    } else if i < a.len() + b.len() {
        (1, i - a.len())
    } else {
        (2, i - a.len() - b.len())
    }
}

proof fn matches_are_filtered(
    register: Register,
    kind: IngressType,
    state: Option<IngressState>,
)
    requires
        register.wf(),
    ensures
        matching_ids(register, kind, state).no_duplicates(),
        forall|id: IngressId| #[trigger]
            matching_ids(register, kind, state).contains(id) <==> register.ids().contains(id)
                && register@[id].ingress_type == Some(kind) && (state is Some ==> register@[id].state
                == state),
{
    let ids = register.ids();
    let pred = |id: IngressId| source_matches(register@[id], kind, state);
    register.ids_are_those_registered(0);
    filter_keeps_distinct(ids, pred);
    assert forall|id: IngressId| #[trigger]
        matching_ids(register, kind, state).contains(id) <==> register.ids().contains(id)
            && register@[id].ingress_type == Some(kind) && (state is Some ==> register@[id].state
            == state) by {
        if ids.contains(id) && pred(id) {
            let i = choose|i: int| 0 <= i < ids.len() && ids[i] == id;
            ids.lemma_filter_contains(pred, i);
        }
        if ids.filter(pred).contains(id) {
            ids.lemma_filter_contains_rev(pred, id);
            let i = choose|i: int| 0 <= i < ids.filter(pred).len() && ids.filter(pred)[i] == id;
            ids.lemma_filter_pred(pred, i);
        }
    }
}

proof fn filter_keeps_distinct(s: Seq<IngressId>, pred: spec_fn(IngressId) -> bool)
    requires
        s.no_duplicates(),
    ensures
        s.filter(pred).no_duplicates(),
    decreases s.len(),
{
    reveal(Seq::filter);
    if s.len() > 0 {
        let init = s.drop_last();
        filter_keeps_distinct(init, pred);
        if init.filter(pred).contains(s.last()) {
            init.lemma_filter_contains_rev(pred, s.last());
            let i = choose|i: int| 0 <= i < init.len() && init[i] == s.last();
            assert(s[i] == s[s.len() - 1]);
        }
    }
}

/// The Peer Up with which a dump reports a peer is of type 3, tells of the peer
/// what the register has of it, and announces in both OPENs that End-of-RIB
/// markers follow.
pub proof fn dump_peer_up_is_read_back(up: DumpPeer, id: IngressId, cx: EmitContext)
    requires
        announces_source(up, id, cx),
    ensures
        up.ingress_id == id,
        cx.0.contains_key(id),
        up.peer_up@[5] == 3,
        tells_of(up.peer_up@, cx.0[id]),
        up.peer_up@.skip(48) == peer_up_body(up.peer_info, true),
        up.peer_up@.subrange(8, 16) == up.peer_info.peer_distinguisher@,
{
    let body = peer_up_body(up.peer_info, true);
    let t = choose|t: Timestamp|
        t.wf() && up.peer_up@ == #[trigger] peer_message(BMP_MSG_PEER_UP, up.peer_info, t, body);
    peer_message_layout(BMP_MSG_PEER_UP, up.peer_info, t, body);
    source_is_read_back(up.peer_info, cx.0[id], BMP_MSG_PEER_UP, t, body);
}

/// The markers of a peer are End-of-RIB markers under the peer's own header: the
/// first for IPv4 unicast, an UPDATE of 23 octets, the second for IPv6 unicast,
/// one that withdraws nothing of it and has 29.
pub proof fn marks_are_read_back(end: PeerEnd, id: IngressId, peer: PeerInfo, found: bool)
    requires
        ends(end, id, peer, found),
    ensures
        end.ingress_id == id,
        end.found == found,
        end.ipv4@[5] == 0,
        end.ipv6@[5] == 0,
        is_update(end.ipv4@.skip(48)),
        is_update(end.ipv6@.skip(48)),
        end.ipv4@.skip(48).len() == 23,
        end.ipv6@.skip(48).len() == 29,
        end.ipv6@.skip(48).subrange(23, 29) == seq![0x80u8, 15, 3, 0, 2, 1],
        exists|t: Timestamp|
            t.wf() && end.ipv4@.subrange(6, 48) == #[trigger] per_peer_header(peer, t),
        exists|t: Timestamp|
            t.wf() && end.ipv6@.subrange(6, 48) == #[trigger] per_peer_header(peer, t),
{
    let t = choose|t: Timestamp|
        t.wf() && Some(end.ipv4@) == #[trigger] end_of_rib_marker(
            peer,
            AfiSafiType::Ipv4Unicast,
            t,
        );
    ipv4_mark_is_read_back(end.ipv4@, peer, t);
    let u = choose|t: Timestamp|
        t.wf() && Some(end.ipv6@) == #[trigger] end_of_rib_marker(
            peer,
            AfiSafiType::Ipv6Unicast,
            t,
        );
    ipv6_mark_is_read_back(end.ipv6@, peer, u);
}

proof fn ipv4_mark_is_read_back(mark: Seq<u8>, peer: PeerInfo, t: Timestamp)
    requires
        Some(mark) == end_of_rib_marker(peer, AfiSafiType::Ipv4Unicast, t),
    ensures
        mark[5] == 0,
        is_update(mark.skip(48)),
        mark.skip(48).len() == 23,
        mark.subrange(6, 48) == per_peer_header(peer, t),
{
    end_of_rib_is_read_back(peer, AfiSafiType::Ipv4Unicast, t);
    let update = end_of_rib_update(AfiSafiType::Ipv4Unicast);
    peer_message_layout(BMP_MSG_ROUTE_MONITORING, peer, t, update);
}

proof fn ipv6_mark_is_read_back(mark: Seq<u8>, peer: PeerInfo, t: Timestamp)
    requires
        Some(mark) == end_of_rib_marker(peer, AfiSafiType::Ipv6Unicast, t),
    ensures
        mark[5] == 0,
        is_update(mark.skip(48)),
        mark.skip(48).len() == 29,
        mark.skip(48).subrange(23, 29) == seq![0x80u8, 15, 3, 0, 2, 1],
        mark.subrange(6, 48) == per_peer_header(peer, t),
{
    end_of_rib_is_read_back(peer, AfiSafiType::Ipv6Unicast, t);
    let update = end_of_rib_update(AfiSafiType::Ipv6Unicast);
    peer_message_layout(BMP_MSG_ROUTE_MONITORING, peer, t, update);
    assert(mark.skip(48).subrange(23, 29) =~= seq![0x80u8, 15, 3, 0, 2, 1]);
}

//------------ What the walk sends -------------------------------------------

/// Whether the sources of this kind are peers, whose routes are dumped.
pub open spec fn is_peer_kind(kind: Option<IngressType>) -> bool {
    kind == Some(IngressType::BgpViaBmp) || kind == Some(IngressType::Bgp) || kind == Some(
        IngressType::Mrt,
    )
}

/// Whether a message announces a route, alone or among others with the same path
/// attributes, under the header of a peer.
pub open spec fn announces_among(
    msg: Seq<u8>,
    peer: PeerInfo,
    prefix: Prefix,
    raw: Seq<u8>,
    pack: Pack,
) -> bool {
    &&& msg[5] == 0
    &&& is_update(msg.skip(48))
    &&& exists|t: Timestamp|
        t.wf() && msg.subrange(6, 48) == #[trigger] per_peer_header(peer, t)
    &&& pack.prefixes.contains(prefix)
    &&& attribute_octets(pack.raw) == attribute_octets(raw)
    &&& announces_all(msg.skip(48).skip(19), pack.is_v4, pack.raw, pack.prefixes) || (announces(
        msg.skip(48),
        prefix,
        pack.raw,
    ) && pack.prefixes == seq![prefix])
}

/// A walk over the table to a consumer that refuses no delivery sends every
/// route that is filed under a prefix with bits, is not withdrawn, neither
/// itself nor with its source, and for which there is an UPDATE, if its source
/// was listed or is registered as a peer: there is a message under the header of
/// its source that announces it with its path attributes.
pub proof fn live_route_is_in_a_message(
    table: RouteTable,
    listed: Map<IngressId, PeerInfo>,
    logs: (Seq<(Seq<u8>, nat)>, Seq<(Seq<u8>, nat)>),
    cx: EmitContext,
    all: Seq<(Prefix, Seq<RouteRecord>)>,
    answers: (Seq<bool>, Seq<bool>),
    open: bool,
    peers: Map<IngressId, PeerInfo>,
    items: Seq<DumpItem>,
    prefix: Prefix,
    id: IngressId,
) -> (res: (int, Pack))
    requires
        went_over(table, listed, logs, cx, all, open, peers, items),
        answered(answers.0, answers.1, items.len(), open),
        never_refused(answers.0, answers.1),
        table.routes().contains_key((prefix, id)),
        table.routes()[(prefix, id)].status != RouteStatus::Withdrawn,
        !table.withdrawn().contains((prefix.addr_spec() is V4, id)),
        prefix.len_spec() > 0,
        bgp_update(prefix, table.routes()[(prefix, id)].value, false) is Some,
        listed.contains_key(id) || (cx.0.contains_key(id) && is_peer_kind(cx.0[id].ingress_type)),
    ensures
        open,
        0 <= res.0 < items.len(),
        peers.contains_key(id),
        announces_among(
            logs.1[logs.0.len() + res.0].0,
            peers[id],
            prefix,
            table.routes()[(prefix, id)].value,
            res.1,
        ),
        listed.contains_key(id) ==> peers[id] == listed[id],
        !listed.contains_key(id) ==> emitted(peers[id], cx.0[id], cx),
{
    let raw = table.routes()[(prefix, id)].value;
    let r = BufferedRoute { ingress_id: id, prefix, attributes: attribute_octets(raw) };
    every_live_route_is_sent_once(
        table,
        listed,
        logs,
        cx,
        all,
        answers,
        open,
        peers,
        items,
        r,
    );
    let k = counted_somewhere(items, r);
    let pack = items[k]->Routes_0;
    let msg = logs.1[logs.0.len() + k];
    assert(items[k].becomes(peers, msg));
    pack_is_read_back(pack, peers, msg);
    occurs_in(pack.prefixes, prefix);
    if listed.contains_key(id) {
        assert(listed.dom().contains(id));
    }
    if update_size(pack.is_v4, pack.raw, pack.prefixes) > 4096 {
        assert(pack.prefixes[0] == prefix);
        assert(pack.prefixes =~= seq![prefix]);
    }
    (k, pack)
}

/// A walk sends no route of a source that was neither listed nor registered as a
/// peer, none that is not filed or is withdrawn, and none without an UPDATE.
pub proof fn no_other_route_is_sent(
    table: RouteTable,
    listed: Map<IngressId, PeerInfo>,
    logs: (Seq<(Seq<u8>, nat)>, Seq<(Seq<u8>, nat)>),
    cx: EmitContext,
    all: Seq<(Prefix, Seq<RouteRecord>)>,
    answers: (Seq<bool>, Seq<bool>),
    open: bool,
    peers: Map<IngressId, PeerInfo>,
    items: Seq<DumpItem>,
    k: int,
    j: int,
)
    requires
        went_over(table, listed, logs, cx, all, open, peers, items),
        answered(answers.0, answers.1, items.len(), open),
        never_refused(answers.0, answers.1),
        0 <= k < items.len(),
        items[k] is Routes,
        0 <= j < items[k]->Routes_0.prefixes.len(),
    ensures
        ({
            let pack = items[k]->Routes_0;
            let id = pack.ingress_id;
            let at = (pack.prefixes[j], id);
            &&& listed.contains_key(id) || (cx.0.contains_key(id) && is_peer_kind(
                cx.0[id].ingress_type,
            ))
            &&& table.routes().contains_key(at)
            &&& table.routes()[at].status != RouteStatus::Withdrawn
            &&& !table.withdrawn().contains((pack.prefixes[j].addr_spec() is V4, id))
            &&& attribute_octets(table.routes()[at].value) == attribute_octets(pack.raw)
        }),
{
    let pack = items[k]->Routes_0;
    let prefix = pack.prefixes[j];
    let r = BufferedRoute {
        ingress_id: pack.ingress_id,
        prefix,
        attributes: attribute_octets(pack.raw),
    };
    every_live_route_is_sent_once(
        table,
        listed,
        logs,
        cx,
        all,
        answers,
        open,
        peers,
        items,
        r,
    );
    counts_when_it_occurs(pack.prefixes, prefix, j);
    counted_in_item(items, r, k);
}

proof fn counted_somewhere(items: Seq<DumpItem>, r: BufferedRoute) -> (k: int)
    requires
        items_count(items, r) > 0,
    ensures
        0 <= k < items.len(),
        items[k] matches DumpItem::Routes(pack) && pack.ingress_id == r.ingress_id
            && attribute_octets(pack.raw) == r.attributes && occurrences(pack.prefixes, r.prefix)
            > 0,
    decreases items.len(),
{
    if items.last().count(r) > 0 {
        items.len() - 1
    } else {
        let k = counted_somewhere(items.drop_last(), r);
        assert(items[k] == items.drop_last()[k]);
        k
    }
}

proof fn counted_in_item(items: Seq<DumpItem>, r: BufferedRoute, k: int)
    requires
        0 <= k < items.len(),
        items[k].count(r) > 0,
    ensures
        items_count(items, r) > 0,
    decreases items.len(),
{
    if k < items.len() - 1 {
        assert(items.drop_last()[k] == items[k]);
        counted_in_item(items.drop_last(), r, k);
    }
}

proof fn occurs_in(prefixes: Seq<Prefix>, prefix: Prefix)
    requires
        occurrences(prefixes, prefix) > 0,
    ensures
        prefixes.contains(prefix),
    decreases prefixes.len(),
{
    if prefixes.last() == prefix {
        assert(prefixes[prefixes.len() - 1] == prefix);
    } else {
        occurs_in(prefixes.drop_last(), prefix);
        let j = choose|j: int|
            0 <= j < prefixes.drop_last().len() && prefixes.drop_last()[j] == prefix;
        assert(prefixes[j] == prefix);
    }
}

proof fn counts_when_it_occurs(prefixes: Seq<Prefix>, prefix: Prefix, j: int)
    requires
        0 <= j < prefixes.len(),
        prefixes[j] == prefix,
    ensures
        occurrences(prefixes, prefix) > 0,
    decreases prefixes.len(),
{
    if j < prefixes.len() - 1 {
        counts_when_it_occurs(prefixes.drop_last(), prefix, j);
    }
}

//------------ What is counted -----------------------------------------------

proof fn tally_is_a_filter(records: Seq<RouteRecord>, id: IngressId)
    ensures
        tally(records, id) == records.filter(|r: RouteRecord| r.multi_uniq_id == id).len(),
    decreases records.len(),
{
    reveal(Seq::filter);
    if records.len() > 0 {
        tally_is_a_filter(records.drop_last(), id);
    }
}

proof fn tally_all_is_a_filter(all: Seq<(Prefix, Seq<RouteRecord>)>, id: IngressId)
    ensures
        tally_all(all, id) == all.map_values(|e: (Prefix, Seq<RouteRecord>)| e.1).flatten().filter(
            |r: RouteRecord| r.multi_uniq_id == id,
        ).len(),
    decreases all.len(),
{
    let records = |e: (Prefix, Seq<RouteRecord>)| e.1;
    let mine = |r: RouteRecord| r.multi_uniq_id == id;
    let lists = all.map_values(records);
    if all.len() > 0 {
        let init = all.drop_last();
        tally_all_is_a_filter(init, id);
        tally_is_a_filter(all.last().1, id);
        assert(lists =~= init.map_values(records).push(all.last().1));
        init.map_values(records).lemma_flatten_push(all.last().1);
        Seq::filter_distributes_over_add(init.map_values(records).flatten(), all.last().1, mine);
    } else {
        assert(lists =~= Seq::empty());
        assert(lists.flatten() =~= Seq::empty());
        reveal(Seq::filter);
        assert(lists.flatten().filter(mine) =~= Seq::empty());
    }
}

/// Each record that a walk meets is counted once, up to the largest number: as a
/// route of its source, if that is listed or a peer by its kind, and else as
/// left out.
pub proof fn every_record_is_counted(
    walk: DumpWalk,
    listed: Map<IngressId, PeerInfo>,
    sources: Map<IngressId, IngressInfo>,
    all: Seq<(Prefix, Seq<RouteRecord>)>,
    id: IngressId,
)
    requires
        counts_all(walk, listed, sources, all),
    ensures
        ({
            let met = all.map_values(|e: (Prefix, Seq<RouteRecord>)| e.1).flatten().filter(
                |r: RouteRecord| r.multi_uniq_id == id,
            ).len();
            let peer = listed.contains_key(id) || (sources.contains_key(id) && is_peer_kind(
                sources[id].ingress_type,
            ));
            &&& met <= usize::MAX ==> walk.routes_of(id) + walk.skipped_of(id) == met
            &&& met > usize::MAX ==> walk.routes_of(id) + walk.skipped_of(id) == usize::MAX
            &&& walk.routes_of(id) > 0 ==> peer
            &&& walk.skipped_of(id) > 0 ==> !peer
        }),
{
    tally_all_is_a_filter(all, id);
}

/// Routes are attributed to the peers of a dump: where no two of these have the
/// same identifier, each is found under its own, with what its messages say of
/// it, and there is no other.
pub proof fn peers_are_found_by_their_ids(peers: Seq<DumpPeer>, i: int, id: IngressId)
    requires
        forall|a: int, b: int|
            #![trigger peers[a], peers[b]]
            0 <= a < b < peers.len() ==> peers[a].ingress_id != peers[b].ingress_id,
    ensures
        0 <= i < peers.len() ==> peer_map(peers).contains_key(peers[i].ingress_id) && peer_map(
            peers,
        )[peers[i].ingress_id] == peers[i].peer_info,
        peer_map(peers).contains_key(id) <==> exists|j: int|
            0 <= j < peers.len() && (#[trigger] peers[j]).ingress_id == id,
    decreases peers.len(),
{
    if peers.len() > 0 {
        let init = peers.drop_last();
        let last = peers.len() - 1;
        peers_are_found_by_their_ids(init, i, id);
        if 0 <= i < last {
            assert(peers[i].ingress_id != peers[last].ingress_id);
        }
        if exists|j: int| 0 <= j < init.len() && (#[trigger] init[j]).ingress_id == id {
            let j = choose|j: int| 0 <= j < init.len() && (#[trigger] init[j]).ingress_id == id;
            assert(peers[j].ingress_id == id);
        }
        if exists|j: int| 0 <= j < peers.len() && (#[trigger] peers[j]).ingress_id == id {
            let j = choose|j: int| 0 <= j < peers.len() && (#[trigger] peers[j]).ingress_id == id;
            if j < last {
                assert(init[j].ingress_id == id);
            }
        }
        if peers[last].ingress_id == id {
            assert(0 <= last < peers.len());
        }
    }
}

/// Before the first message with routes of a source that was not listed, its Peer
/// Up (type 3) was sent, which tells what the register has of the source.
pub proof fn found_peer_is_announced_first(
    table: RouteTable,
    listed: Map<IngressId, PeerInfo>,
    logs: (Seq<(Seq<u8>, nat)>, Seq<(Seq<u8>, nat)>),
    cx: EmitContext,
    all: Seq<(Prefix, Seq<RouteRecord>)>,
    open: bool,
    peers: Map<IngressId, PeerInfo>,
    items: Seq<DumpItem>,
    k: int,
) -> (j: int)
    requires
        went_over(table, listed, logs, cx, all, open, peers, items),
        0 <= k < items.len(),
        items[k] is Routes,
        !listed.contains_key(items[k]->Routes_0.ingress_id),
    ensures
        0 <= j < k,
        cx.0.contains_key(items[k]->Routes_0.ingress_id),
        logs.1[logs.0.len() + j].0[5] == 3,
        tells_of(logs.1[logs.0.len() + j].0, cx.0[items[k]->Routes_0.ingress_id]),
{
    let id = items[k]->Routes_0.ingress_id;
    let before = items.take(k);
    let j = choose|j: int| 0 <= j < before.len() && #[trigger] before[j] == DumpItem::PeerUp(id);
    assert(items[j] == DumpItem::PeerUp(id));
    let msg = logs.1[logs.0.len() + j];
    assert(items[j].becomes(peers, msg));
    reveal(is_found_peer_up);
    let peer = peers[id];
    let body = peer_up_body(peer, false);
    let t = choose|t: Timestamp|
        t.wf() && msg.0 == #[trigger] peer_message(BMP_MSG_PEER_UP, peer, t, body);
    peer_message_layout(BMP_MSG_PEER_UP, peer, t, body);
    source_is_read_back(peer, cx.0[id], BMP_MSG_PEER_UP, t, body);
    j
}

/// Once a step of a dump does not go well, the dump is given up: nothing more is
/// sent, and the consumer gets to know no peer, whatever comes after.
pub proof fn failed_dump_is_given_up(
    runs: (DumpRun, DumpRun, DumpRun),
    first: (ClientState, ClientState),
    second: (ClientState, ClientState),
    went_well: bool,
    actions: (DumpAction, DumpAction),
)
    requires
        dump_step(runs.0, runs.1, first, false, actions.0),
        dump_step(runs.1, runs.2, second, went_well, actions.1),
    ensures
        actions.0 is GiveUp,
        actions.1 is GiveUp,
        dump_sends(actions.0) is None,
        dump_sends(actions.1) is None,
        first.1.known() == first.0.known(),
        second.1.known() == second.0.known(),
        runs.2.stage_spec() == DumpStage::Over,
{
}

} // verus!
