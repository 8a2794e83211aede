//! What a BMP consumer is sent: the initial dump, then every update.
//!
//! The functions here decide which messages go out and what is remembered of
//! it. Sending is left to the caller, who reports what became of each message.
use crate::ingress::{unknown_source, IngressId, IngressInfo, Register};
use crate::payload::{Payload, RotondaRoute, RouteStatus, Update};
use crate::text::{opt_str, opt_text};
use crate::units::bmp_tcp_out::bmp_builder::{
    admin_label_json, bgp_update, build_admin_label_json, build_peer_down, build_peer_up,
    build_route_monitoring_from_route, build_statistics_report, describes,
    fan_in_distinguisher_tag, fan_in_hash, fan_in_tag, fan_in_tag_is_not_zero, fan_in_tags_differ,
    inbound_distinguisher, peer_message, peer_message_layout, peer_up_body, route_monitoring,
    per_peer_header, same_header_but_time, stamped, zero_distinguisher, PeerInfo, Timestamp, BMP_MSG_PEER_DOWN, BMP_MSG_PEER_UP,
    BMP_MSG_ROUTE_MONITORING, BMP_MSG_STATISTICS_REPORT,
    BMP_PEER_DOWN_REASON_REMOTE_NO_NOTIFICATION,
};
use crate::units::bmp_tcp_out::client_state::ClientState;
use vstd::prelude::*;
use vstd::std_specs::hash::*;

verus! {

/// Whether, and how, the distinguisher of a peer tells its router apart.
#[derive(Clone, Copy, Debug, PartialEq, Eq, Structural)]
pub enum FanInPeerDistinguisher {
    /// The distinguisher stays as it came.
    Off,
    /// A peer without distinguisher is given a hash of its router's identity.
    IngressHash,
}

impl FanInPeerDistinguisher {
    /// Whether peers are stamped.
    pub fn is_enabled(&self) -> (yes: bool)
        ensures
            yes == (*self is IngressHash),
    {
        matches!(self, FanInPeerDistinguisher::IngressHash)
    }
}

//------------ What is said of a peer ----------------------------------------

/// The label for a peer: that of the router that reports it, if router
/// information is forwarded.
pub open spec fn admin_label_of(
    info: IngressInfo,
    sources: Map<IngressId, IngressInfo>,
    forward_router_info: bool,
) -> Option<Seq<char>> {
    match info.parent_ingress {
        Some(parent) => if forward_router_info && sources.contains_key(parent) {
            admin_label_json(opt_text(sources[parent].name), opt_text(sources[parent].desc))
        } else {
            None
        },
        None => None,
    }
}

/// The distinguisher of a peer after stamping.
pub open spec fn emitted_distinguisher(info: IngressInfo, fan_in: FanInPeerDistinguisher) -> Seq<
    u8,
> {
    match info.parent_ingress {
        Some(parent) => if fan_in is IngressHash {
            stamped(inbound_distinguisher(info), fan_in_tag(parent))
        } else {
            inbound_distinguisher(info)
        },
        None => inbound_distinguisher(info),
    }
}

/// Whether this is what the messages about a peer with this source say of it.
pub open spec fn is_emitted_as(
    peer: PeerInfo,
    info: IngressInfo,
    sources: Map<IngressId, IngressInfo>,
    forward_router_info: bool,
    fan_in: FanInPeerDistinguisher,
) -> bool {
    &&& describes(peer, info)
    &&& peer.peer_distinguisher@ == emitted_distinguisher(info, fan_in)
    &&& opt_text(peer.admin_label) == admin_label_of(info, sources, forward_router_info)
}

/// The text as a slice.
fn text_slice(text: &Option<String>) -> (slice: Option<&str>)
    ensures
        opt_str(slice) == opt_text(*text),
{
    match text {
        Some(s) => Some(s.as_str()),
        None => None,
    }
}

/// Makes the label for a peer from the name and description of its router.
pub fn resolve_admin_label(
    info: &IngressInfo,
    ingress_register: &Register,
    forward_router_info: bool,
) -> (label: Option<String>)
    ensures
        opt_text(label) == admin_label_of(*info, ingress_register@, forward_router_info),
{
    if !forward_router_info {
        return None;
    }
    match info.parent_ingress {
        Some(parent_id) => match ingress_register.get(parent_id) {
            Some(parent) => build_admin_label_json(
                text_slice(&parent.name),
                text_slice(&parent.desc),
            ),
            None => None,
        },
        None => None,
    }
}

/// Makes what the messages about a peer say of it: with the label and the
/// fan-in tag where they are configured.
///
/// Every message about the peer is made from this, so that all carry the same
/// header.
pub fn build_peer_info_for_emit(
    info: &IngressInfo,
    ingress_register: &Register,
    forward_router_info: bool,
    fan_in_peer_distinguisher: FanInPeerDistinguisher,
) -> (peer: PeerInfo)
    ensures
        is_emitted_as(
            peer,
            *info,
            ingress_register@,
            forward_router_info,
            fan_in_peer_distinguisher,
        ),
{
    let mut peer_info = PeerInfo::from_ingress_info(info);
    peer_info.admin_label = resolve_admin_label(info, ingress_register, forward_router_info);
    if fan_in_peer_distinguisher.is_enabled() {
        if let Some(parent_id) = info.parent_ingress {
            let tag = fan_in_distinguisher_tag(parent_id);
            peer_info.apply_fan_in_distinguisher(tag);
        }
    }
    peer_info
}

/// With stamping, a peer that a router reports never goes out with a zero
/// distinguisher; one that came with a real distinguisher keeps it, stamped or
/// not; and one that no router reports keeps what it came with.
pub proof fn stamping_law(info: IngressInfo, fan_in: FanInPeerDistinguisher)
    ensures
        fan_in is IngressHash && info.parent_ingress is Some ==> emitted_distinguisher(info, fan_in)
            != zero_distinguisher(),
        inbound_distinguisher(info) != zero_distinguisher() || info.parent_ingress is None
            || fan_in is Off ==> emitted_distinguisher(info, fan_in) == inbound_distinguisher(info),
{
    if let Some(parent) = info.parent_ingress {
        fan_in_tag_is_not_zero(parent);
    }
}

/// With stamping, the same neighbour reported by two routers goes out under two
/// distinguishers, unless the routers' hashes are the same or are zero and one.
pub proof fn routers_are_told_apart(a: IngressInfo, b: IngressInfo)
    requires
        a.parent_ingress is Some,
        b.parent_ingress is Some,
        inbound_distinguisher(a) == zero_distinguisher(),
        inbound_distinguisher(b) == zero_distinguisher(),
        fan_in_hash(a.parent_ingress->0) != fan_in_hash(b.parent_ingress->0),
        fan_in_hash(a.parent_ingress->0) > 1 || fan_in_hash(b.parent_ingress->0) > 1,
    ensures
        emitted_distinguisher(a, FanInPeerDistinguisher::IngressHash) != emitted_distinguisher(
            b,
            FanInPeerDistinguisher::IngressHash,
        ),
{
    fan_in_tags_differ(a.parent_ingress->0, b.parent_ingress->0);
}

//------------ What an update becomes ----------------------------------------

/// A message on its way to a consumer.
#[derive(Debug)]
pub struct Outgoing {
    pub msg: Vec<u8>,
    /// The peer that the message makes known, which is to be forgotten if the
    /// message cannot be sent.
    pub peer_up_for: Option<IngressId>,
}

/// Whether a message is the Peer Up of a peer, sent outside a dump.
pub open spec fn is_peer_up(msg: Seq<u8>, peer: PeerInfo) -> bool {
    exists|t: Timestamp|
        t.wf() && msg == #[trigger] peer_message(BMP_MSG_PEER_UP, peer, t, peer_up_body(peer, false))
}

/// Whether a message is the Peer Down of a peer.
pub open spec fn is_peer_down(msg: Seq<u8>, peer: PeerInfo) -> bool {
    exists|t: Timestamp|
        t.wf() && msg == #[trigger] peer_message(
            BMP_MSG_PEER_DOWN,
            peer,
            t,
            seq![BMP_PEER_DOWN_REASON_REMOTE_NO_NOTIFICATION],
        )
}

/// Whether a message reports statistics of a peer.
pub open spec fn is_statistics(msg: Seq<u8>, peer: PeerInfo, body: Seq<u8>) -> bool {
    exists|t: Timestamp|
        t.wf() && msg == #[trigger] peer_message(BMP_MSG_STATISTICS_REPORT, peer, t, body)
}

/// Whether a message announces or withdraws a route of a peer.
pub open spec fn is_route(msg: Seq<u8>, peer: PeerInfo, route: RotondaRoute, withdrawn: bool) -> bool {
    exists|t: Timestamp|
        t.wf() && Some(msg) == #[trigger] route_monitoring(
            peer,
            t,
            route.prefix_spec(),
            route.pamap_spec()@,
            withdrawn,
        )
}

/// What a consumer knows after a message about a peer was planned: the peer, if
/// it is registered, since its Peer Up was sent or is planned then.
pub open spec fn knows_peer(
    after: ClientState,
    before: ClientState,
    ingress_id: IngressId,
    registered: bool,
) -> bool {
    &&& after.known() == if registered {
        before.known().insert(ingress_id)
    } else {
        before.known()
    }
    &&& after.same_but_peers(&before)
}

/// Whether the first message, if one is due, is the Peer Up. It is due if the
/// peer is registered and was not known.
pub open spec fn starts_with_peer_up(
    plan: Seq<Outgoing>,
    due: bool,
    ingress_id: IngressId,
    peer: PeerInfo,
) -> bool {
    due ==> plan.len() > 0 && plan[0].peer_up_for == Some(ingress_id) && is_peer_up(
        plan[0].msg@,
        peer,
    )
}

/// The plan after the Peer Up.
pub open spec fn after_peer_up(plan: Seq<Outgoing>, due: bool) -> Seq<Outgoing> {
    if due {
        plan.skip(1)
    } else {
        plan
    }
}

/// The source of a peer, or one of which nothing is known where the register
/// has none.
pub open spec fn source_or_unknown(
    sources: Map<IngressId, IngressInfo>,
    ingress_id: IngressId,
) -> IngressInfo {
    if sources.contains_key(ingress_id) {
        sources[ingress_id]
    } else {
        unknown_source()
    }
}

/// Whether the plan is nothing but the message for a route, or nothing at all
/// where the route fits no message.
pub open spec fn is_route_only(plan: Seq<Outgoing>, peer: PeerInfo, payload: Payload) -> bool {
    let withdrawn = payload.route_status == RouteStatus::Withdrawn;
    let route = payload.rx_value;
    if bgp_update(route.prefix_spec(), route.pamap_spec()@, withdrawn) is Some {
        plan.len() == 1 && plan[0].peer_up_for is None && is_route(
            plan[0].msg@,
            peer,
            route,
            withdrawn,
        )
    } else {
        plan.len() == 0
    }
}

/// What the header and label of a peer's messages depend on besides its source:
/// the register, whether router information is forwarded, and the stamping.
pub type EmitContext = (Map<IngressId, IngressInfo>, bool, FanInPeerDistinguisher);

/// Whether this is what the messages about a peer with this source say of it.
pub open spec fn emitted(peer: PeerInfo, info: IngressInfo, cx: EmitContext) -> bool {
    is_emitted_as(peer, info, cx.0, cx.1, cx.2)
}

/// What a consumer is sent for a route, and what is remembered of it: under the
/// kept header if there is one; else under the header of the peer's source,
/// preceded by the Peer Up if the peer is registered and was not known.
pub open spec fn route_planned(
    before: ClientState,
    after: ClientState,
    payload: Payload,
    cx: EmitContext,
    plan: Seq<Outgoing>,
) -> bool {
    let id = payload.ingress_id;
    let registered = cx.0.contains_key(id);
    &&& knows_peer(after, before, id, registered)
    &&& if before.cache().contains_key(id) {
        &&& after.cache() == before.cache()
        &&& is_route_only(plan, before.cache()[id], payload)
    } else {
        let due = !before.known().contains(id) && registered;
        exists|peer: PeerInfo|
            {
                &&& #[trigger] emitted(peer, source_or_unknown(cx.0, id), cx)
                &&& starts_with_peer_up(plan, due, id, peer)
                &&& is_route_only(after_peer_up(plan, due), peer, payload)
                &&& after.cache() == if registered {
                    before.cache().insert(id, peer)
                } else {
                    before.cache()
                }
            }
    }
}

/// The source of a peer that is gone: what came with the withdrawal, or else
/// what the register has.
pub open spec fn gone_source(
    snapshot: Option<&IngressInfo>,
    sources: Map<IngressId, IngressInfo>,
    ingress_id: IngressId,
) -> IngressInfo {
    match snapshot {
        Some(info) => *info,
        None => source_or_unknown(sources, ingress_id),
    }
}

/// What a consumer is sent for a source that is gone: the Peer Down, if it knew
/// the peer. The peer is forgotten.
pub open spec fn peer_down_planned(
    before: ClientState,
    after: ClientState,
    ingress_id: IngressId,
    info: IngressInfo,
    cx: EmitContext,
    plan: Seq<Outgoing>,
) -> bool {
    &&& after.same_but_peers(&before)
    &&& after.known() == before.known().remove(ingress_id)
    &&& after.cache() == before.cache().remove(ingress_id)
    &&& if before.known().contains(ingress_id) {
        plan.len() == 1 && plan[0].peer_up_for is None && exists|peer: PeerInfo| #[trigger]
            emitted(peer, info, cx) && is_peer_down(plan[0].msg@, peer)
    } else {
        plan.len() == 0
    }
}

/// What a consumer is sent for a source that is back: the Peer Up, if the peer
/// is registered and was not known.
pub open spec fn peer_back_planned(
    before: ClientState,
    after: ClientState,
    ingress_id: IngressId,
    cx: EmitContext,
    plan: Seq<Outgoing>,
) -> bool {
    let registered = cx.0.contains_key(ingress_id);
    &&& after.same_but_peers(&before)
    &&& after.cache() == before.cache()
    &&& after.known() == if registered {
        before.known().insert(ingress_id)
    } else {
        before.known()
    }
    &&& if !before.known().contains(ingress_id) && registered {
        plan.len() == 1 && plan[0].peer_up_for == Some(ingress_id) && exists|peer: PeerInfo|
            #[trigger] emitted(peer, cx.0[ingress_id], cx) && is_peer_up(plan[0].msg@, peer)
    } else {
        plan.len() == 0
    }
}

/// What a consumer is sent for a statistics report: the Peer Up if the peer was
/// not known, then the report; nothing if the peer is not registered.
pub open spec fn statistics_planned(
    before: ClientState,
    after: ClientState,
    ingress_id: IngressId,
    body: Seq<u8>,
    cx: EmitContext,
    plan: Seq<Outgoing>,
) -> bool {
    &&& knows_peer(after, before, ingress_id, cx.0.contains_key(ingress_id))
    &&& after.cache() == before.cache()
    &&& if cx.0.contains_key(ingress_id) {
        let due = !before.known().contains(ingress_id);
        exists|peer: PeerInfo|
            {
                &&& #[trigger] emitted(peer, cx.0[ingress_id], cx)
                &&& starts_with_peer_up(plan, due, ingress_id, peer)
                &&& after_peer_up(plan, due).len() == 1
                &&& after_peer_up(plan, due)[0].peer_up_for is None
                &&& is_statistics(after_peer_up(plan, due)[0].msg@, peer, body)
            }
    } else {
        plan.len() == 0
    }
}

/// Appends the message for a route.
fn push_route(plan: &mut Vec<Outgoing>, peer: &PeerInfo, payload: &Payload)
    ensures
        final(plan)@.len() >= old(plan)@.len(),
        final(plan)@.take(old(plan)@.len() as int) == old(plan)@,
        is_route_only(final(plan)@.skip(old(plan)@.len() as int), *peer, *payload),
{
    let is_withdrawal = payload.route_status == RouteStatus::Withdrawn;
    if let Some(msg) = build_route_monitoring_from_route(peer, &payload.rx_value, is_withdrawal) {
        plan.push(Outgoing { msg, peer_up_for: None });
    }
    assert(plan@.take(old(plan)@.len() as int) =~= old(plan)@);
}

/// Starts a plan with the Peer Up of a peer that is registered and not known
/// yet. A registered peer is known from now on.
fn peer_up_if_new(
    client: &mut ClientState,
    ingress_id: IngressId,
    ingress_register: &Register,
    forward_router_info: bool,
    fan_in_peer_distinguisher: FanInPeerDistinguisher,
) -> (res: (Vec<Outgoing>, PeerInfo))
    requires
        old(client).wf(),
    ensures
        final(client).wf(),
        knows_peer(
            *final(client),
            *old(client),
            ingress_id,
            ingress_register@.contains_key(ingress_id),
        ),
        final(client).cache() == old(client).cache(),
        emitted(
            res.1,
            source_or_unknown(ingress_register@, ingress_id),
            (ingress_register@, forward_router_info, fan_in_peer_distinguisher),
        ),
        ({
            let due = !old(client).known().contains(ingress_id)
                && ingress_register@.contains_key(ingress_id);
            &&& starts_with_peer_up(res.0@, due, ingress_id, res.1)
            &&& after_peer_up(res.0@, due).len() == 0
        }),
{
    let mut plan: Vec<Outgoing> = Vec::new();
    let peer = match ingress_register.get(ingress_id) {
        Some(info) => {
            let fresh = client.register_known_peer_if_absent(ingress_id);
            let peer = build_peer_info_for_emit(
                info,
                ingress_register,
                forward_router_info,
                fan_in_peer_distinguisher,
            );
            if fresh {
                let msg = build_peer_up(&peer, false);
                plan.push(Outgoing { msg, peer_up_for: Some(ingress_id) });
            }
            peer
        },
        None => build_peer_info_for_emit(
            &IngressInfo::default(),
            ingress_register,
            forward_router_info,
            fan_in_peer_distinguisher,
        ),
    };
    (plan, peer)
}

/// Plans the messages for one route.
///
/// What is said of the peer is kept once the peer is registered, and every
/// further route uses it. The first route of a registered peer that is not
/// known yet is preceded by the peer's Peer Up. A route of a peer that is not
/// registered goes out under a default header.
pub fn send_payload_to_client(
    client: &mut ClientState,
    payload: &Payload,
    ingress_register: &Register,
    forward_router_info: bool,
    fan_in_peer_distinguisher: FanInPeerDistinguisher,
) -> (plan: Vec<Outgoing>)
    requires
        old(client).wf(),
    ensures
        final(client).wf(),
        route_planned(
            *old(client),
            *final(client),
            *payload,
            (ingress_register@, forward_router_info, fan_in_peer_distinguisher),
            plan@,
        ),
{
    let ingress_id: IngressId = payload.ingress_id;
    if let Some(peer) = client.cached_peer_info(ingress_id) {
        let mut plan: Vec<Outgoing> = Vec::new();
        push_route(&mut plan, peer, payload);
        proof {
            client.buffer_keeps_limits();
            assert(client.known().contains(ingress_id));
            assert(client.known().insert(ingress_id) =~= client.known());
            assert(plan@.skip(0) =~= plan@);
        }
        return plan;
    }
    let (mut plan, peer) = peer_up_if_new(
        client,
        ingress_id,
        ingress_register,
        forward_router_info,
        fan_in_peer_distinguisher,
    );
    let ghost start = plan@;
    push_route(&mut plan, &peer, payload);
    if ingress_register.get(ingress_id).is_some() {
        client.cache_peer_info(ingress_id, peer.clone());
    }
    proof {
        let due = !old(client).known().contains(ingress_id) && ingress_register@.contains_key(
            ingress_id,
        );
        assert(after_peer_up(plan@, due) =~= plan@.skip(start.len() as int));
        assert(due ==> plan@[0] == plan@.take(start.len() as int)[0]);
    }
    plan
}

/// Plans the message for a source that is gone: the Peer Down of a peer that
/// the consumer knows. The peer is forgotten, whether the message can be sent
/// or not.
///
/// What came with the withdrawal is preferred to the register, which may have
/// dropped the source already.
pub fn send_peer_down(
    client: &mut ClientState,
    ingress_id: IngressId,
    snapshot_info: Option<&IngressInfo>,
    ingress_register: &Register,
    forward_router_info: bool,
    fan_in_peer_distinguisher: FanInPeerDistinguisher,
) -> (plan: Vec<Outgoing>)
    requires
        old(client).wf(),
    ensures
        final(client).wf(),
        peer_down_planned(
            *old(client),
            *final(client),
            ingress_id,
            gone_source(snapshot_info, ingress_register@, ingress_id),
            (ingress_register@, forward_router_info, fan_in_peer_distinguisher),
            plan@,
        ),
{
    let mut plan: Vec<Outgoing> = Vec::new();
    if !client.has_known_peer(ingress_id) {
        proof {
            client.buffer_keeps_limits();
            assert(client.known().remove(ingress_id) =~= client.known());
            assert(client.cache().remove(ingress_id) =~= client.cache());
        }
        return plan;
    }
    let unknown = IngressInfo::default();
    let info = match snapshot_info {
        Some(info) => info,
        None => match ingress_register.get(ingress_id) {
            Some(info) => info,
            None => &unknown,
        },
    };
    let peer = build_peer_info_for_emit(
        info,
        ingress_register,
        forward_router_info,
        fan_in_peer_distinguisher,
    );
    let msg = build_peer_down(&peer);
    assert(emitted(
        peer,
        *info,
        (ingress_register@, forward_router_info, fan_in_peer_distinguisher),
    ));
    plan.push(Outgoing { msg, peer_up_for: None });
    client.remove_known_peer(ingress_id);
    plan
}

/// Plans the message for a source that is back: the Peer Up of a registered
/// peer that is not known yet.
pub fn send_peer_reappeared(
    client: &mut ClientState,
    ingress_id: IngressId,
    ingress_register: &Register,
    forward_router_info: bool,
    fan_in_peer_distinguisher: FanInPeerDistinguisher,
) -> (plan: Vec<Outgoing>)
    requires
        old(client).wf(),
    ensures
        final(client).wf(),
        peer_back_planned(
            *old(client),
            *final(client),
            ingress_id,
            (ingress_register@, forward_router_info, fan_in_peer_distinguisher),
            plan@,
        ),
{
    if ingress_register.get(ingress_id).is_none() {
        return Vec::new();
    }
    let (plan, _peer) = peer_up_if_new(
        client,
        ingress_id,
        ingress_register,
        forward_router_info,
        fan_in_peer_distinguisher,
    );
    assert(after_peer_up(plan@, true) =~= plan@.skip(1));
    plan
}

/// Plans the messages for a statistics report: the Peer Up of a registered
/// peer that is not known yet, then the report under the same header. A report
/// about a peer that is not registered is dropped.
pub fn send_peer_stats(
    client: &mut ClientState,
    ingress_id: IngressId,
    body: &[u8],
    ingress_register: &Register,
    forward_router_info: bool,
    fan_in_peer_distinguisher: FanInPeerDistinguisher,
) -> (plan: Vec<Outgoing>)
    requires
        old(client).wf(),
        body@.len() <= usize::MAX - 48,
    ensures
        final(client).wf(),
        statistics_planned(
            *old(client),
            *final(client),
            ingress_id,
            body@,
            (ingress_register@, forward_router_info, fan_in_peer_distinguisher),
            plan@,
        ),
{
    let (mut plan, peer) = peer_up_if_new(
        client,
        ingress_id,
        ingress_register,
        forward_router_info,
        fan_in_peer_distinguisher,
    );
    let ghost start = plan@;
    if ingress_register.get(ingress_id).is_none() {
        return plan;
    }
    let msg = build_statistics_report(&peer, body);
    plan.push(Outgoing { msg, peer_up_for: None });
    proof {
        let due = !old(client).known().contains(ingress_id);
        assert(due ==> plan@[0] == start[0]);
        assert(start.len() == if due {
            1nat
        } else {
            0nat
        });
        assert(after_peer_up(plan@, due)[0] == plan@[start.len() as int]);
    }
    plan
}

/// The number of parts that an update is sent in: the next part is planned
/// once the messages of the one before were sent.
pub open spec fn parts_of(update: Update) -> nat {
    match update {
        Update::Single(_) => 1,
        Update::Bulk(payloads) => payloads@.len(),
        Update::Withdraw(..) => 1,
        Update::WithdrawBulk(sources) => sources@.len(),
        Update::IngressReappeared(_) => 1,
        Update::PeerStats { .. } => 1,
        _ => 0,
    }
}

/// The number of parts that an update is sent in. Updates that are of no
/// concern to BMP consumers have none.
pub fn update_parts(update: &Update) -> (n: usize)
    ensures
        n == parts_of(*update),
{
    match update {
        Update::Single(_) => 1,
        Update::Bulk(payloads) => payloads.len(),
        Update::Withdraw(..) => 1,
        Update::WithdrawBulk(sources) => sources.len(),
        Update::IngressReappeared(_) => 1,
        Update::PeerStats { .. } => 1,
        _ => 0,
    }
}

/// What a consumer is sent for one part of an update, and what is remembered of
/// it.
pub open spec fn part_planned(
    before: ClientState,
    after: ClientState,
    update: Update,
    part: int,
    cx: EmitContext,
    plan: Seq<Outgoing>,
) -> bool {
    match update {
        Update::Single(payload) => route_planned(before, after, payload, cx, plan),
        Update::Bulk(payloads) => route_planned(before, after, payloads@[part], cx, plan),
        Update::Withdraw(id, _) => peer_down_planned(
            before,
            after,
            id,
            source_or_unknown(cx.0, id),
            cx,
            plan,
        ),
        Update::WithdrawBulk(sources) => peer_down_planned(
            before,
            after,
            sources@[part].ingress_id,
            match sources@[part].ingress_info {
                Some(info) => info,
                None => source_or_unknown(cx.0, sources@[part].ingress_id),
            },
            cx,
            plan,
        ),
        Update::IngressReappeared(id) => peer_back_planned(before, after, id, cx, plan),
        Update::PeerStats { ingress_id, body } => statistics_planned(
            before,
            after,
            ingress_id,
            body@,
            cx,
            plan,
        ),
        _ => false,
    }
}

/// Plans the messages for one part of an update.
///
/// The parts are planned in order, each once the messages of the one before
/// were sent; after a message that cannot be sent the rest is given up.
pub fn send_update_to_client(
    client: &mut ClientState,
    update: &Update,
    part: usize,
    ingress_register: &Register,
    forward_router_info: bool,
    fan_in_peer_distinguisher: FanInPeerDistinguisher,
) -> (plan: Vec<Outgoing>)
    requires
        old(client).wf(),
        part < parts_of(*update),
        *update matches Update::PeerStats { body, .. } ==> body@.len() <= usize::MAX - 48,
    ensures
        final(client).wf(),
        final(client).same_but_peers(old(client)),
        part_planned(
            *old(client),
            *final(client),
            *update,
            part as int,
            (ingress_register@, forward_router_info, fan_in_peer_distinguisher),
            plan@,
        ),
{
    match update {
        Update::Single(payload) => send_payload_to_client(
            client,
            payload,
            ingress_register,
            forward_router_info,
            fan_in_peer_distinguisher,
        ),
        Update::Bulk(payloads) => send_payload_to_client(
            client,
            payloads.get(part),
            ingress_register,
            forward_router_info,
            fan_in_peer_distinguisher,
        ),
        Update::Withdraw(ingress_id, _afisafi) => send_peer_down(
            client,
            *ingress_id,
            None,
            ingress_register,
            forward_router_info,
            fan_in_peer_distinguisher,
        ),
        Update::WithdrawBulk(sources) => {
            let source = sources.get(part);
            send_peer_down(
                client,
                source.ingress_id,
                source.ingress_info.as_ref(),
                ingress_register,
                forward_router_info,
                fan_in_peer_distinguisher,
            )
        },
        Update::IngressReappeared(ingress_id) => send_peer_reappeared(
            client,
            *ingress_id,
            ingress_register,
            forward_router_info,
            fan_in_peer_distinguisher,
        ),
        Update::PeerStats { ingress_id, body } => send_peer_stats(
            client,
            *ingress_id,
            body.as_slice(),
            ingress_register,
            forward_router_info,
            fan_in_peer_distinguisher,
        ),
        _ => Vec::new(),
    }
}

/// Takes note that a message could not be sent: a peer that it was to make
/// known is not known after all.
pub fn send_failed(client: &mut ClientState, outgoing: &Outgoing)
    requires
        old(client).wf(),
    ensures
        final(client).wf(),
        final(client).same_but_peers(old(client)),
        match outgoing.peer_up_for {
            Some(id) => final(client).known() == old(client).known().remove(id)
                && final(client).cache() == old(client).cache().remove(id),
            None => final(client).known() == old(client).known() && final(client).cache() == old(
                client,
            ).cache(),
        },
{
    if let Some(ingress_id) = outgoing.peer_up_for {
        client.remove_known_peer(ingress_id);
    }
}

//------------ Laws ----------------------------------------------------------

/// Whether there is a message for a route.
pub open spec fn fits_a_message(payload: Payload) -> bool {
    bgp_update(
        payload.rx_value.prefix_spec(),
        payload.rx_value.pamap_spec()@,
        payload.route_status == RouteStatus::Withdrawn,
    ) is Some
}

/// A route of a registered peer that the consumer does not know is never sent
/// before the peer's Peer Up, and both carry the same header but for the time.
pub proof fn peer_up_comes_first(
    before: ClientState,
    after: ClientState,
    payload: Payload,
    cx: EmitContext,
    plan: Seq<Outgoing>,
)
    requires
        before.wf(),
        route_planned(before, after, payload, cx, plan),
        cx.0.contains_key(payload.ingress_id),
        !before.known().contains(payload.ingress_id),
    ensures
        plan.len() == if fits_a_message(payload) {
            2nat
        } else {
            1nat
        },
        plan[0].peer_up_for == Some(payload.ingress_id),
        plan[0].msg@[5] == BMP_MSG_PEER_UP,
        forall|i: int|
            1 <= i < plan.len() ==> (#[trigger] plan[i]).msg@[5] == BMP_MSG_ROUTE_MONITORING
                && plan[i].msg@.subrange(6, 40) == plan[0].msg@.subrange(6, 40),
        after.known().contains(payload.ingress_id),
{
    before.buffer_keeps_limits();
    let id = payload.ingress_id;
    let peer = choose|peer: PeerInfo|
        {
            &&& #[trigger] emitted(peer, source_or_unknown(cx.0, id), cx)
            &&& starts_with_peer_up(plan, true, id, peer)
            &&& is_route_only(after_peer_up(plan, true), peer, payload)
        };
    let t = choose|t: Timestamp|
        t.wf() && plan[0].msg@ == #[trigger] peer_message(
            BMP_MSG_PEER_UP,
            peer,
            t,
            peer_up_body(peer, false),
        );
    peer_message_layout(BMP_MSG_PEER_UP, peer, t, peer_up_body(peer, false));
    assert forall|i: int| 1 <= i < plan.len() implies (#[trigger] plan[i]).msg@[5]
        == BMP_MSG_ROUTE_MONITORING && plan[i].msg@.subrange(6, 40) == plan[0].msg@.subrange(
        6,
        40,
    ) by {
        let rest = after_peer_up(plan, true);
        assert(rest[i - 1] == plan[i]);
        let withdrawn = payload.route_status == RouteStatus::Withdrawn;
        let route = payload.rx_value;
        let u = choose|u: Timestamp|
            u.wf() && Some(plan[i].msg@) == #[trigger] route_monitoring(
                peer,
                u,
                route.prefix_spec(),
                route.pamap_spec()@,
                withdrawn,
            );
        peer_message_layout(
            BMP_MSG_ROUTE_MONITORING,
            peer,
            u,
            bgp_update(route.prefix_spec(), route.pamap_spec()@, withdrawn)->0,
        );
        same_header_but_time(peer, t, u);
        assert(plan[i].msg@.subrange(6, 40) =~= per_peer_header(peer, u).take(34));
        assert(plan[0].msg@.subrange(6, 40) =~= per_peer_header(peer, t).take(34)) by {
            assert(plan[0].msg@.subrange(6, 48) == per_peer_header(peer, t));
        }
    }
}

/// Once a route of a registered peer was planned, the next one needs no Peer
/// Up: its message, if it fits one, is all that is sent.
pub proof fn next_route_needs_no_peer_up(
    first: ClientState,
    second: ClientState,
    third: ClientState,
    payload1: Payload,
    payload2: Payload,
    cx: EmitContext,
    plan1: Seq<Outgoing>,
    plan2: Seq<Outgoing>,
)
    requires
        route_planned(first, second, payload1, cx, plan1),
        route_planned(second, third, payload2, cx, plan2),
        payload1.ingress_id == payload2.ingress_id,
        cx.0.contains_key(payload1.ingress_id),
    ensures
        plan2.len() <= 1,
        forall|i: int| 0 <= i < plan2.len() ==> (#[trigger] plan2[i]).peer_up_for is None,
{
    assert(second.cache().contains_key(payload1.ingress_id));
}

/// A peer becomes known to a consumer only together with its Peer Up.
pub proof fn peers_become_known_by_peer_up(
    before: ClientState,
    after: ClientState,
    update: Update,
    part: int,
    cx: EmitContext,
    plan: Seq<Outgoing>,
    id: IngressId,
)
    requires
        before.wf(),
        part_planned(before, after, update, part, cx, plan),
        after.known().contains(id),
        !before.known().contains(id),
    ensures
        plan.len() > 0,
        plan[0].peer_up_for == Some(id),
        exists|peer: PeerInfo| is_peer_up(plan[0].msg@, peer),
{
    before.buffer_keeps_limits();
}

/// A report of a registered peer that the consumer does not know is never sent
/// before the peer's Peer Up, and both carry the same distinguisher.
pub proof fn peer_up_comes_before_statistics(
    before: ClientState,
    after: ClientState,
    ingress_id: IngressId,
    body: Seq<u8>,
    cx: EmitContext,
    plan: Seq<Outgoing>,
)
    requires
        statistics_planned(before, after, ingress_id, body, cx, plan),
        cx.0.contains_key(ingress_id),
        !before.known().contains(ingress_id),
    ensures
        plan.len() == 2,
        plan[0].peer_up_for == Some(ingress_id),
        plan[0].msg@[5] == BMP_MSG_PEER_UP,
        plan[1].msg@[5] == BMP_MSG_STATISTICS_REPORT,
        plan[1].msg@.subrange(8, 16) == plan[0].msg@.subrange(8, 16),
        plan[1].msg@.skip(48) == body,
        after.known().contains(ingress_id),
{
    let peer = choose|peer: PeerInfo|
        {
            &&& #[trigger] emitted(peer, cx.0[ingress_id], cx)
            &&& starts_with_peer_up(plan, true, ingress_id, peer)
            &&& after_peer_up(plan, true).len() == 1
            &&& after_peer_up(plan, true)[0].peer_up_for is None
            &&& is_statistics(after_peer_up(plan, true)[0].msg@, peer, body)
        };
    let t = choose|t: Timestamp|
        t.wf() && plan[0].msg@ == #[trigger] peer_message(
            BMP_MSG_PEER_UP,
            peer,
            t,
            peer_up_body(peer, false),
        );
    peer_message_layout(BMP_MSG_PEER_UP, peer, t, peer_up_body(peer, false));
    assert(after_peer_up(plan, true)[0] == plan[1]);
    let u = choose|u: Timestamp|
        u.wf() && plan[1].msg@ == #[trigger] peer_message(
            BMP_MSG_STATISTICS_REPORT,
            peer,
            u,
            body,
        );
    peer_message_layout(BMP_MSG_STATISTICS_REPORT, peer, u, body);
}

/// After a Peer Down was planned a second one is not, until the peer is made
/// known again.
pub proof fn peer_down_is_sent_once(
    first: ClientState,
    second: ClientState,
    third: ClientState,
    ingress_id: IngressId,
    info1: IngressInfo,
    info2: IngressInfo,
    cx: EmitContext,
    plan1: Seq<Outgoing>,
    plan2: Seq<Outgoing>,
)
    requires
        peer_down_planned(first, second, ingress_id, info1, cx, plan1),
        peer_down_planned(second, third, ingress_id, info2, cx, plan2),
    ensures
        plan2.len() == 0,
        !third.known().contains(ingress_id),
{
}

} // verus!
