//! What a consumer is sent for whole updates, message by message.
use crate::ingress::{unknown_source, IngressId, IngressInfo};
use crate::net::AfiSafiType;
use crate::payload::{
    Payload, PayloadBatch, RouteStatus, StatsBody, Update, WithdrawBatch, WithdrawnSource,
};
use crate::text::opt_text;
use crate::units::bmp_tcp_out::bmp_builder::{
    bgp_update, peer_message, peer_message_layout, peer_up_body, per_peer_header,
    route_monitoring, same_header_but_time, PeerInfo, Timestamp, BMP_MSG_PEER_DOWN,
    BMP_MSG_PEER_UP, BMP_MSG_ROUTE_MONITORING, BMP_MSG_STATISTICS_REPORT,
    BMP_PEER_DOWN_REASON_REMOTE_NO_NOTIFICATION,
};
use crate::units::bmp_tcp_out::client_handler::{
    after_peer_up, emitted, is_peer_down, is_peer_up, is_route, is_route_only, is_statistics,
    part_planned, parts_of, route_planned, source_or_unknown, starts_with_peer_up, EmitContext,
    Outgoing,
};
use crate::units::bmp_tcp_out::client_state::ClientState;
use crate::units::bmp_tcp_out::readback::{
    announcement_is_read_back, announces, is_member, label_is_read_back,
    label_leaves_out_what_says_nothing, label_members, says_nothing, source_is_read_back, tells_of,
    withdrawal_is_read_back, withdraws,
};
use crate::units::bmp_tcp_out::update_run::{
    next_part_begun, parts_in_turn, sends, update_step, UpdateAction, UpdateRun, UpdateStage,
};
use crate::wire::octets_value;
use vstd::prelude::*;

verus! {

//------------ Single messages -----------------------------------------------

/// Whether a message is a Route Monitoring message (type 0) that announces or
/// withdraws the route of a payload, and nothing else.
pub open spec fn carries(msg: Seq<u8>, payload: Payload) -> bool {
    let route = payload.rx_value;
    &&& msg[5] == 0
    &&& if payload.route_status == RouteStatus::Withdrawn {
        withdraws(msg.skip(48), route.prefix_spec())
    } else {
        announces(msg.skip(48), route.prefix_spec(), route.pamap_spec()@)
    }
}

/// Whether there is an UPDATE for the route of a payload.
pub open spec fn has_update(payload: Payload) -> bool {
    bgp_update(
        payload.rx_value.prefix_spec(),
        payload.rx_value.pamap_spec()@,
        payload.route_status == RouteStatus::Withdrawn,
    ) is Some
}

proof fn route_is_carried(msg: Seq<u8>, peer: PeerInfo, payload: Payload)
    requires
        is_route(
            msg,
            peer,
            payload.rx_value,
            payload.route_status == RouteStatus::Withdrawn,
        ),
        payload.rx_value.prefix_spec().wf(),
    ensures
        carries(msg, payload),
{
    let withdrawn = payload.route_status == RouteStatus::Withdrawn;
    let prefix = payload.rx_value.prefix_spec();
    let raw = payload.rx_value.pamap_spec()@;
    let t = choose|t: Timestamp|
        t.wf() && Some(msg) == #[trigger] route_monitoring(peer, t, prefix, raw, withdrawn);
    let update = bgp_update(prefix, raw, withdrawn)->0;
    assert(msg == peer_message(BMP_MSG_ROUTE_MONITORING, peer, t, update));
    peer_message_layout(BMP_MSG_ROUTE_MONITORING, peer, t, update);
    if withdrawn {
        withdrawal_is_read_back(prefix, raw);
    } else {
        announcement_is_read_back(prefix, raw);
    }
}

proof fn peer_up_has_its_type(msg: Seq<u8>, peer: PeerInfo, info: IngressInfo, cx: EmitContext)
    requires
        is_peer_up(msg, peer),
        emitted(peer, info, cx),
    ensures
        msg[5] == 3,
        tells_of(msg, info),
        msg.subrange(8, 16) == peer.peer_distinguisher@,
{
    let t = choose|t: Timestamp|
        t.wf() && msg == #[trigger] peer_message(
            BMP_MSG_PEER_UP,
            peer,
            t,
            peer_up_body(peer, false),
        );
    peer_message_layout(BMP_MSG_PEER_UP, peer, t, peer_up_body(peer, false));
    source_is_read_back(peer, info, BMP_MSG_PEER_UP, t, peer_up_body(peer, false));
}

proof fn peer_down_has_its_type(msg: Seq<u8>, peer: PeerInfo, info: IngressInfo, cx: EmitContext)
    requires
        is_peer_down(msg, peer),
        emitted(peer, info, cx),
    ensures
        msg[5] == 2,
        msg.skip(48) == seq![4u8],
        tells_of(msg, info),
{
    let body = seq![BMP_PEER_DOWN_REASON_REMOTE_NO_NOTIFICATION];
    let t = choose|t: Timestamp|
        t.wf() && msg == #[trigger] peer_message(BMP_MSG_PEER_DOWN, peer, t, body);
    peer_message_layout(BMP_MSG_PEER_DOWN, peer, t, body);
    source_is_read_back(peer, info, BMP_MSG_PEER_DOWN, t, body);
}

//------------ Routes --------------------------------------------------------

/// Whether what is said of a peer is kept for known peers only, as it is for
/// every consumer.
pub open spec fn keeps_what_it_knows(client: ClientState) -> bool {
    client.cache().dom().subset_of(client.known())
}

/// The Route Monitoring messages (type 0) of a plan.
pub open spec fn route_messages(plan: Seq<Outgoing>) -> Seq<Outgoing> {
    plan.filter(|o: Outgoing| o.msg@[5] == 0)
}

/// For one route a consumer is sent the message that carries it, if there is an
/// UPDATE for it, and no other Route Monitoring message. All that may come
/// besides is one Peer Up (type 3), before it, if the peer is registered and the
/// consumer does not know it.
pub proof fn one_route_is_sent(
    before: ClientState,
    after: ClientState,
    payload: Payload,
    cx: EmitContext,
    plan: Seq<Outgoing>,
)
    requires
        keeps_what_it_knows(before),
        route_planned(before, after, payload, cx, plan),
        payload.rx_value.prefix_spec().wf(),
    ensures
        keeps_what_it_knows(after),
        ({
            let due = cx.0.contains_key(payload.ingress_id) && !before.known().contains(
                payload.ingress_id,
            );
            let ups = if due {
                1int
            } else {
                0
            };
            let sent = route_messages(plan);
            &&& plan.len() == ups + sent.len()
            &&& sent.len() == if has_update(payload) {
                1int
            } else {
                0
            }
            &&& has_update(payload) ==> sent[0] == plan.last() && carries(sent[0].msg@, payload)
            &&& due ==> plan[0].msg@[5] == 3 && tells_of(
                plan[0].msg@,
                cx.0[payload.ingress_id],
            ) && plan[0].peer_up_for == Some(payload.ingress_id)
        }),
{
    reveal_with_fuel(Seq::filter, 3);
    let id = payload.ingress_id;
    let registered = cx.0.contains_key(id);
    let due = registered && !before.known().contains(id);
    if before.cache().contains_key(id) {
        assert(before.known().contains(id));
        if has_update(payload) {
            route_is_carried(plan[0].msg@, before.cache()[id], payload);
            assert(plan =~= seq![plan[0]]);
            assert(plan.drop_last() =~= Seq::empty());
        }
    } else {
        let peer = choose|peer: PeerInfo|
            {
                &&& #[trigger] emitted(peer, source_or_unknown(cx.0, id), cx)
                &&& starts_with_peer_up(plan, due, id, peer)
                &&& is_route_only(after_peer_up(plan, due), peer, payload)
                &&& after.cache() == if registered {
                    before.cache().insert(id, peer)
                } else {
                    before.cache()
                }
            };
        let rest = after_peer_up(plan, due);
        if registered {
            assert(after.cache() == before.cache().insert(id, peer));
        }
        if due {
            peer_up_has_its_type(plan[0].msg@, peer, cx.0[id], cx);
            if has_update(payload) {
                assert(rest[0] == plan[1]);
                route_is_carried(plan[1].msg@, peer, payload);
                assert(plan.drop_last() =~= seq![plan[0]]);
                assert(plan.drop_last().drop_last() =~= Seq::empty());
            } else {
                assert(plan.drop_last() =~= Seq::empty());
            }
        } else if has_update(payload) {
            route_is_carried(plan[0].msg@, peer, payload);
            assert(plan.drop_last() =~= Seq::empty());
        }
    }
}

/// Whether the prefixes of all payloads are valid.
pub open spec fn prefixes_wf(payloads: Seq<Payload>) -> bool {
    forall|i: int| 0 <= i < payloads.len() ==> (#[trigger] payloads[i]).rx_value.prefix_spec().wf()
}

proof fn batch_so_far(
    batch: Box<PayloadBatch>,
    cx: EmitContext,
    states: Seq<ClientState>,
    plans: Seq<Seq<Outgoing>>,
    n: int,
)
    requires
        parts_in_turn(Update::Bulk(batch), 0, cx, states, plans),
        0 <= n <= plans.len(),
        keeps_what_it_knows(states[0]),
        prefixes_wf(batch@),
    ensures
        keeps_what_it_knows(states[n]),
        ({
            let sent = route_messages(plans.take(n).flatten());
            let fit = batch@.take(n).filter(|p: Payload| has_update(p));
            &&& sent.len() == fit.len()
            &&& forall|k: int|
                0 <= k < sent.len() ==> carries((#[trigger] sent[k]).msg@, fit[k])
        }),
    decreases n,
{
    let update = Update::Bulk(batch);
    let pred = |o: Outgoing| o.msg@[5] == 0;
    let fits = |p: Payload| has_update(p);
    if n == 0 {
        reveal(Seq::filter);
        assert(plans.take(0) =~= Seq::empty());
        assert(plans.take(0).flatten() =~= Seq::empty());
        assert(batch@.take(0) =~= Seq::empty());
    } else {
        let k = n - 1;
        batch_so_far(batch, cx, states, plans, k);
        assert(part_planned(states[k], states[k + 1], update, 0 + k, cx, plans[k]));
        assert(batch@[k].rx_value.prefix_spec().wf());
        one_route_is_sent(states[k], states[k + 1], batch@[k], cx, plans[k]);
        assert(plans.take(n) =~= plans.take(k).push(plans[k]));
        plans.take(k).lemma_flatten_push(plans[k]);
        Seq::filter_distributes_over_add(plans.take(k).flatten(), plans[k], pred);
        let early = route_messages(plans.take(k).flatten());
        let late = route_messages(plans[k]);
        let sent = route_messages(plans.take(n).flatten());
        assert(sent == early + late);
        let fit = batch@.take(n).filter(fits);
        assert(fit == if has_update(batch@[k]) {
            batch@.take(k).filter(fits).push(batch@[k])
        } else {
            batch@.take(k).filter(fits)
        }) by {
            reveal(Seq::filter);
            assert(batch@.take(n).drop_last() =~= batch@.take(k));
            assert(batch@.take(n).last() == batch@[k]);
        }
    }
}

/// For a batch of routes whose parts are all planned in turn, the Route
/// Monitoring messages are, in order, one for each payload of the batch for
/// which there is an UPDATE: each carries the route of its payload, over the
/// whole batch.
pub proof fn batch_is_sent_route_by_route(
    batch: Box<PayloadBatch>,
    cx: EmitContext,
    states: Seq<ClientState>,
    plans: Seq<Seq<Outgoing>>,
)
    requires
        parts_in_turn(Update::Bulk(batch), 0, cx, states, plans),
        plans.len() == parts_of(Update::Bulk(batch)),
        keeps_what_it_knows(states[0]),
        prefixes_wf(batch@),
    ensures
        ({
            let sent = route_messages(plans.flatten());
            let fit = batch@.filter(|p: Payload| has_update(p));
            &&& sent.len() == fit.len()
            &&& forall|k: int|
                0 <= k < sent.len() ==> carries((#[trigger] sent[k]).msg@, fit[k])
        }),
        plans.len() == batch@.len(),
{
    batch_so_far(batch, cx, states, plans, plans.len() as int);
    assert(plans.take(plans.len() as int) =~= plans);
    assert(batch@.take(plans.len() as int) =~= batch@);
}

//------------ Whole updates -------------------------------------------------

/// Whether these are the steps by which an update is sent to a consumer that
/// refuses nothing. Between the steps anything may become of the consumer, but
/// for the peers that it knows.
pub open spec fn sent_without_refusal(
    runs: Seq<UpdateRun>,
    befores: Seq<ClientState>,
    afters: Seq<ClientState>,
    update: Update,
    cx: EmitContext,
    actions: Seq<UpdateAction>,
) -> bool {
    &&& runs.len() == actions.len() + 1
    &&& befores.len() == actions.len()
    &&& afters.len() == actions.len()
    &&& runs[0].stage_spec() == UpdateStage::Start
    &&& runs[0].part_spec() == 0
    &&& forall|i: int|
        0 <= i < actions.len() ==> update_step(
            runs[i],
            runs[i + 1],
            (befores[i], afters[i]),
            update,
            cx,
            true,
            #[trigger] actions[i],
        )
    &&& forall|i: int, j: int|
        #![trigger afters[i], befores[j]]
        0 <= i && j == i + 1 && j < befores.len() ==> afters[i].same_peers(&befores[j])
}

/// The messages that a consumer was handed, in order.
pub open spec fn messages_of(actions: Seq<UpdateAction>) -> Seq<Seq<u8>> {
    actions.filter_map(|a: UpdateAction| sends(a))
}

/// The octets of planned messages.
pub open spec fn octets_of(plan: Seq<Outgoing>) -> Seq<Seq<u8>> {
    plan.map_values(|o: Outgoing| o.msg@)
}

/// Whether all parts of an update up to one were planned in turn.
#[verifier::opaque]
pub(crate) open spec fn in_turn(
    update: Update,
    cx: EmitContext,
    states: Seq<ClientState>,
    plans: Seq<Seq<Outgoing>>,
) -> bool {
    parts_in_turn(update, 0, cx, states, plans)
}

/// Whether this is how far the sending of an update has come: the parts that were
/// planned in turn, and the messages that went out.
pub(crate) open spec fn sent_so_far(
    run: UpdateRun,
    clients: (ClientState, ClientState),
    update: Update,
    cx: EmitContext,
    sent: Seq<Seq<u8>>,
    states: Seq<ClientState>,
    plans: Seq<Seq<Outgoing>>,
) -> bool {
    &&& in_turn(update, cx, states, plans)
    &&& states[0] == clients.0
    &&& states.last() == clients.1
    &&& plans.len() == run.part_spec()
    &&& match run.stage_spec() {
        UpdateStage::Start => plans.len() == 0 && sent.len() == 0,
        UpdateStage::Waiting => {
            &&& plans.len() > 0
            &&& run.plan_spec() == plans.last()
            &&& run.at_spec() < plans.last().len()
            &&& sent == octets_of(plans.drop_last().flatten()) + octets_of(
                plans.last().take(run.at_spec() as int + 1),
            )
        },
        UpdateStage::Done => plans.len() == parts_of(update) && sent == octets_of(
            plans.flatten(),
        ),
        UpdateStage::Failed => false,
    }
}

proof fn flat_append(a: Seq<Seq<Outgoing>>, b: Seq<Seq<Outgoing>>)
    ensures
        (a + b).flatten() == a.flatten() + b.flatten(),
    decreases b.len(),
{
    if b.len() == 0 {
        assert(a + b =~= a);
        assert(b.flatten() =~= Seq::empty());
        assert(a.flatten() + b.flatten() =~= a.flatten());
    } else {
        let init = b.drop_last();
        flat_append(a, init);
        assert(a + b =~= (a + init).push(b.last()));
        assert(b =~= init.push(b.last()));
        (a + init).lemma_flatten_push(b.last());
        init.lemma_flatten_push(b.last());
        assert((a + b).flatten() =~= a.flatten() + b.flatten());
    }
}

proof fn empty_plans_are_flat(plans: Seq<Seq<Outgoing>>)
    requires
        forall|i: int| 0 <= i < plans.len() ==> (#[trigger] plans[i]).len() == 0,
    ensures
        plans.flatten() == Seq::<Outgoing>::empty(),
    decreases plans.len(),
{
    if plans.len() > 0 {
        let init = plans.drop_last();
        assert forall|i: int| 0 <= i < init.len() implies (#[trigger] init[i]).len() == 0 by {
            assert(init[i] == plans[i]);
        }
        empty_plans_are_flat(init);
        assert(plans =~= init.push(plans.last()));
        init.lemma_flatten_push(plans.last());
        assert(plans[plans.len() - 1].len() == 0);
        assert(plans.flatten() =~= Seq::empty());
    }
}

proof fn octets_append(a: Seq<Outgoing>, b: Seq<Outgoing>)
    ensures
        octets_of(a + b) == octets_of(a) + octets_of(b),
{
    assert(octets_of(a + b) =~= octets_of(a) + octets_of(b));
}

/// Parts in turn, and further parts from where these end, are parts in turn.
proof fn more_parts_in_turn(
    update: Update,
    cx: EmitContext,
    s1: Seq<ClientState>,
    p1: Seq<Seq<Outgoing>>,
    s2: Seq<ClientState>,
    p2: Seq<Seq<Outgoing>>,
)
    requires
        parts_in_turn(update, 0, cx, s1, p1),
        parts_in_turn(update, p1.len(), cx, s2, p2),
        s1.last() == s2[0],
    ensures
        parts_in_turn(update, 0, cx, s1 + s2.skip(1), p1 + p2),
        (s1 + s2.skip(1)).last() == s2.last(),
        (s1 + s2.skip(1))[0] == s1[0],
{
    let s = s1 + s2.skip(1);
    let p = p1 + p2;
    assert forall|i: int| 0 <= i < p.len() implies part_planned(
        s[i],
        s[i + 1],
        update,
        0 + i,
        cx,
        #[trigger] p[i],
    ) by {
        if i < p1.len() {
            assert(p[i] == p1[i]);
            assert(s[i] == s1[i] && s[i + 1] == s1[i + 1]);
        } else {
            let k = i - p1.len();
            assert(p[i] == p2[k]);
            assert(s[i] == s2[k] && s[i + 1] == s2[k + 1]);
        }
    }
}

/// The state of the sending after the next part was begun.
proof fn begun_so_far(
    before: UpdateRun,
    after: UpdateRun,
    clients: (ClientState, ClientState, ClientState),
    update: Update,
    cx: EmitContext,
    action: UpdateAction,
    sent: Seq<Seq<u8>>,
    s1: Seq<ClientState>,
    p1: Seq<Seq<Outgoing>>,
) -> (res: (Seq<ClientState>, Seq<Seq<Outgoing>>))
    requires
        in_turn(update, cx, s1, p1),
        s1[0] == clients.0,
        s1.last() == clients.1,
        p1.len() == before.part_spec(),
        sent == octets_of(p1.flatten()),
        exists|states: Seq<ClientState>, plans: Seq<Seq<Outgoing>>| #[trigger]
            next_part_begun(
                before,
                after,
                (clients.1, clients.2),
                update,
                cx,
                action,
                states,
                plans,
            ),
    ensures
        sent_so_far(
            after,
            (clients.0, clients.2),
            update,
            cx,
            match sends(action) {
                Some(msg) => sent.push(msg),
                None => sent,
            },
            res.0,
            res.1,
        ),
        action is Done || action is Send,
{
    let (s2, p2) = choose|states: Seq<ClientState>, plans: Seq<Seq<Outgoing>>| #[trigger]
        next_part_begun(
            before,
            after,
            (clients.1, clients.2),
            update,
            cx,
            action,
            states,
            plans,
        );
    reveal(in_turn);
    more_parts_in_turn(update, cx, s1, p1, s2, p2);
    let s = s1 + s2.skip(1);
    let p = p1 + p2;
    flat_append(p1, p2);
    if p2.len() > 0 && p2.last().len() > 0 {
        let init = p2.drop_last();
        assert forall|i: int| 0 <= i < init.len() implies (#[trigger] init[i]).len() == 0 by {
            assert(init[i] == p2[i]);
        }
        empty_plans_are_flat(init);
        flat_append(p1, init);
        assert(p.drop_last() =~= p1 + init);
        assert(p.last() == p2.last());
        assert(p.drop_last().flatten() =~= p1.flatten());
        assert(octets_of(p.last().take(1)) =~= seq![p.last()[0].msg@]);
        assert(sent.push(p.last()[0].msg@) =~= octets_of(p.drop_last().flatten()) + octets_of(
            p.last().take(1),
        ));
    } else {
        assert forall|i: int| 0 <= i < p2.len() implies (#[trigger] p2[i]).len() == 0 by {
            if i == p2.len() - 1 {
                assert(p2[i] == p2.last());
            }
        }
        empty_plans_are_flat(p2);
        assert(p.flatten() =~= p1.flatten());
        assert(sends(action) is None);
    }
    (s, p)
}

/// The state of the sending after one more step.
pub(crate) proof fn step_so_far(
    before: UpdateRun,
    after: UpdateRun,
    clients: (ClientState, ClientState, ClientState),
    update: Update,
    cx: EmitContext,
    action: UpdateAction,
    sent: Seq<Seq<u8>>,
    s: Seq<ClientState>,
    p: Seq<Seq<Outgoing>>,
) -> (res: (Seq<ClientState>, Seq<Seq<Outgoing>>))
    requires
        sent_so_far(before, (clients.0, clients.1), update, cx, sent, s, p),
        update_step(before, after, (clients.1, clients.2), update, cx, true, action),
    ensures
        sent_so_far(
            after,
            (clients.0, clients.2),
            update,
            cx,
            match sends(action) {
                Some(msg) => sent.push(msg),
                None => sent,
            },
            res.0,
            res.1,
        ),
{
    reveal(update_step);
    match before.stage_spec() {
        UpdateStage::Done => (s, p),
        UpdateStage::Failed => (s, p),
        UpdateStage::Waiting => {
            let at = before.at_spec() as int;
            let last = p.last();
            if at + 1 < before.plan_spec().len() {
                assert(octets_of(last.take(at + 2)) =~= octets_of(last.take(at + 1)).push(
                    last[at + 1].msg@,
                ));
                assert(sent.push(last[at + 1].msg@) =~= octets_of(p.drop_last().flatten())
                    + octets_of(last.take(at + 2)));
                (s, p)
            } else {
                assert(last.take(at + 1) =~= last);
                assert(p =~= p.drop_last().push(last));
                p.drop_last().lemma_flatten_push(last);
                octets_append(p.drop_last().flatten(), last);
                begun_so_far(before, after, clients, update, cx, action, sent, s, p)
            }
        },
        UpdateStage::Start => {
            assert(p.flatten() =~= Seq::empty());
            assert(octets_of(p.flatten()) =~= sent);
            begun_so_far(before, after, clients, update, cx, action, sent, s, p)
        },
    }
}

/// What a consumer is sent for a part, another with the same peers would be sent
/// too.
proof fn part_for_another(
    before: ClientState,
    after: ClientState,
    other: ClientState,
    update: Update,
    part: int,
    cx: EmitContext,
    plan: Seq<Outgoing>,
)
    requires
        part_planned(before, after, update, part, cx, plan),
        other.same_peers(&before),
    ensures
        part_planned(other, other.with_peers_of(after), update, part, cx, plan),
        other.with_peers_of(after).same_peers(&after),
{
    other.peers_are_taken_over(after);
}

proof fn parts_for_another(
    update: Update,
    first: nat,
    cx: EmitContext,
    states: Seq<ClientState>,
    plans: Seq<Seq<Outgoing>>,
    other: ClientState,
) -> (res: Seq<ClientState>)
    requires
        parts_in_turn(update, first, cx, states, plans),
        other.same_peers(&states[0]),
    ensures
        parts_in_turn(update, first, cx, res, plans),
        res[0] == other,
        res.last().same_peers(&states.last()),
    decreases plans.len(),
{
    if plans.len() == 0 {
        seq![other]
    } else {
        let k = plans.len() - 1;
        let init = plans.drop_last();
        assert(parts_in_turn(update, first, cx, states.drop_last(), init)) by {
            assert forall|i: int| 0 <= i < init.len() implies part_planned(
                states.drop_last()[i],
                states.drop_last()[i + 1],
                update,
                first + i,
                cx,
                #[trigger] init[i],
            ) by {
                assert(init[i] == plans[i]);
            }
        }
        let most = parts_for_another(update, first, cx, states.drop_last(), init, other);
        assert(part_planned(states[k], states[k + 1], update, first + k, cx, plans[k]));
        part_for_another(states[k], states[k + 1], most.last(), update, first + k, cx, plans[k]);
        let all = most.push(most.last().with_peers_of(states[k + 1]));
        assert forall|i: int| 0 <= i < plans.len() implies part_planned(
            all[i],
            all[i + 1],
            update,
            first + i,
            cx,
            #[trigger] plans[i],
        ) by {
            if i < k {
                assert(plans[i] == init[i]);
            }
        }
        all
    }
}

/// A step that was made for a consumer could be made for another with the same
/// peers.
pub(crate) proof fn step_for_another(
    before: UpdateRun,
    after: UpdateRun,
    clients: (ClientState, ClientState),
    update: Update,
    cx: EmitContext,
    action: UpdateAction,
    other: ClientState,
) -> (res: ClientState)
    requires
        update_step(before, after, clients, update, cx, true, action),
        other.same_peers(&clients.0),
    ensures
        update_step(before, after, (other, res), update, cx, true, action),
        res.same_peers(&clients.1),
{
    reveal(update_step);
    if before.stage_spec() == UpdateStage::Start || (before.stage_spec() == UpdateStage::Waiting
        && before.at_spec() + 1 >= before.plan_spec().len()) {
        let (states, plans) = choose|states: Seq<ClientState>, plans: Seq<Seq<Outgoing>>|
            #[trigger]
            next_part_begun(before, after, clients, update, cx, action, states, plans);
        let others = parts_for_another(update, before.part_spec(), cx, states, plans, other);
        assert(next_part_begun(
            before,
            after,
            (other, others.last()),
            update,
            cx,
            action,
            others,
            plans,
        ));
        others.last()
    } else {
        other
    }
}

proof fn run_so_far(
    runs: Seq<UpdateRun>,
    befores: Seq<ClientState>,
    afters: Seq<ClientState>,
    update: Update,
    cx: EmitContext,
    actions: Seq<UpdateAction>,
    n: int,
) -> (res: (Seq<ClientState>, Seq<Seq<Outgoing>>, ClientState))
    requires
        sent_without_refusal(runs, befores, afters, update, cx, actions),
        0 <= n <= actions.len(),
        actions.len() > 0,
    ensures
        sent_so_far(
            runs[n],
            (befores[0], res.2),
            update,
            cx,
            messages_of(actions.take(n)),
            res.0,
            res.1,
        ),
        n == 0 ==> res.2 == befores[0],
        n > 0 ==> res.2.same_peers(&afters[n - 1]),
    decreases n,
{
    if n == 0 {
        assert(actions.take(0) =~= Seq::empty());
        assert(messages_of(actions.take(0)) =~= Seq::empty());
        reveal(in_turn);
        (seq![befores[0]], Seq::empty(), befores[0])
    } else {
        let k = n - 1;
        let (s, p, c) = run_so_far(runs, befores, afters, update, cx, actions, k);
        let action = actions[k];
        let sent = messages_of(actions.take(k));
        actions.lemma_filter_map_take_succ(|a: UpdateAction| sends(a), k);
        assert(messages_of(actions.take(n)) =~= match sends(action) {
            Some(msg) => sent.push(msg),
            None => sent,
        });
        if k > 0 {
            assert(afters[k - 1].same_peers(&befores[k]));
        }
        let clients = (befores[k], afters[k]);
        let d = step_for_another(runs[k], runs[n], clients, update, cx, action, c);
        let (t, q) = step_so_far(
            runs[k],
            runs[n],
            (befores[0], c, d),
            update,
            cx,
            action,
            sent,
            s,
            p,
        );
        (t, q, d)
    }
}

/// A consumer that refuses nothing is sent all of an update: when the update is
/// done, all its parts were planned in turn, from the first to the last, and the
/// messages that were handed out are those of their plans, in order, each once.
pub proof fn all_parts_are_sent(
    runs: Seq<UpdateRun>,
    befores: Seq<ClientState>,
    afters: Seq<ClientState>,
    update: Update,
    cx: EmitContext,
    actions: Seq<UpdateAction>,
) -> (res: (Seq<ClientState>, Seq<Seq<Outgoing>>))
    requires
        sent_without_refusal(runs, befores, afters, update, cx, actions),
        actions.len() > 0,
        actions.last() is Done,
    ensures
        parts_in_turn(update, 0, cx, res.0, res.1),
        res.1.len() == parts_of(update),
        res.0[0] == befores[0],
        res.0.last().same_peers(&afters.last()),
        messages_of(actions) == res.1.flatten().map_values(|o: Outgoing| o.msg@),
{
    let n = actions.len() as int;
    let (s, p, c) = run_so_far(runs, befores, afters, update, cx, actions, n);
    assert(actions.take(n) =~= actions);
    reveal(in_turn);
    reveal(update_step);
    assert(update_step(
        runs[n - 1],
        runs[n],
        (befores[n - 1], afters[n - 1]),
        update,
        cx,
        true,
        actions[n - 1],
    ));
    (s, p)
}

/// A consumer that refuses nothing and knows no peer but by Peer Up is sent a
/// batch of routes route by route: the Route Monitoring messages (type 0) among
/// those that are handed out are, in order, one for each payload of the batch
/// for which there is an UPDATE, and each carries the route of its payload.
pub proof fn batch_reaches_a_willing_consumer(
    runs: Seq<UpdateRun>,
    befores: Seq<ClientState>,
    afters: Seq<ClientState>,
    batch: Box<PayloadBatch>,
    cx: EmitContext,
    actions: Seq<UpdateAction>,
)
    requires
        sent_without_refusal(runs, befores, afters, Update::Bulk(batch), cx, actions),
        actions.len() > 0,
        actions.last() is Done,
        keeps_what_it_knows(befores[0]),
        prefixes_wf(batch@),
    ensures
        ({
            let sent = actions.filter_map(|a: UpdateAction| sends(a)).filter(
                |msg: Seq<u8>| msg[5] == 0,
            );
            let fit = batch@.filter(|p: Payload| has_update(p));
            &&& sent.len() == fit.len()
            &&& forall|k: int| 0 <= k < sent.len() ==> carries(#[trigger] sent[k], fit[k])
        }),
{
    let update = Update::Bulk(batch);
    let (states, plans) = all_parts_are_sent(runs, befores, afters, update, cx, actions);
    batch_is_sent_route_by_route(batch, cx, states, plans);
    let all = plans.flatten();
    filter_of_octets(all);
    let sent = octets_of(all).filter(|msg: Seq<u8>| msg[5] == 0);
    assert(messages_of(actions) == octets_of(all));
    assert forall|k: int| 0 <= k < sent.len() implies carries(
        #[trigger] sent[k],
        batch@.filter(|p: Payload| has_update(p))[k],
    ) by {
        assert(sent[k] == route_messages(all)[k].msg@);
    }
}

proof fn filter_of_octets(plan: Seq<Outgoing>)
    ensures
        octets_of(plan).filter(|msg: Seq<u8>| msg[5] == 0) == octets_of(route_messages(plan)),
    decreases plan.len(),
{
    reveal(Seq::filter);
    if plan.len() > 0 {
        filter_of_octets(plan.drop_last());
        assert(octets_of(plan).drop_last() =~= octets_of(plan.drop_last()));
        assert(octets_of(plan).last() == plan.last().msg@);
        let rest = route_messages(plan.drop_last());
        assert(octets_of(rest.push(plan.last())) =~= octets_of(rest).push(plan.last().msg@));
    } else {
        assert(octets_of(plan) =~= Seq::empty());
        assert(route_messages(plan) =~= Seq::empty());
        assert(octets_of(route_messages(plan)) =~= Seq::empty());
    }
}

//------------ Sources that are gone -----------------------------------------

/// Whether a source is among the first of a batch.
pub open spec fn is_among(batch: Seq<WithdrawnSource>, n: int, id: IngressId) -> bool {
    exists|j: int| 0 <= j < n && (#[trigger] batch[j]).ingress_id == id
}

/// What is known of a source that is gone: what came with the withdrawal, else
/// what the register has, else nothing.
pub open spec fn last_known(source: WithdrawnSource, cx: EmitContext) -> IngressInfo {
    if source.ingress_info is Some {
        source.ingress_info->0
    } else if cx.0.contains_key(source.ingress_id) {
        cx.0[source.ingress_id]
    } else {
        unknown_source()
    }
}

/// Whether a plan is one Peer Down (type 2) without notification (reason 4)
/// that tells of a source, and nothing else.
pub open spec fn is_one_peer_down(plan: Seq<Outgoing>, info: IngressInfo) -> bool {
    &&& plan.len() == 1
    &&& plan[0].peer_up_for is None
    &&& plan[0].msg@[5] == 2
    &&& plan[0].msg@.skip(48) == seq![4u8]
    &&& tells_of(plan[0].msg@, info)
}

proof fn known_so_far(
    batch: Box<WithdrawBatch>,
    cx: EmitContext,
    states: Seq<ClientState>,
    plans: Seq<Seq<Outgoing>>,
    n: int,
)
    requires
        parts_in_turn(Update::WithdrawBulk(batch), 0, cx, states, plans),
        0 <= n <= plans.len(),
    ensures
        forall|id: IngressId| #[trigger]
            states[n].known().contains(id) <==> states[0].known().contains(id) && !is_among(
                batch@,
                n,
                id,
            ),
    decreases n,
{
    if n > 0 {
        let k = n - 1;
        known_so_far(batch, cx, states, plans, k);
        assert(part_planned(
            states[k],
            states[k + 1],
            Update::WithdrawBulk(batch),
            0 + k,
            cx,
            plans[k],
        ));
        assert forall|id: IngressId| #[trigger] states[n].known().contains(id) <==> states[
            0
        ].known().contains(id) && !is_among(batch@, n, id) by {
            assert(states[k].known().contains(id) <==> states[0].known().contains(id)
                && !is_among(batch@, k, id));
            if is_among(batch@, k, id) {
                let j = choose|j: int| 0 <= j < k && (#[trigger] batch@[j]).ingress_id == id;
                assert(0 <= j < n && batch@[j].ingress_id == id);
            }
            if is_among(batch@, n, id) && !is_among(batch@, k, id) {
                let j = choose|j: int| 0 <= j < n && (#[trigger] batch@[j]).ingress_id == id;
                assert(j == k);
            }
            if id == batch@[k].ingress_id {
                assert(is_among(batch@, n, id));
            }
        }
    }
}

/// For a batch of sources that are gone, whose parts are all planned in turn, a
/// consumer is sent one Peer Down for each source that it knew, in order and
/// over the whole batch, and none for a source that it did not know or that came
/// earlier in the batch. Afterwards it knows none of them, and all others as
/// before.
pub proof fn gone_sources_are_reported_one_by_one(
    batch: Box<WithdrawBatch>,
    cx: EmitContext,
    states: Seq<ClientState>,
    plans: Seq<Seq<Outgoing>>,
    k: int,
    id: IngressId,
)
    requires
        parts_in_turn(Update::WithdrawBulk(batch), 0, cx, states, plans),
        plans.len() == parts_of(Update::WithdrawBulk(batch)),
        0 <= k < plans.len(),
    ensures
        plans.len() == batch@.len(),
        states[0].known().contains(batch@[k].ingress_id) && !is_among(
            batch@,
            k,
            batch@[k].ingress_id,
        ) ==> is_one_peer_down(plans[k], last_known(batch@[k], cx)),
        !states[0].known().contains(batch@[k].ingress_id) || is_among(
            batch@,
            k,
            batch@[k].ingress_id,
        ) ==> plans[k].len() == 0,
        states.last().known().contains(id) <==> states[0].known().contains(id) && !is_among(
            batch@,
            batch@.len() as int,
            id,
        ),
{
    known_so_far(batch, cx, states, plans, k);
    known_so_far(batch, cx, states, plans, plans.len() as int);
    assert(part_planned(
        states[k],
        states[k + 1],
        Update::WithdrawBulk(batch),
        0 + k,
        cx,
        plans[k],
    ));
    let info = last_known(batch@[k], cx);
    if plans[k].len() > 0 {
        let peer = choose|peer: PeerInfo| #[trigger]
            emitted(peer, info, cx) && is_peer_down(plans[k][0].msg@, peer);
        peer_down_has_its_type(plans[k][0].msg@, peer, info, cx);
    }
}

/// For one source that is gone a consumer that knew it is sent one Peer Down,
/// and any other nothing. Afterwards it does not know the source, and all others
/// as before.
pub proof fn gone_source_is_reported(
    before: ClientState,
    after: ClientState,
    id: IngressId,
    family: Option<AfiSafiType>,
    cx: EmitContext,
    plan: Seq<Outgoing>,
    other: IngressId,
)
    requires
        part_planned(before, after, Update::Withdraw(id, family), 0, cx, plan),
    ensures
        parts_of(Update::Withdraw(id, family)) == 1,
        before.known().contains(id) ==> is_one_peer_down(
            plan,
            last_known(WithdrawnSource { ingress_id: id, ingress_info: None }, cx),
        ),
        !before.known().contains(id) ==> plan.len() == 0,
        !after.known().contains(id),
        !after.cache().contains_key(id),
        other != id ==> after.known().contains(other) == before.known().contains(other),
{
    if plan.len() > 0 {
        let info = last_known(WithdrawnSource { ingress_id: id, ingress_info: None }, cx);
        let peer = choose|peer: PeerInfo| #[trigger]
            emitted(peer, info, cx) && is_peer_down(plan[0].msg@, peer);
        peer_down_has_its_type(plan[0].msg@, peer, info, cx);
    }
}

//------------ Sources that are back, and reports ----------------------------

/// For a source that is back a consumer that does not know it is sent one Peer
/// Up (type 3) that tells of it, if it is registered, and then knows it; any
/// other is sent nothing. All other sources are known as before.
pub proof fn source_that_is_back_is_reported(
    before: ClientState,
    after: ClientState,
    id: IngressId,
    cx: EmitContext,
    plan: Seq<Outgoing>,
    other: IngressId,
)
    requires
        part_planned(before, after, Update::IngressReappeared(id), 0, cx, plan),
    ensures
        parts_of(Update::IngressReappeared(id)) == 1,
        cx.0.contains_key(id) && !before.known().contains(id) ==> {
            &&& plan.len() == 1
            &&& plan[0].peer_up_for == Some(id)
            &&& plan[0].msg@[5] == 3
            &&& tells_of(plan[0].msg@, cx.0[id])
        },
        !cx.0.contains_key(id) || before.known().contains(id) ==> plan.len() == 0,
        after.known().contains(id) <==> before.known().contains(id) || cx.0.contains_key(id),
        other != id ==> after.known().contains(other) == before.known().contains(other),
{
    if plan.len() > 0 {
        let peer = choose|peer: PeerInfo| #[trigger]
            emitted(peer, cx.0[id], cx) && is_peer_up(plan[0].msg@, peer);
        peer_up_has_its_type(plan[0].msg@, peer, cx.0[id], cx);
    }
}

/// For a statistics report of a registered source a consumer is sent the report
/// (type 1) as it came, under a header that tells of the source; before it the
/// Peer Up (type 3) if the consumer does not know the source; and nothing else.
/// For a source that is not registered it is sent nothing.
pub proof fn report_is_passed_on(
    before: ClientState,
    after: ClientState,
    id: IngressId,
    body: StatsBody,
    cx: EmitContext,
    plan: Seq<Outgoing>,
)
    requires
        part_planned(
            before,
            after,
            (Update::PeerStats { ingress_id: id, body }),
            0,
            cx,
            plan,
        ),
    ensures
        parts_of((Update::PeerStats { ingress_id: id, body })) == 1,
        cx.0.contains_key(id) ==> {
            &&& plan.len() == if before.known().contains(id) {
                1int
            } else {
                2
            }
            &&& plan.last().msg@[5] == 1
            &&& plan.last().msg@.skip(48) == body@
            &&& tells_of(plan.last().msg@, cx.0[id])
            &&& !before.known().contains(id) ==> plan[0].msg@[5] == 3 && tells_of(
                plan[0].msg@,
                cx.0[id],
            )
            &&& after.known().contains(id)
        },
        !cx.0.contains_key(id) ==> plan.len() == 0,
{
    if cx.0.contains_key(id) {
        let due = !before.known().contains(id);
        let rest = after_peer_up(plan, due);
        let peer = choose|peer: PeerInfo|
            {
                &&& #[trigger] emitted(peer, cx.0[id], cx)
                &&& starts_with_peer_up(plan, due, id, peer)
                &&& rest.len() == 1
                &&& is_statistics(rest[0].msg@, peer, body@)
            };
        if due {
            peer_up_has_its_type(plan[0].msg@, peer, cx.0[id], cx);
        }
        assert(rest[0] == plan.last());
        let t = choose|t: Timestamp|
            t.wf() && rest[0].msg@ == #[trigger] peer_message(
                BMP_MSG_STATISTICS_REPORT,
                peer,
                t,
                body@,
            );
        peer_message_layout(BMP_MSG_STATISTICS_REPORT, peer, t, body@);
        source_is_read_back(peer, cx.0[id], BMP_MSG_STATISTICS_REPORT, t, body@);
    }
}

/// Updates that are of no concern to BMP consumers have no parts, and a single
/// route has one.
pub proof fn parts_are_counted(update: Update)
    ensures
        update is UpstreamStatusChange || update is OutputStream || update is Rtr ==> parts_of(
            update,
        ) == 0,
        update is Single ==> parts_of(update) == 1,
        update matches Update::Bulk(batch) ==> parts_of(update) == batch@.len(),
        update matches Update::WithdrawBulk(batch) ==> parts_of(update) == batch@.len(),
{
}

//------------ Headers -------------------------------------------------------

/// The first route of a registered peer goes out under a header that tells of
/// its source as the register has it, if no header is kept; the next one goes
/// out under the same header, but for the time, whatever the register says of
/// the source by then.
pub proof fn header_is_kept(
    first: ClientState,
    second: ClientState,
    third: ClientState,
    payloads: (Payload, Payload),
    cx: (EmitContext, EmitContext),
    plans: (Seq<Outgoing>, Seq<Outgoing>),
)
    requires
        keeps_what_it_knows(first),
        route_planned(first, second, payloads.0, cx.0, plans.0),
        route_planned(second, third, payloads.1, cx.1, plans.1),
        payloads.0.ingress_id == payloads.1.ingress_id,
        cx.0.0.contains_key(payloads.0.ingress_id),
        !first.cache().contains_key(payloads.0.ingress_id),
        has_update(payloads.0),
        has_update(payloads.1),
    ensures
        plans.1.len() == 1,
        plans.0.len() > 0,
        tells_of(plans.0.last().msg@, cx.0.0[payloads.0.ingress_id]),
        plans.0.last().msg@.subrange(6, 40) == plans.1[0].msg@.subrange(6, 40),
        third.cache() == second.cache(),
{
    let id = payloads.0.ingress_id;
    let due = !first.known().contains(id);
    let info = cx.0.0[id];
    let peer = choose|peer: PeerInfo|
        {
            &&& #[trigger] emitted(peer, source_or_unknown(cx.0.0, id), cx.0)
            &&& starts_with_peer_up(plans.0, due, id, peer)
            &&& is_route_only(after_peer_up(plans.0, due), peer, payloads.0)
            &&& second.cache() == first.cache().insert(id, peer)
        };
    let rest = after_peer_up(plans.0, due);
    assert(rest[0] == plans.0.last());
    assert(second.cache()[id] == peer);
    let t = route_message_layout(rest[0].msg@, peer, payloads.0);
    let u = route_message_layout(plans.1[0].msg@, peer, payloads.1);
    same_header_but_time(peer, t, u);
    assert(rest[0].msg@.subrange(6, 40) =~= per_peer_header(peer, t).take(34)) by {
        assert(rest[0].msg@.subrange(6, 48) == per_peer_header(peer, t));
    }
    assert(plans.1[0].msg@.subrange(6, 40) =~= per_peer_header(peer, u).take(34)) by {
        assert(plans.1[0].msg@.subrange(6, 48) == per_peer_header(peer, u));
    }
    let update = bgp_update(
        payloads.0.rx_value.prefix_spec(),
        payloads.0.rx_value.pamap_spec()@,
        payloads.0.route_status == RouteStatus::Withdrawn,
    )->0;
    source_is_read_back(peer, info, BMP_MSG_ROUTE_MONITORING, t, update);
}

proof fn route_message_layout(msg: Seq<u8>, peer: PeerInfo, payload: Payload) -> (t: Timestamp)
    requires
        is_route(
            msg,
            peer,
            payload.rx_value,
            payload.route_status == RouteStatus::Withdrawn,
        ),
    ensures
        msg == peer_message(
            BMP_MSG_ROUTE_MONITORING,
            peer,
            t,
            bgp_update(
                payload.rx_value.prefix_spec(),
                payload.rx_value.pamap_spec()@,
                payload.route_status == RouteStatus::Withdrawn,
            )->0,
        ),
        msg.subrange(6, 48) == per_peer_header(peer, t),
{
    let withdrawn = payload.route_status == RouteStatus::Withdrawn;
    let prefix = payload.rx_value.prefix_spec();
    let raw = payload.rx_value.pamap_spec()@;
    let t = choose|t: Timestamp|
        t.wf() && Some(msg) == #[trigger] route_monitoring(peer, t, prefix, raw, withdrawn);
    let update = bgp_update(prefix, raw, withdrawn)->0;
    peer_message_layout(BMP_MSG_ROUTE_MONITORING, peer, t, update);
    t
}

/// The label of a peer is that of the router that reports it: there is one
/// exactly where router information is forwarded, the peer has such a router,
/// the register has it, and its name or description says something. It says what
/// the register has of that router and depends on nothing else, so that all peers
/// of a router have the same label.
pub proof fn label_is_that_of_the_router(
    peers: (PeerInfo, PeerInfo),
    infos: (IngressInfo, IngressInfo),
    router: IngressId,
    cx: EmitContext,
)
    requires
        emitted(peers.0, infos.0, cx),
        emitted(peers.1, infos.1, cx),
        infos.1.parent_ingress == infos.0.parent_ingress,
    ensures
        opt_text(peers.0.admin_label) == opt_text(peers.1.admin_label),
        peers.0.admin_label is Some ==> cx.1 && infos.0.parent_ingress is Some && cx.0.contains_key(
            infos.0.parent_ingress->0,
        ),
        infos.0.parent_ingress == Some(router) && cx.1 && cx.0.contains_key(router) ==> {
            let name = opt_text(cx.0[router].name);
            let desc = opt_text(cx.0[router].desc);
            let no_name = says_nothing(name, "no-sysname"@);
            let no_desc = says_nothing(desc, "no-sysdesc"@);
            &&& peers.0.admin_label is Some <==> !no_name || !no_desc
            &&& peers.0.admin_label matches Some(label) ==> {
                let members = label_members(label@);
                &&& no_desc ==> is_member(members, "sysName"@, name->0)
                &&& no_name ==> is_member(members, "sysDescr"@, desc->0)
                &&& !no_name && !no_desc ==> exists|i: int|
                    {
                        &&& 0 <= i < members.len()
                        &&& is_member(#[trigger] members.take(i), "sysName"@, name->0)
                        &&& is_member(members.skip(i + 1), "sysDescr"@, desc->0)
                    }
            }
        },
{
    if infos.0.parent_ingress == Some(router) && cx.1 && cx.0.contains_key(router) {
        let name = opt_text(cx.0[router].name);
        let desc = opt_text(cx.0[router].desc);
        label_leaves_out_what_says_nothing(name, desc);
        if peers.0.admin_label is Some {
            label_is_read_back(name, desc);
        }
    }
}

/// Of a peer that the register does not have, messages say nothing but that its
/// routes are past the policy: a global instance at address zero, with AS number
/// and distinguisher zero, and no label.
pub proof fn nothing_is_said_of_an_unknown_peer(
    peer: PeerInfo,
    id: IngressId,
    cx: EmitContext,
    msg_type: u8,
    t: Timestamp,
    body: Seq<u8>,
)
    requires
        emitted(peer, source_or_unknown(cx.0, id), cx),
        !cx.0.contains_key(id),
    ensures
        ({
            let msg = peer_message(msg_type, peer, t, body);
            &&& msg[6] == 0
            &&& msg[7] == 0x40
            &&& msg.subrange(8, 16) == Seq::new(8, |i: int| 0u8)
            &&& octets_value(msg.subrange(16, 32)) == 0
            &&& octets_value(msg.subrange(32, 36)) == 0
            &&& peer.admin_label is None
        }),
{
    let msg = peer_message(msg_type, peer, t, body);
    source_is_read_back(peer, source_or_unknown(cx.0, id), msg_type, t, body);
    peer_message_layout(msg_type, peer, t, body);
    assert(peer.peer_distinguisher@ =~= Seq::new(8, |i: int| 0u8));
    assert(msg[7] == 0x40) by {
        let flags = msg[7] as int;
        assert(flags / 0x80 != 1 && flags < 256);
        assert(flags / 0x40 % 2 == 1);
        assert(flags / 0x20 % 2 == 0);
        assert(flags / 0x10 % 2 != 1);
        assert(flags % 0x10 == 0);
    }
}

} // verus!
