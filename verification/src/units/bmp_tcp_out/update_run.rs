//! The sending of updates to a consumer, message by message.
//!
//! The caller sends what it is told to send and reports what became of it.
use crate::ingress::Register;
use crate::payload::{Payload, Update};
use crate::units::bmp_tcp_out::bmp_builder::{BMP_MSG_PEER_UP, BMP_MSG_ROUTE_MONITORING};
use crate::units::bmp_tcp_out::client_handler::{
    fits_a_message, part_planned, parts_of, peer_up_comes_first, send_failed,
    send_update_to_client, update_parts, EmitContext, FanInPeerDistinguisher, Outgoing,
};
use crate::units::bmp_tcp_out::client_state::ClientState;
use vstd::prelude::*;

verus! {

/// What is to be done next for an update.
#[derive(Debug)]
pub enum UpdateAction {
    /// The message is to be sent.
    Send(Vec<u8>),
    /// Everything was sent.
    Done,
    /// A message could not be sent, and the rest is given up.
    Failed,
}

/// How far the sending of an update has come.
#[derive(Clone, Copy, Debug, PartialEq, Eq, Structural)]
pub enum UpdateStage {
    /// Nothing was sent yet.
    Start,
    /// A message is out, and word on it is awaited.
    Waiting,
    Done,
    Failed,
}

/// The sending of one update.
#[derive(Debug)]
pub struct UpdateRun {
    // The number of parts that were planned.
    part: usize,
    // The messages of the last of these parts.
    plan: Vec<Outgoing>,
    // The message that was handed out last.
    at: usize,
    stage: UpdateStage,
}

/// The octets of the message that is to be sent, if one is.
pub open spec fn sends(action: UpdateAction) -> Option<Seq<u8>> {
    match action {
        UpdateAction::Send(msg) => Some(msg@),
        _ => None,
    }
}

/// Whether these are the states of a consumer, and the plans, of some parts of
/// an update, one after the other.
pub open spec fn parts_in_turn(
    update: Update,
    first: nat,
    cx: EmitContext,
    states: Seq<ClientState>,
    plans: Seq<Seq<Outgoing>>,
) -> bool {
    &&& states.len() == plans.len() + 1
    &&& first + plans.len() <= parts_of(update)
    &&& forall|i: int|
        0 <= i < plans.len() ==> part_planned(
            states[i],
            states[i + 1],
            update,
            first + i,
            cx,
            #[trigger] plans[i],
        )
}

/// Whether the parts of an update are planned in order up to the first that has
/// messages, which is then begun; or to the end, and the update is done.
pub open spec fn next_part_begun(
    before: UpdateRun,
    after: UpdateRun,
    clients: (ClientState, ClientState),
    update: Update,
    cx: EmitContext,
    action: UpdateAction,
    states: Seq<ClientState>,
    plans: Seq<Seq<Outgoing>>,
) -> bool {
    &&& parts_in_turn(update, before.part_spec(), cx, states, plans)
    &&& states[0] == clients.0
    &&& states.last() == clients.1
    &&& after.part_spec() == before.part_spec() + plans.len()
    &&& forall|i: int| 0 <= i < plans.len() - 1 ==> (#[trigger] plans[i]).len() == 0
    &&& if plans.len() > 0 && plans.last().len() > 0 {
        &&& after.stage_spec() == UpdateStage::Waiting
        &&& after.plan_spec() == plans.last()
        &&& after.at_spec() == 0
        &&& sends(action) == Some(plans.last()[0].msg@)
    } else {
        &&& after.part_spec() == parts_of(update)
        &&& after.stage_spec() == UpdateStage::Done
        &&& action is Done
    }
}

/// What a consumer is after a message could not be sent: a peer that it was to
/// make known is not known after all.
pub open spec fn given_up(before: ClientState, after: ClientState, outgoing: Outgoing) -> bool {
    &&& after.same_but_peers(&before)
    &&& match outgoing.peer_up_for {
        Some(id) => after.known() == before.known().remove(id) && after.cache()
            == before.cache().remove(id),
        None => after.known() == before.known() && after.cache() == before.cache(),
    }
}

/// One step of the sending of an update.
///
/// The messages of a part go out in order, then those of the next part. After
/// a message that could not be sent nothing more is sent.
#[verifier::opaque]
pub open spec fn update_step(
    before: UpdateRun,
    after: UpdateRun,
    clients: (ClientState, ClientState),
    update: Update,
    cx: EmitContext,
    went_well: bool,
    action: UpdateAction,
) -> bool {
    match before.stage_spec() {
        UpdateStage::Done => after == before && clients.1 == clients.0 && action is Done,
        UpdateStage::Failed => after == before && clients.1 == clients.0 && action is Failed,
        UpdateStage::Waiting => if !went_well {
            &&& after.stage_spec() == UpdateStage::Failed
            &&& given_up(clients.0, clients.1, before.plan_spec()[before.at_spec() as int])
            &&& action is Failed
        } else if before.at_spec() + 1 < before.plan_spec().len() {
            &&& after.stage_spec() == UpdateStage::Waiting
            &&& after.part_spec() == before.part_spec()
            &&& after.plan_spec() == before.plan_spec()
            &&& after.at_spec() == before.at_spec() + 1
            &&& clients.1 == clients.0
            &&& sends(action) == Some(before.plan_spec()[before.at_spec() as int + 1].msg@)
        } else {
            exists|states: Seq<ClientState>, plans: Seq<Seq<Outgoing>>| #[trigger]
                next_part_begun(before, after, clients, update, cx, action, states, plans)
        },
        UpdateStage::Start => exists|states: Seq<ClientState>, plans: Seq<Seq<Outgoing>>|
            #[trigger]
            next_part_begun(before, after, clients, update, cx, action, states, plans),
    }
}

impl UpdateRun {
    /// The number of parts that were planned.
    pub closed spec fn part_spec(&self) -> nat {
        self.part as nat
    }

    /// The messages of the last of these parts.
    pub closed spec fn plan_spec(&self) -> Seq<Outgoing> {
        self.plan@
    }

    /// The message that was handed out last.
    pub closed spec fn at_spec(&self) -> nat {
        self.at as nat
    }

    /// How far the sending has come.
    pub closed spec fn stage_spec(&self) -> UpdateStage {
        self.stage
    }

    /// The parts and messages exist.
    pub open spec fn wf(&self, update: Update) -> bool {
        &&& self.part_spec() <= parts_of(update)
        &&& self.stage_spec() == UpdateStage::Waiting ==> self.at_spec() < self.plan_spec().len()
    }

    /// An update of which nothing was sent yet.
    pub fn new() -> (run: Self)
        ensures
            run.part_spec() == 0,
            run.plan_spec() == Seq::<Outgoing>::empty(),
            run.stage_spec() == UpdateStage::Start,
            forall|update: Update| #[trigger] run.wf(update),
    {
        UpdateRun { part: 0, plan: Vec::new(), at: 0, stage: UpdateStage::Start }
    }

    /// Says what is to be done next, given whether the message that was handed
    /// out last could be sent. At the first call there was none.
    pub fn next(
        &mut self,
        client: &mut ClientState,
        update: &Update,
        ingress_register: &Register,
        forward_router_info: bool,
        fan_in_peer_distinguisher: FanInPeerDistinguisher,
        went_well: bool,
    ) -> (action: UpdateAction)
        requires
            old(self).wf(*update),
            old(client).wf(),
            *update matches Update::PeerStats { body, .. } ==> body@.len() <= usize::MAX - 48,
        ensures
            final(self).wf(*update),
            final(client).wf(),
            final(client).same_but_peers(old(client)),
            update_step(
                *old(self),
                *final(self),
                (*old(client), *final(client)),
                *update,
                (ingress_register@, forward_router_info, fan_in_peer_distinguisher),
                went_well,
                action,
            ),
    {
        proof {
            reveal(update_step);
        }
        match self.stage {
            UpdateStage::Done => {
                return UpdateAction::Done;
            },
            UpdateStage::Failed => {
                return UpdateAction::Failed;
            },
            UpdateStage::Waiting => {
                if !went_well {
                    send_failed(client, &self.plan[self.at]);
                    self.stage = UpdateStage::Failed;
                    return UpdateAction::Failed;
                }
                if self.at < self.plan.len() - 1 {
                    self.at = self.at + 1;
                    return UpdateAction::Send(
                        vstd::slice::slice_to_vec(self.plan[self.at].msg.as_slice()),
                    );
                }
            },
            UpdateStage::Start => {},
        }
        self.begin_next_part(
            client,
            update,
            ingress_register,
            forward_router_info,
            fan_in_peer_distinguisher,
        )
    }

    /// Plans the parts of an update up to the first that has messages.
    fn begin_next_part(
        &mut self,
        client: &mut ClientState,
        update: &Update,
        ingress_register: &Register,
        forward_router_info: bool,
        fan_in_peer_distinguisher: FanInPeerDistinguisher,
    ) -> (action: UpdateAction)
        requires
            old(self).part_spec() <= parts_of(*update),
            old(client).wf(),
            *update matches Update::PeerStats { body, .. } ==> body@.len() <= usize::MAX - 48,
        ensures
            final(self).wf(*update),
            final(client).wf(),
            final(client).same_but_peers(old(client)),
            exists|states: Seq<ClientState>, plans: Seq<Seq<Outgoing>>| #[trigger]
                next_part_begun(
                    *old(self),
                    *final(self),
                    (*old(client), *final(client)),
                    *update,
                    (ingress_register@, forward_router_info, fan_in_peer_distinguisher),
                    action,
                    states,
                    plans,
                ),
    {
        let ghost cx = (ingress_register@, forward_router_info, fan_in_peer_distinguisher);
        let ghost start = *self;
        let ghost known = *client;
        let ghost mut states: Seq<ClientState> = seq![*client];
        let ghost mut plans: Seq<Seq<Outgoing>> = Seq::empty();
        let parts: usize = update_parts(update);
        while self.part < parts
            invariant
                start == *old(self),
                known == *old(client),
                cx == (ingress_register@, forward_router_info, fan_in_peer_distinguisher),
                parts == parts_of(*update),
                self.part <= parts,
                self.part == start.part + plans.len(),
                client.wf(),
                client.same_but_peers(old(client)),
                *update matches Update::PeerStats { body, .. } ==> body@.len() <= usize::MAX - 48,
                parts_in_turn(*update, start.part_spec(), cx, states, plans),
                states[0] == known,
                states.last() == *client,
                forall|i: int| 0 <= i < plans.len() ==> (#[trigger] plans[i]).len() == 0,
            decreases parts - self.part,
        {
            let plan = send_update_to_client(
                client,
                update,
                self.part,
                ingress_register,
                forward_router_info,
                fan_in_peer_distinguisher,
            );
            proof {
                one_more_part(*update, start.part_spec(), cx, states, plans, *client, plan@);
                states = states.push(*client);
                plans = plans.push(plan@);
            }
            self.part = self.part + 1;
            if plan.len() > 0 {
                let msg = vstd::slice::slice_to_vec(plan[0].msg.as_slice());
                self.plan = plan;
                self.at = 0;
                self.stage = UpdateStage::Waiting;
                let action = UpdateAction::Send(msg);
                assert(next_part_begun(
                    start,
                    *self,
                    (known, *client),
                    *update,
                    cx,
                    action,
                    states,
                    plans,
                ));
                return action;
            }
        }
        self.stage = UpdateStage::Done;
        let action = UpdateAction::Done;
        assert(next_part_begun(
            start,
            *self,
            (known, *client),
            *update,
            cx,
            action,
            states,
            plans,
        ));
        action
    }
}

/// One more part is planned.
proof fn one_more_part(
    update: Update,
    first: nat,
    cx: EmitContext,
    states: Seq<ClientState>,
    plans: Seq<Seq<Outgoing>>,
    client: ClientState,
    plan: Seq<Outgoing>,
)
    requires
        parts_in_turn(update, first, cx, states, plans),
        first + plans.len() < parts_of(update),
        part_planned(states.last(), client, update, (first + plans.len()) as int, cx, plan),
    ensures
        parts_in_turn(update, first, cx, states.push(client), plans.push(plan)),
{
    let s = states.push(client);
    let p = plans.push(plan);
    assert forall|i: int| 0 <= i < p.len() implies part_planned(
        s[i],
        s[i + 1],
        update,
        first + i,
        cx,
        #[trigger] p[i],
    ) by {
        if i < plans.len() {
            assert(p[i] == plans[i]);
            assert(s[i] == states[i] && s[i + 1] == states[i + 1]);
        }
    }
}

//------------ Laws ----------------------------------------------------------

/// After a message that could not be sent nothing is sent, however often the
/// next step is asked for; and the update counts as failed only then.
pub proof fn nothing_follows_a_failure(
    first: UpdateRun,
    second: UpdateRun,
    third: UpdateRun,
    clients: (ClientState, ClientState, ClientState),
    update: Update,
    cx: EmitContext,
    went_well: (bool, bool),
    actions: (UpdateAction, UpdateAction),
)
    requires
        update_step(
            first,
            second,
            (clients.0, clients.1),
            update,
            cx,
            went_well.0,
            actions.0,
        ),
        update_step(
            second,
            third,
            (clients.1, clients.2),
            update,
            cx,
            went_well.1,
            actions.1,
        ),
    ensures
        first.stage_spec() == UpdateStage::Waiting ==> actions.0 is Failed == !went_well.0,
        actions.0 is Failed && first.stage_spec() != UpdateStage::Failed ==> first.stage_spec()
            == UpdateStage::Waiting && !went_well.0,
        actions.0 is Failed ==> actions.1 is Failed && clients.2 == clients.1,
{
    reveal(update_step);
}

/// If the Peer Up of a route's peer cannot be sent, the route is not sent, the
/// update fails, and the peer is not known.
pub proof fn failed_peer_up_leaves_the_peer_unknown(
    runs: (UpdateRun, UpdateRun, UpdateRun),
    clients: (ClientState, ClientState, ClientState),
    payload: Payload,
    cx: EmitContext,
    actions: (UpdateAction, UpdateAction),
)
    requires
        clients.0.wf(),
        runs.0.stage_spec() == UpdateStage::Start,
        runs.0.part_spec() == 0,
        cx.0.contains_key(payload.ingress_id),
        !clients.0.known().contains(payload.ingress_id),
        update_step(
            runs.0,
            runs.1,
            (clients.0, clients.1),
            Update::Single(payload),
            cx,
            true,
            actions.0,
        ),
        update_step(
            runs.1,
            runs.2,
            (clients.1, clients.2),
            Update::Single(payload),
            cx,
            false,
            actions.1,
        ),
    ensures
        sends(actions.0) matches Some(msg) && msg[5] == BMP_MSG_PEER_UP,
        actions.1 is Failed,
        !clients.2.known().contains(payload.ingress_id),
        !clients.2.cache().contains_key(payload.ingress_id),
{
    reveal(update_step);
    let update = Update::Single(payload);
    let (states, plans) = choose|states: Seq<ClientState>, plans: Seq<Seq<Outgoing>>|
        #[trigger]
        next_part_begun(
            runs.0,
            runs.1,
            (clients.0, clients.1),
            update,
            cx,
            actions.0,
            states,
            plans,
        );
    if plans.len() == 0 {
        assert(false);
    }
    assert(part_planned(states[0], states[1], update, 0, cx, plans[0]));
    assert(plans.len() == 1);
    peer_up_comes_first(clients.0, clients.1, payload, cx, plans[0]);
}

/// If the Peer Up of a route's peer is sent, the route follows under the same
/// header but for the time, if it fits a message.
pub proof fn route_follows_its_peer_up(
    runs: (UpdateRun, UpdateRun, UpdateRun),
    clients: (ClientState, ClientState, ClientState),
    payload: Payload,
    cx: EmitContext,
    actions: (UpdateAction, UpdateAction),
)
    requires
        clients.0.wf(),
        runs.0.stage_spec() == UpdateStage::Start,
        runs.0.part_spec() == 0,
        cx.0.contains_key(payload.ingress_id),
        !clients.0.known().contains(payload.ingress_id),
        update_step(
            runs.0,
            runs.1,
            (clients.0, clients.1),
            Update::Single(payload),
            cx,
            true,
            actions.0,
        ),
        update_step(
            runs.1,
            runs.2,
            (clients.1, clients.2),
            Update::Single(payload),
            cx,
            true,
            actions.1,
        ),
    ensures
        sends(actions.0) matches Some(up) && up[5] == BMP_MSG_PEER_UP,
        if fits_a_message(payload) {
            sends(actions.1) matches Some(msg) && msg[5] == BMP_MSG_ROUTE_MONITORING
                && msg.subrange(6, 40) == (sends(actions.0)->0).subrange(6, 40)
        } else {
            actions.1 is Done
        },
        clients.2.known().contains(payload.ingress_id),
{
    reveal(update_step);
    let update = Update::Single(payload);
    let (states, plans) = choose|states: Seq<ClientState>, plans: Seq<Seq<Outgoing>>|
        #[trigger]
        next_part_begun(
            runs.0,
            runs.1,
            (clients.0, clients.1),
            update,
            cx,
            actions.0,
            states,
            plans,
        );
    if plans.len() == 0 {
        assert(false);
    }
    assert(part_planned(states[0], states[1], update, 0, cx, plans[0]));
    assert(plans.len() == 1);
    peer_up_comes_first(clients.0, clients.1, payload, cx, plans[0]);
}

} // verus!
