//! The sending of what was buffered during an initial table dump.
//!
//! The caller sends what it is told to send and reports what became of it,
//! until the consumer is live.
use crate::ingress::Register;
use crate::payload::Update;
use crate::units::bmp_tcp_out::client_handler::{EmitContext, FanInPeerDistinguisher};
use crate::units::bmp_tcp_out::client_state::{ClientPhase, ClientState};
use crate::units::bmp_tcp_out::update_run::{update_step, UpdateAction, UpdateRun, UpdateStage};
use vstd::prelude::*;

verus! {

/// What is to be done next to bring a consumer up to date.
#[derive(Debug)]
pub enum DrainAction {
    /// The message is to be sent.
    Send(Vec<u8>),
    /// Everything was sent, and the consumer is live.
    Live,
    /// A message could not be sent, and the rest is given up.
    Failed,
}

/// How far the sending has come.
#[derive(Clone, Copy, Debug, PartialEq, Eq, Structural)]
pub enum DrainStage {
    Draining,
    Live,
    Failed,
}

/// The sending of what was buffered.
#[derive(Debug)]
pub struct DrainRun {
    // The updates that were taken from the buffer last.
    batch: Vec<Update>,
    // The number of them that are done.
    at: usize,
    // How far the next of them has come.
    run: UpdateRun,
    stage: DrainStage,
}

/// The octets of the message that is to be sent, if one is.
pub open spec fn drain_sends(action: DrainAction) -> Option<Seq<u8>> {
    match action {
        DrainAction::Send(msg) => Some(msg@),
        _ => None,
    }
}

/// Whether an update can be sent: a report leaves room for its header.
pub open spec fn is_sendable(update: Update) -> bool {
    update matches Update::PeerStats { body, .. } ==> body@.len() <= usize::MAX - 48
}

/// Whether all updates can be sent.
pub open spec fn all_sendable(updates: Seq<Update>) -> bool {
    forall|i: int| 0 <= i < updates.len() ==> is_sendable(#[trigger] updates[i])
}

/// Whether the next update has not begun yet.
pub open spec fn is_fresh(run: UpdateRun) -> bool {
    run.stage_spec() == UpdateStage::Start && run.part_spec() == 0
}

/// Whether one move of the sending was made that sends nothing: an update that
/// is done makes way for the next; or, after the last, all that was buffered
/// meanwhile is taken, in order.
pub open spec fn moved_on(
    before: (DrainRun, ClientState),
    after: (DrainRun, ClientState),
    cx: EmitContext,
    went_well: bool,
) -> bool {
    &&& before.0.stage_spec() == DrainStage::Draining
    &&& after.0.stage_spec() == DrainStage::Draining
    &&& is_fresh(after.0.run_spec())
    &&& if before.0.done() < before.0.batch_spec().len() {
        &&& exists|run: UpdateRun| #[trigger]
            update_step(
                before.0.run_spec(),
                run,
                (before.1, after.1),
                before.0.batch_spec()[before.0.done() as int],
                cx,
                went_well,
                UpdateAction::Done,
            )
        &&& after.0.batch_spec() == before.0.batch_spec()
        &&& after.0.done() == before.0.done() + 1
    } else {
        &&& before.1.buffer().len() > 0
        &&& after.0.batch_spec() == before.1.buffer()
        &&& after.0.done() == 0
        &&& after.1.buffer() == Seq::<Update>::empty()
        &&& after.1.same_but_buffer(&before.1)
        &&& after.1.phase_spec() == before.1.phase_spec()
    }
}

/// Whether a move was made that the caller hears of: a message of the next
/// update is to be sent; or one could not be sent, and the rest is given up; or
/// nothing is left to be sent, and the consumer goes live.
pub open spec fn spoke_up(
    before: (DrainRun, ClientState),
    after: (DrainRun, ClientState),
    cx: EmitContext,
    went_well: bool,
    action: DrainAction,
) -> bool {
    match before.0.stage_spec() {
        DrainStage::Live => after == before && action is Live,
        DrainStage::Failed => after == before && action is Failed,
        DrainStage::Draining => if before.0.done() < before.0.batch_spec().len() {
            &&& after.0.batch_spec() == before.0.batch_spec()
            &&& after.0.done() == before.0.done()
            &&& exists|said: UpdateAction|
                {
                    &&& #[trigger] update_step(
                        before.0.run_spec(),
                        after.0.run_spec(),
                        (before.1, after.1),
                        before.0.batch_spec()[before.0.done() as int],
                        cx,
                        went_well,
                        said,
                    )
                    &&& match said {
                        UpdateAction::Send(msg) => drain_sends(action) == Some(msg@)
                            && after.0.stage_spec() == DrainStage::Draining,
                        UpdateAction::Done => false,
                        UpdateAction::Failed => action is Failed && after.0.stage_spec()
                            == DrainStage::Failed,
                    }
                }
        } else {
            &&& action is Live
            &&& after.0.stage_spec() == DrainStage::Live
            &&& before.1.buffer().len() == 0
            &&& after.1.buffer() == Seq::<Update>::empty()
            &&& after.1.phase_spec() == ClientPhase::Live
            &&& after.1.same_but_buffer(&before.1)
        },
    }
}

/// Whether these are the states that moves lead through which send nothing.
pub open spec fn moved_through(
    states: Seq<(DrainRun, ClientState)>,
    cx: EmitContext,
    went_well: bool,
) -> bool {
    &&& states.len() > 0
    &&& forall|i: int, j: int|
        #![trigger states[i], states[j]]
        0 <= i && j == i + 1 && j < states.len() ==> moved_on(states[i], states[j], cx, went_well)
}

/// One step of the sending of what was buffered: moves that send nothing, and
/// then one that the caller hears of.
pub open spec fn drain_step(
    before: (DrainRun, ClientState),
    after: (DrainRun, ClientState),
    cx: EmitContext,
    went_well: bool,
    action: DrainAction,
    states: Seq<(DrainRun, ClientState)>,
) -> bool {
    &&& moved_through(states, cx, went_well)
    &&& states[0] == before
    &&& spoke_up(states.last(), after, cx, went_well, action)
}

impl DrainRun {
    /// The updates that were taken from the buffer last.
    pub closed spec fn batch_spec(&self) -> Seq<Update> {
        self.batch@
    }

    /// The number of them that are done.
    pub closed spec fn done(&self) -> nat {
        self.at as nat
    }

    /// How far the next of them has come.
    pub closed spec fn run_spec(&self) -> UpdateRun {
        self.run
    }

    /// How far the sending has come.
    pub closed spec fn stage_spec(&self) -> DrainStage {
        self.stage
    }

    /// The next update has come as far as it can have, and all can be sent.
    pub open spec fn wf(&self) -> bool {
        &&& self.done() <= self.batch_spec().len()
        &&& self.done() < self.batch_spec().len() ==> self.run_spec().wf(
            self.batch_spec()[self.done() as int],
        )
        &&& all_sendable(self.batch_spec())
    }

    /// Nothing was taken from the buffer yet.
    pub fn new() -> (run: Self)
        ensures
            run.wf(),
            run.batch_spec() == Seq::<Update>::empty(),
            run.done() == 0,
            is_fresh(run.run_spec()),
            run.stage_spec() == DrainStage::Draining,
    {
        DrainRun {
            batch: Vec::new(),
            at: 0,
            run: UpdateRun::new(),
            stage: DrainStage::Draining,
        }
    }

    /// Says what is to be done next, given whether the message that was handed
    /// out last could be sent. At the first call there was none.
    pub fn next(
        &mut self,
        client: &mut ClientState,
        ingress_register: &Register,
        forward_router_info: bool,
        fan_in_peer_distinguisher: FanInPeerDistinguisher,
        went_well: bool,
    ) -> (action: DrainAction)
        requires
            old(self).wf(),
            old(client).wf(),
            all_sendable(old(client).buffer()),
        ensures
            final(self).wf(),
            final(client).wf(),
            exists|states: Seq<(DrainRun, ClientState)>| #[trigger]
                drain_step(
                    (*old(self), *old(client)),
                    (*final(self), *final(client)),
                    (ingress_register@, forward_router_info, fan_in_peer_distinguisher),
                    went_well,
                    action,
                    states,
                ),
    {
        let ghost cx = (ingress_register@, forward_router_info, fan_in_peer_distinguisher);
        let ghost start = (*self, *client);
        let ghost mut states: Seq<(DrainRun, ClientState)> = seq![start];
        loop
            invariant
                start == (*old(self), *old(client)),
                cx == (ingress_register@, forward_router_info, fan_in_peer_distinguisher),
                self.wf(),
                client.wf(),
                all_sendable(client.buffer()),
                moved_through(states, cx, went_well),
                states[0] == start,
                states.last() == (*self, *client),
            decreases client.buffer().len(), self.batch@.len() - self.at,
        {
            let said = self.advance(
                client,
                ingress_register,
                forward_router_info,
                fan_in_peer_distinguisher,
                went_well,
            );
            if let Some(action) = said {
                assert(drain_step(start, (*self, *client), cx, went_well, action, states));
                return action;
            }
            proof {
                one_more_move(states, (*self, *client), cx, went_well);
                states = states.push((*self, *client));
            }
        }
    }

    /// Makes one move: finishes or goes on with the next update, or looks into
    /// the buffer.
    fn advance(
        &mut self,
        client: &mut ClientState,
        ingress_register: &Register,
        forward_router_info: bool,
        fan_in_peer_distinguisher: FanInPeerDistinguisher,
        went_well: bool,
    ) -> (said: Option<DrainAction>)
        requires
            old(self).wf(),
            old(client).wf(),
            all_sendable(old(client).buffer()),
        ensures
            final(self).wf(),
            final(client).wf(),
            all_sendable(final(client).buffer()),
            match said {
                Some(action) => spoke_up(
                    (*old(self), *old(client)),
                    (*final(self), *final(client)),
                    (ingress_register@, forward_router_info, fan_in_peer_distinguisher),
                    went_well,
                    action,
                ),
                None => moved_on(
                    (*old(self), *old(client)),
                    (*final(self), *final(client)),
                    (ingress_register@, forward_router_info, fan_in_peer_distinguisher),
                    went_well,
                ) && (final(client).buffer().len() < old(client).buffer().len() || (
                final(client).buffer().len() == old(client).buffer().len()
                    && final(self).batch_spec().len() - final(self).done()
                    < old(self).batch_spec().len() - old(self).done())),
            },
    {
        let ghost cx = (ingress_register@, forward_router_info, fan_in_peer_distinguisher);
        match self.stage {
            DrainStage::Live => {
                return Some(DrainAction::Live);
            },
            DrainStage::Failed => {
                return Some(DrainAction::Failed);
            },
            DrainStage::Draining => {},
        }
        if self.at < self.batch.len() {
            let said = self.run.next(
                client,
                &self.batch[self.at],
                ingress_register,
                forward_router_info,
                fan_in_peer_distinguisher,
                went_well,
            );
            let ghost before = (*old(self), *old(client));
            let ghost update = before.0.batch_spec()[before.0.done() as int];
            let ghost spoken = said;
            assert(update_step(
                before.0.run_spec(),
                self.run_spec(),
                (before.1, *client),
                update,
                cx,
                went_well,
                said,
            ));
            match said {
                UpdateAction::Send(msg) => {
                    let action = DrainAction::Send(msg);
                    assert(spoke_up(before, (*self, *client), cx, went_well, action));
                    Some(action)
                },
                UpdateAction::Failed => {
                    self.stage = DrainStage::Failed;
                    let action = DrainAction::Failed;
                    assert(update_step(
                        before.0.run_spec(),
                        self.run_spec(),
                        (before.1, *client),
                        update,
                        cx,
                        went_well,
                        spoken,
                    ));
                    assert(spoke_up(before, (*self, *client), cx, went_well, action));
                    Some(action)
                },
                UpdateAction::Done => {
                    self.at = self.at + 1;
                    self.run = UpdateRun::new();
                    None
                },
            }
        } else {
            match client.drain_or_go_live() {
                Some(updates) => {
                    self.batch = updates;
                    self.at = 0;
                    self.run = UpdateRun::new();
                    None
                },
                None => {
                    self.stage = DrainStage::Live;
                    Some(DrainAction::Live)
                },
            }
        }
    }
}

proof fn one_more_move(
    states: Seq<(DrainRun, ClientState)>,
    now: (DrainRun, ClientState),
    cx: EmitContext,
    went_well: bool,
)
    requires
        moved_through(states, cx, went_well),
        moved_on(states.last(), now, cx, went_well),
    ensures
        moved_through(states.push(now), cx, went_well),
{
    let more = states.push(now);
    assert forall|i: int, j: int|
        #![trigger more[i], more[j]]
        0 <= i && j == i + 1 && j < more.len() implies moved_on(
        more[i],
        more[j],
        cx,
        went_well,
    ) by {
        if j < states.len() {
            assert(more[i] == states[i] && more[j] == states[j]);
        }
    }
}

//------------ Laws ----------------------------------------------------------

proof fn still_draining(states: Seq<(DrainRun, ClientState)>, cx: EmitContext, went_well: bool)
    requires
        moved_through(states, cx, went_well),
        states[0].0.stage_spec() == DrainStage::Draining,
    ensures
        states.last().0.stage_spec() == DrainStage::Draining,
{
    if states.len() > 1 {
        assert(moved_on(states[states.len() - 2], states[states.len() - 1], cx, went_well));
    }
}

/// When a consumer goes live, all that was taken from its buffer was sent, and
/// nothing is left in the buffer: no update that came during the dump is left
/// behind.
pub proof fn nothing_is_left_behind(
    before: (DrainRun, ClientState),
    after: (DrainRun, ClientState),
    cx: EmitContext,
    went_well: bool,
    action: DrainAction,
    states: Seq<(DrainRun, ClientState)>,
)
    requires
        drain_step(before, after, cx, went_well, action, states),
        before.0.stage_spec() == DrainStage::Draining,
        action is Live,
    ensures
        after.0.stage_spec() == DrainStage::Live,
        after.1.phase_spec() == ClientPhase::Live,
        after.1.buffer().len() == 0,
        states.last().0.done() >= states.last().0.batch_spec().len(),
        states.last().1.buffer().len() == 0,
{
    still_draining(states, cx, went_well);
}

/// After a message that could not be sent nothing more is sent, and the
/// consumer does not go live.
pub proof fn a_failed_drain_stays_failed(
    first: (DrainRun, ClientState),
    second: (DrainRun, ClientState),
    third: (DrainRun, ClientState),
    cx: EmitContext,
    went_well: (bool, bool),
    actions: (DrainAction, DrainAction),
    states: (Seq<(DrainRun, ClientState)>, Seq<(DrainRun, ClientState)>),
)
    requires
        drain_step(first, second, cx, went_well.0, actions.0, states.0),
        drain_step(second, third, cx, went_well.1, actions.1, states.1),
        actions.0 is Failed,
    ensures
        actions.1 is Failed,
        third == second,
{
    if states.1.len() > 1 {
        assert(moved_on(states.1[0], states.1[1], cx, went_well.1));
    }
}

} // verus!
