//! What a consumer is sent of the updates that were buffered for it.
use crate::payload::Update;
use crate::units::bmp_tcp_out::client_handler::{part_planned, parts_of, EmitContext, Outgoing};
use crate::units::bmp_tcp_out::client_laws::{
    in_turn, keeps_what_it_knows, octets_of, sent_so_far, step_for_another, step_so_far,
};
use crate::units::bmp_tcp_out::client_state::ClientState;
use crate::units::bmp_tcp_out::drain_run::{
    drain_sends, drain_step, moved_on, moved_through, spoke_up, DrainAction, DrainRun, DrainStage,
};
use crate::units::bmp_tcp_out::update_run::{
    next_part_begun, parts_in_turn, sends, update_step, UpdateAction, UpdateRun, UpdateStage,
};
use vstd::prelude::*;

verus! {

/// Whether these are the messages of all parts of an update, planned in turn for
/// a consumer of which what is said of peers is kept for known ones only.
#[verifier::opaque]
pub open spec fn is_whole(update: Update, cx: EmitContext, messages: Seq<Seq<u8>>) -> bool {
    exists|states: Seq<ClientState>, plans: Seq<Seq<Outgoing>>|
        {
            &&& #[trigger] parts_in_turn(update, 0, cx, states, plans)
            &&& plans.len() == parts_of(update)
            &&& keeps_what_it_knows(states[0])
            &&& messages == plans.flatten().map_values(|o: Outgoing| o.msg@)
        }
}

/// Whether these are the steps by which a consumer that refuses nothing is
/// brought up to date, and what was buffered before each of them. Between the
/// steps anything else may become of the consumer, but for the peers that it
/// knows.
pub open spec fn drained_without_refusal(
    runs: Seq<DrainRun>,
    befores: Seq<ClientState>,
    afters: Seq<ClientState>,
    cx: EmitContext,
    actions: Seq<DrainAction>,
    moves: Seq<Seq<(DrainRun, ClientState)>>,
    buffered: Seq<Seq<Update>>,
) -> bool {
    &&& actions.len() > 0
    &&& runs.len() == actions.len() + 1
    &&& befores.len() == actions.len()
    &&& afters.len() == actions.len()
    &&& moves.len() == actions.len()
    &&& buffered.len() == actions.len()
    &&& runs[0].stage_spec() == DrainStage::Draining
    &&& runs[0].batch_spec() == Seq::<Update>::empty()
    &&& runs[0].done() == 0
    &&& befores[0].buffer() == buffered[0]
    &&& forall|i: int|
        0 <= i < actions.len() ==> drain_step(
            (runs[i], befores[i]),
            (runs[i + 1], afters[i]),
            cx,
            true,
            #[trigger] actions[i],
            moves[i],
        )
    &&& forall|i: int, j: int|
        #![trigger afters[i], befores[j]]
        0 <= i && j == i + 1 && j < befores.len() ==> afters[i].same_peers(&befores[j])
            && befores[j].buffer() == afters[i].buffer() + buffered[j]
}

//------------ What stays as it is -------------------------------------------

proof fn part_leaves_the_rest(
    before: ClientState,
    after: ClientState,
    update: Update,
    part: int,
    cx: EmitContext,
    plan: Seq<Outgoing>,
)
    requires
        part_planned(before, after, update, part, cx, plan),
    ensures
        after.buffer() == before.buffer(),
        keeps_what_it_knows(before) ==> keeps_what_it_knows(after),
{
}

proof fn parts_leave_the_rest(
    update: Update,
    first: nat,
    cx: EmitContext,
    states: Seq<ClientState>,
    plans: Seq<Seq<Outgoing>>,
    n: int,
)
    requires
        parts_in_turn(update, first, cx, states, plans),
        0 <= n <= plans.len(),
    ensures
        states[n].buffer() == states[0].buffer(),
        keeps_what_it_knows(states[0]) ==> keeps_what_it_knows(states[n]),
    decreases n,
{
    if n > 0 {
        let k = n - 1;
        parts_leave_the_rest(update, first, cx, states, plans, k);
        assert(part_planned(states[k], states[k + 1], update, first + k, cx, plans[k]));
        part_leaves_the_rest(states[k], states[k + 1], update, first + k, cx, plans[k]);
    }
}

proof fn step_leaves_the_buffer(
    before: UpdateRun,
    after: UpdateRun,
    clients: (ClientState, ClientState),
    update: Update,
    cx: EmitContext,
    action: UpdateAction,
)
    requires
        update_step(before, after, clients, update, cx, true, action),
    ensures
        clients.1.buffer() == clients.0.buffer(),
        action is Done ==> after.stage_spec() == UpdateStage::Done,
        action is Failed ==> before.stage_spec() == UpdateStage::Failed,
{
    reveal(update_step);
    if before.stage_spec() == UpdateStage::Start || (before.stage_spec() == UpdateStage::Waiting
        && before.at_spec() + 1 >= before.plan_spec().len()) {
        let (states, plans) = choose|states: Seq<ClientState>, plans: Seq<Seq<Outgoing>>|
            #[trigger]
            next_part_begun(before, after, clients, update, cx, action, states, plans);
        let n = plans.len() as int;
        parts_leave_the_rest(update, before.part_spec(), cx, states, plans, n);
    }
}

//------------ How far a drain has come --------------------------------------

/// What was sent so far.
struct Progress {
    // The updates that are done, and the messages of each.
    finished: Seq<Update>,
    groups: Seq<Seq<Seq<u8>>>,
    // The messages of the next update that went out.
    partial: Seq<Seq<u8>>,
    // The consumer when the next update began, and one with its peers now.
    first: ClientState,
    now: ClientState,
    // The parts of the next update that were planned.
    states: Seq<ClientState>,
    plans: Seq<Seq<Outgoing>>,
}

#[verifier::opaque]
spec fn drained_so_far(
    at: (DrainRun, ClientState),
    cx: EmitContext,
    all: Seq<Update>,
    sent: Seq<Seq<u8>>,
    g: Progress,
) -> bool {
    let run = at.0;
    &&& run.stage_spec() == DrainStage::Draining
    &&& run.done() <= run.batch_spec().len()
    &&& all == g.finished + run.batch_spec().skip(run.done() as int) + at.1.buffer()
    &&& g.groups.len() == g.finished.len()
    &&& forall|k: int|
        0 <= k < g.groups.len() ==> is_whole(g.finished[k], cx, #[trigger] g.groups[k])
    &&& sent == g.groups.flatten() + g.partial
    &&& keeps_what_it_knows(g.first)
    &&& g.now.same_peers(&at.1)
    &&& if run.done() < run.batch_spec().len() {
        sent_so_far(
            run.run_spec(),
            (g.first, g.now),
            run.batch_spec()[run.done() as int],
            cx,
            g.partial,
            g.states,
            g.plans,
        )
    } else {
        g.partial.len() == 0 && g.first == g.now
    }
}

/// An update that was not begun has come nowhere.
proof fn nothing_is_sent_yet(run: UpdateRun, client: ClientState, update: Update, cx: EmitContext)
    requires
        run.stage_spec() == UpdateStage::Start,
        run.part_spec() == 0,
    ensures
        sent_so_far(
            run,
            (client, client),
            update,
            cx,
            Seq::empty(),
            seq![client],
            Seq::empty(),
        ),
{
    reveal(in_turn);
}

/// The messages of an update that is done are all of it.
proof fn finished_is_whole(
    run: UpdateRun,
    clients: (ClientState, ClientState),
    update: Update,
    cx: EmitContext,
    sent: Seq<Seq<u8>>,
    states: Seq<ClientState>,
    plans: Seq<Seq<Outgoing>>,
)
    requires
        sent_so_far(run, clients, update, cx, sent, states, plans),
        run.stage_spec() == UpdateStage::Done,
        keeps_what_it_knows(clients.0),
    ensures
        is_whole(update, cx, sent),
        keeps_what_it_knows(clients.1),
{
    reveal(in_turn);
    reveal(is_whole);
    parts_leave_the_rest(update, 0, cx, states, plans, plans.len() as int);
    assert(sent == octets_of(plans.flatten()));
    assert(parts_in_turn(update, 0, cx, states, plans));
}

/// The last step of an update: all of it was sent, and its peers are those that
/// the consumer has after it.
proof fn last_step_so_far(
    run: UpdateRun,
    clients: (ClientState, ClientState),
    update: Update,
    cx: EmitContext,
    after: UpdateRun,
    g: Progress,
)
    requires
        update_step(run, after, clients, update, cx, true, UpdateAction::Done),
        sent_so_far(run, (g.first, g.now), update, cx, g.partial, g.states, g.plans),
        keeps_what_it_knows(g.first),
        g.now.same_peers(&clients.0),
    ensures
        is_whole(update, cx, g.partial),
        keeps_what_it_knows(clients.1),
        clients.1.buffer() == clients.0.buffer(),
{
    let action = UpdateAction::Done;
    step_leaves_the_buffer(run, after, clients, update, cx, action);
    let d = step_for_another(run, after, clients, update, cx, action, g.now);
    let (s, p) = step_so_far(
        run,
        after,
        (g.first, g.now, d),
        update,
        cx,
        action,
        g.partial,
        g.states,
        g.plans,
    );
    finished_is_whole(after, (g.first, d), update, cx, g.partial, s, p);
}

/// The next update is done, and makes way for the one after it.
proof fn finish_so_far(
    before: (DrainRun, ClientState),
    after: (DrainRun, ClientState),
    cx: EmitContext,
    all: Seq<Update>,
    sent: Seq<Seq<u8>>,
    g: Progress,
) -> (h: Progress)
    requires
        drained_so_far(before, cx, all, sent, g),
        moved_on(before, after, cx, true),
        before.0.done() < before.0.batch_spec().len(),
    ensures
        drained_so_far(after, cx, all, sent, h),
{
    reveal(drained_so_far);
    let batch = before.0.batch_spec();
    let done = before.0.done() as int;
    let update = batch[done];
    let old = before.0.run_spec();
    let clients = (before.1, after.1);
    let run = choose|run: UpdateRun| #[trigger]
        update_step(old, run, clients, update, cx, true, UpdateAction::Done);
    last_step_so_far(old, clients, update, cx, run, g);
    let h = Progress {
        finished: g.finished.push(update),
        groups: g.groups.push(g.partial),
        partial: Seq::empty(),
        first: after.1,
        now: after.1,
        states: seq![after.1],
        plans: Seq::empty(),
    };
    g.groups.lemma_flatten_push(g.partial);
    assert(sent =~= h.groups.flatten() + h.partial);
    assert(all =~= h.finished + batch.skip(done + 1) + after.1.buffer());
    assert forall|k: int| 0 <= k < h.groups.len() implies is_whole(
        h.finished[k],
        cx,
        #[trigger] h.groups[k],
    ) by {
        if k < g.groups.len() {
            assert(h.groups[k] == g.groups[k]);
        }
    }
    if done + 1 < batch.len() {
        nothing_is_sent_yet(after.0.run_spec(), after.1, batch[done + 1], cx);
    }
    h
}

/// All that was buffered meanwhile is taken.
proof fn take_so_far(
    before: (DrainRun, ClientState),
    after: (DrainRun, ClientState),
    cx: EmitContext,
    all: Seq<Update>,
    sent: Seq<Seq<u8>>,
    g: Progress,
) -> (h: Progress)
    requires
        drained_so_far(before, cx, all, sent, g),
        moved_on(before, after, cx, true),
        before.0.done() >= before.0.batch_spec().len(),
    ensures
        drained_so_far(after, cx, all, sent, h),
{
    reveal(drained_so_far);
    let h = Progress {
        partial: Seq::empty(),
        first: after.1,
        now: after.1,
        states: seq![after.1],
        plans: Seq::empty(),
        ..g
    };
    let taken = before.1.buffer();
    assert(g.partial =~= h.partial);
    assert(before.0.batch_spec().skip(before.0.done() as int) =~= Seq::empty());
    assert(all =~= h.finished + taken.skip(0) + after.1.buffer());
    nothing_is_sent_yet(after.0.run_spec(), after.1, taken[0], cx);
    h
}

proof fn moves_so_far(
    states: Seq<(DrainRun, ClientState)>,
    cx: EmitContext,
    all: Seq<Update>,
    sent: Seq<Seq<u8>>,
    g: Progress,
    n: int,
) -> (h: Progress)
    requires
        moved_through(states, cx, true),
        0 <= n < states.len(),
        drained_so_far(states[0], cx, all, sent, g),
    ensures
        drained_so_far(states[n], cx, all, sent, h),
    decreases n,
{
    if n == 0 {
        g
    } else {
        let f = moves_so_far(states, cx, all, sent, g, n - 1);
        assert(moved_on(states[n - 1], states[n], cx, true));
        let (before, after) = (states[n - 1], states[n]);
        if before.0.done() < before.0.batch_spec().len() {
            finish_so_far(before, after, cx, all, sent, f)
        } else {
            take_so_far(before, after, cx, all, sent, f)
        }
    }
}

/// A message of the next update goes out.
proof fn message_so_far(
    before: (DrainRun, ClientState),
    after: (DrainRun, ClientState),
    cx: EmitContext,
    action: DrainAction,
    all: Seq<Update>,
    sent: Seq<Seq<u8>>,
    g: Progress,
) -> (h: Progress)
    requires
        drained_so_far(before, cx, all, sent, g),
        spoke_up(before, after, cx, true, action),
        !(action is Live),
    ensures
        drain_sends(action) matches Some(msg) && drained_so_far(after, cx, all, sent.push(msg), h),
{
    reveal(drained_so_far);
    let batch = before.0.batch_spec();
    let done = before.0.done() as int;
    let update = batch[done];
    let old = before.0.run_spec();
    let run = after.0.run_spec();
    let said = choose|said: UpdateAction|
        {
            &&& #[trigger] update_step(old, run, (before.1, after.1), update, cx, true, said)
            &&& match said {
                UpdateAction::Send(msg) => drain_sends(action) == Some(msg@)
                    && after.0.stage_spec() == DrainStage::Draining,
                UpdateAction::Done => false,
                UpdateAction::Failed => action is Failed && after.0.stage_spec()
                    == DrainStage::Failed,
            }
        };
    let clients = (before.1, after.1);
    step_leaves_the_buffer(old, run, clients, update, cx, said);
    let d = step_for_another(old, run, clients, update, cx, said, g.now);
    let (s, p) = step_so_far(
        old,
        run,
        (g.first, g.now, d),
        update,
        cx,
        said,
        g.partial,
        g.states,
        g.plans,
    );
    let msg = sends(said)->0;
    let h = Progress { partial: g.partial.push(msg), now: d, states: s, plans: p, ..g };
    assert(sent.push(msg) =~= h.groups.flatten() + h.partial);
    h
}

proof fn drain_begins(run: DrainRun, client: ClientState, cx: EmitContext) -> (g: Progress)
    requires
        run.stage_spec() == DrainStage::Draining,
        run.batch_spec() == Seq::<Update>::empty(),
        run.done() == 0,
        keeps_what_it_knows(client),
    ensures
        drained_so_far((run, client), cx, client.buffer(), Seq::empty(), g),
{
    reveal(drained_so_far);
    let g = Progress {
        finished: Seq::empty(),
        groups: Seq::empty(),
        partial: Seq::empty(),
        first: client,
        now: client,
        states: seq![client],
        plans: Seq::empty(),
    };
    assert(g.groups.flatten() =~= Seq::empty());
    assert(g.groups.flatten() + g.partial =~= Seq::empty());
    assert(client.buffer() =~= g.finished + run.batch_spec().skip(0) + client.buffer());
    g
}

proof fn more_is_buffered(
    at: (DrainRun, ClientState),
    client: ClientState,
    cx: EmitContext,
    all: Seq<Update>,
    more: Seq<Update>,
    sent: Seq<Seq<u8>>,
    g: Progress,
)
    requires
        drained_so_far(at, cx, all, sent, g),
        at.1.same_peers(&client),
        client.buffer() == at.1.buffer() + more,
    ensures
        drained_so_far((at.0, client), cx, all + more, sent, g),
{
    reveal(drained_so_far);
    assert(all + more =~= g.finished + at.0.batch_spec().skip(at.0.done() as int)
        + client.buffer());
}

/// The messages that a consumer was handed, in order.
pub open spec fn drained_messages(actions: Seq<DrainAction>) -> Seq<Seq<u8>> {
    actions.filter_map(|a: DrainAction| drain_sends(a))
}

proof fn steps_so_far(
    runs: Seq<DrainRun>,
    befores: Seq<ClientState>,
    afters: Seq<ClientState>,
    cx: EmitContext,
    actions: Seq<DrainAction>,
    moves: Seq<Seq<(DrainRun, ClientState)>>,
    buffered: Seq<Seq<Update>>,
    n: int,
) -> (g: Progress)
    requires
        drained_without_refusal(runs, befores, afters, cx, actions, moves, buffered),
        keeps_what_it_knows(befores[0]),
        0 <= n < actions.len(),
        forall|i: int| 0 <= i < n ==> !(#[trigger] actions[i] is Live),
    ensures
        drained_so_far(
            (runs[n], befores[n]),
            cx,
            buffered.take(n + 1).flatten(),
            drained_messages(actions.take(n)),
            g,
        ),
    decreases n,
{
    let all = buffered.take(n + 1).flatten();
    let sent = drained_messages(actions.take(n));
    if n == 0 {
        assert(actions.take(0) =~= Seq::empty());
        assert(sent =~= Seq::empty());
        assert(buffered.take(1) =~= Seq::<Seq<Update>>::empty().push(buffered[0]));
        Seq::<Seq<Update>>::empty().lemma_flatten_push(buffered[0]);
        assert(Seq::<Seq<Update>>::empty().flatten() =~= Seq::empty());
        assert(all =~= buffered[0]);
        drain_begins(runs[0], befores[0], cx)
    } else {
        let k = n - 1;
        let had = buffered.take(n).flatten();
        let earlier = drained_messages(actions.take(k));
        let g = steps_so_far(runs, befores, afters, cx, actions, moves, buffered, k);
        assert(drain_step(
            (runs[k], befores[k]),
            (runs[k + 1], afters[k]),
            cx,
            true,
            actions[k],
            moves[k],
        ));
        let last = moves[k].len() - 1;
        let h = moves_so_far(moves[k], cx, had, earlier, g, last);
        let after = (runs[n], afters[k]);
        let f = message_so_far(moves[k][last], after, cx, actions[k], had, earlier, h);
        actions.lemma_filter_map_take_succ(|a: DrainAction| drain_sends(a), k);
        assert(sent =~= earlier.push(drain_sends(actions[k])->0));
        assert(afters[k].same_peers(&befores[n]));
        assert(buffered.take(n + 1) =~= buffered.take(n).push(buffered[n]));
        buffered.take(n).lemma_flatten_push(buffered[n]);
        more_is_buffered(after, befores[n], cx, had, buffered[n], sent, f);
        f
    }
}

/// A consumer that refuses nothing is sent every update that was buffered for it
/// during the dump, and those that were buffered while it was brought up to
/// date, in the order in which they were buffered and each once: when it goes
/// live, the messages that were handed out are those of the first update, then
/// those of the second, and so on to the last; and of each update they are all.
pub proof fn every_buffered_update_is_sent(
    runs: Seq<DrainRun>,
    befores: Seq<ClientState>,
    afters: Seq<ClientState>,
    cx: EmitContext,
    actions: Seq<DrainAction>,
    moves: Seq<Seq<(DrainRun, ClientState)>>,
    buffered: Seq<Seq<Update>>,
) -> (groups: Seq<Seq<Seq<u8>>>)
    requires
        drained_without_refusal(runs, befores, afters, cx, actions, moves, buffered),
        keeps_what_it_knows(befores[0]),
        forall|i: int| 0 <= i < actions.len() - 1 ==> !(#[trigger] actions[i] is Live),
        actions.last() is Live,
    ensures
        groups.len() == buffered.flatten().len(),
        forall|k: int|
            0 <= k < groups.len() ==> is_whole(
                buffered.flatten()[k],
                cx,
                #[trigger] groups[k],
            ),
        drained_messages(actions) == groups.flatten(),
{
    let n = actions.len() - 1;
    let g = steps_so_far(runs, befores, afters, cx, actions, moves, buffered, n);
    assert(buffered.take(n + 1) =~= buffered);
    let all = buffered.flatten();
    let sent = drained_messages(actions.take(n));
    assert(drain_step(
        (runs[n], befores[n]),
        (runs[n + 1], afters[n]),
        cx,
        true,
        actions[n],
        moves[n],
    ));
    let last = moves[n].len() - 1;
    let h = moves_so_far(moves[n], cx, all, sent, g, last);
    let end = moves[n][last];
    reveal(drained_so_far);
    assert(end.0.done() == end.0.batch_spec().len());
    assert(end.0.batch_spec().skip(end.0.done() as int) =~= Seq::empty());
    assert(all =~= h.finished);
    actions.lemma_filter_map_take_succ(|a: DrainAction| drain_sends(a), n);
    assert(actions.take(n + 1) =~= actions);
    assert(drained_messages(actions) =~= h.groups.flatten());
    h.groups
}

/// When a message of an update could not be sent, the sending of what was
/// buffered ends: nothing more is handed out, the consumer does not go live, and
/// what is still buffered stays.
pub proof fn unsent_message_ends_the_drain(
    before: (DrainRun, ClientState),
    after: (DrainRun, ClientState),
    cx: EmitContext,
    action: DrainAction,
    states: Seq<(DrainRun, ClientState)>,
)
    requires
        drain_step(before, after, cx, false, action, states),
        before.0.stage_spec() == DrainStage::Draining,
        before.0.done() < before.0.batch_spec().len(),
        before.0.run_spec().stage_spec() == UpdateStage::Waiting,
    ensures
        action is Failed,
        drain_sends(action) is None,
        after.0.stage_spec() == DrainStage::Failed,
        after.1.phase_spec() == before.1.phase_spec(),
        after.1.buffer() == before.1.buffer(),
{
    reveal(update_step);
    if states.len() > 1 {
        assert(moved_on(states[0], states[1], cx, false));
    }
}

} // verus!
