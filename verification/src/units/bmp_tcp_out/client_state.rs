//! What is kept for one connected BMP consumer.
use crate::ingress::IngressId;
use crate::mem_stats::{replaced, snapshot_of, BmpOutCounters};
use crate::payload::{footprint, Update};
use crate::units::bmp_tcp_out::bmp_builder::PeerInfo;
use crate::wire::capped;
use std::collections::{HashMap, HashSet};
use vstd::prelude::*;
use vstd::std_specs::hash::*;

verus! {

/// How far a consumer has come.
#[derive(Clone, Copy, Debug, PartialEq, Eq, Structural)]
pub enum ClientPhase {
    /// The initial table dump is in progress.
    Dumping,
    /// The consumer receives live updates.
    Live,
}

/// What became of an update for a consumer that may be dumping.
#[derive(Clone, Copy, Debug, PartialEq, Eq, Structural)]
pub enum BufferUpdateResult {
    Buffered,
    NotDumping,
    Overflow,
}

/// What became of a message that was put on the queue of a consumer.
#[derive(Clone, Copy, Debug, PartialEq, Eq, Structural)]
pub enum SendOutcome {
    Sent,
    /// The queue was full and the sender did not wait.
    Full,
    /// The consumer is gone.
    Closed,
}

/// What is kept for one connected consumer.
#[derive(Debug)]
pub struct ClientState {
    phase: ClientPhase,
    // The updates that arrived during the initial dump.
    dump_buffer: Vec<Update>,
    // The peers for which a Peer Up was sent.
    known_peers: HashSet<IngressId>,
    // What the messages about a known peer say of it.
    peer_cache: HashMap<IngressId, PeerInfo>,
    messages_sent: usize,
    bytes_sent: usize,
    max_buffer_entries: usize,
    max_buffer_bytes: usize,
    // What the buffered updates are charged.
    buffered_bytes: usize,
    disconnect_pending: bool,
}

/// What updates are charged together.
pub open spec fn charged(updates: Seq<Update>) -> nat
    decreases updates.len(),
{
    if updates.len() == 0 {
        0
    } else {
        charged(updates.drop_last()) + capped(footprint(updates.last()))
    }
}

impl ClientState {
    /// How far the consumer has come.
    pub closed spec fn phase_spec(&self) -> ClientPhase {
        self.phase
    }

    /// The buffered updates.
    pub closed spec fn buffer(&self) -> Seq<Update> {
        self.dump_buffer@
    }

    /// The peers that the consumer knows.
    pub closed spec fn known(&self) -> Set<IngressId> {
        self.known_peers@
    }

    /// What is said of the known peers.
    pub closed spec fn cache(&self) -> Map<IngressId, PeerInfo> {
        self.peer_cache@
    }

    /// The largest number of updates, and the largest charge, that the buffer
    /// may reach.
    pub closed spec fn limits(&self) -> (nat, nat) {
        (self.max_buffer_entries as nat, self.max_buffer_bytes as nat)
    }

    /// The numbers of messages and of octets sent.
    pub closed spec fn sent(&self) -> (usize, usize) {
        (self.messages_sent, self.bytes_sent)
    }

    /// Whether the consumer is to be disconnected.
    pub closed spec fn leaving(&self) -> bool {
        self.disconnect_pending
    }

    /// The buffer keeps both limits and its charge adds up; what is said of a
    /// peer is kept for known peers only.
    pub closed spec fn wf(&self) -> bool {
        &&& self.buffered_bytes == charged(self.dump_buffer@)
        &&& self.buffered_bytes <= self.max_buffer_bytes
        &&& self.dump_buffer@.len() <= self.max_buffer_entries
        &&& self.peer_cache@.dom().subset_of(self.known_peers@)
    }

    /// What the invariant means for the buffer.
    pub proof fn buffer_keeps_limits(&self)
        requires
            self.wf(),
        ensures
            self.buffer().len() <= self.limits().0,
            charged(self.buffer()) <= self.limits().1,
            self.cache().dom().subset_of(self.known()),
    {
    }

    /// A consumer that just connected.
    pub fn new(max_buffer_entries: usize, max_buffer_bytes: usize) -> (client: Self)
        ensures
            client.wf(),
            client.phase_spec() == ClientPhase::Dumping,
            client.buffer() == Seq::<Update>::empty(),
            client.known() == Set::<IngressId>::empty(),
            client.cache() == Map::<IngressId, PeerInfo>::empty(),
            client.limits() == (max_buffer_entries as nat, max_buffer_bytes as nat),
            client.sent() == (0usize, 0usize),
            !client.leaving(),
    {
        ClientState {
            phase: ClientPhase::Dumping,
            dump_buffer: Vec::new(),
            known_peers: HashSet::new(),
            peer_cache: HashMap::new(),
            messages_sent: 0,
            bytes_sent: 0,
            max_buffer_entries,
            max_buffer_bytes,
            buffered_bytes: 0,
            disconnect_pending: false,
        }
    }

    /// Everything but the buffer and the phase is as before.
    pub open spec fn same_but_buffer(&self, before: &ClientState) -> bool {
        &&& self.known() == before.known()
        &&& self.cache() == before.cache()
        &&& self.limits() == before.limits()
        &&& self.sent() == before.sent()
        &&& self.leaving() == before.leaving()
    }

    /// Everything but the peers is as before.
    pub open spec fn same_but_peers(&self, before: &ClientState) -> bool {
        &&& self.phase_spec() == before.phase_spec()
        &&& self.buffer() == before.buffer()
        &&& self.limits() == before.limits()
        &&& self.sent() == before.sent()
        &&& self.leaving() == before.leaving()
    }

    /// The same peers are known, and the same is said of them.
    pub open spec fn same_peers(&self, other: &ClientState) -> bool {
        &&& self.known() == other.known()
        &&& self.cache() == other.cache()
    }

    /// The consumer, had it the peers of another.
    pub closed spec fn with_peers_of(self, other: ClientState) -> ClientState {
        ClientState { known_peers: other.known_peers, peer_cache: other.peer_cache, ..self }
    }

    /// With the peers of another consumer nothing else changes.
    pub proof fn peers_are_taken_over(self, other: ClientState)
        ensures
            self.with_peers_of(other).same_peers(&other),
            self.with_peers_of(other).same_but_peers(&self),
    {
    }

    /// How far the consumer has come.
    pub fn phase(&self) -> (phase: ClientPhase)
        ensures
            phase == self.phase_spec(),
    {
        self.phase
    }

    /// The number of buffered updates and what they are charged.
    pub fn buffered(&self) -> (n: (usize, usize))
        requires
            self.wf(),
        ensures
            n.0 == self.buffer().len(),
            n.1 == charged(self.buffer()),
    {
        (self.dump_buffer.len(), self.buffered_bytes)
    }

    /// The numbers of messages and of octets sent.
    pub fn totals(&self) -> (n: (usize, usize))
        ensures
            n == self.sent(),
    {
        (self.messages_sent, self.bytes_sent)
    }

    /// Whether the consumer is to be disconnected.
    pub fn is_leaving(&self) -> (yes: bool)
        ensures
            yes == self.leaving(),
    {
        self.disconnect_pending
    }

    /// Buffers an update if the consumer is still dumping.
    ///
    /// An update that would exceed one of the limits is not kept; the caller
    /// is expected to disconnect the consumer. The limits do not grow.
    pub fn buffer_update_if_dumping(&mut self, update: Update) -> (res: BufferUpdateResult)
        requires
            old(self).wf(),
        ensures
            final(self).wf(),
            final(self).same_but_buffer(old(self)),
            final(self).phase_spec() == old(self).phase_spec(),
            res == if old(self).phase_spec() == ClientPhase::Live {
                BufferUpdateResult::NotDumping
            } else if old(self).buffer().len() >= old(self).limits().0 || charged(
                old(self).buffer(),
            ) + capped(footprint(update)) > old(self).limits().1 {
                BufferUpdateResult::Overflow
            } else {
                BufferUpdateResult::Buffered
            },
            final(self).buffer() == if res == BufferUpdateResult::Buffered {
                old(self).buffer().push(update)
            } else {
                old(self).buffer()
            },
    {
        if self.phase != ClientPhase::Dumping {
            return BufferUpdateResult::NotDumping;
        }
        let upd_bytes: usize = update.shallow_bytes();
        if self.dump_buffer.len() >= self.max_buffer_entries {
            return BufferUpdateResult::Overflow;
        }
        if upd_bytes > self.max_buffer_bytes - self.buffered_bytes {
            return BufferUpdateResult::Overflow;
        }
        self.dump_buffer.push(update);
        self.buffered_bytes = self.buffered_bytes + upd_bytes;
        assert(self.dump_buffer@.drop_last() =~= old(self).dump_buffer@);
        BufferUpdateResult::Buffered
    }

    /// Buffers an update if the consumer is still dumping, and counts it.
    pub fn buffer_and_count(&mut self, update: Update, counters: &mut BmpOutCounters) -> (res:
        BufferUpdateResult)
        requires
            old(self).wf(),
        ensures
            final(self).wf(),
            final(self).same_but_buffer(old(self)),
            final(self).phase_spec() == old(self).phase_spec(),
            res == if old(self).phase_spec() == ClientPhase::Live {
                BufferUpdateResult::NotDumping
            } else if old(self).buffer().len() >= old(self).limits().0 || charged(
                old(self).buffer(),
            ) + capped(footprint(update)) > old(self).limits().1 {
                BufferUpdateResult::Overflow
            } else {
                BufferUpdateResult::Buffered
            },
            if res == BufferUpdateResult::Buffered {
                &&& final(self).buffer() == old(self).buffer().push(update)
                &&& *final(counters) == old(counters).with_update(
                    capped(footprint(update)) as usize,
                )
            } else {
                &&& final(self).buffer() == old(self).buffer()
                &&& *final(counters) == *old(counters)
            },
    {
        let size: usize = update.shallow_bytes();
        let res = self.buffer_update_if_dumping(update);
        if res == BufferUpdateResult::Buffered {
            counters.update_buffered(size);
        }
        res
    }

    /// Takes all buffered updates.
    pub fn take_buffered_updates(&mut self) -> (updates: Vec<Update>)
        requires
            old(self).wf(),
        ensures
            final(self).wf(),
            final(self).same_but_buffer(old(self)),
            final(self).phase_spec() == old(self).phase_spec(),
            updates@ == old(self).buffer(),
            final(self).buffer() == Seq::<Update>::empty(),
    {
        let mut updates: Vec<Update> = Vec::new();
        std::mem::swap(&mut updates, &mut self.dump_buffer);
        self.buffered_bytes = 0;
        updates
    }

    /// Takes the buffered updates to be sent next, or, if there are none, lets
    /// the consumer go live.
    ///
    /// The updates are sent without holding on to the consumer, so that more
    /// can be buffered meanwhile. The step to live happens together with the
    /// look into the empty buffer, so that none is left behind.
    pub fn drain_or_go_live(&mut self) -> (updates: Option<Vec<Update>>)
        requires
            old(self).wf(),
        ensures
            final(self).wf(),
            final(self).same_but_buffer(old(self)),
            final(self).buffer() == Seq::<Update>::empty(),
            match updates {
                Some(u) => u@ == old(self).buffer() && u@.len() > 0 && final(self).phase_spec()
                    == old(self).phase_spec(),
                None => old(self).buffer().len() == 0 && final(self).phase_spec()
                    == ClientPhase::Live,
            },
    {
        let updates = self.take_buffered_updates();
        if updates.len() == 0 {
            self.phase = ClientPhase::Live;
            None
        } else {
            Some(updates)
        }
    }

    /// Records what became of a message of the given size. Returns whether it
    /// was sent.
    ///
    /// A queue that is full where the sender must not wait means that the
    /// consumer is too slow: it is flagged for disconnect. The second result
    /// says whether it was flagged just now, so that it is to be notified.
    pub fn send_message_mode(&mut self, len: usize, outcome: SendOutcome) -> (res: (bool, bool))
        requires
            old(self).wf(),
        ensures
            final(self).wf(),
            final(self).known() == old(self).known(),
            final(self).cache() == old(self).cache(),
            final(self).buffer() == old(self).buffer(),
            final(self).phase_spec() == old(self).phase_spec(),
            final(self).limits() == old(self).limits(),
            res.0 == (outcome == SendOutcome::Sent),
            res.1 == (outcome == SendOutcome::Full && !old(self).leaving()),
            final(self).leaving() == (old(self).leaving() || outcome == SendOutcome::Full),
            final(self).sent() == if outcome == SendOutcome::Sent {
                (
                    vstd::wrapping::usize_specs::wrapping_add(old(self).sent().0, 1),
                    vstd::wrapping::usize_specs::wrapping_add(old(self).sent().1, len),
                )
            } else {
                old(self).sent()
            },
    {
        match outcome {
            SendOutcome::Sent => {
                self.messages_sent = self.messages_sent.wrapping_add(1);
                self.bytes_sent = self.bytes_sent.wrapping_add(len);
                (true, false)
            },
            SendOutcome::Full => {
                let notify = self.request_disconnect();
                (false, notify)
            },
            SendOutcome::Closed => (false, false),
        }
    }

    /// Records whether a message of the given size was taken by a sender that
    /// waited for the queue. Returns whether it was sent.
    pub fn send_message(&mut self, len: usize, taken: bool) -> (sent: bool)
        requires
            old(self).wf(),
        ensures
            final(self).wf(),
            final(self).known() == old(self).known(),
            final(self).cache() == old(self).cache(),
            final(self).buffer() == old(self).buffer(),
            final(self).phase_spec() == old(self).phase_spec(),
            final(self).limits() == old(self).limits(),
            sent == taken,
            final(self).leaving() == old(self).leaving(),
            final(self).sent() == if taken {
                (
                    vstd::wrapping::usize_specs::wrapping_add(old(self).sent().0, 1),
                    vstd::wrapping::usize_specs::wrapping_add(old(self).sent().1, len),
                )
            } else {
                old(self).sent()
            },
    {
        let outcome = if taken {
            SendOutcome::Sent
        } else {
            SendOutcome::Closed
        };
        let (sent, _) = self.send_message_mode(len, outcome);
        sent
    }

    /// Flags the consumer for disconnect. Returns true the first time only, so
    /// that the consumer is notified once.
    pub fn request_disconnect(&mut self) -> (first: bool)
        ensures
            first == !old(self).leaving(),
            final(self).leaving(),
            old(self).wf() ==> final(self).wf(),
            final(self).known() == old(self).known(),
            final(self).cache() == old(self).cache(),
            final(self).buffer() == old(self).buffer(),
            final(self).phase_spec() == old(self).phase_spec(),
            final(self).limits() == old(self).limits(),
            final(self).sent() == old(self).sent(),
    {
        let first = !self.disconnect_pending;
        self.disconnect_pending = true;
        first
    }

    /// Marks a peer as known.
    pub fn add_known_peer(&mut self, ingress_id: IngressId)
        requires
            old(self).wf(),
        ensures
            final(self).wf(),
            final(self).same_but_peers(old(self)),
            final(self).known() == old(self).known().insert(ingress_id),
            final(self).cache() == old(self).cache(),
    {
        self.known_peers.insert(ingress_id);
    }

    /// Marks a peer as known. Returns whether it was not known before.
    pub fn register_known_peer_if_absent(&mut self, ingress_id: IngressId) -> (absent: bool)
        requires
            old(self).wf(),
        ensures
            final(self).wf(),
            final(self).same_but_peers(old(self)),
            final(self).known() == old(self).known().insert(ingress_id),
            final(self).cache() == old(self).cache(),
            absent == !old(self).known().contains(ingress_id),
    {
        self.known_peers.insert(ingress_id)
    }

    /// Forgets a peer and what is said of it. Returns whether it was known.
    pub fn remove_known_peer(&mut self, ingress_id: IngressId) -> (known: bool)
        requires
            old(self).wf(),
        ensures
            final(self).wf(),
            final(self).same_but_peers(old(self)),
            final(self).known() == old(self).known().remove(ingress_id),
            final(self).cache() == old(self).cache().remove(ingress_id),
            known == old(self).known().contains(ingress_id),
    {
        self.peer_cache.remove(&ingress_id);
        assert(self.peer_cache@ =~= old(self).peer_cache@.remove(ingress_id));
        self.known_peers.remove(&ingress_id)
    }

    /// Whether a peer is known.
    pub fn has_known_peer(&self, ingress_id: IngressId) -> (known: bool)
        ensures
            known == self.known().contains(ingress_id),
    {
        self.known_peers.contains(&ingress_id)
    }

    /// What is said of a peer, if that is kept.
    pub fn cached_peer_info(&self, ingress_id: IngressId) -> (info: Option<&PeerInfo>)
        ensures
            match info {
                Some(i) => self.cache().contains_key(ingress_id) && *i == self.cache()[ingress_id],
                None => !self.cache().contains_key(ingress_id),
            },
    {
        self.peer_cache.get(&ingress_id)
    }

    /// Keeps what is said of a known peer.
    pub fn cache_peer_info(&mut self, ingress_id: IngressId, info: PeerInfo)
        requires
            old(self).wf(),
            old(self).known().contains(ingress_id),
        ensures
            final(self).wf(),
            final(self).same_but_peers(old(self)),
            final(self).known() == old(self).known(),
            final(self).cache() == old(self).cache().insert(ingress_id, info),
    {
        self.peer_cache.insert(ingress_id, info);
    }
}

//------------ The counters over all consumers -------------------------------

/// The number of updates that the consumers' buffers hold.
pub open spec fn all_entries(clients: Seq<ClientState>) -> nat
    decreases clients.len(),
{
    if clients.len() == 0 {
        0
    } else {
        all_entries(clients.drop_last()) + clients.last().buffer().len()
    }
}

/// What the updates in the consumers' buffers are charged.
pub open spec fn all_charged(clients: Seq<ClientState>) -> nat
    decreases clients.len(),
{
    if clients.len() == 0 {
        0
    } else {
        all_charged(clients.drop_last()) + charged(clients.last().buffer())
    }
}

/// Whether the counters are those of these consumers.
pub open spec fn mirrors(counters: BmpOutCounters, clients: Seq<ClientState>) -> bool {
    &&& counters.clients == clients.len()
    &&& counters.buffered_entries == all_entries(clients)
    &&& counters.buffered_bytes == all_charged(clients)
}

/// What a consumer contributes to the counters.
pub open spec fn share(client: ClientState) -> (usize, usize) {
    (client.buffer().len() as usize, charged(client.buffer()) as usize)
}

proof fn sums_without(clients: Seq<ClientState>, i: int)
    requires
        0 <= i < clients.len(),
    ensures
        all_entries(clients) == all_entries(clients.remove(i)) + clients[i].buffer().len(),
        all_charged(clients) == all_charged(clients.remove(i)) + charged(clients[i].buffer()),
    decreases clients.len(),
{
    let rest = clients.remove(i);
    if i == clients.len() - 1 {
        assert(rest =~= clients.drop_last());
    } else {
        sums_without(clients.drop_last(), i);
        assert(rest.drop_last() =~= clients.drop_last().remove(i));
        assert(rest.last() == clients.last());
    }
}

/// The counters follow a buffer that grows or is drained: replacing what the
/// consumer contributed keeps them equal to the sums over all consumers.
pub proof fn counters_follow_the_buffer(
    before: BmpOutCounters,
    after: BmpOutCounters,
    clients: Seq<ClientState>,
    i: int,
    now: ClientState,
)
    requires
        0 <= i < clients.len(),
        clients[i].wf(),
        now.wf(),
        mirrors(before, clients),
        all_entries(clients.update(i, now)) <= usize::MAX,
        all_charged(clients.update(i, now)) <= usize::MAX,
        after == (BmpOutCounters {
            buffered_entries: replaced(before.buffered_entries, share(clients[i]).0, share(now).0),
            buffered_bytes: replaced(before.buffered_bytes, share(clients[i]).1, share(now).1),
            ..before
        }),
    ensures
        mirrors(after, clients.update(i, now)),
{
    let changed = clients.update(i, now);
    sums_without(clients, i);
    sums_without(changed, i);
    assert(changed.remove(i) =~= clients.remove(i));
}

/// An update that a consumer buffers is in the next snapshot of the counters,
/// with its charge, and the counters are still the sums over all consumers.
pub proof fn snapshots_show_what_is_buffered(
    counters: BmpOutCounters,
    clients: Seq<ClientState>,
    i: int,
    now: ClientState,
    update: Update,
)
    requires
        0 <= i < clients.len(),
        now.wf(),
        now.buffer() == clients[i].buffer().push(update),
        mirrors(counters, clients),
        all_entries(clients.update(i, now)) <= usize::MAX,
        all_charged(clients.update(i, now)) <= usize::MAX,
    ensures
        ({
            let s0 = snapshot_of(counters);
            let s1 = snapshot_of(counters.with_update(capped(footprint(update)) as usize));
            &&& s1.buffered_bytes == s0.buffered_bytes + capped(footprint(update))
            &&& s1.buffered_entries == s0.buffered_entries + 1
            &&& s1.clients == s0.clients
        }),
        mirrors(
            counters.with_update(capped(footprint(update)) as usize),
            clients.update(i, now),
        ),
{
    let changed = clients.update(i, now);
    sums_without(clients, i);
    sums_without(changed, i);
    assert(changed.remove(i) =~= clients.remove(i));
    assert(now.buffer().drop_last() =~= clients[i].buffer());
}

/// The counters follow the consumers that come and go.
pub proof fn counters_follow_the_clients(
    before: BmpOutCounters,
    joined: BmpOutCounters,
    left: BmpOutCounters,
    clients: Seq<ClientState>,
    new: ClientState,
    i: int,
)
    requires
        0 <= i < clients.len() < usize::MAX,
        clients[i].wf(),
        new.buffer().len() == 0,
        mirrors(before, clients),
        joined == (BmpOutCounters { clients: replaced(before.clients, 0, 1), ..before }),
        left == (BmpOutCounters {
            clients: replaced(before.clients, 1, 0),
            buffered_entries: replaced(before.buffered_entries, share(clients[i]).0, 0),
            buffered_bytes: replaced(before.buffered_bytes, share(clients[i]).1, 0),
        }),
    ensures
        mirrors(joined, clients.push(new)),
        mirrors(left, clients.remove(i)),
{
    sums_without(clients, i);
    assert(clients.push(new).drop_last() =~= clients);
}

} // verus!
