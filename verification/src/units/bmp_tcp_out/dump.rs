//! The initial table dump for a consumer.
//!
//! A dump is the Initiation, the Peer Up of every active peer, one walk over
//! the table that sends the routes of all peers, the End-of-RIB markers, and
//! what was buffered meanwhile.
use crate::ingress::{
    source_matches, IdAndInfo, IngressId, IngressInfo, IngressState, IngressType, Register,
};
use crate::net::AfiSafiType;
use crate::units::bmp_tcp_out::bmp_builder::{
    build_end_of_rib_marker, build_initiation_message, build_peer_up, end_of_rib_marker,
    initiation_message, peer_message, peer_up_body, PeerInfo, Timestamp, BMP_MSG_PEER_UP,
};
use crate::units::bmp_tcp_out::client_handler::{
    build_peer_info_for_emit, emitted, EmitContext, FanInPeerDistinguisher,
};
use crate::units::bmp_tcp_out::client_state::ClientState;
use std::collections::HashMap;
use vstd::prelude::*;
use vstd::std_specs::hash::*;
use vstd::string::*;

verus! {

//------------ Peers ---------------------------------------------------------

/// The sources of a kind and a state, by identifier.
pub open spec fn matching_ids(
    register: Register,
    ingress_type: IngressType,
    state: Option<IngressState>,
) -> Seq<IngressId> {
    register.ids().filter(|id: IngressId| source_matches(register@[id], ingress_type, state))
}

/// The peers of a dump: the live BGP sessions that routers report, then our own
/// live BGP sessions, then replayed files, which have no connection state. A
/// session that is down is kept in the register for when it comes back, but
/// its routes are withdrawn.
pub open spec fn dumped_ids(register: Register) -> Seq<IngressId> {
    matching_ids(register, IngressType::BgpViaBmp, Some(IngressState::Connected)) + matching_ids(
        register,
        IngressType::Bgp,
        Some(IngressState::Connected),
    ) + matching_ids(register, IngressType::Mrt, None)
}

/// The identifiers of sources.
pub open spec fn ids_of(peers: Seq<IdAndInfo>) -> Seq<IngressId> {
    peers.map_values(|e: IdAndInfo| e.ingress_id)
}

/// The sources are in the register, with the information that it has.
pub open spec fn are_registered(peers: Seq<IdAndInfo>, sources: Map<IngressId, IngressInfo>) -> bool {
    forall|i: int|
        0 <= i < peers.len() ==> sources.contains_key((#[trigger] peers[i]).ingress_id)
            && peers[i].ingress_info == sources[peers[i].ingress_id]
}

/// Appends sources.
fn append_sources(all: &mut Vec<IdAndInfo>, more: Vec<IdAndInfo>, register: &Register)
    requires
        are_registered(old(all)@, register@),
        are_registered(more@, register@),
    ensures
        are_registered(final(all)@, register@),
        ids_of(final(all)@) == ids_of(old(all)@) + ids_of(more@),
{
    let mut more = more;
    let ghost given = more@;
    all.append(&mut more);
    proof {
        assert forall|i: int| 0 <= i < all@.len() implies register@.contains_key(
            (#[trigger] all@[i]).ingress_id,
        ) && all@[i].ingress_info == register@[all@[i].ingress_id] by {
            if i >= old(all)@.len() {
                assert(all@[i] == given[i - old(all)@.len()]);
            } else {
                assert(all@[i] == old(all)@[i]);
            }
        }
        assert(ids_of(all@) =~= ids_of(old(all)@) + ids_of(given));
    }
}

/// Finds the peers of a dump.
pub fn dump_peers(ingress_register: &Register) -> (peers: Vec<IdAndInfo>)
    requires
        ingress_register.wf(),
    ensures
        ids_of(peers@) == dumped_ids(*ingress_register),
        are_registered(peers@, ingress_register@),
{
    let mut all: Vec<IdAndInfo> = Vec::new();
    let via_bmp = ingress_register.search(IngressType::BgpViaBmp, Some(IngressState::Connected));
    append_sources(&mut all, via_bmp, ingress_register);
    let bgp = ingress_register.search(IngressType::Bgp, Some(IngressState::Connected));
    append_sources(&mut all, bgp, ingress_register);
    let mrt = ingress_register.search(IngressType::Mrt, None);
    append_sources(&mut all, mrt, ingress_register);
    assert(ids_of(all@) =~= dumped_ids(*ingress_register));
    all
}

/// A peer of a dump with its Peer Up.
#[derive(Debug)]
pub struct DumpPeer {
    pub ingress_id: IngressId,
    pub peer_info: PeerInfo,
    pub peer_up: Vec<u8>,
}

/// Whether a message is the Peer Up with which a dump starts, which announces
/// that End-of-RIB markers follow.
pub open spec fn is_dump_peer_up(msg: Seq<u8>, peer: PeerInfo) -> bool {
    exists|t: Timestamp|
        t.wf() && msg == #[trigger] peer_message(BMP_MSG_PEER_UP, peer, t, peer_up_body(peer, true))
}

/// What the last of some peers with this identifier is said to be.
pub open spec fn peer_map(peers: Seq<DumpPeer>) -> Map<IngressId, PeerInfo>
    decreases peers.len(),
{
    if peers.len() == 0 {
        Map::empty()
    } else {
        peer_map(peers.drop_last()).insert(peers.last().ingress_id, peers.last().peer_info)
    }
}

/// Whether a peer of a dump is made from this source.
pub open spec fn made_from(up: DumpPeer, entry: IdAndInfo, cx: EmitContext) -> bool {
    &&& up.ingress_id == entry.ingress_id
    &&& emitted(up.peer_info, entry.ingress_info, cx)
    &&& is_dump_peer_up(up.peer_up@, up.peer_info)
}

/// Whether a peer of a dump is this source, with what the register has of it.
pub open spec fn announces_source(up: DumpPeer, id: IngressId, cx: EmitContext) -> bool {
    &&& up.ingress_id == id
    &&& cx.0.contains_key(id)
    &&& emitted(up.peer_info, cx.0[id], cx)
    &&& is_dump_peer_up(up.peer_up@, up.peer_info)
}

/// Whether there is one Peer Up for each peer of a dump, in their order.
pub open spec fn announces_all(ups: Seq<DumpPeer>, register: Register, cx: EmitContext) -> bool {
    &&& ups.len() == dumped_ids(register).len()
    &&& forall|i: int|
        0 <= i < ups.len() ==> announces_source(
            #[trigger] ups[i],
            dumped_ids(register)[i],
            cx,
        )
}

/// Makes the Peer Up of one peer of a dump.
fn make_dump_peer(
    entry: &IdAndInfo,
    ingress_register: &Register,
    forward_router_info: bool,
    fan_in_peer_distinguisher: FanInPeerDistinguisher,
) -> (up: DumpPeer)
    ensures
        made_from(
            up,
            *entry,
            (ingress_register@, forward_router_info, fan_in_peer_distinguisher),
        ),
{
    let peer_info = build_peer_info_for_emit(
        &entry.ingress_info,
        ingress_register,
        forward_router_info,
        fan_in_peer_distinguisher,
    );
    let peer_up = build_peer_up(&peer_info, true);
    DumpPeer { ingress_id: entry.ingress_id, peer_info, peer_up }
}

/// Makes the Peer Ups with which a dump starts, one for each peer and in their
/// order, and the map by which the walk attributes routes.
pub fn start_dump(
    peers: &Vec<IdAndInfo>,
    ingress_register: &Register,
    forward_router_info: bool,
    fan_in_peer_distinguisher: FanInPeerDistinguisher,
) -> (res: (Vec<DumpPeer>, HashMap<IngressId, PeerInfo>))
    ensures
        res.0@.len() == peers@.len(),
        forall|i: int|
            0 <= i < peers@.len() ==> made_from(
                #[trigger] res.0@[i],
                peers@[i],
                (ingress_register@, forward_router_info, fan_in_peer_distinguisher),
            ),
        res.1@ == peer_map(res.0@),
{
    let mut ups: Vec<DumpPeer> = Vec::new();
    let mut map: HashMap<IngressId, PeerInfo> = HashMap::new();
    let mut i: usize = 0;
    while i < peers.len()
        invariant
            i <= peers@.len(),
            ups@.len() == i,
            map@ == peer_map(ups@),
            forall|j: int|
                0 <= j < i ==> made_from(
                    #[trigger] ups@[j],
                    peers@[j],
                    (ingress_register@, forward_router_info, fan_in_peer_distinguisher),
                ),
        decreases peers@.len() - i,
    {
        let up = make_dump_peer(
            &peers[i],
            ingress_register,
            forward_router_info,
            fan_in_peer_distinguisher,
        );
        map.insert(up.ingress_id, up.peer_info.clone());
        let ghost before = ups@;
        ups.push(up);
        assert(ups@.drop_last() =~= before);
        i += 1;
    }
    (ups, map)
}

//------------ End-of-RIB ----------------------------------------------------

/// Makes the End-of-RIB markers of a peer: one for each address family that its
/// Peer Up names, for an empty table too.
pub fn end_of_rib_messages(peer: &PeerInfo) -> (msgs: (Vec<u8>, Vec<u8>))
    ensures
        exists|t: Timestamp|
            t.wf() && Some(msgs.0@) == #[trigger] end_of_rib_marker(
                *peer,
                AfiSafiType::Ipv4Unicast,
                t,
            ),
        exists|t: Timestamp|
            t.wf() && Some(msgs.1@) == #[trigger] end_of_rib_marker(
                *peer,
                AfiSafiType::Ipv6Unicast,
                t,
            ),
{
    let v4 = match build_end_of_rib_marker(peer, AfiSafiType::Ipv4Unicast) {
        Some(msg) => msg,
        None => Vec::new(),
    };
    let v6 = match build_end_of_rib_marker(peer, AfiSafiType::Ipv6Unicast) {
        Some(msg) => msg,
        None => Vec::new(),
    };
    (v4, v6)
}

//------------ The end of a dump ---------------------------------------------

/// The End-of-RIB markers of one peer at the end of a dump.
#[derive(Debug)]
pub struct PeerEnd {
    pub ingress_id: IngressId,
    /// Whether the peer was found during the walk, so that the consumer is yet
    /// to be noted as knowing it.
    pub found: bool,
    pub ipv4: Vec<u8>,
    pub ipv6: Vec<u8>,
}

/// Whether these are the markers of a peer.
pub open spec fn ends(end: PeerEnd, ingress_id: IngressId, peer: PeerInfo, found: bool) -> bool {
    &&& end.ingress_id == ingress_id
    &&& end.found == found
    &&& exists|t: Timestamp|
        t.wf() && Some(end.ipv4@) == #[trigger] end_of_rib_marker(
            peer,
            AfiSafiType::Ipv4Unicast,
            t,
        )
    &&& exists|t: Timestamp|
        t.wf() && Some(end.ipv6@) == #[trigger] end_of_rib_marker(
            peer,
            AfiSafiType::Ipv6Unicast,
            t,
        )
}

/// Makes the markers of one peer.
fn make_peer_end(ingress_id: IngressId, peer: &PeerInfo, found: bool) -> (end: PeerEnd)
    ensures
        ends(end, ingress_id, *peer, found),
{
    let (ipv4, ipv6) = end_of_rib_messages(peer);
    PeerEnd { ingress_id, found, ipv4, ipv6 }
}

/// Makes the End-of-RIB markers with which a dump ends: of the listed peers in
/// the order of their Peer Ups, then of those that the walk found.
pub fn end_dump(peers: &Vec<DumpPeer>, discovered: &Vec<(IngressId, PeerInfo)>) -> (marks: Vec<
    PeerEnd,
>)
    ensures
        marks@.len() == peers@.len() + discovered@.len(),
        forall|i: int|
            0 <= i < peers@.len() ==> ends(
                #[trigger] marks@[i],
                peers@[i].ingress_id,
                peers@[i].peer_info,
                false,
            ),
        forall|i: int|
            peers@.len() <= i < marks@.len() ==> ends(
                #[trigger] marks@[i],
                discovered@[i - peers@.len()].0,
                discovered@[i - peers@.len()].1,
                true,
            ),
{
    let mut marks: Vec<PeerEnd> = Vec::new();
    let mut i: usize = 0;
    while i < peers.len()
        invariant
            i <= peers@.len(),
            marks@.len() == i,
            forall|j: int|
                0 <= j < i ==> ends(
                    #[trigger] marks@[j],
                    peers@[j].ingress_id,
                    peers@[j].peer_info,
                    false,
                ),
        decreases peers@.len() - i,
    {
        marks.push(make_peer_end(peers[i].ingress_id, &peers[i].peer_info, false));
        i += 1;
    }
    let mut k: usize = 0;
    while k < discovered.len()
        invariant
            k <= discovered@.len(),
            marks@.len() == peers@.len() + k,
            forall|j: int|
                0 <= j < peers@.len() ==> ends(
                    #[trigger] marks@[j],
                    peers@[j].ingress_id,
                    peers@[j].peer_info,
                    false,
                ),
            forall|j: int|
                peers@.len() <= j < marks@.len() ==> ends(
                    #[trigger] marks@[j],
                    discovered@[j - peers@.len()].0,
                    discovered@[j - peers@.len()].1,
                    true,
                ),
        decreases discovered@.len() - k,
    {
        let ghost before = marks@;
        marks.push(make_peer_end(discovered[k].0, &discovered[k].1, true));
        k += 1;
        assert(marks@.drop_last() =~= before);
    }
    marks
}

//------------ The course of a dump ------------------------------------------

/// How far a dump has come. A stage with a number waits for word on the message
/// of that number.
#[derive(Clone, Copy, Debug, PartialEq, Eq, Structural)]
pub enum DumpStage {
    /// Nothing was sent yet.
    Start,
    Initiation,
    PeerUp(usize),
    Walk,
    /// The IPv4 marker of a peer.
    EndIpv4(usize),
    /// The IPv6 marker of a peer.
    EndIpv6(usize),
    /// The buffered updates are being sent.
    Drain,
    Over,
}

/// What is to be done next.
#[derive(Debug)]
pub enum DumpAction {
    /// The message is to be sent.
    Send(Vec<u8>),
    /// The table is to be walked.
    Walk,
    /// The buffered updates are to be sent until the consumer goes live.
    Drain,
    /// The consumer is gone.
    GiveUp,
}

/// One dump.
#[derive(Debug)]
pub struct DumpRun {
    initiation: Vec<u8>,
    peer_ups: Vec<DumpPeer>,
    marks: Vec<PeerEnd>,
    stage: DumpStage,
}

/// What is to be done, the stage after it, and the peer that the consumer is
/// noted as knowing before it.
pub struct DumpTurn {
    pub action: Option<Seq<u8>>,
    pub stage: DumpStage,
    pub known: Option<IngressId>,
}

/// One step of a dump: what is to be done next, if what was to be done last went
/// well; else the dump is given up.
pub open spec fn dump_step(
    before: DumpRun,
    after: DumpRun,
    clients: (ClientState, ClientState),
    went_well: bool,
    action: DumpAction,
) -> bool {
    &&& after.initiation_spec() == before.initiation_spec()
    &&& after.peer_ups_spec() == before.peer_ups_spec()
    &&& after.marks_spec() == before.marks_spec()
    &&& if !went_well || before.stage_spec() == DumpStage::Over {
        &&& action is GiveUp
        &&& after.stage_spec() == DumpStage::Over
        &&& clients.1.known() == clients.0.known()
    } else {
        let turn = before.turn();
        &&& after.stage_spec() == turn.stage
        &&& clients.1.known() == match turn.known {
            Some(id) => clients.0.known().insert(id),
            None => clients.0.known(),
        }
        &&& match turn.action {
            Some(msg) => action matches DumpAction::Send(m) && m@ == msg,
            None => if turn.stage == DumpStage::Walk {
                action is Walk
            } else if turn.stage == DumpStage::Drain {
                action is Drain
            } else {
                action is GiveUp
            },
        }
    }
}

impl DumpRun {
    /// The Initiation message.
    pub closed spec fn initiation_spec(&self) -> Seq<u8> {
        self.initiation@
    }

    /// The peers with their Peer Ups.
    pub closed spec fn peer_ups_spec(&self) -> Seq<DumpPeer> {
        self.peer_ups@
    }

    /// The End-of-RIB markers.
    pub closed spec fn marks_spec(&self) -> Seq<PeerEnd> {
        self.marks@
    }

    /// How far the dump has come.
    pub closed spec fn stage_spec(&self) -> DumpStage {
        self.stage
    }

    /// The stage refers to messages that exist.
    pub open spec fn wf(&self) -> bool {
        match self.stage_spec() {
            DumpStage::PeerUp(i) => i < self.peer_ups_spec().len(),
            DumpStage::EndIpv4(i) => i < self.marks_spec().len(),
            DumpStage::EndIpv6(i) => i < self.marks_spec().len(),
            _ => true,
        }
    }

    /// The turn at which the Peer Up of a number is due, or the walk after the
    /// last.
    pub open spec fn peer_up_turn(&self, i: int, known: Option<IngressId>) -> DumpTurn {
        if i < self.peer_ups_spec().len() {
            DumpTurn {
                action: Some(self.peer_ups_spec()[i].peer_up@),
                stage: DumpStage::PeerUp(i as usize),
                known,
            }
        } else {
            DumpTurn { action: None, stage: DumpStage::Walk, known }
        }
    }

    /// The turn at which the markers of a number are due, or the buffered
    /// updates after the last. A peer that the walk found becomes known here.
    pub open spec fn mark_turn(&self, i: int) -> DumpTurn {
        if i < self.marks_spec().len() {
            let mark = self.marks_spec()[i];
            DumpTurn {
                action: Some(mark.ipv4@),
                stage: DumpStage::EndIpv4(i as usize),
                known: if mark.found {
                    Some(mark.ingress_id)
                } else {
                    None
                },
            }
        } else {
            DumpTurn { action: None, stage: DumpStage::Drain, known: None }
        }
    }

    /// What comes after a stage went well: the Initiation, the Peer Ups in
    /// order, the walk, the markers in order, the buffered updates. A peer is
    /// known once its Peer Up was sent.
    pub open spec fn turn(&self) -> DumpTurn {
        match self.stage_spec() {
            DumpStage::Start => DumpTurn {
                action: Some(self.initiation_spec()),
                stage: DumpStage::Initiation,
                known: None,
            },
            DumpStage::Initiation => self.peer_up_turn(0, None),
            DumpStage::PeerUp(i) => self.peer_up_turn(
                i + 1,
                Some(self.peer_ups_spec()[i as int].ingress_id),
            ),
            DumpStage::Walk => self.mark_turn(0),
            DumpStage::EndIpv4(i) => DumpTurn {
                action: Some(self.marks_spec()[i as int].ipv6@),
                stage: DumpStage::EndIpv6(i),
                known: None,
            },
            DumpStage::EndIpv6(i) => self.mark_turn(i + 1),
            DumpStage::Drain => DumpTurn { action: None, stage: DumpStage::Over, known: None },
            DumpStage::Over => DumpTurn { action: None, stage: DumpStage::Over, known: None },
        }
    }

    /// How many steps of a dump that goes well come before a stage.
    pub open spec fn rank(&self, stage: DumpStage) -> nat {
        let ups = self.peer_ups_spec().len();
        let marks = self.marks_spec().len();
        match stage {
            DumpStage::Start => 0,
            DumpStage::Initiation => 1,
            DumpStage::PeerUp(i) => 2 + i as nat,
            DumpStage::Walk => 2 + ups,
            DumpStage::EndIpv4(i) => 3 + ups + 2 * i as nat,
            DumpStage::EndIpv6(i) => 4 + ups + 2 * i as nat,
            DumpStage::Drain => 3 + ups + 2 * marks,
            DumpStage::Over => 4 + ups + 2 * marks,
        }
    }

    /// A dump that goes well takes every step, in order and once: Initiation,
    /// Peer Ups, walk, End-of-RIB markers, buffered updates.
    pub proof fn dump_goes_forward(&self)
        requires
            self.wf(),
            self.stage_spec() != DumpStage::Over,
        ensures
            self.rank(self.turn().stage) == self.rank(self.stage_spec()) + 1,
            self.rank(self.stage_spec()) < 4 + self.peer_ups_spec().len() + 2
                * self.marks_spec().len(),
    {
        assert(self.peer_ups.len() == self.peer_ups_spec().len());
        assert(self.marks.len() == self.marks_spec().len());
    }

    /// A dump for a consumer: it starts with the Initiation that states the two
    /// names, and the Peer Up of every peer that the register lists as active.
    /// The map is that by which the walk attributes routes.
    pub fn new(
        sys_name: &str,
        sys_descr: &str,
        ingress_register: &Register,
        forward_router_info: bool,
        fan_in_peer_distinguisher: FanInPeerDistinguisher,
    ) -> (res: (Self, HashMap<IngressId, PeerInfo>))
        requires
            ingress_register.wf(),
            14 + sys_name.spec_bytes().len() + sys_descr.spec_bytes().len() <= usize::MAX,
        ensures
            res.0.wf(),
            res.0.initiation_spec() == initiation_message(
                sys_name.spec_bytes(),
                sys_descr.spec_bytes(),
            ),
            announces_all(
                res.0.peer_ups_spec(),
                *ingress_register,
                (ingress_register@, forward_router_info, fan_in_peer_distinguisher),
            ),
            res.1@ == peer_map(res.0.peer_ups_spec()),
            res.0.marks_spec() == Seq::<PeerEnd>::empty(),
            res.0.stage_spec() == DumpStage::Start,
    {
        let peers = dump_peers(ingress_register);
        let (peer_ups, peer_info) = start_dump(
            &peers,
            ingress_register,
            forward_router_info,
            fan_in_peer_distinguisher,
        );
        let initiation = build_initiation_message(sys_name, sys_descr);
        proof {
            let cx = (ingress_register@, forward_router_info, fan_in_peer_distinguisher);
            let ids = dumped_ids(*ingress_register);
            assert(ids_of(peers@).len() == peers@.len());
            assert forall|i: int| 0 <= i < peer_ups@.len() implies announces_source(
                #[trigger] peer_ups@[i],
                ids[i],
                cx,
            ) by {
                assert(ids_of(peers@)[i] == peers@[i].ingress_id);
                assert(made_from(peer_ups@[i], peers@[i], cx));
            }
        }
        (
            DumpRun { initiation, peer_ups, marks: Vec::new(), stage: DumpStage::Start },
            peer_info,
        )
    }

    /// Takes over the peers that the walk found: the markers to be sent are
    /// those of all peers.
    pub fn walk_ended(&mut self, discovered: &Vec<(IngressId, PeerInfo)>)
        requires
            old(self).stage_spec() == DumpStage::Walk,
        ensures
            final(self).wf(),
            final(self).stage_spec() == DumpStage::Walk,
            final(self).initiation_spec() == old(self).initiation_spec(),
            final(self).peer_ups_spec() == old(self).peer_ups_spec(),
            ({
                let peers = old(self).peer_ups_spec();
                let marks = final(self).marks_spec();
                &&& marks.len() == peers.len() + discovered@.len()
                &&& forall|i: int|
                    0 <= i < peers.len() ==> ends(
                        #[trigger] marks[i],
                        peers[i].ingress_id,
                        peers[i].peer_info,
                        false,
                    )
                &&& forall|i: int|
                    peers.len() <= i < marks.len() ==> ends(
                        #[trigger] marks[i],
                        discovered@[i - peers.len()].0,
                        discovered@[i - peers.len()].1,
                        true,
                    )
            }),
    {
        self.marks = end_dump(&self.peer_ups, discovered);
    }

    /// Says what is to be done next, given whether what was to be done last
    /// went well. At the first call there was nothing to be done.
    pub fn perform_initial_dump(&mut self, client: &mut ClientState, went_well: bool) -> (action:
        DumpAction)
        requires
            old(self).wf(),
            old(client).wf(),
        ensures
            final(self).wf(),
            final(client).wf(),
            final(client).same_but_peers(old(client)),
            final(client).cache() == old(client).cache(),
            dump_step(
                *old(self),
                *final(self),
                (*old(client), *final(client)),
                went_well,
                action,
            ),
    {
        if !went_well {
            self.stage = DumpStage::Over;
            return DumpAction::GiveUp;
        }
        match self.stage {
            DumpStage::Start => {
                self.stage = DumpStage::Initiation;
                DumpAction::Send(vstd::slice::slice_to_vec(self.initiation.as_slice()))
            },
            DumpStage::Initiation => self.go_to_peer_up(0),
            DumpStage::PeerUp(i) => {
                client.add_known_peer(self.peer_ups[i].ingress_id);
                assert(i < self.peer_ups.len());
                self.go_to_peer_up(i + 1)
            },
            DumpStage::Walk => self.go_to_mark(client, 0),
            DumpStage::EndIpv4(i) => {
                self.stage = DumpStage::EndIpv6(i);
                DumpAction::Send(vstd::slice::slice_to_vec(self.marks[i].ipv6.as_slice()))
            },
            DumpStage::EndIpv6(i) => {
                assert(i < self.marks.len());
                self.go_to_mark(client, i + 1)
            },
            DumpStage::Drain => {
                self.stage = DumpStage::Over;
                DumpAction::GiveUp
            },
            DumpStage::Over => DumpAction::GiveUp,
        }
    }

    fn go_to_peer_up(&mut self, i: usize) -> (action: DumpAction)
        ensures
            final(self).wf(),
            final(self).initiation_spec() == old(self).initiation_spec(),
            final(self).peer_ups_spec() == old(self).peer_ups_spec(),
            final(self).marks_spec() == old(self).marks_spec(),
            final(self).stage_spec() == old(self).peer_up_turn(i as int, None).stage,
            match old(self).peer_up_turn(i as int, None).action {
                Some(msg) => action matches DumpAction::Send(m) && m@ == msg,
                None => action is Walk,
            },
    {
        if i < self.peer_ups.len() {
            self.stage = DumpStage::PeerUp(i);
            DumpAction::Send(vstd::slice::slice_to_vec(self.peer_ups[i].peer_up.as_slice()))
        } else {
            self.stage = DumpStage::Walk;
            DumpAction::Walk
        }
    }

    fn go_to_mark(&mut self, client: &mut ClientState, i: usize) -> (action: DumpAction)
        requires
            old(client).wf(),
        ensures
            final(client).wf(),
            final(client).same_but_peers(old(client)),
            final(client).cache() == old(client).cache(),
            final(client).known() == match old(self).mark_turn(i as int).known {
                Some(id) => old(client).known().insert(id),
                None => old(client).known(),
            },
            final(self).wf(),
            final(self).initiation_spec() == old(self).initiation_spec(),
            final(self).peer_ups_spec() == old(self).peer_ups_spec(),
            final(self).marks_spec() == old(self).marks_spec(),
            final(self).stage_spec() == old(self).mark_turn(i as int).stage,
            match old(self).mark_turn(i as int).action {
                Some(msg) => action matches DumpAction::Send(m) && m@ == msg,
                None => action is Drain,
            },
    {
        if i < self.marks.len() {
            if self.marks[i].found {
                client.add_known_peer(self.marks[i].ingress_id);
            }
            self.stage = DumpStage::EndIpv4(i);
            DumpAction::Send(vstd::slice::slice_to_vec(self.marks[i].ipv4.as_slice()))
        } else {
            self.stage = DumpStage::Drain;
            DumpAction::Drain
        }
    }
}

} // verus!
