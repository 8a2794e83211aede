//! Where routes come from: the sessions and files that feed the pipeline.
use crate::net::{Asn, IpAddr, PeerType};
use std::collections::HashMap;
use vstd::prelude::*;

verus! {

/// Identifies one source of routes within the process.
pub type IngressId = u32;

/// The kind of a source.
#[derive(Clone, Copy, Debug, PartialEq, Eq, Structural)]
pub enum IngressType {
    /// A BMP session with a router.
    Bmp,
    /// A BGP session that a router reports over BMP.
    BgpViaBmp,
    /// A BGP session of our own.
    Bgp,
    /// A replayed MRT file.
    Mrt,
    /// An RTR session.
    Rtr,
}

/// Whether a source is live.
#[derive(Clone, Copy, Debug, PartialEq, Eq, Structural)]
pub enum IngressState {
    Connected,
    Disconnected,
}

/// Which of a router's RIBs a BMP session reports.
#[derive(Clone, Copy, Debug, PartialEq, Eq, Structural)]
pub enum PeerRibType {
    InPre,
    InPost,
    Loc,
    OutPre,
    OutPost,
}

/// What is known of one source.
#[derive(Debug)]
pub struct IngressInfo {
    pub ingress_type: Option<IngressType>,
    pub state: Option<IngressState>,
    pub parent_ingress: Option<IngressId>,
    pub remote_addr: Option<IpAddr>,
    pub remote_asn: Option<Asn>,
    pub peer_rib_type: Option<PeerRibType>,
    pub peer_type: Option<PeerType>,
    pub distinguisher: Option<[u8; 8]>,
    pub name: Option<String>,
    pub desc: Option<String>,
}

/// A copy of an optional string.
pub(crate) fn copy_text(text: &Option<String>) -> (copy: Option<String>)
    ensures
        copy == *text,
{
    match text {
        Some(s) => Some(s.clone()),
        None => None,
    }
}

impl Clone for IngressInfo {
    fn clone(&self) -> (copy: Self)
        ensures
            copy == *self,
    {
        IngressInfo {
            ingress_type: self.ingress_type,
            state: self.state,
            parent_ingress: self.parent_ingress,
            remote_addr: self.remote_addr,
            remote_asn: self.remote_asn,
            peer_rib_type: self.peer_rib_type,
            peer_type: self.peer_type,
            distinguisher: self.distinguisher,
            name: copy_text(&self.name),
            desc: copy_text(&self.desc),
        }
    }
}

/// A source of which nothing is known.
pub open spec fn unknown_source() -> IngressInfo {
    IngressInfo {
        ingress_type: None,
        state: None,
        parent_ingress: None,
        remote_addr: None,
        remote_asn: None,
        peer_rib_type: None,
        peer_type: None,
        distinguisher: None,
        name: None,
        desc: None,
    }
}

impl Default for IngressInfo {
    fn default() -> (info: Self)
        ensures
            info == unknown_source(),
    {
        IngressInfo::new()
    }
}

impl IngressInfo {
    /// A source of which nothing is known.
    pub fn new() -> (info: Self)
        ensures
            info == unknown_source(),
    {
        IngressInfo {
            ingress_type: None,
            state: None,
            parent_ingress: None,
            remote_addr: None,
            remote_asn: None,
            peer_rib_type: None,
            peer_type: None,
            distinguisher: None,
            name: None,
            desc: None,
        }
    }

    /// The same source, of the given kind.
    pub fn with_ingress_type(self, ingress_type: IngressType) -> (info: Self)
        ensures
            info == (IngressInfo { ingress_type: Some(ingress_type), ..self }),
    {
        IngressInfo { ingress_type: Some(ingress_type), ..self }
    }

    /// The same source, in the given state.
    pub fn with_state(self, state: IngressState) -> (info: Self)
        ensures
            info == (IngressInfo { state: Some(state), ..self }),
    {
        IngressInfo { state: Some(state), ..self }
    }

    /// The same source, reported by the given parent.
    pub fn with_parent_ingress(self, parent: IngressId) -> (info: Self)
        ensures
            info == (IngressInfo { parent_ingress: Some(parent), ..self }),
    {
        IngressInfo { parent_ingress: Some(parent), ..self }
    }

    /// The same source, with the given remote address.
    pub fn with_remote_addr(self, addr: IpAddr) -> (info: Self)
        ensures
            info == (IngressInfo { remote_addr: Some(addr), ..self }),
    {
        IngressInfo { remote_addr: Some(addr), ..self }
    }

    /// The same source, with the given remote AS.
    pub fn with_remote_asn(self, asn: Asn) -> (info: Self)
        ensures
            info == (IngressInfo { remote_asn: Some(asn), ..self }),
    {
        IngressInfo { remote_asn: Some(asn), ..self }
    }

    /// The same source, reporting the given RIB.
    pub fn with_peer_rib_type(self, rib: PeerRibType) -> (info: Self)
        ensures
            info == (IngressInfo { peer_rib_type: Some(rib), ..self }),
    {
        IngressInfo { peer_rib_type: Some(rib), ..self }
    }

    /// The same source, as a peer of the given type.
    pub fn with_peer_type(self, peer_type: PeerType) -> (info: Self)
        ensures
            info == (IngressInfo { peer_type: Some(peer_type), ..self }),
    {
        IngressInfo { peer_type: Some(peer_type), ..self }
    }

    /// The same source, with the given route distinguisher.
    pub fn with_distinguisher(self, distinguisher: [u8; 8]) -> (info: Self)
        ensures
            info == (IngressInfo { distinguisher: Some(distinguisher), ..self }),
    {
        IngressInfo { distinguisher: Some(distinguisher), ..self }
    }

    /// The same source, under the given name.
    pub fn with_name(self, name: &str) -> (info: Self)
        ensures
            info.name matches Some(n) && n@ == name@,
            info == (IngressInfo { name: info.name, ..self }),
    {
        IngressInfo { name: Some(name.to_owned()), ..self }
    }

    /// The same source, with the given description.
    pub fn with_desc(self, desc: &str) -> (info: Self)
        ensures
            info.desc matches Some(d) && d@ == desc@,
            info == (IngressInfo { desc: info.desc, ..self }),
    {
        IngressInfo { desc: Some(desc.to_owned()), ..self }
    }
}

/// A source together with its identifier.
#[derive(Debug)]
pub struct IdAndInfo {
    pub ingress_id: IngressId,
    pub ingress_info: IngressInfo,
}

/// The sources known to the process.
#[derive(Debug)]
pub struct Register {
    next: IngressId,
    // The identifiers that have information, in the order in which they got it.
    order: Vec<IngressId>,
    info: HashMap<IngressId, IngressInfo>,
}

/// Whether a source passes a search for a kind and a state.
pub open spec fn source_matches(
    info: IngressInfo,
    ingress_type: IngressType,
    state: Option<IngressState>,
) -> bool {
    info.ingress_type == Some(ingress_type) && (state is Some ==> info.state == state)
}

impl View for Register {
    type V = Map<IngressId, IngressInfo>;

    closed spec fn view(&self) -> Map<IngressId, IngressInfo> {
        self.info@
    }
}

impl Register {
    /// The identifiers that have information, in the order in which they got
    /// it.
    pub closed spec fn ids(&self) -> Seq<IngressId> {
        self.order@
    }

    /// The number of identifiers handed out.
    pub closed spec fn issued(&self) -> nat {
        self.next as nat
    }

    /// Each source with information is listed once.
    pub closed spec fn wf(&self) -> bool {
        &&& self.order@.no_duplicates()
        &&& self.order@.to_set() =~= self.info@.dom()
    }

    /// The identifiers are those that have information, each once.
    pub proof fn ids_are_those_registered(&self, id: IngressId)
        requires
            self.wf(),
        ensures
            self.ids().contains(id) <==> self@.contains_key(id),
            self.ids().no_duplicates(),
    {
        assert(self.order@.to_set().contains(id) <==> self.info@.dom().contains(id));
    }

    /// An empty register.
    pub fn new() -> (r: Self)
        ensures
            r.wf(),
            r@ == Map::<IngressId, IngressInfo>::empty(),
            r.ids() == Seq::<IngressId>::empty(),
            r.issued() == 0,
    {
        let r = Register { next: 0, order: Vec::new(), info: HashMap::new() };
        assert(r.order@.to_set() =~= r.info@.dom());
        r
    }

    /// Hands out an identifier that was not handed out before.
    pub fn register(&mut self) -> (id: IngressId)
        requires
            old(self).wf(),
            old(self).issued() < IngressId::MAX,
        ensures
            final(self).wf(),
            id == final(self).issued(),
            final(self).issued() == old(self).issued() + 1,
            final(self)@ == old(self)@,
            final(self).ids() == old(self).ids(),
    {
        self.next = self.next + 1;
        self.next
    }

    /// Sets what is known of a source.
    pub fn update_info(&mut self, id: IngressId, info: IngressInfo)
        requires
            old(self).wf(),
        ensures
            final(self).wf(),
            final(self)@ == old(self)@.insert(id, info),
            final(self).issued() == old(self).issued(),
            final(self).ids() == if old(self)@.contains_key(id) {
                old(self).ids()
            } else {
                old(self).ids().push(id)
            },
    {
        if !self.info.contains_key(&id) {
            assert(!self.order@.to_set().contains(id));
            assert(self.order@.push(id).to_set() =~= self.order@.to_set().insert(id)) by {
                self.order@.lemma_push_to_set_commute(id);
            }
            self.order.push(id);
        } else {
            assert(self.info@.insert(id, info).dom() =~= self.info@.dom());
        }
        self.info.insert(id, info);
    }

    /// What is known of a source.
    pub fn get(&self, id: IngressId) -> (info: Option<&IngressInfo>)
        ensures
            match info {
                Some(i) => self@.contains_key(id) && *i == self@[id],
                None => !self@.contains_key(id),
            },
    {
        self.info.get(&id)
    }

    /// A copy of what is known of all sources.
    pub fn cloned_info(&self) -> (info: HashMap<IngressId, IngressInfo>)
        requires
            self.wf(),
        ensures
            info@ == self@,
    {
        let mut info: HashMap<IngressId, IngressInfo> = HashMap::new();
        let mut i: usize = 0;
        proof {
            assert(self.order@.take(0).to_set() =~= Set::empty());
            assert(info@ =~= self.info@.restrict(self.order@.take(0).to_set()));
        }
        while i < self.order.len()
            invariant
                i <= self.order@.len(),
                self.wf(),
                info@ == self.info@.restrict(self.order@.take(i as int).to_set()),
            decreases self.order@.len() - i,
        {
            let id: IngressId = self.order[i];
            proof {
                assert(self.order@.to_set().contains(id));
                let t = self.order@.take(i + 1);
                assert(t =~= self.order@.take(i as int).push(id));
                self.order@.take(i as int).lemma_push_to_set_commute(id);
            }
            if let Some(known) = self.info.get(&id) {
                info.insert(id, known.clone());
            }
            i += 1;
            assert(info@ =~= self.info@.restrict(self.order@.take(i as int).to_set()));
        }
        assert(self.order@.take(i as int) =~= self.order@);
        assert(info@ =~= self.info@);
        info
    }

    /// The sources of a kind and, if asked, in a state; in the order in which
    /// they became known.
    pub fn search(&self, ingress_type: IngressType, state: Option<IngressState>) -> (found: Vec<
        IdAndInfo,
    >)
        requires
            self.wf(),
        ensures
            found@.map_values(|e: IdAndInfo| e.ingress_id) == self.ids().filter(
                |id: IngressId| source_matches(self@[id], ingress_type, state),
            ),
            forall|i: int|
                0 <= i < found@.len() ==> self@.contains_key(#[trigger] found@[i].ingress_id)
                    && found@[i].ingress_info == self@[found@[i].ingress_id],
    {
        let ghost keep = |id: IngressId| source_matches(self@[id], ingress_type, state);
        let ghost id_of = |e: IdAndInfo| e.ingress_id;
        let mut found: Vec<IdAndInfo> = Vec::new();
        let mut i: usize = 0;
        proof {
            assert(self.order@.take(0).filter(keep) =~= Seq::<IngressId>::empty()) by {
                reveal(Seq::filter);
            }
            assert(found@.map_values(id_of) =~= Seq::<IngressId>::empty());
        }
        while i < self.order.len()
            invariant
                i <= self.order@.len(),
                self.wf(),
                keep == (|id: IngressId| source_matches(self@[id], ingress_type, state)),
                id_of == (|e: IdAndInfo| e.ingress_id),
                found@.map_values(id_of) == self.order@.take(i as int).filter(keep),
                forall|j: int|
                    0 <= j < found@.len() ==> self@.contains_key(#[trigger] found@[j].ingress_id)
                        && found@[j].ingress_info == self@[found@[j].ingress_id],
            decreases self.order@.len() - i,
        {
            let id: IngressId = self.order[i];
            proof {
                assert(self.order@.to_set().contains(id));
                let t = self.order@.take(i + 1);
                assert(t.drop_last() =~= self.order@.take(i as int));
                assert(t.last() == id);
                reveal(Seq::filter);
            }
            if let Some(info) = self.info.get(&id) {
                let type_ok = match info.ingress_type {
                    Some(t) => t == ingress_type,
                    None => false,
                };
                let state_ok = match state {
                    Some(s) => match info.state {
                        Some(t) => t == s,
                        None => false,
                    },
                    None => true,
                };
                if type_ok && state_ok {
                    let ghost before = found@;
                    found.push(IdAndInfo { ingress_id: id, ingress_info: info.clone() });
                    assert(found@.map_values(id_of) =~= before.map_values(id_of).push(id));
                }
            }
            i += 1;
        }
        assert(self.order@.take(self.order@.len() as int) =~= self.order@);
        found
    }
}

impl Default for Register {
    fn default() -> (r: Self)
        ensures
            r.wf(),
            r@ == Map::<IngressId, IngressInfo>::empty(),
            r.ids() == Seq::<IngressId>::empty(),
            r.issued() == 0,
    {
        Register::new()
    }
}

/// A search that names a state finds, of the sources that it finds without, those
/// in that state; and one that names none finds every source of the kind.
pub proof fn state_narrows_a_search(
    infos: Map<IngressId, IngressInfo>,
    ids: Seq<IngressId>,
    ingress_type: IngressType,
    state: IngressState,
)
    ensures
        ids.filter(|id: IngressId| source_matches(infos[id], ingress_type, None)) == ids.filter(
            |id: IngressId| infos[id].ingress_type == Some(ingress_type),
        ),
        ids.filter(|id: IngressId| source_matches(infos[id], ingress_type, Some(state)))
            == ids.filter(|id: IngressId| infos[id].ingress_type == Some(ingress_type)).filter(
            |id: IngressId| infos[id].state == Some(state),
        ),
    decreases ids.len(),
{
    reveal(Seq::filter);
    let kind = |id: IngressId| infos[id].ingress_type == Some(ingress_type);
    let there = |id: IngressId| infos[id].state == Some(state);
    if ids.len() > 0 {
        let rest = ids.drop_last();
        state_narrows_a_search(infos, rest, ingress_type, state);
        let kept = rest.filter(kind);
        if kind(ids.last()) {
            assert(kept.push(ids.last()).drop_last() =~= kept);
        }
    }
}

} // verus!
