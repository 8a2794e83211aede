//! Packing of routes into few messages for the initial table dump.
use crate::ingress::IngressId;
use crate::net::Prefix;
use crate::payload::{attribute_octets, content_hash, hash_bytes, RotondaPaMap};
use crate::units::bmp_tcp_out::bmp_builder::{
    bgp_message, bgp_message_layout, bgp_update, build_aggregated_route_monitoring_at,
    build_route_monitoring_at, filter_pa_from_raw, filter_raw_path_attributes, nlri,
    nlri_encoded_len, nlris, packed_body, packed_message, packed_next_hop, peer_message,
    peer_message_layout,
    plain_attributes, recovered_next_hop, recovered_next_hop_is_short, route_monitoring, PeerInfo,
    Timestamp, BGP_MSG_UPDATE, BMP_MSG_ROUTE_MONITORING, MAX_BGP_UPDATE_LEN,
};
use crate::wire::{capped, from_be16, same_bytes};
use std::collections::HashMap;
use std::sync::Arc;
use vstd::prelude::*;
use vstd::std_specs::hash::*;
use vstd::std_specs::iter::IteratorSpec;

verus! {

//------------ Sums over maps ------------------------------------------------

/// The sum of all values of a map.
pub open spec fn total<K>(m: Map<K, nat>) -> nat
    decreases m.dom().len(),
    when m.dom().finite()
{
    if m.dom().len() == 0 {
        0
    } else {
        let k = m.dom().choose();
        m[k] + total(m.remove(k))
    }
}

/// Any key can be taken out of a sum first.
pub(crate) proof fn total_remove<K>(m: Map<K, nat>, k: K)
    requires
        m.dom().finite(),
        m.contains_key(k),
    ensures
        total(m) == m[k] + total(m.remove(k)),
    decreases m.dom().len(),
{
    let c = m.dom().choose();
    if c != k {
        total_remove(m.remove(c), k);
        total_remove(m.remove(k), c);
        assert(m.remove(c).remove(k) =~= m.remove(k).remove(c));
    }
}

/// A sum does not change when the values are filed under other keys.
proof fn total_rekeyed<K, L>(a: Map<K, nat>, b: Map<L, nat>, f: spec_fn(K) -> L)
    requires
        a.dom().finite(),
        forall|k: K| #[trigger] a.contains_key(k) ==> b.contains_key(f(k)) && b[f(k)] == a[k],
        forall|l: L| #[trigger]
            b.contains_key(l) ==> exists|k: K| #[trigger] a.contains_key(k) && f(k) == l,
        forall|j: K, k: K|
            #![trigger a.contains_key(j), a.contains_key(k)]
            a.contains_key(j) && a.contains_key(k) && f(j) == f(k) ==> j == k,
    ensures
        b.dom().finite(),
        b.dom().len() == a.dom().len(),
        total(b) == total(a),
    decreases a.dom().len(),
{
    if a.dom().len() == 0 {
        assert forall|l: L| !b.contains_key(l) by {
            if b.contains_key(l) {
                let k = choose|k: K| #[trigger] a.contains_key(k) && f(k) == l;
                assert(a.dom().contains(k));
            }
        }
        assert(b.dom() =~= Set::empty());
    } else {
        let k = a.dom().choose();
        assert(a.contains_key(k));
        let fewer = a.remove(k);
        let rest = b.remove(f(k));
        assert forall|j: K| #[trigger] fewer.contains_key(j) implies rest.contains_key(f(j))
            && rest[f(j)] == fewer[j] by {
            assert(a.contains_key(j));
        }
        assert forall|l: L| #[trigger] rest.contains_key(l) implies exists|j: K| #[trigger]
            fewer.contains_key(j) && f(j) == l by {
            assert(b.contains_key(l));
            let j = choose|j: K| #[trigger] a.contains_key(j) && f(j) == l;
            assert(fewer.contains_key(j));
        }
        assert forall|i: K, j: K|
            #![trigger fewer.contains_key(i), fewer.contains_key(j)]
            fewer.contains_key(i) && fewer.contains_key(j) && f(i) == f(j) implies i == j by {
            assert(a.contains_key(i) && a.contains_key(j));
        }
        total_rekeyed(fewer, rest, f);
        assert(b.dom() =~= rest.dom().insert(f(k)));
        total_remove(b, f(k));
    }
}

//------------ MessageSink ---------------------------------------------------

/// Takes finished messages on their way to a consumer.
pub trait MessageSink {
    /// The messages that were handed over, each with its number of prefixes.
    spec fn handed(&self) -> Seq<(Seq<u8>, nat)>;

    /// What was answered to each of them: whether the consumer was there.
    spec fn answers(&self) -> Seq<bool>;

    /// Hands over a message and the number of prefixes in it. Returns whether
    /// the consumer is still there.
    fn deliver(&mut self, msg: Vec<u8>, prefixes: usize) -> (open: bool)
        ensures
            final(self).handed() == old(self).handed().push((msg@, prefixes as nat)),
            final(self).answers() == old(self).answers().push(open),
    ;
}

/// Whether these are the answers to some deliveries, one after the other, and
/// what comes of them: a refused delivery is the last one, and the consumer is
/// still there unless one was refused.
pub open spec fn answered(before: Seq<bool>, after: Seq<bool>, count: nat, open: bool) -> bool {
    &&& after.len() == before.len() + count
    &&& after.take(before.len() as int) == before
    &&& forall|i: int| before.len() <= i < after.len() - 1 ==> #[trigger] after[i]
    &&& open == (count == 0 || after.last())
}

/// No delivery was made.
pub proof fn answered_nothing(answers: Seq<bool>)
    ensures
        answered(answers, answers, 0, true),
{
    assert(answers.take(answers.len() as int) =~= answers);
}

/// One more delivery was answered.
pub proof fn answered_one_more(before: Seq<bool>, mid: Seq<bool>, count: nat, open: bool)
    requires
        answered(before, mid, count, true),
    ensures
        answered(before, mid.push(open), count + 1, open),
{
    let after = mid.push(open);
    assert(after.take(before.len() as int) =~= mid.take(before.len() as int));
    assert forall|i: int| before.len() <= i < after.len() - 1 implies #[trigger] after[i] by {
        if i < mid.len() - 1 {
            assert(mid[i]);
        }
    }
}

/// Deliveries that follow on others.
pub proof fn answered_chain(
    before: Seq<bool>,
    mid: Seq<bool>,
    after: Seq<bool>,
    first: nat,
    second: nat,
    open: bool,
)
    requires
        answered(before, mid, first, true),
        answered(mid, after, second, open),
    ensures
        answered(before, after, first + second, open),
{
    assert(after.take(before.len() as int) =~= mid.take(before.len() as int)) by {
        assert(after.take(mid.len() as int) == mid);
    }
    assert forall|i: int| 0 <= i < mid.len() implies #[trigger] after[i] == mid[i] by {
        assert(after.take(mid.len() as int)[i] == mid[i]);
    }
    assert forall|i: int| before.len() <= i < after.len() - 1 implies #[trigger] after[i] by {
        if i < mid.len() - 1 {
            assert(mid[i]);
        } else if i == mid.len() - 1 {
            assert(mid.last());
        }
    }
}

/// Whether a consumer never refused a delivery since some answers.
pub open spec fn never_refused(before: Seq<bool>, after: Seq<bool>) -> bool {
    forall|i: int| before.len() <= i < after.len() ==> #[trigger] after[i]
}

/// Collects messages. With a limit, it reports the consumer gone once it holds
/// that many messages.
#[derive(Debug)]
pub struct CollectingSink {
    pub messages: Vec<(Vec<u8>, usize)>,
    pub limit: Option<usize>,
}

impl CollectingSink {
    /// A collection without limit.
    pub fn new() -> (sink: Self)
        ensures
            sink.messages@ == Seq::<(Vec<u8>, usize)>::empty(),
            sink.limit is None,
    {
        CollectingSink { messages: Vec::new(), limit: None }
    }
}

impl MessageSink for CollectingSink {
    open spec fn handed(&self) -> Seq<(Seq<u8>, nat)> {
        self.messages@.map_values(|m: (Vec<u8>, usize)| (m.0@, m.1 as nat))
    }

    open spec fn answers(&self) -> Seq<bool> {
        Seq::new(
            self.messages@.len(),
            |i: int|
                match self.limit {
                    Some(limit) => i + 1 < limit,
                    None => true,
                },
        )
    }

    fn deliver(&mut self, msg: Vec<u8>, prefixes: usize) -> (open: bool)
        ensures
            final(self).limit == old(self).limit,
            final(self).messages@ == old(self).messages@.push((msg, prefixes)),
            open == match old(self).limit {
                Some(limit) => final(self).messages@.len() < limit,
                None => true,
            },
    {
        self.messages.push((msg, prefixes));
        let open = match self.limit {
            Some(limit) => self.messages.len() < limit,
            None => true,
        };
        proof {
            let f = |m: (Vec<u8>, usize)| (m.0@, m.1 as nat);
            assert(self.messages@.map_values(f) =~= old(self).messages@.map_values(f).push(
                (msg@, prefixes as nat),
            ));
            assert(self.answers() =~= old(self).answers().push(open));
        }
        open
    }
}

//------------ AggGroup ------------------------------------------------------

/// What one buffered prefix is charged.
pub const AGG_MEM_PER_PREFIX: usize = 32;

/// What one open group is charged. The path attributes are not counted: they
/// are shared with the stored route.
pub const AGG_MEM_PER_GROUP: usize = 128;

/// The size of a packed UPDATE without its prefixes.
pub open spec fn packed_base_len(is_v4: bool, raw: Seq<u8>) -> nat {
    if is_v4 {
        23 + plain_attributes(raw).len()
    } else {
        32 + plain_attributes(raw).len() + packed_next_hop(recovered_next_hop(raw)).len()
    }
}

/// The size of a packed UPDATE.
proof fn packed_len(is_v4: bool, raw: Seq<u8>, prefixes: Seq<Prefix>)
    ensures
        19 + packed_body(
            is_v4,
            plain_attributes(raw),
            recovered_next_hop(raw),
            prefixes,
        ).len() == packed_base_len(is_v4, raw) + nlris(prefixes).len(),
{
}

/// Prefixes of one source and one address family that share their path
/// attributes, on their way into one UPDATE.
#[derive(Debug)]
struct AggGroup {
    // The stored octets of the route that opened the group.
    raw: Arc<[u8]>,
    is_v4: bool,
    prefixes: Vec<Prefix>,
    // The size of the prefixes as NLRI.
    nlri_total: usize,
    // The size of the UPDATE without prefixes.
    base_len: usize,
}

impl AggGroup {
    spec fn wf(&self) -> bool {
        &&& self.nlri_total == nlris(self.prefixes@).len()
        &&& self.prefixes@.len() <= self.nlri_total
        &&& self.nlri_total <= MAX_BGP_UPDATE_LEN
        &&& self.base_len == if packed_base_len(self.is_v4, self.raw@) <= usize::MAX {
            packed_base_len(self.is_v4, self.raw@)
        } else {
            usize::MAX as nat
        }
        &&& self.prefixes@.len() > 0 ==> self.base_len + self.nlri_total <= MAX_BGP_UPDATE_LEN
        &&& forall|i: int|
            0 <= i < self.prefixes@.len() ==> (#[trigger] self.prefixes@[i]).addr_spec() is V4
                == self.is_v4
    }

    spec fn spec_cost(&self) -> nat {
        (AGG_MEM_PER_GROUP + self.prefixes@.len() * AGG_MEM_PER_PREFIX) as nat
    }

    fn new(pamap: &RotondaPaMap, is_v4: bool) -> (group: Self)
        ensures
            group.wf(),
            group.raw@ == pamap@,
            group.is_v4 == is_v4,
            group.prefixes@.len() == 0,
    {
        let (pa_bytes, next_hop) = filter_raw_path_attributes(pamap);
        proof {
            recovered_next_hop_is_short(pamap@);
        }
        let base_len: usize = if is_v4 {
            pa_bytes.len().saturating_add(23)
        } else {
            let nh_len: usize = match &next_hop {
                Some(nh) => nh.len(),
                None => 16,
            };
            pa_bytes.len().saturating_add(32 + nh_len)
        };
        AggGroup {
            raw: pamap.raw_arc(),
            is_v4,
            prefixes: Vec::new(),
            nlri_total: 0,
            base_len,
        }
    }

    /// The path attributes that the group shares.
    fn blob(&self) -> (blob: &[u8])
        ensures
            blob@ == attribute_octets(self.raw@),
    {
        attribute_slice(&self.raw)
    }

    fn is_empty(&self) -> (empty: bool)
        ensures
            empty == (self.prefixes@.len() == 0),
    {
        self.prefixes.len() == 0
    }

    /// What the group is charged.
    fn cost(&self) -> (cost: usize)
        requires
            self.wf(),
        ensures
            cost == self.spec_cost(),
            cost <= 131_200,
    {
        AGG_MEM_PER_GROUP + self.prefixes.len() * AGG_MEM_PER_PREFIX
    }

    fn push(&mut self, prefix: Prefix, nlri_len: usize)
        requires
            old(self).wf(),
            nlri_len == nlri(prefix).len(),
            old(self).base_len + old(self).nlri_total + nlri_len <= MAX_BGP_UPDATE_LEN,
            prefix.addr_spec() is V4 == old(self).is_v4,
        ensures
            final(self).wf(),
            final(self).prefixes@ == old(self).prefixes@.push(prefix),
            final(self).raw == old(self).raw,
            final(self).is_v4 == old(self).is_v4,
            final(self).base_len == old(self).base_len,
    {
        self.prefixes.push(prefix);
        self.nlri_total = self.nlri_total + nlri_len;
        proof {
            assert(self.prefixes@.drop_last() =~= old(self).prefixes@);
            assert(nlri(prefix).len() >= 1);
        }
    }

    fn reset_prefixes(&mut self)
        requires
            old(self).wf(),
        ensures
            final(self).wf(),
            final(self).prefixes@.len() == 0,
            final(self).raw == old(self).raw,
            final(self).is_v4 == old(self).is_v4,
            final(self).base_len == old(self).base_len,
    {
        self.prefixes.clear();
        self.nlri_total = 0;
    }

    /// Packs the prefixes into one message and hands it over.
    fn emit<S: MessageSink>(&self, peer: &PeerInfo, sink: &mut S) -> (open: bool)
        requires
            self.wf(),
            self.prefixes@.len() > 0,
        ensures
            final(sink).handed().len() == old(sink).handed().len() + 1,
            final(sink).handed().drop_last() == old(sink).handed(),
            final(sink).handed().last().1 == self.prefixes@.len(),
            final(sink).answers() == old(sink).answers().push(open),
            exists|t: Timestamp|
                t.wf() && final(sink).handed().last().0 == #[trigger] packed_message(
                    *peer,
                    t,
                    self.is_v4,
                    self.raw@,
                    self.prefixes@,
                ),
    {
        let (pa_bytes, next_hop) = filter_pa_from_raw(&self.raw);
        proof {
            recovered_next_hop_is_short(self.raw@);
            packed_len(self.is_v4, self.raw@, self.prefixes@);
        }
        let nh = match &next_hop {
            Some(nh) => Some(nh.as_slice()),
            None => None,
        };
        let t = Timestamp::now();
        let msg = build_aggregated_route_monitoring_at(
            peer,
            self.prefixes.as_slice(),
            pa_bytes.as_slice(),
            nh,
            self.is_v4,
            t,
        );
        assert(msg@ == packed_message(*peer, t, self.is_v4, self.raw@, self.prefixes@));
        let open = sink.deliver(msg, self.prefixes.len());
        assert(sink.handed().drop_last() =~= old(sink).handed());
        open
    }
}

/// The path attributes among stored octets.
fn attribute_slice(raw: &[u8]) -> (blob: &[u8])
    ensures
        blob@ == attribute_octets(raw@),
{
    if raw.len() >= 2 {
        let blob = vstd::slice::slice_subrange(raw, 2, raw.len());
        assert(blob@ =~= attribute_octets(raw@));
        blob
    } else {
        let blob = vstd::slice::slice_subrange(raw, 0, 0);
        assert(blob@ =~= attribute_octets(raw@));
        blob
    }
}

//------------ What is buffered and what is handed over ----------------------

/// A route as the aggregator sees it: routes with the same path attributes are
/// the same whatever RPKI says of them.
pub struct BufferedRoute {
    pub ingress_id: IngressId,
    pub prefix: Prefix,
    pub attributes: Seq<u8>,
}

/// The number of times a prefix occurs.
pub open spec fn occurrences(prefixes: Seq<Prefix>, prefix: Prefix) -> nat
    decreases prefixes.len(),
{
    if prefixes.len() == 0 {
        0
    } else {
        occurrences(prefixes.drop_last(), prefix) + (if prefixes.last() == prefix {
            1nat
        } else {
            0nat
        })
    }
}

/// The prefixes that share a source, a family and path attributes.
pub struct Pack {
    pub ingress_id: IngressId,
    pub is_v4: bool,
    pub raw: Seq<u8>,
    pub prefixes: Seq<Prefix>,
}

impl Pack {
    /// How often the pack holds a route.
    pub open spec fn count(self, r: BufferedRoute) -> nat {
        if self.ingress_id == r.ingress_id && attribute_octets(self.raw) == r.attributes {
            occurrences(self.prefixes, r.prefix)
        } else {
            0
        }
    }

    /// Whether a message is what the pack becomes for these peers.
    #[verifier::opaque]
    pub open spec fn becomes(self, peers: Map<IngressId, PeerInfo>, msg: (Seq<u8>, nat)) -> bool {
        &&& peers.contains_key(self.ingress_id)
        &&& self.becomes_for(peers[self.ingress_id], msg)
    }

    /// Whether a message is what the pack becomes for its peer: the packed
    /// announcement of all its prefixes, within the size limit; or, for a
    /// single prefix whose attributes leave no room under that limit, the
    /// plain announcement.
    #[verifier::opaque]
    pub open spec fn becomes_for(self, peer: PeerInfo, msg: (Seq<u8>, nat)) -> bool {
        &&& msg.1 == self.prefixes.len()
        &&& self.prefixes.len() > 0
        &&& exists|t: Timestamp|
            #![trigger t.wf()]
            t.wf() && if packed_base_len(self.is_v4, self.raw) + nlris(self.prefixes).len()
                <= MAX_BGP_UPDATE_LEN {
                msg.0 == packed_message(peer, t, self.is_v4, self.raw, self.prefixes)
            } else {
                self.prefixes.len() == 1 && Some(msg.0) == route_monitoring(
                    peer,
                    t,
                    self.prefixes[0],
                    self.raw,
                    false,
                )
            }
    }
}

/// How often a route occurs in packs.
pub open spec fn handed_count(packs: Seq<Pack>, r: BufferedRoute) -> nat
    decreases packs.len(),
{
    if packs.len() == 0 {
        0
    } else {
        handed_count(packs.drop_last(), r) + packs.last().count(r)
    }
}

/// Whether the messages that a log gained are what the packs become, one for
/// one and in order.
pub open spec fn log_gained(
    before: Seq<(Seq<u8>, nat)>,
    after: Seq<(Seq<u8>, nat)>,
    peers: Map<IngressId, PeerInfo>,
    packs: Seq<Pack>,
) -> bool {
    &&& after.len() == before.len() + packs.len()
    &&& after.take(before.len() as int) == before
    &&& forall|i: int|
        0 <= i < packs.len() ==> (#[trigger] packs[i]).becomes(peers, after[before.len() + i])
}

proof fn log_gained_push(
    before: Seq<(Seq<u8>, nat)>,
    mid: Seq<(Seq<u8>, nat)>,
    after: Seq<(Seq<u8>, nat)>,
    peers: Map<IngressId, PeerInfo>,
    packs: Seq<Pack>,
    pack: Pack,
)
    requires
        log_gained(before, mid, peers, packs),
        after.len() == mid.len() + 1,
        after.drop_last() == mid,
        pack.becomes(peers, after.last()),
    ensures
        log_gained(before, after, peers, packs.push(pack)),
        forall|r: BufferedRoute|
            #[trigger] handed_count(packs.push(pack), r) == handed_count(packs, r) + pack.count(r),
{
    let all = packs.push(pack);
    assert(after.take(before.len() as int) =~= mid.take(before.len() as int));
    assert forall|i: int| 0 <= i < all.len() implies (#[trigger] all[i]).becomes(
        peers,
        after[before.len() + i],
    ) by {
        if i < packs.len() {
            assert(packs[i].becomes(peers, mid[before.len() + i]));
            assert(after[before.len() + i] == after.drop_last()[before.len() + i]);
        }
    }
    assert(all.drop_last() =~= packs);
}

/// What a pack becomes does not change when more peers are known.
pub proof fn becomes_with_more_peers(
    pack: Pack,
    few: Map<IngressId, PeerInfo>,
    many: Map<IngressId, PeerInfo>,
    msg: (Seq<u8>, nat),
)
    requires
        pack.becomes(few, msg),
        few.submap_of(many),
    ensures
        pack.becomes(many, msg),
        few.contains_key(pack.ingress_id),
{
    reveal(Pack::becomes);
    assert(few.dom().contains(pack.ingress_id));
    assert(many.dom().contains(pack.ingress_id));
}

proof fn log_gained_nothing(log: Seq<(Seq<u8>, nat)>, peers: Map<IngressId, PeerInfo>)
    ensures
        log_gained(log, log, peers, Seq::empty()),
{
    assert(log.take(log.len() as int) =~= log);
}

//------------ RouteAggregator -----------------------------------------------

/// The key of a group: its source, its address family and the hash of its path
/// attributes, packed into one number.
#[verifier::opaque]
spec fn group_key(ingress_id: IngressId, is_v4: bool, hash: u64) -> u128 {
    (ingress_id as u128 * 0x2_0000_0000_0000_0000 + (if is_v4 {
        0x1_0000_0000_0000_0000u128
    } else {
        0u128
    }) + hash as u128) as u128
}

spec fn key_source(key: u128) -> IngressId {
    (key / 0x2_0000_0000_0000_0000) as u32
}

fn make_key(ingress_id: IngressId, is_v4: bool, hash: u64) -> (key: u128)
    ensures
        key == group_key(ingress_id, is_v4, hash),
        key_source(key) == ingress_id,
{
    proof {
        reveal(group_key);
    }
    let family: u128 = if is_v4 {
        0x1_0000_0000_0000_0000
    } else {
        0
    };
    ingress_id as u128 * 0x2_0000_0000_0000_0000 + family + hash as u128
}

fn source_of(key: u128) -> (id: IngressId)
    requires
        key / 0x2_0000_0000_0000_0000 <= u32::MAX,
    ensures
        id == key_source(key),
{
    (key / 0x2_0000_0000_0000_0000) as u32
}

proof fn group_key_injective(a: IngressId, av4: bool, ah: u64, b: IngressId, bv4: bool, bh: u64)
    ensures
        group_key(a, av4, ah) == group_key(b, bv4, bh) ==> a == b && av4 == bv4 && ah == bh,
        key_source(group_key(a, av4, ah)) == a,
        group_key(a, av4, ah) / 0x2_0000_0000_0000_0000 <= u32::MAX,
{
    reveal(group_key);
}

/// What a group is filed under: its source, its address family and the hash of
/// its path attributes.
pub type GroupId = (IngressId, bool, u64);

/// The group that a route belongs to.
pub open spec fn group_of(ingress_id: IngressId, prefix: Prefix, raw: Seq<u8>) -> GroupId {
    (ingress_id, prefix.addr_spec() is V4, content_hash(attribute_octets(raw)))
}

/// What a pack is charged while it is an open group.
pub open spec fn pack_cost(pack: Pack) -> nat {
    (AGG_MEM_PER_GROUP + pack.prefixes.len() * AGG_MEM_PER_PREFIX) as nat
}

/// What an open group is charged, if it is open.
pub open spec fn cost_at(open: Map<GroupId, Pack>, id: GroupId) -> nat {
    if open.contains_key(id) {
        pack_cost(open[id])
    } else {
        0
    }
}

/// The open groups, and the packs that were handed over.
pub struct Packing {
    pub open: Map<GroupId, Pack>,
    pub packs: Seq<Pack>,
}

/// The group that a route joins: the open one with its path attributes, or one
/// without prefixes.
pub open spec fn group_to_join(
    open: Map<GroupId, Pack>,
    ingress_id: IngressId,
    prefix: Prefix,
    raw: Seq<u8>,
) -> Pack {
    let id = group_of(ingress_id, prefix, raw);
    if open.contains_key(id) && attribute_octets(open[id].raw) == attribute_octets(raw) {
        open[id]
    } else {
        Pack { ingress_id, is_v4: prefix.addr_spec() is V4, raw, prefixes: Seq::empty() }
    }
}

/// The group that makes way for a route: one of other path attributes that is
/// filed in the same place.
pub open spec fn group_in_the_way(
    open: Map<GroupId, Pack>,
    ingress_id: IngressId,
    prefix: Prefix,
    raw: Seq<u8>,
) -> Seq<Pack> {
    let id = group_of(ingress_id, prefix, raw);
    if open.contains_key(id) && attribute_octets(open[id].raw) != attribute_octets(raw) {
        seq![open[id]]
    } else {
        Seq::empty()
    }
}

/// Whether a group has no room for one more prefix under the size limit.
pub open spec fn is_full(group: Pack, prefix: Prefix) -> bool {
    group.prefixes.len() > 0 && packed_base_len(group.is_v4, group.raw)
        + nlris(group.prefixes).len() + nlri(prefix).len() > MAX_BGP_UPDATE_LEN
}

/// What adding a route does, before the budget is looked at: the route joins
/// its group; a full group is handed over first, and goes on without prefixes;
/// a route whose attributes leave no room goes on its own.
pub open spec fn packed_with(
    open: Map<GroupId, Pack>,
    ingress_id: IngressId,
    prefix: Prefix,
    raw: Seq<u8>,
) -> Packing {
    let id = group_of(ingress_id, prefix, raw);
    let group = group_to_join(open, ingress_id, prefix, raw);
    let handed = group_in_the_way(open, ingress_id, prefix, raw) + if is_full(group, prefix) {
        seq![group]
    } else {
        Seq::empty()
    };
    let prefixes = if is_full(group, prefix) {
        Seq::empty()
    } else {
        group.prefixes
    };
    let alone = Pack { prefixes: seq![prefix], raw, ..group };
    if prefixes.len() == 0 && packed_base_len(group.is_v4, raw) + nlri(prefix).len()
        > MAX_BGP_UPDATE_LEN {
        Packing {
            open: open.remove(id),
            packs: handed + if bgp_update(prefix, raw, false) is Some {
                seq![alone]
            } else {
                Seq::empty()
            },
        }
    } else {
        Packing {
            open: open.insert(id, Pack { prefixes: prefixes.push(prefix), ..group }),
            packs: handed,
        }
    }
}

/// Whether packs are open groups that were taken out, one for one.
pub open spec fn taken_out(
    before: Map<GroupId, Pack>,
    after: Map<GroupId, Pack>,
    ids: Seq<GroupId>,
    packs: Seq<Pack>,
) -> bool {
    &&& ids.len() == packs.len()
    &&& ids.no_duplicates()
    &&& forall|i: int|
        0 <= i < ids.len() ==> before.contains_key(#[trigger] ids[i]) && packs[i]
            == before[ids[i]]
    &&& after == before.remove_keys(ids.to_set())
}

/// Whether open groups were taken out, and all of them if the consumer is still
/// there.
pub open spec fn all_taken_out(before: Map<GroupId, Pack>, packs: Seq<Pack>, open: bool) -> bool {
    exists|after: Map<GroupId, Pack>, ids: Seq<GroupId>| #[trigger]
        taken_out(before, after, ids, packs) && (open ==> after == Map::<GroupId, Pack>::empty())
}

/// Whether the fullest groups were taken out, the fullest first.
pub open spec fn fullest_taken_out(
    before: Map<GroupId, Pack>,
    after: Map<GroupId, Pack>,
    packs: Seq<Pack>,
) -> bool {
    &&& exists|ids: Seq<GroupId>| #[trigger] taken_out(before, after, ids, packs)
    &&& forall|i: int, j: int|
        0 <= i < j < packs.len() ==> (#[trigger] packs[i]).prefixes.len() >= (
        #[trigger] packs[j]).prefixes.len()
    &&& forall|i: int, id: GroupId|
        #![trigger packs[i], after[id]]
        0 <= i < packs.len() && after.contains_key(id) ==> packs[i].prefixes.len()
            >= after[id].prefixes.len()
}

/// Whether the budget was kept: groups are taken out only if what is buffered
/// exceeds it, and then as many as bring it down to half the budget.
pub open spec fn budget_kept(
    before: Map<GroupId, Pack>,
    cost: nat,
    after: RouteAggregator,
    evicted: Seq<Pack>,
) -> bool {
    if cost <= after.budget() {
        evicted.len() == 0 && after.open() == before && after.buffered() == cost
    } else {
        &&& fullest_taken_out(before, after.open(), evicted)
        &&& evicted.len() > 0
        &&& after.buffered() <= after.budget() / 2 < after.buffered() + pack_cost(evicted.last())
    }
}

/// Whether this is what adding a route does. A consumer that went away took the
/// first of the packs that were due.
pub open spec fn packed_by_add(
    before: RouteAggregator,
    after: RouteAggregator,
    ingress_id: IngressId,
    prefix: Prefix,
    raw: Seq<u8>,
    packs: Seq<Pack>,
    open: bool,
) -> bool {
    if !before.peers().contains_key(ingress_id) {
        &&& open
        &&& packs.len() == 0
        &&& after.open() == before.open()
        &&& after.buffered() == before.buffered()
        &&& after.counters() == before.counters()
    } else {
        let id = group_of(ingress_id, prefix, raw);
        let packing = packed_with(before.open(), ingress_id, prefix, raw);
        let cost = (before.buffered() - cost_at(before.open(), id) + cost_at(
            packing.open,
            id,
        )) as nat;
        if open {
            exists|evicted: Seq<Pack>|
                {
                    &&& packs == packing.packs + evicted
                    &&& #[trigger] budget_kept(packing.open, cost, after, evicted)
                    &&& after.counters().1 == capped(before.counters().1 + evicted.len())
                }
        } else {
            packs.len() > 0 && (packs.is_prefix_of(packing.packs) || (cost > after.budget()
                && exists|evicted: Seq<Pack>|
                packs == packing.packs + evicted && #[trigger] fullest_taken_out(
                    packing.open,
                    after.open(),
                    evicted,
                )))
        }
    }
}

/// Collects the routes of a table dump and hands them over packed: prefixes
/// that share a source, an address family and path attributes go into one
/// message.
///
/// The walk over the table goes by prefix, so that the prefixes of a group are
/// scattered over all of it and groups stay open to the end. When the buffered
/// groups exceed the budget, the fullest are handed over first.
#[derive(Debug)]
pub struct RouteAggregator {
    groups: HashMap<u128, AggGroup>,
    peer_info: HashMap<IngressId, PeerInfo>,
    buffered_bytes: usize,
    max_bytes: usize,
    groups_created: usize,
    budget_evictions: usize,
}

/// The larger budgets leave no room for the bookkeeping of one more group.
pub const MAX_BUDGET: usize = usize::MAX - 0x10_0000;

spec fn group_costs(groups: Map<u128, AggGroup>) -> Map<u128, nat> {
    groups.map_values(|g: AggGroup| g.spec_cost())
}

impl RouteAggregator {
    /// The peers that the messages are attributed to.
    pub closed spec fn peers(&self) -> Map<IngressId, PeerInfo> {
        self.peer_info@
    }

    /// What the buffered groups are charged.
    pub closed spec fn buffered(&self) -> nat {
        self.buffered_bytes as nat
    }

    /// The budget.
    pub closed spec fn budget(&self) -> nat {
        self.max_bytes as nat
    }

    /// The number of open groups.
    pub closed spec fn open_groups(&self) -> nat {
        self.groups@.dom().len()
    }

    /// How many groups were opened, and how many the budget forced out.
    pub closed spec fn counters(&self) -> (nat, nat) {
        (self.groups_created as nat, self.budget_evictions as nat)
    }

    /// The open groups.
    #[verifier::opaque]
    pub closed spec fn open(&self) -> Map<GroupId, Pack> {
        Map::new(
            |k: GroupId| self.groups@.contains_key(group_key(k.0, k.1, k.2)),
            |k: GroupId| self.pack_of(group_key(k.0, k.1, k.2)),
        )
    }

    /// How often a route waits in the buffer.
    #[verifier::opaque]
    pub closed spec fn pending(&self, r: BufferedRoute) -> nat {
        let key = group_key(r.ingress_id, r.prefix.addr_spec() is V4, content_hash(r.attributes));
        if self.groups@.contains_key(key) {
            self.pack_of(key).count(r)
        } else {
            0
        }
    }

    spec fn pack_of(&self, key: u128) -> Pack {
        Pack {
            ingress_id: key_source(key),
            is_v4: self.groups@[key].is_v4,
            raw: self.groups@[key].raw@,
            prefixes: self.groups@[key].prefixes@,
        }
    }

    /// A group is filed where its routes are looked for.
    spec fn filed(&self, key: u128) -> bool {
        &&& self.groups@[key].wf()
        &&& self.groups@[key].prefixes@.len() > 0
        &&& key == group_key(
            key_source(key),
            self.groups@[key].is_v4,
            content_hash(attribute_octets(self.groups@[key].raw@)),
        )
        &&& key / 0x2_0000_0000_0000_0000 <= u32::MAX
        &&& self.peer_info@.contains_key(key_source(key))
    }

    /// Every group is filed under its key, is not empty, fits one UPDATE and
    /// belongs to a known peer; the charges add up.
    pub closed spec fn wf(&self) -> bool {
        &&& self.groups@.dom().finite()
        &&& forall|key: u128| #[trigger] self.groups@.contains_key(key) ==> self.filed(key)
        &&& self.buffered_bytes == total(group_costs(self.groups@))
        &&& self.max_bytes <= MAX_BUDGET
    }

    /// An aggregator that holds nothing.
    pub fn new(max_bytes: usize, peer_info: HashMap<IngressId, PeerInfo>) -> (agg: Self)
        requires
            max_bytes <= MAX_BUDGET,
        ensures
            agg.wf(),
            agg.peers() == peer_info@,
            agg.budget() == max_bytes,
            agg.buffered() == 0,
            agg.open_groups() == 0,
            agg.open() == Map::<GroupId, Pack>::empty(),
            agg.counters() == (0nat, 0nat),
            forall|r: BufferedRoute| #[trigger] agg.pending(r) == 0,
    {
        let agg = RouteAggregator {
            groups: HashMap::new(),
            peer_info,
            buffered_bytes: 0,
            max_bytes,
            groups_created: 0,
            budget_evictions: 0,
        };
        proof {
            reveal(RouteAggregator::pending);
            reveal(RouteAggregator::open);
            assert(agg.open() =~= Map::<GroupId, Pack>::empty());
            assert(group_costs(agg.groups@) =~= Map::empty());
        }
        agg
    }

    /// Whether the source is a known peer.
    pub fn has_peer(&self, id: IngressId) -> (known: bool)
        ensures
            known == self.peers().contains_key(id),
    {
        self.peer_info.contains_key(&id)
    }

    /// Makes a peer known that was discovered during the walk.
    pub fn insert_peer(&mut self, id: IngressId, info: PeerInfo)
        requires
            old(self).wf(),
        ensures
            final(self).wf(),
            final(self).peers() == old(self).peers().insert(id, info),
            final(self).budget() == old(self).budget(),
            final(self).buffered() == old(self).buffered(),
            final(self).open_groups() == old(self).open_groups(),
            final(self).open() == old(self).open(),
            final(self).counters() == old(self).counters(),
            forall|r: BufferedRoute| #[trigger] final(self).pending(r) == old(self).pending(r),
    {
        self.peer_info.insert(id, info);
        proof {
            reveal(RouteAggregator::pending);
            Self::same_open(*old(self), *self);
        }
        assert forall|key: u128| #[trigger] self.groups@.contains_key(key) implies self.filed(
            key,
        ) by {
            assert(old(self).filed(key));
        }
    }

    /// How many groups were opened, and how many the budget forced out. With
    /// few of the latter the packing reflects how the table shares its
    /// attributes, and not the budget.
    pub fn stats(&self) -> (s: (usize, usize))
        ensures
            s.0 == self.counters().0,
            s.1 == self.counters().1,
    {
        (self.groups_created, self.budget_evictions)
    }
}

/// Whether a route fits an UPDATE, packed or on its own.
pub open spec fn route_fits(prefix: Prefix, raw: Seq<u8>) -> bool {
    packed_base_len(prefix.addr_spec() is V4, raw) + nlri(prefix).len() <= MAX_BGP_UPDATE_LEN
        || bgp_update(prefix, raw, false) is Some
}

/// Whether a route of these peers reaches the consumer: its source is known,
/// and it fits an UPDATE.
pub open spec fn route_is_sent(
    peers: Map<IngressId, PeerInfo>,
    ingress_id: IngressId,
    prefix: Prefix,
    raw: Seq<u8>,
) -> bool {
    peers.contains_key(ingress_id) && route_fits(prefix, raw)
}

proof fn occurs_somewhere(prefixes: Seq<Prefix>, prefix: Prefix)
    requires
        occurrences(prefixes, prefix) > 0,
    ensures
        exists|i: int| 0 <= i < prefixes.len() && #[trigger] prefixes[i] == prefix,
    decreases prefixes.len(),
{
    if prefixes.last() == prefix {
        assert(prefixes[prefixes.len() - 1] == prefix);
    } else {
        occurs_somewhere(prefixes.drop_last(), prefix);
        let i = choose|i: int|
            0 <= i < prefixes.drop_last().len() && #[trigger] prefixes.drop_last()[i] == prefix;
        assert(prefixes[i] == prefix);
    }
}

/// `<[(usize, u128)]>::sort_unstable`: puts the pairs in ascending order. Of
/// the order only that of the first components is stated.
#[verifier::external_body]
fn sort_pairs(pairs: &mut Vec<(usize, u128)>)
    ensures
        final(pairs)@.to_multiset() == old(pairs)@.to_multiset(),
        forall|i: int, j: int|
            0 <= i <= j < final(pairs)@.len() ==> (#[trigger] final(pairs)@[i]).0 <= (
            #[trigger] final(pairs)@[j]).0,
{
    pairs.sort_unstable();
}

impl RouteAggregator {
    /// A group holds only routes that are looked for under its key.
    proof fn count_means_key(&self, key: u128, r: BufferedRoute)
        requires
            self.filed(key),
            self.pack_of(key).count(r) > 0,
        ensures
            key == group_key(
                r.ingress_id,
                r.prefix.addr_spec() is V4,
                content_hash(r.attributes),
            ),
    {
        let g = self.groups@[key];
        occurs_somewhere(g.prefixes@, r.prefix);
        let i = choose|i: int| 0 <= i < g.prefixes@.len() && #[trigger] g.prefixes@[i] == r.prefix;
        assert(g.prefixes@[i].addr_spec() is V4 == g.is_v4);
    }

    /// What waits depends on the groups alone.
    proof fn same_pending(a: RouteAggregator, b: RouteAggregator)
        requires
            a.groups@ == b.groups@,
        ensures
            forall|r: BufferedRoute| #[trigger] a.pending(r) == b.pending(r),
            forall|r: BufferedRoute| #[trigger] b.pending(r) == a.pending(r),
    {
        reveal(RouteAggregator::pending);
    }

    /// The open groups depend on the groups alone.
    proof fn same_open(a: RouteAggregator, b: RouteAggregator)
        requires
            a.groups@ == b.groups@,
        ensures
            a.open() == b.open(),
    {
        reveal(RouteAggregator::open);
        assert(a.open() =~= b.open());
    }

    /// What is open under an identifier.
    proof fn open_at(&self, id: GroupId)
        ensures
            self.open().contains_key(id) == self.groups@.contains_key(
                group_key(id.0, id.1, id.2),
            ),
            self.open().contains_key(id) ==> self.open()[id] == self.pack_of(
                group_key(id.0, id.1, id.2),
            ),
    {
        reveal(RouteAggregator::open);
    }

    /// Taking a group out takes it out of the open ones.
    proof fn open_without(before: RouteAggregator, after: RouteAggregator, id: GroupId)
        requires
            after.groups@ == before.groups@.remove(group_key(id.0, id.1, id.2)),
        ensures
            after.open() == before.open().remove(id),
    {
        reveal(RouteAggregator::open);
        assert forall|k: GroupId| k != id implies group_key(k.0, k.1, k.2) != #[trigger] group_key(
            id.0,
            id.1,
            id.2,
        ) by {
            group_key_injective(k.0, k.1, k.2, id.0, id.1, id.2);
        }
        assert(after.open() =~= before.open().remove(id));
    }

    /// Putting a group in adds it to the open ones.
    proof fn open_with(before: RouteAggregator, after: RouteAggregator, id: GroupId, group: AggGroup)
        requires
            after.groups@ == before.groups@.insert(group_key(id.0, id.1, id.2), group),
        ensures
            after.open() == before.open().insert(
                id,
                pack_from(group_key(id.0, id.1, id.2), group),
            ),
    {
        reveal(RouteAggregator::open);
        assert forall|k: GroupId| k != id implies group_key(k.0, k.1, k.2) != #[trigger] group_key(
            id.0,
            id.1,
            id.2,
        ) by {
            group_key_injective(k.0, k.1, k.2, id.0, id.1, id.2);
        }
        assert(after.open() =~= before.open().insert(
            id,
            pack_from(group_key(id.0, id.1, id.2), group),
        ));
    }

    /// Every group is open under an identifier.
    proof fn id_of(&self, key: u128) -> (id: GroupId)
        requires
            self.wf(),
            self.groups@.contains_key(key),
        ensures
            key == group_key(id.0, id.1, id.2),
            self.open().contains_key(id),
            self.open()[id] == self.pack_of(key),
    {
        assert(self.filed(key));
        let id = (
            key_source(key),
            self.groups@[key].is_v4,
            content_hash(attribute_octets(self.groups@[key].raw@)),
        );
        self.open_at(id);
        id
    }

    /// Taking a group out lowers what waits by what the group holds.
    proof fn pending_without(before: RouteAggregator, after: RouteAggregator, key: u128)
        requires
            before.wf(),
            before.groups@.contains_key(key),
            after.groups@ == before.groups@.remove(key),
        ensures
            forall|r: BufferedRoute| #[trigger]
                before.pending(r) == after.pending(r) + before.pack_of(key).count(r),
    {
        reveal(RouteAggregator::pending);
        assert(before.filed(key));
        assert forall|r: BufferedRoute| #[trigger]
            before.pending(r) == after.pending(r) + before.pack_of(key).count(r) by {
            let rk = group_key(
                r.ingress_id,
                r.prefix.addr_spec() is V4,
                content_hash(r.attributes),
            );
            if before.pack_of(key).count(r) > 0 {
                before.count_means_key(key, r);
            }
        }
    }

    /// Takes a group out of the buffer.
    fn take_group(&mut self, key: u128) -> (group: Option<AggGroup>)
        requires
            old(self).wf(),
        ensures
            final(self).wf(),
            final(self).groups@ == old(self).groups@.remove(key),
            final(self).peer_info == old(self).peer_info,
            final(self).max_bytes == old(self).max_bytes,
            final(self).counters() == old(self).counters(),
            match group {
                Some(g) => {
                    &&& old(self).groups@.contains_key(key)
                    &&& g == old(self).groups@[key]
                    &&& old(self).filed(key)
                    &&& final(self).buffered_bytes + g.spec_cost() == old(self).buffered_bytes
                    &&& final(self).open_groups() + 1 == old(self).open_groups()
                    &&& forall|r: BufferedRoute| #[trigger]
                        old(self).pending(r) == final(self).pending(r) + old(self).pack_of(
                            key,
                        ).count(r)
                },
                None => {
                    &&& !old(self).groups@.contains_key(key)
                    &&& final(self).groups@ == old(self).groups@
                    &&& final(self).buffered_bytes == old(self).buffered_bytes
                    &&& forall|r: BufferedRoute| #[trigger]
                        old(self).pending(r) == final(self).pending(r)
                },
            },
    {
        match self.groups.remove(&key) {
            Some(g) => {
                proof {
                    assert(old(self).filed(key));
                    let costs = group_costs(old(self).groups@);
                    assert(costs.dom() =~= old(self).groups@.dom());
                    total_remove(costs, key);
                    assert(costs.remove(key) =~= group_costs(self.groups@));
                }
                self.buffered_bytes = self.buffered_bytes - g.cost();
                proof {
                    assert forall|k: u128| #[trigger] self.groups@.contains_key(k) implies self.filed(
                        k,
                    ) by {
                        assert(old(self).filed(k));
                    }
                    Self::pending_without(*old(self), *self, key);
                }
                Some(g)
            },
            None => {
                proof {
                    assert(self.groups@ =~= old(self).groups@.remove(key));
                    assert(self.groups@ =~= old(self).groups@);
                    assert forall|k: u128| #[trigger] self.groups@.contains_key(k) implies self.filed(
                        k,
                    ) by {
                        assert(old(self).filed(k));
                    }
                    Self::same_pending(*old(self), *self);
                }
                None
            },
        }
    }

    /// Puts a group into the buffer.
    fn put_group(&mut self, key: u128, group: AggGroup)
        requires
            old(self).wf(),
            !old(self).groups@.contains_key(key),
            old(self).buffered_bytes <= MAX_BUDGET,
            group.wf(),
            group.prefixes@.len() > 0,
            key == group_key(
                key_source(key),
                group.is_v4,
                content_hash(attribute_octets(group.raw@)),
            ),
            key / 0x2_0000_0000_0000_0000 <= u32::MAX,
            old(self).peer_info@.contains_key(key_source(key)),
        ensures
            final(self).wf(),
            final(self).groups@ == old(self).groups@.insert(key, group),
            final(self).peer_info == old(self).peer_info,
            final(self).max_bytes == old(self).max_bytes,
            final(self).counters() == old(self).counters(),
            final(self).buffered_bytes == old(self).buffered_bytes + group.spec_cost(),
            forall|r: BufferedRoute| #[trigger]
                final(self).pending(r) == old(self).pending(r) + final(self).pack_of(key).count(r),
    {
        self.buffered_bytes = self.buffered_bytes + group.cost();
        self.groups.insert(key, group);
        proof {
            let costs = group_costs(self.groups@);
            assert(costs.dom() =~= self.groups@.dom());
            total_remove(costs, key);
            assert(costs.remove(key) =~= group_costs(old(self).groups@));
            assert forall|k: u128| #[trigger] self.groups@.contains_key(k) implies self.filed(k) by {
                if k != key {
                    assert(old(self).filed(k));
                }
            }
            assert(old(self).groups@ =~= self.groups@.remove(key));
            Self::pending_without(*self, *old(self), key);
        }
    }

    /// The open groups with their numbers of prefixes, by that number
    /// ascending.
    fn groups_by_size(&self) -> (pairs: Vec<(usize, u128)>)
        requires
            self.wf(),
        ensures
            forall|i: int|
                0 <= i < pairs@.len() ==> self.groups@.contains_key((#[trigger] pairs@[i]).1)
                    && pairs@[i].0 == self.groups@[pairs@[i].1].prefixes@.len(),
            forall|i: int, j: int|
                0 <= i < j < pairs@.len() ==> (#[trigger] pairs@[i]).1 != (#[trigger] pairs@[j]).1
                    && pairs@[i].0 <= pairs@[j].0,
            forall|key: u128| #[trigger]
                self.groups@.contains_key(key) ==> exists|i: int|
                    0 <= i < pairs@.len() && (#[trigger] pairs@[i]).1 == key,
    {
        let mut pairs: Vec<(usize, u128)> = Vec::new();
        let ghost all = spec_keys_iter(&self.groups).remaining();
        for k in it: self.groups.keys()
            invariant
                it.seq() == all,
                all.unref().to_set() == self.groups@.dom(),
                all.no_duplicates(),
                pairs@.len() == it.index(),
                forall|i: int|
                    0 <= i < pairs@.len() ==> (#[trigger] pairs@[i]).1 == *it.seq()[i]
                        && self.groups@.contains_key(pairs@[i].1) && pairs@[i].0
                        == self.groups@[pairs@[i].1].prefixes@.len(),
        {
            proof {
                let n = it.index();
                assert(it.seq().unref()[n] == *k);
                assert(it.seq().unref().to_set().contains(*k));
            }
            let size: usize = match self.groups.get(k) {
                Some(g) => g.prefixes.len(),
                None => 0,
            };
            pairs.push((size, *k));
        }
        let ghost unsorted = pairs@;
        proof {
            assert forall|key: u128| #[trigger] self.groups@.contains_key(key) implies exists|i: int|
                0 <= i < unsorted.len() && (#[trigger] unsorted[i]).1 == key by {
                assert(all.unref().to_set().contains(key));
                let i = choose|i: int| 0 <= i < all.unref().len() && all.unref()[i] == key;
                assert(unsorted[i].1 == key);
            }
        }
        sort_pairs(&mut pairs);
        proof {
            unsorted.to_multiset_ensures();
            pairs@.to_multiset_ensures();
            assert(unsorted.no_duplicates());
            unsorted.lemma_multiset_has_no_duplicates();
            pairs@.lemma_multiset_has_no_duplicates_conv();
            assert forall|i: int| 0 <= i < pairs@.len() implies self.groups@.contains_key(
                (#[trigger] pairs@[i]).1,
            ) && pairs@[i].0 == self.groups@[pairs@[i].1].prefixes@.len() by {
                assert(pairs@.to_multiset().count(pairs@[i]) > 0);
                assert(unsorted.contains(pairs@[i]));
            }
            assert forall|key: u128| #[trigger] self.groups@.contains_key(key) implies exists|i: int|
                0 <= i < pairs@.len() && (#[trigger] pairs@[i]).1 == key by {
                let i = choose|i: int| 0 <= i < unsorted.len() && (#[trigger] unsorted[i]).1 == key;
                assert(unsorted.contains(unsorted[i]));
                assert(pairs@.to_multiset().count(unsorted[i]) > 0);
                assert(pairs@.contains(unsorted[i]));
            }
        }
        pairs
    }
}

proof fn taken_out_nothing(open: Map<GroupId, Pack>)
    ensures
        taken_out(open, open, Seq::empty(), Seq::empty()),
{
    assert(open.remove_keys(Seq::<GroupId>::empty().to_set()) =~= open);
}

proof fn taken_out_one_more(
    before: Map<GroupId, Pack>,
    mid: Map<GroupId, Pack>,
    ids: Seq<GroupId>,
    packs: Seq<Pack>,
    id: GroupId,
)
    requires
        taken_out(before, mid, ids, packs),
        mid.contains_key(id),
    ensures
        taken_out(before, mid.remove(id), ids.push(id), packs.push(mid[id])),
{
    let all = ids.push(id);
    let more = packs.push(mid[id]);
    assert(!ids.contains(id)) by {
        if ids.contains(id) {
            assert(ids.to_set().contains(id));
        }
    }
    assert forall|i: int| 0 <= i < all.len() implies before.contains_key(#[trigger] all[i])
        && more[i] == before[all[i]] by {
        if i < ids.len() {
            assert(all[i] == ids[i]);
        }
    }
    assert forall|k: GroupId| all.to_set().contains(k) <==> ids.to_set().contains(k) || k == id by {
        if ids.contains(k) {
            let i = choose|i: int| 0 <= i < ids.len() && ids[i] == k;
            assert(all[i] == k);
        }
        assert(all[ids.len() as int] == id);
        if all.contains(k) && k != id {
            let i = choose|i: int| 0 <= i < all.len() && all[i] == k;
            assert(ids[i] == k);
        }
    }
    assert(mid.remove(id) =~= before.remove_keys(all.to_set()));
}

/// What a group becomes when it is handed over.
spec fn pack_from(key: u128, group: AggGroup) -> Pack {
    Pack {
        ingress_id: key_source(key),
        is_v4: group.is_v4,
        raw: group.raw@,
        prefixes: group.prefixes@,
    }
}

/// Whether what waited before, and what was added, still waits or was handed
/// over, each as often as before.
pub open spec fn nothing_lost(
    before: RouteAggregator,
    added: Seq<BufferedRoute>,
    after: RouteAggregator,
    packs: Seq<Pack>,
) -> bool {
    forall|r: BufferedRoute|
        #![trigger after.pending(r)]
        before.pending(r) + added_count(added, r) == after.pending(r) + handed_count(packs, r)
}

/// Whether nothing waits or was handed over that did not wait before and was
/// not added.
pub open spec fn nothing_invented(
    before: RouteAggregator,
    added: Seq<BufferedRoute>,
    after: RouteAggregator,
    packs: Seq<Pack>,
) -> bool {
    forall|r: BufferedRoute|
        #![trigger after.pending(r)]
        before.pending(r) + added_count(added, r) >= after.pending(r) + handed_count(packs, r)
}

/// How often a route was added.
pub open spec fn added_count(added: Seq<BufferedRoute>, r: BufferedRoute) -> nat
    decreases added.len(),
{
    if added.len() == 0 {
        0
    } else {
        added_count(added.drop_last(), r) + (if added.last() == r {
            1nat
        } else {
            0nat
        })
    }
}

impl RouteAggregator {
    /// Hands over a group of a known peer.
    fn hand_over<S: MessageSink>(&self, key: u128, group: &AggGroup, sink: &mut S) -> (open: bool)
        requires
            group.wf(),
            group.prefixes@.len() > 0,
            key / 0x2_0000_0000_0000_0000 <= u32::MAX,
            self.peer_info@.contains_key(key_source(key)),
        ensures
            final(sink).handed().len() == old(sink).handed().len() + 1,
            final(sink).handed().drop_last() == old(sink).handed(),
            final(sink).answers() == old(sink).answers().push(open),
            pack_from(key, *group).becomes(self.peer_info@, final(sink).handed().last()),
    {
        match self.peer_info.get(&source_of(key)) {
            Some(peer) => {
                let open = group.emit(peer, sink);
                proof {
                    reveal(Pack::becomes);
                    reveal(Pack::becomes_for);
                    let t = choose|t: Timestamp|
                        t.wf() && sink.handed().last().0 == #[trigger] packed_message(
                            *peer,
                            t,
                            group.is_v4,
                            group.raw@,
                            group.prefixes@,
                        );
                    assert(t.wf());
                }
                open
            },
            None => {
                assert(false);
                false
            },
        }
    }

    /// Hands over the fullest groups until what is buffered is down to half
    /// the budget, so that the next route does not exceed it again at once.
    ///
    /// The fullest first: that makes the most of each message, frees the most
    /// memory, and lets the small groups grow.
    fn evict_until_under_budget<S: MessageSink>(&mut self, sink: &mut S) -> (res: (
        bool,
        Ghost<Seq<Pack>>,
    ))
        requires
            old(self).wf(),
        ensures
            final(self).wf(),
            final(self).peers() == old(self).peers(),
            final(self).budget() == old(self).budget(),
            final(self).groups_created == old(self).groups_created,
            final(self).open_groups() <= old(self).open_groups(),
            final(self).counters().1 == capped(old(self).counters().1 + res.1@.len()),
            res.0 ==> final(self).buffered() <= old(self).budget() / 2,
            if old(self).buffered() <= old(self).budget() / 2 {
                res.1@.len() == 0 && *final(self) == *old(self)
            } else {
                res.1@.len() > 0 && final(self).buffered() + pack_cost(res.1@.last()) > old(
                    self,
                ).budget() / 2
            },
            answered(old(sink).answers(), final(sink).answers(), res.1@.len(), res.0),
            fullest_taken_out(old(self).open(), final(self).open(), res.1@),
            log_gained(old(sink).handed(), final(sink).handed(), old(self).peers(), res.1@),
            nothing_lost(*old(self), Seq::empty(), *final(self), res.1@),
    {
        let target: usize = self.max_bytes / 2;
        if self.buffered_bytes <= target {
            proof {
                log_gained_nothing(sink.handed(), self.peer_info@);
                taken_out_nothing(self.open());
                answered_nothing(sink.answers());
            }
            return (true, Ghost(Seq::empty()));
        }
        let pairs = self.groups_by_size();
        let mut i: usize = pairs.len();
        let mut open = true;
        let ghost mut packs: Seq<Pack> = Seq::empty();
        let ghost mut ids: Seq<GroupId> = Seq::empty();
        proof {
            log_gained_nothing(sink.handed(), self.peer_info@);
            taken_out_nothing(self.open());
            if pairs@.len() == 0 {
                assert forall|key: u128| !self.groups@.contains_key(key) by {}
                assert(group_costs(self.groups@).dom() =~= Set::empty());
            }
            assert(pairs@.len() > 0);
            answered_nothing(sink.answers());
        }
        while open && i > 0 && self.buffered_bytes > target
            invariant
                i <= pairs@.len(),
                old(self).wf(),
                old(self).buffered_bytes > target,
                self.wf(),
                self.peer_info == old(self).peer_info,
                self.max_bytes == old(self).max_bytes,
                target == self.max_bytes / 2,
                self.groups_created == old(self).groups_created,
                self.open_groups() <= old(self).open_groups(),
                self.counters().1 == capped(old(self).counters().1 + packs.len()),
                self.groups@.submap_of(old(self).groups@),
                forall|a: int|
                    0 <= a < pairs@.len() ==> old(self).groups@.contains_key(
                        (#[trigger] pairs@[a]).1,
                    ) && pairs@[a].0 == old(self).groups@[pairs@[a].1].prefixes@.len() && (
                    self.groups@.contains_key(pairs@[a].1) <==> a < i),
                forall|a: int, b: int|
                    0 <= a < b < pairs@.len() ==> (#[trigger] pairs@[a]).1 != (
                    #[trigger] pairs@[b]).1 && pairs@[a].0 <= pairs@[b].0,
                forall|key: u128| #[trigger]
                    old(self).groups@.contains_key(key) ==> exists|a: int|
                        0 <= a < pairs@.len() && (#[trigger] pairs@[a]).1 == key,
                packs.len() == pairs@.len() - i,
                forall|a: int|
                    0 <= a < packs.len() ==> (#[trigger] packs[a]).prefixes.len()
                        == pairs@[pairs@.len() - 1 - a].0,
                packs.len() > 0 ==> self.buffered_bytes + pack_cost(packs.last()) > target,
                packs.len() == 0 ==> open && self.buffered_bytes == old(self).buffered_bytes,
                answered(old(sink).answers(), sink.answers(), packs.len(), open),
                taken_out(old(self).open(), self.open(), ids, packs),
                log_gained(old(sink).handed(), sink.handed(), old(self).peer_info@, packs),
                nothing_lost(*old(self), Seq::empty(), *self, packs),
            decreases i,
        {
            i -= 1;
            let key: u128 = pairs[i].1;
            let ghost before = *self;
            let ghost log = sink.handed();
            let ghost replies = sink.answers();
            assert(pairs@[i as int].1 == key);
            assert(self.groups@.contains_key(key));
            let ghost id = self.id_of(key);
            if let Some(group) = self.take_group(key) {
                let ghost taken = *self;
                self.budget_evictions = self.budget_evictions.saturating_add(1);
                proof {
                    Self::same_pending(taken, *self);
                    Self::open_without(before, *self, id);
                    taken_out_one_more(old(self).open(), before.open(), ids, packs, id);
                    assert(before.groups@[key] == old(self).groups@[key]) by {
                        assert(before.groups@.dom().contains(key));
                        assert(old(self).groups@.dom().contains(key));
                    }
                }
                assert(self.wf()) by {
                    assert forall|k: u128| #[trigger] self.groups@.contains_key(k) implies self.filed(
                        k,
                    ) by {
                        assert(before.filed(k));
                    }
                }
                open = self.hand_over(key, &group, sink);
                proof {
                    answered_one_more(old(sink).answers(), replies, packs.len(), open);
                    let pack = before.pack_of(key);
                    assert(pack == pack_from(key, group));
                    log_gained_push(
                        old(sink).handed(),
                        log,
                        sink.handed(),
                        old(self).peer_info@,
                        packs,
                        pack,
                    );
                    let all = packs.push(pack);
                    assert forall|r: BufferedRoute|
                        #![trigger self.pending(r)]
                        old(self).pending(r) + added_count(Seq::empty(), r) == self.pending(r)
                            + handed_count(all, r) by {
                        assert(taken.pending(r) == self.pending(r));
                        assert(before.pending(r) == taken.pending(r) + pack.count(r));
                        assert(handed_count(all, r) == handed_count(packs, r) + pack.count(r));
                    }
                    packs = all;
                    ids = ids.push(id);
                }
            }
        }
        proof {
            assert forall|a: int, k: GroupId|
                #![trigger packs[a], self.open()[k]]
                0 <= a < packs.len() && self.open().contains_key(k) implies packs[a].prefixes.len()
                >= self.open()[k].prefixes.len() by {
                self.open_at(k);
                let key = group_key(k.0, k.1, k.2);
                assert(self.groups@.dom().contains(key));
                assert(old(self).groups@.dom().contains(key));
                assert(old(self).groups@.contains_key(key));
                let b = choose|b: int| 0 <= b < pairs@.len() && (#[trigger] pairs@[b]).1 == key;
                assert(b < i);
                assert(pairs@[b].0 <= pairs@[pairs@.len() - 1 - a].0);
            }
            assert forall|a: int, b: int| 0 <= a < b < packs.len() implies (
            #[trigger] packs[a]).prefixes.len() >= (#[trigger] packs[b]).prefixes.len() by {
                assert(pairs@[pairs@.len() - 1 - b].0 <= pairs@[pairs@.len() - 1 - a].0);
            }
            if open && i == 0 {
                assert forall|key: u128| !self.groups@.contains_key(key) by {
                    if self.groups@.contains_key(key) {
                        assert(old(self).groups@.contains_key(key));
                        let a = choose|a: int|
                            0 <= a < pairs@.len() && (#[trigger] pairs@[a]).1 == key;
                    }
                }
                assert(group_costs(self.groups@).dom() =~= Set::empty());
            }
            assert(nothing_lost(*old(self), Seq::empty(), *self, packs));
        }
        (open, Ghost(packs))
    }

    /// Hands over every open group. Nothing waits afterwards; if the consumer
    /// is gone, what was not handed over is dropped.
    pub fn flush_all<S: MessageSink>(&mut self, sink: &mut S) -> (open: bool)
        requires
            old(self).wf(),
        ensures
            final(self).wf(),
            final(self).peers() == old(self).peers(),
            final(self).budget() == old(self).budget(),
            final(self).counters() == old(self).counters(),
            final(self).buffered() == 0,
            final(self).open_groups() == 0,
            final(self).open() == Map::<GroupId, Pack>::empty(),
            forall|r: BufferedRoute| #[trigger] final(self).pending(r) == 0,
            exists|packs: Seq<Pack>|
                #![trigger log_gained(
                    old(sink).handed(),
                    final(sink).handed(),
                    old(self).peers(),
                    packs,
                )]
                log_gained(old(sink).handed(), final(sink).handed(), old(self).peers(), packs)
                    && answered(
                    old(sink).answers(),
                    final(sink).answers(),
                    packs.len(),
                    open,
                ) && all_taken_out(old(self).open(), packs, open) && nothing_invented(
                    *old(self),
                    Seq::empty(),
                    *final(self),
                    packs,
                ) && (open ==> nothing_lost(*old(self), Seq::empty(), *final(self), packs)),
    {
        let pairs = self.groups_by_size();
        let mut i: usize = pairs.len();
        let mut open = true;
        let ghost mut packs: Seq<Pack> = Seq::empty();
        let ghost mut ids: Seq<GroupId> = Seq::empty();
        proof {
            log_gained_nothing(sink.handed(), self.peer_info@);
            taken_out_nothing(self.open());
            answered_nothing(sink.answers());
        }
        while open && i > 0
            invariant
                i <= pairs@.len(),
                old(self).wf(),
                self.wf(),
                self.peer_info == old(self).peer_info,
                self.max_bytes == old(self).max_bytes,
                self.counters() == old(self).counters(),
                self.groups@.submap_of(old(self).groups@),
                forall|a: int|
                    0 <= a < pairs@.len() ==> old(self).groups@.contains_key(
                        (#[trigger] pairs@[a]).1,
                    ) && (self.groups@.contains_key(pairs@[a].1) <==> a < i),
                forall|a: int, b: int|
                    0 <= a < b < pairs@.len() ==> (#[trigger] pairs@[a]).1 != (
                    #[trigger] pairs@[b]).1,
                forall|key: u128| #[trigger]
                    old(self).groups@.contains_key(key) ==> exists|a: int|
                        0 <= a < pairs@.len() && (#[trigger] pairs@[a]).1 == key,
                taken_out(old(self).open(), self.open(), ids, packs),
                answered(old(sink).answers(), sink.answers(), packs.len(), open),
                log_gained(old(sink).handed(), sink.handed(), old(self).peer_info@, packs),
                nothing_lost(*old(self), Seq::empty(), *self, packs),
            decreases i,
        {
            i -= 1;
            let key: u128 = pairs[i].1;
            let ghost before = *self;
            let ghost log = sink.handed();
            let ghost replies = sink.answers();
            assert(pairs@[i as int].1 == key);
            assert(self.groups@.contains_key(key));
            let ghost id = self.id_of(key);
            if let Some(group) = self.take_group(key) {
                proof {
                    Self::open_without(before, *self, id);
                    taken_out_one_more(old(self).open(), before.open(), ids, packs, id);
                }
                open = self.hand_over(key, &group, sink);
                proof {
                    answered_one_more(old(sink).answers(), replies, packs.len(), open);
                    let pack = before.pack_of(key);
                    assert(pack == pack_from(key, group));
                    log_gained_push(
                        old(sink).handed(),
                        log,
                        sink.handed(),
                        old(self).peer_info@,
                        packs,
                        pack,
                    );
                    let all = packs.push(pack);
                    assert forall|r: BufferedRoute|
                        #![trigger self.pending(r)]
                        old(self).pending(r) + added_count(Seq::empty(), r) == self.pending(r)
                            + handed_count(all, r) by {
                        assert(before.pending(r) == self.pending(r) + pack.count(r));
                        assert(handed_count(all, r) == handed_count(packs, r) + pack.count(r));
                    }
                    packs = all;
                    ids = ids.push(id);
                }
            }
        }
        let ghost drained = *self;
        proof {
            if open {
                assert forall|key: u128| !drained.groups@.contains_key(key) by {
                    if drained.groups@.contains_key(key) {
                        assert(old(self).groups@.contains_key(key));
                        let a = choose|a: int|
                            0 <= a < pairs@.len() && (#[trigger] pairs@[a]).1 == key;
                    }
                }
                assert(drained.groups@ =~= Map::empty());
                reveal(RouteAggregator::open);
                assert(drained.open() =~= Map::<GroupId, Pack>::empty());
            }
            assert(all_taken_out(old(self).open(), packs, open));
        }
        self.groups.clear();
        self.buffered_bytes = 0;
        proof {
            reveal(RouteAggregator::pending);
            reveal(RouteAggregator::open);
            assert(self.open() =~= Map::<GroupId, Pack>::empty());
            assert(group_costs(self.groups@).dom() =~= Set::empty());
            assert forall|r: BufferedRoute|
                #![trigger self.pending(r)]
                old(self).pending(r) + added_count(Seq::empty(), r) >= self.pending(r)
                    + handed_count(packs, r) by {
                assert(drained.pending(r) >= 0);
            }
            if open {
                assert forall|r: BufferedRoute|
                    #![trigger self.pending(r)]
                    old(self).pending(r) + added_count(Seq::empty(), r) == self.pending(r)
                        + handed_count(packs, r) by {
                    assert(drained.pending(r) == 0);
                }
                assert(nothing_lost(*old(self), Seq::empty(), *self, packs));
            }
            assert(nothing_invented(*old(self), Seq::empty(), *self, packs));
            assert(log_gained(old(sink).handed(), sink.handed(), old(self).peers(), packs));
        }
        open
    }
}

impl RouteAggregator {
    /// Whether a group with the route's source, family and path attributes is
    /// open.
    pub closed spec fn has_group(&self, r: BufferedRoute) -> bool {
        let key = group_key(r.ingress_id, r.prefix.addr_spec() is V4, content_hash(r.attributes));
        self.groups@.contains_key(key) && attribute_octets(self.groups@[key].raw@) == r.attributes
    }

    /// Adds one stored route.
    ///
    /// Hands over the messages that are complete. Returns false once the
    /// consumer is gone; the walk should then be given up. A route whose source
    /// is not a known peer is dropped, and so is one that fits no UPDATE.
    pub fn add<S: MessageSink>(
        &mut self,
        ingress_id: IngressId,
        prefix: Prefix,
        pamap: &RotondaPaMap,
        sink: &mut S,
    ) -> (open: bool)
        requires
            old(self).wf(),
            old(self).buffered() <= old(self).budget(),
        ensures
            final(self).wf(),
            final(self).peers() == old(self).peers(),
            final(self).budget() == old(self).budget(),
            open ==> final(self).buffered() <= final(self).budget(),
            !old(self).peers().contains_key(ingress_id) ==> *final(self) == *old(self),
            ({
                let route = BufferedRoute {
                    ingress_id,
                    prefix,
                    attributes: attribute_octets(pamap@),
                };
                let added = if route_is_sent(old(self).peers(), ingress_id, prefix, pamap@) {
                    seq![route]
                } else {
                    Seq::empty()
                };
                &&& open ==> final(self).counters().0 == capped(
                    old(self).counters().0 + if old(self).peers().contains_key(ingress_id)
                        && !old(self).has_group(route) {
                        1nat
                    } else {
                        0nat
                    },
                )
                &&& exists|packs: Seq<Pack>|
                    #![trigger log_gained(
                        old(sink).handed(),
                        final(sink).handed(),
                        old(self).peers(),
                        packs,
                    )]
                    {
                        &&& log_gained(
                            old(sink).handed(),
                            final(sink).handed(),
                            old(self).peers(),
                            packs,
                        )
                        &&& answered(
                            old(sink).answers(),
                            final(sink).answers(),
                            packs.len(),
                            open,
                        )
                        &&& packed_by_add(
                            *old(self),
                            *final(self),
                            ingress_id,
                            prefix,
                            pamap@,
                            packs,
                            open,
                        )
                        &&& nothing_invented(*old(self), added, *final(self), packs)
                        &&& open ==> nothing_lost(*old(self), added, *final(self), packs)
                    }
            }),
    {
        let ghost route = BufferedRoute {
            ingress_id,
            prefix,
            attributes: attribute_octets(pamap@),
        };
        let ghost added = if route_is_sent(old(self).peers(), ingress_id, prefix, pamap@) {
            seq![route]
        } else {
            Seq::empty()
        };
        let ghost log = sink.handed();
        let peer = match self.peer_info.get(&ingress_id) {
            Some(peer) => peer.clone(),
            None => {
                proof {
                    log_gained_nothing(log, self.peer_info@);
                    answered_nothing(sink.answers());
                    assert(nothing_lost(*old(self), added, *self, Seq::empty()));
                }
                return true;
            },
        };
        let ghost packing = packed_with(old(self).open(), ingress_id, prefix, pamap@);
        let (open, Ghost(packs)) = self.pack_route(ingress_id, prefix, pamap, &peer, sink);
        if !open {
            return false;
        }
        let ghost id = group_of(ingress_id, prefix, pamap@);
        let ghost cost = (old(self).buffered() - cost_at(old(self).open(), id) + cost_at(
            packing.open,
            id,
        )) as nat;
        assert(self.buffered() == cost);
        if self.buffered_bytes <= self.max_bytes {
            proof {
                assert(packing.packs + Seq::<Pack>::empty() =~= packing.packs);
                assert(budget_kept(packing.open, cost, *self, Seq::<Pack>::empty()));
            }
            return true;
        }
        let ghost over = *self;
        let ghost mid = sink.handed();
        let ghost replies = sink.answers();
        let (open, Ghost(more)) = self.evict_until_under_budget(sink);
        proof {
            log_gained_chain(log, mid, sink.handed(), self.peer_info@, packs, more);
            answered_chain(
                old(sink).answers(),
                replies,
                sink.answers(),
                packs.len(),
                more.len(),
                open,
            );
            assert forall|r: BufferedRoute|
                #![trigger self.pending(r)]
                old(self).pending(r) + added_count(added, r) == self.pending(r) + handed_count(
                    packs + more,
                    r,
                ) by {
                handed_count_chain(packs, more, r);
                assert(over.pending(r) + added_count(Seq::empty(), r) == self.pending(r)
                    + handed_count(more, r));
                assert(old(self).pending(r) + added_count(added, r) == over.pending(r)
                    + handed_count(packs, r));
            }
            assert(nothing_lost(*old(self), added, *self, packs + more));
            if open {
                assert(budget_kept(packing.open, cost, *self, more));
            } else {
                assert(fullest_taken_out(packing.open, self.open(), more));
            }
        }
        open
    }

    /// Lets a route join its group, and hands over what is complete by it. The
    /// budget is not looked at.
    fn pack_route<S: MessageSink>(
        &mut self,
        ingress_id: IngressId,
        prefix: Prefix,
        pamap: &RotondaPaMap,
        peer: &PeerInfo,
        sink: &mut S,
    ) -> (res: (bool, Ghost<Seq<Pack>>))
        requires
            old(self).wf(),
            old(self).buffered() <= old(self).budget(),
            old(self).peers().contains_key(ingress_id),
            old(self).peers()[ingress_id] == *peer,
        ensures
            final(self).wf(),
            final(self).peers() == old(self).peers(),
            final(self).budget() == old(self).budget(),
            final(self).counters().1 == old(self).counters().1,
            log_gained(old(sink).handed(), final(sink).handed(), old(self).peers(), res.1@),
            answered(old(sink).answers(), final(sink).answers(), res.1@.len(), res.0),
            ({
                let route = BufferedRoute {
                    ingress_id,
                    prefix,
                    attributes: attribute_octets(pamap@),
                };
                let added = if route_is_sent(old(self).peers(), ingress_id, prefix, pamap@) {
                    seq![route]
                } else {
                    Seq::empty()
                };
                let id = group_of(ingress_id, prefix, pamap@);
                let packing = packed_with(old(self).open(), ingress_id, prefix, pamap@);
                &&& res.0 ==> {
                    &&& final(self).counters().0 == capped(
                        old(self).counters().0 + if old(self).has_group(route) {
                            0nat
                        } else {
                            1nat
                        },
                    )
                    &&& res.1@ == packing.packs
                    &&& final(self).open() == packing.open
                    &&& final(self).buffered() == old(self).buffered() - cost_at(
                        old(self).open(),
                        id,
                    ) + cost_at(packing.open, id)
                    &&& nothing_lost(*old(self), added, *final(self), res.1@)
                }
                &&& !res.0 ==> res.1@.len() > 0 && res.1@.is_prefix_of(packing.packs)
                &&& nothing_invented(*old(self), added, *final(self), res.1@)
            }),
    {
        let ghost route = BufferedRoute {
            ingress_id,
            prefix,
            attributes: attribute_octets(pamap@),
        };
        let ghost added = if route_is_sent(old(self).peers(), ingress_id, prefix, pamap@) {
            seq![route]
        } else {
            Seq::empty()
        };
        let ghost log = sink.handed();
        let is_v4 = prefix.is_v4();
        let blob = attribute_slice(pamap.as_ref());
        let key: u128 = make_key(ingress_id, is_v4, hash_bytes(blob));
        let nlri_len: usize = nlri_encoded_len(prefix);
        proof {
            group_key_injective(
                ingress_id,
                is_v4,
                content_hash(blob@),
                ingress_id,
                is_v4,
                content_hash(blob@),
            );
        }
        let ghost id = group_of(ingress_id, prefix, pamap@);
        let ghost packing = packed_with(old(self).open(), ingress_id, prefix, pamap@);
        let ghost way = group_in_the_way(old(self).open(), ingress_id, prefix, pamap@);
        let ghost target = group_to_join(old(self).open(), ingress_id, prefix, pamap@);
        proof {
            old(self).open_at(id);
            due_packs(old(self).open(), ingress_id, prefix, pamap@);
        }
        let (joined, Ghost(displaced)) = self.join_group(key, pamap, is_v4, blob, sink);
        assert(displaced == way);
        let mut group = match joined {
            Some(group) => group,
            None => {
                return (false, Ghost(displaced));
            },
        };
        assert(pack_from(key, group) == target);
        let ghost joined_group = group;
        let ghost mid = sink.handed();
        let ghost replies = sink.answers();
        let (open, Ghost(full)) = self.make_room(key, &mut group, nlri_len, sink);
        let ghost packs = displaced + full;
        assert(full == if is_full(target, prefix) {
            seq![target]
        } else {
            Seq::empty()
        });
        proof {
            log_gained_chain(log, mid, sink.handed(), self.peer_info@, displaced, full);
            answered_chain(
                old(sink).answers(),
                replies,
                sink.answers(),
                displaced.len(),
                full.len(),
                open,
            );
            assert forall|r: BufferedRoute| #[trigger]
                old(self).pending(r) == self.pending(r) + pack_from(key, group).count(r)
                    + handed_count(packs, r) by {
                handed_count_chain(displaced, full, r);
            }
        }
        if !open {
            return (false, Ghost(packs));
        }
        proof {
            same_attributes_same_size(is_v4, group.raw@, pamap@);
        }
        if group.is_empty() && (group.base_len > MAX_BGP_UPDATE_LEN || group.base_len + nlri_len
            > MAX_BGP_UPDATE_LEN) {
            // The attributes alone leave no room: the route goes on its own.
            let ghost mid = sink.handed();
            let ghost replies = sink.answers();
            let (open, Ghost(alone)) = self.send_alone(ingress_id, prefix, pamap, peer, sink);
            proof {
                log_gained_chain(log, mid, sink.handed(), self.peer_info@, packs, alone);
                answered_chain(
                    old(sink).answers(),
                    replies,
                    sink.answers(),
                    packs.len(),
                    alone.len(),
                    open,
                );
                added_one(route);
                assert forall|r: BufferedRoute|
                    #![trigger self.pending(r)]
                    old(self).pending(r) + added_count(added, r) == self.pending(r) + handed_count(
                        packs + alone,
                        r,
                    ) by {
                    handed_count_chain(packs, alone, r);
                    assert(old(self).pending(r) == self.pending(r) + handed_count(packs, r));
                }
                assert(nothing_lost(*old(self), added, *self, packs + alone));
                Self::open_without(*old(self), *self, id);
                assert(packs + alone == packing.packs);
            }
            return (open, Ghost(packs + alone));
        }
        let ghost held = group;
        let ghost unfiled = *self;
        group.push(prefix, nlri_len);
        self.put_group(key, group);
        proof {
            added_one(route);
            assert(group.prefixes@.drop_last() =~= held.prefixes@);
            assert forall|r: BufferedRoute|
                #![trigger self.pending(r)]
                old(self).pending(r) + added_count(added, r) == self.pending(r) + handed_count(
                    packs,
                    r,
                ) by {
                assert(old(self).pending(r) == unfiled.pending(r) + pack_from(key, held).count(r)
                    + handed_count(packs, r));
                assert(self.pack_of(key) == pack_from(key, group));
                assert(pack_from(key, group).count(r) == pack_from(key, held).count(r)
                    + added_count(added, r));
            }
            assert(nothing_lost(*old(self), added, *self, packs));
            Self::open_without(*old(self), unfiled, id);
            Self::open_with(unfiled, *self, id, group);
            assert(packing.packs == packs);
            assert(packing.open =~= self.open());
        }
        (true, Ghost(packs))
    }

    /// Takes the group that a route joins out of the buffer, or opens one. A
    /// group of other attributes with the same hash makes way.
    fn join_group<S: MessageSink>(
        &mut self,
        key: u128,
        pamap: &RotondaPaMap,
        is_v4: bool,
        blob: &[u8],
        sink: &mut S,
    ) -> (res: (Option<AggGroup>, Ghost<Seq<Pack>>))
        requires
            old(self).wf(),
            blob@ == attribute_octets(pamap@),
            key == group_key(key_source(key), is_v4, content_hash(blob@)),
            key / 0x2_0000_0000_0000_0000 <= u32::MAX,
            old(self).peer_info@.contains_key(key_source(key)),
        ensures
            final(self).wf(),
            final(self).groups@ == old(self).groups@.remove(key),
            final(self).peer_info == old(self).peer_info,
            final(self).max_bytes == old(self).max_bytes,
            final(self).buffered_bytes + (if old(self).groups@.contains_key(key) {
                old(self).groups@[key].spec_cost()
            } else {
                0
            }) == old(self).buffered_bytes,
            final(self).counters().1 == old(self).counters().1,
            log_gained(old(sink).handed(), final(sink).handed(), old(self).peers(), res.1@),
            answered(old(sink).answers(), final(sink).answers(), res.1@.len(), res.0 is Some),
            ({
                let there = old(self).groups@.contains_key(key);
                let same = there && attribute_octets(old(self).groups@[key].raw@) == blob@;
                &&& res.0 matches Some(g) ==> pack_from(key, g) == if same {
                    old(self).pack_of(key)
                } else {
                    Pack {
                        ingress_id: key_source(key),
                        is_v4,
                        raw: pamap@,
                        prefixes: Seq::empty(),
                    }
                }
                &&& res.1@ == if there && !same {
                    seq![old(self).pack_of(key)]
                } else {
                    Seq::empty()
                }
                &&& res.0 is None ==> there && !same
            }),
            match res.0 {
                Some(g) => {
                    &&& g.wf()
                    &&& g.is_v4 == is_v4
                    &&& attribute_octets(g.raw@) == blob@
                    &&& final(self).counters().0 == capped(
                        old(self).counters().0 + if old(self).groups@.contains_key(key)
                            && attribute_octets(old(self).groups@[key].raw@) == blob@ {
                            0nat
                        } else {
                            1nat
                        },
                    )
                    &&& forall|r: BufferedRoute| #[trigger]
                        old(self).pending(r) == final(self).pending(r) + pack_from(key, g).count(r)
                            + handed_count(res.1@, r)
                },
                None => forall|r: BufferedRoute| #[trigger]
                    old(self).pending(r) == final(self).pending(r) + handed_count(res.1@, r),
            },
    {
        let ghost log = sink.handed();
        proof {
            log_gained_nothing(log, self.peer_info@);
            answered_nothing(sink.answers());
        }
        match self.take_group(key) {
            Some(g) => {
                let ghost pack = old(self).pack_of(key);
                assert(pack == pack_from(key, g));
                proof {
                    group_key_injective(
                        key_source(key),
                        is_v4,
                        content_hash(blob@),
                        key_source(key),
                        g.is_v4,
                        content_hash(attribute_octets(g.raw@)),
                    );
                }
                if same_bytes(g.blob(), blob) {
                    return (Some(g), Ghost(Seq::empty()));
                }
                let open = self.hand_over(key, &g, sink);
                let ghost packs = Seq::<Pack>::empty().push(pack);
                proof {
                    assert(packs =~= seq![pack]);
                    answered_one_more(old(sink).answers(), old(sink).answers(), 0, open);
                    log_gained_push(
                        log,
                        log,
                        sink.handed(),
                        self.peer_info@,
                        Seq::empty(),
                        pack,
                    );
                    assert forall|r: BufferedRoute| #[trigger]
                        old(self).pending(r) == self.pending(r) + handed_count(packs, r) by {
                        assert(handed_count(packs, r) == pack.count(r));
                    }
                }
                if !open {
                    return (None, Ghost(packs));
                }
                self.count_group();
                let group = AggGroup::new(pamap, is_v4);
                assert(group.prefixes@ =~= Seq::empty());
                (Some(group), Ghost(packs))
            },
            None => {
                self.count_group();
                let group = AggGroup::new(pamap, is_v4);
                assert(group.prefixes@ =~= Seq::empty());
                (Some(group), Ghost(Seq::empty()))
            },
        }
    }

    /// Hands over a group that has no room for one more prefix of this size,
    /// and empties it. Its attributes stay.
    fn make_room<S: MessageSink>(
        &self,
        key: u128,
        group: &mut AggGroup,
        nlri_len: usize,
        sink: &mut S,
    ) -> (res: (bool, Ghost<Seq<Pack>>))
        requires
            old(group).wf(),
            nlri_len <= 17,
            key / 0x2_0000_0000_0000_0000 <= u32::MAX,
            self.peer_info@.contains_key(key_source(key)),
        ensures
            final(group).wf(),
            final(group).raw == old(group).raw,
            final(group).is_v4 == old(group).is_v4,
            final(group).base_len == old(group).base_len,
            final(group).prefixes@.len() > 0 ==> final(group).base_len + final(group).nlri_total
                + nlri_len <= MAX_BGP_UPDATE_LEN,
            ({
                let full = old(group).prefixes@.len() > 0 && old(group).base_len
                    + old(group).nlri_total + nlri_len > MAX_BGP_UPDATE_LEN;
                &&& res.1@ == if full {
                    seq![pack_from(key, *old(group))]
                } else {
                    Seq::empty()
                }
                &&& final(group).prefixes@ == if full {
                    Seq::empty()
                } else {
                    old(group).prefixes@
                }
                &&& !full ==> res.0
            }),
            log_gained(old(sink).handed(), final(sink).handed(), self.peers(), res.1@),
            answered(old(sink).answers(), final(sink).answers(), res.1@.len(), res.0),
            forall|r: BufferedRoute|
                #![trigger handed_count(res.1@, r)]
                pack_from(key, *old(group)).count(r) == pack_from(key, *final(group)).count(r)
                    + handed_count(res.1@, r),
    {
        proof {
            log_gained_nothing(sink.handed(), self.peer_info@);
            answered_nothing(sink.answers());
        }
        if group.is_empty() || group.base_len + group.nlri_total + nlri_len <= MAX_BGP_UPDATE_LEN {
            return (true, Ghost(Seq::empty()));
        }
        let ghost log = sink.handed();
        let ghost pack = pack_from(key, *group);
        let open = self.hand_over(key, group, sink);
        proof {
            log_gained_push(log, log, sink.handed(), self.peer_info@, Seq::empty(), pack);
            answered_one_more(old(sink).answers(), old(sink).answers(), 0, open);
        }
        group.reset_prefixes();
        assert(group.prefixes@ =~= Seq::empty());
        assert(Seq::<Pack>::empty().push(pack) =~= seq![pack]);
        (open, Ghost(Seq::empty().push(pack)))
    }

    /// Hands over a route on its own, if it fits an UPDATE at all.
    fn send_alone<S: MessageSink>(
        &self,
        ingress_id: IngressId,
        prefix: Prefix,
        pamap: &RotondaPaMap,
        peer: &PeerInfo,
        sink: &mut S,
    ) -> (res: (bool, Ghost<Seq<Pack>>))
        requires
            self.peer_info@.contains_key(ingress_id),
            self.peer_info@[ingress_id] == *peer,
            packed_base_len(prefix.addr_spec() is V4, pamap@) + nlri(prefix).len()
                > MAX_BGP_UPDATE_LEN,
        ensures
            log_gained(old(sink).handed(), final(sink).handed(), self.peers(), res.1@),
            answered(old(sink).answers(), final(sink).answers(), res.1@.len(), res.0),
            res.1@ == if bgp_update(prefix, pamap@, false) is Some {
                seq![
                    Pack {
                        ingress_id,
                        is_v4: prefix.addr_spec() is V4,
                        raw: pamap@,
                        prefixes: seq![prefix],
                    },
                ]
            } else {
                Seq::empty()
            },
            forall|r: BufferedRoute| #[trigger]
                handed_count(res.1@, r) == if bgp_update(prefix, pamap@, false) is Some && r == (
                BufferedRoute { ingress_id, prefix, attributes: attribute_octets(pamap@) }) {
                    1nat
                } else {
                    0nat
                },
            bgp_update(prefix, pamap@, false) is None ==> res.0,
    {
        proof {
            log_gained_nothing(sink.handed(), self.peer_info@);
            answered_nothing(sink.answers());
        }
        let t = Timestamp::now();
        match build_route_monitoring_at(peer, prefix, pamap, false, t) {
            Some(msg) => {
                let ghost log = sink.handed();
                let open = sink.deliver(msg, 1);
                let ghost pack = Pack {
                    ingress_id,
                    is_v4: prefix.addr_spec() is V4,
                    raw: pamap@,
                    prefixes: seq![prefix],
                };
                proof {
                    reveal(Pack::becomes);
                    reveal(Pack::becomes_for);
                    nlris_one(prefix);
                    occurrences_one(prefix);
                    assert(t.wf());
                    assert(sink.handed().drop_last() =~= log);
                    assert(pack.becomes(self.peer_info@, sink.handed().last()));
                    log_gained_push(log, log, sink.handed(), self.peer_info@, Seq::empty(), pack);
                    assert(Seq::<Pack>::empty().push(pack) =~= seq![pack]);
                    answered_one_more(old(sink).answers(), old(sink).answers(), 0, open);
                }
                (open, Ghost(Seq::empty().push(pack)))
            },
            None => (true, Ghost(Seq::empty())),
        }
    }

    /// Counts a group that was opened.
    fn count_group(&mut self)
        requires
            old(self).wf(),
        ensures
            final(self).wf(),
            final(self).groups == old(self).groups,
            final(self).peer_info == old(self).peer_info,
            final(self).buffered_bytes == old(self).buffered_bytes,
            final(self).max_bytes == old(self).max_bytes,
            final(self).counters().0 == capped(old(self).counters().0 + 1),
            final(self).counters().1 == old(self).counters().1,
            forall|r: BufferedRoute| #[trigger] final(self).pending(r) == old(self).pending(r),
    {
        self.groups_created = self.groups_created.saturating_add(1);
        proof {
            reveal(RouteAggregator::pending);
        }
        assert forall|k: u128| #[trigger] self.groups@.contains_key(k) implies self.filed(k) by {
            assert(old(self).filed(k));
        }
    }
}

/// The packs that are due when a route is added come in order.
proof fn due_packs(
    open: Map<GroupId, Pack>,
    ingress_id: IngressId,
    prefix: Prefix,
    raw: Seq<u8>,
)
    ensures
        ({
            let way = group_in_the_way(open, ingress_id, prefix, raw);
            let group = group_to_join(open, ingress_id, prefix, raw);
            let full = if is_full(group, prefix) {
                seq![group]
            } else {
                Seq::empty()
            };
            let due = packed_with(open, ingress_id, prefix, raw).packs;
            way.is_prefix_of(due) && (way + full).is_prefix_of(due)
        }),
{
}

/// Routes with the same path attributes take the same room.
proof fn same_attributes_same_size(is_v4: bool, a: Seq<u8>, b: Seq<u8>)
    ensures
        attribute_octets(a) == attribute_octets(b) ==> packed_base_len(is_v4, a)
            == packed_base_len(is_v4, b),
{
}

proof fn added_one(r: BufferedRoute)
    ensures
        forall|o: BufferedRoute| #[trigger]
            added_count(seq![r], o) == if o == r {
                1nat
            } else {
                0nat
            },
{
    reveal_with_fuel(added_count, 2);
    assert(seq![r].drop_last() =~= Seq::empty());
}

proof fn occurrences_one(p: Prefix)
    ensures
        forall|o: Prefix| #[trigger]
            occurrences(seq![p], o) == if o == p {
                1nat
            } else {
                0nat
            },
{
    reveal_with_fuel(occurrences, 2);
    assert(seq![p].drop_last() =~= Seq::empty());
}

proof fn nlris_one(p: Prefix)
    ensures
        nlris(seq![p]) == nlri(p),
{
    reveal_with_fuel(nlris, 2);
    assert(seq![p].drop_last() =~= Seq::empty());
    assert(nlris(Seq::<Prefix>::empty()) + nlri(p) =~= nlri(p));
}

proof fn handed_count_chain(a: Seq<Pack>, b: Seq<Pack>, r: BufferedRoute)
    ensures
        handed_count(a + b, r) == handed_count(a, r) + handed_count(b, r),
    decreases b.len(),
{
    if b.len() == 0 {
        assert(a + b =~= a);
    } else {
        assert((a + b).drop_last() =~= a + b.drop_last());
        handed_count_chain(a, b.drop_last(), r);
    }
}

proof fn log_gained_chain(
    before: Seq<(Seq<u8>, nat)>,
    mid: Seq<(Seq<u8>, nat)>,
    after: Seq<(Seq<u8>, nat)>,
    peers: Map<IngressId, PeerInfo>,
    a: Seq<Pack>,
    b: Seq<Pack>,
)
    requires
        log_gained(before, mid, peers, a),
        log_gained(mid, after, peers, b),
    ensures
        log_gained(before, after, peers, a + b),
{
    assert(after.take(before.len() as int) =~= mid.take(before.len() as int));
    assert forall|i: int| 0 <= i < (a + b).len() implies (#[trigger] (a + b)[i]).becomes(
        peers,
        after[before.len() + i],
    ) by {
        if i < a.len() {
            assert(a[i].becomes(peers, mid[before.len() + i]));
            assert(after.take(mid.len() as int)[before.len() + i] == after[before.len() + i]);
        } else {
            assert(b[i - a.len()].becomes(peers, after[mid.len() + (i - a.len())]));
        }
    }
}

//------------ Laws ----------------------------------------------------------

proof fn added_count_chain(a: Seq<BufferedRoute>, b: Seq<BufferedRoute>, r: BufferedRoute)
    ensures
        added_count(a + b, r) == added_count(a, r) + added_count(b, r),
    decreases b.len(),
{
    if b.len() == 0 {
        assert(a + b =~= a);
    } else {
        assert((a + b).drop_last() =~= a + b.drop_last());
        added_count_chain(a, b.drop_last(), r);
    }
}

/// Steps that lose nothing lose nothing together.
pub proof fn steps_lose_nothing(
    first: RouteAggregator,
    added1: Seq<BufferedRoute>,
    packs1: Seq<Pack>,
    second: RouteAggregator,
    added2: Seq<BufferedRoute>,
    packs2: Seq<Pack>,
    third: RouteAggregator,
)
    requires
        nothing_lost(first, added1, second, packs1),
        nothing_lost(second, added2, third, packs2),
    ensures
        nothing_lost(first, added1 + added2, third, packs1 + packs2),
{
    assert forall|r: BufferedRoute|
        #![trigger third.pending(r)]
        first.pending(r) + added_count(added1 + added2, r) == third.pending(r) + handed_count(
            packs1 + packs2,
            r,
        ) by {
        added_count_chain(added1, added2, r);
        handed_count_chain(packs1, packs2, r);
        assert(first.pending(r) + added_count(added1, r) == second.pending(r) + handed_count(
            packs1,
            r,
        ));
    }
}

/// A walk that starts with an empty aggregator and ends with a flush hands over
/// each route exactly as often as it was added.
pub proof fn each_route_is_handed_over_once(
    start: RouteAggregator,
    added: Seq<BufferedRoute>,
    packs: Seq<Pack>,
    end: RouteAggregator,
)
    requires
        nothing_lost(start, added, end, packs),
        forall|r: BufferedRoute| #[trigger] start.pending(r) == 0,
        forall|r: BufferedRoute| #[trigger] end.pending(r) == 0,
    ensures
        forall|r: BufferedRoute| #[trigger] handed_count(packs, r) == added_count(added, r),
{
    assert forall|r: BufferedRoute| #[trigger] handed_count(packs, r) == added_count(added, r) by {
        assert(start.pending(r) + added_count(added, r) == end.pending(r) + handed_count(packs, r));
    }
}

/// The routes of a pack, one for each of its prefixes.
pub open spec fn pack_routes(pack: Pack) -> Seq<BufferedRoute> {
    pack.prefixes.map_values(
        |prefix: Prefix|
            BufferedRoute {
                ingress_id: pack.ingress_id,
                prefix,
                attributes: attribute_octets(pack.raw),
            },
    )
}

/// The routes of packs, in order.
pub open spec fn routes_in(packs: Seq<Pack>) -> Seq<BufferedRoute>
    decreases packs.len(),
{
    if packs.len() == 0 {
        Seq::empty()
    } else {
        routes_in(packs.drop_last()) + pack_routes(packs.last())
    }
}

/// How often a route occurs is its number in the multiset.
proof fn added_count_is_multiplicity(added: Seq<BufferedRoute>, r: BufferedRoute)
    ensures
        added.to_multiset().count(r) == added_count(added, r),
    decreases added.len(),
{
    added.to_multiset_ensures();
    if added.len() > 0 {
        let init = added.drop_last();
        added_count_is_multiplicity(init, r);
        init.to_multiset_ensures();
        assert(added =~= init.push(added.last()));
    } else {
        assert(added =~= Seq::empty());
    }
}

proof fn pack_count_is_multiplicity(pack: Pack, r: BufferedRoute)
    ensures
        added_count(pack_routes(pack), r) == pack.count(r),
    decreases pack.prefixes.len(),
{
    if pack.prefixes.len() > 0 {
        let fewer = Pack { prefixes: pack.prefixes.drop_last(), ..pack };
        pack_count_is_multiplicity(fewer, r);
        assert(pack_routes(pack).drop_last() =~= pack_routes(fewer));
    }
}

proof fn handed_count_is_multiplicity(packs: Seq<Pack>, r: BufferedRoute)
    ensures
        added_count(routes_in(packs), r) == handed_count(packs, r),
    decreases packs.len(),
{
    if packs.len() > 0 {
        handed_count_is_multiplicity(packs.drop_last(), r);
        pack_count_is_multiplicity(packs.last(), r);
        added_count_chain(routes_in(packs.drop_last()), pack_routes(packs.last()), r);
    }
}

/// One call of `add` or `flush_all`: what was added by it, the packs that it
/// handed over, what the consumer had answered before and after it, and its
/// answer.
pub struct PackingStep {
    pub before: RouteAggregator,
    pub after: RouteAggregator,
    pub added: Seq<BufferedRoute>,
    pub packs: Seq<Pack>,
    pub answers_before: Seq<bool>,
    pub answers_after: Seq<bool>,
    pub open: bool,
}

impl PackingStep {
    /// What the calls ensure of such a step.
    pub open spec fn took_place(self) -> bool {
        &&& answered(self.answers_before, self.answers_after, self.packs.len(), self.open)
        &&& self.open ==> nothing_lost(self.before, self.added, self.after, self.packs)
    }
}

/// Whether steps took place one after the other.
pub open spec fn in_a_row(steps: Seq<PackingStep>) -> bool {
    &&& forall|i: int| 0 <= i < steps.len() ==> (#[trigger] steps[i]).took_place()
    &&& forall|i: int, j: int|
        #![trigger steps[i], steps[j]]
        0 <= i && j == i + 1 && j < steps.len() ==> steps[j].before == steps[i].after
            && steps[j].answers_before == steps[i].answers_after
}

/// The routes that were added in steps.
pub open spec fn all_added(steps: Seq<PackingStep>) -> Seq<BufferedRoute>
    decreases steps.len(),
{
    if steps.len() == 0 {
        Seq::empty()
    } else {
        all_added(steps.drop_last()) + steps.last().added
    }
}

/// The packs that were handed over in steps.
pub open spec fn all_packs(steps: Seq<PackingStep>) -> Seq<Pack>
    decreases steps.len(),
{
    if steps.len() == 0 {
        Seq::empty()
    } else {
        all_packs(steps.drop_last()) + steps.last().packs
    }
}

/// A call whose deliveries were all accepted answers that the consumer is
/// there.
pub proof fn open_unless_refused(before: Seq<bool>, after: Seq<bool>, count: nat, open: bool)
    requires
        answered(before, after, count, open),
        never_refused(before, after),
    ensures
        open,
{
    if count > 0 {
        assert(after[after.len() - 1]);
    }
}

proof fn steps_stay_open(steps: Seq<PackingStep>)
    requires
        steps.len() > 0,
        in_a_row(steps),
        never_refused(steps[0].answers_before, steps.last().answers_after),
    ensures
        nothing_lost(steps[0].before, all_added(steps), steps.last().after, all_packs(steps)),
        steps[0].answers_before.len() <= steps.last().answers_after.len(),
    decreases steps.len(),
{
    let last = steps.last();
    assert(steps[steps.len() - 1].took_place());
    let init = steps.drop_last();
    let none = Seq::<Pack>::empty();
    let nobody = Seq::<BufferedRoute>::empty();
    if init.len() == 0 {
        open_unless_refused(
            last.answers_before,
            last.answers_after,
            last.packs.len(),
            last.open,
        );
        assert(all_added(init) == nobody && all_packs(init) == none);
        assert(nobody + last.added =~= last.added);
        assert(none + last.packs =~= last.packs);
    } else {
        assert(steps[steps.len() - 2] == init.last());
        assert(last.answers_before == init.last().answers_after);
        assert forall|i: int, j: int|
            #![trigger init[i], init[j]]
            0 <= i && j == i + 1 && j < init.len() implies init[j].before == init[i].after
            && init[j].answers_before == init[i].answers_after by {
            assert(init[i] == steps[i] && init[j] == steps[j]);
        }
        assert forall|i: int| 0 <= i < init.len() implies (#[trigger] init[i]).took_place() by {
            assert(init[i] == steps[i]);
        }
        let start = steps[0].answers_before;
        assert forall|i: int| start.len() <= i < last.answers_before.len() implies
            #[trigger] last.answers_before[i] by {
            assert(last.answers_after.take(last.answers_before.len() as int)[i]
                == last.answers_before[i]);
            assert(last.answers_after[i]);
        }
        assert(init[0] == steps[0]);
        steps_stay_open(init);
        open_unless_refused(
            last.answers_before,
            last.answers_after,
            last.packs.len(),
            last.open,
        );
        steps_lose_nothing(
            steps[0].before,
            all_added(init),
            all_packs(init),
            last.before,
            last.added,
            last.packs,
            last.after,
        );
    }
}

/// With a consumer that never refuses a delivery, the routes that are handed
/// over by any calls of `add` that start with an empty aggregator, and a flush
/// at the end, are as a multiset exactly those that were added, however small
/// the budget.
pub proof fn all_routes_reach_a_consumer_that_stays(steps: Seq<PackingStep>)
    requires
        steps.len() > 0,
        in_a_row(steps),
        never_refused(steps[0].answers_before, steps.last().answers_after),
        forall|r: BufferedRoute| #[trigger] steps[0].before.pending(r) == 0,
        forall|r: BufferedRoute| #[trigger] steps.last().after.pending(r) == 0,
    ensures
        routes_in(all_packs(steps)).to_multiset() == all_added(steps).to_multiset(),
{
    let added = all_added(steps);
    let packs = all_packs(steps);
    steps_stay_open(steps);
    each_route_is_handed_over_once(steps[0].before, added, packs, steps.last().after);
    assert forall|r: BufferedRoute|
        routes_in(packs).to_multiset().count(r) == added.to_multiset().count(r) by {
        added_count_is_multiplicity(routes_in(packs), r);
        added_count_is_multiplicity(added, r);
        handed_count_is_multiplicity(packs, r);
        assert(handed_count(packs, r) == added_count(added, r));
    }
    assert(routes_in(packs).to_multiset() =~= added.to_multiset());
}

/// A flush of an aggregator without open groups hands over nothing; so does a
/// second flush.
pub proof fn nothing_is_flushed_twice(packs: Seq<Pack>, open: bool)
    requires
        all_taken_out(Map::empty(), packs, open),
    ensures
        packs.len() == 0,
{
    let (after, ids) = choose|after: Map<GroupId, Pack>, ids: Seq<GroupId>| #[trigger]
        taken_out(Map::empty(), after, ids, packs) && (open ==> after == Map::<
            GroupId,
            Pack,
        >::empty());
    if packs.len() > 0 {
        assert(Map::<GroupId, Pack>::empty().contains_key(ids[0]));
    }
}

impl RouteAggregator {
    /// A route waits as often as the open group of its source, family and path
    /// attributes holds it, and there is a group for it exactly where one with
    /// its path attributes is open.
    pub proof fn routes_wait_in_their_group(&self, r: BufferedRoute, raw: Seq<u8>)
        requires
            attribute_octets(raw) == r.attributes,
        ensures
            ({
                let id = group_of(r.ingress_id, r.prefix, raw);
                let there = self.open().contains_key(id);
                let same = attribute_octets(self.open()[id].raw) == attribute_octets(raw);
                &&& self.has_group(r) <==> there && same
                &&& self.pending(r) == if there && same && self.open()[id].ingress_id
                    == r.ingress_id {
                    occurrences(self.open()[id].prefixes, r.prefix)
                } else {
                    0
                }
            }),
    {
        self.open_at(group_of(r.ingress_id, r.prefix, raw));
        reveal(RouteAggregator::pending);
    }

    /// What is buffered is the sum of what the open groups are charged. Each of
    /// them holds a prefix, belongs to a known peer and is filed under its
    /// source, family and path attributes, and its UPDATE is within the size
    /// limit.
    pub proof fn charges_add_up(&self)
        requires
            self.wf(),
        ensures
            self.open().dom().finite(),
            self.open().dom().len() == self.open_groups(),
            self.buffered() == total(self.open().map_values(|pack: Pack| pack_cost(pack))),
            forall|id: GroupId| #[trigger]
                self.open().contains_key(id) ==> {
                    let pack = self.open()[id];
                    &&& pack.prefixes.len() > 0
                    &&& packed_base_len(pack.is_v4, pack.raw) + nlris(pack.prefixes).len()
                        <= MAX_BGP_UPDATE_LEN
                    &&& id == (pack.ingress_id, pack.is_v4, content_hash(
                        attribute_octets(pack.raw),
                    ))
                    &&& self.peers().contains_key(pack.ingress_id)
                },
    {
        let groups = self.groups@;
        let open = self.open();
        let costs = open.map_values(|pack: Pack| pack_cost(pack));
        let f = |key: u128|
            (
                key_source(key),
                groups[key].is_v4,
                content_hash(attribute_octets(groups[key].raw@)),
            );
        assert forall|id: GroupId| #[trigger] open.contains_key(id) implies {
            let key = group_key(id.0, id.1, id.2);
            &&& groups.contains_key(key)
            &&& f(key) == id
            &&& open[id] == self.pack_of(key)
            &&& self.filed(key)
        } by {
            self.open_at(id);
            let key = group_key(id.0, id.1, id.2);
            assert(self.filed(key));
            let other = f(key);
            group_key_injective(id.0, id.1, id.2, other.0, other.1, other.2);
        }
        assert forall|key: u128| #[trigger] groups.contains_key(key) implies open.contains_key(
            f(key),
        ) && open[f(key)] == self.pack_of(key) && key == group_key(
            f(key).0,
            f(key).1,
            f(key).2,
        ) by {
            assert(self.filed(key));
            self.open_at(f(key));
        }
        let charges = group_costs(groups);
        assert(charges.dom() =~= groups.dom());
        assert(costs.dom() =~= open.dom());
        assert forall|key: u128| #[trigger] charges.contains_key(key) implies costs.contains_key(
            f(key),
        ) && costs[f(key)] == charges[key] by {
            assert(groups.contains_key(key));
        }
        assert forall|id: GroupId| #[trigger] costs.contains_key(id) implies exists|key: u128|
            #[trigger] charges.contains_key(key) && f(key) == id by {
            assert(open.contains_key(id));
            assert(charges.contains_key(group_key(id.0, id.1, id.2)));
        }
        assert forall|j: u128, k: u128|
            #![trigger charges.contains_key(j), charges.contains_key(k)]
            charges.contains_key(j) && charges.contains_key(k) && f(j) == f(k) implies j == k by {
            assert(groups.contains_key(j) && groups.contains_key(k));
        }
        total_rekeyed(charges, costs, f);
        assert forall|id: GroupId| #[trigger] open.contains_key(id) implies packed_base_len(
            open[id].is_v4,
            open[id].raw,
        ) + nlris(open[id].prefixes).len() <= MAX_BGP_UPDATE_LEN && open[id].prefixes.len() > 0
            && self.peers().contains_key(open[id].ingress_id) && id == (
            open[id].ingress_id,
            open[id].is_v4,
            content_hash(attribute_octets(open[id].raw)),
        ) by {
            assert(self.filed(group_key(id.0, id.1, id.2)));
        }
    }
}

/// Packing a single IPv4 prefix, with whatever next hop, gives the UPDATE that
/// announces it on its own.
pub proof fn packing_one_gives_the_plain_update(
    peer: PeerInfo,
    t: Timestamp,
    raw: Seq<u8>,
    next_hop: Option<Seq<u8>>,
    prefix: Prefix,
)
    requires
        prefix.addr_spec() is V4,
        packed_base_len(true, raw) + nlri(prefix).len() <= u16::MAX,
    ensures
        bgp_update(prefix, raw, false) == Some(
            peer_message(
                BMP_MSG_ROUTE_MONITORING,
                peer,
                t,
                bgp_message(
                    BGP_MSG_UPDATE,
                    packed_body(true, plain_attributes(raw), next_hop, seq![prefix]),
                ),
            ).skip(48),
        ),
        route_monitoring(peer, t, prefix, raw, false) == Some(
            packed_message(peer, t, true, raw, seq![prefix]),
        ),
{
    nlris_one(prefix);
    let body = packed_body(true, plain_attributes(raw), next_hop, seq![prefix]);
    packed_len(true, raw, seq![prefix]);
    peer_message_layout(BMP_MSG_ROUTE_MONITORING, peer, t, bgp_message(BGP_MSG_UPDATE, body));
}

/// A message with more than one prefix carries an UPDATE within the size limit,
/// and so does one with a single prefix where the packed form fits; the
/// UPDATE's length field states its true size.
pub proof fn packed_updates_fit(
    peers: Map<IngressId, PeerInfo>,
    pack: Pack,
    msg: (Seq<u8>, nat),
)
    requires
        pack.becomes(peers, msg),
    ensures
        msg.1 == pack.prefixes.len(),
        msg.1 > 1 || packed_base_len(pack.is_v4, pack.raw) + nlris(pack.prefixes).len()
            <= MAX_BGP_UPDATE_LEN ==> {
            let update = msg.0.skip(48);
            &&& update.len() <= MAX_BGP_UPDATE_LEN
            &&& update == bgp_message(
                BGP_MSG_UPDATE,
                packed_body(
                    pack.is_v4,
                    plain_attributes(pack.raw),
                    recovered_next_hop(pack.raw),
                    pack.prefixes,
                ),
            )
            &&& from_be16(update[16], update[17]) == update.len()
        },
{
    reveal(Pack::becomes);
    reveal(Pack::becomes_for);
    if msg.1 > 1 || packed_base_len(pack.is_v4, pack.raw) + nlris(pack.prefixes).len()
        <= MAX_BGP_UPDATE_LEN {
        let body = packed_body(
            pack.is_v4,
            plain_attributes(pack.raw),
            recovered_next_hop(pack.raw),
            pack.prefixes,
        );
        let t = choose|t: Timestamp|
            #![trigger t.wf()]
            t.wf() && msg.0 == packed_message(
                peers[pack.ingress_id],
                t,
                pack.is_v4,
                pack.raw,
                pack.prefixes,
            );
        packed_len(pack.is_v4, pack.raw, pack.prefixes);
        bgp_message_layout(BGP_MSG_UPDATE, body);
        peer_message_layout(
            BMP_MSG_ROUTE_MONITORING,
            peers[pack.ingress_id],
            t,
            bgp_message(BGP_MSG_UPDATE, body),
        );
    }
}

} // verus!
