//! Construction of BMP messages (RFC 7854) octet by octet.
use crate::ingress::{copy_text, IngressId, IngressInfo, PeerRibType};
use crate::net::{
    prefix_by_parts, prefix_is_valid, AfiSafiType, Asn, IpAddr, PeerType, Prefix,
};
use crate::payload::{attribute_octets, RotondaPaMap, RotondaRoute, MP_UNREACH_NLRI};
use crate::text::{escape_json_string, escaped, opt_str, opt_text, same_text};
use crate::wire::{
    be128, be128_value, be16, be32, be32_value, be64, be64_injective, from_be16, low16, low32,
    low_octets_are_zero, octets_value, push_bytes, push_u128, push_u16, push_u32, push_zeros,
    read_u16,
};
use std::collections::hash_map::DefaultHasher;
use std::hash::Hasher;
use vstd::arithmetic::div_mod::{lemma_mod_mod, lemma_small_mod};
use vstd::arithmetic::power2::{lemma_pow2_adds, lemma_pow2_pos, pow2};
use vstd::prelude::*;
use vstd::std_specs::hash::*;
use vstd::string::*;
use vstd::utf8::encode_utf8;

verus! {

// BMP message types (RFC 7854 section 4.1)
pub const BMP_MSG_ROUTE_MONITORING: u8 = 0;

pub const BMP_MSG_STATISTICS_REPORT: u8 = 1;

pub const BMP_MSG_PEER_DOWN: u8 = 2;

pub const BMP_MSG_PEER_UP: u8 = 3;

pub const BMP_MSG_INITIATION: u8 = 4;

pub const BMP_MSG_TERMINATION: u8 = 5;

pub const BMP_VERSION: u8 = 3;

/// The size of the header of every BMP message.
pub const BMP_COMMON_HEADER_LEN: usize = 6;

/// The size of the header that attributes a message to a peer.
pub const BMP_PER_PEER_HEADER_LEN: usize = 42;

pub const BMP_INIT_TLV_SYS_DESCR: u16 = 1;

pub const BMP_INIT_TLV_SYS_NAME: u16 = 2;

pub const BMP_TERM_TLV_REASON: u16 = 0;

/// The TLV with which a Peer Up carries an administrative label (RFC 9736).
pub const BMP_PEER_UP_TLV_ADMIN_LABEL: u16 = 4;

pub const BMP_PEER_DOWN_REASON_REMOTE_NO_NOTIFICATION: u8 = 4;

pub const BGP_MSG_OPEN: u8 = 1;

pub const BGP_MSG_UPDATE: u8 = 2;

/// The type of the MP_REACH_NLRI path attribute.
pub const MP_REACH_NLRI: u8 = 14;

/// The largest BGP UPDATE that the aggregating builder makes (RFC 4271
/// section 4). It stays within the classic limit so that consumers that did
/// not negotiate extended messages accept the feed.
pub const MAX_BGP_UPDATE_LEN: usize = 4096;

//------------ Path attributes in wire format --------------------------------

/// The size of the header of a path attribute with these flags.
pub open spec fn attr_header_len(flags: u8) -> nat {
    if flags & 0x10 != 0 {
        4
    } else {
        3
    }
}

/// The size of the path attribute that the octets start with, if they hold it
/// whole.
pub open spec fn first_attr_len(b: Seq<u8>) -> Option<nat> {
    if b.len() < 2 || b.len() < attr_header_len(b[0]) {
        None
    } else {
        let value_len = if b[0] & 0x10 != 0 {
            from_be16(b[2], b[3])
        } else {
            b[2] as nat
        };
        let len = attr_header_len(b[0]) + value_len;
        if len > b.len() {
            None
        } else {
            Some(len)
        }
    }
}

/// The path attributes that the octets hold, up to the first that is cut
/// short.
pub open spec fn attributes(b: Seq<u8>) -> Seq<Seq<u8>>
    decreases b.len(),
{
    match first_attr_len(b) {
        Some(n) => seq![b.take(n as int)] + attributes(b.skip(n as int)),
        None => Seq::empty(),
    }
}

/// The type of a path attribute.
pub open spec fn attr_type(attr: Seq<u8>) -> u8 {
    attr[1]
}

/// The value of a path attribute.
pub open spec fn attr_value(attr: Seq<u8>) -> Seq<u8> {
    attr.skip(attr_header_len(attr[0]) as int)
}

/// Whether a path attribute carries NLRI, reachable or not.
pub open spec fn carries_nlri(attr: Seq<u8>) -> bool {
    attr_type(attr) == MP_REACH_NLRI || attr_type(attr) == MP_UNREACH_NLRI
}

/// The path attributes in a row.
pub open spec fn joined(attrs: Seq<Seq<u8>>) -> Seq<u8>
    decreases attrs.len(),
{
    if attrs.len() == 0 {
        Seq::empty()
    } else {
        joined(attrs.drop_last()) + attrs.last()
    }
}

/// The path attributes that carry no NLRI.
pub open spec fn without_nlri(attrs: Seq<Seq<u8>>) -> Seq<Seq<u8>>
    decreases attrs.len(),
{
    if attrs.len() == 0 {
        Seq::empty()
    } else if carries_nlri(attrs.last()) {
        without_nlri(attrs.drop_last())
    } else {
        without_nlri(attrs.drop_last()).push(attrs.last())
    }
}

/// The next hop in the value of an MP_REACH_NLRI attribute: AFI (2 octets),
/// SAFI (1), length (1), next hop.
pub open spec fn next_hop_in(value: Seq<u8>) -> Option<Seq<u8>> {
    if value.len() >= 4 && value.len() >= 4 + value[3] {
        Some(value.subrange(4, 4 + value[3]))
    } else {
        None
    }
}

/// The next hop of the last MP_REACH_NLRI attribute that holds one.
pub open spec fn mp_next_hop(attrs: Seq<Seq<u8>>) -> Option<Seq<u8>>
    decreases attrs.len(),
{
    if attrs.len() == 0 {
        None
    } else if attr_type(attrs.last()) == MP_REACH_NLRI && next_hop_in(
        attr_value(attrs.last()),
    ) is Some {
        next_hop_in(attr_value(attrs.last()))
    } else {
        mp_next_hop(attrs.drop_last())
    }
}

/// The path attributes of stored octets that carry no NLRI, in a row.
pub open spec fn plain_attributes(raw: Seq<u8>) -> Seq<u8> {
    joined(without_nlri(attributes(attribute_octets(raw))))
}

/// The next hop that the path attributes of stored octets give for
/// MP_REACH_NLRI.
pub open spec fn recovered_next_hop(raw: Seq<u8>) -> Option<Seq<u8>> {
    mp_next_hop(attributes(attribute_octets(raw)))
}

proof fn attributes_unfold(b: Seq<u8>, done: Seq<Seq<u8>>, pos: int, n: nat)
    requires
        0 <= pos <= b.len(),
        attributes(b) == done + attributes(b.skip(pos)),
        first_attr_len(b.skip(pos)) == Some(n),
    ensures
        pos + n <= b.len(),
        n >= 3,
        b.skip(pos).take(n as int) == b.subrange(pos, pos + n),
        attributes(b) == done.push(b.subrange(pos, pos + n)) + attributes(b.skip(pos + n)),
{
    assert(b.skip(pos).take(n as int) =~= b.subrange(pos, pos + n));
    assert(b.skip(pos).skip(n as int) =~= b.skip(pos + n));
    assert(done + (seq![b.subrange(pos, pos + n)] + attributes(b.skip(pos + n))) =~= done.push(
        b.subrange(pos, pos + n),
    ) + attributes(b.skip(pos + n)));
}

/// The optional octets as a sequence.
pub open spec fn opt_octets(o: Option<Vec<u8>>) -> Option<Seq<u8>> {
    match o {
        Some(v) => Some(v@),
        None => None,
    }
}

/// Separates the stored octets of a route into the path attributes that carry
/// no NLRI and the next hop of the MP_REACH_NLRI among them.
pub fn filter_pa_from_raw(raw: &[u8]) -> (res: (Vec<u8>, Option<Vec<u8>>))
    ensures
        res.0@ == plain_attributes(raw@),
        opt_octets(res.1) == recovered_next_hop(raw@),
{
    if raw.len() < 2 {
        proof {
            assert(attributes(attribute_octets(raw@)) =~= Seq::empty());
        }
        return (Vec::new(), None);
    }
    let pa_blob = vstd::slice::slice_subrange(raw, 2, raw.len());
    let mut result: Vec<u8> = Vec::new();
    let mut next_hop: Option<Vec<u8>> = None;
    let mut pos: usize = 0;
    let ghost mut done: Seq<Seq<u8>> = Seq::empty();
    let mut more = true;
    proof {
        assert(pa_blob@ =~= attribute_octets(raw@));
        assert(pa_blob@.skip(0) =~= pa_blob@);
        assert(done + attributes(pa_blob@) =~= attributes(pa_blob@));
    }
    while more
        invariant
            pos <= pa_blob@.len(),
            attributes(pa_blob@) == done + attributes(pa_blob@.skip(pos as int)),
            result@ == joined(without_nlri(done)),
            opt_octets(next_hop) == mp_next_hop(done),
            !more ==> first_attr_len(pa_blob@.skip(pos as int)) is None,
        decreases pa_blob@.len() - pos, (if more { 1int } else { 0int }),
    {
        let left: usize = pa_blob.len() - pos;
        let ghost rest = pa_blob@.skip(pos as int);
        if left < 2 {
            more = false;
            continue ;
        }
        let flags: u8 = pa_blob[pos];
        let type_code: u8 = pa_blob[pos + 1];
        let header_len: usize = if flags & 0x10 != 0 {
            4
        } else {
            3
        };
        if left < header_len {
            more = false;
            continue ;
        }
        let attr_len: usize = if flags & 0x10 != 0 {
            read_u16(pa_blob[pos + 2], pa_blob[pos + 3]) as usize
        } else {
            pa_blob[pos + 2] as usize
        };
        let total_attr_len: usize = header_len + attr_len;
        if left < total_attr_len {
            more = false;
            continue ;
        }
        let end: usize = pos + total_attr_len;
        let attr = vstd::slice::slice_subrange(pa_blob, pos, end);
        proof {
            assert(first_attr_len(rest) == Some(total_attr_len as nat));
            attributes_unfold(pa_blob@, done, pos as int, total_attr_len as nat);
            assert(done.push(attr@).drop_last() =~= done);
        }
        if type_code == MP_REACH_NLRI {
            let value = vstd::slice::slice_subrange(attr, header_len, total_attr_len);
            assert(value@ =~= attr_value(attr@));
            if value.len() >= 4 {
                let nh_len: usize = value[3] as usize;
                if value.len() >= 4 + nh_len {
                    let nh = vstd::slice::slice_subrange(value, 4, 4 + nh_len);
                    next_hop = Some(vstd::slice::slice_to_vec(nh));
                }
            }
        } else if type_code != MP_UNREACH_NLRI {
            push_bytes(&mut result, attr);
            assert(without_nlri(done.push(attr@)).drop_last() =~= without_nlri(done));
        }
        proof {
            done = done.push(attr@);
        }
        pos = end;
    }
    proof {
        assert(attributes(pa_blob@.skip(pos as int)) =~= Seq::empty());
        assert(done + attributes(pa_blob@.skip(pos as int)) =~= done);
    }
    (result, next_hop)
}

/// Separates the path attributes of a route into those that carry no NLRI and
/// the next hop of the MP_REACH_NLRI among them.
pub fn filter_raw_path_attributes(pamap: &RotondaPaMap) -> (res: (Vec<u8>, Option<Vec<u8>>))
    ensures
        res.0@ == plain_attributes(pamap@),
        opt_octets(res.1) == recovered_next_hop(pamap@),
{
    filter_pa_from_raw(pamap.as_ref())
}

/// Whether each entry is one whole path attribute.
pub open spec fn whole_attributes(attrs: Seq<Seq<u8>>) -> bool {
    forall|i: int|
        0 <= i < attrs.len() ==> first_attr_len(#[trigger] attrs[i]) == Some(attrs[i].len())
}

pub(crate) proof fn attributes_are_whole(b: Seq<u8>)
    ensures
        whole_attributes(attributes(b)),
    decreases b.len(),
{
    match first_attr_len(b) {
        Some(n) => {
            let rest = attributes(b.skip(n as int));
            attributes_are_whole(b.skip(n as int));
            assert forall|i: int| 0 <= i < attributes(b).len() implies first_attr_len(
                #[trigger] attributes(b)[i],
            ) == Some(attributes(b)[i].len()) by {
                if i > 0 {
                    assert(attributes(b)[i] == rest[i - 1]);
                }
            }
        },
        None => {},
    }
}

proof fn joined_one(a: Seq<u8>)
    ensures
        joined(seq![a]) == a,
{
    assert(seq![a].drop_last() =~= Seq::<Seq<u8>>::empty());
    assert(joined(Seq::<Seq<u8>>::empty()) + a =~= a);
}

proof fn joined_append(a: Seq<Seq<u8>>, b: Seq<Seq<u8>>)
    ensures
        joined(a + b) == joined(a) + joined(b),
    decreases b.len(),
{
    if b.len() == 0 {
        assert(a + b =~= a);
        assert(joined(a) + joined(b) =~= joined(a));
    } else {
        joined_append(a, b.drop_last());
        assert((a + b).drop_last() =~= a + b.drop_last());
        assert((joined(a) + joined(b.drop_last())) + b.last() =~= joined(a) + (joined(
            b.drop_last(),
        ) + b.last()));
    }
}

/// Whole path attributes in a row are read back one by one.
pub proof fn joined_attributes_parse(attrs: Seq<Seq<u8>>)
    requires
        whole_attributes(attrs),
    ensures
        attributes(joined(attrs)) == attrs,
    decreases attrs.len(),
{
    if attrs.len() == 0 {
        assert(attributes(joined(attrs)) =~= attrs);
    } else {
        let head = attrs[0];
        let tail = attrs.skip(1);
        assert(first_attr_len(attrs[0]) == Some(head.len()));
        assert(attrs =~= seq![head] + tail);
        joined_append(seq![head], tail);
        joined_one(head);
        assert forall|i: int| 0 <= i < tail.len() implies first_attr_len(#[trigger] tail[i])
            == Some(tail[i].len()) by {
            assert(tail[i] == attrs[i + 1]);
        }
        joined_attributes_parse(tail);
        let all = joined(attrs);
        assert(all == head + joined(tail));
        assert(first_attr_len(all) == Some(head.len()));
        assert(all.take(head.len() as int) =~= head);
        assert(all.skip(head.len() as int) =~= joined(tail));
    }
}

pub(crate) proof fn without_nlri_facts(attrs: Seq<Seq<u8>>)
    requires
        whole_attributes(attrs),
    ensures
        whole_attributes(without_nlri(attrs)),
        forall|i: int|
            0 <= i < without_nlri(attrs).len() ==> !carries_nlri(
                #[trigger] without_nlri(attrs)[i],
            ),
        joined(without_nlri(attrs)).len() <= joined(attrs).len(),
    decreases attrs.len(),
{
    if attrs.len() > 0 {
        let init = attrs.drop_last();
        assert forall|i: int| 0 <= i < init.len() implies first_attr_len(#[trigger] init[i])
            == Some(init[i].len()) by {
            assert(init[i] == attrs[i]);
        }
        without_nlri_facts(init);
        assert(first_attr_len(attrs[attrs.len() - 1]) == Some(attrs.last().len()));
        if !carries_nlri(attrs.last()) {
            assert(without_nlri(attrs).drop_last() =~= without_nlri(init));
        }
    }
}

proof fn joined_within(b: Seq<u8>)
    ensures
        joined(attributes(b)).len() <= b.len(),
    decreases b.len(),
{
    match first_attr_len(b) {
        Some(n) => {
            let head = seq![b.take(n as int)];
            let rest = attributes(b.skip(n as int));
            joined_within(b.skip(n as int));
            joined_append(head, rest);
            joined_one(b.take(n as int));
        },
        None => {},
    }
}

/// The filtered path attributes are exactly the attributes of the route that
/// carry no NLRI, in their order; none of them is an MP_REACH_NLRI or an
/// MP_UNREACH_NLRI; and they take no more room than the stored octets.
pub proof fn plain_attributes_parse(raw: Seq<u8>)
    ensures
        attributes(plain_attributes(raw)) == without_nlri(attributes(attribute_octets(raw))),
        forall|i: int|
            0 <= i < attributes(plain_attributes(raw)).len() ==> !carries_nlri(
                #[trigger] attributes(plain_attributes(raw))[i],
            ),
        plain_attributes(raw).len() <= attribute_octets(raw).len(),
{
    let attrs = attributes(attribute_octets(raw));
    attributes_are_whole(attribute_octets(raw));
    without_nlri_facts(attrs);
    joined_attributes_parse(without_nlri(attrs));
    joined_within(attribute_octets(raw));
}

/// A recovered next hop takes at most 255 octets.
pub proof fn recovered_next_hop_is_short(raw: Seq<u8>)
    ensures
        recovered_next_hop(raw) matches Some(nh) ==> nh.len() <= 255,
{
    mp_next_hop_is_short(attributes(attribute_octets(raw)));
}

proof fn mp_next_hop_is_short(attrs: Seq<Seq<u8>>)
    ensures
        mp_next_hop(attrs) matches Some(nh) ==> nh.len() <= 255,
    decreases attrs.len(),
{
    if attrs.len() > 0 {
        mp_next_hop_is_short(attrs.drop_last());
    }
}

//------------ Timestamp -----------------------------------------------------

/// The moment that a per-peer header carries.
#[derive(Clone, Copy, Debug, PartialEq, Eq, Structural)]
pub struct Timestamp {
    /// Seconds since the Unix epoch, reduced to 32 bits.
    pub secs: u32,
    /// Microseconds within the second.
    pub micros: u32,
}

/// The moment at a time since the Unix epoch, or the epoch itself where there
/// is none.
pub open spec fn timestamp_of(since_epoch: Option<(u64, u32)>) -> Timestamp {
    match since_epoch {
        Some((secs, nanos)) => Timestamp { secs: low32(secs as nat), micros: nanos / 1000 },
        None => Timestamp { secs: 0, micros: 0 },
    }
}

/// `SystemTime::elapsed` on the Unix epoch: the time since then in whole
/// seconds and further nanoseconds, or nothing if the clock is set before it.
#[verifier::external_body]
fn clock_since_epoch() -> (t: Option<(u64, u32)>)
    ensures
        t matches Some(p) ==> p.1 < 1_000_000_000,
{
    match std::time::UNIX_EPOCH.elapsed() {
        Ok(d) => Some((d.as_secs(), d.subsec_nanos())),
        Err(_) => None,
    }
}

impl Timestamp {
    /// The microseconds stay below one second.
    pub open spec fn wf(self) -> bool {
        self.micros < 1_000_000
    }

    /// The moment at a time since the Unix epoch.
    pub fn from_clock(since_epoch: Option<(u64, u32)>) -> (t: Self)
        ensures
            t == timestamp_of(since_epoch),
    {
        match since_epoch {
            Some((secs, nanos)) => Timestamp {
                secs: (secs % 0x1_0000_0000) as u32,
                micros: nanos / 1000,
            },
            None => Timestamp { secs: 0, micros: 0 },
        }
    }

    /// The present moment.
    pub fn now() -> (t: Self)
        ensures
            t.wf(),
    {
        Timestamp::from_clock(clock_since_epoch())
    }
}

//------------ PeerInfo ------------------------------------------------------

/// What the messages about a peer say of it.
#[derive(Debug)]
pub struct PeerInfo {
    pub peer_type: PeerType,
    pub peer_flags: u8,
    pub peer_distinguisher: [u8; 8],
    pub peer_address: IpAddr,
    pub peer_asn: Asn,
    pub peer_bgp_id: [u8; 4],
    pub admin_label: Option<String>,
}

impl Clone for PeerInfo {
    fn clone(&self) -> (copy: Self)
        ensures
            copy == *self,
    {
        PeerInfo {
            peer_type: self.peer_type,
            peer_flags: self.peer_flags,
            peer_distinguisher: self.peer_distinguisher,
            peer_address: self.peer_address,
            peer_asn: self.peer_asn,
            peer_bgp_id: self.peer_bgp_id,
            admin_label: copy_text(&self.admin_label),
        }
    }
}

/// The peer flags (RFC 7854 section 4.2, RFC 8671): V (0x80) for an IPv6 peer
/// address, L (0x40) for post-policy, O (0x10) for Adj-RIB-Out. A source that
/// does not say which RIB it reports counts as post-policy Adj-RIB-In.
pub open spec fn peer_flags_of(address: IpAddr, rib: Option<PeerRibType>) -> u8 {
    let v: int = if address is V6 {
        0x80
    } else {
        0
    };
    let lo: int = match rib {
        Some(PeerRibType::InPost) => 0x40,
        Some(PeerRibType::InPre) => 0,
        Some(PeerRibType::OutPost) => 0x50,
        Some(PeerRibType::OutPre) => 0x10,
        Some(PeerRibType::Loc) => 0x40,
        None => 0x40,
    };
    (v + lo) as u8
}

/// The distinguisher of a peer without route distinguisher or VRF.
pub open spec fn zero_distinguisher() -> Seq<u8> {
    Seq::new(8, |i: int| 0u8)
}

/// What is said of a peer whose source this is.
pub open spec fn describes(peer: PeerInfo, info: IngressInfo) -> bool {
    let address = match info.remote_addr {
        Some(a) => a,
        None => IpAddr::V4(0),
    };
    &&& peer.peer_type == match info.peer_type {
        Some(t) => t,
        None => PeerType::GlobalInstance,
    }
    &&& peer.peer_flags == peer_flags_of(address, info.peer_rib_type)
    &&& peer.peer_address == address
    &&& peer.peer_asn == match info.remote_asn {
        Some(asn) => asn,
        None => Asn(0),
    }
    &&& peer.peer_bgp_id@ == Seq::new(4, |i: int| 0u8)
}

/// The distinguisher that a source came with.
pub open spec fn inbound_distinguisher(info: IngressInfo) -> Seq<u8> {
    match info.distinguisher {
        Some(d) => d@,
        None => zero_distinguisher(),
    }
}

/// A distinguisher after stamping: a zero one is replaced by the tag, any
/// other is a real route distinguisher and stays.
pub open spec fn stamped(distinguisher: Seq<u8>, tag: Seq<u8>) -> Seq<u8> {
    if distinguisher == zero_distinguisher() {
        tag
    } else {
        distinguisher
    }
}

impl PeerInfo {
    /// What is said of a peer whose source this is.
    pub fn from_ingress_info(info: &IngressInfo) -> (peer: Self)
        ensures
            describes(peer, *info),
            peer.peer_distinguisher@ == inbound_distinguisher(*info),
            peer.admin_label is None,
    {
        let peer_type = match info.peer_type {
            Some(t) => t,
            None => PeerType::GlobalInstance,
        };
        let peer_address = match info.remote_addr {
            Some(a) => a,
            None => IpAddr::V4(0),
        };
        let peer_asn = match info.remote_asn {
            Some(asn) => asn,
            None => Asn::from_u32(0),
        };
        let peer_distinguisher = match info.distinguisher {
            Some(d) => d,
            None => [0u8; 8],
        };
        let v: u8 = if peer_address.is_ipv6() {
            0x80
        } else {
            0
        };
        let lo: u8 = match info.peer_rib_type {
            Some(PeerRibType::InPost) => 0x40,
            Some(PeerRibType::InPre) => 0,
            Some(PeerRibType::OutPost) => 0x50,
            Some(PeerRibType::OutPre) => 0x10,
            Some(PeerRibType::Loc) | None => 0x40,
        };
        let peer = PeerInfo {
            peer_type,
            peer_flags: v + lo,
            peer_distinguisher,
            peer_address,
            peer_asn,
            peer_bgp_id: [0u8; 4],
            admin_label: None,
        };
        assert(peer.peer_bgp_id@ =~= Seq::new(4, |i: int| 0u8));
        assert(info.distinguisher is None ==> peer.peer_distinguisher@ =~= zero_distinguisher());
        peer
    }

    /// Stamps the fan-in tag where the peer has no route distinguisher.
    ///
    /// Two upstream routers can each have a session with the same neighbor.
    /// The tag tells the two apart where their messages share one stream. A
    /// distinguisher that is not zero is a real one and stays.
    pub fn apply_fan_in_distinguisher(&mut self, tag: [u8; 8])
        ensures
            final(self).peer_distinguisher@ == stamped(old(self).peer_distinguisher@, tag@),
            *final(self) == (PeerInfo {
                peer_distinguisher: final(self).peer_distinguisher,
                ..*old(self)
            }),
    {
        let mut i: usize = 0;
        while i < 8
            invariant
                i <= 8,
                *self == *old(self),
                forall|j: int| 0 <= j < i ==> self.peer_distinguisher@[j] == 0,
            decreases 8 - i,
        {
            if self.peer_distinguisher[i] != 0 {
                assert(self.peer_distinguisher@ != zero_distinguisher()) by {
                    assert(zero_distinguisher()[i as int] == 0);
                }
                return ;
            }
            i += 1;
        }
        assert(self.peer_distinguisher@ =~= zero_distinguisher());
        self.peer_distinguisher = tag;
    }
}

//------------ Fan-in tag ----------------------------------------------------

/// The four octets of a number, least significant first.
pub open spec fn le32(n: u32) -> Seq<u8> {
    be32(n).reverse()
}

/// The hash from which the fan-in tag of a router is made.
pub open spec fn fan_in_hash(parent_ingress_id: IngressId) -> u64 {
    DefaultHasher::spec_finish(
        seq!["rotonda:bmp-out:fan-in:v1".spec_bytes(), le32(parent_ingress_id)],
    )
}

/// The fan-in tag of a router: its hash, or one where the hash is zero.
pub open spec fn fan_in_tag(parent_ingress_id: IngressId) -> Seq<u8> {
    let v = fan_in_hash(parent_ingress_id);
    be64(
        if v == 0 {
            1
        } else {
            v
        },
    )
}

/// Derives the fan-in tag of the given upstream router.
///
/// The tag is a function of the identifier alone, so that it stays the same
/// over reconnects and runs, and it is never zero.
pub fn fan_in_distinguisher_tag(parent_ingress_id: IngressId) -> (tag: [u8; 8])
    ensures
        tag@ == fan_in_tag(parent_ingress_id),
        tag@ != zero_distinguisher(),
{
    let mut hasher = DefaultHasher::new();
    // A prefix of its own keeps this hash apart from other uses of the number.
    hasher.write("rotonda:bmp-out:fan-in:v1".as_bytes());
    let n: u32 = parent_ingress_id;
    let id: [u8; 4] = [
        (n % 0x100) as u8,
        (n / 0x100 % 0x100) as u8,
        (n / 0x1_0000 % 0x100) as u8,
        (n / 0x100_0000) as u8,
    ];
    assert(id@ =~= le32(n));
    hasher.write(id.as_slice());
    assert(hasher@ =~= seq!["rotonda:bmp-out:fan-in:v1".spec_bytes(), le32(n)]);
    let hash: u64 = hasher.finish();
    let v: u64 = if hash == 0 {
        1
    } else {
        hash
    };
    let tag = u64_octets(v);
    proof {
        fan_in_tag_is_not_zero(n);
    }
    tag
}

/// A fan-in tag is never zero, so that it cannot be taken for the distinguisher
/// of a peer without one.
pub proof fn fan_in_tag_is_not_zero(parent_ingress_id: IngressId)
    ensures
        fan_in_tag(parent_ingress_id) != zero_distinguisher(),
{
    assert(be64(0) =~= zero_distinguisher());
    let v = fan_in_hash(parent_ingress_id);
    be64_injective(0, if v == 0 { 1 } else { v });
}

/// Two routers have different tags, unless their hashes are the same or are
/// zero and one.
pub proof fn fan_in_tags_differ(a: IngressId, b: IngressId)
    ensures
        fan_in_hash(a) != fan_in_hash(b) && (fan_in_hash(a) > 1 || fan_in_hash(b) > 1)
            ==> fan_in_tag(a) != fan_in_tag(b),
{
    let v = fan_in_hash(a);
    let w = fan_in_hash(b);
    be64_injective(
        if v == 0 {
            1
        } else {
            v
        },
        if w == 0 {
            1
        } else {
            w
        },
    );
}

/// The octets of a number in network order.
fn u64_octets(n: u64) -> (octets: [u8; 8])
    ensures
        octets@ == be64(n),
{
    let hi: u32 = (n / 0x1_0000_0000) as u32;
    let lo: u32 = (n % 0x1_0000_0000) as u32;
    let octets: [u8; 8] = [
        (hi / 0x100_0000) as u8,
        (hi / 0x1_0000 % 0x100) as u8,
        (hi / 0x100 % 0x100) as u8,
        (hi % 0x100) as u8,
        (lo / 0x100_0000) as u8,
        (lo / 0x1_0000 % 0x100) as u8,
        (lo / 0x100 % 0x100) as u8,
        (lo % 0x100) as u8,
    ];
    assert(octets@ =~= be64(n));
    octets
}

//------------ Headers -------------------------------------------------------

/// The common header of a BMP message of the given size.
pub open spec fn common_header(msg_type: u8, total_len: nat) -> Seq<u8> {
    seq![BMP_VERSION] + be32(low32(total_len)) + seq![msg_type]
}

/// The sixteen octets that stand for an address: an IPv4 address is preceded
/// by zeros.
pub open spec fn address_field(address: IpAddr) -> Seq<u8> {
    match address {
        IpAddr::V4(a) => Seq::new(12, |i: int| 0u8) + be32(a),
        IpAddr::V6(a) => be128(a),
    }
}

/// The per-peer header of a message.
pub open spec fn per_peer_header(peer: PeerInfo, t: Timestamp) -> Seq<u8> {
    seq![peer.peer_type.code(), peer.peer_flags] + peer.peer_distinguisher@ + address_field(
        peer.peer_address,
    ) + be32(peer.peer_asn.0) + peer.peer_bgp_id@ + be32(t.secs) + be32(t.micros)
}

/// A BMP message about a peer.
pub open spec fn peer_message(msg_type: u8, peer: PeerInfo, t: Timestamp, body: Seq<u8>) -> Seq<
    u8,
> {
    common_header(msg_type, 48 + body.len()) + per_peer_header(peer, t) + body
}

/// A message about a peer starts with its type, its true size and the peer's
/// header, which takes 42 octets, whatever the type: all messages about one
/// peer carry the same distinguisher.
pub proof fn peer_message_layout(msg_type: u8, peer: PeerInfo, t: Timestamp, body: Seq<u8>)
    ensures
        ({
            let msg = peer_message(msg_type, peer, t, body);
            &&& msg.len() == BMP_COMMON_HEADER_LEN + BMP_PER_PEER_HEADER_LEN + body.len()
            &&& msg[0] == BMP_VERSION
            &&& msg.subrange(1, 5) == be32(low32(msg.len()))
            &&& msg[5] == msg_type
            &&& msg.subrange(6, 48) == per_peer_header(peer, t)
            &&& msg.subrange(8, 16) == peer.peer_distinguisher@
            &&& msg.skip(48) == body
        }),
{
    let msg = peer_message(msg_type, peer, t, body);
    let pph = per_peer_header(peer, t);
    assert(address_field(peer.peer_address).len() == 16);
    assert(pph.len() == 42);
    assert(msg.subrange(1, 5) =~= be32(low32(msg.len())));
    assert(msg.subrange(6, 48) =~= pph);
    assert(msg.subrange(8, 16) =~= peer.peer_distinguisher@);
    assert(msg.skip(48) =~= body);
}

/// The headers of messages about a peer differ in the time alone, which comes
/// last.
pub proof fn same_header_but_time(peer: PeerInfo, t: Timestamp, u: Timestamp)
    ensures
        per_peer_header(peer, t).len() == BMP_PER_PEER_HEADER_LEN,
        per_peer_header(peer, u).len() == BMP_PER_PEER_HEADER_LEN,
        per_peer_header(peer, t).take(34) == per_peer_header(peer, u).take(34),
{
    assert(address_field(peer.peer_address).len() == 16);
    assert(per_peer_header(peer, t).take(34) =~= per_peer_header(peer, u).take(34));
}

/// Appends the common header of a message.
fn write_common_header(buf: &mut Vec<u8>, msg_type: u8, total_len: usize)
    ensures
        final(buf)@ == old(buf)@ + common_header(msg_type, total_len as nat),
{
    buf.push(BMP_VERSION);
    push_u32(buf, (total_len as u64 % 0x1_0000_0000) as u32);
    buf.push(msg_type);
    assert(buf@ =~= old(buf)@ + common_header(msg_type, total_len as nat));
}

/// Appends the header that attributes a message to a peer.
fn write_per_peer_header(buf: &mut Vec<u8>, peer: &PeerInfo, t: Timestamp)
    ensures
        final(buf)@ == old(buf)@ + per_peer_header(*peer, t),
{
    buf.push(peer.peer_type.to_u8());
    buf.push(peer.peer_flags);
    push_bytes(buf, peer.peer_distinguisher.as_slice());
    match peer.peer_address {
        IpAddr::V4(v4) => {
            push_zeros(buf, 12);
            push_u32(buf, v4);
        },
        IpAddr::V6(v6) => {
            push_u128(buf, v6);
        },
    }
    push_u32(buf, peer.peer_asn.into_u32());
    push_bytes(buf, peer.peer_bgp_id.as_slice());
    push_u32(buf, t.secs);
    push_u32(buf, t.micros);
    assert(buf@ =~= old(buf)@ + per_peer_header(*peer, t));
}

/// Makes a message about a peer.
fn build_peer_message(msg_type: u8, peer: &PeerInfo, t: Timestamp, body: &[u8]) -> (msg: Vec<u8>)
    requires
        body@.len() <= usize::MAX - 48,
    ensures
        msg@ == peer_message(msg_type, *peer, t, body@),
{
    let total_len: usize = BMP_COMMON_HEADER_LEN + BMP_PER_PEER_HEADER_LEN + body.len();
    let mut buf: Vec<u8> = Vec::with_capacity(total_len);
    write_common_header(&mut buf, msg_type, total_len);
    write_per_peer_header(&mut buf, peer, t);
    push_bytes(&mut buf, body);
    assert(buf@ =~= peer_message(msg_type, *peer, t, body@));
    buf
}

//------------ NLRI ----------------------------------------------------------

/// The octets of an address in network order.
pub open spec fn address_octets(address: IpAddr) -> Seq<u8> {
    match address {
        IpAddr::V4(a) => be32(a),
        IpAddr::V6(a) => be128(a),
    }
}

/// The number of octets that hold the significant bits of a prefix.
pub open spec fn significant_octets(prefix: Prefix) -> nat {
    ((prefix.len_spec() + 7) / 8) as nat
}

/// A prefix as NLRI: its length and the octets that hold its significant bits.
pub open spec fn nlri(prefix: Prefix) -> Seq<u8> {
    seq![prefix.len_spec()] + address_octets(prefix.addr_spec()).take(
        significant_octets(prefix) as int,
    )
}

/// Prefixes as NLRI, in a row.
pub open spec fn nlris(prefixes: Seq<Prefix>) -> Seq<u8>
    decreases prefixes.len(),
{
    if prefixes.len() == 0 {
        Seq::empty()
    } else {
        nlris(prefixes.drop_last()) + nlri(prefixes.last())
    }
}

/// The octets of an address stand for it.
pub(crate) proof fn address_value(address: IpAddr)
    ensures
        octets_value(address_octets(address)) == address.number(),
        address_octets(address).len() * 8 == address.width(),
{
    match address {
        IpAddr::V4(a) => be32_value(a),
        IpAddr::V6(a) => be128_value(a),
    }
}

/// The octets of a prefix that its NLRI leaves out are zero.
pub(crate) proof fn left_out_octets_are_zero(p: Prefix)
    requires
        p.wf(),
    ensures
        significant_octets(p) <= address_octets(p.addr_spec()).len(),
        forall|i: int|
            significant_octets(p) <= i < address_octets(p.addr_spec()).len()
                ==> #[trigger] address_octets(p.addr_spec())[i] == 0,
{
    let octets = address_octets(p.addr_spec());
    let n = p.addr_spec().number();
    let k = significant_octets(p);
    prefix_is_valid(p);
    address_value(p.addr_spec());
    let m = (octets.len() - k) as nat;
    let host = (p.addr_spec().width() - p.len_spec()) as nat;
    let rest = (host - 8 * m) as nat;
    lemma_pow2_adds(8 * m, rest);
    lemma_pow2_pos(8 * m);
    lemma_pow2_pos(rest);
    assert(8 * m + rest == host);
    assert(n % pow2(8 * m) == 0) by {
        lemma_mod_mod(n as int, pow2(8 * m) as int, pow2(rest) as int);
        lemma_small_mod(0, pow2(8 * m));
    }
    low_octets_are_zero(octets, m);
}

/// NLRI determine their prefix: two prefixes of a family with the same NLRI are
/// the same.
pub proof fn nlri_determines_prefix(a: Prefix, b: Prefix)
    requires
        a.wf(),
        b.wf(),
        a.addr_spec() is V4 == b.addr_spec() is V4,
        nlri(a) == nlri(b),
    ensures
        a == b,
{
    let x = address_octets(a.addr_spec());
    let y = address_octets(b.addr_spec());
    left_out_octets_are_zero(a);
    left_out_octets_are_zero(b);
    address_value(a.addr_spec());
    address_value(b.addr_spec());
    assert(nlri(a)[0] == a.len_spec() && nlri(b)[0] == b.len_spec());
    assert forall|i: int| 0 <= i < x.len() implies x[i] == y[i] by {
        if i < significant_octets(a) {
            assert(nlri(a)[i + 1] == x[i]);
            assert(nlri(b)[i + 1] == y[i]);
        }
    }
    assert(x =~= y);
    prefix_by_parts(a, b);
}

proof fn nlris_from_the_front(p: Prefix, rest: Seq<Prefix>)
    ensures
        nlris(seq![p] + rest) == nlri(p) + nlris(rest),
    decreases rest.len(),
{
    let all = seq![p] + rest;
    if rest.len() == 0 {
        assert(all.drop_last() =~= Seq::empty());
        assert(all.last() == p);
        assert(nlris(all.drop_last()) =~= Seq::empty());
        assert(nlris(all) =~= nlri(p) + nlris(rest));
    } else {
        nlris_from_the_front(p, rest.drop_last());
        assert(all.drop_last() =~= seq![p] + rest.drop_last());
        assert(nlris(all) =~= nlri(p) + nlris(rest));
    }
}

/// What comes first among NLRI is determined by them, and so is what is left.
proof fn first_nlri_is_determined(a: Prefix, rest: Seq<u8>, b: Prefix, left: Seq<u8>)
    requires
        a.wf(),
        b.wf(),
        a.addr_spec() is V4 == b.addr_spec() is V4,
        nlri(a) + rest == nlri(b) + left,
    ensures
        a == b,
        rest == left,
{
    left_out_octets_are_zero(a);
    left_out_octets_are_zero(b);
    let all = nlri(a) + rest;
    assert(all[0] == a.len_spec());
    assert(all[0] == b.len_spec());
    let n = nlri(a).len() as int;
    assert(n == nlri(b).len());
    assert(all.take(n) =~= nlri(a));
    assert(all.take(n) =~= nlri(b));
    assert(all.skip(n) =~= rest);
    assert(all.skip(n) =~= left);
    nlri_determines_prefix(a, b);
}

/// NLRI in a row can be told apart: if two rows of prefixes of a family have
/// the same NLRI, the rows are the same.
pub proof fn nlris_determine_prefixes(v4: bool, a: Seq<Prefix>, b: Seq<Prefix>)
    requires
        forall|i: int| 0 <= i < a.len() ==> (#[trigger] a[i]).wf() && a[i].addr_spec() is V4 == v4,
        forall|i: int| 0 <= i < b.len() ==> (#[trigger] b[i]).wf() && b[i].addr_spec() is V4 == v4,
        nlris(a) == nlris(b),
    ensures
        a == b,
    decreases a.len(),
{
    if a.len() > 0 {
        assert(a =~= seq![a[0]] + a.skip(1));
        nlris_from_the_front(a[0], a.skip(1));
    }
    if b.len() > 0 {
        assert(b =~= seq![b[0]] + b.skip(1));
        nlris_from_the_front(b[0], b.skip(1));
    }
    if a.len() > 0 && b.len() > 0 {
        first_nlri_is_determined(a[0], nlris(a.skip(1)), b[0], nlris(b.skip(1)));
        nlris_determine_prefixes(v4, a.skip(1), b.skip(1));
    } else {
        assert(a.len() == 0 && b.len() == 0);
        assert(a =~= b);
    }
}

/// The address family number of a prefix.
pub open spec fn afi_of(prefix: Prefix) -> u16 {
    if prefix.addr_spec() is V4 {
        1
    } else {
        2
    }
}

/// Appends a prefix as NLRI.
fn append_prefix_nlri(buf: &mut Vec<u8>, prefix: Prefix)
    ensures
        final(buf)@ == old(buf)@ + nlri(prefix),
        nlri(prefix).len() == 1 + significant_octets(prefix),
        significant_octets(prefix) <= 16,
{
    let prefix_len: u8 = prefix.len();
    let num_bytes: usize = (prefix_len as usize + 7) / 8;
    let mut octets: Vec<u8> = Vec::with_capacity(16);
    match prefix.addr() {
        IpAddr::V4(v4) => push_u32(&mut octets, v4),
        IpAddr::V6(v6) => push_u128(&mut octets, v6),
    }
    assert(octets@ =~= address_octets(prefix.addr_spec()));
    buf.push(prefix_len);
    push_bytes(buf, vstd::slice::slice_subrange(octets.as_slice(), 0, num_bytes));
    assert(buf@ =~= old(buf)@ + nlri(prefix));
}

/// A prefix as NLRI.
pub fn encode_prefix_nlri(prefix: Prefix) -> (buf: Vec<u8>)
    ensures
        buf@ == nlri(prefix),
        buf@.len() == 1 + significant_octets(prefix),
        buf@.len() <= 17,
{
    let mut buf: Vec<u8> = Vec::new();
    append_prefix_nlri(&mut buf, prefix);
    assert(buf@ =~= nlri(prefix));
    buf
}

/// The size of a prefix as NLRI.
pub fn nlri_encoded_len(prefix: Prefix) -> (len: usize)
    ensures
        len == nlri(prefix).len(),
        len <= 17,
{
    let prefix_len: usize = prefix.len() as usize;
    assert(address_octets(prefix.addr_spec()).len() * 8 == prefix.addr_spec().width());
    1 + (prefix_len + 7) / 8
}

//------------ BGP messages --------------------------------------------------

/// The marker that every BGP message starts with.
pub open spec fn bgp_marker() -> Seq<u8> {
    Seq::new(16, |i: int| 0xffu8)
}

/// A BGP message with the given body.
pub open spec fn bgp_message(msg_type: u8, body: Seq<u8>) -> Seq<u8> {
    bgp_marker() + be16(low16(19 + body.len())) + seq![msg_type] + body
}

/// A BGP message that fits the length field states its true size.
pub proof fn bgp_message_layout(msg_type: u8, body: Seq<u8>)
    requires
        19 + body.len() <= u16::MAX,
    ensures
        ({
            let msg = bgp_message(msg_type, body);
            &&& msg.len() == 19 + body.len()
            &&& msg.take(16) == bgp_marker()
            &&& from_be16(msg[16], msg[17]) == msg.len()
            &&& msg[18] == msg_type
            &&& msg.skip(19) == body
        }),
{
    let msg = bgp_message(msg_type, body);
    assert(msg.take(16) =~= bgp_marker());
    assert(msg.skip(19) =~= body);
}

/// Makes a BGP message.
fn build_bgp_message(msg_type: u8, body: &[u8]) -> (msg: Vec<u8>)
    requires
        body@.len() <= usize::MAX - 19,
    ensures
        msg@ == bgp_message(msg_type, body@),
        msg@.len() == 19 + body@.len(),
{
    let total_len: usize = 19 + body.len();
    let mut buf: Vec<u8> = Vec::with_capacity(total_len);
    let mut i: usize = 0;
    while i < 16
        invariant
            i <= 16,
            buf@ == Seq::new(i as nat, |j: int| 0xffu8),
        decreases 16 - i,
    {
        buf.push(0xff);
        i += 1;
        assert(buf@ =~= Seq::new(i as nat, |j: int| 0xffu8));
    }
    push_u16(&mut buf, (total_len % 0x1_0000) as u16);
    buf.push(msg_type);
    push_bytes(&mut buf, body);
    assert(buf@ =~= bgp_message(msg_type, body@));
    buf
}

//------------ BGP OPEN ------------------------------------------------------

/// The capability to exchange unicast routes of an address family.
pub open spec fn multiprotocol_capability(afi: u16) -> Seq<u8> {
    seq![1u8, 4] + be16(afi) + seq![0u8, 1]
}

/// The graceful restart capability (RFC 4724) for unicast routes, forwarding
/// state not preserved.
pub open spec fn graceful_restart_capability(include_ipv6: bool) -> Seq<u8> {
    if include_ipv6 {
        seq![64u8, 10] + be16(0) + be16(1) + seq![1u8, 0] + be16(2) + seq![1u8, 0]
    } else {
        seq![64u8, 6] + be16(0) + be16(1) + seq![1u8, 0]
    }
}

/// The capabilities of a synthetic OPEN.
pub open spec fn open_capabilities(asn: Asn, include_ipv6: bool, graceful_restart: bool) -> Seq<
    u8,
> {
    seq![65u8, 4] + be32(asn.0) + multiprotocol_capability(1) + (if include_ipv6 {
        multiprotocol_capability(2)
    } else {
        Seq::empty()
    }) + (if graceful_restart {
        graceful_restart_capability(include_ipv6)
    } else {
        Seq::empty()
    })
}

/// The AS number in two octets: numbers that need more are given as AS_TRANS.
pub open spec fn two_octet_asn(asn: Asn) -> u16 {
    if asn.0 > 65535 {
        23456
    } else {
        asn.0 as u16
    }
}

/// The body of a synthetic OPEN: version, AS, hold time, identifier, and the
/// capabilities as the one optional parameter.
pub open spec fn open_body(asn: Asn, include_ipv6: bool, graceful_restart: bool) -> Seq<u8> {
    let caps = open_capabilities(asn, include_ipv6, graceful_restart);
    seq![4u8] + be16(two_octet_asn(asn)) + be16(90) + Seq::new(4, |i: int| 0u8) + seq![
        (2 + caps.len()) as u8,
        2u8,
        caps.len() as u8,
    ] + caps
}

/// Makes a synthetic BGP OPEN.
pub fn build_bgp_open(asn: Asn, include_ipv6: bool, advertise_graceful_restart: bool) -> (msg: Vec<
    u8,
>)
    ensures
        msg@ == bgp_message(
            BGP_MSG_OPEN,
            open_body(asn, include_ipv6, advertise_graceful_restart),
        ),
        msg@.len() <= 67,
{
    let ghost caps_spec = open_capabilities(asn, include_ipv6, advertise_graceful_restart);
    let mut caps: Vec<u8> = Vec::new();
    // AS numbers of four octets
    caps.push(65);
    caps.push(4);
    push_u32(&mut caps, asn.into_u32());
    // Multiprotocol extensions, IPv4 unicast
    caps.push(1);
    caps.push(4);
    push_u16(&mut caps, 1);
    caps.push(0);
    caps.push(1);
    assert(caps@ =~= seq![65u8, 4] + be32(asn.0) + multiprotocol_capability(1));
    if include_ipv6 {
        // Multiprotocol extensions, IPv6 unicast
        let ghost before = caps@;
        caps.push(1);
        caps.push(4);
        push_u16(&mut caps, 2);
        caps.push(0);
        caps.push(1);
        assert(caps@ =~= before + multiprotocol_capability(2));
    }
    if advertise_graceful_restart {
        // Consumers then expect an End-of-RIB marker for each listed family.
        let ghost before = caps@;
        caps.push(64);
        caps.push(
            if include_ipv6 {
                10
            } else {
                6
            },
        );
        push_u16(&mut caps, 0);
        push_u16(&mut caps, 1);
        caps.push(1);
        caps.push(0);
        if include_ipv6 {
            push_u16(&mut caps, 2);
            caps.push(1);
            caps.push(0);
        }
        assert(caps@ =~= before + graceful_restart_capability(include_ipv6));
    }
    assert(caps@ =~= caps_spec);
    let caps_len: u8 = caps.len() as u8;
    let mut body: Vec<u8> = Vec::new();
    body.push(4);
    let two_byte_asn: u16 = if asn.into_u32() > 65535 {
        23456
    } else {
        asn.into_u32() as u16
    };
    push_u16(&mut body, two_byte_asn);
    push_u16(&mut body, 90);
    push_zeros(&mut body, 4);
    body.push(2 + caps_len);
    body.push(2);
    body.push(caps_len);
    push_bytes(&mut body, caps.as_slice());
    assert(body@ =~= open_body(asn, include_ipv6, advertise_graceful_restart));
    build_bgp_message(BGP_MSG_OPEN, body.as_slice())
}

//------------ BGP UPDATE ----------------------------------------------------

/// The body of an UPDATE.
pub open spec fn update_body(withdrawn: Seq<u8>, attrs: Seq<u8>, announced: Seq<u8>) -> Seq<u8> {
    be16(low16(withdrawn.len())) + withdrawn + be16(low16(attrs.len())) + attrs + announced
}

/// An optional path attribute of the given type: a value over 255 octets takes
/// a length field of two octets.
pub open spec fn optional_attribute(type_code: u8, value: Seq<u8>) -> Seq<u8> {
    if value.len() > 255 {
        seq![0x90u8, type_code] + be16(low16(value.len())) + value
    } else {
        seq![0x80u8, type_code, value.len() as u8] + value
    }
}

/// An optional path attribute of the given type with a length field of two
/// octets.
pub open spec fn extended_attribute(type_code: u8, value: Seq<u8>) -> Seq<u8> {
    seq![0x90u8, type_code] + be16(low16(value.len())) + value
}

/// The value of an MP_REACH_NLRI attribute for unicast routes.
pub open spec fn reach_value(afi: u16, next_hop: Seq<u8>, announced: Seq<u8>) -> Seq<u8> {
    be16(afi) + seq![1u8, (next_hop.len() % 0x100) as u8] + next_hop + seq![0u8] + announced
}

/// The value of an MP_UNREACH_NLRI attribute for unicast routes.
pub open spec fn unreach_value(afi: u16, withdrawn: Seq<u8>) -> Seq<u8> {
    be16(afi) + seq![1u8] + withdrawn
}

/// The next hop, or zeros of the family's size where there is none.
pub open spec fn next_hop_or_zero(prefix: Prefix, next_hop: Option<Seq<u8>>) -> Seq<u8> {
    match next_hop {
        Some(nh) => nh,
        None => if prefix.addr_spec() is V4 {
            Seq::new(4, |i: int| 0u8)
        } else {
            Seq::new(16, |i: int| 0u8)
        },
    }
}

/// The MP_REACH_NLRI attribute that announces a prefix.
pub open spec fn reach_attribute(prefix: Prefix, next_hop: Option<Seq<u8>>) -> Seq<u8> {
    optional_attribute(
        MP_REACH_NLRI,
        reach_value(afi_of(prefix), next_hop_or_zero(prefix, next_hop), nlri(prefix)),
    )
}

/// The MP_UNREACH_NLRI attribute that withdraws a prefix.
pub open spec fn unreach_attribute(prefix: Prefix) -> Seq<u8> {
    optional_attribute(MP_UNREACH_NLRI, unreach_value(afi_of(prefix), nlri(prefix)))
}

/// The body of the UPDATE that announces a prefix: an IPv4 prefix stands in the
/// NLRI field, an IPv6 prefix in an MP_REACH_NLRI with the recovered next hop.
pub open spec fn announcement_body(prefix: Prefix, raw: Seq<u8>) -> Seq<u8> {
    if prefix.addr_spec() is V4 {
        update_body(Seq::empty(), plain_attributes(raw), nlri(prefix))
    } else {
        update_body(
            Seq::empty(),
            plain_attributes(raw) + reach_attribute(prefix, recovered_next_hop(raw)),
            Seq::empty(),
        )
    }
}

/// The body of the UPDATE that withdraws a prefix.
pub open spec fn withdrawal_body(prefix: Prefix) -> Seq<u8> {
    if prefix.addr_spec() is V4 {
        update_body(nlri(prefix), Seq::empty(), Seq::empty())
    } else {
        update_body(Seq::empty(), unreach_attribute(prefix), Seq::empty())
    }
}

/// The UPDATE for a prefix. There is none for an announcement that does not
/// fit the length field: such a route is dropped.
pub open spec fn bgp_update(prefix: Prefix, raw: Seq<u8>, is_withdrawal: bool) -> Option<Seq<u8>> {
    if is_withdrawal {
        Some(bgp_message(BGP_MSG_UPDATE, withdrawal_body(prefix)))
    } else if 19 + announcement_body(prefix, raw).len() > u16::MAX {
        None
    } else {
        Some(bgp_message(BGP_MSG_UPDATE, announcement_body(prefix, raw)))
    }
}

/// Makes the body of an UPDATE.
fn build_update_body(withdrawn: &[u8], attrs: &[u8], announced: &[u8]) -> (body: Vec<u8>)
    ensures
        body@ == update_body(withdrawn@, attrs@, announced@),
{
    let mut body: Vec<u8> = Vec::new();
    push_u16(&mut body, (withdrawn.len() % 0x1_0000) as u16);
    push_bytes(&mut body, withdrawn);
    push_u16(&mut body, (attrs.len() % 0x1_0000) as u16);
    push_bytes(&mut body, attrs);
    push_bytes(&mut body, announced);
    assert(body@ =~= update_body(withdrawn@, attrs@, announced@));
    body
}

/// Makes an optional path attribute.
fn build_optional_attribute(type_code: u8, value: &[u8]) -> (attr: Vec<u8>)
    ensures
        attr@ == optional_attribute(type_code, value@),
{
    let mut buf: Vec<u8> = Vec::new();
    if value.len() > 255 {
        buf.push(0x90);
        buf.push(type_code);
        push_u16(&mut buf, (value.len() % 0x1_0000) as u16);
    } else {
        buf.push(0x80);
        buf.push(type_code);
        buf.push(value.len() as u8);
    }
    push_bytes(&mut buf, value);
    assert(buf@ =~= optional_attribute(type_code, value@));
    buf
}

/// Makes the value of an MP_REACH_NLRI attribute.
fn build_reach_value(afi: u16, next_hop: &[u8], announced: &[u8]) -> (value: Vec<u8>)
    ensures
        value@ == reach_value(afi, next_hop@, announced@),
{
    let mut value: Vec<u8> = Vec::new();
    push_u16(&mut value, afi);
    value.push(1);
    value.push((next_hop.len() % 0x100) as u8);
    push_bytes(&mut value, next_hop);
    value.push(0);
    push_bytes(&mut value, announced);
    assert(value@ =~= reach_value(afi, next_hop@, announced@));
    value
}

/// The optional octets as a sequence.
pub open spec fn opt_slice(o: Option<&[u8]>) -> Option<Seq<u8>> {
    match o {
        Some(s) => Some(s@),
        None => None,
    }
}

/// Makes the MP_REACH_NLRI attribute that announces a prefix.
fn build_mp_reach_nlri(prefix: Prefix, next_hop: Option<&[u8]>) -> (attr: Vec<u8>)
    requires
        next_hop matches Some(nh) ==> nh@.len() <= 255,
    ensures
        attr@ == reach_attribute(prefix, opt_slice(next_hop)),
        attr@.len() <= 300,
{
    let nlri_bytes = encode_prefix_nlri(prefix);
    let afi: u16 = if prefix.is_v4() {
        1
    } else {
        2
    };
    let mut default_nh: Vec<u8> = Vec::new();
    let nh: &[u8] = match next_hop {
        Some(nh) => nh,
        None => {
            push_zeros(
                &mut default_nh,
                if prefix.is_v4() {
                    4
                } else {
                    16
                },
            );
            assert(default_nh@ =~= next_hop_or_zero(prefix, None));
            default_nh.as_slice()
        },
    };
    let value = build_reach_value(afi, nh, nlri_bytes.as_slice());
    build_optional_attribute(MP_REACH_NLRI, value.as_slice())
}

/// Makes the MP_UNREACH_NLRI attribute that withdraws a prefix.
fn build_mp_unreach_nlri(prefix: Prefix) -> (attr: Vec<u8>)
    ensures
        attr@ == unreach_attribute(prefix),
        attr@.len() <= 300,
{
    let nlri_bytes = encode_prefix_nlri(prefix);
    let mut value: Vec<u8> = Vec::new();
    push_u16(
        &mut value,
        if prefix.is_v4() {
            1
        } else {
            2
        },
    );
    value.push(1);
    push_bytes(&mut value, nlri_bytes.as_slice());
    assert(value@ =~= unreach_value(afi_of(prefix), nlri(prefix)));
    build_optional_attribute(MP_UNREACH_NLRI, value.as_slice())
}

/// Makes the UPDATE that withdraws a prefix.
fn build_bgp_update_withdrawal(prefix: Prefix) -> (msg: Vec<u8>)
    ensures
        msg@ == bgp_message(BGP_MSG_UPDATE, withdrawal_body(prefix)),
        msg@.len() <= 400,
{
    let none: Vec<u8> = Vec::new();
    assert(none@ =~= Seq::<u8>::empty());
    let body = if prefix.is_v4() {
        let nlri_bytes = encode_prefix_nlri(prefix);
        build_update_body(nlri_bytes.as_slice(), none.as_slice(), none.as_slice())
    } else {
        let mp_unreach = build_mp_unreach_nlri(prefix);
        build_update_body(none.as_slice(), mp_unreach.as_slice(), none.as_slice())
    };
    build_bgp_message(BGP_MSG_UPDATE, body.as_slice())
}

/// Makes the UPDATE for a prefix from the path attributes of its route.
///
/// An announcement that does not fit the length field of a BGP message is
/// dropped: with a length cut to 16 bits it would break the framing of the
/// rest of the stream.
pub fn build_bgp_update(prefix: Prefix, pamap: &RotondaPaMap, is_withdrawal: bool) -> (msg: Option<
    Vec<u8>,
>)
    ensures
        opt_octets(msg) == bgp_update(prefix, pamap@, is_withdrawal),
        msg matches Some(m) ==> m@.len() <= u16::MAX,
{
    if is_withdrawal {
        return Some(build_bgp_update_withdrawal(prefix));
    }
    let (mut pa_bytes, orig_next_hop) = filter_raw_path_attributes(pamap);
    proof {
        recovered_next_hop_is_short(pamap@);
    }
    if pa_bytes.len() > u16::MAX as usize {
        return None;
    }
    let none: Vec<u8> = Vec::new();
    assert(none@ =~= Seq::<u8>::empty());
    let body = if prefix.is_v4() {
        let nlri_bytes = encode_prefix_nlri(prefix);
        build_update_body(none.as_slice(), pa_bytes.as_slice(), nlri_bytes.as_slice())
    } else {
        let nh = match &orig_next_hop {
            Some(nh) => Some(nh.as_slice()),
            None => None,
        };
        let mp_reach = build_mp_reach_nlri(prefix, nh);
        push_bytes(&mut pa_bytes, mp_reach.as_slice());
        build_update_body(none.as_slice(), pa_bytes.as_slice(), none.as_slice())
    };
    assert(body@ == announcement_body(prefix, pamap@));
    if 19 + body.len() > u16::MAX as usize {
        return None;
    }
    Some(build_bgp_message(BGP_MSG_UPDATE, body.as_slice()))
}

//------------ Session messages ----------------------------------------------

/// A type-length-value element.
pub open spec fn tlv(tlv_type: u16, value: Seq<u8>) -> Seq<u8> {
    be16(tlv_type) + be16(low16(value.len())) + value
}

/// A BMP Initiation message.
pub open spec fn initiation_message(sys_name: Seq<u8>, sys_descr: Seq<u8>) -> Seq<u8> {
    common_header(BMP_MSG_INITIATION, 14 + sys_descr.len() + sys_name.len()) + tlv(
        BMP_INIT_TLV_SYS_DESCR,
        sys_descr,
    ) + tlv(BMP_INIT_TLV_SYS_NAME, sys_name)
}

/// Appends a type-length-value element.
fn push_tlv(buf: &mut Vec<u8>, tlv_type: u16, value: &[u8])
    ensures
        final(buf)@ == old(buf)@ + tlv(tlv_type, value@),
{
    push_u16(buf, tlv_type);
    push_u16(buf, (value.len() % 0x1_0000) as u16);
    push_bytes(buf, value);
    assert(buf@ =~= old(buf)@ + tlv(tlv_type, value@));
}

/// Makes a BMP Initiation message.
pub fn build_initiation_message(sys_name: &str, sys_descr: &str) -> (msg: Vec<u8>)
    requires
        14 + sys_name.spec_bytes().len() + sys_descr.spec_bytes().len() <= usize::MAX,
    ensures
        msg@ == initiation_message(sys_name.spec_bytes(), sys_descr.spec_bytes()),
{
    let name = sys_name.as_bytes();
    let descr = sys_descr.as_bytes();
    let total_len: usize = BMP_COMMON_HEADER_LEN + (4 + descr.len()) + (4 + name.len());
    let mut buf: Vec<u8> = Vec::with_capacity(total_len);
    write_common_header(&mut buf, BMP_MSG_INITIATION, total_len);
    push_tlv(&mut buf, BMP_INIT_TLV_SYS_DESCR, descr);
    push_tlv(&mut buf, BMP_INIT_TLV_SYS_NAME, name);
    assert(buf@ =~= initiation_message(sys_name.spec_bytes(), sys_descr.spec_bytes()));
    buf
}

/// A BMP Termination message for the reason "administratively closed".
pub open spec fn termination_message() -> Seq<u8> {
    common_header(BMP_MSG_TERMINATION, 12) + tlv(BMP_TERM_TLV_REASON, be16(0))
}

/// Makes a BMP Termination message for the reason "administratively closed".
pub fn build_termination_message() -> (msg: Vec<u8>)
    ensures
        msg@ == termination_message(),
{
    let total_len: usize = BMP_COMMON_HEADER_LEN + 6;
    let mut buf: Vec<u8> = Vec::with_capacity(total_len);
    write_common_header(&mut buf, BMP_MSG_TERMINATION, total_len);
    push_u16(&mut buf, BMP_TERM_TLV_REASON);
    push_u16(&mut buf, 2);
    push_u16(&mut buf, 0);
    assert(buf@ =~= termination_message());
    buf
}

/// The size in the header of a session message is the message's own.
pub proof fn session_message_sizes(sys_name: Seq<u8>, sys_descr: Seq<u8>)
    ensures
        initiation_message(sys_name, sys_descr).subrange(1, 5) == be32(
            low32(initiation_message(sys_name, sys_descr).len()),
        ),
        termination_message().subrange(1, 5) == be32(low32(termination_message().len())),
{
    let init = initiation_message(sys_name, sys_descr);
    let term = termination_message();
    assert(init.subrange(1, 5) =~= be32(low32(init.len())));
    assert(term.subrange(1, 5) =~= be32(low32(term.len())));
}

//------------ Administrative label ------------------------------------------

/// A name or description that says something: not absent, not empty, not the
/// placeholder.
pub open spec fn meaningful(text: Option<Seq<char>>, placeholder: Seq<char>) -> Option<Seq<char>> {
    match text {
        Some(s) => if s != placeholder && s.len() > 0 {
            Some(s)
        } else {
            None
        },
        None => None,
    }
}

/// A member of a JSON object whose value is a string.
pub open spec fn json_member(key: Seq<char>, value: Seq<char>) -> Seq<char> {
    seq!['"'] + key + seq!['"', ':', '"'] + escaped(value) + seq!['"']
}

/// The administrative label for a router with this name and description.
pub open spec fn admin_label_json(name: Option<Seq<char>>, desc: Option<Seq<char>>) -> Option<
    Seq<char>,
> {
    match (meaningful(name, "no-sysname"@), meaningful(desc, "no-sysdesc"@)) {
        (Some(n), Some(d)) => Some(
            seq!['{'] + json_member("sysName"@, n) + seq![','] + json_member("sysDescr"@, d)
                + seq!['}'],
        ),
        (Some(n), None) => Some(seq!['{'] + json_member("sysName"@, n) + seq!['}']),
        (None, Some(d)) => Some(seq!['{'] + json_member("sysDescr"@, d) + seq!['}']),
        (None, None) => None,
    }
}

/// Leaves out what says nothing.
fn keep_meaningful<'a>(text: Option<&'a str>, placeholder: &str) -> (kept: Option<&'a str>)
    ensures
        opt_str(kept) == meaningful(opt_str(text), placeholder@),
{
    match text {
        Some(s) => if !same_text(s, placeholder) && !s.is_empty() {
            Some(s)
        } else {
            None
        },
        None => None,
    }
}

/// Appends a member of a JSON object.
fn push_json_member(json: &mut String, key: &str, value: &str)
    ensures
        final(json)@ == old(json)@ + json_member(key@, value@),
{
    json.push('"');
    json.append(key);
    json.push('"');
    json.push(':');
    json.push('"');
    let text = escape_json_string(value);
    json.append(text.as_str());
    json.push('"');
    assert(json@ =~= old(json)@ + json_member(key@, value@));
}

/// Makes the administrative label for a router from its name and description.
///
/// Placeholders that some routers send in place of a value are left out. There
/// is no label where nothing is left.
pub fn build_admin_label_json(name: Option<&str>, desc: Option<&str>) -> (label: Option<String>)
    ensures
        opt_text(label) == admin_label_json(opt_str(name), opt_str(desc)),
{
    let name = keep_meaningful(name, "no-sysname");
    let desc = keep_meaningful(desc, "no-sysdesc");
    if name.is_none() && desc.is_none() {
        return None;
    }
    let mut json = String::new();
    let mut first = true;
    json.push('{');
    if let Some(n) = name {
        push_json_member(&mut json, "sysName", n);
        first = false;
    }
    if let Some(d) = desc {
        if !first {
            json.push(',');
        }
        push_json_member(&mut json, "sysDescr", d);
    }
    json.push('}');
    proof {
        let want = match (opt_str(name), opt_str(desc)) {
            (Some(n), Some(d)) => seq!['{'] + json_member("sysName"@, n) + seq![',']
                + json_member("sysDescr"@, d) + seq!['}'],
            (Some(n), None) => seq!['{'] + json_member("sysName"@, n) + seq!['}'],
            (None, Some(d)) => seq!['{'] + json_member("sysDescr"@, d) + seq!['}'],
            (None, None) => Seq::empty(),
        };
        assert(json@ =~= want);
    }
    Some(json)
}

//------------ Messages about a peer -----------------------------------------

/// The label that a Peer Up carries: one that exceeds what a TLV can hold is
/// left out.
pub open spec fn admin_label_tlv(label: Option<String>) -> Seq<u8> {
    match label {
        Some(l) => if encode_utf8(l@).len() <= u16::MAX {
            tlv(BMP_PEER_UP_TLV_ADMIN_LABEL, encode_utf8(l@))
        } else {
            Seq::empty()
        },
        None => Seq::empty(),
    }
}

/// The body of a Peer Up: local address and ports, both OPENs, and the label.
pub open spec fn peer_up_body(peer: PeerInfo, graceful_restart: bool) -> Seq<u8> {
    let open = bgp_message(BGP_MSG_OPEN, open_body(peer.peer_asn, true, graceful_restart));
    Seq::new(16, |i: int| 0u8) + be16(0) + be16(179) + open + open + admin_label_tlv(
        peer.admin_label,
    )
}

/// Makes a BMP Peer Up message with the given timestamp.
///
/// The OPENs name both address families whatever the address of the peer:
/// routes of either family may follow.
pub fn build_peer_up_at(peer: &PeerInfo, advertise_graceful_restart: bool, t: Timestamp) -> (msg:
    Vec<u8>)
    ensures
        msg@ == peer_message(
            BMP_MSG_PEER_UP,
            *peer,
            t,
            peer_up_body(*peer, advertise_graceful_restart),
        ),
{
    let open = build_bgp_open(peer.peer_asn, true, advertise_graceful_restart);
    let mut body: Vec<u8> = Vec::new();
    push_zeros(&mut body, 16);
    push_u16(&mut body, 0);
    push_u16(&mut body, 179);
    push_bytes(&mut body, open.as_slice());
    push_bytes(&mut body, open.as_slice());
    if let Some(label) = &peer.admin_label {
        let text = label.as_str().as_bytes();
        if text.len() <= u16::MAX as usize {
            push_tlv(&mut body, BMP_PEER_UP_TLV_ADMIN_LABEL, text);
        }
    }
    assert(body@ =~= peer_up_body(*peer, advertise_graceful_restart));
    build_peer_message(BMP_MSG_PEER_UP, peer, t, body.as_slice())
}

/// Makes a BMP Peer Up message.
pub fn build_peer_up(peer: &PeerInfo, advertise_graceful_restart: bool) -> (msg: Vec<u8>)
    ensures
        exists|t: Timestamp|
            t.wf() && msg@ == #[trigger] peer_message(
                BMP_MSG_PEER_UP,
                *peer,
                t,
                peer_up_body(*peer, advertise_graceful_restart),
            ),
{
    let t = Timestamp::now();
    build_peer_up_at(peer, advertise_graceful_restart, t)
}

/// Makes a BMP Peer Down message with the given timestamp.
pub fn build_peer_down_at(peer: &PeerInfo, t: Timestamp) -> (msg: Vec<u8>)
    ensures
        msg@ == peer_message(
            BMP_MSG_PEER_DOWN,
            *peer,
            t,
            seq![BMP_PEER_DOWN_REASON_REMOTE_NO_NOTIFICATION],
        ),
{
    let mut body: Vec<u8> = Vec::new();
    body.push(BMP_PEER_DOWN_REASON_REMOTE_NO_NOTIFICATION);
    assert(body@ =~= seq![BMP_PEER_DOWN_REASON_REMOTE_NO_NOTIFICATION]);
    build_peer_message(BMP_MSG_PEER_DOWN, peer, t, body.as_slice())
}

/// Makes a BMP Peer Down message.
pub fn build_peer_down(peer: &PeerInfo) -> (msg: Vec<u8>)
    ensures
        exists|t: Timestamp|
            t.wf() && msg@ == #[trigger] peer_message(
                BMP_MSG_PEER_DOWN,
                *peer,
                t,
                seq![BMP_PEER_DOWN_REASON_REMOTE_NO_NOTIFICATION],
            ),
{
    let t = Timestamp::now();
    build_peer_down_at(peer, t)
}

/// The Route Monitoring message for a prefix, where there is an UPDATE for it.
pub open spec fn route_monitoring(
    peer: PeerInfo,
    t: Timestamp,
    prefix: Prefix,
    raw: Seq<u8>,
    is_withdrawal: bool,
) -> Option<Seq<u8>> {
    match bgp_update(prefix, raw, is_withdrawal) {
        Some(update) => Some(peer_message(BMP_MSG_ROUTE_MONITORING, peer, t, update)),
        None => None,
    }
}

/// Makes the BMP Route Monitoring message for a prefix with the given
/// timestamp.
pub fn build_route_monitoring_at(
    peer: &PeerInfo,
    prefix: Prefix,
    pamap: &RotondaPaMap,
    is_withdrawal: bool,
    t: Timestamp,
) -> (msg: Option<Vec<u8>>)
    ensures
        opt_octets(msg) == route_monitoring(*peer, t, prefix, pamap@, is_withdrawal),
{
    match build_bgp_update(prefix, pamap, is_withdrawal) {
        Some(update) => Some(
            build_peer_message(BMP_MSG_ROUTE_MONITORING, peer, t, update.as_slice()),
        ),
        None => None,
    }
}

/// Makes the BMP Route Monitoring message for a prefix.
pub fn build_route_monitoring(
    peer: &PeerInfo,
    prefix: Prefix,
    pamap: &RotondaPaMap,
    is_withdrawal: bool,
) -> (msg: Option<Vec<u8>>)
    ensures
        exists|t: Timestamp|
            t.wf() && opt_octets(msg) == #[trigger] route_monitoring(
                *peer,
                t,
                prefix,
                pamap@,
                is_withdrawal,
            ),
{
    let t = Timestamp::now();
    build_route_monitoring_at(peer, prefix, pamap, is_withdrawal, t)
}

/// Makes the BMP Route Monitoring message for a route with the given
/// timestamp.
pub fn build_route_monitoring_from_route_at(
    peer: &PeerInfo,
    route: &RotondaRoute,
    is_withdrawal: bool,
    t: Timestamp,
) -> (msg: Option<Vec<u8>>)
    ensures
        opt_octets(msg) == route_monitoring(
            *peer,
            t,
            route.prefix_spec(),
            route.pamap_spec()@,
            is_withdrawal,
        ),
{
    build_route_monitoring_at(peer, route.prefix(), route.rotonda_pamap(), is_withdrawal, t)
}

/// Makes the BMP Route Monitoring message for a route.
pub fn build_route_monitoring_from_route(
    peer: &PeerInfo,
    route: &RotondaRoute,
    is_withdrawal: bool,
) -> (msg: Option<Vec<u8>>)
    ensures
        exists|t: Timestamp|
            t.wf() && opt_octets(msg) == #[trigger] route_monitoring(
                *peer,
                t,
                route.prefix_spec(),
                route.pamap_spec()@,
                is_withdrawal,
            ),
{
    let t = Timestamp::now();
    build_route_monitoring_from_route_at(peer, route, is_withdrawal, t)
}

/// Makes a BMP Statistics Report with the given timestamp.
pub fn build_statistics_report_at(peer: &PeerInfo, body: &[u8], t: Timestamp) -> (msg: Vec<u8>)
    requires
        body@.len() <= usize::MAX - 48,
    ensures
        msg@ == peer_message(BMP_MSG_STATISTICS_REPORT, *peer, t, body@),
{
    build_peer_message(BMP_MSG_STATISTICS_REPORT, peer, t, body)
}

/// Makes a BMP Statistics Report (RFC 7854 section 4.8) for the given peer.
///
/// The body, the count and the statistics as they came from upstream, is
/// passed on as it is, so that elements that nobody here knows survive.
pub fn build_statistics_report(peer: &PeerInfo, body: &[u8]) -> (msg: Vec<u8>)
    requires
        body@.len() <= usize::MAX - 48,
    ensures
        exists|t: Timestamp|
            t.wf() && msg@ == #[trigger] peer_message(BMP_MSG_STATISTICS_REPORT, *peer, t, body@),
{
    let t = Timestamp::now();
    build_statistics_report_at(peer, body, t)
}

//------------ End-of-RIB ----------------------------------------------------

/// The UPDATE that marks the end of the RIB of an address family: an empty one
/// for IPv4 unicast, else one with an MP_UNREACH_NLRI that withdraws nothing.
pub open spec fn end_of_rib_update(afisafi: AfiSafiType) -> Seq<u8> {
    if afisafi is Ipv4Unicast {
        bgp_message(BGP_MSG_UPDATE, update_body(Seq::empty(), Seq::empty(), Seq::empty()))
    } else {
        empty_withdrawal(afisafi)
    }
}

/// The UPDATE with an MP_UNREACH_NLRI that withdraws nothing of a family.
pub open spec fn empty_withdrawal(afisafi: AfiSafiType) -> Seq<u8> {
    let attrs = seq![0x80u8, MP_UNREACH_NLRI, 3] + be16(afisafi.codes().0)
        + seq![afisafi.codes().1];
    bgp_message(BGP_MSG_UPDATE, update_body(Seq::empty(), attrs, Seq::empty()))
}

/// Makes the End-of-RIB marker for IPv4 unicast.
pub fn build_eor_ipv4(peer: &PeerInfo, t: Timestamp) -> (msg: Vec<u8>)
    ensures
        msg@ == peer_message(
            BMP_MSG_ROUTE_MONITORING,
            *peer,
            t,
            end_of_rib_update(AfiSafiType::Ipv4Unicast),
        ),
{
    let none: Vec<u8> = Vec::new();
    assert(none@ =~= Seq::<u8>::empty());
    let body = build_update_body(none.as_slice(), none.as_slice(), none.as_slice());
    let update = build_bgp_message(BGP_MSG_UPDATE, body.as_slice());
    build_peer_message(BMP_MSG_ROUTE_MONITORING, peer, t, update.as_slice())
}

/// Makes the End-of-RIB marker for an address family other than IPv4 unicast.
pub fn build_eor_mp_unreach(peer: &PeerInfo, afisafi: AfiSafiType, t: Timestamp) -> (msg: Vec<u8>)
    ensures
        msg@ == peer_message(BMP_MSG_ROUTE_MONITORING, *peer, t, empty_withdrawal(afisafi)),
{
    let (afi, safi) = afisafi.to_codes();
    let none: Vec<u8> = Vec::new();
    assert(none@ =~= Seq::<u8>::empty());
    let mut mp_unreach: Vec<u8> = Vec::with_capacity(6);
    mp_unreach.push(0x80);
    mp_unreach.push(MP_UNREACH_NLRI);
    mp_unreach.push(3);
    push_u16(&mut mp_unreach, afi);
    mp_unreach.push(safi);
    assert(mp_unreach@ =~= seq![0x80u8, MP_UNREACH_NLRI, 3] + be16(afi) + seq![safi]);
    let body = build_update_body(none.as_slice(), mp_unreach.as_slice(), none.as_slice());
    let update = build_bgp_message(BGP_MSG_UPDATE, body.as_slice());
    build_peer_message(BMP_MSG_ROUTE_MONITORING, peer, t, update.as_slice())
}

/// The End-of-RIB marker for an address family: the shortest UPDATE for IPv4
/// unicast, and for every other family one with an MP_UNREACH_NLRI that
/// withdraws nothing.
pub open spec fn end_of_rib_marker(peer: PeerInfo, afisafi: AfiSafiType, t: Timestamp) -> Option<
    Seq<u8>,
> {
    Some(peer_message(BMP_MSG_ROUTE_MONITORING, peer, t, end_of_rib_update(afisafi)))
}

/// Makes the End-of-RIB marker for an address family with the given timestamp.
pub fn build_end_of_rib_marker_at(peer: &PeerInfo, afisafi: AfiSafiType, t: Timestamp) -> (msg:
    Option<Vec<u8>>)
    ensures
        opt_octets(msg) == end_of_rib_marker(*peer, afisafi, t),
{
    match afisafi {
        AfiSafiType::Ipv4Unicast => Some(build_eor_ipv4(peer, t)),
        other => Some(build_eor_mp_unreach(peer, other, t)),
    }
}

/// Makes the End-of-RIB marker for an address family.
pub fn build_end_of_rib_marker(peer: &PeerInfo, afisafi: AfiSafiType) -> (msg: Option<Vec<u8>>)
    ensures
        exists|t: Timestamp|
            t.wf() && opt_octets(msg) == #[trigger] end_of_rib_marker(*peer, afisafi, t),
{
    let t = Timestamp::now();
    build_end_of_rib_marker_at(peer, afisafi, t)
}

//------------ Packed messages -----------------------------------------------

/// The next hop of a packed IPv6 announcement: the recovered one, or zeros.
pub open spec fn packed_next_hop(next_hop: Option<Seq<u8>>) -> Seq<u8> {
    match next_hop {
        Some(nh) => nh,
        None => Seq::new(16, |i: int| 0u8),
    }
}

/// The body of the UPDATE that announces several prefixes of one address
/// family with one set of path attributes.
pub open spec fn packed_body(
    is_v4: bool,
    attrs: Seq<u8>,
    next_hop: Option<Seq<u8>>,
    prefixes: Seq<Prefix>,
) -> Seq<u8> {
    if is_v4 {
        update_body(Seq::empty(), attrs, nlris(prefixes))
    } else {
        update_body(
            Seq::empty(),
            attrs + extended_attribute(
                MP_REACH_NLRI,
                reach_value(2, packed_next_hop(next_hop), nlris(prefixes)),
            ),
            Seq::empty(),
        )
    }
}

/// The Route Monitoring message that announces several prefixes with the path
/// attributes of one route.
pub open spec fn packed_message(
    peer: PeerInfo,
    t: Timestamp,
    is_v4: bool,
    raw: Seq<u8>,
    prefixes: Seq<Prefix>,
) -> Seq<u8> {
    peer_message(
        BMP_MSG_ROUTE_MONITORING,
        peer,
        t,
        bgp_message(
            BGP_MSG_UPDATE,
            packed_body(is_v4, plain_attributes(raw), recovered_next_hop(raw), prefixes),
        ),
    )
}

/// Makes one BMP Route Monitoring message whose UPDATE announces several
/// prefixes of one address family that share their path attributes.
///
/// The attributes come without MP_REACH_NLRI and MP_UNREACH_NLRI. For IPv6 one
/// MP_REACH_NLRI is made that carries the next hop once and all prefixes; its
/// length field always takes two octets, so that its size does not depend on
/// how many prefixes there are. That the UPDATE is within the size limit is left
/// to the caller.
pub fn build_aggregated_route_monitoring_at(
    peer: &PeerInfo,
    prefixes: &[Prefix],
    pa_bytes: &[u8],
    next_hop: Option<&[u8]>,
    is_v4: bool,
    t: Timestamp,
) -> (msg: Vec<u8>)
    requires
        67 + packed_body(is_v4, pa_bytes@, opt_slice(next_hop), prefixes@).len() <= usize::MAX,
    ensures
        msg@ == peer_message(
            BMP_MSG_ROUTE_MONITORING,
            *peer,
            t,
            bgp_message(
                BGP_MSG_UPDATE,
                packed_body(is_v4, pa_bytes@, opt_slice(next_hop), prefixes@),
            ),
        ),
{
    let mut announced: Vec<u8> = Vec::new();
    let mut i: usize = 0;
    while i < prefixes.len()
        invariant
            i <= prefixes@.len(),
            announced@ == nlris(prefixes@.take(i as int)),
        decreases prefixes@.len() - i,
    {
        append_prefix_nlri(&mut announced, prefixes[i]);
        i += 1;
        assert(prefixes@.take(i as int).drop_last() =~= prefixes@.take(i - 1));
    }
    assert(prefixes@.take(i as int) =~= prefixes@);
    let none: Vec<u8> = Vec::new();
    assert(none@ =~= Seq::<u8>::empty());
    let body = if is_v4 {
        build_update_body(none.as_slice(), pa_bytes, announced.as_slice())
    } else {
        let mut default_nh: Vec<u8> = Vec::new();
        let nh: &[u8] = match next_hop {
            Some(nh) => nh,
            None => {
                push_zeros(&mut default_nh, 16);
                assert(default_nh@ =~= packed_next_hop(None));
                default_nh.as_slice()
            },
        };
        let value = build_reach_value(2, nh, announced.as_slice());
        let mut attrs: Vec<u8> = Vec::new();
        push_bytes(&mut attrs, pa_bytes);
        attrs.push(0x90);
        attrs.push(MP_REACH_NLRI);
        push_u16(&mut attrs, (value.len() % 0x1_0000) as u16);
        push_bytes(&mut attrs, value.as_slice());
        assert(attrs@ =~= pa_bytes@ + extended_attribute(MP_REACH_NLRI, value@));
        build_update_body(none.as_slice(), attrs.as_slice(), none.as_slice())
    };
    let update = build_bgp_message(BGP_MSG_UPDATE, body.as_slice());
    build_peer_message(BMP_MSG_ROUTE_MONITORING, peer, t, update.as_slice())
}

} // verus!
