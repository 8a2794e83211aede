//! Routes, their path attributes, and the updates that carry them.
use crate::ingress::{IngressId, IngressInfo};
use crate::net::{AfiSafiType, Asn, Prefix};
use crate::units::rib_unit::rpki::{rov_status_of, RovStatus, RpkiInfo};
use crate::wire::{capped, same_bytes};
use smallvec::SmallVec;
use std::collections::hash_map::DefaultHasher;
use std::collections::HashMap;
use std::hash::Hasher;
use std::sync::Arc;
use vstd::layout::size_of;
use vstd::prelude::*;
use vstd::std_specs::hash::*;

verus! {

//------------ Shared bytes --------------------------------------------------

/// `Arc::<[u8]>::from(&[u8])`: a new shared allocation that holds a copy of
/// the bytes.
#[verifier::external_body]
pub(crate) fn shared_copy(bytes: &[u8]) -> (shared: Arc<[u8]>)
    ensures
        shared@ == bytes@,
{
    Arc::from(bytes)
}

/// `Arc::make_mut`: a unique reference to the bytes, which are copied first if
/// they are shared. What is written through it is what the `Arc` then holds.
#[verifier::external_body]
fn unshared_mut(shared: &mut Arc<[u8]>) -> (bytes: &mut [u8])
    ensures
        bytes@ == old(shared)@,
        final(shared)@ == final(bytes)@,
{
    Arc::make_mut(shared)
}

/// `Arc::strong_count`: the number of owners of the allocation at this moment.
/// It depends on what the rest of the program holds, so nothing is promised.
#[verifier::external_body]
fn owners(shared: &Arc<[u8]>) -> (count: usize) {
    Arc::strong_count(shared)
}

/// The eight octets of a number, the least significant first.
pub open spec fn le64(n: u64) -> Seq<u8> {
    seq![
        (n % 0x100) as u8,
        (n / 0x100 % 0x100) as u8,
        (n / 0x1_0000 % 0x100) as u8,
        (n / 0x100_0000 % 0x100) as u8,
        (n / 0x1_0000_0000 % 0x100) as u8,
        (n / 0x100_0000_0000 % 0x100) as u8,
        (n / 0x1_0000_0000_0000 % 0x100) as u8,
        (n / 0x100_0000_0000_0000) as u8,
    ]
}

/// The hash under which a run of bytes is filed: of its length and the bytes,
/// as a slice is hashed.
pub open spec fn content_hash(bytes: Seq<u8>) -> u64 {
    DefaultHasher::spec_finish(seq![le64(bytes.len() as u64), bytes])
}

/// The hash under which a run of bytes is filed.
pub fn hash_bytes(raw: &[u8]) -> (hash: u64)
    ensures
        hash == content_hash(raw@),
{
    let mut hasher = DefaultHasher::new();
    let n: u64 = raw.len() as u64;
    let len: [u8; 8] = [
        (n % 0x100) as u8,
        (n / 0x100 % 0x100) as u8,
        (n / 0x1_0000 % 0x100) as u8,
        (n / 0x100_0000 % 0x100) as u8,
        (n / 0x1_0000_0000 % 0x100) as u8,
        (n / 0x100_0000_0000 % 0x100) as u8,
        (n / 0x1_0000_0000_0000 % 0x100) as u8,
        (n / 0x100_0000_0000_0000) as u8,
    ];
    assert(len@ =~= le64(n));
    hasher.write(len.as_slice());
    hasher.write(raw);
    assert(hasher@ =~= seq![le64(raw@.len() as u64), raw@]);
    hasher.finish()
}

//------------ UpstreamStatus ------------------------------------------------

/// A change of state of a source.
#[derive(Clone, Copy, Debug, PartialEq, Eq, Structural)]
pub enum UpstreamStatus {
    /// No more data will be sent for the specified source.
    ///
    /// This could be because a network connection has been lost, or at the
    /// protocol level a session has been terminated, but need not be network
    /// related: the last message of a replayed file may have been loaded.
    EndOfStream { ingress_id: IngressId },
}

//------------ PathAttributeInterner -----------------------------------------

const NUM_SHARDS: u64 = 64;

/// Keeps one shared copy of each run of path attributes in use.
///
/// The copies are filed by the hash of their content. A copy that nothing
/// outside the interner owns any more is dropped when its slot is next looked
/// at.
#[derive(Debug)]
pub struct PathAttributeInterner {
    shards: Vec<HashMap<u64, Vec<Arc<[u8]>>>>,
}

/// Whether one of the copies has this content.
pub open spec fn copies_hold(copies: Seq<Arc<[u8]>>, bytes: Seq<u8>) -> bool {
    exists|i: int| 0 <= i < copies.len() && (#[trigger] copies[i])@ == bytes
}

/// The copies filed under one hash: each belongs there, and no two have the
/// same content.
pub open spec fn copies_wf(copies: Seq<Arc<[u8]>>, hash: u64) -> bool {
    &&& forall|i: int|
        0 <= i < copies.len() ==> content_hash((#[trigger] copies[i])@) == hash
    &&& forall|i: int, j: int|
        0 <= i < j < copies.len() ==> (#[trigger] copies[i])@ != (#[trigger] copies[j])@
}

impl PathAttributeInterner {
    /// The copies filed under a hash.
    pub closed spec fn filed(&self, hash: u64) -> Seq<Arc<[u8]>> {
        let shard = self.shards@[(hash % NUM_SHARDS) as int]@;
        if shard.contains_key(hash) {
            shard[hash]@
        } else {
            Seq::empty()
        }
    }

    /// Whether the interner keeps a copy with this content.
    pub open spec fn holds(&self, bytes: Seq<u8>) -> bool {
        copies_hold(self.filed(content_hash(bytes)), bytes)
    }

    /// Every copy is filed under the hash of its content, and only once.
    pub closed spec fn wf(&self) -> bool {
        &&& self.shards@.len() == NUM_SHARDS
        &&& forall|hash: u64| copies_wf(#[trigger] self.filed(hash), hash)
    }

    /// An empty interner.
    pub fn new() -> (interner: Self)
        ensures
            interner.wf(),
            forall|bytes: Seq<u8>| !interner.holds(bytes),
    {
        let mut shards: Vec<HashMap<u64, Vec<Arc<[u8]>>>> = Vec::new();
        let mut i: u64 = 0;
        while i < NUM_SHARDS
            invariant
                i <= NUM_SHARDS,
                shards@.len() == i,
                forall|j: int|
                    0 <= j < i ==> (#[trigger] shards@[j])@ == Map::<
                        u64,
                        Vec<Arc<[u8]>>,
                    >::empty(),
            decreases NUM_SHARDS - i,
        {
            shards.push(HashMap::new());
            i += 1;
        }
        let interner = PathAttributeInterner { shards };
        assert forall|hash: u64| #[trigger] interner.filed(hash) == Seq::<Arc<[u8]>>::empty() by {
            assert(interner.shards@[(hash % NUM_SHARDS) as int]@ == Map::<
                u64,
                Vec<Arc<[u8]>>,
            >::empty());
        }
        interner
    }

    /// A shared copy of the bytes: the one already kept if there is one, or a
    /// new one that is kept from now on.
    pub fn intern(&mut self, raw: &[u8]) -> (shared: Arc<[u8]>)
        requires
            old(self).wf(),
        ensures
            shared@ == raw@,
            final(self).wf(),
            final(self).holds(raw@),
            forall|bytes: Seq<u8>|
                bytes != raw@ && #[trigger] final(self).holds(bytes) ==> old(self).holds(bytes),
            forall|bytes: Seq<u8>|
                content_hash(bytes) != content_hash(raw@) && old(self).holds(bytes)
                    ==> #[trigger] final(self).holds(bytes),
    {
        let hash: u64 = hash_bytes(raw);
        let shard: usize = (hash % NUM_SHARDS) as usize;
        let ghost shards = self.shards@;
        let mut entries = match self.shards[shard].remove(&hash) {
            Some(entries) => entries,
            None => Vec::new(),
        };
        assert(entries@ =~= old(self).filed(hash));
        let mut known: Option<Arc<[u8]>> = None;
        let mut idx: usize = 0;
        while known.is_none() && idx < entries.len()
            invariant
                idx <= entries@.len(),
                copies_wf(entries@, hash),
                forall|i: int|
                    0 <= i < entries@.len() ==> copies_hold(
                        old(self).filed(hash),
                        (#[trigger] entries@[i])@,
                    ),
                match known {
                    Some(k) => k@ == raw@ && copies_hold(entries@, raw@),
                    None => forall|i: int| 0 <= i < idx ==> (#[trigger] entries@[i])@ != raw@,
                },
            decreases entries@.len() - idx, (if known is None { 1int } else { 0int }),
        {
            if owners(&entries[idx]) <= 1 {
                let ghost before = entries@;
                entries.swap_remove(idx);
                assert forall|i: int| 0 <= i < entries@.len() implies #[trigger] entries@[i]
                    == before[if i == idx {
                    before.len() - 1
                } else {
                    i
                }] by {}
            } else if same_bytes(&entries[idx], raw) {
                known = Some(entries[idx].clone());
                assert(entries@[idx as int]@ == raw@);
            } else {
                idx += 1;
            }
        }
        let shared = match known {
            Some(shared) => shared,
            None => {
                let fresh = shared_copy(raw);
                let ghost before = entries@;
                entries.push(fresh.clone());
                assert(entries@.last()@ == raw@);
                assert(copies_hold(entries@, raw@));
                assert forall|i: int, j: int| 0 <= i < j < entries@.len() implies (
                #[trigger] entries@[i])@ != (#[trigger] entries@[j])@ by {
                    assert(entries@[i] == before[i]);
                    if j < before.len() {
                        assert(entries@[j] == before[j]);
                    }
                }
                fresh
            },
        };
        let ghost copies = entries@;
        self.shards[shard].insert(hash, entries);
        proof {
            assert forall|h: u64| h != hash implies #[trigger] self.filed(h) == old(self).filed(
                h,
            ) by {
                assert(self.shards@[(h % NUM_SHARDS) as int]@ =~= if h % NUM_SHARDS == hash
                    % NUM_SHARDS {
                    shards[shard as int]@.remove(hash).insert(
                        hash,
                        self.shards@[shard as int]@[hash],
                    )
                } else {
                    shards[(h % NUM_SHARDS) as int]@
                });
            }
            assert(self.filed(hash) =~= copies);
            assert forall|h: u64| copies_wf(#[trigger] self.filed(h), h) by {
                if h != hash {
                    assert(copies_wf(old(self).filed(h), h));
                }
            }
            assert forall|bytes: Seq<u8>|
                bytes != raw@ && #[trigger] self.holds(bytes) implies old(self).holds(bytes) by {
                let h = content_hash(bytes);
                if h == hash {
                    let i = choose|i: int|
                        0 <= i < copies.len() && (#[trigger] copies[i])@ == bytes;
                    assert(copies_hold(old(self).filed(hash), copies[i]@));
                }
            }
        }
        shared
    }
}

impl Default for PathAttributeInterner {
    fn default() -> (interner: Self)
        ensures
            interner.wf(),
            forall|bytes: Seq<u8>| !interner.holds(bytes),
    {
        PathAttributeInterner::new()
    }
}

//------------ Path attributes -----------------------------------------------

/// How the path attributes of a session are to be parsed.
#[derive(Clone, Copy, Debug, PartialEq, Eq, Structural)]
pub struct PduParseInfo {
    four_octet_asns: bool,
}

impl PduParseInfo {
    /// Whether AS numbers take four octets.
    pub closed spec fn four_octet(self) -> bool {
        self.four_octet_asns
    }

    /// A session with AS numbers of four octets.
    pub fn modern() -> (ppi: Self)
        ensures
            ppi.four_octet(),
    {
        PduParseInfo { four_octet_asns: true }
    }

    /// A session with AS numbers of two octets.
    pub fn legacy() -> (ppi: Self)
        ensures
            !ppi.four_octet(),
    {
        PduParseInfo { four_octet_asns: false }
    }

    /// Whether AS numbers take four octets.
    pub fn four_octet_enabled(&self) -> (yes: bool)
        ensures
            yes == self.four_octet(),
    {
        self.four_octet_asns
    }
}

/// The octet that stands for parse settings.
pub open spec fn ppi_octet(ppi: PduParseInfo) -> u8 {
    if ppi.four_octet() {
        1
    } else {
        0
    }
}

fn ppi_to_byte(ppi: PduParseInfo) -> (byte: u8)
    ensures
        byte == ppi_octet(ppi),
{
    if ppi.four_octet_enabled() {
        1
    } else {
        0
    }
}

fn byte_to_ppi(byte: u8) -> (ppi: PduParseInfo)
    ensures
        ppi.four_octet() == (byte == 1),
{
    if byte == 0x01 {
        PduParseInfo::modern()
    } else {
        PduParseInfo::legacy()
    }
}

/// Path attributes in wire format with the settings to parse them.
#[derive(Debug)]
pub struct OwnedPathAttributes {
    ppi: PduParseInfo,
    raw: Vec<u8>,
}

impl View for OwnedPathAttributes {
    type V = Seq<u8>;

    closed spec fn view(&self) -> Seq<u8> {
        self.raw@
    }
}

impl OwnedPathAttributes {
    /// The settings to parse the attributes with.
    pub closed spec fn parse_info(&self) -> PduParseInfo {
        self.ppi
    }

    /// The given attributes with the given settings.
    pub fn new(ppi: PduParseInfo, raw: Vec<u8>) -> (pa: Self)
        ensures
            pa.parse_info() == ppi,
            pa@ == raw@,
    {
        OwnedPathAttributes { ppi, raw }
    }

    /// The settings to parse the attributes with.
    pub fn pdu_parse_info(&self) -> (ppi: PduParseInfo)
        ensures
            ppi == self.parse_info(),
    {
        self.ppi
    }

    /// The attributes in wire format.
    pub fn as_slice(&self) -> (raw: &[u8])
        ensures
            raw@ == self@,
    {
        self.raw.as_slice()
    }

    /// The attributes in wire format, without a copy.
    pub fn into_vec(self) -> (raw: Vec<u8>)
        ensures
            raw@ == self@,
    {
        self.raw
    }
}

//------------ RotondaPaMap --------------------------------------------------

/// The path attributes of a route, shared between copies of the route.
#[derive(Debug)]
pub struct RotondaPaMap {
    // The first octet holds the RPKI information, the second says how to parse
    // the attributes, the rest are the attributes in wire format.
    raw: Arc<[u8]>,
}

impl View for RotondaPaMap {
    type V = Seq<u8>;

    /// The stored octets.
    closed spec fn view(&self) -> Seq<u8> {
        self.raw@
    }
}

/// The octets that are stored for path attributes that nothing is known of yet
/// from RPKI.
pub open spec fn fresh_octets(ppi: PduParseInfo, attributes: Seq<u8>) -> Seq<u8> {
    seq![0u8, ppi_octet(ppi)] + attributes
}

/// The path attributes among the stored octets.
pub open spec fn attribute_octets(octets: Seq<u8>) -> Seq<u8> {
    if octets.len() >= 2 {
        octets.skip(2)
    } else {
        Seq::empty()
    }
}

impl Clone for RotondaPaMap {
    fn clone(&self) -> (copy: Self)
        ensures
            copy == *self,
    {
        RotondaPaMap { raw: self.raw.clone() }
    }
}

impl PartialEq for RotondaPaMap {
    fn eq(&self, other: &Self) -> (same: bool) {
        same_bytes(&self.raw, &other.raw)
    }
}

impl vstd::std_specs::cmp::PartialEqSpecImpl for RotondaPaMap {
    open spec fn obeys_eq_spec() -> bool {
        true
    }

    open spec fn eq_spec(&self, other: &Self) -> bool {
        self@ == other@
    }
}

impl Eq for RotondaPaMap {

}

impl Default for RotondaPaMap {
    fn default() -> (pamap: Self)
        ensures
            pamap@ == Seq::<u8>::empty(),
    {
        let none: Vec<u8> = Vec::new();
        RotondaPaMap { raw: shared_copy(none.as_slice()) }
    }
}

impl From<OwnedPathAttributes> for RotondaPaMap {
    fn from(value: OwnedPathAttributes) -> (pamap: Self)
        ensures
            pamap@ == fresh_octets(value.parse_info(), value@),
    {
        RotondaPaMap::new(value)
    }
}

impl vstd::std_specs::convert::FromSpecImpl<OwnedPathAttributes> for RotondaPaMap {
    open spec fn obeys_from_spec() -> bool {
        false
    }

    open spec fn from_spec(value: OwnedPathAttributes) -> Self {
        arbitrary()
    }
}

impl From<Vec<u8>> for RotondaPaMap {
    fn from(value: Vec<u8>) -> (pamap: Self)
        ensures
            exists|ppi: PduParseInfo|
                ppi.four_octet() && pamap@ == #[trigger] fresh_octets(ppi, value@),
    {
        RotondaPaMap::new(OwnedPathAttributes::new(PduParseInfo::modern(), value))
    }
}

impl vstd::std_specs::convert::FromSpecImpl<Vec<u8>> for RotondaPaMap {
    open spec fn obeys_from_spec() -> bool {
        false
    }

    open spec fn from_spec(value: Vec<u8>) -> Self {
        arbitrary()
    }
}

impl RotondaPaMap {
    /// A route without path attributes.
    pub fn empty_path_attributes() -> (pamap: Self)
        ensures
            pamap@ == seq![0u8, 1u8],
    {
        let pamap = RotondaPaMap::new(
            OwnedPathAttributes::new(PduParseInfo::modern(), Vec::new()),
        );
        assert(pamap@ =~= seq![0u8, 1u8]);
        pamap
    }

    /// The given path attributes, not checked against RPKI.
    pub fn new(path_attributes: OwnedPathAttributes) -> (pamap: Self)
        ensures
            pamap@ == fresh_octets(path_attributes.parse_info(), path_attributes@),
    {
        let ppi = path_attributes.pdu_parse_info();
        let mut pas = path_attributes.into_vec();
        let mut raw: Vec<u8> = Vec::new();
        let rpki_info = RpkiInfo::default();
        raw.push(rpki_info.to_octet());
        raw.push(ppi_to_byte(ppi));
        raw.append(&mut pas);
        assert(raw@ =~= fresh_octets(ppi, path_attributes@));
        RotondaPaMap { raw: shared_copy(raw.as_slice()) }
    }

    /// The same path attributes, in the copy that the interner keeps.
    pub fn dedup_with(&self, interner: &mut PathAttributeInterner) -> (pamap: Self)
        requires
            old(interner).wf(),
        ensures
            pamap@ == self@,
            final(interner).wf(),
            final(interner).holds(self@),
            forall|bytes: Seq<u8>|
                bytes != self@ && #[trigger] final(interner).holds(bytes) ==> old(interner).holds(
                    bytes,
                ),
    {
        RotondaPaMap { raw: interner.intern(&self.raw) }
    }

    /// Marks the route with RPKI information. Other copies of the route are
    /// not affected.
    pub fn set_rpki_info(&mut self, rpki_info: RpkiInfo)
        requires
            old(self)@.len() > 0,
        ensures
            final(self)@ == old(self)@.update(0, rpki_info.octet()),
    {
        let bytes = unshared_mut(&mut self.raw);
        bytes[0] = rpki_info.to_octet();
    }

    /// What RPKI says of the route.
    pub fn rpki_info(&self) -> (info: RpkiInfo)
        requires
            self@.len() > 0,
        ensures
            info.status() == rov_status_of(self@[0]),
    {
        let raw: &[u8] = &self.raw;
        RpkiInfo::from_octet(raw[0])
    }

    /// The path attributes of the route.
    pub fn path_attributes(&self) -> (pa: OwnedPathAttributes)
        requires
            self@.len() >= 2,
        ensures
            pa.parse_info().four_octet() == (self@[1] == 1),
            pa@ == attribute_octets(self@),
    {
        let raw: &[u8] = &self.raw;
        let ppi = byte_to_ppi(raw[1]);
        let attributes = vstd::slice::slice_subrange(raw, 2, raw.len());
        OwnedPathAttributes::new(ppi, vstd::slice::slice_to_vec(attributes))
    }

    /// The stored octets.
    pub fn as_ref(&self) -> (raw: &[u8])
        ensures
            raw@ == self@,
    {
        &self.raw
    }

    /// The stored octets, shared.
    pub fn raw_arc(&self) -> (raw: Arc<[u8]>)
        ensures
            raw@ == self@,
    {
        self.raw.clone()
    }

    /// The route whose stored octets these are.
    pub fn from_raw_arc(raw: Arc<[u8]>) -> (pamap: Self)
        ensures
            pamap@ == raw@,
    {
        RotondaPaMap { raw }
    }
}

/// What is read back of stored path attributes is what was stored.
pub proof fn path_attributes_round_trip(ppi: PduParseInfo, attributes: Seq<u8>)
    ensures
        attribute_octets(fresh_octets(ppi, attributes)) == attributes,
        (fresh_octets(ppi, attributes)[1] == 1) == ppi.four_octet(),
        rov_status_of(fresh_octets(ppi, attributes)[0]) == RovStatus::NotChecked,
{
    assert(attribute_octets(fresh_octets(ppi, attributes)) =~= attributes);
}

/// The RPKI information that was set is the one that is read back, and setting
/// it changes neither the path attributes nor how they are parsed.
pub proof fn rpki_info_round_trip(octets: Seq<u8>, info: RpkiInfo)
    requires
        octets.len() >= 2,
    ensures
        rov_status_of(octets.update(0, info.octet())[0]) == info.status(),
        octets.update(0, info.octet())[1] == octets[1],
        attribute_octets(octets.update(0, info.octet())) == attribute_octets(octets),
{
    assert(attribute_octets(octets.update(0, info.octet())) =~= attribute_octets(octets));
}

/// The type of the MP_UNREACH_NLRI path attribute.
pub const MP_UNREACH_NLRI: u8 = 15;

/// Whether a path attribute of this type is part of the presentation of a
/// route: withdrawn NLRI never are, other attributes are if no selection was
/// made or the selection names their type.
pub open spec fn attribute_is_shown(type_code: u8, selected: Option<Seq<u8>>) -> bool {
    type_code != MP_UNREACH_NLRI && match selected {
        Some(types) => types.contains(type_code),
        None => true,
    }
}

/// Whether a path attribute of this type is part of the presentation of a
/// route.
pub fn shows_attribute(type_code: u8, selected: Option<&Vec<u8>>) -> (shown: bool)
    ensures
        shown == attribute_is_shown(
            type_code,
            match selected {
                Some(types) => Some(types@),
                None => None,
            },
        ),
{
    if type_code == MP_UNREACH_NLRI {
        return false;
    }
    match selected {
        Some(types) => {
            let mut i: usize = 0;
            while i < types.len()
                invariant
                    i <= types@.len(),
                    type_code != MP_UNREACH_NLRI,
                    selected == Some(types),
                    forall|j: int| 0 <= j < i ==> types@[j] != type_code,
                decreases types@.len() - i,
            {
                if types[i] == type_code {
                    assert(types@.contains(types@[i as int]));
                    return true;
                }
                i += 1;
            }
            false
        },
        None => true,
    }
}

//------------ RotondaRoute --------------------------------------------------

/// Whether a route is in use.
#[derive(Clone, Copy, Debug, PartialEq, Eq, Structural)]
pub enum RouteStatus {
    Active,
    InActive,
    Withdrawn,
}

impl RouteStatus {
    /// The word for the status.
    pub open spec fn word(self) -> Seq<char> {
        match self {
            RouteStatus::Active => "active"@,
            RouteStatus::InActive => "inactive"@,
            RouteStatus::Withdrawn => "withdrawn"@,
        }
    }

    /// The word for the status.
    pub fn name(self) -> (name: &'static str)
        ensures
            name@ == self.word(),
    {
        match self {
            RouteStatus::Active => "active",
            RouteStatus::InActive => "inactive",
            RouteStatus::Withdrawn => "withdrawn",
        }
    }
}

/// A prefix of one of the supported address families with its path attributes.
#[derive(Debug)]
pub enum RotondaRoute {
    Ipv4Unicast(Prefix, RotondaPaMap),
    Ipv6Unicast(Prefix, RotondaPaMap),
    Ipv4Multicast(Prefix, RotondaPaMap),
    Ipv6Multicast(Prefix, RotondaPaMap),
}

impl RotondaRoute {
    /// The prefix of the route.
    pub open spec fn prefix_spec(self) -> Prefix {
        match self {
            RotondaRoute::Ipv4Unicast(n, _) => n,
            RotondaRoute::Ipv6Unicast(n, _) => n,
            RotondaRoute::Ipv4Multicast(n, _) => n,
            RotondaRoute::Ipv6Multicast(n, _) => n,
        }
    }

    /// The path attributes of the route.
    pub open spec fn pamap_spec(self) -> RotondaPaMap {
        match self {
            RotondaRoute::Ipv4Unicast(_, p) => p,
            RotondaRoute::Ipv6Unicast(_, p) => p,
            RotondaRoute::Ipv4Multicast(_, p) => p,
            RotondaRoute::Ipv6Multicast(_, p) => p,
        }
    }

    /// The address family of the route.
    pub open spec fn afisafi_spec(self) -> AfiSafiType {
        match self {
            RotondaRoute::Ipv4Unicast(..) => AfiSafiType::Ipv4Unicast,
            RotondaRoute::Ipv6Unicast(..) => AfiSafiType::Ipv6Unicast,
            RotondaRoute::Ipv4Multicast(..) => AfiSafiType::Ipv4Multicast,
            RotondaRoute::Ipv6Multicast(..) => AfiSafiType::Ipv6Multicast,
        }
    }

    /// The prefix of the route.
    pub fn prefix(&self) -> (prefix: Prefix)
        ensures
            prefix == self.prefix_spec(),
    {
        match self {
            RotondaRoute::Ipv4Unicast(n, _) => *n,
            RotondaRoute::Ipv6Unicast(n, _) => *n,
            RotondaRoute::Ipv4Multicast(n, _) => *n,
            RotondaRoute::Ipv6Multicast(n, _) => *n,
        }
    }

    /// The address family of the route.
    pub fn afisafi(&self) -> (afisafi: AfiSafiType)
        ensures
            afisafi == self.afisafi_spec(),
    {
        match self {
            RotondaRoute::Ipv4Unicast(..) => AfiSafiType::Ipv4Unicast,
            RotondaRoute::Ipv6Unicast(..) => AfiSafiType::Ipv6Unicast,
            RotondaRoute::Ipv4Multicast(..) => AfiSafiType::Ipv4Multicast,
            RotondaRoute::Ipv6Multicast(..) => AfiSafiType::Ipv6Multicast,
        }
    }

    /// The path attributes of the route, on their own.
    pub fn owned_map(&self) -> (pa: OwnedPathAttributes)
        requires
            self.pamap_spec()@.len() >= 2,
        ensures
            pa.parse_info().four_octet() == (self.pamap_spec()@[1] == 1),
            pa@ == attribute_octets(self.pamap_spec()@),
    {
        self.rotonda_pamap().path_attributes()
    }

    /// The path attributes of the route.
    pub fn rotonda_pamap(&self) -> (pamap: &RotondaPaMap)
        ensures
            *pamap == self.pamap_spec(),
    {
        match self {
            RotondaRoute::Ipv4Unicast(_, p) => p,
            RotondaRoute::Ipv6Unicast(_, p) => p,
            RotondaRoute::Ipv4Multicast(_, p) => p,
            RotondaRoute::Ipv6Multicast(_, p) => p,
        }
    }

    /// The path attributes of the route, to change them.
    pub fn rotonda_pamap_mut(&mut self) -> (pamap: &mut RotondaPaMap)
        ensures
            *pamap == old(self).pamap_spec(),
            final(self).pamap_spec() == *final(pamap),
            final(self).prefix_spec() == old(self).prefix_spec(),
            final(self).afisafi_spec() == old(self).afisafi_spec(),
    {
        match self {
            RotondaRoute::Ipv4Unicast(_, p) => p,
            RotondaRoute::Ipv6Unicast(_, p) => p,
            RotondaRoute::Ipv4Multicast(_, p) => p,
            RotondaRoute::Ipv6Multicast(_, p) => p,
        }
    }
}

impl Clone for RotondaRoute {
    fn clone(&self) -> (copy: Self)
        ensures
            copy == *self,
    {
        match self {
            RotondaRoute::Ipv4Unicast(n, p) => RotondaRoute::Ipv4Unicast(*n, p.clone()),
            RotondaRoute::Ipv6Unicast(n, p) => RotondaRoute::Ipv6Unicast(*n, p.clone()),
            RotondaRoute::Ipv4Multicast(n, p) => RotondaRoute::Ipv4Multicast(*n, p.clone()),
            RotondaRoute::Ipv6Multicast(n, p) => RotondaRoute::Ipv6Multicast(*n, p.clone()),
        }
    }
}

/// Whether two routes agree on address family, prefix and path attributes.
pub open spec fn same_route(a: RotondaRoute, b: RotondaRoute) -> bool {
    a.afisafi_spec() == b.afisafi_spec() && a.prefix_spec() == b.prefix_spec()
        && a.pamap_spec()@ == b.pamap_spec()@
}

impl PartialEq for RotondaRoute {
    fn eq(&self, other: &Self) -> (same: bool) {
        self.afisafi() == other.afisafi() && self.prefix() == other.prefix() && same_bytes(
            self.rotonda_pamap().as_ref(),
            other.rotonda_pamap().as_ref(),
        )
    }
}

impl vstd::std_specs::cmp::PartialEqSpecImpl for RotondaRoute {
    open spec fn obeys_eq_spec() -> bool {
        true
    }

    open spec fn eq_spec(&self, other: &Self) -> bool {
        same_route(*self, *other)
    }
}

impl Eq for RotondaRoute {

}

//------------ Payload -------------------------------------------------------

/// `std::time::Instant`, which is only carried.
#[verifier::external_type_specification]
#[verifier::external_body]
pub struct ExInstant(std::time::Instant);

/// `Instant::now`: the present moment, of which nothing is promised.
#[verifier::external_body]
fn instant_now() -> std::time::Instant {
    std::time::Instant::now()
}

/// A route on its way through the pipeline.
#[derive(Debug)]
pub struct Payload {
    pub rx_value: RotondaRoute,
    pub trace_id: Option<u8>,
    pub received: std::time::Instant,
    pub ingress_id: IngressId,
    pub route_status: RouteStatus,
}

impl Clone for Payload {
    fn clone(&self) -> (copy: Self)
        ensures
            copy == *self,
    {
        Payload {
            rx_value: self.rx_value.clone(),
            trace_id: self.trace_id,
            received: self.received,
            ingress_id: self.ingress_id,
            route_status: self.route_status,
        }
    }
}

impl PartialEq for Payload {
    /// The moment of receipt, the source and the status are not compared.
    fn eq(&self, other: &Self) -> (same: bool) {
        self.rx_value == other.rx_value && match (self.trace_id, other.trace_id) {
            (Some(a), Some(b)) => a == b,
            (None, None) => true,
            _ => false,
        }
    }
}

impl vstd::std_specs::cmp::PartialEqSpecImpl for Payload {
    open spec fn obeys_eq_spec() -> bool {
        true
    }

    open spec fn eq_spec(&self, other: &Self) -> bool {
        same_route(self.rx_value, other.rx_value) && self.trace_id == other.trace_id
    }
}

impl Eq for Payload {

}

impl Payload {
    /// A route that was received just now.
    pub fn new(
        rx_value: RotondaRoute,
        trace_id: Option<u8>,
        ingress_id: IngressId,
        route_status: RouteStatus,
    ) -> (payload: Self)
        ensures
            payload == (Payload {
                rx_value,
                trace_id,
                received: payload.received,
                ingress_id,
                route_status,
            }),
    {
        Payload { rx_value, trace_id, received: instant_now(), ingress_id, route_status }
    }

    /// A route that was received at the given moment.
    pub fn with_received(
        rx_value: RotondaRoute,
        trace_id: Option<u8>,
        received: std::time::Instant,
        ingress_id: IngressId,
        route_status: RouteStatus,
    ) -> (payload: Self)
        ensures
            payload == (Payload { rx_value, trace_id, received, ingress_id, route_status }),
    {
        Payload { rx_value, trace_id, received, ingress_id, route_status }
    }

    /// The trace that the route belongs to.
    pub fn trace_id(&self) -> (id: Option<u8>)
        ensures
            id == self.trace_id,
    {
        self.trace_id
    }
}

//------------ Batches -------------------------------------------------------

/// Routes that travel together; up to eight are held in place.
#[verifier::external_body]
#[derive(Debug)]
pub struct PayloadBatch {
    inner: SmallVec<[Payload; 8]>,
}

/// The routes of a batch, in order.
pub uninterp spec fn batch_payloads(batch: PayloadBatch) -> Seq<Payload>;

impl View for PayloadBatch {
    type V = Seq<Payload>;

    open spec fn view(&self) -> Seq<Payload> {
        batch_payloads(*self)
    }
}

impl Clone for PayloadBatch {
    /// `SmallVec::clone`: holds a clone of each item, in the same order; the
    /// clone of an item equals the item.
    #[verifier::external_body]
    fn clone(&self) -> (copy: Self)
        ensures
            batch_payloads(copy) == batch_payloads(*self),
    {
        PayloadBatch { inner: self.inner.clone() }
    }
}

impl PayloadBatch {
    /// `SmallVec::new`: holds nothing.
    #[verifier::external_body]
    fn empty() -> (batch: Self)
        ensures
            batch_payloads(batch) == Seq::<Payload>::empty(),
    {
        PayloadBatch { inner: SmallVec::new() }
    }

    /// `SmallVec::push`: appends the item.
    #[verifier::external_body]
    fn append_one(&mut self, payload: Payload)
        ensures
            batch_payloads(*final(self)) == batch_payloads(*old(self)).push(payload),
    {
        self.inner.push(payload)
    }

    /// `SmallVec::len`: the number of items.
    #[verifier::external_body]
    fn count(&self) -> (n: usize)
        ensures
            n == batch_payloads(*self).len(),
    {
        self.inner.len()
    }

    /// `SmallVec::index`: the item at a position, counted from zero. It panics
    /// on a position beyond the last.
    #[verifier::external_body]
    fn item(&self, i: usize) -> (payload: &Payload)
        requires
            i < batch_payloads(*self).len(),
        ensures
            *payload == batch_payloads(*self)[i as int],
    {
        &self.inner[i]
    }

    /// A batch without routes.
    pub fn new() -> (batch: Self)
        ensures
            batch@ == Seq::<Payload>::empty(),
    {
        PayloadBatch::empty()
    }

    /// Appends a route.
    pub fn push(&mut self, payload: Payload)
        ensures
            final(self)@ == old(self)@.push(payload),
    {
        self.append_one(payload)
    }

    /// The number of routes.
    pub fn len(&self) -> (n: usize)
        ensures
            n == self@.len(),
    {
        self.count()
    }

    /// The route at a position.
    pub fn get(&self, i: usize) -> (payload: &Payload)
        requires
            i < self@.len(),
        ensures
            *payload == self@[i as int],
    {
        self.item(i)
    }
}

/// A source whose routes are to be withdrawn, with what is known of it.
///
/// The information is that of the moment of sending: the source may be gone
/// from the register by the time the withdrawal is acted on.
#[derive(Debug)]
pub struct WithdrawnSource {
    pub ingress_id: IngressId,
    pub ingress_info: Option<IngressInfo>,
}

impl Clone for WithdrawnSource {
    fn clone(&self) -> (copy: Self)
        ensures
            copy == *self,
    {
        let ingress_info = match &self.ingress_info {
            Some(info) => Some(info.clone()),
            None => None,
        };
        WithdrawnSource { ingress_id: self.ingress_id, ingress_info }
    }
}

/// Sources that are withdrawn together; up to eight are held in place.
#[verifier::external_body]
#[derive(Debug)]
pub struct WithdrawBatch {
    inner: SmallVec<[WithdrawnSource; 8]>,
}

/// The sources of a batch, in order.
pub uninterp spec fn batch_sources(batch: WithdrawBatch) -> Seq<WithdrawnSource>;

impl View for WithdrawBatch {
    type V = Seq<WithdrawnSource>;

    open spec fn view(&self) -> Seq<WithdrawnSource> {
        batch_sources(*self)
    }
}

impl Clone for WithdrawBatch {
    /// `SmallVec::clone`: holds a clone of each item, in the same order; the
    /// clone of an item equals the item.
    #[verifier::external_body]
    fn clone(&self) -> (copy: Self)
        ensures
            batch_sources(copy) == batch_sources(*self),
    {
        WithdrawBatch { inner: self.inner.clone() }
    }
}

impl WithdrawBatch {
    /// `SmallVec::new`: holds nothing.
    #[verifier::external_body]
    fn empty() -> (batch: Self)
        ensures
            batch_sources(batch) == Seq::<WithdrawnSource>::empty(),
    {
        WithdrawBatch { inner: SmallVec::new() }
    }

    /// `SmallVec::push`: appends the item.
    #[verifier::external_body]
    fn append_one(&mut self, source: WithdrawnSource)
        ensures
            batch_sources(*final(self)) == batch_sources(*old(self)).push(source),
    {
        self.inner.push(source)
    }

    /// `SmallVec::len`: the number of items.
    #[verifier::external_body]
    fn count(&self) -> (n: usize)
        ensures
            n == batch_sources(*self).len(),
    {
        self.inner.len()
    }

    /// `SmallVec::index`: the item at a position, counted from zero. It panics
    /// on a position beyond the last.
    #[verifier::external_body]
    fn item(&self, i: usize) -> (source: &WithdrawnSource)
        requires
            i < batch_sources(*self).len(),
        ensures
            *source == batch_sources(*self)[i as int],
    {
        &self.inner[i]
    }

    /// A batch without sources.
    pub fn new() -> (batch: Self)
        ensures
            batch@ == Seq::<WithdrawnSource>::empty(),
    {
        WithdrawBatch::empty()
    }

    /// Appends a source.
    pub fn push(&mut self, source: WithdrawnSource)
        ensures
            final(self)@ == old(self)@.push(source),
    {
        self.append_one(source)
    }

    /// The number of sources.
    pub fn len(&self) -> (n: usize)
        ensures
            n == self@.len(),
    {
        self.count()
    }

    /// The source at a position.
    pub fn get(&self, i: usize) -> (source: &WithdrawnSource)
        requires
            i < self@.len(),
        ensures
            *source == self@[i as int],
    {
        self.item(i)
    }
}

/// `bytes::Bytes`, shared bytes.
#[verifier::external_type_specification]
#[verifier::external_body]
pub struct ExBytes(bytes::Bytes);

/// What shared bytes hold.
pub uninterp spec fn bytes_content(b: bytes::Bytes) -> Seq<u8>;

/// `Bytes::copy_from_slice`: shared bytes that hold a copy of the slice.
#[verifier::external_body]
fn bytes_from_slice(slice: &[u8]) -> (b: bytes::Bytes)
    ensures
        bytes_content(b) == slice@,
{
    bytes::Bytes::copy_from_slice(slice)
}

/// `Bytes::as_ref`: what the shared bytes hold.
#[verifier::external_body]
fn bytes_as_slice(b: &bytes::Bytes) -> (slice: &[u8])
    ensures
        slice@ == bytes_content(*b),
{
    b.as_ref()
}

/// `Bytes::clone`: shares the same bytes.
pub assume_specification[ <bytes::Bytes as Clone>::clone ](b: &bytes::Bytes) -> (copy: bytes::Bytes)
    ensures
        bytes_content(copy) == bytes_content(*b),
;

/// The body of a statistics report.
#[derive(Debug)]
pub struct StatsBody {
    body: bytes::Bytes,
}

impl Clone for StatsBody {
    fn clone(&self) -> (copy: Self)
        ensures
            copy@ == self@,
    {
        StatsBody { body: self.body.clone() }
    }
}

impl View for StatsBody {
    type V = Seq<u8>;

    closed spec fn view(&self) -> Seq<u8> {
        bytes_content(self.body)
    }
}

impl StatsBody {
    /// A body that holds a copy of the slice.
    pub fn new(slice: &[u8]) -> (body: Self)
        ensures
            body@ == slice@,
    {
        StatsBody { body: bytes_from_slice(slice) }
    }

    /// The octets of the body.
    pub fn as_slice(&self) -> (slice: &[u8])
        ensures
            slice@ == self@,
    {
        bytes_as_slice(&self.body)
    }
}

//------------ Update --------------------------------------------------------

/// A message for an output stream.
#[derive(Debug)]
pub struct OutputStreamMessage {
    pub name: String,
    pub topic: String,
    pub record: Vec<u8>,
    pub ingress_id: Option<IngressId>,
}

/// Whether two messages for an output stream say the same.
pub open spec fn same_message(a: OutputStreamMessage, b: OutputStreamMessage) -> bool {
    a.name@ == b.name@ && a.topic@ == b.topic@ && a.record@ == b.record@ && a.ingress_id
        == b.ingress_id
}

impl Clone for OutputStreamMessage {
    fn clone(&self) -> (copy: Self)
        ensures
            same_message(copy, *self),
    {
        OutputStreamMessage {
            name: self.name.clone(),
            topic: self.topic.clone(),
            record: vstd::slice::slice_to_vec(self.record.as_slice()),
            ingress_id: self.ingress_id,
        }
    }
}

/// Messages for output streams that travel together; up to two are held in
/// place.
#[verifier::external_body]
#[derive(Debug)]
pub struct OutputBatch {
    inner: SmallVec<[OutputStreamMessage; 2]>,
}

/// The messages of a batch, in order.
pub uninterp spec fn batch_messages(batch: OutputBatch) -> Seq<OutputStreamMessage>;

impl View for OutputBatch {
    type V = Seq<OutputStreamMessage>;

    open spec fn view(&self) -> Seq<OutputStreamMessage> {
        batch_messages(*self)
    }
}

/// Whether two runs of messages say the same.
pub open spec fn same_messages(a: Seq<OutputStreamMessage>, b: Seq<OutputStreamMessage>) -> bool {
    a.len() == b.len() && forall|i: int| 0 <= i < a.len() ==> same_message(#[trigger] a[i], b[i])
}

impl Clone for OutputBatch {
    /// `SmallVec::clone`: holds a clone of each item, in the same order; the
    /// clone of an item says the same as the item.
    #[verifier::external_body]
    fn clone(&self) -> (copy: Self)
        ensures
            same_messages(batch_messages(copy), batch_messages(*self)),
    {
        OutputBatch { inner: self.inner.clone() }
    }
}

impl OutputBatch {
    /// `SmallVec::new`: holds nothing.
    #[verifier::external_body]
    fn empty() -> (batch: Self)
        ensures
            batch_messages(batch) == Seq::<OutputStreamMessage>::empty(),
    {
        OutputBatch { inner: SmallVec::new() }
    }

    /// `SmallVec::push`: appends the item.
    #[verifier::external_body]
    fn append_one(&mut self, message: OutputStreamMessage)
        ensures
            batch_messages(*final(self)) == batch_messages(*old(self)).push(message),
    {
        self.inner.push(message)
    }

    /// `SmallVec::len`: the number of items.
    #[verifier::external_body]
    fn count(&self) -> (n: usize)
        ensures
            n == batch_messages(*self).len(),
    {
        self.inner.len()
    }

    /// A batch without messages.
    pub fn new() -> (batch: Self)
        ensures
            batch@ == Seq::<OutputStreamMessage>::empty(),
    {
        OutputBatch::empty()
    }

    /// Appends a message.
    pub fn push(&mut self, message: OutputStreamMessage)
        ensures
            final(self)@ == old(self)@.push(message),
    {
        self.append_one(message)
    }

    /// The number of messages.
    pub fn len(&self) -> (n: usize)
        ensures
            n == self@.len(),
    {
        self.count()
    }
}

/// A validated route origin.
#[derive(Clone, Copy, Debug, PartialEq, Eq, Structural)]
pub struct RouteOrigin {
    pub prefix: Prefix,
    pub max_len: u8,
    pub asn: Asn,
}

/// A change of the validated route origins.
#[derive(Debug)]
pub enum RtrUpdate {
    Full(Vec<RouteOrigin>),
    Delta { announced: Vec<RouteOrigin>, withdrawn: Vec<RouteOrigin> },
}

/// Whether two changes of the validated route origins are the same.
pub open spec fn same_change(a: RtrUpdate, b: RtrUpdate) -> bool {
    match (a, b) {
        (RtrUpdate::Full(x), RtrUpdate::Full(y)) => x@ == y@,
        (
            RtrUpdate::Delta { announced: x, withdrawn: v },
            RtrUpdate::Delta { announced: y, withdrawn: w },
        ) => x@ == y@ && v@ == w@,
        _ => false,
    }
}

impl Clone for RtrUpdate {
    fn clone(&self) -> (copy: Self)
        ensures
            same_change(copy, *self),
    {
        match self {
            RtrUpdate::Full(all) => RtrUpdate::Full(
                vstd::slice::slice_to_vec(all.as_slice()),
            ),
            RtrUpdate::Delta { announced, withdrawn } => RtrUpdate::Delta {
                announced: vstd::slice::slice_to_vec(announced.as_slice()),
                withdrawn: vstd::slice::slice_to_vec(withdrawn.as_slice()),
            },
        }
    }
}

/// What travels between the units of the pipeline.
#[derive(Debug)]
pub enum Update {
    Single(Payload),
    Bulk(Box<PayloadBatch>),
    /// Everything of a source, or one address family of it, is withdrawn
    /// because the session ended.
    Withdraw(IngressId, Option<AfiSafiType>),
    /// Everything of several sources is withdrawn, as when a BMP connection
    /// goes down.
    WithdrawBulk(Box<WithdrawBatch>),
    /// A source is to be active again.
    IngressReappeared(IngressId),
    UpstreamStatusChange(UpstreamStatus),
    OutputStream(Box<OutputBatch>),
    Rtr(RtrUpdate),
    /// A BMP Statistics Report as it came from a router: what follows the
    /// per-peer header.
    PeerStats { ingress_id: IngressId, body: StatsBody },
}

/// Whether two updates carry the same.
pub open spec fn same_update(a: Update, b: Update) -> bool {
    match (a, b) {
        (Update::Single(p), Update::Single(q)) => p == q,
        (Update::Bulk(p), Update::Bulk(q)) => p@ == q@,
        (Update::Withdraw(i, f), Update::Withdraw(j, g)) => i == j && f == g,
        (Update::WithdrawBulk(p), Update::WithdrawBulk(q)) => p@ == q@,
        (Update::IngressReappeared(i), Update::IngressReappeared(j)) => i == j,
        (Update::UpstreamStatusChange(s), Update::UpstreamStatusChange(t)) => s == t,
        (Update::OutputStream(p), Update::OutputStream(q)) => same_messages(p@, q@),
        (Update::Rtr(p), Update::Rtr(q)) => same_change(p, q),
        (
            Update::PeerStats { ingress_id: i, body: p },
            Update::PeerStats { ingress_id: j, body: q },
        ) => i == j && p@ == q@,
        _ => false,
    }
}

impl Clone for Update {
    fn clone(&self) -> (copy: Self)
        ensures
            same_update(copy, *self),
    {
        match self {
            Update::Single(payload) => Update::Single(payload.clone()),
            Update::Bulk(payloads) => {
                let batch: &PayloadBatch = payloads;
                Update::Bulk(Box::new(batch.clone()))
            },
            Update::Withdraw(ingress_id, afisafi) => Update::Withdraw(*ingress_id, *afisafi),
            Update::WithdrawBulk(sources) => {
                let batch: &WithdrawBatch = sources;
                Update::WithdrawBulk(Box::new(batch.clone()))
            },
            Update::IngressReappeared(ingress_id) => Update::IngressReappeared(*ingress_id),
            Update::UpstreamStatusChange(status) => Update::UpstreamStatusChange(*status),
            Update::OutputStream(messages) => {
                let batch: &OutputBatch = messages;
                Update::OutputStream(Box::new(batch.clone()))
            },
            Update::Rtr(change) => Update::Rtr(change.clone()),
            Update::PeerStats { ingress_id, body } => Update::PeerStats {
                ingress_id: *ingress_id,
                body: body.clone(),
            },
        }
    }
}

/// The routes that an update carries.
pub open spec fn update_payloads(update: Update) -> Seq<Payload> {
    match update {
        Update::Single(payload) => seq![payload],
        Update::Bulk(payloads) => payloads@,
        _ => Seq::empty(),
    }
}

/// The traced routes among some.
pub open spec fn traced(payloads: Seq<Payload>) -> Seq<Payload> {
    payloads.filter(|p: Payload| p.trace_id is Some)
}

/// The memory that keeping an update alive takes, without what is shared.
pub open spec fn footprint(update: Update) -> nat {
    size_of::<Update>() + match update {
        Update::Bulk(payloads) => payloads@.len() * size_of::<Payload>(),
        Update::WithdrawBulk(sources) => sources@.len() * size_of::<WithdrawnSource>(),
        Update::OutputStream(msgs) => msgs@.len() * size_of::<OutputStreamMessage>(),
        _ => 0,
    }
}

/// `base + count * size`, or the largest number if that does not fit.
fn capped_size(base: usize, count: usize, size: usize) -> (n: usize)
    ensures
        n == capped((base + count * size) as nat),
{
    match count.checked_mul(size) {
        Some(items) => base.saturating_add(items),
        None => {
            assert(count * size > usize::MAX);
            usize::MAX
        },
    }
}

impl Update {
    /// The traced routes of the update, in order.
    pub fn trace_ids(&self) -> (found: Vec<&Payload>)
        ensures
            found@.map_values(|p: &Payload| *p) == traced(update_payloads(*self)),
    {
        let ghost deref = |p: &Payload| *p;
        let ghost keep = |p: Payload| p.trace_id is Some;
        let mut found: Vec<&Payload> = Vec::new();
        match self {
            Update::Single(payload) => {
                if payload.trace_id().is_some() {
                    found.push(payload);
                }
                proof {
                    reveal(Seq::filter);
                    assert(seq![*payload].drop_last() =~= Seq::empty());
                    assert(seq![*payload].drop_last().filter(keep) =~= Seq::empty());
                    assert(found@.map_values(deref) =~= seq![*payload].filter(keep));
                }
            },
            Update::Bulk(payloads) => {
                let n: usize = payloads.len();
                let mut i: usize = 0;
                proof {
                    reveal(Seq::filter);
                    assert(found@.map_values(deref) =~= payloads@.take(0).filter(keep));
                }
                while i < n
                    invariant
                        i <= n,
                        n == payloads@.len(),
                        deref == (|p: &Payload| *p),
                        keep == (|p: Payload| p.trace_id is Some),
                        found@.map_values(deref) == payloads@.take(i as int).filter(keep),
                    decreases n - i,
                {
                    let payload = payloads.get(i);
                    proof {
                        reveal(Seq::filter);
                        let t = payloads@.take(i + 1);
                        assert(t.drop_last() =~= payloads@.take(i as int));
                        assert(t.last() == *payload);
                    }
                    if payload.trace_id().is_some() {
                        let ghost before = found@;
                        found.push(payload);
                        assert(found@.map_values(deref) =~= before.map_values(deref).push(
                            *payload,
                        ));
                    }
                    i += 1;
                }
                assert(payloads@.take(n as int) =~= payloads@);
            },
            _ => {
                proof {
                    reveal(Seq::filter);
                    assert(found@.map_values(deref) =~= Seq::<Payload>::empty().filter(keep));
                }
            },
        }
        found
    }

    /// An estimate of the memory that keeping this update alive takes. What is
    /// shared with the stored routes is not counted.
    pub fn shallow_bytes(&self) -> (n: usize)
        ensures
            n == capped(footprint(*self)),
    {
        let base: usize = std::mem::size_of::<Update>();
        match self {
            Update::Bulk(payloads) => capped_size(
                base,
                payloads.len(),
                std::mem::size_of::<Payload>(),
            ),
            Update::WithdrawBulk(sources) => capped_size(
                base,
                sources.len(),
                std::mem::size_of::<WithdrawnSource>(),
            ),
            Update::OutputStream(msgs) => capped_size(
                base,
                msgs.len(),
                std::mem::size_of::<OutputStreamMessage>(),
            ),
            _ => base,
        }
    }
}

impl From<Payload> for Update {
    fn from(payload: Payload) -> (update: Self) {
        Update::Single(payload)
    }
}

impl vstd::std_specs::convert::FromSpecImpl<Payload> for Update {
    open spec fn obeys_from_spec() -> bool {
        true
    }

    open spec fn from_spec(payload: Payload) -> Self {
        Update::Single(payload)
    }
}

impl<const N: usize> From<[Payload; N]> for Update {
    fn from(payloads: [Payload; N]) -> (update: Self)
        ensures
            update matches Update::Bulk(batch) && batch@ == payloads@,
    {
        let mut batch = PayloadBatch::new();
        let mut i: usize = 0;
        while i < N
            invariant
                i <= N,
                batch@ == payloads@.take(i as int),
            decreases N - i,
        {
            batch.push(payloads[i].clone());
            i += 1;
            assert(payloads@.take(i as int) =~= payloads@.take(i - 1).push(payloads@[i - 1]));
        }
        assert(payloads@.take(N as int) =~= payloads@);
        Update::Bulk(Box::new(batch))
    }
}

impl<const N: usize> vstd::std_specs::convert::FromSpecImpl<[Payload; N]> for Update {
    open spec fn obeys_from_spec() -> bool {
        false
    }

    open spec fn from_spec(payloads: [Payload; N]) -> Self {
        arbitrary()
    }
}

impl From<PayloadBatch> for Update {
    fn from(payloads: PayloadBatch) -> (update: Self) {
        Update::Bulk(Box::new(payloads))
    }
}

impl vstd::std_specs::convert::FromSpecImpl<PayloadBatch> for Update {
    open spec fn obeys_from_spec() -> bool {
        true
    }

    open spec fn from_spec(payloads: PayloadBatch) -> Self {
        Update::Bulk(Box::new(payloads))
    }
}

//------------ Laws ----------------------------------------------------------

/// The route of an address family with a prefix and path attributes, if routes
/// of that family are supported.
pub open spec fn route_of(
    afisafi: AfiSafiType,
    prefix: Prefix,
    pamap: RotondaPaMap,
) -> Option<RotondaRoute> {
    match afisafi {
        AfiSafiType::Ipv4Unicast => Some(RotondaRoute::Ipv4Unicast(prefix, pamap)),
        AfiSafiType::Ipv6Unicast => Some(RotondaRoute::Ipv6Unicast(prefix, pamap)),
        AfiSafiType::Ipv4Multicast => Some(RotondaRoute::Ipv4Multicast(prefix, pamap)),
        AfiSafiType::Ipv6Multicast => Some(RotondaRoute::Ipv6Multicast(prefix, pamap)),
        _ => None,
    }
}

/// A route can be put together again from what is told of it: its address
/// family, its prefix and its path attributes.
pub proof fn route_is_made_of_its_parts(route: RotondaRoute)
    ensures
        route_of(route.afisafi_spec(), route.prefix_spec(), route.pamap_spec()) == Some(route),
{
}

/// Two routes count as the same exactly where one with the attributes of the
/// other is the other, and the octets of their attributes are the same.
pub proof fn same_routes_have_the_same_parts(a: RotondaRoute, b: RotondaRoute)
    ensures
        same_route(a, b) <==> route_of(a.afisafi_spec(), a.prefix_spec(), b.pamap_spec()) == Some(
            b,
        ) && a.pamap_spec()@ == b.pamap_spec()@,
{
}

/// A copy of an update carries the same routes in the same order, concerns the
/// same sources, and takes as much memory.
pub proof fn copy_carries_the_same(copy: Update, update: Update)
    requires
        same_update(copy, update),
    ensures
        copy is Single <==> update is Single,
        copy is Bulk <==> update is Bulk,
        update_payloads(copy) == update_payloads(update),
        copy is Withdraw <==> update is Withdraw,
        update is Withdraw ==> copy == update,
        copy is WithdrawBulk <==> update is WithdrawBulk,
        update is WithdrawBulk ==> copy->WithdrawBulk_0@ == update->WithdrawBulk_0@,
        copy is IngressReappeared <==> update is IngressReappeared,
        update is IngressReappeared ==> copy == update,
        copy is UpstreamStatusChange <==> update is UpstreamStatusChange,
        update is UpstreamStatusChange ==> copy == update,
        copy is PeerStats <==> update is PeerStats,
        update is PeerStats ==> copy->ingress_id == update->ingress_id && copy->body@
            == update->body@,
        copy is OutputStream <==> update is OutputStream,
        copy is Rtr <==> update is Rtr,
        footprint(copy) == footprint(update),
{
}

/// A route is among the traced ones of an update exactly where the update
/// carries it, on its own or among others, and it has a trace.
pub proof fn traced_routes_are_carried(update: Update, payload: Payload)
    ensures
        traced(update_payloads(update)).contains(payload) <==> payload.trace_id is Some && (update
            == Update::Single(payload) || (update matches Update::Bulk(batch)
            && batch@.contains(payload))),
{
    let keep = |p: Payload| p.trace_id is Some;
    let all = update_payloads(update);
    broadcast use vstd::seq_lib::group_filter_ensures;

    assert(all.contains(payload) <==> update == Update::Single(payload) || (update matches Update::Bulk(
        batch,
    ) && batch@.contains(payload))) by {
        if update == Update::Single(payload) {
            assert(all[0] == payload);
        }
    }
    if traced(all).contains(payload) {
        let i = choose|i: int| 0 <= i < traced(all).len() && traced(all)[i] == payload;
        all.lemma_filter_contains_rev(keep, payload);
        assert(keep(traced(all)[i]));
        assert(all.contains(payload));
    } else if all.contains(payload) && keep(payload) {
        let i = choose|i: int| 0 <= i < all.len() && all[i] == payload;
        assert(traced(all).contains(all[i]));
    }
}

/// One more item in a batch takes the memory of one item more, whatever the
/// batch holds. Everything else, and a batch without items, takes as much as
/// the update itself.
pub proof fn each_item_takes_memory(less: Update, more: Update)
    ensures
        less is Bulk && more is Bulk && more->Bulk_0@.len() == less->Bulk_0@.len() + 1
            ==> footprint(more) == footprint(less) + size_of::<Payload>(),
        less is WithdrawBulk && more is WithdrawBulk && more->WithdrawBulk_0@.len()
            == less->WithdrawBulk_0@.len() + 1 ==> footprint(more) == footprint(less) + size_of::<
            WithdrawnSource,
        >(),
        less is OutputStream && more is OutputStream && more->OutputStream_0@.len()
            == less->OutputStream_0@.len() + 1 ==> footprint(more) == footprint(less) + size_of::<
            OutputStreamMessage,
        >(),
        less is Bulk && less->Bulk_0@.len() == 0 ==> footprint(less) == size_of::<Update>(),
        less is WithdrawBulk && less->WithdrawBulk_0@.len() == 0 ==> footprint(less) == size_of::<
            Update,
        >(),
        less is OutputStream && less->OutputStream_0@.len() == 0 ==> footprint(less) == size_of::<
            Update,
        >(),
        !(less is Bulk) && !(less is WithdrawBulk) && !(less is OutputStream) ==> footprint(less)
            == size_of::<Update>(),
{
    assert forall|n: int, size: int| (n + 1) * size == #[trigger] (n * size) + size by {
        assert((n + 1) * size == n * size + size) by (nonlinear_arith);
    }
    assert forall|n: int, size: int| n == 0 implies #[trigger] (n * size) == 0 by {
        assert(0 * size == 0) by (nonlinear_arith);
    }
}

/// A selection of attributes only leaves attributes out, and what it names is
/// shown wherever it is shown without one: every attribute but the withdrawn
/// NLRI.
pub proof fn selection_narrows_attributes(type_code: u8, types: Seq<u8>)
    ensures
        attribute_is_shown(type_code, None) <==> type_code != 15,
        attribute_is_shown(type_code, Some(types)) <==> attribute_is_shown(type_code, None)
            && types.contains(type_code),
{
}

} // verus!
