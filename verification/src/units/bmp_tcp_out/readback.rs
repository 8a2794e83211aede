//! What a reader of the messages finds in them.
//!
//! The fields of an UPDATE are read here as the protocol lays them out, whatever
//! way they were written.
use crate::ingress::{IngressId, IngressInfo, PeerRibType};
use crate::net::{prefix_is_valid, AfiSafiType, Asn, IpAddr, PeerType, Prefix};
use crate::payload::{attribute_octets, MP_UNREACH_NLRI};
use crate::text::{escaped, escaped_text_is_read_back, read_text};
use crate::units::bmp_tcp_in::io::{first_frame, sent_message_is_framed, trace_of, TracingMode};
use crate::units::bmp_tcp_out::bmp_builder::{
    address_field, address_octets, address_value, admin_label_json, admin_label_tlv,
    announcement_body, attr_value, attributes, attributes_are_whole, bgp_message,
    bgp_message_layout, bgp_update, describes, end_of_rib_marker, end_of_rib_update,
    extended_attribute, fan_in_hash, fan_in_tag, first_attr_len, graceful_restart_capability,
    initiation_message, joined, joined_attributes_parse, json_member, left_out_octets_are_zero,
    mp_next_hop, multiprotocol_capability, next_hop_in, nlri, nlris, open_body, open_capabilities,
    optional_attribute, packed_body, peer_flags_of, peer_message, peer_message_layout,
    peer_up_body, per_peer_header, plain_attributes, plain_attributes_parse, reach_value,
    recovered_next_hop, recovered_next_hop_is_short, session_message_sizes, significant_octets,
    termination_message, timestamp_of, tlv, unreach_value, update_body, whole_attributes,
    withdrawal_body, without_nlri, without_nlri_facts, PeerInfo, Timestamp, BGP_MSG_OPEN,
    BGP_MSG_UPDATE, BMP_MSG_PEER_UP, BMP_MSG_ROUTE_MONITORING, BMP_PEER_UP_TLV_ADMIN_LABEL,
    MP_REACH_NLRI,
};
use crate::wire::{
    be128_value, be16, be32, be32_value, be64, low32, octets_value, value_with_be32,
    value_with_be64,
};
use vstd::arithmetic::power2::{lemma2_to64, lemma_pow2_adds, pow2};
use vstd::prelude::*;
use vstd::utf8::encode_utf8;

verus! {

//------------ Path attributes -----------------------------------------------

/// The size that the header of a path attribute states for the whole of it.
pub open spec fn stated_size(attr: Seq<u8>) -> int {
    if attr[0] & 0x10 != 0 {
        4 + attr[2] * 0x100 + attr[3]
    } else {
        3 + attr[2]
    }
}

/// Path attributes are read one after the other, without a gap, each as long as
/// its header states; what is left over at the end holds no whole attribute.
pub proof fn attributes_follow_each_other(b: Seq<u8>)
    ensures
        forall|i: int|
            0 <= i < attributes(b).len() ==> (#[trigger] attributes(b)[i]).len() >= 3
                && attributes(b)[i].len() == stated_size(attributes(b)[i]),
        attributes(b).flatten().len() <= b.len(),
        b.take(attributes(b).flatten().len() as int) == attributes(b).flatten(),
        ({
            let rest = b.skip(attributes(b).flatten().len() as int);
            rest.len() < 3 || (rest[0] & 0x10 != 0 && rest.len() < 4) || rest.len() < stated_size(
                rest,
            )
        }),
    decreases b.len(),
{
    let all = attributes(b);
    match first_attr_len(b) {
        Some(n) => {
            let head = b.take(n as int);
            let tail = b.skip(n as int);
            attributes_follow_each_other(tail);
            assert(all =~= seq![head] + attributes(tail));
            assert(all.drop_first() =~= attributes(tail));
            assert(all.first() == head);
            assert(all.flatten() == head + attributes(tail).flatten());
            let k = attributes(tail).flatten().len();
            assert(b.take((n + k) as int) =~= head + tail.take(k as int));
            assert(b.skip((n + k) as int) =~= tail.skip(k as int));
            assert forall|i: int| 0 <= i < all.len() implies (#[trigger] all[i]).len() >= 3
                && all[i].len() == stated_size(all[i]) by {
                if i > 0 {
                    assert(all[i] == attributes(tail)[i - 1]);
                }
            }
        },
        None => {
            assert(all =~= Seq::empty());
            assert(all.flatten() =~= Seq::empty());
            assert(b.skip(0) =~= b);
            assert(b.take(0) =~= Seq::empty());
        },
    }
}

proof fn without_nlri_is_a_filter(attrs: Seq<Seq<u8>>)
    ensures
        without_nlri(attrs) == attrs.filter(|a: Seq<u8>| a[1] != 14 && a[1] != 15),
    decreases attrs.len(),
{
    reveal(Seq::filter);
    if attrs.len() > 0 {
        without_nlri_is_a_filter(attrs.drop_last());
    }
}

/// Nothing but what carries NLRI is left out: the plain path attributes of a
/// route are all its path attributes, in their order, but for those of type
/// MP_REACH_NLRI (14) and MP_UNREACH_NLRI (15). The attributes are what follows
/// the first two octets that are stored.
pub proof fn only_nlri_carriers_are_left_out(raw: Seq<u8>)
    ensures
        attributes(plain_attributes(raw)) == attributes(attribute_octets(raw)).filter(
            |a: Seq<u8>| a[1] != 14 && a[1] != 15,
        ),
        plain_attributes(raw) == attributes(attribute_octets(raw)).filter(
            |a: Seq<u8>| a[1] != 14 && a[1] != 15,
        ).flatten(),
        attribute_octets(raw) == if raw.len() >= 2 {
            raw.skip(2)
        } else {
            Seq::empty()
        },
{
    plain_attributes_parse(raw);
    let all = attributes(attribute_octets(raw));
    without_nlri_is_a_filter(all);
    joined_is_flat(without_nlri(all));
}

proof fn joined_is_flat(attrs: Seq<Seq<u8>>)
    ensures
        joined(attrs) == attrs.flatten(),
{
    joined_is_flat_alt(attrs);
    attrs.lemma_flatten_and_flatten_alt_are_equivalent();
}

proof fn joined_is_flat_alt(attrs: Seq<Seq<u8>>)
    ensures
        joined(attrs) == attrs.flatten_alt(),
    decreases attrs.len(),
{
    if attrs.len() > 0 {
        joined_is_flat_alt(attrs.drop_last());
    }
}

//------------ Prefixes ------------------------------------------------------

proof fn value_before_zeros(octets: Seq<u8>, m: nat)
    requires
        m <= octets.len(),
        forall|i: int| octets.len() - m <= i < octets.len() ==> #[trigger] octets[i] == 0,
    ensures
        octets_value(octets) == octets_value(octets.take(octets.len() - m)) * pow2(8 * m),
    decreases m,
{
    lemma2_to64();
    if m == 0 {
        assert(octets.take(octets.len() as int) =~= octets);
        assert(8 * m == 0);
        assert(pow2(8 * m) == 1);
        let w = octets_value(octets);
        assert(w == w * 1) by (nonlinear_arith);
    } else {
        let rest = octets.drop_last();
        assert forall|i: int| rest.len() - (m - 1) <= i < rest.len() implies #[trigger] rest[i]
            == 0 by {
            assert(rest[i] == octets[i]);
        }
        value_before_zeros(rest, (m - 1) as nat);
        assert(octets[octets.len() - 1] == 0);
        assert(rest.take(rest.len() - (m - 1)) =~= octets.take(octets.len() - m));
        lemma_pow2_adds(8, (8 * (m - 1)) as nat);
        let v = octets_value(octets.take(octets.len() - m));
        let p = pow2((8 * (m - 1)) as nat);
        assert(pow2(8 * m) == 0x100 * p);
        assert(v * p * 0x100 == v * (0x100 * p)) by (nonlinear_arith);
        assert(octets_value(octets) == octets_value(rest) * 0x100);
        assert(octets_value(rest) == v * p);
        assert(octets_value(octets) == v * pow2(8 * m));
    }
}

/// A prefix is read back from its NLRI: the first octet is the number of its
/// bits; as many octets follow as hold them; and they are the leading octets of
/// its address, all of whose other octets are zero.
pub proof fn prefix_is_read_back(p: Prefix)
    requires
        p.wf(),
    ensures
        nlri(p)[0] == p.len_spec(),
        8 * (nlri(p).len() - 1) <= p.addr_spec().width(),
        8 * (nlri(p).len() - 2) < p.len_spec() <= 8 * (nlri(p).len() - 1),
        octets_value(nlri(p).skip(1)) * pow2(
            (p.addr_spec().width() - 8 * (nlri(p).len() - 1)) as nat,
        ) == p.addr_spec().number(),
{
    let octets = address_octets(p.addr_spec());
    let k = significant_octets(p);
    prefix_is_valid(p);
    address_value(p.addr_spec());
    left_out_octets_are_zero(p);
    assert(nlri(p).skip(1) =~= octets.take(k as int));
    value_before_zeros(octets, (octets.len() - k) as nat);
    assert(8 * (octets.len() - k) == p.addr_spec().width() - 8 * (nlri(p).len() - 1));
}

/// The NLRI of several prefixes are those of each, one after the other.
pub proof fn prefixes_follow_each_other(prefixes: Seq<Prefix>)
    ensures
        nlris(prefixes) == prefixes.map_values(|p: Prefix| nlri(p)).flatten(),
{
    let parts = prefixes.map_values(|p: Prefix| nlri(p));
    nlris_are_flat(prefixes);
    parts.lemma_flatten_and_flatten_alt_are_equivalent();
}

proof fn nlris_are_flat(prefixes: Seq<Prefix>)
    ensures
        nlris(prefixes) == prefixes.map_values(|p: Prefix| nlri(p)).flatten_alt(),
    decreases prefixes.len(),
{
    let parts = prefixes.map_values(|p: Prefix| nlri(p));
    if prefixes.len() > 0 {
        nlris_are_flat(prefixes.drop_last());
        assert(parts.drop_last() =~= prefixes.drop_last().map_values(|p: Prefix| nlri(p)));
        assert(parts.last() == nlri(prefixes.last()));
    }
}

//------------ Fields of an UPDATE -------------------------------------------

/// The number that two octets stand for.
pub open spec fn number_at(b: Seq<u8>, at: int) -> int {
    b[at] * 0x100 + b[at + 1]
}

/// The withdrawn routes field of the body of an UPDATE: its size comes first.
pub open spec fn withdrawn_field(body: Seq<u8>) -> Seq<u8> {
    body.subrange(2, 2 + number_at(body, 0))
}

/// The path attributes field of the body of an UPDATE: its size follows the
/// withdrawn routes.
pub open spec fn attributes_field(body: Seq<u8>) -> Seq<u8> {
    let at = 2 + number_at(body, 0);
    body.subrange(at + 2, at + 2 + number_at(body, at))
}

/// The NLRI field of the body of an UPDATE: all that follows.
pub open spec fn announced_field(body: Seq<u8>) -> Seq<u8> {
    let at = 2 + number_at(body, 0);
    body.skip(at + 2 + number_at(body, at))
}

/// The fields of an UPDATE are read back as they were written, if their sizes
/// fit the fields that state them.
pub proof fn update_fields_are_read_back(withdrawn: Seq<u8>, attrs: Seq<u8>, announced: Seq<u8>)
    requires
        withdrawn.len() <= u16::MAX,
        attrs.len() <= u16::MAX,
    ensures
        withdrawn_field(update_body(withdrawn, attrs, announced)) == withdrawn,
        attributes_field(update_body(withdrawn, attrs, announced)) == attrs,
        announced_field(update_body(withdrawn, attrs, announced)) == announced,
        update_body(withdrawn, attrs, announced).len() == 4 + withdrawn.len() + attrs.len()
            + announced.len(),
{
    let body = update_body(withdrawn, attrs, announced);
    assert(number_at(body, 0) == withdrawn.len());
    let at = 2 + withdrawn.len();
    assert(body[at as int] == (attrs.len() / 0x100) as u8);
    assert(body[at as int + 1] == (attrs.len() % 0x100) as u8);
    assert(number_at(body, at as int) == attrs.len());
    assert(withdrawn_field(body) =~= withdrawn);
    assert(attributes_field(body) =~= attrs);
    assert(announced_field(body) =~= announced);
}

/// What the value of an MP_REACH_NLRI for unicast routes says: the address
/// family, the next hop and the NLRI.
proof fn reach_is_read_back(afi: u16, next_hop: Seq<u8>, announced: Seq<u8>)
    requires
        next_hop.len() <= 255,
    ensures
        number_at(reach_value(afi, next_hop, announced), 0) == afi,
        reach_value(afi, next_hop, announced)[2] == 1,
        next_hop_in(reach_value(afi, next_hop, announced)) == Some(next_hop),
        reach_value(afi, next_hop, announced)[4 + next_hop.len() as int] == 0,
        reach_value(afi, next_hop, announced).skip(5 + next_hop.len() as int) == announced,
        reach_value(afi, next_hop, announced).len() == 5 + next_hop.len() + announced.len(),
{
    let value = reach_value(afi, next_hop, announced);
    assert(value[3] == next_hop.len());
    assert(value.subrange(4, 4 + value[3]) =~= next_hop);
    assert(value.skip(5 + next_hop.len() as int) =~= announced);
}

/// Plain attributes and one more are read back one by one.
proof fn one_more_attribute(raw: Seq<u8>, attr: Seq<u8>)
    requires
        first_attr_len(attr) == Some(attr.len()),
    ensures
        attributes(plain_attributes(raw) + attr) == attributes(plain_attributes(raw)).push(attr),
{
    let all = attributes(attribute_octets(raw));
    let plain = without_nlri(all);
    attributes_are_whole(attribute_octets(raw));
    without_nlri_facts(all);
    plain_attributes_parse(raw);
    let more = plain.push(attr);
    assert(whole_attributes(more)) by {
        assert forall|i: int| 0 <= i < more.len() implies first_attr_len(#[trigger] more[i])
            == Some(more[i].len()) by {
            if i < plain.len() {
                assert(more[i] == plain[i]);
            }
        }
    }
    joined_attributes_parse(more);
    assert(more.drop_last() =~= plain);
}

/// The attribute that is made of a value is whole, of the type, and holds the
/// value.
proof fn extended_attribute_is_read_back(type_code: u8, value: Seq<u8>)
    requires
        value.len() <= u16::MAX,
    ensures
        first_attr_len(extended_attribute(type_code, value)) == Some(
            extended_attribute(type_code, value).len(),
        ),
        extended_attribute(type_code, value)[1] == type_code,
        attr_value(extended_attribute(type_code, value)) == value,
        extended_attribute(type_code, value).len() == 4 + value.len(),
{
    let attr = extended_attribute(type_code, value);
    assert(0x90u8 & 0x10 != 0) by (bit_vector);
    assert(attr[2] == (value.len() / 0x100) as u8 && attr[3] == (value.len() % 0x100) as u8);
    assert(attr.skip(4) =~= value);
}

proof fn optional_attribute_is_read_back(type_code: u8, value: Seq<u8>)
    requires
        value.len() <= u16::MAX,
    ensures
        first_attr_len(optional_attribute(type_code, value)) == Some(
            optional_attribute(type_code, value).len(),
        ),
        optional_attribute(type_code, value)[1] == type_code,
        attr_value(optional_attribute(type_code, value)) == value,
        optional_attribute(type_code, value).len() >= 3 + value.len(),
{
    if value.len() > 255 {
        extended_attribute_is_read_back(type_code, value);
    } else {
        let attr = optional_attribute(type_code, value);
        assert(0x80u8 & 0x10 == 0) by (bit_vector);
        assert(attr.skip(3) =~= value);
    }
}

/// Whether an attribute is an MP_REACH_NLRI (14) that announces NLRI of IPv6
/// unicast with a next hop.
pub open spec fn announces_ipv6(attr: Seq<u8>, next_hop: Seq<u8>, announced: Seq<u8>) -> bool {
    &&& attr[1] == 14
    &&& number_at(attr_value(attr), 0) == 2
    &&& attr_value(attr)[2] == 1
    &&& next_hop_in(attr_value(attr)) == Some(next_hop)
    &&& attr_value(attr)[4 + next_hop.len() as int] == 0
    &&& attr_value(attr).skip(5 + next_hop.len() as int) == announced
}

/// The next hop under which an IPv6 route is announced: its own, or zeros where
/// it has none.
pub open spec fn own_next_hop(raw: Seq<u8>) -> Seq<u8> {
    match recovered_next_hop(raw) {
        Some(nh) => nh,
        None => Seq::new(16, |i: int| 0u8),
    }
}

/// Whether the body of an UPDATE announces prefixes of a family with the path
/// attributes of a route, and does nothing else: it withdraws nothing; its path
/// attributes are those of the route but for the ones that carry NLRI; and it
/// announces the prefixes, in their order. For IPv4 they stand in the NLRI
/// field. For IPv6 one more attribute comes last, an MP_REACH_NLRI with the
/// route's own next hop and the prefixes.
pub open spec fn announces_all(
    body: Seq<u8>,
    is_v4: bool,
    raw: Seq<u8>,
    prefixes: Seq<Prefix>,
) -> bool {
    let plain = attributes(attribute_octets(raw)).filter(|a: Seq<u8>| a[1] != 14 && a[1] != 15);
    let announced = prefixes.map_values(|p: Prefix| nlri(p)).flatten();
    let attrs = attributes(attributes_field(body));
    &&& withdrawn_field(body).len() == 0
    &&& is_v4 ==> attrs == plain && announced_field(body) == announced
    &&& !is_v4 ==> {
        &&& attrs.len() == plain.len() + 1
        &&& attrs.drop_last() == plain
        &&& announces_ipv6(attrs.last(), own_next_hop(raw), announced)
        &&& announced_field(body).len() == 0
    }
}

/// A packed UPDATE announces the prefixes that were packed, with the route's own
/// path attributes and next hop.
pub proof fn packed_update_is_read_back(is_v4: bool, raw: Seq<u8>, prefixes: Seq<Prefix>)
    requires
        packed_body(is_v4, plain_attributes(raw), recovered_next_hop(raw), prefixes).len()
            <= u16::MAX,
    ensures
        announces_all(
            packed_body(is_v4, plain_attributes(raw), recovered_next_hop(raw), prefixes),
            is_v4,
            raw,
            prefixes,
        ),
        packed_body(is_v4, plain_attributes(raw), recovered_next_hop(raw), prefixes).len() >= 4,
{
    let body = packed_body(is_v4, plain_attributes(raw), recovered_next_hop(raw), prefixes);
    let announced = nlris(prefixes);
    only_nlri_carriers_are_left_out(raw);
    prefixes_follow_each_other(prefixes);
    recovered_next_hop_is_short(raw);
    if is_v4 {
        assert(body.len() == 4 + plain_attributes(raw).len() + announced.len());
        update_fields_are_read_back(Seq::empty(), plain_attributes(raw), announced);
    } else {
        let nh = own_next_hop(raw);
        let value = reach_value(2, nh, announced);
        reach_is_read_back(2, nh, announced);
        let attr = extended_attribute(MP_REACH_NLRI, value);
        assert(body == update_body(Seq::empty(), plain_attributes(raw) + attr, Seq::empty()));
        assert(body.len() == 4 + plain_attributes(raw).len() + 4 + value.len());
        extended_attribute_is_read_back(MP_REACH_NLRI, value);
        one_more_attribute(raw, attr);
        update_fields_are_read_back(Seq::empty(), plain_attributes(raw) + attr, Seq::empty());
        assert(attributes(plain_attributes(raw)).push(attr).drop_last() =~= attributes(
            plain_attributes(raw),
        ));
    }
}

/// Whether an UPDATE announces a route and nothing else: it withdraws nothing;
/// its path attributes are those of the route but for the ones that carry NLRI;
/// and it announces the prefix and no other. An IPv4 prefix stands in the NLRI
/// field. An IPv6 prefix stands in one more attribute, which comes last, an
/// MP_REACH_NLRI with the route's own next hop.
pub open spec fn announces(update: Seq<u8>, prefix: Prefix, raw: Seq<u8>) -> bool {
    let body = update.skip(19);
    let plain = attributes(attribute_octets(raw)).filter(|a: Seq<u8>| a[1] != 14 && a[1] != 15);
    let attrs = attributes(attributes_field(body));
    &&& is_update(update)
    &&& withdrawn_field(body).len() == 0
    &&& prefix.addr_spec() is V4 ==> attrs == plain && announced_field(body) == nlri(prefix)
    &&& prefix.addr_spec() is V6 ==> {
        &&& attrs.len() == plain.len() + 1
        &&& attrs.drop_last() == plain
        &&& announces_ipv6(attrs.last(), own_next_hop(raw), nlri(prefix))
        &&& announced_field(body).len() == 0
    }
}

/// The UPDATE that is made to announce a route announces it.
pub proof fn announcement_is_read_back(prefix: Prefix, raw: Seq<u8>)
    requires
        bgp_update(prefix, raw, false) is Some,
    ensures
        announces(bgp_update(prefix, raw, false)->0, prefix, raw),
{
    let body = announcement_body(prefix, raw);
    only_nlri_carriers_are_left_out(raw);
    recovered_next_hop_is_short(raw);
    bgp_message_layout(BGP_MSG_UPDATE, body);
    update_is_framed(body);
    if prefix.addr_spec() is V4 {
        assert(body.len() == 4 + plain_attributes(raw).len() + nlri(prefix).len());
        update_fields_are_read_back(Seq::empty(), plain_attributes(raw), nlri(prefix));
    } else {
        let nh = own_next_hop(raw);
        let value = reach_value(2, nh, nlri(prefix));
        reach_is_read_back(2, nh, nlri(prefix));
        let attr = optional_attribute(MP_REACH_NLRI, value);
        assert(body == update_body(Seq::empty(), plain_attributes(raw) + attr, Seq::empty()));
        assert(body.len() == 4 + plain_attributes(raw).len() + attr.len());
        assert(attr.len() >= 3 + value.len());
        optional_attribute_is_read_back(MP_REACH_NLRI, value);
        one_more_attribute(raw, attr);
        update_fields_are_read_back(Seq::empty(), plain_attributes(raw) + attr, Seq::empty());
        assert(attributes(plain_attributes(raw)).push(attr).drop_last() =~= attributes(
            plain_attributes(raw),
        ));
    }
}

/// Whether octets are framed as one BGP UPDATE: the marker of sixteen octets
/// with all bits set, the true size, and the type 2.
pub open spec fn is_update(msg: Seq<u8>) -> bool {
    &&& msg.len() >= 23
    &&& forall|i: int| 0 <= i < 16 ==> #[trigger] msg[i] == 0xff
    &&& number_at(msg, 16) == msg.len()
    &&& msg[18] == 2
}

pub(crate) proof fn update_is_framed(body: Seq<u8>)
    requires
        4 <= body.len() <= u16::MAX - 19,
    ensures
        is_update(bgp_message(BGP_MSG_UPDATE, body)),
        bgp_message(BGP_MSG_UPDATE, body).skip(19) == body,
{
    let msg = bgp_message(BGP_MSG_UPDATE, body);
    bgp_message_layout(BGP_MSG_UPDATE, body);
    assert forall|i: int| 0 <= i < 16 implies #[trigger] msg[i] == 0xff by {
        assert(msg.take(16)[i] == msg[i]);
    }
}

/// Whether an UPDATE withdraws a prefix and nothing else: it announces nothing;
/// and it withdraws the prefix and no other. An IPv4 prefix stands in the
/// withdrawn routes field. An IPv6 prefix stands in an MP_UNREACH_NLRI (15),
/// which is the one attribute.
pub open spec fn withdraws(update: Seq<u8>, prefix: Prefix) -> bool {
    let body = update.skip(19);
    let attrs = attributes(attributes_field(body));
    &&& is_update(update)
    &&& announced_field(body).len() == 0
    &&& prefix.addr_spec() is V4 ==> withdrawn_field(body) == nlri(prefix) && attributes_field(
        body,
    ).len() == 0
    &&& prefix.addr_spec() is V6 ==> {
        &&& withdrawn_field(body).len() == 0
        &&& attrs.len() == 1
        &&& attrs[0][1] == 15
        &&& number_at(attr_value(attrs[0]), 0) == 2
        &&& attr_value(attrs[0])[2] == 1
        &&& attr_value(attrs[0]).skip(3) == nlri(prefix)
    }
}

/// There is always an UPDATE that withdraws a route, whatever its path
/// attributes, and it withdraws it.
pub proof fn withdrawal_is_read_back(prefix: Prefix, raw: Seq<u8>)
    requires
        prefix.wf(),
    ensures
        bgp_update(prefix, raw, true) matches Some(update) && withdraws(update, prefix),
{
    let body = withdrawal_body(prefix);
    prefix_is_valid(prefix);
    left_out_octets_are_zero(prefix);
    address_value(prefix.addr_spec());
    assert(nlri(prefix).len() <= 17);
    if prefix.addr_spec() is V4 {
        update_fields_are_read_back(nlri(prefix), Seq::empty(), Seq::empty());
    } else {
        let value = unreach_value(2, nlri(prefix));
        assert(value.skip(3) =~= nlri(prefix));
        let attr = optional_attribute(MP_UNREACH_NLRI, value);
        optional_attribute_is_read_back(MP_UNREACH_NLRI, value);
        update_fields_are_read_back(Seq::empty(), attr, Seq::empty());
        lone_attribute(attr);
    }
    update_is_framed(body);
}

/// There is an UPDATE for a route unless it is an announcement whose size
/// exceeds what a length field can state.
pub proof fn only_oversized_routes_are_dropped(prefix: Prefix, raw: Seq<u8>)
    requires
        prefix.wf(),
    ensures
        bgp_update(prefix, raw, false) is Some <==> {
            let plain = attributes(attribute_octets(raw)).filter(
                |a: Seq<u8>| a[1] != 14 && a[1] != 15,
            ).flatten();
            let size = nlri(prefix).len() as int;
            let hop = own_next_hop(raw).len() as int;
            if prefix.addr_spec() is V4 {
                23 + plain.len() + size <= 65535
            } else if 5 + hop + size > 255 {
                23 + plain.len() + 4 + 5 + hop + size <= 65535
            } else {
                23 + plain.len() + 3 + 5 + hop + size <= 65535
            }
        },
{
    only_nlri_carriers_are_left_out(raw);
}

/// The next hop that is recovered from a route is that of its last
/// MP_REACH_NLRI (14) whose value is long enough to hold one; and there is none
/// if no attribute is such.
pub proof fn next_hop_is_that_of_the_last_reach(raw: Seq<u8>)
    ensures
        ({
            let attrs = attributes(attribute_octets(raw));
            match recovered_next_hop(raw) {
                Some(nh) => exists|i: int|
                    {
                        &&& 0 <= i < attrs.len()
                        &&& holds_next_hop(#[trigger] attrs[i])
                        &&& nh == attr_value(attrs[i]).subrange(4, 4 + attr_value(attrs[i])[3])
                        &&& forall|j: int|
                            i < j < attrs.len() ==> !holds_next_hop(#[trigger] attrs[j])
                    },
                None => forall|j: int|
                    0 <= j < attrs.len() ==> !holds_next_hop(#[trigger] attrs[j]),
            }
        }),
{
    last_reach_is_found(attributes(attribute_octets(raw)));
}

/// Whether an attribute is an MP_REACH_NLRI whose value is long enough to hold
/// the next hop whose size it states in its fourth octet.
pub open spec fn holds_next_hop(attr: Seq<u8>) -> bool {
    let value = attr_value(attr);
    attr[1] == 14 && value.len() >= 4 && value.len() >= 4 + value[3]
}

proof fn last_reach_is_found(attrs: Seq<Seq<u8>>)
    ensures
        match mp_next_hop(attrs) {
            Some(nh) => exists|i: int|
                {
                    &&& 0 <= i < attrs.len()
                    &&& holds_next_hop(#[trigger] attrs[i])
                    &&& nh == attr_value(attrs[i]).subrange(4, 4 + attr_value(attrs[i])[3])
                    &&& forall|j: int| i < j < attrs.len() ==> !holds_next_hop(#[trigger] attrs[j])
                },
            None => forall|j: int| 0 <= j < attrs.len() ==> !holds_next_hop(#[trigger] attrs[j]),
        },
    decreases attrs.len(),
{
    if attrs.len() > 0 {
        let init = attrs.drop_last();
        let last = attrs.len() - 1;
        last_reach_is_found(init);
        if holds_next_hop(attrs[last]) {
            assert(attrs.last() == attrs[last]);
        } else {
            assert(mp_next_hop(attrs) == mp_next_hop(init));
            assert forall|j: int| 0 <= j < last implies #[trigger] attrs[j] == init[j] by {}
            if let Some(nh) = mp_next_hop(init) {
                let i = choose|i: int|
                    {
                        &&& 0 <= i < init.len()
                        &&& holds_next_hop(#[trigger] init[i])
                        &&& nh == attr_value(init[i]).subrange(4, 4 + attr_value(init[i])[3])
                        &&& forall|j: int|
                            i < j < init.len() ==> !holds_next_hop(#[trigger] init[j])
                    };
                assert(holds_next_hop(attrs[i]));
            }
        }
    }
}

//------------ Headers -------------------------------------------------------

/// Octets that are all zero stand for zero.
proof fn zeros_are_worth_nothing(n: nat)
    ensures
        octets_value(Seq::new(n, |i: int| 0u8)) == 0,
    decreases n,
{
    if n > 0 {
        let zeros = Seq::new(n, |i: int| 0u8);
        assert(zeros.drop_last() =~= Seq::new((n - 1) as nat, |i: int| 0u8));
        zeros_are_worth_nothing((n - 1) as nat);
    }
}

/// The header of a message about a peer is read back: the version is 3, the
/// size is the message's own, if it fits the field, and the type, the peer and
/// the time are those that the message was made with.
pub proof fn header_is_read_back(msg_type: u8, peer: PeerInfo, t: Timestamp, body: Seq<u8>)
    ensures
        ({
            let msg = peer_message(msg_type, peer, t, body);
            &&& msg.len() == 48 + body.len()
            &&& msg[0] == 3
            &&& msg.len() <= u32::MAX ==> octets_value(msg.subrange(1, 5)) == msg.len()
            &&& msg[5] == msg_type
            &&& msg[6] == match peer.peer_type {
                PeerType::GlobalInstance => 0u8,
                PeerType::RdInstance => 1u8,
                PeerType::LocalInstance => 2u8,
                PeerType::LocalRibInstance => 3u8,
                PeerType::Reserved => 255u8,
                PeerType::Unassigned(n) => n,
                PeerType::Experimental(n) => n,
                PeerType::Unimplemented(n) => n,
            }
            &&& msg[7] == peer.peer_flags
            &&& msg.subrange(8, 16) == peer.peer_distinguisher@
            &&& octets_value(msg.subrange(16, 32)) == peer.peer_address.number()
            &&& octets_value(msg.subrange(32, 36)) == peer.peer_asn.0
            &&& msg.subrange(36, 40) == peer.peer_bgp_id@
            &&& octets_value(msg.subrange(40, 44)) == t.secs
            &&& octets_value(msg.subrange(44, 48)) == t.micros
            &&& msg.skip(48) == body
        }),
{
    let msg = peer_message(msg_type, peer, t, body);
    peer_message_layout(msg_type, peer, t, body);
    let header = per_peer_header(peer, t);
    assert(msg.subrange(6, 48) == header);
    let field = address_field(peer.peer_address);
    assert(field.len() == 16);
    be32_value(low32(msg.len()));
    assert(header.subrange(10, 26) =~= field);
    assert(msg.subrange(16, 32) =~= header.subrange(10, 26));
    match peer.peer_address {
        IpAddr::V4(a) => {
            zeros_are_worth_nothing(12);
            value_with_be32(Seq::new(12, |i: int| 0u8), a);
        },
        IpAddr::V6(a) => be128_value(a),
    }
    be32_value(peer.peer_asn.0);
    assert(msg.subrange(32, 36) =~= header.subrange(26, 30));
    assert(header.subrange(26, 30) =~= be32(peer.peer_asn.0));
    assert(msg.subrange(36, 40) =~= header.subrange(30, 34));
    assert(header.subrange(30, 34) =~= peer.peer_bgp_id@);
    be32_value(t.secs);
    assert(msg.subrange(40, 44) =~= header.subrange(34, 38));
    assert(header.subrange(34, 38) =~= be32(t.secs));
    be32_value(t.micros);
    assert(msg.subrange(44, 48) =~= header.subrange(38, 42));
    assert(header.subrange(38, 42) =~= be32(t.micros));
    assert(msg[6] == header[0] && msg[7] == header[1]);
}

/// Whether a message about a peer says of it what is known of its source: its
/// address and AS number, or zero; its type, or the global instance; in the
/// flags whether the address is of IPv6 (0x80), whether the routes are past the
/// policy (0x40, also where the source does not say), and whether they are those
/// that are sent on (0x10), and nothing else; and no BGP identifier.
pub open spec fn tells_of(msg: Seq<u8>, info: IngressInfo) -> bool {
    let rib = info.peer_rib_type;
    &&& octets_value(msg.subrange(16, 32)) == match info.remote_addr {
        Some(a) => a.number(),
        None => 0,
    }
    &&& msg[7] / 0x80 == 1 <==> (info.remote_addr matches Some(a) && a is V6)
    &&& msg[7] / 0x40 % 2 == 1 <==> !(rib == Some(PeerRibType::InPre) || rib == Some(
        PeerRibType::OutPre,
    ))
    &&& msg[7] / 0x10 % 2 == 1 <==> (rib == Some(PeerRibType::OutPre) || rib == Some(
        PeerRibType::OutPost,
    ))
    &&& msg[7] / 0x20 % 2 == 0
    &&& msg[7] % 0x10 == 0
    &&& octets_value(msg.subrange(32, 36)) == match info.remote_asn {
        Some(asn) => asn.0,
        None => 0,
    }
    &&& msg[6] == match info.peer_type {
        None | Some(PeerType::GlobalInstance) => 0u8,
        Some(PeerType::RdInstance) => 1u8,
        Some(PeerType::LocalInstance) => 2u8,
        Some(PeerType::LocalRibInstance) => 3u8,
        Some(PeerType::Reserved) => 255u8,
        Some(PeerType::Unassigned(n)) => n,
        Some(PeerType::Experimental(n)) => n,
        Some(PeerType::Unimplemented(n)) => n,
    }
    &&& octets_value(msg.subrange(36, 40)) == 0
}

/// Messages about a peer say of it what is known of its source.
pub proof fn source_is_read_back(
    peer: PeerInfo,
    info: IngressInfo,
    msg_type: u8,
    t: Timestamp,
    body: Seq<u8>,
)
    requires
        describes(peer, info),
    ensures
        tells_of(peer_message(msg_type, peer, t, body), info),
{
    header_is_read_back(msg_type, peer, t, body);
    zeros_are_worth_nothing(4);
    let address = match info.remote_addr {
        Some(a) => a,
        None => IpAddr::V4(0),
    };
    flags_are_read_back(address, info.peer_rib_type);
}

proof fn flags_are_read_back(address: IpAddr, rib: Option<PeerRibType>)
    ensures
        ({
            let flags = peer_flags_of(address, rib);
            &&& flags / 0x80 == 1 <==> address is V6
            &&& flags / 0x40 % 2 == 1 <==> !(rib == Some(PeerRibType::InPre) || rib == Some(
                PeerRibType::OutPre,
            ))
            &&& flags / 0x10 % 2 == 1 <==> (rib == Some(PeerRibType::OutPre) || rib == Some(
                PeerRibType::OutPost,
            ))
            &&& flags / 0x20 % 2 == 0
            &&& flags % 0x10 == 0
        }),
{
    match rib {
        Some(PeerRibType::InPost) => {},
        Some(PeerRibType::InPre) => {},
        Some(PeerRibType::OutPost) => {},
        Some(PeerRibType::OutPre) => {},
        Some(PeerRibType::Loc) => {},
        None => {},
    }
}

/// A moment is told in the seconds of the clock, as long as they fit, and in
/// whole microseconds.
pub proof fn moment_is_that_of_the_clock(secs: u64, nanos: u32)
    requires
        nanos < 1_000_000_000,
    ensures
        timestamp_of(Some((secs, nanos))).wf(),
        secs <= u32::MAX ==> timestamp_of(Some((secs, nanos))).secs == secs,
        timestamp_of(Some((secs, nanos))).micros * 1000 <= nanos,
        nanos < timestamp_of(Some((secs, nanos))).micros * 1000 + 1000,
        timestamp_of(None).secs == 0,
        timestamp_of(None).micros == 0,
{
}

/// The fan-in tag of a router is the number of its hash in network order, or
/// one where that is zero.
pub proof fn fan_in_tag_is_read_back(parent: IngressId)
    ensures
        fan_in_tag(parent).len() == 8,
        octets_value(fan_in_tag(parent)) == if fan_in_hash(parent) == 0 {
            1
        } else {
            fan_in_hash(parent)
        },
{
    let v = if fan_in_hash(parent) == 0 {
        1
    } else {
        fan_in_hash(parent)
    };
    value_with_be64(Seq::empty(), v);
    assert(Seq::<u8>::empty() + be64(v) =~= be64(v));
}

//------------ OPEN ----------------------------------------------------------

/// The capabilities that octets hold: each states its type and size first.
pub open spec fn capabilities(b: Seq<u8>) -> Seq<Seq<u8>>
    decreases b.len(),
{
    if b.len() < 2 || b.len() < 2 + b[1] {
        Seq::empty()
    } else {
        seq![b.take(2 + b[1])] + capabilities(b.skip(2 + b[1]))
    }
}

proof fn one_capability(head: Seq<u8>, rest: Seq<u8>)
    requires
        head.len() >= 2,
        head.len() == 2 + head[1],
    ensures
        capabilities(head + rest) == seq![head] + capabilities(rest),
{
    assert((head + rest)[1] == head[1]);
    assert((head + rest).take(2 + head[1]) =~= head);
    assert((head + rest).skip(2 + head[1]) =~= rest);
}

/// A synthetic OPEN is read back: its size fields are true; it is of version 4
/// and holds for 90 seconds; its AS number is the peer's, or AS_TRANS (23456)
/// where that needs more than two octets; and its capabilities are AS numbers
/// of four octets (65) with the peer's, IPv4 unicast, IPv6 unicast if asked
/// for, and graceful restart (64) for just these families if asked for.
pub proof fn open_is_read_back(asn: Asn, include_ipv6: bool, graceful_restart: bool)
    ensures
        ({
            let body = open_body(asn, include_ipv6, graceful_restart);
            let caps = capabilities(body.skip(12));
            let n = 2 + (if include_ipv6 { 1int } else { 0 });
            &&& body.len() <= 48
            &&& body[0] == 4
            &&& number_at(body, 1) == if asn.0 <= 65535 {
                asn.0 as int
            } else {
                23456
            }
            &&& number_at(body, 3) == 90
            &&& octets_value(body.subrange(5, 9)) == 0
            &&& body[9] == body.len() - 10
            &&& body[10] == 2
            &&& body[11] == body.len() - 12
            &&& caps.len() == n + (if graceful_restart { 1int } else { 0 })
            &&& caps[0].take(2) == seq![65u8, 4u8]
            &&& octets_value(caps[0].skip(2)) == asn.0
            &&& caps[1] == seq![1u8, 4, 0, 1, 0, 1]
            &&& include_ipv6 ==> caps[2] == seq![1u8, 4, 0, 2, 0, 1]
            &&& graceful_restart ==> {
                &&& caps[n][0] == 64
                &&& number_at(caps[n], 2) == 0
                &&& caps[n].len() == 4 + 4 * (n - 1)
                &&& caps[n].subrange(4, 8) == seq![0u8, 1, 1, 0]
                &&& include_ipv6 ==> caps[n].subrange(8, 12) == seq![0u8, 2, 1, 0]
            }
        }),
{
    let body = open_body(asn, include_ipv6, graceful_restart);
    let c0 = seq![65u8, 4] + be32(asn.0);
    let c1 = multiprotocol_capability(1);
    let c2 = multiprotocol_capability(2);
    let c3 = graceful_restart_capability(include_ipv6);
    let tail3 = if graceful_restart {
        c3
    } else {
        Seq::empty()
    };
    let tail2 = if include_ipv6 {
        c2 + tail3
    } else {
        tail3
    };
    let all = open_capabilities(asn, include_ipv6, graceful_restart);
    assert(all =~= c0 + (c1 + tail2));
    one_capability(c0, c1 + tail2);
    one_capability(c1, tail2);
    if include_ipv6 {
        one_capability(c2, tail3);
    }
    if graceful_restart {
        one_capability(c3, Seq::empty());
        assert(c3 + Seq::<u8>::empty() =~= c3);
    }
    assert(capabilities(Seq::<u8>::empty()) =~= Seq::empty());
    assert(body.skip(12) =~= all);
    let caps = capabilities(all);
    assert(caps[0] == c0);
    assert(caps[1] == c1);
    assert(c0.take(2) =~= seq![65u8, 4u8]);
    assert(c0.skip(2) =~= be32(asn.0));
    be32_value(asn.0);
    assert(c1 =~= seq![1u8, 4, 0, 1, 0, 1]);
    assert(c2 =~= seq![1u8, 4, 0, 2, 0, 1]);
    zeros_are_worth_nothing(4);
    assert(body.subrange(5, 9) =~= Seq::new(4, |i: int| 0u8));
    if graceful_restart {
        let n = 2 + (if include_ipv6 { 1int } else { 0 });
        assert(caps[n] == c3);
        assert(c3.subrange(4, 8) =~= seq![0u8, 1, 1, 0]);
        if include_ipv6 {
            assert(c3.subrange(8, 12) =~= seq![0u8, 2, 1, 0]);
        }
    }
}

//------------ Messages without routes ---------------------------------------

/// A Peer Up is read back: it is of type 3; it names no local address or port,
/// and the BGP port as the remote one; it holds the same OPEN twice, for both
/// address families and with the peer's AS number; and after these it holds the
/// label in a TLV of type 4, if there is one that a TLV can hold, and nothing
/// else.
pub proof fn peer_up_is_read_back(peer: PeerInfo, t: Timestamp, graceful_restart: bool)
    ensures
        ({
            let msg = peer_message(BMP_MSG_PEER_UP, peer, t, peer_up_body(peer, graceful_restart));
            let body = msg.skip(48);
            let n = number_at(body, 36);
            let rest = body.skip(20 + 2 * n);
            &&& msg[5] == 3
            &&& octets_value(body.take(16)) == 0
            &&& number_at(body, 16) == 0
            &&& number_at(body, 18) == 179
            &&& 0 <= n
            &&& body.len() >= 20 + 2 * n
            &&& body.subrange(20, 20 + n) == body.subrange(20 + n, 20 + 2 * n)
            &&& forall|i: int| 20 <= i < 36 ==> #[trigger] body[i] == 0xff
            &&& body[38] == 1
            &&& body.subrange(39, 20 + n) == open_body(peer.peer_asn, true, graceful_restart)
            &&& match peer.admin_label {
                Some(label) if encode_utf8(label@).len() <= 65535 => number_at(rest, 0) == 4
                    && number_at(rest, 2) == encode_utf8(label@).len() && rest.skip(4)
                    == encode_utf8(label@),
                _ => rest.len() == 0,
            }
        }),
{
    let body = peer_up_body(peer, graceful_restart);
    peer_message_layout(BMP_MSG_PEER_UP, peer, t, body);
    let inner = open_body(peer.peer_asn, true, graceful_restart);
    assert(inner.len() <= 48) by {
        open_is_read_back(peer.peer_asn, true, graceful_restart);
    }
    let open = bgp_message(BGP_MSG_OPEN, inner);
    bgp_message_layout(BGP_MSG_OPEN, inner);
    let front = Seq::new(16, |i: int| 0u8) + be16(0) + be16(179);
    let rest = admin_label_tlv(peer.admin_label);
    assert(body == front + open + open + rest);
    twice_the_same(front, open, rest);
    zeros_are_worth_nothing(16);
    assert(front.take(16) =~= Seq::new(16, |i: int| 0u8));
    assert(body.take(16) =~= front.take(16));
    assert(number_at(front, 16) == 0 && number_at(front, 18) == 179);
    assert forall|i: int| 20 <= i < 36 implies #[trigger] body[i] == 0xff by {
        assert(open.take(16)[i - 20] == 0xff);
    }
    label_tlv_is_read_back(peer.admin_label);
}

proof fn label_tlv_is_read_back(label: Option<String>)
    ensures
        ({
            let rest = admin_label_tlv(label);
            match label {
                Some(label) if encode_utf8(label@).len() <= 65535 => number_at(rest, 0) == 4
                    && number_at(rest, 2) == encode_utf8(label@).len() && rest.skip(4)
                    == encode_utf8(label@),
                _ => rest.len() == 0,
            }
        }),
{
    if let Some(label) = label {
        let text = encode_utf8(label@);
        if text.len() <= 65535 {
            assert(tlv(BMP_PEER_UP_TLV_ADMIN_LABEL, text).skip(4) =~= text);
        }
    }
}

proof fn twice_the_same(front: Seq<u8>, open: Seq<u8>, rest: Seq<u8>)
    requires
        front.len() == 20,
        open.len() >= 19,
    ensures
        ({
            let all = front + open + open + rest;
            let n = open.len() as int;
            &&& all.len() == 20 + 2 * n + rest.len()
            &&& forall|i: int| 0 <= i < 20 ==> #[trigger] all[i] == front[i]
            &&& forall|i: int| 20 <= i < 20 + n ==> #[trigger] all[i] == open[i - 20]
            &&& all.subrange(20, 20 + n) == open
            &&& all.subrange(20 + n, 20 + 2 * n) == open
            &&& all.subrange(39, 20 + n) == open.skip(19)
            &&& all.skip(20 + 2 * n) == rest
        }),
{
    let all = front + open + open + rest;
    let n = open.len() as int;
    assert(all.subrange(20, 20 + n) =~= open);
    assert(all.subrange(20 + n, 20 + 2 * n) =~= open);
    assert(all.subrange(39, 20 + n) =~= open.skip(19));
    assert(all.skip(20 + 2 * n) =~= rest);
}

/// An Initiation message is read back: it is of version 3 and type 4, states
/// its own size, and holds the description in a TLV of type 1 and the name in
/// one of type 2, if both fit a TLV.
pub proof fn initiation_is_read_back(sys_name: Seq<u8>, sys_descr: Seq<u8>)
    requires
        sys_name.len() <= u16::MAX,
        sys_descr.len() <= u16::MAX,
    ensures
        ({
            let msg = initiation_message(sys_name, sys_descr);
            let at = 10 + sys_descr.len() as int;
            &&& msg[0] == 3
            &&& octets_value(msg.subrange(1, 5)) == msg.len()
            &&& msg[5] == 4
            &&& number_at(msg, 6) == 1
            &&& number_at(msg, 8) == sys_descr.len()
            &&& msg.subrange(10, at) == sys_descr
            &&& number_at(msg, at) == 2
            &&& number_at(msg, at + 2) == sys_name.len()
            &&& msg.skip(at + 4) == sys_name
        }),
{
    let msg = initiation_message(sys_name, sys_descr);
    let at = 10 + sys_descr.len() as int;
    session_message_sizes(sys_name, sys_descr);
    be32_value(low32(msg.len()));
    assert(msg.subrange(10, at) =~= sys_descr);
    assert(msg.skip(at + 4) =~= sys_name);
}

/// A Termination message says that the session was closed administratively: it
/// is of version 3 and type 5, states its own size, and holds the reason 0 in a
/// TLV of type 0.
pub proof fn termination_is_read_back()
    ensures
        termination_message() == seq![3u8, 0, 0, 0, 12, 5, 0, 0, 0, 2, 0, 0],
{
    assert(termination_message() =~= seq![3u8, 0, 0, 0, 12, 5, 0, 0, 0, 2, 0, 0]);
}

/// The End-of-RIB marker of an address family is read back: it is a Route
/// Monitoring message (type 0) whose UPDATE announces and withdraws nothing. For
/// IPv4 unicast it has no path attributes. For any other family it has one, an
/// MP_UNREACH_NLRI (15) that holds the numbers of the family and no NLRI.
pub proof fn end_of_rib_is_read_back(peer: PeerInfo, afisafi: AfiSafiType, t: Timestamp)
    ensures
        end_of_rib_marker(peer, afisafi, t) matches Some(msg) && {
            let update = msg.skip(48);
            let body = update.skip(19);
            let attrs = attributes(attributes_field(body));
            &&& msg[5] == 0
            &&& msg.subrange(6, 48) == per_peer_header(peer, t)
            &&& is_update(update)
            &&& withdrawn_field(body).len() == 0
            &&& announced_field(body).len() == 0
            &&& afisafi == AfiSafiType::Ipv4Unicast ==> attributes_field(body).len() == 0
            &&& afisafi != AfiSafiType::Ipv4Unicast ==> {
                &&& attrs.len() == 1
                &&& attrs[0][1] == 15
                &&& attr_value(attrs[0]).len() == 3
                &&& number_at(attr_value(attrs[0]), 0) == afisafi.codes().0
                &&& attr_value(attrs[0])[2] == afisafi.codes().1
            }
        },
{
    peer_message_layout(BMP_MSG_ROUTE_MONITORING, peer, t, end_of_rib_update(afisafi));
    if afisafi is Ipv4Unicast {
        let body = update_body(Seq::empty(), Seq::empty(), Seq::empty());
        update_fields_are_read_back(Seq::empty(), Seq::empty(), Seq::empty());
        update_is_framed(body);
    } else {
        let value = be16(afisafi.codes().0) + seq![afisafi.codes().1];
        let attr = optional_attribute(MP_UNREACH_NLRI, value);
        let written = seq![0x80u8, MP_UNREACH_NLRI, 3] + be16(afisafi.codes().0)
            + seq![afisafi.codes().1];
        assert(attr =~= written);
        optional_attribute_is_read_back(MP_UNREACH_NLRI, value);
        let body = update_body(Seq::empty(), attr, Seq::empty());
        update_fields_are_read_back(Seq::empty(), attr, Seq::empty());
        update_is_framed(body);
        lone_attribute(attr);
    }
}

/// An attribute on its own is read back.
proof fn lone_attribute(attr: Seq<u8>)
    requires
        first_attr_len(attr) == Some(attr.len()),
    ensures
        attributes(attr) == seq![attr],
{
    assert(attr.take(attr.len() as int) =~= attr);
    assert(attr.skip(attr.len() as int) =~= Seq::empty());
    assert(attributes(Seq::<u8>::empty()) =~= Seq::empty());
    assert(attributes(attr) =~= seq![attr]);
}

/// The numbers of the address families: the first is 1 for IPv4, 2 for IPv6 and
/// 25 for L2VPN; the second is 1 for unicast, 2 for multicast, 4 with labels,
/// 128 in a VPN, 132 for route targets, 133 for flow specifications, 65 for
/// VPLS and 70 for EVPN. No two families that are known have the same numbers.
pub proof fn families_are_told_apart(a: AfiSafiType, b: AfiSafiType)
    ensures
        a.codes() == b.codes() && !(a is Unsupported) && !(b is Unsupported) ==> a == b,
        a is Ipv4Unicast || a is Ipv4Multicast || a is Ipv4MplsUnicast || a is Ipv4MplsVpnUnicast
            || a is Ipv4RouteTarget || a is Ipv4FlowSpec ==> a.codes().0 == 1,
        a is Ipv6Unicast || a is Ipv6Multicast || a is Ipv6MplsUnicast || a is Ipv6MplsVpnUnicast
            || a is Ipv6FlowSpec ==> a.codes().0 == 2,
        a is L2VpnVpls || a is L2VpnEvpn ==> a.codes().0 == 25,
        a is Ipv4Unicast || a is Ipv6Unicast ==> a.codes().1 == 1,
        a is Ipv4Multicast || a is Ipv6Multicast ==> a.codes().1 == 2,
        a is Ipv4MplsUnicast || a is Ipv6MplsUnicast ==> a.codes().1 == 4,
        a is Ipv4MplsVpnUnicast || a is Ipv6MplsVpnUnicast ==> a.codes().1 == 128,
        a is Ipv4RouteTarget ==> a.codes().1 == 132,
        a is Ipv4FlowSpec || a is Ipv6FlowSpec ==> a.codes().1 == 133,
        a is L2VpnVpls ==> a.codes().1 == 65,
        a is L2VpnEvpn ==> a.codes().1 == 70,
        a matches AfiSafiType::Unsupported(afi, safi) ==> a.codes() == (afi, safi),
{
}

//------------ Label ---------------------------------------------------------

/// Whether a name or description says nothing: it is absent, empty, or the
/// placeholder for it.
pub open spec fn says_nothing(text: Option<Seq<char>>, placeholder: Seq<char>) -> bool {
    text is None || (text->0).len() == 0 || text->0 == placeholder
}

/// There is a label for a router unless neither its name nor its description
/// says anything. What says nothing counts as absent.
pub proof fn label_leaves_out_what_says_nothing(name: Option<Seq<char>>, desc: Option<Seq<char>>)
    ensures
        admin_label_json(name, desc) is None <==> says_nothing(name, "no-sysname"@) && says_nothing(
            desc,
            "no-sysdesc"@,
        ),
        says_nothing(name, "no-sysname"@) ==> admin_label_json(name, desc) == admin_label_json(
            None,
            desc,
        ),
        says_nothing(desc, "no-sysdesc"@) ==> admin_label_json(name, desc) == admin_label_json(
            name,
            None,
        ),
{
}

/// The members of a JSON object that read as a label does: with the name, with
/// the description, or with both.
pub open spec fn label_members(label: Seq<char>) -> Seq<char> {
    label.subrange(1, label.len() - 1)
}

/// Whether characters are a member of a JSON object: the key between quotes, a
/// colon, and between quotes what reads as the value.
pub open spec fn is_member(t: Seq<char>, key: Seq<char>, value: Seq<char>) -> bool {
    let k = key.len() as int;
    &&& t.len() >= k + 5
    &&& t[0] == '"'
    &&& t.subrange(1, 1 + k) == key
    &&& t[1 + k] == '"'
    &&& t[2 + k] == ':'
    &&& t[3 + k] == '"'
    &&& read_text(t.subrange(4 + k, t.len() - 1)) == Some(value)
    &&& t.last() == '"'
}

proof fn member_is_read_back(key: Seq<char>, value: Seq<char>)
    ensures
        is_member(json_member(key, value), key, value),
{
    let t = json_member(key, value);
    let k = key.len() as int;
    escaped_text_is_read_back(value);
    assert(t.subrange(1, 1 + k) =~= key);
    assert(t.subrange(4 + k, t.len() - 1) =~= escaped(value));
}

/// A label is read back: it is a JSON object in braces, whose members are the
/// name under "sysName" and the description under "sysDescr", in this order and
/// with a comma between them, as far as they say something.
pub proof fn label_is_read_back(name: Option<Seq<char>>, desc: Option<Seq<char>>)
    requires
        admin_label_json(name, desc) is Some,
    ensures
        ({
            let label = admin_label_json(name, desc)->0;
            let members = label_members(label);
            let no_name = says_nothing(name, "no-sysname"@);
            let no_desc = says_nothing(desc, "no-sysdesc"@);
            &&& label.len() >= 2
            &&& label.first() == '{'
            &&& label.last() == '}'
            &&& !no_name && no_desc ==> is_member(members, "sysName"@, name->0)
            &&& no_name && !no_desc ==> is_member(members, "sysDescr"@, desc->0)
            &&& !no_name && !no_desc ==> exists|i: int|
                {
                    &&& 0 <= i < members.len()
                    &&& is_member(#[trigger] members.take(i), "sysName"@, name->0)
                    &&& members[i] == ','
                    &&& is_member(members.skip(i + 1), "sysDescr"@, desc->0)
                }
        }),
{
    let label = admin_label_json(name, desc)->0;
    let members = label_members(label);
    let no_name = says_nothing(name, "no-sysname"@);
    let no_desc = says_nothing(desc, "no-sysdesc"@);
    if !no_name {
        let a = json_member("sysName"@, name->0);
        member_is_read_back("sysName"@, name->0);
        if !no_desc {
            let b = json_member("sysDescr"@, desc->0);
            member_is_read_back("sysDescr"@, desc->0);
            assert(members =~= a + seq![','] + b);
            let i = a.len() as int;
            assert(members.take(i) =~= a);
            assert(members.skip(i + 1) =~= b);
            assert(members[i] == ',');
            assert(is_member(members.take(i), "sysName"@, name->0));
        } else {
            assert(members =~= a);
        }
    } else {
        let b = json_member("sysDescr"@, desc->0);
        member_is_read_back("sysDescr"@, desc->0);
        assert(members =~= b);
    }
}

//------------ Streams -------------------------------------------------------

/// What is sent can be received: a message about a peer, of up to two mebibytes,
/// at the start of a stream is found there as it was sent, whatever follows it
/// and whether or not messages are traced.
pub proof fn sent_is_received(
    msg_type: u8,
    peer: PeerInfo,
    t: Timestamp,
    body: Seq<u8>,
    rest: Seq<u8>,
    tracing_mode: TracingMode,
)
    requires
        48 + body.len() <= 2 * 1024 * 1024,
    ensures
        ({
            let msg = peer_message(msg_type, peer, t, body);
            &&& first_frame(msg + rest, tracing_mode) == Some(msg)
            &&& trace_of(msg[0], tracing_mode) == 0
        }),
{
    header_is_read_back(msg_type, peer, t, body);
    sent_message_is_framed(peer_message(msg_type, peer, t, body), rest, tracing_mode);
}

} // verus!
