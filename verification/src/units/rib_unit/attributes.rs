//! What single path attributes of a route say.
use routecore::bgp::aspath::HopPath;
use routecore::bgp::message::update_builder::StandardCommunitiesList;
use routecore::bgp::message::PduParseInfo as OutsideParseInfo;
use routecore::bgp::path_attributes::{
    LargeCommunitiesList, OwnedPathAttributes as OutsideAttributes,
};
use routecore::bgp::types::Otc;
use vstd::prelude::*;

verus! {

/// The AS number in the ONLY_TO_CUSTOMER attribute of path attributes, with AS
/// numbers of four octets or not.
pub uninterp spec fn otc_in(four_octet: bool, attributes: Seq<u8>) -> Option<u32>;

/// The communities in the COMMUNITIES attribute of path attributes.
pub uninterp spec fn communities_in(four_octet: bool, attributes: Seq<u8>) -> Option<Seq<u32>>;

/// The communities in the LARGE_COMMUNITIES attribute of path attributes.
pub uninterp spec fn large_communities_in(four_octet: bool, attributes: Seq<u8>) -> Option<
    Seq<(u32, u32, u32)>,
>;

/// The AS number of the last hop in the AS_PATH attribute of path attributes.
pub uninterp spec fn origin_in(four_octet: bool, attributes: Seq<u8>) -> Option<u32>;

/// `OwnedPathAttributes::get::<Otc>`: the AS number in the ONLY_TO_CUSTOMER
/// attribute, if there is one. It depends on the attributes and on the width
/// of AS numbers alone.
#[verifier::external_body]
pub(crate) fn otc(four_octet: bool, attributes: &[u8]) -> (asn: Option<u32>)
    ensures
        asn == otc_in(four_octet, attributes@),
{
    let ppi = if four_octet { OutsideParseInfo::modern() } else { OutsideParseInfo::legacy() };
    OutsideAttributes::new(ppi, attributes.to_vec()).get::<Otc>().map(|o| o.0.into_u32())
}

/// The optional list as a sequence.
pub open spec fn opt_list<T>(list: Option<Vec<T>>) -> Option<Seq<T>> {
    match list {
        Some(v) => Some(v@),
        None => None,
    }
}

/// `OwnedPathAttributes::get::<StandardCommunitiesList>`: the communities in
/// the COMMUNITIES attribute, if there is one. They depend on the attributes
/// and on the width of AS numbers alone.
#[verifier::external_body]
pub(crate) fn communities(four_octet: bool, attributes: &[u8]) -> (list: Option<Vec<u32>>)
    ensures
        opt_list(list) == communities_in(four_octet, attributes@),
{
    let ppi = if four_octet { OutsideParseInfo::modern() } else { OutsideParseInfo::legacy() };
    let pa = OutsideAttributes::new(ppi, attributes.to_vec());
    pa.get::<StandardCommunitiesList>().map(|l| l.communities().iter().map(|c| c.to_u32()).collect())
}

/// `OwnedPathAttributes::get::<LargeCommunitiesList>`: the communities in the
/// LARGE_COMMUNITIES attribute, if there is one. They depend on the attributes
/// and on the width of AS numbers alone.
#[verifier::external_body]
pub(crate) fn large_communities(four_octet: bool, attributes: &[u8]) -> (list: Option<
    Vec<(u32, u32, u32)>,
>)
    ensures
        opt_list(list) == large_communities_in(four_octet, attributes@),
{
    let ppi = if four_octet { OutsideParseInfo::modern() } else { OutsideParseInfo::legacy() };
    let pa = OutsideAttributes::new(ppi, attributes.to_vec());
    pa.get::<LargeCommunitiesList>().map(|l| {
        l.communities().iter().map(|c| (c.global(), c.local1(), c.local2())).collect()
    })
}

/// `OwnedPathAttributes::get::<HopPath>` and `HopPath::origin`: the AS number
/// of the last hop in the AS_PATH attribute, if there is one and it is a single
/// AS. It depends on the attributes and on the width of AS numbers alone.
#[verifier::external_body]
pub(crate) fn origin(four_octet: bool, attributes: &[u8]) -> (asn: Option<u32>)
    ensures
        asn == origin_in(four_octet, attributes@),
{
    let ppi = if four_octet { OutsideParseInfo::modern() } else { OutsideParseInfo::legacy() };
    let pa = OutsideAttributes::new(ppi, attributes.to_vec());
    let asn = pa.get::<HopPath>().and_then(|p| p.origin().and_then(|h| h.clone().try_into_asn().ok()));
    asn.map(|a| a.into_u32())
}

} // verus!
