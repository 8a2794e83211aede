//! Addresses, prefixes, AS numbers and address families as plain values.
use crate::text::{decimal, push_decimal};
use inetnum::addr::Prefix as OutsidePrefix;
use vstd::arithmetic::power2::pow2;
use vstd::prelude::*;
use vstd::string::*;

verus! {

/// An IP address, held as the number that its octets in network order stand
/// for.
#[derive(Clone, Copy, Debug, PartialEq, Eq, Structural)]
pub enum IpAddr {
    V4(u32),
    V6(u128),
}

impl IpAddr {
    /// The number of bits of an address of this family.
    pub open spec fn width(self) -> nat {
        match self {
            IpAddr::V4(_) => 32,
            IpAddr::V6(_) => 128,
        }
    }

    /// The address as a number.
    pub open spec fn number(self) -> nat {
        match self {
            IpAddr::V4(a) => a as nat,
            IpAddr::V6(a) => a as nat,
        }
    }

    /// Whether this is an IPv6 address.
    pub fn is_ipv6(&self) -> (yes: bool)
        ensures
            yes == (*self is V6),
    {
        matches!(self, IpAddr::V6(_))
    }
}

/// An autonomous system number.
#[derive(Clone, Copy, Debug, PartialEq, Eq, Structural)]
pub struct Asn(pub u32);

impl Asn {
    /// The AS with the given number.
    pub fn from_u32(n: u32) -> (asn: Asn)
        ensures
            asn == Asn(n),
    {
        Asn(n)
    }

    /// The number of the AS.
    pub fn into_u32(self) -> (n: u32)
        ensures
            n == self.0,
    {
        self.0
    }
}

/// Why an address and a length do not make a prefix.
#[derive(Clone, Copy, Debug, PartialEq, Eq, Structural)]
pub enum PrefixError {
    /// The length exceeds the number of bits of the address.
    LenOverflow,
    /// A bit beyond the length is set.
    NonZeroHost,
}

/// An IP prefix: the leading `len` bits of `addr`, all other bits zero.
#[derive(Clone, Copy, Debug, PartialEq, Eq, Structural)]
pub struct Prefix {
    pub(crate) addr: IpAddr,
    pub(crate) len: u8,
}

/// Whether the bits of `addr` beyond the first `len` are all zero.
pub open spec fn host_is_zero(addr: IpAddr, len: nat) -> bool {
    addr.number() % pow2((addr.width() - len) as nat) == 0
}

/// What an address and a length make: themselves, where the length fits the
/// family and no bit beyond it is set.
pub open spec fn checked_prefix(addr: IpAddr, len: u8) -> Result<(IpAddr, u8), PrefixError> {
    if len > addr.width() {
        Err(PrefixError::LenOverflow)
    } else if !host_is_zero(addr, len as nat) {
        Err(PrefixError::NonZeroHost)
    } else {
        Ok((addr, len))
    }
}

impl Prefix {
    /// The address part.
    pub closed spec fn addr_spec(self) -> IpAddr {
        self.addr
    }

    /// The number of significant bits.
    pub closed spec fn len_spec(self) -> u8 {
        self.len
    }

    /// The length fits the address family and no bit beyond it is set.
    #[verifier::type_invariant]
    pub closed spec fn wf(self) -> bool {
        &&& self.len <= self.addr.width()
        &&& host_is_zero(self.addr, self.len as nat)
    }

    /// Makes a prefix of an address and a length.
    pub fn new(addr: IpAddr, len: u8) -> (res: Result<Prefix, PrefixError>)
        ensures
            match checked_prefix(addr, len) {
                Ok(_) => res matches Ok(p) && p.addr_spec() == addr && p.len_spec() == len,
                Err(e) => res matches Err(f) && f == e,
            },
    {
        match outside_prefix(addr, len) {
            Ok(_) => Ok(Prefix { addr, len }),
            Err(e) => Err(e),
        }
    }

    /// Whether this is an IPv4 prefix.
    pub fn is_v4(&self) -> (yes: bool)
        ensures
            yes == (self.addr_spec() is V4),
    {
        matches!(self.addr, IpAddr::V4(_))
    }

    /// The address part.
    pub fn addr(&self) -> (addr: IpAddr)
        ensures
            addr == self.addr_spec(),
    {
        self.addr
    }

    /// The number of significant bits.
    pub fn len(&self) -> (len: u8)
        ensures
            len == self.len_spec(),
            len <= self.addr_spec().width(),
    {
        proof {
            use_type_invariant(self);
        }
        self.len
    }

    /// Whether every address of `other` is one of `self`.
    pub open spec fn covers(self, other: Prefix) -> bool {
        &&& self.addr_spec() is V4 <==> other.addr_spec() is V4
        &&& self.len_spec() <= other.len_spec()
        &&& other.addr_spec().number() / pow2(
            (self.addr_spec().width() - self.len_spec()) as nat,
        ) == self.addr_spec().number() / pow2(
            (self.addr_spec().width() - self.len_spec()) as nat,
        )
    }
}

/// The prefix of a family that has no bits.
pub closed spec fn default_route(v4: bool) -> Prefix {
    Prefix {
        addr: if v4 {
            IpAddr::V4(0)
        } else {
            IpAddr::V6(0)
        },
        len: 0,
    }
}

/// A family has one prefix without bits.
pub proof fn default_route_is_unique(p: Prefix)
    requires
        p.wf(),
        p.len_spec() == 0,
    ensures
        p == default_route(p.addr_spec() is V4),
{
    vstd::arithmetic::power2::lemma2_to64();
    vstd::arithmetic::power2::lemma_pow2_adds(64, 64);
    let n = p.addr.number();
    assert(pow2(128) == 0x1_0000_0000_0000_0000_0000_0000_0000_0000nat) by {
        assert(pow2(64) * pow2(64) == 0x1_0000_0000_0000_0000_0000_0000_0000_0000nat)
            by (nonlinear_arith)
            requires
                pow2(64) == 0x1_0000_0000_0000_0000nat,
        ;
    }
    assert(n < pow2(p.addr.width()));
    vstd::arithmetic::div_mod::lemma_small_mod(n, pow2(p.addr.width()));
}

/// The prefix without bits has none.
pub proof fn default_route_has_no_bits(v4: bool)
    ensures
        default_route(v4).len_spec() == 0,
        default_route(v4).addr_spec() is V4 == v4,
{
}

/// The length of a prefix fits its family, and no bit beyond it is set.
pub proof fn prefix_is_valid(p: Prefix)
    requires
        p.wf(),
    ensures
        p.len_spec() <= p.addr_spec().width(),
        host_is_zero(p.addr_spec(), p.len_spec() as nat),
{
}

/// Two prefixes with the same address and length are the same.
pub proof fn prefix_by_parts(a: Prefix, b: Prefix)
    ensures
        a.addr_spec() == b.addr_spec() && a.len_spec() == b.len_spec() ==> a == b,
{
}

/// `inetnum::addr::Prefix`, which is handed to outside functions.
#[verifier::external_type_specification]
#[verifier::external_body]
pub struct ExOutsidePrefix(OutsidePrefix);

/// `inetnum::addr::Prefix::new`: makes a prefix of an address and a length.
///
/// A length beyond the address family's is refused as `LenOverflow`; else a
/// set bit beyond the length is refused as `NonZeroHost`; else there is a
/// prefix.
#[verifier::external_body]
pub(crate) fn outside_prefix(addr: IpAddr, len: u8) -> (res: Result<OutsidePrefix, PrefixError>)
    ensures
        match checked_prefix(addr, len) {
            Ok(_) => res is Ok,
            Err(e) => res matches Err(f) && f == e,
        },
{
    let ip = match addr {
        IpAddr::V4(a) => a.to_be_bytes().into(),
        IpAddr::V6(a) => a.to_be_bytes().into(),
    };
    match OutsidePrefix::new(ip, len) {
        Ok(p) => Ok(p),
        Err(inetnum::addr::PrefixError::LenOverflow) => Err(PrefixError::LenOverflow),
        Err(_) => Err(PrefixError::NonZeroHost),
    }
}

/// The type of a monitored BMP peer.
#[derive(Clone, Copy, Debug, PartialEq, Eq, Structural)]
pub enum PeerType {
    GlobalInstance,
    RdInstance,
    LocalInstance,
    LocalRibInstance,
    Reserved,
    Unassigned(u8),
    Experimental(u8),
    Unimplemented(u8),
}

impl PeerType {
    /// The octet that stands for the type on the wire.
    pub open spec fn code(self) -> u8 {
        match self {
            PeerType::GlobalInstance => 0,
            PeerType::RdInstance => 1,
            PeerType::LocalInstance => 2,
            PeerType::LocalRibInstance => 3,
            PeerType::Reserved => 255,
            PeerType::Unassigned(n) => n,
            PeerType::Experimental(n) => n,
            PeerType::Unimplemented(n) => n,
        }
    }

    /// The octet that stands for the type on the wire.
    pub fn to_u8(self) -> (n: u8)
        ensures
            n == self.code(),
    {
        match self {
            PeerType::GlobalInstance => 0,
            PeerType::RdInstance => 1,
            PeerType::LocalInstance => 2,
            PeerType::LocalRibInstance => 3,
            PeerType::Reserved => 255,
            PeerType::Unassigned(n) => n,
            PeerType::Experimental(n) => n,
            PeerType::Unimplemented(n) => n,
        }
    }
}

/// An address family together with a subsequent address family.
#[derive(Clone, Copy, Debug, PartialEq, Eq, Structural)]
pub enum AfiSafiType {
    Ipv4Unicast,
    Ipv4Multicast,
    Ipv4MplsUnicast,
    Ipv4MplsVpnUnicast,
    Ipv4RouteTarget,
    Ipv4FlowSpec,
    Ipv6Unicast,
    Ipv6Multicast,
    Ipv6MplsUnicast,
    Ipv6MplsVpnUnicast,
    Ipv6FlowSpec,
    L2VpnVpls,
    L2VpnEvpn,
    Unsupported(u16, u8),
}

impl AfiSafiType {
    /// The numbers of the two families on the wire.
    pub open spec fn codes(self) -> (u16, u8) {
        match self {
            AfiSafiType::Ipv4Unicast => (1, 1),
            AfiSafiType::Ipv4Multicast => (1, 2),
            AfiSafiType::Ipv4MplsUnicast => (1, 4),
            AfiSafiType::Ipv4MplsVpnUnicast => (1, 128),
            AfiSafiType::Ipv4RouteTarget => (1, 132),
            AfiSafiType::Ipv4FlowSpec => (1, 133),
            AfiSafiType::Ipv6Unicast => (2, 1),
            AfiSafiType::Ipv6Multicast => (2, 2),
            AfiSafiType::Ipv6MplsUnicast => (2, 4),
            AfiSafiType::Ipv6MplsVpnUnicast => (2, 128),
            AfiSafiType::Ipv6FlowSpec => (2, 133),
            AfiSafiType::L2VpnVpls => (25, 65),
            AfiSafiType::L2VpnEvpn => (25, 70),
            AfiSafiType::Unsupported(afi, safi) => (afi, safi),
        }
    }

    /// The numbers of the two families on the wire.
    pub fn to_codes(self) -> (codes: (u16, u8))
        ensures
            codes == self.codes(),
    {
        match self {
            AfiSafiType::Ipv4Unicast => (1, 1),
            AfiSafiType::Ipv4Multicast => (1, 2),
            AfiSafiType::Ipv4MplsUnicast => (1, 4),
            AfiSafiType::Ipv4MplsVpnUnicast => (1, 128),
            AfiSafiType::Ipv4RouteTarget => (1, 132),
            AfiSafiType::Ipv4FlowSpec => (1, 133),
            AfiSafiType::Ipv6Unicast => (2, 1),
            AfiSafiType::Ipv6Multicast => (2, 2),
            AfiSafiType::Ipv6MplsUnicast => (2, 4),
            AfiSafiType::Ipv6MplsVpnUnicast => (2, 128),
            AfiSafiType::Ipv6FlowSpec => (2, 133),
            AfiSafiType::L2VpnVpls => (25, 65),
            AfiSafiType::L2VpnEvpn => (25, 70),
            AfiSafiType::Unsupported(afi, safi) => (afi, safi),
        }
    }
}

impl AfiSafiType {
    /// The name of the two families.
    pub open spec fn name(self) -> Seq<char> {
        match self {
            AfiSafiType::Ipv4Unicast => "Ipv4Unicast"@,
            AfiSafiType::Ipv4Multicast => "Ipv4Multicast"@,
            AfiSafiType::Ipv4MplsUnicast => "Ipv4MplsUnicast"@,
            AfiSafiType::Ipv4MplsVpnUnicast => "Ipv4MplsVpnUnicast"@,
            AfiSafiType::Ipv4RouteTarget => "Ipv4RouteTarget"@,
            AfiSafiType::Ipv4FlowSpec => "Ipv4FlowSpec"@,
            AfiSafiType::Ipv6Unicast => "Ipv6Unicast"@,
            AfiSafiType::Ipv6Multicast => "Ipv6Multicast"@,
            AfiSafiType::Ipv6MplsUnicast => "Ipv6MplsUnicast"@,
            AfiSafiType::Ipv6MplsVpnUnicast => "Ipv6MplsVpnUnicast"@,
            AfiSafiType::Ipv6FlowSpec => "Ipv6FlowSpec"@,
            AfiSafiType::L2VpnVpls => "L2VpnVpls"@,
            AfiSafiType::L2VpnEvpn => "L2VpnEvpn"@,
            AfiSafiType::Unsupported(afi, safi) => "UnsupportedAfiSafi("@ + decimal(afi as nat)
                + ", "@ + decimal(safi as nat) + ")"@,
        }
    }

    /// Appends the name of the two families.
    pub fn push_name(self, out: &mut String)
        ensures
            final(out)@ == old(out)@ + self.name(),
    {
        match self {
            AfiSafiType::Ipv4Unicast => out.append("Ipv4Unicast"),
            AfiSafiType::Ipv4Multicast => out.append("Ipv4Multicast"),
            AfiSafiType::Ipv4MplsUnicast => out.append("Ipv4MplsUnicast"),
            AfiSafiType::Ipv4MplsVpnUnicast => out.append("Ipv4MplsVpnUnicast"),
            AfiSafiType::Ipv4RouteTarget => out.append("Ipv4RouteTarget"),
            AfiSafiType::Ipv4FlowSpec => out.append("Ipv4FlowSpec"),
            AfiSafiType::Ipv6Unicast => out.append("Ipv6Unicast"),
            AfiSafiType::Ipv6Multicast => out.append("Ipv6Multicast"),
            AfiSafiType::Ipv6MplsUnicast => out.append("Ipv6MplsUnicast"),
            AfiSafiType::Ipv6MplsVpnUnicast => out.append("Ipv6MplsVpnUnicast"),
            AfiSafiType::Ipv6FlowSpec => out.append("Ipv6FlowSpec"),
            AfiSafiType::L2VpnVpls => out.append("L2VpnVpls"),
            AfiSafiType::L2VpnEvpn => out.append("L2VpnEvpn"),
            AfiSafiType::Unsupported(afi, safi) => {
                out.append("UnsupportedAfiSafi(");
                push_decimal(out, afi as u128);
                out.append(", ");
                push_decimal(out, safi as u128);
                out.append(")");
                assert(out@ =~= old(out)@ + self.name());
            },
        }
    }
}

//------------ Laws ----------------------------------------------------------

/// Whether an address is one of a prefix: it is of its family and not before its
/// first address, and less than the number of its addresses after it.
pub open spec fn is_address_of(addr: IpAddr, prefix: Prefix) -> bool {
    let first = prefix.addr_spec();
    &&& addr is V4 <==> first is V4
    &&& first.number() <= addr.number() < first.number() + pow2(
        (first.width() - prefix.len_spec()) as nat,
    )
}

/// The number of addresses of each family.
proof fn numbers_of_addresses()
    ensures
        pow2(32) == 0x1_0000_0000nat,
        pow2(128) == 0x1_0000_0000_0000_0000_0000_0000_0000_0000nat,
{
    vstd::arithmetic::power2::lemma2_to64();
    vstd::arithmetic::power2::lemma_pow2_adds(64, 64);
    assert(pow2(128) == 0x1_0000_0000_0000_0000_0000_0000_0000_0000nat) by {
        assert(pow2(64) * pow2(64) == 0x1_0000_0000_0000_0000_0000_0000_0000_0000nat)
            by (nonlinear_arith)
            requires
                pow2(64) == 0x1_0000_0000_0000_0000nat,
        ;
    }
}

proof fn number_fits(addr: IpAddr)
    ensures
        addr.number() < pow2(addr.width()),
{
    numbers_of_addresses();
}

/// The address of a family with a number.
spec fn address(v4: bool, number: nat) -> IpAddr {
    if v4 {
        IpAddr::V4(number as u32)
    } else {
        IpAddr::V6(number as u128)
    }
}

proof fn covering_is_nesting(a: Prefix, b: Prefix)
    requires
        a.wf(),
        b.wf(),
        a.addr_spec() is V4 <==> b.addr_spec() is V4,
    ensures
        ({
            let w = a.addr_spec().width();
            let x = a.addr_spec().number();
            let y = b.addr_spec().number();
            a.covers(b) <==> x <= y && y + pow2((w - b.len_spec()) as nat) <= x + pow2(
                (w - a.len_spec()) as nat,
            )
        }),
{
    let w = a.addr.width();
    let x = a.addr.number() as int;
    let y = b.addr.number() as int;
    let p = pow2((w - a.len) as nat) as int;
    let q = pow2((w - b.len) as nat) as int;
    vstd::arithmetic::power2::lemma_pow2_pos((w - a.len) as nat);
    vstd::arithmetic::power2::lemma_pow2_pos((w - b.len) as nat);
    vstd::arithmetic::div_mod::lemma_fundamental_div_mod(x, p);
    vstd::arithmetic::div_mod::lemma_fundamental_div_mod(y, q);
    vstd::arithmetic::div_mod::lemma_fundamental_div_mod(y, p);
    let i = x / p;
    let j = y / q;
    if a.covers(b) {
        let k = pow2((b.len - a.len) as nat) as int;
        vstd::arithmetic::power2::lemma_pow2_adds((w - b.len) as nat, (b.len - a.len) as nat);
        assert(q * k == p);
        assert(y < p * i + p);
        assert(p * i + p == q * (k * (i + 1))) by (nonlinear_arith)
            requires
                q * k == p,
        ;
        assert(y == q * j);
        assert(j < k * (i + 1)) by (nonlinear_arith)
            requires
                q * j < q * (k * (i + 1)),
                q > 0,
        ;
        assert(q * j + q <= q * (k * (i + 1))) by (nonlinear_arith)
            requires
                j < k * (i + 1),
                q > 0,
        ;
    } else if x <= y && y + q <= x + p {
        if a.len > b.len {
            vstd::arithmetic::power2::lemma_pow2_strictly_increases(
                (w - a.len) as nat,
                (w - b.len) as nat,
            );
        }
        vstd::arithmetic::div_mod::lemma_fundamental_div_mod_converse(y, p, i, y - p * i);
        assert(a.covers(b));
    }
}

/// One prefix covers another exactly where each address of the other is one of
/// its own.
pub proof fn covering_is_containing(a: Prefix, b: Prefix)
    requires
        a.wf(),
        b.wf(),
    ensures
        a.covers(b) <==> forall|addr: IpAddr| #[trigger]
            is_address_of(addr, b) ==> is_address_of(addr, a),
{
    let w = b.addr.width();
    let v4 = b.addr is V4;
    let y = b.addr.number();
    let q = pow2((w - b.len) as nat);
    vstd::arithmetic::power2::lemma_pow2_pos((w - b.len) as nat);
    assert(is_address_of(b.addr, b));
    if a.addr is V4 <==> v4 {
        covering_is_nesting(a, b);
        if forall|addr: IpAddr| #[trigger] is_address_of(addr, b) ==> is_address_of(addr, a) {
            last_address_fits(b);
            let last = address(v4, (y + q - 1) as nat);
            assert(is_address_of(last, b));
            assert(is_address_of(last, a));
        }
    } else {
        assert(!is_address_of(b.addr, a));
    }
}

proof fn last_address_fits(b: Prefix)
    requires
        b.wf(),
    ensures
        ({
            let w = b.addr_spec().width();
            let n = b.addr_spec().number() + pow2((w - b.len_spec()) as nat) - 1;
            n >= 0 && address(b.addr_spec() is V4, n as nat).number() == n && (address(
                b.addr_spec() is V4,
                n as nat,
            ) is V4 == (b.addr_spec() is V4))
        }),
{
    let w = b.addr.width();
    let y = b.addr.number() as int;
    let q = pow2((w - b.len) as nat) as int;
    let k = pow2(b.len as nat) as int;
    vstd::arithmetic::power2::lemma_pow2_pos((w - b.len) as nat);
    number_fits(b.addr);
    vstd::arithmetic::power2::lemma_pow2_adds((w - b.len) as nat, b.len as nat);
    vstd::arithmetic::div_mod::lemma_fundamental_div_mod(y, q);
    let j = y / q;
    assert(j < k) by (nonlinear_arith)
        requires
            q * j < q * k,
            q > 0,
    ;
    assert(q * j + q <= q * k) by (nonlinear_arith)
        requires
            j < k,
            q > 0,
    ;
    assert(y + q <= pow2(w));
    numbers_of_addresses();
}

/// The prefix of a family that has no bits covers every prefix of it.
pub proof fn default_route_covers(top: Prefix, p: Prefix)
    requires
        top.wf(),
        p.wf(),
        top.len_spec() == 0,
        top.addr_spec() is V4 == p.addr_spec() is V4,
    ensures
        top.covers(p),
{
    let w = p.addr.width();
    number_fits(top.addr);
    number_fits(p.addr);
    vstd::arithmetic::div_mod::lemma_basic_div(top.addr.number() as int, pow2(w) as int);
    vstd::arithmetic::div_mod::lemma_basic_div(p.addr.number() as int, pow2(w) as int);
}

} // verus!
