//! Octets and the numbers that they stand for.
use vstd::arithmetic::div_mod::{lemma_mod_bound, lemma_mod_breakdown};
use vstd::arithmetic::power2::{lemma2_to64, lemma_pow2_adds, lemma_pow2_pos, pow2};
use vstd::prelude::*;

verus! {

/// The two bytes of a 16-bit number in network order.
pub open spec fn be16(n: u16) -> Seq<u8> {
    seq![(n / 0x100) as u8, (n % 0x100) as u8]
}

/// The four bytes of a 32-bit number in network order.
pub open spec fn be32(n: u32) -> Seq<u8> {
    seq![
        (n / 0x100_0000) as u8,
        (n / 0x1_0000 % 0x100) as u8,
        (n / 0x100 % 0x100) as u8,
        (n % 0x100) as u8,
    ]
}

/// The eight bytes of a 64-bit number in network order.
pub open spec fn be64(n: u64) -> Seq<u8> {
    be32((n / 0x1_0000_0000) as u32) + be32((n % 0x1_0000_0000) as u32)
}

/// The sixteen bytes of a 128-bit number in network order.
pub open spec fn be128(n: u128) -> Seq<u8> {
    be64((n / 0x1_0000_0000_0000_0000) as u64) + be64((n % 0x1_0000_0000_0000_0000) as u64)
}

/// The number that two bytes in network order stand for.
pub open spec fn from_be16(hi: u8, lo: u8) -> nat {
    (hi * 0x100 + lo) as nat
}

/// A length reduced to the 16 bits of a length field.
pub open spec fn low16(n: nat) -> u16 {
    (n % 0x1_0000) as u16
}

/// A length reduced to the 32 bits of a length field.
pub open spec fn low32(n: nat) -> u32 {
    (n % 0x1_0000_0000) as u32
}

/// Appends a 16-bit number in network order.
pub fn push_u16(out: &mut Vec<u8>, n: u16)
    ensures
        final(out)@ == old(out)@ + be16(n),
{
    out.push((n / 0x100) as u8);
    out.push((n % 0x100) as u8);
    assert(out@ =~= old(out)@ + be16(n));
}

/// Appends a 32-bit number in network order.
pub fn push_u32(out: &mut Vec<u8>, n: u32)
    ensures
        final(out)@ == old(out)@ + be32(n),
{
    out.push((n / 0x100_0000) as u8);
    out.push((n / 0x1_0000 % 0x100) as u8);
    out.push((n / 0x100 % 0x100) as u8);
    out.push((n % 0x100) as u8);
    assert(out@ =~= old(out)@ + be32(n));
}

/// Appends a 64-bit number in network order.
pub fn push_u64(out: &mut Vec<u8>, n: u64)
    ensures
        final(out)@ == old(out)@ + be64(n),
{
    push_u32(out, (n / 0x1_0000_0000) as u32);
    push_u32(out, (n % 0x1_0000_0000) as u32);
    assert(out@ =~= old(out)@ + be64(n));
}

/// Appends a 128-bit number in network order.
pub fn push_u128(out: &mut Vec<u8>, n: u128)
    ensures
        final(out)@ == old(out)@ + be128(n),
{
    push_u64(out, (n / 0x1_0000_0000_0000_0000) as u64);
    push_u64(out, (n % 0x1_0000_0000_0000_0000) as u64);
    assert(out@ =~= old(out)@ + be128(n));
}

/// Appends a run of bytes.
pub fn push_bytes(out: &mut Vec<u8>, bytes: &[u8])
    ensures
        final(out)@ == old(out)@ + bytes@,
{
    out.extend_from_slice(bytes);
    assert(out@ =~= old(out)@ + bytes@);
}

/// Appends `count` zero bytes.
pub fn push_zeros(out: &mut Vec<u8>, count: usize)
    ensures
        final(out)@ == old(out)@ + Seq::new(count as nat, |i: int| 0u8),
{
    let mut i: usize = 0;
    while i < count
        invariant
            i <= count,
            out@ == old(out)@ + Seq::new(i as nat, |j: int| 0u8),
        decreases count - i,
    {
        out.push(0);
        i += 1;
        assert(out@ =~= old(out)@ + Seq::new(i as nat, |j: int| 0u8));
    }
}

/// Reads two bytes in network order.
pub fn read_u16(hi: u8, lo: u8) -> (n: u16)
    ensures
        n == from_be16(hi, lo),
{
    hi as u16 * 0x100 + lo as u16
}

/// A number is determined by its four bytes.
pub proof fn be32_injective(a: u32, b: u32)
    ensures
        be32(a) == be32(b) ==> a == b,
{
    if be32(a) == be32(b) {
        assert(be32(a)[0] == be32(b)[0]);
        assert(be32(a)[1] == be32(b)[1]);
        assert(be32(a)[2] == be32(b)[2]);
        assert(be32(a)[3] == be32(b)[3]);
    }
}

/// A number is determined by its eight bytes.
pub proof fn be64_injective(a: u64, b: u64)
    ensures
        be64(a) == be64(b) ==> a == b,
{
    if be64(a) == be64(b) {
        be32_injective((a / 0x1_0000_0000) as u32, (b / 0x1_0000_0000) as u32);
        be32_injective((a % 0x1_0000_0000) as u32, (b % 0x1_0000_0000) as u32);
        assert(be64(a).take(4) =~= be32((a / 0x1_0000_0000) as u32));
        assert(be64(b).take(4) =~= be32((b / 0x1_0000_0000) as u32));
        assert(be64(a).skip(4) =~= be32((a % 0x1_0000_0000) as u32));
        assert(be64(b).skip(4) =~= be32((b % 0x1_0000_0000) as u32));
    }
}

/// Whether two runs of bytes are the same.
pub fn same_bytes(a: &[u8], b: &[u8]) -> (same: bool)
    ensures
        same == (a@ == b@),
{
    if a.len() != b.len() {
        return false;
    }
    let mut i: usize = 0;
    while i < a.len()
        invariant
            i <= a@.len(),
            a@.len() == b@.len(),
            forall|j: int| 0 <= j < i ==> a@[j] == b@[j],
        decreases a@.len() - i,
    {
        if a[i] != b[i] {
            return false;
        }
        i += 1;
    }
    assert(a@ =~= b@);
    true
}

/// A number that stops at the largest that fits.
pub open spec fn capped(n: nat) -> nat {
    if n <= usize::MAX {
        n
    } else {
        usize::MAX as nat
    }
}

//------------ Octets as numbers ---------------------------------------------

/// The number that octets in network order stand for.
pub open spec fn octets_value(octets: Seq<u8>) -> nat
    decreases octets.len(),
{
    if octets.len() == 0 {
        0
    } else {
        octets_value(octets.drop_last()) * 0x100 + octets.last() as nat
    }
}

proof fn value_with_four_more(a: Seq<u8>, b: Seq<u8>)
    requires
        b.len() == 4,
    ensures
        octets_value(a + b) == octets_value(a) * 0x1_0000_0000 + b[0] as nat * 0x100_0000
            + b[1] as nat * 0x1_0000 + b[2] as nat * 0x100 + b[3] as nat,
{
    let t4 = a + b;
    let t3 = t4.drop_last();
    let t2 = t3.drop_last();
    let t1 = t2.drop_last();
    assert(t1.drop_last() =~= a);
    assert(octets_value(t1) == octets_value(a) * 0x100 + b[0] as nat);
    assert(octets_value(t2) == octets_value(t1) * 0x100 + b[1] as nat);
    assert(octets_value(t3) == octets_value(t2) * 0x100 + b[2] as nat);
    assert(octets_value(t4) == octets_value(t3) * 0x100 + b[3] as nat);
}

/// The octets of a 32-bit number, behind others, add the number.
pub(crate) proof fn value_with_be32(a: Seq<u8>, n: u32)
    ensures
        octets_value(a + be32(n)) == octets_value(a) * 0x1_0000_0000 + n,
{
    value_with_four_more(a, be32(n));
}

/// The four octets of a number stand for it.
pub proof fn be32_value(n: u32)
    ensures
        octets_value(be32(n)) == n,
{
    value_with_be32(Seq::empty(), n);
    assert(Seq::<u8>::empty() + be32(n) =~= be32(n));
}

pub(crate) proof fn value_with_be64(a: Seq<u8>, n: u64)
    ensures
        octets_value(a + be64(n)) == octets_value(a) * 0x1_0000_0000_0000_0000 + n,
{
    let hi = (n / 0x1_0000_0000) as u32;
    let lo = (n % 0x1_0000_0000) as u32;
    value_with_be32(a, hi);
    value_with_be32(a + be32(hi), lo);
    assert(a + be64(n) =~= (a + be32(hi)) + be32(lo));
}

/// The sixteen octets of a number stand for it.
pub proof fn be128_value(n: u128)
    ensures
        octets_value(be128(n)) == n,
{
    let hi = (n / 0x1_0000_0000_0000_0000) as u64;
    let lo = (n % 0x1_0000_0000_0000_0000) as u64;
    value_with_be64(Seq::empty(), hi);
    assert(Seq::<u8>::empty() + be64(hi) =~= be64(hi));
    value_with_be64(be64(hi), lo);
}

/// If a number has no bits below a power of two, the octets below it are zero.
pub proof fn low_octets_are_zero(octets: Seq<u8>, m: nat)
    requires
        m <= octets.len(),
        octets_value(octets) % pow2(8 * m) == 0,
    ensures
        forall|i: int| octets.len() - m <= i < octets.len() ==> #[trigger] octets[i] == 0,
    decreases m,
{
    if m > 0 {
        let n = octets_value(octets);
        let rest = octets.drop_last();
        let p = pow2((8 * (m - 1)) as nat);
        lemma_pow2_adds(8, (8 * (m - 1)) as nat);
        lemma2_to64();
        lemma_pow2_pos((8 * (m - 1)) as nat);
        assert(pow2(8 * m) == 0x100 * p);
        lemma_mod_breakdown(n as int, 0x100, p as int);
        // What is left of the number and its last octet both vanish.
        assert(n as int % (0x100 * p as int) == 0x100 * ((n as int / 0x100) % p as int) + n as int
            % 0x100);
        assert((n as int / 0x100) % p as int >= 0) by {
            lemma_mod_bound(n as int / 0x100, p as int);
        }
        assert(n % 0x100 == 0);
        assert(octets.last() == 0);
        assert(n / 0x100 == octets_value(rest));
        assert(octets_value(rest) % p == 0);
        low_octets_are_zero(rest, (m - 1) as nat);
        assert forall|i: int| octets.len() - m <= i < octets.len() implies #[trigger] octets[i]
            == 0 by {
            if i < rest.len() {
                assert(rest[i] == octets[i]);
            }
        }
    }
}

} // verus!
