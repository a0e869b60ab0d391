//! Network byte order, addresses and masks.

use vstd::prelude::*;

use crate::samples::weight;

verus! {

/// The big-endian 16-bit number at `i`.
pub open spec fn be16(s: Seq<u8>, i: int) -> nat {
    (s[i] as nat) * 256 + s[i + 1] as nat
}

/// `s` with the two bytes at `i` replaced by `v`, big-endian.
pub open spec fn put16(s: Seq<u8>, i: int, v: u16) -> Seq<u8> {
    s.update(i, (v / 256) as u8).update(i + 1, (v % 256) as u8)
}

/// `s` with the bytes from `i` on replaced by `b`.
pub open spec fn splice(s: Seq<u8>, i: int, b: Seq<u8>) -> Seq<u8> {
    s.take(i) + b + s.skip(i + b.len())
}

/// The big-endian 16-bit number at `i`.
pub(crate) fn rd16(s: &[u8], i: usize) -> (r: u16)
    requires
        i + 1 < s@.len(),
    ensures
        r == be16(s@, i as int),
{
    (s[i] as u16) * 256 + s[i + 1] as u16
}

/// Write `v` at `i`, big-endian.
pub(crate) fn wr16(s: &mut [u8], i: usize, v: u16)
    requires
        i + 1 < old(s)@.len(),
    ensures
        final(s)@ == put16(old(s)@, i as int, v),
{
    s[i] = (v / 256) as u8;
    s[i + 1] = (v % 256) as u8;
}

/// Overwrite `dst` from `at` on with `src`.
pub(crate) fn write_at(dst: &mut [u8], at: usize, src: &[u8])
    requires
        at + src@.len() <= old(dst)@.len(),
    ensures
        final(dst)@ == splice(old(dst)@, at as int, src@),
{
    let n: usize = dst.len();
    let mut i: usize = 0;
    let ghost before = dst@;
    while i < src.len()
        invariant
            i <= src@.len(),
            at + src@.len() <= n,
            dst@.len() == n,
            before.len() == n,
            forall|j: int|
                0 <= j < dst@.len() ==> #[trigger] dst@[j] == if at <= j < at + i {
                    src@[j - at]
                } else {
                    before[j]
                },
        decreases src@.len() - i,
    {
        dst[at + i] = src[i];
        i = i + 1;
    }
    assert(dst@ =~= splice(before, at as int, src@));
}

/// An IPv4 address, as the 32-bit number its octets spell in network order.
#[derive(Clone, Copy, Debug, PartialEq, Eq, Structural)]
pub struct Ipv4Address {
    pub bits: u32,
}

/// The octets of an address.
pub open spec fn octets_of(ip: Ipv4Address) -> Seq<u8> {
    seq![
        (ip.bits / 0x100_0000) as u8,
        (ip.bits / 0x1_0000 % 0x100) as u8,
        (ip.bits / 0x100 % 0x100) as u8,
        (ip.bits % 0x100) as u8,
    ]
}

/// The four bytes of a number, in network order.
pub open spec fn bytes32(n: u32) -> Seq<u8> {
    octets_of(Ipv4Address { bits: n })
}

/// The big-endian 32-bit number at `i`.
pub open spec fn be32(s: Seq<u8>, i: int) -> nat {
    be16(s, i) * 0x1_0000 + be16(s, i + 2)
}

/// The address spelled by four octets.
pub open spec fn ip_of(a: u8, b: u8, c: u8, d: u8) -> Ipv4Address {
    Ipv4Address { bits: (a * 0x100_0000 + b * 0x1_0000 + c * 0x100 + d) as u32 }
}

/// The address at `i`.
pub open spec fn ip_at(s: Seq<u8>, i: int) -> Ipv4Address {
    ip_of(s[i], s[i + 1], s[i + 2], s[i + 3])
}

/// The two 16-bit halves of an address.
pub open spec fn halves_of(ip: Ipv4Address) -> (u16, u16) {
    ((ip.bits / 0x1_0000) as u16, (ip.bits % 0x1_0000) as u16)
}

impl Ipv4Address {
    /// The address 0.0.0.0.
    pub fn unspecified() -> (r: Ipv4Address)
        ensures
            r.bits == 0,
    {
        Ipv4Address { bits: 0 }
    }

    /// The address `a.b.c.d`.
    pub fn new(a: u8, b: u8, c: u8, d: u8) -> (r: Ipv4Address)
        ensures
            r == ip_of(a, b, c, d),
            octets_of(r) == seq![a, b, c, d],
    {
        let bits: u32 = a as u32 * 0x100_0000 + b as u32 * 0x1_0000 + c as u32 * 0x100 + d as u32;
        let r = Ipv4Address { bits };
        proof {
            lemma_spelled(a, b, c, d);
        }
        r
    }

    /// The four octets, first to last.
    pub fn octets(&self) -> (r: [u8; 4])
        ensures
            r@ == octets_of(*self),
    {
        let r: [u8; 4] = [
            (self.bits / 0x100_0000) as u8,
            (self.bits / 0x1_0000 % 0x100) as u8,
            (self.bits / 0x100 % 0x100) as u8,
            (self.bits % 0x100) as u8,
        ];
        assert(r@ =~= octets_of(*self));
        r
    }

    /// True for 0.0.0.0.
    pub fn is_unspecified(&self) -> (r: bool)
        ensures
            r == (self.bits == 0),
    {
        self.bits == 0
    }
}

/// The octets of a spelled address are the ones it was spelled with.
pub(crate) proof fn lemma_spelled(a: u8, b: u8, c: u8, d: u8)
    ensures
        octets_of(ip_of(a, b, c, d)) == seq![a, b, c, d],
{
    let n: int = a * 0x100_0000 + b * 0x1_0000 + c * 0x100 + d;
    let ab: int = a * 0x100 + b;
    let abc: int = ab * 0x100 + c;
    assert(n == abc * 0x100 + d);
    assert(n / 0x100 == abc && n % 0x100 == d);
    assert(abc % 0x100 == c);
    assert(n / 0x1_0000 == ab) by {
        assert(n == ab * 0x1_0000 + (c * 0x100 + d));
    }
    assert(ab % 0x100 == b);
    assert(n / 0x100_0000 == a) by {
        assert(n == a * 0x100_0000 + (b * 0x1_0000 + c * 0x100 + d));
    }
    assert(octets_of(ip_of(a, b, c, d)) =~= seq![a, b, c, d]);
}

/// The octets spell the address.
pub(crate) proof fn lemma_octets_spell(ip: Ipv4Address)
    ensures
        octets_of(ip).len() == 4,
        ip_at(octets_of(ip), 0) == ip,
        be16(octets_of(ip), 0) == halves_of(ip).0,
        be16(octets_of(ip), 2) == halves_of(ip).1,
{
}

/// The halves of the address at `i` are the two words there.
pub(crate) proof fn lemma_halves_at(s: Seq<u8>, i: int)
    ensures
        halves_of(ip_at(s, i)).0 == be16(s, i),
        halves_of(ip_at(s, i)).1 == be16(s, i + 2),
{
    lemma_spelled(s[i], s[i + 1], s[i + 2], s[i + 3]);
    let o = octets_of(ip_at(s, i));
    lemma_octets_spell(ip_at(s, i));
    assert(o[0] == s[i] && o[1] == s[i + 1] && o[2] == s[i + 2] && o[3] == s[i + 3]);
}

/// An address written at `i` is the address read there.
pub(crate) proof fn lemma_ip_written(s: Seq<u8>, i: int, ip: Ipv4Address)
    requires
        0 <= i,
        i + 4 <= s.len(),
    ensures
        ip_at(splice(s, i, octets_of(ip)), i) == ip,
        be16(splice(s, i, octets_of(ip)), i) == halves_of(ip).0,
        be16(splice(s, i, octets_of(ip)), i + 2) == halves_of(ip).1,
{
    lemma_octets_spell(ip);
}

/// The address at `i`.
pub(crate) fn rd_ip(s: &[u8], i: usize) -> (r: Ipv4Address)
    requires
        i + 3 < s@.len(),
    ensures
        r == ip_at(s@, i as int),
{
    Ipv4Address::new(s[i], s[i + 1], s[i + 2], s[i + 3])
}

/// The six bytes at `i`.
pub(crate) fn rd_mac(s: &[u8], i: usize) -> (r: [u8; 6])
    requires
        i + 5 < s@.len(),
    ensures
        r@ == s@.subrange(i as int, i + 6),
{
    let r: [u8; 6] = [s[i], s[i + 1], s[i + 2], s[i + 3], s[i + 4], s[i + 5]];
    assert(r@ =~= s@.subrange(i as int, i + 6));
    r
}

/// The same hardware address.
pub(crate) fn mac_eq(a: &[u8; 6], b: &[u8; 6]) -> (r: bool)
    ensures
        r == (a@ == b@),
{
    let r: bool = a[0] == b[0] && a[1] == b[1] && a[2] == b[2] && a[3] == b[3] && a[4] == b[4]
        && a[5] == b[5];
    proof {
        if r {
            assert(a@ =~= b@);
        }
    }
    r
}

/// A subnet: an address in it and the length of its prefix.
#[derive(Clone, Copy, Debug, PartialEq, Eq, Structural)]
pub struct Ipv4Cidr {
    pub address: Ipv4Address,
    pub prefix_len: u8,
}

/// The address shares the subnet's prefix.
pub open spec fn in_subnet(net: Ipv4Cidr, ip: Ipv4Address) -> bool {
    ip.bits as nat / weight((32 - net.prefix_len) as nat) == net.address.bits as nat / weight(
        (32 - net.prefix_len) as nat,
    )
}

impl Ipv4Cidr {
    /// A prefix has at most 32 bits.
    pub open spec fn wf(&self) -> bool {
        self.prefix_len <= 32
    }

    /// The subnet of `address` with `prefix_len` leading bits.
    pub fn new(address: Ipv4Address, prefix_len: u8) -> (r: Ipv4Cidr)
        requires
            prefix_len <= 32,
        ensures
            r == (Ipv4Cidr { address, prefix_len }),
            r.wf(),
    {
        Ipv4Cidr { address, prefix_len }
    }

    /// True if `ip` lies in the subnet.
    pub fn contains_addr(&self, ip: Ipv4Address) -> (r: bool)
        requires
            self.wf(),
        ensures
            r == in_subnet(*self, ip),
    {
        let host: u8 = 32 - self.prefix_len;
        let mut block: u64 = 1;
        let mut k: u8 = 0;
        while k < host
            invariant
                k <= host <= 32,
                block == weight(k as nat),
                block <= 0x1_0000_0000,
                k < 32 ==> block <= 0x8000_0000,
            decreases host - k,
        {
            proof {
                lemma_weight(k as nat);
                lemma_weight((k + 1) as nat);
            }
            block = block * 2;
            k = k + 1;
        }
        proof {
            lemma_weight(host as nat);
        }
        (ip.bits as u64) / block == (self.address.bits as u64) / block
    }
}

pub(crate) proof fn lemma_weight(n: nat)
    ensures
        weight(n) > 0,
        n <= 31 ==> weight(n) <= 0x8000_0000,
        n <= 32 ==> weight(n) <= 0x1_0000_0000,
{
    lemma_weight_mono(n, 31);
    lemma_weight_mono(n, 32);
    reveal_with_fuel(weight, 33);
    assert(weight(31) == 0x8000_0000);
}

proof fn lemma_weight_mono(m: nat, n: nat)
    ensures
        weight(m) > 0,
        m <= n ==> weight(m) <= weight(n),
    decreases m + n,
{
    if m > 0 {
        lemma_weight_mono((m - 1) as nat, 0);
    }
    if n > 0 && m < n {
        lemma_weight_mono(m, (n - 1) as nat);
    }
}

/// Network order: the more significant byte comes first, and what is written is what is
/// read. Nothing else changes.
pub proof fn lemma_network_order(s: Seq<u8>, i: int, v: u16)
    requires
        0 <= i,
        i + 1 < s.len(),
    ensures
        be16(s, i) / 256 == s[i],
        be16(s, i) % 256 == s[i + 1],
        be16(put16(s, i, v), i) == v,
        put16(s, i, v).len() == s.len(),
        forall|j: int|
            0 <= j < s.len() && j != i && j != i + 1 ==> #[trigger] put16(s, i, v)[j] == s[j],
{
}

/// Bytes written over others: those from `i` on are the new ones, and the rest stays.
pub proof fn lemma_written_over(s: Seq<u8>, i: int, b: Seq<u8>)
    requires
        0 <= i,
        i + b.len() <= s.len(),
    ensures
        splice(s, i, b).len() == s.len(),
        splice(s, i, b).subrange(i, i + b.len()) == b,
        forall|j: int|
            0 <= j < s.len() && !(i <= j < i + b.len()) ==> #[trigger] splice(s, i, b)[j] == s[j],
{
    assert(splice(s, i, b).subrange(i, i + b.len()) =~= b);
}

/// An address and its octets are one and the same: each is read off the other, and four
/// bytes on the wire are the octets of the address there.
pub proof fn lemma_octets(ip: Ipv4Address, s: Seq<u8>, i: int)
    requires
        0 <= i,
        i + 4 <= s.len(),
    ensures
        octets_of(ip).len() == 4,
        ip.bits == 0x100_0000 * octets_of(ip)[0] + 0x1_0000 * octets_of(ip)[1] + 0x100 * octets_of(
            ip,
        )[2] + octets_of(ip)[3],
        ip_of(octets_of(ip)[0], octets_of(ip)[1], octets_of(ip)[2], octets_of(ip)[3]) == ip,
        octets_of(ip_at(s, i)) == s.subrange(i, i + 4),
        bytes32(ip.bits) == octets_of(ip),
        be32(s, i) == ip_at(s, i).bits,
        halves_of(ip).0 * 0x1_0000 + halves_of(ip).1 == ip.bits,
{
    lemma_spelled(s[i], s[i + 1], s[i + 2], s[i + 3]);
    assert(seq![s[i], s[i + 1], s[i + 2], s[i + 3]] =~= s.subrange(i, i + 4));
    lemma_octets_spell(ip);
}

proof fn lemma_weight_is_power(n: nat)
    ensures
        weight(n) == vstd::arithmetic::power2::pow2(n),
    decreases n,
{
    if n == 0 {
        vstd::arithmetic::power2::lemma2_to64();
    } else {
        lemma_weight_is_power((n - 1) as nat);
        vstd::arithmetic::power2::lemma_pow2_unfold(n);
    }
}

/// An address is in a subnet exactly where its first `prefix_len` bits are those of the
/// subnet's address. With no bits to agree, every address is.
pub proof fn lemma_subnet(net: Ipv4Cidr, ip: Ipv4Address)
    requires
        net.wf(),
    ensures
        net.prefix_len == 0 ==> in_subnet(net, ip),
        net.prefix_len > 0 ==> (in_subnet(net, ip) <==> ip.bits >> ((32 - net.prefix_len) as u32)
            == net.address.bits >> ((32 - net.prefix_len) as u32)),
        in_subnet(net, net.address),
{
    let h = (32 - net.prefix_len) as nat;
    lemma_weight(h);
    lemma_weight_is_power(h);
    if net.prefix_len == 0 {
        reveal_with_fuel(weight, 33);
        assert(weight(32) == 0x1_0000_0000);
    } else {
        vstd::bits::lemma_u32_shr_is_div(ip.bits, h as u32);
        vstd::bits::lemma_u32_shr_is_div(net.address.bits, h as u32);
    }
}

/// The leading octets of an address, as a number.
proof fn lemma_leading_octets(ip: Ipv4Address)
    ensures
        ip.bits / 0x100_0000 == octets_of(ip)[0],
        ip.bits / 0x1_0000 == octets_of(ip)[0] * 0x100 + octets_of(ip)[1],
        ip.bits / 0x100 == octets_of(ip)[0] * 0x1_0000 + octets_of(ip)[1] * 0x100 + octets_of(
            ip,
        )[2],
{
}

/// With a prefix of whole octets, an address is in the subnet exactly where these octets are
/// the same.
pub proof fn lemma_subnet_octets(net: Ipv4Cidr, ip: Ipv4Address)
    ensures
        ({
            let a = octets_of(ip);
            let b = octets_of(net.address);
            &&& net.prefix_len == 8 ==> (in_subnet(net, ip) <==> a[0] == b[0])
            &&& net.prefix_len == 16 ==> (in_subnet(net, ip) <==> a[0] == b[0] && a[1] == b[1])
            &&& net.prefix_len == 24 ==> (in_subnet(net, ip) <==> a[0] == b[0] && a[1] == b[1]
                && a[2] == b[2])
            &&& net.prefix_len == 32 ==> (in_subnet(net, ip) <==> ip == net.address)
        }),
{
    lemma_leading_octets(ip);
    lemma_leading_octets(net.address);
    let (a, b) = (octets_of(ip), octets_of(net.address));
    assert(a[0] * 0x100 + a[1] == b[0] * 0x100 + b[1] <==> a[0] == b[0] && a[1] == b[1]);
    assert(a[0] * 0x1_0000 + a[1] * 0x100 + a[2] == b[0] * 0x1_0000 + b[1] * 0x100 + b[2] <==> a[0]
        == b[0] && a[1] == b[1] && a[2] == b[2]);
    assert(ip.bits as nat / 1 == ip.bits && net.address.bits as nat / 1 == net.address.bits);
    assert(weight(24) == 0x100_0000 && weight(16) == 0x1_0000 && weight(8) == 0x100 && weight(0)
        == 1) by {
        reveal_with_fuel(weight, 33);
    }
}

} // verus!
