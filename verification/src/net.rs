//! IPv4 addresses as 32-bit numbers, and the blocks of them that a prefix
//! length cuts out.

use vstd::prelude::*;
use vstd::arithmetic::power2::{pow2, lemma2_to64, lemma_pow2_strictly_increases, lemma_pow2_pos};
use vstd::bits::lemma_u64_shl_is_mul;
use crate::text::{chars_of, number_text, parse_decimal, split, split_fields};

verus! {

/// The address `a.b.c.d` as a number, `a` in the highest byte.
pub open spec fn ipv4_from_octets(a: u8, b: u8, c: u8, d: u8) -> nat {
    (a * 0x100_0000 + b * 0x1_0000 + c * 0x100 + d) as nat
}

/// The address `a.b.c.d`.
pub fn ipv4(a: u8, b: u8, c: u8, d: u8) -> (ip: u32)
    ensures
        ip == ipv4_from_octets(a, b, c, d),
{
    let hi: u32 = a as u32 * 0x100_0000 + b as u32 * 0x1_0000;
    hi + c as u32 * 0x100 + d as u32
}

/// The four bytes of an address, highest first.
pub fn octets(ip: u32) -> (o: [u8; 4])
    ensures
        ipv4_from_octets(o[0], o[1], o[2], o[3]) == ip,
{
    let a: u8 = (ip / 0x100_0000) as u8;
    let b: u8 = (ip / 0x1_0000 % 0x100) as u8;
    let c: u8 = (ip / 0x100 % 0x100) as u8;
    let d: u8 = (ip % 0x100) as u8;
    [a, b, c, d]
}

/// The number that `f` writes plainly: decimal digits with no zero in front
/// of another digit, and a value of at most `max`.
pub open spec fn plain_number(f: Seq<char>, max: nat) -> Option<nat> {
    match number_text(f) {
        Some(n) => if n <= max && (f.len() == 1 || f[0] != '0') {
            Some(n)
        } else {
            None
        },
        None => None,
    }
}

/// The address that `s` writes as four plain numbers of at most 255 with a
/// dot between each two.
pub open spec fn ipv4_text(s: Seq<char>) -> Option<u32> {
    let f = split_fields(s, '.');
    if f.len() == 4 {
        match (
            plain_number(f[0], 255),
            plain_number(f[1], 255),
            plain_number(f[2], 255),
            plain_number(f[3], 255),
        ) {
            (Some(a), Some(b), Some(c), Some(d)) => Some(
                ipv4_from_octets(a as u8, b as u8, c as u8, d as u8) as u32,
            ),
            _ => None,
        }
    } else {
        None
    }
}

/// The address and prefix length that `s` writes as `a.b.c.d/n`, with `n` a
/// plain number of at most 32.
pub open spec fn cidr_text(s: Seq<char>) -> Option<(u32, u8)> {
    let f = split_fields(s, '/');
    if f.len() == 2 {
        match (ipv4_text(f[0]), plain_number(f[1], 32)) {
            (Some(addr), Some(n)) => Some((addr, n as u8)),
            _ => None,
        }
    } else {
        None
    }
}

/// Reads a plain number of at most `max`.
pub fn parse_plain_number(f: &str, max: u64) -> (r: Option<u64>)
    ensures
        match r {
            Some(n) => plain_number(f@, max as nat) == Some(n as nat),
            None => plain_number(f@, max as nat) is None,
        },
{
    let chars = chars_of(f);
    match parse_decimal(&chars) {
        Some(n) => {
            if n <= max && (chars.len() == 1 || chars[0] != '0') {
                Some(n)
            } else {
                None
            }
        },
        None => None,
    }
}

/// Reads an address written as `a.b.c.d`.
pub fn parse_ipv4(s: &str) -> (r: Option<u32>)
    ensures
        r == ipv4_text(s@),
{
    let fields = split(s, '.');
    if fields.len() != 4 {
        return None;
    }
    assert(fields.deep_view()[0] == fields@[0]@);
    assert(fields.deep_view()[1] == fields@[1]@);
    assert(fields.deep_view()[2] == fields@[2]@);
    assert(fields.deep_view()[3] == fields@[3]@);
    let a = parse_plain_number(fields[0].as_str(), 255);
    let b = parse_plain_number(fields[1].as_str(), 255);
    let c = parse_plain_number(fields[2].as_str(), 255);
    let d = parse_plain_number(fields[3].as_str(), 255);
    match (a, b, c, d) {
        (Some(a), Some(b), Some(c), Some(d)) => Some(ipv4(a as u8, b as u8, c as u8, d as u8)),
        _ => None,
    }
}

/// How many addresses a block with the given prefix length holds.
pub open spec fn block_size(prefix: u8) -> nat
    recommends
        prefix <= 32,
{
    pow2((32 - prefix) as nat)
}

/// A block holds at least one address and at most all of them.
pub proof fn lemma_block_size_bounds(prefix: u8)
    requires
        prefix <= 32,
    ensures
        1 <= block_size(prefix) <= 0x1_0000_0000,
{
    lemma2_to64();
    lemma_pow2_pos((32 - prefix) as nat);
    if prefix > 0 {
        lemma_pow2_strictly_increases((32 - prefix) as nat, 32);
    }
}

/// An address together with a prefix length: the block of addresses that
/// share the address's first `prefix_len` bits.
#[derive(Clone, Copy, Debug, PartialEq, Eq, Structural)]
pub struct Ipv4Cidr {
    addr: u32,
    prefix: u8,
}

impl Ipv4Cidr {
    /// The prefix length is at most 32.
    #[verifier::type_invariant]
    pub closed spec fn wf(self) -> bool {
        self.prefix <= 32
    }

    /// The address that the block was written with.
    pub closed spec fn spec_address(self) -> u32 {
        self.addr
    }

    /// How many leading bits the addresses of the block share.
    pub closed spec fn spec_prefix_len(self) -> u8 {
        self.prefix
    }

    /// How many addresses the block holds.
    pub open spec fn size(self) -> nat {
        block_size(self.spec_prefix_len())
    }

    /// The lowest address of the block.
    pub open spec fn spec_network(self) -> int {
        self.spec_address() as int - (self.spec_address() as int) % (self.size() as int)
    }

    /// The highest address of the block.
    pub open spec fn spec_broadcast(self) -> int {
        self.spec_network() + self.size() - 1
    }

    /// Whether `ip` lies in the block.
    pub open spec fn spec_contains(self, ip: u32) -> bool {
        self.spec_network() <= ip <= self.spec_broadcast()
    }

    /// The block starts at a multiple of its size, holds its address, and
    /// ends within 32 bits.
    pub proof fn lemma_bounds(self)
        requires
            self.wf(),
        ensures
            1 <= self.size() <= 0x1_0000_0000,
            0 <= self.spec_network() <= self.spec_address() <= self.spec_broadcast() <= u32::MAX,
            self.spec_network() % (self.size() as int) == 0,
    {
        lemma_block_size_bounds(self.prefix);
        let size = self.size() as int;
        let addr = self.addr as int;
        vstd::arithmetic::div_mod::lemma_fundamental_div_mod(addr, size);
        vstd::arithmetic::div_mod::lemma_mod_bound(addr, size);
        vstd::arithmetic::div_mod::lemma_mod_multiples_basic(addr / size, size);
        vstd::arithmetic::mul::lemma_mul_is_commutative(addr / size, size);
        // the block is aligned, so it ends below 2^32
        lemma2_to64();
        let host = (32 - self.prefix) as nat;
        vstd::arithmetic::power2::lemma_pow2_adds(self.prefix as nat, host);
        assert(pow2(self.prefix as nat) * size == 0x1_0000_0000);
        let q = addr / size;
        assert(q < pow2(self.prefix as nat)) by (nonlinear_arith)
            requires
                q * size <= addr,
                addr < 0x1_0000_0000,
                pow2(self.prefix as nat) * size == 0x1_0000_0000,
                size >= 1,
        ;
        assert((q + 1) * size <= pow2(self.prefix as nat) * size) by (nonlinear_arith)
            requires
                q + 1 <= pow2(self.prefix as nat),
                size >= 1,
        ;
        assert((q + 1) * size == q * size + size) by (nonlinear_arith);
    }

    /// The block of `addr` under a prefix of `prefix` bits, if `prefix` is at
    /// most 32.
    pub fn new(addr: u32, prefix: u8) -> (r: Option<Ipv4Cidr>)
        ensures
            r is Some <==> prefix <= 32,
            r matches Some(c) ==> c.wf() && c.spec_address() == addr && c.spec_prefix_len()
                == prefix,
    {
        if prefix <= 32 {
            Some(Ipv4Cidr { addr, prefix })
        } else {
            None
        }
    }

    /// The block that `s` writes as `a.b.c.d/n`.
    pub closed spec fn spec_parse(s: Seq<char>) -> Option<Ipv4Cidr> {
        match cidr_text(s) {
            Some((addr, prefix)) => Some(Ipv4Cidr { addr, prefix }),
            None => None,
        }
    }

    /// A written block is well formed and holds the address and the prefix
    /// length as written.
    pub proof fn lemma_spec_parse(s: Seq<char>)
        ensures
            match cidr_text(s) {
                Some((addr, prefix)) => Self::spec_parse(s) matches Some(c) && c.wf()
                    && c.spec_address() == addr && c.spec_prefix_len() == prefix,
                None => Self::spec_parse(s) is None,
            },
    {
    }

    /// Reads a block written as `a.b.c.d/n`.
    pub fn parse(s: &str) -> (r: Option<Ipv4Cidr>)
        ensures
            r == Self::spec_parse(s@),
            match cidr_text(s@) {
                Some((addr, prefix)) => r matches Some(c) && c.wf() && c.spec_address() == addr
                    && c.spec_prefix_len() == prefix,
                None => r is None,
            },
    {
        let fields = split(s, '/');
        if fields.len() != 2 {
            return None;
        }
        assert(fields.deep_view()[0] == fields@[0]@);
        assert(fields.deep_view()[1] == fields@[1]@);
        let addr = parse_ipv4(fields[0].as_str());
        let prefix = parse_plain_number(fields[1].as_str(), 32);
        match (addr, prefix) {
            (Some(addr), Some(prefix)) => Some(Ipv4Cidr { addr, prefix: prefix as u8 }),
            _ => None,
        }
    }

    /// The address that the block was written with.
    pub fn address(&self) -> (a: u32)
        ensures
            a == self.spec_address(),
    {
        self.addr
    }

    /// How many leading bits the addresses of the block share.
    pub fn prefix_len(&self) -> (p: u8)
        ensures
            p == self.spec_prefix_len(),
            p <= 32,
    {
        proof {
            use_type_invariant(self);
        }
        self.prefix
    }

    /// The number of addresses in the block.
    pub fn len(&self) -> (n: u64)
        ensures
            n == self.size(),
            1 <= n <= 0x1_0000_0000,
    {
        proof {
            use_type_invariant(self);
            lemma_block_size_bounds(self.prefix);
            lemma_u64_shl_is_mul(1, (32 - self.prefix) as u64);
        }
        1u64 << (32 - self.prefix) as u64
    }

    /// The lowest address of the block.
    pub fn network(&self) -> (a: u32)
        ensures
            a == self.spec_network(),
    {
        proof {
            use_type_invariant(self);
            self.lemma_bounds();
        }
        let size = self.len();
        let addr = self.addr as u64;
        (addr - addr % size) as u32
    }

    /// The highest address of the block.
    pub fn broadcast(&self) -> (a: u32)
        ensures
            a == self.spec_broadcast(),
    {
        proof {
            use_type_invariant(self);
            self.lemma_bounds();
        }
        let size = self.len();
        let addr = self.addr as u64;
        (addr - addr % size + size - 1) as u32
    }

    /// Whether `ip` lies in the block.
    pub fn contains(&self, ip: u32) -> (b: bool)
        ensures
            b == self.spec_contains(ip),
    {
        self.network() <= ip && ip <= self.broadcast()
    }
}

} // verus!
