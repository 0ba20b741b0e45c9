//! IPv4 packets that carry TCP or UDP, as bytes: what the router reads from
//! them, and how their addresses and ports are rewritten.

use vstd::prelude::*;
use crate::checksum::{
    fold16, lemma_checksum_validates, lemma_fold_bounds, lemma_sum_update, sum_range,
    sums_to_valid, weighted_sum,
};

verus! {

/// The transport protocols that the router handles.
#[derive(Clone, Copy, Debug, PartialEq, Eq, Structural)]
pub enum Protocol {
    Tcp,
    Udp,
}

impl Protocol {
    /// The number that the IPv4 header names the protocol by.
    pub open spec fn spec_number(self) -> u8 {
        match self {
            Protocol::Tcp => 6,
            Protocol::Udp => 17,
        }
    }

    /// The number that the IPv4 header names the protocol by.
    pub fn number(&self) -> (n: u8)
        ensures
            n == self.spec_number(),
    {
        match self {
            Protocol::Tcp => 6,
            Protocol::Udp => 17,
        }
    }

    /// Where the checksum stands in the protocol's header.
    pub open spec fn checksum_offset(self) -> int {
        match self {
            Protocol::Tcp => 16,
            Protocol::Udp => 6,
        }
    }
}

/// An address and a port.
#[derive(Clone, Copy, Debug, PartialEq, Eq, Structural)]
pub struct Endpoint {
    pub ip: u32,
    pub port: u16,
}

/// What the router reads from a packet: the protocol, the two ends, the
/// lengths of the IPv4 header and of the whole packet, and for TCP the flags
/// that open and close a connection (all unset for UDP).
#[derive(Clone, Copy, Debug, PartialEq, Eq, Structural)]
pub struct Flow {
    pub protocol: Protocol,
    pub src: Endpoint,
    pub dst: Endpoint,
    pub header_len: usize,
    pub total_len: usize,
    pub syn: bool,
    pub ack: bool,
    pub fin: bool,
    pub rst: bool,
}

/// Why a packet is not taken.
#[derive(Clone, Copy, Debug, PartialEq, Eq, Structural)]
pub enum PacketError {
    /// The bytes end before a header does.
    Truncated,
    /// The version is not 4.
    NotIpv4,
    /// A header gives itself a length below its minimum or beyond the data.
    BadHeaderLength,
    /// The length that a header gives for the data does not fit.
    BadLength,
    /// The checksum of the IPv4 header or of the segment is wrong.
    BadChecksum,
    /// The packet is a fragment.
    Fragmented,
    /// The packet carries neither TCP nor UDP.
    UnsupportedProtocol,
}

impl PacketError {
    /// Whether the error tells of a malformed packet, rather than of a well
    /// formed one that the router does not handle.
    pub open spec fn spec_is_malformed(self) -> bool {
        match self {
            PacketError::Truncated => true,
            PacketError::BadHeaderLength => true,
            PacketError::BadLength => true,
            PacketError::BadChecksum => true,
            _ => false,
        }
    }

    /// Whether the error tells of a malformed packet, rather than of a well
    /// formed one that the router does not handle.
    pub fn is_malformed(&self) -> (b: bool)
        ensures
            b == self.spec_is_malformed(),
    {
        match self {
            PacketError::Truncated => true,
            PacketError::BadHeaderLength => true,
            PacketError::BadLength => true,
            PacketError::BadChecksum => true,
            _ => false,
        }
    }
}

/// The 16-bit number at `at`, high byte first.
pub open spec fn be16(p: Seq<u8>, at: int) -> int {
    p[at] * 256 + p[at + 1]
}

/// The 32-bit number at `at`, high byte first.
pub open spec fn be32(p: Seq<u8>, at: int) -> int {
    be16(p, at) * 65536 + be16(p, at + 2)
}

/// The sum of the words of the pseudo header that TCP and UDP checksums
/// cover besides the segment: both addresses, the protocol number and the
/// segment's length.
pub open spec fn pseudo_sum(src: u32, dst: u32, protocol: Protocol, segment_len: int) -> nat {
    (src / 65536 + src % 65536 + dst / 65536 + dst % 65536 + protocol.spec_number()
        + segment_len) as nat
}

/// Whether the first `header_len` bytes carry a right IPv4 header checksum.
pub open spec fn ip_checksum_valid(p: Seq<u8>, header_len: int) -> bool {
    sums_to_valid(weighted_sum(p.subrange(0, header_len)))
}

/// Whether the segment of a packet with the given flow carries a right TCP
/// or UDP checksum.
pub open spec fn l4_checksum_valid(p: Seq<u8>, flow: Flow) -> bool {
    sums_to_valid(
        pseudo_sum(
            flow.src.ip,
            flow.dst.ip,
            flow.protocol,
            flow.total_len - flow.header_len,
        ) + weighted_sum(p.subrange(flow.header_len as int, flow.total_len as int)),
    )
}

/// Whether the segment behind an IPv4 header of `hl` bytes, in a packet of
/// `tl` bytes, carries a right checksum for the addresses that the packet
/// names.
pub open spec fn segment_checksum_valid(p: Seq<u8>, protocol: Protocol, hl: int, tl: int) -> bool {
    sums_to_valid(
        pseudo_sum(be32(p, 12) as u32, be32(p, 16) as u32, protocol, tl - hl) + weighted_sum(
            p.subrange(hl, tl),
        ),
    )
}

/// The two ends that a packet with an IPv4 header of `hl` bytes names.
pub open spec fn ends_of(p: Seq<u8>, hl: int) -> (Endpoint, Endpoint) {
    (
        Endpoint { ip: be32(p, 12) as u32, port: be16(p, hl) as u16 },
        Endpoint { ip: be32(p, 16) as u32, port: be16(p, hl + 2) as u16 },
    )
}

/// What a TCP segment behind an IPv4 header of `hl` bytes, in a packet of
/// `tl` bytes, tells.
pub open spec fn tcp_flow(p: Seq<u8>, hl: int, tl: int) -> Result<Flow, PacketError> {
    if tl - hl < 20 {
        Err(PacketError::Truncated)
    } else if (p[hl + 12] / 16) * 4 < 20 || hl + (p[hl + 12] / 16) * 4 > tl {
        Err(PacketError::BadHeaderLength)
    } else if !segment_checksum_valid(p, Protocol::Tcp, hl, tl) {
        Err(PacketError::BadChecksum)
    } else {
        let flags = p[hl + 13];
        Ok(
            Flow {
                protocol: Protocol::Tcp,
                src: ends_of(p, hl).0,
                dst: ends_of(p, hl).1,
                header_len: hl as usize,
                total_len: tl as usize,
                fin: flags % 2 == 1,
                syn: flags / 2 % 2 == 1,
                rst: flags / 4 % 2 == 1,
                ack: flags / 16 % 2 == 1,
            },
        )
    }
}

/// What a UDP datagram behind an IPv4 header of `hl` bytes, in a packet of
/// `tl` bytes, tells. A checksum of zero says that the datagram carries
/// none.
pub open spec fn udp_flow(p: Seq<u8>, hl: int, tl: int) -> Result<Flow, PacketError> {
    if tl - hl < 8 {
        Err(PacketError::Truncated)
    } else if be16(p, hl + 4) != tl - hl {
        Err(PacketError::BadLength)
    } else if be16(p, hl + 6) != 0 && !segment_checksum_valid(p, Protocol::Udp, hl, tl) {
        Err(PacketError::BadChecksum)
    } else {
        Ok(
            Flow {
                protocol: Protocol::Udp,
                src: ends_of(p, hl).0,
                dst: ends_of(p, hl).1,
                header_len: hl as usize,
                total_len: tl as usize,
                fin: false,
                syn: false,
                rst: false,
                ack: false,
            },
        )
    }
}

/// What a packet tells, or why it is not taken. Options in either header are
/// passed over; the lengths that the headers give, the checksum of the IPv4
/// header and that of the segment must be right. Bytes behind the length
/// that the IPv4 header gives are no part of the packet.
pub open spec fn flow_of(p: Seq<u8>) -> Result<Flow, PacketError> {
    if p.len() < 20 {
        Err(PacketError::Truncated)
    } else if p[0] / 16 != 4 {
        Err(PacketError::NotIpv4)
    } else {
        let hl = (p[0] % 16) * 4;
        let tl = be16(p, 2);
        if hl < 20 {
            Err(PacketError::BadHeaderLength)
        } else if p.len() < hl {
            Err(PacketError::Truncated)
        } else if tl < hl || p.len() < tl {
            Err(PacketError::BadLength)
        } else if !ip_checksum_valid(p, hl) {
            Err(PacketError::BadChecksum)
        } else if be16(p, 6) % 0x4000 != 0 {
            Err(PacketError::Fragmented)
        } else if p[9] == 6 {
            tcp_flow(p, hl, tl)
        } else if p[9] == 17 {
            udp_flow(p, hl, tl)
        } else {
            Err(PacketError::UnsupportedProtocol)
        }
    }
}

/// Whether `i` is a place that rewriting the ends of a packet may change:
/// the two addresses, the two ports and the two checksums.
pub open spec fn is_rewritten_place(flow: Flow, i: int) -> bool {
    let hl = flow.header_len as int;
    let field = hl + flow.protocol.checksum_offset();
    (10 <= i < 20) || (hl <= i < hl + 4) || (field <= i < field + 2)
}

fn read16(data: &Vec<u8>, at: usize) -> (v: u16)
    requires
        at + 2 <= data.len(),
    ensures
        v == be16(data@, at as int),
{
    data[at] as u16 * 256 + data[at + 1] as u16
}

fn read32(data: &Vec<u8>, at: usize) -> (v: u32)
    requires
        at + 4 <= data.len(),
    ensures
        v == be32(data@, at as int),
{
    read16(data, at) as u32 * 65536 + read16(data, at + 2) as u32
}

fn put16(data: &mut Vec<u8>, at: usize, v: u16)
    requires
        at + 2 <= old(data).len(),
    ensures
        final(data)@.len() == old(data)@.len(),
        be16(final(data)@, at as int) == v,
        forall|i: int|
            0 <= i < old(data)@.len() && !(at <= i < at + 2) ==> final(data)@[i] == old(data)@[i],
{
    data.set(at, (v / 256) as u8);
    data.set(at + 1, (v % 256) as u8);
}

fn put32(data: &mut Vec<u8>, at: usize, v: u32)
    requires
        at + 4 <= old(data).len(),
    ensures
        final(data)@.len() == old(data)@.len(),
        be32(final(data)@, at as int) == v,
        forall|i: int|
            0 <= i < old(data)@.len() && !(at <= i < at + 4) ==> final(data)@[i] == old(data)@[i],
{
    put16(data, at, (v / 65536) as u16);
    put16(data, at + 2, (v % 65536) as u16);
}

/// Numbers read from equal bytes are equal.
proof fn lemma_same_bytes(a: Seq<u8>, b: Seq<u8>, at: int)
    requires
        0 <= at,
        at + 4 <= a.len(),
        at + 4 <= b.len(),
        forall|i: int| at <= i < at + 4 ==> a[i] == b[i],
    ensures
        be16(a, at) == be16(b, at),
        be16(a, at + 2) == be16(b, at + 2),
        be32(a, at) == be32(b, at),
{
}

/// A packet whose ends and checksums were replaced, and nothing else, tells
/// what it told before, with the new ends.
proof fn lemma_rewritten_flow(
    before: Seq<u8>,
    after: Seq<u8>,
    flow: Flow,
    src: Endpoint,
    dst: Endpoint,
)
    requires
        flow_of(before) == Ok::<Flow, PacketError>(flow),
        after.len() == before.len(),
        forall|i: int|
            0 <= i < before.len() && !is_rewritten_place(flow, i) ==> after[i] == before[i],
        be32(after, 12) == src.ip,
        be32(after, 16) == dst.ip,
        be16(after, flow.header_len as int) == src.port,
        be16(after, flow.header_len + 2) == dst.port,
        ip_checksum_valid(after, flow.header_len as int),
        l4_checksum_valid(after, Flow { src, dst, ..flow }),
        flow.protocol == Protocol::Udp ==> be16(
            after,
            flow.header_len + flow.protocol.checksum_offset(),
        ) != 0,
    ensures
        flow_of(after) == Ok::<Flow, PacketError>(Flow { src, dst, ..flow }),
{
    let hl = flow.header_len as int;
    let tl = flow.total_len as int;
    assert(before.len() >= 20);
    assert(hl == (before[0] % 16) * 4);
    assert(tl == be16(before, 2));
    assert(after[0] == before[0]);
    assert(after[2] == before[2] && after[3] == before[3]);
    assert(after[6] == before[6] && after[7] == before[7]);
    assert(after[9] == before[9]);
    assert(be16(after, 2) == tl);
    assert(be16(after, 6) == be16(before, 6));
    assert(ends_of(after, hl) == (src, dst));
    assert(segment_checksum_valid(after, flow.protocol, hl, tl));
    if before[9] == 6 {
        assert(tcp_flow(before, hl, tl) == Ok::<Flow, PacketError>(flow));
        assert(after[hl + 12] == before[hl + 12]);
        assert(after[hl + 13] == before[hl + 13]);
        assert(tcp_flow(after, hl, tl) == Ok::<Flow, PacketError>(Flow { src, dst, ..flow }));
    } else {
        assert(udp_flow(before, hl, tl) == Ok::<Flow, PacketError>(flow));
        assert(after[hl + 4] == before[hl + 4]);
        assert(after[hl + 5] == before[hl + 5]);
        assert(udp_flow(after, hl, tl) == Ok::<Flow, PacketError>(Flow { src, dst, ..flow }));
    }
}

/// The sum of the words of the pseudo header.
fn pseudo_header_sum(src: u32, dst: u32, protocol: Protocol, segment_len: usize) -> (sum: u64)
    requires
        segment_len <= 0xffff,
    ensures
        sum == pseudo_sum(src, dst, protocol, segment_len as int),
        sum <= 0x5_ffff,
{
    (src / 65536) as u64 + (src % 65536) as u64 + (dst / 65536) as u64 + (dst % 65536) as u64
        + protocol.number() as u64 + segment_len as u64
}

/// Whether the segment carries a right checksum.
fn segment_is_valid(packet: &Vec<u8>, protocol: Protocol, hl: usize, tl: usize) -> (b: bool)
    requires
        20 <= hl <= tl <= packet.len(),
        tl <= 0xffff,
    ensures
        b == segment_checksum_valid(packet@, protocol, hl as int, tl as int),
{
    proof {
        crate::checksum::lemma_sum_bound(packet@.subrange(hl as int, tl as int));
    }
    let extra = pseudo_header_sum(read32(packet, 12), read32(packet, 16), protocol, tl - hl);
    fold16(extra + sum_range(packet, hl, tl)) == 65535
}

/// Reads a packet.
pub fn parse(packet: &Vec<u8>) -> (r: Result<Flow, PacketError>)
    ensures
        r == flow_of(packet@),
{
    let len = packet.len();
    if len < 20 {
        return Err(PacketError::Truncated);
    }
    if packet[0] / 16 != 4 {
        return Err(PacketError::NotIpv4);
    }
    let hl: usize = (packet[0] % 16) as usize * 4;
    let tl: usize = read16(packet, 2) as usize;
    if hl < 20 {
        return Err(PacketError::BadHeaderLength);
    }
    if len < hl {
        return Err(PacketError::Truncated);
    }
    if tl < hl || len < tl {
        return Err(PacketError::BadLength);
    }
    if fold16(sum_range(packet, 0, hl)) != 65535 {
        return Err(PacketError::BadChecksum);
    }
    if read16(packet, 6) % 0x4000 != 0 {
        return Err(PacketError::Fragmented);
    }
    let protocol = packet[9];
    if protocol != 6 && protocol != 17 {
        return Err(PacketError::UnsupportedProtocol);
    }
    if protocol == 6 {
        if tl - hl < 20 {
            return Err(PacketError::Truncated);
        }
        let doff: usize = (packet[hl + 12] / 16) as usize * 4;
        if doff < 20 || hl + doff > tl {
            return Err(PacketError::BadHeaderLength);
        }
        if !segment_is_valid(packet, Protocol::Tcp, hl, tl) {
            return Err(PacketError::BadChecksum);
        }
        let flags = packet[hl + 13];
        Ok(
            Flow {
                protocol: Protocol::Tcp,
                src: Endpoint { ip: read32(packet, 12), port: read16(packet, hl) },
                dst: Endpoint { ip: read32(packet, 16), port: read16(packet, hl + 2) },
                header_len: hl,
                total_len: tl,
                fin: flags % 2 == 1,
                syn: flags / 2 % 2 == 1,
                rst: flags / 4 % 2 == 1,
                ack: flags / 16 % 2 == 1,
            },
        )
    } else {
        if tl - hl < 8 {
            return Err(PacketError::Truncated);
        }
        if read16(packet, hl + 4) as usize != tl - hl {
            return Err(PacketError::BadLength);
        }
        if read16(packet, hl + 6) != 0 && !segment_is_valid(packet, Protocol::Udp, hl, tl) {
            return Err(PacketError::BadChecksum);
        }
        Ok(
            Flow {
                protocol: Protocol::Udp,
                src: Endpoint { ip: read32(packet, 12), port: read16(packet, hl) },
                dst: Endpoint { ip: read32(packet, 16), port: read16(packet, hl + 2) },
                header_len: hl,
                total_len: tl,
                fin: false,
                syn: false,
                rst: false,
                ack: false,
            },
        )
    }
}

/// Writes into the two bytes at `field` the checksum that makes
/// `data[start..end]`, together with words that sum to `extra`, sum to a
/// valid total. With `never_zero`, a checksum of zero is written as 65535,
/// which is as valid.
fn seal(data: &mut Vec<u8>, start: usize, end: usize, field: usize, extra: u64, never_zero: bool)
    requires
        start <= field,
        field + 2 <= end,
        end <= old(data).len(),
        (field - start) % 2 == 0,
        end - start <= 0xffff,
        extra <= 0xffff_ffff,
    ensures
        final(data)@.len() == old(data)@.len(),
        forall|i: int|
            0 <= i < old(data)@.len() && i != field && i != field + 1 ==> final(data)@[i]
                == old(data)@[i],
        sums_to_valid(extra as nat + weighted_sum(final(data)@.subrange(start as int, end as int))),
        never_zero ==> be16(final(data)@, field as int) != 0,
{
    data.set(field, 0);
    data.set(field + 1, 0);
    let ghost blank = data@.subrange(start as int, end as int);
    proof {
        crate::checksum::lemma_sum_bound(blank);
    }
    let sum: u64 = extra + sum_range(data, start, end);
    let folded = fold16(sum);
    proof {
        lemma_fold_bounds(sum as nat);
        lemma_checksum_validates(sum as nat);
    }
    let mut c: u16 = 65535 - folded;
    if never_zero && c == 0 {
        c = 65535;
    }
    let hi: u8 = (c / 256) as u8;
    let lo: u8 = (c % 256) as u8;
    data.set(field, hi);
    data.set(field + 1, lo);
    proof {
        let at = field - start;
        let sealed = data@.subrange(start as int, end as int);
        assert(sealed =~= blank.update(at, hi).update(at + 1, lo));
        lemma_sum_update(blank, at, hi);
        lemma_sum_update(blank.update(at, hi), at + 1, lo);
        assert(weighted_sum(sealed) == weighted_sum(blank) + c);
    }
}

/// Gives a packet new ends and writes both checksums anew.
pub fn rewrite(packet: &mut Vec<u8>, flow: &Flow, src: Endpoint, dst: Endpoint)
    requires
        flow_of(old(packet)@) == Ok::<Flow, PacketError>(*flow),
    ensures
        final(packet)@.len() == old(packet)@.len(),
        flow_of(final(packet)@) == Ok::<Flow, PacketError>(Flow { src, dst, ..*flow }),
        ip_checksum_valid(final(packet)@, flow.header_len as int),
        l4_checksum_valid(final(packet)@, Flow { src, dst, ..*flow }),
        forall|i: int|
            0 <= i < old(packet)@.len() && !is_rewritten_place(*flow, i) ==> final(packet)@[i]
                == old(packet)@[i],
{
    let hl = flow.header_len;
    let tl = flow.total_len;
    let ghost first = packet@;
    assert(20 <= hl <= tl <= first.len() && tl <= 0xffff && hl + 8 <= tl && (flow.protocol
        == Protocol::Tcp ==> hl + 20 <= tl)) by {
        assert(hl == (first[0] % 16) * 4);
        assert(tl == be16(first, 2));
    }
    put32(packet, 12, src.ip);
    let ghost with_src = packet@;
    put32(packet, 16, dst.ip);
    let ghost with_ips = packet@;
    proof {
        lemma_same_bytes(with_src, with_ips, 12);
    }
    put16(packet, hl, src.port);
    let ghost with_sport = packet@;
    put16(packet, hl + 2, dst.port);
    let ghost with_ends = packet@;
    assert(be16(with_ends, hl as int) == src.port) by {
        assert(with_ends[hl as int] == with_sport[hl as int] && with_ends[hl + 1] == with_sport[hl + 1]);
    }
    seal(packet, 0, hl, 10, 0, false);
    let ghost headed = packet@;
    let (field, never_zero): (usize, bool) = match flow.protocol {
        Protocol::Tcp => (hl + 16, false),
        Protocol::Udp => (hl + 6, true),
    };
    let extra = pseudo_header_sum(src.ip, dst.ip, flow.protocol, tl - hl);
    seal(packet, hl, tl, field, extra, never_zero);
    let ghost sealed = packet@;
    proof {
        assert(sealed.subrange(0, hl as int) =~= headed.subrange(0, hl as int));
        assert forall|i: int| 12 <= i < 20 implies sealed[i] == with_ips[i] by {}
        lemma_same_bytes(with_ips, sealed, 12);
        lemma_same_bytes(with_ips, sealed, 16);
        assert forall|i: int| hl <= i < hl + 4 implies sealed[i] == with_ends[i] by {}
        lemma_same_bytes(with_ends, sealed, hl as int);
        assert(l4_checksum_valid(sealed, Flow { src, dst, ..*flow }));
        assert forall|i: int| 0 <= i < first.len() && !is_rewritten_place(*flow, i) implies sealed[i]
            == first[i] by {}
        lemma_rewritten_flow(first, sealed, *flow, src, dst);
    }
}

} // verus!
