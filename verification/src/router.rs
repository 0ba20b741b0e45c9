//! The router: for each packet that comes in from the TUN device, whether it
//! is turned towards the local proxy, turned back towards the client, or
//! dropped, and what the flow table learns from it.

use vstd::prelude::*;
use crate::net::Ipv4Cidr;
use crate::packet::{
    flow_of, ip_checksum_valid, is_rewritten_place, l4_checksum_valid, parse, rewrite, Endpoint,
    Flow, PacketError, Protocol,
};
use crate::session::{FlowKey, SessionManager, SessionModel};

verus! {

/// Which way a packet goes.
#[derive(Clone, Copy, Debug, PartialEq, Eq, Structural)]
pub enum Direction {
    /// From a client towards a virtual address.
    Outbound,
    /// From the local proxy back to a client.
    Return,
}

/// Why a packet is dropped.
#[derive(Clone, Copy, Debug, PartialEq, Eq, Structural)]
pub enum DropReason {
    /// The packet could not be taken.
    Packet(PacketError),
    /// The packet goes neither way.
    NotRouted,
    /// The packet comes from the local proxy, and the table knows no flow
    /// for the port it is sent to.
    SessionMissing,
}

/// What is done with a packet.
#[derive(Clone, Copy, Debug, PartialEq, Eq, Structural)]
pub enum Verdict {
    /// The packet was rewritten and is to be sent back into the TUN device.
    Forward(Direction),
    /// The packet is left as it was and is not to be sent.
    Drop(DropReason),
}

/// The key under which the table keeps the flow of a packet: the protocol
/// and the client's port, which is the source port on the way out and the
/// destination port on the way back.
pub open spec fn key_of(flow: Flow, direction: Direction) -> FlowKey {
    FlowKey {
        protocol: flow.protocol,
        port: match direction {
            Direction::Outbound => flow.src.port,
            Direction::Return => flow.dst.port,
        },
    }
}

/// The packet that the local proxy answers `flow` with: the same protocol,
/// the two ends exchanged.
pub open spec fn answers(reply: Flow, flow: Flow) -> bool {
    reply.protocol == flow.protocol && reply.src == flow.dst && reply.dst == flow.src
}

/// What the router is, apart from how it is kept.
#[verifier::ext_equal]
pub struct RouterModel {
    pub tun_ip: u32,
    pub proxy_port: u16,
    pub cidr: Ipv4Cidr,
    pub sessions: SessionModel,
    /// How many malformed packets were dropped.
    pub malformed: u64,
}

impl RouterModel {
    /// Where the local proxy listens.
    pub open spec fn proxy(self) -> Endpoint {
        Endpoint { ip: self.tun_ip, port: self.proxy_port }
    }

    /// Which way a packet goes: back, if the local proxy sent it; out, if it
    /// is headed for an address of the block other than the router's own.
    pub open spec fn direction_of(self, flow: Flow) -> Option<Direction> {
        if flow.src == self.proxy() {
            Some(Direction::Return)
        } else if self.cidr.spec_contains(flow.dst.ip) && flow.dst.ip != self.tun_ip {
            Some(Direction::Outbound)
        } else {
            None
        }
    }

    /// What the packet tells after the rewrite: on the way out it is headed
    /// for the local proxy, its source untouched; on the way back it comes
    /// from where the flow was headed, if the table knows the flow.
    pub open spec fn rewritten(self, flow: Flow, direction: Direction) -> Option<Flow> {
        match direction {
            Direction::Outbound => Some(Flow { dst: self.proxy(), ..flow }),
            Direction::Return => match self.sessions.original_dst_of(key_of(flow, direction)) {
                Some(origin) => Some(Flow { src: origin, ..flow }),
                None => None,
            },
        }
    }

    /// The flow table after a packet that goes one of the two ways was seen
    /// at `now`. On the way out a packet that opens a connection starts the
    /// flow afresh, and every packet notes where the flow is headed. On the
    /// way back a packet of a known flow notes that the flow is active. Either
    /// way a packet that ends a connection marks the flow as closing.
    pub open spec fn sessions_after(
        self,
        flow: Flow,
        direction: Direction,
        now: u64,
    ) -> SessionModel {
        let key = key_of(flow, direction);
        let noted = match direction {
            Direction::Outbound => {
                let fresh = if flow.syn && !flow.ack {
                    self.sessions.remove(key)
                } else {
                    self.sessions
                };
                fresh.upsert(key, flow.dst, now)
            },
            Direction::Return => self.sessions.touch(key, now),
        };
        if flow.fin || flow.rst {
            noted.mark_closing(key, now)
        } else {
            noted
        }
    }

    /// What is done with a packet that was read as `parsed`.
    pub open spec fn verdict(self, parsed: Result<Flow, PacketError>) -> Verdict {
        match parsed {
            Err(e) => Verdict::Drop(DropReason::Packet(e)),
            Ok(flow) => match self.direction_of(flow) {
                None => Verdict::Drop(DropReason::NotRouted),
                Some(direction) => match self.rewritten(flow, direction) {
                    None => Verdict::Drop(DropReason::SessionMissing),
                    Some(_) => Verdict::Forward(direction),
                },
            },
        }
    }

    /// The router after a packet that was read as `parsed` came in at `now`:
    /// a malformed packet is counted, a forwarded one is noted in the flow
    /// table, and any other leaves the router as it was.
    pub open spec fn after(self, parsed: Result<Flow, PacketError>, now: u64) -> RouterModel {
        match parsed {
            Err(e) => if e.spec_is_malformed() && self.malformed < u64::MAX {
                RouterModel { malformed: (self.malformed + 1) as u64, ..self }
            } else {
                self
            },
            Ok(flow) => match self.verdict(parsed) {
                Verdict::Forward(direction) => RouterModel {
                    sessions: self.sessions_after(flow, direction, now),
                    ..self
                },
                Verdict::Drop(_) => self,
            },
        }
    }
}

/// The rewrite on the way out and the rewrite on the way back undo each
/// other: when a packet goes out at `now`, and the local proxy answers the
/// rewritten packet while the flow table is as the packet left it, the
/// answer is forwarded back, and after its rewrite it comes from where the
/// packet was headed and goes to where the packet came from, under the same
/// protocol.
pub proof fn law_rewrites_undo_each_other(router: RouterModel, flow: Flow, now: u64, reply: Flow)
    requires
        router.direction_of(flow) == Some(Direction::Outbound),
        answers(reply, router.rewritten(flow, Direction::Outbound)->Some_0),
    ensures
        router.verdict(Ok(flow)) == Verdict::Forward(Direction::Outbound),
        router.after(Ok(flow), now).verdict(Ok(reply)) == Verdict::Forward(Direction::Return),
        router.after(Ok(flow), now).rewritten(reply, Direction::Return) matches Some(back)
            && answers(back, flow),
{
    let later = router.after(Ok(flow), now);
    let key = key_of(flow, Direction::Outbound);
    assert(key_of(reply, Direction::Return) == key);
    assert(later.sessions.flows.contains_key(key));
    assert(later.sessions.flows[key].original_dst == flow.dst);
}

/// The router.
pub struct Router {
    tun_ip: u32,
    proxy_port: u16,
    cidr: Ipv4Cidr,
    session: SessionManager,
    malformed: u64,
}

impl View for Router {
    type V = RouterModel;

    closed spec fn view(&self) -> RouterModel {
        RouterModel {
            tun_ip: self.tun_ip,
            proxy_port: self.proxy_port,
            cidr: self.cidr,
            sessions: self.session@,
            malformed: self.malformed,
        }
    }
}

impl Router {
    /// The flow table is well formed.
    pub closed spec fn wf(self) -> bool {
        self.session.wf()
    }

    /// A router for the block `cidr`, with the local proxy at `proxy_port` of
    /// `tun_ip`, and an empty flow table that drops a flow after
    /// `idle_timeout` without a packet and a closing flow after `grace`.
    pub fn new(tun_ip: u32, proxy_port: u16, cidr: Ipv4Cidr, idle_timeout: u64, grace: u64) -> (r:
        Router)
        ensures
            r.wf(),
            r@.tun_ip == tun_ip,
            r@.proxy_port == proxy_port,
            r@.cidr == cidr,
            r@.malformed == 0,
            r@.sessions.flows == Map::<FlowKey, crate::session::Session>::empty(),
            r@.sessions.idle_timeout == idle_timeout,
            r@.sessions.grace == grace,
    {
        Router {
            tun_ip,
            proxy_port,
            cidr,
            session: SessionManager::new(idle_timeout, grace),
            malformed: 0,
        }
    }

    /// The flow table.
    pub fn sessions(&self) -> (s: &SessionManager)
        requires
            self.wf(),
        ensures
            s.wf(),
            s@ == self@.sessions,
    {
        &self.session
    }

    /// How many malformed packets were dropped.
    pub fn malformed(&self) -> (n: u64)
        ensures
            n == self@.malformed,
    {
        self.malformed
    }

    /// Where the flow of `client_port` was headed before it was turned
    /// towards the local proxy.
    pub fn original_dst_of(&self, client_port: u16, protocol: Protocol) -> (r: Option<Endpoint>)
        requires
            self.wf(),
        ensures
            r == self@.sessions.original_dst_of(FlowKey { protocol, port: client_port }),
    {
        self.session.original_dst_of(client_port, protocol)
    }

    /// Collects the flow table at `now`. Answers how many flows were dropped.
    pub fn gc(&mut self, now: u64) -> (dropped: usize)
        requires
            old(self).wf(),
        ensures
            final(self).wf(),
            final(self)@ == (RouterModel { sessions: old(self)@.sessions.gc(now), ..old(self)@ }),
            dropped + final(self)@.sessions.flows.dom().len()
                == old(self)@.sessions.flows.dom().len(),
    {
        self.session.gc(now)
    }

    /// Which way a packet goes.
    pub fn direction_of(&self, flow: &Flow) -> (d: Option<Direction>)
        ensures
            d == self@.direction_of(*flow),
    {
        if flow.src.ip == self.tun_ip && flow.src.port == self.proxy_port {
            Some(Direction::Return)
        } else if self.cidr.contains(flow.dst.ip) && flow.dst.ip != self.tun_ip {
            Some(Direction::Outbound)
        } else {
            None
        }
    }

    /// Takes a packet that came in from the TUN device at `now`. A packet
    /// that goes one of the two ways is rewritten in place, both checksums
    /// written anew, and noted in the flow table; any other packet is left
    /// as it was, and counted if it is malformed.
    pub fn handle_packet(&mut self, packet: &mut Vec<u8>, now: u64) -> (v: Verdict)
        requires
            old(self).wf(),
        ensures
            final(self).wf(),
            v == old(self)@.verdict(flow_of(old(packet)@)),
            final(self)@ == old(self)@.after(flow_of(old(packet)@), now),
            match v {
                Verdict::Forward(direction) => {
                    let flow = flow_of(old(packet)@)->Ok_0;
                    let sent = old(self)@.rewritten(flow, direction)->Some_0;
                    &&& final(packet)@.len() == old(packet)@.len()
                    &&& flow_of(final(packet)@) == Ok::<Flow, PacketError>(sent)
                    &&& ip_checksum_valid(final(packet)@, sent.header_len as int)
                    &&& l4_checksum_valid(final(packet)@, sent)
                    &&& forall|i: int|
                        0 <= i < old(packet)@.len() && !is_rewritten_place(flow, i)
                            ==> final(packet)@[i] == old(packet)@[i]
                },
                Verdict::Drop(_) => final(packet)@ == old(packet)@,
            },
    {
        let flow = match parse(packet) {
            Ok(flow) => flow,
            Err(e) => {
                if e.is_malformed() && self.malformed < u64::MAX {
                    self.malformed = self.malformed + 1;
                }
                return Verdict::Drop(DropReason::Packet(e));
            },
        };
        let direction = match self.direction_of(&flow) {
            Some(direction) => direction,
            None => {
                return Verdict::Drop(DropReason::NotRouted);
            },
        };
        let ending = flow.fin || flow.rst;
        match direction {
            Direction::Outbound => {
                let key = FlowKey { protocol: flow.protocol, port: flow.src.port };
                if flow.syn && !flow.ack {
                    self.session.remove(key);
                }
                self.session.upsert(key, flow.dst, now);
                if ending {
                    self.session.mark_closing(key, now);
                }
                let proxy = Endpoint { ip: self.tun_ip, port: self.proxy_port };
                rewrite(packet, &flow, flow.src, proxy);
                Verdict::Forward(Direction::Outbound)
            },
            Direction::Return => {
                let key = FlowKey { protocol: flow.protocol, port: flow.dst.port };
                let origin = match self.session.original_dst_of(flow.dst.port, flow.protocol) {
                    Some(origin) => origin,
                    None => {
                        return Verdict::Drop(DropReason::SessionMissing);
                    },
                };
                self.session.touch(key, now);
                if ending {
                    self.session.mark_closing(key, now);
                }
                rewrite(packet, &flow, origin, flow.dst);
                Verdict::Forward(Direction::Return)
            },
        }
    }
}

} // verus!
