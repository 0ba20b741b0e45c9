//! The flow table: for each protocol and client port, where the flow was
//! headed before the router turned it towards the local proxy.
//!
//! Instants and spans of time are counted in milliseconds.

use vstd::prelude::*;
use std::collections::HashSet;
use crate::packet::{Endpoint, Protocol};

verus! {

broadcast use vstd::std_specs::hash::group_hash_axioms;

/// What names a flow: the protocol and the client's port.
#[derive(Clone, Copy, Debug, PartialEq, Eq, Structural)]
pub struct FlowKey {
    pub protocol: Protocol,
    pub port: u16,
}

/// What the table keeps of a flow: its true destination, when a packet of it
/// was last seen, and since when it is closing, if it is.
#[derive(Clone, Copy, Debug, PartialEq, Eq)]
pub struct Session {
    pub original_dst: Endpoint,
    pub last_active: u64,
    pub closing_since: Option<u64>,
}

/// What the flow table is, apart from how it is kept.
#[verifier::ext_equal]
pub struct SessionModel {
    pub flows: Map<FlowKey, Session>,
    /// How long a flow may stay without a packet.
    pub idle_timeout: u64,
    /// How long a closing flow is kept.
    pub grace: u64,
}

impl SessionModel {
    /// Where the flow was headed.
    pub open spec fn original_dst_of(self, key: FlowKey) -> Option<Endpoint> {
        if self.flows.contains_key(key) {
            Some(self.flows[key].original_dst)
        } else {
            None
        }
    }

    /// The table after a packet of the flow towards `dst` was seen at `now`:
    /// the flow is there, headed for `dst` and active at `now`; a flow that
    /// was closing still is.
    pub open spec fn upsert(self, key: FlowKey, dst: Endpoint, now: u64) -> SessionModel {
        let closing_since = if self.flows.contains_key(key) {
            self.flows[key].closing_since
        } else {
            None
        };
        SessionModel {
            flows: self.flows.insert(
                key,
                Session { original_dst: dst, last_active: now, closing_since },
            ),
            ..self
        }
    }

    /// The table after a packet of a known flow was seen at `now`.
    pub open spec fn touch(self, key: FlowKey, now: u64) -> SessionModel {
        if self.flows.contains_key(key) {
            SessionModel {
                flows: self.flows.insert(key, Session { last_active: now, ..self.flows[key] }),
                ..self
            }
        } else {
            self
        }
    }

    /// The table after the end of a known flow was seen at `now`: the flow
    /// is closing, since `now` unless it was before.
    pub open spec fn mark_closing(self, key: FlowKey, now: u64) -> SessionModel {
        if self.flows.contains_key(key) && self.flows[key].closing_since is None {
            SessionModel {
                flows: self.flows.insert(
                    key,
                    Session { closing_since: Some(now), ..self.flows[key] },
                ),
                ..self
            }
        } else {
            self
        }
    }

    /// The table without the flow.
    pub open spec fn remove(self, key: FlowKey) -> SessionModel {
        SessionModel { flows: self.flows.remove(key), ..self }
    }

    /// The addresses that flows of the table are headed for.
    pub open spec fn destinations(self) -> Set<u32> {
        Set::new(
            |ip: u32|
                exists|k: FlowKey|
                    self.flows.contains_key(k) && (#[trigger] self.flows[k]).original_dst.ip == ip,
        )
    }

    /// Whether a flow is to be dropped at `now`: it has been closing for the
    /// grace period, or without a packet for the idle timeout.
    pub open spec fn expired(self, s: Session, now: u64) -> bool {
        ||| (s.closing_since matches Some(t) && now >= t + self.grace)
        ||| now >= s.last_active + self.idle_timeout
    }

    /// The table after a collection at `now`.
    pub open spec fn gc(self, now: u64) -> SessionModel {
        SessionModel {
            flows: Map::new(
                |k: FlowKey| self.flows.contains_key(k) && !self.expired(self.flows[k], now),
                |k: FlowKey| self.flows[k],
            ),
            ..self
        }
    }
}

/// The table of flows.
pub struct SessionManager {
    tcp: Vec<Option<Session>>,
    udp: Vec<Option<Session>>,
    idle_timeout: u64,
    grace: u64,
}

impl View for SessionManager {
    type V = SessionModel;

    closed spec fn view(&self) -> SessionModel {
        SessionModel {
            flows: Map::new(
                |k: FlowKey| self.slot(k) is Some,
                |k: FlowKey| self.slot(k)->Some_0,
            ),
            idle_timeout: self.idle_timeout,
            grace: self.grace,
        }
    }
}

impl SessionManager {
    spec fn slot(self, k: FlowKey) -> Option<Session> {
        match k.protocol {
            Protocol::Tcp => self.tcp@[k.port as int],
            Protocol::Udp => self.udp@[k.port as int],
        }
    }

    /// Each protocol has a place for every port, and the flows are finitely
    /// many.
    pub closed spec fn wf(self) -> bool {
        self.tcp.len() == 65536 && self.udp.len() == 65536 && self@.flows.dom().finite()
    }

    /// A well formed table holds finitely many flows.
    pub proof fn lemma_wf(self)
        requires
            self.wf(),
        ensures
            self@.flows.dom().finite(),
    {
    }

    fn empty_table() -> (t: Vec<Option<Session>>)
        ensures
            t.len() == 65536,
            forall|i: int| 0 <= i < 65536 ==> t@[i] is None,
    {
        let mut t: Vec<Option<Session>> = Vec::new();
        let mut i: usize = 0;
        while i < 65536
            invariant
                i <= 65536,
                t.len() == i,
                forall|j: int| 0 <= j < i ==> t@[j] is None,
            decreases 65536 - i,
        {
            t.push(None);
            i += 1;
        }
        t
    }

    /// An empty table that drops a flow after `idle_timeout` without a
    /// packet, and a closing flow after `grace`.
    pub fn new(idle_timeout: u64, grace: u64) -> (m: SessionManager)
        ensures
            m.wf(),
            m@.flows == Map::<FlowKey, Session>::empty(),
            m@.idle_timeout == idle_timeout,
            m@.grace == grace,
    {
        let m = SessionManager {
            tcp: Self::empty_table(),
            udp: Self::empty_table(),
            idle_timeout,
            grace,
        };
        assert(m@.flows =~= Map::<FlowKey, Session>::empty());
        m
    }

    fn get(&self, protocol: Protocol, port: u16) -> (s: Option<Session>)
        requires
            self.wf(),
        ensures
            s == self.slot(FlowKey { protocol, port }),
            s is Some <==> self@.flows.contains_key(FlowKey { protocol, port }),
            s matches Some(x) ==> self@.flows[FlowKey { protocol, port }] == x,
    {
        match protocol {
            Protocol::Tcp => self.tcp[port as usize],
            Protocol::Udp => self.udp[port as usize],
        }
    }

    fn put(&mut self, protocol: Protocol, port: u16, s: Option<Session>)
        requires
            old(self).wf(),
        ensures
            final(self).wf(),
            final(self).idle_timeout == old(self).idle_timeout,
            final(self).grace == old(self).grace,
            final(self).slot(FlowKey { protocol, port }) == s,
            forall|k: FlowKey|
                k != (FlowKey { protocol, port }) ==> final(self).slot(k) == old(self).slot(k),
            final(self)@.flows == match s {
                Some(x) => old(self)@.flows.insert(FlowKey { protocol, port }, x),
                None => old(self)@.flows.remove(FlowKey { protocol, port }),
            },
    {
        match protocol {
            Protocol::Tcp => self.tcp.set(port as usize, s),
            Protocol::Udp => self.udp.set(port as usize, s),
        }
        proof {
            let key = FlowKey { protocol, port };
            assert(self.slot(key) == s);
            assert forall|k: FlowKey| k != key implies self.slot(k) == old(self).slot(k) by {}
            assert(self@.flows =~= match s {
                Some(x) => old(self)@.flows.insert(key, x),
                None => old(self)@.flows.remove(key),
            });
        }
    }

    /// Where the flow of `client_port` was headed.
    pub fn original_dst_of(&self, client_port: u16, protocol: Protocol) -> (r: Option<Endpoint>)
        requires
            self.wf(),
        ensures
            r == self@.original_dst_of(FlowKey { protocol, port: client_port }),
    {
        match self.get(protocol, client_port) {
            Some(s) => Some(s.original_dst),
            None => None,
        }
    }

    /// What the table keeps of the flow.
    pub fn session_of(&self, client_port: u16, protocol: Protocol) -> (r: Option<Session>)
        requires
            self.wf(),
        ensures
            match r {
                Some(s) => self@.flows.contains_key(FlowKey { protocol, port: client_port })
                    && self@.flows[FlowKey { protocol, port: client_port }] == s,
                None => !self@.flows.contains_key(FlowKey { protocol, port: client_port }),
            },
    {
        self.get(protocol, client_port)
    }

    /// Notes a packet of the flow towards `dst`, seen at `now`.
    pub fn upsert(&mut self, key: FlowKey, dst: Endpoint, now: u64)
        requires
            old(self).wf(),
        ensures
            final(self).wf(),
            final(self)@ == old(self)@.upsert(key, dst, now),
    {
        let closing_since = match self.get(key.protocol, key.port) {
            Some(s) => s.closing_since,
            None => None,
        };
        self.put(
            key.protocol,
            key.port,
            Some(Session { original_dst: dst, last_active: now, closing_since }),
        );
        assert(self@.flows =~= old(self)@.upsert(key, dst, now).flows);
    }

    /// Notes a packet of a known flow, seen at `now`.
    pub fn touch(&mut self, key: FlowKey, now: u64)
        requires
            old(self).wf(),
        ensures
            final(self).wf(),
            final(self)@ == old(self)@.touch(key, now),
    {
        match self.get(key.protocol, key.port) {
            Some(s) => {
                self.put(
                    key.protocol,
                    key.port,
                    Some(
                        Session {
                            original_dst: s.original_dst,
                            last_active: now,
                            closing_since: s.closing_since,
                        },
                    ),
                );
            },
            None => {},
        }
        assert(self@.flows =~= old(self)@.touch(key, now).flows);
    }

    /// Notes that the end of a known flow was seen at `now`.
    pub fn mark_closing(&mut self, key: FlowKey, now: u64)
        requires
            old(self).wf(),
        ensures
            final(self).wf(),
            final(self)@ == old(self)@.mark_closing(key, now),
    {
        match self.get(key.protocol, key.port) {
            Some(s) => {
                if s.closing_since.is_none() {
                    self.put(
                        key.protocol,
                        key.port,
                        Some(
                            Session {
                                original_dst: s.original_dst,
                                last_active: s.last_active,
                                closing_since: Some(now),
                            },
                        ),
                    );
                }
            },
            None => {},
        }
        assert(self@.flows =~= old(self)@.mark_closing(key, now).flows);
    }

    /// Forgets the flow.
    pub fn remove(&mut self, key: FlowKey)
        requires
            old(self).wf(),
        ensures
            final(self).wf(),
            final(self)@ == old(self)@.remove(key),
    {
        self.put(key.protocol, key.port, None);
        assert(self@.flows =~= old(self)@.remove(key).flows);
    }

    /// The addresses that the flows of one protocol with a port below
    /// `bound` are headed for.
    spec fn headed_for(self, protocol: Protocol, bound: int, ip: u32) -> bool {
        exists|port: u16| port < bound && #[trigger] self.slot_ip(protocol, port) == Some(ip)
    }

    /// The address that the flow of a protocol and a port is headed for.
    spec fn slot_ip(self, protocol: Protocol, port: u16) -> Option<u32> {
        match self.slot(FlowKey { protocol, port }) {
            Some(s) => Some(s.original_dst.ip),
            None => None,
        }
    }

    fn collect(&self, protocol: Protocol, found: &mut HashSet<u32>)
        requires
            self.wf(),
        ensures
            forall|ip: u32|
                final(found)@.contains(ip) <==> old(found)@.contains(ip) || self.headed_for(
                    protocol,
                    65536,
                    ip,
                ),
    {
        let mut port: usize = 0;
        while port < 65536
            invariant
                self.wf(),
                port <= 65536,
                forall|ip: u32|
                    found@.contains(ip) <==> old(found)@.contains(ip) || self.headed_for(
                        protocol,
                        port as int,
                        ip,
                    ),
            decreases 65536 - port,
        {
            let slot = self.get(protocol, port as u16);
            match slot {
                Some(s) => {
                    found.insert(s.original_dst.ip);
                },
                None => {},
            }
            proof {
                let key = FlowKey { protocol, port: port as u16 };
                assert forall|ip: u32|
                    found@.contains(ip) <==> old(found)@.contains(ip) || self.headed_for(
                        protocol,
                        port + 1,
                        ip,
                    ) by {
                    if self.headed_for(protocol, port + 1, ip) && !self.headed_for(
                        protocol,
                        port as int,
                        ip,
                    ) {
                        let p = choose|p: u16|
                            p < port + 1 && #[trigger] self.slot_ip(protocol, p) == Some(ip);
                        assert(p == port);
                    }
                    if self.headed_for(protocol, port as int, ip) {
                        let p = choose|p: u16|
                            p < port && #[trigger] self.slot_ip(protocol, p) == Some(ip);
                        assert(p < port + 1);
                    }
                    if self.slot_ip(protocol, port as u16) == Some(ip) {
                        assert(self.slot(key) == slot);
                    }
                }
            }
            port += 1;
        }
    }

    /// The addresses that flows of the table are headed for.
    pub fn destinations(&self) -> (found: HashSet<u32>)
        requires
            self.wf(),
        ensures
            found@ == self@.destinations(),
    {
        let mut found: HashSet<u32> = HashSet::new();
        self.collect(Protocol::Tcp, &mut found);
        self.collect(Protocol::Udp, &mut found);
        proof {
            assert forall|ip: u32| found@.contains(ip) <==> self@.destinations().contains(ip) by {
                if self.headed_for(Protocol::Tcp, 65536, ip) {
                    let p = choose|p: u16|
                        p < 65536 && #[trigger] self.slot_ip(Protocol::Tcp, p) == Some(ip);
                    let k = FlowKey { protocol: Protocol::Tcp, port: p };
                    assert(self@.flows.contains_key(k) && self@.flows[k].original_dst.ip == ip);
                }
                if self.headed_for(Protocol::Udp, 65536, ip) {
                    let p = choose|p: u16|
                        p < 65536 && #[trigger] self.slot_ip(Protocol::Udp, p) == Some(ip);
                    let k = FlowKey { protocol: Protocol::Udp, port: p };
                    assert(self@.flows.contains_key(k) && self@.flows[k].original_dst.ip == ip);
                }
                if self@.destinations().contains(ip) {
                    let k = choose|k: FlowKey|
                        self@.flows.contains_key(k) && (#[trigger] self@.flows[k]).original_dst.ip
                            == ip;
                    assert(self.slot(k) is Some);
                    assert(k == FlowKey { protocol: k.protocol, port: k.port });
                    assert(self.slot_ip(k.protocol, k.port) == Some(ip));
                    if k.protocol == Protocol::Tcp {
                        assert(self.headed_for(Protocol::Tcp, 65536, ip));
                    } else {
                        assert(self.headed_for(Protocol::Udp, 65536, ip));
                    }
                }
            }
            assert(found@ =~= self@.destinations());
        }
        found
    }

    fn is_expired(&self, s: &Session, now: u64) -> (b: bool)
        ensures
            b == self@.expired(*s, now),
    {
        let closed = match s.closing_since {
            Some(t) => now >= t && now - t >= self.grace,
            None => false,
        };
        closed || (now >= s.last_active && now - s.last_active >= self.idle_timeout)
    }

    fn sweep(&mut self, protocol: Protocol, now: u64) -> (dropped: usize)
        requires
            old(self).wf(),
        ensures
            final(self).wf(),
            final(self).idle_timeout == old(self).idle_timeout,
            final(self).grace == old(self).grace,
            dropped <= 65536,
            dropped + final(self)@.flows.dom().len() == old(self)@.flows.dom().len(),
            forall|k: FlowKey|
                k.protocol != protocol ==> #[trigger] final(self).slot(k) == old(self).slot(k),
            forall|k: FlowKey|
                k.protocol == protocol ==> #[trigger] final(self).slot(k) == (if old(self).slot(
                    k,
                ) matches Some(s) && !old(self)@.expired(s, now) {
                    old(self).slot(k)
                } else {
                    None
                }),
    {
        let mut dropped: usize = 0;
        let mut port: usize = 0;
        while port < 65536
            invariant
                self.wf(),
                port <= 65536,
                dropped <= port,
                dropped + self@.flows.dom().len() == old(self)@.flows.dom().len(),
                self.idle_timeout == old(self).idle_timeout,
                self.grace == old(self).grace,
                forall|k: FlowKey|
                    k.protocol != protocol ==> #[trigger] self.slot(k) == old(self).slot(k),
                forall|k: FlowKey|
                    k.protocol == protocol && k.port >= port ==> #[trigger] self.slot(k) == old(
                        self,
                    ).slot(k),
                forall|k: FlowKey|
                    k.protocol == protocol && k.port < port ==> #[trigger] self.slot(k) == (if old(
                        self,
                    ).slot(k) matches Some(s) && !old(self)@.expired(s, now) {
                        old(self).slot(k)
                    } else {
                        None
                    }),
            decreases 65536 - port,
        {
            match self.get(protocol, port as u16) {
                Some(s) => {
                    if self.is_expired(&s, now) {
                        self.put(protocol, port as u16, None);
                        dropped += 1;
                    }
                },
                None => {},
            }
            port += 1;
        }
        dropped
    }

    /// Collects at `now`: drops every flow that has been closing for the
    /// grace period or without a packet for the idle timeout. Answers how
    /// many were dropped.
    pub fn gc(&mut self, now: u64) -> (dropped: usize)
        requires
            old(self).wf(),
        ensures
            final(self).wf(),
            final(self)@ == old(self)@.gc(now),
            dropped == old(self)@.flows.dom().len() - final(self)@.flows.dom().len(),
    {
        let a = self.sweep(Protocol::Tcp, now);
        let ghost mid = *self;
        let b = self.sweep(Protocol::Udp, now);
        proof {
            assert forall|k: FlowKey| #[trigger] self.slot(k) == (if old(self).slot(k) matches Some(
                s,
            ) && !old(self)@.expired(s, now) {
                old(self).slot(k)
            } else {
                None
            }) by {
                if k.protocol == Protocol::Tcp {
                    assert(self.slot(k) == mid.slot(k));
                } else {
                    assert(mid.slot(k) == old(self).slot(k));
                    assert(mid@.expired(old(self).slot(k)->Some_0, now) == old(self)@.expired(
                        old(self).slot(k)->Some_0,
                        now,
                    ));
                }
            }
            assert(self@.flows =~= old(self)@.gc(now).flows);
        }
        a + b
    }
}

} // verus!
