//! The dispatcher's decision: for a connection that the local proxy
//! accepted, where it was headed, what the rules say, and which way out it
//! takes.

use vstd::prelude::*;
use crate::config::ServerConfig;
use crate::packet::{Endpoint, Protocol};
use crate::rules::{ActionView, ProxyRules, Action};
use crate::session::{FlowKey, SessionManager};
use crate::storage::DomainIPAssociation;
use crate::text::same_str;

verus! {

/// What a connection is to reach: a domain, which is resolved by a real
/// name server before the connection is made, or an address.
#[derive(Clone, Debug, PartialEq, Eq)]
pub enum Target {
    Domain(String),
    Ip(u32),
}

/// A target, with the domain as a sequence of characters.
pub enum TargetView {
    Domain(Seq<char>),
    Ip(u32),
}

impl View for Target {
    type V = TargetView;

    open spec fn view(&self) -> TargetView {
        match self {
            Target::Domain(d) => TargetView::Domain(d@),
            Target::Ip(ip) => TargetView::Ip(*ip),
        }
    }
}

/// Why a connection is closed without a byte sent.
#[derive(Clone, Copy, Debug, PartialEq, Eq, Structural)]
pub enum CloseReason {
    /// The flow table knows no flow for the client's port.
    SessionMissing,
    /// The rules reject the destination.
    Rejected,
    /// The rules name a server that the configuration does not hold.
    UnknownProxy,
}

/// What the dispatcher does with a connection.
#[derive(Clone, Debug, PartialEq, Eq)]
pub enum Plan {
    /// The connection is closed.
    Close(CloseReason),
    /// The connection is bridged to the target itself.
    Direct { target: Target, port: u16 },
    /// The connection is bridged to the target through the upstream server
    /// at this place in the configuration.
    Tunnel { server: usize, target: Target, port: u16 },
}

/// A plan, with the target's domain as a sequence of characters.
pub enum PlanView {
    Close(CloseReason),
    Direct { target: TargetView, port: u16 },
    Tunnel { server: usize, target: TargetView, port: u16 },
}

impl View for Plan {
    type V = PlanView;

    open spec fn view(&self) -> PlanView {
        match self {
            Plan::Close(reason) => PlanView::Close(*reason),
            Plan::Direct { target, port } => PlanView::Direct { target: target@, port: *port },
            Plan::Tunnel { server, target, port } => PlanView::Tunnel {
                server: *server,
                target: target@,
                port: *port,
            },
        }
    }
}

/// The names of the servers, in the order of the configuration.
pub open spec fn names_of(servers: Seq<ServerConfig>) -> Seq<Seq<char>> {
    Seq::new(servers.len(), |i: int| servers[i].spec_name())
}

/// The place of the first server that is called `name`, from `from` on.
pub open spec fn first_named(names: Seq<Seq<char>>, name: Seq<char>, from: int) -> Option<int>
    decreases names.len() - from,
{
    if from < 0 || from >= names.len() {
        None
    } else if names[from] == name {
        Some(from)
    } else {
        first_named(names, name, from + 1)
    }
}

/// The server that an action's name stands for: the first that is called
/// so; and for the name `PROXY`, if no server is called so, the first of
/// all.
pub open spec fn chosen_server(names: Seq<Seq<char>>, name: Seq<char>) -> Option<int> {
    match first_named(names, name, 0) {
        Some(i) => Some(i),
        None => if name == "PROXY"@ && names.len() > 0 {
            Some(0)
        } else {
            None
        },
    }
}

/// What is to be reached for a flow that was headed for `origin`: the
/// domain behind the virtual address, if the store knows one, and the
/// address itself otherwise.
pub open spec fn target_of(origin: Endpoint, domain: Option<Seq<char>>) -> TargetView {
    match domain {
        Some(d) => TargetView::Domain(d),
        None => TargetView::Ip(origin.ip),
    }
}

/// The plan for a connection, from where its flow was headed, the domain
/// behind that address, what the rules answer, and the servers' names.
/// Where the rules find no match the connection goes out directly.
pub open spec fn plan_of(
    origin: Option<Endpoint>,
    domain: Option<Seq<char>>,
    action: Option<ActionView>,
    names: Seq<Seq<char>>,
) -> PlanView {
    match origin {
        None => PlanView::Close(CloseReason::SessionMissing),
        Some(origin) => {
            let target = target_of(origin, domain);
            match action {
                None => PlanView::Direct { target, port: origin.port },
                Some(ActionView::Direct) => PlanView::Direct { target, port: origin.port },
                Some(ActionView::Reject) => PlanView::Close(CloseReason::Rejected),
                Some(ActionView::Proxy(name)) => match chosen_server(names, name) {
                    Some(i) => PlanView::Tunnel { server: i as usize, target, port: origin.port },
                    None => PlanView::Close(CloseReason::UnknownProxy),
                },
            }
        },
    }
}

/// The server that an action's name stands for.
pub fn choose_server(servers: &Vec<ServerConfig>, name: &str) -> (r: Option<usize>)
    ensures
        match r {
            Some(i) => i < servers.len() && chosen_server(names_of(servers@), name@) == Some(
                i as int,
            ),
            None => chosen_server(names_of(servers@), name@) is None,
        },
{
    let ghost names = names_of(servers@);
    let mut i: usize = 0;
    while i < servers.len()
        invariant
            i <= servers.len(),
            names == names_of(servers@),
            first_named(names, name@, 0) == first_named(names, name@, i as int),
        decreases servers.len() - i,
    {
        if same_str(servers[i].name().as_str(), name) {
            return Some(i);
        }
        i += 1;
    }
    if servers.len() > 0 && same_str(name, "PROXY") {
        Some(0)
    } else {
        None
    }
}

/// The plan for a connection that the local proxy accepted from
/// `client_port`: where the flow was headed says the flow table, the domain
/// behind that address says the store, and the rules decide on both.
pub fn plan(
    client_port: u16,
    sessions: &SessionManager,
    store: &DomainIPAssociation,
    rules: &ProxyRules,
    servers: &Vec<ServerConfig>,
) -> (r: Plan)
    requires
        sessions.wf(),
        store.wf(),
    ensures
        ({
            let origin = sessions@.original_dst_of(
                FlowKey { protocol: Protocol::Tcp, port: client_port },
            );
            match origin {
                None => r@ == PlanView::Close(CloseReason::SessionMissing),
                Some(o) => r@ == plan_of(
                    origin,
                    store@.lookup_domain(o.ip),
                    rules.spec_classify(store@.lookup_domain(o.ip), Some(o.ip)),
                    names_of(servers@),
                ),
            }
        }),
{
    let origin = match sessions.original_dst_of(client_port, Protocol::Tcp) {
        Some(origin) => origin,
        None => {
            return Plan::Close(CloseReason::SessionMissing);
        },
    };
    let domain = store.lookup_domain(origin.ip);
    let action = match &domain {
        Some(d) => rules.classify(Some(d.as_str()), Some(origin.ip), origin.port),
        None => rules.classify(None, Some(origin.ip), origin.port),
    };
    let target = match domain {
        Some(d) => Target::Domain(d),
        None => Target::Ip(origin.ip),
    };
    match action {
        Err(_) => Plan::Direct { target, port: origin.port },
        Ok(Action::Direct) => Plan::Direct { target, port: origin.port },
        Ok(Action::Reject) => Plan::Close(CloseReason::Rejected),
        Ok(Action::Proxy(name)) => match choose_server(servers, name.as_str()) {
            Some(server) => Plan::Tunnel { server, target, port: origin.port },
            None => Plan::Close(CloseReason::UnknownProxy),
        },
    }
}

} // verus!
