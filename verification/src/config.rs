//! The configuration: what every part of the proxy is set up from, with the
//! values that hold where the configuration file names none.

use vstd::prelude::*;
use vstd::string::StringExecFns;
use crate::duration::{
    default_connect_retries, default_connect_timeout, default_dns_timeout, default_read_timeout,
    default_write_timeout, Duration,
};
use crate::net::{ipv4, ipv4_from_octets, ipv4_text, parse_ipv4, Ipv4Cidr};
use crate::packet::Endpoint;
use crate::rules::ProxyRules;
use crate::text::same_str;

verus! {

/// The protocols that an upstream server may speak.
#[derive(Clone, Copy, Debug, PartialEq, Eq, Structural)]
pub enum ServerProtocol {
    ShadowSocks,
}

impl ServerProtocol {
    /// The protocol that the configuration names `ss`.
    pub fn parse(s: &str) -> (r: Option<ServerProtocol>)
        ensures
            r == if s@ == "ss"@ {
                Some(ServerProtocol::ShadowSocks)
            } else {
                None
            },
    {
        if same_str(s, "ss") {
            Some(ServerProtocol::ShadowSocks)
        } else {
            None
        }
    }
}

/// Where a server is reached: at an address, or at a name that is yet to be
/// resolved.
#[derive(Clone, Debug, PartialEq, Eq)]
pub enum Address {
    SocketAddress(Endpoint),
    DomainNameAddress(String, u16),
}

/// A server's place, with the name as a sequence of characters.
pub enum AddressView {
    SocketAddress(Endpoint),
    DomainNameAddress(Seq<char>, u16),
}

impl View for Address {
    type V = AddressView;

    open spec fn view(&self) -> AddressView {
        match self {
            Address::SocketAddress(e) => AddressView::SocketAddress(*e),
            Address::DomainNameAddress(name, port) => AddressView::DomainNameAddress(name@, *port),
        }
    }
}

impl Address {
    /// The place that a host and a port name: an address if the host is
    /// written as `a.b.c.d`, a name otherwise.
    pub fn new(host: &str, port: u16) -> (a: Address)
        ensures
            a@ == match ipv4_text(host@) {
                Some(ip) => AddressView::SocketAddress(Endpoint { ip, port }),
                None => AddressView::DomainNameAddress(host@, port),
            },
    {
        match parse_ipv4(host) {
            Some(ip) => Address::SocketAddress(Endpoint { ip, port }),
            None => Address::DomainNameAddress(String::from_str(host), port),
        }
    }

    /// A copy of the place.
    pub fn duplicate(&self) -> (a: Address)
        ensures
            a@ == self@,
    {
        match self {
            Address::SocketAddress(e) => Address::SocketAddress(*e),
            Address::DomainNameAddress(name, port) => Address::DomainNameAddress(
                name.clone(),
                *port,
            ),
        }
    }
}

/// A copy of a text that may be absent.
fn duplicate_text(t: &Option<String>) -> (r: Option<String>)
    ensures
        r == *t,
{
    match t {
        Some(s) => Some(s.clone()),
        None => None,
    }
}

/// An upstream server: under which name the rules speak of it, which
/// protocol it speaks, where it is reached, the cipher and the password it
/// takes, and whether it carries UDP.
#[derive(Clone, Debug, PartialEq, Eq)]
pub struct ServerConfig {
    name: String,
    protocol: ServerProtocol,
    addr: Address,
    method: Option<String>,
    password: Option<String>,
    udp: bool,
}

impl ServerConfig {
    /// The name under which the rules speak of the server.
    pub closed spec fn spec_name(self) -> Seq<char> {
        self.name@
    }

    /// The protocol that the server speaks.
    pub closed spec fn spec_protocol(self) -> ServerProtocol {
        self.protocol
    }

    /// Where the server is reached.
    pub closed spec fn spec_addr(self) -> AddressView {
        self.addr@
    }

    /// The cipher that the server takes.
    pub closed spec fn spec_method(self) -> Option<String> {
        self.method
    }

    /// The password that the server takes.
    pub closed spec fn spec_password(self) -> Option<String> {
        self.password
    }

    /// Whether the server carries UDP.
    pub closed spec fn spec_support_udp(self) -> bool {
        self.udp
    }

    /// A server with the given name, protocol, place, cipher and password.
    pub fn new(
        name: String,
        protocol: ServerProtocol,
        addr: Address,
        method: Option<String>,
        password: Option<String>,
        udp: bool,
    ) -> (s: ServerConfig)
        ensures
            s.spec_name() == name@,
            s.spec_protocol() == protocol,
            s.spec_addr() == addr@,
            s.spec_method() == method,
            s.spec_password() == password,
            s.spec_support_udp() == udp,
    {
        ServerConfig { name, protocol, addr, method, password, udp }
    }

    /// The name under which the rules speak of the server.
    pub fn name(&self) -> (n: String)
        ensures
            n@ == self.spec_name(),
    {
        self.name.clone()
    }

    /// The protocol that the server speaks.
    pub fn protocol(&self) -> (p: ServerProtocol)
        ensures
            p == self.spec_protocol(),
    {
        self.protocol
    }

    /// Where the server is reached.
    pub fn addr(&self) -> (a: Address)
        ensures
            a@ == self.spec_addr(),
    {
        self.addr.duplicate()
    }

    /// The cipher that the server takes.
    pub fn method(&self) -> (m: Option<String>)
        ensures
            m == self.spec_method(),
    {
        duplicate_text(&self.method)
    }

    /// The password that the server takes.
    pub fn password(&self) -> (p: Option<String>)
        ensures
            p == self.spec_password(),
    {
        duplicate_text(&self.password)
    }

    /// Whether the server carries UDP.
    pub fn support_udp(&self) -> (b: bool)
        ensures
            b == self.spec_support_udp(),
    {
        self.udp
    }
}

/// The TUN device: its name, its own address, and the block that the
/// virtual addresses are drawn from.
#[derive(Clone, Debug, PartialEq, Eq)]
pub struct TunConfig {
    pub name: String,
    pub ip: u32,
    pub cidr: Ipv4Cidr,
}

impl Default for TunConfig {
    /// The device `sazanami-tun` at `10.0.0.1`, over `10.0.0.0/16`.
    fn default() -> (t: TunConfig)
        ensures
            t.name@ == "sazanami-tun"@,
            t.ip == ipv4_from_octets(10, 0, 0, 1),
            t.cidr.spec_address() == ipv4_from_octets(10, 0, 0, 0),
            t.cidr.spec_prefix_len() == 16,
    {
        TunConfig {
            name: String::from_str("sazanami-tun"),
            ip: ipv4(10, 0, 0, 1),
            cidr: Ipv4Cidr::new(ipv4(10, 0, 0, 0), 16).unwrap(),
        }
    }
}

/// The resolver: the real name servers, how long each may take to answer,
/// and where the fake resolver listens.
#[derive(Clone, Debug, PartialEq, Eq)]
pub struct DNSConfig {
    pub upstream: Vec<Endpoint>,
    pub timeout: Duration,
    pub listen_at: Endpoint,
}

impl Default for DNSConfig {
    /// The name servers `8.8.8.8:53` and `1.1.1.1:53`, two seconds for each
    /// answer, and the fake resolver at `127.0.0.1:53`.
    fn default() -> (d: DNSConfig)
        ensures
            d.upstream@ == seq![
                Endpoint { ip: ipv4_from_octets(8, 8, 8, 8) as u32, port: 53 },
                Endpoint { ip: ipv4_from_octets(1, 1, 1, 1) as u32, port: 53 },
            ],
            d.timeout.as_nanos() == 2 * 1_000_000_000,
            d.listen_at == (Endpoint { ip: ipv4_from_octets(127, 0, 0, 1) as u32, port: 53 }),
    {
        let mut upstream: Vec<Endpoint> = Vec::new();
        upstream.push(Endpoint { ip: ipv4(8, 8, 8, 8), port: 53 });
        upstream.push(Endpoint { ip: ipv4(1, 1, 1, 1), port: 53 });
        let d = DNSConfig {
            upstream,
            timeout: default_dns_timeout(),
            listen_at: Endpoint { ip: ipv4(127, 0, 0, 1), port: 53 },
        };
        assert(d.upstream@ =~= seq![
            Endpoint { ip: ipv4_from_octets(8, 8, 8, 8) as u32, port: 53 },
            Endpoint { ip: ipv4_from_octets(1, 1, 1, 1) as u32, port: 53 },
        ]);
        d
    }
}

/// The whole configuration.
#[derive(Debug)]
pub struct Config {
    /// The port of the local proxy.
    pub port: u16,
    pub tun: TunConfig,
    pub dns: DNSConfig,
    /// How many times the egress is dialled again after a failure.
    pub connect_retries: u8,
    pub connect_timeout: Duration,
    pub read_timeout: Duration,
    pub write_timeout: Duration,
    /// The upstream servers.
    pub proxies: Vec<ServerConfig>,
    pub rules: ProxyRules,
}

impl Config {
    /// The configuration of a file that names the servers and the rules
    /// and nothing else.
    pub fn new(proxies: Vec<ServerConfig>, rules: ProxyRules) -> (c: Config)
        ensures
            c.port == 0,
            c.tun.name@ == "sazanami-tun"@,
            c.tun.ip == ipv4_from_octets(10, 0, 0, 1),
            c.tun.cidr.spec_address() == ipv4_from_octets(10, 0, 0, 0),
            c.tun.cidr.spec_prefix_len() == 16,
            c.dns.upstream@ == seq![
                Endpoint { ip: ipv4_from_octets(8, 8, 8, 8) as u32, port: 53 },
                Endpoint { ip: ipv4_from_octets(1, 1, 1, 1) as u32, port: 53 },
            ],
            c.dns.timeout.as_nanos() == 2 * 1_000_000_000,
            c.dns.listen_at == (Endpoint { ip: ipv4_from_octets(127, 0, 0, 1) as u32, port: 53 }),
            c.connect_retries == 2,
            c.connect_timeout.as_nanos() == 100 * 1_000_000,
            c.read_timeout.as_nanos() == 30 * 1_000_000_000,
            c.write_timeout.as_nanos() == 30 * 1_000_000_000,
            c.proxies == proxies,
            c.rules == rules,
    {
        Config {
            port: 0,
            tun: TunConfig::default(),
            dns: DNSConfig::default(),
            connect_retries: default_connect_retries(),
            connect_timeout: default_connect_timeout(),
            read_timeout: default_read_timeout(),
            write_timeout: default_write_timeout(),
            proxies,
            rules,
        }
    }

    /// How many times the egress is dialled at most: once, and once more
    /// for each retry.
    pub fn connect_attempts(&self) -> (n: u16)
        ensures
            n == self.connect_retries + 1,
    {
        self.connect_retries as u16 + 1
    }
}

} // verus!
