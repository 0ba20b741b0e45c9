use sazanami::config::{Address, Config, DNSConfig, ServerConfig, ServerProtocol, TunConfig};
use sazanami::dns::build_address_reply;
use sazanami::duration::{parse_duration, Duration};
use sazanami::fake_dns::{DnsAction, FakeDNS};
use sazanami::net::{ipv4, Ipv4Cidr};
use sazanami::packet::{Endpoint, Protocol};
use sazanami::proxy::{choose_server, plan, CloseReason, Plan, Target};
use sazanami::rules::{Action, ProxyRules, Rule};
use sazanami::session::{FlowKey, SessionManager};
use sazanami::storage::DomainIPAssociation;

fn server(name: &str) -> ServerConfig {
    ServerConfig::new(
        name.to_string(),
        ServerProtocol::ShadowSocks,
        Address::new("tokyo01.sakurawind.com", 11451),
        Some("chacha20-ietf".to_string()),
        Some("correct horse".to_string()),
        true,
    )
}

fn rules(lines: &[&str]) -> ProxyRules {
    let lines: Vec<String> = lines.iter().map(|l| l.to_string()).collect();
    ProxyRules::compile(&lines).unwrap()
}

fn store() -> DomainIPAssociation {
    DomainIPAssociation::new(Ipv4Cidr::parse("10.0.0.0/16").unwrap(), ipv4(10, 0, 0, 1))
}

fn tcp(port: u16) -> FlowKey {
    FlowKey { protocol: Protocol::Tcp, port }
}

fn query(name: &str) -> Vec<u8> {
    let mut m = vec![0, 1, 1, 0, 0, 1, 0, 0, 0, 0, 0, 0];
    for label in name.split('.') {
        m.push(label.len() as u8);
        m.extend_from_slice(label.as_bytes());
    }
    m.extend_from_slice(&[0, 0, 1, 0, 1]);
    m
}

#[test]
fn test_load_config() {
    let port: u16 = 9000;
    let tun = TunConfig {
        name: "sazanami-tun".to_string(),
        ip: ipv4(10, 0, 0, 1),
        cidr: Ipv4Cidr::parse("10.0.0.0/16").unwrap(),
    };
    let dns = DNSConfig {
        upstream: vec![
            Endpoint { ip: ipv4(8, 8, 8, 8), port: 53 },
            Endpoint { ip: ipv4(1, 1, 1, 1), port: 53 },
        ],
        timeout: parse_duration("2s").unwrap(),
        listen_at: Endpoint { ip: ipv4(0, 0, 0, 0), port: 53 },
    };
    let proxies = vec![ServerConfig::new(
        "Tokyo Sakura IPLC 01".to_string(),
        ServerProtocol::parse("ss").unwrap(),
        Address::new("tokyo01.sakurawind.com", 11451),
        Some("chacha20-ietf".to_string()),
        Some("All-hail-chatgpt".to_string()),
        true,
    )];
    let rules = rules(&[
        "DOMAIN,clash.razord.top,DIRECT",
        "DOMAIN,yacd.haishan.me,DIRECT",
        "DOMAIN-SUFFIX,office365.com,DIRECT",
        "MATCH,PROXY",
    ]);
    let mut config = Config::new(proxies, rules);
    config.port = port;
    config.tun = tun;
    config.dns = dns;
    config.connect_timeout = parse_duration("2s").unwrap();
    config.read_timeout = parse_duration("5s").unwrap();
    config.write_timeout = parse_duration("1000ms").unwrap();

    assert_eq!(config.port, 9000);
    assert_eq!(config.tun.name, "sazanami-tun".to_string());
    assert_eq!(config.tun.ip, ipv4(10, 0, 0, 1));
    assert_eq!(config.tun.cidr, Ipv4Cidr::new(ipv4(10, 0, 0, 0), 16).unwrap());
    assert_eq!(config.dns.upstream.len(), 2);
    assert_eq!(config.dns.upstream[0], Endpoint { ip: ipv4(8, 8, 8, 8), port: 53 });
    assert_eq!(config.dns.upstream[1], Endpoint { ip: ipv4(1, 1, 1, 1), port: 53 });
    assert_eq!(config.dns.timeout, Duration::from_secs(2));
    assert_eq!(config.dns.listen_at, Endpoint { ip: ipv4(0, 0, 0, 0), port: 53 });
    assert_eq!(config.connect_timeout, Duration::from_secs(2));
    assert_eq!(config.read_timeout, Duration::from_secs(5));
    assert_eq!(config.write_timeout, Duration::from_millis(1000));
    assert_eq!(config.proxies.len(), 1);
    assert_eq!(config.proxies[0].name(), "Tokyo Sakura IPLC 01".to_string());
    assert_eq!(config.proxies[0].protocol(), ServerProtocol::ShadowSocks);
    assert_eq!(
        config.proxies[0].addr(),
        Address::DomainNameAddress("tokyo01.sakurawind.com".to_string(), 11451),
    );
    assert_eq!(config.proxies[0].method().unwrap(), "chacha20-ietf".to_string());
    assert_eq!(config.proxies[0].password().unwrap(), "All-hail-chatgpt".to_string());
    assert_eq!(config.proxies[0].support_udp(), true);
    assert_eq!(config.rules.len(), 4);
    assert_eq!(
        config.rules.classify(Some("login.office365.com"), None, 443),
        Ok(Action::Direct)
    );
    assert_eq!(
        config.rules.classify(Some("example.com"), None, 443),
        Ok(Action::Proxy("PROXY".to_string()))
    );
}

#[test]
fn what_a_file_leaves_out_has_its_default() {
    let config = Config::new(Vec::new(), ProxyRules::new(Vec::new()).unwrap());
    assert_eq!(config.port, 0);
    assert_eq!(config.tun, TunConfig::default());
    assert_eq!(config.tun.name, "sazanami-tun");
    assert_eq!(config.tun.ip, ipv4(10, 0, 0, 1));
    assert_eq!(config.tun.cidr, Ipv4Cidr::parse("10.0.0.0/16").unwrap());
    assert_eq!(config.dns, DNSConfig::default());
    assert_eq!(
        config.dns.upstream,
        vec![
            Endpoint { ip: ipv4(8, 8, 8, 8), port: 53 },
            Endpoint { ip: ipv4(1, 1, 1, 1), port: 53 }
        ]
    );
    assert_eq!(config.dns.timeout.as_millis(), 2000);
    assert_eq!(config.dns.listen_at, Endpoint { ip: ipv4(127, 0, 0, 1), port: 53 });
    assert_eq!(config.connect_timeout.as_millis(), 100);
    assert_eq!(config.connect_retries, 2);
    assert_eq!(config.connect_attempts(), 3);
    assert_eq!(config.read_timeout.as_millis(), 30_000);
    assert_eq!(config.write_timeout.as_millis(), 30_000);
}

#[test]
fn a_server_is_reached_at_an_address_or_a_name() {
    assert_eq!(
        Address::new("192.168.1.2", 8388),
        Address::SocketAddress(Endpoint { ip: ipv4(192, 168, 1, 2), port: 8388 })
    );
    assert_eq!(
        Address::new("192.168.1.256", 8388),
        Address::DomainNameAddress("192.168.1.256".to_string(), 8388)
    );
    let a = Address::new("example.com", 1);
    assert_eq!(a.duplicate(), a);
    assert_eq!(ServerProtocol::parse("ss"), Some(ServerProtocol::ShadowSocks));
    assert_eq!(ServerProtocol::parse("socks5"), None);
    assert_eq!(ServerProtocol::parse(""), None);
    let s = ServerConfig::new("n".to_string(), ServerProtocol::ShadowSocks, a, None, None, false);
    assert_eq!(s.method(), None);
    assert_eq!(s.password(), None);
    assert!(!s.support_udp());
}

#[test]
fn the_server_of_an_action_is_found_by_name() {
    let servers = vec![server("Tokyo"), server("Osaka"), server("Tokyo")];
    assert_eq!(choose_server(&servers, "Tokyo"), Some(0));
    assert_eq!(choose_server(&servers, "Osaka"), Some(1));
    assert_eq!(choose_server(&servers, "PROXY"), Some(0));
    assert_eq!(choose_server(&servers, "Kyoto"), None);
    assert_eq!(choose_server(&Vec::new(), "PROXY"), None);
    let named = vec![server("Tokyo"), server("PROXY")];
    assert_eq!(choose_server(&named, "PROXY"), Some(1));
}

#[test]
fn a_domain_goes_through_the_proxy() {
    let rules = rules(&["DOMAIN-SUFFIX,example.com,PROXY", "MATCH,DIRECT"]);
    let servers = vec![server("P")];
    let dns = FakeDNS::new(2, Vec::new());
    let mut store = store();
    let mut sessions = SessionManager::new(60_000, 4_000);
    let q = query("a.example.com");
    let reply = dns.handle_query(&q, &mut store, 0);
    let x = store.lookup_ip("a.example.com").unwrap();
    assert!(Ipv4Cidr::parse("10.0.0.0/16").unwrap().contains(x));
    assert_eq!(reply, DnsAction::Respond(build_address_reply(&q, q.len(), x, 2)));
    sessions.upsert(tcp(40000), Endpoint { ip: x, port: 443 }, 10);
    assert_eq!(
        plan(40000, &sessions, &store, &rules, &servers),
        Plan::Tunnel { server: 0, target: Target::Domain("a.example.com".to_string()), port: 443 }
    );
}

#[test]
fn another_domain_goes_out_directly() {
    let rules = rules(&["DOMAIN-SUFFIX,example.com,PROXY", "MATCH,DIRECT"]);
    let servers = vec![server("P")];
    let dns = FakeDNS::new(2, Vec::new());
    let mut store = store();
    let mut sessions = SessionManager::new(60_000, 4_000);
    dns.handle_query(&query("foo.org"), &mut store, 0);
    let y = store.lookup_ip("foo.org").unwrap();
    sessions.upsert(tcp(40001), Endpoint { ip: y, port: 80 }, 10);
    assert_eq!(
        plan(40001, &sessions, &store, &rules, &servers),
        Plan::Direct { target: Target::Domain("foo.org".to_string()), port: 80 }
    );
}

#[test]
fn without_a_domain_the_address_itself_is_the_target() {
    let rules = rules(&["IP-CIDR,10.0.9.0/24,REJECT", "DOMAIN,a.com,REJECT"]);
    let store = store();
    let mut sessions = SessionManager::new(60_000, 4_000);
    sessions.upsert(tcp(1), Endpoint { ip: ipv4(10, 0, 9, 9), port: 22 }, 0);
    sessions.upsert(tcp(2), Endpoint { ip: ipv4(10, 0, 8, 8), port: 22 }, 0);
    assert_eq!(plan(1, &sessions, &store, &rules, &Vec::new()), Plan::Close(CloseReason::Rejected));
    // no rule matches: the connection goes out directly
    assert_eq!(
        plan(2, &sessions, &store, &rules, &Vec::new()),
        Plan::Direct { target: Target::Ip(ipv4(10, 0, 8, 8)), port: 22 }
    );
}

#[test]
fn a_connection_without_a_flow_is_closed() {
    let rules = rules(&["MATCH,DIRECT"]);
    let store = store();
    let mut sessions = SessionManager::new(60_000, 4_000);
    sessions.upsert(
        FlowKey { protocol: Protocol::Udp, port: 5 },
        Endpoint { ip: ipv4(10, 0, 9, 9), port: 53 },
        0,
    );
    assert_eq!(
        plan(5, &sessions, &store, &rules, &Vec::new()),
        Plan::Close(CloseReason::SessionMissing)
    );
}

#[test]
fn a_rule_that_names_no_server_closes_the_connection() {
    let rules = vec![Rule::Match(Action::Proxy("Kyoto".to_string()))];
    let rules = ProxyRules::new(rules).unwrap();
    let store = store();
    let mut sessions = SessionManager::new(60_000, 4_000);
    sessions.upsert(tcp(9), Endpoint { ip: ipv4(10, 0, 9, 9), port: 443 }, 0);
    assert_eq!(
        plan(9, &sessions, &store, &rules, &vec![server("Tokyo")]),
        Plan::Close(CloseReason::UnknownProxy)
    );
    assert_eq!(
        plan(9, &sessions, &store, &rules, &vec![server("Tokyo"), server("Kyoto")]),
        Plan::Tunnel { server: 1, target: Target::Ip(ipv4(10, 0, 9, 9)), port: 443 }
    );
}
