use sazanami::ip_pool::PoolError;
use sazanami::net::{ipv4, Ipv4Cidr};
use sazanami::packet::{Endpoint, Protocol};
use sazanami::session::{FlowKey, SessionManager};
use sazanami::storage::DomainIPAssociation;

fn store(block: &str, gateway: u32) -> DomainIPAssociation {
    DomainIPAssociation::new(Ipv4Cidr::parse(block).unwrap(), gateway)
}

#[test]
fn a_domain_gets_an_address_and_keeps_it_while_it_is_live() {
    let mut s = store("10.0.0.0/16", ipv4(10, 0, 0, 1));
    let a = s.insert_or_refresh("example.com", 2000, 0).unwrap();
    assert_eq!(a, ipv4(10, 0, 0, 2));
    assert_eq!(s.insert_or_refresh("example.com", 2000, 1999), Ok(a));
    assert_eq!(s.insert_or_refresh("example.com", 2000, 3998), Ok(a));
    assert_eq!(s.len(), 1);
    assert_eq!(s.pool().held_count(), 1);
    let b = s.insert_or_refresh("foo.org", 2000, 4000).unwrap();
    assert_eq!(b, ipv4(10, 0, 0, 3));
    assert_eq!(s.len(), 2);
}

#[test]
fn the_two_lookups_are_inverse() {
    let mut s = store("10.0.0.0/24", ipv4(10, 0, 0, 1));
    let names = ["a.com", "b.com", "c.org", "d.net", "a.com", "e.io", "b.com"];
    for (i, name) in names.iter().enumerate() {
        s.insert_or_refresh(name, 50, i as u64 * 10).unwrap();
        if i == 4 {
            s.gc(25);
        }
        for known in names.iter() {
            if let Some(ip) = s.lookup_ip(known) {
                assert_eq!(s.lookup_domain(ip), Some(known.to_string()));
            }
        }
        for ip in ipv4(10, 0, 0, 0)..=ipv4(10, 0, 0, 20) {
            if let Some(d) = s.lookup_domain(ip) {
                assert_eq!(s.lookup_ip(&d), Some(ip));
            }
        }
    }
    assert_eq!(s.lookup_ip("never.asked"), None);
    assert_eq!(s.lookup_domain(ipv4(10, 0, 0, 200)), None);
}

#[test]
fn a_refresh_extends_the_lease() {
    let mut s = store("10.0.0.0/24", ipv4(10, 0, 0, 1));
    let a = s.insert_or_refresh("a.com", 1000, 0).unwrap();
    assert_eq!(s.insert_or_refresh("a.com", 1000, 900), Ok(a));
    assert_eq!(s.gc(1000), 0);
    assert_eq!(s.gc(1899), 0);
    assert_eq!(s.lookup_ip("a.com"), Some(a));
    assert_eq!(s.gc(1900), 1);
    assert_eq!(s.lookup_ip("a.com"), None);
    assert_eq!(s.lookup_domain(a), None);
    assert_eq!(s.pool().held_count(), 0);
}

#[test]
fn a_lease_left_over_is_replaced() {
    let mut s = store("10.0.0.0/24", ipv4(10, 0, 0, 1));
    let a = s.insert_or_refresh("a.com", 1000, 0).unwrap();
    // expired at 1000 and not collected: asked again, the domain gets the next address
    let b = s.insert_or_refresh("a.com", 1000, 1000).unwrap();
    assert_eq!(a, ipv4(10, 0, 0, 2));
    assert_eq!(b, ipv4(10, 0, 0, 3));
    assert_eq!(s.lookup_ip("a.com"), Some(b));
    assert_eq!(s.lookup_domain(a), None);
    assert_eq!(s.lookup_domain(b), Some("a.com".to_string()));
    assert_eq!(s.len(), 1);
    assert!(!s.pool().is_held(a));
    assert!(s.pool().is_held(b));
}

#[test]
fn addresses_come_back_when_leases_are_collected() {
    let gateway = ipv4(10, 0, 1, 1);
    let mut s = store("10.0.0.0/30", gateway);
    assert_eq!(s.insert_or_refresh("one.com", 1000, 0), Ok(ipv4(10, 0, 0, 1)));
    assert_eq!(s.gc(1500), 1);
    assert_eq!(s.insert_or_refresh("two.com", 1000, 2000), Ok(ipv4(10, 0, 0, 2)));
    assert_eq!(s.gc(3500), 1);
    assert_eq!(s.insert_or_refresh("three.com", 1000, 4000), Ok(ipv4(10, 0, 0, 1)));
    assert_eq!(s.len(), 1);
}

#[test]
fn without_time_between_them_the_third_domain_finds_the_pool_exhausted() {
    let gateway = ipv4(10, 0, 1, 1);
    let mut s = store("10.0.0.0/30", gateway);
    assert!(s.insert_or_refresh("one.com", 1000, 0).is_ok());
    assert!(s.insert_or_refresh("two.com", 1000, 0).is_ok());
    assert_eq!(s.insert_or_refresh("three.com", 1000, 0), Err(PoolError::Exhausted));
    assert_eq!(s.len(), 2);
    assert_eq!(s.lookup_ip("three.com"), None);
    // nothing is collected before the leases expire
    assert_eq!(s.gc(999), 0);
    assert_eq!(s.insert_or_refresh("three.com", 1000, 999), Err(PoolError::Exhausted));
}

#[test]
fn a_later_collection_removes_what_an_earlier_one_removes() {
    let build = || {
        let mut s = store("10.0.0.0/24", ipv4(10, 0, 0, 1));
        for (i, name) in ["a", "b", "c", "d", "e", "f"].iter().enumerate() {
            s.insert_or_refresh(name, 100 * (i as u64 + 1), 0).unwrap();
        }
        s
    };
    let mut early = build();
    assert_eq!(early.gc(250), 2);
    let mut late = build();
    assert_eq!(late.gc(450), 4);
    for name in ["a", "b", "c", "d", "e", "f"] {
        if early.lookup_ip(name).is_none() {
            assert!(late.lookup_ip(name).is_none());
        }
    }
    // collecting early and then late leaves what collecting late alone leaves
    assert_eq!(early.gc(450), 2);
    for name in ["a", "b", "c", "d", "e", "f"] {
        assert_eq!(early.lookup_ip(name), late.lookup_ip(name));
    }
    assert_eq!(early.pool().held_count(), late.pool().held_count());
}

#[test]
fn a_lease_never_runs_past_the_last_instant() {
    let mut s = store("10.0.0.0/24", ipv4(10, 0, 0, 1));
    let a = s.insert_or_refresh("a.com", u64::MAX, u64::MAX - 5).unwrap();
    assert_eq!(s.gc(u64::MAX - 1), 0);
    assert_eq!(s.lookup_ip("a.com"), Some(a));
    assert_eq!(s.gc(u64::MAX), 1);
}

#[test]
fn a_collection_spares_the_addresses_that_flows_still_use() {
    let mut s = store("10.0.0.0/24", ipv4(10, 0, 0, 1));
    let a = s.insert_or_refresh("a.com", 1000, 0).unwrap();
    let b = s.insert_or_refresh("b.com", 1000, 0).unwrap();
    let c = s.insert_or_refresh("c.com", 5000, 0).unwrap();
    let mut flows = SessionManager::new(60_000, 4_000);
    assert!(flows.destinations().is_empty());
    flows.upsert(FlowKey { protocol: Protocol::Tcp, port: 40000 }, Endpoint { ip: a, port: 443 }, 10);
    flows.upsert(FlowKey { protocol: Protocol::Udp, port: 40000 }, Endpoint { ip: a, port: 53 }, 10);
    flows.upsert(FlowKey { protocol: Protocol::Udp, port: 65535 }, Endpoint { ip: 7, port: 53 }, 10);
    let used = flows.destinations();
    assert_eq!(used.len(), 2);
    assert!(used.contains(&a) && used.contains(&7));
    assert_eq!(s.gc_keeping(2000, &used), 1);
    assert_eq!(s.lookup_ip("a.com"), Some(a));
    assert_eq!(s.lookup_ip("b.com"), None);
    assert_eq!(s.lookup_ip("c.com"), Some(c));
    assert!(s.pool().is_held(a));
    assert!(!s.pool().is_held(b));
    // the flows are gone: the lease goes with the next collection
    flows.remove(FlowKey { protocol: Protocol::Tcp, port: 40000 });
    flows.remove(FlowKey { protocol: Protocol::Udp, port: 40000 });
    assert_eq!(s.gc_keeping(2000, &flows.destinations()), 1);
    assert_eq!(s.lookup_ip("a.com"), None);
    assert_eq!(s.len(), 1);
}
