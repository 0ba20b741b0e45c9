use sazanami::ip_pool::{IPv4Pool, PoolError};
use sazanami::net::{ipv4, octets, parse_ipv4, Ipv4Cidr};

fn block(text: &str) -> Ipv4Cidr {
    Ipv4Cidr::parse(text).unwrap()
}

#[test]
fn addresses_are_numbers_with_the_first_byte_highest() {
    assert_eq!(ipv4(10, 0, 0, 1), 0x0a00_0001);
    assert_eq!(octets(0x0a00_0001), [10, 0, 0, 1]);
    assert_eq!(ipv4(255, 255, 255, 255), u32::MAX);
    assert_eq!(octets(0xc0a8_01fe), [192, 168, 1, 254]);
}

#[test]
fn addresses_are_read_from_text() {
    assert_eq!(parse_ipv4("10.0.0.1"), Some(ipv4(10, 0, 0, 1)));
    assert_eq!(parse_ipv4("0.0.0.0"), Some(0));
    assert_eq!(parse_ipv4("255.255.255.255"), Some(u32::MAX));
    assert_eq!(parse_ipv4("256.0.0.1"), None);
    assert_eq!(parse_ipv4("10.0.0"), None);
    assert_eq!(parse_ipv4("10.0.0.1.2"), None);
    assert_eq!(parse_ipv4("10..0.1"), None);
    assert_eq!(parse_ipv4("10.0.0.01"), None);
    assert_eq!(parse_ipv4("10.0.0.a"), None);
    assert_eq!(parse_ipv4(""), None);
}

#[test]
fn blocks_are_read_from_text() {
    let c = block("10.0.0.0/16");
    assert_eq!(c.address(), ipv4(10, 0, 0, 0));
    assert_eq!(c.prefix_len(), 16);
    assert_eq!(c.network(), ipv4(10, 0, 0, 0));
    assert_eq!(c.broadcast(), ipv4(10, 0, 255, 255));
    assert_eq!(c.len(), 65536);
    assert_eq!(Ipv4Cidr::parse("10.0.0.0/33"), None);
    assert_eq!(Ipv4Cidr::parse("10.0.0.0"), None);
    assert_eq!(Ipv4Cidr::parse("10.0.0.0/"), None);
    assert_eq!(Ipv4Cidr::parse("10.0.0.0/08"), None);
    assert_eq!(Ipv4Cidr::parse("10.0.0/8"), None);
    assert_eq!(Ipv4Cidr::parse("10.0.0.0/8/8"), None);
}

#[test]
fn a_block_keeps_the_address_it_was_written_with() {
    let c = block("192.168.7.9/24");
    assert_eq!(c.address(), ipv4(192, 168, 7, 9));
    assert_eq!(c.network(), ipv4(192, 168, 7, 0));
    assert_eq!(c.broadcast(), ipv4(192, 168, 7, 255));
    assert!(c.contains(ipv4(192, 168, 7, 0)));
    assert!(c.contains(ipv4(192, 168, 7, 255)));
    assert!(!c.contains(ipv4(192, 168, 8, 0)));
    assert!(!c.contains(ipv4(192, 168, 6, 255)));
}

#[test]
fn the_widest_and_the_narrowest_block() {
    let all = block("1.2.3.4/0");
    assert_eq!(all.network(), 0);
    assert_eq!(all.broadcast(), u32::MAX);
    assert_eq!(all.len(), 1u64 << 32);
    let one = block("1.2.3.4/32");
    assert_eq!(one.network(), ipv4(1, 2, 3, 4));
    assert_eq!(one.broadcast(), ipv4(1, 2, 3, 4));
    assert_eq!(one.len(), 1);
    assert_eq!(Ipv4Cidr::new(0, 33), None);
    assert_eq!(Ipv4Cidr::new(7, 32).unwrap().address(), 7);
}

#[test]
fn addresses_come_in_ascending_order_without_the_gateway() {
    let mut pool = IPv4Pool::new(block("10.0.0.0/29"), ipv4(10, 0, 0, 1));
    assert_eq!(pool.acquire(), Ok(ipv4(10, 0, 0, 2)));
    assert_eq!(pool.acquire(), Ok(ipv4(10, 0, 0, 3)));
    assert_eq!(pool.acquire(), Ok(ipv4(10, 0, 0, 4)));
    assert_eq!(pool.acquire(), Ok(ipv4(10, 0, 0, 5)));
    assert_eq!(pool.acquire(), Ok(ipv4(10, 0, 0, 6)));
    assert_eq!(pool.acquire(), Err(PoolError::Exhausted));
    assert_eq!(pool.held_count(), 5);
}

#[test]
fn the_lowest_and_the_highest_address_are_never_handed_out() {
    let mut pool = IPv4Pool::new(block("10.0.0.0/30"), ipv4(10, 0, 1, 1));
    assert_eq!(pool.acquire(), Ok(ipv4(10, 0, 0, 1)));
    assert_eq!(pool.acquire(), Ok(ipv4(10, 0, 0, 2)));
    assert_eq!(pool.acquire(), Err(PoolError::Exhausted));
    assert!(!pool.is_held(ipv4(10, 0, 0, 0)));
    assert!(!pool.is_held(ipv4(10, 0, 0, 3)));
}

#[test]
fn addresses_that_end_in_0_or_255_are_passed_over() {
    let mut pool = IPv4Pool::new(block("10.0.0.0/22"), ipv4(10, 0, 0, 1));
    for last in 2..=254u8 {
        assert_eq!(pool.acquire(), Ok(ipv4(10, 0, 0, last)));
    }
    assert_eq!(pool.acquire(), Ok(ipv4(10, 0, 1, 1)));
    for last in 2..=254u8 {
        assert_eq!(pool.acquire(), Ok(ipv4(10, 0, 1, last)));
    }
    assert_eq!(pool.acquire(), Ok(ipv4(10, 0, 2, 1)));
    assert_eq!(pool.held_count(), 253 + 254 + 1);
    assert!(!pool.release(ipv4(10, 0, 0, 255)));
    assert!(!pool.release(ipv4(10, 0, 1, 0)));
}

#[test]
fn a_block_of_one_or_two_addresses_has_nothing_to_hand_out() {
    let mut two = IPv4Pool::new(block("10.0.0.0/31"), ipv4(10, 0, 1, 1));
    assert_eq!(two.acquire(), Err(PoolError::Exhausted));
    let mut one = IPv4Pool::new(block("10.0.0.0/32"), ipv4(10, 0, 1, 1));
    assert_eq!(one.acquire(), Err(PoolError::Exhausted));
}

#[test]
fn the_search_goes_on_behind_the_last_address_and_wraps() {
    let mut pool = IPv4Pool::new(block("10.0.0.0/29"), ipv4(10, 0, 0, 1));
    let a = pool.acquire().unwrap();
    let b = pool.acquire().unwrap();
    assert!(pool.release(a));
    // the freed address is behind the cursor: the next one in order comes first
    assert_eq!(pool.acquire(), Ok(ipv4(10, 0, 0, 4)));
    assert_eq!(pool.acquire(), Ok(ipv4(10, 0, 0, 5)));
    assert_eq!(pool.acquire(), Ok(ipv4(10, 0, 0, 6)));
    // wrapped
    assert_eq!(pool.acquire(), Ok(a));
    assert_eq!(pool.acquire(), Err(PoolError::Exhausted));
    assert!(pool.is_held(b));
}

#[test]
fn giving_back_what_is_not_held_changes_nothing() {
    let mut pool = IPv4Pool::new(block("10.0.0.0/29"), ipv4(10, 0, 0, 1));
    let a = pool.acquire().unwrap();
    assert!(!pool.release(ipv4(10, 0, 0, 5)));
    assert!(!pool.release(ipv4(192, 168, 0, 1)));
    assert!(pool.release(a));
    assert!(!pool.release(a));
    assert_eq!(pool.held_count(), 0);
    assert_eq!(pool.acquire(), Ok(ipv4(10, 0, 0, 3)));
}

#[test]
fn held_addresses_are_usable_and_distinct() {
    let gateway = ipv4(10, 0, 0, 9);
    let cidr = block("10.0.0.0/28");
    let mut pool = IPv4Pool::new(cidr, gateway);
    let mut held: Vec<u32> = Vec::new();
    for round in 0..200u32 {
        if round % 3 == 2 && !held.is_empty() {
            let a = held.remove((round as usize * 7) % held.len());
            assert!(pool.release(a));
        } else if let Ok(a) = pool.acquire() {
            assert!(!held.contains(&a));
            held.push(a);
        }
        for a in held.iter() {
            assert!(cidr.contains(*a));
            assert_ne!(*a, gateway);
            assert_ne!(*a, cidr.network());
            assert_ne!(*a, cidr.broadcast());
            assert!(*a % 256 != 0 && *a % 256 != 255);
            assert!(pool.is_held(*a));
        }
        assert_eq!(pool.held_count(), held.len());
    }
}
