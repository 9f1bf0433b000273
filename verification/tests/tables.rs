use rustdht::addr::{Ipv4Addr, SocketAddrV4};
use rustdht::gossiping::service::{add_token, entries_except, lookup};
use rustdht::protocol::{merge_entries, register_token, RegisterTokenMsg};
use std::collections::BTreeMap;

fn addr(last: u8, port: u16) -> SocketAddrV4 {
    SocketAddrV4::new(Ipv4Addr::new(127, 0, 0, last), port)
}

fn ring() -> BTreeMap<u64, SocketAddrV4> {
    let mut m = BTreeMap::new();
    m.insert(100, addr(1, 1000));
    m.insert(200, addr(2, 2000));
    m.insert(300, addr(3, 3000));
    m
}

#[test]
fn lookup_in_empty_table_is_none() {
    let m: BTreeMap<u64, SocketAddrV4> = BTreeMap::new();
    assert_eq!(lookup(&m, 5), None);
}

#[test]
fn lookup_below_first_token_is_first() {
    assert_eq!(lookup(&ring(), 0), Some(addr(1, 1000)));
    assert_eq!(lookup(&ring(), 99), Some(addr(1, 1000)));
}

#[test]
fn lookup_of_held_token_is_its_own_entry() {
    assert_eq!(lookup(&ring(), 100), Some(addr(1, 1000)));
    assert_eq!(lookup(&ring(), 200), Some(addr(2, 2000)));
    assert_eq!(lookup(&ring(), 300), Some(addr(3, 3000)));
}

#[test]
fn lookup_between_tokens_is_successor() {
    assert_eq!(lookup(&ring(), 101), Some(addr(2, 2000)));
    assert_eq!(lookup(&ring(), 250), Some(addr(3, 3000)));
}

#[test]
fn lookup_above_last_token_wraps_to_first() {
    assert_eq!(lookup(&ring(), 301), Some(addr(1, 1000)));
    assert_eq!(lookup(&ring(), u64::MAX), Some(addr(1, 1000)));
}

#[test]
fn lookup_with_one_entry_always_answers_it() {
    let mut m = BTreeMap::new();
    m.insert(50, addr(9, 9));
    assert_eq!(lookup(&m, 0), Some(addr(9, 9)));
    assert_eq!(lookup(&m, 50), Some(addr(9, 9)));
    assert_eq!(lookup(&m, 51), Some(addr(9, 9)));
}

#[test]
fn add_token_adds_only_new_tokens() {
    let mut m = BTreeMap::new();
    assert_eq!(add_token(&mut m, 7, addr(1, 1)), Ok(true));
    assert_eq!(add_token(&mut m, 7, addr(2, 2)), Ok(false));
    assert_eq!(m.len(), 1);
    assert_eq!(m[&7], addr(1, 1));
    assert_eq!(lookup(&m, 7), Some(addr(1, 1)));
}

#[test]
fn entries_except_lists_in_token_order() {
    let e = entries_except(&ring(), Some(200));
    assert_eq!(e, vec![(100, addr(1, 1000)), (300, addr(3, 3000))]);
    let all = entries_except(&ring(), None);
    assert_eq!(all.len(), 3);
    assert_eq!(all[1], (200, addr(2, 2000)));
}

#[test]
fn merge_entries_keeps_first_registration() {
    let mut m = ring();
    let entries = vec![(200, addr(9, 9)), (400, addr(4, 4000)), (400, addr(5, 5000))];
    let map = merge_entries(&mut m, &entries);
    assert_eq!(m[&200], addr(2, 2000));
    assert_eq!(m[&400], addr(4, 4000));
    assert_eq!(m.len(), 4);
    assert_eq!(map.len(), 2);
    assert_eq!(map[&200], addr(9, 9));
    assert_eq!(map[&400], addr(5, 5000));
}

#[test]
fn register_token_for_joining_peer() {
    let mut lookup_table = ring();
    let mut service_table = BTreeMap::new();
    service_table.insert(100, addr(1, 1100));
    service_table.insert(300, addr(3, 3100));
    let msg = RegisterTokenMsg { token: 250, app_addr: addr(7, 7000), service_addr: addr(7, 7100), join_ind: true };
    let reg = register_token(&mut lookup_table, &mut service_table, 999, addr(8, 8000), &msg);
    assert_eq!(lookup_table[&250], addr(7, 7000));
    assert_eq!(service_table[&250], addr(7, 7100));
    let (to, entries) = reg.reply.unwrap();
    assert_eq!(to, addr(7, 7100));
    assert_eq!(entries, vec![(100, addr(1, 1000)), (200, addr(2, 2000)), (300, addr(3, 3000)), (999, addr(8, 8000))]);
    assert_eq!(reg.forwards, vec![(100, addr(1, 1100)), (300, addr(3, 3100))]);
}

#[test]
fn register_token_without_join_sends_nothing() {
    let mut lookup_table = ring();
    let mut service_table = BTreeMap::new();
    let msg = RegisterTokenMsg { token: 100, app_addr: addr(7, 7000), service_addr: addr(7, 7100), join_ind: false };
    let reg = register_token(&mut lookup_table, &mut service_table, 999, addr(8, 8000), &msg);
    assert!(reg.reply.is_none());
    assert!(reg.forwards.is_empty());
    assert_eq!(lookup_table[&100], addr(1, 1000));
    assert_eq!(service_table[&100], addr(7, 7100));
}

#[test]
fn joining_node_takes_over_only_its_arc() {
    let before = ring();
    let mut after = ring();
    assert_eq!(add_token(&mut after, 150, addr(5, 1500)), Ok(true));
    for x in [0u64, 100, 101, 149, 150, 151, 200, 250, 300, 301, u64::MAX] {
        let expected = if x > 100 && x <= 150 { Some(addr(5, 1500)) } else { lookup(&before, x) };
        assert_eq!(lookup(&after, x), expected, "token {}", x);
    }
}

#[test]
fn joining_past_the_last_token_takes_over_the_wrap() {
    let before = ring();
    let mut after = ring();
    assert_eq!(add_token(&mut after, 400, addr(4, 4000)), Ok(true));
    for x in [0u64, 100, 250, 300, 301, 400, 401, u64::MAX] {
        let expected = if x > 300 && x <= 400 { Some(addr(4, 4000)) } else { lookup(&before, x) };
        assert_eq!(lookup(&after, x), expected, "token {}", x);
    }
    let mut low = ring();
    assert_eq!(add_token(&mut low, 5, addr(6, 600)), Ok(true));
    assert_eq!(lookup(&low, 301), Some(addr(6, 600)));
    assert_eq!(lookup(&low, 3), Some(addr(6, 600)));
    assert_eq!(lookup(&low, 6), Some(addr(1, 1000)));
}

#[test]
fn leaving_node_changes_only_its_tokens() {
    let before = ring();
    let mut after = ring();
    after.remove(&200);
    for x in [0u64, 100, 101, 200, 201, 300, 301] {
        let expected = if x > 100 && x <= 200 { Some(addr(3, 3000)) } else { lookup(&before, x) };
        assert_eq!(lookup(&after, x), expected, "token {}", x);
    }
}
