use rustdht::addr::{Ipv4Addr, SocketAddrV4};
use rustdht::chord::service::ChordNode;
use rustdht::event::Event;
use rustdht::gossiping::service::{start, GossipMsg};
use rustdht::message::JoinMsg;
use rustdht::omniscient::event::Event as OmniscientEvent;
use rustdht::omniscient::service::{OmniscientMsg, OmniscientService};
use rustdht::protocol::RegisterTokenMsg;
use rustdht::service::omniscient::OmniscientService as FirstOmniscientService;
use std::collections::BTreeMap;

fn addr(last: u8, port: u16) -> SocketAddrV4 {
    SocketAddrV4::new(Ipv4Addr::new(127, 0, 0, last), port)
}

#[test]
fn gossip_start_enters_itself_and_joins_seed() {
    let (node, join) = start(10, addr(1, 1000), addr(1, 1100), Some(addr(9, 9100)), BTreeMap::new());
    assert_eq!(node.lookup_table.len(), 1);
    assert_eq!(node.lookup_table[&10], addr(1, 1000));
    assert!(node.service_addr_table.is_empty());
    let join = join.unwrap();
    assert_eq!(join.to, addr(9, 9100));
    match join.msg {
        GossipMsg::RegisterTokenMsg(m) => {
            assert_eq!(m, RegisterTokenMsg { token: 10, app_addr: addr(1, 1000), service_addr: addr(1, 1100), join_ind: true });
        },
        _ => panic!("expected a register message"),
    }
    let (_, none) = start(10, addr(1, 1000), addr(1, 1100), None, BTreeMap::new());
    assert!(none.is_none());
}

#[test]
fn gossip_register_join_answers_and_forwards() {
    let (mut node, _) = start(10, addr(1, 1000), addr(1, 1100), None, BTreeMap::new());
    let first = RegisterTokenMsg { token: 20, app_addr: addr(2, 2000), service_addr: addr(2, 2100), join_ind: true };
    let (event, sends) = node.handle_msg(GossipMsg::RegisterTokenMsg(first));
    match event {
        Some(Event::RegisterNodeEvent(t, a)) => {
            assert_eq!(t, 20);
            assert_eq!(a, addr(2, 2000));
        },
        _ => panic!("expected a register event"),
    }
    assert_eq!(sends.len(), 1);
    assert_eq!(sends[0].to, addr(2, 2100));
    match &sends[0].msg {
        GossipMsg::LookupTableMsg(e) => assert_eq!(e, &vec![(10, addr(1, 1000)), (10, addr(1, 1000))]),
        _ => panic!("expected a lookup table"),
    }
    let second = RegisterTokenMsg { token: 30, app_addr: addr(3, 3000), service_addr: addr(3, 3100), join_ind: true };
    let (_, sends) = node.handle_msg(GossipMsg::RegisterTokenMsg(second));
    assert_eq!(sends.len(), 2);
    match &sends[0].msg {
        GossipMsg::LookupTableMsg(e) => assert_eq!(e, &vec![(10, addr(1, 1000)), (20, addr(2, 2000)), (10, addr(1, 1000))]),
        _ => panic!("expected a lookup table"),
    }
    assert_eq!(sends[1].to, addr(2, 2100));
    match &sends[1].msg {
        GossipMsg::RegisterTokenMsg(m) => assert_eq!(*m, RegisterTokenMsg { join_ind: false, ..second }),
        _ => panic!("expected a forwarded registration"),
    }
    assert_eq!(node.service_addr_table.len(), 2);
    assert_eq!(node.lookup_table.len(), 3);
}

#[test]
fn gossip_heartbeat_and_removal() {
    let (mut node, _) = start(10, addr(1, 1000), addr(1, 1100), None, BTreeMap::new());
    for (t, l) in [(30u64, 3u8), (20, 2)] {
        let m = RegisterTokenMsg { token: t, app_addr: addr(l, 1), service_addr: addr(l, 2), join_ind: false };
        let (_, sends) = node.handle_msg(GossipMsg::RegisterTokenMsg(m));
        assert!(sends.is_empty());
    }
    let (event, sends) = node.handle_msg(GossipMsg::HeartbeatMsg);
    assert!(event.is_none() && sends.is_empty());
    assert_eq!(node.heartbeat_targets(), vec![(20, addr(2, 2)), (30, addr(3, 2))]);
    let events = node.remove_nodes(&vec![(20, addr(2, 2))]);
    assert_eq!(events.len(), 1);
    match events[0] {
        Event::RemoveNodeEvent(t, a) => {
            assert_eq!(t, 20);
            assert_eq!(a, addr(2, 2));
        },
        _ => panic!("expected a removal"),
    }
    assert!(!node.lookup_table.contains_key(&20));
    assert!(!node.service_addr_table.contains_key(&20));
    assert_eq!(node.heartbeat_targets(), vec![(30, addr(3, 2))]);
}

#[test]
fn gossip_lookup_table_message_merges() {
    let (mut node, _) = start(10, addr(1, 1000), addr(1, 1100), None, BTreeMap::new());
    let (event, _) = node.handle_msg(GossipMsg::LookupTableMsg(vec![(10, addr(5, 5)), (40, addr(4, 4))]));
    match event {
        Some(Event::LookupTableMsgEvent(map)) => assert_eq!(map.len(), 2),
        _ => panic!("expected a lookup table event"),
    }
    assert_eq!(node.lookup_table[&10], addr(1, 1000));
    assert_eq!(node.lookup_table[&40], addr(4, 4));
}

#[test]
fn omniscient_service_protocol() {
    let mut s = OmniscientService::new("a".to_string(), 5, addr(1, 1000), addr(1, 1100), Some(addr(9, 9)));
    let join = s.start().unwrap();
    assert_eq!(join.to, addr(9, 9));
    let m = RegisterTokenMsg { token: 7, app_addr: addr(7, 7000), service_addr: addr(7, 7100), join_ind: true };
    let (event, sends) = s.handle_msg(OmniscientMsg::RegisterTokenMsg(m));
    match event {
        OmniscientEvent::RegisterTokenMsgEvent(t, a) => assert_eq!((t, a), (7, addr(7, 7000))),
        _ => panic!("expected a register event"),
    }
    assert_eq!(sends.len(), 1);
    match &sends[0].msg {
        OmniscientMsg::LookupTableMsg(e) => assert_eq!(e, &vec![(5, addr(1, 1000))]),
        _ => panic!("expected a lookup table"),
    }
    assert_eq!(s.lookup(0), Some(addr(7, 7000)));
    assert_eq!(s.add_token(3, addr(3, 3)), Ok(true));
    assert_eq!(s.add_token(3, addr(4, 4)), Ok(false));
    assert_eq!(s.lookup(0), Some(addr(3, 3)));
    assert_eq!(s.lookup(8), Some(addr(3, 3)));
    let (event, _) = s.handle_msg(OmniscientMsg::LookupTableMsg(vec![(9, addr(9, 90))]));
    match event {
        OmniscientEvent::PeerTableMsgEvent(map) => assert_eq!(map[&9], addr(9, 90)),
        _ => panic!("expected a peer table event"),
    }
    assert_eq!(s.lookup(8), Some(addr(9, 90)));
}

#[test]
fn first_omniscient_service_takes_joins() {
    let mut s = FirstOmniscientService::new("seed".to_string(), 1, addr(1, 1000), None);
    assert!(s.start().is_none());
    let join = JoinMsg::new("peer".to_string(), 9, addr(9, 9000));
    let r = s.handle_join_msg(&join);
    assert!(r.get_success());
    let again = s.handle_join_msg(&JoinMsg::new("other".to_string(), 9, addr(8, 8000)));
    assert!(!again.get_success());
    assert_eq!(s.lookup(5), Some(addr(9, 9000)));
    assert_eq!(s.print_text(), "ID:seed\ntoken:1\n----TOKEN TABLE----\n\t9: 127.0.0.9:9000");
    let joining = FirstOmniscientService::new("n".to_string(), 2, addr(2, 2000), Some(addr(1, 1000)));
    let (to, m) = joining.start().unwrap();
    assert_eq!(to, addr(1, 1000));
    assert_eq!(m.get_socket_addr(), addr(2, 2000));
    assert_eq!(m.get_id(), "n");
}

#[test]
fn chord_node_lookup_and_table() {
    let mut n = ChordNode::new("c".to_string(), 100, "127.0.0.1", 4000);
    assert_eq!(n.listen_addr, addr(1, 4000));
    assert_eq!(n.lookup(5), None);
    assert_eq!(n.add_token(200, addr(2, 2)), Ok(()));
    assert_eq!(n.add_token(200, addr(3, 3)), Ok(()));
    assert_eq!(n.lookup(150), Some(addr(3, 3)));
    n.pred = Some((50, addr(5, 5)));
    n.succ = Some((300, addr(6, 6)));
    assert_eq!(n.lookup(60), Some(addr(1, 4000)));
    assert_eq!(n.lookup(100), Some(addr(1, 4000)));
    assert_eq!(n.lookup(250), Some(addr(6, 6)));
    assert_eq!(n.lookup(400), Some(addr(3, 3)));
    assert_eq!(n.print_text(), "ID:c\ntoken:100\n----FINGER TABLE----\n\t200: 127.0.0.3:3");
}
