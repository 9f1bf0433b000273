use rustdht::addr::{Ipv4Addr, SocketAddrV4};
use rustdht::gossiping::service::{start, GossipMsg, GossipNode};
use rustdht::protocol::Outgoing;
use rustdht::message::{JoinMsg, LookupMsg, Message};
use rustdht::omniscient::service::{OmniscientMsg, OmniscientService};
use rustdht::message::ResultMsg;
use rustdht::service::omniscient::{join_answer_success, Event, JoinAnswer, OmniscientService as FirstOmniscientService, ServiceMsg};
use rustdht::gossiping::service::HEARTBEAT_PERIOD_MS;
use std::collections::BTreeMap;

fn app(i: u8) -> SocketAddrV4 {
    SocketAddrV4::new(Ipv4Addr::new(127, 0, 0, i), 15600)
}

fn svc(i: u8) -> SocketAddrV4 {
    SocketAddrV4::new(Ipv4Addr::new(127, 0, 0, i), 15700)
}

fn deliver_gossip(nodes: &mut Vec<GossipNode>, first: Outgoing<GossipMsg>) {
    let mut queue = vec![first];
    while let Some(o) = queue.pop() {
        let node = nodes.iter_mut().find(|n| n.service_addr == o.to).unwrap();
        let (_, sends) = node.handle_msg(o.msg);
        queue.extend(sends);
    }
}

#[test]
fn gossip_joins_through_seed_reach_every_node() {
    let tokens = [0u64, 1537228672809129301, 3074457345618258602, 4611686018427387903, 6148914691236517204];
    let (seed, none) = start(tokens[0], app(1), svc(1), None, BTreeMap::new());
    assert!(none.is_none());
    let mut nodes = vec![seed];
    for (i, t) in tokens.iter().enumerate().skip(1) {
        let (node, join) = start(*t, app(i as u8 + 1), svc(i as u8 + 1), Some(svc(1)), BTreeMap::new());
        nodes.push(node);
        deliver_gossip(&mut nodes, join.unwrap());
    }
    for node in nodes.iter() {
        assert_eq!(node.lookup_table.len(), tokens.len());
        for (i, t) in tokens.iter().enumerate() {
            assert_eq!(node.lookup_table[t], app(i as u8 + 1));
        }
    }
    assert_eq!(nodes[0].service_addr_table.len(), tokens.len() - 1);
}

fn deliver_omniscient(nodes: &mut Vec<OmniscientService>, first: Outgoing<OmniscientMsg>) {
    let mut queue = vec![first];
    while let Some(o) = queue.pop() {
        let node = nodes.iter_mut().find(|n| n.service_addr == o.to).unwrap();
        let (_, sends) = node.handle_msg(o.msg);
        queue.extend(sends);
    }
}

#[test]
fn omniscient_joins_through_seed_reach_every_other_node() {
    let tokens = [10u64, 20, 30, 40];
    let mut nodes = vec![OmniscientService::new("n1".to_string(), tokens[0], app(1), svc(1), None)];
    assert!(nodes[0].start().is_none());
    for (i, t) in tokens.iter().enumerate().skip(1) {
        let node = OmniscientService::new(format!("n{}", i + 1), *t, app(i as u8 + 1), svc(i as u8 + 1), Some(svc(1)));
        let join = node.start().unwrap();
        nodes.push(node);
        deliver_omniscient(&mut nodes, join);
    }
    for node in nodes.iter() {
        assert_eq!(node.lookup_table.len(), tokens.len() - 1);
        for (i, t) in tokens.iter().enumerate() {
            if *t != node.token {
                assert_eq!(node.lookup_table[t], app(i as u8 + 1));
            }
        }
    }
    match nodes[1].handle_msg(OmniscientMsg::LookupTableMsg(vec![])) {
        (rustdht::omniscient::event::Event::PeerTableMsgEvent(m), sends) => assert!(m.is_empty() && sends.is_empty()),
        _ => panic!("expected a peer table event"),
    }
}

#[test]
fn first_omniscient_service_events() {
    let mut s = FirstOmniscientService::new("seed".to_string(), 1, app(1), None);
    match s.handle_msg(ServiceMsg::JoinMsg(JoinMsg::new("peer".to_string(), 9, app(9)))) {
        (Event::JoinMsgEvent(id, t, ip, port), Some(answer)) => {
            assert_eq!((id.as_str(), t, ip.as_str(), port), ("peer", 9, "127.0.0.9", 15600));
            assert!(answer.get_success());
            assert_eq!(answer.print_text(), "Result message success: true\nError messasge: ");
        },
        _ => panic!("expected a join event and an answer"),
    }
    match s.handle_msg(ServiceMsg::JoinMsg(JoinMsg::new("again".to_string(), 9, app(8)))) {
        (Event::JoinMsgEvent(..), Some(answer)) => assert!(!answer.get_success()),
        _ => panic!("expected a join event and an answer"),
    }
    assert_eq!(s.lookup(9), Some(app(9)));
    match s.handle_msg(ServiceMsg::LookupMsg(LookupMsg::new(5))) {
        (Event::LookupMsgEvent(5), None) => {},
        _ => panic!("expected a lookup event"),
    }
    match s.handle_msg(ServiceMsg::GenericMsg(vec![1, 2, 3])) {
        (Event::GenericMsgEvent(d), None) => assert_eq!(d, vec![1, 2, 3]),
        _ => panic!("expected a generic event"),
    }
    assert_eq!(s.peer_table.len(), 1);
}

#[test]
fn join_answers() {
    assert_eq!(join_answer_success(&JoinAnswer::ResultMsg(ResultMsg::new(true, None))), Some(true));
    assert_eq!(join_answer_success(&JoinAnswer::ResultMsg(ResultMsg::new(false, Some(String::new())))), Some(false));
    assert_eq!(join_answer_success(&JoinAnswer::Other(ServiceMsg::LookupMsg(LookupMsg::new(3)))), None);
    assert_eq!(HEARTBEAT_PERIOD_MS, 2500);
}
