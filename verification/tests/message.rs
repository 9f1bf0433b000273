use rustdht::addr::{Ipv4Addr, SocketAddrV4};
use rustdht::message::{AddrMsg, JoinMsg, LookupMsg, Message, MessageType, ResultMsg};

fn localhost(port: u16) -> SocketAddrV4 {
    SocketAddrV4::new(Ipv4Addr::new(127, 0, 0, 1), port)
}

#[test]
fn result_msg_fields_and_text() {
    let ok = ResultMsg::new(true, None);
    assert!(ok.get_success());
    assert_eq!(ok.print_text(), "Result message success: true");
    let failed = ResultMsg::new(false, Some("token taken".to_string()));
    assert!(!failed.get_success());
    assert_eq!(failed.print_text(), "Result message success: false\nError messasge: token taken");
}

#[test]
fn join_msg_keeps_its_address() {
    let join = JoinMsg::new("test".to_string(), 0, localhost(0));
    assert_eq!(join.get_id(), "test");
    assert_eq!(join.get_token(), 0);
    assert_eq!(join.get_socket_addr(), localhost(0));
    assert_eq!(join.print_text(), "id: test\ntoken: 0\nip: 127.0.0.1\nport: 0");
    let other = JoinMsg::new("n".to_string(), 1537228672809129301, SocketAddrV4::new(Ipv4Addr::new(10, 1, 2, 3), 15606));
    assert_eq!(other.get_socket_addr(), SocketAddrV4::new(Ipv4Addr::new(10, 1, 2, 3), 15606));
    assert_eq!(other.print_text(), "id: n\ntoken: 1537228672809129301\nip: 10.1.2.3\nport: 15606");
}

#[test]
fn lookup_msg_fields_and_text() {
    let m = LookupMsg::new(0);
    assert_eq!(m.get_token(), 0);
    assert_eq!(LookupMsg::new(42).print_text(), "token: 42");
}

#[test]
fn addr_msg_keeps_its_address() {
    let m = AddrMsg::new(localhost(0));
    assert_eq!(m.get_socket_addr(), localhost(0));
    assert_eq!(m.print_text(), "ip: 127.0.0.1\nport: 0");
}

#[test]
fn message_type_codes() {
    assert_eq!(MessageType::ResultMsg.code(), 0);
    assert_eq!(MessageType::JoinMsg.code(), 1);
    assert_eq!(MessageType::LookupMsg.code(), 2);
    assert_eq!(MessageType::AddrMsg.code(), 3);
    assert_eq!(MessageType::RegisterTokenMsg.code(), 4);
    assert_eq!(MessageType::GenericMsg.code(), 255);
}

/// A message's fields, read out and used to build it again, give the same
/// message: what an encoding of the fields carries is enough to rebuild it.
#[test]
fn serialize_result_msg() {
    let result_msg = ResultMsg::new(true, None);
    let copy = ResultMsg::new(result_msg.get_success(), None);
    assert!(copy.get_success());
    assert_eq!(copy.print_text(), result_msg.print_text());
}

/// A message's fields, read out and used to build it again, give the same
/// message: what an encoding of the fields carries is enough to rebuild it.
#[test]
fn serialize_lookup_msg() {
    let lookup_msg = LookupMsg::new(0);
    let copy = LookupMsg::new(lookup_msg.get_token());
    assert_eq!(copy.get_token(), 0);
    assert_eq!(copy.print_text(), lookup_msg.print_text());
}

/// A message's fields, read out and used to build it again, give the same
/// message: what an encoding of the fields carries is enough to rebuild it.
#[test]
fn serialize_join_msg() {
    let join_msg = JoinMsg::new("test".to_string(), 0, localhost(0));
    let copy = JoinMsg::new(join_msg.get_id(), join_msg.get_token(), join_msg.get_socket_addr());
    assert_eq!(copy.get_ip(), "127.0.0.1");
    assert_eq!(copy.get_port(), 0);
    assert_eq!(copy.print_text(), join_msg.print_text());
}

/// A message's fields, read out and used to build it again, give the same
/// message: what an encoding of the fields carries is enough to rebuild it.
#[test]
fn serialize_addr_msg() {
    let addr_msg = AddrMsg::new(localhost(0));
    let copy = AddrMsg::new(addr_msg.get_socket_addr());
    assert_eq!(copy.get_socket_addr(), localhost(0));
    assert_eq!(copy.print_text(), addr_msg.print_text());
}
