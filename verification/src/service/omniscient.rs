use crate::addr::{ipv4_text, SocketAddrV4};
use crate::gossiping::service::{add_token, is_responsible, lookup, node_text, node_to_string, with_token};
use crate::message::{JoinMsg, LookupMsg, ResultMsg};
use std::collections::BTreeMap;
use vstd::prelude::*;

verus! {

/// The messages a node of the first omniscient service takes in.
pub enum ServiceMsg {
    /// Application data for this node.
    GenericMsg(Vec<u8>),
    /// A peer asks to join.
    JoinMsg(JoinMsg),
    /// A peer asks for the node responsible for a token.
    LookupMsg(LookupMsg),
}

/// What the first omniscient service tells the application.
pub enum Event {
    /// Application data arrived with these bytes; the connection it came on
    /// stays with the caller.
    GenericMsgEvent(Vec<u8>),
    /// A peer joined: its id, token, address text and port.
    JoinMsgEvent(String, u64, String, u16),
    /// A peer asked for the node responsible for a token.
    LookupMsgEvent(u64),
}

/// What a seed may answer a join with: a result message, or some other
/// message of the service.
pub enum JoinAnswer {
    ResultMsg(ResultMsg),
    Other(ServiceMsg),
}

/// Reads the seed's answer to a join: whether the seed took the node in,
/// or `None` when the answer is not a result message, on which the node
/// gives up.
pub fn join_answer_success(answer: &JoinAnswer) -> (r: Option<bool>)
    ensures
        match answer {
            JoinAnswer::ResultMsg(m) => r == Some(m.spec_success()),
            JoinAnswer::Other(_) => r is None,
        },
{
    match answer {
        JoinAnswer::ResultMsg(m) => Some(m.get_success()),
        JoinAnswer::Other(_) => None,
    }
}

/// A node of the first omniscient service: peers join through a seed with
/// a join message, and every node keeps a table from token to the address
/// its owner listens on.
pub struct OmniscientService {
    pub id: String,
    pub token: u64,
    pub listen_addr: SocketAddrV4,
    pub seed_addr: Option<SocketAddrV4>,
    pub peer_table: BTreeMap<u64, SocketAddrV4>,
}

impl OmniscientService {
    /// A node with an empty peer table.
    pub fn new(id: String, token: u64, listen_addr: SocketAddrV4, seed_addr: Option<SocketAddrV4>) -> (r: Self)
        ensures
            r.id@ == id@,
            r.token == token,
            r.listen_addr == listen_addr,
            r.seed_addr == seed_addr,
            r.peer_table@ == Map::<u64, SocketAddrV4>::empty(),
    {
        OmniscientService { id, token, listen_addr, seed_addr, peer_table: BTreeMap::new() }
    }

    /// The join message to send to the seed when the node starts, if it has one.
    pub fn start(&self) -> (r: Option<(SocketAddrV4, JoinMsg)>)
        ensures
            match self.seed_addr {
                Some(seed) => r matches Some((to, m)) && to == seed && m.spec_id() == self.id@
                    && m.spec_token() == self.token && m.spec_ip() == ipv4_text(self.listen_addr.ip)
                    && m.spec_port() == self.listen_addr.port && m.spec_socket_addr() == self.listen_addr,
                None => r is None,
            },
    {
        match self.seed_addr {
            Some(seed) => Some((seed, JoinMsg::new(self.id.clone(), self.token, self.listen_addr))),
            None => None,
        }
    }

    /// Takes in a peer's join message: the peer's address is added to the
    /// peer table unless its token is known; the answer says whether it was.
    pub fn handle_join_msg(&mut self, msg: &JoinMsg) -> (r: ResultMsg)
        ensures
            final(self).peer_table@ == with_token(old(self).peer_table@, msg.spec_token(), msg.spec_socket_addr()),
            r.spec_success() == !old(self).peer_table@.contains_key(msg.spec_token()),
            r.spec_error() == Some(Seq::<char>::empty()),
            final(self).id@ == old(self).id@,
            final(self).token == old(self).token,
            final(self).listen_addr == old(self).listen_addr,
            final(self).seed_addr == old(self).seed_addr,
    {
        let addr = msg.get_socket_addr();
        let added = match add_token(&mut self.peer_table, msg.get_token(), addr) {
            Ok(b) => b,
            Err(_) => false,
        };
        ResultMsg::new(added, Some(String::new()))
    }

    /// Handles one message from a peer: gives the event for the application
    /// and, for a join, the answer to send back on the same connection.
    pub fn handle_msg(&mut self, msg: ServiceMsg) -> (r: (Event, Option<ResultMsg>))
        ensures
            final(self).id@ == old(self).id@,
            final(self).token == old(self).token,
            final(self).listen_addr == old(self).listen_addr,
            final(self).seed_addr == old(self).seed_addr,
            match msg {
                ServiceMsg::GenericMsg(data) => {
                    &&& (r.0 matches Event::GenericMsgEvent(d) && d@ == data@)
                    &&& r.1 is None
                    &&& final(self).peer_table@ == old(self).peer_table@
                },
                ServiceMsg::JoinMsg(j) => {
                    &&& (r.0 matches Event::JoinMsgEvent(id, t, ip, port) && id@ == j.spec_id()
                        && t == j.spec_token() && ip@ == j.spec_ip() && port == j.spec_port())
                    &&& (r.1 matches Some(res) && res.spec_success() == !old(self).peer_table@.contains_key(j.spec_token())
                        && res.spec_error() == Some(Seq::<char>::empty()))
                    &&& final(self).peer_table@ == with_token(old(self).peer_table@, j.spec_token(), j.spec_socket_addr())
                },
                ServiceMsg::LookupMsg(l) => {
                    &&& r.0 == Event::LookupMsgEvent(l.spec_token())
                    &&& r.1 is None
                    &&& final(self).peer_table@ == old(self).peer_table@
                },
            },
    {
        match msg {
            ServiceMsg::GenericMsg(data) => (Event::GenericMsgEvent(data), None),
            ServiceMsg::JoinMsg(j) => {
                let event = Event::JoinMsgEvent(j.get_id(), j.get_token(), j.get_ip(), j.get_port());
                let answer = self.handle_join_msg(&j);
                (event, Some(answer))
            },
            ServiceMsg::LookupMsg(l) => (Event::LookupMsgEvent(l.get_token()), None),
        }
    }

    /// The address of the node responsible for `token`.
    pub fn lookup(&self, token: u64) -> (res: Option<SocketAddrV4>)
        ensures
            res is None <==> self.peer_table@.dom().is_empty(),
            res matches Some(a) ==> exists|k: u64|
                is_responsible(self.peer_table@, token, k) && self.peer_table@[k] == a,
    {
        lookup(&self.peer_table, token)
    }

    /// Adds `token` to the peer table unless it is already there; answers
    /// whether it was added.
    pub fn add_token(&mut self, token: u64, socket_addr: SocketAddrV4) -> (res: Result<bool, String>)
        ensures
            res == Ok::<bool, String>(!old(self).peer_table@.contains_key(token)),
            final(self).peer_table@ == with_token(old(self).peer_table@, token, socket_addr),
            final(self).id@ == old(self).id@,
            final(self).token == old(self).token,
            final(self).listen_addr == old(self).listen_addr,
            final(self).seed_addr == old(self).seed_addr,
    {
        add_token(&mut self.peer_table, token, socket_addr)
    }

    /// Shows the node: id, token, then its peer table.
    pub fn print_text(&self) -> (r: String)
        ensures
            node_text(self.id@, self.token, "----TOKEN TABLE----"@, self.peer_table@, r@),
    {
        node_to_string(&self.id, self.token, "----TOKEN TABLE----", &self.peer_table)
    }
}

} // verus!
