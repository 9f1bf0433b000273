use crate::addr::{ipv4_text, parse_ipv4, Ipv4Addr, SocketAddrV4};
use crate::gossiping::service::{is_responsible, lemma_u64_keys_ordered, lookup, node_text, node_to_string};
use std::collections::BTreeMap;
use vstd::prelude::*;

verus! {

/// A node of a Chord ring: its token and address, its predecessor and
/// successor on the ring when known, and a finger table from token to
/// address.
#[derive(Clone)]
pub struct ChordNode {
    pub id: String,
    pub token: u64,
    pub listen_addr: SocketAddrV4,
    pub pred: Option<(u64, SocketAddrV4)>,
    pub succ: Option<(u64, SocketAddrV4)>,
    pub finger_table: BTreeMap<u64, SocketAddrV4>,
}

/// `token` falls between the predecessor and the node: the node owns it.
pub open spec fn owned_by_node(node: ChordNode, token: u64) -> bool {
    node.pred matches Some((p, _)) && p < token && token <= node.token
}

/// `token` falls between the node and its successor: the successor owns it.
pub open spec fn owned_by_successor(node: ChordNode, token: u64) -> bool {
    node.succ matches Some((s, _)) && node.token < token && token <= s
}

/// The node owns exactly the tokens after its predecessor up to its own.
pub proof fn lemma_owned_by_node_exact(node: ChordNode, token: u64)
    ensures
        owned_by_node(node, token) <==> exists|p: u64, pa: SocketAddrV4| node.pred == Some((p, pa)) && p < token
            && token <= node.token,
{
    if owned_by_node(node, token) {
        let (p, pa) = node.pred->0;
        assert(node.pred == Some((p, pa)));
    }
}

/// The successor owns exactly the tokens after the node up to the
/// successor's.
pub proof fn lemma_owned_by_successor_exact(node: ChordNode, token: u64)
    ensures
        owned_by_successor(node, token) <==> exists|s: u64, sa: SocketAddrV4| node.succ == Some((s, sa))
            && node.token < token && token <= s,
{
    if owned_by_successor(node, token) {
        let (s, sa) = node.succ->0;
        assert(node.succ == Some((s, sa)));
    }
}

impl ChordNode {
    /// A node listening on `listen_ip` (dotted-decimal) and `listen_port`,
    /// with no neighbours and an empty finger table.
    pub fn new(id: String, token: u64, listen_ip: &str, listen_port: u16) -> (r: Self)
        requires
            exists|ip: Ipv4Addr| listen_ip@ == ipv4_text(ip),
        ensures
            r.id@ == id@,
            r.token == token,
            ipv4_text(r.listen_addr.ip) == listen_ip@,
            r.listen_addr.port == listen_port,
            r.pred is None,
            r.succ is None,
            r.finger_table@ == Map::<u64, SocketAddrV4>::empty(),
    {
        let ip = match parse_ipv4(listen_ip) {
            Some(ip) => ip,
            // the precondition makes the text parse, so this arm is never taken
            None => Ipv4Addr { a: 0, b: 0, c: 0, d: 0 },
        };
        ChordNode {
            id,
            token,
            listen_addr: SocketAddrV4::new(ip, listen_port),
            pred: None,
            succ: None,
            finger_table: BTreeMap::new(),
        }
    }

    /// The address of the node responsible for `token`: this node when the
    /// token lies after its predecessor, the successor when it lies after
    /// this node, otherwise the responsible entry of the finger table.
    pub fn lookup(&self, token: u64) -> (res: Option<SocketAddrV4>)
        ensures
            owned_by_node(*self, token) ==> res == Some(self.listen_addr),
            !owned_by_node(*self, token) && owned_by_successor(*self, token) ==> res == Some((self.succ->0).1),
            !owned_by_node(*self, token) && !owned_by_successor(*self, token) ==> {
                &&& (res is None <==> self.finger_table@.dom().is_empty())
                &&& (res matches Some(a) ==> exists|k: u64|
                    is_responsible(self.finger_table@, token, k) && self.finger_table@[k] == a)
            },
            // A token outside (predecessor, node] is not the node's own: the
            // successor or the finger table answers it.
            self.pred is Some && (token <= (self.pred->0).0 || self.token < token) ==> {
                &&& (self.succ is Some && self.token < token && token <= (self.succ->0).0 ==> res == Some((self.succ->0).1))
                &&& (!(self.succ is Some && self.token < token && token <= (self.succ->0).0) ==> {
                    &&& (res is None <==> self.finger_table@.dom().is_empty())
                    &&& (res matches Some(a) ==> exists|k: u64|
                        is_responsible(self.finger_table@, token, k) && self.finger_table@[k] == a)
                })
            },
            // A token in (predecessor, node] is the node's own.
            self.pred is Some && (self.pred->0).0 < token && token <= self.token ==> res == Some(self.listen_addr),
    {
        match self.pred {
            Some((pred_token, _)) => {
                if token > pred_token && token <= self.token {
                    return Some(self.listen_addr);
                }
            },
            None => {},
        }
        match self.succ {
            Some((succ_token, socket_addr)) => {
                if token > self.token && token <= succ_token {
                    return Some(socket_addr);
                }
            },
            None => {},
        }
        lookup(&self.finger_table, token)
    }

    /// Sets the finger table's entry for `token` to `socket_addr`,
    /// replacing any earlier one. It never fails.
    pub fn add_token(&mut self, token: u64, socket_addr: SocketAddrV4) -> (res: Result<(), String>)
        ensures
            res is Ok,
            final(self).finger_table@ == old(self).finger_table@.insert(token, socket_addr),
            final(self).id@ == old(self).id@,
            final(self).token == old(self).token,
            final(self).listen_addr == old(self).listen_addr,
            final(self).pred == old(self).pred,
            final(self).succ == old(self).succ,
    {
        proof { lemma_u64_keys_ordered(); }
        self.finger_table.insert(token, socket_addr);
        Ok(())
    }

    /// Shows the node: id, token, then its finger table.
    pub fn print_text(&self) -> (r: String)
        ensures
            node_text(self.id@, self.token, "----FINGER TABLE----"@, self.finger_table@, r@),
    {
        node_to_string(&self.id, self.token, "----FINGER TABLE----", &self.finger_table)
    }
}

} // verus!
