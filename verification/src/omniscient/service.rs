use crate::addr::SocketAddrV4;
use crate::gossiping::service::{
    add_token, is_listing, is_responsible, lookup, node_text, node_to_string, with_token,
};
use crate::omniscient::event::Event;
use crate::protocol::{
    entries_map, is_reply_table, lemma_join_step_others, merge_entries, registration_sends,
    take_registration, with_tokens, Outgoing, RegisterTokenMsg, TableMsg,
};
use std::collections::BTreeMap;
use vstd::prelude::*;

verus! {

/// The messages of the omniscient membership protocol.
pub enum OmniscientMsg {
    /// A peer's lookup table.
    LookupTableMsg(Vec<(u64, SocketAddrV4)>),
    /// A peer announces itself.
    RegisterTokenMsg(RegisterTokenMsg),
}


impl TableMsg for OmniscientMsg {
    open spec fn carries_table(&self, e: Seq<(u64, SocketAddrV4)>) -> bool {
        self matches OmniscientMsg::LookupTableMsg(v) && v@ == e
    }

    open spec fn carries_registration(&self, m: RegisterTokenMsg) -> bool {
        *self == OmniscientMsg::RegisterTokenMsg(m)
    }

    fn table_msg(e: Vec<(u64, SocketAddrV4)>) -> (r: Self) {
        OmniscientMsg::LookupTableMsg(e)
    }

    fn registration_msg(m: RegisterTokenMsg) -> (r: Self) {
        OmniscientMsg::RegisterTokenMsg(m)
    }
}

/// A node of the omniscient service: each node knows the application
/// address of every token of the ring, and the service address of every
/// peer that registered with it.
pub struct OmniscientService {
    pub id: String,
    pub token: u64,
    pub app_addr: SocketAddrV4,
    pub service_addr: SocketAddrV4,
    pub seed_addr: Option<SocketAddrV4>,
    pub lookup_table: BTreeMap<u64, SocketAddrV4>,
    pub service_addr_table: BTreeMap<u64, SocketAddrV4>,
}

/// Every node ends up knowing every other node, at the right address. A
/// node of this service keeps the entries of the others, not its own.
/// Suppose every node's lookup table is `ring` without its own entry, the
/// seed has an entry in `ring`, and the seed holds the service address of
/// every other node. A peer with a token new to the ring joins through the
/// seed; the seed answers it and passes the registration on (`handle_msg`),
/// and these messages arrive. Then the seed and every other node (each one
/// gets the passed-on registration, which the seed sends to every token it
/// holds but the joiner's) hold the ring with the joiner's entry added,
/// but their own; the joiner, starting from a table that agrees with the
/// ring (`new` gives an empty one), holds the whole old ring; and the seed
/// again holds the service address of every other node, ready for the next
/// join.
pub proof fn lemma_join_spreads(
    ring: Map<u64, SocketAddrV4>,
    seed: OmniscientService,
    members: Seq<OmniscientService>,
    msg: RegisterTokenMsg,
    joiner_table: Map<u64, SocketAddrV4>,
    reply: Seq<(u64, SocketAddrV4)>,
)
    requires
        msg.join_ind,
        ring.contains_key(seed.token),
        ring[seed.token] == seed.app_addr,
        !ring.contains_key(msg.token),
        seed.lookup_table@ == ring.remove(seed.token),
        forall|i: int| 0 <= i < members.len() ==> #[trigger] members[i].lookup_table@ == ring.remove(members[i].token),
        forall|i: int| 0 <= i < members.len() ==> #[trigger] members[i].token != msg.token,
        seed.service_addr_table@.dom() == ring.dom().remove(seed.token),
        joiner_table.submap_of(ring),
        is_reply_table(with_token(seed.lookup_table@, msg.token, msg.app_addr), msg.token, (seed.token, seed.app_addr), reply),
    ensures
        with_token(seed.lookup_table@, msg.token, msg.app_addr) == ring.insert(msg.token, msg.app_addr).remove(seed.token),
        forall|i: int| 0 <= i < members.len() ==> #[trigger] with_token(members[i].lookup_table@, msg.token, msg.app_addr)
            == ring.insert(msg.token, msg.app_addr).remove(members[i].token),
        with_tokens(joiner_table, reply) == ring,
        seed.service_addr_table@.remove(msg.token).dom() == ring.dom().remove(seed.token),
        with_token(seed.service_addr_table@, msg.token, msg.service_addr).dom() == ring.insert(msg.token, msg.app_addr).dom().remove(seed.token),
{
    let t = msg.token;
    let a = msg.app_addr;
    assert(ring.remove(seed.token).insert(t, a) =~= ring.insert(t, a).remove(seed.token));
    assert(with_token(ring.remove(seed.token), t, a) =~= ring.remove(seed.token).insert(t, a));
    lemma_join_step_others(ring, (seed.token, seed.app_addr), t, a, joiner_table, reply);
    assert forall|i: int| 0 <= i < members.len() implies #[trigger] with_token(members[i].lookup_table@, t, a)
        == ring.insert(t, a).remove(members[i].token) by {
        assert(with_token(ring.remove(members[i].token), t, a) == ring.insert(t, a).remove(members[i].token));
    }
    assert(seed.service_addr_table@.remove(t).dom() =~= ring.dom().remove(seed.token));
    assert(with_token(seed.service_addr_table@, t, msg.service_addr).dom() =~= ring.insert(t, a).dom().remove(seed.token));
}

impl OmniscientService {
    /// A node with empty tables.
    pub fn new(id: String, token: u64, app_addr: SocketAddrV4, service_addr: SocketAddrV4, seed_addr: Option<SocketAddrV4>) -> (r: Self)
        ensures
            r.id@ == id@,
            r.token == token,
            r.app_addr == app_addr,
            r.service_addr == service_addr,
            r.seed_addr == seed_addr,
            r.lookup_table@ == Map::<u64, SocketAddrV4>::empty(),
            r.service_addr_table@ == Map::<u64, SocketAddrV4>::empty(),
    {
        OmniscientService {
            id,
            token,
            app_addr,
            service_addr,
            seed_addr,
            lookup_table: BTreeMap::new(),
            service_addr_table: BTreeMap::new(),
        }
    }

    /// The join message to send when the node starts, if it has a seed.
    pub fn start(&self) -> (r: Option<Outgoing<OmniscientMsg>>)
        ensures
            match self.seed_addr {
                Some(seed) => r matches Some(o) && o.to == seed && o.msg == OmniscientMsg::RegisterTokenMsg(
                    RegisterTokenMsg {
                        token: self.token,
                        app_addr: self.app_addr,
                        service_addr: self.service_addr,
                        join_ind: true,
                    },
                ),
                None => r is None,
            },
    {
        match self.seed_addr {
            Some(seed) => Some(Outgoing::<OmniscientMsg> {
                to: seed,
                msg: OmniscientMsg::RegisterTokenMsg(RegisterTokenMsg {
                    token: self.token,
                    app_addr: self.app_addr,
                    service_addr: self.service_addr,
                    join_ind: true,
                }),
            }),
            None => None,
        }
    }

    /// Handles one message from a peer: gives the event for the
    /// application and the messages to send.
    pub fn handle_msg(&mut self, msg: OmniscientMsg) -> (r: (Event, Vec<Outgoing<OmniscientMsg>>))
        ensures
            final(self).id@ == old(self).id@,
            final(self).token == old(self).token,
            final(self).app_addr == old(self).app_addr,
            final(self).service_addr == old(self).service_addr,
            final(self).seed_addr == old(self).seed_addr,
            match msg {
                OmniscientMsg::LookupTableMsg(e) => {
                    &&& (r.0 matches Event::PeerTableMsgEvent(map) && map@ == entries_map(e@))
                    &&& r.1@.len() == 0
                    &&& final(self).lookup_table@ == with_tokens(old(self).lookup_table@, e@)
                    &&& final(self).service_addr_table@ == old(self).service_addr_table@
                },
                OmniscientMsg::RegisterTokenMsg(m) => {
                    &&& r.0 == Event::RegisterTokenMsgEvent(m.token, m.app_addr)
                    &&& final(self).lookup_table@ == with_token(old(self).lookup_table@, m.token, m.app_addr)
                    &&& final(self).service_addr_table@ == with_token(old(self).service_addr_table@, m.token, m.service_addr)
                    &&& registration_sends(old(self).lookup_table@, old(self).service_addr_table@, (old(self).token, old(self).app_addr), m, r.1@)
                },
            },
    {
        match msg {
            OmniscientMsg::LookupTableMsg(entries) => {
                let map = merge_entries(&mut self.lookup_table, &entries);
                (Event::PeerTableMsgEvent(map), Vec::new())
            },
            OmniscientMsg::RegisterTokenMsg(m) => {
                let sends = take_registration::<OmniscientMsg>(&mut self.lookup_table, &mut self.service_addr_table, self.token, self.app_addr, &m);
                (Event::RegisterTokenMsgEvent(m.token, m.app_addr), sends)
            },
        }
    }

    /// The application address of the node responsible for `token`.
    pub fn lookup(&self, token: u64) -> (res: Option<SocketAddrV4>)
        ensures
            res is None <==> self.lookup_table@.dom().is_empty(),
            res matches Some(a) ==> exists|k: u64|
                is_responsible(self.lookup_table@, token, k) && self.lookup_table@[k] == a,
    {
        lookup(&self.lookup_table, token)
    }

    /// Adds `token` to the lookup table unless it is already there; answers
    /// whether it was added.
    pub fn add_token(&mut self, token: u64, socket_addr: SocketAddrV4) -> (res: Result<bool, String>)
        ensures
            res == Ok::<bool, String>(!old(self).lookup_table@.contains_key(token)),
            final(self).lookup_table@ == with_token(old(self).lookup_table@, token, socket_addr),
            final(self).service_addr_table@ == old(self).service_addr_table@,
            final(self).id@ == old(self).id@,
            final(self).token == old(self).token,
            final(self).app_addr == old(self).app_addr,
            final(self).service_addr == old(self).service_addr,
            final(self).seed_addr == old(self).seed_addr,
    {
        add_token(&mut self.lookup_table, token, socket_addr)
    }

    /// Shows the node: id, token, then its lookup table.
    pub fn print_text(&self) -> (r: String)
        ensures
            node_text(self.id@, self.token, "----TOKEN TABLE----"@, self.lookup_table@, r@),
    {
        node_to_string(&self.id, self.token, "----TOKEN TABLE----", &self.lookup_table)
    }
}

} // verus!
