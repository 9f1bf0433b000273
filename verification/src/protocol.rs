//! How a node's two tables change when peers announce themselves: the
//! lookup table (token to application address) and the service address
//! table (token to the address of the peer's membership service).

use crate::addr::SocketAddrV4;
use crate::gossiping::service::{add_token, entries_except, is_listing, lemma_u64_keys_ordered, with_token};
use std::collections::BTreeMap;
use vstd::prelude::*;

verus! {

/// A peer announces its token and addresses; `join_ind` is set when the
/// peer is joining through this node.
#[derive(Clone, Copy, Debug, PartialEq, Eq, Structural)]
pub struct RegisterTokenMsg {
    pub token: u64,
    pub app_addr: SocketAddrV4,
    pub service_addr: SocketAddrV4,
    pub join_ind: bool,
}

/// A service's message type, as far as registrations are concerned: it can
/// carry a lookup table and a registration.
pub trait TableMsg: Sized {
    /// The message carries the lookup table `e`.
    spec fn carries_table(&self, e: Seq<(u64, SocketAddrV4)>) -> bool;

    /// The message carries the registration `m`.
    spec fn carries_registration(&self, m: RegisterTokenMsg) -> bool;

    fn table_msg(e: Vec<(u64, SocketAddrV4)>) -> (r: Self)
        ensures
            r.carries_table(e@),
    ;

    fn registration_msg(m: RegisterTokenMsg) -> (r: Self)
        ensures
            r.carries_registration(m),
    ;
}

/// A message to send, and the service address to send it to.
pub struct Outgoing<M> {
    pub to: SocketAddrV4,
    pub msg: M,
}

/// What a node sends when it has taken in a registration.
pub struct Registration {
    /// To a joining peer: where to send the lookup table, and its entries.
    pub reply: Option<(SocketAddrV4, Vec<(u64, SocketAddrV4)>)>,
    /// To a joining peer: the service addresses (with their tokens) of the
    /// peers that are to hear of it.
    pub forwards: Vec<(u64, SocketAddrV4)>,
}

/// The table after each entry of `e` is offered in turn, the first entry of
/// a token winning.
pub open spec fn with_tokens(m: Map<u64, SocketAddrV4>, e: Seq<(u64, SocketAddrV4)>) -> Map<u64, SocketAddrV4>
    decreases e.len(),
{
    if e.len() == 0 {
        m
    } else {
        with_token(with_tokens(m, e.drop_last()), e.last().0, e.last().1)
    }
}

/// The map of the entries `e`, the last entry of a token winning.
pub open spec fn entries_map(e: Seq<(u64, SocketAddrV4)>) -> Map<u64, SocketAddrV4>
    decreases e.len(),
{
    if e.len() == 0 {
        Map::empty()
    } else {
        entries_map(e.drop_last()).insert(e.last().0, e.last().1)
    }
}

/// In the map of entries, a token's address is the one of its last entry.
pub proof fn lemma_entries_map_last_wins(e: Seq<(u64, SocketAddrV4)>, j: int)
    requires
        0 <= j < e.len(),
        forall|l: int| j < l < e.len() ==> #[trigger] e[l].0 != e[j].0,
    ensures
        entries_map(e).contains_key(e[j].0),
        entries_map(e)[e[j].0] == e[j].1,
    decreases e.len(),
{
    if j < e.len() - 1 {
        let d = e.drop_last();
        assert forall|l: int| j < l < d.len() implies #[trigger] d[l].0 != d[j].0 by {
            assert(d[l] == e[l]);
        }
        lemma_entries_map_last_wins(d, j);
        assert(e[e.len() - 1].0 != e[j].0);
    }
}

/// The map of entries holds exactly the tokens of the entries.
pub proof fn lemma_entries_map_tokens(e: Seq<(u64, SocketAddrV4)>, k: u64)
    ensures
        entries_map(e).contains_key(k) <==> exists|j: int| 0 <= j < e.len() && e[j].0 == k,
    decreases e.len(),
{
    if e.len() > 0 {
        let d = e.drop_last();
        lemma_entries_map_tokens(d, k);
        if exists|j: int| 0 <= j < d.len() && d[j].0 == k {
            let j = choose|j: int| 0 <= j < d.len() && d[j].0 == k;
            assert(e[j] == d[j]);
        }
        if exists|j: int| 0 <= j < e.len() && e[j].0 == k {
            let j = choose|j: int| 0 <= j < e.len() && e[j].0 == k;
            if j < e.len() - 1 {
                assert(d[j] == e[j]);
            }
        }
    }
}

/// Taking in a peer's lookup table gives a new token the address of its
/// first entry.
pub proof fn lemma_with_tokens_first_wins(m: Map<u64, SocketAddrV4>, e: Seq<(u64, SocketAddrV4)>, j: int)
    requires
        0 <= j < e.len(),
        !m.contains_key(e[j].0),
        forall|l: int| 0 <= l < j ==> #[trigger] e[l].0 != e[j].0,
    ensures
        with_tokens(m, e).contains_key(e[j].0),
        with_tokens(m, e)[e[j].0] == e[j].1,
    decreases e.len(),
{
    let d = e.drop_last();
    if j < e.len() - 1 {
        assert forall|l: int| 0 <= l < j implies #[trigger] d[l].0 != d[j].0 by {
            assert(d[l] == e[l]);
        }
        lemma_with_tokens_first_wins(m, d, j);
    } else {
        lemma_with_tokens_keeps(m, d);
        if with_tokens(m, d).contains_key(e[j].0) {
            let l = choose|l: int| 0 <= l < d.len() && d[l].0 == e[j].0;
            assert(e[l] == d[l]);
        }
    }
}

/// Taking in a peer's lookup table keeps every entry the node had, and
/// leaves every token of the peer's table known.
pub proof fn lemma_with_tokens_keeps(m: Map<u64, SocketAddrV4>, e: Seq<(u64, SocketAddrV4)>)
    ensures
        forall|k: u64| #[trigger] m.contains_key(k) ==> with_tokens(m, e).contains_key(k) && with_tokens(m, e)[k] == m[k],
        forall|j: int| 0 <= j < e.len() ==> with_tokens(m, e).contains_key(#[trigger] e[j].0),
        forall|k: u64| #[trigger] with_tokens(m, e).contains_key(k) ==> m.contains_key(k)
            || exists|j: int| 0 <= j < e.len() && e[j].0 == k,
    decreases e.len(),
{
    if e.len() > 0 {
        let d = e.drop_last();
        lemma_with_tokens_keeps(m, d);
        let w = with_tokens(m, d);
        assert(with_tokens(m, e) == with_token(w, e.last().0, e.last().1));
        assert forall|j: int| 0 <= j < e.len() implies with_tokens(m, e).contains_key(#[trigger] e[j].0) by {
            if j < e.len() - 1 {
                assert(e[j] == d[j]);
            }
        }
        assert forall|k: u64| #[trigger] with_tokens(m, e).contains_key(k) implies m.contains_key(k)
            || exists|j: int| 0 <= j < e.len() && e[j].0 == k by {
            if w.contains_key(k) && !m.contains_key(k) {
                let j = choose|j: int| 0 <= j < d.len() && d[j].0 == k;
                assert(e[j] == d[j]);
            }
            if !w.contains_key(k) {
                assert(e[e.len() - 1].0 == k);
            }
        }
    }
}

/// The tokens a joining peer knows after it takes in the reply to its join:
/// those it knew, those the answering node knew but its own, and the
/// answering node's token.
pub proof fn lemma_reply_tokens(
    joiner_table: Map<u64, SocketAddrV4>,
    known: Map<u64, SocketAddrV4>,
    joining: u64,
    own: (u64, SocketAddrV4),
    reply: Seq<(u64, SocketAddrV4)>,
)
    requires
        is_reply_table(known, joining, own, reply),
    ensures
        with_tokens(joiner_table, reply).dom() == joiner_table.dom() + known.dom().remove(joining).insert(own.0),
{
    lemma_with_tokens_keeps(joiner_table, reply);
    let d = reply.drop_last();
    let r = with_tokens(joiner_table, reply);
    let want = joiner_table.dom() + known.dom().remove(joining).insert(own.0);
    assert forall|k: u64| r.contains_key(k) <==> want.contains(k) by {
        if r.contains_key(k) && !joiner_table.contains_key(k) {
            let j = choose|j: int| 0 <= j < reply.len() && reply[j].0 == k;
            if j < reply.len() - 1 {
                assert(d[j].0 == k);
            }
        }
        if want.contains(k) {
            if k == own.0 {
                assert(reply[reply.len() - 1].0 == k);
            } else if !joiner_table.contains_key(k) {
                assert(known.remove(joining).contains_key(k));
                let a = choose|a: int| 0 <= a < d.len() && d[a].0 == k;
                assert(reply[a].0 == k);
            }
        }
    }
    assert(r.dom() =~= want);
}

/// Taking in entries that all agree with `truth`, into a table that agrees
/// with `truth`, leaves a table that agrees with `truth`: first-wins merging
/// never puts a wrong address in.
pub proof fn lemma_with_tokens_agree(m: Map<u64, SocketAddrV4>, e: Seq<(u64, SocketAddrV4)>, truth: Map<u64, SocketAddrV4>)
    requires
        m.submap_of(truth),
        forall|j: int| 0 <= j < e.len() ==> truth.contains_key(#[trigger] e[j].0) && truth[e[j].0] == e[j].1,
    ensures
        with_tokens(m, e).submap_of(truth),
    decreases e.len(),
{
    if e.len() > 0 {
        let d = e.drop_last();
        assert forall|j: int| 0 <= j < d.len() implies truth.contains_key(#[trigger] d[j].0) && truth[d[j].0] == d[j].1 by {
            assert(d[j] == e[j]);
        }
        lemma_with_tokens_agree(m, d, truth);
        let w = with_tokens(m, d);
        let last = e[e.len() - 1];
        assert(truth.contains_key(last.0) && truth[last.0] == last.1);
        assert(with_tokens(m, e) == with_token(w, last.0, last.1));
        assert forall|k: u64| #[trigger] with_tokens(m, e).contains_key(k) implies truth.contains_key(k)
            && with_tokens(m, e)[k] == truth[k] by {
            if k != last.0 || w.contains_key(k) {
                assert(w.contains_key(k));
            }
        }
    }
}

/// One join through a seed, on tables that agree with one map. Every node
/// holds `ring`, in which the seed has its own entry and the joiner's token
/// `t` is new; the joiner starts from a table that agrees with the new ring
/// and holds `t`. After the seed's reply and the passed-on registration
/// arrive, every node and the joiner hold the new ring, addresses included.
pub proof fn lemma_join_step(
    ring: Map<u64, SocketAddrV4>,
    seed: (u64, SocketAddrV4),
    t: u64,
    a: SocketAddrV4,
    joiner_table: Map<u64, SocketAddrV4>,
    reply: Seq<(u64, SocketAddrV4)>,
)
    requires
        ring.contains_key(seed.0),
        ring[seed.0] == seed.1,
        !ring.contains_key(t),
        joiner_table.contains_key(t),
        joiner_table.submap_of(ring.insert(t, a)),
        is_reply_table(ring.insert(t, a), t, seed, reply),
    ensures
        with_token(ring, t, a) == ring.insert(t, a),
        with_tokens(joiner_table, reply) == ring.insert(t, a),
{
    let u = ring.insert(t, a);
    lemma_reply_tokens(joiner_table, u, t, seed, reply);
    let d = reply.drop_last();
    assert forall|j: int| 0 <= j < reply.len() implies u.contains_key(#[trigger] reply[j].0) && u[reply[j].0] == reply[j].1 by {
        if j < reply.len() - 1 {
            assert(reply[j] == d[j]);
        }
    }
    lemma_with_tokens_agree(joiner_table, reply, u);
    assert(joiner_table.dom() + u.dom().remove(t).insert(seed.0) =~= u.dom());
    assert(with_tokens(joiner_table, reply) =~= u);
}

/// One join through a seed, where each node holds every entry of `ring` but
/// its own (the omniscient service). The seed has an entry in `ring`, the
/// joiner's token `t` is new, and the joiner starts from a table that
/// agrees with `ring`. After the seed's reply and the passed-on
/// registration arrive, a node with token `x` holds the new ring but its
/// own entry, and the joiner holds the whole old ring.
pub proof fn lemma_join_step_others(
    ring: Map<u64, SocketAddrV4>,
    seed: (u64, SocketAddrV4),
    t: u64,
    a: SocketAddrV4,
    joiner_table: Map<u64, SocketAddrV4>,
    reply: Seq<(u64, SocketAddrV4)>,
)
    requires
        ring.contains_key(seed.0),
        ring[seed.0] == seed.1,
        !ring.contains_key(t),
        joiner_table.submap_of(ring),
        is_reply_table(ring.remove(seed.0).insert(t, a), t, seed, reply),
    ensures
        forall|x: u64| x != t ==> #[trigger] with_token(ring.remove(x), t, a) == ring.insert(t, a).remove(x),
        with_tokens(joiner_table, reply) == ring,
{
    assert forall|x: u64| x != t implies #[trigger] with_token(ring.remove(x), t, a) == ring.insert(t, a).remove(x) by {
        assert(with_token(ring.remove(x), t, a) =~= ring.insert(t, a).remove(x));
    }
    let known = ring.remove(seed.0).insert(t, a);
    lemma_reply_tokens(joiner_table, known, t, seed, reply);
    let d = reply.drop_last();
    assert forall|j: int| 0 <= j < reply.len() implies ring.contains_key(#[trigger] reply[j].0) && ring[reply[j].0] == reply[j].1 by {
        if j < reply.len() - 1 {
            assert(reply[j] == d[j]);
            assert(known.remove(t).contains_key(d[j].0));
        }
    }
    lemma_with_tokens_agree(joiner_table, reply, ring);
    assert(joiner_table.dom() + known.dom().remove(t).insert(seed.0) =~= ring.dom());
    assert(with_tokens(joiner_table, reply) =~= ring);
}

/// The ring after the seed starts alone and the peers of `joins` join in
/// turn: each token with its application address.
pub open spec fn ring_after(seed: (u64, SocketAddrV4), joins: Seq<RegisterTokenMsg>) -> Map<u64, SocketAddrV4>
    decreases joins.len(),
{
    if joins.len() == 0 {
        Map::empty().insert(seed.0, seed.1)
    } else {
        ring_after(seed, joins.drop_last()).insert(joins.last().token, joins.last().app_addr)
    }
}

/// The token of the node at place `i` of a run: the seed, then the joiners
/// in the order they joined.
pub open spec fn node_token(seed: u64, joins: Seq<RegisterTokenMsg>, i: int) -> u64 {
    if i == 0 {
        seed
    } else {
        joins[i - 1].token
    }
}

/// All tokens of a run differ: the seed's and those of the joiners.
pub open spec fn distinct_tokens(seed: u64, joins: Seq<RegisterTokenMsg>) -> bool {
    &&& forall|k: int| 0 <= k < joins.len() ==> #[trigger] joins[k].token != seed
    &&& forall|k: int, l: int| 0 <= k < l < joins.len() ==> #[trigger] joins[k].token != #[trigger] joins[l].token
}

/// Join `k` of a run, seen through the lookup tables: `before[0]` is the
/// seed's table and `before[i]` that of the `i`-th node to join;
/// `service` is the seed's service address table. The peer of `joins[k]`
/// joins through the seed. The seed takes in the registration, answers
/// with `reply`, and passes the registration on to the peers of its
/// service table but the joiner, which take it in; the others change
/// nothing. The joiner, which starts from `start`, takes in the reply.
/// `after` is every table afterwards, the joiner's last.
pub open spec fn join_step(
    seed: (u64, SocketAddrV4),
    joins: Seq<RegisterTokenMsg>,
    k: int,
    start: Map<u64, SocketAddrV4>,
    before: Seq<Map<u64, SocketAddrV4>>,
    service: Map<u64, SocketAddrV4>,
    reply: Seq<(u64, SocketAddrV4)>,
    after: Seq<Map<u64, SocketAddrV4>>,
) -> bool {
    let msg = joins[k];
    &&& msg.join_ind
    &&& before.len() == k + 1
    &&& after.len() == k + 2
    &&& after[0] == with_token(before[0], msg.token, msg.app_addr)
    &&& forall|i: int| 1 <= i <= k ==> #[trigger] after[i] == if service.remove(msg.token).contains_key(node_token(seed.0, joins, i)) {
        with_token(before[i], msg.token, msg.app_addr)
    } else {
        before[i]
    }
    &&& is_reply_table(after[0], msg.token, seed, reply)
    &&& after[k + 1] == with_tokens(start, reply)
}

/// The table a node starts from: its own entry when nodes hold themselves
/// (the gossiping service), an empty one otherwise (the omniscient one).
pub open spec fn own_table(holds_self: bool, token: u64, app_addr: SocketAddrV4) -> Map<u64, SocketAddrV4> {
    if holds_self {
        Map::empty().insert(token, app_addr)
    } else {
        Map::empty()
    }
}

/// A run of joins through one seed: the seed starts alone; `states[k]` is
/// every node's table before join `k` and `services[k]` the seed's service
/// address table then. Every node starts from its `own_table`.
pub open spec fn is_run(
    seed: (u64, SocketAddrV4),
    joins: Seq<RegisterTokenMsg>,
    holds_self: bool,
    replies: Seq<Seq<(u64, SocketAddrV4)>>,
    services: Seq<Map<u64, SocketAddrV4>>,
    states: Seq<Seq<Map<u64, SocketAddrV4>>>,
) -> bool {
    &&& replies.len() == joins.len()
    &&& services.len() == joins.len() + 1
    &&& states.len() == joins.len() + 1
    &&& states[0] == seq![own_table(holds_self, seed.0, seed.1)]
    &&& services[0] == Map::<u64, SocketAddrV4>::empty()
    &&& forall|k: int| 0 <= k < joins.len() ==> #[trigger] services[k + 1] == with_token(services[k], joins[k].token, joins[k].service_addr)
    &&& forall|k: int| 0 <= k < joins.len() ==> #[trigger] join_step(
        seed,
        joins,
        k,
        own_table(holds_self, joins[k].token, joins[k].app_addr),
        states[k],
        services[k],
        replies[k],
        states[k + 1],
    )
}

/// Which tokens the ring holds after a run, and the seed's address.
pub proof fn lemma_ring_after(seed: (u64, SocketAddrV4), joins: Seq<RegisterTokenMsg>)
    requires
        distinct_tokens(seed.0, joins),
    ensures
        ring_after(seed, joins).contains_key(seed.0),
        ring_after(seed, joins)[seed.0] == seed.1,
        forall|k: u64| #[trigger] ring_after(seed, joins).contains_key(k) ==> k == seed.0
            || exists|j: int| 0 <= j < joins.len() && joins[j].token == k,
        forall|j: int| 0 <= j < joins.len() ==> ring_after(seed, joins).contains_key(#[trigger] joins[j].token),
    decreases joins.len(),
{
    if joins.len() > 0 {
        let d = joins.drop_last();
        assert(distinct_tokens(seed.0, d)) by {
            assert forall|k: int, l: int| 0 <= k < l < d.len() implies #[trigger] d[k].token != #[trigger] d[l].token by {
                assert(d[k] == joins[k] && d[l] == joins[l]);
            }
            assert forall|k: int| 0 <= k < d.len() implies #[trigger] d[k].token != seed.0 by {
                assert(d[k] == joins[k]);
            }
        }
        lemma_ring_after(seed, d);
        assert(joins[joins.len() - 1].token != seed.0);
        assert forall|k: u64| #[trigger] ring_after(seed, joins).contains_key(k) implies k == seed.0
            || exists|j: int| 0 <= j < joins.len() && joins[j].token == k by {
            if ring_after(seed, d).contains_key(k) && k != seed.0 {
                let j = choose|j: int| 0 <= j < d.len() && d[j].token == k;
                assert(joins[j] == d[j]);
            }
        }
        assert forall|j: int| 0 <= j < joins.len() implies ring_after(seed, joins).contains_key(#[trigger] joins[j].token) by {
            if j < joins.len() - 1 {
                assert(joins[j] == d[j]);
            }
        }
    }
}

/// A new token is not yet in the ring.
proof fn lemma_next_token_new(seed: (u64, SocketAddrV4), joins: Seq<RegisterTokenMsg>, n: int)
    requires
        distinct_tokens(seed.0, joins),
        0 <= n < joins.len(),
    ensures
        !ring_after(seed, joins.take(n)).contains_key(joins[n].token),
        distinct_tokens(seed.0, joins.take(n)),
{
    let p = joins.take(n);
    assert(distinct_tokens(seed.0, p)) by {
        assert forall|k: int, l: int| 0 <= k < l < p.len() implies #[trigger] p[k].token != #[trigger] p[l].token by {
            assert(p[k] == joins[k] && p[l] == joins[l]);
        }
        assert forall|k: int| 0 <= k < p.len() implies #[trigger] p[k].token != seed.0 by {
            assert(p[k] == joins[k]);
        }
    }
    lemma_ring_after(seed, p);
    if ring_after(seed, p).contains_key(joins[n].token) {
        let j = choose|j: int| 0 <= j < p.len() && p[j].token == joins[n].token;
        assert(p[j] == joins[j]);
    }
}

proof fn lemma_take_grows(seed: (u64, SocketAddrV4), joins: Seq<RegisterTokenMsg>, k: int)
    requires
        0 <= k < joins.len(),
    ensures
        ring_after(seed, joins.take(k + 1)) == ring_after(seed, joins.take(k)).insert(joins[k].token, joins[k].app_addr),
{
    assert(joins.take(k + 1).drop_last() =~= joins.take(k));
    assert(joins.take(k + 1).last() == joins[k]);
}

/// The gossiping run up to join `k`: every table is the ring so far, and
/// the seed holds the service address of every other node.
proof fn lemma_gossip_run_prefix(
    seed: (u64, SocketAddrV4),
    joins: Seq<RegisterTokenMsg>,
    replies: Seq<Seq<(u64, SocketAddrV4)>>,
    services: Seq<Map<u64, SocketAddrV4>>,
    states: Seq<Seq<Map<u64, SocketAddrV4>>>,
    k: int,
)
    requires
        distinct_tokens(seed.0, joins),
        is_run(seed, joins, true, replies, services, states),
        0 <= k <= joins.len(),
    ensures
        states[k].len() == k + 1,
        forall|i: int| 0 <= i <= k ==> #[trigger] states[k][i] == ring_after(seed, joins.take(k)),
        services[k].dom() == ring_after(seed, joins.take(k)).dom().remove(seed.0),
    decreases k,
{
    if k == 0 {
        assert(joins.take(0) =~= Seq::<RegisterTokenMsg>::empty());
        assert(services[0].dom() =~= ring_after(seed, joins.take(0)).dom().remove(seed.0));
    } else {
        let j = k - 1;
        lemma_gossip_run_prefix(seed, joins, replies, services, states, j);
        lemma_next_token_new(seed, joins, j);
        lemma_ring_after(seed, joins.take(j));
        lemma_take_grows(seed, joins, j);
        let ring = ring_after(seed, joins.take(j));
        let msg = joins[j];
        let t = msg.token;
        let a = msg.app_addr;
        let start = own_table(true, t, a);
        assert(join_step(seed, joins, j, start, states[j], services[j], replies[j], states[j + 1]));
        assert(services[k] == with_token(services[j], t, msg.service_addr));
        assert(start.submap_of(ring.insert(t, a)));
        assert(states[k][0] == with_token(states[j][0], t, a));
        assert(states[j][0] == ring);
        lemma_join_step(ring, seed, t, a, start, replies[j]);
        assert forall|i: int| 0 <= i <= k implies #[trigger] states[k][i] == ring_after(seed, joins.take(k)) by {
            if 1 <= i <= j {
                let x = node_token(seed.0, joins, i);
                assert(joins.take(j)[i - 1] == joins[i - 1]);
                assert(ring.contains_key(x));
                assert(x != t);
                assert(services[j].remove(t).contains_key(x));
                assert(states[k][i] == with_token(states[j][i], t, a));
            }
        }
        assert(services[k].dom() =~= ring_after(seed, joins.take(k)).dom().remove(seed.0));
    }
}

/// Zero hop, for the gossiping service: when the seed starts alone and
/// peers with distinct tokens join through it one at a time, each starting
/// with its own entry (`start` with an empty table), and the messages of
/// each join arrive, then every node's lookup table holds every node's
/// token with that node's application address.
pub proof fn lemma_gossip_joins_spread(
    seed: (u64, SocketAddrV4),
    joins: Seq<RegisterTokenMsg>,
    replies: Seq<Seq<(u64, SocketAddrV4)>>,
    services: Seq<Map<u64, SocketAddrV4>>,
    states: Seq<Seq<Map<u64, SocketAddrV4>>>,
)
    requires
        distinct_tokens(seed.0, joins),
        is_run(seed, joins, true, replies, services, states),
    ensures
        states.last().len() == joins.len() + 1,
        forall|i: int| 0 <= i < states.last().len() ==> #[trigger] states.last()[i] == ring_after(seed, joins),
{
    lemma_gossip_run_prefix(seed, joins, replies, services, states, joins.len() as int);
    assert(joins.take(joins.len() as int) =~= joins);
}

/// The omniscient run up to join `k`: every node holds the ring so far but
/// its own entry, and the seed holds the service address of every other
/// node.
proof fn lemma_omniscient_run_prefix(
    seed: (u64, SocketAddrV4),
    joins: Seq<RegisterTokenMsg>,
    replies: Seq<Seq<(u64, SocketAddrV4)>>,
    services: Seq<Map<u64, SocketAddrV4>>,
    states: Seq<Seq<Map<u64, SocketAddrV4>>>,
    k: int,
)
    requires
        distinct_tokens(seed.0, joins),
        is_run(seed, joins, false, replies, services, states),
        0 <= k <= joins.len(),
    ensures
        states[k].len() == k + 1,
        forall|i: int| 0 <= i <= k ==> #[trigger] states[k][i] == ring_after(seed, joins.take(k)).remove(node_token(seed.0, joins, i)),
        services[k].dom() == ring_after(seed, joins.take(k)).dom().remove(seed.0),
    decreases k,
{
    if k == 0 {
        assert(joins.take(0) =~= Seq::<RegisterTokenMsg>::empty());
        assert(ring_after(seed, joins.take(0)).remove(seed.0) =~= Map::<u64, SocketAddrV4>::empty());
        assert(services[0].dom() =~= ring_after(seed, joins.take(0)).dom().remove(seed.0));
    } else {
        let j = k - 1;
        lemma_omniscient_run_prefix(seed, joins, replies, services, states, j);
        lemma_next_token_new(seed, joins, j);
        lemma_ring_after(seed, joins.take(j));
        lemma_take_grows(seed, joins, j);
        let ring = ring_after(seed, joins.take(j));
        let msg = joins[j];
        let t = msg.token;
        let a = msg.app_addr;
        let start = own_table(false, t, a);
        assert(join_step(seed, joins, j, start, states[j], services[j], replies[j], states[j + 1]));
        assert(services[k] == with_token(services[j], t, msg.service_addr));
        assert(start.submap_of(ring));
        assert(states[k][0] == with_token(states[j][0], t, a));
        assert(states[j][0] == ring.remove(seed.0));
        assert(with_token(ring.remove(seed.0), t, a) =~= ring.remove(seed.0).insert(t, a));
        lemma_join_step_others(ring, seed, t, a, start, replies[j]);
        assert(joins[j].token != seed.0);
        assert forall|i: int| 0 <= i <= k implies #[trigger] states[k][i] == ring_after(seed, joins.take(k)).remove(
            node_token(seed.0, joins, i),
        ) by {
            let x = node_token(seed.0, joins, i);
            if 1 <= i <= j {
                assert(joins.take(j)[i - 1] == joins[i - 1]);
                assert(ring.contains_key(x));
                assert(x != t);
                assert(services[j].remove(t).contains_key(x));
                assert(states[k][i] == with_token(states[j][i], t, a));
            } else if i == k {
                assert(ring.insert(t, a).remove(t) =~= ring);
            }
        }
        assert(services[k].dom() =~= ring_after(seed, joins.take(k)).dom().remove(seed.0));
    }
}

/// Zero hop, for the omniscient service, whose nodes keep every entry but
/// their own: when the seed starts alone and peers with distinct tokens
/// join through it one at a time, each starting with an empty table
/// (`new`), and the messages of each join arrive, then every node's lookup
/// table holds every other node's token with that node's application
/// address.
pub proof fn lemma_omniscient_joins_spread(
    seed: (u64, SocketAddrV4),
    joins: Seq<RegisterTokenMsg>,
    replies: Seq<Seq<(u64, SocketAddrV4)>>,
    services: Seq<Map<u64, SocketAddrV4>>,
    states: Seq<Seq<Map<u64, SocketAddrV4>>>,
)
    requires
        distinct_tokens(seed.0, joins),
        is_run(seed, joins, false, replies, services, states),
    ensures
        states.last().len() == joins.len() + 1,
        forall|i: int| 0 <= i < states.last().len() ==> #[trigger] states.last()[i] == ring_after(seed, joins).remove(
            node_token(seed.0, joins, i),
        ),
{
    lemma_omniscient_run_prefix(seed, joins, replies, services, states, joins.len() as int);
    assert(joins.take(joins.len() as int) =~= joins);
}

/// The register message that a node passes on about a joining peer.
pub open spec fn forwarded(msg: RegisterTokenMsg) -> RegisterTokenMsg {
    RegisterTokenMsg { join_ind: false, ..msg }
}

/// The lookup table a node sends to a joining peer: every entry it knows
/// but the peer's own, then its own entry last.
pub open spec fn is_reply_table(known: Map<u64, SocketAddrV4>, joining: u64, own: (u64, SocketAddrV4), e: Seq<(u64, SocketAddrV4)>) -> bool {
    &&& e.len() >= 1
    &&& e.last() == own
    &&& is_listing(known.remove(joining), e.drop_last())
}

/// The messages that a registration makes a node send, the node holding
/// `lookup` and `service` before and having `own` as its entry: the lookup
/// table to a joining peer, then the registration, passed on, to each other
/// peer of `service` in token order.
pub open spec fn registration_sends<M: TableMsg>(
    lookup: Map<u64, SocketAddrV4>,
    service: Map<u64, SocketAddrV4>,
    own: (u64, SocketAddrV4),
    msg: RegisterTokenMsg,
    sends: Seq<Outgoing<M>>,
) -> bool {
    if msg.join_ind {
        exists|f: Seq<(u64, SocketAddrV4)>, e: Seq<(u64, SocketAddrV4)>| {
            &&& is_listing(service.remove(msg.token), f)
            &&& sends.len() == f.len() + 1
            &&& sends[0].to == msg.service_addr
            &&& sends[0].msg.carries_table(e)
            &&& is_reply_table(with_token(lookup, msg.token, msg.app_addr), msg.token, own, e)
            &&& forall|j: int| 0 <= j < f.len() ==> #[trigger] sends[j + 1].to == f[j].1
                && sends[j + 1].msg.carries_registration(forwarded(msg))
        }
    } else {
        sends.len() == 0
    }
}

/// Takes in a registration, as `register_token` does, and gives the
/// messages to send.
pub fn take_registration<M: TableMsg>(
    lookup_table: &mut BTreeMap<u64, SocketAddrV4>,
    service_addr_table: &mut BTreeMap<u64, SocketAddrV4>,
    own_token: u64,
    own_app_addr: SocketAddrV4,
    msg: &RegisterTokenMsg,
) -> (r: Vec<Outgoing<M>>)
    ensures
        final(lookup_table)@ == with_token(old(lookup_table)@, msg.token, msg.app_addr),
        final(service_addr_table)@ == with_token(old(service_addr_table)@, msg.token, msg.service_addr),
        registration_sends(old(lookup_table)@, old(service_addr_table)@, (own_token, own_app_addr), *msg, r@),
{
    let reg = register_token(lookup_table, service_addr_table, own_token, own_app_addr, msg);
    let mut sends: Vec<Outgoing<M>> = Vec::new();
    let ghost mut e = Seq::<(u64, SocketAddrV4)>::empty();
    match reg.reply {
        Some((to, entries)) => {
            proof { e = entries@; }
            sends.push(Outgoing { to, msg: M::table_msg(entries) });
        },
        None => {},
    }
    let ghost first = sends@;
    let fwd = RegisterTokenMsg { join_ind: false, ..*msg };
    let mut j: usize = 0;
    while j < reg.forwards.len()
        invariant
            j <= reg.forwards@.len(),
            sends@.len() == first.len() + j,
            forall|a: int| 0 <= a < first.len() ==> #[trigger] sends@[a] == first[a],
            forall|a: int| 0 <= a < j ==> #[trigger] sends@[a + first.len()].to == reg.forwards@[a].1
                && sends@[a + first.len()].msg.carries_registration(forwarded(*msg)),
            fwd == forwarded(*msg),
        decreases reg.forwards@.len() - j,
    {
        let (_, to) = reg.forwards[j];
        let m = M::registration_msg(fwd);
        let ghost old_sends = sends@;
        sends.push(Outgoing { to, msg: m });
        proof {
            assert forall|a: int| 0 <= a < j + 1 implies #[trigger] sends@[a + first.len()].to == reg.forwards@[a].1
                && sends@[a + first.len()].msg.carries_registration(forwarded(*msg)) by {
                if a < j {
                    assert(sends@[a + first.len()] == old_sends[a + first.len()]);
                } else {
                    assert(a + first.len() == old_sends.len());
                    assert(sends@[a + first.len()].msg == m);
                    assert(m.carries_registration(fwd));
                    assert(to == reg.forwards@[a].1);
                }
            }
        }
        j = j + 1;
    }
    proof {
        if msg.join_ind {
            assert(first.len() == 1);
            let f = reg.forwards@;
            assert(forall|a: int| 0 <= a < f.len() ==> #[trigger] sends@[a + 1].to == f[a].1
                && sends@[a + 1].msg.carries_registration(forwarded(*msg)));
            assert(sends@[0].msg.carries_table(e));
        }
    }
    sends
}

/// Takes in the entries of a lookup table sent by a peer: each entry is
/// added to `lookup_table` unless its token is already known; returns the
/// entries as a map.
pub fn merge_entries(lookup_table: &mut BTreeMap<u64, SocketAddrV4>, entries: &Vec<(u64, SocketAddrV4)>) -> (r: BTreeMap<u64, SocketAddrV4>)
    ensures
        final(lookup_table)@ == with_tokens(old(lookup_table)@, entries@),
        r@ == entries_map(entries@),
{
    proof { lemma_u64_keys_ordered(); }
    let mut map: BTreeMap<u64, SocketAddrV4> = BTreeMap::new();
    let mut i: usize = 0;
    while i < entries.len()
        invariant
            i <= entries@.len(),
            lookup_table@ == with_tokens(old(lookup_table)@, entries@.take(i as int)),
            map@ == entries_map(entries@.take(i as int)),
        decreases entries@.len() - i,
    {
        let (token, socket_addr) = entries[i];
        assert(entries@.take(i + 1).drop_last() =~= entries@.take(i as int));
        let _ = add_token(lookup_table, token, socket_addr);
        map.insert(token, socket_addr);
        i = i + 1;
    }
    assert(entries@.take(entries@.len() as int) =~= entries@);
    map
}

/// Takes in a peer's registration: the peer's application address goes to
/// `lookup_table` and its service address to `service_addr_table`, unless
/// its token is already known there. If the peer is joining, the node
/// answers with its lookup table (its own entry last) and passes the
/// registration on to the other peers it knows, in token order.
pub fn register_token(
    lookup_table: &mut BTreeMap<u64, SocketAddrV4>,
    service_addr_table: &mut BTreeMap<u64, SocketAddrV4>,
    own_token: u64,
    own_app_addr: SocketAddrV4,
    msg: &RegisterTokenMsg,
) -> (r: Registration)
    ensures
        final(lookup_table)@ == with_token(old(lookup_table)@, msg.token, msg.app_addr),
        final(service_addr_table)@ == with_token(old(service_addr_table)@, msg.token, msg.service_addr),
        msg.join_ind ==> (r.reply matches Some((to, e)) && to == msg.service_addr
            && is_reply_table(final(lookup_table)@, msg.token, (own_token, own_app_addr), e@)),
        msg.join_ind ==> is_listing(old(service_addr_table)@.remove(msg.token), r.forwards@),
        !msg.join_ind ==> r.reply is None && r.forwards@.len() == 0,
{
    let _ = add_token(lookup_table, msg.token, msg.app_addr);
    let mut reply = None;
    let mut forwards = Vec::new();
    if msg.join_ind {
        let mut entries = entries_except(lookup_table, Some(msg.token));
        let ghost listed = entries@;
        entries.push((own_token, own_app_addr));
        assert(entries@.drop_last() =~= listed);
        reply = Some((msg.service_addr, entries));
        forwards = entries_except(service_addr_table, Some(msg.token));
    }
    let _ = add_token(service_addr_table, msg.token, msg.service_addr);
    Registration { reply, forwards }
}

} // verus!
