use crate::addr::{socket_addr_text, socket_addr_to_string, SocketAddrV4};
use crate::text::{decimal, push_decimal};
use crate::event::Event;
use crate::protocol::{
    entries_map, is_reply_table, lemma_join_step, merge_entries, registration_sends,
    take_registration, with_tokens, Outgoing, RegisterTokenMsg, TableMsg,
};
use std::collections::BTreeMap;
use vstd::prelude::*;
use vstd::std_specs::iter::IteratorSpec;
use vstd::std_specs::cmp::OrdSpec;

verus! {

/// `k` is the token of `m` that answers for `token`: the smallest token of
/// `m` at or above `token`, or, when there is none, the smallest token of `m`
/// (the ring wraps around).
pub open spec fn is_responsible(m: Map<u64, SocketAddrV4>, token: u64, k: u64) -> bool {
    &&& m.contains_key(k)
    &&& if exists|j: u64| m.contains_key(j) && token <= j {
        token <= k && forall|j: u64| m.contains_key(j) && token <= j ==> k <= j
    } else {
        forall|j: u64| m.contains_key(j) ==> k <= j
    }
}

/// Tokens are ordered by `<` on `u64`, which is what the tables rely on.
pub proof fn lemma_u64_keys_ordered()
    ensures
        vstd::laws_cmp::obeys_cmp::<u64>(),
        vstd::std_specs::btree::key_obeys_cmp_spec::<u64>(),
{
}

/// `s` lists the entries of `m` by increasing token, each exactly once.
pub open spec fn sorted_entries_of(m: Map<u64, SocketAddrV4>, s: Seq<(&u64, &SocketAddrV4)>) -> bool {
    &&& forall|a: int, b: int| 0 <= a < b < s.len() ==> *s[a].0 < *s[b].0
    &&& forall|a: int| 0 <= a < s.len() ==> m.contains_key(*s[a].0) && m[*s[a].0] == *s[a].1
    &&& forall|k: u64| m.contains_key(k) ==> exists|a: int| 0 <= a < s.len() && *s[a].0 == k
}

proof fn lemma_sorted_entries(m: Map<u64, SocketAddrV4>, s: Seq<(&u64, &SocketAddrV4)>)
    requires
        vstd::std_specs::btree::increasing_seq(s.map_values(|kv: (&u64, &SocketAddrV4)| *kv.0)),
        forall|a: int| 0 <= a < s.len() ==> m.contains_key(*s[a].0) && m[*s[a].0] == *s[a].1,
        forall|k: u64| m.contains_key(k) ==> s.contains((&k, &m[k])),
    ensures
        sorted_entries_of(m, s),
{
    let keys = s.map_values(|kv: (&u64, &SocketAddrV4)| *kv.0);
    assert(vstd::laws_cmp::obeys_cmp::<u64>());
    assert forall|a: int, b: int| 0 <= a < b < s.len() implies *s[a].0 < *s[b].0 by {
        assert(keys[a] == *s[a].0);
        assert(keys[b] == *s[b].0);
        assert(keys[a].cmp_spec(&keys[b]) is Less);
    }
    assert forall|k: u64| m.contains_key(k) implies exists|a: int| 0 <= a < s.len() && *s[a].0 == k by {
        assert(s.contains((&k, &m[k])));
    }
}

proof fn lemma_responsible_at(m: Map<u64, SocketAddrV4>, s: Seq<(&u64, &SocketAddrV4)>, token: u64, i: int)
    requires
        sorted_entries_of(m, s),
        0 <= i < s.len(),
        i == 0 || *s[i - 1].0 < token,
        token <= *s[i].0,
    ensures
        is_responsible(m, token, *s[i].0),
{
    assert(m.contains_key(*s[i].0));
    assert forall|j: u64| m.contains_key(j) && token <= j implies *s[i].0 <= j by {
        let a = choose|a: int| 0 <= a < s.len() && *s[a].0 == j;
        if a < i {
            if a < i - 1 {
                assert(*s[a].0 < *s[i - 1].0);
            }
        } else if a > i {
            assert(*s[i].0 < *s[a].0);
        }
    }
}

proof fn lemma_responsible_wrap(m: Map<u64, SocketAddrV4>, s: Seq<(&u64, &SocketAddrV4)>, token: u64)
    requires
        sorted_entries_of(m, s),
        0 < s.len(),
        forall|a: int| 0 <= a < s.len() ==> *s[a].0 < token,
    ensures
        is_responsible(m, token, *s[0].0),
{
    assert(m.contains_key(*s[0].0));
    assert forall|j: u64| m.contains_key(j) implies *s[0].0 <= j && j < token by {
        let a = choose|a: int| 0 <= a < s.len() && *s[a].0 == j;
        if a > 0 {
            assert(*s[0].0 < *s[a].0);
        }
    }
}

proof fn lemma_after_scan(m: Map<u64, SocketAddrV4>, s: Seq<(&u64, &SocketAddrV4)>, token: u64)
    requires
        sorted_entries_of(m, s),
        s.len() > 0 ==> *s[0].0 <= token && (token == *s[0].0 || *s[s.len() - 1].0 < token),
    ensures
        s.len() == 0 <==> m.dom().is_empty(),
        s.len() > 0 ==> is_responsible(m, token, *s[0].0) && m[*s[0].0] == *s[0].1,
{
    if s.len() == 0 {
        assert(m.dom().is_empty()) by {
            assert forall|k: u64| !m.contains_key(k) by {
                if m.contains_key(k) {
                    let a = choose|a: int| 0 <= a < s.len() && *s[a].0 == k;
                }
            }
        }
    } else {
        assert(m.contains_key(*s[0].0));
        if token == *s[0].0 {
            lemma_responsible_at(m, s, token, 0);
        } else {
            assert forall|a: int| 0 <= a < s.len() implies *s[a].0 < token by {
                if a < s.len() - 1 {
                    assert(*s[a].0 < *s[s.len() - 1].0);
                }
            }
            lemma_responsible_wrap(m, s, token);
        }
    }
}

/// Finds the address of the node responsible for `token`.
pub fn lookup(lookup_table: &BTreeMap<u64, SocketAddrV4>, token: u64) -> (res: Option<SocketAddrV4>)
    ensures
        res is None <==> lookup_table@.dom().is_empty(),
        res matches Some(a) ==> exists|k: u64|
            is_responsible(lookup_table@, token, k) && lookup_table@[k] == a,
{
    let ghost m = lookup_table@;
    proof { lemma_u64_keys_ordered(); }
    let iter = lookup_table.iter();
    let ghost s = iter.remaining();
    proof { lemma_sorted_entries(m, s); }
    let mut first: Option<SocketAddrV4> = None;
    let mut last_token: u64 = 0;
    for (current_token, socket_addr) in it: iter
        invariant
            it.seq() == s,
            m == lookup_table@,
            sorted_entries_of(m, s),
            first is None <==> it.index() == 0,
            it.index() > 0 ==> first == Some(*s[0].1) && last_token == *s[it.index() - 1].0
                && *s[0].0 <= token && (token == *s[0].0 || last_token < token),
    {
        let ghost i = it.index();
        assert(current_token == s[i].0 && socket_addr == s[i].1);
        match first {
            None => {
                if token < *current_token {
                    proof {
                        lemma_responsible_at(m, s, token, 0);
                        assert(m.contains_key(*s[0].0));
                        assert(!m.dom().is_empty());
                    }
                    return Some(*socket_addr);
                }
                first = Some(*socket_addr);
            },
            Some(_) => {
                if last_token < token && *current_token >= token {
                    proof {
                        lemma_responsible_at(m, s, token, i);
                        assert(m.contains_key(*s[i].0));
                        assert(!m.dom().is_empty());
                    }
                    return Some(*socket_addr);
                }
            },
        }
        last_token = *current_token;
    }
    proof { lemma_after_scan(m, s, token); }
    first
}

/// The table after `token` is offered with `socket_addr`: an existing entry
/// for `token` is kept, otherwise the new one is added.
pub open spec fn with_token(m: Map<u64, SocketAddrV4>, token: u64, socket_addr: SocketAddrV4) -> Map<u64, SocketAddrV4> {
    if m.contains_key(token) {
        m
    } else {
        m.insert(token, socket_addr)
    }
}

/// Adds `token` with `socket_addr` unless the table already holds `token`;
/// answers whether it was added. It never fails.
pub fn add_token(lookup_table: &mut BTreeMap<u64, SocketAddrV4>, token: u64, socket_addr: SocketAddrV4) -> (res: Result<bool, String>)
    ensures
        res == Ok::<bool, String>(!old(lookup_table)@.contains_key(token)),
        final(lookup_table)@ == with_token(old(lookup_table)@, token, socket_addr),
{
    proof { lemma_u64_keys_ordered(); }
    let token_added = if lookup_table.contains_key(&token) {
        false
    } else {
        lookup_table.insert(token, socket_addr);
        true
    };
    Ok(token_added)
}

/// `e` lists the entries of `m` by increasing token, each exactly once.
pub open spec fn is_listing(m: Map<u64, SocketAddrV4>, e: Seq<(u64, SocketAddrV4)>) -> bool {
    &&& forall|a: int, b: int| 0 <= a < b < e.len() ==> e[a].0 < e[b].0
    &&& forall|a: int| 0 <= a < e.len() ==> m.contains_key(e[a].0) && m[e[a].0] == e[a].1
    &&& forall|k: u64| m.contains_key(k) ==> exists|a: int| 0 <= a < e.len() && e[a].0 == k
}

/// The table without the entry of `skip`, if any.
pub open spec fn without(m: Map<u64, SocketAddrV4>, skip: Option<u64>) -> Map<u64, SocketAddrV4> {
    match skip {
        Some(t) => m.remove(t),
        None => m,
    }
}

/// Lists the entries of the table by increasing token, leaving out the
/// entry of `skip`.
pub fn entries_except(table: &BTreeMap<u64, SocketAddrV4>, skip: Option<u64>) -> (e: Vec<(u64, SocketAddrV4)>)
    ensures
        is_listing(without(table@, skip), e@),
{
    let ghost m = table@;
    proof { lemma_u64_keys_ordered(); }
    let iter = table.iter();
    let ghost s = iter.remaining();
    proof { lemma_sorted_entries(m, s); }
    let mut e: Vec<(u64, SocketAddrV4)> = Vec::new();
    for (k, v) in it: iter
        invariant
            it.seq() == s,
            m == table@,
            sorted_entries_of(m, s),
            forall|a: int, b: int| 0 <= a < b < e@.len() ==> e@[a].0 < e@[b].0,
            forall|a: int| 0 <= a < e@.len() ==> without(m, skip).contains_key(e@[a].0) && m[e@[a].0] == e@[a].1,
            forall|a: int, j: int| 0 <= a < e@.len() && it.index() <= j < s.len() ==> e@[a].0 < *s[j].0,
            forall|j: int| #![trigger s[j]] 0 <= j < it.index() && skip != Some(*s[j].0) ==> exists|a: int| #![trigger e@[a]] 0 <= a < e@.len() && e@[a].0 == *s[j].0,
    {
        let ghost i = it.index();
        assert(k == s[i].0 && v == s[i].1);
        let keep = match skip {
            Some(t) => *k != t,
            None => true,
        };
        if keep {
            let ghost old_e = e@;
            e.push((*k, *v));
            proof {
                assert forall|a: int, j: int| 0 <= a < e@.len() && i + 1 <= j < s.len() implies e@[a].0 < *s[j].0 by {
                    if a == e@.len() - 1 {
                        assert(*s[i].0 < *s[j].0);
                    } else {
                        assert(e@[a] == old_e[a]);
                    }
                }
                assert forall|j: int| #![trigger s[j]] 0 <= j < i + 1 && skip != Some(*s[j].0) implies exists|a: int| #![trigger e@[a]] 0 <= a < e@.len() && e@[a].0 == *s[j].0 by {
                    if j < i {
                        let a = choose|a: int| #![trigger old_e[a]] 0 <= a < old_e.len() && old_e[a].0 == *s[j].0;
                        assert(e@[a] == old_e[a]);
                    } else {
                        assert(e@[e@.len() - 1].0 == *s[j].0);
                    }
                }
            }
        } else {
            proof {
                assert forall|a: int, j: int| 0 <= a < e@.len() && i + 1 <= j < s.len() implies e@[a].0 < *s[j].0 by {
                    assert(e@[a].0 < *s[i].0);
                    assert(*s[i].0 < *s[j].0);
                }
            }
        }
    }
    proof {
        assert forall|k: u64| without(m, skip).contains_key(k) implies exists|a: int| 0 <= a < e@.len() && e@[a].0 == k by {
            let j = choose|j: int| 0 <= j < s.len() && *s[j].0 == k;
            assert(skip != Some(*s[j].0));
        }
    }
    e
}

/// The lines that show the entries `e`, each starting on a new line with
/// a tab: `token: ip:port`.
pub open spec fn table_text(e: Seq<(u64, SocketAddrV4)>) -> Seq<char>
    decreases e.len(),
{
    if e.len() == 0 {
        Seq::empty()
    } else {
        table_text(e.drop_last()) + "\n\t"@ + decimal(e.last().0 as nat) + ": "@ + socket_addr_text(e.last().1)
    }
}

/// The text that shows a node: its id and token, a header line, then its
/// table in token order.
pub open spec fn node_text(id: Seq<char>, token: u64, header: Seq<char>, m: Map<u64, SocketAddrV4>, t: Seq<char>) -> bool {
    exists|e: Seq<(u64, SocketAddrV4)>| is_listing(m, e)
        && t == "ID:"@ + id + "\ntoken:"@ + decimal(token as nat) + "\n"@ + header + table_text(e)
}

/// The line that shows one entry: a new line, a tab, `token: ip:port`.
pub open spec fn entry_line(k: u64, a: SocketAddrV4) -> Seq<char> {
    "\n\t"@ + decimal(k as nat) + ": "@ + socket_addr_text(a)
}

/// How many characters the lines of the first `n` entries of `e` take.
pub open spec fn lines_len(e: Seq<(u64, SocketAddrV4)>, n: int) -> int
    decreases n,
{
    if n <= 0 {
        0
    } else {
        lines_len(e, n - 1) + entry_line(e[n - 1].0, e[n - 1].1).len()
    }
}

proof fn lemma_lines_len_prefix(e: Seq<(u64, SocketAddrV4)>, d: Seq<(u64, SocketAddrV4)>, n: int)
    requires
        0 <= n <= d.len(),
        d.len() <= e.len(),
        forall|a: int| 0 <= a < d.len() ==> #[trigger] d[a] == e[a],
    ensures
        lines_len(e, n) == lines_len(d, n),
    decreases n,
{
    if n > 0 {
        lemma_lines_len_prefix(e, d, n - 1);
    }
}

/// Lines grow the text: each entry's line ends after the lines before it.
proof fn lemma_lines_len_grows(e: Seq<(u64, SocketAddrV4)>, a: int, b: int)
    requires
        0 <= a <= b,
    ensures
        lines_len(e, a) <= lines_len(e, b),
    decreases b,
{
    if a < b {
        lemma_lines_len_grows(e, a, b - 1);
    }
}

/// The table text is the lines of the entries, one after another, in the
/// order of `e`: the line of entry `a` stands where the lines of the
/// entries before it end.
pub proof fn lemma_table_text_lines(e: Seq<(u64, SocketAddrV4)>)
    ensures
        table_text(e).len() == lines_len(e, e.len() as int),
        forall|a: int| 0 <= a < e.len() ==> #[trigger] table_text(e).subrange(lines_len(e, a), lines_len(e, a + 1))
            == entry_line(e[a].0, e[a].1),
        forall|a: int, b: int| 0 <= a < b <= e.len() ==> #[trigger] lines_len(e, a) < #[trigger] lines_len(e, b),
    decreases e.len(),
{
    if e.len() > 0 {
        let d = e.drop_last();
        lemma_table_text_lines(d);
        let n = e.len() as int;
        lemma_lines_len_prefix(e, d, n - 1);
        let t = table_text(e);
        let td = table_text(d);
        let last = entry_line(e[n - 1].0, e[n - 1].1);
        assert(t == td + last);
        assert forall|a: int| 0 <= a < e.len() implies #[trigger] t.subrange(lines_len(e, a), lines_len(e, a + 1))
            == entry_line(e[a].0, e[a].1) by {
            if a < n - 1 {
                lemma_lines_len_prefix(e, d, a);
                lemma_lines_len_prefix(e, d, a + 1);
                lemma_lines_len_grows(d, a + 1, n - 1);
                lemma_lines_len_grows(d, 0, a);
                assert(d[a] == e[a]);
                assert(t.subrange(lines_len(e, a), lines_len(e, a + 1)) =~= td.subrange(lines_len(d, a), lines_len(d, a + 1)));
            } else {
                lemma_lines_len_grows(e, 0, a);
                assert(t.subrange(lines_len(e, a), lines_len(e, a + 1)) =~= last);
            }
        }
        assert forall|a: int, b: int| 0 <= a < b <= e.len() implies #[trigger] lines_len(e, a) < #[trigger] lines_len(e, b) by {
            lemma_lines_len_grows(e, a, b - 1);
        }
    }
}

/// A node's text is its id and token, the header, then one line for each
/// entry of its table, in increasing token order, and nothing else.
#[verifier::rlimit(30)]
pub proof fn lemma_node_text_order(id: Seq<char>, token: u64, header: Seq<char>, m: Map<u64, SocketAddrV4>, t: Seq<char>)
    requires
        node_text(id, token, header, m, t),
    ensures
        ({
            let head = "ID:"@ + id + "\ntoken:"@ + decimal(token as nat) + "\n"@ + header;
            let p = head.len() as int;
            exists|e: Seq<(u64, SocketAddrV4)>| {
                &&& is_listing(m, e)
                &&& t.subrange(0, p) == head
                &&& t.len() == p + lines_len(e, e.len() as int)
                &&& forall|a: int| 0 <= a < e.len() ==> #[trigger] t.subrange(p + lines_len(e, a), p + lines_len(e, a + 1))
                    == entry_line(e[a].0, e[a].1)
                &&& forall|a: int, b: int| 0 <= a < b < e.len() ==> e[a].0 < e[b].0 && p + lines_len(e, a + 1)
                    <= p + lines_len(e, b)
            }
        }),
{
    let head = "ID:"@ + id + "\ntoken:"@ + decimal(token as nat) + "\n"@ + header;
    let p = head.len() as int;
    let e = choose|e: Seq<(u64, SocketAddrV4)>| is_listing(m, e) && t == head + table_text(e);
    lemma_table_text_lines(e);
    assert(t.subrange(0, p) =~= head);
    assert forall|a: int| 0 <= a < e.len() implies #[trigger] t.subrange(p + lines_len(e, a), p + lines_len(e, a + 1))
        == entry_line(e[a].0, e[a].1) by {
        lemma_lines_len_grows(e, 0, a);
        lemma_lines_len_grows(e, a + 1, e.len() as int);
        let x = lines_len(e, a);
        let y = lines_len(e, a + 1);
        assert(x < y);
        let tt = table_text(e);
        assert(t == head + tt);
        assert(tt.subrange(x, y) == entry_line(e[a].0, e[a].1));
        assert(t.subrange(p + x, p + y) =~= tt.subrange(x, y));
    }
    assert forall|a: int, b: int| 0 <= a < b < e.len() implies e[a].0 < e[b].0 && p + lines_len(e, a + 1)
        <= p + lines_len(e, b) by {
        lemma_lines_len_grows(e, a + 1, b);
    }
}

/// Shows a node: its id and token, `header`, then its table in token order.
pub fn node_to_string(id: &String, token: u64, header: &str, table: &BTreeMap<u64, SocketAddrV4>) -> (r: String)
    ensures
        node_text(id@, token, header@, table@, r@),
{
    let mut s = String::new();
    proof {
        reveal_strlit("ID:");
        reveal_strlit("\ntoken:");
        reveal_strlit("\n");
        reveal_strlit("\n\t");
        reveal_strlit(": ");
    }
    s.append("ID:");
    s.append(id.as_str());
    s.append("\ntoken:");
    push_decimal(&mut s, token);
    s.append("\n");
    s.append(header);
    let ghost head = s@;
    let e = entries_except(table, None);
    assert(without(table@, None) == table@);
    let mut i: usize = 0;
    while i < e.len()
        invariant
            i <= e@.len(),
            s@ == head + table_text(e@.take(i as int)),
        decreases e@.len() - i,
    {
        let (k, a) = e[i];
        assert(e@.take(i + 1).drop_last() =~= e@.take(i as int));
        s.append("\n\t");
        push_decimal(&mut s, k);
        s.append(": ");
        let at = socket_addr_to_string(&a);
        s.append(at.as_str());
        proof {
            assert(e@.take(i + 1).last() == e@[i as int]);
        }
        i = i + 1;
    }
    assert(e@.take(e@.len() as int) =~= e@);
    assert(s@ =~= "ID:"@ + id@ + "\ntoken:"@ + decimal(token as nat) + "\n"@ + header@ + table_text(e@));
    s
}

/// One token has one responsible node: `lookup` answers every token in
/// exactly one way.
pub proof fn lemma_responsible_unique(m: Map<u64, SocketAddrV4>, token: u64, k1: u64, k2: u64)
    requires
        is_responsible(m, token, k1),
        is_responsible(m, token, k2),
    ensures
        k1 == k2,
{
}

/// A token that the table holds is answered by its own entry; so after
/// `add_token` adds a token, `lookup` of that token gives the address that
/// was added.
pub proof fn lemma_own_token_responsible(m: Map<u64, SocketAddrV4>, token: u64)
    requires
        m.contains_key(token),
    ensures
        is_responsible(m, token, token),
        forall|k: u64| is_responsible(m, token, k) ==> k == token,
{
}

/// Going up the ring from `x`, wrapping past the largest token, `t` comes
/// before `k`.
pub open spec fn on_arc(x: u64, k: u64, t: u64) -> bool {
    if x <= k {
        x <= t && t < k
    } else {
        x <= t || t < k
    }
}

/// A node that joins takes over exactly the tokens on the arc that ends
/// just before the node that answered them: every other token keeps its
/// responsible node.
pub proof fn lemma_join_takes_over_arc(m: Map<u64, SocketAddrV4>, x: u64, k: u64, t: u64, a: SocketAddrV4)
    requires
        is_responsible(m, x, k),
        !m.contains_key(t),
    ensures
        is_responsible(m.insert(t, a), x, if on_arc(x, k, t) { t } else { k }),
{
    let m2 = m.insert(t, a);
    if x <= k {
        assert(m.contains_key(k) && x <= k);
        assert(m2.contains_key(k));
        if on_arc(x, k, t) {
            assert forall|j: u64| m2.contains_key(j) && x <= j implies t <= j by {
                if j != t {
                    assert(m.contains_key(j));
                }
            }
        } else {
            assert(t != k);
            assert forall|j: u64| m2.contains_key(j) && x <= j implies k <= j by {
                if j != t {
                    assert(m.contains_key(j));
                }
            }
        }
    } else {
        assert(!exists|j: u64| m.contains_key(j) && x <= j);
        if on_arc(x, k, t) {
            if x <= t {
                assert(m2.contains_key(t));
                assert forall|j: u64| m2.contains_key(j) && x <= j implies t <= j by {
                    if j != t {
                        assert(m.contains_key(j));
                    }
                }
            } else {
                assert forall|j: u64| m2.contains_key(j) implies t <= j && j < x by {
                    if j != t {
                        assert(m.contains_key(j));
                    }
                }
            }
        } else {
            assert(t != k);
            assert forall|j: u64| m2.contains_key(j) implies k <= j && j < x by {
                if j != t {
                    assert(m.contains_key(j));
                }
            }
        }
    }
}

/// A node that leaves changes nothing for the tokens it did not answer.
pub proof fn lemma_leave_keeps_others(m: Map<u64, SocketAddrV4>, x: u64, k: u64, t: u64)
    requires
        is_responsible(m, x, k),
        k != t,
    ensures
        is_responsible(m.remove(t), x, k),
{
    let m2 = m.remove(t);
    assert(m2.contains_key(k));
    if exists|j: u64| m.contains_key(j) && x <= j {
        assert(m2.contains_key(k) && x <= k);
    } else {
        assert(!exists|j: u64| m2.contains_key(j) && x <= j);
    }
}

/// `add_token` keeps every entry it finds and leaves the offered token in
/// the table.
pub proof fn lemma_with_token_keeps(m: Map<u64, SocketAddrV4>, token: u64, socket_addr: SocketAddrV4)
    ensures
        with_token(m, token, socket_addr).contains_key(token),
        !m.contains_key(token) ==> with_token(m, token, socket_addr)[token] == socket_addr,
        forall|k: u64| #[trigger] m.contains_key(k) ==> with_token(m, token, socket_addr).contains_key(k)
            && with_token(m, token, socket_addr)[k] == m[k],
        forall|k: u64| #[trigger] with_token(m, token, socket_addr).contains_key(k) ==> m.contains_key(k) || k == token,
{
}

/// A table has only one listing: entries by increasing token are unique.
pub proof fn lemma_listing_unique(m: Map<u64, SocketAddrV4>, e1: Seq<(u64, SocketAddrV4)>, e2: Seq<(u64, SocketAddrV4)>)
    requires
        is_listing(m, e1),
        is_listing(m, e2),
    ensures
        e1 == e2,
    decreases e1.len(),
{
    if e1.len() == 0 {
        if e2.len() > 0 {
            assert(m.contains_key(e2[0].0));
        }
        assert(e1 =~= e2);
    } else {
        let k = e1.last().0;
        assert(m.contains_key(k));
        let j = choose|a: int| 0 <= a < e2.len() && e2[a].0 == k;
        let k2 = e2.last().0;
        assert(m.contains_key(k2));
        let i2 = choose|a: int| 0 <= a < e1.len() && e1[a].0 == k2;
        if j < e2.len() - 1 {
            assert(e2[j].0 < e2[e2.len() - 1].0);
            if i2 < e1.len() - 1 {
                assert(e1[i2].0 < e1[e1.len() - 1].0);
            }
        }
        assert(j == e2.len() - 1);
        let m2 = m.remove(k);
        let d1 = e1.drop_last();
        let d2 = e2.drop_last();
        assert(is_listing(m2, d1)) by {
            assert forall|a: int| 0 <= a < d1.len() implies m2.contains_key(d1[a].0) && m2[d1[a].0] == d1[a].1 by {
                assert(d1[a].0 < e1[e1.len() - 1].0);
            }
            assert forall|x: u64| m2.contains_key(x) implies exists|a: int| 0 <= a < d1.len() && d1[a].0 == x by {
                let a = choose|a: int| 0 <= a < e1.len() && e1[a].0 == x;
                assert(d1[a].0 == x);
            }
        }
        assert(is_listing(m2, d2)) by {
            assert forall|a: int| 0 <= a < d2.len() implies m2.contains_key(d2[a].0) && m2[d2[a].0] == d2[a].1 by {
                assert(d2[a].0 < e2[e2.len() - 1].0);
            }
            assert forall|x: u64| m2.contains_key(x) implies exists|a: int| 0 <= a < d2.len() && d2[a].0 == x by {
                let a = choose|a: int| 0 <= a < e2.len() && e2[a].0 == x;
                assert(d2[a].0 == x);
            }
        }
        lemma_listing_unique(m2, d1, d2);
        assert(e1.last() == e2.last());
        assert(e1 =~= d1.push(e1.last()));
        assert(e2 =~= d2.push(e2.last()));
    }
}

/// After peers are dropped, neither table holds any of their tokens, and
/// every other entry is as it was.
pub proof fn lemma_without_tokens(m: Map<u64, SocketAddrV4>, gone: Seq<(u64, SocketAddrV4)>)
    ensures
        forall|k: u64| #[trigger] without_tokens(m, gone).contains_key(k) <==> m.contains_key(k)
            && !(exists|j: int| 0 <= j < gone.len() && gone[j].0 == k),
        forall|k: u64| #[trigger] without_tokens(m, gone).contains_key(k) ==> without_tokens(m, gone)[k] == m[k],
    decreases gone.len(),
{
    if gone.len() > 0 {
        let d = gone.drop_last();
        lemma_without_tokens(m, d);
        let w = without_tokens(m, d);
        assert(without_tokens(m, gone) == w.remove(gone.last().0));
        assert forall|k: u64| #[trigger] without_tokens(m, gone).contains_key(k) implies without_tokens(m, gone)[k] == m[k] by {
            assert(w.contains_key(k));
        }
        assert forall|k: u64| #[trigger] without_tokens(m, gone).contains_key(k) <==> m.contains_key(k)
            && !(exists|j: int| 0 <= j < gone.len() && gone[j].0 == k) by {
            assert(w.contains_key(k) <==> m.contains_key(k) && !(exists|j: int| 0 <= j < d.len() && d[j].0 == k));
            if exists|j: int| 0 <= j < gone.len() && gone[j].0 == k {
                let j = choose|j: int| 0 <= j < gone.len() && gone[j].0 == k;
                if j < gone.len() - 1 {
                    assert(d[j].0 == k);
                }
            }
            if exists|j: int| 0 <= j < d.len() && d[j].0 == k {
                let j = choose|j: int| 0 <= j < d.len() && d[j].0 == k;
                assert(gone[j].0 == k);
            }
        }
    }
}

/// How long a node waits between two rounds of probing its peers, in
/// milliseconds.
pub const HEARTBEAT_PERIOD_MS: u64 = 2500;

/// The messages of the gossiping membership protocol.
pub enum GossipMsg {
    /// A liveness probe; it asks for nothing.
    HeartbeatMsg,
    /// A peer's lookup table.
    LookupTableMsg(Vec<(u64, SocketAddrV4)>),
    /// A peer announces itself.
    RegisterTokenMsg(RegisterTokenMsg),
}


impl TableMsg for GossipMsg {
    open spec fn carries_table(&self, e: Seq<(u64, SocketAddrV4)>) -> bool {
        self matches GossipMsg::LookupTableMsg(v) && v@ == e
    }

    open spec fn carries_registration(&self, m: RegisterTokenMsg) -> bool {
        *self == GossipMsg::RegisterTokenMsg(m)
    }

    fn table_msg(e: Vec<(u64, SocketAddrV4)>) -> (r: Self) {
        GossipMsg::LookupTableMsg(e)
    }

    fn registration_msg(m: RegisterTokenMsg) -> (r: Self) {
        GossipMsg::RegisterTokenMsg(m)
    }
}

/// The state of a node of the gossiping service: its own token and
/// addresses, the lookup table (token to application address, itself
/// included) and the service addresses of its peers.
pub struct GossipNode {
    pub token: u64,
    pub app_addr: SocketAddrV4,
    pub service_addr: SocketAddrV4,
    pub lookup_table: BTreeMap<u64, SocketAddrV4>,
    pub service_addr_table: BTreeMap<u64, SocketAddrV4>,
}

/// The message by which a node joins through a seed.
pub open spec fn join_msg(token: u64, app_addr: SocketAddrV4, service_addr: SocketAddrV4) -> RegisterTokenMsg {
    RegisterTokenMsg { token, app_addr, service_addr, join_ind: true }
}

/// The table without the tokens of `gone`.
pub open spec fn without_tokens(m: Map<u64, SocketAddrV4>, gone: Seq<(u64, SocketAddrV4)>) -> Map<u64, SocketAddrV4>
    decreases gone.len(),
{
    if gone.len() == 0 {
        m
    } else {
        without_tokens(m, gone.drop_last()).remove(gone.last().0)
    }
}

/// Starts a node of the gossiping service: the node enters itself in the
/// lookup table and, given a seed, sends it a join message.
pub fn start(
    token: u64,
    app_addr: SocketAddrV4,
    service_addr: SocketAddrV4,
    seed_addr: Option<SocketAddrV4>,
    lookup_table: BTreeMap<u64, SocketAddrV4>,
) -> (r: (GossipNode, Option<Outgoing<GossipMsg>>))
    ensures
        r.0.token == token,
        r.0.app_addr == app_addr,
        r.0.service_addr == service_addr,
        r.0.lookup_table@ == lookup_table@.insert(token, app_addr),
        r.0.service_addr_table@ == Map::<u64, SocketAddrV4>::empty(),
        match seed_addr {
            Some(seed) => r.1 matches Some(o) && o.to == seed && o.msg == GossipMsg::RegisterTokenMsg(
                join_msg(token, app_addr, service_addr),
            ),
            None => r.1 is None,
        },
{
    proof { lemma_u64_keys_ordered(); }
    let mut lookup_table = lookup_table;
    lookup_table.insert(token, app_addr);
    let node = GossipNode { token, app_addr, service_addr, lookup_table, service_addr_table: BTreeMap::new() };
    let join = match seed_addr {
        Some(seed) => Some(Outgoing::<GossipMsg> {
            to: seed,
            msg: GossipMsg::RegisterTokenMsg(RegisterTokenMsg { token, app_addr, service_addr, join_ind: true }),
        }),
        None => None,
    };
    (node, join)
}

/// Every node ends up knowing every node, at the right address. Suppose
/// all nodes hold the same lookup table, the seed's own entry among them,
/// and the seed holds the service address of every other node. A peer with
/// a token new to the ring joins through the seed; the seed answers it and
/// passes the registration on (`handle_msg`), and these messages arrive.
/// Then the seed, every other node (each one gets the passed-on
/// registration, which the seed sends to every token it holds but the
/// joiner's) and the joiner itself hold the same table: the old one with
/// the joiner's entry added. The seed again holds the service address of
/// every other node, ready for the next join. The joiner starts from a
/// table that holds its own entry and agrees with the new table (`start`
/// with an empty table gives just its own entry).
pub proof fn lemma_join_spreads(
    seed: GossipNode,
    members: Seq<GossipNode>,
    msg: RegisterTokenMsg,
    joiner_table: Map<u64, SocketAddrV4>,
    reply: Seq<(u64, SocketAddrV4)>,
)
    requires
        msg.join_ind,
        seed.lookup_table@.contains_key(seed.token),
        seed.lookup_table@[seed.token] == seed.app_addr,
        !seed.lookup_table@.contains_key(msg.token),
        forall|i: int| 0 <= i < members.len() ==> #[trigger] members[i].lookup_table@ == seed.lookup_table@,
        seed.service_addr_table@.dom() == seed.lookup_table@.dom().remove(seed.token),
        joiner_table.contains_key(msg.token),
        joiner_table.submap_of(seed.lookup_table@.insert(msg.token, msg.app_addr)),
        is_reply_table(with_token(seed.lookup_table@, msg.token, msg.app_addr), msg.token, (seed.token, seed.app_addr), reply),
    ensures
        ({
            let ring = seed.lookup_table@;
            let grown = ring.insert(msg.token, msg.app_addr);
            &&& with_token(ring, msg.token, msg.app_addr) == grown
            &&& forall|i: int| 0 <= i < members.len() ==> #[trigger] with_token(members[i].lookup_table@, msg.token, msg.app_addr)
                == grown
            &&& with_tokens(joiner_table, reply) == grown
            &&& seed.service_addr_table@.remove(msg.token).dom() == ring.dom().remove(seed.token)
            &&& with_token(seed.service_addr_table@, msg.token, msg.service_addr).dom() == grown.dom().remove(seed.token)
        }),
{
    let ring = seed.lookup_table@;
    let t = msg.token;
    lemma_join_step(ring, (seed.token, seed.app_addr), t, msg.app_addr, joiner_table, reply);
    assert(seed.service_addr_table@.remove(t).dom() =~= ring.dom().remove(seed.token));
    assert(with_token(seed.service_addr_table@, t, msg.service_addr).dom() =~= ring.insert(t, msg.app_addr).dom().remove(seed.token));
}

impl GossipNode {
    /// Handles one message from a peer: gives the event for the
    /// application, if any, and the messages to send.
    pub fn handle_msg(&mut self, msg: GossipMsg) -> (r: (Option<Event>, Vec<Outgoing<GossipMsg>>))
        ensures
            final(self).token == old(self).token,
            final(self).app_addr == old(self).app_addr,
            final(self).service_addr == old(self).service_addr,
            match msg {
                GossipMsg::HeartbeatMsg => {
                    &&& r.0 is None
                    &&& r.1@.len() == 0
                    &&& final(self).lookup_table@ == old(self).lookup_table@
                    &&& final(self).service_addr_table@ == old(self).service_addr_table@
                },
                GossipMsg::LookupTableMsg(e) => {
                    &&& (r.0 matches Some(Event::LookupTableMsgEvent(map)) && map@ == entries_map(e@))
                    &&& r.1@.len() == 0
                    &&& final(self).lookup_table@ == with_tokens(old(self).lookup_table@, e@)
                    &&& final(self).service_addr_table@ == old(self).service_addr_table@
                },
                GossipMsg::RegisterTokenMsg(m) => {
                    &&& r.0 == Some(Event::RegisterNodeEvent(m.token, m.app_addr))
                    &&& final(self).lookup_table@ == with_token(old(self).lookup_table@, m.token, m.app_addr)
                    &&& final(self).service_addr_table@ == with_token(old(self).service_addr_table@, m.token, m.service_addr)
                    &&& registration_sends(old(self).lookup_table@, old(self).service_addr_table@, (old(self).token, old(self).app_addr), m, r.1@)
                },
            },
    {
        match msg {
            GossipMsg::HeartbeatMsg => (None, Vec::new()),
            GossipMsg::LookupTableMsg(entries) => {
                let map = merge_entries(&mut self.lookup_table, &entries);
                (Some(Event::LookupTableMsgEvent(map)), Vec::new())
            },
            GossipMsg::RegisterTokenMsg(m) => {
                let sends = take_registration::<GossipMsg>(&mut self.lookup_table, &mut self.service_addr_table, self.token, self.app_addr, &m);
                (Some(Event::RegisterNodeEvent(m.token, m.app_addr)), sends)
            },
        }
    }

    /// The peers to probe, with their tokens, in token order.
    pub fn heartbeat_targets(&self) -> (r: Vec<(u64, SocketAddrV4)>)
        ensures
            is_listing(self.service_addr_table@, r@),
    {
        entries_except(&self.service_addr_table, None)
    }

    /// Drops the peers that did not answer a probe from both tables; gives
    /// one removal event for each, in order.
    pub fn remove_nodes(&mut self, failed: &Vec<(u64, SocketAddrV4)>) -> (r: Vec<Event>)
        ensures
            final(self).token == old(self).token,
            final(self).app_addr == old(self).app_addr,
            final(self).service_addr == old(self).service_addr,
            final(self).lookup_table@ == without_tokens(old(self).lookup_table@, failed@),
            final(self).service_addr_table@ == without_tokens(old(self).service_addr_table@, failed@),
            r@.len() == failed@.len(),
            forall|j: int| 0 <= j < failed@.len() ==> #[trigger] r@[j] == Event::RemoveNodeEvent(failed@[j].0, failed@[j].1),
    {
        proof { lemma_u64_keys_ordered(); }
        let mut events: Vec<Event> = Vec::new();
        let mut i: usize = 0;
        while i < failed.len()
            invariant
                i <= failed@.len(),
                self.token == old(self).token,
                self.app_addr == old(self).app_addr,
                self.service_addr == old(self).service_addr,
                self.lookup_table@ == without_tokens(old(self).lookup_table@, failed@.take(i as int)),
                self.service_addr_table@ == without_tokens(old(self).service_addr_table@, failed@.take(i as int)),
                events@.len() == i,
                forall|j: int| 0 <= j < i ==> #[trigger] events@[j] == Event::RemoveNodeEvent(failed@[j].0, failed@[j].1),
            decreases failed@.len() - i,
        {
            let (token, socket_addr) = failed[i];
            assert(failed@.take(i + 1).drop_last() =~= failed@.take(i as int));
            self.service_addr_table.remove(&token);
            self.lookup_table.remove(&token);
            events.push(Event::RemoveNodeEvent(token, socket_addr));
            i = i + 1;
        }
        assert(failed@.take(failed@.len() as int) =~= failed@);
        events
    }
}

} // verus!
