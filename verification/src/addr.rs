use crate::text::{
    all_digits, char_digit, decimal, digit_value, is_digit, is_numeral_of, lemma_decimal_is_numeral,
    lemma_decimal_shape, lemma_numeral_is_decimal, numeral_value, push_decimal,
};
use vstd::prelude::*;
use vstd::std_specs::iter::IteratorSpec;

verus! {

/// An IPv4 address, held as its four octets in network order.
#[derive(Clone, Copy, Debug, PartialEq, Eq, Structural)]
pub struct Ipv4Addr {
    pub a: u8,
    pub b: u8,
    pub c: u8,
    pub d: u8,
}

/// An IPv4 socket address: an address and a port.
#[derive(Clone, Copy, Debug, PartialEq, Eq, Structural)]
pub struct SocketAddrV4 {
    pub ip: Ipv4Addr,
    pub port: u16,
}

/// The dotted-decimal text of an address, such as `127.0.0.1`.
pub open spec fn ipv4_text(ip: Ipv4Addr) -> Seq<char> {
    decimal(ip.a as nat) + seq!['.'] + decimal(ip.b as nat) + seq!['.'] + decimal(ip.c as nat)
        + seq!['.'] + decimal(ip.d as nat)
}

/// The text of a socket address, such as `127.0.0.1:8080`.
pub open spec fn socket_addr_text(addr: SocketAddrV4) -> Seq<char> {
    ipv4_text(addr.ip) + seq![':'] + decimal(addr.port as nat)
}

/// How many characters the numeral of `o` takes.
pub open spec fn octet_len(o: u8) -> int {
    decimal(o as nat).len() as int
}

/// The socket address whose address is written `ip` (where `ip` is the text
/// of some address) and whose port is `port`.
pub open spec fn socket_addr_of(ip: Seq<char>, port: u16) -> SocketAddrV4 {
    SocketAddrV4 { ip: choose|a: Ipv4Addr| ipv4_text(a) == ip, port }
}

/// At `start`, `s` holds the numeral of `o`, not followed by another digit.
pub open spec fn is_octet_at(s: Seq<char>, start: int, o: u8) -> bool {
    let end = start + decimal(o as nat).len();
    &&& 0 <= start
    &&& end <= s.len()
    &&& s.subrange(start, end) == decimal(o as nat)
    &&& (end == s.len() || !is_digit(s[end]))
}

/// At `start`, `s` holds the numeral of `o`, then a dot, or, for the last
/// field, nothing more.
pub open spec fn is_field_at(s: Seq<char>, start: int, o: u8, last: bool) -> bool {
    let end = start + decimal(o as nat).len();
    &&& is_octet_at(s, start, o)
    &&& if last { end == s.len() } else { end < s.len() && s[end] == '.' }
}

impl Ipv4Addr {
    pub fn new(a: u8, b: u8, c: u8, d: u8) -> (r: Ipv4Addr)
        ensures
            r == (Ipv4Addr { a, b, c, d }),
    {
        Ipv4Addr { a, b, c, d }
    }

    pub fn octets(&self) -> (r: [u8; 4])
        ensures
            r@ == seq![self.a, self.b, self.c, self.d],
    {
        [self.a, self.b, self.c, self.d]
    }
}

impl SocketAddrV4 {
    pub fn new(ip: Ipv4Addr, port: u16) -> (r: SocketAddrV4)
        ensures
            r == (SocketAddrV4 { ip, port }),
    {
        SocketAddrV4 { ip, port }
    }

    pub fn ip(&self) -> (r: Ipv4Addr)
        ensures
            r == self.ip,
    {
        self.ip
    }

    pub fn port(&self) -> (r: u16)
        ensures
            r == self.port,
    {
        self.port
    }
}

/// Two numerals read at the same place of `s` are the same numeral.
pub proof fn lemma_octet_unique(s: Seq<char>, start: int, o1: u8, o2: u8)
    requires
        is_octet_at(s, start, o1),
        is_octet_at(s, start, o2),
    ensures
        o1 == o2,
{
    lemma_decimal_shape(o1 as nat);
    lemma_decimal_shape(o2 as nat);
    let l1 = decimal(o1 as nat).len() as int;
    let l2 = decimal(o2 as nat).len() as int;
    if l1 < l2 {
        assert(s[start + l1] == decimal(o2 as nat)[l1]);
        assert(is_digit(decimal(o2 as nat)[l1]));
    } else if l2 < l1 {
        assert(s[start + l2] == decimal(o1 as nat)[l2]);
        assert(is_digit(decimal(o1 as nat)[l2]));
    }
    assert(decimal(o1 as nat) == decimal(o2 as nat));
}

/// Where the fields of an address's text begin.
pub proof fn lemma_text_fields(ip: Ipv4Addr)
    ensures
        ({
            let t = ipv4_text(ip);
            let p1 = octet_len(ip.a) + 1;
            let p2 = p1 + octet_len(ip.b) + 1;
            let p3 = p2 + octet_len(ip.c) + 1;
            &&& is_field_at(t, 0, ip.a, false)
            &&& is_field_at(t, p1, ip.b, false)
            &&& is_field_at(t, p2, ip.c, false)
            &&& is_field_at(t, p3, ip.d, true)
        }),
{
    let t = ipv4_text(ip);
    let da = decimal(ip.a as nat);
    let db = decimal(ip.b as nat);
    let dc = decimal(ip.c as nat);
    let dd = decimal(ip.d as nat);
    let p1 = octet_len(ip.a) + 1;
    let p2 = p1 + octet_len(ip.b) + 1;
    let p3 = p2 + octet_len(ip.c) + 1;
    assert(t.subrange(0, da.len() as int) =~= da);
    assert(t[da.len() as int] == '.');
    assert(t.subrange(p1, p1 + octet_len(ip.b)) =~= db);
    assert(t[p1 + octet_len(ip.b)] == '.');
    assert(t.subrange(p2, p2 + octet_len(ip.c)) =~= dc);
    assert(t[p2 + octet_len(ip.c)] == '.');
    assert(t.subrange(p3, p3 + octet_len(ip.d)) =~= dd);
    assert(t.len() == p3 + octet_len(ip.d));
}

/// Different addresses have different texts.
pub proof fn lemma_ipv4_text_injective(x: Ipv4Addr, y: Ipv4Addr)
    ensures
        ipv4_text(x) == ipv4_text(y) ==> x == y,
{
    if ipv4_text(x) == ipv4_text(y) {
        lemma_text_fields(x);
        lemma_text_fields(y);
        let t = ipv4_text(x);
        lemma_octet_unique(t, 0, x.a, y.a);
        let p1 = octet_len(x.a) + 1;
        lemma_octet_unique(t, p1, x.b, y.b);
        let p2 = p1 + octet_len(x.b) + 1;
        lemma_octet_unique(t, p2, x.c, y.c);
        let p3 = p2 + octet_len(x.c) + 1;
        lemma_octet_unique(t, p3, x.d, y.d);
    }
}

/// The text of an address is four numerals, of its four octets in order,
/// separated by dots.
pub proof fn lemma_ipv4_text_parts(ip: Ipv4Addr)
    ensures
        exists|d1: Seq<char>, d2: Seq<char>, d3: Seq<char>, d4: Seq<char>| {
            &&& is_numeral_of(d1, ip.a as nat)
            &&& is_numeral_of(d2, ip.b as nat)
            &&& is_numeral_of(d3, ip.c as nat)
            &&& is_numeral_of(d4, ip.d as nat)
            &&& ipv4_text(ip) == d1 + seq!['.'] + d2 + seq!['.'] + d3 + seq!['.'] + d4
        },
{
    let d1 = decimal(ip.a as nat);
    let d2 = decimal(ip.b as nat);
    let d3 = decimal(ip.c as nat);
    let d4 = decimal(ip.d as nat);
    lemma_decimal_is_numeral(ip.a as nat);
    lemma_decimal_is_numeral(ip.b as nat);
    lemma_decimal_is_numeral(ip.c as nat);
    lemma_decimal_is_numeral(ip.d as nat);
    assert(ipv4_text(ip) == d1 + seq!['.'] + d2 + seq!['.'] + d3 + seq!['.'] + d4);
}

/// The text of a socket address is the text of its address, a colon, and
/// the numeral of its port, for every port.
pub proof fn lemma_socket_addr_text_parts(addr: SocketAddrV4)
    ensures
        exists|d: Seq<char>| is_numeral_of(d, addr.port as nat)
            && socket_addr_text(addr) == ipv4_text(addr.ip) + seq![':'] + d,
{
    lemma_decimal_is_numeral(addr.port as nat);
    assert(socket_addr_text(addr) == ipv4_text(addr.ip) + seq![':'] + decimal(addr.port as nat));
}

/// Writes an address in dotted-decimal notation.
pub fn ipv4_to_string(ip: &Ipv4Addr) -> (r: String)
    ensures
        r@ == ipv4_text(*ip),
        exists|d1: Seq<char>, d2: Seq<char>, d3: Seq<char>, d4: Seq<char>| {
            &&& is_numeral_of(d1, ip.a as nat)
            &&& is_numeral_of(d2, ip.b as nat)
            &&& is_numeral_of(d3, ip.c as nat)
            &&& is_numeral_of(d4, ip.d as nat)
            &&& r@ == d1 + seq!['.'] + d2 + seq!['.'] + d3 + seq!['.'] + d4
        },
{
    proof { lemma_ipv4_text_parts(*ip); }
    let mut s = String::new();
    push_decimal(&mut s, ip.a as u64);
    proof { reveal_strlit("."); }
    s.append(".");
    push_decimal(&mut s, ip.b as u64);
    s.append(".");
    push_decimal(&mut s, ip.c as u64);
    s.append(".");
    push_decimal(&mut s, ip.d as u64);
    assert(s@ =~= ipv4_text(*ip));
    s
}

/// Writes a socket address as `ip:port`.
pub fn socket_addr_to_string(addr: &SocketAddrV4) -> (r: String)
    ensures
        r@ == socket_addr_text(*addr),
        exists|d: Seq<char>| is_numeral_of(d, addr.port as nat) && r@ == ipv4_text(addr.ip) + seq![':'] + d,
{
    proof { lemma_socket_addr_text_parts(*addr); }
    let mut s = ipv4_to_string(&addr.ip);
    proof { reveal_strlit(":"); }
    s.append(":");
    push_decimal(&mut s, addr.port as u64);
    assert(s@ =~= socket_addr_text(*addr));
    s
}

proof fn lemma_run_is_octet(s: Seq<char>, start: int, end: int, o: u8)
    requires
        0 <= start <= end <= s.len(),
        forall|i: int| start <= i < end ==> is_digit(#[trigger] s[i]),
        end == s.len() || !is_digit(s[end]),
        is_octet_at(s, start, o),
    ensures
        end == start + decimal(o as nat).len(),
        s.subrange(start, end) == decimal(o as nat),
{
    lemma_decimal_shape(o as nat);
    let l = decimal(o as nat).len() as int;
    if start + l < end {
        assert(is_digit(s[start + l]));
    } else if start + l > end {
        assert(s[end] == decimal(o as nat)[end - start]);
        assert(is_digit(decimal(o as nat)[end - start]));
    }
}

/// Reads the numeral of an octet at `start`, then a dot or (for the last
/// field) the end of the text; gives the octet and where the next field
/// begins.
fn field_at(v: &Vec<char>, start: usize, last: bool) -> (r: Option<(u8, usize)>)
    requires
        start <= v.len(),
    ensures
        match r {
            Some((o, next)) => is_field_at(v@, start as int, o, last) && next == start
                + octet_len(o) + if last { 0int } else { 1int } && next <= v.len(),
            None => forall|o: u8| !is_field_at(v@, start as int, o, last),
        },
{
    let mut end = start;
    while end < v.len() && char_digit(v[end]).is_some()
        invariant
            start <= end <= v.len(),
            forall|i: int| start <= i < end ==> is_digit(#[trigger] v@[i]),
        decreases v.len() - end,
    {
        end = end + 1;
    }
    let ghost run = v@.subrange(start as int, end as int);
    let count = end - start;
    if count == 0 || count > 3 || (count > 1 && v[start] == '0') {
        proof {
            assert forall|o: u8| !is_field_at(v@, start as int, o, last) by {
                if is_field_at(v@, start as int, o, last) {
                    lemma_run_is_octet(v@, start as int, end as int, o);
                    lemma_decimal_shape(o as nat);
                    assert(run[0] == v@[start as int]);
                }
            }
        }
        return None;
    }
    let mut val: u32 = 0;
    let mut i = start;
    while i < end
        invariant
            start <= i <= end,
            end - start <= 3,
            end <= v.len(),
            forall|j: int| start <= j < end ==> is_digit(#[trigger] v@[j]),
            val == numeral_value(v@.subrange(start as int, i as int)),
            val < 1000,
            i - start == 0 ==> val == 0,
            i - start == 1 ==> val < 10,
            i - start == 2 ==> val < 100,
        decreases end - i,
    {
        let d = match char_digit(v[i]) {
            Some(d) => d,
            None => 0,
        };
        proof {
            assert(is_digit(v@[i as int]));
            let p = v@.subrange(start as int, i + 1);
            assert(p.drop_last() =~= v@.subrange(start as int, i as int));
            assert(p.last() == v@[i as int]);
        }
        val = val * 10 + d;
        i = i + 1;
    }
    proof {
        assert(all_digits(run)) by {
            assert forall|j: int| 0 <= j < run.len() implies is_digit(#[trigger] run[j]) by {
                assert(run[j] == v@[start + j]);
            }
        }
        assert(run[0] == v@[start as int]);
        lemma_numeral_is_decimal(run);
    }
    if val > 255 {
        proof {
            assert forall|o: u8| !is_field_at(v@, start as int, o, last) by {
                if is_field_at(v@, start as int, o, last) {
                    lemma_run_is_octet(v@, start as int, end as int, o);
                    lemma_decimal_shape(o as nat);
                }
            }
        }
        return None;
    }
    let o = val as u8;
    assert(decimal(o as nat) == run);
    let ok = if last {
        end == v.len()
    } else {
        end < v.len() && v[end] == '.'
    };
    if !ok {
        proof {
            assert forall|o2: u8| !is_field_at(v@, start as int, o2, last) by {
                if is_field_at(v@, start as int, o2, last) {
                    lemma_run_is_octet(v@, start as int, end as int, o2);
                }
            }
        }
        return None;
    }
    if last {
        Some((o, end))
    } else {
        Some((o, end + 1))
    }
}

/// Reads an address in dotted-decimal notation: four decimal octets
/// separated by dots, with no leading zeros, sign or space. Succeeds exactly
/// on the texts that `ipv4_to_string` writes.
#[verifier::spinoff_prover]
#[verifier::rlimit(40)]
pub fn parse_ipv4(s: &str) -> (r: Option<Ipv4Addr>)
    ensures
        match r {
            Some(ip) => s@ == ipv4_text(ip),
            None => forall|ip: Ipv4Addr| s@ != ipv4_text(ip),
        },
{
    let mut v: Vec<char> = Vec::new();
    let chars = s.chars();
    for c in it: chars
        invariant
            it.seq() == s@,
            v@ == s@.take(it.index()),
    {
        v.push(c);
    }
    assert(v@ =~= s@);
    proof {
        assert forall|ip: Ipv4Addr| #[trigger] ipv4_text(ip) == s@ implies {
            let p1 = octet_len(ip.a) + 1;
            let p2 = p1 + octet_len(ip.b) + 1;
            let p3 = p2 + octet_len(ip.c) + 1;
            &&& is_field_at(v@, 0, ip.a, false)
            &&& is_field_at(v@, p1, ip.b, false)
            &&& is_field_at(v@, p2, ip.c, false)
            &&& is_field_at(v@, p3, ip.d, true)
        } by {
            lemma_text_fields(ip);
        }
    }
    let (a, p1) = match field_at(&v, 0, false) {
        Some(f) => f,
        None => return None,
    };
    assert(forall|ip: Ipv4Addr| #[trigger] ipv4_text(ip) == s@ ==> ip.a == a) by {
        assert forall|ip: Ipv4Addr| #[trigger] ipv4_text(ip) == s@ implies ip.a == a by {
            lemma_octet_unique(v@, 0, ip.a, a);
        }
    }
    let (b, p2) = match field_at(&v, p1, false) {
        Some(f) => f,
        None => return None,
    };
    assert(forall|ip: Ipv4Addr| #[trigger] ipv4_text(ip) == s@ ==> ip.b == b) by {
        assert forall|ip: Ipv4Addr| #[trigger] ipv4_text(ip) == s@ implies ip.b == b by {
            lemma_octet_unique(v@, p1 as int, ip.b, b);
        }
    }
    let (c, p3) = match field_at(&v, p2, false) {
        Some(f) => f,
        None => return None,
    };
    assert(forall|ip: Ipv4Addr| #[trigger] ipv4_text(ip) == s@ ==> ip.c == c) by {
        assert forall|ip: Ipv4Addr| #[trigger] ipv4_text(ip) == s@ implies ip.c == c by {
            lemma_octet_unique(v@, p2 as int, ip.c, c);
        }
    }
    let (d, _) = match field_at(&v, p3, true) {
        Some(f) => f,
        None => return None,
    };
    let ip = Ipv4Addr { a, b, c, d };
    proof {
        let da = decimal(a as nat);
        let db = decimal(b as nat);
        let dc = decimal(c as nat);
        let dd = decimal(d as nat);
        assert(v@ =~= v@.subrange(0, octet_len(a)) + seq!['.'] + v@.subrange(p1 as int, p1 + octet_len(b))
            + seq!['.'] + v@.subrange(p2 as int, p2 + octet_len(c)) + seq!['.'] + v@.subrange(p3 as int, p3 + octet_len(d)));
        assert(v@ =~= ipv4_text(ip));
    }
    Some(ip)
}

} // verus!
