use crate::addr::{
    ipv4_text, ipv4_to_string, lemma_ipv4_text_injective, parse_ipv4, socket_addr_of, Ipv4Addr,
    SocketAddrV4,
};
use crate::text::{bool_text, decimal, is_numeral_of, lemma_decimal_is_numeral, push_bool, push_decimal};
use vstd::prelude::*;

verus! {

/// A message that can be shown to a person.
pub trait Message {
    /// The text that shows the message.
    spec fn spec_text(&self) -> Seq<char>;

    /// Shows the message as text, one field per line.
    fn print_text(&self) -> (r: String)
        ensures
            r@ == self.spec_text(),
    ;
}

/// The kinds of message, with their numbers on the wire given by `code`.
#[derive(Clone, Copy, Debug, PartialEq, Eq, Structural)]
pub enum MessageType {
    ResultMsg,
    JoinMsg,
    LookupMsg,
    AddrMsg,
    RegisterTokenMsg,
    GenericMsg,
}

impl MessageType {
    pub open spec fn spec_code(self) -> u8 {
        match self {
            MessageType::ResultMsg => 0,
            MessageType::JoinMsg => 1,
            MessageType::LookupMsg => 2,
            MessageType::AddrMsg => 3,
            MessageType::RegisterTokenMsg => 4,
            MessageType::GenericMsg => 255,
        }
    }

    /// The number of the kind on the wire.
    pub fn code(&self) -> (r: u8)
        ensures
            r == self.spec_code(),
    {
        match self {
            MessageType::ResultMsg => 0,
            MessageType::JoinMsg => 1,
            MessageType::LookupMsg => 2,
            MessageType::AddrMsg => 3,
            MessageType::RegisterTokenMsg => 4,
            MessageType::GenericMsg => 255,
        }
    }
}

/// The numbers of the kinds on the wire: 0 to 4, and 255 for application
/// data.
pub proof fn lemma_message_type_codes()
    ensures
        MessageType::ResultMsg.spec_code() == 0,
        MessageType::JoinMsg.spec_code() == 1,
        MessageType::LookupMsg.spec_code() == 2,
        MessageType::AddrMsg.spec_code() == 3,
        MessageType::RegisterTokenMsg.spec_code() == 4,
        MessageType::GenericMsg.spec_code() == 255,
{
}

/// The outcome of a request, with an error text when there is one.
pub struct ResultMsg {
    success: bool,
    error: Option<String>,
}

impl ResultMsg {
    pub closed spec fn spec_success(&self) -> bool {
        self.success
    }

    pub closed spec fn spec_error(&self) -> Option<Seq<char>> {
        match self.error {
            Some(e) => Some(e@),
            None => None,
        }
    }

    pub fn new(success: bool, error: Option<String>) -> (r: Self)
        ensures
            r.spec_success() == success,
            r.spec_error() == (match error {
                Some(e) => Some(e@),
                None => None::<Seq<char>>,
            }),
    {
        ResultMsg { success, error }
    }

    pub fn get_success(&self) -> (r: bool)
        ensures
            r == self.spec_success(),
    {
        self.success
    }
}

impl Message for ResultMsg {
    open spec fn spec_text(&self) -> Seq<char> {
        let head = "Result message success: "@ + bool_text(self.spec_success());
        match self.spec_error() {
            Some(e) => head + "\nError messasge: "@ + e,
            None => head,
        }
    }

    fn print_text(&self) -> (r: String) {
        let mut s = String::new();
        proof {
            reveal_strlit("Result message success: ");
            reveal_strlit("\nError messasge: ");
        }
        s.append("Result message success: ");
        push_bool(&mut s, self.success);
        match &self.error {
            Some(e) => {
                s.append("\nError messasge: ");
                s.append(e.as_str());
            },
            None => {},
        }
        s
    }
}

/// A node asks to join: its id, token and listening address.
pub struct JoinMsg {
    id: String,
    token: u64,
    ip: String,
    port: u16,
}

impl JoinMsg {
    /// The address is always written in dotted-decimal notation.
    #[verifier::type_invariant]
    spec fn ip_is_text(&self) -> bool {
        exists|a: Ipv4Addr| self.ip@ == ipv4_text(a)
    }

    pub closed spec fn spec_id(&self) -> Seq<char> {
        self.id@
    }

    pub closed spec fn spec_token(&self) -> u64 {
        self.token
    }

    pub closed spec fn spec_ip(&self) -> Seq<char> {
        self.ip@
    }

    pub closed spec fn spec_port(&self) -> u16 {
        self.port
    }

    /// The address that the message carries.
    pub open spec fn spec_socket_addr(&self) -> SocketAddrV4 {
        socket_addr_of(self.spec_ip(), self.spec_port())
    }

    pub fn new(id: String, token: u64, socket_addr: SocketAddrV4) -> (r: Self)
        ensures
            r.spec_id() == id@,
            r.spec_token() == token,
            r.spec_ip() == ipv4_text(socket_addr.ip),
            r.spec_port() == socket_addr.port,
            r.spec_socket_addr() == socket_addr,
    {
        let ip = ipv4_to_string(&socket_addr.ip);
        proof {
            let a = choose|a: Ipv4Addr| ipv4_text(a) == ip@;
            lemma_ipv4_text_injective(a, socket_addr.ip);
        }
        JoinMsg { id, token, ip, port: socket_addr.port }
    }

    pub fn get_id(&self) -> (r: String)
        ensures
            r@ == self.spec_id(),
    {
        self.id.clone()
    }

    pub fn get_token(&self) -> (r: u64)
        ensures
            r == self.spec_token(),
    {
        self.token
    }

    /// The address as the message writes it.
    pub fn get_ip(&self) -> (r: String)
        ensures
            r@ == self.spec_ip(),
    {
        self.ip.clone()
    }

    pub fn get_port(&self) -> (r: u16)
        ensures
            r == self.spec_port(),
    {
        self.port
    }

    /// The address the message was made from.
    pub fn get_socket_addr(&self) -> (r: SocketAddrV4)
        ensures
            r == self.spec_socket_addr(),
            ipv4_text(r.ip) == self.spec_ip(),
            r.port == self.spec_port(),
    {
        proof { use_type_invariant(self); }
        let ip = match parse_ipv4(self.ip.as_str()) {
            Some(ip) => ip,
            // the invariant makes the text parse, so this arm is never taken
            None => Ipv4Addr { a: 0, b: 0, c: 0, d: 0 },
        };
        proof {
            let a = choose|a: Ipv4Addr| ipv4_text(a) == self.ip@;
            lemma_ipv4_text_injective(a, ip);
        }
        SocketAddrV4::new(ip, self.port)
    }
}

impl Message for JoinMsg {
    open spec fn spec_text(&self) -> Seq<char> {
        "id: "@ + self.spec_id() + "\ntoken: "@ + decimal(self.spec_token() as nat) + "\nip: "@
            + self.spec_ip() + "\nport: "@ + decimal(self.spec_port() as nat)
    }

    fn print_text(&self) -> (r: String) {
        let mut s = String::new();
        proof {
            reveal_strlit("id: ");
            reveal_strlit("\ntoken: ");
            reveal_strlit("\nip: ");
            reveal_strlit("\nport: ");
        }
        s.append("id: ");
        s.append(self.id.as_str());
        s.append("\ntoken: ");
        push_decimal(&mut s, self.token);
        s.append("\nip: ");
        s.append(self.ip.as_str());
        s.append("\nport: ");
        push_decimal(&mut s, self.port as u64);
        s
    }
}

/// A result message reads `Result message success: ` then `true` or
/// `false`, then, when there is an error text, a line with it.
pub proof fn lemma_result_msg_text(m: ResultMsg)
    ensures
        m.spec_text() == "Result message success: "@ + (if m.spec_success() { "true"@ } else { "false"@ }) + match m.spec_error() {
            Some(e) => "\nError messasge: "@ + e,
            None => Seq::<char>::empty(),
        },
{
    reveal_strlit("true");
    reveal_strlit("false");
    assert(bool_text(true) =~= "true"@);
    assert(bool_text(false) =~= "false"@);
    match m.spec_error() {
        Some(e) => {},
        None => {
            let head = "Result message success: "@ + bool_text(m.spec_success());
            assert(head + Seq::<char>::empty() =~= head);
        },
    }
}

/// A join message reads its id, the numeral of its token, its address text
/// and the numeral of its port, one per line, for every token and port.
pub proof fn lemma_join_msg_text(m: JoinMsg)
    ensures
        exists|dt: Seq<char>, dp: Seq<char>| {
            &&& is_numeral_of(dt, m.spec_token() as nat)
            &&& is_numeral_of(dp, m.spec_port() as nat)
            &&& m.spec_text() == "id: "@ + m.spec_id() + "\ntoken: "@ + dt + "\nip: "@ + m.spec_ip() + "\nport: "@ + dp
        },
{
    lemma_decimal_is_numeral(m.spec_token() as nat);
    lemma_decimal_is_numeral(m.spec_port() as nat);
    let dt = decimal(m.spec_token() as nat);
    let dp = decimal(m.spec_port() as nat);
    assert(m.spec_text() == "id: "@ + m.spec_id() + "\ntoken: "@ + dt + "\nip: "@ + m.spec_ip() + "\nport: "@ + dp);
}

/// A request for the node responsible for a token.
pub struct LookupMsg {
    token: u64,
}

impl LookupMsg {
    pub closed spec fn spec_token(&self) -> u64 {
        self.token
    }

    pub fn new(token: u64) -> (r: Self)
        ensures
            r.spec_token() == token,
    {
        LookupMsg { token }
    }

    pub fn get_token(&self) -> (r: u64)
        ensures
            r == self.spec_token(),
    {
        self.token
    }
}

impl Message for LookupMsg {
    open spec fn spec_text(&self) -> Seq<char> {
        "token: "@ + decimal(self.spec_token() as nat)
    }

    fn print_text(&self) -> (r: String) {
        let mut s = String::new();
        proof { reveal_strlit("token: "); }
        s.append("token: ");
        push_decimal(&mut s, self.token);
        s
    }
}

/// A lookup message reads `token: ` and the numeral of its token, for every
/// token.
pub proof fn lemma_lookup_msg_text(m: LookupMsg)
    ensures
        exists|d: Seq<char>| is_numeral_of(d, m.spec_token() as nat) && m.spec_text() == "token: "@ + d,
{
    lemma_decimal_is_numeral(m.spec_token() as nat);
    assert(m.spec_text() == "token: "@ + decimal(m.spec_token() as nat));
}

/// An address, as the answer to a lookup.
pub struct AddrMsg {
    ip: String,
    port: u16,
}

impl AddrMsg {
    /// The address is always written in dotted-decimal notation.
    #[verifier::type_invariant]
    spec fn ip_is_text(&self) -> bool {
        exists|a: Ipv4Addr| self.ip@ == ipv4_text(a)
    }

    pub closed spec fn spec_ip(&self) -> Seq<char> {
        self.ip@
    }

    pub closed spec fn spec_port(&self) -> u16 {
        self.port
    }

    /// The address that the message carries.
    pub open spec fn spec_socket_addr(&self) -> SocketAddrV4 {
        socket_addr_of(self.spec_ip(), self.spec_port())
    }

    pub fn new(socket_addr: SocketAddrV4) -> (r: Self)
        ensures
            r.spec_ip() == ipv4_text(socket_addr.ip),
            r.spec_port() == socket_addr.port,
            r.spec_socket_addr() == socket_addr,
    {
        let ip = ipv4_to_string(&socket_addr.ip);
        proof {
            let a = choose|a: Ipv4Addr| ipv4_text(a) == ip@;
            lemma_ipv4_text_injective(a, socket_addr.ip);
        }
        AddrMsg { ip, port: socket_addr.port }
    }

    /// The address the message was made from.
    pub fn get_socket_addr(&self) -> (r: SocketAddrV4)
        ensures
            r == self.spec_socket_addr(),
            ipv4_text(r.ip) == self.spec_ip(),
            r.port == self.spec_port(),
    {
        proof { use_type_invariant(self); }
        let ip = match parse_ipv4(self.ip.as_str()) {
            Some(ip) => ip,
            // the invariant makes the text parse, so this arm is never taken
            None => Ipv4Addr { a: 0, b: 0, c: 0, d: 0 },
        };
        proof {
            let a = choose|a: Ipv4Addr| ipv4_text(a) == self.ip@;
            lemma_ipv4_text_injective(a, ip);
        }
        SocketAddrV4::new(ip, self.port)
    }
}

impl Message for AddrMsg {
    open spec fn spec_text(&self) -> Seq<char> {
        "ip: "@ + self.spec_ip() + "\nport: "@ + decimal(self.spec_port() as nat)
    }

    fn print_text(&self) -> (r: String) {
        let mut s = String::new();
        proof {
            reveal_strlit("ip: ");
            reveal_strlit("\nport: ");
        }
        s.append("ip: ");
        s.append(self.ip.as_str());
        s.append("\nport: ");
        push_decimal(&mut s, self.port as u64);
        s
    }
}

/// An address message reads its address text and the numeral of its port,
/// one per line, for every port.
pub proof fn lemma_addr_msg_text(m: AddrMsg)
    ensures
        exists|dp: Seq<char>| is_numeral_of(dp, m.spec_port() as nat)
            && m.spec_text() == "ip: "@ + m.spec_ip() + "\nport: "@ + dp,
{
    lemma_decimal_is_numeral(m.spec_port() as nat);
    assert(m.spec_text() == "ip: "@ + m.spec_ip() + "\nport: "@ + decimal(m.spec_port() as nat));
}

} // verus!
