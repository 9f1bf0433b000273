use crate::addr::SocketAddrV4;
use std::collections::BTreeMap;
use vstd::prelude::*;

verus! {

/// What the omniscient membership service tells the application.
pub enum Event {
    /// An application message arrived with these bytes; the connection it
    /// came on stays with the caller.
    GenericMsgEvent(Vec<u8>),
    /// A peer asked for the node responsible for a token.
    LookupMsgEvent(u64),
    /// A peer sent its lookup table; these are its entries.
    PeerTableMsgEvent(BTreeMap<u64, SocketAddrV4>),
    /// A peer registered: its token and application address.
    RegisterTokenMsgEvent(u64, SocketAddrV4),
}

} // verus!
