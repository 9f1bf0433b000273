use crate::addr::SocketAddrV4;
use std::collections::BTreeMap;
use vstd::prelude::*;

verus! {

/// What a zero-hop membership service tells the application.
pub enum Event {
    /// A peer asked for the node responsible for a token.
    LookupMsgEvent(u64),
    /// A peer sent its lookup table; these are its entries.
    LookupTableMsgEvent(BTreeMap<u64, SocketAddrV4>),
    /// A peer registered: its token and application address.
    RegisterTokenMsgEvent(u64, SocketAddrV4),
}

} // verus!
