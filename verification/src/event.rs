use crate::addr::SocketAddrV4;
use std::collections::BTreeMap;
use vstd::prelude::*;

verus! {

/// What the gossiping membership service tells the application.
pub enum Event {
    /// A peer sent its lookup table; these are its entries.
    LookupTableMsgEvent(BTreeMap<u64, SocketAddrV4>),
    /// A peer stopped answering and was dropped: its token and service address.
    RemoveNodeEvent(u64, SocketAddrV4),
    /// A peer registered: its token and application address.
    RegisterNodeEvent(u64, SocketAddrV4),
}

} // verus!
