//! A zero-hop distributed hash table: every node keeps a table from ring
//! tokens to node addresses and answers lookups locally.

pub mod addr;
pub mod chord;
pub mod event;
pub mod text;
pub mod gossiping;
pub mod message;
pub mod omniscient;
pub mod protocol;
pub mod service;
pub mod zero_hop;
