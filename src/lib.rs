//! Core of a Raft-style replicated log: the node state machine, a paged
//! checksummed log codec, a page cache, and a checksummed RPC frame format.
pub mod bytes;
pub mod codec;
pub mod rpc;
pub mod node;
pub mod page_cache;
pub mod safety;
