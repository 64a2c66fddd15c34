//! A layer-7 reverse proxy's core: a lock-free stack with epoch-based
//! reclamation, a streaming HTTP/1.x preamble parser, a routing table with
//! round-robin balancers, and the indentation-based configuration format.
use vstd::prelude::*;

pub mod block;
pub mod bytes;
pub mod config;
pub mod epoch;
pub mod header;
pub mod http;
pub mod pool;
pub mod request;
pub mod ring;
pub mod router;
pub mod stack;
pub mod stage;
pub mod startline;
pub mod tree;

verus! {

} // verus!
