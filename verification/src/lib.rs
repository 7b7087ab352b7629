//! A SWIM-style cluster membership library: failure detection, peer
//! exchange and gossip of membership rumours, written as a verified state
//! machine whose effects (messages, timers, notifications) are handed back
//! to the caller to perform.

pub mod address;
pub mod cli;
pub mod codec;
pub mod errors;
pub mod fixed_list;
pub mod gossip;
pub mod laws;
pub mod mill;
pub mod node;
pub mod node_state;
pub mod time;
