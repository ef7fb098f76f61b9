//! Core of a Kademlia-style distributed hash table node: the XOR metric over
//! 256-bit identifiers, the wire codec, the k-bucket routing table, the
//! request-correlation state machine of the service and the iterative lookup.

pub mod id;
pub mod kbucket;
pub mod lookup;
pub mod message;
pub mod node;
pub mod rlp;
pub mod service;
pub mod socket;
