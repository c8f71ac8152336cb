//! An in-memory key/value server speaking the inline serialization protocol of the
//! Redis family: the wire codec, a bounded cache with time-to-live and
//! least-recently-used eviction, the command dispatcher, and the decisions of a
//! bully-style leader election.
pub mod cache;
pub mod election;
pub mod resp;
pub mod server;
