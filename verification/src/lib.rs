//! A message queue with independent channels.
//!
//! Messages stand in a store, which numbers them. A queue has any number of channels, each of
//! which reads the store at its own pace. A message that was handed out to a channel is in
//! flight there until it is acknowledged; past its deadline it is handed out again. The
//! library makes the decisions. The store and the disk are outside: what they answer is passed
//! in as plain values, and what is to be done with them is returned.

pub mod channel;
pub mod deliveries;
pub mod effects;
pub mod heap;
pub mod histories;
pub mod in_flight;
pub mod laws;
pub mod message;
pub mod names;
pub mod operations;
pub mod queue;
pub mod runs;
