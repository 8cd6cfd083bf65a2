//! The measuring core of a stress test for TURN relays: what is sent and when,
//! how replies are put back in order and counted, how one relay client answers
//! its server, and whether a test of a given size may run at all.

pub mod client;
pub mod jitter;
pub mod laws;
pub mod options;
pub mod receiver;
pub mod report;
pub mod sender;
pub mod stats;
pub mod timespan;
pub mod wire;
