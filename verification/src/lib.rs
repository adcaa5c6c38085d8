//! Library for hosting a single ranked-choice election over the network:
//! the ballot wire-format codec, the peer-admission service that accepts at
//! most one ballot per remote identity, a worker-pool model with a clean
//! drain protocol, and the election-definition data types.

pub mod ballot;
pub mod client;
pub mod codec;
pub mod election_info;
pub mod service;
pub mod squeeze;
pub mod thread_pool;
