pub mod ack;
pub mod clock;
pub mod dht;
pub mod election;
pub mod instant;
pub mod nat_traversal;
pub mod peer;
pub mod protocol;
pub mod rollback;
pub mod session;
pub mod transport;
