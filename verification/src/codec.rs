//! The wire formats: shared primitives, then one module per protocol.
pub mod connect;
pub mod daemon;
pub mod peer;
pub mod server;
pub mod structs;
pub mod util;
pub mod wire;
