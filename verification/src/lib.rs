//! A proxy for HTTP `CONNECT` requests: what it reads, what it allows, and what it relays.
//!
//! Nothing in this crate touches a socket. The caller reads and writes, and the types here
//! say what was read, whether it is allowed, and what is to be done next.

pub mod access;
pub mod grammar;
pub mod laws;
pub mod parser;
pub mod relay;
pub mod requests;
pub mod session;
pub mod stream;
pub mod text;
