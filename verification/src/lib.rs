//! Core of a TCP presence/registration service: the connection registry with
//! its uniqueness invariants, the command parser and dispatcher, and the
//! response codec. Transport I/O and console logging live outside this crate;
//! every function here is verified.

pub mod laws;
pub mod protocol;
pub mod registry;
pub mod session;
