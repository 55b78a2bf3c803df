//! Session core of a direct, peer-to-peer file transfer between one server and
//! one client: the request and transfer frames, chunked movement of bytes, path
//! containment under the served directory, the order files are sent in, the two
//! session engines and the single-slot containers a hosting shell keeps them in.
//!
//! Nothing in this crate performs I/O. Each engine is a state machine: the shell
//! asks it what to do next, does the network or disk work, and reports back.

pub mod address;
pub mod chunk;
pub mod client;
pub mod error;
pub mod frame;
pub mod host;
pub mod order;
pub mod path;
pub mod place;
pub mod request;
pub mod server;
pub mod wire;
