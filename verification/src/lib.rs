//! A node of a small file-hosting mesh: resumable chunked storage of byte
//! artifacts, signed access tokens in front of it, and the announcement of
//! this node to its directory peers.
pub mod connector;
pub mod err;
pub mod server;
pub mod store;
pub mod text;
pub mod util;
