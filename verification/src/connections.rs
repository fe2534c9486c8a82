//! Users known to the server and the server's own state.

pub mod server;
pub mod user;
