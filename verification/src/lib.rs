//! Core logic of a small IRC server: message and tag parsing, line framing
//! of the byte stream, command dispatch and configuration checks.

pub mod text;
pub mod parser;
pub mod transport;
pub mod commands;
pub mod server;
pub mod handle_connection;
pub mod config;
pub mod channels;
pub mod connections;
