//! Channels and their members.

pub mod channel;
pub mod member;
