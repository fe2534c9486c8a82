//! Replies to the individual client commands.

pub mod ircvers;
pub mod mode;
pub mod nick;
