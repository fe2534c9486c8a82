//! Commands of the echoing handler.

pub mod mode;
