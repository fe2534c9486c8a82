use vstd::prelude::*;
use crate::channels::channel::Channel;

verus! {

/// A user as the network knows it.
pub struct User {
    awaymsg: Option<String>,
    channels: Vec<Channel>,
    hopcount: u32,
    hostname: String,
    nickname: String,
    username: String,
    realname: String,
}

} // verus!
