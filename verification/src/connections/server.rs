use vstd::prelude::*;
use crate::channels::channel::Channel;
use crate::connections::user::User;

verus! {

/// The server's channels and users.
pub struct Server {
    channels: Vec<Channel>,
    users: Vec<User>,
}

} // verus!
