use vstd::prelude::*;
use crate::connections::user::User;

verus! {

/// A user's membership of a channel, with its membership mode letters (e.g. `q`, `o`, `v`).
pub struct Member {
    user: User,
    modes: String,
}

} // verus!
