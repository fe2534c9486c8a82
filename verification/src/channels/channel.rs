use vstd::prelude::*;
use crate::channels::member::Member;

verus! {

/// A channel: its members, its mode letters and its topic.
pub struct Channel {
    members: Vec<Member>,
    modes: String,
    topic: Option<String>,
}

} // verus!
