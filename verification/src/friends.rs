//! Friend lists and friend requests between users.
use vstd::prelude::*;
use crate::user_desc::UserDesc;
use crate::user_groups::UserGroups;

verus! {

/// A friend request another user sent to this one.
#[derive(Debug)]
pub struct FriendRequestIncoming {
    pub from: (UserDesc, UserGroups),
    pub at_ts: i64,
}

/// A friend request this user sent to another.
#[derive(Debug)]
pub struct FriendRequestOutgoing {
    pub to: (UserDesc, UserGroups),
    pub at_ts: i64,
}

/// Everything about one user's friends.
#[derive(Debug)]
pub struct FriendLists {
    pub friends: Vec<(UserDesc, UserGroups)>,
    pub outgoing: Vec<FriendRequestOutgoing>,
    pub incoming: Vec<FriendRequestIncoming>,
    pub declined: Vec<(UserDesc, UserGroups)>,
}

} // verus!
