//! The account information the portal keeps about one user.
use vstd::prelude::*;
use crate::group_descriptor::GroupDescriptor;

verus! {

/// One user's account state.
#[derive(Debug)]
pub struct UserInfo {
    /// The count of api keys.
    pub api_key_count: u64,
    /// Last password modification timestamp. `None` for a user who has no
    /// password, or who has never changed it since the tracking began.
    pub last_password_mod: Option<i64>,
    /// The email address, with its verification state.
    pub email: (String, bool),
    /// Which groups the user is in.
    pub group_desc: GroupDescriptor,
    /// Last colors modification timestamp.
    pub last_colors_mod: i64,
    /// Whether the account has a password.
    pub has_password: bool,
}

} // verus!
