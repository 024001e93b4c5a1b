//! The decision core of the user-token creation endpoint: whether a client
//! may create a token for a user, and the blank token record handed back on
//! success. The surrounding request handling — connection, user lookup,
//! privilege table — stays outside; this function takes the looked-up ids
//! and the granted privileges as plain values.
use vstd::prelude::*;

verus! {

/// Rejection of a token-creation request.
#[derive(Clone, Copy, Debug, PartialEq, Eq, Structural)]
pub enum AccessError {
    /// The client lacks the privilege for the requested target.
    InsufficientPrivilege,
}

/// The fields a user-token record presents to the client.
pub struct UserTokenInfo {
    pub version: i32,
    pub user: String,
    pub token: String,
    pub note: String,
    pub enabled: bool,
    pub expiration_time: String,
    pub creation_time: String,
    pub last_edit_time: String,
    pub last_usage_time: String,
}

impl UserTokenInfo {
    /// A freshly created token record is blank: disabled, version zero, all
    /// text fields empty.
    pub open spec fn is_blank(self) -> bool {
        &&& self.version == 0
        &&& !self.enabled
        &&& self.user@ == Seq::<char>::empty()
        &&& self.token@ == Seq::<char>::empty()
        &&& self.note@ == Seq::<char>::empty()
        &&& self.expiration_time@ == Seq::<char>::empty()
        &&& self.creation_time@ == Seq::<char>::empty()
        &&& self.last_edit_time@ == Seq::<char>::empty()
        &&& self.last_usage_time@ == Seq::<char>::empty()
    }
}

/// Whether creating the token targets the client's own account: true exactly
/// when the client is logged in as the targeted user.
pub open spec fn targets_self(client_id: Option<i32>, user_id: i32) -> bool {
    client_id == Some(user_id)
}

/// Decides a user-token creation request. A client targeting their own
/// account needs the self-target privilege, anyone else the any-target
/// privilege; a granted request yields the blank token record, a denied one
/// the privilege error.
pub fn create_user_token(
    client_id: Option<i32>,
    user_id: i32,
    may_create_for_self: bool,
    may_create_for_any: bool,
) -> (r: Result<UserTokenInfo, AccessError>)
    ensures
        match r {
            Ok(info) => info.is_blank() && (if targets_self(client_id, user_id) {
                may_create_for_self
            } else {
                may_create_for_any
            }),
            Err(e) => e == AccessError::InsufficientPrivilege && !(if targets_self(
                client_id,
                user_id,
            ) {
                may_create_for_self
            } else {
                may_create_for_any
            }),
        },
{
    let for_self = match client_id {
        Some(id) => id == user_id,
        None => false,
    };
    let granted = if for_self {
        may_create_for_self
    } else {
        may_create_for_any
    };
    if !granted {
        return Err(AccessError::InsufficientPrivilege);
    }
    Ok(
        UserTokenInfo {
            version: 0,
            user: String::new(),
            token: String::new(),
            note: String::new(),
            enabled: false,
            expiration_time: String::new(),
            creation_time: String::new(),
            last_edit_time: String::new(),
            last_usage_time: String::new(),
        },
    )
}

} // verus!
