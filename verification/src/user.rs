//! Plain user-facing data types of the reading site.

use vstd::prelude::*;

verus! {

/// A reference to a user, with the creation time as seconds since the
/// epoch.
#[derive(Debug)]
pub struct UserRef {
    pub name: String,
    pub created: u64,
}

/// The form data of a signup request.
#[derive(Debug)]
pub struct CreateUserParams {
    pub name: String,
    pub pswd: String,
}

} // verus!
