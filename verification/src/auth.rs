//! Registry authentication choice: basic credentials when both are
//! given, anonymous otherwise.

use vstd::prelude::*;

verus! {

/// How to authenticate against a registry.
#[derive(Debug, PartialEq, Eq)]
pub enum AuthChoice {
    /// No credentials offered.
    Anonymous,
    /// Username and password, offered as basic credentials.
    Basic(String, String),
}

/// The authentication a pull request's optional credentials call for:
/// absent credentials default to anonymous.
pub fn choose_auth(credentials: Option<(String, String)>) -> (r: AuthChoice)
    ensures
        match credentials {
            Some(c) => r == AuthChoice::Basic(c.0, c.1),
            None => r == AuthChoice::Anonymous,
        },
{
    match credentials {
        Some((username, password)) => AuthChoice::Basic(username, password),
        None => AuthChoice::Anonymous,
    }
}

} // verus!
