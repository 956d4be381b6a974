//! Verified core of an SSH jump-account manager.
//!
//! The library reconciles three stores: a declarative registry of proxy
//! users, the OS account database, and the SSH daemon's per-user routing
//! directives.  Everything that decides or computes lives here and is
//! verified; reading files, spawning the account and reload commands and
//! taking the advisory lock are left to the thin unverified front end.

use vstd::prelude::*;

pub mod daemon;
pub mod digits;
pub mod parser;
pub mod reconcile;
pub mod registry;
pub mod text;

verus! {

/// Error taxonomy for a single command invocation.
///
/// Every failure surfaces to the top level of the invocation and terminates
/// it with a descriptive message; retries are an operator action.
#[derive(Debug)]
pub enum Error {
    /// The invocation was started without the privileges it needs.
    PrivilegeRequired,
    /// A proxy descriptor did not split into exactly three non-empty
    /// tokens on `{':', '@'}`; carries the offending string.
    MalformedDescriptor(String),
    /// The registry file exists but does not conform to the schema.
    StoreCorrupt,
    /// The external account-management command failed; carries the username.
    ProvisioningFailed(String),
    /// The daemon routing block could not be written.
    ConfigWriteFailed,
    /// The routing block was written but the daemon reload command failed.
    ReloadFailed,
    /// A generic filesystem fault.
    IoFailure,
}

impl Error {
    /// Human-readable message for the front end to print on exit: a fixed
    /// non-empty text per kind, carrying the offending descriptor or
    /// username where the kind holds one.
    pub fn message(&self) -> (r: String)
        ensures
            r@.len() > 0,
            match self {
                Error::PrivilegeRequired => r@ == "operation requires root privileges"@,
                Error::MalformedDescriptor(s) => r@ == "malformed proxy descriptor: "@ + s@,
                Error::StoreCorrupt => r@ == "registry file does not conform to the schema"@,
                Error::ProvisioningFailed(u) => r@ == "account provisioning failed for "@ + u@,
                Error::ConfigWriteFailed => r@ == "failed to write the daemon routing block"@,
                Error::ReloadFailed => r@ == "routing block written, but the daemon reload failed"@,
                Error::IoFailure => r@ == "filesystem error"@,
            },
    {
        proof {
            reveal_strlit("operation requires root privileges");
            reveal_strlit("malformed proxy descriptor: ");
            reveal_strlit("registry file does not conform to the schema");
            reveal_strlit("account provisioning failed for ");
            reveal_strlit("failed to write the daemon routing block");
            reveal_strlit("routing block written, but the daemon reload failed");
            reveal_strlit("filesystem error");
        }
        match self {
            Error::PrivilegeRequired => String::from_str("operation requires root privileges"),
            Error::MalformedDescriptor(s) => {
                let mut m = String::from_str("malformed proxy descriptor: ");
                m.append(s.as_str());
                m
            },
            Error::StoreCorrupt => String::from_str("registry file does not conform to the schema"),
            Error::ProvisioningFailed(u) => {
                let mut m = String::from_str("account provisioning failed for ");
                m.append(u.as_str());
                m
            },
            Error::ConfigWriteFailed => String::from_str("failed to write the daemon routing block"),
            Error::ReloadFailed => String::from_str("routing block written, but the daemon reload failed"),
            Error::IoFailure => String::from_str("filesystem error"),
        }
    }
}

} // verus!
