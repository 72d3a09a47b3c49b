//! The error taxonomy of the library. Each variant carries the datum it is
//! about (a variable name, a tag, a target path, a reference string), so a
//! caller can report exactly what went wrong.

use vstd::prelude::*;

verus! {

#[derive(Debug, Clone, PartialEq, Eq)]
pub enum VaultError {
    /// The manifest text or a reference string is malformed.
    Parse(String),
    /// A variable binding is missing, reserved, or cyclic.
    Variable(String),
    /// A tag is undeclared, conflicting, or invalidly named.
    Tag(String),
    /// Two active files resolve to the same target path.
    PathCollision(String),
    /// The inclusion graph is too deep or cyclic.
    RecursionLimit(String),
    /// Content disagrees with its hash pin.
    HashMismatch(String),
    /// Every fallback source for a file failed.
    SourceExhausted(String),
    /// A target or reference tree could not be read or written.
    Filesystem(String),
    /// An edit precondition was not met.
    Edit(String),
}

impl VaultError {
    /// The datum the error is about.
    pub fn detail(&self) -> (r: String)
        ensures
            r@ == self.detail_view(),
    {
        match self {
            VaultError::Parse(s) => s.clone(),
            VaultError::Variable(s) => s.clone(),
            VaultError::Tag(s) => s.clone(),
            VaultError::PathCollision(s) => s.clone(),
            VaultError::RecursionLimit(s) => s.clone(),
            VaultError::HashMismatch(s) => s.clone(),
            VaultError::SourceExhausted(s) => s.clone(),
            VaultError::Filesystem(s) => s.clone(),
            VaultError::Edit(s) => s.clone(),
        }
    }

    /// The datum carried by the error, at specification level.
    pub open spec fn detail_view(&self) -> Seq<char> {
        match self {
            VaultError::Parse(s) => s@,
            VaultError::Variable(s) => s@,
            VaultError::Tag(s) => s@,
            VaultError::PathCollision(s) => s@,
            VaultError::RecursionLimit(s) => s@,
            VaultError::HashMismatch(s) => s@,
            VaultError::SourceExhausted(s) => s@,
            VaultError::Filesystem(s) => s@,
            VaultError::Edit(s) => s@,
        }
    }
}

} // verus!
