use vstd::prelude::*;

verus! {

/// The three error classes of the library: domain/usage errors, malformed
/// wire data, and insufficient destination space while serializing.
#[derive(Debug, Clone, PartialEq, Eq)]
pub enum DnsError {
    Generic(String),
    ParseError(String),
    MarshalError(String),
}

} // verus!
