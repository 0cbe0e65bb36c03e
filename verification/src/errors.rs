//! What building or querying a contract can fail with.

use vstd::prelude::*;

verus! {

/// The error type of `serde_json`, carried through as it came from the
/// decoder. Nothing is known of what it holds.
#[verifier::external_type_specification]
#[verifier::external_body]
pub struct ExDecodeError(serde_json::Error);

/// The two ways in which this library fails.
#[derive(Debug)]
pub enum AbiError {
    /// A lookup asked for a name that the contract does not hold. Carries
    /// the name that was asked for.
    InvalidName(String),
    /// The interface description could not be decoded. Carries the
    /// decoder's own error.
    SerdeJson(serde_json::Error),
}

impl AbiError {
    /// Whether this is the error of a lookup of `name`.
    pub open spec fn is_invalid_name(self, name: Seq<char>) -> bool {
        match self {
            AbiError::InvalidName(n) => n@ == name,
            _ => false,
        }
    }

    /// Whether this is the malformed-source error that carries `err`.
    pub open spec fn is_malformed(self, err: serde_json::Error) -> bool {
        match self {
            AbiError::SerdeJson(e) => e == err,
            _ => false,
        }
    }
}

impl From<serde_json::Error> for AbiError {
    fn from(err: serde_json::Error) -> (r: AbiError) {
        AbiError::SerdeJson(err)
    }
}

impl vstd::std_specs::convert::FromSpecImpl<serde_json::Error> for AbiError {
    open spec fn obeys_from_spec() -> bool {
        true
    }

    open spec fn from_spec(err: serde_json::Error) -> AbiError {
        AbiError::SerdeJson(err)
    }
}

} // verus!
