use vstd::prelude::*;

verus! {

/// Everything that can go wrong in this library, as a value for the caller.
#[derive(Debug, PartialEq, Eq)]
pub enum Error {
    /// The policy definition could not be read into statements.
    DeserializingError(String),
    /// A field value of the policy definition was refused by the validator.
    ValidationError(String),
    /// A request was built with an empty identity or operation.
    BadRequest(String),
    /// A policy was built without a matcher or a substituter.
    ConfigurationError(String),
}

} // verus!
