use vstd::prelude::*;
use crate::errors::Error;

verus! {

/// The kind of a field value in a policy definition.
#[derive(Debug, Clone, Copy, PartialEq, Eq, Structural)]
pub enum Field {
    Identities,
    Operations,
    Resources,
    Description,
}

/// Checks the field values of a policy definition before it is compiled.
pub trait PolicyValidator {
    /// Whether `value`, given as a field of kind `field`, is accepted, or why not.
    spec fn spec_validate(&self, field: Field, value: Seq<char>) -> Result<(), Error>;

    fn validate(&self, field: Field, value: &str) -> (r: Result<(), Error>)
        ensures
            r == self.spec_validate(field, value@),
    ;
}

/// The default validator accepts every value.
#[derive(Debug)]
pub struct DefaultValidator;

impl PolicyValidator for DefaultValidator {
    open spec fn spec_validate(&self, field: Field, value: Seq<char>) -> Result<(), Error> {
        Ok(())
    }

    fn validate(&self, _field: Field, _value: &str) -> (r: Result<(), Error>) {
        Ok(())
    }
}

} // verus!
