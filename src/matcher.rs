use vstd::prelude::*;
use crate::policy::Request;
use crate::text::{has_prefix, starts_with, text_eq};

verus! {

/// How a policy decides whether a request's resource satisfies a resource
/// pattern of a rule.
pub trait ResourceMatcher {
    /// The type of the context associated with the request.
    type Context;

    /// Whether `input` satisfies the pattern `policy` for this request.
    spec fn accepts(&self, context: &Request<Self::Context>, input: Seq<char>, policy: Seq<char>) -> bool;

    /// Called by the policy for each candidate resource pattern.
    fn do_match(&self, context: &Request<Self::Context>, input: &str, policy: &str) -> (r: bool)
        ensures
            r == self.accepts(context, input@, policy@),
    ;
}

/// The default matcher: the resource must equal the pattern.
#[derive(Debug)]
pub struct Default;

impl ResourceMatcher for Default {
    type Context = ();

    open spec fn accepts(&self, context: &Request<()>, input: Seq<char>, policy: Seq<char>) -> bool {
        input == policy
    }

    fn do_match(&self, _context: &Request<()>, input: &str, policy: &str) -> (r: bool) {
        text_eq(input, policy)
    }
}

/// A matcher under which the resource must start with the pattern.
#[derive(Debug)]
pub struct StartsWith;

impl ResourceMatcher for StartsWith {
    type Context = ();

    open spec fn accepts(&self, context: &Request<()>, input: Seq<char>, policy: Seq<char>) -> bool {
        has_prefix(input, policy)
    }

    fn do_match(&self, _context: &Request<()>, input: &str, policy: &str) -> (r: bool) {
        starts_with(input, policy)
    }
}

} // verus!
