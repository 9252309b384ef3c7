use vstd::prelude::*;
use crate::errors::Error;
use crate::policy::Request;
use crate::text::{
    chars_of, find_pair, find_pair_from, lemma_find_pair, replace, replace_all, text_eq,
};
use vstd::string::StrSliceExecFns;

verus! {

/// A substitution result, seen as text.
pub open spec fn text_result(r: Result<String, Error>) -> Result<Seq<char>, Error> {
    match r {
        Ok(s) => Ok(s@),
        Err(e) => Err(e),
    }
}

/// How a policy resolves the variables of its rule patterns against a request.
pub trait Substituter {
    /// The type of the context associated with the request.
    type Context;

    /// The resolved identity pattern, or the error that resolving it gives.
    spec fn spec_visit_identity(&self, value: Seq<char>, context: &Request<Self::Context>) -> Result<Seq<char>, Error>;

    /// The resolved operation pattern, or the error that resolving it gives.
    spec fn spec_visit_operation(&self, value: Seq<char>, context: &Request<Self::Context>) -> Result<Seq<char>, Error>;

    /// The resolved resource pattern, or the error that resolving it gives.
    spec fn spec_visit_resource(&self, value: Seq<char>, context: &Request<Self::Context>) -> Result<Seq<char>, Error>;

    /// Called by the policy on every request for every variable identity rule.
    fn visit_identity(&self, value: &str, context: &Request<Self::Context>) -> (r: Result<String, Error>)
        ensures
            text_result(r) == self.spec_visit_identity(value@, context),
    ;

    /// Resolves the variables of an operation pattern.
    fn visit_operation(&self, value: &str, context: &Request<Self::Context>) -> (r: Result<String, Error>)
        ensures
            text_result(r) == self.spec_visit_operation(value@, context),
    ;

    /// Called by the policy on every request for every variable resource rule.
    fn visit_resource(&self, value: &str, context: &Request<Self::Context>) -> (r: Result<String, Error>)
        ensures
            text_result(r) == self.spec_visit_resource(value@, context),
    ;
}

/// Replaced by the request field that the visited pattern stands for.
pub const ANY_VAR: &'static str = "{{any}}";

/// Replaced by the request's identity.
pub const IDENTITY_VAR: &'static str = "{{identity}}";

/// Replaced by the request's operation.
pub const OPERATION_VAR: &'static str = "{{operation}}";

/// The next variable span from position `idx` on, as (start, end): the first
/// `{{` from `idx` on, up to and including the first `}}` after it.
pub open spec fn next_span(s: Seq<char>, idx: int) -> Option<(int, int)> {
    match find_pair(s, idx, '{') {
        Some(open) => match find_pair(s, open + 2, '}') {
            Some(close) => Some((open, close + 2)),
            None => None,
        },
        None => None,
    }
}

/// The variables that a scan of `s` from position `idx` finds, in order: each
/// scan resumes right after the span it found.
pub open spec fn variables_from(s: Seq<char>, idx: int) -> Seq<Seq<char>>
    decreases s.len() - idx,
{
    if idx < 0 || idx > s.len() {
        Seq::empty()
    } else {
        match next_span(s, idx) {
            Some((start, end)) => if idx < end <= s.len() {
                seq![s.subrange(start, end)] + variables_from(s, end)
            } else {
                Seq::empty()
            },
            None => Seq::empty(),
        }
    }
}

/// `value` after replacing, variable by variable in `vars`, every occurrence
/// of those that `binding` gives a value.
pub open spec fn substitute(
    value: Seq<char>,
    vars: Seq<Seq<char>>,
    binding: spec_fn(Seq<char>) -> Option<Seq<char>>,
) -> Seq<char>
    decreases vars.len(),
{
    if vars.len() == 0 {
        value
    } else {
        let next = match binding(vars[0]) {
            Some(b) => replace_all(value, vars[0], b),
            None => value,
        };
        substitute(next, vars.drop_first(), binding)
    }
}

/// The variables of an identity pattern: `any` and `identity` stand for the identity.
pub open spec fn identity_binding(identity: Seq<char>) -> spec_fn(Seq<char>) -> Option<Seq<char>> {
    |v: Seq<char>|
        if v == ANY_VAR@ || v == IDENTITY_VAR@ {
            Some(identity)
        } else {
            None
        }
}

/// The variables of an operation pattern: `any` and `operation` stand for the
/// operation, `identity` for the identity.
pub open spec fn operation_binding(identity: Seq<char>, operation: Seq<char>) -> spec_fn(
    Seq<char>,
) -> Option<Seq<char>> {
    |v: Seq<char>|
        if v == ANY_VAR@ || v == OPERATION_VAR@ {
            Some(operation)
        } else if v == IDENTITY_VAR@ {
            Some(identity)
        } else {
            None
        }
}

/// The variables of a resource pattern: `any` stands for the resource,
/// `identity` for the identity and `operation` for the operation.
pub open spec fn resource_binding(
    identity: Seq<char>,
    operation: Seq<char>,
    resource: Seq<char>,
) -> spec_fn(Seq<char>) -> Option<Seq<char>> {
    |v: Seq<char>|
        if v == ANY_VAR@ {
            Some(resource)
        } else if v == IDENTITY_VAR@ {
            Some(identity)
        } else if v == OPERATION_VAR@ {
            Some(operation)
        } else {
            None
        }
}

/// Finds, one after the other, the variable spans like `{{var_name}}` in a value.
#[derive(Debug)]
pub struct VariableIter<'a> {
    value: &'a str,
    chars: Vec<char>,
    index: usize,
}

impl<'a> VariableIter<'a> {
    #[verifier::type_invariant]
    spec fn inv(&self) -> bool {
        self.chars@ == self.value@ && self.index <= self.chars@.len()
    }

    /// The variables still to come.
    pub closed spec fn remaining(&self) -> Seq<Seq<char>> {
        variables_from(self.value@, self.index as int)
    }

    pub fn new(value: &'a str) -> (r: Self)
        ensures
            r.remaining() == variables_from(value@, 0),
    {
        Self { value, chars: chars_of(value), index: 0 }
    }

    /// The next variable, if any.
    pub fn next(&mut self) -> (r: Option<&'a str>)
        ensures
            match r {
                Some(v) => {
                    &&& old(self).remaining().len() > 0
                    &&& v@ == old(self).remaining()[0]
                    &&& v@.len() > 0
                    &&& final(self).remaining() == old(self).remaining().drop_first()
                },
                None => old(self).remaining().len() == 0 && final(self).remaining() == old(
                    self,
                ).remaining(),
            },
    {
        proof {
            use_type_invariant(&*self);
            lemma_find_pair(self.chars@, self.index as int, '{');
        }
        let ghost s = self.value@;
        let ghost idx = self.index as int;
        if let Some(start) = find_pair_from(&self.chars, self.index, '{') {
            assert(start + 2 <= self.chars.len());
            proof {
                lemma_find_pair(self.chars@, start + 2, '}');
            }
            if let Some(end) = find_pair_from(&self.chars, start + 2, '}') {
                assert(end + 2 <= self.chars.len());
                self.index = end + 2;
                let found = self.value.substring_char(start, end + 2);
                assert(variables_from(s, idx) =~= seq![found@] + variables_from(s, end + 2));
                assert((seq![found@] + variables_from(s, end + 2)).drop_first() =~= variables_from(s, end + 2));
                return Some(found);
            }
        }
        None
    }
}

fn replace_identity<RC>(value: &str, context: &Request<RC>) -> (r: String)
    ensures
        r@ == substitute(value@, variables_from(value@, 0), identity_binding(context.spec_identity())),
{
    let ghost binding = identity_binding(context.spec_identity());
    let ghost target = substitute(value@, variables_from(value@, 0), binding);
    let mut result = value.to_owned();
    let mut vars = VariableIter::new(value);
    loop
        invariant
            binding == identity_binding(context.spec_identity()),
            target == substitute(value@, variables_from(value@, 0), binding),
            substitute(result@, vars.remaining(), binding) == target,
        ensures
            result@ == target,
        decreases vars.remaining().len(),
    {
        match vars.next() {
            None => break,
            Some(variable) => {
                if text_eq(variable, ANY_VAR) || text_eq(variable, IDENTITY_VAR) {
                    result = replace(result.as_str(), variable, context.identity());
                }
            },
        }
    }
    result
}

fn replace_operation<RC>(value: &str, context: &Request<RC>) -> (r: String)
    ensures
        r@ == substitute(value@, variables_from(value@, 0), operation_binding(context.spec_identity(), context.spec_operation())),
{
    let ghost binding = operation_binding(context.spec_identity(), context.spec_operation());
    let ghost target = substitute(value@, variables_from(value@, 0), binding);
    let mut result = value.to_owned();
    let mut vars = VariableIter::new(value);
    loop
        invariant
            binding == operation_binding(context.spec_identity(), context.spec_operation()),
            target == substitute(value@, variables_from(value@, 0), binding),
            substitute(result@, vars.remaining(), binding) == target,
        ensures
            result@ == target,
        decreases vars.remaining().len(),
    {
        match vars.next() {
            None => break,
            Some(variable) => {
                if text_eq(variable, ANY_VAR) || text_eq(variable, OPERATION_VAR) {
                    result = replace(result.as_str(), variable, context.operation());
                } else if text_eq(variable, IDENTITY_VAR) {
                    result = replace(result.as_str(), variable, context.identity());
                }
            },
        }
    }
    result
}

fn replace_resource<RC>(value: &str, context: &Request<RC>) -> (r: String)
    ensures
        r@ == substitute(value@, variables_from(value@, 0), resource_binding(context.spec_identity(), context.spec_operation(), context.spec_resource())),
{
    let ghost binding = resource_binding(context.spec_identity(), context.spec_operation(), context.spec_resource());
    let ghost target = substitute(value@, variables_from(value@, 0), binding);
    let mut result = value.to_owned();
    let mut vars = VariableIter::new(value);
    loop
        invariant
            binding == resource_binding(context.spec_identity(), context.spec_operation(), context.spec_resource()),
            target == substitute(value@, variables_from(value@, 0), binding),
            substitute(result@, vars.remaining(), binding) == target,
        ensures
            result@ == target,
        decreases vars.remaining().len(),
    {
        match vars.next() {
            None => break,
            Some(variable) => {
                if text_eq(variable, ANY_VAR) {
                    result = replace(result.as_str(), variable, context.resource());
                } else if text_eq(variable, IDENTITY_VAR) {
                    result = replace(result.as_str(), variable, context.identity());
                } else if text_eq(variable, OPERATION_VAR) {
                    result = replace(result.as_str(), variable, context.operation());
                }
            },
        }
    }
    result
}

/// The default substituter. It knows three variables:
/// * `any`, replaced by the request field that the visited pattern stands for;
/// * `identity`, replaced by the request's identity;
/// * `operation`, replaced by the request's operation.
/// Other variables are left as they are.
#[derive(Debug)]
pub struct DefaultSubstituter;

impl Substituter for DefaultSubstituter {
    type Context = ();

    open spec fn spec_visit_identity(&self, value: Seq<char>, context: &Request<()>) -> Result<Seq<char>, Error> {
        Ok(substitute(value, variables_from(value, 0), identity_binding(context.spec_identity())))
    }

    open spec fn spec_visit_operation(&self, value: Seq<char>, context: &Request<()>) -> Result<Seq<char>, Error> {
        Ok(
            substitute(
                value,
                variables_from(value, 0),
                operation_binding(context.spec_identity(), context.spec_operation()),
            ),
        )
    }

    open spec fn spec_visit_resource(&self, value: Seq<char>, context: &Request<()>) -> Result<Seq<char>, Error> {
        Ok(
            substitute(
                value,
                variables_from(value, 0),
                resource_binding(
                    context.spec_identity(),
                    context.spec_operation(),
                    context.spec_resource(),
                ),
            ),
        )
    }

    fn visit_identity(&self, value: &str, context: &Request<()>) -> (r: Result<String, Error>) {
        Ok(replace_identity(value, context))
    }

    fn visit_operation(&self, value: &str, context: &Request<()>) -> (r: Result<String, Error>) {
        Ok(replace_operation(value, context))
    }

    fn visit_resource(&self, value: &str, context: &Request<()>) -> (r: Result<String, Error>) {
        Ok(replace_resource(value, context))
    }
}

} // verus!
