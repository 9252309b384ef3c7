use vstd::prelude::*;
use crate::errors::Error;
use crate::matcher::ResourceMatcher;
use crate::substituter::Substituter;
use crate::policy::builder::rule_at;
use crate::policy::rules::key_seq;
use crate::text::lemma_lex_total;

pub mod builder;
pub mod rules;

pub use crate::policy::rules::{Effect, EffectOrd, Identities, Operations, Resources};

verus! {

/// A request to authorize: who (identity) wants to do what (operation) to
/// which resource, with an optional caller-defined context.
#[derive(Debug)]
pub struct Request<C> {
    identity: String,
    operation: String,
    resource: String,
    context: Option<C>,
}

impl<C> Request<C> {
    /// Identity and operation are never empty.
    #[verifier::type_invariant]
    spec fn inv(&self) -> bool {
        self.identity@.len() > 0 && self.operation@.len() > 0
    }

    pub closed spec fn spec_identity(&self) -> Seq<char> {
        self.identity@
    }

    pub closed spec fn spec_operation(&self) -> Seq<char> {
        self.operation@
    }

    pub closed spec fn spec_resource(&self) -> Seq<char> {
        self.resource@
    }

    pub closed spec fn spec_context(&self) -> Option<C> {
        self.context
    }

    /// A request that carries `context`; fails when identity or operation is empty.
    pub fn with_context(identity: &str, operation: &str, resource: &str, context: C) -> (r: Result<
        Request<C>,
        Error,
    >)
        ensures
            r is Ok <==> identity@.len() > 0 && operation@.len() > 0,
            r matches Ok(req) ==> {
                &&& req.spec_identity() == identity@
                &&& req.spec_operation() == operation@
                &&& req.spec_resource() == resource@
                &&& req.spec_context() == Some(context)
            },
            r matches Err(e) ==> e is BadRequest,
    {
        if identity.is_empty() {
            return Err(Error::BadRequest("Identity must be specified".to_owned()));
        }
        if operation.is_empty() {
            return Err(Error::BadRequest("Operation must be specified".to_owned()));
        }
        Ok(Request {
            identity: identity.to_owned(),
            operation: operation.to_owned(),
            resource: resource.to_owned(),
            context: Some(context),
        })
    }

    pub fn identity(&self) -> (r: &str)
        ensures
            r@ == self.spec_identity(),
            r@.len() > 0,
    {
        proof {
            use_type_invariant(self);
        }
        self.identity.as_str()
    }

    pub fn operation(&self) -> (r: &str)
        ensures
            r@ == self.spec_operation(),
            r@.len() > 0,
    {
        proof {
            use_type_invariant(self);
        }
        self.operation.as_str()
    }

    pub fn resource(&self) -> (r: &str)
        ensures
            r@ == self.spec_resource(),
    {
        self.resource.as_str()
    }

    pub fn context(&self) -> (r: Option<&C>)
        ensures
            r matches Some(c) ==> self.spec_context() == Some(*c),
            r is None ==> self.spec_context() is None,
    {
        match &self.context {
            Some(c) => Some(c),
            None => None,
        }
    }
}

impl Request<()> {
    /// A request without context; fails when identity or operation is empty.
    pub fn new(identity: &str, operation: &str, resource: &str) -> (r: Result<Request<()>, Error>)
        ensures
            r is Ok <==> identity@.len() > 0 && operation@.len() > 0,
            r matches Ok(req) ==> {
                &&& req.spec_identity() == identity@
                &&& req.spec_operation() == operation@
                &&& req.spec_resource() == resource@
                &&& req.spec_context() is None
            },
            r matches Err(e) ==> e is BadRequest,
    {
        if identity.is_empty() {
            return Err(Error::BadRequest("Identity must be specified".to_owned()));
        }
        if operation.is_empty() {
            return Err(Error::BadRequest("Operation must be specified".to_owned()));
        }
        Ok(Request {
            identity: identity.to_owned(),
            operation: operation.to_owned(),
            resource: resource.to_owned(),
            context: None,
        })
    }
}

/// The outcome of an evaluation.
#[derive(Debug, Clone, Copy, PartialEq, Eq, Structural)]
pub enum Decision {
    Allowed,
    Denied,
}

/// The decision an effect stands for; no effect means no permission.
pub open spec fn decision_of(effect: Effect) -> Decision {
    match effect {
        Effect::Allow => Decision::Allowed,
        Effect::Deny => Decision::Denied,
        Effect::Undefined => Decision::Denied,
    }
}

impl From<Effect> for Decision {
    fn from(effect: Effect) -> (r: Self)
        ensures
            r == decision_of(effect),
    {
        match effect {
            Effect::Allow => Decision::Allowed,
            Effect::Deny => Decision::Denied,
            Effect::Undefined => Decision::Denied,
        }
    }
}

impl vstd::std_specs::convert::FromSpecImpl<Effect> for Decision {
    open spec fn obeys_from_spec() -> bool {
        true
    }

    open spec fn from_spec(v: Effect) -> Decision {
        decision_of(v)
    }
}

/// The effect of the first entry, from position `i` on in ascending pattern
/// order, whose pattern the matcher accepts for the request's resource.
pub open spec fn first_static_match<R: ResourceMatcher>(
    matcher: R,
    request: &Request<R::Context>,
    pairs: Seq<(Seq<char>, EffectOrd)>,
    i: int,
) -> Effect
    decreases pairs.len() - i,
{
    if i < 0 || i >= pairs.len() {
        Effect::Undefined
    } else if matcher.accepts(request, request.spec_resource(), pairs[i].0) {
        pairs[i].1.effect
    } else {
        first_static_match(matcher, request, pairs, i + 1)
    }
}

/// As `first_static_match`, but each pattern is resolved by the substituter
/// first; the first error stops the scan.
pub open spec fn first_variable_match<R: ResourceMatcher, S: Substituter<Context = R::Context>>(
    matcher: R,
    substituter: S,
    request: &Request<R::Context>,
    pairs: Seq<(Seq<char>, EffectOrd)>,
    i: int,
) -> Result<Effect, Error>
    decreases pairs.len() - i,
{
    if i < 0 || i >= pairs.len() {
        Ok(Effect::Undefined)
    } else {
        match substituter.spec_visit_resource(pairs[i].0, request) {
            Err(e) => Err(e),
            Ok(resource) => if matcher.accepts(request, request.spec_resource(), resource) {
                Ok(pairs[i].1.effect)
            } else {
                first_variable_match(matcher, substituter, request, pairs, i + 1)
            },
        }
    }
}

/// What variable rules say of the request, scanning identity patterns from
/// position `i` on: the first one that resolves to the request's identity
/// decides, through its entry for the request's operation.
pub open spec fn first_variable_identity<R: ResourceMatcher, S: Substituter<Context = R::Context>>(
    matcher: R,
    substituter: S,
    request: &Request<R::Context>,
    entries: Seq<(String, Operations)>,
    i: int,
) -> Result<Effect, Error>
    decreases entries.len() - i,
{
    if i < 0 || i >= entries.len() {
        Ok(Effect::Undefined)
    } else {
        match substituter.spec_visit_identity(entries[i].0@, request) {
            Err(e) => Err(e),
            Ok(identity) => if identity == request.spec_identity() {
                match entries[i].1.find(request.spec_operation()) {
                    None => Ok(Effect::Undefined),
                    Some(resources) => first_variable_match(
                        matcher,
                        substituter,
                        request,
                        resources.pairs(),
                        0,
                    ),
                }
            } else {
                first_variable_identity(matcher, substituter, request, entries, i + 1)
            },
        }
    }
}

/// Combines the effect of the static rules with that of the variable rules.
/// A static deny is final; otherwise a defined variable effect decides; with
/// neither, a static allow allows and else the default applies.
pub open spec fn combine(
    static_effect: Effect,
    variable_effect: Result<Effect, Error>,
    default_decision: Decision,
) -> Result<Decision, Error> {
    match static_effect {
        Effect::Deny => Ok(Decision::Denied),
        _ => match variable_effect {
            Err(e) => Err(e),
            Ok(Effect::Undefined) => if static_effect == Effect::Allow {
                Ok(Decision::Allowed)
            } else {
                Ok(default_decision)
            },
            Ok(effect) => Ok(decision_of(effect)),
        },
    }
}

/// Policy engine: a read-only set of rules that evaluates requests.
///
/// Rules whose identity, operation and resource are all literal are kept in
/// the static index, looked up by key. Rules with a variable (`{{..}}`) in
/// any of the three are kept in the variable index, resolved on every request.
#[derive(Debug)]
pub struct Policy<R, S> {
    default_decision: Decision,
    resource_matcher: R,
    substituter: S,
    static_rules: Identities,
    variable_rules: Identities,
}

impl<R, S> Policy<R, S> {
    #[verifier::type_invariant]
    spec fn inv(&self) -> bool {
        self.static_rules.wf() && self.variable_rules.wf()
    }
}

impl<R: ResourceMatcher, S: Substituter<Context = R::Context>> Policy<R, S> {
    pub closed spec fn spec_default_decision(&self) -> Decision {
        self.default_decision
    }

    pub closed spec fn spec_matcher(&self) -> R {
        self.resource_matcher
    }

    pub closed spec fn spec_substituter(&self) -> S {
        self.substituter
    }

    /// The rules whose three patterns are all literal.
    pub closed spec fn spec_static_rules(&self) -> Identities {
        self.static_rules
    }

    /// The rules with a variable in one of their patterns.
    pub closed spec fn spec_variable_rules(&self) -> Identities {
        self.variable_rules
    }

    /// What the static rules say of the request: the first resource pattern,
    /// in ascending order, under the request's identity and operation that
    /// the matcher accepts.
    pub open spec fn static_effect(&self, request: &Request<R::Context>) -> Effect {
        match self.spec_static_rules().find(request.spec_identity()) {
            None => Effect::Undefined,
            Some(operations) => match operations.find(request.spec_operation()) {
                None => Effect::Undefined,
                Some(resources) => first_static_match(
                    self.spec_matcher(),
                    request,
                    resources.pairs(),
                    0,
                ),
            },
        }
    }

    /// What the variable rules say of the request.
    pub open spec fn variable_effect(&self, request: &Request<R::Context>) -> Result<Effect, Error> {
        first_variable_identity(
            self.spec_matcher(),
            self.spec_substituter(),
            request,
            self.spec_variable_rules().entries@,
            0,
        )
    }

    /// The outcome of evaluating `request` against this policy.
    pub open spec fn spec_evaluate(&self, request: &Request<R::Context>) -> Result<Decision, Error> {
        combine(self.static_effect(request), self.variable_effect(request), self.spec_default_decision())
    }

    pub(crate) fn new(
        default_decision: Decision,
        resource_matcher: R,
        substituter: S,
        static_rules: Identities,
        variable_rules: Identities,
    ) -> (r: Self)
        requires
            static_rules.wf(),
            variable_rules.wf(),
        ensures
            r.spec_default_decision() == default_decision,
            r.spec_static_rules().wf(),
            r.spec_variable_rules().wf(),
            r.spec_matcher() == resource_matcher,
            r.spec_substituter() == substituter,
            r.spec_static_rules() == static_rules,
            r.spec_variable_rules() == variable_rules,
    {
        Policy { default_decision, resource_matcher, substituter, static_rules, variable_rules }
    }

    /// The static rules, for inspection.
    pub fn static_rules(&self) -> (r: &Identities)
        ensures
            *r == self.spec_static_rules(),
            r.wf(),
    {
        proof {
            use_type_invariant(self);
        }
        &self.static_rules
    }

    /// The variable rules, for inspection.
    pub fn variable_rules(&self) -> (r: &Identities)
        ensures
            *r == self.spec_variable_rules(),
            r.wf(),
    {
        proof {
            use_type_invariant(self);
        }
        &self.variable_rules
    }

    /// Evaluates the request and produces the decision. If no rule applies,
    /// the default decision is returned. Fails only where the substituter fails.
    pub fn evaluate(&self, request: &Request<R::Context>) -> (r: Result<Decision, Error>)
        ensures
            r == self.spec_evaluate(request),
    {
        match self.eval_static_rules(request) {
            // static rules deny the operation.
            Effect::Deny => Ok(Decision::Denied),
            // static rules allow the operation; variable rules may still deny it.
            Effect::Allow => match self.eval_variable_rules(request) {
                Ok(Effect::Undefined) => Ok(Decision::Allowed),
                Ok(effect) => Ok(Decision::from(effect)),
                Err(e) => Err(e),
            },
            // static rules say nothing; the variable rules or the default decide.
            Effect::Undefined => match self.eval_variable_rules(request) {
                Ok(Effect::Undefined) => Ok(self.default_decision),
                Ok(effect) => Ok(Decision::from(effect)),
                Err(e) => Err(e),
            },
        }
    }

    fn eval_static_rules(&self, request: &Request<R::Context>) -> (r: Effect)
        ensures
            r == self.static_effect(request),
    {
        proof {
            use_type_invariant(self);
        }
        match self.static_rules.get(request.identity()) {
            None => Effect::Undefined,
            Some(operations) => match operations.get(request.operation()) {
                None => Effect::Undefined,
                Some(resources) => {
                    let mut i: usize = 0;
                    while i < resources.entries.len()
                        invariant
                            i <= resources.entries@.len(),
                            self.static_effect(request) == first_static_match(
                                self.resource_matcher,
                                request,
                                resources.pairs(),
                                i as int,
                            ),
                        decreases resources.entries.len() - i,
                    {
                        let entry = &resources.entries[i];
                        assert(resources.pairs()[i as int] == (entry.0@, entry.1));
                        if self.resource_matcher.do_match(
                            request,
                            request.resource(),
                            entry.0.as_str(),
                        ) {
                            return entry.1.effect;
                        }
                        i = i + 1;
                    }
                    Effect::Undefined
                },
            },
        }
    }

    fn eval_variable_rules(&self, request: &Request<R::Context>) -> (r: Result<Effect, Error>)
        ensures
            r == self.variable_effect(request),
    {
        proof {
            use_type_invariant(self);
        }
        let entries = &self.variable_rules.entries;
        let mut i: usize = 0;
        while i < entries.len()
            invariant
                i <= entries@.len(),
                entries@ == self.variable_rules.entries@,
                self.variable_rules.wf(),
                self.variable_effect(request) == first_variable_identity(
                    self.resource_matcher,
                    self.substituter,
                    request,
                    entries@,
                    i as int,
                ),
            decreases entries.len() - i,
        {
            let entry = &entries[i];
            // resolve the variables of the identity pattern.
            let identity = self.substituter.visit_identity(entry.0.as_str(), request)?;
            if identity == request.identity {
                proof {
                    assert(entry.1.wf());
                }
                return match entry.1.get(request.operation()) {
                    None => Ok(Effect::Undefined),
                    Some(resources) => {
                        let mut j: usize = 0;
                        while j < resources.entries.len()
                            invariant
                                j <= resources.entries@.len(),
                                self.variable_effect(request) == first_variable_match(
                                    self.resource_matcher,
                                    self.substituter,
                                    request,
                                    resources.pairs(),
                                    j as int,
                                ),
                            decreases resources.entries.len() - j,
                        {
                            let candidate = &resources.entries[j];
                            assert(resources.pairs()[j as int] == (candidate.0@, candidate.1));
                            let resource = self.substituter.visit_resource(
                                candidate.0.as_str(),
                                request,
                            )?;
                            if self.resource_matcher.do_match(
                                request,
                                request.resource(),
                                resource.as_str(),
                            ) {
                                return Ok(candidate.1.effect);
                            }
                            j = j + 1;
                        }
                        Ok(Effect::Undefined)
                    },
                };
            }
            i = i + 1;
        }
        Ok(Effect::Undefined)
    }
}

proof fn lemma_variable_match_ok<R: ResourceMatcher, S: Substituter<Context = R::Context>>(
    matcher: R,
    substituter: S,
    request: &Request<R::Context>,
    pairs: Seq<(Seq<char>, EffectOrd)>,
    i: int,
)
    requires
        forall|v: Seq<char>| #[trigger] substituter.spec_visit_resource(v, request) is Ok,
    ensures
        first_variable_match(matcher, substituter, request, pairs, i) is Ok,
    decreases pairs.len() - i,
{
    if 0 <= i < pairs.len() {
        assert(substituter.spec_visit_resource(pairs[i].0, request) is Ok);
        lemma_variable_match_ok(matcher, substituter, request, pairs, i + 1);
    }
}

proof fn lemma_variable_identity_ok<R: ResourceMatcher, S: Substituter<Context = R::Context>>(
    matcher: R,
    substituter: S,
    request: &Request<R::Context>,
    entries: Seq<(String, Operations)>,
    i: int,
)
    requires
        forall|v: Seq<char>| #[trigger] substituter.spec_visit_identity(v, request) is Ok,
        forall|v: Seq<char>| #[trigger] substituter.spec_visit_resource(v, request) is Ok,
    ensures
        first_variable_identity(matcher, substituter, request, entries, i) is Ok,
    decreases entries.len() - i,
{
    if 0 <= i < entries.len() {
        assert(substituter.spec_visit_identity(entries[i].0@, request) is Ok);
        match entries[i].1.find(request.spec_operation()) {
            Some(resources) => lemma_variable_match_ok(matcher, substituter, request, resources.pairs(), 0),
            None => {},
        }
        lemma_variable_identity_ok(matcher, substituter, request, entries, i + 1);
    }
}

/// Every evaluation ends in one of the two decisions or in an error of the
/// substituter, passed on as it came; with a substituter that never fails on
/// the request, the evaluation succeeds.
pub proof fn lemma_evaluate_decides<R: ResourceMatcher, S: Substituter<Context = R::Context>>(
    policy: &Policy<R, S>,
    request: &Request<R::Context>,
)
    ensures
        policy.spec_evaluate(request) is Err ==> policy.spec_evaluate(request)
            == Err::<Decision, Error>(policy.variable_effect(request)->Err_0),
        policy.variable_effect(request) is Ok ==> policy.spec_evaluate(request) is Ok,
        (forall|v: Seq<char>| #[trigger] policy.spec_substituter().spec_visit_identity(v, request) is Ok)
            && (forall|v: Seq<char>| #[trigger] policy.spec_substituter().spec_visit_resource(v, request) is Ok)
            ==> policy.spec_evaluate(request) is Ok,
{
    if (forall|v: Seq<char>| #[trigger] policy.spec_substituter().spec_visit_identity(v, request) is Ok)
        && (forall|v: Seq<char>| #[trigger] policy.spec_substituter().spec_visit_resource(v, request) is Ok) {
        lemma_variable_identity_ok(
            policy.spec_matcher(),
            policy.spec_substituter(),
            request,
            policy.spec_variable_rules().entries@,
            0,
        );
    }
}

/// A deny of the static rules is final: neither the variable rules nor the
/// default decision can change it.
pub proof fn lemma_static_deny_is_final<R: ResourceMatcher, S: Substituter<Context = R::Context>>(
    policy: &Policy<R, S>,
    request: &Request<R::Context>,
)
    requires
        policy.static_effect(request) == Effect::Deny,
    ensures
        policy.spec_evaluate(request) == Ok::<Decision, Error>(Decision::Denied),
{
}

/// A request that no static and no variable rule applies to gets the default decision.
pub proof fn lemma_default_fallback<R: ResourceMatcher, S: Substituter<Context = R::Context>>(
    policy: &Policy<R, S>,
    request: &Request<R::Context>,
)
    requires
        policy.static_effect(request) == Effect::Undefined,
        policy.variable_effect(request) == Ok::<Effect, Error>(Effect::Undefined),
    ensures
        policy.spec_evaluate(request) == Ok::<Decision, Error>(policy.spec_default_decision()),
{
}

proof fn lemma_exact_scan(
    request: &Request<()>,
    pairs: Seq<(Seq<char>, EffectOrd)>,
    i: int,
    j: int,
)
    requires
        0 <= i <= j < pairs.len(),
        pairs[j].0 == request.spec_resource(),
        forall|l: int| i <= l < j ==> (#[trigger] pairs[l]).0 != request.spec_resource(),
    ensures
        first_static_match(crate::matcher::Default, request, pairs, i) == pairs[j].1.effect,
    decreases j - i,
{
    if i < j {
        lemma_exact_scan(request, pairs, i + 1, j);
    }
}

proof fn lemma_exact_scan_none(request: &Request<()>, pairs: Seq<(Seq<char>, EffectOrd)>, i: int)
    requires
        0 <= i <= pairs.len(),
        forall|l: int| i <= l < pairs.len() ==> (#[trigger] pairs[l]).0 != request.spec_resource(),
    ensures
        first_static_match(crate::matcher::Default, request, pairs, i) == Effect::Undefined,
    decreases pairs.len() - i,
{
    if i < pairs.len() {
        lemma_exact_scan_none(request, pairs, i + 1);
    }
}

/// Under the default (exact) matcher, the static rules decide by the entry
/// stored under the request's identity, operation and resource, if any.
pub proof fn lemma_exact_static_effect<S: Substituter<Context = ()>>(
    policy: &Policy<crate::matcher::Default, S>,
    request: &Request<()>,
)
    requires
        policy.spec_static_rules().wf(),
    ensures
        policy.static_effect(request) == match rule_at(
            policy.spec_static_rules()@,
            request.spec_identity(),
            request.spec_operation(),
            request.spec_resource(),
        ) {
            Some(e) => e.effect,
            None => Effect::Undefined,
        },
{
    let ids = policy.spec_static_rules();
    ids.lemma_find_view(request.spec_identity());
    if let Some(ops) = ids.find(request.spec_identity()) {
        ops.lemma_find_view(request.spec_operation());
        if let Some(res) = ops.find(request.spec_operation()) {
            res.lemma_pairs_view();
            let pairs = res.pairs();
            let r = request.spec_resource();
            if res@.contains_key(r) {
                let j = choose|j: int| 0 <= j < pairs.len() && pairs[j].0 == r;
                assert forall|l: int| 0 <= l < j implies (#[trigger] pairs[l]).0 != r by {
                    assert(key_seq(res.entries@)[l] == pairs[l].0);
                    assert(key_seq(res.entries@)[j] == pairs[j].0);
                    lemma_lex_total(pairs[l].0, pairs[j].0);
                }
                lemma_exact_scan(request, pairs, 0, j);
            } else {
                lemma_exact_scan_none(request, pairs, 0);
            }
        }
    }
}

} // verus!
