use allow_me::matcher::StartsWith;
use vstd::seq::Seq;
use allow_me::{
    Decision, DefaultResourceMatcher, DefaultSubstituter, DefaultValidator, Effect, EffectOrd,
    Error, Field, Policy, PolicyBuilder, PolicyValidator, Request, ResourceMatcher, Statement,
    StatementEffect, Substituter,
};

fn texts(items: &[&str]) -> Vec<String> {
    items.iter().map(|item| item.to_string()).collect()
}

fn statement(effect: StatementEffect, identities: &[&str], operations: &[&str], resources: &[&str]) -> Statement {
    Statement {
        order: 0,
        description: String::new(),
        effect,
        identities: texts(identities),
        operations: texts(operations),
        resources: texts(resources),
    }
}

fn policy(statements: Vec<Statement>, decision: Decision) -> Policy<DefaultResourceMatcher, DefaultSubstituter> {
    PolicyBuilder::<DefaultValidator, DefaultResourceMatcher, DefaultSubstituter>::from_json("")
        .with_matcher(DefaultResourceMatcher)
        .with_substituter(DefaultSubstituter)
        .with_default_decision(decision)
        .build(statements)
        .unwrap()
}

fn decide<M, S>(policy: &Policy<M, S>, identity: &str, operation: &str, resource: &str) -> Decision
where
    M: ResourceMatcher<Context = ()>,
    S: Substituter<Context = ()>,
{
    let request = Request::new(identity, operation, resource).unwrap();
    policy.evaluate(&request).unwrap()
}

#[test]
fn single_allow_statement_with_deny_default() {
    let p = policy(
        vec![statement(StatementEffect::Allow, &["actor_a"], &["write"], &["resource_1"])],
        Decision::Denied,
    );
    assert_eq!(Decision::Allowed, decide(&p, "actor_a", "write", "resource_1"));
    assert_eq!(Decision::Denied, decide(&p, "actor_a", "write", "resource_2"));
}

#[test]
fn variable_deny_overrides_static_allow() {
    let p = policy(
        vec![
            statement(StatementEffect::Allow, &["actor_a"], &["write"], &["resource_1"]),
            statement(StatementEffect::Deny, &["actor_a"], &["write"], &["{{any}}"]),
        ],
        Decision::Allowed,
    );
    assert_eq!(Decision::Denied, decide(&p, "actor_a", "write", "resource_1"));
    assert_eq!(Decision::Denied, decide(&p, "actor_a", "write", "other"));
    // another actor matches no rule: the default applies.
    assert_eq!(Decision::Allowed, decide(&p, "actor_b", "write", "other"));
}

#[test]
fn prefix_match_with_identity_variable() {
    let p = PolicyBuilder::<DefaultValidator, StartsWith, DefaultSubstituter>::from_json("")
        .with_matcher(StartsWith)
        .with_substituter(DefaultSubstituter)
        .with_default_decision(Decision::Denied)
        .build(vec![statement(
            StatementEffect::Allow,
            &["{{any}}"],
            &["read", "write"],
            &["/home/{{identity}}/"],
        )])
        .unwrap();
    assert_eq!(Decision::Allowed, decide(&p, "johndoe", "write", "/home/johndoe/my.resource"));
    assert_eq!(Decision::Allowed, decide(&p, "johndoe", "read", "/home/johndoe/"));
    assert_eq!(Decision::Denied, decide(&p, "johndoe", "write", "/home/janedoe/my.resource"));
    assert_eq!(Decision::Denied, decide(&p, "johndoe", "delete", "/home/johndoe/my.resource"));
}

#[test]
fn empty_policy_denies_everything() {
    let p = policy(Vec::new(), Decision::Denied);
    assert_eq!(Decision::Denied, decide(&p, "actor_a", "write", "resource_1"));
    assert_eq!(Decision::Denied, decide(&p, "x", "y", ""));
    assert_eq!(0, p.static_rules().len());
    assert_eq!(0, p.variable_rules().len());
}

#[test]
fn empty_identity_is_a_bad_request() {
    assert!(matches!(Request::new("", "write", "resource_1"), Err(Error::BadRequest(_))));
    assert!(matches!(Request::new("actor_a", "", "resource_1"), Err(Error::BadRequest(_))));
    let request = Request::new("actor_a", "write", "").unwrap();
    assert_eq!("actor_a", request.identity());
    assert_eq!("write", request.operation());
    assert_eq!("", request.resource());
    assert!(request.context().is_none());
}

#[test]
fn static_deny_is_final() {
    // a later variable allow and an allowing default cannot lift a static deny.
    let p = policy(
        vec![
            statement(StatementEffect::Deny, &["actor_a"], &["write"], &["resource_1"]),
            statement(StatementEffect::Allow, &["{{any}}"], &["write"], &["{{any}}"]),
        ],
        Decision::Allowed,
    );
    assert_eq!(Decision::Denied, decide(&p, "actor_a", "write", "resource_1"));
    assert_eq!(Decision::Allowed, decide(&p, "actor_a", "write", "resource_2"));
}

#[test]
fn no_rule_gives_default_decision() {
    let statements = || vec![statement(StatementEffect::Deny, &["actor_a"], &["write"], &["{{any}}"])];
    let allowing = policy(statements(), Decision::Allowed);
    let denying = policy(statements(), Decision::Denied);
    assert_eq!(Decision::Allowed, decide(&allowing, "actor_b", "write", "resource_1"));
    assert_eq!(Decision::Denied, decide(&denying, "actor_b", "write", "resource_1"));
    assert_eq!(Decision::Allowed, decide(&allowing, "actor_a", "read", "resource_1"));
}

#[test]
fn first_statement_wins_on_the_same_key() {
    let p = policy(
        vec![
            statement(StatementEffect::Deny, &["a"], &["op"], &["r", "{{any}}"]),
            statement(StatementEffect::Allow, &["a"], &["op"], &["r", "{{any}}"]),
        ],
        Decision::Allowed,
    );
    let static_ops = p.static_rules().get("a").unwrap();
    assert_eq!(
        Some(EffectOrd::new(Effect::Deny, 0)),
        static_ops.get("op").unwrap().get("r")
    );
    let variable_ops = p.variable_rules().get("a").unwrap();
    assert_eq!(
        Some(EffectOrd::new(Effect::Deny, 0)),
        variable_ops.get("op").unwrap().get("{{any}}")
    );
    assert_eq!(Decision::Denied, decide(&p, "a", "op", "r"));
}

#[test]
fn variable_identity_goes_to_variable_index_only() {
    let p = policy(
        vec![statement(StatementEffect::Allow, &["{{any}}", "b"], &["op", "{{operation}}"], &["r", "{{any}}"])],
        Decision::Denied,
    );
    assert!(p.static_rules().get("{{any}}").is_none());
    let variable = p.variable_rules().get("{{any}}").unwrap();
    assert_eq!(2, variable.len());
    assert_eq!(2, variable.get("op").unwrap().len());
    assert_eq!(2, variable.get("{{operation}}").unwrap().len());
    // the literal identity keeps only its literal chain in the static index.
    let static_b = p.static_rules().get("b").unwrap();
    assert_eq!(1, static_b.len());
    assert_eq!(1, static_b.get("op").unwrap().len());
    let variable_b = p.variable_rules().get("b").unwrap();
    assert_eq!(1, variable_b.get("op").unwrap().len());
    assert_eq!(2, variable_b.get("{{operation}}").unwrap().len());
}

#[test]
fn evaluation_is_repeatable() {
    let p = policy(
        vec![
            statement(StatementEffect::Allow, &["actor_a"], &["write"], &["resource_1"]),
            statement(StatementEffect::Deny, &["{{any}}"], &["write"], &["{{identity}}"]),
        ],
        Decision::Allowed,
    );
    let request = Request::new("actor_a", "write", "actor_a").unwrap();
    let first = p.evaluate(&request).unwrap();
    let second = p.evaluate(&request).unwrap();
    assert_eq!(first, second);
    assert_eq!(Decision::Denied, first);
}

#[test]
fn static_scan_takes_the_first_pattern_in_key_order() {
    // with prefix matching both patterns match; "a" sorts before "ab".
    let p = PolicyBuilder::<DefaultValidator, StartsWith, DefaultSubstituter>::from_json("")
        .with_matcher(StartsWith)
        .with_substituter(DefaultSubstituter)
        .build(vec![
            statement(StatementEffect::Allow, &["id"], &["op"], &["ab"]),
            statement(StatementEffect::Deny, &["id"], &["op"], &["a"]),
        ])
        .unwrap();
    assert_eq!(Decision::Denied, decide(&p, "id", "op", "abc"));
    assert_eq!(Decision::Denied, decide(&p, "id", "op", "b"));
}

#[test]
fn first_resolved_identity_decides_the_variable_phase() {
    // "{{any}}" sorts before "{{identity}}": its entry has no "read" operation,
    // so the variable phase says nothing and the default applies.
    let p = policy(
        vec![
            statement(StatementEffect::Allow, &["{{any}}"], &["write"], &["x"]),
            statement(StatementEffect::Allow, &["{{identity}}"], &["read"], &["x"]),
        ],
        Decision::Denied,
    );
    assert_eq!(Decision::Denied, decide(&p, "someone", "read", "x"));
    assert_eq!(Decision::Allowed, decide(&p, "someone", "write", "x"));
}

#[test]
fn missing_matcher_or_substituter_is_a_configuration_error() {
    let no_matcher = PolicyBuilder::<DefaultValidator, DefaultResourceMatcher, DefaultSubstituter>::from_json("")
        .with_substituter(DefaultSubstituter)
        .build(Vec::new());
    assert!(matches!(no_matcher, Err(Error::ConfigurationError(_))));
    let no_substituter = PolicyBuilder::<DefaultValidator, DefaultResourceMatcher, DefaultSubstituter>::from_json("")
        .with_matcher(DefaultResourceMatcher)
        .build(Vec::new());
    assert!(matches!(no_substituter, Err(Error::ConfigurationError(_))));
}

struct NoWildcards;

impl PolicyValidator for NoWildcards {
    fn spec_validate(&self, _field: Field, _value: Seq<char>) -> Result<(), Error> {
        unreachable!()
    }

    fn validate(&self, field: Field, value: &str) -> Result<(), Error> {
        if field == Field::Resources && value.contains('*') {
            Err(Error::ValidationError(format!("wildcard in {}", value)))
        } else {
            Ok(())
        }
    }
}

#[test]
fn validator_refusal_fails_the_build() {
    let refused = PolicyBuilder::<NoWildcards, DefaultResourceMatcher, DefaultSubstituter>::from_json("")
        .with_validator(NoWildcards)
        .with_matcher(DefaultResourceMatcher)
        .with_substituter(DefaultSubstituter)
        .build(vec![
            statement(StatementEffect::Allow, &["a"], &["op"], &["r"]),
            statement(StatementEffect::Allow, &["a"], &["op"], &["x*", "y*"]),
        ]);
    assert_eq!(Some(Error::ValidationError("wildcard in x*".to_string())), refused.err());
    let accepted = PolicyBuilder::<NoWildcards, DefaultResourceMatcher, DefaultSubstituter>::from_json("")
        .with_validator(NoWildcards)
        .with_matcher(DefaultResourceMatcher)
        .with_substituter(DefaultSubstituter)
        .build(vec![statement(StatementEffect::Allow, &["a"], &["op"], &["r"])]);
    assert!(accepted.is_ok());
}

struct Role {
    role: String,
}

struct RoleMatcher;

impl ResourceMatcher for RoleMatcher {
    type Context = Role;

    fn accepts(&self, _context: &Request<Role>, _input: Seq<char>, _policy: Seq<char>) -> bool {
        unreachable!()
    }

    fn do_match(&self, _context: &Request<Role>, input: &str, policy: &str) -> bool {
        input.starts_with(policy)
    }
}

struct RoleSubstituter;

impl Substituter for RoleSubstituter {
    type Context = Role;

    fn spec_visit_identity(&self, _value: Seq<char>, _context: &Request<Role>) -> Result<Seq<char>, Error> {
        unreachable!()
    }

    fn spec_visit_operation(&self, _value: Seq<char>, _context: &Request<Role>) -> Result<Seq<char>, Error> {
        unreachable!()
    }

    fn spec_visit_resource(&self, _value: Seq<char>, _context: &Request<Role>) -> Result<Seq<char>, Error> {
        unreachable!()
    }

    fn visit_identity(&self, value: &str, _context: &Request<Role>) -> Result<String, Error> {
        Ok(value.to_owned())
    }

    fn visit_operation(&self, value: &str, _context: &Request<Role>) -> Result<String, Error> {
        Ok(value.to_owned())
    }

    fn visit_resource(&self, value: &str, context: &Request<Role>) -> Result<String, Error> {
        match context.context() {
            Some(role) => Ok(value.replace("{{role}}", &role.role)),
            None => Err(Error::BadRequest("no role".to_string())),
        }
    }
}

#[test]
fn request_context_reaches_custom_capabilities() {
    let p = PolicyBuilder::<DefaultValidator, RoleMatcher, RoleSubstituter>::from_json("")
        .with_matcher(RoleMatcher)
        .with_substituter(RoleSubstituter)
        .build(vec![statement(StatementEffect::Allow, &["johndoe"], &["write"], &["/shared/{{role}}/"])])
        .unwrap();
    let editor = Request::with_context(
        "johndoe",
        "write",
        "/shared/editor/notes.txt",
        Role { role: "editor".into() },
    )
    .unwrap();
    assert_eq!(Ok(Decision::Allowed), p.evaluate(&editor));
    let guest = Request::with_context(
        "johndoe",
        "write",
        "/shared/editor/notes.txt",
        Role { role: "guest".into() },
    )
    .unwrap();
    assert_eq!(Ok(Decision::Denied), p.evaluate(&guest));
}

struct Failing;

impl Substituter for Failing {
    type Context = ();

    fn spec_visit_identity(&self, _value: Seq<char>, _context: &Request<()>) -> Result<Seq<char>, Error> {
        unreachable!()
    }

    fn spec_visit_operation(&self, _value: Seq<char>, _context: &Request<()>) -> Result<Seq<char>, Error> {
        unreachable!()
    }

    fn spec_visit_resource(&self, _value: Seq<char>, _context: &Request<()>) -> Result<Seq<char>, Error> {
        unreachable!()
    }

    fn visit_identity(&self, _value: &str, _context: &Request<()>) -> Result<String, Error> {
        Err(Error::ValidationError("cannot resolve".to_string()))
    }

    fn visit_operation(&self, value: &str, _context: &Request<()>) -> Result<String, Error> {
        Ok(value.to_owned())
    }

    fn visit_resource(&self, value: &str, _context: &Request<()>) -> Result<String, Error> {
        Ok(value.to_owned())
    }
}

#[test]
fn substitution_error_aborts_the_evaluation() {
    let p = PolicyBuilder::<DefaultValidator, DefaultResourceMatcher, Failing>::from_json("")
        .with_matcher(DefaultResourceMatcher)
        .with_substituter(Failing)
        .build(vec![
            statement(StatementEffect::Allow, &["a"], &["op"], &["r"]),
            statement(StatementEffect::Deny, &["x"], &["op"], &["r"]),
            statement(StatementEffect::Allow, &["{{any}}"], &["op"], &["r"]),
        ])
        .unwrap();
    let request = Request::new("a", "op", "r").unwrap();
    assert_eq!(Err(Error::ValidationError("cannot resolve".to_string())), p.evaluate(&request));
    // a static deny never reaches the substituter.
    let request = Request::new("x", "op", "r").unwrap();
    assert_eq!(Ok(Decision::Denied), p.evaluate(&request));
}
