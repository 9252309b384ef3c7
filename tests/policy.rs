use allow_me::{
    Decision, DefaultResourceMatcher, DefaultSubstituter, DefaultValidator, Effect, EffectOrd,
    Policy, PolicyBuilder, Request, Statement, StatementEffect,
};
use serde_json::Value;

fn strings(value: Option<&Value>) -> Vec<String> {
    match value.and_then(Value::as_array) {
        Some(items) => items
            .iter()
            .map(|item| item.as_str().expect("a string").to_owned())
            .collect(),
        None => Vec::new(),
    }
}

/// Reads the statements of a policy definition.
fn statements_from_json(json: &str) -> Vec<Statement> {
    let definition: Value = serde_json::from_str(json).expect("valid json");
    let statements = definition
        .get("statements")
        .and_then(Value::as_array)
        .expect("a list of statements");
    statements
        .iter()
        .map(|statement| Statement {
            order: 0,
            description: statement
                .get("description")
                .and_then(Value::as_str)
                .unwrap_or("")
                .to_owned(),
            effect: match statement.get("effect").and_then(Value::as_str) {
                Some("allow") => StatementEffect::Allow,
                Some("deny") => StatementEffect::Deny,
                other => panic!("unknown effect {:?}", other),
            },
            identities: strings(statement.get("identities")),
            operations: strings(statement.get("operations")),
            resources: strings(statement.get("resources")),
        })
        .collect()
}

fn build_with_default(json: &str, decision: Decision) -> Policy<DefaultResourceMatcher, DefaultSubstituter> {
    PolicyBuilder::<DefaultValidator, DefaultResourceMatcher, DefaultSubstituter>::from_json(json)
        .with_validator(DefaultValidator)
        .with_matcher(DefaultResourceMatcher)
        .with_substituter(DefaultSubstituter)
        .with_default_decision(decision)
        .build(statements_from_json(json))
        .expect("Unable to build policy from json.")
}

fn build_policy(json: &str) -> Policy<DefaultResourceMatcher, DefaultSubstituter> {
    build_with_default(json, Decision::Denied)
}

fn rule(
    policy_rules: &allow_me::Identities,
    identity: &str,
    operation: &str,
    resource: &str,
) -> Option<EffectOrd> {
    policy_rules.get(identity)?.get(operation)?.get(resource)
}

#[test]
fn evaluate_explicit_rule_allowed() {
    let json = r#"{
        "schemaVersion": "2020-10-30",
        "statements": [
            {
                "effect": "allow",
                "identities": [
                    "contoso.azure-devices.net/sensor_a"
                ],
                "operations": [
                    "mqtt:publish"
                ],
                "resources": [
                    "events/alerts"
                ]
            }
        ]
    }"#;

    let policy = build_policy(json);

    let request = Request::new(
        "contoso.azure-devices.net/sensor_a".into(),
        "mqtt:publish".into(),
        "events/alerts".into(),
    )
    .unwrap();

    let result = policy.evaluate(&request).unwrap();
    assert_eq!(Decision::Allowed, result);
}

#[test]
fn test_basic_definition() {
    let json = r#"{
        "schemaVersion": "2020-10-30",
        "statements": [
            {
                "effect": "allow",
                "identities": [
                    "contoso.azure-devices.net/monitor_a"
                ],
                "operations": [
                    "mqtt:subscribe"
                ],
                "resources": [
                    "events/#"
                ]
            },
            {
                "effect": "allow",
                "identities": [
                    "contoso.azure-devices.net/sensor_a"
                ],
                "operations": [
                    "mqtt:publish"
                ],
                "resources": [
                    "events/alerts"
                ]
            },
            {
                "description": "Deny all other iot identities to subscribe",
                "effect": "deny",
                "identities": [
                    "{{iot:identity}}"
                ],
                "operations": [
                    "mqtt:subscribe"
                ],
                "resources": [
                    "events/#"
                ]
            }
        ]
    }"#;

    let policy = build_policy(json);

    assert_eq!(1, policy.variable_rules().len());
    assert_eq!(2, policy.static_rules().len());
}

#[test]
fn identity_merge_rules() {
    let json = r#"{
        "schemaVersion": "2020-10-30",
        "statements": [
            {
                "effect": "allow",
                "identities": [
                    "contoso.azure-devices.net/sensor_a"
                ],
                "operations": [
                    "mqtt:publish"
                ],
                "resources": [
                    "events/telemetry"
                ]
            },
            {
                "effect": "allow",
                "identities": [
                    "contoso.azure-devices.net/sensor_a"
                ],
                "operations": [
                    "mqtt:subscribe"
                ],
                "resources": [
                    "events/alerts"
                ]
            },
            {
                "effect": "allow",
                "identities": [
                    "contoso.azure-devices.net/sensor_a"
                ],
                "operations": [
                    "mqtt:subscribe"
                ],
                "resources": [
                    "{{mqtt:client_id}}/#"
                ]
            },
            {
                "effect": "allow",
                "identities": [
                    "contoso.azure-devices.net/sensor_a"
                ],
                "operations": [
                    "mqtt:publish"
                ],
                "resources": [
                    "{{mqtt:client_id}}/#"
                ]
            }
        ]
    }"#;

    let policy = build_policy(json);

    // static rules have 1 identity and 2 operations
    assert_eq!(1, policy.static_rules().len());
    assert_eq!(
        2,
        policy
            .static_rules()
            .get("contoso.azure-devices.net/sensor_a")
            .unwrap()
            .len()
    );

    // variable rules have 1 identity and 2 operations
    assert_eq!(1, policy.variable_rules().len());
    assert_eq!(
        2,
        policy
            .variable_rules()
            .get("contoso.azure-devices.net/sensor_a")
            .unwrap()
            .len()
    );
}

#[test]
fn operation_merge_rules() {
    let json = r#"{
        "schemaVersion": "2020-10-30",
        "statements": [
            {
                "effect": "allow",
                "identities": [
                    "contoso.azure-devices.net/sensor_a"
                ],
                "operations": [
                    "mqtt:publish"
                ],
                "resources": [
                    "events/telemetry"
                ]
            },
            {
                "effect": "allow",
                "identities": [
                    "contoso.azure-devices.net/sensor_a"
                ],
                "operations": [
                    "mqtt:publish"
                ],
                "resources": [
                    "events/alerts"
                ]
            },
            {
                "effect": "allow",
                "identities": [
                    "contoso.azure-devices.net/sensor_a"
                ],
                "operations": [
                    "mqtt:subscribe"
                ],
                "resources": [
                    "{{mqtt:client_id}}/#"
                ]
            },
            {
                "effect": "allow",
                "identities": [
                    "contoso.azure-devices.net/sensor_a"
                ],
                "operations": [
                    "mqtt:subscribe"
                ],
                "resources": [
                    "devices/{{mqtt:client_id}}/#"
                ]
            }
        ]
    }"#;

    let policy = build_policy(json);

    // static rules have 1 identity, 1 operation and 2 resources
    let static_ops = policy
        .static_rules()
        .get("contoso.azure-devices.net/sensor_a")
        .unwrap();
    assert_eq!(1, static_ops.len());
    assert_eq!(2, static_ops.get("mqtt:publish").unwrap().len());

    // variable rules have 1 identity, 1 operation and 2 resources
    let variable_ops = policy
        .variable_rules()
        .get("contoso.azure-devices.net/sensor_a")
        .unwrap();
    assert_eq!(1, variable_ops.len());
    assert_eq!(2, variable_ops.get("mqtt:subscribe").unwrap().len());
}

#[test]
fn resource_merge_rules_higher_priority_statement_wins() {
    let json = r#"{
        "schemaVersion": "2020-10-30",
        "statements": [
            {
                "effect": "allow",
                "identities": [
                    "contoso.azure-devices.net/sensor_a"
                ],
                "operations": [
                    "mqtt:publish"
                ],
                "resources": [
                    "events/telemetry"
                ]
            },
            {
                "effect": "deny",
                "identities": [
                    "contoso.azure-devices.net/sensor_a"
                ],
                "operations": [
                    "mqtt:publish"
                ],
                "resources": [
                    "events/telemetry"
                ]
            },
            {
                "effect": "allow",
                "identities": [
                    "contoso.azure-devices.net/sensor_a"
                ],
                "operations": [
                    "mqtt:subscribe"
                ],
                "resources": [
                    "{{mqtt:client_id}}/#"
                ]
            },
            {
                "effect": "deny",
                "identities": [
                    "contoso.azure-devices.net/sensor_a"
                ],
                "operations": [
                    "mqtt:subscribe"
                ],
                "resources": [
                    "{{mqtt:client_id}}/#"
                ]
            }
        ]
    }"#;

    let policy = build_policy(json);

    // the higher priority rule wins.
    assert_eq!(
        Some(EffectOrd {
            order: 0,
            effect: Effect::Allow
        }),
        rule(
            policy.static_rules(),
            "contoso.azure-devices.net/sensor_a",
            "mqtt:publish",
            "events/telemetry"
        )
    );

    // the higher priority rule wins for variable rules.
    assert_eq!(
        Some(EffectOrd {
            order: 2,
            effect: Effect::Allow
        }),
        rule(
            policy.variable_rules(),
            "contoso.azure-devices.net/sensor_a",
            "mqtt:subscribe",
            "{{mqtt:client_id}}/#"
        )
    );
}

#[test]
fn grouping_rules_with_variables_test() {
    let json = r#"{
        "schemaVersion": "2020-10-30",
        "statements": [
            {
                "effect": "allow",
                "identities": [
                    "contoso.azure-devices.net/sensor_a",
                    "contoso.azure-devices.net/sensor_b",
                    "{{iot:identity}}"
                ],
                "operations": [
                    "mqtt:publish",
                    "mqtt:subscribe"
                ],
                "resources": [
                    "events/telemetry",
                    "devices/{{mqtt:client_id}}/#"
                ]
            }
        ]
    }"#;

    let policy = build_policy(json);
    let allow_first = Some(EffectOrd {
        effect: Effect::Allow,
        order: 0,
    });

    // static rules.
    let s = policy.static_rules();
    assert_eq!(2, s.len());
    assert_eq!(
        rule(s, "contoso.azure-devices.net/sensor_a", "mqtt:publish", "events/telemetry"),
        allow_first
    );
    assert_eq!(
        rule(s, "contoso.azure-devices.net/sensor_a", "mqtt:subscribe", "events/telemetry"),
        allow_first
    );
    assert_eq!(
        rule(s, "contoso.azure-devices.net/sensor_b", "mqtt:publish", "events/telemetry"),
        allow_first
    );
    assert_eq!(
        rule(s, "contoso.azure-devices.net/sensor_b", "mqtt:subscribe", "events/telemetry"),
        allow_first
    );

    // variable rules.
    let v = policy.variable_rules();
    assert_eq!(3, v.len());
    assert_eq!(
        rule(v, "contoso.azure-devices.net/sensor_a", "mqtt:publish", "devices/{{mqtt:client_id}}/#"),
        allow_first
    );
    assert_eq!(
        rule(v, "contoso.azure-devices.net/sensor_a", "mqtt:subscribe", "devices/{{mqtt:client_id}}/#"),
        allow_first
    );
    assert_eq!(
        rule(v, "contoso.azure-devices.net/sensor_b", "mqtt:publish", "devices/{{mqtt:client_id}}/#"),
        allow_first
    );
    assert_eq!(
        rule(v, "contoso.azure-devices.net/sensor_b", "mqtt:subscribe", "devices/{{mqtt:client_id}}/#"),
        allow_first
    );
    assert_eq!(
        rule(v, "{{iot:identity}}", "mqtt:publish", "devices/{{mqtt:client_id}}/#"),
        allow_first
    );
    assert_eq!(
        rule(v, "{{iot:identity}}", "mqtt:subscribe", "devices/{{mqtt:client_id}}/#"),
        allow_first
    );
}

#[test]
fn evaluate_static_rules() {
    let json = r#"{
        "schemaVersion": "2020-10-30",
        "statements": [
            {
                "effect": "deny",
                "identities": [
                    "contoso.azure-devices.net/sensor_a"
                ],
                "operations": [
                    "mqtt:publish"
                ],
                "resources": [
                    "events/alerts"
                ]
            },
            {
                "effect": "allow",
                "identities": [
                    "contoso.azure-devices.net/sensor_b"
                ],
                "operations": [
                    "mqtt:subscribe"
                ],
                "resources": [
                    "events/alerts"
                ]
            }
        ]
    }"#;

    let policy = build_policy(json);

    let request = Request::new(
        "contoso.azure-devices.net/sensor_a".into(),
        "mqtt:publish".into(),
        "events/alerts".into(),
    )
    .unwrap();

    assert!(matches!(policy.evaluate(&request), Ok(Decision::Denied)));

    let request = Request::new(
        "contoso.azure-devices.net/sensor_b".into(),
        "mqtt:subscribe".into(),
        "events/alerts".into(),
    )
    .unwrap();

    assert!(matches!(policy.evaluate(&request), Ok(Decision::Allowed)));
}

#[test]
fn evaluate_undefined_rules_expected_default_action() {
    let json = r#"{
        "schemaVersion": "2020-10-30",
        "statements": [
            {
                "effect": "allow",
                "identities": [
                    "contoso.azure-devices.net/some_device"
                ],
                "operations": [
                    "mqtt:publish"
                ],
                "resources": [
                    "events/alerts"
                ]
            }
        ]
    }"#;

    let request = Request::new(
        "contoso.azure-devices.net/some_other_device".into(),
        "mqtt:publish".into(),
        "events/alerts".into(),
    )
    .unwrap();

    let allow_default_policy = build_with_default(json, Decision::Allowed);

    assert!(matches!(
        allow_default_policy.evaluate(&request),
        Ok(Decision::Allowed)
    ));

    let deny_default_policy = build_with_default(json, Decision::Denied);

    assert!(matches!(deny_default_policy.evaluate(&request), Ok(Decision::Denied)));
}

#[test]
fn evaluate_static_variable_rule_conflict_first_rule_wins() {
    let json = r#"{
        "schemaVersion": "2020-10-30",
        "statements": [
            {
                "effect": "allow",
                "identities": [
                    "contoso.azure-devices.net/sensor_a"
                ],
                "operations": [
                    "mqtt:publish"
                ],
                "resources": [
                    "events/alerts"
                ]
            },
            {
                "effect": "deny",
                "identities": [
                    "contoso.azure-devices.net/sensor_a"
                ],
                "operations": [
                    "mqtt:publish"
                ],
                "resources": [
                    "events/alerts"
                ]
            }
        ]
    }"#;

    let policy = build_policy(json);

    let request = Request::new(
        "contoso.azure-devices.net/sensor_a".into(),
        "mqtt:publish".into(),
        "events/alerts".into(),
    )
    .unwrap();

    let result = policy.evaluate(&request).unwrap();
    assert_eq!(Decision::Allowed, result);
}
