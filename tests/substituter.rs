use allow_me::{DefaultSubstituter, Request, Substituter, VariableIter};

fn request() -> Request<()> {
    Request::new("some_identity", "some_operation", "some_resource").unwrap()
}

#[test]
fn visit_identity_any_and_identity_vars() {
    let s = DefaultSubstituter;
    assert_eq!("some_identity", s.visit_identity("{{any}}", &request()).unwrap());
    assert_eq!("some_identity", s.visit_identity("{{identity}}", &request()).unwrap());
    assert_eq!("{{operation}}", s.visit_identity("{{operation}}", &request()).unwrap());
}

#[test]
fn visit_operation_vars() {
    let s = DefaultSubstituter;
    assert_eq!("some_operation", s.visit_operation("{{any}}", &request()).unwrap());
    assert_eq!("some_operation", s.visit_operation("{{operation}}", &request()).unwrap());
    assert_eq!("some_identity", s.visit_operation("{{identity}}", &request()).unwrap());
    assert_eq!(
        "prefix-some_identity-suffix",
        s.visit_operation("prefix-{{identity}}-suffix", &request()).unwrap()
    );
    assert_eq!(
        "prefix-some_identity-contains-some_identity-suffix",
        s.visit_operation("prefix-{{identity}}-contains-{{identity}}-suffix", &request())
            .unwrap()
    );
}

#[test]
fn visit_resource_vars() {
    let s = DefaultSubstituter;
    assert_eq!("some_resource", s.visit_resource("{{any}}", &request()).unwrap());
    assert_eq!("some_operation", s.visit_resource("{{operation}}", &request()).unwrap());
    assert_eq!("some_identity", s.visit_resource("{{identity}}", &request()).unwrap());
    assert_eq!(
        "home/some_identity/middle/some_operation/last",
        s.visit_resource("home/{{identity}}/middle/{{operation}}/last", &request())
            .unwrap()
    );
}

#[test]
fn markers_after_a_stray_closing_pair_are_replaced() {
    let s = DefaultSubstituter;
    assert_eq!("x}}some_resource", s.visit_resource("x}}{{any}}", &request()).unwrap());
}

#[test]
fn unknown_variables_stay_verbatim() {
    let s = DefaultSubstituter;
    assert_eq!(
        "{{role}}/some_resource",
        s.visit_resource("{{role}}/{{any}}", &request()).unwrap()
    );
    assert_eq!("plain", s.visit_resource("plain", &request()).unwrap());
}

fn all_variables(value: &str) -> Vec<String> {
    let mut iter = VariableIter::new(value);
    let mut found = Vec::new();
    while let Some(v) = iter.next() {
        found.push(v.to_string());
    }
    found
}

#[test]
fn variable_iter_finds_spans_in_order() {
    assert_eq!(vec!["{{a}}", "{{b}}"], all_variables("x{{a}}y{{b}}z"));
    assert_eq!(vec!["{{a}}", "{{a}}"], all_variables("{{a}}{{a}}"));
    assert!(all_variables("no variables").is_empty());
    assert!(all_variables("").is_empty());
}

#[test]
fn variable_iter_skips_a_closing_marker_before_the_opening_one() {
    assert_eq!(vec!["{{a}}"], all_variables("}}{{a}}"));
    assert_eq!(vec!["{{b}}"], all_variables("a}}{{b}}"));
    assert_eq!(vec!["{{a}}", "{{b}}"], all_variables("{{a}}}}{{b}}"));
    assert!(all_variables("{{a").is_empty());
    assert_eq!(vec!["{{{a}}"], all_variables("{{{a}}"));
    assert_eq!(vec!["{{}}"], all_variables("{{}}}}"));
}

#[test]
fn variable_iter_does_not_crash() {
    for value in ["{", "}", "{{", "}}", "{}{}", "}{{}{}}", "{{{{}}}}", "a{b}c{{d}}}e{{"] {
        let _ = all_variables(value);
    }
}
