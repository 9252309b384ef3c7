use allow_me::matcher::StartsWith;
use allow_me::policy::builder::is_variable_rule;
use allow_me::text::{compare_text, replace, starts_with, text_eq};
use allow_me::{DefaultResourceMatcher, Request, ResourceMatcher};
use std::cmp::Ordering;

#[test]
fn compare_is_lexicographic() {
    assert_eq!(Ordering::Less, compare_text("a", "ab"));
    assert_eq!(Ordering::Less, compare_text("ab", "b"));
    assert_eq!(Ordering::Equal, compare_text("same", "same"));
    assert_eq!(Ordering::Greater, compare_text("b", "a"));
    assert_eq!(Ordering::Less, compare_text("", "a"));
    assert_eq!(Ordering::Less, compare_text("{{any}}", "{{identity}}"));
    assert_eq!("Z".cmp("a"), compare_text("Z", "a"));
    assert_eq!("é".cmp("z"), compare_text("é", "z"));
}

#[test]
fn replace_every_occurrence() {
    assert_eq!("xbxb", replace("abab", "a", "x"));
    assert_eq!("aa", replace("aaaa", "aa", "a"));
    assert_eq!("none", replace("none", "zz", "y"));
    assert_eq!("", replace("", "a", "b"));
    assert_eq!("[x]", replace("[{{v}}]", "{{v}}", "x"));
}

#[test]
fn prefix_and_equality() {
    assert!(starts_with("/home/me/file", "/home/me/"));
    assert!(starts_with("abc", ""));
    assert!(!starts_with("ab", "abc"));
    assert!(text_eq("x", "x"));
    assert!(!text_eq("x", "y"));
}

#[test]
fn variable_rules_need_a_whole_marker() {
    assert!(is_variable_rule("{{any}}"));
    assert!(is_variable_rule("devices/{{mqtt:client_id}}/#"));
    assert!(is_variable_rule("{{}}"));
    assert!(!is_variable_rule("events/#"));
    assert!(!is_variable_rule("{{open"));
    assert!(!is_variable_rule("}}{{"));
    assert!(!is_variable_rule("{}"));
}

#[test]
fn matchers() {
    let request = Request::new("i", "o", "r").unwrap();
    assert!(DefaultResourceMatcher.do_match(&request, "events/alerts", "events/alerts"));
    assert!(!DefaultResourceMatcher.do_match(&request, "events/alerts", "events/"));
    assert!(StartsWith.do_match(&request, "events/alerts", "events/"));
    assert!(!StartsWith.do_match(&request, "events/", "events/alerts"));
}
