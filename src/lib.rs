//! An authorization library. Rules are statements over identities,
//! operations and resources, each allowing or denying; a compiled policy
//! evaluates requests against them.
//!
//! Supports variable rules, custom resource matching, custom variable
//! substitution, custom validation, and a default decision for requests
//! that no rule applies to.

pub mod errors;
pub mod matcher;
pub mod policy;
pub mod substituter;
pub mod text;
pub mod validator;

pub use crate::errors::Error;
pub use crate::matcher::Default as DefaultResourceMatcher;
pub use crate::matcher::ResourceMatcher;
pub use crate::policy::builder::{PolicyBuilder, Statement, StatementEffect};
pub use crate::policy::{
    Decision, Effect, EffectOrd, Identities, Operations, Policy, Request, Resources,
};
pub use crate::substituter::{DefaultSubstituter, Substituter, VariableIter};
pub use crate::validator::{DefaultValidator, Field, PolicyValidator};
