//! A rule-script engine: a small line-oriented language in which a user
//! describes a periodic automation, with its lexer, parser, typed variable
//! store, interpreter and the host-facing shapes around them.  Programs are
//! parsed once and executed tick after tick against a mutable store and a
//! world of collaborator inputs and outputs.

pub mod capture;
pub mod graphql;
pub mod rest_api;
pub mod scripting;
pub mod util;
