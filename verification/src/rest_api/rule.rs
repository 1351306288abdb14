//! Reading the rule listing that the plain HTTP endpoint returns.

use vstd::prelude::*;
use crate::scripting::interpreter::Rule;

verus! {

/// The decoded payload of the rule listing.
pub struct RulesPayload {
    pub project_rule: Vec<Rule>,
}

/// Why the rule listing yielded nothing.
#[derive(Debug, Clone, Copy, PartialEq, Eq, Structural)]
pub enum RestError {
    /// The endpoint answered without a payload.
    NoData,
}

/// The rules of a decoded listing: the payload's rows, or an error when the
/// endpoint sent none.
pub fn get_rules(response: Option<RulesPayload>) -> (r: Result<Vec<Rule>, RestError>)
    ensures
        match r {
            Ok(rules) => response matches Some(d) && rules == d.project_rule,
            Err(e) => response is None && e == RestError::NoData,
        },
{
    match response {
        Some(d) => Ok(d.project_rule),
        None => Err(RestError::NoData),
    }
}

} // verus!
