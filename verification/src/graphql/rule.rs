//! Stored rules, as the backend's rule query returns them.

use vstd::prelude::*;
use crate::graphql::tags::IdValue;

verus! {

/// One stored rule row: its condition and its statement.
pub struct Rule {
    pub conditions: Condition,
    pub statements: Statement,
}

/// The condition column of a rule row.
pub struct Condition {
    pub condition: IdValue,
}

/// The statement column of a rule row.
pub struct Statement {
    pub statement: IdValue,
}

/// The decoded payload of the rule query.
pub struct RulesData {
    pub rules: Vec<Rule>,
}

/// Why the rule query yielded no rules.
#[derive(Debug, Clone, Copy, PartialEq, Eq, Structural)]
pub enum RulesError {
    /// The backend answered without a payload.
    NoData,
}

/// The rules of a decoded rule-query answer: the payload's rows, or an
/// error when the backend sent none.
pub fn get_rules(response: Option<RulesData>) -> (r: Result<Vec<Rule>, RulesError>)
    ensures
        match r {
            Ok(rules) => response matches Some(d) && rules == d.rules,
            Err(e) => response is None && e == RulesError::NoData,
        },
{
    match response {
        Some(d) => Ok(d.rules),
        None => Err(RulesError::NoData),
    }
}

} // verus!
