//! Reading the backend's answers about a user's stored network names.

use vstd::prelude::*;

verus! {

/// A stored network row's reference.
pub struct SsidRef {
    pub id: String,
}

/// One row of the network query: the network it points at.
pub struct UserSsidRow {
    pub ssid: SsidRef,
}

/// The decoded answer of the network query.
pub struct UserSsidResponse {
    /// The errors the backend reported, where it reported any.
    pub errors: Option<Vec<String>>,
    /// The rows it returned.
    pub rows: Vec<UserSsidRow>,
}

/// The decoded answer of the network insertion.
pub struct InsertSsidResponse {
    /// The errors the backend reported, where it reported any.
    pub errors: Option<Vec<String>>,
    /// The identifier of the inserted row, where one was inserted.
    pub inserted: Option<String>,
}

/// Why a network name could not be resolved to a stored identifier.
#[derive(Debug, Clone, Copy, PartialEq, Eq, Structural)]
pub enum SsidError {
    /// The backend reported errors.
    QueryFailed,
    /// The backend answered cleanly but knows no such network.
    NotFound,
}

/// The stored identifier that a network query's answer names: the first
/// row's reference; a reported error or an empty answer resolves nothing.
pub fn get_user_ssid(response: UserSsidResponse) -> (r: Result<String, SsidError>)
    ensures
        match r {
            Ok(id) => response.errors is None && response.rows@.len() > 0 && id@
                == response.rows@[0].ssid.id@,
            Err(SsidError::QueryFailed) => response.errors is Some,
            Err(SsidError::NotFound) => response.errors is None && response.rows@.len() == 0,
        },
{
    if response.errors.is_some() {
        return Err(SsidError::QueryFailed);
    }
    let mut rows = response.rows;
    if rows.len() == 0 {
        return Err(SsidError::NotFound);
    }
    let row = rows.remove(0);
    Ok(row.ssid.id)
}

/// The stored identifier that a network insertion's answer names; a
/// reported error or a missing row resolves nothing.
pub fn insert_user_ssid(response: InsertSsidResponse) -> (r: Result<String, SsidError>)
    ensures
        match r {
            Ok(id) => response.errors is None && (response.inserted matches Some(x) && id@ == x@),
            Err(SsidError::QueryFailed) => response.errors is Some,
            Err(SsidError::NotFound) => response.errors is None && response.inserted is None,
        },
{
    if response.errors.is_some() {
        return Err(SsidError::QueryFailed);
    }
    match response.inserted {
        Some(id) => Ok(id),
        None => Err(SsidError::NotFound),
    }
}

/// The stored identifier for a network name: what the lookup resolved, or,
/// where the lookup failed, what inserting the name yielded.
pub fn get_or_insert_user_ssid(queried: Result<String, SsidError>, inserted: Result<
    String,
    SsidError,
>) -> (r: Result<String, SsidError>)
    ensures
        match queried {
            Ok(_) => r == queried,
            Err(_) => r == inserted,
        },
{
    match queried {
        Ok(id) => Ok(id),
        Err(_) => inserted,
    }
}

} // verus!
