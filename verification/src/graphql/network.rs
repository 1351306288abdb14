//! Resolving the network a machine is on to its stored identifier.

use vstd::prelude::*;
use crate::capture::pc_common::NetworkInfo;

verus! {

/// Why the machine's network has no stored identifier.
#[derive(Debug, Clone, Copy, PartialEq, Eq, Structural)]
pub enum NetworkError {
    /// The network is not stored and could not be created either.
    NotResolved,
}

/// The stored identity of the network named `ssid`: the last identifier the
/// lookup returned, or, where the lookup returned none, the identifier that
/// creating the network yielded.
pub fn get_network_info(ssid: String, existing: Vec<String>, created: Option<String>) -> (r: Result<
    NetworkInfo,
    NetworkError,
>)
    ensures
        match r {
            Ok(info) => info.name@ == ssid@ && if existing@.len() > 0 {
                info.id@ == existing@.last()@
            } else {
                created matches Some(c) && info.id@ == c@
            },
            Err(e) => existing@.len() == 0 && created is None && e == NetworkError::NotResolved,
        },
{
    let mut existing = existing;
    if existing.len() > 0 {
        let id = existing.pop().unwrap();
        return Ok(NetworkInfo { id, name: ssid });
    }
    match created {
        Some(id) => Ok(NetworkInfo { id, name: ssid }),
        None => Err(NetworkError::NotResolved),
    }
}

} // verus!
