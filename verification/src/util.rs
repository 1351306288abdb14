//! Host facts gathered once at startup and seeded into every rule's store.

use vstd::prelude::*;

verus! {

/// What the bootstrap collaborator learns about the host: the operating
/// system, the machine, and the user.
pub struct OsInfo {
    pub os_type: String,
    pub version: String,
    pub batteries: Option<i32>,
    pub hostname: String,
    pub username: Option<String>,
    pub machine_id: Option<String>,
}

/// The model of the host facts.
pub struct OsInfoModel {
    pub os_type: Seq<char>,
    pub version: Seq<char>,
    pub batteries: Option<int>,
    pub hostname: Seq<char>,
    pub username: Option<Seq<char>>,
    pub machine_id: Option<Seq<char>>,
}

impl View for OsInfo {
    type V = OsInfoModel;

    open spec fn view(&self) -> OsInfoModel {
        OsInfoModel {
            os_type: self.os_type@,
            version: self.version@,
            batteries: match self.batteries {
                Some(b) => Some(b as int),
                None => None,
            },
            hostname: self.hostname@,
            username: match self.username {
                Some(u) => Some(u@),
                None => None,
            },
            machine_id: match self.machine_id {
                Some(m) => Some(m@),
                None => None,
            },
        }
    }
}

impl Default for OsInfo {
    /// A stand-in host description, for use where no collaborator supplies
    /// one.
    fn default() -> (r: OsInfo)
        ensures
            r@.os_type == "Arch Linux"@,
            r@.version == "rolling"@,
            r@.batteries == Some(0int),
            r@.hostname == "phirearch"@,
            r@.username matches Some(u) && u == Seq::<char>::empty(),
            r@.machine_id is None,
    {
        proof {
            reveal_strlit("");
            assert(""@ =~= Seq::<char>::empty());
        }
        OsInfo {
            os_type: "Arch Linux".to_owned(),
            version: "rolling".to_owned(),
            batteries: Some(0),
            hostname: "phirearch".to_owned(),
            machine_id: None,
            username: Some("".to_owned()),
        }
    }
}

} // verus!
