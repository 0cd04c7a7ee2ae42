//! Who may initialise channels: the configured owner, or anyone holding one
//! of the allowed moderator roles.

use vstd::prelude::*;

use crate::strutil::str_eq;

verus! {

/// The user identifier that is always allowed.
pub const BOSS: u64 = 190534649548767243;

/// True when `name` is one of the roles allowed to initialise channels.
pub open spec fn spec_is_allowed_role(name: Seq<char>) -> bool {
    name == "MasterScrivener"@ || name == "ScrivMaster"@ || name == "ScrivAdmin"@
}

/// Executable test against the same role list.
pub fn is_allowed_role(name: &str) -> (r: bool)
    ensures
        r == spec_is_allowed_role(name@),
{
    str_eq(name, "MasterScrivener") || str_eq(name, "ScrivMaster") || str_eq(name, "ScrivAdmin")
}

/// Decides whether an author may initialise channels, given the names of the
/// roles they hold.
pub fn author_is_allowed(user_id: u64, role_names: &Vec<String>) -> (r: bool)
    ensures
        r == (user_id == BOSS || exists|i: int|
            0 <= i < role_names@.len() && spec_is_allowed_role(#[trigger] role_names@[i]@)),
{
    if user_id == BOSS {
        return true;
    }
    let mut i: usize = 0;
    while i < role_names.len()
        invariant
            i <= role_names.len(),
            forall|j: int| 0 <= j < i ==> !spec_is_allowed_role(#[trigger] role_names@[j]@),
        decreases role_names.len() - i,
    {
        let name = &role_names[i];
        if is_allowed_role(name.as_str()) {
            return true;
        }
        i = i + 1;
    }
    false
}

/// How many authors a stats reply shows by default.
pub const DEFAULT_TRUNCATE_LIMIT: usize = 5;

/// The truncation cap a stats request asks for: none when the caller passed
/// `-full`, the default otherwise.
pub fn get_truncate_limit(arg: Option<&str>) -> (r: Option<usize>)
    ensures
        r == (match arg {
            Some(s) => if s@ == "-full"@ {
                None::<usize>
            } else {
                Some(DEFAULT_TRUNCATE_LIMIT)
            },
            None => Some(DEFAULT_TRUNCATE_LIMIT),
        }),
{
    match arg {
        Some(s) => {
            if str_eq(s, "-full") {
                None
            } else {
                Some(DEFAULT_TRUNCATE_LIMIT)
            }
        },
        None => Some(DEFAULT_TRUNCATE_LIMIT),
    }
}

} // verus!
