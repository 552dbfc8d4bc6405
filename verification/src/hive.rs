//! The closed set of store roots the system understands, and the
//! resolution of a symbolic hive name to a root.

use vstd::prelude::*;
use crate::strings::str_eq;

verus! {

/// A root of the hierarchical store.  The set is closed: the per-user root
/// and the machine-wide root are the only roots the walks accept.
#[derive(Debug, Clone, Copy, PartialEq, Eq, Structural)]
pub enum HiveId {
    CurrentUser,
    LocalMachine,
}

/// Which root a symbolic hive name resolves to; `None` for every name
/// outside the closed set.
pub open spec fn hive_id_of(name: Seq<char>) -> Option<HiveId> {
    if name == "HKEY_CURRENT_USER"@ {
        Some(HiveId::CurrentUser)
    } else if name == "HKEY_LOCAL_MACHINE"@ {
        Some(HiveId::LocalMachine)
    } else {
        None
    }
}

/// Resolves a symbolic hive name to its root.
pub fn get_hkey_from_name(name: &str) -> (r: Option<HiveId>)
    ensures
        r == hive_id_of(name@),
{
    if str_eq(name, "HKEY_CURRENT_USER") {
        Some(HiveId::CurrentUser)
    } else if str_eq(name, "HKEY_LOCAL_MACHINE") {
        Some(HiveId::LocalMachine)
    } else {
        None
    }
}

/// Distinct hive names never resolve to the same root.
pub proof fn lemma_hive_id_injective(a: Seq<char>, b: Seq<char>)
    requires
        hive_id_of(a) is Some,
        hive_id_of(a) == hive_id_of(b),
    ensures
        a == b,
{
    reveal_strlit("HKEY_CURRENT_USER");
    reveal_strlit("HKEY_LOCAL_MACHINE");
}

} // verus!
