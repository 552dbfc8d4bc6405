//! The deterministic location of the backup document for one game: a base
//! directory, the game's identifier, a fixed subfolder and a fixed file
//! name, joined into one path string.

use vstd::prelude::*;
use vstd::string::StringExecFns;

verus! {

/// The backup document of a game lives under the game's backup directory,
/// in the fixed subfolder `other`, as the fixed file `registry.yaml`.
pub open spec fn backup_file_path(start: Seq<char>, game: Seq<char>) -> Seq<char> {
    start + "/"@ + game + "/other/registry.yaml"@
}

/// Renders the location of the backup document for one game.
pub fn game_registry_backup_file(start: &str, game: &str) -> (r: String)
    ensures
        r@ == backup_file_path(start@, game@),
{
    let mut r = start.to_owned();
    r.append("/");
    r.append(game);
    r.append("/other/registry.yaml");
    proof {
        assert(r@ =~= backup_file_path(start@, game@));
    }
    r
}

} // verus!
