pub mod config_file;
pub mod error;
pub mod operations;
pub mod jsonstructs_versionsdb;
pub mod markers;
pub mod strmap;
pub mod utils;
pub mod version;
pub mod versions_file;

use vstd::prelude::*;

verus! {

/// Full version string of the Julia build that ships beside the launcher
/// itself; installing this exact version can reuse the bundled copy instead
/// of downloading.
pub fn get_bundled_julia_full_version() -> (r: &'static str)
    ensures
        r@ == "1.8.5"@,
{
    "1.8.5"
}

} // verus!
