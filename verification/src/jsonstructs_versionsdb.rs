use vstd::prelude::*;
use crate::strmap::StrMap;

verus! {

/// Download location of one installable build.
pub struct JuliaupVersionDBVersion {
    pub url: String,
}

/// Version that a channel name currently resolves to.
pub struct JuliaupVersionDBChannel {
    pub version: String,
}

/// Version database for one target platform: every installable build keyed
/// by its full version string, and every legal channel name keyed to the
/// full version string it resolves to. Built once per run, then read-only.
pub struct JuliaupVersionDB {
    pub available_versions: StrMap<JuliaupVersionDBVersion>,
    pub available_channels: StrMap<JuliaupVersionDBChannel>,
}

impl JuliaupVersionDB {
    pub open spec fn wf(&self) -> bool {
        self.available_versions.wf() && self.available_channels.wf()
    }
}

} // verus!
