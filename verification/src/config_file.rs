use vstd::prelude::*;
use crate::strmap::StrMap;

verus! {

/// Persisted record of one installed build: its install directory, relative
/// to the home directory.
pub struct JuliaupConfigVersion {
    pub path: String,
}

impl JuliaupConfigVersion {
    pub fn duplicate(&self) -> (r: JuliaupConfigVersion)
        ensures
            r == *self,
    {
        JuliaupConfigVersion { path: self.path.clone() }
    }
}

/// A channel as persisted in the configuration: either a managed installed
/// version, or an alias for an arbitrary external command.
pub enum JuliaupConfigChannel {
    SystemChannel { version: String },
    LinkedChannel { command: String, args: Option<Vec<String>> },
}

/// Whether channel `c` keeps the installed version named `v` alive. Only a
/// system channel protects a version; a linked channel never does.
pub open spec fn channel_references(c: JuliaupConfigChannel, v: Seq<char>) -> bool {
    match c {
        JuliaupConfigChannel::SystemChannel { version } => version@ == v,
        JuliaupConfigChannel::LinkedChannel { .. } => false,
    }
}

/// Whether any channel in `channels` keeps version `v` alive.
pub open spec fn version_referenced(
    channels: Map<Seq<char>, JuliaupConfigChannel>,
    v: Seq<char>,
) -> bool {
    exists|k: Seq<char>| #[trigger] channels.contains_key(k) && channel_references(channels[k], v)
}

/// The whole persisted configuration: the fallback channel, the installed
/// versions with their on-disk locations, and the installed channels.
pub struct JuliaupConfig {
    pub default: Option<String>,
    pub installed_versions: StrMap<JuliaupConfigVersion>,
    pub installed_channels: StrMap<JuliaupConfigChannel>,
}

impl JuliaupConfig {
    pub open spec fn wf(&self) -> bool {
        self.installed_versions.wf() && self.installed_channels.wf()
    }

    /// The valid empty configuration, used when no file exists yet.
    pub fn empty() -> (r: JuliaupConfig)
        ensures
            r.wf(),
            r.default is None,
            r.installed_versions@ == Map::<Seq<char>, JuliaupConfigVersion>::empty(),
            r.installed_channels@ == Map::<Seq<char>, JuliaupConfigChannel>::empty(),
    {
        JuliaupConfig {
            default: None,
            installed_versions: StrMap::new(),
            installed_channels: StrMap::new(),
        }
    }

    /// Decides whether some system channel still references version `v`.
    pub fn version_is_referenced(&self, v: &String) -> (r: bool)
        requires
            self.wf(),
        ensures
            r == version_referenced(self.installed_channels@, v@),
    {
        let n = self.installed_channels.len();
        for i in 0..n
            invariant
                self.wf(),
                n == self.installed_channels.spec_pairs().len(),
                forall|j: int| 0 <= j < i ==> !channel_references(
                    #[trigger] self.installed_channels.spec_pairs()[j].1,
                    v@,
                ),
        {
            let c = self.installed_channels.value_at(i);
            match c {
                JuliaupConfigChannel::SystemChannel { version } => {
                    if version.eq(v) {
                        proof {
                            self.installed_channels.lemma_entry_at(i as int);
                            let k = self.installed_channels.spec_pairs()[i as int].0@;
                            assert(self.installed_channels@.contains_key(k) && channel_references(
                                self.installed_channels@[k],
                                v@,
                            ));
                        }
                        return true;
                    }
                },
                JuliaupConfigChannel::LinkedChannel { .. } => {},
            }
        }
        proof {
            if version_referenced(self.installed_channels@, v@) {
                let k = choose|k: Seq<char>| #[trigger] self.installed_channels@.contains_key(k)
                    && channel_references(self.installed_channels@[k], v@);
                self.installed_channels.lemma_key_has_index(k);
            }
        }
        false
    }
}

} // verus!
