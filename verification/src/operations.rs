use vstd::prelude::*;
use vstd::string::*;
use crate::config_file::JuliaupConfig;
use crate::config_file::JuliaupConfigVersion;
use crate::config_file::version_referenced;
use crate::error::JuliaupError;
use crate::jsonstructs_versionsdb::JuliaupVersionDB;
use crate::strmap::StrMap;

verus! {

/// Name of the per-version install directory under the home directory.
pub open spec fn spec_target_dir_name(v: Seq<char>) -> Seq<char> {
    "julia-"@ + v
}

/// Install path of a version as recorded in the configuration, relative to
/// the home directory.
pub open spec fn spec_install_rel_path(v: Seq<char>) -> Seq<char> {
    "./"@ + spec_target_dir_name(v)
}

/// Renders the install directory name for a full version string.
pub fn target_dir_name(fullversion: &String) -> (r: String)
    ensures
        r@ == spec_target_dir_name(fullversion@),
{
    let mut s = String::from_str("julia-");
    s.append(fullversion.as_str());
    s
}

/// Renders the relative install path recorded for a full version string.
pub fn install_rel_path(fullversion: &String) -> (r: String)
    ensures
        r@ == spec_install_rel_path(fullversion@),
{
    let mut s = String::from_str("./");
    let dir = target_dir_name(fullversion);
    s.append(dir.as_str());
    s
}

/// What the caller has to do to materialize a version on disk. The planner
/// below decides; the surrounding layer downloads, copies and extracts.
pub enum InstallAction {
    /// The version is already installed: nothing may be downloaded or
    /// extracted, and the configuration must stay untouched.
    AlreadyInstalled,
    /// A pre-staged bundled build of exactly this version exists beside the
    /// launcher: copy it into `target_dir` instead of downloading.
    CopyBundled { target_dir: String },
    /// Download the archive at `url` and extract it into `target_dir`.
    Download { url: String, target_dir: String },
}

/// Decides how to install `fullversion`. Nothing is touched on disk here:
/// the returned action says what has to happen, and a successful download
/// or copy is recorded afterwards with `record_install`.
pub fn install_version(
    fullversion: &String,
    config_data: &JuliaupConfig,
    version_db: &JuliaupVersionDB,
    bundled_full_version: &String,
    bundled_available: bool,
) -> (r: Result<InstallAction, JuliaupError>)
    requires
        config_data.wf(),
        version_db.wf(),
    ensures
        match r {
            Ok(InstallAction::AlreadyInstalled) => config_data.installed_versions@.contains_key(
                fullversion@,
            ),
            Ok(InstallAction::CopyBundled { target_dir }) => {
                &&& !config_data.installed_versions@.contains_key(fullversion@)
                &&& fullversion@ == bundled_full_version@
                &&& bundled_available
                &&& target_dir@ == spec_target_dir_name(fullversion@)
            },
            Ok(InstallAction::Download { url, target_dir }) => {
                &&& !config_data.installed_versions@.contains_key(fullversion@)
                &&& !(fullversion@ == bundled_full_version@ && bundled_available)
                &&& version_db.available_versions@.contains_key(fullversion@)
                &&& url@ == version_db.available_versions@[fullversion@].url@
                &&& target_dir@ == spec_target_dir_name(fullversion@)
            },
            Err(JuliaupError::UnknownVersion { version }) => {
                &&& !config_data.installed_versions@.contains_key(fullversion@)
                &&& !(fullversion@ == bundled_full_version@ && bundled_available)
                &&& !version_db.available_versions@.contains_key(fullversion@)
                &&& version@ == fullversion@
            },
            Err(_) => false,
        },
{
    if config_data.installed_versions.contains_key(fullversion) {
        return Ok(InstallAction::AlreadyInstalled);
    }
    if fullversion.eq(bundled_full_version) && bundled_available {
        return Ok(InstallAction::CopyBundled { target_dir: target_dir_name(fullversion) });
    }
    match version_db.available_versions.get(fullversion) {
        Some(v) => Ok(
            InstallAction::Download {
                url: v.url.clone(),
                target_dir: target_dir_name(fullversion),
            },
        ),
        None => Err(JuliaupError::UnknownVersion { version: fullversion.clone() }),
    }
}

/// Records a completed install: only after extraction has succeeded is the
/// version entered into the configuration, so a failed install never
/// registers a broken version.
pub fn record_install(config_data: &mut JuliaupConfig, fullversion: &String)
    requires
        old(config_data).wf(),
    ensures
        final(config_data).wf(),
        final(config_data).default == old(config_data).default,
        final(config_data).installed_channels@ == old(config_data).installed_channels@,
        forall|k: Seq<char>|
            final(config_data).installed_versions@.contains_key(k) <==> (old(config_data).installed_versions@.contains_key(k) || k == fullversion@),
        forall|k: Seq<char>|
            k != fullversion@ && old(config_data).installed_versions@.contains_key(k)
                ==> final(config_data).installed_versions@[k] == old(config_data).installed_versions@[k],
        final(config_data).installed_versions@[fullversion@].path@ == spec_install_rel_path(
            fullversion@,
        ),
{
    let rel_path = install_rel_path(fullversion);
    let entry = JuliaupConfigVersion { path: rel_path };
    config_data.installed_versions.insert(fullversion.clone(), entry);
}

/// Some element of `rs` has view `p`.
pub open spec fn contains_str(rs: Seq<String>, p: Seq<char>) -> bool {
    exists|i: int| 0 <= i < rs.len() && (#[trigger] rs[i])@ == p
}

/// The `i2`-th removed path belongs to some installed version that no
/// system channel references.
pub open spec fn removed_is_collectible(
    removed: Seq<String>,
    i2: int,
    versions: Map<Seq<char>, JuliaupConfigVersion>,
    channels: Map<Seq<char>, crate::config_file::JuliaupConfigChannel>,
) -> bool {
    exists|k: Seq<char>|
        #[trigger] versions.contains_key(k) && !version_referenced(channels, k) && removed[i2]@
            == versions[k].path@
}

/// Removes every installed version that no system channel references, and
/// returns the relative paths of the removed install directories so the
/// caller can delete them from disk, best-effort. A version leaves the
/// configuration even if its directory deletion later fails.
#[verifier::rlimit(50)]
pub fn garbage_collect_versions(config_data: &mut JuliaupConfig) -> (removed: Vec<String>)
    requires
        old(config_data).wf(),
    ensures
        final(config_data).wf(),
        final(config_data).default == old(config_data).default,
        final(config_data).installed_channels@ == old(config_data).installed_channels@,
        forall|k: Seq<char>|
            #![trigger final(config_data).installed_versions@.contains_key(k)]
            #![trigger old(config_data).installed_versions@.contains_key(k)]
            final(config_data).installed_versions@.contains_key(k) <==> (old(config_data).installed_versions@.contains_key(k) && version_referenced(
                old(config_data).installed_channels@,
                k,
            )),
        forall|k: Seq<char>|
            final(config_data).installed_versions@.contains_key(k) ==> final(config_data).installed_versions@[k] == old(config_data).installed_versions@[k],
        forall|k: Seq<char>|
            old(config_data).installed_versions@.contains_key(k) && !version_referenced(
                old(config_data).installed_channels@,
                k,
            ) ==> contains_str(removed@, old(config_data).installed_versions@[k].path@),
        forall|i2: int|
            0 <= i2 < removed@.len() ==> removed_is_collectible(
                removed@,
                i2,
                old(config_data).installed_versions@,
                old(config_data).installed_channels@,
            ),
{
    let n = config_data.installed_versions.len();
    let mut kept: StrMap<JuliaupConfigVersion> = StrMap::new();
    let mut removed: Vec<String> = Vec::new();
    let ghost mut idxs: Seq<int> = Seq::empty();
    for i in 0..n
        invariant
            config_data.wf(),
            *config_data == *old(config_data),
            n == config_data.installed_versions.spec_pairs().len(),
            kept.wf(),
            idxs.len() == removed@.len(),
            forall|k: Seq<char>|
                kept@.contains_key(k) <==> exists|j: int|
                    {
                        &&& 0 <= j < i
                        &&& #[trigger] config_data.installed_versions.spec_pairs()[j].0@ == k
                        &&& version_referenced(config_data.installed_channels@, k)
                    },
            forall|k: Seq<char>|
                #[trigger] kept@.contains_key(k) ==> config_data.installed_versions@.contains_key(
                    k,
                ) && kept@[k] == config_data.installed_versions@[k],
            forall|j: int|
                0 <= j < i && !version_referenced(
                    config_data.installed_channels@,
                    config_data.installed_versions.spec_pairs()[j].0@,
                ) ==> contains_str(
                    removed@,
                    config_data.installed_versions.spec_pairs()[j].1.path@,
                ),
            forall|i2: int|
                0 <= i2 < removed@.len() ==> {
                    &&& 0 <= #[trigger] idxs[i2] < i
                    &&& !version_referenced(
                        config_data.installed_channels@,
                        config_data.installed_versions.spec_pairs()[idxs[i2]].0@,
                    )
                    &&& removed@[i2]@
                        == config_data.installed_versions.spec_pairs()[idxs[i2]].1.path@
                },
    {
        proof {
            config_data.installed_versions.lemma_entry_at(i as int);
        }
        let ghost s = config_data.installed_versions.spec_pairs();
        let key = config_data.installed_versions.key_at(i);
        let is_ref = config_data.version_is_referenced(key);
        if is_ref {
            let key_copy = key.clone();
            let value = config_data.installed_versions.value_at(i).duplicate();
            let ghost old_kept = kept@;
            kept.insert(key_copy, value);
            proof {
                assert forall|k: Seq<char>|
                    #[trigger] kept@.contains_key(k) implies config_data.installed_versions@.contains_key(
                        k,
                    ) && kept@[k] == config_data.installed_versions@[k] by {
                    if k == s[i as int].0@ {
                        assert(kept@[k] == s[i as int].1);
                    } else {
                        assert(old_kept.contains_key(k));
                        assert(kept@[k] == old_kept[k]);
                        assert(old_kept[k] == config_data.installed_versions@[k]);
                    }
                }
                assert forall|k: Seq<char>|
                    kept@.contains_key(k) implies exists|j: int|
                    {
                        &&& 0 <= j < i + 1
                        &&& #[trigger] s[j].0@ == k
                        &&& version_referenced(config_data.installed_channels@, k)
                    } by {
                    if k == s[i as int].0@ {
                        assert(s[i as int].0@ == k && version_referenced(
                            config_data.installed_channels@,
                            k,
                        ));
                    } else {
                        let j = choose|j: int|
                            0 <= j < i && #[trigger] s[j].0@ == k && version_referenced(
                                config_data.installed_channels@,
                                k,
                            );
                        assert(s[j].0@ == k);
                    }
                }
            }
        } else {
            let value = config_data.installed_versions.value_at(i);
            let ghost old_removed = removed@;
            removed.push(value.path.clone());
            proof {
                idxs = idxs.push(i as int);
                assert(removed@[removed@.len() - 1]@ == s[i as int].1.path@);
                assert forall|j: int|
                    0 <= j < i + 1 && !version_referenced(
                        config_data.installed_channels@,
                        s[j].0@,
                    ) implies contains_str(removed@, s[j].1.path@) by {
                    if j == i {
                        assert(removed@[removed@.len() - 1]@ == s[j].1.path@);
                    } else {
                        let i2 = choose|i2: int|
                            0 <= i2 < old_removed.len() && (#[trigger] old_removed[i2])@
                                == s[j].1.path@;
                        assert(removed@[i2]@ == s[j].1.path@);
                    }
                }
            }
        }
    }
    proof {
        let s = config_data.installed_versions.spec_pairs();
        assert forall|k: Seq<char>|
            kept@.contains_key(k) <==> (config_data.installed_versions@.contains_key(k)
                && version_referenced(config_data.installed_channels@, k)) by {
            if kept@.contains_key(k) {
                let j = choose|j: int|
                    0 <= j < n && #[trigger] s[j].0@ == k && version_referenced(
                        config_data.installed_channels@,
                        k,
                    );
                config_data.installed_versions.lemma_entry_at(j);
            }
            if config_data.installed_versions@.contains_key(k) && version_referenced(
                config_data.installed_channels@,
                k,
            ) {
                config_data.installed_versions.lemma_key_has_index(k);
            }
        }
        assert forall|k: Seq<char>|
            config_data.installed_versions@.contains_key(k) && !version_referenced(
                config_data.installed_channels@,
                k,
            ) implies contains_str(removed@, config_data.installed_versions@[k].path@) by {
            config_data.installed_versions.lemma_key_has_index(k);
        }
        assert forall|i2: int| 0 <= i2 < removed@.len() implies removed_is_collectible(
            removed@,
            i2,
            config_data.installed_versions@,
            config_data.installed_channels@,
        ) by {
            let j = idxs[i2];
            config_data.installed_versions.lemma_entry_at(j);
            assert(config_data.installed_versions@.contains_key(s[j].0@) && !version_referenced(
                config_data.installed_channels@,
                s[j].0@,
            ) && removed@[i2]@ == config_data.installed_versions@[s[j].0@].path@);
        }
    }
    config_data.installed_versions = kept;
    removed
}


/// Joined command line: the command followed by each argument, separated
/// by single spaces.
pub open spec fn spec_command_line(command: Seq<char>, args: Option<Seq<Seq<char>>>) -> Seq<char>
    decreases (match args {
        Some(a) => a.len() + 1,
        None => 0,
    }),
{
    match args {
        None => command,
        Some(a) => if a.len() == 0 {
            command
        } else {
            spec_command_line(command, Some(a.drop_last())) + " "@ + a.last()
        },
    }
}

/// Renders the command line that a shim runs: the linked command and its
/// arguments, space-separated.
pub fn format_command_line(command: &String, args: &Option<Vec<String>>) -> (r: String)
    ensures
        match args {
            Some(a) => r@ == spec_command_line(command@, Some(a@.map_values(|s: String| s@))),
            None => r@ == command@,
        },
{
    let mut s = command.clone();
    match args {
        None => s,
        Some(a) => {
            let n = a.len();
            for i in 0..n
                invariant
                    n == a@.len(),
                    s@ == spec_command_line(
                        command@,
                        Some(a@.map_values(|x: String| x@).take(i as int)),
                    ),
            {
                s.append(" ");
                s.append(a[i].as_str());
                proof {
                    let m = a@.map_values(|x: String| x@);
                    assert(m.take(i + 1).drop_last() =~= m.take(i as int));
                    assert(m.take(i + 1).last() == m[i as int]);
                }
            }
            proof {
                let m = a@.map_values(|x: String| x@);
                assert(m.take(n as int) =~= m);
            }
            s
        },
    }
}

/// Body of the executable shim written for a linked channel: a shell
/// script that runs the command line and forwards the caller's arguments.
pub open spec fn spec_shim_script(command_line: Seq<char>) -> Seq<char> {
    "#!/bin/sh\n"@ + command_line + " \"$@\"\n"@
}

/// Renders the shim script for a linked channel.
pub fn shim_script_content(command: &String, args: &Option<Vec<String>>) -> (r: String)
    ensures
        match args {
            Some(a) => r@ == spec_shim_script(
                spec_command_line(command@, Some(a@.map_values(|s: String| s@))),
            ),
            None => r@ == spec_shim_script(command@),
        },
{
    let line = format_command_line(command, args);
    let mut s = String::from_str("#!/bin/sh\n");
    s.append(line.as_str());
    s.append(" \"$@\"\n");
    s
}

/// Relative path, inside a version's install directory, of the executable
/// that a system channel's symlink points at.
pub fn symlink_target_path(home: &String, fullversion: &String) -> (r: String)
    ensures
        r@ == home@ + "/"@ + spec_target_dir_name(fullversion@) + "/bin/julia"@,
{
    let mut s = home.clone();
    s.append("/");
    let dir = target_dir_name(fullversion);
    s.append(dir.as_str());
    s.append("/bin/julia");
    s
}

/// Content of the managed block that exposes the launcher directory on
/// `PATH` in a shell startup file.
pub open spec fn spec_block_content(bin_path: Seq<char>) -> Seq<char> {
    crate::markers::spec_start_marker() + "\n\n"@
        + "# !! Contents within this block are managed by juliaup !!\n\n"@
        + "case \":$PATH:\" in *:"@ + bin_path + ":*);; *)\n    export PATH="@ + bin_path
        + "${PATH:+:${PATH}};;\nesac\n\n"@ + crate::markers::spec_end_marker()
}

/// Renders the startup-file block for the given launcher directory.
pub fn get_shell_script_juliaup_content(bin_path: &str) -> (r: String)
    ensures
        r@ == spec_block_content(bin_path@),
{
    let mut s = crate::markers::start_marker().to_owned();
    s.append("\n\n");
    s.append("# !! Contents within this block are managed by juliaup !!\n\n");
    s.append("case \":$PATH:\" in *:");
    s.append(bin_path);
    s.append(":*);; *)\n    export PATH=");
    s.append(bin_path);
    s.append("${PATH:+:${PATH}};;\nesac\n\n");
    s.append(crate::markers::end_marker());
    s
}


/// A shell startup file that the PATH block may be written to.
#[derive(Clone, Copy, PartialEq, Eq, Structural, Debug)]
pub enum StartupFile {
    Bashrc,
    Profile,
    BashProfile,
    BashLogin,
}

/// Which files `apply` patches: always the primary `.bashrc`, plus the
/// first existing profile-class candidate, falling back to creating
/// `.bash_profile` when none exists — so exactly one profile-class file
/// ends up patched.
pub fn files_to_apply(
    profile_exists: bool,
    bash_profile_exists: bool,
    bash_login_exists: bool,
) -> (r: Vec<StartupFile>)
    ensures
        r@ == seq![
            StartupFile::Bashrc,
            if profile_exists {
                StartupFile::Profile
            } else if bash_profile_exists {
                StartupFile::BashProfile
            } else if bash_login_exists {
                StartupFile::BashLogin
            } else {
                StartupFile::BashProfile
            },
        ],
{
    let mut r: Vec<StartupFile> = Vec::new();
    r.push(StartupFile::Bashrc);
    if profile_exists {
        r.push(StartupFile::Profile);
    } else if bash_profile_exists {
        r.push(StartupFile::BashProfile);
    } else if bash_login_exists {
        r.push(StartupFile::BashLogin);
    } else {
        r.push(StartupFile::BashProfile);
    }
    proof {
        assert(r@ =~= seq![
            StartupFile::Bashrc,
            if profile_exists {
                StartupFile::Profile
            } else if bash_profile_exists {
                StartupFile::BashProfile
            } else if bash_login_exists {
                StartupFile::BashLogin
            } else {
                StartupFile::BashProfile
            },
        ]);
    }
    r
}

/// Which files `remove` edits. The primary `.bashrc` is edited only when
/// `.profile` exists — an asymmetry with `files_to_apply` that is kept
/// deliberately, matching the observable behavior callers rely on — and
/// every existing profile-class candidate is edited.
pub fn files_to_remove(
    profile_exists: bool,
    bash_profile_exists: bool,
    bash_login_exists: bool,
) -> (r: Vec<StartupFile>)
    ensures
        r@.contains(StartupFile::Bashrc) <==> profile_exists,
        r@.contains(StartupFile::Profile) <==> profile_exists,
        r@.contains(StartupFile::BashProfile) <==> bash_profile_exists,
        r@.contains(StartupFile::BashLogin) <==> bash_login_exists,
{
    let mut r: Vec<StartupFile> = Vec::new();
    if profile_exists {
        r.push(StartupFile::Bashrc);
        r.push(StartupFile::Profile);
    }
    if bash_profile_exists {
        r.push(StartupFile::BashProfile);
    }
    if bash_login_exists {
        r.push(StartupFile::BashLogin);
    }
    proof {
        assert forall|f: StartupFile| r@.contains(f) implies (match f {
            StartupFile::Bashrc => profile_exists,
            StartupFile::Profile => profile_exists,
            StartupFile::BashProfile => bash_profile_exists,
            StartupFile::BashLogin => bash_login_exists,
        }) by {
            let i = choose|i: int| 0 <= i < r@.len() && r@[i] == f;
        }
        if profile_exists {
            assert(r@[0] == StartupFile::Bashrc);
            assert(r@[1] == StartupFile::Profile);
        }
        if bash_profile_exists {
            if profile_exists {
                assert(r@[2] == StartupFile::BashProfile);
            } else {
                assert(r@[0] == StartupFile::BashProfile);
            }
        }
        if bash_login_exists {
            assert(r@[r@.len() - 1] == StartupFile::BashLogin);
        }
    }
    r
}


pub open spec fn is_ws_char(c: char) -> bool {
    c == ' ' || c == '\n' || c == '\r' || c == '\t'
}

/// The sequence without its leading whitespace.
pub open spec fn spec_trim_front(s: Seq<char>) -> Seq<char>
    decreases s.len(),
{
    if s.len() > 0 && is_ws_char(s[0]) {
        spec_trim_front(s.drop_first())
    } else {
        s
    }
}

/// The sequence without its trailing whitespace.
pub open spec fn spec_trim_back(s: Seq<char>) -> Seq<char>
    decreases s.len(),
{
    if s.len() > 0 && is_ws_char(s.last()) {
        spec_trim_back(s.drop_last())
    } else {
        s
    }
}

/// The sequence without leading and trailing whitespace.
pub open spec fn spec_trim(s: Seq<char>) -> Seq<char> {
    spec_trim_back(spec_trim_front(s))
}

proof fn lemma_trim_front_skip(s: Seq<char>, i: int)
    requires
        0 <= i <= s.len(),
        forall|j: int| 0 <= j < i ==> is_ws_char(s[j]),
        i < s.len() ==> !is_ws_char(s[i]),
    ensures
        spec_trim_front(s) == s.skip(i),
    decreases i,
{
    if i == 0 {
        assert(s.skip(0) =~= s);
    } else {
        assert(is_ws_char(s[0]));
        lemma_trim_front_skip(s.drop_first(), i - 1);
        assert(s.drop_first().skip(i - 1) =~= s.skip(i));
    }
}

proof fn lemma_trim_back_take(s: Seq<char>, i: int)
    requires
        0 <= i <= s.len(),
        forall|j: int| i <= j < s.len() ==> is_ws_char(s[j]),
        i > 0 ==> !is_ws_char(s[i - 1]),
    ensures
        spec_trim_back(s) == s.take(i),
    decreases s.len() - i,
{
    if i == s.len() {
        assert(s.take(i) =~= s);
    } else {
        assert(is_ws_char(s.last()));
        lemma_trim_back_take(s.drop_last(), i);
        assert(s.drop_last().take(i) =~= s.take(i));
    }
}

fn trim_char_at(s: &str, i: usize) -> (c: char)
    requires
        i < s@.len(),
    ensures
        c == s@[i as int],
{
    s.get_char(i)
}

fn is_ws(c: char) -> (r: bool)
    ensures
        r == is_ws_char(c),
{
    c == ' ' || c == '\n' || c == '\r' || c == '\t'
}

/// Removes leading and trailing whitespace.
pub fn trim_str(s: &str) -> (r: String)
    ensures
        r@ == spec_trim(s@),
{
    let len = s.unicode_len();
    let mut a: usize = 0;
    while a < len && is_ws(trim_char_at(s, a))
        invariant
            len == s@.len(),
            a <= len,
            forall|j: int| 0 <= j < a ==> is_ws_char(s@[j]),
        decreases len - a,
    {
        a = a + 1;
    }
    proof {
        lemma_trim_front_skip(s@, a as int);
    }
    let mut b: usize = len;
    while b > a && is_ws(trim_char_at(s, b - 1))
        invariant
            len == s@.len(),
            a <= b <= len,
            forall|j: int| b <= j < len ==> is_ws_char(s@[j]),
        decreases b,
    {
        b = b - 1;
    }
    let mid = s.substring_char(a, b);
    proof {
        let front = s@.skip(a as int);
        assert forall|j: int| (b - a) <= j < front.len() implies is_ws_char(front[j]) by {
            assert(front[j] == s@[a + j]);
        }
        if b > a {
            assert(front[b - a - 1] == s@[b - 1]);
        }
        lemma_trim_back_take(front, b - a);
        assert(front.take(b - a) =~= s@.subrange(a as int, b as int));
    }
    mid.to_owned()
}

/// What `semver::Version::parse` makes of a string: nothing for an invalid
/// version, else the numeric triple and the prerelease identifier text.
/// The result depends on the string alone.
pub uninterp spec fn parsed_semver(s: Seq<char>) -> Option<(u64, u64, u64, Seq<char>)>;

/// Relies on semver::Version::parse: decides whether the text is a valid
/// semantic version and takes it apart into its numeric triple and its
/// prerelease identifier (empty for a release).
#[verifier::external_body]
fn semver_parse(text: &str) -> (r: Option<(u64, u64, u64, String)>)
    ensures
        match r {
            Some(p) => parsed_semver(text@) == Some((p.0, p.1, p.2, p.3@)),
            None => parsed_semver(text@) is None,
        },
{
    match semver::Version::parse(text) {
        Ok(v) => Some((v.major, v.minor, v.patch, v.pre.as_str().to_string())),
        Err(_) => None,
    }
}

/// Parses the version text that the version server answered: surrounding
/// whitespace is trimmed, then the text must be a valid semantic version,
/// else the answer is rejected with the offending text.
pub fn download_juliaup_version(text: &str) -> (r: Result<crate::version::Version, JuliaupError>)
    ensures
        match r {
            Ok(v) => match parsed_semver(spec_trim(text@)) {
                Some(p) => {
                    &&& v@.major == p.0
                    &&& v@.minor == p.1
                    &&& v@.patch == p.2
                    &&& (if p.3.len() == 0 {
                        v@.prerelease is None
                    } else {
                        v@.prerelease == Some(p.3)
                    })
                },
                None => false,
            },
            Err(JuliaupError::InvalidVersionString { text: t }) => {
                &&& parsed_semver(spec_trim(text@)) is None
                &&& t@ == spec_trim(text@)
            },
            Err(_) => false,
        },
{
    let trimmed = trim_str(text);
    match semver_parse(trimmed.as_str()) {
        Some((major, minor, patch, pre)) => {
            if pre.as_str().is_empty() {
                Ok(crate::version::Version { major, minor, patch, prerelease: None })
            } else {
                Ok(crate::version::Version { major, minor, patch, prerelease: Some(pre) })
            }
        },
        None => Err(JuliaupError::InvalidVersionString { text: trimmed }),
    }
}

} // verus!
