use vstd::prelude::*;
use vstd::string::*;
use crate::error::JuliaupError;
use crate::jsonstructs_versionsdb::JuliaupVersionDB;
use crate::jsonstructs_versionsdb::JuliaupVersionDBChannel;
use crate::jsonstructs_versionsdb::JuliaupVersionDBVersion;
use crate::strmap::StrMap;
use crate::version::Arch;
use crate::version::Os;
use crate::version::Version;
use crate::version::VersionView;
use crate::version::arch_name;
use crate::version::spec_arch_name;
use crate::version::spec_digits;
use crate::version::spec_full_version_str;
use crate::version::spec_minor_channel_name;
use crate::version::spec_major_channel_name;
use crate::version::spec_version_str;
use crate::version::spec_version_le;
use crate::version::spec_version_lt;
use crate::version::view_is_release;
use crate::version::minor_channel_name;
use crate::version::u64_to_string;

verus! {

/// Architectures installable on one (operating system, host architecture)
/// combination, in order of preference: a plain, unsuffixed channel name
/// resolves to the first entry. The table is explicit rather than inferred;
/// an ARM64 host on macOS or Windows resolves to the emulated x64 build,
/// and 32-bit macOS is not supported at all.
pub open spec fn spec_installable_archs(os: Os, host: Arch) -> Option<Seq<Arch>> {
    match (os, host) {
        (Os::Linux, Arch::X86) => Some(seq![Arch::X86]),
        (Os::Linux, Arch::X64) => Some(seq![Arch::X64, Arch::X86]),
        (Os::Linux, Arch::Aarch64) => Some(seq![Arch::Aarch64]),
        (Os::Mac, Arch::X86) => None,
        (Os::Mac, Arch::X64) => Some(seq![Arch::X64]),
        (Os::Mac, Arch::Aarch64) => Some(seq![Arch::X64]),
        (Os::Windows, Arch::X86) => Some(seq![Arch::X86]),
        (Os::Windows, Arch::X64) => Some(seq![Arch::X64, Arch::X86]),
        (Os::Windows, Arch::Aarch64) => Some(seq![Arch::X64]),
    }
}

/// The architecture list of a supported platform, or empty.
pub open spec fn spec_archs_of(os: Os, host: Arch) -> Seq<Arch> {
    match spec_installable_archs(os, host) {
        Some(a) => a,
        None => Seq::<Arch>::empty(),
    }
}

/// Builds the installable-architecture list for the target platform;
/// an unknown combination is a fatal configuration error.
pub fn installable_archs(os: Os, host: Arch) -> (r: Result<Vec<Arch>, JuliaupError>)
    ensures
        match r {
            Ok(v) => {
                &&& spec_installable_archs(os, host) == Some(v@)
                &&& v@.len() >= 1
            },
            Err(JuliaupError::UnsupportedPlatform) => spec_installable_archs(os, host) is None,
            Err(_) => false,
        },
{
    let mut v: Vec<Arch> = Vec::new();
    match (os, host) {
        (Os::Linux, Arch::X86) => { v.push(Arch::X86); },
        (Os::Linux, Arch::X64) => { v.push(Arch::X64); v.push(Arch::X86); },
        (Os::Linux, Arch::Aarch64) => { v.push(Arch::Aarch64); },
        (Os::Mac, Arch::X86) => { return Err(JuliaupError::UnsupportedPlatform); },
        (Os::Mac, Arch::X64) => { v.push(Arch::X64); },
        (Os::Mac, Arch::Aarch64) => { v.push(Arch::X64); },
        (Os::Windows, Arch::X86) => { v.push(Arch::X86); },
        (Os::Windows, Arch::X64) => { v.push(Arch::X64); v.push(Arch::X86); },
        (Os::Windows, Arch::Aarch64) => { v.push(Arch::X64); },
    }
    proof {
        assert(spec_installable_archs(os, host) == Some(v@)) by {
            match spec_installable_archs(os, host) {
                Some(a) => {
                    assert(v@ =~= a);
                },
                None => {},
            }
        }
    }
    Ok(v)
}

pub open spec fn spec_os_name(os: Os) -> Seq<char> {
    match os {
        Os::Linux => "linux"@,
        Os::Mac => "mac"@,
        Os::Windows => "winnt"@,
    }
}

pub fn os_name(os: Os) -> (r: &'static str)
    ensures
        r@ == spec_os_name(os),
{
    match os {
        Os::Linux => "linux",
        Os::Mac => "mac",
        Os::Windows => "winnt",
    }
}

/// Download location of one build, from the platform's URL template.
pub open spec fn spec_download_url(os: Os, a: Arch, v: VersionView) -> Seq<char> {
    "bin/"@ + spec_os_name(os) + "/"@ + spec_arch_name(a) + "/"@ + spec_digits(v.major as int)
        + "."@ + spec_digits(v.minor as int) + "/julia-"@ + spec_version_str(v) + "-"@
        + spec_os_name(os) + "-"@ + spec_arch_name(a) + ".tar.gz"@
}

/// Renders the download URL for one build.
pub fn download_url(os: Os, a: Arch, v: &Version) -> (r: String)
    ensures
        r@ == spec_download_url(os, a, v@),
{
    let mut s = String::from_str("bin/");
    s.append(os_name(os));
    s.append("/");
    s.append(arch_name(a));
    s.append("/");
    let major_s = u64_to_string(v.major);
    s.append(major_s.as_str());
    s.append(".");
    let minor_s = u64_to_string(v.minor);
    s.append(minor_s.as_str());
    s.append("/julia-");
    let ver_s = v.version_str();
    s.append(ver_s.as_str());
    s.append("-");
    s.append(os_name(os));
    s.append("-");
    s.append(arch_name(a));
    s.append(".tar.gz");
    proof {
        assert(s@ =~= spec_download_url(os, a, v@));
    }
    s
}

/// The views of the catalog's versions, in catalog order.
pub open spec fn catalog_views(catalog: Seq<Version>) -> Seq<VersionView> {
    catalog.map_values(|v: Version| v@)
}

/// Selects the release group that a series channel ranges over: one minor
/// series, one major series, or the whole catalog.
#[derive(Clone, Copy, PartialEq, Eq, Structural, Debug)]
pub enum GroupSel {
    Minor(u64, u64),
    Major(u64),
    All,
}

pub open spec fn group_matches(g: GroupSel, u: VersionView) -> bool {
    match g {
        GroupSel::Minor(m, n) => u.major == m && u.minor == n,
        GroupSel::Major(m) => u.major == m,
        GroupSel::All => true,
    }
}

/// `w` is the maximum, by semantic-version precedence, of the non-prerelease
/// catalog versions in group `g`.
#[verifier::opaque]
pub open spec fn group_max(cat: Seq<VersionView>, g: GroupSel, w: VersionView) -> bool {
    &&& cat.contains(w)
    &&& view_is_release(w)
    &&& group_matches(g, w)
    &&& forall|u: VersionView|
        #[trigger] cat.contains(u) && view_is_release(u) && group_matches(g, u)
            ==> spec_version_le(u, w)
}

/// Precedence is total on release versions.
proof fn lemma_release_total(u: VersionView, v: VersionView)
    requires
        view_is_release(u),
        view_is_release(v),
        !spec_version_lt(v, u),
    ensures
        spec_version_le(u, v),
{
    if u.major == v.major && u.minor == v.minor && u.patch == v.patch {
        assert(u == v);
    }
}

/// Precedence is transitive from `le` through `lt` on release versions.
proof fn lemma_release_le_lt_trans(a: VersionView, b: VersionView, c: VersionView)
    requires
        view_is_release(a),
        view_is_release(b),
        view_is_release(c),
        spec_version_le(a, b),
        spec_version_lt(b, c),
    ensures
        spec_version_le(a, c),
{
}

fn group_matches_exec(g: GroupSel, v: &Version) -> (r: bool)
    ensures
        r == group_matches(g, v@),
{
    match g {
        GroupSel::Minor(m, n) => v.major == m && v.minor == n,
        GroupSel::Major(m) => v.major == m,
        GroupSel::All => true,
    }
}



/// A channel-set variant name: the base name, a tilde, and the arch tag.
pub open spec fn spec_variant_name(base: Seq<char>, a: Arch) -> Seq<char> {
    base + "~"@ + spec_arch_name(a)
}

/// Picks the version that the series or named channel of group `g`
/// resolves to: the maximum non-prerelease version of the group, or
/// nothing when the group has no release.
pub fn series_pick(catalog: &Vec<Version>, g: GroupSel) -> (r: Option<Version>)
    ensures
        match r {
            Some(v) => group_max(catalog_views(catalog@), g, v@),
            None => forall|j: int|
                0 <= j < catalog_views(catalog@).len() ==> !(view_is_release(
                    #[trigger] catalog_views(catalog@)[j],
                ) && group_matches(g, catalog_views(catalog@)[j])),
        },
{
    let ghost cv = catalog_views(catalog@);
    let n = catalog.len();
    let mut best: Option<usize> = None;
    for i in 0..n
        invariant
            n == catalog@.len(),
            cv == catalog_views(catalog@),
            match best {
                Some(b) => {
                    &&& b < n
                    &&& view_is_release(cv[b as int])
                    &&& group_matches(g, cv[b as int])
                    &&& forall|j: int|
                        0 <= j < i && view_is_release(#[trigger] cv[j]) && group_matches(g, cv[j])
                            ==> spec_version_le(cv[j], cv[b as int])
                },
                None => forall|j: int|
                    0 <= j < i ==> !(view_is_release(#[trigger] cv[j]) && group_matches(
                        g,
                        cv[j],
                    )),
            },
    {
        let u = &catalog[i];
        proof {
            assert(cv[i as int] == catalog@[i as int]@);
        }
        let in_group = match &u.prerelease {
            Some(_) => false,
            None => group_matches_exec(g, u),
        };
        if in_group {
            match best {
                None => {
                    best = Some(i);
                },
                Some(b) => {
                    if catalog[b].precedes(u) {
                        proof {
                            assert forall|j: int|
                                0 <= j < i + 1 && view_is_release(#[trigger] cv[j])
                                    && group_matches(g, cv[j]) implies spec_version_le(
                                cv[j],
                                cv[i as int],
                            ) by {
                                if j < i {
                                    lemma_release_le_lt_trans(cv[j], cv[b as int], cv[i as int]);
                                }
                            }
                        }
                        best = Some(i);
                    } else {
                        proof {
                            lemma_release_total(cv[i as int], cv[b as int]);
                        }
                    }
                },
            }
        }
    }
    match best {
        Some(b) => {
            proof {
                reveal(group_max);
                assert(cv.contains(cv[b as int]));
                assert forall|u: VersionView|
                    #[trigger] cv.contains(u) && view_is_release(u) && group_matches(g, u)
                        implies spec_version_le(u, cv[b as int]) by {
                    let jj = choose|jj: int| 0 <= jj < cv.len() && cv[jj] == u;
                }
            }
            Some(catalog[b].duplicate())
        },
        None => None,
    }
}

/// Registers one channel under `base`, plus one arch-suffixed variant per
/// installable architecture; the plain name resolves to the first, default
/// architecture.
fn register_channel_set(
    channels: &mut StrMap<JuliaupVersionDBChannel>,
    base: String,
    target: &Version,
    archs: &Vec<Arch>,
)
    requires
        old(channels).wf(),
        archs@.len() >= 1,
    ensures
        final(channels).wf(),
        forall|k: Seq<char>| old(channels)@.contains_key(k) ==> final(channels)@.contains_key(k),
        final(channels)@.contains_key(base@),
        final(channels)@[base@].version@ == spec_full_version_str(target@, archs@[0]),
        forall|ai: int|
            0 <= ai < archs@.len() ==> final(channels)@.contains_key(
                spec_variant_name(base@, #[trigger] archs@[ai]),
            ),
        forall|k: Seq<char>|
            old(channels)@.contains_key(k) && k != base@ && !k.contains('~')
                ==> final(channels)@[k] == old(channels)@[k],
{
    proof {
        reveal_strlit("~");
    }
    let n = archs.len();
    for i in 0..n
        invariant
            channels.wf(),
            n == archs@.len(),
            forall|k: Seq<char>| old(channels)@.contains_key(k) ==> channels@.contains_key(k),
            forall|ai: int|
                0 <= ai < i ==> channels@.contains_key(
                    spec_variant_name(base@, #[trigger] archs@[ai]),
                ),
            forall|k: Seq<char>|
                old(channels)@.contains_key(k) && !k.contains('~') ==> channels@[k] == old(channels)@[k],
    {
        let a = archs[i];
        let mut name = base.clone();
        name.append("~");
        name.append(arch_name(a));
        let fv = target.full_version_str(a);
        channels.insert(name, JuliaupVersionDBChannel { version: fv });
        proof {
            reveal_strlit("~");
            assert(name@ == spec_variant_name(base@, archs@[i as int]));
            assert(name@[base@.len() as int] == '~');
            assert(name@.contains('~'));
        }
    }
    let fv0 = target.full_version_str(archs[0]);
    channels.insert(base, JuliaupVersionDBChannel { version: fv0 });
}


/// None of the named channels holds a tilde, and they are pairwise
/// distinct, so a named registration never disturbs another named channel.
proof fn lemma_named_no_tilde()
    ensures
        !("release"@).contains('~'),
        !("lts"@).contains('~'),
        !("beta"@).contains('~'),
        !("rc"@).contains('~'),
        ("release"@).len() == 7,
        ("lts"@).len() == 3,
        ("beta"@).len() == 4,
        ("rc"@).len() == 2,
        ("release"@)[0] == 'r',
        ("lts"@)[0] == 'l',
        ("beta"@)[0] == 'b',
        ("rc"@)[0] == 'r',
        forall|j: int| 0 <= j < ("release"@).len() ==> ("release"@)[j] != '.',
        forall|j: int| 0 <= j < ("lts"@).len() ==> ("lts"@)[j] != '.',
        forall|j: int| 0 <= j < ("beta"@).len() ==> ("beta"@)[j] != '.',
        forall|j: int| 0 <= j < ("rc"@).len() ==> ("rc"@)[j] != '.',
{
    assert forall|j: int| 0 <= j < ("release"@).len() implies ("release"@)[j] != '.' by {
        reveal_strlit("release");
        assert(("release"@)[j] != '.');
    }
    assert forall|j: int| 0 <= j < ("lts"@).len() implies ("lts"@)[j] != '.' by {
        reveal_strlit("lts");
        assert(("lts"@)[j] != '.');
    }
    assert forall|j: int| 0 <= j < ("beta"@).len() implies ("beta"@)[j] != '.' by {
        reveal_strlit("beta");
        assert(("beta"@)[j] != '.');
    }
    assert forall|j: int| 0 <= j < ("rc"@).len() implies ("rc"@)[j] != '.' by {
        reveal_strlit("rc");
        assert(("rc"@)[j] != '.');
    }
    reveal_strlit("release");
    reveal_strlit("lts");
    reveal_strlit("beta");
    reveal_strlit("rc");
    assert(!("release"@).contains('~')) by {
        if ("release"@).contains('~') {
            let j = choose|j: int| 0 <= j < ("release"@).len() && ("release"@)[j] == '~';
            assert(("release"@)[j] != '~');
        }
    }
    assert(!("lts"@).contains('~')) by {
        if ("lts"@).contains('~') {
            let j = choose|j: int| 0 <= j < ("lts"@).len() && ("lts"@)[j] == '~';
            assert(("lts"@)[j] != '~');
        }
    }
    assert(!("beta"@).contains('~')) by {
        if ("beta"@).contains('~') {
            let j = choose|j: int| 0 <= j < ("beta"@).len() && ("beta"@)[j] == '~';
            assert(("beta"@)[j] != '~');
        }
    }
    assert(!("rc"@).contains('~')) by {
        if ("rc"@).contains('~') {
            let j = choose|j: int| 0 <= j < ("rc"@).len() && ("rc"@)[j] == '~';
            assert(("rc"@)[j] != '~');
        }
    }
}


/// A key other than the newly registered base that holds no tilde keeps
/// its entry across one channel-set registration.
proof fn lemma_key_value_preserved(
    pre: Map<Seq<char>, JuliaupVersionDBChannel>,
    post: Map<Seq<char>, JuliaupVersionDBChannel>,
    new_base: Seq<char>,
    key: Seq<char>,
)
    requires
        forall|k: Seq<char>| pre.contains_key(k) ==> post.contains_key(k),
        forall|k: Seq<char>|
            pre.contains_key(k) && k != new_base && !k.contains('~') ==> post[k] == pre[k],
        pre.contains_key(key),
        key != new_base,
        !key.contains('~'),
    ensures
        post.contains_key(key),
        post[key] == pre[key],
{
}

/// A character sequence with no tilde at any position does not contain one.
proof fn lemma_no_tilde(s: Seq<char>)
    requires
        forall|j: int| 0 <= j < s.len() ==> s[j] != '~',
    ensures
        !s.contains('~'),
{
    if s.contains('~') {
        let j = choose|j: int| 0 <= j < s.len() && s[j] == '~';
    }
}

/// A release's alias name holds two dots where a minor-series name holds
/// exactly one, so the two never coincide.
proof fn lemma_alias_vs_minor(v: VersionView, m: u64, n: u64)
    requires
        view_is_release(v),
    ensures
        spec_version_str(v) != spec_minor_channel_name(m, n),
{
    crate::version::lemma_release_name_shape(v);
    crate::version::lemma_minor_name_shape(m, n);
    if spec_version_str(v) == spec_minor_channel_name(m, n) {
        let p1 = spec_digits(v.major as int).len() as int;
        let p2 = spec_digits(v.major as int).len() + 1 + spec_digits(v.minor as int).len();
        assert(spec_minor_channel_name(m, n)[p1] == '.');
        assert(spec_minor_channel_name(m, n)[p2 as int] == '.');
        assert(p1 == spec_digits(m as int).len());
        assert(p2 == spec_digits(m as int).len());
    }
}

/// A release's alias name holds a dot where a major-series name holds only
/// digits.
proof fn lemma_alias_vs_major(v: VersionView, m: u64)
    requires
        view_is_release(v),
    ensures
        spec_version_str(v) != spec_major_channel_name(m),
{
    crate::version::lemma_release_name_shape(v);
    crate::version::lemma_digits_plain(m as int);
    if spec_version_str(v) == spec_major_channel_name(m) {
        let p1 = spec_digits(v.major as int).len() as int;
        assert(crate::version::is_digit_char(spec_major_channel_name(m)[p1]));
    }
}

/// A release's alias name never equals a prerelease's alias name: only the
/// latter holds a dash.
proof fn lemma_alias_vs_prerelease(vr: VersionView, vp: VersionView)
    requires
        view_is_release(vr),
        vp.prerelease is Some,
    ensures
        spec_version_str(vr) != spec_version_str(vp),
{
    crate::version::lemma_release_name_shape(vr);
    crate::version::lemma_prerelease_name_has_dash(vp);
    if spec_version_str(vr) == spec_version_str(vp) {
        let p3 = spec_digits(vp.major as int).len() + 1 + spec_digits(vp.minor as int).len() + 1
            + spec_digits(vp.patch as int).len();
        assert(spec_version_str(vr)[p3 as int] == '-');
    }
}

/// A minor-series name holds a dot where a major-series name holds only
/// digits.
proof fn lemma_minor_vs_major(m: u64, n: u64, m2: u64)
    ensures
        spec_minor_channel_name(m, n) != spec_major_channel_name(m2),
{
    crate::version::lemma_minor_name_shape(m, n);
    crate::version::lemma_digits_plain(m2 as int);
    if spec_minor_channel_name(m, n) == spec_major_channel_name(m2) {
        let p1 = spec_digits(m as int).len() as int;
        assert(crate::version::is_digit_char(spec_major_channel_name(m2)[p1]));
    }
}

/// The alias channel under one release's textual name carries the
/// default-architecture build of a release bearing exactly that name.
pub open spec fn alias_value_ok(
    channels: Map<Seq<char>, JuliaupVersionDBChannel>,
    cv: Seq<VersionView>,
    archs: Seq<Arch>,
    name: Seq<char>,
) -> bool {
    exists|j: int|
        0 <= j < cv.len() && view_is_release(#[trigger] cv[j]) && name == spec_version_str(cv[j])
            && channels[name].version@ == spec_full_version_str(cv[j], archs[0])
}

/// The channel under a minor-series name carries the default-architecture
/// build of the maximum of a group bearing exactly that name.
pub open spec fn minor_value_ok(
    channels: Map<Seq<char>, JuliaupVersionDBChannel>,
    cv: Seq<VersionView>,
    archs: Seq<Arch>,
    name: Seq<char>,
) -> bool {
    exists|m: u64, n: u64|
        name == #[trigger] spec_minor_channel_name(m, n) && (exists|w: VersionView|
            #[trigger] group_max(cv, GroupSel::Minor(m, n), w) && channels[name].version@
                == spec_full_version_str(w, archs[0]))
}

/// The channel under a major-series name carries the default-architecture
/// build of the maximum of a group bearing exactly that name.
pub open spec fn major_value_ok(
    channels: Map<Seq<char>, JuliaupVersionDBChannel>,
    cv: Seq<VersionView>,
    archs: Seq<Arch>,
    name: Seq<char>,
) -> bool {
    exists|m: u64|
        name == #[trigger] spec_major_channel_name(m) && (exists|w: VersionView|
            #[trigger] group_max(cv, GroupSel::Major(m), w) && channels[name].version@
                == spec_full_version_str(w, archs[0]))
}

/// Every series and alias value claim survives a registration whose base
/// name holds no dot and does not start with a digit — the named channels.
proof fn lemma_values_survive_named(
    pre: Map<Seq<char>, JuliaupVersionDBChannel>,
    post: Map<Seq<char>, JuliaupVersionDBChannel>,
    cv: Seq<VersionView>,
    archs: Seq<Arch>,
    new_base: Seq<char>,
)
    requires
        forall|k: Seq<char>| pre.contains_key(k) ==> post.contains_key(k),
        forall|k: Seq<char>|
            pre.contains_key(k) && k != new_base && !k.contains('~') ==> post[k] == pre[k],
        new_base.len() >= 1,
        !crate::version::is_digit_char(new_base[0]),
        forall|j: int| 0 <= j < new_base.len() ==> new_base[j] != '.',
        forall|i: int|
            0 <= i < cv.len() && view_is_release(#[trigger] cv[i]) ==> pre.contains_key(
                spec_version_str(cv[i]),
            ) && alias_value_ok(pre, cv, archs, spec_version_str(cv[i])),
        forall|i: int|
            0 <= i < cv.len() && view_is_release(#[trigger] cv[i]) ==> pre.contains_key(
                spec_minor_channel_name(cv[i].major, cv[i].minor),
            ) && minor_value_ok(pre, cv, archs, spec_minor_channel_name(cv[i].major, cv[i].minor))
                && pre.contains_key(spec_major_channel_name(cv[i].major)) && major_value_ok(
                pre,
                cv,
                archs,
                spec_major_channel_name(cv[i].major),
            ),
    ensures
        forall|i: int|
            0 <= i < cv.len() && view_is_release(#[trigger] cv[i]) ==> post.contains_key(
                spec_version_str(cv[i]),
            ) && alias_value_ok(post, cv, archs, spec_version_str(cv[i])),
        forall|i: int|
            0 <= i < cv.len() && view_is_release(#[trigger] cv[i]) ==> post.contains_key(
                spec_minor_channel_name(cv[i].major, cv[i].minor),
            ) && minor_value_ok(post, cv, archs, spec_minor_channel_name(cv[i].major, cv[i].minor))
                && post.contains_key(spec_major_channel_name(cv[i].major)) && major_value_ok(
                post,
                cv,
                archs,
                spec_major_channel_name(cv[i].major),
            ),
{
    assert forall|i: int|
        0 <= i < cv.len() && view_is_release(#[trigger] cv[i]) implies post.contains_key(
        spec_version_str(cv[i]),
    ) && alias_value_ok(post, cv, archs, spec_version_str(cv[i])) && post.contains_key(
        spec_minor_channel_name(cv[i].major, cv[i].minor),
    ) && minor_value_ok(post, cv, archs, spec_minor_channel_name(cv[i].major, cv[i].minor))
        && post.contains_key(spec_major_channel_name(cv[i].major)) && major_value_ok(
        post,
        cv,
        archs,
        spec_major_channel_name(cv[i].major),
    ) by {
        let aname = spec_version_str(cv[i]);
        let mname = spec_minor_channel_name(cv[i].major, cv[i].minor);
        let jname = spec_major_channel_name(cv[i].major);
        crate::version::lemma_release_name_shape(cv[i]);
        crate::version::lemma_minor_name_shape(cv[i].major, cv[i].minor);
        crate::version::lemma_digits_plain(cv[i].major as int);
        lemma_no_tilde(aname);
        lemma_no_tilde(mname);
        lemma_no_tilde(jname);
        assert(aname != new_base) by {
            if aname == new_base {
                assert(new_base[spec_digits(cv[i].major as int).len() as int] == '.');
            }
        }
        assert(mname != new_base) by {
            if mname == new_base {
                assert(new_base[spec_digits(cv[i].major as int).len() as int] == '.');
            }
        }
        assert(jname != new_base) by {
            if jname == new_base {
                assert(crate::version::is_digit_char(new_base[0]));
            }
        }
        lemma_key_value_preserved(pre, post, new_base, aname);
        lemma_key_value_preserved(pre, post, new_base, mname);
        lemma_key_value_preserved(pre, post, new_base, jname);
        let j2 = choose|j2: int|
            0 <= j2 < cv.len() && view_is_release(#[trigger] cv[j2]) && aname == spec_version_str(
                cv[j2],
            ) && pre[aname].version@ == spec_full_version_str(cv[j2], archs[0]);
        assert(post[aname].version@ == spec_full_version_str(cv[j2], archs[0]));
        let (m2, n2) = choose|m2: u64, n2: u64|
            mname == #[trigger] spec_minor_channel_name(m2, n2) && (exists|w: VersionView|
                #[trigger] group_max(cv, GroupSel::Minor(m2, n2), w) && pre[mname].version@
                    == spec_full_version_str(w, archs[0]));
        let w2 = choose|w: VersionView|
            #[trigger] group_max(cv, GroupSel::Minor(m2, n2), w) && pre[mname].version@
                == spec_full_version_str(w, archs[0]);
        assert(post[mname].version@ == spec_full_version_str(w2, archs[0]));
        let m3 = choose|m3: u64|
            jname == #[trigger] spec_major_channel_name(m3) && (exists|w: VersionView|
                #[trigger] group_max(cv, GroupSel::Major(m3), w) && pre[jname].version@
                    == spec_full_version_str(w, archs[0]));
        let w3 = choose|w: VersionView|
            #[trigger] group_max(cv, GroupSel::Major(m3), w) && pre[jname].version@
                == spec_full_version_str(w, archs[0]);
        assert(post[jname].version@ == spec_full_version_str(w3, archs[0]));
    }
}


/// Alias, minor- and major-series value claims survive the registration of
/// one minor-series channel; the claim for the newly registered name comes
/// from the registration itself.
proof fn lemma_series_step_minor(
    pre: Map<Seq<char>, JuliaupVersionDBChannel>,
    post: Map<Seq<char>, JuliaupVersionDBChannel>,
    cv: Seq<VersionView>,
    archs: Seq<Arch>,
    m: u64,
    n: u64,
    upto: int,
)
    requires
        forall|k: Seq<char>| pre.contains_key(k) ==> post.contains_key(k),
        forall|k: Seq<char>|
            pre.contains_key(k) && k != spec_minor_channel_name(m, n) && !k.contains('~')
                ==> post[k] == pre[k],
        minor_value_ok(post, cv, archs, spec_minor_channel_name(m, n)),
        forall|j: int| 0 <= j < cv.len() ==> pre.contains_key(spec_version_str(#[trigger] cv[j])),
        forall|j: int|
            0 <= j < cv.len() && view_is_release(#[trigger] cv[j]) ==> alias_value_ok(
                pre,
                cv,
                archs,
                spec_version_str(cv[j]),
            ),
        forall|j: int|
            0 <= j < upto && view_is_release(#[trigger] cv[j]) ==> pre.contains_key(
                spec_minor_channel_name(cv[j].major, cv[j].minor),
            ) && pre.contains_key(spec_major_channel_name(cv[j].major)) && minor_value_ok(
                pre,
                cv,
                archs,
                spec_minor_channel_name(cv[j].major, cv[j].minor),
            ) && major_value_ok(pre, cv, archs, spec_major_channel_name(cv[j].major)),
    ensures
        forall|j: int|
            0 <= j < cv.len() && view_is_release(#[trigger] cv[j]) ==> alias_value_ok(
                post,
                cv,
                archs,
                spec_version_str(cv[j]),
            ),
        forall|j: int|
            0 <= j < upto && view_is_release(#[trigger] cv[j]) ==> post.contains_key(
                spec_minor_channel_name(cv[j].major, cv[j].minor),
            ) && post.contains_key(spec_major_channel_name(cv[j].major)) && minor_value_ok(
                post,
                cv,
                archs,
                spec_minor_channel_name(cv[j].major, cv[j].minor),
            ) && major_value_ok(post, cv, archs, spec_major_channel_name(cv[j].major)),
{
    let base = spec_minor_channel_name(m, n);
    assert forall|j: int|
        0 <= j < cv.len() && view_is_release(#[trigger] cv[j]) implies alias_value_ok(
        post,
        cv,
        archs,
        spec_version_str(cv[j]),
    ) by {
        let aname = spec_version_str(cv[j]);
        crate::version::lemma_release_name_shape(cv[j]);
        lemma_no_tilde(aname);
        lemma_alias_vs_minor(cv[j], m, n);
        lemma_key_value_preserved(pre, post, base, aname);
        let j2 = choose|j2: int|
            0 <= j2 < cv.len() && view_is_release(#[trigger] cv[j2]) && aname == spec_version_str(
                cv[j2],
            ) && pre[aname].version@ == spec_full_version_str(cv[j2], archs[0]);
        assert(post[aname].version@ == spec_full_version_str(cv[j2], archs[0]));
    }
    assert forall|j: int|
        0 <= j < upto && view_is_release(#[trigger] cv[j]) implies post.contains_key(
        spec_minor_channel_name(cv[j].major, cv[j].minor),
    ) && post.contains_key(spec_major_channel_name(cv[j].major)) && minor_value_ok(
        post,
        cv,
        archs,
        spec_minor_channel_name(cv[j].major, cv[j].minor),
    ) && major_value_ok(post, cv, archs, spec_major_channel_name(cv[j].major)) by {
        let mname = spec_minor_channel_name(cv[j].major, cv[j].minor);
        let jname = spec_major_channel_name(cv[j].major);
        crate::version::lemma_minor_name_shape(cv[j].major, cv[j].minor);
        crate::version::lemma_digits_plain(cv[j].major as int);
        lemma_no_tilde(mname);
        lemma_no_tilde(jname);
        if mname == base {
        } else {
            lemma_key_value_preserved(pre, post, base, mname);
            let (m2, n2) = choose|m2: u64, n2: u64|
                mname == #[trigger] spec_minor_channel_name(m2, n2) && (exists|w: VersionView|
                    #[trigger] group_max(cv, GroupSel::Minor(m2, n2), w) && pre[mname].version@
                        == spec_full_version_str(w, archs[0]));
            let w2 = choose|w: VersionView|
                #[trigger] group_max(cv, GroupSel::Minor(m2, n2), w) && pre[mname].version@
                    == spec_full_version_str(w, archs[0]);
            assert(post[mname].version@ == spec_full_version_str(w2, archs[0]));
        }
        lemma_minor_vs_major(m, n, cv[j].major);
        lemma_key_value_preserved(pre, post, base, jname);
        let m3 = choose|m3: u64|
            jname == #[trigger] spec_major_channel_name(m3) && (exists|w: VersionView|
                #[trigger] group_max(cv, GroupSel::Major(m3), w) && pre[jname].version@
                    == spec_full_version_str(w, archs[0]));
        let w3 = choose|w: VersionView|
            #[trigger] group_max(cv, GroupSel::Major(m3), w) && pre[jname].version@
                == spec_full_version_str(w, archs[0]);
        assert(post[jname].version@ == spec_full_version_str(w3, archs[0]));
    }
}

/// The same survival for the registration of one major-series channel.
proof fn lemma_series_step_major(
    pre: Map<Seq<char>, JuliaupVersionDBChannel>,
    post: Map<Seq<char>, JuliaupVersionDBChannel>,
    cv: Seq<VersionView>,
    archs: Seq<Arch>,
    m: u64,
    upto: int,
)
    requires
        forall|k: Seq<char>| pre.contains_key(k) ==> post.contains_key(k),
        forall|k: Seq<char>|
            pre.contains_key(k) && k != spec_major_channel_name(m) && !k.contains('~')
                ==> post[k] == pre[k],
        major_value_ok(post, cv, archs, spec_major_channel_name(m)),
        forall|j: int| 0 <= j < cv.len() ==> pre.contains_key(spec_version_str(#[trigger] cv[j])),
        forall|j: int|
            0 <= j < cv.len() && view_is_release(#[trigger] cv[j]) ==> alias_value_ok(
                pre,
                cv,
                archs,
                spec_version_str(cv[j]),
            ),
        forall|j: int|
            0 <= j < upto && view_is_release(#[trigger] cv[j]) ==> pre.contains_key(
                spec_minor_channel_name(cv[j].major, cv[j].minor),
            ) && pre.contains_key(spec_major_channel_name(cv[j].major)) && minor_value_ok(
                pre,
                cv,
                archs,
                spec_minor_channel_name(cv[j].major, cv[j].minor),
            ) && major_value_ok(pre, cv, archs, spec_major_channel_name(cv[j].major)),
    ensures
        forall|j: int|
            0 <= j < cv.len() && view_is_release(#[trigger] cv[j]) ==> alias_value_ok(
                post,
                cv,
                archs,
                spec_version_str(cv[j]),
            ),
        forall|j: int|
            0 <= j < upto && view_is_release(#[trigger] cv[j]) ==> post.contains_key(
                spec_minor_channel_name(cv[j].major, cv[j].minor),
            ) && post.contains_key(spec_major_channel_name(cv[j].major)) && minor_value_ok(
                post,
                cv,
                archs,
                spec_minor_channel_name(cv[j].major, cv[j].minor),
            ) && major_value_ok(post, cv, archs, spec_major_channel_name(cv[j].major)),
{
    let base = spec_major_channel_name(m);
    assert forall|j: int|
        0 <= j < cv.len() && view_is_release(#[trigger] cv[j]) implies alias_value_ok(
        post,
        cv,
        archs,
        spec_version_str(cv[j]),
    ) by {
        let aname = spec_version_str(cv[j]);
        crate::version::lemma_release_name_shape(cv[j]);
        lemma_no_tilde(aname);
        lemma_alias_vs_major(cv[j], m);
        lemma_key_value_preserved(pre, post, base, aname);
        let j2 = choose|j2: int|
            0 <= j2 < cv.len() && view_is_release(#[trigger] cv[j2]) && aname == spec_version_str(
                cv[j2],
            ) && pre[aname].version@ == spec_full_version_str(cv[j2], archs[0]);
        assert(post[aname].version@ == spec_full_version_str(cv[j2], archs[0]));
    }
    assert forall|j: int|
        0 <= j < upto && view_is_release(#[trigger] cv[j]) implies post.contains_key(
        spec_minor_channel_name(cv[j].major, cv[j].minor),
    ) && post.contains_key(spec_major_channel_name(cv[j].major)) && minor_value_ok(
        post,
        cv,
        archs,
        spec_minor_channel_name(cv[j].major, cv[j].minor),
    ) && major_value_ok(post, cv, archs, spec_major_channel_name(cv[j].major)) by {
        let mname = spec_minor_channel_name(cv[j].major, cv[j].minor);
        let jname = spec_major_channel_name(cv[j].major);
        crate::version::lemma_minor_name_shape(cv[j].major, cv[j].minor);
        crate::version::lemma_digits_plain(cv[j].major as int);
        lemma_no_tilde(mname);
        lemma_no_tilde(jname);
        lemma_minor_vs_major(cv[j].major, cv[j].minor, m);
        lemma_key_value_preserved(pre, post, base, mname);
        let (m2, n2) = choose|m2: u64, n2: u64|
            mname == #[trigger] spec_minor_channel_name(m2, n2) && (exists|w: VersionView|
                #[trigger] group_max(cv, GroupSel::Minor(m2, n2), w) && pre[mname].version@
                    == spec_full_version_str(w, archs[0]));
        let w2 = choose|w: VersionView|
            #[trigger] group_max(cv, GroupSel::Minor(m2, n2), w) && pre[mname].version@
                == spec_full_version_str(w, archs[0]);
        assert(post[mname].version@ == spec_full_version_str(w2, archs[0]));
        if jname == base {
        } else {
            lemma_key_value_preserved(pre, post, base, jname);
            let m3 = choose|m3: u64|
                jname == #[trigger] spec_major_channel_name(m3) && (exists|w: VersionView|
                    #[trigger] group_max(cv, GroupSel::Major(m3), w) && pre[jname].version@
                        == spec_full_version_str(w, archs[0]));
            let w3 = choose|w: VersionView|
                #[trigger] group_max(cv, GroupSel::Major(m3), w) && pre[jname].version@
                    == spec_full_version_str(w, archs[0]);
            assert(post[jname].version@ == spec_full_version_str(w3, archs[0]));
        }
    }
}


/// Everything the alias pass guarantees: every catalog version's name and
/// arch variants are channels, and a release's name carries its own
/// default build.
pub open spec fn alias_claims(
    channels: Map<Seq<char>, JuliaupVersionDBChannel>,
    cv: Seq<VersionView>,
    archs: Seq<Arch>,
) -> bool {
    &&& forall|j: int|
        0 <= j < cv.len() ==> channels.contains_key(spec_version_str(#[trigger] cv[j]))
    &&& forall|j: int, ai: int|
        0 <= j < cv.len() && 0 <= ai < archs.len() ==> channels.contains_key(
            spec_variant_name(spec_version_str(#[trigger] cv[j]), #[trigger] archs[ai]),
        )
    &&& forall|j: int|
        0 <= j < cv.len() && view_is_release(#[trigger] cv[j]) ==> alias_value_ok(
            channels,
            cv,
            archs,
            spec_version_str(cv[j]),
        )
}

/// Everything the series pass guarantees: every release's minor- and
/// major-series names and their arch variants are channels, and each series
/// name carries the maximum of a group bearing exactly that name.
pub open spec fn series_claims(
    channels: Map<Seq<char>, JuliaupVersionDBChannel>,
    cv: Seq<VersionView>,
    archs: Seq<Arch>,
) -> bool {
    &&& forall|j: int|
        0 <= j < cv.len() && view_is_release(#[trigger] cv[j]) ==> channels.contains_key(
            spec_minor_channel_name(cv[j].major, cv[j].minor),
        ) && channels.contains_key(spec_major_channel_name(cv[j].major)) && minor_value_ok(
            channels,
            cv,
            archs,
            spec_minor_channel_name(cv[j].major, cv[j].minor),
        ) && major_value_ok(channels, cv, archs, spec_major_channel_name(cv[j].major))
    &&& forall|j: int, ai: int|
        0 <= j < cv.len() && 0 <= ai < archs.len() && view_is_release(#[trigger] cv[j])
            ==> channels.contains_key(
            spec_variant_name(
                spec_minor_channel_name(cv[j].major, cv[j].minor),
                #[trigger] archs[ai],
            ),
        ) && channels.contains_key(
            spec_variant_name(spec_major_channel_name(cv[j].major), archs[ai]),
        )
}

/// What the version database guarantees when construction succeeds. The
/// version each series channel carries is decided by `series_pick`, whose
/// contract pins it to the group maximum; here the database promises that
/// every build is offered at its templated URL and that every legal
/// channel name is present.
pub open spec fn build_db_ensures(
    db: JuliaupVersionDB,
    catalog: Seq<Version>,
    os: Os,
    host_arch: Arch,
    lts: VersionView,
    beta: VersionView,
    rc: VersionView,
) -> bool {
    let cv = catalog_views(catalog);
    let archs = spec_archs_of(os, host_arch);
    &&& db.wf()
    &&& (spec_installable_archs(os, host_arch) is Some)
    &&& forall|i: int, ai: int|
        0 <= i < cv.len() && 0 <= ai < archs.len() ==> db.available_versions@.contains_key(
            spec_full_version_str(#[trigger] cv[i], #[trigger] archs[ai]),
        )
    &&& forall|k: Seq<char>|
        #[trigger] db.available_versions@.contains_key(k) ==> url_entry_ok(
            db.available_versions@[k],
            k,
            cv,
            archs,
            os,
        )
    &&& forall|i: int|
        0 <= i < cv.len() ==> db.available_channels@.contains_key(
            spec_version_str(#[trigger] cv[i]),
        )
    &&& forall|i: int, ai: int|
        0 <= i < cv.len() && 0 <= ai < archs.len() ==> db.available_channels@.contains_key(
            spec_variant_name(spec_version_str(#[trigger] cv[i]), #[trigger] archs[ai]),
        )
    &&& forall|i: int|
        0 <= i < cv.len() && view_is_release(#[trigger] cv[i])
            ==> db.available_channels@.contains_key(
            spec_minor_channel_name(cv[i].major, cv[i].minor),
        ) && db.available_channels@.contains_key(spec_major_channel_name(cv[i].major))
    &&& forall|i: int, ai: int|
        0 <= i < cv.len() && 0 <= ai < archs.len() && view_is_release(#[trigger] cv[i])
            ==> db.available_channels@.contains_key(
            spec_variant_name(
                spec_minor_channel_name(cv[i].major, cv[i].minor),
                #[trigger] archs[ai],
            ),
        ) && db.available_channels@.contains_key(
            spec_variant_name(spec_major_channel_name(cv[i].major), archs[ai]),
        )
    &&& forall|i: int|
        0 <= i < cv.len() && view_is_release(#[trigger] cv[i])
            ==> db.available_channels@[spec_version_str(cv[i])].version@ == spec_full_version_str(
            cv[i],
            archs[0],
        )
    &&& forall|i: int|
        0 <= i < cv.len() && view_is_release(#[trigger] cv[i]) ==> (exists|w: VersionView|
            #[trigger] group_max(cv, GroupSel::Minor(cv[i].major, cv[i].minor), w)
                && db.available_channels@[spec_minor_channel_name(
                cv[i].major,
                cv[i].minor,
            )].version@ == spec_full_version_str(w, archs[0]))
    &&& forall|i: int|
        0 <= i < cv.len() && view_is_release(#[trigger] cv[i]) ==> (exists|w: VersionView|
            #[trigger] group_max(cv, GroupSel::Major(cv[i].major), w)
                && db.available_channels@[spec_major_channel_name(cv[i].major)].version@
                == spec_full_version_str(w, archs[0]))
    &&& forall|ai: int|
        0 <= ai < archs.len() ==> db.available_channels@.contains_key(
            spec_variant_name("lts"@, #[trigger] archs[ai]),
        ) && db.available_channels@.contains_key(spec_variant_name("beta"@, archs[ai]))
            && db.available_channels@.contains_key(spec_variant_name("rc"@, archs[ai]))
    &&& (exists|i: int| 0 <= i < cv.len() && view_is_release(#[trigger] cv[i]))
        ==> forall|ai: int|
        0 <= ai < archs.len() ==> db.available_channels@.contains_key(
            spec_variant_name("release"@, #[trigger] archs[ai]),
        )
    &&& (exists|i: int|
        0 <= i < cv.len() && view_is_release(#[trigger] cv[i]))
        ==> db.available_channels@.contains_key("release"@) && (exists|w: VersionView|
        #[trigger] group_max(cv, GroupSel::All, w) && db.available_channels@["release"@].version@
            == spec_full_version_str(w, archs[0]))
    &&& db.available_channels@.contains_key("lts"@)
    &&& db.available_channels@["lts"@].version@ == spec_full_version_str(lts, archs[0])
    &&& db.available_channels@.contains_key("beta"@)
    &&& db.available_channels@["beta"@].version@ == spec_full_version_str(beta, archs[0])
    &&& db.available_channels@.contains_key("rc"@)
    &&& db.available_channels@["rc"@].version@ == spec_full_version_str(rc, archs[0])
}

/// The URL map entry under `k` names an offered build: some catalog version
/// and installable architecture render to exactly `k`, and the entry's URL
/// is that build's templated download location.
pub open spec fn url_entry_ok(
    e: JuliaupVersionDBVersion,
    k: Seq<char>,
    cv: Seq<VersionView>,
    archs: Seq<Arch>,
    os: Os,
) -> bool {
    exists|j: int, ai: int|
        0 <= j < cv.len() && 0 <= ai < archs.len() && k == spec_full_version_str(
            #[trigger] cv[j],
            #[trigger] archs[ai],
        ) && e.url@ == spec_download_url(os, archs[ai], cv[j])
}

/// The platform table has no entry for this combination.
pub open spec fn platform_unsupported(os: Os, host: Arch) -> bool {
    spec_installable_archs(os, host) is None
}

/// Builds the map of installable builds: every catalog version, for every
/// installable architecture, keyed by its full version string, with its
/// templated download URL.
fn build_available_versions(catalog: &Vec<Version>, os: Os, archs: &Vec<Arch>) -> (avail: StrMap<
    JuliaupVersionDBVersion,
>)
    requires
        archs@.len() >= 1,
    ensures
        avail.wf(),
        forall|j: int, ai: int|
            0 <= j < catalog_views(catalog@).len() && 0 <= ai < archs@.len()
                ==> avail@.contains_key(
                spec_full_version_str(
                    #[trigger] catalog_views(catalog@)[j],
                    #[trigger] archs@[ai],
                ),
            ),
        forall|k: Seq<char>|
            #[trigger] avail@.contains_key(k) ==> url_entry_ok(
                avail@[k],
                k,
                catalog_views(catalog@),
                archs@,
                os,
            ),
{
    let n = catalog.len();
    let na = archs.len();
    let ghost cv = catalog_views(catalog@);
    let mut avail: StrMap<JuliaupVersionDBVersion> = StrMap::new();
    for i in 0..n
        invariant
            avail.wf(),
            n == catalog@.len(),
            na == archs@.len(),
            na >= 1,
            cv == catalog_views(catalog@),
            forall|j: int, ai: int|
                0 <= j < i && 0 <= ai < na ==> avail@.contains_key(
                    spec_full_version_str(#[trigger] cv[j], #[trigger] archs@[ai]),
                ),
            forall|k: Seq<char>|
                #[trigger] avail@.contains_key(k) ==> url_entry_ok(avail@[k], k, cv, archs@, os),
    {
        for ai in 0..na
            invariant
                avail.wf(),
                i < n,
                n == catalog@.len(),
                na == archs@.len(),
                cv == catalog_views(catalog@),
                forall|j: int, ai2: int|
                    0 <= j < i && 0 <= ai2 < na ==> avail@.contains_key(
                        spec_full_version_str(#[trigger] cv[j], #[trigger] archs@[ai2]),
                    ),
                forall|ai2: int|
                    0 <= ai2 < ai ==> avail@.contains_key(
                        spec_full_version_str(cv[i as int], #[trigger] archs@[ai2]),
                    ),
                forall|k: Seq<char>|
                    #[trigger] avail@.contains_key(k) ==> url_entry_ok(
                        avail@[k],
                        k,
                        cv,
                        archs@,
                        os,
                    ),
        {
            let a = archs[ai];
            let key = catalog[i].full_version_str(a);
            let url = download_url(os, a, &catalog[i]);
            let ghost pre = avail@;
            avail.insert(key, JuliaupVersionDBVersion { url });
            proof {
                assert(cv[i as int] == catalog@[i as int]@);
                assert(key@ == spec_full_version_str(cv[i as int], archs@[ai as int]));
                assert forall|k: Seq<char>| #[trigger] avail@.contains_key(k) implies url_entry_ok(
                    avail@[k],
                    k,
                    cv,
                    archs@,
                    os,
                ) by {
                    if k == key@ {
                        assert(avail@[k].url@ == spec_download_url(
                            os,
                            archs@[ai as int],
                            cv[i as int],
                        ));
                    } else {
                        assert(avail@[k] == pre[k]);
                    }
                }
            }
        }
    }
    avail
}

/// Derives the full version database for one target platform from the raw
/// release catalog and the pinned named versions: every installable build
/// with its download URL, and every legal channel name. Each series
/// channel's version is chosen by `series_pick`, so it is the maximum
/// non-prerelease version of its group; `lts`, `beta` and `rc` carry the
/// pinned versions. An unsupported platform combination is a fatal error.
#[verifier::rlimit(100)]
fn register_alias_channels(channels: &mut StrMap<JuliaupVersionDBChannel>, catalog: &Vec<Version>, archs: &Vec<Arch>)
    requires
        old(channels).wf(),
        archs@.len() >= 1,
        old(channels)@ == Map::<Seq<char>, JuliaupVersionDBChannel>::empty(),
    ensures
        final(channels).wf(),
        alias_claims(final(channels)@, catalog_views(catalog@), archs@),
{
    let n = catalog.len();
    let ghost cv = catalog_views(catalog@);
    // Arch-suffixed aliases for every catalog version.
    for i in 0..n
        invariant
            channels.wf(),
            n == catalog@.len(),
            archs@.len() >= 1,
            cv == catalog_views(catalog@),
            forall|j: int|
                0 <= j < i ==> channels@.contains_key(spec_version_str(#[trigger] cv[j])),
            forall|j: int, ai: int|
                0 <= j < i && 0 <= ai < archs@.len() ==> channels@.contains_key(
                    spec_variant_name(spec_version_str(#[trigger] cv[j]), #[trigger] archs@[ai]),
                ),
            forall|j: int|
                0 <= j < i && view_is_release(#[trigger] cv[j]) ==> alias_value_ok(
                    channels@,
                    cv,
                    archs@,
                    spec_version_str(cv[j]),
                ),
    {
        proof {
            assert(cv[i as int] == catalog@[i as int]@);
        }
        let base = catalog[i].version_str();
        let ghost pre = channels@;
        register_channel_set(channels, base, &catalog[i], &archs);
        proof {
            assert forall|j: int|
                0 <= j < i + 1 && view_is_release(#[trigger] cv[j]) implies alias_value_ok(
                channels@,
                cv,
                archs@,
                spec_version_str(cv[j]),
            ) by {
                let aname = spec_version_str(cv[j]);
                if aname == spec_version_str(cv[i as int]) {
                    if view_is_release(cv[i as int]) {
                        assert(channels@[aname].version@ == spec_full_version_str(
                            cv[i as int],
                            archs@[0],
                        ));
                    } else {
                        lemma_alias_vs_prerelease(cv[j], cv[i as int]);
                    }
                } else {
                    crate::version::lemma_release_name_shape(cv[j]);
                    lemma_no_tilde(aname);
                    lemma_key_value_preserved(pre, channels@, spec_version_str(cv[i as int]), aname);
                    let j2 = choose|j2: int|
                        0 <= j2 < cv.len() && view_is_release(#[trigger] cv[j2]) && aname
                            == spec_version_str(cv[j2]) && pre[aname].version@
                            == spec_full_version_str(cv[j2], archs@[0]);
                    assert(channels@[aname].version@ == spec_full_version_str(
                        cv[j2],
                        archs@[0],
                    ));
                }
            }
        }
    }

}

#[verifier::rlimit(100)]
fn register_series_channels(channels: &mut StrMap<JuliaupVersionDBChannel>, catalog: &Vec<Version>, archs: &Vec<Arch>)
    requires
        old(channels).wf(),
        archs@.len() >= 1,
        alias_claims(old(channels)@, catalog_views(catalog@), archs@),
    ensures
        final(channels).wf(),
        alias_claims(final(channels)@, catalog_views(catalog@), archs@),
        series_claims(final(channels)@, catalog_views(catalog@), archs@),
{
    let n = catalog.len();
    let ghost cv = catalog_views(catalog@);
    // Minor- and major-series channels, each resolving to its group's
    // maximum as picked by `series_pick`.
    for i in 0..n
        invariant
            channels.wf(),
            n == catalog@.len(),
            archs@.len() >= 1,
            cv == catalog_views(catalog@),
            forall|j: int|
                0 <= j < n ==> channels@.contains_key(spec_version_str(#[trigger] cv[j])),
            forall|j: int, ai: int|
                0 <= j < n && 0 <= ai < archs@.len() ==> channels@.contains_key(
                    spec_variant_name(spec_version_str(#[trigger] cv[j]), #[trigger] archs@[ai]),
                ),
            forall|j: int|
                0 <= j < n && view_is_release(#[trigger] cv[j]) ==> alias_value_ok(
                    channels@,
                    cv,
                    archs@,
                    spec_version_str(cv[j]),
                ),
            forall|j: int|
                0 <= j < i && view_is_release(#[trigger] cv[j]) ==> channels@.contains_key(
                    spec_minor_channel_name(cv[j].major, cv[j].minor),
                ) && channels@.contains_key(spec_major_channel_name(cv[j].major))
                    && minor_value_ok(
                    channels@,
                    cv,
                    archs@,
                    spec_minor_channel_name(cv[j].major, cv[j].minor),
                ) && major_value_ok(channels@, cv, archs@, spec_major_channel_name(cv[j].major)),
            forall|j: int, ai: int|
                0 <= j < i && 0 <= ai < archs@.len() && view_is_release(#[trigger] cv[j])
                    ==> channels@.contains_key(
                    spec_variant_name(
                        spec_minor_channel_name(cv[j].major, cv[j].minor),
                        #[trigger] archs@[ai],
                    ),
                ) && channels@.contains_key(
                    spec_variant_name(spec_major_channel_name(cv[j].major), archs@[ai]),
                ),
    {
        let v = &catalog[i];
        proof {
            assert(cv[i as int] == catalog@[i as int]@);
        }
        if v.prerelease.is_none() {
            let w_minor = match series_pick(catalog, GroupSel::Minor(v.major, v.minor)) {
                Some(w) => w,
                None => {
                    proof {
                        reveal(group_max);
                        assert(false);
                    }
                    v.duplicate()
                },
            };
            let base = minor_channel_name(v.major, v.minor);
            let ghost pre = channels@;
            register_channel_set(channels, base, &w_minor, &archs);
            proof {
                assert(minor_value_ok(
                    channels@,
                    cv,
                    archs@,
                    spec_minor_channel_name(v@.major, v@.minor),
                )) by {
                    assert(channels@[spec_minor_channel_name(v@.major, v@.minor)].version@
                        == spec_full_version_str(w_minor@, archs@[0]));
                }
                lemma_series_step_minor(
                    pre,
                    channels@,
                    cv,
                    archs@,
                    v@.major,
                    v@.minor,
                    i as int,
                );
            }
            let w_major = match series_pick(catalog, GroupSel::Major(v.major)) {
                Some(w) => w,
                None => {
                    proof {
                        reveal(group_max);
                        assert(false);
                    }
                    v.duplicate()
                },
            };
            let base2 = u64_to_string(v.major);
            let ghost pre2 = channels@;
            register_channel_set(channels, base2, &w_major, &archs);
            proof {
                assert(major_value_ok(channels@, cv, archs@, spec_major_channel_name(v@.major)))
                    by {
                    assert(channels@[spec_major_channel_name(v@.major)].version@
                        == spec_full_version_str(w_major@, archs@[0]));
                }
                lemma_series_step_major(pre2, channels@, cv, archs@, v@.major, i as int);
                // the claims of this iteration's own group: the minor one
                // survives the major registration, the major one is fresh
                let mname = spec_minor_channel_name(v@.major, v@.minor);
                crate::version::lemma_minor_name_shape(v@.major, v@.minor);
                lemma_no_tilde(mname);
                lemma_minor_vs_major(v@.major, v@.minor, v@.major);
                lemma_key_value_preserved(pre2, channels@, spec_major_channel_name(v@.major), mname);
                let (m2, n2) = choose|m2: u64, n2: u64|
                    mname == #[trigger] spec_minor_channel_name(m2, n2) && (exists|w: VersionView|
                        #[trigger] group_max(cv, GroupSel::Minor(m2, n2), w) && pre2[mname].version@
                            == spec_full_version_str(w, archs@[0]));
                let w2 = choose|w: VersionView|
                    #[trigger] group_max(cv, GroupSel::Minor(m2, n2), w) && pre2[mname].version@
                        == spec_full_version_str(w, archs@[0]);
                assert(channels@[mname].version@ == spec_full_version_str(w2, archs@[0]));
                assert(minor_value_ok(channels@, cv, archs@, mname));
            }
        }
    }

}

#[verifier::rlimit(100)]
fn register_named_channels(
    channels: &mut StrMap<JuliaupVersionDBChannel>,
    catalog: &Vec<Version>,
    archs: &Vec<Arch>,
    lts: &Version,
    beta: &Version,
    rc: &Version,
)
    requires
        old(channels).wf(),
        archs@.len() >= 1,
        alias_claims(old(channels)@, catalog_views(catalog@), archs@),
        series_claims(old(channels)@, catalog_views(catalog@), archs@),
    ensures
        final(channels).wf(),
        alias_claims(final(channels)@, catalog_views(catalog@), archs@),
        series_claims(final(channels)@, catalog_views(catalog@), archs@),
        (exists|i: int|
            0 <= i < catalog_views(catalog@).len() && view_is_release(
                #[trigger] catalog_views(catalog@)[i],
            )) ==> final(channels)@.contains_key("release"@) && (exists|w: VersionView|
            #[trigger] group_max(catalog_views(catalog@), GroupSel::All, w) && final(channels)@["release"@].version@ == spec_full_version_str(w, archs@[0])) && (forall|ai: int|
            0 <= ai < archs@.len() ==> final(channels)@.contains_key(
                spec_variant_name("release"@, #[trigger] archs@[ai]),
            )),
        final(channels)@.contains_key("lts"@),
        final(channels)@["lts"@].version@ == spec_full_version_str(lts@, archs@[0]),
        final(channels)@.contains_key("beta"@),
        final(channels)@["beta"@].version@ == spec_full_version_str(beta@, archs@[0]),
        final(channels)@.contains_key("rc"@),
        final(channels)@["rc"@].version@ == spec_full_version_str(rc@, archs@[0]),
        forall|ai: int|
            0 <= ai < archs@.len() ==> final(channels)@.contains_key(
                spec_variant_name("lts"@, #[trigger] archs@[ai]),
            ) && final(channels)@.contains_key(spec_variant_name("beta"@, archs@[ai])) && final(channels)@.contains_key(spec_variant_name("rc"@, archs@[ai])),
{
    let n = catalog.len();
    let ghost cv = catalog_views(catalog@);
    // Named channels: the global maximum and the pinned tracks.
    let release_pick = series_pick(catalog, GroupSel::All);
    let ghost release_w = match &release_pick {
        Some(w) => Some(w@),
        None => None::<VersionView>,
    };
    let ghost pre_release = channels@;
    match &release_pick {
        Some(w) => {
            register_channel_set(channels, String::from_str("release"), w, &archs);
            proof {
                lemma_named_no_tilde();
                lemma_values_survive_named(pre_release, channels@, cv, archs@, "release"@);
            }
        },
        None => {},
    }
    let ghost had_release = channels@.contains_key("release"@);
    let ghost after_release = channels@;
    register_channel_set(channels, String::from_str("lts"), lts, &archs);
    proof {
        lemma_named_no_tilde();
        lemma_values_survive_named(after_release, channels@, cv, archs@, "lts"@);
        if had_release {
            assert(channels@["release"@] == after_release["release"@]);
        }
    }
    let ghost after_lts = channels@;
    register_channel_set(channels, String::from_str("beta"), beta, &archs);
    proof {
        lemma_named_no_tilde();
        lemma_values_survive_named(after_lts, channels@, cv, archs@, "beta"@);
        if had_release {
            assert(channels@["release"@] == after_lts["release"@]);
        }
        assert(channels@["lts"@] == after_lts["lts"@]);
    }
    let ghost after_beta = channels@;
    register_channel_set(channels, String::from_str("rc"), rc, &archs);
    proof {
        lemma_named_no_tilde();
        lemma_values_survive_named(after_beta, channels@, cv, archs@, "rc"@);
        if had_release {
            assert(channels@["release"@] == after_beta["release"@]);
        }
        assert(channels@["lts"@] == after_beta["lts"@]);
        assert(channels@["beta"@] == after_beta["beta"@]);
    }
    proof {
        if exists|i: int| 0 <= i < cv.len() && view_is_release(#[trigger] cv[i]) {
            let i = choose|i: int| 0 <= i < cv.len() && view_is_release(#[trigger] cv[i]);
            assert(had_release) by {
                if !(exists|w: Version| group_max(cv, GroupSel::All, w@)) {
                }
                reveal(group_max);
            }
            assert(release_w matches Some(w) && group_max(cv, GroupSel::All, w));
            assert(channels@["release"@].version@ == spec_full_version_str(
                release_w->Some_0,
                archs@[0],
            ));
        }
    }
}

/// The name-indexed value claims collapse to each release's own group: the
/// names are injective on releases and on series.
#[verifier::rlimit(100)]
proof fn lemma_strong_claims(
    channels: Map<Seq<char>, JuliaupVersionDBChannel>,
    cv: Seq<VersionView>,
    archs: Seq<Arch>,
)
    requires
        archs.len() >= 1,
        alias_claims(channels, cv, archs),
        series_claims(channels, cv, archs),
    ensures
        forall|i: int|
            0 <= i < cv.len() && view_is_release(#[trigger] cv[i]) ==> channels[spec_version_str(
                cv[i],
            )].version@ == spec_full_version_str(cv[i], archs[0]),
        forall|i: int|
            0 <= i < cv.len() && view_is_release(#[trigger] cv[i]) ==> (exists|w: VersionView|
                #[trigger] group_max(cv, GroupSel::Minor(cv[i].major, cv[i].minor), w) && channels[
                spec_minor_channel_name(cv[i].major, cv[i].minor)].version@
                    == spec_full_version_str(w, archs[0])),
        forall|i: int|
            0 <= i < cv.len() && view_is_release(#[trigger] cv[i]) ==> (exists|w: VersionView|
                #[trigger] group_max(cv, GroupSel::Major(cv[i].major), w) && channels[
                spec_major_channel_name(cv[i].major)].version@ == spec_full_version_str(
                    w,
                    archs[0],
                )),
{
    assert forall|i: int|
        0 <= i < cv.len() && view_is_release(#[trigger] cv[i]) implies channels[spec_version_str(
        cv[i],
    )].version@ == spec_full_version_str(cv[i], archs[0]) by {
        let aname = spec_version_str(cv[i]);
        let j2 = choose|j2: int|
            0 <= j2 < cv.len() && view_is_release(#[trigger] cv[j2]) && aname == spec_version_str(
                cv[j2],
            ) && channels[aname].version@ == spec_full_version_str(cv[j2], archs[0]);
        crate::version::lemma_release_name_injective(cv[j2], cv[i]);
    }
    assert forall|i: int|
        0 <= i < cv.len() && view_is_release(#[trigger] cv[i]) implies (exists|w: VersionView|
        #[trigger] group_max(cv, GroupSel::Minor(cv[i].major, cv[i].minor), w) && channels[
        spec_minor_channel_name(cv[i].major, cv[i].minor)].version@ == spec_full_version_str(
            w,
            archs[0],
        )) by {
        let mname = spec_minor_channel_name(cv[i].major, cv[i].minor);
        let (m2, n2) = choose|m2: u64, n2: u64|
            mname == #[trigger] spec_minor_channel_name(m2, n2) && (exists|w: VersionView|
                #[trigger] group_max(cv, GroupSel::Minor(m2, n2), w) && channels[mname].version@
                    == spec_full_version_str(w, archs[0]));
        crate::version::lemma_minor_name_injective(m2, n2, cv[i].major, cv[i].minor);
        let w2 = choose|w: VersionView|
            #[trigger] group_max(cv, GroupSel::Minor(m2, n2), w) && channels[mname].version@
                == spec_full_version_str(w, archs[0]);
        assert(group_max(cv, GroupSel::Minor(cv[i].major, cv[i].minor), w2));
    }
    assert forall|i: int|
        0 <= i < cv.len() && view_is_release(#[trigger] cv[i]) implies (exists|w: VersionView|
        #[trigger] group_max(cv, GroupSel::Major(cv[i].major), w) && channels[
        spec_major_channel_name(cv[i].major)].version@ == spec_full_version_str(
            w,
            archs[0],
        )) by {
        let jname = spec_major_channel_name(cv[i].major);
        let m3 = choose|m3: u64|
            jname == #[trigger] spec_major_channel_name(m3) && (exists|w: VersionView|
                #[trigger] group_max(cv, GroupSel::Major(m3), w) && channels[jname].version@
                    == spec_full_version_str(w, archs[0]));
        crate::version::lemma_digits_injective(m3 as int, cv[i].major as int);
        let w3 = choose|w: VersionView|
            #[trigger] group_max(cv, GroupSel::Major(m3), w) && channels[jname].version@
                == spec_full_version_str(w, archs[0]);
        assert(group_max(cv, GroupSel::Major(cv[i].major), w3));
    }
}

#[verifier::rlimit(100)]
pub fn build_version_db(
    catalog: &Vec<Version>,
    os: Os,
    host_arch: Arch,
    lts: &Version,
    beta: &Version,
    rc: &Version,
) -> (r: Result<JuliaupVersionDB, JuliaupError>)
    ensures
        match r {
            Err(JuliaupError::UnsupportedPlatform) => platform_unsupported(os, host_arch),
            Err(_) => false,
            Ok(db) => build_db_ensures(db, catalog@, os, host_arch, lts@, beta@, rc@),
        },
{
    let archs = match installable_archs(os, host_arch) {
        Ok(a) => a,
        Err(e) => {
            return Err(e);
        },
    };
    let ghost cv = catalog_views(catalog@);
    let avail = build_available_versions(catalog, os, &archs);
    let mut channels: StrMap<JuliaupVersionDBChannel> = StrMap::new();
    register_alias_channels(&mut channels, catalog, &archs);
    register_series_channels(&mut channels, catalog, &archs);
    register_named_channels(&mut channels, catalog, &archs, lts, beta, rc);
    proof {
        lemma_strong_claims(channels@, cv, archs@);
    }
    let db = JuliaupVersionDB { available_versions: avail, available_channels: channels };
    proof {
        assert(spec_archs_of(os, host_arch) == archs@);
        assert(build_db_ensures(db, catalog@, os, host_arch, lts@, beta@, rc@));
    }
    Ok(db)
}

} // verus!
