use juliaup::version::{Arch, Os, Version};
use juliaup::versions_file::{build_version_db, installable_archs, series_pick, GroupSel};
use juliaup::error::JuliaupError;

fn catalog() -> Vec<Version> {
    vec![
        Version::new(1, 0, 0),
        Version::new(1, 0, 1),
        Version::new(1, 1, 0),
        Version {
            major: 1,
            minor: 1,
            patch: 1,
            prerelease: Some(String::from("rc1")),
        },
        Version::new(2, 0, 0),
    ]
}

fn build() -> juliaup::jsonstructs_versionsdb::JuliaupVersionDB {
    build_version_db(
        &catalog(),
        Os::Linux,
        Arch::X64,
        &Version::new(1, 0, 1),
        &Version::new(2, 0, 0),
        &Version::new(2, 0, 0),
    )
    .unwrap()
}

fn channel_version(db: &juliaup::jsonstructs_versionsdb::JuliaupVersionDB, name: &str) -> String {
    db.available_channels
        .get(&String::from(name))
        .expect("channel missing")
        .version
        .clone()
}

#[test]
fn minor_series_resolves_to_group_maximum() {
    let db = build();
    assert_eq!(channel_version(&db, "1.0"), "1.0.1~x64");
    // the 1.1.1-rc1 prerelease never wins a series channel
    assert_eq!(channel_version(&db, "1.1"), "1.1.0~x64");
}

#[test]
fn major_series_resolves_to_group_maximum() {
    let db = build();
    assert_eq!(channel_version(&db, "1"), "1.1.0~x64");
    assert_eq!(channel_version(&db, "2"), "2.0.0~x64");
}

#[test]
fn release_resolves_to_global_maximum() {
    let db = build();
    assert_eq!(channel_version(&db, "release"), "2.0.0~x64");
}

#[test]
fn named_channels_resolve_to_pins() {
    let db = build();
    assert_eq!(channel_version(&db, "lts"), "1.0.1~x64");
    assert_eq!(channel_version(&db, "beta"), "2.0.0~x64");
    assert_eq!(channel_version(&db, "rc"), "2.0.0~x64");
}

#[test]
fn alias_channels_and_arch_variants_exist() {
    let db = build();
    assert_eq!(channel_version(&db, "1.0.1"), "1.0.1~x64");
    assert_eq!(channel_version(&db, "1.0.1~x86"), "1.0.1~x86");
    assert_eq!(channel_version(&db, "1.1.1-rc1"), "1.1.1-rc1~x64");
}

#[test]
fn download_urls_follow_the_template() {
    let db = build();
    let entry = db
        .available_versions
        .get(&String::from("2.0.0~x64"))
        .expect("version missing");
    assert_eq!(entry.url, "bin/linux/x64/2.0/julia-2.0.0-linux-x64.tar.gz");
    let entry86 = db
        .available_versions
        .get(&String::from("1.0.0~x86"))
        .expect("version missing");
    assert_eq!(entry86.url, "bin/linux/x86/1.0/julia-1.0.0-linux-x86.tar.gz");
}

#[test]
fn unsupported_platform_is_fatal() {
    let r = installable_archs(Os::Mac, Arch::X86);
    assert!(matches!(r, Err(JuliaupError::UnsupportedPlatform)));
    let r2 = build_version_db(
        &catalog(),
        Os::Mac,
        Arch::X86,
        &Version::new(1, 0, 1),
        &Version::new(2, 0, 0),
        &Version::new(2, 0, 0),
    );
    assert!(matches!(r2, Err(JuliaupError::UnsupportedPlatform)));
}

#[test]
fn mac_arm_falls_back_to_emulated_x64() {
    let archs = installable_archs(Os::Mac, Arch::Aarch64).unwrap();
    assert_eq!(archs, vec![Arch::X64]);
}

#[test]
fn series_pick_takes_the_maximum_release() {
    let cat = catalog();
    let w = series_pick(&cat, GroupSel::Minor(1, 1)).unwrap();
    assert_eq!((w.major, w.minor, w.patch), (1, 1, 0));
    assert!(w.prerelease.is_none());
    let all = series_pick(&cat, GroupSel::All).unwrap();
    assert_eq!((all.major, all.minor, all.patch), (2, 0, 0));
    assert!(series_pick(&cat, GroupSel::Minor(9, 9)).is_none());
}

#[test]
fn precedence_follows_semver_rules() {
    let rel = Version::new(1, 0, 0);
    let pre = Version {
        major: 1,
        minor: 0,
        patch: 0,
        prerelease: Some(String::from("alpha")),
    };
    assert!(pre.precedes(&rel));
    assert!(!rel.precedes(&pre));
    let nine = Version {
        major: 1,
        minor: 0,
        patch: 0,
        prerelease: Some(String::from("9")),
    };
    let ten = Version {
        major: 1,
        minor: 0,
        patch: 0,
        prerelease: Some(String::from("10")),
    };
    assert!(nine.precedes(&ten));
    let alpha = Version {
        major: 1,
        minor: 0,
        patch: 0,
        prerelease: Some(String::from("alpha")),
    };
    assert!(ten.precedes(&alpha));
    assert!(Version::new(1, 2, 3).precedes(&Version::new(1, 10, 0)));
}

#[test]
fn prerelease_identifiers_compare_dot_wise() {
    let v = |pre: &str| Version {
        major: 1,
        minor: 0,
        patch: 0,
        prerelease: Some(String::from(pre)),
    };
    // numeric identifiers compare numerically within each dotted field
    assert!(v("alpha.9").precedes(&v("alpha.10")));
    assert!(!v("alpha.10").precedes(&v("alpha.9")));
    // fewer identifiers precede when the common prefix agrees
    assert!(v("alpha").precedes(&v("alpha.1")));
    assert!(!v("alpha.1").precedes(&v("alpha")));
    // numeric identifiers precede alphanumeric ones field by field
    assert!(v("1.2").precedes(&v("1.rc")));
    assert!(v("alpha.1").precedes(&v("beta")));
    // equal prerelease strings are not ordered
    assert!(!v("rc.1").precedes(&v("rc.1")));
}

#[test]
fn version_strings_render_exactly() {
    let v = Version {
        major: 1,
        minor: 2,
        patch: 3,
        prerelease: Some(String::from("rc1")),
    };
    assert_eq!(v.version_str(), "1.2.3-rc1");
    assert_eq!(v.full_version_str(Arch::X64), "1.2.3-rc1~x64");
    assert_eq!(juliaup::version::u64_to_string(1048576), "1048576");
    assert_eq!(juliaup::version::u64_to_string(0), "0");
}

#[test]
fn download_version_parses_server_answer() {
    let v = juliaup::operations::download_juliaup_version(" 1.8.5\n").unwrap();
    assert_eq!((v.major, v.minor, v.patch), (1, 8, 5));
    assert!(v.prerelease.is_none());
    let p = juliaup::operations::download_juliaup_version("2.0.0-rc2").unwrap();
    assert_eq!(p.prerelease.as_deref(), Some("rc2"));
    let bad = juliaup::operations::download_juliaup_version("not-a-version");
    assert!(matches!(
        bad,
        Err(JuliaupError::InvalidVersionString { .. })
    ));
}

#[test]
fn bundled_version_is_fixed() {
    assert_eq!(juliaup::get_bundled_julia_full_version(), "1.8.5");
}
