use juliaup::error::JuliaupError;
use juliaup::markers::{apply_block, match_markers, remove_block};
use juliaup::operations::{
    files_to_apply, files_to_remove, format_command_line, get_shell_script_juliaup_content,
    shim_script_content, symlink_target_path, StartupFile,
};
use juliaup::utils::{
    entry_path_is_clean, first_entry, get_arch, get_juliaup_home_path, get_juliaupconfig_path,
    sanitize_entry_path, PathPart,
};

fn content() -> String {
    get_shell_script_juliaup_content("/home/u/.juliaup/bin")
}

#[test]
fn apply_is_idempotent() {
    let c = content();
    let base = "export FOO=1\n";
    let once = apply_block(base, c.as_str()).unwrap();
    let twice = apply_block(once.as_str(), c.as_str()).unwrap();
    assert_eq!(once, twice);
    assert_eq!(once, format!("{}\n{}\n", base, c));
}

#[test]
fn remove_after_apply_restores_the_original() {
    let c = content();
    let base = "export FOO=1\n# a comment\n";
    let once = apply_block(base, c.as_str()).unwrap();
    let back = remove_block(once.as_str()).unwrap().unwrap();
    assert_eq!(back, base);
}

#[test]
fn remove_without_a_block_is_a_silent_no_op() {
    let r = remove_block("plain content\n").unwrap();
    assert!(r.is_none());
}

#[test]
fn apply_replaces_an_existing_block() {
    let c = content();
    let stale = format!(
        "head\n# >>> juliaup initialize >>>\nold stuff\n# <<< juliaup initialize <<<\ntail\n"
    );
    let fresh = apply_block(stale.as_str(), c.as_str()).unwrap();
    assert_eq!(fresh, format!("head\n{}\ntail\n", c));
}

#[test]
fn mismatched_marker_counts_fail_fatally() {
    let broken = "# >>> juliaup initialize >>>\nx\n# >>> juliaup initialize >>>\ny\n# <<< juliaup initialize <<<\n";
    let r = match_markers(broken, false);
    assert!(matches!(r, Err(JuliaupError::MarkerCountMismatch)));
    let c = content();
    assert!(matches!(
        apply_block(broken, c.as_str()),
        Err(JuliaupError::MarkerCountMismatch)
    ));
    assert!(matches!(
        remove_block(broken),
        Err(JuliaupError::MarkerCountMismatch)
    ));
}

#[test]
fn more_than_one_start_marker_fails_fatally() {
    let broken = "# >>> juliaup initialize >>>\n# <<< juliaup initialize <<<\n# >>> juliaup initialize >>>\n# <<< juliaup initialize <<<\n";
    let r = match_markers(broken, false);
    assert!(matches!(r, Err(JuliaupError::MultipleStartMarkers)));
}

#[test]
fn reversed_markers_fail_fatally() {
    let broken = "# <<< juliaup initialize <<<\nmiddle\n# >>> juliaup initialize >>>";
    assert!(matches!(
        remove_block(broken),
        Err(JuliaupError::MarkersOutOfOrder)
    ));
}

#[test]
fn match_markers_finds_the_block_range() {
    let buf = "aa\n# >>> juliaup initialize >>>\nbody\n# <<< juliaup initialize <<<\nzz";
    let (a, b) = match_markers(buf, false).unwrap().unwrap();
    assert_eq!(a, 3);
    assert_eq!(b, buf.len() - 3);
    let (a2, b2) = match_markers(buf, true).unwrap().unwrap();
    assert_eq!(a2, 2);
    assert_eq!(b2, buf.len() - 2);
    assert!(match_markers("nothing here", true).unwrap().is_none());
}

#[test]
fn shim_script_runs_the_linked_command() {
    let c = String::from("/usr/local/bin/julia");
    let args = Some(vec![String::from("--project"), String::from("-O2")]);
    assert_eq!(
        format_command_line(&c, &args),
        "/usr/local/bin/julia --project -O2"
    );
    assert_eq!(format_command_line(&c, &None), "/usr/local/bin/julia");
    assert_eq!(
        shim_script_content(&c, &args),
        "#!/bin/sh\n/usr/local/bin/julia --project -O2 \"$@\"\n"
    );
}

#[test]
fn symlink_target_is_the_versioned_executable() {
    assert_eq!(
        symlink_target_path(&String::from("/h/.julia/juliaup"), &String::from("1.8.5~x64")),
        "/h/.julia/juliaup/julia-1.8.5~x64/bin/julia"
    );
}

#[test]
fn apply_candidates_pick_one_profile_file() {
    assert_eq!(
        files_to_apply(false, false, false),
        vec![StartupFile::Bashrc, StartupFile::BashProfile]
    );
    assert_eq!(
        files_to_apply(true, true, true),
        vec![StartupFile::Bashrc, StartupFile::Profile]
    );
    assert_eq!(
        files_to_apply(false, false, true),
        vec![StartupFile::Bashrc, StartupFile::BashLogin]
    );
}

#[test]
fn remove_candidates_keep_the_known_asymmetry() {
    // without `.profile`, the primary `.bashrc` is deliberately not edited
    assert_eq!(
        files_to_remove(false, true, false),
        vec![StartupFile::BashProfile]
    );
    assert_eq!(
        files_to_remove(true, false, true),
        vec![
            StartupFile::Bashrc,
            StartupFile::Profile,
            StartupFile::BashLogin,
        ]
    );
}

#[test]
fn depot_override_takes_the_first_absolute_entry() {
    let depot = String::from("/depot/a:/depot/b");
    let r = get_juliaup_home_path(Some(&depot), None, false).unwrap();
    assert_eq!(r, "/depot/a");
    let bad = String::from("relative/path:/other");
    assert!(matches!(
        get_juliaup_home_path(Some(&bad), None, false),
        Err(JuliaupError::InvalidDepotPath { .. })
    ));
    let home = String::from("/home/u");
    let r2 = get_juliaup_home_path(None, Some(&home), false).unwrap();
    assert_eq!(r2, "/home/u/.julia/juliaup");
    assert!(matches!(
        get_juliaup_home_path(None, None, false),
        Err(JuliaupError::MissingHomeDirectory)
    ));
    let win = String::from("C:/depot;D:/other");
    assert_eq!(get_juliaup_home_path(Some(&win), None, true).unwrap(), "C:/depot");
    let win_unc = String::from("\\\\server\\share;C:/x");
    assert_eq!(
        get_juliaup_home_path(Some(&win_unc), None, true).unwrap(),
        "\\\\server\\share"
    );
    let win_rel = String::from("depot;C:/x");
    assert!(matches!(
        get_juliaup_home_path(Some(&win_rel), None, true),
        Err(JuliaupError::InvalidDepotPath { .. })
    ));
}

#[test]
fn config_path_lives_in_the_home_directory() {
    assert_eq!(
        get_juliaupconfig_path(&String::from("/h/.julia/juliaup")),
        "/h/.julia/juliaup/juliaup.json"
    );
}

#[test]
fn first_entry_splits_on_the_separator() {
    assert_eq!(first_entry("a:b:c", ':'), "a");
    assert_eq!(first_entry("abc", ':'), "abc");
    assert_eq!(first_entry("", ':'), "");
}

#[test]
fn arch_names_map_to_tags() {
    assert_eq!(get_arch("x86_64").unwrap(), "x64");
    assert_eq!(get_arch("x86").unwrap(), "x86");
    assert_eq!(get_arch("aarch64").unwrap(), "aarch64");
    assert!(matches!(
        get_arch("riscv64"),
        Err(JuliaupError::UnknownArch { .. })
    ));
}

#[test]
fn traversal_components_never_escape_the_target() {
    let parts = vec![
        PathPart::Plain {
            name: String::from("julia-1.8.5"),
        },
        PathPart::Parent,
        PathPart::Parent,
        PathPart::Root,
        PathPart::Plain {
            name: String::from("etc"),
        },
        PathPart::Plain {
            name: String::from("passwd"),
        },
    ];
    let safe = sanitize_entry_path(&parts, 1);
    assert_eq!(safe, vec![String::from("etc"), String::from("passwd")]);

    let absolute = vec![
        PathPart::Root,
        PathPart::Plain {
            name: String::from("tmp"),
        },
        PathPart::Plain {
            name: String::from("x"),
        },
    ];
    let safe2 = sanitize_entry_path(&absolute, 0);
    assert_eq!(safe2, vec![String::from("tmp"), String::from("x")]);

    let short = vec![PathPart::Parent];
    assert_eq!(sanitize_entry_path(&short, 2), Vec::<String>::new());
}

#[test]
fn traversal_entries_are_skipped_entirely() {
    // an entry with a parent-directory segment after the skipped wrapper is
    // rejected as a whole, not trimmed down
    let crafted = vec![
        PathPart::Plain {
            name: String::from("top"),
        },
        PathPart::Parent,
        PathPart::Parent,
        PathPart::Plain {
            name: String::from("etc"),
        },
        PathPart::Plain {
            name: String::from("passwd"),
        },
    ];
    assert!(!entry_path_is_clean(&crafted, 1));
    let absolute = vec![
        PathPart::Root,
        PathPart::Plain {
            name: String::from("tmp"),
        },
    ];
    assert!(!entry_path_is_clean(&absolute, 0));
    let clean = vec![
        PathPart::Plain {
            name: String::from("top"),
        },
        PathPart::Plain {
            name: String::from("bin"),
        },
        PathPart::Plain {
            name: String::from("julia"),
        },
    ];
    assert!(entry_path_is_clean(&clean, 1));
    assert!(!entry_path_is_clean(&clean, 4));
}

#[test]
fn generated_block_is_framed_by_the_markers() {
    let c = content();
    assert!(c.starts_with("# >>> juliaup initialize >>>"));
    assert!(c.ends_with("# <<< juliaup initialize <<<"));
    assert!(c.contains("export PATH=/home/u/.juliaup/bin"));
}
