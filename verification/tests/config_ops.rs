use juliaup::config_file::{JuliaupConfig, JuliaupConfigChannel, JuliaupConfigVersion};
use juliaup::error::JuliaupError;
use juliaup::jsonstructs_versionsdb::{
    JuliaupVersionDB, JuliaupVersionDBChannel, JuliaupVersionDBVersion,
};
use juliaup::operations::{garbage_collect_versions, install_version, record_install, InstallAction};
use juliaup::strmap::StrMap;

fn empty_db() -> JuliaupVersionDB {
    JuliaupVersionDB {
        available_versions: StrMap::new(),
        available_channels: StrMap::new(),
    }
}

fn db_with(version: &str, url: &str) -> JuliaupVersionDB {
    let mut db = empty_db();
    db.available_versions.insert(
        String::from(version),
        JuliaupVersionDBVersion {
            url: String::from(url),
        },
    );
    db.available_channels.insert(
        String::from(version),
        JuliaupVersionDBChannel {
            version: String::from(version),
        },
    );
    db
}

#[test]
fn installing_an_installed_version_is_a_no_op() {
    let mut config = JuliaupConfig::empty();
    record_install(&mut config, &String::from("1.8.5~x64"));
    let db = db_with("1.8.5~x64", "bin/julia.tar.gz");
    let r = install_version(
        &String::from("1.8.5~x64"),
        &config,
        &db,
        &String::from("1.8.5~x64"),
        true,
    );
    assert!(matches!(r, Ok(InstallAction::AlreadyInstalled)));
    // the planner takes the configuration immutably: nothing was changed
    assert_eq!(
        config
            .installed_versions
            .get(&String::from("1.8.5~x64"))
            .unwrap()
            .path,
        "./julia-1.8.5~x64"
    );
}

#[test]
fn install_downloads_an_known_version() {
    let config = JuliaupConfig::empty();
    let db = db_with("1.9.0~x64", "bin/linux/x64/1.9/julia-1.9.0-linux-x64.tar.gz");
    let r = install_version(
        &String::from("1.9.0~x64"),
        &config,
        &db,
        &String::from("1.8.5~x64"),
        false,
    );
    match r {
        Ok(InstallAction::Download { url, target_dir }) => {
            assert_eq!(url, "bin/linux/x64/1.9/julia-1.9.0-linux-x64.tar.gz");
            assert_eq!(target_dir, "julia-1.9.0~x64");
        }
        _ => panic!("expected a download action"),
    }
}

#[test]
fn install_prefers_the_bundled_build() {
    let config = JuliaupConfig::empty();
    let db = db_with("1.8.5~x64", "bin/whatever.tar.gz");
    let r = install_version(
        &String::from("1.8.5~x64"),
        &config,
        &db,
        &String::from("1.8.5~x64"),
        true,
    );
    match r {
        Ok(InstallAction::CopyBundled { target_dir }) => {
            assert_eq!(target_dir, "julia-1.8.5~x64");
        }
        _ => panic!("expected the bundled copy action"),
    }
}

#[test]
fn installing_an_unknown_version_fails() {
    let config = JuliaupConfig::empty();
    let db = empty_db();
    let r = install_version(
        &String::from("9.9.9~x64"),
        &config,
        &db,
        &String::from("1.8.5~x64"),
        false,
    );
    match r {
        Err(JuliaupError::UnknownVersion { version }) => assert_eq!(version, "9.9.9~x64"),
        _ => panic!("expected an unknown-version error"),
    }
}

#[test]
fn record_install_stores_the_relative_path() {
    let mut config = JuliaupConfig::empty();
    record_install(&mut config, &String::from("1.9.0~x64"));
    let entry = config
        .installed_versions
        .get(&String::from("1.9.0~x64"))
        .expect("version not recorded");
    assert_eq!(entry.path, "./julia-1.9.0~x64");
}

#[test]
fn gc_removes_exactly_the_unreferenced_versions() {
    let mut config = JuliaupConfig::empty();
    config.installed_versions.insert(
        String::from("1.8.5~x64"),
        JuliaupConfigVersion {
            path: String::from("./julia-1.8.5~x64"),
        },
    );
    config.installed_versions.insert(
        String::from("1.9.0~x64"),
        JuliaupConfigVersion {
            path: String::from("./julia-1.9.0~x64"),
        },
    );
    config.installed_channels.insert(
        String::from("x"),
        JuliaupConfigChannel::SystemChannel {
            version: String::from("1.8.5~x64"),
        },
    );
    config.installed_channels.insert(
        String::from("link"),
        JuliaupConfigChannel::LinkedChannel {
            command: String::from("/usr/bin/julia"),
            args: None,
        },
    );
    let removed = garbage_collect_versions(&mut config);
    assert!(config
        .installed_versions
        .get(&String::from("1.8.5~x64"))
        .is_some());
    assert!(config
        .installed_versions
        .get(&String::from("1.9.0~x64"))
        .is_none());
    assert_eq!(removed, vec![String::from("./julia-1.9.0~x64")]);
}

#[test]
fn linked_channels_never_protect_a_version() {
    let mut config = JuliaupConfig::empty();
    config.installed_versions.insert(
        String::from("1.8.5~x64"),
        JuliaupConfigVersion {
            path: String::from("./julia-1.8.5~x64"),
        },
    );
    config.installed_channels.insert(
        String::from("alias"),
        JuliaupConfigChannel::LinkedChannel {
            command: String::from("1.8.5~x64"),
            args: None,
        },
    );
    let removed = garbage_collect_versions(&mut config);
    assert!(config
        .installed_versions
        .get(&String::from("1.8.5~x64"))
        .is_none());
    assert_eq!(removed.len(), 1);
}

#[test]
fn strmap_insert_get_remove() {
    let mut m: StrMap<u64> = StrMap::new();
    assert!(m.get(&String::from("a")).is_none());
    m.insert(String::from("a"), 1);
    m.insert(String::from("b"), 2);
    m.insert(String::from("a"), 3);
    assert_eq!(*m.get(&String::from("a")).unwrap(), 3);
    assert_eq!(*m.get(&String::from("b")).unwrap(), 2);
    assert_eq!(m.len(), 2);
    m.remove(&String::from("a"));
    assert!(m.get(&String::from("a")).is_none());
    assert_eq!(m.len(), 1);
}
