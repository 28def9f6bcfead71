use icetron_paths::{
    config_dirs, config_home, config_subdirs, data_dirs, data_home, data_subdirs, home_dir,
    install_prefix, prefix_of, push_unique, resolve, system_config_dirs, system_data_dirs,
    system_data_subdirs, Environment, PathBuf, Var, CONFIG_DIRS_DEFAULT, DATA_DIRS_DEFAULT,
};

fn os(s: &str) -> Vec<u8> {
    s.as_bytes().to_vec()
}

fn env(exe: Option<&str>, vars: &[(&str, &str)]) -> Environment {
    Environment {
        exe: exe.map(PathBuf::from),
        vars: vars
            .iter()
            .map(|(name, value)| Var {
                name: os(name),
                value: os(value),
            })
            .collect(),
    }
}

fn texts(dirs: &[PathBuf]) -> Vec<String> {
    dirs.iter()
        .map(|d| String::from_utf8(d.bytes.clone()).unwrap())
        .collect()
}

/// The system tier must never include the per-user dir: lookups that are trust
/// boundaries rely on a `$HOME` file being unable to outrank the packaged one.
#[test]
fn system_data_dirs_excludes_the_user_tier() {
    let user = resolve(
        Some(PathBuf::from("/home/u/.local/share")),
        Some(PathBuf::from("/usr/share")),
        None,
        DATA_DIRS_DEFAULT,
    );
    let system = resolve(
        None,
        Some(PathBuf::from("/usr/share")),
        None,
        DATA_DIRS_DEFAULT,
    );
    assert!(user.contains(&PathBuf::from("/home/u/.local/share")));
    assert!(!system.contains(&PathBuf::from("/home/u/.local/share")));
}

#[test]
fn prefix_is_the_parent_of_bin() {
    assert_eq!(
        prefix_of(&PathBuf::from("/nix/store/abc123-icetron-app/bin/app")),
        Some(PathBuf::from("/nix/store/abc123-icetron-app"))
    );
    assert_eq!(
        prefix_of(&PathBuf::from("/usr/bin/app")),
        Some(PathBuf::from("/usr"))
    );
}

#[test]
fn prefix_is_none_outside_a_bin_dir() {
    // Build-tree layout: no prefix to derive.
    assert_eq!(prefix_of(&PathBuf::from("/src/app/target/debug/app")), None);
    assert_eq!(prefix_of(&PathBuf::from("app")), None);
}

#[test]
fn fedora_defaults_match_the_old_hardcoded_paths() {
    // Nothing but $HOME set.
    let dirs = resolve(
        home_dir(None, Some(os("/home/user")), ".local/share"),
        None,
        None,
        DATA_DIRS_DEFAULT,
    );
    assert_eq!(
        dirs,
        vec![
            PathBuf::from("/home/user/.local/share"),
            PathBuf::from("/usr/local/share"),
            PathBuf::from("/usr/share"),
        ]
    );
}

#[test]
fn fedora_install_prefix_does_not_duplicate_usr_share() {
    let dirs = resolve(
        home_dir(None, Some(os("/home/user")), ".local/share"),
        Some(PathBuf::from("/usr/share")),
        None,
        DATA_DIRS_DEFAULT,
    );
    assert_eq!(
        dirs.iter()
            .filter(|d| **d == PathBuf::from("/usr/share"))
            .count(),
        1
    );
}

#[test]
fn nixos_store_paths_resolve_from_xdg_data_dirs() {
    // NixOS never has /usr/share; profiles are surfaced via XDG_DATA_DIRS.
    let dirs = resolve(
        home_dir(None, Some(os("/home/user")), ".local/share"),
        Some(PathBuf::from("/nix/store/abc-app/share")),
        Some(os(
            "/run/current-system/sw/share:/home/user/.nix-profile/share",
        )),
        DATA_DIRS_DEFAULT,
    );
    assert_eq!(
        dirs,
        vec![
            PathBuf::from("/home/user/.local/share"),
            PathBuf::from("/nix/store/abc-app/share"),
            PathBuf::from("/run/current-system/sw/share"),
            PathBuf::from("/home/user/.nix-profile/share"),
        ]
    );
    assert!(!dirs.contains(&PathBuf::from("/usr/share")));
}

#[test]
fn nixos_bare_store_binary_still_finds_its_own_data() {
    // No env at all: the exe-relative prefix is the only thing that works.
    let dirs = resolve(
        None,
        Some(PathBuf::from("/nix/store/abc-app/share")),
        None,
        DATA_DIRS_DEFAULT,
    );
    assert_eq!(
        dirs.first(),
        Some(&PathBuf::from("/nix/store/abc-app/share"))
    );
}

#[test]
fn xdg_data_home_overrides_the_home_join() {
    assert_eq!(
        home_dir(
            Some(os("/home/user/.xdgdata")),
            Some(os("/home/user")),
            ".local/share"
        ),
        Some(PathBuf::from("/home/user/.xdgdata"))
    );
    assert_eq!(
        home_dir(Some(Vec::new()), Some(os("/home/user")), ".local/share"),
        Some(PathBuf::from("/home/user/.local/share"))
    );
    assert_eq!(home_dir(None, None, ".local/share"), None);
}

#[test]
fn config_defaults_to_etc_xdg_and_keeps_profile_entries() {
    assert_eq!(
        resolve(None, None, None, CONFIG_DIRS_DEFAULT),
        vec![PathBuf::from("/etc/xdg")]
    );
    assert_eq!(
        resolve(
            None,
            None,
            Some(os("/etc/xdg:/nix/store/abc-app/etc/xdg")),
            CONFIG_DIRS_DEFAULT
        ),
        vec![
            PathBuf::from("/etc/xdg"),
            PathBuf::from("/nix/store/abc-app/etc/xdg"),
        ]
    );
}

#[test]
fn empty_entries_are_dropped() {
    assert_eq!(
        resolve(None, None, Some(os("/a::/b:/a")), DATA_DIRS_DEFAULT),
        vec![PathBuf::from("/a"), PathBuf::from("/b")]
    );
}

#[test]
fn lists_of_a_full_environment() {
    let e = env(
        Some("/opt/app/bin/app"),
        &[
            ("HOME", "/home/u"),
            ("XDG_CONFIG_HOME", "/home/u/cfg"),
            ("XDG_DATA_DIRS", "/d1:/d2"),
            ("XDG_CONFIG_DIRS", "/c1"),
        ],
    );
    assert_eq!(install_prefix(&e).unwrap().bytes, os("/opt/app"));
    assert_eq!(data_home(&e).unwrap().bytes, os("/home/u/.local/share"));
    assert_eq!(config_home(&e).unwrap().bytes, os("/home/u/cfg"));
    assert_eq!(
        texts(&data_dirs(&e)),
        vec!["/home/u/.local/share", "/opt/app/share", "/d1", "/d2"]
    );
    assert_eq!(
        texts(&config_dirs(&e)),
        vec!["/home/u/cfg", "/opt/app/etc/xdg", "/c1"]
    );
    assert_eq!(
        texts(&system_data_dirs(&e)),
        vec!["/opt/app/share", "/d1", "/d2"]
    );
    assert_eq!(
        texts(&system_config_dirs(&e)),
        vec!["/opt/app/etc/xdg", "/c1"]
    );
    assert_eq!(
        texts(&data_subdirs(&e, "applications")),
        vec![
            "/home/u/.local/share/applications",
            "/opt/app/share/applications",
            "/d1/applications",
            "/d2/applications"
        ]
    );
    assert_eq!(
        texts(&config_subdirs(&e, "app")),
        vec!["/home/u/cfg/app", "/opt/app/etc/xdg/app", "/c1/app"]
    );
    assert_eq!(
        texts(&system_data_subdirs(&e, "app/allowed")),
        vec!["/opt/app/share/app/allowed", "/d1/app/allowed", "/d2/app/allowed"]
    );
}

#[test]
fn lists_of_an_empty_environment() {
    let e = env(None, &[]);
    assert_eq!(install_prefix(&e), None);
    assert_eq!(data_home(&e), None);
    assert_eq!(config_home(&e), None);
    assert_eq!(
        texts(&data_dirs(&e)),
        vec!["/usr/local/share", "/usr/share"]
    );
    assert_eq!(texts(&config_dirs(&e)), vec!["/etc/xdg"]);
    assert_eq!(texts(&system_data_dirs(&e)), texts(&data_dirs(&e)));
    assert_eq!(texts(&system_config_dirs(&e)), texts(&config_dirs(&e)));
}

#[test]
fn empty_variables_count_as_unset() {
    let e = env(
        None,
        &[
            ("HOME", ""),
            ("XDG_DATA_HOME", ""),
            ("XDG_DATA_DIRS", ""),
            ("XDG_CONFIG_DIRS", ""),
        ],
    );
    assert_eq!(data_home(&e), None);
    assert_eq!(
        texts(&data_dirs(&e)),
        vec!["/usr/local/share", "/usr/share"]
    );
    assert_eq!(texts(&config_dirs(&e)), vec!["/etc/xdg"]);
}

#[test]
fn user_variables_do_not_reach_the_system_layer() {
    let plain = env(Some("/usr/bin/app"), &[]);
    let hostile = env(
        Some("/usr/bin/app"),
        &[
            ("HOME", "/evil"),
            ("XDG_DATA_HOME", "/evil/data"),
            ("XDG_CONFIG_HOME", "/evil/config"),
        ],
    );
    assert_eq!(
        texts(&system_data_dirs(&hostile)),
        texts(&system_data_dirs(&plain))
    );
    assert_eq!(
        texts(&system_config_dirs(&hostile)),
        texts(&system_config_dirs(&plain))
    );
    assert_eq!(texts(&data_dirs(&hostile))[0], "/evil/data");
}

#[test]
fn a_user_install_shares_its_directory_with_the_system_layer() {
    // The prefix of an executable under `$HOME/.local/bin` is the user's own.
    let e = env(Some("/home/u/.local/bin/app"), &[("HOME", "/home/u")]);
    assert_eq!(
        texts(&data_dirs(&e)),
        vec!["/home/u/.local/share", "/usr/local/share", "/usr/share"]
    );
    assert_eq!(texts(&system_data_dirs(&e)), texts(&data_dirs(&e)));
}

#[test]
fn other_spellings_of_a_directory_are_duplicates() {
    let dirs = resolve(
        Some(PathBuf::from("/usr/share/")),
        Some(PathBuf::from("/usr//share")),
        Some(os("/usr/./share:/usr/share/.:/usr/share/..:share:./share")),
        DATA_DIRS_DEFAULT,
    );
    assert_eq!(
        texts(&dirs),
        vec!["/usr/share/", "/usr/share/..", "share", "./share"]
    );
}

#[test]
fn push_unique_drops_what_is_empty_or_there() {
    let mut dirs = vec![PathBuf::from("/a")];
    push_unique(&mut dirs, PathBuf::from(""));
    push_unique(&mut dirs, PathBuf::from("/a/"));
    push_unique(&mut dirs, PathBuf::from("/b"));
    assert_eq!(texts(&dirs), vec!["/a", "/b"]);
}

#[test]
fn the_first_of_two_variables_counts() {
    let e = env(None, &[("HOME", "/first"), ("HOME", "/second")]);
    assert_eq!(data_home(&e).unwrap().bytes, os("/first/.local/share"));
    assert_eq!(e.var("HOME"), Some(os("/first")));
    assert_eq!(e.var("HOM"), None);
}

#[test]
fn variables_need_not_be_text() {
    let mut e = env(None, &[]);
    e.vars.push(Var {
        name: os("XDG_DATA_HOME"),
        value: vec![0x2f, 0xff, 0xfe],
    });
    assert_eq!(data_home(&e).unwrap().bytes, vec![0x2f, 0xff, 0xfe]);
    assert_eq!(
        data_subdirs(&e, "x")[0].bytes,
        vec![0x2f, 0xff, 0xfe, 0x2f, 0x78]
    );
}

#[test]
fn prefix_of_unusual_executables() {
    let prefix = |s: &str| prefix_of(&PathBuf::from(s)).map(|p| texts(&[p])[0].clone());
    assert_eq!(prefix("/usr//bin///app"), Some("/usr".to_string()));
    assert_eq!(prefix("/usr/./bin/./app/"), Some("/usr".to_string()));
    assert_eq!(prefix("/bin/app"), Some("/".to_string()));
    assert_eq!(prefix("bin/app"), Some("".to_string()));
    assert_eq!(prefix("./bin/app"), Some(".".to_string()));
    assert_eq!(prefix("/usr/bin/.."), Some("/usr".to_string()));
    assert_eq!(prefix("../bin/app"), Some("..".to_string()));
    assert_eq!(prefix("/app"), None);
    assert_eq!(prefix("/usr/bin"), None);
    assert_eq!(prefix("/usr/sbin/app"), None);
    assert_eq!(prefix("/"), None);
    assert_eq!(prefix(""), None);
}

#[test]
fn merging_a_list_again_changes_nothing() {
    let once = resolve(
        Some(PathBuf::from("/h")),
        Some(PathBuf::from("/p/share")),
        Some(os("/a:/h/:/a//:/b:/p/./share")),
        DATA_DIRS_DEFAULT,
    );
    assert_eq!(texts(&once), vec!["/h", "/p/share", "/a", "/b"]);
    let twice = resolve(
        None,
        None,
        Some(os(&texts(&once).join(":"))),
        DATA_DIRS_DEFAULT,
    );
    assert_eq!(texts(&twice), texts(&once));
}

#[test]
fn less_specific_sources_only_add_at_the_end() {
    let short = resolve(Some(PathBuf::from("/h")), None, Some(os("/b:/a")), "");
    let long = resolve(Some(PathBuf::from("/h")), None, Some(os("/b:/a:/h:/c:/b")), "");
    assert_eq!(texts(&short), vec!["/h", "/b", "/a"]);
    assert_eq!(texts(&long), vec!["/h", "/b", "/a", "/c"]);
}

#[test]
fn the_full_list_is_the_user_directory_and_then_the_system_layer() {
    let e = env(
        Some("/opt/app/bin/app"),
        &[("XDG_DATA_HOME", "/d2"), ("XDG_DATA_DIRS", "/d1:/d2/:/d3")],
    );
    assert_eq!(
        texts(&system_data_dirs(&e)),
        vec!["/opt/app/share", "/d1", "/d2/", "/d3"]
    );
    assert_eq!(
        texts(&data_dirs(&e)),
        vec!["/d2", "/opt/app/share", "/d1", "/d3"]
    );
}

#[test]
fn every_install_finds_its_own_data_first() {
    for prefix in ["/", "/usr", "/nix/store/x-app", "rel", ".", "", "/opt/app/"] {
        let exe = PathBuf::from(prefix)
            .join("bin".as_bytes())
            .join("app".as_bytes());
        let e = Environment {
            exe: Some(exe),
            vars: Vec::new(),
        };
        let share = PathBuf::from(prefix).join("share".as_bytes());
        assert_eq!(system_data_dirs(&e)[0], share);
        let etc = PathBuf::from(prefix).join("etc/xdg".as_bytes());
        assert_eq!(system_config_dirs(&e)[0], etc);
    }
}

#[test]
fn subdirectories_stay_below_their_roots_and_apart() {
    let e = env(None, &[("XDG_DATA_DIRS", "/a:/b/:c:/a/b")]);
    assert_eq!(
        texts(&system_data_subdirs(&e, "./x/../y")),
        vec!["/a/./x/../y", "/b/./x/../y", "c/./x/../y", "/a/b/./x/../y"]
    );
    assert_eq!(
        texts(&system_data_subdirs(&e, "")),
        vec!["/a/", "/b/", "c/", "/a/b/"]
    );
    // An absolute path takes the place of every root.
    assert_eq!(
        texts(&system_data_subdirs(&e, "/z")),
        vec!["/z", "/z", "/z", "/z"]
    );
}
