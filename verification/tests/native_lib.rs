//! The bundled-native-library lookup, which has to work on an FHS distribution and on one
//! where nothing lives under `/usr` at all.
use icetron_paths::{
    ensure_cef_path, find_cef_dir, find_library, library_candidates, CefSearch, Environment,
    PathBuf, Var, CEF_LIB, CEF_LIB_MACOS, CEF_LIB_WINDOWS,
};

fn os(s: &str) -> Vec<u8> {
    s.as_bytes().to_vec()
}

fn text(path: &PathBuf) -> String {
    String::from_utf8(path.bytes.clone()).unwrap()
}

fn texts(dirs: &[PathBuf]) -> Vec<String> {
    dirs.iter().map(text).collect()
}

fn env(exe: Option<&str>, vars: &[(&str, &str)]) -> Environment {
    Environment {
        exe: exe.map(PathBuf::from),
        vars: vars
            .iter()
            .map(|(name, value)| Var {
                name: os(name),
                value: os(value),
            })
            .collect(),
    }
}

/// Predicate over a fixed set of paths, so the search is tested against a known layout rather
/// than whatever the host has installed.
fn present(dirs: &'static [&'static str]) -> impl Fn(&PathBuf) -> bool {
    move |path: &PathBuf| dirs.iter().any(|d| PathBuf::from(*d) == *path)
}

fn search(exe: &str) -> CefSearch {
    CefSearch {
        exe: Some(PathBuf::from(exe)),
        ..CefSearch::default()
    }
}

/// FHS: the prefix candidate and the XDG default both land on the directory the `cef-libs`
/// package installs into, so behaviour there is exactly what it was.
#[test]
fn fhs_resolves_to_the_usual_cef_dir() {
    let found = search("/usr/bin/app").find_with(&present(&["/usr/lib/cef"]));
    assert_eq!(found, Some(PathBuf::from("/usr/lib/cef")));
}

/// A relocated install with CEF in its own tree resolves with no environment at all.
#[test]
fn store_prefix_resolves_without_env() {
    let found =
        search("/nix/store/abc-app/bin/app").find_with(&present(&["/nix/store/abc-app/lib/cef"]));
    assert_eq!(found, Some(PathBuf::from("/nix/store/abc-app/lib/cef")));
}

/// CEF packaged separately, reachable only through `XDG_DATA_DIRS`.
#[test]
fn cef_in_its_own_prefix_via_xdg_data_dirs() {
    let s = CefSearch {
        exe: Some(PathBuf::from("/nix/store/abc-app/bin/app")),
        xdg_data_dirs: Some(os("/nix/store/xyz-cef/share:/run/current-system/sw/share")),
        ..CefSearch::default()
    };
    assert_eq!(
        s.find_with(&present(&["/nix/store/xyz-cef/lib/cef"])),
        Some(PathBuf::from("/nix/store/xyz-cef/lib/cef"))
    );
}

#[test]
fn ld_library_path_is_searched() {
    let s = CefSearch {
        exe: Some(PathBuf::from("/usr/bin/app")),
        ld_library_path: Some(os("/build/cef")),
        ..CefSearch::default()
    };
    assert_eq!(
        s.find_with(&present(&["/build/cef"])),
        Some(PathBuf::from("/build/cef"))
    );
}

#[test]
fn explicit_cef_path_outranks_everything() {
    let s = CefSearch {
        exe: Some(PathBuf::from("/usr/bin/app")),
        cef_path: Some(os("/opt/my-cef")),
        ld_library_path: Some(os("/build/cef")),
        ..CefSearch::default()
    };
    assert_eq!(s.candidates().first(), Some(&PathBuf::from("/opt/my-cef")));
}

/// A `CEF_PATH` pointing at nothing must not veto the search: failing to start the webview
/// over a stale override is worse than falling through to a working directory.
#[test]
fn stale_cef_path_falls_through() {
    let s = CefSearch {
        exe: Some(PathBuf::from("/usr/bin/app")),
        cef_path: Some(os("/gone/cef")),
        ..CefSearch::default()
    };
    assert_eq!(
        s.find_with(&present(&["/usr/lib/cef"])),
        Some(PathBuf::from("/usr/lib/cef"))
    );
}

/// The FHS dir is reachable three ways; it must be probed once, at its highest position.
#[test]
fn duplicate_candidates_collapse() {
    let s = CefSearch {
        exe: Some(PathBuf::from("/usr/bin/app")),
        cef_path: Some(os("/usr/lib/cef")),
        ..CefSearch::default()
    };
    let dirs = s.candidates();
    assert_eq!(
        dirs.iter()
            .filter(|d| *d == &PathBuf::from("/usr/lib/cef"))
            .count(),
        1
    );
    assert_eq!(dirs.first(), Some(&PathBuf::from("/usr/lib/cef")));
}

/// Nothing found must be distinguishable, so a build-tree binary can keep its own copy.
#[test]
fn nothing_found_is_none() {
    assert_eq!(search("/usr/bin/app").find_with(&present(&[])), None);
}

#[test]
fn library_override_accepts_a_file_or_a_directory() {
    let name = os("libpdfium.so");

    let as_dir = os("/opt/pdfium");
    assert_eq!(
        library_candidates(&name, Some(&as_dir), None).first(),
        Some(&PathBuf::from("/opt/pdfium/libpdfium.so"))
    );

    let as_file = os("/opt/pdfium/libpdfium.so");
    assert_eq!(
        library_candidates(&name, Some(&as_file), None).first(),
        Some(&PathBuf::from("/opt/pdfium/libpdfium.so"))
    );
}

/// Fedora ships pdfium in `/usr/lib64`, Debian and Nix in `lib`. Both are probed.
#[test]
fn library_candidates_cover_both_lib_subdirs() {
    let name = os("libpdfium.so");
    let dirs = library_candidates(&name, None, Some(&PathBuf::from("/usr/bin/viewer")));
    assert_eq!(
        dirs,
        vec![
            PathBuf::from("./libpdfium.so"),
            PathBuf::from("/usr/lib/libpdfium.so"),
            PathBuf::from("/usr/lib64/libpdfium.so"),
        ]
    );
}

/// A build-tree binary has no sibling `lib/`, so only the working directory is probed.
#[test]
fn build_tree_binary_has_no_prefix_candidates() {
    let name = os("libpdfium.so");
    let dirs = library_candidates(
        &name,
        None,
        Some(&PathBuf::from("/home/dev/target/debug/app")),
    );
    assert_eq!(dirs, vec![PathBuf::from("./libpdfium.so")]);
}

#[test]
fn candidates_in_order() {
    let s = CefSearch {
        exe: Some(PathBuf::from("/opt/app/bin/app")),
        cef_path: Some(os("/explicit/")),
        xdg_data_dirs: Some(os("/nix/cef/share:relative/share:/:/share::/explicit/x")),
        ld_library_path: Some(os("/ld1::ld2:/opt/app/lib//cef")),
    };
    assert_eq!(
        texts(&s.candidates()),
        vec![
            "/explicit/",
            "/opt/app/lib/cef",
            "/nix/cef/lib/cef",
            "/lib/cef",
            "/explicit/lib/cef",
            "/ld1",
            "ld2",
            "/usr/lib/cef",
        ]
    );
    assert_eq!(texts(&s.clone().candidates()), texts(&s.candidates()));
}

#[test]
fn candidates_of_an_empty_search() {
    assert_eq!(
        texts(&CefSearch::default().candidates()),
        vec!["/usr/local/lib/cef", "/usr/lib/cef"]
    );
    let empty = CefSearch {
        exe: None,
        cef_path: Some(Vec::new()),
        xdg_data_dirs: Some(Vec::new()),
        ld_library_path: Some(Vec::new()),
    };
    assert_eq!(
        texts(&empty.candidates()),
        vec!["/usr/local/lib/cef", "/usr/lib/cef"]
    );
}

#[test]
fn search_inputs_come_from_their_variables() {
    let e = env(
        Some("/usr/bin/app"),
        &[
            ("CEF_PATH", "/c"),
            ("XDG_DATA_DIRS", "/d/share"),
            ("LD_LIBRARY_PATH", "/l"),
        ],
    );
    let s = CefSearch::from_env(&e);
    assert_eq!(s.exe, Some(PathBuf::from("/usr/bin/app")));
    assert_eq!(s.cef_path, Some(os("/c")));
    assert_eq!(s.xdg_data_dirs, Some(os("/d/share")));
    assert_eq!(s.ld_library_path, Some(os("/l")));
    let none = CefSearch::from_env(&env(None, &[]));
    assert_eq!(none.exe, None);
    assert_eq!(none.cef_path, None);
    assert_eq!(none.xdg_data_dirs, None);
    assert_eq!(none.ld_library_path, None);
}

#[test]
fn a_distribution_is_told_by_its_library_file() {
    let s = search("/usr/bin/app");
    assert_eq!(
        s.find(CEF_LIB, &present(&["/usr/local/lib/cef/libcef.so"])),
        Some(PathBuf::from("/usr/local/lib/cef"))
    );
    assert_eq!(s.find(CEF_LIB, &present(&["/usr/local/lib/cef"])), None);
    assert_eq!(
        s.find(
            CEF_LIB_MACOS,
            &present(&["/usr/lib/cef/Chromium Embedded Framework"])
        ),
        Some(PathBuf::from("/usr/lib/cef"))
    );
    assert_eq!(
        s.find(CEF_LIB_WINDOWS, &present(&["/usr/lib/cef/libcef.dll"])),
        Some(PathBuf::from("/usr/lib/cef"))
    );
    let e = env(Some("/opt/app/bin/app"), &[]);
    assert_eq!(
        find_cef_dir(&e, CEF_LIB, &present(&["/opt/app/lib/cef/libcef.so"])),
        Some(PathBuf::from("/opt/app/lib/cef"))
    );
    assert_eq!(find_cef_dir(&e, CEF_LIB, &present(&[])), None);
}

#[test]
fn a_valid_cef_path_is_left_untouched() {
    let e = env(Some("/usr/bin/app"), &[("CEF_PATH", "/opt//cef/")]);
    let found = ensure_cef_path(
        &e,
        CEF_LIB,
        &present(&["/opt/cef/libcef.so", "/usr/lib/cef/libcef.so"]),
    )
    .unwrap();
    assert_eq!(text(&found.dir), "/opt//cef/");
    assert!(!found.export);
}

#[test]
fn a_stale_or_missing_cef_path_is_exported() {
    let layout = present(&["/usr/lib/cef/libcef.so"]);
    let stale = env(Some("/usr/bin/app"), &[("CEF_PATH", "/gone")]);
    let found = ensure_cef_path(&stale, CEF_LIB, &layout).unwrap();
    assert_eq!(text(&found.dir), "/usr/lib/cef");
    assert!(found.export);
    let missing = env(Some("/usr/bin/app"), &[]);
    let found = ensure_cef_path(&missing, CEF_LIB, &layout).unwrap();
    assert_eq!(text(&found.dir), "/usr/lib/cef");
    assert!(found.export);
}

#[test]
fn nothing_found_exports_nothing() {
    let e = env(Some("/usr/bin/app"), &[("CEF_PATH", "/gone")]);
    assert!(ensure_cef_path(&e, CEF_LIB, &present(&[])).is_none());
}

#[test]
fn an_install_is_found_in_the_fhs_location_from_anywhere() {
    let layout = present(&["/usr/lib/cef/libcef.so"]);
    for exe in ["/opt/x/bin/app", "/home/dev/target/debug/app", "app"] {
        let e = env(Some(exe), &[("XDG_DATA_DIRS", "/nix/share")]);
        assert_eq!(
            find_cef_dir(&e, CEF_LIB, &layout),
            Some(PathBuf::from("/usr/lib/cef"))
        );
    }
}

#[test]
fn an_empty_override_counts_as_none() {
    let name = os("libpdfium.so");
    assert_eq!(
        texts(&library_candidates(&name, Some(&os("")), None)),
        vec!["./libpdfium.so"]
    );
}

#[test]
fn an_override_in_the_working_directory_is_tried_once() {
    let name = os("libpdfium.so");
    assert_eq!(
        texts(&library_candidates(&name, Some(&os(".//libpdfium.so")), None)),
        vec![".//libpdfium.so"]
    );
    assert_eq!(
        texts(&library_candidates(&name, Some(&os("libpdfium.so")), None)),
        vec!["libpdfium.so", "./libpdfium.so"]
    );
}

#[test]
fn a_library_is_the_first_that_exists() {
    let name = os("libpdfium.so");
    let e = env(
        Some("/usr/bin/viewer"),
        &[("PDFIUM_LIB_PATH", "/opt/pdfium")],
    );
    let both = present(&["/opt/pdfium/libpdfium.so", "/usr/lib64/libpdfium.so"]);
    assert_eq!(
        find_library(&e, &name, "PDFIUM_LIB_PATH", &both),
        Some(PathBuf::from("/opt/pdfium/libpdfium.so"))
    );
    assert_eq!(
        find_library(&e, &name, "OTHER_VARIABLE", &both),
        Some(PathBuf::from("/usr/lib64/libpdfium.so"))
    );
    assert_eq!(
        find_library(&e, &name, "PDFIUM_LIB_PATH", &present(&[])),
        None
    );
}

#[test]
fn every_candidate_for_a_library_bears_its_name() {
    let name = os("libpdfium.so");
    let exe = PathBuf::from("/usr/bin/viewer");
    for over in ["", "/opt", "/opt/libpdfium.so", "rel/", "..", "/"] {
        for candidate in library_candidates(&name, Some(&os(over)), Some(&exe)) {
            assert_eq!(candidate.file_name(), Some(name.as_slice()));
        }
    }
}

#[test]
fn a_stale_cef_path_is_as_good_as_none() {
    let layout = present(&["/build/cef", "/usr/lib/cef"]);
    let without = CefSearch {
        exe: Some(PathBuf::from("/opt/app/bin/app")),
        ld_library_path: Some(os("/build/cef")),
        ..CefSearch::default()
    };
    let with = CefSearch {
        cef_path: Some(os("/opt/app/lib/cef/")),
        ..without.clone()
    };
    assert_eq!(with.find_with(&layout), without.find_with(&layout));
    assert_eq!(
        with.find_with(&layout),
        Some(PathBuf::from("/usr/lib/cef"))
    );
}

#[test]
fn an_exported_path_is_found_again() {
    let layout = present(&["/build/cef/libcef.so", "/usr/lib/cef/libcef.so"]);
    let before = env(
        Some("/opt/app/bin/app"),
        &[("LD_LIBRARY_PATH", "/build//cef"), ("XDG_DATA_DIRS", "/x/share")],
    );
    let first = ensure_cef_path(&before, CEF_LIB, &layout).unwrap();
    assert_eq!(text(&first.dir), "/build//cef");
    assert!(first.export);
    let after = env(
        Some("/opt/app/bin/app"),
        &[
            ("LD_LIBRARY_PATH", "/build//cef"),
            ("XDG_DATA_DIRS", "/x/share"),
            ("CEF_PATH", "/build//cef"),
        ],
    );
    let second = ensure_cef_path(&after, CEF_LIB, &layout).unwrap();
    assert_eq!(text(&second.dir), "/build//cef");
    assert!(!second.export);
}
