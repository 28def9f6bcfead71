//! Paths behave as those of the standard library do on Unix.
use icetron_paths::bytes::split_on;
use icetron_paths::PathBuf;

const SAMPLES: [&str; 40] = [
    "",
    "/",
    "//",
    "///",
    ".",
    "./",
    ".//",
    "./.",
    "..",
    "../",
    "../..",
    "/.",
    "/./",
    "/..",
    "/../a",
    "a",
    "a/",
    "a//",
    "a/.",
    "a/./",
    "a/..",
    "a/b",
    "a//b",
    "a/./b",
    "a/.b",
    "a/b.",
    "./a",
    ".//a",
    "././a",
    ".a",
    "..a",
    "/a",
    "//a",
    "///a",
    "/a/b/c",
    "/a//b/./c//",
    "/usr/bin/app",
    "/usr//bin/./app/.",
    "bin/app",
    "...",
];

fn text(path: &PathBuf) -> String {
    String::from_utf8(path.bytes.clone()).unwrap()
}

#[test]
fn parents_are_those_of_the_standard_library() {
    for s in SAMPLES {
        let ours = PathBuf::from(s).parent().map(|p| text(&p));
        let theirs = std::path::Path::new(s)
            .parent()
            .map(|p| p.to_str().unwrap().to_string());
        assert_eq!(ours, theirs, "parent of {:?}", s);
    }
}

#[test]
fn file_names_are_those_of_the_standard_library() {
    for s in SAMPLES {
        let path = PathBuf::from(s);
        let ours = path
            .file_name()
            .map(|n| String::from_utf8(n.to_vec()).unwrap());
        let theirs = std::path::Path::new(s)
            .file_name()
            .map(|n| n.to_str().unwrap().to_string());
        assert_eq!(ours, theirs, "file name of {:?}", s);
    }
}

#[test]
fn joins_and_equality_are_those_of_the_standard_library() {
    for a in SAMPLES {
        for b in SAMPLES {
            let joined = PathBuf::from(a).join(b.as_bytes());
            assert_eq!(
                text(&joined),
                std::path::Path::new(a).join(b).to_str().unwrap(),
                "join of {:?} and {:?}",
                a,
                b
            );
            assert_eq!(
                PathBuf::from(a) == PathBuf::from(b),
                std::path::Path::new(a) == std::path::Path::new(b),
                "equality of {:?} and {:?}",
                a,
                b
            );
        }
    }
}

#[test]
fn absolute_paths_are_those_of_the_standard_library() {
    for s in SAMPLES {
        assert_eq!(
            PathBuf::from(s).is_absolute(),
            std::path::Path::new(s).is_absolute()
        );
        assert_eq!(PathBuf::from(s).is_empty(), s.is_empty());
    }
}

#[test]
fn short_paths_are_treated_as_the_standard_library_treats_them() {
    // Every path of up to six bytes over a small alphabet.
    let alphabet = ['/', '.', 'a'];
    let mut level: Vec<String> = vec![String::new()];
    for _ in 0..6 {
        let mut next = Vec::new();
        for s in &level {
            for c in alphabet {
                let mut t = s.clone();
                t.push(c);
                let path = PathBuf::from(t.as_str());
                let std_path = std::path::Path::new(&t);
                assert_eq!(
                    path.parent().map(|p| text(&p)),
                    std_path.parent().map(|p| p.to_str().unwrap().to_string())
                );
                assert_eq!(
                    path.file_name().map(|n| n.to_vec()),
                    std_path
                        .file_name()
                        .map(|n| n.to_str().unwrap().as_bytes().to_vec())
                );
                for u in SAMPLES {
                    assert_eq!(
                        path == PathBuf::from(u),
                        std_path == std::path::Path::new(u)
                    );
                }
                next.push(t);
            }
        }
        level = next;
    }
}

#[test]
fn paths_need_not_be_text() {
    let path = PathBuf::from_bytes(&[0x2f, 0xff, 0x2f, 0xfe]);
    assert_eq!(path.parent().unwrap().bytes, vec![0x2f, 0xff]);
    assert_eq!(path.file_name(), Some(&[0xfe][..]));
    assert_eq!(path.clone().bytes, path.bytes);
}

#[test]
fn splitting_keeps_empty_pieces() {
    let colon = ':' as u8;
    assert_eq!(split_on(b"", colon), vec![b"".as_slice()]);
    assert_eq!(
        split_on(b":a::b:", colon),
        vec![
            b"".as_slice(),
            b"a".as_slice(),
            b"".as_slice(),
            b"b".as_slice(),
            b"".as_slice()
        ]
    );
}

#[test]
fn the_parent_of_a_joined_name_is_the_directory() {
    for s in SAMPLES {
        let joined = PathBuf::from(s).join("name".as_bytes());
        assert_eq!(joined.parent(), Some(PathBuf::from(s)));
        assert_eq!(joined.file_name(), Some("name".as_bytes()));
    }
}

#[test]
fn which_path_a_join_is_does_not_depend_on_spelling() {
    for a in SAMPLES {
        for b in SAMPLES {
            if PathBuf::from(a) == PathBuf::from(b) {
                for c in SAMPLES {
                    assert_eq!(
                        PathBuf::from(a).join(c.as_bytes()),
                        PathBuf::from(b).join(c.as_bytes())
                    );
                    assert_eq!(
                        PathBuf::from(c).join(a.as_bytes()),
                        PathBuf::from(c).join(b.as_bytes())
                    );
                }
            }
        }
    }
}
