//! What the lookups promise their callers, from what goes in to what comes out.
//!
//! Every law here speaks of the values that a function may return, by `call_ensures`, and says
//! what holds of them in terms of bytes, components, the variables of an environment and the
//! results of other functions.
use crate::bytes;
use crate::cef;
use crate::cef::CefLocation;
use crate::cef::CefSearch;
use crate::environment::Environment;
use crate::library;
use crate::path;
use crate::pathbuf;
use crate::pathbuf::PathBuf;
use crate::prefix;
use crate::probe;
use crate::search;
use crate::xdg;
use vstd::prelude::*;

verus! {

/// A source that is not empty is in the search list under some spelling.
proof fn lemma_source_is_found(list: Seq<Seq<u8>>, dir: Seq<u8>)
    requires
        list.contains(dir),
        dir.len() > 0,
    ensures
        search::has_path(search::unique_dirs(list), dir),
{
    search::lemma_unique_dirs(list);
    let k = choose|k: int| 0 <= k < list.len() && list[k] == dir;
    assert(search::has_path(search::unique_dirs(list), list[k]));
}

/// The install prefix is that of the executable, and depends on nothing else.
pub proof fn law_install_prefix(env: Environment, r: Option<PathBuf>)
    requires
        call_ensures(xdg::install_prefix, (&env,), r),
    ensures
        env.exe is None ==> r is None,
        env.exe matches Some(e) ==> (r is Some == prefix::prefix_above_bin(e.bytes@) is Some),
        r matches Some(p) ==> Some(p.bytes@) == prefix::prefix_above_bin(env.exe->0.bytes@),
{
    bytes::lemma_opt_view(r);
}

/// A prefix is what stands before `bin` and the last component of an executable.
pub proof fn law_prefix_of(exe: PathBuf, r: Option<PathBuf>)
    requires
        call_ensures(prefix::prefix_of, (&exe,), r),
    ensures
        ({
            let c = path::components(exe.bytes@);
            &&& r is Some == (c.len() >= 2 && c[c.len() - 2] == path::Component::Normal(
                seq![0x62u8, 0x69, 0x6e],
            ))
            &&& r matches Some(p) ==> {
                &&& path::components(p.bytes@) == c.take(c.len() - 2)
                &&& p.bytes@ == exe.bytes@.take(p.bytes@.len() as int)
                &&& forall|n: int|
                    0 <= n < p.bytes@.len() ==> path::components(#[trigger] exe.bytes@.take(n))
                        != c.take(c.len() - 2)
            }
        }),
{
    prefix::lemma_prefix(exe.bytes@);
}

/// The per-user data directory is `XDG_DATA_HOME` as it is written, where that is set and not
/// empty; else `.local/share` below `HOME`, where that is set and not empty; else there is none.
pub proof fn law_data_home(env: Environment, r: Option<PathBuf>)
    requires
        call_ensures(xdg::data_home, (&env,), r),
    ensures
        ({
            let xdg_home = env@.var("XDG_DATA_HOME");
            let home = env@.var("HOME");
            let below = seq![
                0x2eu8,
                0x6c,
                0x6f,
                0x63,
                0x61,
                0x6c,
                0x2f,
                0x73,
                0x68,
                0x61,
                0x72,
                0x65,
            ];
            &&& xdg_home is Some && xdg_home->0.len() > 0 ==> r is Some && r->0.bytes@
                == xdg_home->0
            &&& !(xdg_home is Some && xdg_home->0.len() > 0) && home is Some && home->0.len() > 0
                ==> {
                &&& r is Some
                &&& r->0.bytes@ == (if home->0.last() == 0x2f {
                    home->0 + below
                } else {
                    home->0 + seq![0x2fu8] + below
                })
                &&& path::components(r->0.bytes@) == path::components(home->0) + seq![
                    path::Component::Normal(seq![0x2eu8, 0x6c, 0x6f, 0x63, 0x61, 0x6c]),
                    path::Component::Normal(seq![0x73u8, 0x68, 0x61, 0x72, 0x65]),
                ]
            }
            &&& !(xdg_home is Some && xdg_home->0.len() > 0) && !(home is Some && home->0.len()
                > 0) ==> r is None
        }),
{
    let below = bytes::utf8(".local/share");
    let local = seq![0x2eu8, 0x6c, 0x6f, 0x63, 0x61, 0x6c];
    let share = seq![0x73u8, 0x68, 0x61, 0x72, 0x65];
    bytes::lemma_opt_view(r);
    reveal_strlit(".local/share");
    bytes::lemma_ascii(".local/share");
    assert(below =~= seq![
        0x2eu8,
        0x6c,
        0x6f,
        0x63,
        0x61,
        0x6c,
        0x2f,
        0x73,
        0x68,
        0x61,
        0x72,
        0x65,
    ]);
    assert(below =~= local.push(0x2f) + share);
    assert(path::is_plain_name(local));
    assert(path::is_plain_name(share));
    path::lemma_plain_name(local);
    path::lemma_components_step(local, share);
    if env@.var("HOME") is Some {
        let home = env@.var("HOME")->0;
        path::lemma_join_bytes(home, below);
        path::lemma_join_components(home, below);
        assert(path::components(home) + path::without_leading_dot(path::components(below))
            =~= path::components(home) + seq![
            path::Component::Normal(local),
            path::Component::Normal(share),
        ]);
    }
}

/// The per-user config directory is `XDG_CONFIG_HOME` as it is written, where that is set and not
/// empty; else `.config` below `HOME`, where that is set and not empty; else there is none.
pub proof fn law_config_home(env: Environment, r: Option<PathBuf>)
    requires
        call_ensures(xdg::config_home, (&env,), r),
    ensures
        ({
            let xdg_home = env@.var("XDG_CONFIG_HOME");
            let home = env@.var("HOME");
            let below = seq![0x2eu8, 0x63, 0x6f, 0x6e, 0x66, 0x69, 0x67];
            &&& xdg_home is Some && xdg_home->0.len() > 0 ==> r is Some && r->0.bytes@
                == xdg_home->0
            &&& !(xdg_home is Some && xdg_home->0.len() > 0) && home is Some && home->0.len() > 0
                ==> {
                &&& r is Some
                &&& r->0.bytes@ == (if home->0.last() == 0x2f {
                    home->0 + below
                } else {
                    home->0 + seq![0x2fu8] + below
                })
                &&& path::components(r->0.bytes@) == path::components(home->0).push(
                    path::Component::Normal(below),
                )
            }
            &&& !(xdg_home is Some && xdg_home->0.len() > 0) && !(home is Some && home->0.len()
                > 0) ==> r is None
        }),
{
    let below = bytes::utf8(".config");
    bytes::lemma_opt_view(r);
    reveal_strlit(".config");
    bytes::lemma_ascii(".config");
    assert(below =~= seq![0x2eu8, 0x63, 0x6f, 0x6e, 0x66, 0x69, 0x67]);
    assert(path::is_plain_name(below));
    if env@.var("HOME") is Some {
        path::lemma_join_bytes(env@.var("HOME")->0, below);
        path::lemma_join_plain_name(env@.var("HOME")->0, below);
    }
}

/// The system data list is `<prefix>/share`, where there is a prefix, and then every directory of
/// the list in `XDG_DATA_DIRS`, or in the default where that is unset or empty.
pub proof fn law_system_data_dirs(
    env: Environment,
    r: Vec<PathBuf>,
    prefix: Option<PathBuf>,
    entries: Seq<Seq<u8>>,
)
    requires
        call_ensures(xdg::system_data_dirs, (&env,), r),
        call_ensures(xdg::install_prefix, (&env,), prefix),
        entries.len() > 0,
        forall|i: int, j: int|
            0 <= i < entries.len() && 0 <= j < entries[i].len() ==> #[trigger] entries[i][j]
                != 0x3a,
        bytes::joined(entries, 0x3a) == (if env@.var("XDG_DATA_DIRS") is Some && env@.var(
            "XDG_DATA_DIRS",
        )->0.len() > 0 {
            env@.var("XDG_DATA_DIRS")->0
        } else {
            bytes::utf8("/usr/local/share:/usr/share")
        }),
    ensures
        prefix is None ==> pathbuf::path_views(r@) == search::unique_dirs(entries),
        prefix matches Some(p) ==> pathbuf::path_views(r@) == search::unique_dirs(
            seq![path::join(p.bytes@, bytes::utf8("share"))] + entries,
        ),
{
    bytes::lemma_joined(entries, 0x3a);
    let none: Seq<Seq<u8>> = Seq::empty();
    assert(none + none + entries =~= entries);
    match prefix {
        Some(p) => {
            let d = path::join(p.bytes@, bytes::utf8("share"));
            assert(none + seq![d] + entries =~= seq![d] + entries);
        },
        None => {},
    }
}

/// The system config list is `<prefix>/etc/xdg`, where there is a prefix, and then every directory
/// of the list in `XDG_CONFIG_DIRS`, or in the default where that is unset or empty.
pub proof fn law_system_config_dirs(
    env: Environment,
    r: Vec<PathBuf>,
    prefix: Option<PathBuf>,
    entries: Seq<Seq<u8>>,
)
    requires
        call_ensures(xdg::system_config_dirs, (&env,), r),
        call_ensures(xdg::install_prefix, (&env,), prefix),
        entries.len() > 0,
        forall|i: int, j: int|
            0 <= i < entries.len() && 0 <= j < entries[i].len() ==> #[trigger] entries[i][j]
                != 0x3a,
        bytes::joined(entries, 0x3a) == (if env@.var("XDG_CONFIG_DIRS") is Some && env@.var(
            "XDG_CONFIG_DIRS",
        )->0.len() > 0 {
            env@.var("XDG_CONFIG_DIRS")->0
        } else {
            bytes::utf8("/etc/xdg")
        }),
    ensures
        prefix is None ==> pathbuf::path_views(r@) == search::unique_dirs(entries),
        prefix matches Some(p) ==> pathbuf::path_views(r@) == search::unique_dirs(
            seq![path::join(p.bytes@, bytes::utf8("etc/xdg"))] + entries,
        ),
{
    bytes::lemma_joined(entries, 0x3a);
    let none: Seq<Seq<u8>> = Seq::empty();
    assert(none + none + entries =~= entries);
    match prefix {
        Some(p) => {
            let d = path::join(p.bytes@, bytes::utf8("etc/xdg"));
            assert(none + seq![d] + entries =~= seq![d] + entries);
        },
        None => {},
    }
}

/// The data list is the per-user directory, where there is one, and then the system list without
/// other spellings of it.
pub proof fn law_data_dirs(
    env: Environment,
    r: Vec<PathBuf>,
    home: Option<PathBuf>,
    system: Vec<PathBuf>,
)
    requires
        call_ensures(xdg::data_dirs, (&env,), r),
        call_ensures(xdg::data_home, (&env,), home),
        call_ensures(xdg::system_data_dirs, (&env,), system),
    ensures
        home is None ==> pathbuf::path_views(r@) == pathbuf::path_views(system@),
        home matches Some(h) ==> pathbuf::path_views(r@) == seq![h.bytes@]
            + pathbuf::path_views(system@).filter(|d: Seq<u8>| !path::same_path(d, h.bytes@)),
{
    xdg::lemma_user_dir_then_system_layer(env@);
}

/// The config list is the per-user directory, where there is one, and then the system list without
/// other spellings of it.
pub proof fn law_config_dirs(
    env: Environment,
    r: Vec<PathBuf>,
    home: Option<PathBuf>,
    system: Vec<PathBuf>,
)
    requires
        call_ensures(xdg::config_dirs, (&env,), r),
        call_ensures(xdg::config_home, (&env,), home),
        call_ensures(xdg::system_config_dirs, (&env,), system),
    ensures
        home is None ==> pathbuf::path_views(r@) == pathbuf::path_views(system@),
        home matches Some(h) ==> pathbuf::path_views(r@) == seq![h.bytes@]
            + pathbuf::path_views(system@).filter(|d: Seq<u8>| !path::same_path(d, h.bytes@)),
{
    xdg::lemma_user_dir_then_system_layer(env@);
}

/// The directories with `sub` appended are the directories of the list, one for one and in order,
/// each joined with `sub`.
pub proof fn law_subdirs(
    env: Environment,
    sub: &str,
    data: Vec<PathBuf>,
    data_sub: Vec<PathBuf>,
    config: Vec<PathBuf>,
    config_sub: Vec<PathBuf>,
    system: Vec<PathBuf>,
    system_sub: Vec<PathBuf>,
)
    requires
        call_ensures(xdg::data_dirs, (&env,), data),
        call_ensures(xdg::data_subdirs, (&env, sub), data_sub),
        call_ensures(xdg::config_dirs, (&env,), config),
        call_ensures(xdg::config_subdirs, (&env, sub), config_sub),
        call_ensures(xdg::system_data_dirs, (&env,), system),
        call_ensures(xdg::system_data_subdirs, (&env, sub), system_sub),
    ensures
        data_sub.len() == data.len(),
        forall|i: int|
            0 <= i < data.len() ==> (#[trigger] data_sub@[i]).bytes@ == path::join(
                data@[i].bytes@,
                vstd::utf8::encode_utf8(sub@),
            ),
        config_sub.len() == config.len(),
        forall|i: int|
            0 <= i < config.len() ==> (#[trigger] config_sub@[i]).bytes@ == path::join(
                config@[i].bytes@,
                vstd::utf8::encode_utf8(sub@),
            ),
        system_sub.len() == system.len(),
        forall|i: int|
            0 <= i < system.len() ==> (#[trigger] system_sub@[i]).bytes@ == path::join(
                system@[i].bytes@,
                vstd::utf8::encode_utf8(sub@),
            ),
{
    lemma_with_sub_views(data@, data_sub@, bytes::utf8(sub));
    lemma_with_sub_views(config@, config_sub@, bytes::utf8(sub));
    lemma_with_sub_views(system@, system_sub@, bytes::utf8(sub));
}

/// A list with `sub` appended, path by path.
proof fn lemma_with_sub_views(dirs: Seq<PathBuf>, subs: Seq<PathBuf>, sub: Seq<u8>)
    requires
        pathbuf::path_views(subs) == search::with_sub(pathbuf::path_views(dirs), sub),
    ensures
        subs.len() == dirs.len(),
        forall|i: int|
            0 <= i < dirs.len() ==> (#[trigger] subs[i]).bytes@ == path::join(dirs[i].bytes@, sub),
{
    pathbuf::lemma_path_views(subs);
    pathbuf::lemma_path_views(dirs);
    assert forall|i: int| 0 <= i < dirs.len() implies (#[trigger] subs[i]).bytes@ == path::join(
        dirs[i].bytes@,
        sub,
    ) by {
        assert(pathbuf::path_views(subs)[i] == path::join(pathbuf::path_views(dirs)[i], sub));
    }
}

/// Where `XDG_DATA_DIRS` is unset or empty, whatever the executable and the other variables are,
/// `/usr/local/share` and `/usr/share` are searched, in that order behind `<prefix>/share`.
pub proof fn law_default_data_dirs(
    env: Environment,
    all: Vec<PathBuf>,
    system: Vec<PathBuf>,
    prefix: Option<PathBuf>,
)
    requires
        call_ensures(xdg::data_dirs, (&env,), all),
        call_ensures(xdg::system_data_dirs, (&env,), system),
        call_ensures(xdg::install_prefix, (&env,), prefix),
        env@.var("XDG_DATA_DIRS") is None || env@.var("XDG_DATA_DIRS")->0.len() == 0,
    ensures
        ({
            let a = bytes::utf8("/usr/local/share");
            let b = bytes::utf8("/usr/share");
            let d = path::join(prefix->0.bytes@, bytes::utf8("share"));
            &&& search::has_path(pathbuf::path_views(all@), a)
            &&& search::has_path(pathbuf::path_views(all@), b)
            &&& search::has_path(pathbuf::path_views(system@), a)
            &&& search::has_path(pathbuf::path_views(system@), b)
            &&& prefix is None ==> pathbuf::path_views(system@) == seq![a, b]
            &&& prefix is Some ==> pathbuf::path_views(system@) == seq![d] + seq![a, b].filter(
                |x: Seq<u8>| !path::same_path(x, d),
            )
        }),
{
    let a = bytes::utf8("/usr/local/share");
    let b = bytes::utf8("/usr/share");
    let none: Seq<Seq<u8>> = Seq::empty();
    let list = seq![a, b];
    xdg::lemma_default_entries();
    lemma_two_unique(a, b);
    let home = search::opt_list(xdg::data_home_in(env@));
    let share = search::opt_list(xdg::prefix_dir(env@, "share"));
    let n = (home + share).len() as int;
    let m = share.len() as int;
    assert((home + share + list)[n] == a);
    assert((home + share + list)[n + 1] == b);
    lemma_source_is_found(home + share + list, a);
    lemma_source_is_found(home + share + list, b);
    assert((none + share + list)[m] == a);
    assert((none + share + list)[m + 1] == b);
    lemma_source_is_found(none + share + list, a);
    lemma_source_is_found(none + share + list, b);
    match prefix {
        Some(p) => {
            let d = path::join(p.bytes@, bytes::utf8("share"));
            reveal_strlit("share");
            lemma_join_not_empty(p.bytes@, "share");
            assert(none + seq![d] + list =~= seq![d] + list);
            search::lemma_unique_dirs_leading(d, list);
        },
        None => {
            assert(none + none + list =~= list);
        },
    }
}

/// A literal that is not empty makes every join with it one that is not empty.
proof fn lemma_join_not_empty(base: Seq<u8>, sub: &str)
    requires
        sub@.len() > 0,
    ensures
        path::join(base, bytes::utf8(sub)).len() > 0,
{
    vstd::utf8::encode_utf8_decode_utf8(sub@);
    if bytes::utf8(sub).len() == 0 {
        assert(vstd::utf8::decode_utf8(bytes::utf8(sub)).len() == 0);
    }
}

/// Two different paths are a search list already.
proof fn lemma_two_unique(a: Seq<u8>, b: Seq<u8>)
    requires
        a.len() > 0,
        b.len() > 0,
        path::components(a) != path::components(b),
    ensures
        search::unique_dirs(seq![a, b]) == seq![a, b],
{
    let none: Seq<Seq<u8>> = Seq::empty();
    search::lemma_unique_dirs_step(none, a);
    search::lemma_unique_dirs_step(seq![a], b);
    assert(none.push(a) =~= seq![a]);
    assert(seq![a].push(b) =~= seq![a, b]);
}

/// Where `XDG_CONFIG_DIRS` is unset or empty, whatever the executable and the other variables are,
/// `/etc/xdg` is searched, and last in the system list unless `<prefix>/etc/xdg` is that directory.
pub proof fn law_default_config_dirs(
    env: Environment,
    all: Vec<PathBuf>,
    system: Vec<PathBuf>,
    prefix: Option<PathBuf>,
)
    requires
        call_ensures(xdg::config_dirs, (&env,), all),
        call_ensures(xdg::system_config_dirs, (&env,), system),
        call_ensures(xdg::install_prefix, (&env,), prefix),
        env@.var("XDG_CONFIG_DIRS") is None || env@.var("XDG_CONFIG_DIRS")->0.len() == 0,
    ensures
        ({
            let e = bytes::utf8("/etc/xdg");
            let d = path::join(prefix->0.bytes@, bytes::utf8("etc/xdg"));
            &&& search::has_path(pathbuf::path_views(all@), e)
            &&& search::has_path(pathbuf::path_views(system@), e)
            &&& prefix is None ==> pathbuf::path_views(system@) == seq![e]
            &&& prefix is Some && path::same_path(d, e) ==> pathbuf::path_views(system@) == seq![d]
            &&& prefix is Some && !path::same_path(d, e) ==> pathbuf::path_views(system@) == seq![
                d,
                e,
            ]
        }),
{
    let e = bytes::utf8("/etc/xdg");
    let none: Seq<Seq<u8>> = Seq::empty();
    let list = seq![e];
    xdg::lemma_default_entries();
    let home = search::opt_list(xdg::config_home_in(env@));
    let etc = search::opt_list(xdg::prefix_dir(env@, "etc/xdg"));
    let n = (home + etc).len() as int;
    assert((home + etc + list)[n] == e);
    lemma_source_is_found(home + etc + list, e);
    assert((none + etc + list)[etc.len() as int] == e);
    lemma_source_is_found(none + etc + list, e);
    search::lemma_unique_dirs_step(none, e);
    assert(none.push(e) =~= list);
    match prefix {
        Some(p) => {
            let d = path::join(p.bytes@, bytes::utf8("etc/xdg"));
            reveal_strlit("etc/xdg");
            lemma_join_not_empty(p.bytes@, "etc/xdg");
            search::lemma_unique_dirs_step(none, d);
            assert(none.push(d) =~= seq![d]);
            search::lemma_unique_dirs_step(seq![d], e);
            assert(none + seq![d] + list =~= seq![d].push(e));
            assert(seq![d].push(e) =~= seq![d, e]);
            if path::same_path(d, e) {
                assert(path::components(seq![d][0]) == path::components(e));
            }
        },
        None => {
            assert(none + none + list =~= list);
        },
    }
}

/// A captured search holds the executable and the values of `CEF_PATH`, `XDG_DATA_DIRS` and
/// `LD_LIBRARY_PATH`, each whatever the others hold.
pub proof fn law_from_env(env: Environment, s: CefSearch)
    requires
        call_ensures(CefSearch::from_env, (&env,), s),
    ensures
        bytes::opt_view(s.exe) == env@.exe,
        bytes::opt_view(s.cef_path) == env@.var("CEF_PATH"),
        bytes::opt_view(s.xdg_data_dirs) == env@.var("XDG_DATA_DIRS"),
        bytes::opt_view(s.ld_library_path) == env@.var("LD_LIBRARY_PATH"),
{
}

/// The candidates are, each where it comes first: the explicit path where it is set and not empty;
/// `lib/cef` under the install prefix; `lib/cef` beside every data root of the variable, or of the
/// default where that is unset or empty; every library directory; and `/usr/lib/cef`.
pub proof fn law_candidates(
    s: CefSearch,
    r: Vec<PathBuf>,
    explicit: Seq<Seq<u8>>,
    installed: Seq<Seq<u8>>,
    roots: Seq<Seq<u8>>,
    libs: Seq<Seq<u8>>,
)
    requires
        call_ensures(CefSearch::candidates, (&s,), r),
        s.cef_path is Some && s.cef_path->0@.len() > 0 ==> explicit == seq![s.cef_path->0@],
        !(s.cef_path is Some && s.cef_path->0@.len() > 0) ==> explicit == Seq::<Seq<u8>>::empty(),
        s.exe is Some && prefix::prefix_above_bin(s.exe->0.bytes@) is Some ==> installed == seq![
            path::join(
                prefix::prefix_above_bin(s.exe->0.bytes@)->0,
                bytes::utf8("lib/cef"),
            ),
        ],
        !(s.exe is Some && prefix::prefix_above_bin(s.exe->0.bytes@) is Some) ==> installed
            == Seq::<Seq<u8>>::empty(),
        roots.len() > 0,
        forall|i: int, j: int|
            0 <= i < roots.len() && 0 <= j < roots[i].len() ==> #[trigger] roots[i][j] != 0x3a,
        bytes::joined(roots, 0x3a) == (if s.xdg_data_dirs is Some && s.xdg_data_dirs->0@.len()
            > 0 {
            s.xdg_data_dirs->0@
        } else {
            bytes::utf8("/usr/local/share:/usr/share")
        }),
        s.ld_library_path is None ==> libs == Seq::<Seq<u8>>::empty(),
        s.ld_library_path is Some ==> libs.len() > 0 && bytes::joined(libs, 0x3a)
            == s.ld_library_path->0@,
        forall|i: int, j: int|
            0 <= i < libs.len() && 0 <= j < libs[i].len() ==> #[trigger] libs[i][j] != 0x3a,
    ensures
        pathbuf::path_views(r@) == search::unique_dirs(
            explicit + installed + cef::cef_beside_all(roots) + libs + seq![
                bytes::utf8("/usr/lib/cef"),
            ],
        ),
{
    bytes::lemma_joined(roots, 0x3a);
    if s.ld_library_path is Some {
        bytes::lemma_joined(libs, 0x3a);
    }
}

/// A CEF in a prefix of its own is a candidate of the lookup from every environment whose
/// `XDG_DATA_DIRS` lists a directory of that prefix, whatever else the environment holds.
pub proof fn law_cef_beside_listed_data_root(
    env: Environment,
    s: CefSearch,
    r: Vec<PathBuf>,
    entries: Seq<Seq<u8>>,
    k: int,
    p: Seq<u8>,
    name: Seq<u8>,
)
    requires
        call_ensures(CefSearch::from_env, (&env,), s),
        call_ensures(CefSearch::candidates, (&s,), r),
        0 <= k < entries.len(),
        forall|i: int, j: int|
            0 <= i < entries.len() && 0 <= j < entries[i].len() ==> #[trigger] entries[i][j]
                != 0x3a,
        env@.vars.contains_key(vstd::utf8::encode_utf8("XDG_DATA_DIRS"@)),
        env@.vars[vstd::utf8::encode_utf8("XDG_DATA_DIRS"@)] == bytes::joined(entries, 0x3a),
        entries[k] == path::join(p, name),
        p.len() > 0 && p[0] == 0x2f,
        name.len() > 0 && !name.contains(0x2f),
        name != seq![0x2eu8] && name != seq![0x2eu8, 0x2e],
    ensures
        search::has_path(pathbuf::path_views(r@), path::join(p, bytes::utf8("lib/cef"))),
{
    bytes::lemma_joined(entries, 0x3a);
    path::lemma_plain_name(name);
    path::lemma_join_bytes(p, name);
    assert(entries[k].len() > 0);
    lemma_joined_not_empty(entries, k);
    assert(s@.data_roots() == entries);
    cef::lemma_cef_in_its_own_prefix_is_tried(s@, p, name);
}

/// A list with an entry that is not empty is not empty.
proof fn lemma_joined_not_empty(parts: Seq<Seq<u8>>, k: int)
    requires
        0 <= k < parts.len(),
        parts[k].len() > 0,
    ensures
        bytes::joined(parts, 0x3a).len() > 0,
{
}

/// Of every environment: an explicit `CEF_PATH` is the first candidate as it is written; the
/// prefix of the executable, the library directories and the FHS location are candidates.
pub proof fn law_candidates_from_env(
    env: Environment,
    s: CefSearch,
    r: Vec<PathBuf>,
    prefix: Option<PathBuf>,
    libs: Seq<Seq<u8>>,
    k: int,
)
    requires
        call_ensures(CefSearch::from_env, (&env,), s),
        call_ensures(CefSearch::candidates, (&s,), r),
        call_ensures(xdg::install_prefix, (&env,), prefix),
    ensures
        r.len() > 0,
        search::has_path(pathbuf::path_views(r@), bytes::utf8("/usr/lib/cef")),
        env@.var("CEF_PATH") is Some && env@.var("CEF_PATH")->0.len() > 0 ==> r@[0].bytes@
            == env@.var("CEF_PATH")->0,
        prefix matches Some(p) ==> search::has_path(
            pathbuf::path_views(r@),
            path::join(p.bytes@, bytes::utf8("lib/cef")),
        ),
        (prefix is Some && (env@.var("CEF_PATH") is None || env@.var("CEF_PATH")->0.len() == 0))
            ==> r@[0].bytes@ == path::join(prefix->0.bytes@, bytes::utf8("lib/cef")),
        (env@.var("LD_LIBRARY_PATH") == Some(bytes::joined(libs, 0x3a)) && 0 <= k < libs.len()
            && libs[k].len() > 0 && (forall|i: int, j: int|
            0 <= i < libs.len() && 0 <= j < libs[i].len() ==> #[trigger] libs[i][j] != 0x3a))
            ==> search::has_path(pathbuf::path_views(r@), libs[k]),
{
    pathbuf::lemma_path_views(r@);
    cef::lemma_candidates(s@);
    let all = s@.sources();
    let tail = cef::cef_beside_all(s@.data_roots()) + cef::entries(s@.ld_library_path) + seq![
        bytes::utf8("/usr/lib/cef"),
    ];
    let explicit = search::set_value(s@.cef_path);
    if explicit is Some {
        cef::lemma_explicit_path_leads(s@, explicit->0);
        assert(pathbuf::path_views(r@)[0] == explicit->0);
    }
    match prefix {
        Some(p) => {
            let dir = path::join(p.bytes@, bytes::utf8("lib/cef"));
            let n = search::opt_list(explicit).len() as int;
            reveal_strlit("lib/cef");
            lemma_join_not_empty(p.bytes@, "lib/cef");
            assert(all =~= search::opt_list(explicit) + (seq![dir] + tail));
            assert(all[n] == dir);
            lemma_source_is_found(all, dir);
            if explicit is None {
                assert(all =~= seq![dir] + tail);
                search::lemma_unique_dirs_leading(dir, tail);
            }
        },
        None => {},
    }
    if env@.var("LD_LIBRARY_PATH") == Some(bytes::joined(libs, 0x3a)) && 0 <= k < libs.len()
        && libs[k].len() > 0 && (forall|i: int, j: int|
        0 <= i < libs.len() && 0 <= j < libs[i].len() ==> #[trigger] libs[i][j] != 0x3a) {
        bytes::lemma_joined(libs, 0x3a);
        cef::lemma_ld_library_path_is_tried(s@, libs[k]);
    }
}

/// With a test that goes by the path alone, the candidate found is the first one accepted, and
/// nothing is found exactly where none is.
pub proof fn law_find_with<F: Fn(&PathBuf) -> bool>(
    s: CefSearch,
    test: &F,
    accept: spec_fn(Seq<u8>) -> bool,
    candidates: Vec<PathBuf>,
    r: Option<PathBuf>,
)
    requires
        forall|x: PathBuf, yes: bool| #[trigger]
            call_ensures(*test, (&x,), yes) ==> yes == accept(x.bytes@),
        call_ensures(CefSearch::candidates, (&s,), candidates),
        call_ensures(CefSearch::find_with::<F>, (&s, test), r),
    ensures
        r is None ==> forall|i: int|
            0 <= i < candidates.len() ==> !accept((#[trigger] candidates@[i]).bytes@),
        r matches Some(d) ==> exists|k: int|
            0 <= k < candidates.len() && d.bytes@ == (#[trigger] candidates@[k]).bytes@ && accept(
                candidates@[k].bytes@,
            ) && forall|j: int| 0 <= j < k ==> !accept((#[trigger] candidates@[j]).bytes@),
{
    let all = pathbuf::path_views(candidates@);
    lemma_found(test, accept, |d: Seq<u8>| d, all, all, bytes::opt_view(r));
    lemma_found_paths(candidates, |d: Seq<u8>| accept(d), r);
}

/// With a test that goes by the path alone, the directory found is the first candidate with the
/// library file in it, and nothing is found exactly where no candidate has it.
pub proof fn law_find<F: Fn(&PathBuf) -> bool>(
    s: CefSearch,
    cef_lib: &str,
    test: &F,
    is_file: spec_fn(Seq<u8>) -> bool,
    candidates: Vec<PathBuf>,
    r: Option<PathBuf>,
)
    requires
        forall|x: PathBuf, yes: bool| #[trigger]
            call_ensures(*test, (&x,), yes) ==> yes == is_file(x.bytes@),
        call_ensures(CefSearch::candidates, (&s,), candidates),
        call_ensures(CefSearch::find::<F>, (&s, cef_lib, test), r),
    ensures
        r is None ==> forall|i: int|
            0 <= i < candidates.len() ==> !is_file(
                path::join((#[trigger] candidates@[i]).bytes@, bytes::utf8(cef_lib)),
            ),
        r matches Some(d) ==> exists|k: int|
            0 <= k < candidates.len() && d.bytes@ == (#[trigger] candidates@[k]).bytes@
                && is_file(path::join(candidates@[k].bytes@, bytes::utf8(cef_lib))) && forall|
                j: int,
            |
                0 <= j < k ==> !is_file(
                    path::join((#[trigger] candidates@[j]).bytes@, bytes::utf8(cef_lib)),
                ),
{
    let lib = bytes::utf8(cef_lib);
    let all = pathbuf::path_views(candidates@);
    let ask = |d: Seq<u8>| path::join(d, lib);
    lemma_found(test, is_file, ask, s@.probes(lib), all, bytes::opt_view(r));
    lemma_found_paths(candidates, |d: Seq<u8>| is_file(ask(d)), r);
}

/// A lookup from an environment is the lookup that is captured from it.
pub proof fn law_find_cef_dir<F: Fn(&PathBuf) -> bool>(
    env: Environment,
    cef_lib: &str,
    test: &F,
    is_file: spec_fn(Seq<u8>) -> bool,
    s: CefSearch,
    candidates: Vec<PathBuf>,
    r: Option<PathBuf>,
)
    requires
        forall|x: PathBuf, yes: bool| #[trigger]
            call_ensures(*test, (&x,), yes) ==> yes == is_file(x.bytes@),
        call_ensures(CefSearch::from_env, (&env,), s),
        call_ensures(CefSearch::candidates, (&s,), candidates),
        call_ensures(cef::find_cef_dir::<F>, (&env, cef_lib, test), r),
    ensures
        r is None ==> forall|i: int|
            0 <= i < candidates.len() ==> !is_file(
                path::join((#[trigger] candidates@[i]).bytes@, bytes::utf8(cef_lib)),
            ),
        r matches Some(d) ==> exists|k: int|
            0 <= k < candidates.len() && d.bytes@ == (#[trigger] candidates@[k]).bytes@
                && is_file(path::join(candidates@[k].bytes@, bytes::utf8(cef_lib))) && forall|
                j: int,
            |
                0 <= j < k ==> !is_file(
                    path::join((#[trigger] candidates@[j]).bytes@, bytes::utf8(cef_lib)),
                ),
{
    let lib = bytes::utf8(cef_lib);
    let all = pathbuf::path_views(candidates@);
    let ask = |d: Seq<u8>| path::join(d, lib);
    lemma_found(test, is_file, ask, s@.probes(lib), all, bytes::opt_view(r));
    lemma_found_paths(candidates, |d: Seq<u8>| is_file(ask(d)), r);
}

/// What is located for an environment is what a lookup from it finds, and it is to be exported
/// exactly where `CEF_PATH` does not hold those bytes.
pub proof fn law_ensure_cef_path<F: Fn(&PathBuf) -> bool>(
    env: Environment,
    cef_lib: &str,
    test: &F,
    is_file: spec_fn(Seq<u8>) -> bool,
    found: Option<PathBuf>,
    r: Option<CefLocation>,
)
    requires
        forall|x: PathBuf, yes: bool| #[trigger]
            call_ensures(*test, (&x,), yes) ==> yes == is_file(x.bytes@),
        call_ensures(cef::find_cef_dir::<F>, (&env, cef_lib, test), found),
        call_ensures(cef::ensure_cef_path::<F>, (&env, cef_lib, test), r),
    ensures
        r is Some == found is Some,
        r matches Some(l) ==> {
            &&& l.dir.bytes@ == found->0.bytes@
            &&& !l.export == (env@.vars.contains_key(vstd::utf8::encode_utf8("CEF_PATH"@))
                && env@.vars[vstd::utf8::encode_utf8("CEF_PATH"@)] == l.dir.bytes@)
        },
{
    let lib = bytes::utf8(cef_lib);
    let s = cef::search_in(env@);
    cef::lemma_finds_located(s, lib, test, is_file, bytes::opt_view(found));
    let dir = match r {
        Some(l) => Some(l.dir@),
        None => None,
    };
    cef::lemma_finds_located(s, lib, test, is_file, dir);
}

/// What a search with a test that goes by the path alone finds, place by place.
proof fn lemma_found<F: Fn(&PathBuf) -> bool>(
    test: &F,
    accept: spec_fn(Seq<u8>) -> bool,
    ask: spec_fn(Seq<u8>) -> Seq<u8>,
    asked: Seq<Seq<u8>>,
    candidates: Seq<Seq<u8>>,
    found: Option<Seq<u8>>,
)
    requires
        forall|x: PathBuf, yes: bool| #[trigger]
            call_ensures(*test, (&x,), yes) ==> yes == accept(x.bytes@),
        asked =~= candidates.map_values(ask),
        probe::finds(test, asked, candidates, found),
    ensures
        found is None ==> forall|i: int|
            0 <= i < candidates.len() ==> !accept(ask(#[trigger] candidates[i])),
        found matches Some(d) ==> exists|k: int|
            0 <= k < candidates.len() && d == #[trigger] candidates[k] && accept(
                ask(candidates[k]),
            ) && forall|j: int| 0 <= j < k ==> !accept(ask(#[trigger] candidates[j])),
{
    let hit = choose|hit: Option<int>| #[trigger]
        probe::first_hit(test, asked, hit) && found == match hit {
            Some(k) => Some(candidates[k]),
            None => None,
        };
    assert forall|j: int, yes: bool|
        0 <= j < candidates.len() && #[trigger] probe::answers(
            test,
            asked[j],
            yes,
        ) implies yes == accept(ask(candidates[j])) by {
        let x = choose|x: PathBuf| x@ == asked[j] && #[trigger] call_ensures(*test, (&x,), yes);
        assert(x.bytes@ == ask(candidates[j]));
    }
    match hit {
        Some(k) => {
            assert(probe::answers(test, asked[k], true));
            assert(accept(ask(candidates[k])));
            assert forall|j: int| 0 <= j < k implies !accept(ask(#[trigger] candidates[j])) by {
                assert(probe::answers(test, asked[j], false));
            }
        },
        None => {
            assert forall|j: int| 0 <= j < candidates.len() implies !accept(
                ask(#[trigger] candidates[j]),
            ) by {
                assert(probe::answers(test, asked[j], false));
            }
        },
    }
}

/// The same of a vector of paths.
proof fn lemma_found_paths(
    candidates: Vec<PathBuf>,
    accept: spec_fn(Seq<u8>) -> bool,
    r: Option<PathBuf>,
)
    requires
        bytes::opt_view(r) is None ==> forall|i: int|
            0 <= i < candidates.len() ==> !accept(
                #[trigger] pathbuf::path_views(candidates@)[i],
            ),
        bytes::opt_view(r) matches Some(d) ==> exists|k: int|
            0 <= k < candidates.len() && d == #[trigger] pathbuf::path_views(candidates@)[k]
                && accept(pathbuf::path_views(candidates@)[k]) && forall|j: int|
                0 <= j < k ==> !accept(#[trigger] pathbuf::path_views(candidates@)[j]),
    ensures
        r is None ==> forall|i: int|
            0 <= i < candidates.len() ==> !accept((#[trigger] candidates@[i]).bytes@),
        r matches Some(d) ==> exists|k: int|
            0 <= k < candidates.len() && d.bytes@ == (#[trigger] candidates@[k]).bytes@ && accept(
                candidates@[k].bytes@,
            ) && forall|j: int| 0 <= j < k ==> !accept((#[trigger] candidates@[j]).bytes@),
{
    let all = pathbuf::path_views(candidates@);
    match r {
        None => {
            assert forall|i: int| 0 <= i < candidates.len() implies !accept(
                (#[trigger] candidates@[i]).bytes@,
            ) by {
                assert(!accept(all[i]));
            }
        },
        Some(d) => {
            let k = choose|k: int|
                0 <= k < candidates.len() && d@ == #[trigger] all[k] && accept(all[k])
                    && forall|j: int| 0 <= j < k ==> !accept(#[trigger] all[j]);
            assert(candidates@[k].bytes@ == all[k]);
            assert forall|j: int| 0 <= j < k implies !accept(
                (#[trigger] candidates@[j]).bytes@,
            ) by {
                assert(!accept(all[j]));
            }
        },
    }
}

/// Without an override, or with an empty one, the candidates for a library are the file in the
/// working directory and then those in `lib` and in `lib64` under the install prefix.
pub proof fn law_library_without_override(
    lib_name: &[u8],
    exe: Option<&PathBuf>,
    none: Vec<PathBuf>,
    empty: Vec<PathBuf>,
    over: &[u8],
)
    requires
        call_ensures(library::library_candidates, (lib_name, None, exe), none),
        over@.len() == 0,
        call_ensures(library::library_candidates, (lib_name, Some(over), exe), empty),
    ensures
        ({
            let here = path::join(seq![0x2eu8], lib_name@);
            let p = prefix::prefix_above_bin(exe->0.bytes@);
            &&& pathbuf::path_views(empty@) == pathbuf::path_views(none@)
            &&& none.len() > 0 && none@[0].bytes@ == here
            &&& exe is Some && p is Some ==> pathbuf::path_views(none@) == search::unique_dirs(
                seq![
                    here,
                    path::join(path::join(p->0, bytes::utf8("lib")), lib_name@),
                    path::join(path::join(p->0, bytes::utf8("lib64")), lib_name@),
                ],
            )
            &&& !(exe is Some && p is Some) ==> pathbuf::path_views(none@) == seq![here]
        }),
{
    let start: Seq<Seq<u8>> = Seq::empty();
    reveal_strlit(".");
    bytes::lemma_ascii(".");
    assert(bytes::utf8(".") =~= seq![0x2eu8]);
    let here = path::join(seq![0x2eu8], lib_name@);
    path::lemma_join_bytes(seq![0x2eu8], lib_name@);
    assert(here.len() > 0);
    let p = match bytes::opt_view(exe) {
        Some(e) => prefix::prefix_above_bin(e),
        None => None,
    };
    let files = library::prefix_files(lib_name@, p);
    assert(start + seq![here] + files =~= seq![here] + files);
    search::lemma_unique_dirs_leading(here, files);
    search::lemma_unique_dirs_step(start, here);
    assert(start.push(here) =~= seq![here]);
    pathbuf::lemma_path_views(none@);
    assert(pathbuf::path_views(none@)[0] == here);
    match p {
        Some(q) => {
            assert(seq![here] + files =~= seq![
                here,
                path::join(path::join(q, bytes::utf8("lib")), lib_name@),
                path::join(path::join(q, bytes::utf8("lib64")), lib_name@),
            ]);
        },
        None => {
            assert(seq![here] + files =~= seq![here]);
        },
    }
}

/// An override that is not empty only puts its file in front: the path itself where its last
/// component is the library's name, else that name in the directory. Behind it stands the list
/// without an override, less other spellings of that file.
pub proof fn law_library_override(
    lib_name: &[u8],
    over: &[u8],
    exe: Option<&PathBuf>,
    r: Vec<PathBuf>,
    without: Vec<PathBuf>,
)
    requires
        over@.len() > 0,
        call_ensures(library::library_candidates, (lib_name, Some(over), exe), r),
        call_ensures(library::library_candidates, (lib_name, None, exe), without),
    ensures
        ({
            let c = path::components(over@);
            let file = if c.len() > 0 && c.last() == path::Component::Normal(lib_name@) {
                over@
            } else {
                path::join(over@, lib_name@)
            };
            pathbuf::path_views(r@) == seq![file] + pathbuf::path_views(without@).filter(
                |d: Seq<u8>| !path::same_path(d, file),
            )
        }),
{
    path::lemma_file_name(over@, lib_name@);
    path::lemma_join_bytes(over@, lib_name@);
    let file = library::override_file(lib_name@, Some(over@))->0;
    assert(file.len() > 0);
    let rest = library::library_sources(lib_name@, None, bytes::opt_view(exe));
    assert(library::library_sources(lib_name@, Some(over@), bytes::opt_view(exe)) =~= seq![file]
        + rest);
    search::lemma_unique_dirs_leading(file, rest);
}

/// A library is looked up among its candidates for the executable of the environment, with the
/// value of the variable as the override; the first that exists is found.
pub proof fn law_find_library<F: Fn(&PathBuf) -> bool>(
    env: Environment,
    lib_name: &[u8],
    env_var: &str,
    test: &F,
    is_there: spec_fn(Seq<u8>) -> bool,
    over: Option<&[u8]>,
    exe: Option<&PathBuf>,
    candidates: Vec<PathBuf>,
    r: Option<PathBuf>,
)
    requires
        forall|x: PathBuf, yes: bool| #[trigger]
            call_ensures(*test, (&x,), yes) ==> yes == is_there(x.bytes@),
        bytes::opt_view(over) == env@.var(env_var),
        bytes::opt_view(exe) == env@.exe,
        call_ensures(library::library_candidates, (lib_name, over, exe), candidates),
        call_ensures(library::find_library::<F>, (&env, lib_name, env_var, test), r),
    ensures
        r is None ==> forall|i: int|
            0 <= i < candidates.len() ==> !is_there((#[trigger] candidates@[i]).bytes@),
        r matches Some(d) ==> exists|k: int|
            0 <= k < candidates.len() && d.bytes@ == (#[trigger] candidates@[k]).bytes@
                && is_there(candidates@[k].bytes@) && forall|j: int|
                0 <= j < k ==> !is_there((#[trigger] candidates@[j]).bytes@),
{
    let all = pathbuf::path_views(candidates@);
    lemma_found(test, is_there, |d: Seq<u8>| d, all, all, bytes::opt_view(r));
    lemma_found_paths(candidates, |d: Seq<u8>| is_there(d), r);
}

/// A merged list is the per-user directory, then that of the prefix, then every directory of the
/// list in the variable, or in the default where that is unset or empty, each where it comes first.
pub proof fn law_resolve(
    home: Option<PathBuf>,
    prefix: Option<PathBuf>,
    dirs_var: Option<Vec<u8>>,
    dirs_default: &str,
    r: Vec<PathBuf>,
    entries: Seq<Seq<u8>>,
)
    requires
        call_ensures(search::resolve, (home, prefix, dirs_var, dirs_default), r),
        entries.len() > 0,
        forall|i: int, j: int|
            0 <= i < entries.len() && 0 <= j < entries[i].len() ==> #[trigger] entries[i][j]
                != 0x3a,
        bytes::joined(entries, 0x3a) == (if dirs_var is Some && dirs_var->0@.len() > 0 {
            dirs_var->0@
        } else {
            vstd::utf8::encode_utf8(dirs_default@)
        }),
    ensures
        home is None && prefix is None ==> pathbuf::path_views(r@) == search::unique_dirs(entries),
        home is Some && prefix is None ==> pathbuf::path_views(r@) == search::unique_dirs(
            seq![home->0.bytes@] + entries,
        ),
        home is None && prefix is Some ==> pathbuf::path_views(r@) == search::unique_dirs(
            seq![prefix->0.bytes@] + entries,
        ),
        home is Some && prefix is Some ==> pathbuf::path_views(r@) == search::unique_dirs(
            seq![home->0.bytes@, prefix->0.bytes@] + entries,
        ),
{
    bytes::lemma_joined(entries, 0x3a);
    let none: Seq<Seq<u8>> = Seq::empty();
    assert(none + none + entries =~= entries);
    if home is Some {
        let h = home->0.bytes@;
        assert(seq![h] + none + entries =~= seq![h] + entries);
        if prefix is Some {
            let p = prefix->0.bytes@;
            assert(seq![h] + seq![p] + entries =~= seq![h, p] + entries);
        }
    }
    if prefix is Some {
        let p = prefix->0.bytes@;
        assert(none + seq![p] + entries =~= seq![p] + entries);
    }
}

/// A per-user directory is the first value where that is set and not empty, else the second with
/// the fallback below it where that is set and not empty, else there is none.
pub proof fn law_home_dir(
    xdg_home: Option<Vec<u8>>,
    home: Option<Vec<u8>>,
    fallback: &str,
    r: Option<PathBuf>,
)
    requires
        call_ensures(search::home_dir, (xdg_home, home, fallback), r),
    ensures
        xdg_home is Some && xdg_home->0@.len() > 0 ==> r is Some && r->0.bytes@ == xdg_home->0@,
        !(xdg_home is Some && xdg_home->0@.len() > 0) && home is Some && home->0@.len() > 0 ==> r
            is Some && r->0.bytes@ == path::join(home->0@, vstd::utf8::encode_utf8(fallback@)),
        !(xdg_home is Some && xdg_home->0@.len() > 0) && !(home is Some && home->0@.len() > 0)
            ==> r is None,
{
    bytes::lemma_opt_view(r);
}

/// The methods of a path go by its bytes and components.
pub proof fn law_path_methods(
    p: PathBuf,
    rest: &[u8],
    joined: PathBuf,
    parent: Option<PathBuf>,
    name: Option<&[u8]>,
    absolute: bool,
    empty: bool,
    copy: PathBuf,
)
    requires
        call_ensures(PathBuf::join, (&p, rest), joined),
        call_ensures(PathBuf::parent, (&p,), parent),
        call_ensures(PathBuf::file_name, (&p,), name),
        call_ensures(PathBuf::is_absolute, (&p,), absolute),
        call_ensures(PathBuf::is_empty, (&p,), empty),
        call_ensures(PathBuf::from_bytes, (rest,), copy),
    ensures
        ({
            let c = path::components(p.bytes@);
            &&& rest@.len() > 0 && rest@[0] == 0x2f ==> joined.bytes@ == rest@
            &&& !(rest@.len() > 0 && rest@[0] == 0x2f) && p.bytes@.len() > 0 && p.bytes@.last()
                != 0x2f ==> joined.bytes@ == p.bytes@ + seq![0x2fu8] + rest@
            &&& !(rest@.len() > 0 && rest@[0] == 0x2f) && !(p.bytes@.len() > 0 && p.bytes@.last()
                != 0x2f) ==> joined.bytes@ == p.bytes@ + rest@
            &&& parent is Some == (c.len() > 0 && c != seq![path::Component::RootDir])
            &&& parent matches Some(q) ==> {
                &&& path::components(q.bytes@) == c.drop_last()
                &&& q.bytes@ == p.bytes@.take(q.bytes@.len() as int)
                &&& forall|n: int|
                    0 <= n < q.bytes@.len() ==> path::components(#[trigger] p.bytes@.take(n))
                        != c.drop_last()
            }
            &&& name is Some == (c.len() > 0 && c.last() is Normal)
            &&& name matches Some(n) ==> c.last() == path::Component::Normal(n@)
            &&& absolute == (p.bytes@.len() > 0 && p.bytes@[0] == 0x2f)
            &&& empty == (p.bytes@.len() == 0)
            &&& copy.bytes@ == rest@
        }),
{
    let c = path::components(p.bytes@);
    path::lemma_join_bytes(p.bytes@, rest@);
    path::lemma_parent(p.bytes@);
    if p.bytes@.len() == 0 {
        assert(p.bytes@ + rest@ =~= rest@);
    }
    if c.len() > 0 {
        assert(c.take(c.len() - 1) =~= c.drop_last());
        path::lemma_shortest_prefix_exists(p.bytes@, c.len() - 1);
    }
}

/// A variable has the value where its name first comes among the variables, and none where its
/// name does not come.
pub proof fn law_var(env: Environment, name: &str, r: Option<Vec<u8>>)
    requires
        call_ensures(Environment::var, (&env, name), r),
    ensures
        r is Some == (exists|i: int|
            0 <= i < env.vars@.len() && (#[trigger] env.vars@[i]).name@
                == vstd::utf8::encode_utf8(name@)),
        forall|i: int|
            0 <= i < env.vars@.len() && (#[trigger] env.vars@[i]).name@
                == vstd::utf8::encode_utf8(name@) && (forall|j: int|
                0 <= j < i ==> (#[trigger] env.vars@[j]).name@ != vstd::utf8::encode_utf8(name@))
                ==> r is Some && r->0@ == env.vars@[i].value@,
{
    crate::environment::lemma_environment(env, name);
    crate::environment::lemma_var_map(env.vars@, vstd::utf8::encode_utf8(name@));
}

/// Copies and defaults of a search.
pub proof fn law_cef_search_copies(s: CefSearch, copy: CefSearch, fresh: CefSearch)
    requires
        call_ensures(CefSearch::clone, (&s,), copy),
        call_ensures(CefSearch::default, (), fresh),
    ensures
        bytes::opt_view(copy.exe) == bytes::opt_view(s.exe),
        bytes::opt_view(copy.cef_path) == bytes::opt_view(s.cef_path),
        bytes::opt_view(copy.xdg_data_dirs) == bytes::opt_view(s.xdg_data_dirs),
        bytes::opt_view(copy.ld_library_path) == bytes::opt_view(s.ld_library_path),
        fresh.exe is None,
        fresh.cef_path is None,
        fresh.xdg_data_dirs is None,
        fresh.ld_library_path is None,
{
    bytes::lemma_opt_view(fresh.exe);
    bytes::lemma_opt_view(fresh.cef_path);
    bytes::lemma_opt_view(fresh.xdg_data_dirs);
    bytes::lemma_opt_view(fresh.ld_library_path);
}

/// With a test that goes by the path alone, the path found is the first one accepted.
pub proof fn law_find_first<F: Fn(&PathBuf) -> bool>(
    candidates: Vec<PathBuf>,
    test: &F,
    accept: spec_fn(Seq<u8>) -> bool,
    r: Option<PathBuf>,
)
    requires
        forall|x: PathBuf, yes: bool| #[trigger]
            call_ensures(*test, (&x,), yes) ==> yes == accept(x.bytes@),
        call_ensures(probe::find_first::<F>, (&candidates, test), r),
    ensures
        r is None ==> forall|i: int|
            0 <= i < candidates.len() ==> !accept((#[trigger] candidates@[i]).bytes@),
        r matches Some(d) ==> exists|k: int|
            0 <= k < candidates.len() && d.bytes@ == (#[trigger] candidates@[k]).bytes@ && accept(
                candidates@[k].bytes@,
            ) && forall|j: int| 0 <= j < k ==> !accept((#[trigger] candidates@[j]).bytes@),
{
    let all = pathbuf::path_views(candidates@);
    lemma_found(test, accept, |d: Seq<u8>| d, all, all, bytes::opt_view(r));
    lemma_found_paths(candidates, |d: Seq<u8>| accept(d), r);
}

/// A list with `sub` appended has the directories of the list, one for one and in order.
pub proof fn law_subdirs_of(dirs: Vec<PathBuf>, sub: &str, r: Vec<PathBuf>)
    requires
        call_ensures(search::subdirs, (&dirs, sub), r),
    ensures
        r.len() == dirs.len(),
        forall|i: int|
            0 <= i < dirs.len() ==> (#[trigger] r@[i]).bytes@ == path::join(
                dirs@[i].bytes@,
                vstd::utf8::encode_utf8(sub@),
            ),
{
    lemma_with_sub_views(dirs@, r@, bytes::utf8(sub));
}

/// Copies of a path have its bytes, a path from text has the bytes of that text, and two paths are
/// equal exactly where their components are.
pub proof fn law_path_values(
    p: PathBuf,
    q: PathBuf,
    s: &str,
    copy: PathBuf,
    from_text: PathBuf,
    equal: bool,
)
    requires
        call_ensures(PathBuf::clone, (&p,), copy),
        call_ensures(PathBuf::from, (s,), from_text),
        call_ensures(PathBuf::eq, (&p, &q), equal),
    ensures
        copy.bytes@ == p.bytes@,
        from_text.bytes@ == vstd::utf8::encode_utf8(s@),
        equal == (path::components(p.bytes@) == path::components(q.bytes@)),
{
}

/// The same of paths as slices, and the parts of a path are its components, one for one.
pub proof fn law_path_slices(
    a: &[u8],
    b: &[u8],
    same: bool,
    name: Option<&[u8]>,
    parent: Option<&[u8]>,
    parts: Vec<path::Part>,
)
    requires
        call_ensures(path::same_path_slices, (a, b), same),
        call_ensures(path::file_name_slice, (a,), name),
        call_ensures(path::parent_slice, (a,), parent),
        call_ensures(path::parts, (a,), parts),
    ensures
        ({
            let c = path::components(a@);
            &&& same == (c == path::components(b@))
            &&& name is Some == (c.len() > 0 && c.last() is Normal)
            &&& name matches Some(n) ==> c.last() == path::Component::Normal(n@)
            &&& parent is Some == (c.len() > 0 && c != seq![path::Component::RootDir])
            &&& parent matches Some(q) ==> {
                &&& path::components(q@) == c.drop_last()
                &&& q@ == a@.take(q@.len() as int)
                &&& forall|n: int|
                    0 <= n < q@.len() ==> path::components(#[trigger] a@.take(n)) != c.drop_last()
            }
            &&& parts.len() == c.len()
            &&& forall|i: int|
                0 <= i < c.len() ==> match #[trigger] parts@[i] {
                    path::Part::RootDir => c[i] is RootDir,
                    path::Part::CurDir => c[i] is CurDir,
                    path::Part::ParentDir => c[i] is ParentDir,
                    path::Part::Normal(n) => c[i] == path::Component::Normal(n@),
                }
        }),
{
    let c = path::components(a@);
    path::lemma_parent(a@);
    if c.len() > 0 {
        assert(c.take(c.len() - 1) =~= c.drop_last());
        path::lemma_shortest_prefix_exists(a@, c.len() - 1);
    }
    assert(path::part_views(parts@).len() == parts.len());
    assert forall|i: int| 0 <= i < c.len() implies match #[trigger] parts@[i] {
        path::Part::RootDir => c[i] is RootDir,
        path::Part::CurDir => c[i] is CurDir,
        path::Part::ParentDir => c[i] is ParentDir,
        path::Part::Normal(n) => c[i] == path::Component::Normal(n@),
    } by {
        assert(path::part_views(parts@)[i] == c[i]);
    }
}

/// The pieces of a byte string are free of the separator, and joined by it they give the string
/// back.
pub proof fn law_split_on(s: &[u8], sep: u8, r: Vec<&[u8]>)
    requires
        call_ensures(bytes::split_on, (s, sep), r),
    ensures
        r.len() > 0,
        forall|i: int, j: int|
            0 <= i < r.len() && 0 <= j < r@[i]@.len() ==> #[trigger] r@[i]@[j] != sep,
        bytes::joined(bytes::slice_views(r@), sep) == s@,
{
    bytes::lemma_pieces(s@, sep);
    bytes::lemma_slice_views(r@);
    assert forall|i: int, j: int| 0 <= i < r.len() && 0 <= j < r@[i]@.len() implies #[trigger] r@[
    i]@[j] != sep by {
        assert(bytes::slice_views(r@)[i] == r@[i]@);
        assert(bytes::pieces(s@, sep)[i][j] != sep);
    }
}

} // verus!
