//! XDG base directories.
//!
//! Three sources are consulted, most specific first:
//!
//! 1. the per-user directory (`XDG_DATA_HOME` / `XDG_CONFIG_HOME`, else
//!    `$HOME/.local/share` / `$HOME/.config`),
//! 2. the install prefix of the running executable (`<prefix>/bin/app` gives
//!    `<prefix>/share`), so that a relocatable install resolves its data with no variable set,
//! 3. every `XDG_DATA_DIRS` / `XDG_CONFIG_DIRS` entry, defaulting to `/usr/local/share:/usr/share`
//!    and `/etc/xdg`.
use crate::bytes;
use crate::environment::Environment;
use crate::environment::EnvironmentView;
use crate::path;
use crate::pathbuf;
use crate::pathbuf::PathBuf;
use crate::prefix;
use crate::search;
use vstd::prelude::*;

verus! {

/// Default for `XDG_DATA_DIRS`.
pub const DATA_DIRS_DEFAULT: &'static str = "/usr/local/share:/usr/share";

/// Default for `XDG_CONFIG_DIRS`.
pub const CONFIG_DIRS_DEFAULT: &'static str = "/etc/xdg";

/// The install prefix of the running executable.
pub open spec fn prefix_in(env: EnvironmentView) -> Option<Seq<u8>> {
    match env.exe {
        Some(exe) => prefix::prefix_above_bin(exe),
        None => None,
    }
}

/// A directory under the install prefix.
pub open spec fn prefix_dir(env: EnvironmentView, sub: &str) -> Option<Seq<u8>> {
    match prefix_in(env) {
        Some(p) => Some(path::join(p, bytes::utf8(sub))),
        None => None,
    }
}

/// The per-user data directory.
pub open spec fn data_home_in(env: EnvironmentView) -> Option<Seq<u8>> {
    search::user_dir(env.var("XDG_DATA_HOME"), env.var("HOME"), bytes::utf8(".local/share"))
}

/// The per-user config directory.
pub open spec fn config_home_in(env: EnvironmentView) -> Option<Seq<u8>> {
    search::user_dir(env.var("XDG_CONFIG_HOME"), env.var("HOME"), bytes::utf8(".config"))
}

/// The data directories below a given per-user one.
pub open spec fn data_list(env: EnvironmentView, home: Option<Seq<u8>>) -> Seq<Seq<u8>> {
    search::unique_dirs(
        search::sources(
            home,
            prefix_dir(env, "share"),
            env.var("XDG_DATA_DIRS"),
            bytes::utf8(DATA_DIRS_DEFAULT),
        ),
    )
}

/// The config directories below a given per-user one.
pub open spec fn config_list(env: EnvironmentView, home: Option<Seq<u8>>) -> Seq<Seq<u8>> {
    search::unique_dirs(
        search::sources(
            home,
            prefix_dir(env, "etc/xdg"),
            env.var("XDG_CONFIG_DIRS"),
            bytes::utf8(CONFIG_DIRS_DEFAULT),
        ),
    )
}

/// Install prefix of the running executable, when it lives in `<prefix>/bin`.
///
/// `None` when the executable is not in a `bin` directory (a build tree, for instance) or when
/// its path cannot be read.
#[must_use]
pub fn install_prefix(env: &Environment) -> (r: Option<PathBuf>)
    ensures
        bytes::opt_view(r) == prefix_in(env@),
{
    match &env.exe {
        Some(exe) => prefix::prefix_of(exe),
        None => None,
    }
}

/// A directory under the install prefix.
fn prefix_subdir(env: &Environment, sub: &str) -> (r: Option<PathBuf>)
    ensures
        bytes::opt_view(r) == prefix_dir(env@, sub),
{
    match install_prefix(env) {
        Some(p) => Some(p.join(sub.as_bytes())),
        None => None,
    }
}

/// Per-user data directory: `XDG_DATA_HOME`, else `$HOME/.local/share`.
#[must_use]
pub fn data_home(env: &Environment) -> (r: Option<PathBuf>)
    ensures
        bytes::opt_view(r) == data_home_in(env@),
{
    search::home_dir(env.var("XDG_DATA_HOME"), env.var("HOME"), ".local/share")
}

/// Per-user config directory: `XDG_CONFIG_HOME`, else `$HOME/.config`.
#[must_use]
pub fn config_home(env: &Environment) -> (r: Option<PathBuf>)
    ensures
        bytes::opt_view(r) == config_home_in(env@),
{
    search::home_dir(env.var("XDG_CONFIG_HOME"), env.var("HOME"), ".config")
}

/// Data roots to search, most specific first: the per-user data directory, the install prefix's
/// `share`, then every `XDG_DATA_DIRS` entry. Duplicates are dropped.
#[must_use]
pub fn data_dirs(env: &Environment) -> (r: Vec<PathBuf>)
    ensures
        pathbuf::path_views(r@) == data_list(env@, data_home_in(env@)),
{
    search::resolve(
        data_home(env),
        prefix_subdir(env, "share"),
        env.var("XDG_DATA_DIRS"),
        DATA_DIRS_DEFAULT,
    )
}

/// Config roots to search, most specific first: the per-user config directory, the install
/// prefix's `etc/xdg`, then every `XDG_CONFIG_DIRS` entry. Duplicates are dropped.
#[must_use]
pub fn config_dirs(env: &Environment) -> (r: Vec<PathBuf>)
    ensures
        pathbuf::path_views(r@) == config_list(env@, config_home_in(env@)),
{
    search::resolve(
        config_home(env),
        prefix_subdir(env, "etc/xdg"),
        env.var("XDG_CONFIG_DIRS"),
        CONFIG_DIRS_DEFAULT,
    )
}

/// Data roots for the *system* layer only: as [`data_dirs`], without the per-user directory.
///
/// Some lookups are trust boundaries, a caller allow-list say, where a file under `$HOME` must
/// not be able to outrank the one that the packager shipped.
#[must_use]
pub fn system_data_dirs(env: &Environment) -> (r: Vec<PathBuf>)
    ensures
        pathbuf::path_views(r@) == data_list(env@, None),
{
    search::resolve(
        None,
        prefix_subdir(env, "share"),
        env.var("XDG_DATA_DIRS"),
        DATA_DIRS_DEFAULT,
    )
}

/// [`system_data_dirs`] with `sub` appended to each root.
#[must_use]
pub fn system_data_subdirs(env: &Environment, sub: &str) -> (r: Vec<PathBuf>)
    ensures
        pathbuf::path_views(r@) == search::with_sub(data_list(env@, None), bytes::utf8(sub)),
{
    search::subdirs(&system_data_dirs(env), sub)
}

/// Config roots for the *system* layer only: as [`config_dirs`], without the per-user directory.
#[must_use]
pub fn system_config_dirs(env: &Environment) -> (r: Vec<PathBuf>)
    ensures
        pathbuf::path_views(r@) == config_list(env@, None),
{
    search::resolve(
        None,
        prefix_subdir(env, "etc/xdg"),
        env.var("XDG_CONFIG_DIRS"),
        CONFIG_DIRS_DEFAULT,
    )
}

/// [`config_dirs`] with `sub` appended to each root.
#[must_use]
pub fn config_subdirs(env: &Environment, sub: &str) -> (r: Vec<PathBuf>)
    ensures
        pathbuf::path_views(r@) == search::with_sub(
            config_list(env@, config_home_in(env@)),
            bytes::utf8(sub),
        ),
{
    search::subdirs(&config_dirs(env), sub)
}

/// [`data_dirs`] with `sub` appended to each root (e.g. `"applications"`).
#[must_use]
pub fn data_subdirs(env: &Environment, sub: &str) -> (r: Vec<PathBuf>)
    ensures
        pathbuf::path_views(r@) == search::with_sub(
            data_list(env@, data_home_in(env@)),
            bytes::utf8(sub),
        ),
{
    search::subdirs(&data_dirs(env), sub)
}

/// The system layer is the same whatever the variables of the user layer hold: it depends on the
/// executable and on `XDG_DATA_DIRS` or `XDG_CONFIG_DIRS` alone.
pub proof fn lemma_system_layer_ignores_the_rest(a: EnvironmentView, b: EnvironmentView)
    requires
        a.exe == b.exe,
    ensures
        a.var("XDG_DATA_DIRS") == b.var("XDG_DATA_DIRS") ==> data_list(a, None) == data_list(
            b,
            None,
        ),
        a.var("XDG_CONFIG_DIRS") == b.var("XDG_CONFIG_DIRS") ==> config_list(a, None)
            == config_list(b, None),
{
}

/// `env` with a variable set to `value`.
pub open spec fn with_var(env: EnvironmentView, name: &str, value: Seq<u8>) -> EnvironmentView {
    EnvironmentView { vars: env.vars.insert(bytes::utf8(name), value), ..env }
}

/// Setting one variable leaves the others as they are.
proof fn lemma_with_var(env: EnvironmentView, name: &str, value: Seq<u8>, other: &str)
    requires
        name@ != other@,
    ensures
        with_var(env, name, value).var(other) == env.var(other),
{
    if bytes::utf8(name) == bytes::utf8(other) {
        bytes::lemma_utf8_injective(name, other);
    }
}

/// No value of `HOME`, `XDG_DATA_HOME` or `XDG_CONFIG_HOME` changes the system layer.
pub proof fn lemma_user_variables_cannot_reach_system_layer(
    env: EnvironmentView,
    value: Seq<u8>,
    sub: Seq<u8>,
)
    ensures
        search::with_sub(data_list(with_var(env, "HOME", value), None), sub) == search::with_sub(
            data_list(env, None),
            sub,
        ),
        search::with_sub(data_list(with_var(env, "XDG_DATA_HOME", value), None), sub)
            == search::with_sub(data_list(env, None), sub),
        data_list(with_var(env, "HOME", value), None) == data_list(env, None),
        data_list(with_var(env, "XDG_DATA_HOME", value), None) == data_list(env, None),
        data_list(with_var(env, "XDG_CONFIG_HOME", value), None) == data_list(env, None),
        config_list(with_var(env, "HOME", value), None) == config_list(env, None),
        config_list(with_var(env, "XDG_DATA_HOME", value), None) == config_list(env, None),
        config_list(with_var(env, "XDG_CONFIG_HOME", value), None) == config_list(env, None),
{
    reveal_strlit("HOME");
    reveal_strlit("XDG_DATA_HOME");
    reveal_strlit("XDG_CONFIG_HOME");
    reveal_strlit("XDG_DATA_DIRS");
    reveal_strlit("XDG_CONFIG_DIRS");
    assert("XDG_DATA_HOME"@[9] != "XDG_DATA_DIRS"@[9]);
    assert("XDG_CONFIG_HOME"@[11] != "XDG_CONFIG_DIRS"@[11]);
    lemma_with_var(env, "HOME", value, "XDG_DATA_DIRS");
    lemma_with_var(env, "HOME", value, "XDG_CONFIG_DIRS");
    lemma_with_var(env, "XDG_DATA_HOME", value, "XDG_DATA_DIRS");
    lemma_with_var(env, "XDG_DATA_HOME", value, "XDG_CONFIG_DIRS");
    lemma_with_var(env, "XDG_CONFIG_HOME", value, "XDG_DATA_DIRS");
    lemma_with_var(env, "XDG_CONFIG_HOME", value, "XDG_CONFIG_DIRS");
}

/// The system layer does not have the per-user directory unless the install prefix or an entry of
/// the variable itself names it.
pub proof fn lemma_system_layer_excludes_user_dir(env: EnvironmentView, user: Seq<u8>)
    ensures
        search::has_path(data_list(env, None), user) ==> search::has_path(
            search::sources(
                None,
                prefix_dir(env, "share"),
                env.var("XDG_DATA_DIRS"),
                bytes::utf8(DATA_DIRS_DEFAULT),
            ),
            user,
        ),
        search::has_path(config_list(env, None), user) ==> search::has_path(
            search::sources(
                None,
                prefix_dir(env, "etc/xdg"),
                env.var("XDG_CONFIG_DIRS"),
                bytes::utf8(CONFIG_DIRS_DEFAULT),
            ),
            user,
        ),
{
    lemma_has_source(
        search::sources(
            None,
            prefix_dir(env, "share"),
            env.var("XDG_DATA_DIRS"),
            bytes::utf8(DATA_DIRS_DEFAULT),
        ),
        user,
    );
    lemma_has_source(
        search::sources(
            None,
            prefix_dir(env, "etc/xdg"),
            env.var("XDG_CONFIG_DIRS"),
            bytes::utf8(CONFIG_DIRS_DEFAULT),
        ),
        user,
    );
}

/// What a search list has, its sources have.
proof fn lemma_has_source(list: Seq<Seq<u8>>, dir: Seq<u8>)
    ensures
        search::has_path(search::unique_dirs(list), dir) ==> search::has_path(list, dir),
{
    search::lemma_unique_dirs(list);
    let u = search::unique_dirs(list);
    if search::has_path(u, dir) {
        let i = choose|i: int| 0 <= i < u.len() && path::same_path(#[trigger] u[i], dir);
        let k = choose|k: int| 0 <= k < list.len() && list[k] == u[i];
        assert(path::same_path(list[k], dir));
    }
}

/// The full list is the per-user directory, then the system layer without other spellings of it;
/// without a per-user directory it is the system layer.
pub proof fn lemma_user_dir_then_system_layer(env: EnvironmentView)
    ensures
        data_list(env, data_home_in(env)) == match data_home_in(env) {
            Some(h) => seq![h] + data_list(env, None).filter(
                |d: Seq<u8>| !path::same_path(d, h),
            ),
            None => data_list(env, None),
        },
        config_list(env, config_home_in(env)) == match config_home_in(env) {
            Some(h) => seq![h] + config_list(env, None).filter(
                |d: Seq<u8>| !path::same_path(d, h),
            ),
            None => config_list(env, None),
        },
{
    let data = env.var("XDG_DATA_DIRS");
    let config = env.var("XDG_CONFIG_DIRS");
    let share = prefix_dir(env, "share");
    let etc = prefix_dir(env, "etc/xdg");
    match data_home_in(env) {
        Some(h) => lemma_home_leads(h, share, data, bytes::utf8(DATA_DIRS_DEFAULT)),
        None => {},
    }
    match config_home_in(env) {
        Some(h) => lemma_home_leads(h, etc, config, bytes::utf8(CONFIG_DIRS_DEFAULT)),
        None => {},
    }
}

proof fn lemma_home_leads(
    home: Seq<u8>,
    prefix: Option<Seq<u8>>,
    var: Option<Seq<u8>>,
    default: Seq<u8>,
)
    requires
        home.len() > 0,
    ensures
        search::unique_dirs(search::sources(Some(home), prefix, var, default)) == seq![home]
            + search::unique_dirs(search::sources(None, prefix, var, default)).filter(
            |d: Seq<u8>| !path::same_path(d, home),
        ),
{
    let rest = search::sources(None, prefix, var, default);
    assert(search::sources(Some(home), prefix, var, default) =~= seq![home] + rest);
    search::lemma_unique_dirs_leading(home, rest);
}

/// Every application installed as `<prefix>/bin/<exe>` searches `<prefix>/share` and
/// `<prefix>/etc/xdg` first in the system layer, whatever the variables hold.
pub proof fn lemma_relocated_install_finds_its_data(
    env: EnvironmentView,
    p: Seq<u8>,
    exe: Seq<u8>,
)
    requires
        path::is_plain_name(exe),
        env.exe == Some(path::join(path::join(p, bytes::utf8("bin")), exe)),
    ensures
        data_list(env, None).len() > 0,
        path::same_path(data_list(env, None)[0], path::join(p, bytes::utf8("share"))),
        config_list(env, None).len() > 0,
        path::same_path(config_list(env, None)[0], path::join(p, bytes::utf8("etc/xdg"))),
{
    prefix::lemma_prefix_of_install(p, exe);
    let q = prefix_in(env)->0;
    path::lemma_join_same_path(q, p, bytes::utf8("share"), bytes::utf8("share"));
    path::lemma_join_same_path(q, p, bytes::utf8("etc/xdg"), bytes::utf8("etc/xdg"));
    reveal_strlit("share");
    reveal_strlit("etc/xdg");
    bytes::lemma_ascii("share");
    bytes::lemma_ascii("etc/xdg");
    let share = path::join(q, bytes::utf8("share"));
    let etc = path::join(q, bytes::utf8("etc/xdg"));
    assert(share.len() > 0);
    assert(etc.len() > 0);
    lemma_prefix_leads(share, env.var("XDG_DATA_DIRS"), bytes::utf8(DATA_DIRS_DEFAULT));
    lemma_prefix_leads(etc, env.var("XDG_CONFIG_DIRS"), bytes::utf8(CONFIG_DIRS_DEFAULT));
}

proof fn lemma_prefix_leads(dir: Seq<u8>, var: Option<Seq<u8>>, default: Seq<u8>)
    requires
        dir.len() > 0,
    ensures
        search::unique_dirs(search::sources(None, Some(dir), var, default)).len() > 0,
        search::unique_dirs(search::sources(None, Some(dir), var, default))[0] == dir,
{
    let rest = bytes::pieces(search::value_or(var, default), search::COLON);
    assert(search::sources(None, Some(dir), var, default) =~= seq![dir] + rest);
    search::lemma_unique_dirs_leading(dir, rest);
}

/// Without an install prefix, and with the variables unset or empty, the system layer is the one
/// that FHS distributions have.
pub proof fn lemma_defaults_are_the_fhs_directories(env: EnvironmentView)
    requires
        prefix_in(env) is None,
    ensures
        search::set_value(env.var("XDG_DATA_DIRS")) is None ==> data_list(env, None) == seq![
            bytes::utf8("/usr/local/share"),
            bytes::utf8("/usr/share"),
        ],
        search::set_value(env.var("XDG_CONFIG_DIRS")) is None ==> config_list(env, None) == seq![
            bytes::utf8("/etc/xdg"),
        ],
{
    let none: Seq<Seq<u8>> = Seq::empty();
    let a = bytes::utf8("/usr/local/share");
    let b = bytes::utf8("/usr/share");
    let e = bytes::utf8("/etc/xdg");
    lemma_default_entries();
    search::lemma_add_opt(none, Some(e));
    assert(search::opt_list(None) + search::opt_list(None) + seq![e] =~= seq![e]);
    assert(none.push(e) =~= seq![e]);
    search::lemma_unique_dirs_leading(a, seq![b]);
    search::lemma_add_opt(none, Some(b));
    assert(none.push(b) =~= seq![b]);
    assert(search::opt_list(None) + search::opt_list(None) + seq![a, b] =~= seq![a] + seq![b]);
    reveal(Seq::filter);
    assert(seq![b].drop_last() =~= none);
    let other = |d: Seq<u8>| !path::same_path(d, a);
    assert(seq![b].drop_last().filter(other) =~= none);
    assert(other(b));
    assert(seq![b].filter(other) =~= seq![b]);
    assert(seq![a] + seq![b] =~= seq![a, b]);
}

/// The entries of the defaults, which are different paths.
pub proof fn lemma_default_entries()
    ensures
        bytes::pieces(bytes::utf8(DATA_DIRS_DEFAULT), search::COLON) == seq![
            bytes::utf8("/usr/local/share"),
            bytes::utf8("/usr/share"),
        ],
        bytes::pieces(bytes::utf8(CONFIG_DIRS_DEFAULT), search::COLON) == seq![
            bytes::utf8("/etc/xdg"),
        ],
        bytes::utf8("/usr/local/share").len() > 0,
        bytes::utf8("/usr/share").len() > 0,
        bytes::utf8("/etc/xdg").len() > 0,
        !path::same_path(bytes::utf8("/usr/share"), bytes::utf8("/usr/local/share")),
{
    reveal_strlit("/usr/local/share:/usr/share");
    reveal_strlit("/usr/local/share");
    reveal_strlit("/usr/share");
    reveal_strlit("/etc/xdg");
    bytes::lemma_ascii("/usr/local/share:/usr/share");
    bytes::lemma_ascii("/usr/local/share");
    bytes::lemma_ascii("/usr/share");
    bytes::lemma_ascii("/etc/xdg");
    let a = bytes::utf8("/usr/local/share");
    let b = bytes::utf8("/usr/share");
    let e = bytes::utf8("/etc/xdg");
    let usr = seq![0x2fu8, 0x75, 0x73, 0x72];
    let local = seq![0x6cu8, 0x6f, 0x63, 0x61, 0x6c];
    let share = seq![0x73u8, 0x68, 0x61, 0x72, 0x65];
    let s = path::SLASH;
    assert(a =~= (usr.push(s) + local).push(s) + share);
    assert(b =~= usr.push(s) + share);
    assert(e =~= seq![0x2fu8, 0x65, 0x74, 0x63, 0x2f, 0x78, 0x64, 0x67]);
    assert(path::is_plain_name(local));
    assert(path::is_plain_name(share));
    path::lemma_join_plain_name(usr, local);
    path::lemma_join_plain_name(usr.push(s) + local, share);
    path::lemma_join_plain_name(usr, share);
    let parts = seq![a, b];
    assert(parts.drop_last() =~= seq![a]);
    assert(bytes::joined(seq![a], search::COLON) == a);
    assert(bytes::joined(parts, search::COLON) =~= a.push(search::COLON) + b);
    assert(bytes::utf8(DATA_DIRS_DEFAULT) =~= a.push(search::COLON) + b);
    bytes::lemma_joined(parts, search::COLON);
    bytes::lemma_joined(seq![e], search::COLON);
}

} // verus!
