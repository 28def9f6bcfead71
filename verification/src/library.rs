//! Lookup of a native library that is bundled with an install.
use crate::bytes;
use crate::environment::Environment;
use crate::path;
use crate::pathbuf;
use crate::pathbuf::PathBuf;
use crate::prefix;
use crate::probe;
use crate::search;
use vstd::prelude::*;

verus! {

/// Library directories to try under an install prefix, in order.
///
/// Both spellings are needed: Debian-family and Nix use `lib`, Fedora-family uses `lib64`.
pub const LIB_SUBDIRS: [&'static str; 2] = ["lib", "lib64"];

/// What an override stands for: the library file itself, or the directory that holds it. An
/// empty override counts as none.
pub open spec fn override_file(lib_name: Seq<u8>, over: Option<Seq<u8>>) -> Option<Seq<u8>> {
    match search::set_value(over) {
        Some(p) => if path::file_name(p) == Some(lib_name) {
            Some(p)
        } else {
            Some(path::join(p, lib_name))
        },
        None => None,
    }
}

/// The library file in the working directory.
pub open spec fn working_dir_file(lib_name: Seq<u8>) -> Seq<u8> {
    path::join(bytes::utf8("."), lib_name)
}

/// The library file in the library directories under an install prefix.
pub open spec fn prefix_files(lib_name: Seq<u8>, prefix: Option<Seq<u8>>) -> Seq<Seq<u8>> {
    match prefix {
        Some(p) => Seq::new(
            2,
            |i: int| path::join(path::join(p, bytes::utf8(LIB_SUBDIRS@[i])), lib_name),
        ),
        None => Seq::empty(),
    }
}

/// Where a library file may be, most specific first.
pub open spec fn library_sources(
    lib_name: Seq<u8>,
    over: Option<Seq<u8>>,
    exe: Option<Seq<u8>>,
) -> Seq<Seq<u8>> {
    search::opt_list(override_file(lib_name, over)) + seq![working_dir_file(lib_name)]
        + prefix_files(
        lib_name,
        match exe {
            Some(e) => prefix::prefix_above_bin(e),
            None => None,
        },
    )
}

/// The paths to try for a library file, in order, each once.
pub open spec fn library_list(
    lib_name: Seq<u8>,
    over: Option<Seq<u8>>,
    exe: Option<Seq<u8>>,
) -> Seq<Seq<u8>> {
    search::unique_dirs(library_sources(lib_name, over, exe))
}

/// Candidate paths for a native library file, most specific first.
///
/// `override_path` (typically the value of an application-specific environment variable) may name
/// either the library file itself or the directory holding it. The working directory is included
/// so that a development run can drop the library beside the build tree, and the install prefix is
/// expanded over [`LIB_SUBDIRS`].
///
/// Callers should keep a bare name as the final fallback: where the distribution packages the
/// library properly, the loader already knows where it is.
#[must_use]
pub fn library_candidates(
    lib_name: &[u8],
    override_path: Option<&[u8]>,
    exe: Option<&PathBuf>,
) -> (r: Vec<PathBuf>)
    ensures
        pathbuf::path_views(r@) == library_list(
            lib_name@,
            bytes::opt_view(override_path),
            bytes::opt_view(exe),
        ),
{
    let mut out: Vec<PathBuf> = Vec::new();
    let ghost none: Seq<Seq<u8>> = Seq::empty();
    let ghost over = override_file(lib_name@, bytes::opt_view(override_path));
    let ghost a = search::opt_list(over);
    let ghost b = seq![working_dir_file(lib_name@)];
    let ghost prefix = match bytes::opt_view(exe) {
        Some(e) => prefix::prefix_above_bin(e),
        None => None,
    };
    let ghost c = prefix_files(lib_name@, prefix);
    assert(pathbuf::path_views(out@) =~= none);
    proof {
        search::lemma_add_opt(none, over);
        search::lemma_add_opt(search::add_dirs(none, a), Some(working_dir_file(lib_name@)));
        search::lemma_add_dirs_concat(none, a, b);
        search::lemma_add_dirs_concat(none, a + b, c);
    }
    if let Some(p) = override_path {
        if p.len() > 0 {
            let p = PathBuf::from_bytes(p);
            let is_file = match p.file_name() {
                Some(name) => bytes::bytes_eq(name, lib_name),
                None => false,
            };
            if is_file {
                search::push_unique(&mut out, p);
            } else {
                search::push_unique(&mut out, p.join(lib_name));
            }
        }
    }
    search::push_unique(&mut out, PathBuf::from(".").join(lib_name));
    if let Some(exe) = exe {
        if let Some(p) = prefix::prefix_of(exe) {
            let ghost start = pathbuf::path_views(out@);
            let mut i: usize = 0;
            assert(c.take(0) =~= none);
            while i < LIB_SUBDIRS.len()
                invariant
                    i <= LIB_SUBDIRS.len(),
                    c == prefix_files(lib_name@, Some(p@)),
                    pathbuf::path_views(out@) == search::add_dirs(start, c.take(i as int)),
                decreases LIB_SUBDIRS.len() - i,
            {
                assert(c.take(i + 1).drop_last() =~= c.take(i as int));
                search::push_unique(&mut out, p.join(LIB_SUBDIRS[i].as_bytes()).join(lib_name));
                i += 1;
            }
            assert(c.take(2) =~= c);
        }
    }
    out
}

/// [`library_candidates`] resolved against an environment, honouring the variable `env_var` as the
/// override. The first path that `exists_at` accepts.
#[must_use]
pub fn find_library<F: Fn(&PathBuf) -> bool>(
    env: &Environment,
    lib_name: &[u8],
    env_var: &str,
    exists_at: &F,
) -> (r: Option<PathBuf>)
    requires
        forall|i: int|
            0 <= i < library_list(lib_name@, env@.var(env_var), env@.exe).len()
                ==> probe::can_ask(
                exists_at,
                #[trigger] library_list(lib_name@, env@.var(env_var), env@.exe)[i],
            ),
    ensures
        probe::finds(
            exists_at,
            library_list(lib_name@, env@.var(env_var), env@.exe),
            library_list(lib_name@, env@.var(env_var), env@.exe),
            bytes::opt_view(r),
        ),
{
    let over = env.var(env_var);
    let candidates = match &over {
        Some(v) => library_candidates(lib_name, Some(v.as_slice()), env.exe.as_ref()),
        None => library_candidates(lib_name, None, env.exe.as_ref()),
    };
    probe::find_first(&candidates, exists_at)
}

/// Naming the library file and naming the directory that holds it come to the same.
///
/// The one directory that this leaves out is one called like the library: that is taken for the
/// library file.
pub proof fn lemma_override_file_or_directory(lib_name: Seq<u8>, dir: Seq<u8>, exe: Option<Seq<u8>>)
    requires
        path::is_plain_name(lib_name),
        dir.len() > 0,
        path::file_name(dir) != Some(lib_name),
    ensures
        library_list(lib_name, Some(path::join(dir, lib_name)), exe) == library_list(
            lib_name,
            Some(dir),
            exe,
        ),
{
    path::lemma_join_plain_name(dir, lib_name);
}

/// An override that is set comes first.
pub proof fn lemma_override_leads(lib_name: Seq<u8>, over: Seq<u8>, exe: Option<Seq<u8>>)
    requires
        lib_name.len() > 0,
        over.len() > 0,
    ensures
        library_list(lib_name, Some(over), exe).len() > 0,
        library_list(lib_name, Some(over), exe)[0] == override_file(lib_name, Some(over))->0,
{
    let first = override_file(lib_name, Some(over))->0;
    let all = library_sources(lib_name, Some(over), exe);
    let rest = library_sources(lib_name, None, exe);
    assert(first.len() > 0);
    assert(all =~= seq![first] + rest);
    search::lemma_unique_dirs_leading(first, rest);
}

/// Every candidate for a library is a file of that name, and no path is tried twice.
pub proof fn lemma_library_candidates(
    lib_name: Seq<u8>,
    over: Option<Seq<u8>>,
    exe: Option<Seq<u8>>,
)
    requires
        path::is_plain_name(lib_name),
    ensures
        forall|i: int|
            0 <= i < library_list(lib_name, over, exe).len() ==> path::file_name(
                #[trigger] library_list(lib_name, over, exe)[i],
            ) == Some(lib_name),
        forall|i: int, j: int|
            0 <= i < j < library_list(lib_name, over, exe).len() ==> !path::same_path(
                #[trigger] library_list(lib_name, over, exe)[i],
                #[trigger] library_list(lib_name, over, exe)[j],
            ),
{
    let all = library_sources(lib_name, over, exe);
    let list = library_list(lib_name, over, exe);
    search::lemma_unique_dirs(all);
    assert forall|k: int| 0 <= k < all.len() implies path::file_name(#[trigger] all[k]) == Some(
        lib_name,
    ) by {
        let a = search::opt_list(override_file(lib_name, over));
        if k < a.len() {
            assert(all[k] == a[k]);
            path::lemma_join_plain_name(over->0, lib_name);
        } else if k == a.len() {
            path::lemma_join_plain_name(bytes::utf8("."), lib_name);
        } else {
            let p = prefix::prefix_above_bin(exe->0)->0;
            let sub = bytes::utf8(LIB_SUBDIRS@[k - a.len() - 1]);
            path::lemma_join_plain_name(path::join(p, sub), lib_name);
        }
    }
    assert forall|i: int| 0 <= i < list.len() implies path::file_name(#[trigger] list[i]) == Some(
        lib_name,
    ) by {
        let k = choose|k: int| 0 <= k < all.len() && all[k] == list[i];
        assert(path::file_name(all[k]) == Some(lib_name));
    }
}

/// The working directory is always tried, and so is every library directory under the prefix of
/// an application installed as `<prefix>/bin/<app>`.
pub proof fn lemma_library_places(
    lib_name: Seq<u8>,
    over: Option<Seq<u8>>,
    p: Seq<u8>,
    app: Seq<u8>,
    i: int,
)
    requires
        path::is_plain_name(lib_name),
        path::is_plain_name(app),
        0 <= i < LIB_SUBDIRS@.len(),
    ensures
        ({
            let exe = Some(path::join(path::join(p, bytes::utf8("bin")), app));
            let dir = path::join(p, bytes::utf8(LIB_SUBDIRS@[i]));
            &&& search::has_path(library_list(lib_name, over, None), working_dir_file(lib_name))
            &&& search::has_path(library_list(lib_name, over, exe), working_dir_file(lib_name))
            &&& search::has_path(library_list(lib_name, over, exe), path::join(dir, lib_name))
        }),
{
    let exe = Some(path::join(path::join(p, bytes::utf8("bin")), app));
    let sub = bytes::utf8(LIB_SUBDIRS@[i]);
    prefix::lemma_prefix_of_install(p, app);
    let q = prefix::prefix_above_bin(exe->0)->0;
    let file = path::join(path::join(q, sub), lib_name);
    path::lemma_join_same_path(q, p, sub, sub);
    path::lemma_join_same_path(path::join(q, sub), path::join(p, sub), lib_name, lib_name);
    let n = search::opt_list(override_file(lib_name, over)).len() as int;
    let alone = library_sources(lib_name, over, None);
    let all = library_sources(lib_name, over, exe);
    let list = library_list(lib_name, over, exe);
    search::lemma_unique_dirs(alone);
    search::lemma_unique_dirs(all);
    assert(alone[n] == working_dir_file(lib_name));
    assert(search::has_path(library_list(lib_name, over, None), alone[n]));
    assert(all[n] == working_dir_file(lib_name));
    assert(search::has_path(list, all[n]));
    assert(all[n + 1 + i] == file);
    assert(search::has_path(list, all[n + 1 + i]));
    let k = choose|k: int| 0 <= k < list.len() && path::same_path(#[trigger] list[k], file);
    assert(path::same_path(list[k], path::join(path::join(p, sub), lib_name)));
}

} // verus!
