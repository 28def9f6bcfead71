//! Lookup of a CEF distribution.
//!
//! CEF ships as loose shared libraries rather than as a system package with a stable name on the
//! loader path, so every embedder has to ask at startup where the distribution is. The answer is a
//! property of how the application was installed.
use crate::bytes;
use crate::environment::Environment;
use crate::environment::EnvironmentView;
use crate::path;
use crate::pathbuf;
use crate::pathbuf::PathBuf;
use crate::prefix;
use crate::probe;
use crate::search;
use crate::xdg;
use vstd::prelude::*;

verus! {

/// File whose presence identifies a directory as a CEF distribution on Linux.
pub const CEF_LIB: &'static str = "libcef.so";

/// File whose presence identifies a directory as a CEF distribution on macOS.
pub const CEF_LIB_MACOS: &'static str = "Chromium Embedded Framework";

/// File whose presence identifies a directory as a CEF distribution on Windows.
pub const CEF_LIB_WINDOWS: &'static str = "libcef.dll";

/// Where the `cef-libs` package puts the distribution on FHS systems.
pub const CEF_FHS_DIR: &'static str = "/usr/lib/cef";

/// Environment variable that names the distribution.
pub const CEF_PATH_ENV: &'static str = "CEF_PATH";

/// Where a CEF distribution sits under an install prefix.
pub const CEF_SUBDIR: &'static str = "lib/cef";

/// The environment that a CEF lookup depends on.
#[derive(Debug)]
pub struct CefSearch {
    /// The running executable, used to derive the install prefix.
    pub exe: Option<PathBuf>,
    /// `$CEF_PATH`: an explicit override, tried first.
    pub cef_path: Option<Vec<u8>>,
    /// `$XDG_DATA_DIRS`: covers a CEF that lives in its own prefix.
    pub xdg_data_dirs: Option<Vec<u8>>,
    /// `$LD_LIBRARY_PATH`: how a development run points at a build-tree CEF.
    pub ld_library_path: Option<Vec<u8>>,
}

/// A CEF lookup as a value.
pub struct CefSearchView {
    pub exe: Option<Seq<u8>>,
    pub cef_path: Option<Seq<u8>>,
    pub xdg_data_dirs: Option<Seq<u8>>,
    pub ld_library_path: Option<Seq<u8>>,
}

impl View for CefSearch {
    type V = CefSearchView;

    open spec fn view(&self) -> CefSearchView {
        CefSearchView {
            exe: bytes::opt_view(self.exe),
            cef_path: bytes::opt_view(self.cef_path),
            xdg_data_dirs: bytes::opt_view(self.xdg_data_dirs),
            ld_library_path: bytes::opt_view(self.ld_library_path),
        }
    }
}

impl Clone for CefSearch {
    fn clone(&self) -> (r: CefSearch)
        ensures
            r@ == self@,
    {
        let exe = match &self.exe {
            Some(e) => Some(e.clone()),
            None => None,
        };
        CefSearch {
            exe,
            cef_path: bytes::copy_opt(&self.cef_path),
            xdg_data_dirs: bytes::copy_opt(&self.xdg_data_dirs),
            ld_library_path: bytes::copy_opt(&self.ld_library_path),
        }
    }
}

impl Default for CefSearch {
    fn default() -> (r: CefSearch)
        ensures
            r@ == (CefSearchView {
                exe: None,
                cef_path: None,
                xdg_data_dirs: None,
                ld_library_path: None,
            }),
    {
        CefSearch { exe: None, cef_path: None, xdg_data_dirs: None, ld_library_path: None }
    }
}

/// The CEF directory under the install prefix of the executable.
pub open spec fn cef_under_prefix(exe: Option<Seq<u8>>) -> Option<Seq<u8>> {
    match exe {
        Some(e) => match prefix::prefix_above_bin(e) {
            Some(p) => Some(path::join(p, bytes::utf8(CEF_SUBDIR))),
            None => None,
        },
        None => None,
    }
}

/// The CEF directory that belongs to a data root: the one under the root's parent. Only an
/// absolute root has one.
pub open spec fn cef_beside(root: Seq<u8>) -> Option<Seq<u8>> {
    if path::is_absolute(root) {
        match path::parent(root) {
            Some(p) => Some(path::join(p, bytes::utf8(CEF_SUBDIR))),
            None => None,
        }
    } else {
        None
    }
}

/// The CEF directories that belong to a list of data roots.
pub open spec fn cef_beside_all(roots: Seq<Seq<u8>>) -> Seq<Seq<u8>>
    decreases roots.len(),
{
    if roots.len() == 0 {
        Seq::empty()
    } else {
        cef_beside_all(roots.drop_last()) + search::opt_list(cef_beside(roots.last()))
    }
}

/// The directories of a list in an environment variable, none where it is not there.
pub open spec fn entries(var: Option<Seq<u8>>) -> Seq<Seq<u8>> {
    match var {
        Some(v) => bytes::pieces(v, search::COLON),
        None => Seq::empty(),
    }
}

impl CefSearchView {
    /// The data roots that the lookup goes by.
    pub open spec fn data_roots(self) -> Seq<Seq<u8>> {
        bytes::pieces(
            search::value_or(self.xdg_data_dirs, bytes::utf8(xdg::DATA_DIRS_DEFAULT)),
            search::COLON,
        )
    }

    /// Where CEF may be, most specific first: the explicit path, under the install prefix, beside
    /// every data root, in every library directory, and the FHS location.
    pub open spec fn sources(self) -> Seq<Seq<u8>> {
        search::opt_list(search::set_value(self.cef_path)) + search::opt_list(
            cef_under_prefix(self.exe),
        ) + cef_beside_all(self.data_roots()) + entries(self.ld_library_path) + seq![
            bytes::utf8(CEF_FHS_DIR),
        ]
    }

    /// The directories to try, in order, each once.
    pub open spec fn candidates(self) -> Seq<Seq<u8>> {
        search::unique_dirs(self.sources())
    }

    /// The files that tell for each candidate whether it holds a distribution.
    pub open spec fn probes(self, cef_lib: Seq<u8>) -> Seq<Seq<u8>> {
        search::with_sub(self.candidates(), cef_lib)
    }
}

/// The CEF lookup that an environment asks for.
pub open spec fn search_in(env: EnvironmentView) -> CefSearchView {
    CefSearchView {
        exe: env.exe,
        cef_path: env.var(CEF_PATH_ENV),
        xdg_data_dirs: env.var("XDG_DATA_DIRS"),
        ld_library_path: env.var("LD_LIBRARY_PATH"),
    }
}

impl CefSearch {
    /// Capture the search inputs from an environment.
    #[must_use]
    pub fn from_env(env: &Environment) -> (r: CefSearch)
        ensures
            r@ == search_in(env@),
    {
        let exe = match &env.exe {
            Some(e) => Some(e.clone()),
            None => None,
        };
        CefSearch {
            exe,
            cef_path: env.var(CEF_PATH_ENV),
            xdg_data_dirs: env.var("XDG_DATA_DIRS"),
            ld_library_path: env.var("LD_LIBRARY_PATH"),
        }
    }

    /// Directories that may hold a CEF distribution, most specific first.
    ///
    /// An explicit `CEF_PATH` wins, then the prefix the binary was installed into, then each
    /// `XDG_DATA_DIRS` entry's prefix (`/usr/share` gives `/usr/lib/cef`), then
    /// `LD_LIBRARY_PATH`, and finally the FHS location.
    #[must_use]
    pub fn candidates(&self) -> (r: Vec<PathBuf>)
        ensures
            pathbuf::path_views(r@) == self@.candidates(),
    {
        let mut dirs: Vec<PathBuf> = Vec::new();
        let ghost none: Seq<Seq<u8>> = Seq::empty();
        let ghost explicit = search::opt_list(search::set_value(self@.cef_path));
        let ghost under = search::opt_list(cef_under_prefix(self@.exe));
        let ghost beside = cef_beside_all(self@.data_roots());
        let ghost libs = entries(self@.ld_library_path);
        let ghost fhs = seq![bytes::utf8(CEF_FHS_DIR)];
        assert(pathbuf::path_views(dirs@) =~= none);
        proof {
            search::lemma_add_opt(none, search::set_value(self@.cef_path));
            search::lemma_add_opt(
                search::add_dirs(none, explicit),
                cef_under_prefix(self@.exe),
            );
            search::lemma_add_dirs_concat(none, explicit, under);
            search::lemma_add_dirs_concat(none, explicit + under, beside);
            search::lemma_add_dirs_concat(none, explicit + under + beside, libs);
            search::lemma_add_dirs_concat(none, explicit + under + beside + libs, fhs);
            search::lemma_add_opt(
                search::add_dirs(none, explicit + under + beside + libs),
                Some(bytes::utf8(CEF_FHS_DIR)),
            );
        }
        if let Some(p) = &self.cef_path {
            if p.len() > 0 {
                search::push_unique(&mut dirs, PathBuf::from_bytes(p.as_slice()));
            }
        }
        if let Some(exe) = &self.exe {
            if let Some(p) = prefix::prefix_of(exe) {
                search::push_unique(&mut dirs, p.join(CEF_SUBDIR.as_bytes()));
            }
        }
        match &self.xdg_data_dirs {
            Some(v) => {
                if v.len() > 0 {
                    push_beside(&mut dirs, v.as_slice());
                } else {
                    push_beside(&mut dirs, xdg::DATA_DIRS_DEFAULT.as_bytes());
                }
            },
            None => {
                push_beside(&mut dirs, xdg::DATA_DIRS_DEFAULT.as_bytes());
            },
        }
        if let Some(list) = &self.ld_library_path {
            search::push_entries(&mut dirs, list.as_slice());
        }
        search::push_unique(&mut dirs, PathBuf::from(CEF_FHS_DIR));
        dirs
    }

    /// The first candidate that `is_cef_dir` accepts.
    #[must_use]
    pub fn find_with<F: Fn(&PathBuf) -> bool>(&self, is_cef_dir: &F) -> (r: Option<PathBuf>)
        requires
            forall|i: int|
                0 <= i < self@.candidates().len() ==> probe::can_ask(
                    is_cef_dir,
                    #[trigger] self@.candidates()[i],
                ),
        ensures
            probe::finds(
                is_cef_dir,
                self@.candidates(),
                self@.candidates(),
                bytes::opt_view(r),
            ),
    {
        probe::find_first(&self.candidates(), is_cef_dir)
    }

    /// The first candidate that holds a CEF distribution: one in which `cef_lib` is a file.
    #[must_use]
    pub fn find<F: Fn(&PathBuf) -> bool>(&self, cef_lib: &str, is_file: &F) -> (r: Option<PathBuf>)
        requires
            forall|i: int|
                0 <= i < self@.candidates().len() ==> probe::can_ask(
                    is_file,
                    #[trigger] self@.probes(bytes::utf8(cef_lib))[i],
                ),
        ensures
            probe::finds(
                is_file,
                self@.probes(bytes::utf8(cef_lib)),
                self@.candidates(),
                bytes::opt_view(r),
            ),
    {
        let ghost lib = bytes::utf8(cef_lib);
        let is_cef_dir = |dir: &PathBuf| -> (yes: bool)
            requires
                probe::can_ask(is_file, path::join(dir@, bytes::utf8(cef_lib))),
            ensures
                probe::answers(is_file, path::join(dir@, bytes::utf8(cef_lib)), yes),
            {
                let file = dir.join(cef_lib.as_bytes());
                is_file(&file)
            };
        assert forall|i: int| 0 <= i < self@.candidates().len() implies probe::can_ask(
            &is_cef_dir,
            #[trigger] self@.candidates()[i],
        ) by {
            assert(self@.probes(lib)[i] == path::join(self@.candidates()[i], lib));
        }
        let r = self.find_with(&is_cef_dir);
        proof {
            let hit = choose|hit: Option<int>| #[trigger]
                probe::first_hit(&is_cef_dir, self@.candidates(), hit) && bytes::opt_view(r)
                    == match hit {
                    Some(k) => Some(self@.candidates()[k]),
                    None => None,
                };
            assert forall|j: int, yes: bool|
                0 <= j < self@.candidates().len() && probe::answers(
                    &is_cef_dir,
                    #[trigger] self@.candidates()[j],
                    yes,
                ) implies #[trigger] probe::answers(is_file, self@.probes(lib)[j], yes) by {
                assert(self@.probes(lib)[j] == path::join(self@.candidates()[j], lib));
            }
            assert(probe::first_hit(is_file, self@.probes(lib), hit));
        }
        r
    }
}

/// Adds the CEF directories that belong to the data roots of a list.
fn push_beside(out: &mut Vec<PathBuf>, list: &[u8])
    ensures
        pathbuf::path_views(final(out)@) == search::add_dirs(
            pathbuf::path_views(old(out)@),
            cef_beside_all(bytes::pieces(list@, search::COLON)),
        ),
{
    let roots = bytes::split_on(list, search::COLON);
    let ghost all = bytes::pieces(list@, search::COLON);
    let ghost start = pathbuf::path_views(old(out)@);
    let mut i: usize = 0;
    assert(all.take(0) =~= Seq::empty());
    while i < roots.len()
        invariant
            i <= roots.len(),
            bytes::slice_views(roots@) == all,
            pathbuf::path_views(out@) == search::add_dirs(
                start,
                cef_beside_all(all.take(i as int)),
            ),
        decreases roots.len() - i,
    {
        assert(roots@[i as int]@ == all[i as int]);
        proof {
            assert(all.take(i + 1).drop_last() =~= all.take(i as int));
            let before = cef_beside_all(all.take(i as int));
            let dir = cef_beside(all[i as int]);
            search::lemma_add_dirs_concat(start, before, search::opt_list(dir));
            search::lemma_add_opt(search::add_dirs(start, before), dir);
        }
        let root = PathBuf::from_bytes(roots[i]);
        if root.is_absolute() {
            if let Some(p) = root.parent() {
                search::push_unique(out, p.join(CEF_SUBDIR.as_bytes()));
            }
        }
        i += 1;
    }
    assert(all.take(all.len() as int) =~= all);
}

/// The first directory that holds a CEF distribution, searched from an environment.
#[must_use]
pub fn find_cef_dir<F: Fn(&PathBuf) -> bool>(
    env: &Environment,
    cef_lib: &str,
    is_file: &F,
) -> (r: Option<PathBuf>)
    requires
        forall|i: int|
            0 <= i < search_in(env@).candidates().len() ==> probe::can_ask(
                is_file,
                #[trigger] search_in(env@).probes(bytes::utf8(cef_lib))[i],
            ),
    ensures
        probe::finds(
            is_file,
            search_in(env@).probes(bytes::utf8(cef_lib)),
            search_in(env@).candidates(),
            bytes::opt_view(r),
        ),
{
    CefSearch::from_env(env).find(cef_lib, is_file)
}

/// A located distribution, and whether [`CEF_PATH_ENV`] has to be set to it.
#[derive(Debug)]
pub struct CefLocation {
    /// The directory of the distribution.
    pub dir: PathBuf,
    /// Whether the variable does not hold that directory yet.
    pub export: bool,
}

/// Locate CEF, and decide whether [`CEF_PATH_ENV`] has to be exported so that every reader of it
/// finds the same distribution.
///
/// `None` says that nothing was found: then the environment is to be left alone, for the sake of
/// a binary that runs out of a build tree with a copy of its own.
///
/// A `CEF_PATH` that is set and valid is returned untouched; one that points at nothing is stale
/// and the search goes on.
pub fn ensure_cef_path<F: Fn(&PathBuf) -> bool>(
    env: &Environment,
    cef_lib: &str,
    is_file: &F,
) -> (r: Option<CefLocation>)
    requires
        forall|i: int|
            0 <= i < search_in(env@).candidates().len() ==> probe::can_ask(
                is_file,
                #[trigger] search_in(env@).probes(bytes::utf8(cef_lib))[i],
            ),
    ensures
        probe::finds(
            is_file,
            search_in(env@).probes(bytes::utf8(cef_lib)),
            search_in(env@).candidates(),
            match r {
                Some(l) => Some(l.dir@),
                None => None,
            },
        ),
        r matches Some(l) ==> l.export == (env@.var(CEF_PATH_ENV) != Some(l.dir@)),
{
    let search = CefSearch::from_env(env);
    match search.find(cef_lib, is_file) {
        Some(dir) => {
            let export = match &search.cef_path {
                Some(p) => !bytes::bytes_eq(p.as_slice(), dir.bytes.as_slice()),
                None => true,
            };
            Some(CefLocation { dir, export })
        },
        None => None,
    }
}

/// Every source of a lookup is a candidate under some spelling, unless it is empty.
proof fn lemma_source_is_candidate(s: CefSearchView, dir: Seq<u8>)
    requires
        s.sources().contains(dir),
        dir.len() > 0,
    ensures
        search::has_path(s.candidates(), dir),
{
    search::lemma_unique_dirs(s.sources());
    let k = choose|k: int| 0 <= k < s.sources().len() && s.sources()[k] == dir;
    assert(search::has_path(s.candidates(), s.sources()[k]));
}

/// No directory is tried twice, and the FHS location is always tried.
pub proof fn lemma_candidates(s: CefSearchView)
    ensures
        forall|i: int, j: int|
            0 <= i < j < s.candidates().len() ==> !path::same_path(
                #[trigger] s.candidates()[i],
                #[trigger] s.candidates()[j],
            ),
        search::has_path(s.candidates(), bytes::utf8(CEF_FHS_DIR)),
{
    search::lemma_unique_dirs(s.sources());
    reveal_strlit("/usr/lib/cef");
    bytes::lemma_ascii(CEF_FHS_DIR);
    let all = s.sources();
    assert(all[all.len() - 1] == bytes::utf8(CEF_FHS_DIR));
    lemma_source_is_candidate(s, bytes::utf8(CEF_FHS_DIR));
}

/// A lookup without its explicit path.
pub open spec fn without_cef_path(s: CefSearchView) -> CefSearchView {
    CefSearchView { cef_path: None, ..s }
}

/// An explicit path outranks everything: it is the first candidate as it was given, and the others
/// are those of the lookup without it, but for other spellings of it.
pub proof fn lemma_explicit_path_leads(s: CefSearchView, dir: Seq<u8>)
    requires
        search::set_value(s.cef_path) == Some(dir),
    ensures
        s.candidates() == seq![dir] + without_cef_path(s).candidates().filter(
            |d: Seq<u8>| !path::same_path(d, dir),
        ),
{
    assert(s.sources() =~= seq![dir] + without_cef_path(s).sources());
    search::lemma_unique_dirs_leading(dir, without_cef_path(s).sources());
}

/// What a lookup finds where a file system decides which files there are.
pub open spec fn located(
    s: CefSearchView,
    cef_lib: Seq<u8>,
    is_file: spec_fn(Seq<u8>) -> bool,
) -> Option<Seq<u8>> {
    probe::first_accepted(s.candidates(), |d: Seq<u8>| is_file(path::join(d, cef_lib)))
}

/// A lookup whose test goes by the path alone finds what [`located`] says.
pub proof fn lemma_finds_located<F: Fn(&PathBuf) -> bool>(
    s: CefSearchView,
    cef_lib: Seq<u8>,
    test: &F,
    is_file: spec_fn(Seq<u8>) -> bool,
    found: Option<Seq<u8>>,
)
    requires
        probe::decides(test, is_file),
        probe::finds(test, s.probes(cef_lib), s.candidates(), found),
    ensures
        found == located(s, cef_lib, is_file),
{
    let ask = |d: Seq<u8>| path::join(d, cef_lib);
    assert(s.candidates().map_values(ask) =~= s.probes(cef_lib));
    probe::lemma_finds_first_accepted(test, is_file, ask, s.candidates(), found);
    assert((|d: Seq<u8>| is_file(path::join(d, cef_lib))) =~= (|d: Seq<u8>| is_file(ask(d))));
}

/// A lookup finds a distribution in every file system that has one in some candidate, and what it
/// finds is a distribution.
pub proof fn lemma_located(s: CefSearchView, cef_lib: Seq<u8>, is_file: spec_fn(Seq<u8>) -> bool)
    ensures
        located(s, cef_lib, is_file) is None == (forall|i: int|
            0 <= i < s.candidates().len() ==> !is_file(
                path::join(#[trigger] s.candidates()[i], cef_lib),
            )),
        located(s, cef_lib, is_file) matches Some(d) ==> {
            &&& s.candidates().contains(d)
            &&& is_file(path::join(d, cef_lib))
        },
{
    let accept = |d: Seq<u8>| is_file(path::join(d, cef_lib));
    probe::lemma_first_accepted(s.candidates(), accept);
    assert forall|i: int| 0 <= i < s.candidates().len() implies accept(
        #[trigger] s.candidates()[i],
    ) == is_file(path::join(s.candidates()[i], cef_lib)) by {}
}

/// An explicit path that holds a distribution is found as it was given, so that there is nothing
/// to export.
pub proof fn lemma_valid_cef_path_is_kept(
    s: CefSearchView,
    dir: Seq<u8>,
    cef_lib: Seq<u8>,
    is_file: spec_fn(Seq<u8>) -> bool,
)
    requires
        search::set_value(s.cef_path) == Some(dir),
        is_file(path::join(dir, cef_lib)),
    ensures
        located(s, cef_lib, is_file) == Some(dir),
        located(s, cef_lib, is_file) == s.cef_path,
{
    lemma_explicit_path_leads(s, dir);
    let rest = without_cef_path(s).candidates().filter(|d: Seq<u8>| !path::same_path(d, dir));
    probe::lemma_first_accepted_leading(
        dir,
        rest,
        |d: Seq<u8>| is_file(path::join(d, cef_lib)),
    );
}

/// All spellings of a path are one file.
pub open spec fn spelling_does_not_matter(is_file: spec_fn(Seq<u8>) -> bool) -> bool {
    forall|a: Seq<u8>, b: Seq<u8>| #[trigger]
        path::same_path(a, b) ==> is_file(a) == is_file(b)
}

/// An explicit path that holds no distribution is as good as none.
pub proof fn lemma_stale_cef_path_falls_through(
    s: CefSearchView,
    dir: Seq<u8>,
    cef_lib: Seq<u8>,
    is_file: spec_fn(Seq<u8>) -> bool,
)
    requires
        search::set_value(s.cef_path) == Some(dir),
        !is_file(path::join(dir, cef_lib)),
        spelling_does_not_matter(is_file),
    ensures
        located(s, cef_lib, is_file) == located(without_cef_path(s), cef_lib, is_file),
{
    let accept = |d: Seq<u8>| is_file(path::join(d, cef_lib));
    let other = |d: Seq<u8>| !path::same_path(d, dir);
    lemma_explicit_path_leads(s, dir);
    let all = without_cef_path(s).candidates();
    probe::lemma_first_accepted_leading(dir, all.filter(other), accept);
    assert forall|d: Seq<u8>| #[trigger] accept(d) implies other(d) by {
        if path::same_path(d, dir) {
            path::lemma_join_same_path(d, dir, cef_lib, cef_lib);
            assert(path::same_path(path::join(d, cef_lib), path::join(dir, cef_lib)));
        }
    }
    probe::lemma_first_accepted_filter(all, other, accept);
}

/// An application installed as `<prefix>/bin/<exe>` tries `<prefix>/lib/cef`, first unless an
/// explicit path is set.
pub proof fn lemma_relocated_install_tries_its_own_cef(s: CefSearchView, p: Seq<u8>, exe: Seq<u8>)
    requires
        path::is_plain_name(exe),
        s.exe == Some(path::join(path::join(p, bytes::utf8("bin")), exe)),
    ensures
        search::has_path(s.candidates(), path::join(p, bytes::utf8(CEF_SUBDIR))),
        search::set_value(s.cef_path) is None ==> path::same_path(
            s.candidates()[0],
            path::join(p, bytes::utf8(CEF_SUBDIR)),
        ),
{
    prefix::lemma_prefix_of_install(p, exe);
    let sub = bytes::utf8(CEF_SUBDIR);
    let q = prefix::prefix_above_bin(s.exe->0)->0;
    let dir = path::join(q, sub);
    lemma_cef_subdir();
    path::lemma_join_same_path(q, p, sub, sub);
    let a = search::opt_list(search::set_value(s.cef_path));
    let c = cef_beside_all(s.data_roots()) + entries(s.ld_library_path) + seq![
        bytes::utf8(CEF_FHS_DIR),
    ];
    assert(s.sources() =~= a + (seq![dir] + c));
    assert(s.sources()[a.len() as int] == dir);
    lemma_source_is_candidate(s, dir);
    let i = choose|i: int|
        0 <= i < s.candidates().len() && path::same_path(#[trigger] s.candidates()[i], dir);
    assert(path::same_path(s.candidates()[i], path::join(p, sub)));
    if search::set_value(s.cef_path) is None {
        assert(s.sources() =~= seq![dir] + c);
        search::lemma_unique_dirs_leading(dir, c);
    }
}

proof fn lemma_cef_subdir()
    ensures
        bytes::utf8(CEF_SUBDIR).len() == 7,
{
    reveal_strlit("lib/cef");
    bytes::lemma_ascii(CEF_SUBDIR);
}

/// The CEF directories that belong to a list of data roots have the one of each root.
proof fn lemma_cef_beside_all(roots: Seq<Seq<u8>>, root: Seq<u8>)
    requires
        roots.contains(root),
        cef_beside(root) is Some,
    ensures
        cef_beside_all(roots).contains(cef_beside(root)->0),
    decreases roots.len(),
{
    let dir = cef_beside(root)->0;
    let init = roots.drop_last();
    let before = cef_beside_all(init);
    let last = search::opt_list(cef_beside(roots.last()));
    let all = cef_beside_all(roots);
    if roots.last() == root {
        assert(all[before.len() as int] == dir);
    } else {
        let k = choose|k: int| 0 <= k < roots.len() && roots[k] == root;
        assert(init[k] == root);
        lemma_cef_beside_all(init, root);
        let j = choose|j: int| 0 <= j < before.len() && before[j] == dir;
        assert(all[j] == dir);
    }
}

/// A CEF in a prefix of its own is tried through the data root of that prefix: for every absolute
/// prefix whose `share`, or whatever the directory is called, is a data root.
pub proof fn lemma_cef_in_its_own_prefix_is_tried(s: CefSearchView, p: Seq<u8>, name: Seq<u8>)
    requires
        path::is_absolute(p),
        path::is_plain_name(name),
        s.data_roots().contains(path::join(p, name)),
    ensures
        search::has_path(s.candidates(), path::join(p, bytes::utf8(CEF_SUBDIR))),
{
    let sub = bytes::utf8(CEF_SUBDIR);
    let root = path::join(p, name);
    path::lemma_plain_name(name);
    assert(root[0] == p[0]);
    path::lemma_parent_of_join(p, name);
    let q = path::parent(root)->0;
    let dir = path::join(q, sub);
    lemma_cef_subdir();
    path::lemma_join_same_path(q, p, sub, sub);
    lemma_cef_beside_all(s.data_roots(), root);
    let b = cef_beside_all(s.data_roots());
    let k = choose|k: int| 0 <= k < b.len() && b[k] == dir;
    let before = search::opt_list(search::set_value(s.cef_path)) + search::opt_list(
        cef_under_prefix(s.exe),
    );
    assert(s.sources()[before.len() + k] == dir);
    lemma_source_is_candidate(s, dir);
    let i = choose|i: int|
        0 <= i < s.candidates().len() && path::same_path(#[trigger] s.candidates()[i], dir);
    assert(path::same_path(s.candidates()[i], path::join(p, sub)));
}

/// Every directory of `LD_LIBRARY_PATH` is tried.
pub proof fn lemma_ld_library_path_is_tried(s: CefSearchView, dir: Seq<u8>)
    requires
        dir.len() > 0,
        entries(s.ld_library_path).contains(dir),
    ensures
        search::has_path(s.candidates(), dir),
{
    let libs = entries(s.ld_library_path);
    let k = choose|k: int| 0 <= k < libs.len() && libs[k] == dir;
    let before = search::opt_list(search::set_value(s.cef_path)) + search::opt_list(
        cef_under_prefix(s.exe),
    ) + cef_beside_all(s.data_roots());
    assert(s.sources()[before.len() + k] == dir);
    lemma_source_is_candidate(s, dir);
}

/// A distribution in the FHS location is never missed, and where there is no other it is the one
/// that is found.
pub proof fn lemma_fhs_install_is_found(
    s: CefSearchView,
    cef_lib: Seq<u8>,
    is_file: spec_fn(Seq<u8>) -> bool,
)
    requires
        is_file(path::join(bytes::utf8(CEF_FHS_DIR), cef_lib)),
        spelling_does_not_matter(is_file),
    ensures
        located(s, cef_lib, is_file) is Some,
        (forall|d: Seq<u8>| #[trigger]
            is_file(path::join(d, cef_lib)) ==> path::same_path(d, bytes::utf8(CEF_FHS_DIR)))
            ==> path::same_path(located(s, cef_lib, is_file)->0, bytes::utf8(CEF_FHS_DIR)),
{
    let fhs = bytes::utf8(CEF_FHS_DIR);
    lemma_candidates(s);
    lemma_located(s, cef_lib, is_file);
    let i = choose|i: int|
        0 <= i < s.candidates().len() && path::same_path(#[trigger] s.candidates()[i], fhs);
    path::lemma_join_same_path(s.candidates()[i], fhs, cef_lib, cef_lib);
    assert(path::same_path(path::join(s.candidates()[i], cef_lib), path::join(fhs, cef_lib)));
}

/// Exporting what was found settles the matter: with `CEF_PATH` set to it, the same directory is
/// found again, and there is nothing left to export.
pub proof fn lemma_exported_path_is_found_again(
    env: EnvironmentView,
    dir: Seq<u8>,
    cef_lib: Seq<u8>,
    is_file: spec_fn(Seq<u8>) -> bool,
)
    requires
        located(search_in(env), cef_lib, is_file) == Some(dir),
    ensures
        located(search_in(xdg::with_var(env, CEF_PATH_ENV, dir)), cef_lib, is_file) == Some(dir),
        xdg::with_var(env, CEF_PATH_ENV, dir).var(CEF_PATH_ENV) == Some(dir),
{
    let s = search_in(env);
    lemma_located(s, cef_lib, is_file);
    search::lemma_unique_dirs(s.sources());
    let i = choose|i: int| 0 <= i < s.candidates().len() && s.candidates()[i] == dir;
    assert(s.candidates()[i].len() > 0);
    lemma_valid_cef_path_is_kept(
        search_in(xdg::with_var(env, CEF_PATH_ENV, dir)),
        dir,
        cef_lib,
        is_file,
    );
}

/// Empty variables give the candidates that unset ones give.
pub proof fn lemma_empty_variables_are_unset(s: CefSearchView)
    ensures
        (CefSearchView { cef_path: Some(Seq::empty()), ..s }).candidates() == (CefSearchView {
            cef_path: None,
            ..s
        }).candidates(),
        (CefSearchView { xdg_data_dirs: Some(Seq::empty()), ..s }).candidates() == (CefSearchView {
            xdg_data_dirs: None,
            ..s
        }).candidates(),
        (CefSearchView { ld_library_path: Some(Seq::empty()), ..s }).candidates() == (
        CefSearchView { ld_library_path: None, ..s }).candidates(),
{
    let none: Seq<Seq<u8>> = Seq::empty();
    let before = search::opt_list(search::set_value(s.cef_path)) + search::opt_list(
        cef_under_prefix(s.exe),
    ) + cef_beside_all(s.data_roots());
    let libs = entries(Some(Seq::empty()));
    let fhs = seq![bytes::utf8(CEF_FHS_DIR)];
    assert(libs =~= search::opt_list(Some(Seq::empty())));
    search::lemma_add_dirs_concat(none, before, libs);
    search::lemma_add_opt(search::add_dirs(none, before), Some(Seq::empty()));
    search::lemma_add_dirs_concat(none, before + libs, fhs);
    search::lemma_add_dirs_concat(none, before, fhs);
    assert(before + none =~= before);
}

/// A data root more gives one CEF directory more, `lib/cef` under the parent of the root, exactly
/// where the root is absolute and has a parent.
pub proof fn lemma_cef_beside_all_step(roots: Seq<Seq<u8>>, root: Seq<u8>)
    ensures
        cef_beside_all(Seq::empty()) == Seq::<Seq<u8>>::empty(),
        root.len() > 0 && root[0] == 0x2f && path::parent(root) is Some ==> cef_beside_all(
            roots.push(root),
        ) == cef_beside_all(roots).push(
            path::join(path::parent(root)->0, bytes::utf8("lib/cef")),
        ),
        !(root.len() > 0 && root[0] == 0x2f && path::parent(root) is Some) ==> cef_beside_all(
            roots.push(root),
        ) == cef_beside_all(roots),
{
    assert(roots.push(root).drop_last() =~= roots);
    let before = cef_beside_all(roots);
    match cef_beside(root) {
        Some(d) => {
            assert(before + seq![d] =~= before.push(d));
        },
        None => {
            assert(before + search::opt_list(None) =~= before);
        },
    }
}

} // verus!
