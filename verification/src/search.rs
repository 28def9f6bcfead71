//! Search lists: directories in order, most specific first, each of them once.
use crate::bytes;
use crate::path;
use crate::pathbuf;
use crate::pathbuf::PathBuf;
use vstd::prelude::*;

verus! {

/// The byte `:`, which separates the directories of a list in an environment variable.
pub const COLON: u8 = 0x3a;

/// Whether a list has a directory under any spelling of its path.
pub open spec fn has_path(dirs: Seq<Seq<u8>>, dir: Seq<u8>) -> bool {
    exists|i: int| 0 <= i < dirs.len() && path::same_path(#[trigger] dirs[i], dir)
}

/// A list with one more directory at its end, unless that is empty or in the list.
pub open spec fn add_dir(dirs: Seq<Seq<u8>>, dir: Seq<u8>) -> Seq<Seq<u8>> {
    if dir.len() == 0 || has_path(dirs, dir) {
        dirs
    } else {
        dirs.push(dir)
    }
}

/// A list with more directories, added one by one.
pub open spec fn add_dirs(dirs: Seq<Seq<u8>>, more: Seq<Seq<u8>>) -> Seq<Seq<u8>>
    decreases more.len(),
{
    if more.len() == 0 {
        dirs
    } else {
        add_dir(add_dirs(dirs, more.drop_last()), more.last())
    }
}

/// The directories of `list` in order, without empty ones, each where it comes first.
pub open spec fn unique_dirs(list: Seq<Seq<u8>>) -> Seq<Seq<u8>> {
    add_dirs(Seq::empty(), list)
}

/// A value as a list: one entry where it is there, none otherwise.
pub open spec fn opt_list(dir: Option<Seq<u8>>) -> Seq<Seq<u8>> {
    match dir {
        Some(d) => seq![d],
        None => Seq::empty(),
    }
}

/// The value of a variable that counts as set: one that is there and not empty.
pub open spec fn set_value(var: Option<Seq<u8>>) -> Option<Seq<u8>> {
    match var {
        Some(v) => if v.len() == 0 {
            None
        } else {
            Some(v)
        },
        None => None,
    }
}

/// The value of a variable, or a default where it is unset or empty.
pub open spec fn value_or(var: Option<Seq<u8>>, default: Seq<u8>) -> Seq<u8> {
    match set_value(var) {
        Some(v) => v,
        None => default,
    }
}

/// A per-user directory: `xdg_home` where it is set, else `home` with `fallback` appended.
pub open spec fn user_dir(
    xdg_home: Option<Seq<u8>>,
    home: Option<Seq<u8>>,
    fallback: Seq<u8>,
) -> Option<Seq<u8>> {
    match (set_value(xdg_home), set_value(home)) {
        (Some(dir), _) => Some(dir),
        (None, Some(h)) => Some(path::join(h, fallback)),
        (None, None) => None,
    }
}

/// The sources of a search list, most specific first: the per-user directory, that of the install
/// prefix, then the entries of the variable or of its default.
pub open spec fn sources(
    home: Option<Seq<u8>>,
    prefix: Option<Seq<u8>>,
    dirs_var: Option<Seq<u8>>,
    dirs_default: Seq<u8>,
) -> Seq<Seq<u8>> {
    opt_list(home) + opt_list(prefix) + bytes::pieces(value_or(dirs_var, dirs_default), COLON)
}

/// Every directory of a list with `sub` appended.
pub open spec fn with_sub(dirs: Seq<Seq<u8>>, sub: Seq<u8>) -> Seq<Seq<u8>> {
    dirs.map_values(|d: Seq<u8>| path::join(d, sub))
}

/// Adding two lists one after the other adds their concatenation.
pub proof fn lemma_add_dirs_concat(dirs: Seq<Seq<u8>>, a: Seq<Seq<u8>>, b: Seq<Seq<u8>>)
    ensures
        add_dirs(dirs, a + b) == add_dirs(add_dirs(dirs, a), b),
    decreases b.len(),
{
    if b.len() == 0 {
        assert(a + b =~= a);
    } else {
        assert((a + b).drop_last() =~= a + b.drop_last());
        lemma_add_dirs_concat(dirs, a, b.drop_last());
    }
}

/// Adding a list of at most one directory.
pub proof fn lemma_add_opt(dirs: Seq<Seq<u8>>, dir: Option<Seq<u8>>)
    ensures
        add_dirs(dirs, opt_list(dir)) == match dir {
            Some(d) => add_dir(dirs, d),
            None => dirs,
        },
{
    match dir {
        Some(d) => {
            assert(seq![d].drop_last() =~= Seq::empty());
            assert(add_dirs(dirs, seq![d].drop_last()) == dirs);
        },
        None => {},
    }
}

/// Whether a list has a directory under any spelling of its path.
fn contains(dirs: &Vec<PathBuf>, dir: &PathBuf) -> (r: bool)
    ensures
        r == has_path(pathbuf::path_views(dirs@), dir@),
{
    let mut i: usize = 0;
    while i < dirs.len()
        invariant
            i <= dirs.len(),
            forall|j: int| 0 <= j < i ==> !path::same_path(#[trigger] dirs@[j]@, dir@),
        decreases dirs.len() - i,
    {
        if dirs[i] == *dir {
            assert(path::same_path(pathbuf::path_views(dirs@)[i as int], dir@));
            return true;
        }
        i += 1;
    }
    assert forall|j: int| 0 <= j < dirs.len() implies !path::same_path(
        #[trigger] pathbuf::path_views(dirs@)[j],
        dir@,
    ) by {
        assert(!path::same_path(dirs@[j]@, dir@));
    }
    false
}

/// Adds a directory at the end of a list, unless it is empty or in the list.
pub fn push_unique(out: &mut Vec<PathBuf>, dir: PathBuf)
    ensures
        pathbuf::path_views(final(out)@) == add_dir(pathbuf::path_views(old(out)@), dir@),
        final(out)@ == (if dir.bytes@.len() == 0 || (exists|i: int|
            0 <= i < old(out)@.len() && path::components((#[trigger] old(out)@[i]).bytes@)
                == path::components(dir.bytes@)) {
            old(out)@
        } else {
            old(out)@.push(dir)
        }),
{
    proof {
        let all = pathbuf::path_views(old(out)@);
        if has_path(all, dir@) {
            let i = choose|i: int| 0 <= i < all.len() && path::same_path(#[trigger] all[i], dir@);
            assert(path::components(old(out)@[i].bytes@) == path::components(dir.bytes@));
        }
        if exists|i: int|
            0 <= i < old(out)@.len() && path::components((#[trigger] old(out)@[i]).bytes@)
                == path::components(dir.bytes@) {
            let i = choose|i: int|
                0 <= i < old(out)@.len() && path::components((#[trigger] old(out)@[i]).bytes@)
                    == path::components(dir.bytes@);
            assert(path::same_path(all[i], dir@));
        }
    }
    if !dir.is_empty() && !contains(out, &dir) {
        out.push(dir);
        assert(pathbuf::path_views(out@) =~= pathbuf::path_views(old(out)@).push(dir@));
    }
}

/// Adds the entries of a list as an environment variable holds it.
pub fn push_entries(out: &mut Vec<PathBuf>, list: &[u8])
    ensures
        pathbuf::path_views(final(out)@) == add_dirs(
            pathbuf::path_views(old(out)@),
            bytes::pieces(list@, COLON),
        ),
{
    let entries = bytes::split_on(list, COLON);
    let ghost all = bytes::pieces(list@, COLON);
    let mut i: usize = 0;
    assert(all.take(0) =~= Seq::empty());
    while i < entries.len()
        invariant
            i <= entries.len(),
            bytes::slice_views(entries@) == all,
            pathbuf::path_views(out@) == add_dirs(
                pathbuf::path_views(old(out)@),
                all.take(i as int),
            ),
        decreases entries.len() - i,
    {
        assert(entries@[i as int]@ == all[i as int]);
        assert(all.take(i + 1).drop_last() =~= all.take(i as int));
        push_unique(out, PathBuf::from_bytes(entries[i]));
        i += 1;
    }
    assert(all.take(all.len() as int) =~= all);
}

/// Per-user directory: `xdg_home` verbatim when set, else `home` joined with `fallback`. An empty
/// value counts as unset.
pub fn home_dir(xdg_home: Option<Vec<u8>>, home: Option<Vec<u8>>, fallback: &str) -> (r: Option<
    PathBuf,
>)
    ensures
        bytes::opt_view(r) == user_dir(
            bytes::opt_view(xdg_home),
            bytes::opt_view(home),
            bytes::utf8(fallback),
        ),
{
    if let Some(dir) = xdg_home {
        if dir.len() > 0 {
            return Some(PathBuf { bytes: dir });
        }
    }
    if let Some(h) = home {
        if h.len() > 0 {
            return Some(PathBuf { bytes: h }.join(fallback.as_bytes()));
        }
    }
    None
}

/// Merges the three sources into one ordered search list without duplicates.
pub fn resolve(
    home: Option<PathBuf>,
    prefix: Option<PathBuf>,
    dirs_var: Option<Vec<u8>>,
    dirs_default: &str,
) -> (r: Vec<PathBuf>)
    ensures
        pathbuf::path_views(r@) == unique_dirs(
            sources(
                bytes::opt_view(home),
                bytes::opt_view(prefix),
                bytes::opt_view(dirs_var),
                bytes::utf8(dirs_default),
            ),
        ),
{
    let mut out: Vec<PathBuf> = Vec::new();
    assert(pathbuf::path_views(out@) =~= Seq::empty());
    let ghost h = bytes::opt_view(home);
    let ghost p = bytes::opt_view(prefix);
    let ghost list = bytes::pieces(
        value_or(bytes::opt_view(dirs_var), bytes::utf8(dirs_default)),
        COLON,
    );
    proof {
        lemma_add_opt(Seq::empty(), h);
        lemma_add_opt(add_dirs(Seq::empty(), opt_list(h)), p);
        lemma_add_dirs_concat(Seq::empty(), opt_list(h), opt_list(p));
        lemma_add_dirs_concat(Seq::empty(), opt_list(h) + opt_list(p), list);
    }
    if let Some(dir) = home {
        push_unique(&mut out, dir);
    }
    if let Some(dir) = prefix {
        push_unique(&mut out, dir);
    }
    match dirs_var {
        Some(v) => {
            if v.len() > 0 {
                push_entries(&mut out, v.as_slice());
            } else {
                push_entries(&mut out, dirs_default.as_bytes());
            }
        },
        None => {
            push_entries(&mut out, dirs_default.as_bytes());
        },
    }
    out
}

/// Appends `sub` to every directory of a list.
pub fn subdirs(dirs: &Vec<PathBuf>, sub: &str) -> (r: Vec<PathBuf>)
    ensures
        pathbuf::path_views(r@) == with_sub(pathbuf::path_views(dirs@), bytes::utf8(sub)),
{
    let mut out: Vec<PathBuf> = Vec::new();
    let mut i: usize = 0;
    while i < dirs.len()
        invariant
            i <= dirs.len(),
            out.len() == i,
            forall|j: int|
                0 <= j < i ==> #[trigger] out@[j]@ == path::join(dirs@[j]@, bytes::utf8(sub)),
        decreases dirs.len() - i,
    {
        out.push(dirs[i].join(sub.as_bytes()));
        i += 1;
    }
    assert(pathbuf::path_views(out@) =~= with_sub(pathbuf::path_views(dirs@), bytes::utf8(sub)));
    out
}

/// A search list has no empty directory, none under two spellings, none that its sources do not
/// name, and every one that they name.
pub proof fn lemma_unique_dirs(list: Seq<Seq<u8>>)
    ensures
        forall|i: int|
            0 <= i < unique_dirs(list).len() ==> (#[trigger] unique_dirs(list)[i]).len() > 0,
        forall|i: int, j: int|
            0 <= i < j < unique_dirs(list).len() ==> !path::same_path(
                #[trigger] unique_dirs(list)[i],
                #[trigger] unique_dirs(list)[j],
            ),
        forall|i: int|
            0 <= i < unique_dirs(list).len() ==> list.contains(#[trigger] unique_dirs(list)[i]),
        forall|k: int|
            0 <= k < list.len() && list[k].len() > 0 ==> has_path(
                unique_dirs(list),
                #[trigger] list[k],
            ),
    decreases list.len(),
{
    if list.len() > 0 {
        let init = list.drop_last();
        let before = unique_dirs(init);
        let now = unique_dirs(list);
        lemma_unique_dirs(init);
        assert(now == add_dir(before, list.last()));
        assert forall|i: int| 0 <= i < now.len() implies list.contains(#[trigger] now[i]) by {
            if i < before.len() {
                assert(before[i] == now[i]);
                assert(init.contains(before[i]));
                let k = choose|k: int| 0 <= k < init.len() && init[k] == before[i];
                assert(list[k] == now[i]);
            } else {
                assert(list[list.len() - 1] == now[i]);
            }
        }
        assert forall|i: int, j: int| 0 <= i < j < now.len() implies !path::same_path(
            #[trigger] now[i],
            #[trigger] now[j],
        ) by {
            assert(before[i] == now[i]);
            if j < before.len() {
                assert(before[j] == now[j]);
            }
        }
        assert forall|k: int| 0 <= k < list.len() && list[k].len() > 0 implies has_path(
            now,
            #[trigger] list[k],
        ) by {
            if k < init.len() {
                assert(init[k] == list[k]);
                let i = choose|i: int|
                    0 <= i < before.len() && path::same_path(#[trigger] before[i], init[k]);
                assert(now[i] == before[i]);
            } else if !has_path(before, list.last()) {
                assert(now[before.len() as int] == list.last());
            }
        }
    }
}

/// Every directory of a search list stands where it first comes among the sources: what precedes
/// it in the list is what the sources before it give, and they do not name it.
pub proof fn lemma_unique_dirs_order(list: Seq<Seq<u8>>, i: int) -> (k: int)
    requires
        0 <= i < unique_dirs(list).len(),
    ensures
        0 <= k < list.len(),
        list[k] == unique_dirs(list)[i],
        unique_dirs(list.take(k)) == unique_dirs(list).take(i),
        !has_path(list.take(k), list[k]),
    decreases list.len(),
{
    let n = list.len() - 1;
    let init = list.drop_last();
    let before = unique_dirs(init);
    if i < before.len() {
        let k = lemma_unique_dirs_order(init, i);
        assert(init.take(k) =~= list.take(k));
        assert(before.take(i) =~= unique_dirs(list).take(i));
        k
    } else {
        assert(list.take(n) =~= init);
        assert(unique_dirs(list).take(i) =~= before);
        lemma_unique_dirs(init);
        if has_path(init, list[n]) {
            let m = choose|m: int|
                0 <= m < init.len() && path::same_path(#[trigger] init[m], list[n]);
            path::lemma_empty_path(init[m]);
            path::lemma_empty_path(list[n]);
            assert(has_path(before, init[m]));
            let j = choose|j: int|
                0 <= j < before.len() && path::same_path(#[trigger] before[j], init[m]);
            assert(path::same_path(before[j], list[n]));
        }
        n
    }
}

/// Less specific sources never disturb more specific ones: they only add directories at the end.
pub proof fn lemma_unique_dirs_extend(a: Seq<Seq<u8>>, b: Seq<Seq<u8>>)
    ensures
        unique_dirs(a).len() <= unique_dirs(a + b).len(),
        unique_dirs(a + b).take(unique_dirs(a).len() as int) == unique_dirs(a),
        forall|i: int|
            unique_dirs(a).len() <= i < unique_dirs(a + b).len() ==> b.contains(
                #[trigger] unique_dirs(a + b)[i],
            ),
    decreases b.len(),
{
    let n = unique_dirs(a).len() as int;
    if b.len() == 0 {
        assert(a + b =~= a);
        assert(unique_dirs(a).take(n) =~= unique_dirs(a));
    } else {
        let init = b.drop_last();
        lemma_unique_dirs_extend(a, init);
        assert((a + b).drop_last() =~= a + init);
        let before = unique_dirs(a + init);
        let now = unique_dirs(a + b);
        assert(now.take(n) =~= before.take(n));
        assert forall|i: int| n <= i < now.len() implies b.contains(#[trigger] now[i]) by {
            if i < before.len() {
                assert(now[i] == before[i]);
                assert(init.contains(before[i]));
                let k = choose|k: int| 0 <= k < init.len() && init[k] == before[i];
                assert(b[k] == now[i]);
            } else {
                assert(b[b.len() - 1] == now[i]);
            }
        }
    }
}

/// Merging a search list again changes nothing.
pub proof fn lemma_unique_dirs_idempotent(list: Seq<Seq<u8>>)
    ensures
        unique_dirs(unique_dirs(list)) == unique_dirs(list),
    decreases list.len(),
{
    if list.len() > 0 {
        let init = list.drop_last();
        let before = unique_dirs(init);
        lemma_unique_dirs_idempotent(init);
        if !(list.last().len() == 0 || has_path(before, list.last())) {
            assert(before.push(list.last()).drop_last() =~= before);
        }
    }
}

/// A leading directory comes first, and takes only its own other spellings out of the rest.
pub proof fn lemma_unique_dirs_leading(dir: Seq<u8>, rest: Seq<Seq<u8>>)
    requires
        dir.len() > 0,
    ensures
        unique_dirs(seq![dir] + rest) == seq![dir] + unique_dirs(rest).filter(
            |d: Seq<u8>| !path::same_path(d, dir),
        ),
    decreases rest.len(),
{
    let other = |d: Seq<u8>| !path::same_path(d, dir);
    let none: Seq<Seq<u8>> = Seq::empty();
    if rest.len() == 0 {
        assert(seq![dir] + rest =~= seq![dir]);
        lemma_add_opt(none, Some(dir));
        reveal(Seq::filter);
        assert(none.push(dir) =~= seq![dir] + none.filter(other));
    } else {
        let init = rest.drop_last();
        let last = rest.last();
        let before = unique_dirs(init);
        let kept = before.filter(other);
        lemma_unique_dirs_leading(dir, init);
        assert((seq![dir] + rest).drop_last() =~= seq![dir] + init);
        assert((seq![dir] + rest).last() == last);
        let whole = seq![dir] + kept;
        lemma_filter_push(before, last, other);
        if last.len() > 0 {
            if path::same_path(last, dir) {
                assert(path::same_path(whole[0], last));
                assert(has_path(whole, last));
            } else {
                if has_path(before, last) {
                    let i = choose|i: int|
                        0 <= i < before.len() && path::same_path(#[trigger] before[i], last);
                    assert(other(before[i]));
                    before.lemma_filter_contains(other, i);
                    let j = choose|j: int| 0 <= j < kept.len() && kept[j] == before[i];
                    assert(whole[j + 1] == kept[j]);
                    assert(has_path(whole, last));
                } else {
                    if has_path(whole, last) {
                        let j = choose|j: int|
                            0 <= j < whole.len() && path::same_path(#[trigger] whole[j], last);
                        assert(j > 0);
                        assert(whole[j] == kept[j - 1]);
                        before.lemma_filter_contains_rev(other, kept[j - 1]);
                        let i = choose|i: int| 0 <= i < before.len() && before[i] == kept[j - 1];
                        assert(path::same_path(before[i], last));
                    }
                    assert(whole.push(last) =~= seq![dir] + kept.push(last));
                }
            }
        }
    }
}

/// Filtering a list with one more element.
proof fn lemma_filter_push(s: Seq<Seq<u8>>, x: Seq<u8>, keep: spec_fn(Seq<u8>) -> bool)
    ensures
        s.push(x).filter(keep) == if keep(x) {
            s.filter(keep).push(x)
        } else {
            s.filter(keep)
        },
{
    reveal(Seq::filter);
    assert(s.push(x).drop_last() =~= s);
}

/// An empty variable counts as an unset one.
pub proof fn lemma_empty_is_unset(
    other: Option<Seq<u8>>,
    prefix: Option<Seq<u8>>,
    fallback: Seq<u8>,
)
    ensures
        user_dir(Some(Seq::empty()), other, fallback) == user_dir(None, other, fallback),
        user_dir(other, Some(Seq::empty()), fallback) == user_dir(other, None, fallback),
        sources(other, prefix, Some(Seq::empty()), fallback) == sources(
            other,
            prefix,
            None,
            fallback,
        ),
{
}

/// A per-user directory is never empty.
pub proof fn lemma_user_dir_not_empty(
    xdg_home: Option<Seq<u8>>,
    home: Option<Seq<u8>>,
    fallback: Seq<u8>,
)
    ensures
        user_dir(xdg_home, home, fallback) matches Some(d) ==> d.len() > 0,
{
}

/// A variable that holds directories with a `:` between neighbours gives those directories, in
/// order.
pub proof fn lemma_every_entry_is_a_source(
    home: Option<Seq<u8>>,
    prefix: Option<Seq<u8>>,
    dirs: Seq<Seq<u8>>,
    default: Seq<u8>,
)
    requires
        forall|i: int, j: int|
            0 <= i < dirs.len() && 0 <= j < dirs[i].len() ==> #[trigger] dirs[i][j] != COLON,
        bytes::joined(dirs, COLON).len() > 0,
    ensures
        sources(home, prefix, Some(bytes::joined(dirs, COLON)), default) == opt_list(home)
            + opt_list(prefix) + dirs,
{
    bytes::lemma_joined(dirs, COLON);
}

/// Appending a relative path keeps every directory below its root, and different directories
/// different.
pub proof fn lemma_with_sub(dirs: Seq<Seq<u8>>, sub: Seq<u8>)
    requires
        !path::is_absolute(sub),
        forall|i: int| 0 <= i < dirs.len() ==> (#[trigger] dirs[i]).len() > 0,
        forall|i: int, j: int|
            0 <= i < j < dirs.len() ==> !path::same_path(#[trigger] dirs[i], #[trigger] dirs[j]),
    ensures
        with_sub(dirs, sub).len() == dirs.len(),
        forall|i: int|
            0 <= i < dirs.len() ==> path::components(#[trigger] with_sub(dirs, sub)[i])
                == path::components(dirs[i]) + path::without_leading_dot(path::components(sub)),
        forall|i: int, j: int|
            0 <= i < j < dirs.len() ==> !path::same_path(
                #[trigger] with_sub(dirs, sub)[i],
                #[trigger] with_sub(dirs, sub)[j],
            ),
{
    let all = with_sub(dirs, sub);
    let tail = path::without_leading_dot(path::components(sub));
    assert forall|i: int| 0 <= i < dirs.len() implies path::components(#[trigger] all[i])
        == path::components(dirs[i]) + tail by {
        path::lemma_join_components(dirs[i], sub);
    }
    assert forall|i: int, j: int| 0 <= i < j < dirs.len() implies !path::same_path(
        #[trigger] all[i],
        #[trigger] all[j],
    ) by {
        let a = path::components(dirs[i]);
        let b = path::components(dirs[j]);
        if path::same_path(all[i], all[j]) {
            assert((a + tail).len() == (b + tail).len());
            assert((a + tail).take(a.len() as int) =~= a);
            assert((b + tail).take(b.len() as int) =~= b);
            assert(path::same_path(dirs[i], dirs[j]));
        }
    }
}

/// A list has a directory where one of its entries has the same components.
pub proof fn lemma_has_path(dirs: Seq<Seq<u8>>, dir: Seq<u8>)
    ensures
        has_path(dirs, dir) == (exists|i: int|
            0 <= i < dirs.len() && path::components(#[trigger] dirs[i]) == path::components(dir)),
{
    if has_path(dirs, dir) {
        let i = choose|i: int| 0 <= i < dirs.len() && path::same_path(#[trigger] dirs[i], dir);
        assert(path::components(dirs[i]) == path::components(dir));
    }
    if exists|i: int|
        0 <= i < dirs.len() && path::components(#[trigger] dirs[i]) == path::components(dir) {
        let i = choose|i: int|
            0 <= i < dirs.len() && path::components(#[trigger] dirs[i]) == path::components(dir);
        assert(path::same_path(dirs[i], dir));
    }
}

/// One more source adds itself at the end of a search list, as it is written, exactly where it is
/// not empty and no earlier source has its components.
pub proof fn lemma_unique_dirs_step(list: Seq<Seq<u8>>, dir: Seq<u8>)
    ensures
        unique_dirs(Seq::empty()) == Seq::<Seq<u8>>::empty(),
        unique_dirs(list.push(dir)) == (if dir.len() > 0 && (forall|k: int|
            0 <= k < list.len() ==> path::components(#[trigger] list[k]) != path::components(dir)) {
            unique_dirs(list).push(dir)
        } else {
            unique_dirs(list)
        }),
{
    assert(list.push(dir).drop_last() =~= list);
    let u = unique_dirs(list);
    lemma_unique_dirs(list);
    if has_path(u, dir) {
        let i = choose|i: int| 0 <= i < u.len() && path::same_path(#[trigger] u[i], dir);
        let k = choose|k: int| 0 <= k < list.len() && list[k] == u[i];
        assert(path::components(list[k]) == path::components(dir));
    }
    if dir.len() > 0 && exists|k: int|
        0 <= k < list.len() && path::components(#[trigger] list[k]) == path::components(dir) {
        let k = choose|k: int|
            0 <= k < list.len() && path::components(#[trigger] list[k]) == path::components(dir);
        path::lemma_empty_path(list[k]);
        path::lemma_empty_path(dir);
        assert(has_path(u, list[k]));
        let i = choose|i: int| 0 <= i < u.len() && path::same_path(#[trigger] u[i], list[k]);
        assert(path::same_path(u[i], dir));
    }
}

/// Adding directories to a list, step by step: one more is added unless it is empty or the same
/// path as one of the list or one that was added before it.
pub proof fn lemma_add_dirs_step(dirs: Seq<Seq<u8>>, more: Seq<Seq<u8>>, dir: Seq<u8>)
    ensures
        add_dirs(dirs, Seq::empty()) == dirs,
        add_dirs(dirs, more.push(dir)) == (if dir.len() > 0 && (forall|k: int|
            0 <= k < dirs.len() ==> path::components(#[trigger] dirs[k]) != path::components(dir))
            && (forall|k: int|
            0 <= k < more.len() ==> path::components(#[trigger] more[k]) != path::components(
                dir,
            )) {
            add_dirs(dirs, more).push(dir)
        } else {
            add_dirs(dirs, more)
        }),
{
    assert(more.push(dir).drop_last() =~= more);
    if dir.len() > 0 {
        lemma_added(dirs, more, dir);
    }
}

/// A list with more directories has the paths of both.
proof fn lemma_added(dirs: Seq<Seq<u8>>, more: Seq<Seq<u8>>, dir: Seq<u8>)
    requires
        dir.len() > 0,
    ensures
        has_path(add_dirs(dirs, more), dir) == ((exists|k: int|
            0 <= k < dirs.len() && path::components(#[trigger] dirs[k]) == path::components(dir))
            || (exists|k: int|
            0 <= k < more.len() && path::components(#[trigger] more[k]) == path::components(dir))),
    decreases more.len(),
{
    let all = add_dirs(dirs, more);
    if more.len() == 0 {
        lemma_has_path(dirs, dir);
    } else {
        let init = more.drop_last();
        let last = more.last();
        let before = add_dirs(dirs, init);
        lemma_added(dirs, init, dir);
        path::lemma_empty_path(last);
        path::lemma_empty_path(dir);
        assert(more[more.len() - 1] == last);
        if has_path(before, dir) {
            let i = choose|i: int|
                0 <= i < before.len() && path::same_path(#[trigger] before[i], dir);
            assert(path::same_path(all[i], dir));
            if exists|k: int|
                0 <= k < init.len() && path::components(#[trigger] init[k]) == path::components(
                    dir,
                ) {
                let k = choose|k: int|
                    0 <= k < init.len() && path::components(#[trigger] init[k])
                        == path::components(dir);
                assert(more[k] == init[k]);
            }
        } else {
            if path::components(last) == path::components(dir) {
                assert(!has_path(before, last)) by {
                    if has_path(before, last) {
                        let i = choose|i: int|
                            0 <= i < before.len() && path::same_path(#[trigger] before[i], last);
                        assert(path::same_path(before[i], dir));
                    }
                }
                assert(path::same_path(all[before.len() as int], dir));
            } else {
                if has_path(all, dir) {
                    let i = choose|i: int|
                        0 <= i < all.len() && path::same_path(#[trigger] all[i], dir);
                    assert(i < before.len());
                    assert(path::same_path(before[i], dir));
                }
                assert forall|k: int| 0 <= k < more.len() implies path::components(
                    #[trigger] more[k],
                ) != path::components(dir) by {
                    if k < init.len() {
                        assert(init[k] == more[k]);
                    }
                }
            }
        }
    }
}

} // verus!
