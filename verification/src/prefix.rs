//! The install prefix of an executable.
use crate::bytes;
use crate::path;
use crate::pathbuf::PathBuf;
use vstd::prelude::*;

verus! {

/// The install prefix of an executable: what stands before the directory `bin` that holds it.
/// An executable whose directory has another name has none.
pub open spec fn prefix_above_bin(exe: Seq<u8>) -> Option<Seq<u8>> {
    let c = path::components(exe);
    if c.len() >= 2 && c[c.len() - 2] == path::Component::Normal(bytes::utf8("bin")) {
        Some(path::shortest_prefix(exe, c.take(c.len() - 2)))
    } else {
        None
    }
}

/// `<prefix>` for an executable path `<prefix>/bin/<exe>`.
#[must_use]
pub fn prefix_of(exe: &PathBuf) -> (r: Option<PathBuf>)
    ensures
        bytes::opt_view(r) == prefix_above_bin(exe@),
{
    let ghost c = path::components(exe@);
    let bin = match exe.parent() {
        Some(bin) => bin,
        None => {
            proof {
                path::lemma_root_is_first(exe@);
            }
            return None;
        },
    };
    proof {
        path::lemma_root_is_first(exe@);
        path::lemma_shortest_prefix_exists(exe@, c.len() - 1);
        assert(c.take(c.len() - 1) =~= c.drop_last());
        assert(path::components(bin@) == c.drop_last());
    }
    match bin.file_name() {
        Some(name) => {
            if !bytes::bytes_eq(name, "bin".as_bytes()) {
                return None;
            }
        },
        None => {
            return None;
        },
    }
    proof {
        path::lemma_shortest_prefix_exists(bin@, c.len() - 2);
        assert(c.drop_last().take(c.len() - 2) =~= c.take(c.len() - 2));
        assert(c.drop_last().drop_last() =~= c.take(c.len() - 2));
        let p = path::shortest_prefix(bin@, c.take(c.len() - 2));
        assert forall|n: int| 0 <= n < p.len() implies path::components(#[trigger] exe@.take(n))
            != c.take(c.len() - 2) by {
            assert(bin@.take(n) =~= exe@.take(n));
        }
        assert(p =~= exe@.take(p.len() as int));
        path::lemma_shortest_prefix_unique(exe@, c.take(c.len() - 2), p);
    }
    bin.parent()
}

/// `bin` is a plain name.
proof fn lemma_bin()
    ensures
        path::is_plain_name(bytes::utf8("bin")),
{
    reveal_strlit("bin");
    bytes::lemma_ascii("bin");
    let b = bytes::utf8("bin");
    assert(b.len() == 3);
    assert(b[0] == 0x62 && b[1] == 0x69 && b[2] == 0x6e);
}

/// An executable with a prefix is `<prefix>/bin/<exe>`, and the prefix starts its path.
pub proof fn lemma_prefix_is_above_bin(exe: Seq<u8>, p: Seq<u8>)
    requires
        prefix_above_bin(exe) == Some(p),
    ensures
        path::components(exe) == path::components(p) + seq![
            path::Component::Normal(bytes::utf8("bin")),
            path::components(exe).last(),
        ],
        p == exe.take(p.len() as int),
{
    let c = path::components(exe);
    path::lemma_shortest_prefix_exists(exe, c.len() - 2);
    assert(c =~= c.take(c.len() - 2) + seq![
        path::Component::Normal(bytes::utf8("bin")),
        c.last(),
    ]);
}

/// Every executable `<prefix>/bin/<exe>` has that prefix, wherever the prefix is.
pub proof fn lemma_prefix_of_install(p: Seq<u8>, exe: Seq<u8>)
    requires
        path::is_plain_name(exe),
    ensures
        prefix_above_bin(path::join(path::join(p, bytes::utf8("bin")), exe)) is Some,
        path::same_path(
            prefix_above_bin(path::join(path::join(p, bytes::utf8("bin")), exe))->0,
            p,
        ),
{
    let bin = bytes::utf8("bin");
    let full = path::join(path::join(p, bin), exe);
    lemma_bin();
    path::lemma_join_plain_name(p, bin);
    path::lemma_join_plain_name(path::join(p, bin), exe);
    let c = path::components(full);
    path::lemma_shortest_prefix_exists(full, c.len() - 2);
    assert(c.take(c.len() - 2) =~= path::components(p));
}

/// The prefix comes back byte for byte where it is written without trailing slashes.
pub proof fn lemma_prefix_of_install_verbatim(p: Seq<u8>, exe: Seq<u8>)
    requires
        path::is_plain_name(exe),
        path::is_shortest_prefix(p, path::components(p), p),
    ensures
        prefix_above_bin(path::join(path::join(p, bytes::utf8("bin")), exe)) == Some(p),
{
    let bin = bytes::utf8("bin");
    let full = path::join(path::join(p, bin), exe);
    lemma_bin();
    path::lemma_plain_name(bin);
    path::lemma_plain_name(exe);
    path::lemma_join_plain_name(p, bin);
    path::lemma_join_plain_name(path::join(p, bin), exe);
    let c = path::components(full);
    assert(c.take(c.len() - 2) =~= path::components(p));
    assert(full.take(p.len() as int) =~= p);
    assert forall|n: int| 0 <= n < p.len() implies path::components(#[trigger] full.take(n))
        != path::components(p) by {
        assert(full.take(n) =~= p.take(n));
    }
    path::lemma_shortest_prefix_unique(full, path::components(p), p);
}

/// Which prefix an executable has depends only on which path it is.
pub proof fn lemma_prefix_same_path(a: Seq<u8>, b: Seq<u8>)
    requires
        path::same_path(a, b),
    ensures
        prefix_above_bin(a) is Some == prefix_above_bin(b) is Some,
        prefix_above_bin(a) is Some ==> path::same_path(
            prefix_above_bin(a)->0,
            prefix_above_bin(b)->0,
        ),
{
    let c = path::components(a);
    if c.len() >= 2 {
        path::lemma_shortest_prefix_exists(a, c.len() - 2);
        path::lemma_shortest_prefix_exists(b, c.len() - 2);
    }
}

/// An executable has a prefix exactly where its last component but one is `bin`, and that is the
/// shortest prefix of its path with the components before `bin`.
pub proof fn lemma_prefix(exe: Seq<u8>)
    ensures
        prefix_above_bin(exe) is Some == (path::components(exe).len() >= 2 && path::components(
            exe,
        )[path::components(exe).len() - 2] == path::Component::Normal(
            seq![0x62u8, 0x69, 0x6e],
        )),
        prefix_above_bin(exe) matches Some(p) ==> {
            &&& p == exe.take(p.len() as int)
            &&& path::components(p) == path::components(exe).take(path::components(exe).len() - 2)
            &&& forall|n: int|
                0 <= n < p.len() ==> path::components(#[trigger] exe.take(n)) != path::components(p)
        },
{
    let c = path::components(exe);
    reveal_strlit("bin");
    bytes::lemma_ascii("bin");
    assert(bytes::utf8("bin") =~= seq![0x62u8, 0x69, 0x6e]);
    if c.len() >= 2 {
        path::lemma_shortest_prefix_exists(exe, c.len() - 2);
    }
}

} // verus!
