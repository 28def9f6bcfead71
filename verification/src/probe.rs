//! Asking about candidates in order until one is accepted.
use crate::bytes;
use crate::pathbuf;
use crate::pathbuf::PathBuf;
use vstd::prelude::*;

verus! {

/// `test` may answer `yes` when asked about the path `p`.
pub open spec fn answers<F: Fn(&PathBuf) -> bool>(test: &F, p: Seq<u8>, yes: bool) -> bool {
    exists|x: PathBuf| x@ == p && #[trigger] call_ensures(*test, (&x,), yes)
}

/// `test` can be asked about the path `p`.
pub open spec fn can_ask<F: Fn(&PathBuf) -> bool>(test: &F, p: Seq<u8>) -> bool {
    forall|x: PathBuf| x@ == p ==> #[trigger] call_requires(*test, (&x,))
}

/// `hit` is the first of `asked` that `test` accepted; every one before it was refused. `None`
/// says that all of them were refused.
pub open spec fn first_hit<F: Fn(&PathBuf) -> bool>(
    test: &F,
    asked: Seq<Seq<u8>>,
    hit: Option<int>,
) -> bool {
    match hit {
        Some(k) => {
            &&& 0 <= k < asked.len()
            &&& answers(test, asked[k], true)
            &&& forall|j: int| 0 <= j < k ==> answers(test, #[trigger] asked[j], false)
        },
        None => forall|j: int| 0 <= j < asked.len() ==> answers(test, #[trigger] asked[j], false),
    }
}

/// `found` is the candidate at the first place where `test` accepted what was asked.
pub open spec fn finds<F: Fn(&PathBuf) -> bool>(
    test: &F,
    asked: Seq<Seq<u8>>,
    candidates: Seq<Seq<u8>>,
    found: Option<Seq<u8>>,
) -> bool {
    exists|hit: Option<int>| #[trigger]
        first_hit(test, asked, hit) && found == match hit {
            Some(k) => Some(candidates[k]),
            None => None,
        }
}

/// The first candidate that `test` accepts.
pub fn find_first<F: Fn(&PathBuf) -> bool>(candidates: &Vec<PathBuf>, test: &F) -> (r: Option<
    PathBuf,
>)
    requires
        forall|i: int|
            0 <= i < candidates.len() ==> can_ask(
                test,
                #[trigger] pathbuf::path_views(candidates@)[i],
            ),
    ensures
        finds(
            test,
            pathbuf::path_views(candidates@),
            pathbuf::path_views(candidates@),
            bytes::opt_view(r),
        ),
{
    let ghost all = pathbuf::path_views(candidates@);
    let mut i: usize = 0;
    while i < candidates.len()
        invariant
            i <= candidates.len(),
            all == pathbuf::path_views(candidates@),
            forall|j: int| 0 <= j < candidates.len() ==> can_ask(test, #[trigger] all[j]),
            forall|j: int| 0 <= j < i ==> answers(test, #[trigger] all[j], false),
        decreases candidates.len() - i,
    {
        assert(can_ask(test, all[i as int]));
        if test(&candidates[i]) {
            assert(answers(test, all[i as int], true));
            assert(first_hit(test, all, Some(i as int)));
            return Some(candidates[i].clone());
        }
        assert(answers(test, all[i as int], false));
        i += 1;
    }
    assert(first_hit(test, all, None));
    None
}

/// The answers of `test` depend on the path alone: it accepts those for which `accept` holds.
pub open spec fn decides<F: Fn(&PathBuf) -> bool>(
    test: &F,
    accept: spec_fn(Seq<u8>) -> bool,
) -> bool {
    forall|x: PathBuf, yes: bool| #[trigger]
        call_ensures(*test, (&x,), yes) ==> yes == accept(x@)
}

/// The first of `candidates` for which `accept` holds.
pub open spec fn first_accepted(
    candidates: Seq<Seq<u8>>,
    accept: spec_fn(Seq<u8>) -> bool,
) -> Option<Seq<u8>>
    decreases candidates.len(),
{
    if candidates.len() == 0 {
        None
    } else {
        match first_accepted(candidates.drop_last(), accept) {
            Some(d) => Some(d),
            None => if accept(candidates.last()) {
                Some(candidates.last())
            } else {
                None
            },
        }
    }
}

/// The first accepted candidate is one that is accepted, and there is one unless none is.
pub proof fn lemma_first_accepted(candidates: Seq<Seq<u8>>, accept: spec_fn(Seq<u8>) -> bool)
    ensures
        first_accepted(candidates, accept) matches Some(d) ==> candidates.contains(d) && accept(d),
        first_accepted(candidates, accept) is None == (forall|i: int|
            0 <= i < candidates.len() ==> !accept(#[trigger] candidates[i])),
    decreases candidates.len(),
{
    if candidates.len() > 0 {
        let init = candidates.drop_last();
        lemma_first_accepted(init, accept);
        match first_accepted(init, accept) {
            Some(d) => {
                let k = choose|k: int| 0 <= k < init.len() && init[k] == d;
                assert(candidates[k] == d);
            },
            None => {
                assert forall|i: int| 0 <= i < candidates.len() - 1 implies !accept(
                    #[trigger] candidates[i],
                ) by {
                    assert(init[i] == candidates[i]);
                }
                assert(candidates[candidates.len() - 1] == candidates.last());
            },
        }
    }
}

/// Where the first accepted candidate stands.
proof fn lemma_first_accepted_at(
    candidates: Seq<Seq<u8>>,
    accept: spec_fn(Seq<u8>) -> bool,
    k: int,
)
    requires
        0 <= k < candidates.len(),
        accept(candidates[k]),
        forall|j: int| 0 <= j < k ==> !accept(#[trigger] candidates[j]),
    ensures
        first_accepted(candidates, accept) == Some(candidates[k]),
    decreases candidates.len(),
{
    let init = candidates.drop_last();
    if k == candidates.len() - 1 {
        lemma_first_accepted(init, accept);
        assert forall|j: int| 0 <= j < init.len() implies !accept(#[trigger] init[j]) by {
            assert(init[j] == candidates[j]);
        }
    } else {
        assert forall|j: int| 0 <= j < k implies !accept(#[trigger] init[j]) by {
            assert(init[j] == candidates[j]);
        }
        lemma_first_accepted_at(init, accept, k);
    }
}

/// A search with a test that goes by the path alone finds the first accepted candidate.
pub proof fn lemma_finds_first_accepted<F: Fn(&PathBuf) -> bool>(
    test: &F,
    accept: spec_fn(Seq<u8>) -> bool,
    ask: spec_fn(Seq<u8>) -> Seq<u8>,
    candidates: Seq<Seq<u8>>,
    found: Option<Seq<u8>>,
)
    requires
        decides(test, accept),
        finds(test, candidates.map_values(ask), candidates, found),
    ensures
        found == first_accepted(candidates, |d: Seq<u8>| accept(ask(d))),
{
    let asked = candidates.map_values(ask);
    let good = |d: Seq<u8>| accept(ask(d));
    let hit = choose|hit: Option<int>| #[trigger]
        first_hit(test, asked, hit) && found == match hit {
            Some(k) => Some(candidates[k]),
            None => None,
        };
    assert forall|j: int, yes: bool|
        0 <= j < candidates.len() && #[trigger] answers(test, asked[j], yes) implies yes == good(
        candidates[j],
    ) by {
        assert(asked[j] == ask(candidates[j]));
    }
    match hit {
        Some(k) => {
            assert(answers(test, asked[k], true));
            assert(good(candidates[k]));
            assert forall|j: int| 0 <= j < k implies !good(#[trigger] candidates[j]) by {
                assert(answers(test, asked[j], false));
            }
            lemma_first_accepted_at(candidates, good, k);
        },
        None => {
            lemma_first_accepted(candidates, good);
            assert forall|j: int| 0 <= j < candidates.len() implies !good(
                #[trigger] candidates[j],
            ) by {
                assert(answers(test, asked[j], false));
            }
        },
    }
}

/// A leading candidate is found where it is accepted, and makes no difference where it is not.
pub proof fn lemma_first_accepted_leading(
    first: Seq<u8>,
    rest: Seq<Seq<u8>>,
    accept: spec_fn(Seq<u8>) -> bool,
)
    ensures
        first_accepted(seq![first] + rest, accept) == if accept(first) {
            Some(first)
        } else {
            first_accepted(rest, accept)
        },
    decreases rest.len(),
{
    let all = seq![first] + rest;
    if rest.len() == 0 {
        assert(all.drop_last() =~= Seq::empty());
        assert(first_accepted(all.drop_last(), accept) is None);
        assert(all.last() == first);
    } else {
        lemma_first_accepted_leading(first, rest.drop_last(), accept);
        assert(all.drop_last() =~= seq![first] + rest.drop_last());
    }
}

/// Leaving out candidates that are not accepted makes no difference.
pub proof fn lemma_first_accepted_filter(
    candidates: Seq<Seq<u8>>,
    keep: spec_fn(Seq<u8>) -> bool,
    accept: spec_fn(Seq<u8>) -> bool,
)
    requires
        forall|d: Seq<u8>| #[trigger] accept(d) ==> keep(d),
    ensures
        first_accepted(candidates.filter(keep), accept) == first_accepted(candidates, accept),
    decreases candidates.len(),
{
    reveal(Seq::filter);
    if candidates.len() > 0 {
        let init = candidates.drop_last();
        lemma_first_accepted_filter(init, keep, accept);
        if keep(candidates.last()) {
            assert(init.filter(keep).push(candidates.last()).drop_last() =~= init.filter(keep));
        }
    }
}

} // verus!
