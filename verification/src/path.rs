//! Paths as byte strings in Unix syntax: their components, and what follows from them.
use crate::bytes;
use vstd::prelude::*;

verus! {

/// The byte `/`, which separates the components of a path.
pub const SLASH: u8 = 0x2f;

/// The byte `.`.
pub const DOT: u8 = 0x2e;

/// One component of a path.
pub enum Component {
    /// The root directory, first in an absolute path.
    RootDir,
    /// `.`, kept only where it starts a relative path.
    CurDir,
    /// `..`.
    ParentDir,
    /// Any other name.
    Normal(Seq<u8>),
}

/// Whether a path starts at the root directory.
pub open spec fn is_absolute(s: Seq<u8>) -> bool {
    s.len() > 0 && s[0] == SLASH
}

/// The component that one piece between slashes stands for, if any. An empty piece stands for
/// none; `.` stands for one only as the first piece.
pub open spec fn piece_component(piece: Seq<u8>, first: bool) -> Option<Component> {
    if piece.len() == 0 {
        None
    } else if piece == seq![DOT] {
        if first {
            Some(Component::CurDir)
        } else {
            None
        }
    } else if piece == seq![DOT, DOT] {
        Some(Component::ParentDir)
    } else {
        Some(Component::Normal(piece))
    }
}

/// The components that the pieces between slashes stand for, in order.
pub open spec fn piece_components(pieces: Seq<Seq<u8>>) -> Seq<Component>
    decreases pieces.len(),
{
    if pieces.len() == 0 {
        Seq::empty()
    } else {
        let before = piece_components(pieces.drop_last());
        match piece_component(pieces.last(), pieces.len() == 1) {
            Some(c) => before.push(c),
            None => before,
        }
    }
}

/// The root directory as a list of components, where the path is absolute.
pub open spec fn root_components(s: Seq<u8>) -> Seq<Component> {
    if is_absolute(s) {
        seq![Component::RootDir]
    } else {
        Seq::empty()
    }
}

/// The components of a path: the root directory where the path is absolute, then what its pieces
/// between slashes stand for. Repeated and trailing slashes do not show, nor does a `.` that does
/// not start the path.
pub open spec fn components(s: Seq<u8>) -> Seq<Component> {
    root_components(s) + piece_components(bytes::pieces(s, SLASH))
}

/// Two paths are the same path where their components are equal.
pub open spec fn same_path(a: Seq<u8>, b: Seq<u8>) -> bool {
    components(a) == components(b)
}

/// The name that a path ends in: its last component, where that is a plain name.
pub open spec fn file_name(s: Seq<u8>) -> Option<Seq<u8>> {
    let c = components(s);
    if c.len() > 0 && c.last() is Normal {
        Some(c.last()->Normal_0)
    } else {
        None
    }
}

/// `base` with `rest` appended; an absolute `rest` takes the place of `base`.
pub open spec fn join(base: Seq<u8>, rest: Seq<u8>) -> Seq<u8> {
    if is_absolute(rest) {
        rest
    } else if base.len() == 0 || base.last() == SLASH {
        base + rest
    } else {
        base.push(SLASH) + rest
    }
}

/// `p` is the shortest prefix of `s` that has the components `c`.
pub open spec fn is_shortest_prefix(s: Seq<u8>, c: Seq<Component>, p: Seq<u8>) -> bool {
    &&& p.len() <= s.len()
    &&& p == s.take(p.len() as int)
    &&& components(p) == c
    &&& forall|n: int| 0 <= n < p.len() ==> components(#[trigger] s.take(n)) != c
}

/// The shortest prefix of `s` that has the components `c`.
pub open spec fn shortest_prefix(s: Seq<u8>, c: Seq<Component>) -> Seq<u8> {
    choose|p: Seq<u8>| is_shortest_prefix(s, c, p)
}

/// A path without its last component: the shortest prefix that has all the others. A path
/// without components, and the root directory, have no parent.
pub open spec fn parent(s: Seq<u8>) -> Option<Seq<u8>> {
    let c = components(s);
    if c.len() == 0 || c.last() is RootDir {
        None
    } else {
        Some(shortest_prefix(s, c.drop_last()))
    }
}

/// One component of a path in memory.
pub enum Part<'a> {
    /// The root directory.
    RootDir,
    /// `.` at the start of a relative path.
    CurDir,
    /// `..`.
    ParentDir,
    /// A plain name, as it stands in the path.
    Normal(&'a [u8]),
}

impl<'a> View for Part<'a> {
    type V = Component;

    open spec fn view(&self) -> Component {
        match self {
            Part::RootDir => Component::RootDir,
            Part::CurDir => Component::CurDir,
            Part::ParentDir => Component::ParentDir,
            Part::Normal(name) => Component::Normal(name@),
        }
    }
}

/// What the parts of a vector stand for.
pub open spec fn part_views(v: Seq<Part>) -> Seq<Component> {
    v.map_values(|p: Part| p@)
}

/// Compares two components.
fn part_eq(a: &Part, b: &Part) -> (r: bool)
    ensures
        r == (a@ == b@),
{
    match (a, b) {
        (Part::RootDir, Part::RootDir) => true,
        (Part::CurDir, Part::CurDir) => true,
        (Part::ParentDir, Part::ParentDir) => true,
        (Part::Normal(x), Part::Normal(y)) => bytes::bytes_eq(x, y),
        _ => false,
    }
}

/// The components of a path.
pub fn parts(s: &[u8]) -> (r: Vec<Part<'_>>)
    ensures
        part_views(r@) == components(s@),
{
    let mut out: Vec<Part> = Vec::new();
    if s.len() > 0 && s[0] == SLASH {
        out.push(Part::RootDir);
    }
    assert(part_views(out@) =~= root_components(s@));
    let pieces = bytes::split_on(s, SLASH);
    let ghost all = bytes::pieces(s@, SLASH);
    let mut i: usize = 0;
    assert(all.take(0) =~= Seq::empty());
    assert(part_views(out@) =~= root_components(s@) + piece_components(all.take(0)));
    while i < pieces.len()
        invariant
            i <= pieces.len(),
            bytes::slice_views(pieces@) == all,
            part_views(out@) == root_components(s@) + piece_components(all.take(i as int)),
        decreases pieces.len() - i,
    {
        let piece = pieces[i];
        assert(piece@ == all[i as int]);
        assert(all.take(i + 1).drop_last() =~= all.take(i as int));
        let ghost old_out = out@;
        if piece.len() == 0 {
        } else if piece.len() == 1 && piece[0] == DOT {
            assert(piece@ =~= seq![DOT]);
            if i == 0 {
                out.push(Part::CurDir);
                assert(part_views(out@) =~= part_views(old_out).push(Component::CurDir));
            }
        } else if piece.len() == 2 && piece[0] == DOT && piece[1] == DOT {
            assert(piece@ =~= seq![DOT, DOT]);
            out.push(Part::ParentDir);
            assert(part_views(out@) =~= part_views(old_out).push(Component::ParentDir));
        } else {
            assert(piece@ != seq![DOT]);
            assert(piece@ != seq![DOT, DOT]);
            out.push(Part::Normal(piece));
            assert(part_views(out@) =~= part_views(old_out).push(Component::Normal(piece@)));
        }
        assert(part_views(out@) =~= root_components(s@) + piece_components(
            all.take(i + 1),
        ));
        i += 1;
    }
    assert(all.take(all.len() as int) =~= all);
    out
}


/// Whether two byte strings name the same path.
pub fn same_path_slices(a: &[u8], b: &[u8]) -> (r: bool)
    ensures
        r == same_path(a@, b@),
{
    let x = parts(a);
    let y = parts(b);
    assert(part_views(x@).len() == x.len());
    assert(part_views(y@).len() == y.len());
    if x.len() != y.len() {
        return false;
    }
    let mut i: usize = 0;
    while i < x.len()
        invariant
            i <= x.len(),
            x.len() == y.len(),
            part_views(x@) == components(a@),
            part_views(y@) == components(b@),
            forall|j: int| 0 <= j < i ==> components(a@)[j] == components(b@)[j],
        decreases x.len() - i,
    {
        assert(x@[i as int]@ == components(a@)[i as int]);
        assert(y@[i as int]@ == components(b@)[i as int]);
        if !part_eq(&x[i], &y[i]) {
            return false;
        }
        i += 1;
    }
    assert(components(a@) =~= components(b@));
    true
}

/// The name that a path ends in, where its last component is a plain name.
pub fn file_name_slice(s: &[u8]) -> (r: Option<&[u8]>)
    ensures
        bytes::opt_view(r) == file_name(s@),
{
    let x = parts(s);
    assert(part_views(x@).len() == x.len());
    if x.len() == 0 {
        return None;
    }
    assert(components(s@).last() == x@[x.len() - 1]@);
    match x[x.len() - 1] {
        Part::Normal(name) => Some(name),
        _ => None,
    }
}

proof fn lemma_piece_components_no_root(p: Seq<Seq<u8>>)
    ensures
        forall|i: int| 0 <= i < piece_components(p).len() ==> piece_components(p)[i] !is RootDir,
    decreases p.len(),
{
    if p.len() > 0 {
        lemma_piece_components_no_root(p.drop_last());
    }
}

/// The root directory stands first among the components of a path, or nowhere.
pub proof fn lemma_root_is_first(s: Seq<u8>)
    ensures
        forall|i: int| 0 < i < components(s).len() ==> components(s)[i] !is RootDir,
{
    lemma_piece_components_no_root(bytes::pieces(s, SLASH));
}

/// How much a component adds to the size of a list of components.
spec fn component_size(c: Component) -> nat {
    match c {
        Component::RootDir => 1,
        Component::CurDir => 2,
        Component::ParentDir => 3,
        Component::Normal(name) => name.len() + 1,
    }
}

/// A size of a list of components that grows whenever a byte at the end of a path shows in them.
spec fn total_size(c: Seq<Component>) -> nat
    decreases c.len(),
{
    if c.len() == 0 {
        0
    } else {
        total_size(c.drop_last()) + component_size(c.last())
    }
}

/// The last byte of `s` is one that does not show in its components: a slash that is not the
/// root directory, or a `.` that is a piece of its own and not the first one.
spec fn ends_in_filler(s: Seq<u8>) -> bool {
    s.len() >= 2 && (s.last() == SLASH || (s.last() == DOT && s[s.len() - 2] == SLASH))
}

/// What the last piece of a path and their number say of its last byte.
proof fn lemma_last_piece(s: Seq<u8>)
    ensures
        bytes::pieces(s, SLASH).len() >= 1,
        (bytes::pieces(s, SLASH).last().len() == 0) == (s.len() == 0 || s.last() == SLASH),
        s.len() > 0 && s.last() == SLASH ==> bytes::pieces(s, SLASH).len() >= 2,
        s.len() == 0 ==> bytes::pieces(s, SLASH).len() == 1,
    decreases s.len(),
{
    if s.len() > 0 {
        lemma_last_piece(s.drop_last());
    }
}

/// The components of a path are those before its last piece and the one of that piece.
proof fn lemma_components_by_last_piece(s: Seq<u8>)
    ensures
        ({
            let p = bytes::pieces(s, SLASH);
            let before = root_components(s) + piece_components(p.drop_last());
            components(s) == match piece_component(p.last(), p.len() == 1) {
                Some(c) => before.push(c),
                None => before,
            }
        }),
{
    let p = bytes::pieces(s, SLASH);
    lemma_last_piece(s);
    let before = root_components(s) + piece_components(p.drop_last());
    match piece_component(p.last(), p.len() == 1) {
        Some(c) => {
            assert(components(s) =~= before.push(c));
        },
        None => {
            assert(components(s) =~= before);
        },
    }
}

/// The empty path has no components, and the path `/` has the root directory alone.
pub proof fn lemma_shortest_paths()
    ensures
        components(Seq::empty()) == Seq::<Component>::empty(),
        components(seq![SLASH]) == seq![Component::RootDir],
{
    let e = Seq::<u8>::empty();
    lemma_components_by_last_piece(e);
    assert(bytes::pieces(e, SLASH).drop_last() =~= Seq::empty());
    assert(components(e) =~= Seq::<Component>::empty());
    let r = seq![SLASH];
    lemma_components_by_last_piece(r);
    assert(r.drop_last() =~= e);
    assert(bytes::pieces(r, SLASH).drop_last() =~= bytes::pieces(e, SLASH));
    assert(components(r) =~= seq![Component::RootDir]);
}

proof fn lemma_total_size_push(c: Seq<Component>, x: Component)
    ensures
        total_size(c.push(x)) == total_size(c) + component_size(x),
{
    assert(c.push(x).drop_last() =~= c);
}

/// What the last byte of a path does to its components: nothing where it is filler, and
/// otherwise it changes at most the last of them, and makes them larger.
proof fn lemma_last_byte(s: Seq<u8>)
    requires
        s.len() > 0,
    ensures
        ends_in_filler(s) ==> components(s) == components(s.drop_last()),
        !ends_in_filler(s) ==> {
            &&& total_size(components(s)) > total_size(components(s.drop_last()))
            &&& components(s).len() >= 1
            &&& components(s.drop_last()).len() >= components(s).len() - 1
            &&& components(s.drop_last()).take(components(s).len() - 1) == components(
                s,
            ).drop_last()
        },
{
    let init = s.drop_last();
    let b = s.last();
    let p = bytes::pieces(init, SLASH);
    let q = bytes::pieces(s, SLASH);
    lemma_last_piece(init);
    lemma_last_piece(s);
    lemma_components_by_last_piece(init);
    lemma_components_by_last_piece(s);
    if init.len() > 0 {
        assert(init[0] == s[0]);
        assert(root_components(init) == root_components(s));
        assert(s[s.len() - 2] == init.last());
    }
    let before = root_components(init) + piece_components(p.drop_last());
    if b == SLASH {
        assert(q.drop_last() =~= p);
        if init.len() == 0 {
            assert(components(init) =~= Seq::empty());
            assert(components(s) =~= Seq::empty().push(Component::RootDir));
            lemma_total_size_push(Seq::empty(), Component::RootDir);
            assert(components(s).drop_last() =~= components(init).take(0));
        } else {
            assert(components(s) =~= components(init));
        }
    } else {
        assert(q.drop_last() =~= p.drop_last());
        assert(q.last() =~= p.last().push(b));
        assert(q.len() == p.len());
        assert(root_components(init) =~= root_components(s));
        let first = p.len() == 1;
        let old_c = piece_component(p.last(), first);
        let new_c = piece_component(q.last(), first);
        assert(p.last() == seq![DOT] ==> p.last().len() == 1 && p.last()[0] == DOT);
        assert(p.last() == seq![DOT, DOT] ==> p.last().len() == 2);
        assert(q.last() == seq![DOT] ==> q.last().len() == 1 && q.last()[0] == b);
        if p.last().len() == 0 && b == DOT {
            assert(q.last() =~= seq![DOT]);
        }
        if q.last() == seq![DOT, DOT] {
            assert(q.last()[0] == DOT);
            assert(p.last() =~= seq![DOT]);
        }
        match old_c {
            Some(x) => lemma_total_size_push(before, x),
            None => {},
        }
        match new_c {
            Some(x) => lemma_total_size_push(before, x),
            None => {},
        }
        if ends_in_filler(s) {
            assert(components(s) =~= components(init));
        } else {
            assert(new_c is Some);
            assert(components(s).drop_last() =~= before);
            assert(components(init).take(before.len() as int) =~= before);
        }
    }
}

/// A prefix of a path has components of no larger size.
proof fn lemma_prefix_size(s: Seq<u8>, n: int)
    requires
        0 <= n <= s.len(),
    ensures
        total_size(components(s.take(n))) <= total_size(components(s)),
    decreases s.len(),
{
    if n == s.len() {
        assert(s.take(n) =~= s);
    } else {
        lemma_prefix_size(s.drop_last(), n);
        assert(s.drop_last().take(n) =~= s.take(n));
        lemma_last_byte(s);
    }
}

/// There is one shortest prefix with given components at most.
pub proof fn lemma_shortest_prefix_unique(s: Seq<u8>, c: Seq<Component>, p: Seq<u8>)
    requires
        is_shortest_prefix(s, c, p),
    ensures
        shortest_prefix(s, c) == p,
{
    let q = shortest_prefix(s, c);
    assert(is_shortest_prefix(s, c, q));
    if q.len() < p.len() {
        assert(components(s.take(q.len() as int)) == c);
    } else if p.len() < q.len() {
        assert(components(s.take(p.len() as int)) == c);
    }
}

/// A path that ends in neither a slash nor a `.` is the shortest way to write it: every proper
/// prefix of it is another path.
pub proof fn lemma_no_trailing_filler(s: Seq<u8>)
    requires
        s.len() > 0 ==> s.last() != SLASH && s.last() != DOT,
    ensures
        is_shortest_prefix(s, components(s), s),
{
    assert(s =~= s.take(s.len() as int));
    assert forall|n: int| 0 <= n < s.len() implies components(#[trigger] s.take(n)) != components(
        s,
    ) by {
        lemma_last_byte(s);
        lemma_prefix_size(s.drop_last(), n);
        assert(s.drop_last().take(n) =~= s.take(n));
    }
}

/// Where a prefix has given components, the shortest such prefix has them.
proof fn lemma_shortest_prefix_from(s: Seq<u8>, c: Seq<Component>, n: int)
    requires
        0 <= n <= s.len(),
        components(s.take(n)) == c,
    ensures
        is_shortest_prefix(s, c, shortest_prefix(s, c)),
    decreases n,
{
    if exists|m: int| 0 <= m < n && components(#[trigger] s.take(m)) == c {
        let m = choose|m: int| 0 <= m < n && components(#[trigger] s.take(m)) == c;
        lemma_shortest_prefix_from(s, c, m);
    } else {
        assert(is_shortest_prefix(s, c, s.take(n)));
    }
}

/// For every number of leading components of a path there is a shortest prefix that has them.
pub proof fn lemma_shortest_prefix_exists(s: Seq<u8>, m: int)
    requires
        0 <= m <= components(s).len(),
    ensures
        is_shortest_prefix(
            s,
            components(s).take(m),
            shortest_prefix(s, components(s).take(m)),
        ),
{
    let n = lemma_prefix_with_components(s, m);
    lemma_shortest_prefix_from(s, components(s).take(m), n);
}

proof fn lemma_prefix_with_components(s: Seq<u8>, m: int) -> (n: int)
    requires
        0 <= m <= components(s).len(),
    ensures
        0 <= n <= s.len(),
        components(s.take(n)) == components(s).take(m),
    decreases s.len(),
{
    let c = components(s);
    if m == c.len() {
        assert(s.take(s.len() as int) =~= s);
        assert(c.take(m) =~= c);
        s.len() as int
    } else {
        if s.len() == 0 {
            assert(s =~= Seq::empty());
            lemma_shortest_paths();
        }
        lemma_last_byte(s);
        let init = s.drop_last();
        if !ends_in_filler(s) {
            assert(c.take(m) =~= c.drop_last().take(m));
            assert(components(init).take(m) =~= components(init).take(c.len() - 1).take(m));
        }
        let n = lemma_prefix_with_components(init, m);
        assert(init.take(n) =~= s.take(n));
        n
    }
}

/// Appending one piece to a path that is empty or ends in a slash appends the component of that
/// piece.
pub proof fn lemma_append_piece(base: Seq<u8>, piece: Seq<u8>)
    requires
        base.len() == 0 || base.last() == SLASH,
        !piece.contains(SLASH),
    ensures
        components(base + piece) == match piece_component(piece, base.len() == 0) {
            Some(c) => components(base).push(c),
            None => components(base),
        },
{
    lemma_pieces_append(base, piece);
    lemma_last_piece(base);
    lemma_components_by_last_piece(base);
    lemma_components_by_last_piece(base + piece);
    let p = bytes::pieces(base, SLASH);
    assert(bytes::pieces(base + piece, SLASH).drop_last() =~= p.drop_last());
    assert(p.last() + piece =~= piece);
    if base.len() > 0 {
        assert((base + piece)[0] == base[0]);
    } else if piece.len() > 0 {
        assert(piece.contains(piece[0]));
    }
    assert(root_components(base + piece) == root_components(base));
}

/// Appending bytes other than slashes extends the last piece.
proof fn lemma_pieces_append(base: Seq<u8>, piece: Seq<u8>)
    requires
        !piece.contains(SLASH),
    ensures
        bytes::pieces(base + piece, SLASH) == bytes::pieces(base, SLASH).drop_last().push(
            bytes::pieces(base, SLASH).last() + piece,
        ),
    decreases piece.len(),
{
    let p = bytes::pieces(base, SLASH);
    lemma_last_piece(base);
    if piece.len() == 0 {
        assert(base + piece =~= base);
        assert(p.last() + piece =~= p.last());
        assert(p =~= p.drop_last().push(p.last()));
    } else {
        let init = piece.drop_last();
        assert(!init.contains(SLASH)) by {
            if init.contains(SLASH) {
                let i = choose|i: int| 0 <= i < init.len() && init[i] == SLASH;
                assert(piece[i] == SLASH);
            }
        }
        lemma_pieces_append(base, init);
        assert(piece.contains(piece.last()));
        assert((base + piece).drop_last() =~= base + init);
        assert((p.last() + init).push(piece.last()) =~= p.last() + piece);
        assert(bytes::pieces(base + piece, SLASH) =~= p.drop_last().push(p.last() + piece));
    }
}

/// Where the path in `s[..end]` ends once trailing filler is dropped.
fn trimmed_end(s: &[u8], end: usize) -> (r: usize)
    requires
        end <= s.len(),
    ensures
        r <= end,
        components(s@.take(r as int)) == components(s@.take(end as int)),
        forall|n: int|
            0 <= n < r ==> components(#[trigger] s@.take(n)) != components(s@.take(end as int)),
        !ends_in_filler(s@.take(r as int)),
{
    let mut r = end;
    while r >= 2 && (s[r - 1] == SLASH || (s[r - 1] == DOT && s[r - 2] == SLASH))
        invariant
            r <= end <= s.len(),
            components(s@.take(r as int)) == components(s@.take(end as int)),
        decreases r,
    {
        proof {
            lemma_last_byte(s@.take(r as int));
            assert(s@.take(r as int).drop_last() =~= s@.take(r - 1));
        }
        r -= 1;
    }
    proof {
        let t = s@.take(r as int);
        assert(!ends_in_filler(t));
        assert forall|n: int| 0 <= n < r implies components(#[trigger] s@.take(n)) != components(
            s@.take(end as int),
        ) by {
            lemma_last_byte(t);
            lemma_prefix_size(t.drop_last(), n);
            assert(t.drop_last().take(n) =~= s@.take(n));
        }
    }
    r
}

/// A path without its last component, where it has a parent.
pub fn parent_slice(s: &[u8]) -> (r: Option<&[u8]>)
    ensures
        bytes::opt_view(r) == parent(s@),
{
    let end = trimmed_end(s, s.len());
    let ghost t = s@.take(end as int);
    proof {
        assert(s@.take(s@.len() as int) =~= s@);
        lemma_shortest_paths();
    }
    if end == 0 {
        assert(t =~= Seq::empty());
        return None;
    }
    if end == 1 && s[0] == SLASH {
        assert(t =~= seq![SLASH]);
        return None;
    }
    let mut start = end;
    while start > 0 && s[start - 1] != SLASH
        invariant
            start <= end <= s.len(),
            forall|j: int| start <= j < end ==> s@[j] != SLASH,
        decreases start,
    {
        start -= 1;
    }
    let ghost base = s@.take(start as int);
    let ghost piece = s@.subrange(start as int, end as int);
    proof {
        assert(t =~= base + piece);
        assert(t.last() == s@[end - 1]);
        assert(start < end);
        lemma_append_piece(base, piece);
        if piece == seq![DOT] && start > 0 {
            assert(piece.len() == 1 && piece[0] == DOT);
            assert(t[t.len() - 2] == SLASH);
        }
        assert(piece_component(piece, start == 0) is Some);
        assert(components(s@).drop_last() =~= components(base));
    }
    let cut = trimmed_end(s, start);
    proof {
        lemma_shortest_prefix_unique(s@, components(s@).drop_last(), s@.take(cut as int));
    }
    Some(vstd::slice::slice_subrange(s, 0, cut))
}

/// A name that stands for one plain component: not empty, without a slash, and neither `.` nor
/// `..`.
pub open spec fn is_plain_name(name: Seq<u8>) -> bool {
    &&& name.len() > 0
    &&& !name.contains(SLASH)
    &&& name != seq![DOT]
    &&& name != seq![DOT, DOT]
}

/// Components without a `.` at their start.
pub open spec fn without_leading_dot(c: Seq<Component>) -> Seq<Component> {
    if c.len() > 0 && c[0] is CurDir {
        c.drop_first()
    } else {
        c
    }
}

/// A path that is a plain name has that one component.
pub proof fn lemma_plain_name(name: Seq<u8>)
    requires
        is_plain_name(name),
    ensures
        components(name) == seq![Component::Normal(name)],
        !is_absolute(name),
{
    let e = Seq::<u8>::empty();
    lemma_append_piece(e, name);
    lemma_shortest_paths();
    assert(e + name =~= name);
    assert(components(name) =~= seq![Component::Normal(name)]);
    assert(name.contains(name[0]));
}

/// The pieces of a concatenation: the two pieces that meet become one.
proof fn lemma_pieces_concat(a: Seq<u8>, b: Seq<u8>)
    ensures
        bytes::pieces(a + b, SLASH) == bytes::pieces(a, SLASH).drop_last() + seq![
            bytes::pieces(a, SLASH).last() + bytes::pieces(b, SLASH)[0],
        ] + bytes::pieces(b, SLASH).drop_first(),
    decreases b.len(),
{
    let p = bytes::pieces(a, SLASH);
    lemma_last_piece(a);
    lemma_last_piece(b);
    if b.len() == 0 {
        assert(a + b =~= a);
        assert(p.last() + bytes::pieces(b, SLASH)[0] =~= p.last());
        assert(p =~= p.drop_last() + seq![p.last() + bytes::pieces(b, SLASH)[0]]
            + bytes::pieces(b, SLASH).drop_first());
    } else {
        let init = b.drop_last();
        lemma_pieces_concat(a, init);
        lemma_last_piece(init);
        let q = bytes::pieces(init, SLASH);
        let r = bytes::pieces(b, SLASH);
        let before = p.drop_last() + seq![p.last() + q[0]] + q.drop_first();
        assert((a + b).drop_last() =~= a + init);
        assert((a + b).last() == b.last());
        if b.last() == SLASH {
            assert(bytes::pieces(a + b, SLASH) == before.push(Seq::empty()));
            assert(r.drop_first() =~= q.drop_first().push(Seq::empty()));
            assert(before.push(Seq::empty()) =~= p.drop_last() + seq![p.last() + r[0]]
                + r.drop_first());
        } else {
            assert(bytes::pieces(a + b, SLASH) == before.drop_last().push(
                before.last().push(b.last()),
            ));
            if q.len() == 1 {
                assert((p.last() + q[0]).push(b.last()) =~= p.last() + r[0]);
                assert(before.drop_last().push(before.last().push(b.last())) =~= p.drop_last()
                    + seq![p.last() + r[0]] + r.drop_first());
            } else {
                assert(r.drop_first() =~= q.drop_first().drop_last().push(
                    q.last().push(b.last()),
                ));
                assert(before.drop_last().push(before.last().push(b.last())) =~= p.drop_last()
                    + seq![p.last() + r[0]] + r.drop_first());
            }
        }
    }
}

/// Pieces that follow others stand for what they stand for alone, but for a `.` at their start.
proof fn lemma_piece_components_concat(p: Seq<Seq<u8>>, q: Seq<Seq<u8>>)
    requires
        p.len() > 0,
    ensures
        piece_components(p + q) == piece_components(p) + without_leading_dot(piece_components(q)),
        q.len() > 0 ==> (piece_components(q).len() > 0 && piece_components(q)[0] is CurDir) == (
        q[0] == seq![DOT]),
    decreases q.len(),
{
    if q.len() == 0 {
        assert(p + q =~= p);
        assert(piece_components(p) =~= piece_components(p) + without_leading_dot(
            piece_components(q),
        ));
    } else {
        let init = q.drop_last();
        lemma_piece_components_concat(p, init);
        assert((p + q).drop_last() =~= p + init);
        assert((p + q).last() == q.last());
        let x = piece_components(init);
        let c = piece_component(q.last(), q.len() == 1);
        if q.len() == 1 {
            assert(x =~= Seq::empty());
            assert(piece_components(q) =~= match c {
                Some(c) => seq![c],
                None => Seq::empty(),
            });
            assert(piece_components(p + q) =~= piece_components(p) + without_leading_dot(
                piece_components(q),
            ));
        } else {
            assert(init[0] == q[0]);
            lemma_piece_components_no_dot(init);
            match c {
                Some(c) => {
                    assert(without_leading_dot(x.push(c)) =~= without_leading_dot(x).push(c));
                },
                None => {},
            }
            assert(piece_components(p + q) =~= piece_components(p) + without_leading_dot(
                piece_components(q),
            ));
        }
    }
}

/// Only the first piece can stand for `.`.
proof fn lemma_piece_components_no_dot(p: Seq<Seq<u8>>)
    ensures
        p.len() > 0 && piece_components(p).len() > 0 && piece_components(p)[0] is CurDir ==> p[0]
            == seq![DOT],
        p.len() > 0 && p[0] == seq![DOT] ==> piece_components(p).len() > 0
            && piece_components(p)[0] is CurDir,
        forall|i: int| 0 < i < piece_components(p).len() ==> piece_components(p)[i] !is CurDir,
    decreases p.len(),
{
    if p.len() > 0 {
        lemma_piece_components_no_dot(p.drop_last());
        if p.len() == 1 {
            assert(p.drop_last() =~= Seq::empty());
            assert(piece_components(p.drop_last()) =~= Seq::empty());
        }
    }
}

/// A path without bytes has no components, and any other path has some.
pub proof fn lemma_empty_path(s: Seq<u8>)
    ensures
        (components(s).len() == 0) == (s.len() == 0),
        is_absolute(s) == (components(s).len() > 0 && components(s)[0] is RootDir),
{
    lemma_shortest_paths();
    if s.len() == 0 {
        assert(s =~= Seq::empty());
    } else {
        let t = s.take(1);
        lemma_last_byte(t);
        lemma_prefix_size(s, 1);
        if components(s).len() == 0 {
            assert(total_size(components(s)) == 0);
        }
    }
    lemma_piece_components_no_root(bytes::pieces(s, SLASH));
}

/// A trailing slash, and a trailing `/.`, do not change which path is meant.
pub proof fn lemma_trailing_filler(s: Seq<u8>)
    requires
        s.len() > 0,
    ensures
        same_path(s.push(SLASH), s),
        same_path(s.push(SLASH).push(DOT), s),
{
    let a = s.push(SLASH);
    let b = a.push(DOT);
    lemma_last_byte(a);
    lemma_last_byte(b);
    assert(a.drop_last() =~= s);
    assert(b.drop_last() =~= a);
}

/// The components of a joined path: those of an absolute `rest` alone; otherwise those of `base`
/// and then those of `rest`, where a `.` at the start of `rest` shows only behind an empty `base`.
pub proof fn lemma_join_components(base: Seq<u8>, rest: Seq<u8>)
    ensures
        components(join(base, rest)) == if is_absolute(rest) || base.len() == 0 {
            components(rest)
        } else {
            components(base) + without_leading_dot(components(rest))
        },
{
    if is_absolute(rest) {
    } else if base.len() == 0 {
        assert(base + rest =~= rest);
    } else {
        let b = if base.last() == SLASH {
            base
        } else {
            base.push(SLASH)
        };
        if base.last() != SLASH {
            lemma_trailing_filler(base);
        }
        let p = bytes::pieces(b, SLASH);
        let q = bytes::pieces(rest, SLASH);
        lemma_last_piece(b);
        lemma_last_piece(rest);
        lemma_pieces_concat(b, rest);
        assert(p.last() + q[0] =~= q[0]);
        let init = p.drop_last();
        assert(seq![q[0]] + q.drop_first() =~= q);
        assert(bytes::pieces(b + rest, SLASH) =~= init + q);
        lemma_piece_components_concat(init, q);
        lemma_components_by_last_piece(b);
        assert(components(b) == root_components(b) + piece_components(init));
        assert((b + rest)[0] == b[0]);
        assert(components(rest) =~= piece_components(q));
        assert(components(b + rest) =~= components(b) + without_leading_dot(components(rest)));
    }
}

/// Which path a join means depends only on which paths are joined.
pub proof fn lemma_join_same_path(a: Seq<u8>, b: Seq<u8>, x: Seq<u8>, y: Seq<u8>)
    requires
        same_path(a, b),
        same_path(x, y),
    ensures
        same_path(join(a, x), join(b, y)),
{
    lemma_join_components(a, x);
    lemma_join_components(b, y);
    lemma_empty_path(a);
    lemma_empty_path(b);
    lemma_empty_path(x);
    lemma_empty_path(y);
}

/// Appending a plain name appends that component.
pub proof fn lemma_join_plain_name(base: Seq<u8>, name: Seq<u8>)
    requires
        is_plain_name(name),
    ensures
        components(join(base, name)) == components(base).push(Component::Normal(name)),
        file_name(join(base, name)) == Some(name),
{
    lemma_plain_name(name);
    lemma_join_components(base, name);
    lemma_empty_path(base);
    assert(components(join(base, name)) =~= components(base).push(Component::Normal(name)));
}

/// A parent is a prefix of its path and has all components but the last.
pub proof fn lemma_parent(s: Seq<u8>)
    ensures
        parent(s) is Some == (components(s).len() > 0 && components(s) != seq![
            Component::RootDir,
        ]),
        parent(s) matches Some(p) ==> {
            &&& components(p) == components(s).drop_last()
            &&& p.len() < s.len()
            &&& p == s.take(p.len() as int)
        },
{
    let c = components(s);
    lemma_root_is_first(s);
    if c.len() > 0 {
        if c.last() is RootDir {
            assert(c =~= seq![Component::RootDir]);
        } else {
            assert(c.take(c.len() - 1) =~= c.drop_last());
            lemma_shortest_prefix_exists(s, c.len() - 1);
            let p = shortest_prefix(s, c.drop_last());
            if p.len() == s.len() {
                assert(p =~= s);
            }
        }
    }
}

/// The parent of a directory with a plain name appended is that directory.
pub proof fn lemma_parent_of_join(base: Seq<u8>, name: Seq<u8>)
    requires
        is_plain_name(name),
    ensures
        parent(join(base, name)) is Some,
        same_path(parent(join(base, name))->0, base),
{
    lemma_join_plain_name(base, name);
    lemma_parent(join(base, name));
    assert(components(join(base, name)).drop_last() =~= components(base));
    assert(components(join(base, name)).last() == Component::Normal(name));
}

/// Which path a parent is depends only on which path it is the parent of.
pub proof fn lemma_parent_same_path(a: Seq<u8>, b: Seq<u8>)
    requires
        same_path(a, b),
    ensures
        parent(a) is Some == parent(b) is Some,
        parent(a) is Some ==> same_path(parent(a)->0, parent(b)->0),
{
    lemma_parent(a);
    lemma_parent(b);
}

/// The components of a path, piece by piece. A path without a slash has one component: `.`, `..`
/// or its name. A slash and a further piece behind a path add `..` or a name, and nothing where
/// the piece is empty or `.`; a slash at the very start is the root directory.
pub proof fn lemma_components_step(s: Seq<u8>, t: Seq<u8>)
    requires
        !t.contains(0x2f),
    ensures
        components(t) == (if t.len() == 0 {
            Seq::empty()
        } else if t == seq![0x2eu8] {
            seq![Component::CurDir]
        } else if t == seq![0x2eu8, 0x2e] {
            seq![Component::ParentDir]
        } else {
            seq![Component::Normal(t)]
        }),
        components(s.push(0x2f) + t) == (if s.len() == 0 {
            seq![Component::RootDir]
        } else {
            components(s)
        }) + (if t.len() == 0 || t == seq![0x2eu8] {
            Seq::empty()
        } else if t == seq![0x2eu8, 0x2e] {
            seq![Component::ParentDir]
        } else {
            seq![Component::Normal(t)]
        }),
{
    let e = Seq::<u8>::empty();
    lemma_shortest_paths();
    lemma_append_piece(e, t);
    assert(e + t =~= t);
    assert(components(t) =~= match piece_component(t, true) {
        Some(c) => seq![c],
        None => Seq::empty(),
    });
    let base = s.push(SLASH);
    lemma_append_piece(base, t);
    if s.len() == 0 {
        assert(base =~= seq![SLASH]);
    } else {
        lemma_trailing_filler(s);
    }
    assert(components(base + t) =~= components(base) + match piece_component(t, false) {
        Some(c) => seq![c],
        None => Seq::empty(),
    });
}

/// Two spellings are the same path where they have the same components.
pub proof fn lemma_same_path(a: Seq<u8>, b: Seq<u8>)
    ensures
        same_path(a, b) == (components(a) == components(b)),
{
}

/// A join is `rest` alone where that is absolute; otherwise `base` stands before `rest`, with a
/// slash between them where `base` is not empty and ends in none.
pub proof fn lemma_join_bytes(base: Seq<u8>, rest: Seq<u8>)
    ensures
        rest.len() > 0 && rest[0] == 0x2f ==> join(base, rest) == rest,
        !(rest.len() > 0 && rest[0] == 0x2f) && base.len() == 0 ==> join(base, rest) == rest,
        !(rest.len() > 0 && rest[0] == 0x2f) && base.len() > 0 && base.last() == 0x2f ==> join(
            base,
            rest,
        ) == base + rest,
        !(rest.len() > 0 && rest[0] == 0x2f) && base.len() > 0 && base.last() != 0x2f ==> join(
            base,
            rest,
        ) == base + seq![0x2fu8] + rest,
        is_absolute(rest) == (rest.len() > 0 && rest[0] == 0x2f),
{
    if base.len() == 0 {
        assert(base + rest =~= rest);
    }
    assert(base.push(SLASH) =~= base + seq![SLASH]);
}

/// A path ends in a name exactly where its last component is that name.
pub proof fn lemma_file_name(s: Seq<u8>, name: Seq<u8>)
    ensures
        (file_name(s) == Some(name)) == (components(s).len() > 0 && components(s).last()
            == Component::Normal(name)),
{
}

/// A parent is the shortest prefix of its path that has all components but the last.
pub proof fn lemma_parent_is_shortest(s: Seq<u8>, p: Seq<u8>)
    requires
        components(s).len() > 0,
        components(s) != seq![Component::RootDir],
        p.len() <= s.len(),
        p == s.take(p.len() as int),
        components(p) == components(s).drop_last(),
        forall|n: int|
            0 <= n < p.len() ==> components(#[trigger] s.take(n)) != components(s).drop_last(),
    ensures
        parent(s) == Some(p),
{
    lemma_parent(s);
    lemma_shortest_prefix_unique(s, components(s).drop_last(), p);
}

} // verus!
