//! Byte strings: comparing them and splitting them at a separator.
use vstd::prelude::*;

verus! {

/// The pieces of `s` between occurrences of `sep`, in order. There is always at least one piece;
/// adjacent separators, and separators at either end, give empty pieces.
pub open spec fn pieces(s: Seq<u8>, sep: u8) -> Seq<Seq<u8>>
    decreases s.len(),
{
    if s.len() == 0 {
        seq![Seq::empty()]
    } else {
        let before = pieces(s.drop_last(), sep);
        if s.last() == sep {
            before.push(Seq::empty())
        } else {
            before.drop_last().push(before.last().push(s.last()))
        }
    }
}

/// The byte strings of `parts`, one after the other, with one `sep` between neighbours.
pub open spec fn joined(parts: Seq<Seq<u8>>, sep: u8) -> Seq<u8>
    decreases parts.len(),
{
    if parts.len() == 0 {
        Seq::empty()
    } else if parts.len() == 1 {
        parts[0]
    } else {
        joined(parts.drop_last(), sep).push(sep) + parts.last()
    }
}

/// The bytes of a string.
pub open spec fn utf8(s: &str) -> Seq<u8> {
    vstd::utf8::encode_utf8(s@)
}

/// What the slices of a vector hold.
pub open spec fn slice_views(v: Seq<&[u8]>) -> Seq<Seq<u8>> {
    v.map_values(|s: &[u8]| s@)
}

/// What an optional slice or vector holds.
pub open spec fn opt_view<T: View>(v: Option<T>) -> Option<T::V> {
    match v {
        Some(x) => Some(x@),
        None => None,
    }
}

/// A copy of an optional byte string.
pub fn copy_opt(v: &Option<Vec<u8>>) -> (r: Option<Vec<u8>>)
    ensures
        opt_view(r) == opt_view(*v),
{
    match v {
        Some(x) => Some(vstd::slice::slice_to_vec(x.as_slice())),
        None => None,
    }
}

/// Compares two byte strings.
pub fn bytes_eq(a: &[u8], b: &[u8]) -> (r: bool)
    ensures
        r == (a@ == b@),
{
    if a.len() != b.len() {
        return false;
    }
    let mut i: usize = 0;
    while i < a.len()
        invariant
            i <= a.len(),
            a.len() == b.len(),
            forall|j: int| 0 <= j < i ==> a@[j] == b@[j],
        decreases a.len() - i,
    {
        if a[i] != b[i] {
            return false;
        }
        i += 1;
    }
    assert(a@ =~= b@);
    true
}

/// Splits `s` at every `sep`.
pub fn split_on(s: &[u8], sep: u8) -> (r: Vec<&[u8]>)
    ensures
        slice_views(r@) == pieces(s@, sep),
{
    let mut out: Vec<&[u8]> = Vec::new();
    let mut start: usize = 0;
    let mut i: usize = 0;
    assert(s@.subrange(0, 0) =~= Seq::empty());
    assert(slice_views(out@).push(s@.subrange(0, 0)) =~= pieces(s@.take(0), sep));
    while i < s.len()
        invariant
            start <= i <= s.len(),
            slice_views(out@).push(s@.subrange(start as int, i as int)) =~= pieces(
                s@.take(i as int),
                sep,
            ),
        decreases s.len() - i,
    {
        let ghost before = pieces(s@.take(i as int), sep);
        assert(s@.take(i + 1).drop_last() =~= s@.take(i as int));
        assert(before.drop_last() =~= slice_views(out@));
        if s[i] == sep {
            let piece = vstd::slice::slice_subrange(s, start, i);
            let ghost old_out = out@;
            out.push(piece);
            assert(slice_views(out@) =~= slice_views(old_out).push(piece@));
            start = i + 1;
            assert(s@.subrange(i + 1, i + 1) =~= Seq::empty());
        } else {
            assert(s@.subrange(start as int, i + 1) =~= s@.subrange(start as int, i as int).push(
                s@[i as int],
            ));
        }
        i += 1;
    }
    let piece = vstd::slice::slice_subrange(s, start, s.len());
    let ghost old_out = out@;
    out.push(piece);
    assert(slice_views(out@) =~= slice_views(old_out).push(piece@));
    assert(s@.take(s@.len() as int) =~= s@);
    out
}

/// Splitting gives at least one piece, no piece holds the separator, and joining the pieces
/// with the separator gives the byte string back.
pub proof fn lemma_pieces(s: Seq<u8>, sep: u8)
    ensures
        pieces(s, sep).len() >= 1,
        forall|i: int, j: int|
            0 <= i < pieces(s, sep).len() && 0 <= j < pieces(s, sep)[i].len()
                ==> #[trigger] pieces(s, sep)[i][j] != sep,
        joined(pieces(s, sep), sep) == s,
    decreases s.len(),
{
    if s.len() > 0 {
        let before = pieces(s.drop_last(), sep);
        lemma_pieces(s.drop_last(), sep);
        let now = pieces(s, sep);
        if s.last() == sep {
            assert(now.drop_last() =~= before);
            assert(now.last() =~= Seq::empty());
            assert(joined(now, sep) =~= s);
        } else {
            assert(now.drop_last() =~= before.drop_last());
            assert(now.last() =~= before.last().push(s.last()));
            assert(joined(now, sep) =~= joined(before, sep).push(s.last()));
            assert(joined(now, sep) =~= s);
        }
    }
}

/// Joining parts that do not hold the separator and splitting the result gives the parts back.
pub proof fn lemma_joined(parts: Seq<Seq<u8>>, sep: u8)
    requires
        parts.len() >= 1,
        forall|i: int, j: int|
            0 <= i < parts.len() && 0 <= j < parts[i].len() ==> #[trigger] parts[i][j] != sep,
    ensures
        pieces(joined(parts, sep), sep) == parts,
    decreases parts.len(), parts.last().len(),
{
    let last = parts.last();
    let s = joined(parts, sep);
    if last.len() > 0 {
        let shorter = parts.drop_last().push(last.drop_last());
        assert(shorter.drop_last() =~= parts.drop_last());
        assert forall|i: int, j: int|
            0 <= i < shorter.len() && 0 <= j < shorter[i].len() implies #[trigger] shorter[i][j]
            != sep by {
            assert(shorter[i][j] == parts[i][j]);
        }
        lemma_joined(shorter, sep);
        assert(s.drop_last() =~= joined(shorter, sep));
        assert(last[last.len() - 1] == parts[parts.len() - 1][last.len() - 1]);
        assert(s.last() == last.last());
        assert(last.drop_last().push(last.last()) =~= last);
        assert(pieces(s, sep) =~= parts);
    } else if parts.len() > 1 {
        let init = parts.drop_last();
        assert forall|i: int, j: int|
            0 <= i < init.len() && 0 <= j < init[i].len() implies #[trigger] init[i][j] != sep by {
            assert(init[i][j] == parts[i][j]);
        }
        lemma_joined(init, sep);
        assert(s.drop_last() =~= joined(init, sep));
        assert(last =~= Seq::empty());
        assert(pieces(s, sep) =~= parts);
    } else {
        assert(parts[0] =~= Seq::empty());
        assert(parts =~= seq![Seq::empty()]);
        assert(s.len() == 0);
    }
}

/// The bytes of an ASCII string are its characters.
pub proof fn lemma_ascii(s: &str)
    requires
        vstd::utf8::is_ascii_chars(s@),
    ensures
        utf8(s).len() == s@.len(),
        forall|i: int| 0 <= i < s@.len() ==> #[trigger] utf8(s)[i] == s@[i] as u8,
{
    vstd::utf8::is_ascii_chars_encode_utf8(s@);
}

/// Different strings have different bytes.
pub proof fn lemma_utf8_injective(a: &str, b: &str)
    requires
        utf8(a) == utf8(b),
    ensures
        a@ == b@,
{
    vstd::utf8::encode_utf8_decode_utf8(a@);
    vstd::utf8::encode_utf8_decode_utf8(b@);
}

/// The bytes of a string are its UTF-8 encoding.
pub proof fn lemma_utf8(s: &str)
    ensures
        utf8(s) == vstd::utf8::encode_utf8(s@),
{
}

/// What a value holds is there exactly where the value is.
pub proof fn lemma_opt_view<T: View>(v: Option<T>)
    ensures
        v is None ==> opt_view(v) is None,
        v matches Some(x) ==> opt_view(v) == Some(x@),
{
}

/// A byte string without the separator is one piece, and a separator starts a new piece: behind
/// any byte string, a separator and then bytes other than it are one piece more.
pub proof fn lemma_pieces_step(s: Seq<u8>, t: Seq<u8>, sep: u8)
    requires
        !t.contains(sep),
    ensures
        pieces(t, sep) == seq![t],
        pieces(s.push(sep) + t, sep) == pieces(s, sep).push(t),
    decreases t.len(),
{
    let whole = s.push(sep) + t;
    if t.len() == 0 {
        assert(t =~= Seq::empty());
        assert(whole =~= s.push(sep));
        assert(whole.drop_last() =~= s);
    } else {
        let init = t.drop_last();
        assert(!init.contains(sep)) by {
            if init.contains(sep) {
                let i = choose|i: int| 0 <= i < init.len() && init[i] == sep;
                assert(t[i] == sep);
            }
        }
        lemma_pieces_step(s, init, sep);
        assert(t.contains(t.last()));
        assert(init.push(t.last()) =~= t);
        assert(whole.drop_last() =~= s.push(sep) + init);
        assert(pieces(t, sep) =~= seq![t]);
        assert(pieces(whole, sep) =~= pieces(s, sep).push(t));
    }
}

/// Joining puts every part behind the others, with one separator before it.
pub proof fn lemma_joined_step(parts: Seq<Seq<u8>>, t: Seq<u8>, sep: u8)
    ensures
        joined(Seq::empty(), sep) == Seq::<u8>::empty(),
        joined(seq![t], sep) == t,
        parts.len() > 0 ==> joined(parts.push(t), sep) == joined(parts, sep).push(sep) + t,
{
    assert(parts.push(t).drop_last() =~= parts);
}

/// The slices of a vector are viewed one for one.
pub proof fn lemma_slice_views(v: Seq<&[u8]>)
    ensures
        slice_views(v).len() == v.len(),
        forall|i: int| 0 <= i < v.len() ==> #[trigger] slice_views(v)[i] == v[i]@,
{
}

} // verus!
