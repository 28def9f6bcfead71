//! An owned path.
use crate::bytes;
use crate::path;
use vstd::prelude::*;

verus! {

/// An owned path: any byte string. Two paths are equal where their components are.
#[derive(Debug)]
pub struct PathBuf {
    pub bytes: Vec<u8>,
}

impl View for PathBuf {
    type V = Seq<u8>;

    open spec fn view(&self) -> Seq<u8> {
        self.bytes@
    }
}

/// The byte strings that a list of paths holds.
pub open spec fn path_views(v: Seq<PathBuf>) -> Seq<Seq<u8>> {
    v.map_values(|p: PathBuf| p@)
}

impl Clone for PathBuf {
    fn clone(&self) -> (r: PathBuf)
        ensures
            r@ == self@,
    {
        PathBuf::from_bytes(self.bytes.as_slice())
    }
}

impl PartialEq for PathBuf {
    fn eq(&self, other: &Self) -> (r: bool) {
        path::same_path_slices(self.bytes.as_slice(), other.bytes.as_slice())
    }
}

impl vstd::std_specs::cmp::PartialEqSpecImpl for PathBuf {
    open spec fn obeys_eq_spec() -> bool {
        true
    }

    open spec fn eq_spec(&self, other: &Self) -> bool {
        path::same_path(self@, other@)
    }
}

impl Eq for PathBuf {

}

impl<'a> From<&'a str> for PathBuf {
    fn from(s: &'a str) -> (r: PathBuf)
        ensures
            r@ == bytes::utf8(s),
    {
        PathBuf { bytes: vstd::slice::slice_to_vec(s.as_bytes()) }
    }
}

impl<'a> vstd::std_specs::convert::FromSpecImpl<&'a str> for PathBuf {
    open spec fn obeys_from_spec() -> bool {
        false
    }

    open spec fn from_spec(s: &'a str) -> PathBuf {
        arbitrary()
    }
}

impl PathBuf {
    /// A path with the given bytes.
    pub fn from_bytes(bytes: &[u8]) -> (r: PathBuf)
        ensures
            r@ == bytes@,
    {
        PathBuf { bytes: vstd::slice::slice_to_vec(bytes) }
    }

    /// Whether the path has no bytes.
    pub fn is_empty(&self) -> (r: bool)
        ensures
            r == (self@.len() == 0),
    {
        self.bytes.len() == 0
    }

    /// Whether the path starts at the root directory.
    pub fn is_absolute(&self) -> (r: bool)
        ensures
            r == path::is_absolute(self@),
    {
        self.bytes.len() > 0 && self.bytes[0] == path::SLASH
    }

    /// The path with `rest` appended; an absolute `rest` takes its place.
    pub fn join(&self, rest: &[u8]) -> (r: PathBuf)
        ensures
            r@ == path::join(self@, rest@),
    {
        if rest.len() > 0 && rest[0] == path::SLASH {
            return PathBuf::from_bytes(rest);
        }
        let mut out = vstd::slice::slice_to_vec(self.bytes.as_slice());
        if out.len() > 0 && out[out.len() - 1] != path::SLASH {
            out.push(path::SLASH);
        }
        let ghost base = out@;
        out.extend_from_slice(rest);
        assert(out@ =~= base + rest@);
        PathBuf { bytes: out }
    }

    /// The path without its last component, where it has one other than the root directory.
    pub fn parent(&self) -> (r: Option<PathBuf>)
        ensures
            bytes::opt_view(r) == path::parent(self@),
    {
        match path::parent_slice(self.bytes.as_slice()) {
            Some(s) => Some(PathBuf::from_bytes(s)),
            None => None,
        }
    }

    /// The name that the path ends in, where its last component is a plain name.
    pub fn file_name(&self) -> (r: Option<&[u8]>)
        ensures
            bytes::opt_view(r) == path::file_name(self@),
    {
        path::file_name_slice(self.bytes.as_slice())
    }
}

/// A list of paths is viewed path by path, and a path by its bytes.
pub proof fn lemma_path_views(v: Seq<PathBuf>)
    ensures
        path_views(v).len() == v.len(),
        forall|i: int| 0 <= i < v.len() ==> #[trigger] path_views(v)[i] == v[i].bytes@,
{
}

/// Two paths are equal exactly where they have the same components.
pub proof fn lemma_eq(a: PathBuf, b: PathBuf)
    ensures
        vstd::std_specs::cmp::PartialEqSpec::eq_spec(&a, &b) == (path::components(a.bytes@)
            == path::components(b.bytes@)),
{
}

} // verus!
