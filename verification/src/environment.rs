//! What a lookup reads of the process: its environment variables and its executable.
use crate::bytes;
use crate::pathbuf::PathBuf;
use vstd::prelude::*;

verus! {

/// One environment variable.
#[derive(Debug)]
pub struct Var {
    pub name: Vec<u8>,
    pub value: Vec<u8>,
}

/// The environment of a process, captured so that every lookup is a function of it.
#[derive(Debug)]
pub struct Environment {
    /// The running executable, where its path can be read.
    pub exe: Option<PathBuf>,
    /// The environment variables. Where a name comes twice, the first one counts.
    pub vars: Vec<Var>,
}

/// An environment as a value: the executable, and a map from names to values.
pub struct EnvironmentView {
    pub exe: Option<Seq<u8>>,
    pub vars: Map<Seq<u8>, Seq<u8>>,
}

impl EnvironmentView {
    /// The value of a variable, where it is set.
    pub open spec fn var(self, name: &str) -> Option<Seq<u8>> {
        if self.vars.contains_key(bytes::utf8(name)) {
            Some(self.vars[bytes::utf8(name)])
        } else {
            None
        }
    }
}

/// The map that a list of variables stands for; of two with one name the first counts.
pub open spec fn var_map(vars: Seq<Var>) -> Map<Seq<u8>, Seq<u8>>
    decreases vars.len(),
{
    if vars.len() == 0 {
        Map::empty()
    } else {
        let before = var_map(vars.drop_last());
        let last = vars.last();
        if before.contains_key(last.name@) {
            before
        } else {
            before.insert(last.name@, last.value@)
        }
    }
}

impl View for Environment {
    type V = EnvironmentView;

    open spec fn view(&self) -> EnvironmentView {
        EnvironmentView { exe: bytes::opt_view(self.exe), vars: var_map(self.vars@) }
    }
}

/// A variable that a leading part of a list sets has that value in the whole list.
proof fn lemma_first_counts(vars: Seq<Var>, n: int, name: Seq<u8>)
    requires
        0 <= n <= vars.len(),
        var_map(vars.take(n)).contains_key(name),
    ensures
        var_map(vars).contains_key(name),
        var_map(vars)[name] == var_map(vars.take(n))[name],
    decreases vars.len(),
{
    if n == vars.len() {
        assert(vars.take(n) =~= vars);
    } else {
        assert(vars.drop_last().take(n) =~= vars.take(n));
        lemma_first_counts(vars.drop_last(), n, name);
    }
}

impl Environment {
    /// The value of a variable, where it is set.
    pub fn var(&self, name: &str) -> (r: Option<Vec<u8>>)
        ensures
            bytes::opt_view(r) == self@.var(name),
    {
        let mut i: usize = 0;
        assert(self.vars@.take(0) =~= Seq::empty());
        while i < self.vars.len()
            invariant
                i <= self.vars.len(),
                !var_map(self.vars@.take(i as int)).contains_key(bytes::utf8(name)),
            decreases self.vars.len() - i,
        {
            assert(self.vars@.take(i + 1).drop_last() =~= self.vars@.take(i as int));
            if bytes::bytes_eq(self.vars[i].name.as_slice(), name.as_bytes()) {
                proof {
                    lemma_first_counts(self.vars@, i + 1, bytes::utf8(name));
                }
                return Some(vstd::slice::slice_to_vec(self.vars[i].value.as_slice()));
            }
            i += 1;
        }
        assert(self.vars@.take(self.vars@.len() as int) =~= self.vars@);
        None
    }
}

/// A list of variables stands for the map that has the names in it, and for each name the value
/// where it first comes.
pub proof fn lemma_var_map(vars: Seq<Var>, name: Seq<u8>)
    ensures
        var_map(vars).contains_key(name) == (exists|i: int|
            0 <= i < vars.len() && (#[trigger] vars[i]).name@ == name),
        forall|i: int|
            0 <= i < vars.len() && (#[trigger] vars[i]).name@ == name && (forall|j: int|
                0 <= j < i ==> (#[trigger] vars[j]).name@ != name) ==> var_map(vars)[name]
                == vars[i].value@,
    decreases vars.len(),
{
    if vars.len() > 0 {
        let init = vars.drop_last();
        lemma_var_map(init, name);
        assert(vars[vars.len() - 1] == vars.last());
        if var_map(init).contains_key(name) {
            let i = choose|i: int| 0 <= i < init.len() && (#[trigger] init[i]).name@ == name;
            assert(vars[i].name@ == name);
        }
        assert forall|i: int|
            0 <= i < vars.len() && (#[trigger] vars[i]).name@ == name && (forall|j: int|
                0 <= j < i ==> (#[trigger] vars[j]).name@ != name) implies var_map(vars)[name]
            == vars[i].value@ by {
            if i < init.len() {
                assert(init[i] == vars[i]);
                assert forall|j: int| 0 <= j < i implies (#[trigger] init[j]).name@ != name by {
                    assert(vars[j] == init[j]);
                }
            } else if var_map(init).contains_key(name) {
                let k = choose|k: int| 0 <= k < init.len() && (#[trigger] init[k]).name@ == name;
                assert(vars[k].name@ == name);
            }
        }
        if exists|i: int| 0 <= i < vars.len() && (#[trigger] vars[i]).name@ == name {
            let i = choose|i: int| 0 <= i < vars.len() && (#[trigger] vars[i]).name@ == name;
            if i < init.len() {
                assert(init[i].name@ == name);
            }
        }
    }
}

/// An environment is viewed as the bytes of its executable and the map of its variables, and a
/// variable is looked up there by the bytes of its name.
pub proof fn lemma_environment(env: Environment, name: &str)
    ensures
        env.exe is None ==> env@.exe is None,
        env.exe matches Some(p) ==> env@.exe == Some(p.bytes@),
        env@.vars == var_map(env.vars@),
        env@.var(name) is Some == env@.vars.contains_key(vstd::utf8::encode_utf8(name@)),
        env@.var(name) is Some ==> env@.var(name)->0
            == env@.vars[vstd::utf8::encode_utf8(name@)],
{
}

} // verus!
