use vstd::prelude::*;
use crate::object::{ObjectWrapper, SpecValue};

verus! {

/// The mathematical model of an environment: every binding made so far, each with
/// the scope it belongs to, and for each scope the scope its lookups fall back to.
pub struct SpecEnv {
    pub bindings: Seq<(nat, Seq<char>, SpecValue)>,
    pub parents: Seq<Option<nat>>,
}

/// The value most recently bound to `name` in scope `sc`, if any.
pub open spec fn find_binding(bs: Seq<(nat, Seq<char>, SpecValue)>, sc: nat, name: Seq<char>) -> Option<SpecValue>
    decreases bs.len(),
{
    if bs.len() == 0 {
        None
    } else if bs.last().0 == sc && bs.last().1 == name {
        Some(bs.last().2)
    } else {
        find_binding(bs.drop_last(), sc, name)
    }
}

/// Lookup of `name` from scope `sc`: its own bindings first, then its parent's,
/// up the chain. A parent always precedes its child.
pub open spec fn lookup(env: SpecEnv, sc: nat, name: Seq<char>) -> Option<SpecValue>
    decreases sc,
{
    if sc >= env.parents.len() {
        None
    } else {
        match find_binding(env.bindings, sc, name) {
            Some(v) => Some(v),
            None => match env.parents[sc as int] {
                Some(p) => if p < sc {
                    lookup(env, p, name)
                } else {
                    None
                },
                None => None,
            },
        }
    }
}

/// The environment after binding `name` to `v` in scope `sc`.
pub open spec fn bind(env: SpecEnv, sc: nat, name: Seq<char>, v: SpecValue) -> SpecEnv {
    SpecEnv { bindings: env.bindings.push((sc, name, v)), parents: env.parents }
}

/// The environment after opening a new scope whose lookups fall back to `parent`;
/// the new scope's index is `env.parents.len()`.
pub open spec fn open_scope(env: SpecEnv, parent: nat) -> SpecEnv {
    SpecEnv { bindings: env.bindings, parents: env.parents.push(Some(parent)) }
}

/// The index of the outermost scope, which a session keeps between inputs.
pub open spec fn global_scope() -> nat {
    0
}

/// The environment with a single, empty, outermost scope.
pub open spec fn fresh_env() -> SpecEnv {
    SpecEnv { bindings: Seq::empty(), parents: seq![None] }
}

/// Scopes of variables. Scope 0 is the outermost; each function call opens a new
/// scope whose lookups fall back to the scope the function was defined in, so a
/// closure shares the scope it captured, later bindings included.
pub struct Environment {
    bindings: Vec<(usize, String, ObjectWrapper)>,
    parents: Vec<Option<usize>>,
}

impl View for Environment {
    type V = SpecEnv;

    closed spec fn view(&self) -> SpecEnv {
        SpecEnv {
            bindings: Seq::new(
                self.bindings@.len(),
                |i: int|
                    (
                        self.bindings@[i].0 as nat,
                        self.bindings@[i].1@,
                        self.bindings@[i].2@,
                    ),
            ),
            parents: Seq::new(
                self.parents@.len(),
                |i: int|
                    match self.parents@[i] {
                        Some(p) => Some(p as nat),
                        None => None,
                    },
            ),
        }
    }
}

impl Default for Environment {
    fn default() -> (r: Self)
        ensures
            r@ == fresh_env(),
    {
        Environment::new()
    }
}

impl Environment {
    pub fn new() -> (r: Self)
        ensures
            r@ == fresh_env(),
    {
        let mut parents: Vec<Option<usize>> = Vec::new();
        parents.push(None);
        let r = Environment { bindings: Vec::new(), parents };
        assert(r@.bindings =~= fresh_env().bindings);
        assert(r@.parents =~= fresh_env().parents);
        r
    }

    fn find_in_scope(&self, sc: usize, name: &str) -> (r: Option<usize>)
        ensures
            match r {
                Some(i) => i < self@.bindings.len() && find_binding(self@.bindings, sc as nat, name@)
                    == Some(self@.bindings[i as int].2),
                None => find_binding(self@.bindings, sc as nat, name@) is None,
            },
    {
        let mut i = self.bindings.len();
        assert(self@.bindings.subrange(0, i as int) =~= self@.bindings);
        while i > 0
            invariant
                i <= self@.bindings.len(),
                find_binding(self@.bindings, sc as nat, name@) == find_binding(
                    self@.bindings.subrange(0, i as int),
                    sc as nat,
                    name@,
                ),
            decreases i,
        {
            let ghost prefix = self@.bindings.subrange(0, i as int);
            assert(prefix.drop_last() =~= self@.bindings.subrange(0, i - 1));
            let entry = &self.bindings[i - 1];
            if entry.0 == sc && str_equal(entry.1.as_str(), name) {
                return Some(i - 1);
            }
            i = i - 1;
        }
        assert(self@.bindings.subrange(0, 0) =~= Seq::<(nat, Seq<char>, SpecValue)>::empty());
        None
    }

    /// The value that `name` has when looked up from scope `sc`.
    pub fn lookup(&self, sc: usize, name: &str) -> (r: Option<&ObjectWrapper>)
        ensures
            match r {
                Some(v) => lookup(self@, sc as nat, name@) == Some(v@),
                None => lookup(self@, sc as nat, name@) is None,
            },
    {
        let mut cur = sc;
        loop
            invariant
                lookup(self@, cur as nat, name@) == lookup(self@, sc as nat, name@),
            decreases cur,
        {
            if cur >= self.parents.len() {
                return None;
            }
            match self.find_in_scope(cur, name) {
                Some(i) => {
                    return Some(&self.bindings[i].2);
                },
                None => {},
            }
            match self.parents[cur] {
                Some(p) => {
                    if p < cur {
                        cur = p;
                    } else {
                        return None;
                    }
                },
                None => {
                    return None;
                },
            }
        }
    }

    /// Binds `name` to `obj` in scope `sc`.
    pub fn bind(&mut self, sc: usize, name: String, obj: ObjectWrapper)
        ensures
            final(self)@ == bind(old(self)@, sc as nat, name@, obj@),
    {
        self.bindings.push((sc, name, obj));
        assert(final(self)@.bindings =~= bind(old(self)@, sc as nat, name@, obj@).bindings);
        assert(final(self)@.parents =~= bind(old(self)@, sc as nat, name@, obj@).parents);
    }

    /// Opens a new scope whose lookups fall back to `parent`, and returns its index.
    pub fn open_scope(&mut self, parent: usize) -> (r: usize)
        ensures
            final(self)@ == open_scope(old(self)@, parent as nat),
            r == old(self)@.parents.len(),
    {
        let r = self.parents.len();
        self.parents.push(Some(parent));
        assert(final(self)@.bindings =~= open_scope(old(self)@, parent as nat).bindings);
        assert(final(self)@.parents =~= open_scope(old(self)@, parent as nat).parents);
        r
    }

    /// Whether `name` is bound in the outermost scope.
    pub fn contains(&self, name: &str) -> (r: bool)
        ensures
            r == lookup(self@, global_scope(), name@) is Some,
    {
        self.lookup(0, name).is_some()
    }

    /// The value of `name` in the outermost scope.
    pub fn get(&self, name: &str) -> (r: Option<&ObjectWrapper>)
        ensures
            match r {
                Some(v) => lookup(self@, global_scope(), name@) == Some(v@),
                None => lookup(self@, global_scope(), name@) is None,
            },
    {
        self.lookup(0, name)
    }

    /// The value of `name` in the outermost scope, to be changed in place.
    pub fn get_mut(&mut self, name: &str) -> (r: Option<&mut ObjectWrapper>)
        ensures
            old(self)@.parents == final(self)@.parents,
            old(self)@.bindings.len() == final(self)@.bindings.len(),
            (r is Some) == (lookup(old(self)@, global_scope(), name@) is Some),
            r matches Some(v) ==> lookup(old(self)@, global_scope(), name@) == Some((*v)@),
            r is None ==> final(self)@ == old(self)@,
    {
        if self.parents.len() == 0 {
            return None;
        }
        match self.find_in_scope(0, name) {
            Some(i) => Some(&mut self.bindings[i].2),
            None => {
                None
            },
        }
    }

    /// Binds `name` to `obj` in the outermost scope, and returns the value it had
    /// there before, if any.
    pub fn set(&mut self, name: &str, obj: ObjectWrapper) -> (r: Option<ObjectWrapper>)
        ensures
            final(self)@ == bind(old(self)@, global_scope(), name@, obj@),
            match r {
                Some(v) => lookup(old(self)@, global_scope(), name@) == Some(v@),
                None => lookup(old(self)@, global_scope(), name@) is None,
            },
    {
        let previous = match self.lookup(0, name) {
            Some(v) => Some(v.duplicate()),
            None => None,
        };
        self.bind(0, name.to_owned(), obj);
        previous
    }
}

fn str_equal(a: &str, b: &str) -> (r: bool)
    ensures
        r == (a@ == b@),
{
    let n = b.unicode_len();
    if a.unicode_len() != n {
        return false;
    }
    let mut i: usize = 0;
    while i < n
        invariant
            n == b@.len(),
            a@.len() == n,
            i <= n,
            forall|j: int| 0 <= j < i ==> a@[j] == b@[j],
        decreases n - i,
    {
        if a.get_char(i) != b.get_char(i) {
            return false;
        }
        i = i + 1;
    }
    assert(a@ =~= b@);
    true
}

} // verus!
