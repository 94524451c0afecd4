//! The module scope tree: every module is a child scope of the module (or the
//! root) that installed it.

use vstd::prelude::*;

verus! {

/// Identifies a module scope in the application tree. Root is [`ScopeId::root`].
#[derive(Clone, Copy, Debug, PartialEq, Eq, Structural)]
pub struct ScopeId(pub u32);

impl ScopeId {
    /// The application root scope.
    pub fn root() -> (r: ScopeId)
        ensures
            r == ScopeId(0),
    {
        ScopeId(0)
    }

    /// The raw index of this scope.
    pub fn discriminant(self) -> (r: u32)
        ensures
            r == self.0,
    {
        self.0
    }

    /// The position of this scope in the tree.
    pub open spec fn idx(self) -> int {
        self.0 as int
    }
}

/// Scope names plus the ancestor chain of every scope (`start`, parent, ...,
/// root), extended incrementally as modules are nested.
#[derive(Debug)]
pub struct ScopeTree {
    names: Vec<&'static str>,
    chains: Vec<Vec<ScopeId>>,
}

impl ScopeTree {
    /// Number of scopes.
    pub closed spec fn len(&self) -> nat {
        self.names@.len()
    }

    /// Display name of scope `i`.
    pub open spec fn name_of(&self, i: int) -> Seq<char> {
        self.name_str(i)@
    }

    /// The name string of scope `i`, or `<unknown>` for an index the tree
    /// never issued.
    pub closed spec fn name_str(&self, i: int) -> &'static str {
        if 0 <= i < self.names@.len() {
            self.names@[i]
        } else {
            "<unknown>"
        }
    }

    /// Ancestor chain of scope `i`, starting at `i` and ending at the root.
    pub closed spec fn chain(&self, i: int) -> Seq<ScopeId> {
        self.chains@[i]@
    }

    /// Names and chains are kept in step.
    pub closed spec fn parallel(&self) -> bool {
        self.chains@.len() == self.names@.len()
    }

    /// Whether `s` names a scope of this tree.
    pub open spec fn has(&self, s: ScopeId) -> bool {
        s.idx() < self.len()
    }

    /// The parent of scope `i > 0`.
    pub open spec fn parent_of(&self, i: int) -> int {
        self.chain(i)[1].idx()
    }

    /// Structural validity: the root's chain is `[root]`; every other scope's
    /// chain is the scope itself followed by its parent's chain, and every
    /// parent was created before its child.
    pub open spec fn wf(&self) -> bool {
        &&& self.parallel()
        &&& self.len() >= 1
        &&& self.len() <= u32::MAX
        &&& self.chain(0) == seq![ScopeId(0)]
        &&& forall|i: int| 0 <= i < self.len() ==> (#[trigger] self.chain(i)).len() >= 1 && self.chain(i)[0]
            == ScopeId(i as u32)
        &&& forall|i: int| 0 < i < self.len() ==> {
            &&& (#[trigger] self.chain(i)).len() >= 2
            &&& self.parent_of(i) < i
            &&& self.chain(i).drop_first() == self.chain(self.parent_of(i))
        }
    }

    /// A tree holding only the root scope, named `<root>`.
    pub fn new() -> (t: Self)
        ensures
            t.wf(),
            t.len() == 1,
            t.name_of(0) == "<root>"@,
    {
        let mut root_chain = Vec::new();
        root_chain.push(ScopeId::root());
        let mut chains = Vec::new();
        chains.push(root_chain);
        let mut names = Vec::new();
        names.push("<root>");
        let t = ScopeTree { names, chains };
        assert(t.chain(0) =~= seq![ScopeId(0)]);
        t
    }

    /// Number of scopes created so far.
    pub fn count(&self) -> (n: usize)
        ensures
            n == self.len(),
    {
        self.names.len()
    }

    /// Add a child of `parent` named `name`, returning its id (the next free index).
    pub fn child(&mut self, parent: ScopeId, name: &'static str) -> (id: ScopeId)
        requires
            old(self).wf(),
            old(self).has(parent),
            old(self).len() < u32::MAX,
        ensures
            final(self).wf(),
            id.idx() == old(self).len(),
            final(self).len() == old(self).len() + 1,
            final(self).name_of(id.idx()) == name@,
            final(self).chain(id.idx()) == seq![id] + old(self).chain(parent.idx()),
            forall|i: int| 0 <= i < old(self).len() ==> #[trigger] final(self).chain(i) == old(self).chain(i)
                && final(self).name_of(i) == old(self).name_of(i),
    {
        let id = ScopeId(self.names.len() as u32);
        let parent_chain = &self.chains[parent.0 as usize];
        let mut chain: Vec<ScopeId> = Vec::new();
        chain.push(id);
        let mut k: usize = 0;
        while k < parent_chain.len()
            invariant
                k <= parent_chain.len(),
                chain@ == seq![id] + parent_chain@.subrange(0, k as int),
            decreases parent_chain.len() - k,
        {
            chain.push(parent_chain[k]);
            k = k + 1;
        }
        assert(parent_chain@.subrange(0, parent_chain.len() as int) =~= parent_chain@);
        let ghost old_self = *self;
        self.names.push(name);
        self.chains.push(chain);
        proof {
            let n = old_self.len() as int;
            assert forall|i: int| 0 <= i < n implies #[trigger] self.chain(i) == old_self.chain(i)
                && self.name_of(i) == old_self.name_of(i) by {
                assert(self.chains@[i] == old_self.chains@[i]);
                assert(self.names@[i] == old_self.names@[i]);
                assert(self.name_str(i) == old_self.name_str(i));
            }
            assert(self.chain(n) == seq![id] + old_self.chain(parent.idx()));
            assert(self.chain(n).drop_first() =~= old_self.chain(parent.idx()));
            assert forall|i: int| 0 < i < self.len() implies {
                &&& (#[trigger] self.chain(i)).len() >= 2
                &&& self.parent_of(i) < i
                &&& self.chain(i).drop_first() == self.chain(self.parent_of(i))
            } by {
                if i < n {
                    assert(self.chain(old_self.parent_of(i)) == old_self.chain(old_self.parent_of(i)));
                } else {
                    assert(old_self.chain(parent.idx()).len() >= 1);
                    assert(self.chain(i)[1] == old_self.chain(parent.idx())[0]);
                }
            }
        }
        id
    }

    /// Display name of `id`, or `<unknown>` for an id this tree never issued.
    pub fn name(&self, id: ScopeId) -> (s: &'static str)
        ensures
            s == self.name_str(id.idx()),
            !self.has(id) ==> s@ == "<unknown>"@,
    {
        if (id.0 as usize) < self.names.len() {
            self.names[id.0 as usize]
        } else {
            "<unknown>"
        }
    }

    /// Ancestors of `start`, beginning with `start` itself and ending at the root.
    pub fn ancestors_from(&self, start: ScopeId) -> (chain: &Vec<ScopeId>)
        requires
            self.wf(),
            self.has(start),
        ensures
            chain@ == self.chain(start.idx()),
    {
        &self.chains[start.0 as usize]
    }

    /// Every ancestor chain starts at its scope, steps from child to parent,
    /// and ends at the root.
    pub proof fn law_ancestors_walk_to_root(&self, i: int)
        requires
            self.wf(),
            0 <= i < self.len(),
        ensures
            self.chain(i)[0] == ScopeId(i as u32),
            self.chain(i).last() == ScopeId(0),
            forall|t: int| 0 <= t < self.chain(i).len() ==> (#[trigger] self.chain(i)[t]).idx() < self.len(),
            forall|t: int| 0 <= t < self.chain(i).len() - 1 ==> #[trigger] self.chain(i)[t + 1].idx()
                == self.parent_of(self.chain(i)[t].idx()),
        decreases i,
    {
        if i > 0 {
            let p = self.parent_of(i);
            self.law_ancestors_walk_to_root(p);
            let c = self.chain(i);
            assert(c.drop_first() == self.chain(p));
            assert forall|t: int| 0 <= t < c.len() implies (#[trigger] c[t]).idx() < self.len() by {
                if t > 0 {
                    assert(c[t] == self.chain(p)[t - 1]);
                }
            }
            assert forall|t: int| 0 <= t < c.len() - 1 implies #[trigger] c[t + 1].idx() == self.parent_of(
                c[t].idx(),
            ) by {
                if t > 0 {
                    assert(c[t] == self.chain(p)[t - 1]);
                    assert(c[t + 1] == self.chain(p)[(t - 1) + 1]);
                }
            }
        }
    }
}

} // verus!
