//! The registry behind the builder: providers, supplied and constructed
//! values, module-private bindings, value groups, and the construction layers
//! computed by validation.
//!
//! Values themselves are held by the embedding application; the container
//! records which bindings exist and decides, for a type requested from a scope,
//! which binding or provider answers.

use vstd::prelude::*;

use crate::error::Error;
use crate::lookup::{any_of, first_index, first_match, is_first, lemma_filter_map_from, lemma_filter_map_has, lemma_first_unique, lemma_none_match};
use crate::provider::{DynProvider, ProviderKey, ScopedInvoker, ValueNode};
use vstd::string::StringExecFns;
use crate::scope::{ScopeId, ScopeTree};

verus! {

/// A registered provider and its key.
#[derive(Debug)]
pub struct ProviderEntry {
    pub key: ProviderKey,
    pub provider: DynProvider,
}

/// Where a value binding lives: a private binding in `scope`, or the public
/// binding (reported with the scope of the module that supplied it).
#[derive(Clone, Copy, Debug, PartialEq, Eq, Structural)]
pub struct ValueBinding {
    pub scope: ScopeId,
    pub private: bool,
}

pub open spec fn entry_has_key(k: ProviderKey) -> spec_fn(ProviderEntry) -> bool {
    |e: ProviderEntry| e.key == k
}

pub open spec fn alias_is(id: u64, sc: ScopeId) -> spec_fn((u64, ScopeId, ProviderKey)) -> bool {
    |a: (u64, ScopeId, ProviderKey)| a.0 == id && a.1 == sc
}

pub open spec fn index_is(id: u64) -> spec_fn((u64, ProviderKey)) -> bool {
    |a: (u64, ProviderKey)| a.0 == id
}

pub open spec fn pair_is(id: u64) -> spec_fn((u64, u64)) -> bool {
    |a: (u64, u64)| a.0 == id
}

pub open spec fn public_node_of(id: u64) -> spec_fn(ValueNode) -> bool {
    |n: ValueNode| n.type_id == id && !n.private
}

/// The container.
#[derive(Debug)]
pub struct Container {
    scopes: ScopeTree,
    entries: Vec<ProviderEntry>,
    public_index: Vec<(u64, ProviderKey)>,
    private_alias: Vec<(u64, ScopeId, ProviderKey)>,
    values_public: Vec<u64>,
    values_private: Vec<(u64, ScopeId)>,
    value_nodes: Vec<ValueNode>,
    builtins: Vec<u64>,
    constructing: Vec<ProviderKey>,
    active_scope: ScopeId,
    layers: Vec<Vec<ProviderKey>>,
    group_members: Vec<(u64, Vec<ProviderKey>)>,
    group_regs: Vec<(u64, ProviderKey)>,
    group_types: Vec<(u64, u64)>,
    member_values: Vec<ProviderKey>,
    required: Vec<(u64, &'static str)>,
    next_member_id: u32,
}

impl Container {
    pub closed spec fn scope_tree(&self) -> ScopeTree {
        self.scopes
    }

    /// Providers in registration order.
    pub closed spec fn entries_spec(&self) -> Seq<ProviderEntry> {
        self.entries@
    }

    /// Public type (result or alias) to provider key.
    pub closed spec fn public_index_spec(&self) -> Seq<(u64, ProviderKey)> {
        self.public_index@
    }

    /// Private alias type in a scope to the provider key it stands for.
    pub closed spec fn aliases_spec(&self) -> Seq<(u64, ScopeId, ProviderKey)> {
        self.private_alias@
    }

    /// Types with a public value.
    pub closed spec fn public_values(&self) -> Seq<u64> {
        self.values_public@
    }

    /// Types with a private value, and the scope holding it.
    pub closed spec fn private_values(&self) -> Seq<(u64, ScopeId)> {
        self.values_private@
    }

    /// Supplied values in supply order.
    pub closed spec fn value_nodes_spec(&self) -> Seq<ValueNode> {
        self.value_nodes@
    }

    /// Framework types (the lifecycle and shutdown handles and their `Arc`s).
    pub closed spec fn builtins_spec(&self) -> Seq<u64> {
        self.builtins@
    }

    /// Providers whose construction is in flight.
    pub closed spec fn constructing_spec(&self) -> Seq<ProviderKey> {
        self.constructing@
    }

    /// The scope constructors and invokers currently resolve from.
    pub closed spec fn active_scope_spec(&self) -> ScopeId {
        self.active_scope
    }

    /// Construction layers computed by the last successful validation.
    pub closed spec fn layers_spec(&self) -> Seq<Seq<ProviderKey>> {
        self.layers@.map_values(|l: Vec<ProviderKey>| l@)
    }

    /// Group element type to its member keys, in registration order.
    pub closed spec fn group_members_spec(&self) -> Seq<(u64, Seq<ProviderKey>)> {
        self.group_members@.map_values(|m: (u64, Vec<ProviderKey>)| (m.0, m.1@))
    }

    /// Group element type to the key of its aggregate provider.
    pub closed spec fn group_regs_spec(&self) -> Seq<(u64, ProviderKey)> {
        self.group_regs@
    }

    /// `Group<T>` and `Arc<Group<T>>` types to the element type `T`.
    pub closed spec fn group_types_spec(&self) -> Seq<(u64, u64)> {
        self.group_types@
    }

    /// Group members whose value has been constructed and not yet aggregated.
    pub closed spec fn member_values_spec(&self) -> Seq<ProviderKey> {
        self.member_values@
    }

    /// Element types whose group must not be empty, with the group's name.
    pub closed spec fn required_spec(&self) -> Seq<(u64, &'static str)> {
        self.required@
    }

    pub closed spec fn next_member_spec(&self) -> u32 {
        self.next_member_id
    }

    /// The registry is internally consistent: its scopes are sound (see
    /// [`Container::scopes_ok`]) and its provider table is consistent (see
    /// [`Container::registry_ok`]).
    pub open spec fn wf(&self) -> bool {
        &&& self.scopes_ok()
        &&& self.registry_ok()
    }

    /// The scope tree is valid and every scope the registry mentions exists.
    pub open spec fn scopes_ok(&self) -> bool {
        &&& self.scope_tree().wf()
        &&& self.scope_tree().has(self.active_scope_spec())
        &&& forall|i: int| 0 <= i < self.entries_spec().len() ==> self.scope_tree().has(
            #[trigger] self.entries_spec()[i].key.scope,
        )
        &&& forall|i: int| 0 <= i < self.value_nodes_spec().len() ==> self.scope_tree().has(
            #[trigger] self.value_nodes_spec()[i].scope,
        )
    }

    // ---- derived views -------------------------------------------------

    /// Some provider is registered under `k`.
    pub open spec fn has_key(&self, k: ProviderKey) -> bool {
        any_of(self.entries_spec(), entry_has_key(k))
    }

    /// A private provider of `id` is registered in `sc`.
    pub open spec fn has_private_provider(&self, id: u64, sc: ScopeId) -> bool {
        self.has_key(ProviderKey { type_id: id, scope: sc, private: true, ordinal: 0 })
    }

    /// The provider a private alias `id` in `sc` stands for.
    pub open spec fn alias_at(&self, id: u64, sc: ScopeId) -> Option<ProviderKey> {
        match first_match(self.aliases_spec(), alias_is(id, sc)) {
            Some(a) => Some(a.2),
            None => None,
        }
    }

    /// A private value of `id` is held in `sc`.
    pub open spec fn has_private_value(&self, id: u64, sc: ScopeId) -> bool {
        self.private_values().contains((id, sc))
    }

    /// A public value of `id` is held.
    pub open spec fn has_public_value(&self, id: u64) -> bool {
        self.public_values().contains(id)
    }

    /// The public provider registered for `id` (as result or alias).
    pub open spec fn public_key(&self, id: u64) -> Option<ProviderKey> {
        match first_match(self.public_index_spec(), index_is(id)) {
            Some(a) => Some(a.1),
            None => None,
        }
    }

    /// The element type of group type `id`.
    pub open spec fn group_element(&self, id: u64) -> Option<u64> {
        match first_match(self.group_types_spec(), pair_is(id)) {
            Some(a) => Some(a.1),
            None => None,
        }
    }

    /// The aggregate provider key of the group of element `element`.
    pub open spec fn group_reg(&self, element: u64) -> Option<ProviderKey> {
        match first_match(self.group_regs_spec(), index_is(element)) {
            Some(a) => Some(a.1),
            None => None,
        }
    }

    /// The aggregate provider key for group type `id`.
    pub open spec fn group_virtual(&self, id: u64) -> Option<ProviderKey> {
        match self.group_element(id) {
            Some(e) => self.group_reg(e),
            None => None,
        }
    }

    /// A scope where the search for a value of `id` stops: a private value, or
    /// a private provider or alias that shadows everything further out.
    pub open spec fn value_stop(&self, id: u64) -> spec_fn(ScopeId) -> bool {
        |sc: ScopeId|
            self.has_private_value(id, sc) || self.has_private_provider(id, sc) || self.alias_at(id, sc) is Some
    }

    /// A scope where the search for a provider of `id` stops.
    pub open spec fn provider_stop(&self, id: u64) -> spec_fn(ScopeId) -> bool {
        |sc: ScopeId| self.has_private_provider(id, sc) || self.alias_at(id, sc) is Some
    }

    /// Where a value of `id` requested from `from` is found: the nearest
    /// private value up the scope chain, unless a nearer private provider or
    /// alias (not yet built) shadows it; otherwise the public value, reported
    /// at the scope of the module that supplied it (root if none recorded).
    pub open spec fn value_binding(&self, id: u64, from: ScopeId) -> Option<ValueBinding> {
        let c = self.scope_tree().chain(from.idx());
        if any_of(c, self.value_stop(id)) {
            let sc = c[first_index(c, self.value_stop(id))];
            if self.has_private_value(id, sc) {
                Some(ValueBinding { scope: sc, private: true })
            } else {
                None
            }
        } else if self.has_public_value(id) {
            match first_match(self.value_nodes_spec(), public_node_of(id)) {
                Some(n) => Some(ValueBinding { scope: n.scope, private: false }),
                None => Some(ValueBinding { scope: ScopeId(0), private: false }),
            }
        } else {
            None
        }
    }

    /// The provider that builds `id` when requested from `from`: the nearest
    /// private provider (or private alias) up the scope chain, else the
    /// aggregate of a registered group type, else the public provider.
    pub open spec fn resolved_provider(&self, id: u64, from: ScopeId) -> Option<ProviderKey> {
        let c = self.scope_tree().chain(from.idx());
        let found = if any_of(c, self.provider_stop(id)) {
            let sc = c[first_index(c, self.provider_stop(id))];
            if self.has_private_provider(id, sc) {
                Some(ProviderKey { type_id: id, scope: sc, private: true, ordinal: 0 })
            } else {
                self.alias_at(id, sc)
            }
        } else if self.group_element(id) is Some {
            self.group_virtual(id)
        } else {
            self.public_key(id)
        };
        match found {
            Some(k) => if self.has_key(k) {
                Some(k)
            } else {
                None
            },
            None => None,
        }
    }

    /// `id` requested from `from` can be satisfied by some value or provider.
    pub open spec fn resolvable(&self, id: u64, from: ScopeId) -> bool {
        ||| exists|t: int|
            0 <= t < self.scope_tree().chain(from.idx()).len() && #[trigger] self.has_private_value(
                id,
                self.scope_tree().chain(from.idx())[t],
            )
        ||| self.has_public_value(id)
        ||| self.resolved_provider(id, from) is Some
    }
}

} // verus!

verus! {

impl Container {
    /// An empty registry with only the root scope.
    pub fn new() -> (c: Self)
        ensures
            c.wf(),
            c.scope_tree().len() == 1,
            c.scope_tree().name_of(0) == "<root>"@,
            c.entries_spec().len() == 0,
            c.public_index_spec().len() == 0,
            c.aliases_spec().len() == 0,
            c.public_values().len() == 0,
            c.private_values().len() == 0,
            c.value_nodes_spec().len() == 0,
            c.builtins_spec().len() == 0,
            c.constructing_spec().len() == 0,
            c.active_scope_spec() == ScopeId(0),
            c.layers_spec().len() == 0,
            c.group_members_spec().len() == 0,
            c.group_regs_spec().len() == 0,
            c.group_types_spec().len() == 0,
            c.member_values_spec().len() == 0,
            c.required_spec().len() == 0,
            c.next_member_spec() == 0,
    {
        let c = Container {
            scopes: ScopeTree::new(),
            entries: Vec::new(),
            public_index: Vec::new(),
            private_alias: Vec::new(),
            values_public: Vec::new(),
            values_private: Vec::new(),
            value_nodes: Vec::new(),
            builtins: Vec::new(),
            constructing: Vec::new(),
            active_scope: ScopeId::root(),
            layers: Vec::new(),
            group_members: Vec::new(),
            group_regs: Vec::new(),
            group_types: Vec::new(),
            member_values: Vec::new(),
            required: Vec::new(),
            next_member_id: 0,
        };
        assert(c.layers_spec() =~= Seq::empty());
        assert(c.group_members_spec() =~= Seq::empty());
        c
    }

    /// The scope tree.
    pub fn scopes(&self) -> (t: &ScopeTree)
        ensures
            *t == self.scope_tree(),
    {
        &self.scopes
    }

    /// The registered providers, in registration order.
    pub fn entries(&self) -> (e: &[ProviderEntry])
        ensures
            e@ == self.entries_spec(),
    {
        self.entries.as_slice()
    }

    /// The supplied values, in supply order.
    pub fn value_nodes(&self) -> (v: &[ValueNode])
        ensures
            v@ == self.value_nodes_spec(),
    {
        self.value_nodes.as_slice()
    }

    /// The group registrations: element type and the key of its aggregate.
    pub fn group_regs(&self) -> (g: &[(u64, ProviderKey)])
        ensures
            g@ == self.group_regs_spec(),
    {
        self.group_regs.as_slice()
    }

    /// Forget where supplied values came from. Public values are then
    /// reported at the root scope.
    pub fn clear_value_nodes(&mut self)
        requires
            old(self).wf(),
        ensures
            final(self).wf(),
            final(self).value_nodes_spec().len() == 0,
            final(self).scope_tree() == old(self).scope_tree(),
            final(self).entries_spec() == old(self).entries_spec(),
            final(self).public_index_spec() == old(self).public_index_spec(),
            final(self).aliases_spec() == old(self).aliases_spec(),
            final(self).public_values() == old(self).public_values(),
            final(self).private_values() == old(self).private_values(),
            final(self).builtins_spec() == old(self).builtins_spec(),
            final(self).group_types_spec() == old(self).group_types_spec(),
            final(self).group_regs_spec() == old(self).group_regs_spec(),
            final(self).group_members_spec() == old(self).group_members_spec(),
            final(self).active_scope_spec() == old(self).active_scope_spec(),
    {
        self.value_nodes = Vec::new();
        assert(self.value_nodes_spec().len() == 0);
        assert(self.scope_tree() == old(self).scope_tree());
        assert(self.entries_spec() == old(self).entries_spec());
        proof {
            Container::lemma_registry_frame(old(self), self);
        }
    }

    /// Add a module scope under `parent`.
    pub fn add_scope(&mut self, parent: ScopeId, name: &'static str) -> (id: ScopeId)
        requires
            old(self).wf(),
            old(self).scope_tree().has(parent),
            old(self).scope_tree().len() < u32::MAX,
        ensures
            final(self).wf(),
            id.idx() == old(self).scope_tree().len(),
            final(self).scope_tree().len() == old(self).scope_tree().len() + 1,
            final(self).scope_tree().name_of(id.idx()) == name@,
            final(self).scope_tree().chain(id.idx()) == seq![id] + old(self).scope_tree().chain(parent.idx()),
            forall|i: int| 0 <= i < old(self).scope_tree().len() ==> #[trigger] final(self).scope_tree().chain(i)
                == old(self).scope_tree().chain(i) && final(self).scope_tree().name_of(i)
                == old(self).scope_tree().name_of(i),
            final(self).entries_spec() == old(self).entries_spec(),
            final(self).public_index_spec() == old(self).public_index_spec(),
            final(self).aliases_spec() == old(self).aliases_spec(),
            final(self).public_values() == old(self).public_values(),
            final(self).private_values() == old(self).private_values(),
            final(self).value_nodes_spec() == old(self).value_nodes_spec(),
            final(self).active_scope_spec() == old(self).active_scope_spec(),
            final(self).group_types_spec() == old(self).group_types_spec(),
            final(self).group_regs_spec() == old(self).group_regs_spec(),
    {
        let id = self.scopes.child(parent, name);
        proof {
            assert forall|i: int| 0 <= i < self.entries_spec().len() implies self.scope_tree().has(
                #[trigger] self.entries_spec()[i].key.scope,
            ) by {
                assert(old(self).scope_tree().has(old(self).entries_spec()[i].key.scope));
            }
            assert forall|i: int| 0 <= i < self.value_nodes_spec().len() implies self.scope_tree().has(
                #[trigger] self.value_nodes_spec()[i].scope,
            ) by {
                assert(old(self).scope_tree().has(old(self).value_nodes_spec()[i].scope));
            }
            Container::lemma_registry_frame(old(self), self);
        }
        id
    }

    /// Make `scope` the scope constructors and invokers resolve from, returning
    /// the previous one.
    pub fn enter_scope(&mut self, scope: ScopeId) -> (previous: ScopeId)
        requires
            old(self).wf(),
            old(self).scope_tree().has(scope),
        ensures
            final(self).wf(),
            previous == old(self).active_scope_spec(),
            final(self).active_scope_spec() == scope,
            final(self).entries_spec() == old(self).entries_spec(),
            final(self).scope_tree() == old(self).scope_tree(),
            final(self).public_index_spec() == old(self).public_index_spec(),
            final(self).aliases_spec() == old(self).aliases_spec(),
            final(self).public_values() == old(self).public_values(),
            final(self).private_values() == old(self).private_values(),
            final(self).value_nodes_spec() == old(self).value_nodes_spec(),
            final(self).group_types_spec() == old(self).group_types_spec(),
            final(self).group_regs_spec() == old(self).group_regs_spec(),
    {
        let previous = self.active_scope;
        self.active_scope = scope;
        proof {
            assert forall|i: int| 0 <= i < self.entries_spec().len() implies self.scope_tree().has(
                #[trigger] self.entries_spec()[i].key.scope,
            ) by {
                assert(old(self).scope_tree().has(old(self).entries_spec()[i].key.scope));
            }
            assert forall|i: int| 0 <= i < self.value_nodes_spec().len() implies self.scope_tree().has(
                #[trigger] self.value_nodes_spec()[i].scope,
            ) by {
                assert(old(self).scope_tree().has(old(self).value_nodes_spec()[i].scope));
            }
            Container::lemma_registry_frame(old(self), self);
        }
        previous
    }

    /// The scope lookups currently resolve from.
    pub fn active_scope(&self) -> (s: ScopeId)
        ensures
            s == self.active_scope_spec(),
    {
        self.active_scope
    }

    // ---- table searches ----------------------------------------------

    /// Position of the provider registered under `k`.
    pub fn position_of(&self, k: ProviderKey) -> (r: Option<usize>)
        ensures
            match r {
                Some(i) => is_first(self.entries_spec(), entry_has_key(k), i as int),
                None => !self.has_key(k),
            },
            r is Some <==> self.has_key(k),
    {
        let mut i: usize = 0;
        while i < self.entries.len()
            invariant
                i <= self.entries.len(),
                forall|j: int| 0 <= j < i ==> !#[trigger] entry_has_key(k)(self.entries_spec()[j]),
            decreases self.entries.len() - i,
        {
            if self.entries[i].key == k {
                proof {
                    assert(entry_has_key(k)(self.entries_spec()[i as int]));
                    lemma_first_unique(self.entries_spec(), entry_has_key(k), i as int);
                }
                return Some(i);
            }
            i = i + 1;
        }
        proof {
            lemma_none_match(self.entries_spec(), entry_has_key(k));
        }
        None
    }

    fn find_alias(&self, id: u64, sc: ScopeId) -> (r: Option<ProviderKey>)
        ensures
            r == self.alias_at(id, sc),
    {
        let mut i: usize = 0;
        while i < self.private_alias.len()
            invariant
                i <= self.private_alias.len(),
                forall|j: int| 0 <= j < i ==> !#[trigger] alias_is(id, sc)(self.aliases_spec()[j]),
            decreases self.private_alias.len() - i,
        {
            let a = self.private_alias[i];
            if a.0 == id && a.1 == sc {
                proof {
                    assert(alias_is(id, sc)(self.aliases_spec()[i as int]));
                    lemma_first_unique(self.aliases_spec(), alias_is(id, sc), i as int);
                }
                return Some(a.2);
            }
            i = i + 1;
        }
        proof {
            lemma_none_match(self.aliases_spec(), alias_is(id, sc));
        }
        None
    }

    fn find_public_key(&self, id: u64) -> (r: Option<ProviderKey>)
        ensures
            r == self.public_key(id),
    {
        let mut i: usize = 0;
        while i < self.public_index.len()
            invariant
                i <= self.public_index.len(),
                forall|j: int| 0 <= j < i ==> !#[trigger] index_is(id)(self.public_index_spec()[j]),
            decreases self.public_index.len() - i,
        {
            let a = self.public_index[i];
            if a.0 == id {
                proof {
                    assert(index_is(id)(self.public_index_spec()[i as int]));
                    lemma_first_unique(self.public_index_spec(), index_is(id), i as int);
                }
                return Some(a.1);
            }
            i = i + 1;
        }
        proof {
            lemma_none_match(self.public_index_spec(), index_is(id));
        }
        None
    }

    /// The element type of group type `id`, if `id` is a registered group type.
    pub fn group_element_type(&self, id: u64) -> (r: Option<u64>)
        ensures
            r == self.group_element(id),
    {
        let mut i: usize = 0;
        while i < self.group_types.len()
            invariant
                i <= self.group_types.len(),
                forall|j: int| 0 <= j < i ==> !#[trigger] pair_is(id)(self.group_types_spec()[j]),
            decreases self.group_types.len() - i,
        {
            let a = self.group_types[i];
            if a.0 == id {
                proof {
                    assert(pair_is(id)(self.group_types_spec()[i as int]));
                    lemma_first_unique(self.group_types_spec(), pair_is(id), i as int);
                }
                return Some(a.1);
            }
            i = i + 1;
        }
        proof {
            lemma_none_match(self.group_types_spec(), pair_is(id));
        }
        None
    }

    /// The aggregate provider key registered for element type `element`.
    pub fn group_registration(&self, element: u64) -> (r: Option<ProviderKey>)
        ensures
            r == self.group_reg(element),
    {
        let mut i: usize = 0;
        while i < self.group_regs.len()
            invariant
                i <= self.group_regs.len(),
                forall|j: int| 0 <= j < i ==> !#[trigger] index_is(element)(self.group_regs_spec()[j]),
            decreases self.group_regs.len() - i,
        {
            let a = self.group_regs[i];
            if a.0 == element {
                proof {
                    assert(index_is(element)(self.group_regs_spec()[i as int]));
                    lemma_first_unique(self.group_regs_spec(), index_is(element), i as int);
                }
                return Some(a.1);
            }
            i = i + 1;
        }
        proof {
            lemma_none_match(self.group_regs_spec(), index_is(element));
        }
        None
    }

    /// The aggregate provider key for group type `id`.
    pub fn group_virtual_key(&self, id: u64) -> (r: Option<ProviderKey>)
        ensures
            r == self.group_virtual(id),
    {
        match self.group_element_type(id) {
            Some(e) => self.group_registration(e),
            None => None,
        }
    }

    fn holds_private_value(&self, id: u64, sc: ScopeId) -> (b: bool)
        ensures
            b == self.has_private_value(id, sc),
    {
        let mut i: usize = 0;
        while i < self.values_private.len()
            invariant
                i <= self.values_private.len(),
                forall|j: int| 0 <= j < i ==> #[trigger] self.private_values()[j] != (id, sc),
            decreases self.values_private.len() - i,
        {
            let v = self.values_private[i];
            if v.0 == id && v.1 == sc {
                assert(self.private_values()[i as int] == (id, sc));
                return true;
            }
            i = i + 1;
        }
        false
    }

    fn holds_public_value(&self, id: u64) -> (b: bool)
        ensures
            b == self.has_public_value(id),
    {
        let mut i: usize = 0;
        while i < self.values_public.len()
            invariant
                i <= self.values_public.len(),
                forall|j: int| 0 <= j < i ==> #[trigger] self.public_values()[j] != id,
            decreases self.values_public.len() - i,
        {
            if self.values_public[i] == id {
                assert(self.public_values()[i as int] == id);
                return true;
            }
            i = i + 1;
        }
        false
    }

    fn public_node_scope(&self, id: u64) -> (r: ScopeId)
        ensures
            r == (match first_match(self.value_nodes_spec(), public_node_of(id)) {
                Some(n) => n.scope,
                None => ScopeId(0),
            }),
    {
        let mut i: usize = 0;
        while i < self.value_nodes.len()
            invariant
                i <= self.value_nodes.len(),
                forall|j: int| 0 <= j < i ==> !#[trigger] public_node_of(id)(self.value_nodes_spec()[j]),
            decreases self.value_nodes.len() - i,
        {
            let n = self.value_nodes[i];
            if n.type_id == id && !n.private {
                proof {
                    assert(public_node_of(id)(self.value_nodes_spec()[i as int]));
                    lemma_first_unique(self.value_nodes_spec(), public_node_of(id), i as int);
                }
                return n.scope;
            }
            i = i + 1;
        }
        proof {
            lemma_none_match(self.value_nodes_spec(), public_node_of(id));
        }
        ScopeId::root()
    }
}

} // verus!

verus! {

impl Container {
    /// Whether some provider is registered under `k`.
    pub fn contains_key(&self, k: ProviderKey) -> (b: bool)
        ensures
            b == self.has_key(k),
    {
        self.position_of(k).is_some()
    }

    /// Where a value of `id` requested from `from` is found; see
    /// [`Container::value_binding`].
    pub fn resolve_value_binding(&self, id: u64, from: ScopeId) -> (r: Option<ValueBinding>)
        requires
            self.wf(),
            self.scope_tree().has(from),
        ensures
            r == self.value_binding(id, from),
    {
        let chain = self.scopes.ancestors_from(from);
        let ghost c = self.scope_tree().chain(from.idx());
        let mut t: usize = 0;
        while t < chain.len()
            invariant
                chain@ == c,
                c == self.scope_tree().chain(from.idx()),
                t <= chain.len(),
                forall|j: int| 0 <= j < t ==> !#[trigger] self.value_stop(id)(c[j]),
            decreases chain.len() - t,
        {
            let sc = chain[t];
            let private_value = self.holds_private_value(id, sc);
            let private_provider = self.contains_key(ProviderKey::singleton(id, sc, true));
            let alias = self.find_alias(id, sc);
            if private_value || private_provider || alias.is_some() {
                proof {
                    assert(self.value_stop(id)(c[t as int]));
                    lemma_first_unique(c, self.value_stop(id), t as int);
                }
                if private_value {
                    return Some(ValueBinding { scope: sc, private: true });
                }
                return None;
            }
            t = t + 1;
        }
        proof {
            lemma_none_match(c, self.value_stop(id));
        }
        if self.holds_public_value(id) {
            Some(ValueBinding { scope: self.public_node_scope(id), private: false })
        } else {
            None
        }
    }

    /// Whether a value of `id` is already available from `from`.
    pub fn value_satisfies(&self, id: u64, from: ScopeId) -> (b: bool)
        requires
            self.wf(),
            self.scope_tree().has(from),
        ensures
            b == (self.value_binding(id, from) is Some),
    {
        self.resolve_value_binding(id, from).is_some()
    }

    /// The provider that builds `id` when requested from `from`; see
    /// [`Container::resolved_provider`].
    pub fn resolve_provider(&self, id: u64, from: ScopeId) -> (r: Option<ProviderKey>)
        requires
            self.wf(),
            self.scope_tree().has(from),
        ensures
            r == self.resolved_provider(id, from),
    {
        let chain = self.scopes.ancestors_from(from);
        let ghost c = self.scope_tree().chain(from.idx());
        let mut t: usize = 0;
        while t < chain.len()
            invariant
                chain@ == c,
                c == self.scope_tree().chain(from.idx()),
                t <= chain.len(),
                forall|j: int| 0 <= j < t ==> !#[trigger] self.provider_stop(id)(c[j]),
            decreases chain.len() - t,
        {
            let sc = chain[t];
            let key = ProviderKey::singleton(id, sc, true);
            let private_provider = self.contains_key(key);
            let alias = self.find_alias(id, sc);
            if private_provider || alias.is_some() {
                proof {
                    assert(self.provider_stop(id)(c[t as int]));
                    lemma_first_unique(c, self.provider_stop(id), t as int);
                }
                if private_provider {
                    return Some(key);
                }
                let canon = alias.unwrap();
                if self.contains_key(canon) {
                    return Some(canon);
                }
                return None;
            }
            t = t + 1;
        }
        proof {
            lemma_none_match(c, self.provider_stop(id));
        }
        let found = if self.group_element_type(id).is_some() {
            self.group_virtual_key(id)
        } else {
            self.find_public_key(id)
        };
        match found {
            Some(k) => if self.contains_key(k) {
                Some(k)
            } else {
                None
            },
            None => None,
        }
    }

    /// Whether `id` requested from `from` can be satisfied; see
    /// [`Container::resolvable`].
    pub fn can_resolve(&self, id: u64, from: ScopeId) -> (b: bool)
        requires
            self.wf(),
            self.scope_tree().has(from),
        ensures
            b == self.resolvable(id, from),
    {
        let chain = self.scopes.ancestors_from(from);
        let ghost c = self.scope_tree().chain(from.idx());
        let mut t: usize = 0;
        while t < chain.len()
            invariant
                chain@ == c,
                c == self.scope_tree().chain(from.idx()),
                t <= chain.len(),
                forall|j: int| 0 <= j < t ==> !#[trigger] self.has_private_value(id, c[j]),
            decreases chain.len() - t,
        {
            if self.holds_private_value(id, chain[t]) {
                return true;
            }
            t = t + 1;
        }
        self.holds_public_value(id) || self.resolve_provider(id, from).is_some()
    }
}

} // verus!

verus! {

impl Container {
    /// Scopes, values, groups and build state are those of `o`.
    pub open spec fn same_outside_providers(&self, o: &Container) -> bool {
        &&& self.scope_tree() == o.scope_tree()
        &&& self.active_scope_spec() == o.active_scope_spec()
        &&& self.public_values() == o.public_values()
        &&& self.private_values() == o.private_values()
        &&& self.value_nodes_spec() == o.value_nodes_spec()
        &&& self.builtins_spec() == o.builtins_spec()
        &&& self.constructing_spec() == o.constructing_spec()
        &&& self.layers_spec() == o.layers_spec()
        &&& self.member_values_spec() == o.member_values_spec()
        &&& self.required_spec() == o.required_spec()
    }

    /// Registering `id` in `scope` (privately or not) would collide with an
    /// existing binding: privately, a private value, provider or alias of `id`
    /// in that very scope; publicly, any public value or provider of `id`.
    pub open spec fn conflicts(&self, id: u64, scope: ScopeId, private: bool) -> bool {
        if private {
            self.has_private_value(id, scope) || self.has_private_provider(id, scope) || self.alias_at(id, scope) is Some
        } else {
            self.has_public_value(id) || self.public_key(id) is Some
        }
    }

    /// The error reported for a collision on the type named `name`.
    pub open spec fn conflict_error(&self, name: &'static str, scope: ScopeId, private: bool) -> Error {
        if private {
            Error::AlreadyProvidedPrivate { module: self.scope_tree().name_str(scope.idx()), type_label: name }
        } else {
            Error::AlreadyProvided(name)
        }
    }

    /// Fail with the collision error if `id` is already bound; see [`Container::conflicts`].
    pub fn ensure_absent(&self, id: u64, name: &'static str, scope: ScopeId, private: bool) -> (r: Result<(), Error>)
        ensures
            r is Ok <==> !self.conflicts(id, scope, private),
            r is Err ==> r == Err::<(), Error>(self.conflict_error(name, scope, private)),
            private && (self.has_private_value(id, scope) || self.has_private_provider(id, scope) || self.alias_at(
                id,
                scope,
            ) is Some) ==> r == Err::<(), Error>(
                Error::AlreadyProvidedPrivate { module: self.scope_tree().name_str(scope.idx()), type_label: name },
            ),
            !private && (self.has_public_value(id) || self.public_key(id) is Some) ==> r == Err::<(), Error>(
                Error::AlreadyProvided(name),
            ),
    {
        let conflict = if private {
            self.holds_private_value(id, scope) || self.contains_key(ProviderKey::singleton(id, scope, true))
                || self.find_alias(id, scope).is_some()
        } else {
            self.holds_public_value(id) || self.find_public_key(id).is_some()
        };
        if !conflict {
            Ok(())
        } else if private {
            Err(Error::AlreadyProvidedPrivate { module: self.scopes.name(scope), type_label: name })
        } else {
            Err(Error::AlreadyProvided(name))
        }
    }

    /// Some alias of `p` would collide.
    pub open spec fn alias_conflicts(&self, p: &DynProvider, scope: ScopeId, private: bool) -> bool {
        exists|k: int| 0 <= k < p.alias_types_spec().len() && #[trigger] self.conflicts(p.alias_types_spec()[k], scope, private)
    }

    /// Fail with the collision error if the result type or an alias of `p`
    /// is already bound.
    fn check_provider(&self, p: &DynProvider, scope: ScopeId, private: bool) -> (r: Result<(), Error>)
        ensures
            (self.conflicts(p.result_type_spec(), scope, private) || self.alias_conflicts(p, scope, private)) <==> r is Err,
            r is Err ==> r == Err::<(), Error>(self.conflict_error(p.result_name_spec(), scope, private)),
    {
        let name = p.result_name();
        let first = self.ensure_absent(p.result_type(), name, scope, private);
        if first.is_err() {
            return first;
        }
        let aliases = p.alias_types();
        let mut k: usize = 0;
        while k < aliases.len()
            invariant
                aliases@ == p.alias_types_spec(),
                name == p.result_name_spec(),
                k <= aliases.len(),
                !self.conflicts(p.result_type_spec(), scope, private),
                forall|j: int| 0 <= j < k ==> !#[trigger] self.conflicts(aliases@[j], scope, private),
            decreases aliases.len() - k,
        {
            let r = self.ensure_absent(aliases[k], name, scope, private);
            if r.is_err() {
                return r;
            }
            k = k + 1;
        }
        Ok(())
    }

    /// Register a provider in `scope`. A private provider is visible from
    /// `scope` and the modules nested in it; a public one from everywhere.
    /// Fails, changing nothing, when its result type or one of its aliases is
    /// already bound (see [`Container::conflicts`]).
    pub fn insert_provider(&mut self, provider: DynProvider, scope: ScopeId, private: bool) -> (r: Result<(), Error>)
        requires
            old(self).wf(),
            old(self).scope_tree().has(scope),
        ensures
            final(self).wf(),
            (old(self).conflicts(provider.result_type_spec(), scope, private) || old(self).alias_conflicts(&provider, scope, private))
                <==> r is Err,
            r is Err ==> r == Err::<(), Error>(old(self).conflict_error(provider.result_name_spec(), scope, private))
                && *final(self) == *old(self),
            private && (old(self).has_private_value(provider.result_type_spec(), scope) || old(self).has_private_provider(
                provider.result_type_spec(),
                scope,
            ) || old(self).alias_at(provider.result_type_spec(), scope) is Some) ==> r == Err::<(), Error>(
                Error::AlreadyProvidedPrivate {
                    module: old(self).scope_tree().name_str(scope.idx()),
                    type_label: provider.result_name_spec(),
                },
            ) && *final(self) == *old(self),
            !private && (old(self).has_public_value(provider.result_type_spec()) || old(self).public_key(
                provider.result_type_spec(),
            ) is Some) ==> r == Err::<(), Error>(Error::AlreadyProvided(provider.result_name_spec()))
                && *final(self) == *old(self),
            r is Ok ==> {
                let key = ProviderKey { type_id: provider.result_type_spec(), scope, private, ordinal: 0 };
                &&& final(self).entries_spec() == old(self).entries_spec().push(ProviderEntry { key, provider })
                &&& private ==> final(self).aliases_spec() == old(self).aliases_spec() + provider.alias_types_spec().map_values(
                    |a: u64| (a, scope, key),
                ) && final(self).public_index_spec() == old(self).public_index_spec()
                &&& !private ==> final(self).public_index_spec() == old(self).public_index_spec().push(
                    (provider.result_type_spec(), key),
                ) + provider.alias_types_spec().map_values(|a: u64| (a, key)) && final(self).aliases_spec()
                    == old(self).aliases_spec()
                &&& final(self).group_members_spec() == old(self).group_members_spec()
                &&& final(self).group_regs_spec() == old(self).group_regs_spec()
                &&& final(self).group_types_spec() == old(self).group_types_spec()
                &&& final(self).next_member_spec() == old(self).next_member_spec()
                &&& final(self).same_outside_providers(old(self))
            },
    {
        let checked = self.check_provider(&provider, scope, private);
        if checked.is_err() {
            return checked;
        }
        let id = provider.result_type();
        let key = ProviderKey::singleton(id, scope, private);
        let aliases = provider.alias_types();
        let ghost alias_seq = aliases@;
        let mut private_rows: Vec<(u64, ScopeId, ProviderKey)> = Vec::new();
        let mut public_rows: Vec<(u64, ProviderKey)> = Vec::new();
        public_rows.push((id, key));
        let mut k: usize = 0;
        while k < aliases.len()
            invariant
                aliases@ == alias_seq,
                k <= aliases.len(),
                private_rows@ == alias_seq.subrange(0, k as int).map_values(|a: u64| (a, scope, key)),
                public_rows@ == seq![(id, key)] + alias_seq.subrange(0, k as int).map_values(|a: u64| (a, key)),
            decreases aliases.len() - k,
        {
            private_rows.push((aliases[k], scope, key));
            public_rows.push((aliases[k], key));
            proof {
                assert(alias_seq.subrange(0, k as int + 1).map_values(|a: u64| (a, scope, key)) =~= alias_seq.subrange(
                    0,
                    k as int,
                ).map_values(|a: u64| (a, scope, key)).push((alias_seq[k as int], scope, key)));
                assert(alias_seq.subrange(0, k as int + 1).map_values(|a: u64| (a, key)) =~= alias_seq.subrange(
                    0,
                    k as int,
                ).map_values(|a: u64| (a, key)).push((alias_seq[k as int], key)));
            }
            k = k + 1;
        }
        proof {
            assert(alias_seq.subrange(0, alias_seq.len() as int) =~= alias_seq);
        }
        if private {
            self.private_alias.append(&mut private_rows);
        } else {
            self.public_index.append(&mut public_rows);
            assert(self.public_index_spec() =~= old(self).public_index_spec().push((id, key)) + alias_seq.map_values(
                |a: u64| (a, key),
            ));
        }
        self.entries.push(ProviderEntry { key, provider });
        proof {
            if !private {
                old(self).lemma_public_absent(id, scope);
                assert(index_is(id)(self.public_index_spec()[old(self).public_index_spec().len() as int]));
            }
            let e = self.entries_spec().last();
            assert(self.entries_spec() == old(self).entries_spec().push(e));
            let oa = old(self).aliases_spec();
            let op = old(self).public_index_spec();
            assert forall|i: int| 0 <= i < self.aliases_spec().len() implies (#[trigger] self.aliases_spec()[i]).2.private
                && self.aliases_spec()[i].2.scope == self.aliases_spec()[i].1 by {
                if i < oa.len() {
                    assert(self.aliases_spec()[i] == oa[i]);
                }
            }
            assert forall|i: int| 0 <= i < self.public_index_spec().len() implies !(
            #[trigger] self.public_index_spec()[i]).1.private by {
                if i < op.len() {
                    assert(self.public_index_spec()[i] == op[i]);
                }
            }
            assert(self.group_regs_spec() == old(self).group_regs_spec());
            Container::lemma_registry_grows(old(self), self, e);
            assert forall|i: int| 0 <= i < self.entries_spec().len() implies self.scope_tree().has(
                #[trigger] self.entries_spec()[i].key.scope,
            ) by {
                if i < old(self).entries_spec().len() {
                    assert(old(self).entries_spec()[i] == self.entries_spec()[i]);
                }
            }
            assert forall|i: int| 0 <= i < self.value_nodes_spec().len() implies self.scope_tree().has(
                #[trigger] self.value_nodes_spec()[i].scope,
            ) by {
                assert(old(self).value_nodes_spec()[i] == self.value_nodes_spec()[i]);
            }
        }
        Ok(())
    }
}

} // verus!

verus! {

pub open spec fn members_is(element: u64) -> spec_fn((u64, Seq<ProviderKey>)) -> bool {
    |m: (u64, Seq<ProviderKey>)| m.0 == element
}

pub open spec fn required_is(element: u64) -> spec_fn((u64, &'static str)) -> bool {
    |m: (u64, &'static str)| m.0 == element
}

impl Container {
    /// Everything but the value tables is that of `o`.
    pub open spec fn same_registry(&self, o: &Container) -> bool {
        &&& self.scope_tree() == o.scope_tree()
        &&& self.active_scope_spec() == o.active_scope_spec()
        &&& self.entries_spec() == o.entries_spec()
        &&& self.public_index_spec() == o.public_index_spec()
        &&& self.aliases_spec() == o.aliases_spec()
        &&& self.constructing_spec() == o.constructing_spec()
        &&& self.layers_spec() == o.layers_spec()
        &&& self.group_members_spec() == o.group_members_spec()
        &&& self.group_regs_spec() == o.group_regs_spec()
        &&& self.group_types_spec() == o.group_types_spec()
        &&& self.required_spec() == o.required_spec()
        &&& self.next_member_spec() == o.next_member_spec()
    }

    /// Member keys of the group of element `element`, in registration order.
    pub open spec fn members_of(&self, element: u64) -> Seq<ProviderKey> {
        match first_match(self.group_members_spec(), members_is(element)) {
            Some(m) => m.1,
            None => Seq::empty(),
        }
    }

    proof fn lemma_wf_same_scopes(&self, o: &Container)
        requires
            o.scopes_ok(),
            self.scope_tree() == o.scope_tree(),
            self.active_scope_spec() == o.active_scope_spec(),
            forall|i: int| 0 <= i < self.entries_spec().len() ==> (i < o.entries_spec().len() && self.entries_spec()[i]
                == o.entries_spec()[i]) || #[trigger] self.scope_tree().has(self.entries_spec()[i].key.scope),
            forall|i: int| 0 <= i < self.value_nodes_spec().len() ==> (i < o.value_nodes_spec().len()
                && self.value_nodes_spec()[i] == o.value_nodes_spec()[i]) || #[trigger] self.scope_tree().has(
                self.value_nodes_spec()[i].scope,
            ),
        ensures
            self.scopes_ok(),
    {
        assert forall|i: int| 0 <= i < self.entries_spec().len() implies self.scope_tree().has(
            #[trigger] self.entries_spec()[i].key.scope,
        ) by {
            if i < o.entries_spec().len() && self.entries_spec()[i] == o.entries_spec()[i] {
                assert(o.scope_tree().has(o.entries_spec()[i].key.scope));
            }
        }
        assert forall|i: int| 0 <= i < self.value_nodes_spec().len() implies self.scope_tree().has(
            #[trigger] self.value_nodes_spec()[i].scope,
        ) by {
            if i < o.value_nodes_spec().len() && self.value_nodes_spec()[i] == o.value_nodes_spec()[i] {
                assert(o.scope_tree().has(o.value_nodes_spec()[i].scope));
            }
        }
    }

    /// Record a constructed value of `key` (and its `Arc` alias `arc_id`) at
    /// the key's scope and visibility.
    pub fn store_constructed(&mut self, key: ProviderKey, arc_id: u64)
        requires
            old(self).wf(),
        ensures
            final(self).wf(),
            final(self).same_registry(old(self)),
            final(self).value_nodes_spec() == old(self).value_nodes_spec(),
            final(self).builtins_spec() == old(self).builtins_spec(),
            final(self).member_values_spec() == old(self).member_values_spec(),
            key.private ==> final(self).private_values() == old(self).private_values().push((arc_id, key.scope)).push(
                (key.type_id, key.scope),
            ) && final(self).public_values() == old(self).public_values(),
            !key.private ==> final(self).public_values() == old(self).public_values().push(arc_id).push(key.type_id)
                && final(self).private_values() == old(self).private_values(),
    {
        if key.private {
            self.values_private.push((arc_id, key.scope));
            self.values_private.push((key.type_id, key.scope));
        } else {
            self.values_public.push(arc_id);
            self.values_public.push(key.type_id);
        }
        proof {
            self.lemma_wf_same_scopes(old(self));
            Container::lemma_registry_frame(old(self), self);
        }
    }

    /// Supply a pre-built value of `id` (with its `Arc` alias `arc_id`) in
    /// `scope`, recording both as value nodes of that scope. Fails, changing
    /// nothing, when either type is already bound; the error names the type
    /// that collided first.
    pub fn insert_value(
        &mut self,
        id: u64,
        name: &'static str,
        arc_id: u64,
        arc_name: &'static str,
        scope: ScopeId,
        private: bool,
    ) -> (r: Result<(), Error>)
        requires
            old(self).wf(),
            old(self).scope_tree().has(scope),
        ensures
            final(self).wf(),
            old(self).conflicts(id, scope, private) ==> r == Err::<(), Error>(old(self).conflict_error(name, scope, private)),
            !old(self).conflicts(id, scope, private) && old(self).conflicts(arc_id, scope, private) ==> r == Err::<(), Error>(
                old(self).conflict_error(arc_name, scope, private),
            ),
            r is Err ==> *final(self) == *old(self),
            private && (old(self).has_private_value(id, scope) || old(self).has_private_provider(id, scope) || old(
                self,
            ).alias_at(id, scope) is Some) ==> r == Err::<(), Error>(
                Error::AlreadyProvidedPrivate { module: old(self).scope_tree().name_str(scope.idx()), type_label: name },
            ) && *final(self) == *old(self),
            !private && (old(self).has_public_value(id) || old(self).public_key(id) is Some) ==> r == Err::<(), Error>(
                Error::AlreadyProvided(name),
            ) && *final(self) == *old(self),
            !old(self).conflicts(id, scope, private) && !old(self).conflicts(arc_id, scope, private) ==> {
                &&& r is Ok
                &&& final(self).same_registry(old(self))
                &&& final(self).builtins_spec() == old(self).builtins_spec()
                &&& final(self).member_values_spec() == old(self).member_values_spec()
                &&& final(self).value_nodes_spec() == old(self).value_nodes_spec().push(
                    ValueNode { type_id: id, type_label: name, scope, private },
                ).push(ValueNode { type_id: arc_id, type_label: arc_name, scope, private })
                &&& private ==> final(self).private_values() == old(self).private_values().push((arc_id, scope)).push(
                    (id, scope),
                ) && final(self).public_values() == old(self).public_values()
                &&& !private ==> final(self).public_values() == old(self).public_values().push(arc_id).push(id)
                    && final(self).private_values() == old(self).private_values()
            },
    {
        let first = self.ensure_absent(id, name, scope, private);
        if first.is_err() {
            return first;
        }
        let second = self.ensure_absent(arc_id, arc_name, scope, private);
        if second.is_err() {
            return second;
        }
        self.store_constructed(ProviderKey::singleton(id, scope, private), arc_id);
        self.value_nodes.push(ValueNode { type_id: id, type_label: name, scope, private });
        self.value_nodes.push(ValueNode { type_id: arc_id, type_label: arc_name, scope, private });
        proof {
            self.lemma_wf_same_scopes(old(self));
        }
        Ok(())
    }

    /// Supply a framework handle (lifecycle or shutdown) publicly at the root
    /// and remember its types as framework types.
    pub fn seed_builtin(&mut self, id: u64, name: &'static str, arc_id: u64, arc_name: &'static str) -> (r: Result<
        (),
        Error,
    >)
        requires
            old(self).wf(),
        ensures
            final(self).wf(),
            old(self).conflicts(id, ScopeId(0), false) ==> r == Err::<(), Error>(Error::AlreadyProvided(name)),
            !old(self).conflicts(id, ScopeId(0), false) && old(self).conflicts(arc_id, ScopeId(0), false) ==> r == Err::<
                (),
                Error,
            >(Error::AlreadyProvided(arc_name)),
            r is Err ==> *final(self) == *old(self),
            r is Ok ==> {
                &&& final(self).same_registry(old(self))
                &&& final(self).builtins_spec() == old(self).builtins_spec().push(id).push(arc_id)
                &&& final(self).public_values() == old(self).public_values().push(arc_id).push(id)
                &&& final(self).private_values() == old(self).private_values()
                &&& final(self).value_nodes_spec() == old(self).value_nodes_spec().push(
                    ValueNode { type_id: id, type_label: name, scope: ScopeId(0), private: false },
                ).push(ValueNode { type_id: arc_id, type_label: arc_name, scope: ScopeId(0), private: false })
            },
    {
        let r = self.insert_value(id, name, arc_id, arc_name, ScopeId::root(), false);
        if r.is_ok() {
            self.builtins.push(id);
            self.builtins.push(arc_id);
            proof {
                self.lemma_wf_same_scopes(old(self));
            }
        }
        r
    }

    /// Whether `id` is a framework type, left out of rendered graphs.
    pub fn is_builtin(&self, id: u64) -> (b: bool)
        ensures
            b == self.builtins_spec().contains(id),
    {
        let mut i: usize = 0;
        while i < self.builtins.len()
            invariant
                i <= self.builtins.len(),
                forall|j: int| 0 <= j < i ==> #[trigger] self.builtins_spec()[j] != id,
            decreases self.builtins.len() - i,
        {
            if self.builtins[i] == id {
                assert(self.builtins_spec()[i as int] == id);
                return true;
            }
            i = i + 1;
        }
        false
    }

    /// The provider registered under `key`.
    pub fn provider_at(&self, key: ProviderKey) -> (p: Option<&DynProvider>)
        ensures
            self.has_key(key) ==> (p matches Some(q) && *q == self.entries_spec()[first_index(self.entries_spec(), entry_has_key(key))].provider),
            !self.has_key(key) ==> p is None,
    {
        match self.position_of(key) {
            Some(i) => Some(&self.entries[i].provider),
            None => None,
        }
    }

    /// Diagnostic name of `key`: a group member's constructor, otherwise the
    /// produced type; `<unknown>` for an unregistered key.
    pub fn key_name(&self, key: ProviderKey) -> (s: &'static str)
        ensures
            s == self.key_name_spec(key),
    {
        match self.provider_at(key) {
            Some(p) => if key.is_group_member() {
                p.constructor_name()
            } else {
                p.result_name()
            },
            None => "<unknown>",
        }
    }

    /// See [`Container::key_name`].
    pub open spec fn key_name_spec(&self, key: ProviderKey) -> &'static str {
        if self.has_key(key) {
            let p = self.entries_spec()[first_index(self.entries_spec(), entry_has_key(key))].provider;
            if key.ordinal != 0 {
                p.constructor_name_spec()
            } else {
                p.result_name_spec()
            }
        } else {
            "<unknown>"
        }
    }
}

} // verus!

verus! {

/// A copy of `v`.
pub fn copy_keys(v: &Vec<ProviderKey>) -> (r: Vec<ProviderKey>)
    ensures
        r@ == v@,
{
    let mut r: Vec<ProviderKey> = Vec::new();
    let mut i: usize = 0;
    while i < v.len()
        invariant
            i <= v.len(),
            r@ == v@.subrange(0, i as int),
        decreases v.len() - i,
    {
        r.push(v[i]);
        i = i + 1;
    }
    assert(v@.subrange(0, v.len() as int) =~= v@);
    r
}

impl Container {
    /// Index of the member list of `element`.
    fn members_position(&self, element: u64) -> (r: Option<usize>)
        ensures
            match r {
                Some(i) => is_first(self.group_members_spec(), members_is(element), i as int),
                None => !any_of(self.group_members_spec(), members_is(element)),
            },
    {
        let mut i: usize = 0;
        while i < self.group_members.len()
            invariant
                i <= self.group_members.len(),
                forall|j: int| 0 <= j < i ==> !#[trigger] members_is(element)(self.group_members_spec()[j]),
            decreases self.group_members.len() - i,
        {
            if self.group_members[i].0 == element {
                assert(members_is(element)(self.group_members_spec()[i as int]));
                return Some(i);
            }
            i = i + 1;
        }
        proof {
            lemma_none_match(self.group_members_spec(), members_is(element));
        }
        None
    }

    /// Member keys of the group of `element`, in registration order.
    pub fn group_member_keys(&self, element: u64) -> (r: Vec<ProviderKey>)
        ensures
            r@ == self.members_of(element),
    {
        match self.members_position(element) {
            Some(i) => {
                proof {
                    lemma_first_unique(self.group_members_spec(), members_is(element), i as int);
                }
                copy_keys(&self.group_members[i].1)
            },
            None => {
                proof {
                    lemma_none_match(self.group_members_spec(), members_is(element));
                }
                Vec::new()
            },
        }
    }

    /// Register the aggregate provider of the group of `element` (types
    /// `group_type` and its `Arc`, `arc_type`) publicly at the root, unless the
    /// group is already registered. Fails, changing nothing, when either type
    /// is already bound publicly.
    pub fn ensure_group_virtual(
        &mut self,
        element: u64,
        group_type: u64,
        group_name: &'static str,
        arc_type: u64,
        arc_name: &'static str,
        aggregate: DynProvider,
    ) -> (r: Result<(), Error>)
        requires
            old(self).wf(),
        ensures
            final(self).wf(),
            old(self).group_reg(element) is Some ==> r is Ok && *final(self) == *old(self),
            old(self).group_reg(element) is None && old(self).conflicts(group_type, ScopeId(0), false) ==> r
                == Err::<(), Error>(Error::AlreadyProvided(group_name)),
            old(self).group_reg(element) is None && !old(self).conflicts(group_type, ScopeId(0), false)
                && old(self).conflicts(arc_type, ScopeId(0), false) ==> r == Err::<(), Error>(
                Error::AlreadyProvided(arc_name),
            ),
            r is Err ==> *final(self) == *old(self),
            old(self).group_reg(element) is None && !old(self).conflicts(group_type, ScopeId(0), false)
                && !old(self).conflicts(arc_type, ScopeId(0), false) ==> {
                let key = ProviderKey { type_id: group_type, scope: ScopeId(0), private: false, ordinal: 0 };
                &&& r is Ok
                &&& final(self).entries_spec() == old(self).entries_spec().push(ProviderEntry { key, provider: aggregate })
                &&& final(self).public_index_spec() == old(self).public_index_spec().push((group_type, key)).push(
                    (arc_type, key),
                )
                &&& final(self).group_regs_spec() == old(self).group_regs_spec().push((element, key))
                &&& final(self).group_types_spec() == old(self).group_types_spec().push((group_type, element)).push(
                    (arc_type, element),
                )
                &&& final(self).aliases_spec() == old(self).aliases_spec()
                &&& final(self).group_members_spec() == old(self).group_members_spec()
                &&& final(self).next_member_spec() == old(self).next_member_spec()
                &&& final(self).same_outside_providers(old(self))
            },
    {
        if self.group_registration(element).is_some() {
            return Ok(());
        }
        let first = self.ensure_absent(group_type, group_name, ScopeId::root(), false);
        if first.is_err() {
            return first;
        }
        let second = self.ensure_absent(arc_type, arc_name, ScopeId::root(), false);
        if second.is_err() {
            return second;
        }
        let key = ProviderKey::singleton(group_type, ScopeId::root(), false);
        self.entries.push(ProviderEntry { key, provider: aggregate });
        self.public_index.push((group_type, key));
        self.public_index.push((arc_type, key));
        self.group_regs.push((element, key));
        self.group_types.push((group_type, element));
        self.group_types.push((arc_type, element));
        proof {
            self.lemma_wf_same_scopes(old(self));
            old(self).lemma_public_absent(group_type, ScopeId(0));
            let e = self.entries_spec().last();
            assert(self.entries_spec() == old(self).entries_spec().push(e));
            assert(index_is(group_type)(self.public_index_spec()[old(self).public_index_spec().len() as int]));
            Container::lemma_registry_grows(old(self), self, e);
        }
        Ok(())
    }

    /// Register a member of the group of `element` in `scope` (registering
    /// the group's aggregate first if needed, as [`Container::ensure_group_virtual`]).
    /// Members never occupy the singleton slot of their type: each gets the
    /// next member ordinal.
    pub fn insert_group_member(
        &mut self,
        element: u64,
        group_type: u64,
        group_name: &'static str,
        arc_type: u64,
        arc_name: &'static str,
        aggregate: DynProvider,
        member: DynProvider,
        scope: ScopeId,
    ) -> (r: Result<(), Error>)
        requires
            old(self).wf(),
            old(self).scope_tree().has(scope),
            old(self).next_member_spec() < u32::MAX,
        ensures
            final(self).wf(),
            old(self).group_reg(element) is None && old(self).conflicts(group_type, ScopeId(0), false) ==> r
                == Err::<(), Error>(Error::AlreadyProvided(group_name)),
            old(self).group_reg(element) is None && !old(self).conflicts(group_type, ScopeId(0), false)
                && old(self).conflicts(arc_type, ScopeId(0), false) ==> r == Err::<(), Error>(
                Error::AlreadyProvided(arc_name),
            ),
            r is Err ==> *final(self) == *old(self),
            (old(self).group_reg(element) is Some || (!old(self).conflicts(group_type, ScopeId(0), false)
                && !old(self).conflicts(arc_type, ScopeId(0), false))) ==> {
                let key = ProviderKey {
                    type_id: member.result_type_spec(),
                    scope,
                    private: false,
                    ordinal: (old(self).next_member_spec() + 1) as u32,
                };
                &&& r is Ok
                &&& final(self).next_member_spec() == old(self).next_member_spec() + 1
                &&& final(self).members_of(element) == old(self).members_of(element).push(key)
                &&& forall|e: u64| e != element ==> #[trigger] final(self).members_of(e) == old(self).members_of(e)
                &&& final(self).entries_spec().last() == (ProviderEntry { key, provider: member })
                &&& final(self).same_outside_providers(old(self))
                &&& final(self).group_reg(element) is Some
                &&& final(self).aliases_spec() == old(self).aliases_spec()
            },
            old(self).group_reg(element) is Some && r is Ok ==> {
                &&& final(self).public_index_spec() == old(self).public_index_spec()
                &&& final(self).group_regs_spec() == old(self).group_regs_spec()
                &&& final(self).group_types_spec() == old(self).group_types_spec()
                &&& final(self).entries_spec().drop_last() == old(self).entries_spec()
            },
            old(self).group_reg(element) is None && r is Ok ==> {
                let gk = ProviderKey { type_id: group_type, scope: ScopeId(0), private: false, ordinal: 0 };
                &&& final(self).public_index_spec() == old(self).public_index_spec().push((group_type, gk)).push(
                    (arc_type, gk),
                )
                &&& final(self).group_regs_spec() == old(self).group_regs_spec().push((element, gk))
                &&& final(self).group_types_spec() == old(self).group_types_spec().push((group_type, element)).push(
                    (arc_type, element),
                )
                &&& final(self).entries_spec().drop_last() == old(self).entries_spec().push(
                    ProviderEntry { key: gk, provider: aggregate },
                )
            },
    {
        let reg = self.ensure_group_virtual(element, group_type, group_name, arc_type, arc_name, aggregate);
        if reg.is_err() {
            return reg;
        }
        let ghost mid = *self;
        self.next_member_id = self.next_member_id + 1;
        let key = ProviderKey { type_id: member.result_type(), scope, private: false, ordinal: self.next_member_id };
        self.entries.push(ProviderEntry { key, provider: member });
        match self.members_position(element) {
            Some(i) => {
                let mut list = copy_keys(&self.group_members[i].1);
                list.push(key);
                let ghost before = self.group_members_spec();
                self.group_members.set(i, (element, list));
                proof {
                    let after = self.group_members_spec();
                    assert(after =~= before.update(i as int, (element, before[i as int].1.push(key))));
                    lemma_first_unique(before, members_is(element), i as int);
                    assert(is_first(after, members_is(element), i as int));
                    lemma_first_unique(after, members_is(element), i as int);
                    assert forall|e: u64| e != element implies #[trigger] self.members_of(e) == mid.members_of(e) by {
                        assert forall|j: int| 0 <= j < after.len() implies (#[trigger] members_is(e)(after[j])) == members_is(e)(
                            before[j],
                        ) by {}
                        if any_of(before, members_is(e)) {
                            crate::lookup::lemma_first_index(before, members_is(e));
                            let f = first_index(before, members_is(e));
                            assert(is_first(after, members_is(e), f));
                            lemma_first_unique(after, members_is(e), f);
                        } else {
                            lemma_none_match(after, members_is(e));
                        }
                    }
                }
            },
            None => {
                let mut list: Vec<ProviderKey> = Vec::new();
                list.push(key);
                let ghost before = self.group_members_spec();
                self.group_members.push((element, list));
                proof {
                    let after = self.group_members_spec();
                    assert(after =~= before.push((element, seq![key])));
                    lemma_none_match(before, members_is(element));
                    assert(is_first(after, members_is(element), before.len() as int));
                    lemma_first_unique(after, members_is(element), before.len() as int);
                    assert(mid.members_of(element) == Seq::<ProviderKey>::empty());
                    assert(seq![key] =~= Seq::<ProviderKey>::empty().push(key));
                    assert forall|e: u64| e != element implies #[trigger] self.members_of(e) == mid.members_of(e) by {
                        if any_of(before, members_is(e)) {
                            crate::lookup::lemma_first_index(before, members_is(e));
                            let f = first_index(before, members_is(e));
                            assert(is_first(after, members_is(e), f));
                            lemma_first_unique(after, members_is(e), f);
                        } else {
                            assert forall|j: int| 0 <= j < after.len() implies !#[trigger] members_is(e)(after[j]) by {
                                if j < before.len() {
                                    assert(after[j] == before[j]);
                                }
                            }
                            lemma_none_match(after, members_is(e));
                        }
                    }
                }
            },
        }
        proof {
            self.lemma_wf_same_scopes(old(self));
            assert(mid.registry_ok());
            mid.lemma_fresh_ordinal(key);
            let e = self.entries_spec().last();
            assert(self.entries_spec() == mid.entries_spec().push(e));
            Container::lemma_registry_grows(&mid, self, e);
            let rs = self.group_regs_spec();
            if old(self).group_reg(element) is None {
                assert(index_is(element)(rs[rs.len() - 1]));
            }
            assert(self.entries_spec().drop_last() =~= mid.entries_spec());
        }
        Ok(())
    }

    /// Require the group of `element` (named `name`) to have members when
    /// validated. Requiring a group twice keeps the first name.
    pub fn require_group_element(&mut self, element: u64, name: &'static str)
        requires
            old(self).wf(),
        ensures
            final(self).wf(),
            any_of(old(self).required_spec(), required_is(element)) ==> final(self).required_spec() == old(self).required_spec(),
            !any_of(old(self).required_spec(), required_is(element)) ==> final(self).required_spec() == old(
                self,
            ).required_spec().push((element, name)),
            final(self).entries_spec() == old(self).entries_spec(),
            final(self).group_members_spec() == old(self).group_members_spec(),
            final(self).group_regs_spec() == old(self).group_regs_spec(),
            final(self).group_types_spec() == old(self).group_types_spec(),
            final(self).public_index_spec() == old(self).public_index_spec(),
            final(self).aliases_spec() == old(self).aliases_spec(),
            final(self).public_values() == old(self).public_values(),
            final(self).private_values() == old(self).private_values(),
            final(self).scope_tree() == old(self).scope_tree(),
            final(self).next_member_spec() == old(self).next_member_spec(),
    {
        let mut i: usize = 0;
        while i < self.required.len()
            invariant
                *self == *old(self),
                old(self).wf(),
                i <= self.required.len(),
                forall|j: int| 0 <= j < i ==> !#[trigger] required_is(element)(self.required_spec()[j]),
            decreases self.required.len() - i,
        {
            if self.required[i].0 == element {
                assert(required_is(element)(self.required_spec()[i as int]));
                return;
            }
            i = i + 1;
        }
        proof {
            lemma_none_match(self.required_spec(), required_is(element));
        }
        self.required.push((element, name));
        proof {
            self.lemma_wf_same_scopes(old(self));
            Container::lemma_registry_frame(old(self), self);
        }
    }

    /// Record the constructed value of group member `key`.
    pub fn store_group_member(&mut self, key: ProviderKey)
        requires
            old(self).wf(),
        ensures
            final(self).wf(),
            final(self).member_values_spec() == old(self).member_values_spec().push(key),
            final(self).same_registry(old(self)),
            final(self).public_values() == old(self).public_values(),
            final(self).private_values() == old(self).private_values(),
            final(self).value_nodes_spec() == old(self).value_nodes_spec(),
            final(self).builtins_spec() == old(self).builtins_spec(),
    {
        self.member_values.push(key);
        proof {
            self.lemma_wf_same_scopes(old(self));
            Container::lemma_registry_frame(old(self), self);
        }
    }

    /// Consume the constructed value of group member `key`; `false` when none
    /// is recorded.
    pub fn take_group_member(&mut self, key: ProviderKey) -> (found: bool)
        requires
            old(self).wf(),
        ensures
            final(self).wf(),
            found == old(self).member_values_spec().contains(key),
            found ==> final(self).member_values_spec() == old(self).member_values_spec().remove(
                first_index(old(self).member_values_spec(), same_key(key)),
            ),
            !found ==> final(self).member_values_spec() == old(self).member_values_spec(),
            final(self).same_registry(old(self)),
            final(self).public_values() == old(self).public_values(),
            final(self).private_values() == old(self).private_values(),
            final(self).value_nodes_spec() == old(self).value_nodes_spec(),
            final(self).builtins_spec() == old(self).builtins_spec(),
    {
        let mut i: usize = 0;
        while i < self.member_values.len()
            invariant
                *self == *old(self),
                old(self).wf(),
                i <= self.member_values.len(),
                forall|j: int| 0 <= j < i ==> #[trigger] self.member_values_spec()[j] != key,
            decreases self.member_values.len() - i,
        {
            if self.member_values[i] == key {
                proof {
                    let p = same_key(key);
                    assert(p(self.member_values_spec()[i as int]));
                    assert forall|j: int| 0 <= j < i implies !#[trigger] p(self.member_values_spec()[j]) by {}
                    lemma_first_unique(self.member_values_spec(), p, i as int);
                    assert(self.member_values_spec()[i as int] == key);
                }
                self.member_values.remove(i);
                proof {
                    self.lemma_wf_same_scopes(old(self));
                    Container::lemma_registry_frame(old(self), self);
                }
                return true;
            }
            i = i + 1;
        }
        false
    }

    /// Fail with [`Error::EmptyGroup`] for the first required group (in the
    /// order groups were first required) that has no members.
    pub fn validate_required_groups(&self) -> (r: Result<(), Error>)
        ensures
            r is Ok <==> forall|j: int| 0 <= j < self.required_spec().len() ==> #[trigger] self.members_of(
                self.required_spec()[j].0,
            ).len() > 0,
            r is Err ==> {
                let empty = |m: (u64, &'static str)| self.members_of(m.0).len() == 0;
                r == Err::<(), Error>(Error::EmptyGroup { type_label: first_match(self.required_spec(), empty).unwrap().1 })
            },
    {
        let ghost empty = |m: (u64, &'static str)| self.members_of(m.0).len() == 0;
        let mut i: usize = 0;
        while i < self.required.len()
            invariant
                i <= self.required.len(),
                empty == (|m: (u64, &'static str)| self.members_of(m.0).len() == 0),
                forall|j: int| 0 <= j < i ==> #[trigger] self.members_of(self.required_spec()[j].0).len() > 0,
            decreases self.required.len() - i,
        {
            let (element, name) = self.required[i];
            let members = self.group_member_keys(element);
            if members.len() == 0 {
                proof {
                    assert(empty(self.required_spec()[i as int]));
                    assert forall|j: int| 0 <= j < i implies !#[trigger] empty(self.required_spec()[j]) by {
                        assert(self.members_of(self.required_spec()[j].0).len() > 0);
                    }
                    lemma_first_unique(self.required_spec(), empty, i as int);
                }
                return Err(Error::EmptyGroup { type_label: name });
            }
            i = i + 1;
        }
        Ok(())
    }
}

} // verus!

verus! {

/// `names` joined by `" -> "`.
pub open spec fn arrow_join(names: Seq<Seq<char>>) -> Seq<char>
    decreases names.len(),
{
    if names.len() == 0 {
        Seq::empty()
    } else if names.len() == 1 {
        names[0]
    } else {
        arrow_join(names.drop_last()) + " -> "@ + names.last()
    }
}

pub open spec fn reg_for(key: ProviderKey) -> spec_fn((u64, ProviderKey)) -> bool {
    |r: (u64, ProviderKey)| r.1 == key
}

impl Container {
    /// Position of the provider registered under `k` (meaningful when registered).
    pub open spec fn pos(&self, k: ProviderKey) -> int {
        first_index(self.entries_spec(), entry_has_key(k))
    }

    /// The dependency edge a parameter of a provider in `scope` contributes:
    /// none when a value already satisfies it, else the position of the
    /// provider that builds it.
    pub open spec fn dep_edge(&self, scope: ScopeId) -> spec_fn((u64, &'static str)) -> Option<usize> {
        |d: (u64, &'static str)|
            if self.value_binding(d.0, scope) is Some {
                None
            } else {
                match self.resolved_provider(d.0, scope) {
                    Some(k) => Some(self.pos(k) as usize),
                    None => None,
                }
            }
    }

    /// Edges from a group aggregate to its registered members.
    pub open spec fn member_edge(&self) -> spec_fn(ProviderKey) -> Option<usize> {
        |m: ProviderKey| if self.has_key(m) {
            Some(self.pos(m) as usize)
        } else {
            None
        }
    }

    /// The dependencies of the provider at position `i`: its parameters that
    /// no value satisfies, then, for a group aggregate, the group's members.
    pub open spec fn node_edges(&self, i: int) -> Seq<usize> {
        let e = self.entries_spec()[i];
        let own = e.provider.deps_spec().filter_map(self.dep_edge(e.key.scope));
        match first_match(self.group_regs_spec(), reg_for(e.key)) {
            Some(r) => own + self.members_of(r.0).filter_map(self.member_edge()),
            None => own,
        }
    }

    /// The dependency graph over provider positions.
    pub open spec fn dep_graph(&self) -> Seq<Seq<usize>> {
        Seq::new(self.entries_spec().len(), |i: int| self.node_edges(i))
    }

    /// Parameter `k` of the provider at position `i` can be resolved.
    pub open spec fn provider_dep_ok(&self, i: int, k: int) -> bool {
        let e = self.entries_spec()[i];
        self.resolvable(e.provider.deps_spec()[k].0, e.key.scope)
    }

    /// The error for unresolvable parameter `k` of the provider at position `i`.
    pub open spec fn provider_dep_error(&self, i: int, k: int) -> Error {
        let e = self.entries_spec()[i];
        Error::ProviderMissingDep {
            provider: e.provider.result_name_spec(),
            module: self.scope_tree().name_str(e.key.scope.idx()),
            dependency: e.provider.deps_spec()[k].1,
        }
    }

    /// Every parameter of every registered provider can be resolved.
    pub open spec fn providers_resolvable(&self) -> bool {
        forall|i: int, k: int|
            0 <= i < self.entries_spec().len() && 0 <= k < self.entries_spec()[i].provider.deps_spec().len()
                ==> #[trigger] self.provider_dep_ok(i, k)
    }

    /// The element type of the group whose aggregate is registered under `key`.
    pub fn aggregate_element(&self, key: ProviderKey) -> (r: Option<u64>)
        ensures
            r == (match first_match(self.group_regs_spec(), reg_for(key)) {
                Some(x) => Some(x.0),
                None => None,
            }),
    {
        let mut r: usize = 0;
        while r < self.group_regs.len()
            invariant
                r <= self.group_regs.len(),
                forall|j: int| 0 <= j < r ==> !#[trigger] reg_for(key)(self.group_regs_spec()[j]),
            decreases self.group_regs.len() - r,
        {
            if self.group_regs[r].1 == key {
                proof {
                    assert(reg_for(key)(self.group_regs_spec()[r as int]));
                    lemma_first_unique(self.group_regs_spec(), reg_for(key), r as int);
                }
                return Some(self.group_regs[r].0);
            }
            r = r + 1;
        }
        proof {
            lemma_none_match(self.group_regs_spec(), reg_for(key));
        }
        None
    }

    fn edges_of(&self, i: usize) -> (row: Vec<usize>)
        requires
            self.wf(),
            i < self.entries_spec().len(),
        ensures
            row@ == self.node_edges(i as int),
            forall|t: int| 0 <= t < row@.len() ==> #[trigger] row@[t] < self.entries_spec().len(),
    {
        let ghost n = self.entries_spec().len();
        let e = &self.entries[i];
        let scope = e.key.scope;
        let deps = e.provider.dep_types();
        let ghost f = self.dep_edge(scope);
        assert(self.scope_tree().has(self.entries_spec()[i as int].key.scope));
        let mut row: Vec<usize> = Vec::new();
        let mut k: usize = 0;
        while k < deps.len()
            invariant
                self.wf(),
                self.scope_tree().has(scope),
                f == self.dep_edge(scope),
                n == self.entries_spec().len(),
                deps@ == self.entries_spec()[i as int].provider.deps_spec(),
                k <= deps.len(),
                row@ == deps@.take(k as int).filter_map(f),
                forall|t: int| 0 <= t < row@.len() ==> #[trigger] row@[t] < n,
            decreases deps.len() - k,
        {
            let d = deps[k];
            proof {
                assert(deps@.take(k as int + 1).drop_last() =~= deps@.take(k as int));
                assert(deps@.take(k as int + 1).last() == d);
            }
            if !self.value_satisfies(d.0, scope) {
                if let Some(key) = self.resolve_provider(d.0, scope) {
                    if let Some(j) = self.position_of(key) {
                        proof {
                            lemma_first_unique(self.entries_spec(), entry_has_key(key), j as int);
                        }
                        row.push(j);
                    }
                }
            }
            proof {
                assert(row@ =~= deps@.take(k as int + 1).filter_map(f));
            }
            k = k + 1;
        }
        proof {
            assert(deps@.take(deps.len() as int) =~= deps@);
        }
        let key = e.key;
        let ghost own = row@;
        let reg = self.aggregate_element(key);
        match reg {
            None => row,
            Some(element) => {
                let members = self.group_member_keys(element);
                let ghost g = self.member_edge();
                let mut t: usize = 0;
                while t < members.len()
                    invariant
                        g == self.member_edge(),
                        n == self.entries_spec().len(),
                        t <= members.len(),
                        row@ == own + members@.take(t as int).filter_map(g),
                        forall|x: int| 0 <= x < row@.len() ==> #[trigger] row@[x] < n,
                    decreases members.len() - t,
                {
                    let m = members[t];
                    proof {
                        assert(members@.take(t as int + 1).drop_last() =~= members@.take(t as int));
                        assert(members@.take(t as int + 1).last() == m);
                    }
                    if let Some(j) = self.position_of(m) {
                        proof {
                            lemma_first_unique(self.entries_spec(), entry_has_key(m), j as int);
                        }
                        row.push(j);
                    }
                    proof {
                        assert(row@ =~= own + members@.take(t as int + 1).filter_map(g));
                    }
                    t = t + 1;
                }
                proof {
                    assert(members@.take(members.len() as int) =~= members@);
                }
                row
            },
        }
    }
}

} // verus!

verus! {

impl Container {
    /// Parameter `k` of invoker `v` can be resolved from the invoker's scope.
    pub open spec fn invoker_dep_ok(&self, invs: Seq<ScopedInvoker>, v: int, k: int) -> bool {
        self.resolvable(invs[v].invoker.deps_spec()[k].0, invs[v].scope)
    }

    /// Every parameter of every invoker can be resolved.
    pub open spec fn invokers_resolvable(&self, invs: Seq<ScopedInvoker>) -> bool {
        forall|v: int, k: int|
            0 <= v < invs.len() && 0 <= k < invs[v].invoker.deps_spec().len() ==> #[trigger] self.invoker_dep_ok(invs, v, k)
    }

    /// The error for unresolvable parameter `k` of invoker `v`.
    pub open spec fn invoker_dep_error(&self, invs: Seq<ScopedInvoker>, v: int, k: int) -> Error {
        Error::InvokerMissingDep {
            module: self.scope_tree().name_str(invs[v].scope.idx()),
            dependency: invs[v].invoker.deps_spec()[k].1,
        }
    }

    /// Provider keys at the positions `ixs`.
    pub open spec fn keys_at(&self, ixs: Seq<usize>) -> Seq<ProviderKey> {
        ixs.map_values(|x: usize| self.entries_spec()[x as int].key)
    }

    /// Diagnostic names of the providers at the positions `ixs`.
    pub open spec fn names_at(&self, ixs: Seq<usize>) -> Seq<Seq<char>> {
        ixs.map_values(|x: usize| self.key_name_spec(self.entries_spec()[x as int].key)@)
    }

    /// Check every provider parameter, in registration then parameter order.
    fn check_provider_deps(&self) -> (r: Result<(), Error>)
        requires
            self.wf(),
        ensures
            r is Ok <==> self.providers_resolvable(),
            r is Err ==> exists|i: int, k: int|
                0 <= i < self.entries_spec().len() && 0 <= k < self.entries_spec()[i].provider.deps_spec().len()
                    && !self.provider_dep_ok(i, k) && (forall|i2: int, k2: int|
                    0 <= i2 < i && 0 <= k2 < self.entries_spec()[i2].provider.deps_spec().len() ==> #[trigger] self.provider_dep_ok(
                        i2,
                        k2,
                    )) && (forall|k2: int| 0 <= k2 < k ==> #[trigger] self.provider_dep_ok(i, k2)) && r == Err::<(), Error>(
                    self.provider_dep_error(i, k),
                ),
    {
        let mut i: usize = 0;
        while i < self.entries.len()
            invariant
                self.wf(),
                i <= self.entries.len(),
                forall|i2: int, k2: int|
                    0 <= i2 < i && 0 <= k2 < self.entries_spec()[i2].provider.deps_spec().len() ==> #[trigger] self.provider_dep_ok(
                        i2,
                        k2,
                    ),
            decreases self.entries.len() - i,
        {
            let e = &self.entries[i];
            let deps = e.provider.dep_types();
            let scope = e.key.scope;
            assert(self.scope_tree().has(self.entries_spec()[i as int].key.scope));
            let mut k: usize = 0;
            while k < deps.len()
                invariant
                    self.wf(),
                    i < self.entries_spec().len(),
                    *e == self.entries_spec()[i as int],
                    deps@ == self.entries_spec()[i as int].provider.deps_spec(),
                    scope == self.entries_spec()[i as int].key.scope,
                    self.scope_tree().has(scope),
                    k <= deps.len(),
                    forall|k2: int| 0 <= k2 < k ==> #[trigger] self.provider_dep_ok(i as int, k2),
                    forall|i2: int, k2: int|
                        0 <= i2 < i && 0 <= k2 < self.entries_spec()[i2].provider.deps_spec().len() ==> #[trigger] self.provider_dep_ok(
                            i2,
                            k2,
                        ),
                decreases deps.len() - k,
            {
                if !self.can_resolve(deps[k].0, scope) {
                    proof {
                        assert(!self.provider_dep_ok(i as int, k as int));
                    }
                    return Err(
                        Error::ProviderMissingDep {
                            provider: e.provider.result_name(),
                            module: self.scopes.name(scope),
                            dependency: deps[k].1,
                        },
                    );
                }
                k = k + 1;
            }
            i = i + 1;
        }
        Ok(())
    }

    /// Check every invoker parameter, in registration then parameter order.
    fn check_invoker_deps(&self, invokers: &Vec<ScopedInvoker>) -> (r: Result<(), Error>)
        requires
            self.wf(),
            forall|v: int| 0 <= v < invokers@.len() ==> self.scope_tree().has(#[trigger] invokers@[v].scope),
        ensures
            r is Ok <==> self.invokers_resolvable(invokers@),
            r is Err ==> exists|v: int, k: int|
                0 <= v < invokers@.len() && 0 <= k < invokers@[v].invoker.deps_spec().len() && !self.invoker_dep_ok(
                    invokers@,
                    v,
                    k,
                ) && (forall|v2: int, k2: int|
                    0 <= v2 < v && 0 <= k2 < invokers@[v2].invoker.deps_spec().len() ==> #[trigger] self.invoker_dep_ok(
                        invokers@,
                        v2,
                        k2,
                    )) && (forall|k2: int| 0 <= k2 < k ==> #[trigger] self.invoker_dep_ok(invokers@, v, k2)) && r == Err::<
                    (),
                    Error,
                >(self.invoker_dep_error(invokers@, v, k)),
    {
        let mut v: usize = 0;
        while v < invokers.len()
            invariant
                self.wf(),
                forall|v: int| 0 <= v < invokers@.len() ==> self.scope_tree().has(#[trigger] invokers@[v].scope),
                v <= invokers.len(),
                forall|v2: int, k2: int|
                    0 <= v2 < v && 0 <= k2 < invokers@[v2].invoker.deps_spec().len() ==> #[trigger] self.invoker_dep_ok(
                        invokers@,
                        v2,
                        k2,
                    ),
            decreases invokers.len() - v,
        {
            let scoped = &invokers[v];
            let deps = scoped.invoker.dep_types();
            let scope = scoped.scope;
            assert(self.scope_tree().has(invokers@[v as int].scope));
            let mut k: usize = 0;
            while k < deps.len()
                invariant
                    self.wf(),
                    v < invokers@.len(),
                    deps@ == invokers@[v as int].invoker.deps_spec(),
                    scope == invokers@[v as int].scope,
                    self.scope_tree().has(scope),
                    k <= deps.len(),
                    forall|k2: int| 0 <= k2 < k ==> #[trigger] self.invoker_dep_ok(invokers@, v as int, k2),
                    forall|v2: int, k2: int|
                        0 <= v2 < v && 0 <= k2 < invokers@[v2].invoker.deps_spec().len() ==> #[trigger] self.invoker_dep_ok(
                            invokers@,
                            v2,
                            k2,
                        ),
                decreases deps.len() - k,
            {
                if !self.can_resolve(deps[k].0, scope) {
                    proof {
                        assert(!self.invoker_dep_ok(invokers@, v as int, k as int));
                    }
                    return Err(Error::InvokerMissingDep { module: self.scopes.name(scope), dependency: deps[k].1 });
                }
                k = k + 1;
            }
            v = v + 1;
        }
        Ok(())
    }

    /// The dependency graph over provider positions; see [`Container::dep_graph`].
    pub fn build_dep_graph(&self) -> (g: Vec<Vec<usize>>)
        requires
            self.wf(),
        ensures
            g.deep_view() == self.dep_graph(),
            crate::graph::graph_wf(g.deep_view()),
    {
        let ghost n = self.entries_spec().len();
        let mut g: Vec<Vec<usize>> = Vec::new();
        let mut i: usize = 0;
        while i < self.entries.len()
            invariant
                self.wf(),
                n == self.entries_spec().len(),
                i <= n,
                g@.len() == i,
                forall|a: int| 0 <= a < i ==> (#[trigger] g@[a])@ == self.node_edges(a),
                forall|a: int, t: int| 0 <= a < i && 0 <= t < g@[a]@.len() ==> #[trigger] g@[a]@[t] < n,
            decreases n - i,
        {
            let row = self.edges_of(i);
            g.push(row);
            i = i + 1;
        }
        proof {
            assert forall|a: int| 0 <= a < n implies #[trigger] g.deep_view()[a] == self.dep_graph()[a] by {
                assert(g.deep_view()[a] =~= g@[a]@);
            }
            assert(g.deep_view() =~= self.dep_graph());
        }
        g
    }

    /// `names` of the providers at `cycle`, joined by `" -> "`.
    fn cycle_text(&self, cycle: &Vec<usize>) -> (s: String)
        requires
            forall|t: int| 0 <= t < cycle@.len() ==> #[trigger] cycle@[t] < self.entries_spec().len(),
        ensures
            s@ == arrow_join(self.names_at(cycle@)),
    {
        let mut s = String::new();
        let mut t: usize = 0;
        while t < cycle.len()
            invariant
                forall|t: int| 0 <= t < cycle@.len() ==> #[trigger] cycle@[t] < self.entries_spec().len(),
                t <= cycle.len(),
                s@ == arrow_join(self.names_at(cycle@.take(t as int))),
            decreases cycle.len() - t,
        {
            let x = cycle[t];
            let name = self.key_name(self.entries[x].key);
            proof {
                let pre = self.names_at(cycle@.take(t as int + 1));
                assert(pre.drop_last() =~= self.names_at(cycle@.take(t as int)));
                assert(pre.last() == name@);
                if t == 0 {
                    assert(self.names_at(cycle@.take(0)) =~= Seq::empty());
                }
            }
            if t > 0 {
                s.append(" -> ");
            }
            s.append(name);
            t = t + 1;
        }
        proof {
            assert(cycle@.take(cycle@.len() as int) =~= cycle@);
        }
        s
    }
}

} // verus!

verus! {

impl Container {
    /// Everything but the construction layers is that of `o`.
    pub open spec fn same_but_layers(&self, o: &Container) -> bool {
        &&& self.scope_tree() == o.scope_tree()
        &&& self.active_scope_spec() == o.active_scope_spec()
        &&& self.entries_spec() == o.entries_spec()
        &&& self.public_index_spec() == o.public_index_spec()
        &&& self.aliases_spec() == o.aliases_spec()
        &&& self.public_values() == o.public_values()
        &&& self.private_values() == o.private_values()
        &&& self.value_nodes_spec() == o.value_nodes_spec()
        &&& self.builtins_spec() == o.builtins_spec()
        &&& self.constructing_spec() == o.constructing_spec()
        &&& self.group_members_spec() == o.group_members_spec()
        &&& self.group_regs_spec() == o.group_regs_spec()
        &&& self.group_types_spec() == o.group_types_spec()
        &&& self.member_values_spec() == o.member_values_spec()
        &&& self.required_spec() == o.required_spec()
        &&& self.next_member_spec() == o.next_member_spec()
    }

    /// The providers a reported cycle may be entered from: every provider but
    /// group members, which are reached through their group.
    pub open spec fn walk_starts(&self) -> Seq<bool> {
        self.entries_spec().map_values(|e: ProviderEntry| e.key.ordinal == 0)
    }

    /// Every required group has members.
    pub open spec fn required_groups_filled(&self) -> bool {
        forall|j: int| 0 <= j < self.required_spec().len() ==> #[trigger] self.members_of(self.required_spec()[j].0).len() > 0
    }

    /// Check the whole graph before anything is built: every provider
    /// parameter (even of providers nobody uses), then every invoker parameter,
    /// must resolve; every required group must have members; and the
    /// dependency graph must be acyclic. On success the construction layers
    /// are recorded: the longest-path layering of the dependency graph, each
    /// layer in registration order. A cycle is reported with the names along
    /// it, `A -> B -> A`: the cycle that the walk from the first provider
    /// (not a group member, if any such can) that runs into a cycle closes
    /// when it keeps to the first dependency that runs into one (see
    /// [`crate::graph::reported_cycle`]).
    pub fn validate(&mut self, invokers: &Vec<ScopedInvoker>) -> (r: Result<(), Error>)
        requires
            old(self).wf(),
            forall|v: int| 0 <= v < invokers@.len() ==> old(self).scope_tree().has(#[trigger] invokers@[v].scope),
        ensures
            final(self).wf(),
            final(self).same_but_layers(old(self)),
            r is Err ==> final(self).layers_spec() == old(self).layers_spec(),
            !old(self).providers_resolvable() ==> exists|i: int, k: int|
                0 <= i < old(self).entries_spec().len() && 0 <= k < old(self).entries_spec()[i].provider.deps_spec().len()
                    && !old(self).provider_dep_ok(i, k) && (forall|i2: int, k2: int|
                    0 <= i2 < i && 0 <= k2 < old(self).entries_spec()[i2].provider.deps_spec().len()
                        ==> #[trigger] old(self).provider_dep_ok(i2, k2)) && (forall|k2: int|
                    0 <= k2 < k ==> #[trigger] old(self).provider_dep_ok(i, k2)) && r == Err::<(), Error>(
                    old(self).provider_dep_error(i, k),
                ),
            old(self).providers_resolvable() && !old(self).invokers_resolvable(invokers@) ==> exists|v: int, k: int|
                0 <= v < invokers@.len() && 0 <= k < invokers@[v].invoker.deps_spec().len() && !old(self).invoker_dep_ok(
                    invokers@,
                    v,
                    k,
                ) && (forall|v2: int, k2: int|
                    0 <= v2 < v && 0 <= k2 < invokers@[v2].invoker.deps_spec().len() ==> #[trigger] old(self).invoker_dep_ok(
                        invokers@,
                        v2,
                        k2,
                    )) && (forall|k2: int| 0 <= k2 < k ==> #[trigger] old(self).invoker_dep_ok(invokers@, v, k2)) && r
                    == Err::<(), Error>(old(self).invoker_dep_error(invokers@, v, k)),
            old(self).providers_resolvable() && old(self).invokers_resolvable(invokers@)
                && !old(self).required_groups_filled() ==> r == Err::<(), Error>(
                Error::EmptyGroup {
                    type_label: first_match(
                        old(self).required_spec(),
                        |m: (u64, &'static str)| old(self).members_of(m.0).len() == 0,
                    ).unwrap().1,
                },
            ),
            old(self).providers_resolvable() && old(self).invokers_resolvable(invokers@)
                && old(self).required_groups_filled() ==> {
                &&& r is Ok <==> crate::graph::acyclic(old(self).dep_graph())
                &&& r is Ok ==> exists|layers: Seq<Seq<usize>>|
                    crate::graph::is_layering(old(self).dep_graph(), layers) && final(self).layers_spec()
                        == layers.map_values(|l: Seq<usize>| old(self).keys_at(l))
                &&& r is Err ==> crate::graph::is_cycle(
                    old(self).dep_graph(),
                    crate::graph::reported_cycle(old(self).dep_graph(), old(self).walk_starts()),
                ) && (r matches Err(Error::Cycle(text)) && text@ == arrow_join(
                    old(self).names_at(crate::graph::reported_cycle(old(self).dep_graph(), old(self).walk_starts())),
                ))
            },
    {
        let p = self.check_provider_deps();
        if p.is_err() {
            return p;
        }
        let q = self.check_invoker_deps(invokers);
        if q.is_err() {
            return q;
        }
        let g = self.validate_required_groups();
        if g.is_err() {
            return g;
        }
        let graph = self.build_dep_graph();
        let n = self.entries.len();
        assert(graph.deep_view().len() == graph@.len());
        let mut may_start: Vec<bool> = Vec::new();
        let mut i: usize = 0;
        while i < n
            invariant
                n == self.entries.len(),
                n == graph.len(),
                i <= n,
                may_start@ == self.walk_starts().take(i as int),
            decreases n - i,
        {
            may_start.push(!self.entries[i].key.is_group_member());
            proof {
                assert(self.walk_starts().take(i as int + 1) =~= self.walk_starts().take(i as int).push(
                    self.walk_starts()[i as int],
                ));
            }
            i = i + 1;
        }
        proof {
            assert(self.walk_starts().take(n as int) =~= self.walk_starts());
        }
        match crate::graph::freeze_layers(&graph, &may_start) {
            Ok(layers) => {
                let ghost lv = layers.deep_view();
                let keyed = self.keyed_layers(&layers);
                self.layers = keyed;
                proof {
                    self.lemma_wf_same_scopes(old(self));
                    assert(crate::graph::is_layering(old(self).dep_graph(), lv));
                }
                Ok(())
            },
            Err(cycle) => {
                let text = self.cycle_text(&cycle);
                Err(Error::Cycle(text))
            },
        }
    }

    fn keyed_layers(&self, layers: &Vec<Vec<usize>>) -> (r: Vec<Vec<ProviderKey>>)
        requires
            forall|l: int, p: int|
                0 <= l < layers.deep_view().len() && 0 <= p < layers.deep_view()[l].len() ==> #[trigger] layers.deep_view()[l][p]
                    < self.entries_spec().len(),
        ensures
            r@.map_values(|l: Vec<ProviderKey>| l@) == layers.deep_view().map_values(|l: Seq<usize>| self.keys_at(l)),
    {
        let ghost lv = layers.deep_view();
        let mut r: Vec<Vec<ProviderKey>> = Vec::new();
        let mut l: usize = 0;
        while l < layers.len()
            invariant
                lv == layers.deep_view(),
                forall|l: int, p: int| 0 <= l < lv.len() && 0 <= p < lv[l].len() ==> #[trigger] lv[l][p] < self.entries_spec().len(),
                l <= layers.len(),
                r@.len() == l,
                forall|a: int| 0 <= a < l ==> (#[trigger] r@[a])@ == self.keys_at(lv[a]),
            decreases layers.len() - l,
        {
            let layer = &layers[l];
            assert(layer@ == lv[l as int]);
            let mut keys: Vec<ProviderKey> = Vec::new();
            let mut p: usize = 0;
            while p < layer.len()
                invariant
                    layer@ == lv[l as int],
                    l < lv.len(),
                    forall|l: int, p: int| 0 <= l < lv.len() && 0 <= p < lv[l].len() ==> #[trigger] lv[l][p] < self.entries_spec().len(),
                    p <= layer.len(),
                    keys@ == self.keys_at(layer@.take(p as int)),
                decreases layer.len() - p,
            {
                assert(lv[l as int][p as int] < self.entries_spec().len());
                keys.push(self.entries[layer[p]].key);
                proof {
                    assert(keys@ =~= self.keys_at(layer@.take(p as int + 1)));
                }
                p = p + 1;
            }
            proof {
                assert(layer@.take(layer.len() as int) =~= layer@);
            }
            r.push(keys);
            l = l + 1;
        }
        proof {
            assert(r@.map_values(|l: Vec<ProviderKey>| l@) =~= lv.map_values(|l: Seq<usize>| self.keys_at(l)));
        }
        r
    }
}

} // verus!

verus! {

impl Container {
    /// The provider registered under `k` (meaningful when registered).
    pub open spec fn provider_of(&self, k: ProviderKey) -> DynProvider {
        self.entries_spec()[self.pos(k)].provider
    }

    /// What a parameter of a provider in `scope` needs built: nothing when a
    /// value satisfies it, else its resolved provider.
    pub open spec fn dep_succ(&self, scope: ScopeId) -> spec_fn((u64, &'static str)) -> Option<ProviderKey> {
        |d: (u64, &'static str)|
            if self.value_binding(d.0, scope) is Some {
                None
            } else {
                self.resolved_provider(d.0, scope)
            }
    }

    /// Whether a key is registered, as a predicate.
    pub open spec fn registered(&self) -> spec_fn(ProviderKey) -> bool {
        |m: ProviderKey| self.has_key(m)
    }

    /// Registered member keys of the group whose aggregate is `k`, if it is one.
    pub open spec fn member_succs(&self, k: ProviderKey) -> Seq<ProviderKey> {
        match first_match(self.group_regs_spec(), reg_for(k)) {
            Some(r) => self.members_of(r.0).filter(self.registered()),
            None => Seq::empty(),
        }
    }

    /// Providers that must be built before `k`.
    pub open spec fn succs(&self, k: ProviderKey) -> Seq<ProviderKey> {
        self.provider_of(k).deps_spec().filter_map(self.dep_succ(k.scope)) + self.member_succs(k)
    }

    /// A pending list: distinct registered keys, none of them in construction.
    pub open spec fn pending_ok(&self, p: Seq<ProviderKey>) -> bool {
        &&& forall|a: int, b: int| 0 <= a < b < p.len() ==> p[a] != p[b]
        &&& forall|t: int| 0 <= t < p.len() ==> self.has_key(#[trigger] p[t])
        &&& forall|t: int| 0 <= t < p.len() ==> !self.constructing_spec().contains(#[trigger] p[t])
    }

    /// Every element of `p` from `base` on is a seed or must be built before
    /// an earlier element.
    pub open spec fn justified(&self, p: Seq<ProviderKey>, base: int, seeds: Seq<ProviderKey>) -> bool {
        forall|t: int|
            base <= t < p.len() ==> seeds.contains(#[trigger] p[t]) || exists|s: int|
                0 <= s < t && self.succs(p[s]).contains(p[t])
    }

    /// Every element of `p` from `base` on has all it needs in `p`.
    pub open spec fn closed_from(&self, p: Seq<ProviderKey>, base: int) -> bool {
        forall|t: int, x: int|
            base <= t < p.len() && 0 <= x < self.succs(p[t]).len() ==> p.contains(#[trigger] self.succs(p[t])[x])
    }

    proof fn lemma_pending_bound(&self, p: Seq<ProviderKey>)
        requires
            self.pending_ok(p),
        ensures
            p.len() <= self.entries_spec().len(),
    {
        let ix = p.map_values(|k: ProviderKey| self.pos(k));
        assert forall|t: int| 0 <= t < ix.len() implies 0 <= #[trigger] ix[t] < self.entries_spec().len() by {
            assert(self.has_key(p[t]));
            crate::lookup::lemma_first_index(self.entries_spec(), entry_has_key(p[t]));
        }
        assert forall|a: int, b: int| 0 <= a < ix.len() && 0 <= b < ix.len() && a != b implies ix[a] != ix[b] by {
            crate::lookup::lemma_first_index(self.entries_spec(), entry_has_key(p[a]));
            crate::lookup::lemma_first_index(self.entries_spec(), entry_has_key(p[b]));
            let ia = self.pos(p[a]);
            let ib = self.pos(p[b]);
            assert(entry_has_key(p[a])(self.entries_spec()[ia]));
            assert(entry_has_key(p[b])(self.entries_spec()[ib]));
            assert(ix[a] == ia);
            assert(ix[b] == ib);
            if a < b {
                assert(p[a] != p[b]);
            } else {
                assert(p[b] != p[a]);
            }
        }
        crate::graph::lemma_distinct_int_bound(ix, self.entries_spec().len());
    }
}

} // verus!

verus! {

/// `a` starts with `b`.
pub open spec fn extends(a: Seq<ProviderKey>, b: Seq<ProviderKey>) -> bool {
    a.len() >= b.len() && a.subrange(0, b.len() as int) == b
}

/// Whether `keys` holds `k`.
pub fn keys_contain(keys: &Vec<ProviderKey>, k: ProviderKey) -> (b: bool)
    ensures
        b == keys@.contains(k),
{
    let mut i: usize = 0;
    while i < keys.len()
        invariant
            i <= keys.len(),
            forall|j: int| 0 <= j < i ==> #[trigger] keys@[j] != k,
        decreases keys.len() - i,
    {
        if keys[i] == k {
            assert(keys@[i as int] == k);
            return true;
        }
        i = i + 1;
    }
    false
}

proof fn lemma_extends_contains(a: Seq<ProviderKey>, b: Seq<ProviderKey>, x: ProviderKey)
    requires
        extends(a, b),
        b.contains(x),
    ensures
        a.contains(x),
{
    let j = choose|j: int| 0 <= j < b.len() && b[j] == x;
    assert(a.subrange(0, b.len() as int)[j] == a[j]);
}

impl Container {
    /// Parameter `j` of `key`'s provider needs nothing, or what it needs is in `p`.
    pub open spec fn dep_done(&self, p: Seq<ProviderKey>, key: ProviderKey, j: int) -> bool {
        match self.dep_succ(key.scope)(self.provider_of(key).deps_spec()[j]) {
            Some(v) => p.contains(v),
            None => true,
        }
    }

    /// `c` is a chain of needs starting at a seed: each key needs the next.
    pub open spec fn is_chain(&self, seeds: Seq<ProviderKey>, c: Seq<ProviderKey>) -> bool {
        &&& c.len() > 0
        &&& seeds.contains(c[0])
        &&& forall|i: int| 0 <= i < c.len() - 1 ==> #[trigger] self.succs(c[i]).contains(c[i + 1])
    }

    /// `k` is needed, directly or through other keys, by one of `seeds`.
    pub open spec fn reachable(&self, seeds: Seq<ProviderKey>, k: ProviderKey) -> bool {
        exists|c: Seq<ProviderKey>| #[trigger] self.is_chain(seeds, c) && c.last() == k
    }

    /// A parameter of a provider in `scope` that neither a value nor a
    /// provider can satisfy.
    pub open spec fn bad_dep(&self, scope: ScopeId, d: (u64, &'static str)) -> bool {
        self.value_binding(d.0, scope) is None && self.resolved_provider(d.0, scope) is None
    }

    /// Every parameter of the provider under `k` can be satisfied.
    pub open spec fn deps_ok(&self, k: ProviderKey) -> bool {
        forall|j: int|
            0 <= j < self.provider_of(k).deps_spec().len() ==> !self.bad_dep(
                k.scope,
                #[trigger] self.provider_of(k).deps_spec()[j],
            )
    }

    /// The provider under `k` is not in construction and all its parameters
    /// can be satisfied.
    pub open spec fn key_ok(&self, k: ProviderKey) -> bool {
        !self.constructing_spec().contains(k) && self.deps_ok(k)
    }

    /// A needed provider has a parameter named `name`, in module `module`,
    /// that nothing can satisfy.
    pub open spec fn missing_in(&self, seeds: Seq<ProviderKey>, name: &'static str, module: &'static str) -> bool {
        exists|k: ProviderKey, j: int|
            #![trigger self.reachable(seeds, k), self.provider_of(k).deps_spec()[j]]
            self.reachable(seeds, k) && 0 <= j < self.provider_of(k).deps_spec().len() && self.bad_dep(
                k.scope,
                self.provider_of(k).deps_spec()[j],
            ) && self.provider_of(k).deps_spec()[j].1 == name && module == self.scope_tree().name_str(k.scope.idx())
    }

    /// A needed provider named `text` is already in construction.
    pub open spec fn cycle_in(&self, seeds: Seq<ProviderKey>, text: Seq<char>) -> bool {
        exists|k: ProviderKey|
            #[trigger] self.reachable(seeds, k) && self.constructing_spec().contains(k) && text == self.key_name_spec(
                k,
            )@
    }

    /// Everything `roots`, requested from `from`, needs can be built now:
    /// every root can be satisfied, and every needed provider is out of
    /// construction with all its parameters satisfiable.
    pub open spec fn collectable(&self, roots: Seq<(u64, &'static str)>, from: ScopeId) -> bool {
        &&& forall|i: int| 0 <= i < roots.len() ==> !self.bad_dep(from, #[trigger] roots[i])
        &&& forall|k: ProviderKey| #[trigger] self.reachable(roots.filter_map(self.dep_succ(from)), k) ==> self.key_ok(k)
    }

    /// A chain extended by a key its last key needs is a chain.
    proof fn lemma_chain_push(&self, seeds: Seq<ProviderKey>, c: Seq<ProviderKey>, k: ProviderKey)
        requires
            self.is_chain(seeds, c),
            self.succs(c.last()).contains(k),
        ensures
            self.is_chain(seeds, c.push(k)),
            c.push(k).last() == k,
    {
        let d = c.push(k);
        assert(d[0] == c[0]);
        assert forall|i: int| 0 <= i < d.len() - 1 implies #[trigger] self.succs(d[i]).contains(d[i + 1]) by {
            if i < c.len() - 1 {
                assert(d[i] == c[i] && d[i + 1] == c[i + 1]);
            } else {
                assert(d[i] == c.last());
            }
        }
    }

    /// Every key of a chain lies in a pending list that holds the seeds and
    /// is closed under needs.
    proof fn lemma_chain_in_pending(&self, p: Seq<ProviderKey>, seeds: Seq<ProviderKey>, c: Seq<ProviderKey>, i: int)
        requires
            self.is_chain(seeds, c),
            0 <= i < c.len(),
            forall|x: ProviderKey| seeds.contains(x) ==> p.contains(x),
            self.closed_from(p, 0),
        ensures
            p.contains(c[i]),
        decreases i,
    {
        if i > 0 {
            self.lemma_chain_in_pending(p, seeds, c, i - 1);
            assert(self.succs(c[i - 1]).contains(c[(i - 1) + 1]));
            assert(self.succs(c[i - 1]).contains(c[i]));
            let t = choose|t: int| 0 <= t < p.len() && p[t] == c[i - 1];
            let sc = self.succs(c[i - 1]);
            let x = choose|x: int| 0 <= x < sc.len() && #[trigger] sc[x] == c[i];
            assert(p.contains(self.succs(p[t])[x]));
        }
    }

    /// The invariants of a pending list being grown from `base` for `key`,
    /// while the first `k` parameters (and `m` group members) are handled.
    pub open spec fn collect_inv(
        &self,
        p: Seq<ProviderKey>,
        start: Seq<ProviderKey>,
        key: ProviderKey,
        done_deps: int,
        done_members: int,
    ) -> bool {
        let base = start.len() as int;
        &&& self.pending_ok(p)
        &&& extends(p, start)
        &&& p.len() > base
        &&& p[base] == key
        &&& self.justified(p, base, seq![key])
        &&& self.closed_from(p, base + 1)
        &&& forall|j: int| 0 <= j < done_deps ==> #[trigger] self.dep_done(p, key, j)
        &&& forall|j: int| 0 <= j < done_members ==> #[trigger] p.contains(self.member_succs(key)[j])
    }

    proof fn lemma_collect_step(&self, p: Seq<ProviderKey>, q: Seq<ProviderKey>, start: Seq<ProviderKey>, key: ProviderKey, k2: ProviderKey, d: int, m: int)
        requires
            self.collect_inv(p, start, key, d, m),
            self.pending_ok(q),
            extends(q, p),
            q.contains(k2),
            self.justified(q, p.len() as int, seq![k2]),
            self.closed_from(q, p.len() as int),
            self.succs(key).contains(k2),
        ensures
            self.collect_inv(q, start, key, d, m),
    {
        let base = start.len() as int;
        assert(q.subrange(0, p.len() as int)[base] == q[base]);
        assert(extends(q, start)) by {
            assert(q.subrange(0, base) =~= p.subrange(0, base));
        }
        assert forall|t: int| base <= t < q.len() implies seq![key].contains(#[trigger] q[t]) || exists|s: int|
            0 <= s < t && self.succs(q[s]).contains(q[t]) by {
            if t < p.len() {
                assert(q[t] == p[t]) by {
                    assert(q.subrange(0, p.len() as int)[t] == q[t]);
                }
                if !seq![key].contains(p[t]) {
                    let s = choose|s: int| 0 <= s < t && self.succs(p[s]).contains(p[t]);
                    assert(q[s] == p[s]) by {
                        assert(q.subrange(0, p.len() as int)[s] == q[s]);
                    }
                }
            } else {
                if seq![k2].contains(q[t]) {
                    assert(q[t] == k2);
                    assert(q[base] == key);
                    assert(self.succs(q[base]).contains(q[t]));
                }
            }
        }
        assert forall|t: int, x: int|
            base + 1 <= t < q.len() && 0 <= x < self.succs(q[t]).len() implies q.contains(#[trigger] self.succs(q[t])[x]) by {
            if t < p.len() {
                assert(q[t] == p[t]) by {
                    assert(q.subrange(0, p.len() as int)[t] == q[t]);
                }
                assert(p.contains(self.succs(p[t])[x]));
                lemma_extends_contains(q, p, self.succs(p[t])[x]);
            }
        }
        assert forall|j: int| 0 <= j < d implies #[trigger] self.dep_done(q, key, j) by {
            assert(self.dep_done(p, key, j));
            if let Some(v) = self.dep_succ(key.scope)(self.provider_of(key).deps_spec()[j]) {
                lemma_extends_contains(q, p, v);
            }
        }
        assert forall|j: int| 0 <= j < m implies #[trigger] q.contains(self.member_succs(key)[j]) by {
            lemma_extends_contains(q, p, self.member_succs(key)[j]);
        }
    }
}

} // verus!

verus! {

impl Container {
    /// Whether `key` is being constructed.
    pub fn is_constructing(&self, key: ProviderKey) -> (b: bool)
        ensures
            b == self.constructing_spec().contains(key),
    {
        keys_contain(&self.constructing, key)
    }

    /// Add `key` and, depth first, everything it needs that no value already
    /// satisfies, to `pending`.
    fn collect_key(
        &self,
        key: ProviderKey,
        pending: &mut Vec<ProviderKey>,
        Ghost(seeds): Ghost<Seq<ProviderKey>>,
        Ghost(chain): Ghost<Seq<ProviderKey>>,
    ) -> (r: Result<(), Error>)
        requires
            self.wf(),
            self.has_key(key),
            self.pending_ok(old(pending)@),
            self.is_chain(seeds, chain),
            chain.last() == key,
        ensures
            r is Ok ==> forall|t: int|
                old(pending)@.len() <= t < final(pending)@.len() ==> self.deps_ok(#[trigger] final(pending)@[t]),
            r matches Err(Error::Cycle(text)) ==> self.cycle_in(seeds, text@),
            r matches Err(Error::MissingProvider { type_label, module }) ==> self.missing_in(seeds, type_label, module),
            r is Ok ==> {
                &&& self.pending_ok(final(pending)@)
                &&& extends(final(pending)@, old(pending)@)
                &&& final(pending)@.contains(key)
                &&& self.justified(final(pending)@, old(pending)@.len() as int, seq![key])
                &&& self.closed_from(final(pending)@, old(pending)@.len() as int)
            },
            r is Err ==> (r matches Err(Error::Cycle(_)) || r matches Err(Error::MissingProvider { .. })),
            r is Ok ==> self.dfs_key(old(pending)@, key) == Ok::<Seq<ProviderKey>, Stop>(final(pending)@),
            r matches Err(e) ==> (self.dfs_key(old(pending)@, key) matches Err(st) && self.reports(e, st)),
        decreases self.entries_spec().len() - old(pending)@.len(),
    {
        if self.is_constructing(key) {
            let text = String::from_str(self.key_name(key));
            proof {
                assert(self.reachable(seeds, key));
            }
            return Err(Error::Cycle(text));
        }
        if keys_contain(pending, key) {
            proof {
                assert(old(pending)@.subrange(0, old(pending)@.len() as int) =~= old(pending)@);
            }
            return Ok(());
        }
        let ghost start = old(pending)@;
        let ghost base = start.len() as int;
        proof {
            self.lemma_pending_bound(start);
        }
        pending.push(key);
        proof {
            assert(pending@.subrange(0, base) =~= start);
            assert(self.pending_ok(pending@)) by {
                assert forall|a: int, b: int| 0 <= a < b < pending@.len() implies pending@[a] != pending@[b] by {
                    if b == base {
                        assert(start[a] == pending@[a]);
                        assert(!start.contains(key));
                    }
                }
            }
            self.lemma_pending_bound(pending@);
            assert(pending@[base] == key);
            assert forall|a: int, b: int| 0 <= a < b < pending@.len() implies pending@[a] != pending@[b] by {
                if b == base {
                    assert(start[a] == pending@[a]);
                    assert(!start.contains(key));
                }
            }
            assert(self.justified(pending@, base, seq![key])) by {
                assert forall|t: int| base <= t < pending@.len() implies seq![key].contains(#[trigger] pending@[t])
                    || exists|s: int| 0 <= s < t && self.succs(pending@[s]).contains(pending@[t]) by {
                    assert(seq![key][0] == key);
                }
            }
            assert(self.collect_inv(pending@, start, key, 0, 0));
            assert(pending@ == start.push(key));
            assert(self.dfs_key(start, key) == self.dfs_items(pending@, key, 0));
        }
        let provider = self.provider_at(key).unwrap();
        let deps = provider.dep_types();
        let scope = key.scope;
        proof {
            crate::lookup::lemma_first_index(self.entries_spec(), entry_has_key(key));
            assert(self.scope_tree().has(self.entries_spec()[self.pos(key)].key.scope));
            assert(deps@ == self.provider_of(key).deps_spec());
        }
        let mut k: usize = 0;
        while k < deps.len()
            invariant
                self.wf(),
                self.has_key(key),
                scope == key.scope,
                self.scope_tree().has(scope),
                deps@ == self.provider_of(key).deps_spec(),
                k <= deps.len(),
                start == old(pending)@,
                base == start.len(),
                base < self.entries_spec().len(),
                self.collect_inv(pending@, start, key, k as int, 0),
                self.is_chain(seeds, chain),
                chain.last() == key,
                forall|j: int| 0 <= j < k ==> !self.bad_dep(scope, #[trigger] deps@[j]),
                forall|t: int| base < t < pending@.len() ==> self.deps_ok(#[trigger] pending@[t]),
                self.dfs_key(start, key) == self.dfs_items(pending@, key, k as int),
            decreases deps.len() - k,
        {
            let d = deps[k];
            proof {
                self.lemma_pending_bound(pending@);
                assert(k < self.item_count(key));
            }
            if !self.value_satisfies(d.0, scope) {
                match self.resolve_provider(d.0, scope) {
                    None => {
                        let module = self.scopes.name(scope);
                        proof {
                            assert(self.reachable(seeds, key));
                            assert(self.bad_dep(key.scope, self.provider_of(key).deps_spec()[k as int]));
                        }
                        return Err(Error::MissingProvider { type_label: d.1, module });
                    },
                    Some(k2) => {
                        let ghost before = pending@;
                        proof {
                            self.lemma_pending_bound(before);
                            assert(self.dep_succ(scope)(deps@[k as int]) == Some(k2));
                            lemma_filter_map_has(deps@, self.dep_succ(scope), k as int);
                            assert(self.succs(key) == deps@.filter_map(self.dep_succ(scope)) + self.member_succs(key));
                            let fm = deps@.filter_map(self.dep_succ(scope));
                            let i = choose|i: int| 0 <= i < fm.len() && fm[i] == k2;
                            assert(self.succs(key)[i] == k2);
                            assert(self.succs(chain.last()).contains(k2));
                            self.lemma_chain_push(seeds, chain, k2);
                        }
                        let sub = self.collect_key(k2, pending, Ghost(seeds), Ghost(chain.push(k2)));
                        if sub.is_err() {
                            return sub;
                        }
                        proof {
                            self.lemma_pending_bound(pending@);
                            assert(self.dfs_items(before, key, k as int) == self.dfs_items(pending@, key, k as int + 1));
                            self.lemma_collect_step(before, pending@, start, key, k2, k as int, 0);
                            assert(self.dep_done(pending@, key, k as int));
                            assert forall|t: int| base < t < pending@.len() implies self.deps_ok(#[trigger] pending@[t]) by {
                                if t < before.len() {
                                    assert(pending@.subrange(0, before.len() as int)[t] == pending@[t]);
                                }
                            }
                        }
                    },
                }
            }
            proof {
                assert(!self.bad_dep(scope, deps@[k as int]));
                assert(self.dep_done(pending@, key, k as int));
                assert forall|j: int| 0 <= j < k + 1 implies #[trigger] self.dep_done(pending@, key, j) by {
                    if j < k {
                        assert(self.collect_inv(pending@, start, key, k as int, 0));
                    }
                }
            }
            k = k + 1;
        }
        let element = self.aggregate_element(key);
        if let Some(e) = element {
            let members = self.group_member_keys(e);
            let ghost ms = self.member_succs(key);
            let mut t: usize = 0;
            let mut taken: usize = 0;
            proof {
                assert(members@ == self.members_of(e));
                assert(ms == members@.filter(self.registered()));
            }
            while t < members.len()
                invariant
                    self.wf(),
                    self.has_key(key),
                    members@ == self.members_of(e),
                    members@ == self.aggregate_members(key),
                    self.dfs_key(start, key) == self.dfs_items(pending@, key, deps@.len() + t),
                    scope == key.scope,
                    deps@ == self.provider_of(key).deps_spec(),
                    ms == self.member_succs(key),
                    ms == members@.filter(self.registered()),
                    t <= members.len(),
                    taken == members@.take(t as int).filter(self.registered()).len(),
                    start == old(pending)@,
                    base == start.len(),
                    base < self.entries_spec().len(),
                    self.collect_inv(pending@, start, key, deps@.len() as int, taken as int),
                    self.is_chain(seeds, chain),
                    chain.last() == key,
                    forall|j: int| 0 <= j < deps@.len() ==> !self.bad_dep(scope, #[trigger] deps@[j]),
                    forall|t2: int| base < t2 < pending@.len() ==> self.deps_ok(#[trigger] pending@[t2]),
                decreases members.len() - t,
            {
                let m = members[t];
                proof {
                    assert(members@.take(t as int + 1).drop_last() =~= members@.take(t as int));
                    assert(members@.take(t as int + 1).last() == m);
                    reveal(Seq::filter);
                    self.lemma_pending_bound(pending@);
                    assert(deps@.len() + t < self.item_count(key));
                }
                if self.contains_key(m) {
                    let ghost before = pending@;
                    proof {
                        self.lemma_pending_bound(before);
                        self.lemma_member_succ_at(members@, t as int, taken as int);
                        assert(ms[taken as int] == m);
                        assert(self.succs(key) == self.provider_of(key).deps_spec().filter_map(self.dep_succ(scope)) + ms);
                        let own = self.provider_of(key).deps_spec().filter_map(self.dep_succ(scope));
                        assert(self.succs(key)[own.len() + taken] == m);
                        assert(self.succs(chain.last()).contains(m));
                        self.lemma_chain_push(seeds, chain, m);
                    }
                    let sub = self.collect_key(m, pending, Ghost(seeds), Ghost(chain.push(m)));
                    if sub.is_err() {
                        return sub;
                    }
                    proof {
                        self.lemma_pending_bound(pending@);
                        assert(self.dfs_items(before, key, deps@.len() + t) == self.dfs_items(
                            pending@,
                            key,
                            deps@.len() + t + 1,
                        ));
                        self.lemma_collect_step(before, pending@, start, key, m, deps@.len() as int, taken as int);
                        assert forall|t2: int| base < t2 < pending@.len() implies self.deps_ok(#[trigger] pending@[t2]) by {
                            if t2 < before.len() {
                                assert(pending@.subrange(0, before.len() as int)[t2] == pending@[t2]);
                            }
                        }
                        assert forall|j: int| 0 <= j < taken + 1 implies #[trigger] pending@.contains(ms[j]) by {
                            if j == taken {
                                assert(ms[j] == m);
                            }
                        }
                    }
                    taken = taken + 1;
                }
                t = t + 1;
            }
            proof {
                assert(members@.take(members@.len() as int) =~= members@);
            }
        }
        proof {
            self.lemma_pending_bound(pending@);
            if element is None {
                assert(self.aggregate_members(key).len() == 0);
            }
            assert(self.dfs_items(pending@, key, self.item_count(key)) == Ok::<Seq<ProviderKey>, Stop>(pending@));
        }
        proof {
            let p = pending@;
            assert forall|x: int| 0 <= x < self.succs(p[base]).len() implies p.contains(#[trigger] self.succs(p[base])[x]) by {
                let own = deps@.filter_map(self.dep_succ(scope));
                let v = self.succs(key)[x];
                if x < own.len() {
                    assert(own[x] == v);
                    assert(own.contains(v));
                    lemma_filter_map_from(deps@, self.dep_succ(scope), v);
                    let j = choose|j: int| 0 <= j < deps@.len() && self.dep_succ(scope)(deps@[j]) == Some(v);
                    assert(self.dep_done(p, key, j));
                } else {
                    let ms = self.member_succs(key);
                    assert(v == ms[x - own.len()]);
                    if element is None {
                        assert(ms.len() == 0);
                    }
                }
            }
            assert(self.deps_ok(p[base])) by {
                assert(p[base] == key);
            }
            assert forall|t: int| base <= t < p.len() implies self.deps_ok(#[trigger] p[t]) by {
                if t == base {
                    assert(p[t] == key);
                }
            }
        }
        Ok(())
    }

    proof fn lemma_member_succ_at(&self, members: Seq<ProviderKey>, t: int, taken: int)
        requires
            0 <= t < members.len(),
            self.has_key(members[t]),
            taken == members.take(t).filter(self.registered()).len(),
        ensures
            members.filter(self.registered())[taken] == members[t],
            taken < members.filter(self.registered()).len(),
    {
        reveal(Seq::filter);
        let f = self.registered();
        assert(members.take(t + 1).drop_last() =~= members.take(t));
        assert(members.take(t + 1).last() == members[t]);
        assert(f(members[t]));
        assert(members.take(t + 1).filter(f) == members.take(t).filter(f).push(members[t]));
        self.lemma_filter_prefix(members, f, t + 1);
        assert(members.take(t + 1).filter(f)[taken] == members[t]);
        assert(members.filter(f)[taken] == members.take(t + 1).filter(f)[taken]);
    }

    proof fn lemma_filter_prefix(&self, s: Seq<ProviderKey>, f: spec_fn(ProviderKey) -> bool, n: int)
        requires
            0 <= n <= s.len(),
        ensures
            s.filter(f).len() >= s.take(n).filter(f).len(),
            forall|i: int| 0 <= i < s.take(n).filter(f).len() ==> s.filter(f)[i] == #[trigger] s.take(n).filter(f)[i],
        decreases s.len() - n,
    {
        reveal(Seq::filter);
        if n < s.len() {
            self.lemma_filter_prefix(s, f, n + 1);
            assert(s.take(n + 1).drop_last() =~= s.take(n));
            assert(s.take(n + 1).last() == s[n]);
            if f(s[n]) {
                assert(s.take(n + 1).filter(f) == s.take(n).filter(f).push(s[n]));
            } else {
                assert(s.take(n + 1).filter(f) == s.take(n).filter(f));
            }
            assert forall|i: int| 0 <= i < s.take(n).filter(f).len() implies s.filter(f)[i] == #[trigger] s.take(n).filter(
                f,
            )[i] by {
                assert(s.take(n + 1).filter(f)[i] == s.take(n).filter(f)[i]);
            }
        } else {
            assert(s.take(n) =~= s);
        }
    }
}

} // verus!

verus! {

impl Container {
    /// Parameter-like entry `d` requested from `from` needs nothing, or what
    /// it needs is in `p`.
    pub open spec fn root_done(&self, p: Seq<ProviderKey>, from: ScopeId, d: (u64, &'static str)) -> bool {
        match self.dep_succ(from)(d) {
            Some(v) => p.contains(v),
            None => true,
        }
    }

    proof fn lemma_justified_grow(&self, p: Seq<ProviderKey>, q: Seq<ProviderKey>, seeds: Seq<ProviderKey>, k: ProviderKey)
        requires
            self.justified(p, 0, seeds),
            extends(q, p),
            self.justified(q, p.len() as int, seq![k]),
            seeds.contains(k),
        ensures
            self.justified(q, 0, seeds),
    {
        assert forall|t: int| 0 <= t < q.len() implies seeds.contains(#[trigger] q[t]) || exists|s: int|
            0 <= s < t && self.succs(q[s]).contains(q[t]) by {
            if t < p.len() {
                assert(q[t] == p[t]) by {
                    assert(q.subrange(0, p.len() as int)[t] == q[t]);
                }
                if !seeds.contains(p[t]) {
                    let s = choose|s: int| 0 <= s < t && self.succs(p[s]).contains(p[t]);
                    assert(q[s] == p[s]) by {
                        assert(q.subrange(0, p.len() as int)[s] == q[s]);
                    }
                }
            } else {
                if seq![k].contains(q[t]) {
                    assert(seq![k][0] == k);
                    assert(q[t] == k);
                }
            }
        }
    }

    proof fn lemma_closed_grow(&self, p: Seq<ProviderKey>, q: Seq<ProviderKey>)
        requires
            self.closed_from(p, 0),
            extends(q, p),
            self.closed_from(q, p.len() as int),
        ensures
            self.closed_from(q, 0),
    {
        assert forall|t: int, x: int| 0 <= t < q.len() && 0 <= x < self.succs(q[t]).len() implies q.contains(
            #[trigger] self.succs(q[t])[x],
        ) by {
            if t < p.len() {
                assert(q[t] == p[t]) by {
                    assert(q.subrange(0, p.len() as int)[t] == q[t]);
                }
                assert(p.contains(self.succs(p[t])[x]));
                lemma_extends_contains(q, p, self.succs(p[t])[x]);
            }
        }
    }

    /// Everything that must be built so that every type in `roots` is
    /// available from scope `from`, in the depth-first order it was found
    /// ([`Container::dfs_roots`]): each element is the provider of a root or
    /// needed by an earlier element, and everything an element needs is in
    /// the list. Types that a value already satisfies are not followed. Fails
    /// at the first stop that order meets: [`Error::MissingProvider`] for a
    /// type nothing can build, or [`Error::Cycle`] for a provider already
    /// under construction.
    pub fn collect_pending(&self, roots: &[(u64, &'static str)], from: ScopeId) -> (r: Result<Vec<ProviderKey>, Error>)
        requires
            self.wf(),
            self.scope_tree().has(from),
        ensures
            r is Ok <==> self.collectable(roots@, from),
            r matches Ok(p) ==> {
                &&& self.pending_ok(p@)
                &&& self.closed_from(p@, 0)
                &&& self.justified(p@, 0, roots@.filter_map(self.dep_succ(from)))
                &&& forall|j: int| 0 <= j < roots@.len() ==> #[trigger] self.root_done(p@, from, roots@[j])
            },
            r is Err ==> (r matches Err(Error::Cycle(_)) || r matches Err(Error::MissingProvider { .. })),
            r matches Err(Error::Cycle(text)) ==> self.cycle_in(roots@.filter_map(self.dep_succ(from)), text@),
            r matches Err(Error::MissingProvider { type_label, module }) ==> (exists|i: int|
                0 <= i < roots@.len() && self.bad_dep(from, #[trigger] roots@[i]) && roots@[i].1 == type_label && module
                    == self.scope_tree().name_str(from.idx())) || self.missing_in(
                roots@.filter_map(self.dep_succ(from)),
                type_label,
                module,
            ),
            r matches Ok(p) ==> self.dfs_roots(Seq::empty(), roots@, from, 0) == Ok::<Seq<ProviderKey>, Stop>(p@),
            r matches Err(e) ==> (self.dfs_roots(Seq::empty(), roots@, from, 0) matches Err(st) && self.reports(e, st)),
    {
        let ghost seeds = roots@.filter_map(self.dep_succ(from));
        let mut pending: Vec<ProviderKey> = Vec::new();
        let mut j: usize = 0;
        while j < roots.len()
            invariant
                self.wf(),
                self.scope_tree().has(from),
                seeds == roots@.filter_map(self.dep_succ(from)),
                j <= roots.len(),
                self.pending_ok(pending@),
                self.closed_from(pending@, 0),
                self.justified(pending@, 0, seeds),
                forall|i: int| 0 <= i < j ==> #[trigger] self.root_done(pending@, from, roots@[i]),
                forall|i: int| 0 <= i < j ==> !self.bad_dep(from, #[trigger] roots@[i]),
                forall|t: int| 0 <= t < pending@.len() ==> self.deps_ok(#[trigger] pending@[t]),
                self.dfs_roots(Seq::empty(), roots@, from, 0) == self.dfs_roots(pending@, roots@, from, j as int),
            decreases roots.len() - j,
        {
            let (id, name) = roots[j];
            if !self.value_satisfies(id, from) {
                match self.resolve_provider(id, from) {
                    None => {
                        let module = self.scopes.name(from);
                        proof {
                            assert(self.bad_dep(from, roots@[j as int]));
                            assert(!self.collectable(roots@, from));
                        }
                        return Err(Error::MissingProvider { type_label: name, module });
                    },
                    Some(k) => {
                        let ghost before = pending@;
                        proof {
                            assert(self.dep_succ(from)(roots@[j as int]) == Some(k));
                            lemma_filter_map_has(roots@, self.dep_succ(from), j as int);
                        }
                        let ghost first = seq![k];
                        proof {
                            assert(first[0] == k);
                            assert(self.is_chain(seeds, first));
                        }
                        let sub = self.collect_key(k, &mut pending, Ghost(seeds), Ghost(first));
                        if sub.is_err() {
                            let e = sub.unwrap_err();
                            proof {
                                match &e {
                                    Error::Cycle(text) => {
                                        let x = choose|x: ProviderKey|
                                            #[trigger] self.reachable(seeds, x) && self.constructing_spec().contains(x)
                                                && text@ == self.key_name_spec(x)@;
                                        assert(!self.key_ok(x));
                                    },
                                    Error::MissingProvider { type_label, module } => {
                                        let (x, i) = choose|x: ProviderKey, i: int|
                                            #![trigger self.reachable(seeds, x), self.provider_of(x).deps_spec()[i]]
                                            self.reachable(seeds, x) && 0 <= i < self.provider_of(x).deps_spec().len()
                                                && self.bad_dep(x.scope, self.provider_of(x).deps_spec()[i])
                                                && self.provider_of(x).deps_spec()[i].1 == *type_label && *module
                                                == self.scope_tree().name_str(x.scope.idx());
                                        assert(!self.deps_ok(x));
                                    },
                                    _ => {},
                                }
                            }
                            return Err(e);
                        }
                        proof {
                            self.lemma_justified_grow(before, pending@, seeds, k);
                            self.lemma_closed_grow(before, pending@);
                            assert forall|i: int| 0 <= i < j implies #[trigger] self.root_done(pending@, from, roots@[i]) by {
                                assert(self.root_done(before, from, roots@[i]));
                                if let Some(v) = self.dep_succ(from)(roots@[i]) {
                                    lemma_extends_contains(pending@, before, v);
                                }
                            }
                            assert forall|t: int| 0 <= t < pending@.len() implies self.deps_ok(#[trigger] pending@[t]) by {
                                if t < before.len() {
                                    assert(pending@.subrange(0, before.len() as int)[t] == pending@[t]);
                                }
                            }
                        }
                    },
                }
            }
            proof {
                assert(self.root_done(pending@, from, roots@[j as int]));
                assert(!self.bad_dep(from, roots@[j as int]));
            }
            j = j + 1;
        }
        proof {
            let p = pending@;
            assert forall|x: ProviderKey| seeds.contains(x) implies p.contains(x) by {
                lemma_filter_map_from(roots@, self.dep_succ(from), x);
                let i = choose|i: int| 0 <= i < roots@.len() && self.dep_succ(from)(roots@[i]) == Some(x);
                assert(self.root_done(p, from, roots@[i]));
            }
            assert forall|x: ProviderKey| #[trigger] self.reachable(seeds, x) implies self.key_ok(x) by {
                let c = choose|c: Seq<ProviderKey>| #[trigger] self.is_chain(seeds, c) && c.last() == x;
                self.lemma_chain_in_pending(p, seeds, c, c.len() - 1);
                let t = choose|t: int| 0 <= t < p.len() && p[t] == x;
                assert(self.deps_ok(p[t]));
                assert(!self.constructing_spec().contains(p[t]));
            }
        }
        Ok(pending)
    }
}

} // verus!

verus! {

/// Keys in `p`, as a predicate.
pub open spec fn in_keys(p: Seq<ProviderKey>) -> spec_fn(ProviderKey) -> bool {
    |k: ProviderKey| p.contains(k)
}

/// Non-empty sequences, as a predicate.
pub open spec fn non_empty() -> spec_fn(Seq<ProviderKey>) -> bool {
    |w: Seq<ProviderKey>| w.len() > 0
}

/// The construction waves for `p`: each layer restricted to `p`, empty
/// layers dropped.
pub open spec fn wave_plan(layers: Seq<Seq<ProviderKey>>, p: Seq<ProviderKey>) -> Seq<Seq<ProviderKey>> {
    layers.map_values(|l: Seq<ProviderKey>| l.filter(in_keys(p))).filter(non_empty())
}

/// Keep the keys of `layer` that are in `p`.
fn restrict(layer: &Vec<ProviderKey>, p: &Vec<ProviderKey>) -> (r: Vec<ProviderKey>)
    ensures
        r@ == layer@.filter(in_keys(p@)),
{
    let mut r: Vec<ProviderKey> = Vec::new();
    let mut i: usize = 0;
    while i < layer.len()
        invariant
            i <= layer.len(),
            r@ == layer@.take(i as int).filter(in_keys(p@)),
        decreases layer.len() - i,
    {
        proof {
            reveal(Seq::filter);
            assert(layer@.take(i as int + 1).drop_last() =~= layer@.take(i as int));
            assert(layer@.take(i as int + 1).last() == layer@[i as int]);
        }
        if keys_contain(p, layer[i]) {
            r.push(layer[i]);
        }
        i = i + 1;
    }
    assert(layer@.take(layer.len() as int) =~= layer@);
    r
}

impl Container {
    /// `k` appears in some construction layer.
    pub open spec fn layered(&self, k: ProviderKey) -> bool {
        exists|l: int| 0 <= l < self.layers_spec().len() && #[trigger] self.layers_spec()[l].contains(k)
    }

    fn is_layered(&self, k: ProviderKey) -> (b: bool)
        ensures
            b == self.layered(k),
    {
        let mut l: usize = 0;
        while l < self.layers.len()
            invariant
                l <= self.layers.len(),
                forall|a: int| 0 <= a < l ==> !(#[trigger] self.layers_spec()[a]).contains(k),
            decreases self.layers.len() - l,
        {
            assert(self.layers_spec()[l as int] == self.layers@[l as int]@);
            if keys_contain(&self.layers[l], k) {
                return true;
            }
            l = l + 1;
        }
        false
    }

    /// Split `pending` into construction waves following the validated
    /// layers (see [`wave_plan`]). A pending key that no layer holds is
    /// reported as [`Error::Cycle`] naming the first such key.
    pub fn plan_waves(&self, pending: &Vec<ProviderKey>) -> (r: Result<Vec<Vec<ProviderKey>>, Error>)
        ensures
            (forall|t: int| 0 <= t < pending@.len() ==> self.layered(#[trigger] pending@[t])) <==> r is Ok,
            r matches Ok(w) ==> w@.map_values(|x: Vec<ProviderKey>| x@) == wave_plan(self.layers_spec(), pending@),
            r is Err ==> exists|t: int|
                0 <= t < pending@.len() && !self.layered(pending@[t]) && (forall|s: int|
                    0 <= s < t ==> self.layered(#[trigger] pending@[s])) && (r matches Err(Error::Cycle(text)) && text@
                    == self.key_name_spec(pending@[t])@),
    {
        let mut t: usize = 0;
        while t < pending.len()
            invariant
                t <= pending.len(),
                forall|s: int| 0 <= s < t ==> self.layered(#[trigger] pending@[s]),
            decreases pending.len() - t,
        {
            if !self.is_layered(pending[t]) {
                return Err(Error::Cycle(String::from_str(self.key_name(pending[t]))));
            }
            t = t + 1;
        }
        let ghost ls = self.layers_spec();
        let ghost mapped = ls.map_values(|l: Seq<ProviderKey>| l.filter(in_keys(pending@)));
        let mut waves: Vec<Vec<ProviderKey>> = Vec::new();
        let mut l: usize = 0;
        while l < self.layers.len()
            invariant
                ls == self.layers_spec(),
                ls.len() == self.layers@.len(),
                mapped == ls.map_values(|l: Seq<ProviderKey>| l.filter(in_keys(pending@))),
                l <= self.layers.len(),
                waves@.map_values(|x: Vec<ProviderKey>| x@) == mapped.take(l as int).filter(non_empty()),
            decreases self.layers.len() - l,
        {
            assert(ls[l as int] == self.layers@[l as int]@);
            let w = restrict(&self.layers[l], pending);
            proof {
                reveal(Seq::filter);
                assert(mapped.take(l as int + 1).drop_last() =~= mapped.take(l as int));
                assert(mapped.take(l as int + 1).last() == w@);
            }
            let ghost before = waves@;
            if w.len() > 0 {
                waves.push(w);
                proof {
                    assert(waves@.map_values(|x: Vec<ProviderKey>| x@) =~= before.map_values(|x: Vec<ProviderKey>| x@).push(
                        w@,
                    ));
                }
            }
            l = l + 1;
        }
        proof {
            assert(mapped.take(ls.len() as int) =~= mapped);
        }
        Ok(waves)
    }

    /// Mark the keys of a wave as under construction, in order. Fails with
    /// [`Error::Cycle`] naming the first key already under construction (or
    /// repeated in the wave), leaving the marks as they were.
    pub fn begin_wave(&mut self, wave: &Vec<ProviderKey>) -> (r: Result<(), Error>)
        requires
            old(self).wf(),
        ensures
            final(self).wf(),
            final(self).same_but_constructing(old(self)),
            r is Ok <==> forall|i: int| 0 <= i < wave@.len() ==> !(old(self).constructing_spec() + wave@.take(i)).contains(
                #[trigger] wave@[i],
            ),
            r is Ok ==> final(self).constructing_spec() == old(self).constructing_spec() + wave@,
            r is Err ==> exists|i: int|
                0 <= i < wave@.len() && (old(self).constructing_spec() + wave@.take(i)).contains(wave@[i]) && (forall|j: int|
                    0 <= j < i ==> !(old(self).constructing_spec() + wave@.take(j)).contains(#[trigger] wave@[j]))
                    && (r matches Err(Error::Cycle(text)) && text@ == old(self).key_name_spec(wave@[i])@),
            r is Err ==> final(self).constructing_spec() == old(self).constructing_spec(),
    {
        let marked = self.constructing.len();
        let mut i: usize = 0;
        while i < wave.len()
            invariant
                old(self).wf(),
                self.wf(),
                self.same_but_constructing(old(self)),
                i <= wave.len(),
                marked == old(self).constructing_spec().len(),
                self.constructing_spec() == old(self).constructing_spec() + wave@.take(i as int),
                forall|j: int| 0 <= j < i ==> !(old(self).constructing_spec() + wave@.take(j)).contains(#[trigger] wave@[j]),
            decreases wave.len() - i,
        {
            let k = wave[i];
            if keys_contain(&self.constructing, k) {
                let name = self.key_name(k);
                proof {
                    assert(self.key_name_spec(k) == old(self).key_name_spec(k));
                }
                self.constructing.truncate(marked);
                proof {
                    assert(self.constructing_spec() =~= old(self).constructing_spec());
                    self.lemma_wf_same_scopes(old(self));
                    Container::lemma_registry_frame(old(self), self);
                }
                return Err(Error::Cycle(String::from_str(name)));
            }
            self.constructing.push(k);
            proof {
                assert(wave@.take(i as int + 1) =~= wave@.take(i as int).push(k));
                assert(self.constructing_spec() =~= old(self).constructing_spec() + wave@.take(i as int + 1));
                self.lemma_wf_same_scopes(old(self));
            }
            i = i + 1;
        }
        proof {
            assert(wave@.take(wave@.len() as int) =~= wave@);
        }
        Ok(())
    }

    /// Everything but the construction marks is that of `o`.
    pub open spec fn same_but_constructing(&self, o: &Container) -> bool {
        &&& self.scope_tree() == o.scope_tree()
        &&& self.active_scope_spec() == o.active_scope_spec()
        &&& self.entries_spec() == o.entries_spec()
        &&& self.public_index_spec() == o.public_index_spec()
        &&& self.aliases_spec() == o.aliases_spec()
        &&& self.public_values() == o.public_values()
        &&& self.private_values() == o.private_values()
        &&& self.value_nodes_spec() == o.value_nodes_spec()
        &&& self.builtins_spec() == o.builtins_spec()
        &&& self.layers_spec() == o.layers_spec()
        &&& self.group_members_spec() == o.group_members_spec()
        &&& self.group_regs_spec() == o.group_regs_spec()
        &&& self.group_types_spec() == o.group_types_spec()
        &&& self.member_values_spec() == o.member_values_spec()
        &&& self.required_spec() == o.required_spec()
        &&& self.next_member_spec() == o.next_member_spec()
    }

    /// Clear the construction marks of a finished (or abandoned) wave.
    pub fn end_wave(&mut self, wave: &Vec<ProviderKey>)
        requires
            old(self).wf(),
        ensures
            final(self).wf(),
            final(self).same_but_constructing(old(self)),
            final(self).constructing_spec() == old(self).constructing_spec().filter(|k: ProviderKey| !wave@.contains(k)),
    {
        let mut kept: Vec<ProviderKey> = Vec::new();
        let mut i: usize = 0;
        let ghost f = |k: ProviderKey| !wave@.contains(k);
        while i < self.constructing.len()
            invariant
                i <= self.constructing.len(),
                f == (|k: ProviderKey| !wave@.contains(k)),
                kept@ == self.constructing_spec().take(i as int).filter(f),
            decreases self.constructing.len() - i,
        {
            proof {
                reveal(Seq::filter);
                assert(self.constructing_spec().take(i as int + 1).drop_last() =~= self.constructing_spec().take(i as int));
                assert(self.constructing_spec().take(i as int + 1).last() == self.constructing@[i as int]);
            }
            let k = self.constructing[i];
            if !keys_contain(wave, k) {
                kept.push(k);
            }
            i = i + 1;
        }
        proof {
            assert(self.constructing_spec().take(self.constructing_spec().len() as int) =~= self.constructing_spec());
        }
        self.constructing = kept;
        proof {
            self.lemma_wf_same_scopes(old(self));
            Container::lemma_registry_frame(old(self), self);
        }
    }
}

} // verus!

verus! {

impl Container {
    /// No two registered providers share a key.
    pub open spec fn keys_distinct(&self) -> bool {
        forall|i: int, j: int|
            0 <= i < j < self.entries_spec().len() ==> self.entries_spec()[i].key != self.entries_spec()[j].key
    }

    /// Every public singleton provider is reachable through the public
    /// index.
    pub open spec fn indexed(&self) -> bool {
        forall|i: int|
            0 <= i < self.entries_spec().len() && (#[trigger] self.entries_spec()[i]).key.ordinal == 0
                && !self.entries_spec()[i].key.private ==> any_of(
                self.public_index_spec(),
                index_is(self.entries_spec()[i].key.type_id),
            )
    }

    /// Every group member ordinal handed out so far is at most the counter.
    pub open spec fn ordinals_bounded(&self) -> bool {
        forall|i: int|
            0 <= i < self.entries_spec().len() ==> (#[trigger] self.entries_spec()[i]).key.ordinal
                <= self.next_member_spec()
    }

    /// Every private alias stands for a private provider of its own scope;
    /// the public index and the group registrations lead to public keys.
    pub open spec fn links_ok(&self) -> bool {
        &&& forall|i: int|
            0 <= i < self.aliases_spec().len() ==> (#[trigger] self.aliases_spec()[i]).2.private
                && self.aliases_spec()[i].2.scope == self.aliases_spec()[i].1
        &&& forall|i: int| 0 <= i < self.public_index_spec().len() ==> !(#[trigger] self.public_index_spec()[i]).1.private
        &&& forall|i: int| 0 <= i < self.group_regs_spec().len() ==> !(#[trigger] self.group_regs_spec()[i]).1.private
    }

    /// The provider table is consistent: keys are distinct, public
    /// singletons are indexed, member ordinals are below the counter, and
    /// the lookup tables lead to keys of the right visibility.
    pub open spec fn registry_ok(&self) -> bool {
        &&& self.keys_distinct()
        &&& self.indexed()
        &&& self.ordinals_bounded()
        &&& self.links_ok()
    }

    /// A public singleton of a type with no public index entry is not
    /// registered.
    proof fn lemma_public_absent(&self, id: u64, scope: ScopeId)
        requires
            self.registry_ok(),
            self.public_key(id) is None,
        ensures
            !self.has_key(ProviderKey { type_id: id, scope, private: false, ordinal: 0 }),
    {
        let k = ProviderKey { type_id: id, scope, private: false, ordinal: 0 };
        if self.has_key(k) {
            let i = choose|i: int| 0 <= i < self.entries_spec().len() && #[trigger] entry_has_key(k)(self.entries_spec()[i]);
            assert(self.entries_spec()[i].key == k);
            assert(any_of(self.public_index_spec(), index_is(id)));
        }
    }

    /// A key with an ordinal above the counter is not registered.
    proof fn lemma_fresh_ordinal(&self, k: ProviderKey)
        requires
            self.registry_ok(),
            k.ordinal > self.next_member_spec(),
        ensures
            !self.has_key(k),
    {
        if self.has_key(k) {
            let i = choose|i: int| 0 <= i < self.entries_spec().len() && #[trigger] entry_has_key(k)(self.entries_spec()[i]);
            assert(self.entries_spec()[i].key.ordinal <= self.next_member_spec());
        }
    }

    /// The table is untouched.
    proof fn lemma_registry_frame(o: &Container, n: &Container)
        requires
            o.registry_ok(),
            n.entries_spec() == o.entries_spec(),
            n.public_index_spec() == o.public_index_spec(),
            n.aliases_spec() == o.aliases_spec(),
            n.group_regs_spec() == o.group_regs_spec(),
            n.next_member_spec() == o.next_member_spec(),
        ensures
            n.registry_ok(),
    {
    }

    /// Registering one new key keeps the table consistent.
    proof fn lemma_registry_grows(o: &Container, n: &Container, e: ProviderEntry)
        requires
            o.registry_ok(),
            n.entries_spec() == o.entries_spec().push(e),
            !o.has_key(e.key),
            n.next_member_spec() >= o.next_member_spec(),
            e.key.ordinal <= n.next_member_spec(),
            o.public_index_spec().len() <= n.public_index_spec().len(),
            forall|i: int| 0 <= i < o.public_index_spec().len() ==> n.public_index_spec()[i] == o.public_index_spec()[i],
            e.key.ordinal == 0 && !e.key.private ==> any_of(n.public_index_spec(), index_is(e.key.type_id)),
            n.links_ok(),
        ensures
            n.registry_ok(),
    {
        let oe = o.entries_spec();
        let ne = n.entries_spec();
        assert forall|i: int, j: int| 0 <= i < j < ne.len() implies ne[i].key != ne[j].key by {
            if j == oe.len() {
                assert(ne[i] == oe[i]);
                if oe[i].key == e.key {
                    assert(entry_has_key(e.key)(oe[i]));
                }
            } else {
                assert(ne[i] == oe[i] && ne[j] == oe[j]);
            }
        }
        assert forall|i: int|
            0 <= i < ne.len() && (#[trigger] ne[i]).key.ordinal == 0 && !ne[i].key.private implies any_of(
            n.public_index_spec(),
            index_is(ne[i].key.type_id),
        ) by {
            if i < oe.len() {
                assert(ne[i] == oe[i]);
                let t = oe[i].key.type_id;
                assert(any_of(o.public_index_spec(), index_is(t)));
                let w = choose|w: int| 0 <= w < o.public_index_spec().len() && #[trigger] index_is(t)(o.public_index_spec()[w]);
                assert(index_is(t)(n.public_index_spec()[w]));
            }
        }
        assert forall|i: int| 0 <= i < ne.len() implies (#[trigger] ne[i]).key.ordinal <= n.next_member_spec() by {
            if i < oe.len() {
                assert(ne[i] == oe[i]);
            }
        }
    }

    /// The waves `ws` run dependencies first: whenever a key of wave `a`
    /// needs a key of wave `b`, wave `b` comes earlier.
    pub open spec fn deps_first(&self, ws: Seq<Seq<ProviderKey>>) -> bool {
        forall|a: int, b: int, k: ProviderKey, d: ProviderKey|
            #![trigger ws[a].contains(k), ws[b].contains(d), self.succs(k).contains(d)]
            0 <= a < ws.len() && 0 <= b < ws.len() && ws[a].contains(k) && ws[b].contains(d) && self.succs(
                k,
            ).contains(d) ==> b < a
    }

    /// With distinct keys, the position of the key at position `x` is `x`.
    proof fn lemma_pos_of_entry(&self, x: int)
        requires
            self.keys_distinct(),
            0 <= x < self.entries_spec().len(),
        ensures
            self.pos(self.entries_spec()[x].key) == x,
            self.has_key(self.entries_spec()[x].key),
    {
        let k = self.entries_spec()[x].key;
        assert(is_first(self.entries_spec(), entry_has_key(k), x));
        lemma_first_unique(self.entries_spec(), entry_has_key(k), x);
    }

    /// What a provider needs is an edge of the dependency graph at its
    /// position.
    proof fn lemma_succ_is_edge(&self, x: int, d: ProviderKey)
        requires
            self.keys_distinct(),
            0 <= x < self.entries_spec().len(),
            self.succs(self.entries_spec()[x].key).contains(d),
        ensures
            self.has_key(d),
            self.node_edges(x).contains(self.pos(d) as usize),
    {
        let k = self.entries_spec()[x].key;
        self.lemma_pos_of_entry(x);
        let e = self.entries_spec()[x];
        let deps = e.provider.deps_spec();
        let own = deps.filter_map(self.dep_edge(e.key.scope));
        let from_deps = deps.filter_map(self.dep_succ(k.scope));
        if from_deps.contains(d) {
            lemma_filter_map_from(deps, self.dep_succ(k.scope), d);
            let j = choose|j: int| 0 <= j < deps.len() && self.dep_succ(k.scope)(deps[j]) == Some(d);
            assert(self.dep_edge(e.key.scope)(deps[j]) == Some(self.pos(d) as usize));
            lemma_filter_map_has(deps, self.dep_edge(e.key.scope), j);
            assert(own.contains(self.pos(d) as usize));
            match first_match(self.group_regs_spec(), reg_for(e.key)) {
                Some(r) => {
                    let all = own + self.members_of(r.0).filter_map(self.member_edge());
                    let i = choose|i: int| 0 <= i < own.len() && own[i] == self.pos(d) as usize;
                    assert(all[i] == self.pos(d) as usize);
                },
                None => {},
            }
        } else {
            let all_succ = from_deps + self.member_succs(k);
            let i = choose|i: int| 0 <= i < all_succ.len() && all_succ[i] == d;
            assert(self.member_succs(k).contains(d)) by {
                assert(self.member_succs(k)[i - from_deps.len()] == d);
            }
            let r = first_match(self.group_regs_spec(), reg_for(k)).unwrap();
            let ms = self.members_of(r.0);
            reveal(Seq::filter);
            broadcast use vstd::seq_lib::group_filter_ensures;
            assert(ms.filter(self.registered()).contains(d));
            let fi = choose|fi: int| 0 <= fi < ms.filter(self.registered()).len() && ms.filter(self.registered())[fi] == d;
            assert(self.registered()(d));
            ms.lemma_filter_contains_rev(self.registered(), d);
            assert(ms.contains(d));
            let j = choose|j: int| 0 <= j < ms.len() && ms[j] == d;
            assert(self.member_edge()(ms[j]) == Some(self.pos(d) as usize));
            lemma_filter_map_has(ms, self.member_edge(), j);
            let tail = ms.filter_map(self.member_edge());
            let t = choose|t: int| 0 <= t < tail.len() && tail[t] == self.pos(d) as usize;
            let all = own + tail;
            assert(all[own.len() + t] == self.pos(d) as usize);
        }
    }

    /// A validated layering runs dependencies first.
    proof fn lemma_layers_deps_first(&self, layers: Seq<Seq<usize>>)
        requires
            self.keys_distinct(),
            crate::graph::is_layering(self.dep_graph(), layers),
        ensures
            self.deps_first(layers.map_values(|l: Seq<usize>| self.keys_at(l))),
    {
        let ws = layers.map_values(|l: Seq<usize>| self.keys_at(l));
        assert forall|a: int, b: int, k: ProviderKey, d: ProviderKey|
            #![trigger ws[a].contains(k), ws[b].contains(d), self.succs(k).contains(d)]
            0 <= a < ws.len() && 0 <= b < ws.len() && ws[a].contains(k) && ws[b].contains(d) && self.succs(
                k,
            ).contains(d) implies b < a by {
            let qa = choose|q: int| 0 <= q < ws[a].len() && ws[a][q] == k;
            let qb = choose|q: int| 0 <= q < ws[b].len() && ws[b][q] == d;
            let x = layers[a][qa];
            let y = layers[b][qb];
            assert(self.entries_spec()[x as int].key == k);
            assert(self.entries_spec()[y as int].key == d);
            assert(crate::graph::in_layer(layers, x as int, a));
            assert(crate::graph::in_layer(layers, y as int, b));
            self.lemma_pos_of_entry(y as int);
            self.lemma_succ_is_edge(x as int, d);
            let g = self.dep_graph();
            assert(g[x as int] == self.node_edges(x as int));
            let t = choose|t: int| 0 <= t < g[x as int].len() && g[x as int][t] == y;
            assert(crate::graph::in_layer(layers, g[x as int][t] as int, b));
        }
    }

    /// Dropping waves keeps dependencies first.
    proof fn lemma_filter_deps_first(&self, ws: Seq<Seq<ProviderKey>>, pred: spec_fn(Seq<ProviderKey>) -> bool)
        requires
            self.deps_first(ws),
        ensures
            self.deps_first(ws.filter(pred)),
        decreases ws.len(),
    {
        reveal(Seq::filter);
        if ws.len() > 0 {
            let front = ws.drop_last();
            assert(self.deps_first(front)) by {
                assert forall|a: int, b: int, k: ProviderKey, d: ProviderKey|
                    #![trigger front[a].contains(k), front[b].contains(d), self.succs(k).contains(d)]
                    0 <= a < front.len() && 0 <= b < front.len() && front[a].contains(k) && front[b].contains(d)
                        && self.succs(k).contains(d) implies b < a by {
                    assert(ws[a] == front[a] && ws[b] == front[b]);
                }
            }
            self.lemma_filter_deps_first(front, pred);
            let fp = front.filter(pred);
            broadcast use vstd::seq_lib::group_filter_ensures;
            if pred(ws.last()) {
                let fw = fp.push(ws.last());
                let n = fp.len() as int;
                assert forall|a: int, b: int, k: ProviderKey, d: ProviderKey|
                    #![trigger fw[a].contains(k), fw[b].contains(d), self.succs(k).contains(d)]
                    0 <= a < fw.len() && 0 <= b < fw.len() && fw[a].contains(k) && fw[b].contains(d)
                        && self.succs(k).contains(d) implies b < a by {
                    let last = ws.len() - 1;
                    if a < n && b < n {
                        assert(fw[a] == fp[a] && fw[b] == fp[b]);
                    } else if a == n && b == n {
                        assert(ws[last].contains(k) && ws[last].contains(d));
                    } else if a < n {
                        assert(fp[a] == fp[a]);
                        assert(fp.contains(fp[a]));
                        front.lemma_filter_contains_rev(pred, fp[a]);
                        assert(front.contains(fp[a]));
                        let i = choose|i: int| 0 <= i < front.len() && front[i] == fp[a];
                        assert(ws[i].contains(k) && ws[last].contains(d));
                    }
                }
                assert(ws.filter(pred) == fw);
            } else {
                assert(ws.filter(pred) == fp);
            }
        } else {
            assert(ws.filter(pred) == ws);
        }
    }

    /// Restricting every wave to a pending list keeps dependencies first.
    proof fn lemma_restrict_deps_first(&self, ws: Seq<Seq<ProviderKey>>, p: Seq<ProviderKey>)
        requires
            self.deps_first(ws),
        ensures
            self.deps_first(ws.map_values(|l: Seq<ProviderKey>| l.filter(in_keys(p)))),
    {
        let rs = ws.map_values(|l: Seq<ProviderKey>| l.filter(in_keys(p)));
        assert forall|a: int, b: int, k: ProviderKey, d: ProviderKey|
            #![trigger rs[a].contains(k), rs[b].contains(d), self.succs(k).contains(d)]
            0 <= a < rs.len() && 0 <= b < rs.len() && rs[a].contains(k) && rs[b].contains(d)
                && self.succs(k).contains(d) implies b < a by {
            reveal(Seq::filter);
            broadcast use vstd::seq_lib::group_filter_ensures;
            let qa = choose|q: int| 0 <= q < rs[a].len() && rs[a][q] == k;
            let qb = choose|q: int| 0 <= q < rs[b].len() && rs[b][q] == d;
            assert(rs[a] == ws[a].filter(in_keys(p)));
            assert(rs[b] == ws[b].filter(in_keys(p)));
            ws[a].lemma_filter_contains_rev(in_keys(p), k);
            ws[b].lemma_filter_contains_rev(in_keys(p), d);
        }
    }
}

/// Construction runs dependencies first: once validation has frozen a
/// layering of the dependency graph (and every provider key is registered
/// once), the waves planned for any pending list put each provider a key
/// needs in an earlier wave than the key.
pub proof fn law_waves_run_dependencies_first(c: &Container, layers: Seq<Seq<usize>>, p: Seq<ProviderKey>)
    requires
        c.keys_distinct(),
        crate::graph::is_layering(c.dep_graph(), layers),
        c.layers_spec() == layers.map_values(|l: Seq<usize>| c.keys_at(l)),
    ensures
        c.deps_first(wave_plan(c.layers_spec(), p)),
{
    c.lemma_layers_deps_first(layers);
    c.lemma_restrict_deps_first(c.layers_spec(), p);
    c.lemma_filter_deps_first(c.layers_spec().map_values(|l: Seq<ProviderKey>| l.filter(in_keys(p))), non_empty());
}

} // verus!

verus! {

/// Module privacy: a private provider registered in module `s` is what a
/// request from `s`, or from any module nested in `s`, resolves to, unless
/// a module nearer to the request shadows it with a private provider or alias
/// of its own; a request from a module outside `s` never resolves to it.
pub proof fn law_private_provider_scoping(c: &Container, id: u64, s: ScopeId, from: ScopeId)
    requires
        c.wf(),
        c.scope_tree().has(from),
        c.has_private_provider(id, s),
    ensures
        forall|t: int|
            0 <= t < c.scope_tree().chain(from.idx()).len() && #[trigger] c.scope_tree().chain(from.idx())[t] == s
                && (forall|u: int| 0 <= u < t ==> !c.provider_stop(id)(c.scope_tree().chain(from.idx())[u])) ==> c.resolved_provider(
                id,
                from,
            ) == Some(ProviderKey { type_id: id, scope: s, private: true, ordinal: 0 }),
        !c.scope_tree().chain(from.idx()).contains(s) ==> c.resolved_provider(id, from) != Some(
            ProviderKey { type_id: id, scope: s, private: true, ordinal: 0 },
        ),
{
    let chain = c.scope_tree().chain(from.idx());
    let p = c.provider_stop(id);
    let key = ProviderKey { type_id: id, scope: s, private: true, ordinal: 0 };
    assert forall|t: int|
        0 <= t < chain.len() && #[trigger] chain[t] == s && (forall|u: int| 0 <= u < t ==> !p(chain[u])) implies c.resolved_provider(
        id,
        from,
    ) == Some(key) by {
        assert(p(chain[t]));
        assert(is_first(chain, p, t));
        lemma_first_unique(chain, p, t);
    }
    if !chain.contains(s) && any_of(chain, p) {
        crate::lookup::lemma_first_index(chain, p);
        let f = first_index(chain, p);
        let sc = chain[f];
        assert(sc != s);
        if !c.has_private_provider(id, sc) {
            let al = c.aliases_spec();
            crate::lookup::lemma_first_index(al, alias_is(id, sc));
            let g = first_index(al, alias_is(id, sc));
            assert(al[g].2.scope == al[g].1);
        }
    }
    if !any_of(chain, p) && c.group_element(id) is Some {
        let e = c.group_element(id).unwrap();
        let rs = c.group_regs_spec();
        if any_of(rs, index_is(e)) {
            crate::lookup::lemma_first_index(rs, index_is(e));
            assert(!rs[first_index(rs, index_is(e))].1.private);
        }
    }
    if !any_of(chain, p) && c.group_element(id) is None {
        let ix = c.public_index_spec();
        if any_of(ix, index_is(id)) {
            crate::lookup::lemma_first_index(ix, index_is(id));
            assert(!ix[first_index(ix, index_is(id))].1.private);
        }
    }
}

/// Public registrations are visible everywhere: from any two modules whose
/// chains up to the root hold no private provider or alias of `id`, a
/// request for `id` resolves to the same provider.
pub proof fn law_public_resolution_is_global(c: &Container, id: u64, a: ScopeId, b: ScopeId)
    requires
        c.wf(),
        c.scope_tree().has(a),
        c.scope_tree().has(b),
        forall|t: int|
            0 <= t < c.scope_tree().chain(a.idx()).len() ==> !c.provider_stop(id)(#[trigger] c.scope_tree().chain(a.idx())[t]),
        forall|t: int|
            0 <= t < c.scope_tree().chain(b.idx()).len() ==> !c.provider_stop(id)(#[trigger] c.scope_tree().chain(b.idx())[t]),
    ensures
        c.resolved_provider(id, a) == c.resolved_provider(id, b),
{
    assert(!any_of(c.scope_tree().chain(a.idx()), c.provider_stop(id)));
    assert(!any_of(c.scope_tree().chain(b.idx()), c.provider_stop(id)));
}

} // verus!

verus! {

impl Container {
    proof fn lemma_justified_reachable(&self, p: Seq<ProviderKey>, seeds: Seq<ProviderKey>, t: int)
        requires
            self.justified(p, 0, seeds),
            0 <= t < p.len(),
        ensures
            self.reachable(seeds, p[t]),
        decreases t,
    {
        if seeds.contains(p[t]) {
            let c = seq![p[t]];
            assert(self.is_chain(seeds, c));
            assert(c.last() == p[t]);
        } else {
            let s = choose|s: int| 0 <= s < t && self.succs(p[s]).contains(p[t]);
            self.lemma_justified_reachable(p, seeds, s);
            let c = choose|c: Seq<ProviderKey>| #[trigger] self.is_chain(seeds, c) && c.last() == p[s];
            self.lemma_chain_push(seeds, c, p[t]);
            assert(self.is_chain(seeds, c.push(p[t])));
        }
    }
}

/// Only what is requested is built: every key of a pending list collected
/// for some seeds (each key a seed or needed by an earlier one, as
/// [`Container::collect_pending`] returns it) is needed, directly or through
/// other keys, by one of the seeds.
pub proof fn law_only_needed_keys_are_pending(c: &Container, p: Seq<ProviderKey>, seeds: Seq<ProviderKey>)
    requires
        c.justified(p, 0, seeds),
    ensures
        forall|t: int| 0 <= t < p.len() ==> c.reachable(seeds, #[trigger] p[t]),
{
    assert forall|t: int| 0 <= t < p.len() implies c.reachable(seeds, #[trigger] p[t]) by {
        c.lemma_justified_reachable(p, seeds, t);
    }
}

} // verus!

verus! {

/// Each type is built at most once: once the value of `id` is held (as
/// [`Container::store_constructed`] records it), a request for `id` from a
/// module that sees that value is served by it and schedules no provider.
/// A public value is seen from every module without a private binding of
/// `id` on its chain; a private value held in `s` from the modules whose
/// chain reaches `s` with no nearer private binding of `id`.
pub proof fn law_held_value_is_not_rebuilt(c: &Container, id: u64, name: &'static str, s: ScopeId, private: bool, from: ScopeId)
    requires
        c.wf(),
        c.scope_tree().has(from),
        !private ==> c.has_public_value(id) && forall|t: int|
            0 <= t < c.scope_tree().chain(from.idx()).len() ==> !c.value_stop(id)(
                #[trigger] c.scope_tree().chain(from.idx())[t],
            ),
        private ==> c.has_private_value(id, s) && exists|t: int|
            0 <= t < c.scope_tree().chain(from.idx()).len() && #[trigger] c.scope_tree().chain(from.idx())[t] == s
                && forall|u: int| 0 <= u < t ==> !c.value_stop(id)(c.scope_tree().chain(from.idx())[u]),
    ensures
        c.value_binding(id, from) is Some,
        c.dep_succ(from)((id, name)) is None,
{
    let chain = c.scope_tree().chain(from.idx());
    let p = c.value_stop(id);
    if private {
        let t = choose|t: int|
            0 <= t < chain.len() && #[trigger] chain[t] == s && forall|u: int| 0 <= u < t ==> !p(chain[u]);
        assert(p(chain[t]));
        assert(is_first(chain, p, t));
        lemma_first_unique(chain, p, t);
    } else {
        assert(!any_of(chain, p));
    }
}

} // verus!

verus! {

/// Whether a key equals `key`, as a predicate.
pub open spec fn same_key(key: ProviderKey) -> spec_fn(ProviderKey) -> bool {
    |k: ProviderKey| k == key
}

/// The member values left after consuming, in order, one value for each key
/// of `ms` that is still held.
pub open spec fn drained(mv: Seq<ProviderKey>, ms: Seq<ProviderKey>) -> Seq<ProviderKey>
    decreases ms.len(),
{
    if ms.len() == 0 {
        mv
    } else {
        let m = drained(mv, ms.drop_last());
        if m.contains(ms.last()) {
            m.remove(first_index(m, same_key(ms.last())))
        } else {
            m
        }
    }
}

/// Consuming the keys of `ms` in order finds a value for each of them.
pub open spec fn all_held(mv: Seq<ProviderKey>, ms: Seq<ProviderKey>) -> bool
    decreases ms.len(),
{
    ms.len() == 0 || (all_held(mv, ms.drop_last()) && drained(mv, ms.drop_last()).contains(ms.last()))
}

impl Container {
    /// The value of `k` is held: a group member's among the member values, a
    /// private singleton's in its scope, a public one's among the public
    /// values.
    pub open spec fn holds_value_of(&self, k: ProviderKey) -> bool {
        if k.ordinal != 0 {
            self.member_values_spec().contains(k)
        } else if k.private {
            self.private_values().contains((k.type_id, k.scope))
        } else {
            self.public_values().contains(k.type_id)
        }
    }

    /// Consume the constructed values of the members of the group of
    /// `element`, in registration order, returning their keys. Fails with
    /// [`Error::NotConstructed`] naming the group (`group_name`) at the first
    /// member without a value; the members before it stay consumed.
    pub fn collect_group_members(&mut self, element: u64, group_name: &'static str) -> (r: Result<Vec<ProviderKey>, Error>)
        requires
            old(self).wf(),
        ensures
            final(self).wf(),
            final(self).same_registry(old(self)),
            final(self).public_values() == old(self).public_values(),
            final(self).private_values() == old(self).private_values(),
            final(self).value_nodes_spec() == old(self).value_nodes_spec(),
            r is Ok <==> all_held(old(self).member_values_spec(), old(self).members_of(element)),
            r matches Ok(keys) ==> keys@ == old(self).members_of(element) && final(self).member_values_spec() == drained(
                old(self).member_values_spec(),
                old(self).members_of(element),
            ),
            r is Err ==> r == Err::<Vec<ProviderKey>, Error>(Error::NotConstructed(group_name)) && exists|t: int|
                0 <= t < old(self).members_of(element).len() && all_held(
                    old(self).member_values_spec(),
                    old(self).members_of(element).take(t),
                ) && !drained(old(self).member_values_spec(), old(self).members_of(element).take(t)).contains(
                    old(self).members_of(element)[t],
                ) && final(self).member_values_spec() == drained(
                    old(self).member_values_spec(),
                    old(self).members_of(element).take(t),
                ),
    {
        let keys = self.group_member_keys(element);
        let ghost ms = keys@;
        let ghost mv0 = old(self).member_values_spec();
        let mut j: usize = 0;
        proof {
            assert(ms.take(0) =~= Seq::<ProviderKey>::empty());
        }
        while j < keys.len()
            invariant
                old(self).wf(),
                self.wf(),
                ms == keys@,
                ms == old(self).members_of(element),
                mv0 == old(self).member_values_spec(),
                j <= keys.len(),
                self.same_registry(old(self)),
                self.public_values() == old(self).public_values(),
                self.private_values() == old(self).private_values(),
                self.value_nodes_spec() == old(self).value_nodes_spec(),
                all_held(mv0, ms.take(j as int)),
                self.member_values_spec() == drained(mv0, ms.take(j as int)),
            decreases keys.len() - j,
        {
            let key = keys[j];
            let ghost before = self.member_values_spec();
            proof {
                assert(ms.take(j as int + 1).drop_last() =~= ms.take(j as int));
                assert(ms.take(j as int + 1).last() == key);
            }
            let found = self.take_group_member(key);
            if !found {
                proof {
                    if j as int + 1 == ms.len() {
                        assert(ms.take(j as int + 1) =~= ms);
                    }
                    self.lemma_not_all_held_from(mv0, ms, j as int);
                    assert(self.member_values_spec() == drained(mv0, ms.take(j as int)));
                    assert(!drained(mv0, ms.take(j as int)).contains(ms[j as int]));
                }
                return Err(Error::NotConstructed(group_name));
            }
            proof {
                assert(all_held(mv0, ms.take(j as int + 1)));
                assert(self.member_values_spec() == drained(mv0, ms.take(j as int + 1)));
            }
            j = j + 1;
        }
        proof {
            assert(ms.take(ms.len() as int) =~= ms);
        }
        Ok(keys)
    }

    /// Once a key of `ms` is missing, consuming all of `ms` fails.
    proof fn lemma_not_all_held_from(&self, mv: Seq<ProviderKey>, ms: Seq<ProviderKey>, t: int)
        requires
            0 <= t < ms.len(),
            !drained(mv, ms.take(t)).contains(ms[t]),
        ensures
            !all_held(mv, ms),
        decreases ms.len() - t,
    {
        let n = ms.len() as int;
        if t == n - 1 {
            assert(ms.drop_last() =~= ms.take(t));
        } else {
            assert(ms.drop_last().take(t) =~= ms.take(t));
            assert(ms.drop_last()[t] == ms[t]);
            self.lemma_not_all_held_from(mv, ms.drop_last(), t);
        }
    }
}

} // verus!

verus! {

impl Container {
    /// A wave whose constructors all succeeded: record the value of each key
    /// (`arcs[i]` is the `Arc` alias of `wave[i]`), then clear the wave's
    /// construction marks.
    pub fn finish_wave(&mut self, wave: &Vec<ProviderKey>, arcs: &Vec<u64>)
        requires
            old(self).wf(),
            arcs.len() == wave.len(),
        ensures
            final(self).wf(),
            final(self).scope_tree() == old(self).scope_tree(),
            final(self).entries_spec() == old(self).entries_spec(),
            final(self).layers_spec() == old(self).layers_spec(),
            final(self).group_members_spec() == old(self).group_members_spec(),
            final(self).value_nodes_spec() == old(self).value_nodes_spec(),
            final(self).active_scope_spec() == old(self).active_scope_spec(),
            final(self).public_index_spec() == old(self).public_index_spec(),
            final(self).aliases_spec() == old(self).aliases_spec(),
            final(self).group_regs_spec() == old(self).group_regs_spec(),
            final(self).group_types_spec() == old(self).group_types_spec(),
            final(self).required_spec() == old(self).required_spec(),
            final(self).next_member_spec() == old(self).next_member_spec(),
            final(self).builtins_spec() == old(self).builtins_spec(),
            final(self).constructing_spec() == old(self).constructing_spec().filter(|k: ProviderKey| !wave@.contains(k)),
            final(self).public_values() == old(self).public_values() + public_records(wave@, arcs@),
            final(self).private_values() == old(self).private_values() + private_records(wave@, arcs@),
            final(self).member_values_spec() == old(self).member_values_spec() + member_records(wave@),
            forall|i: int| 0 <= i < wave@.len() ==> final(self).holds_value_of(#[trigger] wave@[i]),
            forall|k: ProviderKey| old(self).holds_value_of(k) ==> #[trigger] final(self).holds_value_of(k),
    {
        let mut i: usize = 0;
        proof {
            assert(old(self).public_values() + public_records(wave@.take(0), arcs@.take(0)) =~= old(self).public_values());
            assert(old(self).private_values() + private_records(wave@.take(0), arcs@.take(0)) =~= old(self).private_values());
            assert(old(self).member_values_spec() + member_records(wave@.take(0)) =~= old(self).member_values_spec());
        }
        while i < wave.len()
            invariant
                old(self).wf(),
                self.wf(),
                arcs.len() == wave.len(),
                i <= wave.len(),
                self.public_values() == old(self).public_values() + public_records(wave@.take(i as int), arcs@.take(i as int)),
                self.private_values() == old(self).private_values() + private_records(wave@.take(i as int), arcs@.take(i as int)),
                self.member_values_spec() == old(self).member_values_spec() + member_records(wave@.take(i as int)),
                self.same_registry(old(self)),
                self.value_nodes_spec() == old(self).value_nodes_spec(),
                self.builtins_spec() == old(self).builtins_spec(),
                forall|j: int| 0 <= j < i ==> self.holds_value_of(#[trigger] wave@[j]),
                forall|k: ProviderKey| old(self).holds_value_of(k) ==> #[trigger] self.holds_value_of(k),
            decreases wave.len() - i,
        {
            let key = wave[i];
            let ghost before = *self;
            proof {
                let w1 = wave@.take(i as int + 1);
                let a1 = arcs@.take(i as int + 1);
                assert(w1.drop_last() =~= wave@.take(i as int));
                assert(a1.drop_last() =~= arcs@.take(i as int));
                assert(w1.last() == key);
                assert(a1.last() == arcs@[i as int]);
            }
            if key.is_group_member() {
                self.store_group_member(key);
                proof {
                    assert(self.member_values_spec().last() == key);
                    assert forall|k: ProviderKey| before.holds_value_of(k) implies #[trigger] self.holds_value_of(k) by {
                        if k.ordinal != 0 {
                            let t = choose|t: int| 0 <= t < before.member_values_spec().len() && before.member_values_spec()[t] == k;
                            assert(self.member_values_spec()[t] == k);
                        }
                    }
                }
            } else {
                self.store_constructed(key, arcs[i]);
                proof {
                    let n = before.private_values().len() as int;
                    let m = before.public_values().len() as int;
                    if key.private {
                        assert(self.private_values()[n + 1] == (key.type_id, key.scope));
                    } else {
                        assert(self.public_values()[m + 1] == key.type_id);
                    }
                    assert forall|k: ProviderKey| before.holds_value_of(k) implies #[trigger] self.holds_value_of(k) by {
                        if k.ordinal == 0 && k.private {
                            let t = choose|t: int| 0 <= t < before.private_values().len() && before.private_values()[t] == (k.type_id, k.scope);
                            assert(self.private_values()[t] == (k.type_id, k.scope));
                        } else if k.ordinal == 0 {
                            let t = choose|t: int| 0 <= t < before.public_values().len() && before.public_values()[t] == k.type_id;
                            assert(self.public_values()[t] == k.type_id);
                        }
                    }
                }
            }
            i = i + 1;
        }
        proof {
            assert(wave@.take(wave@.len() as int) =~= wave@);
            assert(arcs@.take(arcs@.len() as int) =~= arcs@);
        }
        let ghost mid = *self;
        self.end_wave(wave);
        proof {
            assert forall|k: ProviderKey| mid.holds_value_of(k) implies #[trigger] self.holds_value_of(k) by {
                assert(self.member_values_spec() == mid.member_values_spec());
                assert(self.public_values() == mid.public_values());
                assert(self.private_values() == mid.private_values());
            }
            assert forall|i: int| 0 <= i < wave@.len() implies self.holds_value_of(#[trigger] wave@[i]) by {
                assert(mid.holds_value_of(wave@[i]));
            }
        }
    }
}

/// A wave that began without error and finished leaves the construction
/// marks as they were before it: marking `wave` on top of `before` (which
/// [`Container::begin_wave`] does exactly when no key of the wave is already
/// marked or repeated) and then clearing the wave's keys
/// ([`Container::end_wave`], [`Container::finish_wave`]) gives back `before`.
pub proof fn law_finished_wave_restores_marks(before: Seq<ProviderKey>, wave: Seq<ProviderKey>)
    requires
        forall|i: int| 0 <= i < wave.len() ==> !(before + wave.take(i)).contains(#[trigger] wave[i]),
    ensures
        (before + wave).filter(|k: ProviderKey| !wave.contains(k)) == before,
{
    let f = |k: ProviderKey| !wave.contains(k);
    assert forall|j: int| 0 <= j < before.len() implies f(#[trigger] before[j]) by {
        if wave.contains(before[j]) {
            let i = choose|i: int| 0 <= i < wave.len() && wave[i] == before[j];
            assert((before + wave.take(i))[j] == before[j]);
        }
    }
    assert(before.filter(f) == before) by {
        lemma_filter_all(before, f);
    }
    assert(wave.filter(f) =~= Seq::<ProviderKey>::empty()) by {
        lemma_filter_none(wave, f);
    }
    Seq::filter_distributes_over_add(before, wave, f);
    assert(before + Seq::<ProviderKey>::empty() =~= before);
}

proof fn lemma_filter_all(s: Seq<ProviderKey>, f: spec_fn(ProviderKey) -> bool)
    requires
        forall|j: int| 0 <= j < s.len() ==> f(#[trigger] s[j]),
    ensures
        s.filter(f) == s,
    decreases s.len(),
{
    reveal(Seq::filter);
    if s.len() > 0 {
        lemma_filter_all(s.drop_last(), f);
        assert(s.drop_last().push(s.last()) =~= s);
    }
}

proof fn lemma_filter_none(s: Seq<ProviderKey>, f: spec_fn(ProviderKey) -> bool)
    requires
        forall|j: int| 0 <= j < s.len() ==> !f(#[trigger] s[j]),
    ensures
        s.filter(f) =~= Seq::<ProviderKey>::empty(),
    decreases s.len(),
{
    reveal(Seq::filter);
    if s.len() > 0 {
        lemma_filter_none(s.drop_last(), f);
    }
}

} // verus!

verus! {

/// What stops a depth-first collection: a type that nothing can build, named
/// as requested, and the module it was requested from; or a provider already
/// under construction.
pub enum Stop {
    Missing(&'static str, ScopeId),
    Cycle(ProviderKey),
}

impl Container {
    /// The member keys of the group whose aggregate is `k` (none if `k` is no
    /// aggregate).
    pub open spec fn aggregate_members(&self, k: ProviderKey) -> Seq<ProviderKey> {
        match first_match(self.group_regs_spec(), reg_for(k)) {
            Some(r) => self.members_of(r.0),
            None => Seq::empty(),
        }
    }

    /// How many things `k` asks for: its parameters, then the members of its
    /// group if it is an aggregate.
    pub open spec fn item_count(&self, k: ProviderKey) -> int {
        (self.provider_of(k).deps_spec().len() + self.aggregate_members(k).len()) as int
    }

    /// What item `j` of `k` asks to build: nothing (`None`), a provider, or a
    /// stop for a parameter nothing can satisfy.
    pub open spec fn item_target(&self, k: ProviderKey, j: int) -> Option<Result<ProviderKey, Stop>> {
        let deps = self.provider_of(k).deps_spec();
        if j < deps.len() {
            let d = deps[j];
            if self.value_binding(d.0, k.scope) is Some {
                None
            } else {
                match self.resolved_provider(d.0, k.scope) {
                    Some(k2) => Some(Ok(k2)),
                    None => Some(Err(Stop::Missing(d.1, k.scope))),
                }
            }
        } else {
            let m = self.aggregate_members(k)[j - deps.len()];
            if self.has_key(m) {
                Some(Ok(m))
            } else {
                None
            }
        }
    }

    /// Depth-first collection from `key` onto the list `p`: stop at a key under
    /// construction, skip a key already listed, else list `key` and collect
    /// what each of its items asks for, in order.
    pub open spec fn dfs_key(&self, p: Seq<ProviderKey>, key: ProviderKey) -> Result<Seq<ProviderKey>, Stop>
        decreases self.entries_spec().len() - p.len(), 0int, 0int,
    {
        if self.constructing_spec().contains(key) {
            Err(Stop::Cycle(key))
        } else if p.contains(key) || p.len() >= self.entries_spec().len() {
            Ok(p)
        } else {
            self.dfs_items(p.push(key), key, 0)
        }
    }

    /// Depth-first collection of the items of `key` from item `j` on.
    pub open spec fn dfs_items(&self, p: Seq<ProviderKey>, key: ProviderKey, j: int) -> Result<Seq<ProviderKey>, Stop>
        decreases self.entries_spec().len() - p.len(), 1int, self.item_count(key) - j,
    {
        if j < 0 || j >= self.item_count(key) || p.len() > self.entries_spec().len() {
            Ok(p)
        } else {
            match self.item_target(key, j) {
                None => self.dfs_items(p, key, j + 1),
                Some(Err(s)) => Err(s),
                Some(Ok(k2)) => match self.dfs_key(p, k2) {
                    Err(s) => Err(s),
                    Ok(q) => if q.len() < p.len() || q.len() > self.entries_spec().len() {
                        Ok(q)
                    } else {
                        self.dfs_items(q, key, j + 1)
                    },
                },
            }
        }
    }

    /// Depth-first collection for the requests `roots` (from `from`), from
    /// request `j` on.
    pub open spec fn dfs_roots(&self, p: Seq<ProviderKey>, roots: Seq<(u64, &'static str)>, from: ScopeId, j: int) -> Result<
        Seq<ProviderKey>,
        Stop,
    >
        decreases roots.len() - j,
    {
        if j < 0 || j >= roots.len() {
            Ok(p)
        } else {
            let d = roots[j];
            if self.value_binding(d.0, from) is Some {
                self.dfs_roots(p, roots, from, j + 1)
            } else {
                match self.resolved_provider(d.0, from) {
                    None => Err(Stop::Missing(d.1, from)),
                    Some(k) => match self.dfs_key(p, k) {
                        Err(s) => Err(s),
                        Ok(q) => self.dfs_roots(q, roots, from, j + 1),
                    },
                }
            }
        }
    }

    /// The error `e` reports the stop `s`.
    pub open spec fn reports(&self, e: Error, s: Stop) -> bool {
        match (e, s) {
            (Error::Cycle(t), Stop::Cycle(k)) => t@ == self.key_name_spec(k)@,
            (Error::MissingProvider { type_label, module }, Stop::Missing(l, sc)) => type_label == l && module
                == self.scope_tree().name_str(sc.idx()),
            _ => false,
        }
    }
}

} // verus!

verus! {

/// The public value records a finished wave adds, in wave order: for each
/// public singleton key its `Arc` alias (`arcs[i]`), then its type.
pub open spec fn public_records(wave: Seq<ProviderKey>, arcs: Seq<u64>) -> Seq<u64>
    decreases wave.len(),
{
    if wave.len() == 0 || arcs.len() != wave.len() {
        Seq::empty()
    } else {
        let k = wave.last();
        let rest = public_records(wave.drop_last(), arcs.drop_last());
        if k.ordinal == 0 && !k.private {
            rest.push(arcs.last()).push(k.type_id)
        } else {
            rest
        }
    }
}

/// The private value records a finished wave adds, in wave order: for each
/// private singleton key its `Arc` alias, then its type, both in its scope.
pub open spec fn private_records(wave: Seq<ProviderKey>, arcs: Seq<u64>) -> Seq<(u64, ScopeId)>
    decreases wave.len(),
{
    if wave.len() == 0 || arcs.len() != wave.len() {
        Seq::empty()
    } else {
        let k = wave.last();
        let rest = private_records(wave.drop_last(), arcs.drop_last());
        if k.ordinal == 0 && k.private {
            rest.push((arcs.last(), k.scope)).push((k.type_id, k.scope))
        } else {
            rest
        }
    }
}

/// The group member records a finished wave adds: its member keys, in order.
pub open spec fn member_records(wave: Seq<ProviderKey>) -> Seq<ProviderKey>
    decreases wave.len(),
{
    if wave.len() == 0 {
        Seq::empty()
    } else {
        let k = wave.last();
        let rest = member_records(wave.drop_last());
        if k.ordinal != 0 {
            rest.push(k)
        } else {
            rest
        }
    }
}

} // verus!

verus! {

/// Value lookup: walking the module chain from `from` to the root, the first
/// module that holds a private value of `id`, or a private provider or alias
/// of `id`, decides. A private value there is the binding; a provider or
/// alias there (not yet built) shadows every value further out, so there is
/// none. When no module of the chain decides, a public value of `id` is the
/// binding (reported at the scope of the module that supplied it), if there
/// is one.
pub proof fn law_value_lookup(c: &Container, id: u64, from: ScopeId)
    requires
        c.wf(),
        c.scope_tree().has(from),
    ensures
        (forall|t: int|
            0 <= t < c.scope_tree().chain(from.idx()).len() ==> !c.value_stop(id)(
                #[trigger] c.scope_tree().chain(from.idx())[t],
            )) ==> (c.value_binding(id, from) is Some <==> c.has_public_value(id)) && (c.value_binding(id, from) matches Some(
            b,
        ) ==> !b.private),
        forall|j: int|
            0 <= j < c.scope_tree().chain(from.idx()).len() && c.value_stop(id)(
                #[trigger] c.scope_tree().chain(from.idx())[j],
            ) && (forall|u: int|
                0 <= u < j ==> !c.value_stop(id)(c.scope_tree().chain(from.idx())[u])) ==> c.value_binding(id, from) == if c.has_private_value(
                id,
                c.scope_tree().chain(from.idx())[j],
            ) {
                Some(ValueBinding { scope: c.scope_tree().chain(from.idx())[j], private: true })
            } else {
                None
            },
{
    let ch = c.scope_tree().chain(from.idx());
    let p = c.value_stop(id);
    assert forall|j: int|
        0 <= j < ch.len() && p(#[trigger] ch[j]) && (forall|u: int| 0 <= u < j ==> !p(ch[u])) implies c.value_binding(
        id,
        from,
    ) == if c.has_private_value(id, ch[j]) {
        Some(ValueBinding { scope: ch[j], private: true })
    } else {
        None
    } by {
        assert(is_first(ch, p, j));
        lemma_first_unique(ch, p, j);
    }
    if forall|t: int| 0 <= t < ch.len() ==> !p(#[trigger] ch[t]) {
        assert(!any_of(ch, p));
    }
}

/// Removing an element of a sequence without duplicates removes every
/// occurrence of it and keeps the rest without duplicates.
proof fn lemma_remove_unique(s: Seq<ProviderKey>, i: int)
    requires
        s.no_duplicates(),
        0 <= i < s.len(),
    ensures
        !s.remove(i).contains(s[i]),
        s.remove(i).no_duplicates(),
        forall|y: ProviderKey| s.remove(i).contains(y) ==> s.contains(y),
{
    let r = s.remove(i);
    assert forall|a: int| 0 <= a < r.len() implies r[a] != s[i] by {
        if a < i {
            assert(r[a] == s[a]);
        } else {
            assert(r[a] == s[a + 1]);
        }
    }
    assert forall|a: int, b: int| 0 <= a < r.len() && 0 <= b < r.len() && a != b implies r[a] != r[b] by {
        let ia = if a < i { a } else { a + 1 };
        let ib = if b < i { b } else { b + 1 };
        assert(r[a] == s[ia] && r[b] == s[ib]);
    }
    assert forall|y: ProviderKey| r.contains(y) implies s.contains(y) by {
        let a = choose|a: int| 0 <= a < r.len() && r[a] == y;
        if a < i {
            assert(s[a] == y);
        } else {
            assert(s[a + 1] == y);
        }
    }
}

proof fn lemma_drained_consumes(mv: Seq<ProviderKey>, ms: Seq<ProviderKey>)
    requires
        mv.no_duplicates(),
        all_held(mv, ms),
    ensures
        drained(mv, ms).no_duplicates(),
        forall|j: int| 0 <= j < ms.len() ==> !drained(mv, ms).contains(#[trigger] ms[j]),
        forall|y: ProviderKey| drained(mv, ms).contains(y) ==> mv.contains(y),
    decreases ms.len(),
{
    if ms.len() > 0 {
        let front = ms.drop_last();
        lemma_drained_consumes(mv, front);
        let m = drained(mv, front);
        let x = ms.last();
        assert(m.contains(x));
        let w = choose|w: int| 0 <= w < m.len() && m[w] == x;
        assert(same_key(x)(m[w]));
        crate::lookup::lemma_first_index(m, same_key(x));
        let i = first_index(m, same_key(x));
        lemma_remove_unique(m, i);
        assert forall|j: int| 0 <= j < ms.len() implies !drained(mv, ms).contains(#[trigger] ms[j]) by {
            if j < ms.len() - 1 {
                assert(ms[j] == front[j]);
                if drained(mv, ms).contains(ms[j]) {
                    assert(m.contains(ms[j]));
                }
            }
        }
    }
}

/// Collecting a group consumes what it collects: when the member values hold
/// each key at most once and every member has a value,
/// [`Container::collect_group_members`] leaves none of the members' values
/// behind (and holds nothing new).
pub proof fn law_collected_members_are_consumed(mv: Seq<ProviderKey>, ms: Seq<ProviderKey>)
    requires
        mv.no_duplicates(),
        all_held(mv, ms),
    ensures
        forall|j: int| 0 <= j < ms.len() ==> !drained(mv, ms).contains(#[trigger] ms[j]),
        forall|y: ProviderKey| drained(mv, ms).contains(y) ==> mv.contains(y),
{
    lemma_drained_consumes(mv, ms);
}

} // verus!

verus! {

/// Duplicate registrations collide. Privately, the collision is per module:
/// once a private value, a private provider or a private alias of `id` is
/// held in `s`, a private registration of `id` in `s` is refused with
/// `AlreadyProvidedPrivate` naming that module and type; a module that holds
/// none of them accepts one. Publicly, the collision is global: once a public
/// value or public provider of `id` exists, a public registration of `id`
/// from any module is refused with `AlreadyProvided`.
pub proof fn law_duplicate_registrations_collide(c: &Container, id: u64, s: ScopeId, t: ScopeId, name: &'static str)
    ensures
        c.has_private_value(id, s) ==> c.conflicts(id, s, true),
        c.has_private_provider(id, s) ==> c.conflicts(id, s, true),
        c.alias_at(id, s) is Some ==> c.conflicts(id, s, true),
        c.conflict_error(name, s, true) == (Error::AlreadyProvidedPrivate {
            module: c.scope_tree().name_str(s.idx()),
            type_label: name,
        }),
        !c.has_private_value(id, t) && !c.has_private_provider(id, t) && c.alias_at(id, t) is None ==> !c.conflicts(
            id,
            t,
            true,
        ),
        c.has_public_value(id) ==> c.conflicts(id, t, false),
        c.public_key(id) is Some ==> c.conflicts(id, t, false),
        c.conflict_error(name, t, false) == Error::AlreadyProvided(name),
{
}

/// A value supplied privately in `s` (what [`Container::insert_value`] adds
/// on success: its `Arc` alias, then the value, in `s`) makes any further
/// private registration of either type in `s` collide.
pub proof fn law_supplied_private_value_blocks_a_second(before: &Container, after: &Container, id: u64, arc_id: u64, s: ScopeId)
    requires
        after.private_values() == before.private_values().push((arc_id, s)).push((id, s)),
    ensures
        after.has_private_value(id, s),
        after.has_private_value(arc_id, s),
        after.conflicts(id, s, true),
        after.conflicts(arc_id, s, true),
{
    let pv = after.private_values();
    assert(pv[pv.len() - 1] == (id, s));
    assert(pv[pv.len() - 2] == (arc_id, s));
}

/// A provider registered privately in `s` (what
/// [`Container::insert_provider`] adds on success) makes any further private
/// registration of its type in `s` collide.
pub proof fn law_registered_private_provider_blocks_a_second(
    before: &Container,
    after: &Container,
    id: u64,
    s: ScopeId,
    provider: DynProvider,
)
    requires
        after.entries_spec() == before.entries_spec().push(
            ProviderEntry { key: ProviderKey { type_id: id, scope: s, private: true, ordinal: 0 }, provider },
        ),
    ensures
        after.has_private_provider(id, s),
        after.conflicts(id, s, true),
{
    let es = after.entries_spec();
    let k = ProviderKey { type_id: id, scope: s, private: true, ordinal: 0 };
    assert(entry_has_key(k)(es[es.len() - 1]));
}

/// A public value supplied from any module (what [`Container::insert_value`]
/// adds on success: its `Arc` alias, then the value) makes any further public
/// registration of either type, from any module, collide.
pub proof fn law_supplied_public_value_blocks_a_second(before: &Container, after: &Container, id: u64, arc_id: u64, t: ScopeId)
    requires
        after.public_values() == before.public_values().push(arc_id).push(id),
    ensures
        after.conflicts(id, t, false),
        after.conflicts(arc_id, t, false),
{
    let pv = after.public_values();
    assert(pv[pv.len() - 1] == id);
    assert(pv[pv.len() - 2] == arc_id);
}

} // verus!
