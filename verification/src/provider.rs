//! What the container knows about a constructor or an invoker: the type it
//! builds, the types it needs, and the names used in diagnostics. Types are
//! identified by a `u64` type key that the embedding application assigns, one
//! key per Rust type.

use vstd::prelude::*;

use crate::scope::ScopeId;

verus! {

/// Identifies one provider: type, registration scope, visibility, and (for a
/// group member) a non-zero ordinal that tells members of one group apart.
///
/// Sibling modules may each hold a private provider for the same type, and a
/// module may hold both a private and a public provider for the same type (a
/// decorator), so none of the fields alone identifies a provider.
#[derive(Clone, Copy, Debug, PartialEq, Eq, Structural)]
pub struct ProviderKey {
    pub type_id: u64,
    pub scope: ScopeId,
    pub private: bool,
    pub ordinal: u32,
}

impl ProviderKey {
    /// The key of the single provider of `type_id` in `scope` with the given visibility.
    pub fn singleton(type_id: u64, scope: ScopeId, private: bool) -> (k: Self)
        ensures
            k == (ProviderKey { type_id, scope, private, ordinal: 0 }),
    {
        ProviderKey { type_id, scope, private, ordinal: 0 }
    }

    /// Whether this key names a group member rather than a singleton.
    pub fn is_group_member(&self) -> (b: bool)
        ensures
            b == (self.ordinal != 0),
    {
        self.ordinal != 0
    }
}

/// A constructor with its signature erased: the type it produces (plus the
/// `Arc<T>` alias it also answers for), and the dependencies it resolves.
#[derive(Debug)]
pub struct DynProvider {
    result_type: u64,
    result_name: &'static str,
    constructor_name: &'static str,
    alias_types: Vec<u64>,
    deps: Vec<(u64, &'static str)>,
}

impl DynProvider {
    pub closed spec fn result_type_spec(&self) -> u64 {
        self.result_type
    }

    pub closed spec fn result_name_spec(&self) -> &'static str {
        self.result_name
    }

    pub closed spec fn constructor_name_spec(&self) -> &'static str {
        self.constructor_name
    }

    pub closed spec fn alias_types_spec(&self) -> Seq<u64> {
        self.alias_types@
    }

    pub closed spec fn deps_spec(&self) -> Seq<(u64, &'static str)> {
        self.deps@
    }

    /// Describe a constructor.
    pub fn new(
        result_type: u64,
        result_name: &'static str,
        constructor_name: &'static str,
        alias_types: Vec<u64>,
        deps: Vec<(u64, &'static str)>,
    ) -> (p: Self)
        ensures
            p.result_type_spec() == result_type,
            p.result_name_spec() == result_name,
            p.constructor_name_spec() == constructor_name,
            p.alias_types_spec() == alias_types@,
            p.deps_spec() == deps@,
    {
        DynProvider { result_type, result_name, constructor_name, alias_types, deps }
    }

    /// Type produced by this provider.
    pub fn result_type(&self) -> (t: u64)
        ensures
            t == self.result_type_spec(),
    {
        self.result_type
    }

    /// Rust type name of the value produced by this provider.
    pub fn result_name(&self) -> (s: &'static str)
        ensures
            s == self.result_name_spec(),
    {
        self.result_name
    }

    /// Name of the constructor function.
    pub fn constructor_name(&self) -> (s: &'static str)
        ensures
            s == self.constructor_name_spec(),
    {
        self.constructor_name
    }

    /// Other types this provider answers for (its `Arc<T>`).
    pub fn alias_types(&self) -> (a: &[u64])
        ensures
            a@ == self.alias_types_spec(),
    {
        self.alias_types.as_slice()
    }

    /// Dependency types this provider will resolve, in parameter order.
    pub fn dep_types(&self) -> (d: &[(u64, &'static str)])
        ensures
            d@ == self.deps_spec(),
    {
        self.deps.as_slice()
    }
}

/// An invoker with its signature erased: its name and the dependencies it resolves.
#[derive(Debug)]
pub struct DynInvoker {
    name: &'static str,
    deps: Vec<(u64, &'static str)>,
}

impl DynInvoker {
    pub closed spec fn name_spec(&self) -> &'static str {
        self.name
    }

    pub closed spec fn deps_spec(&self) -> Seq<(u64, &'static str)> {
        self.deps@
    }

    /// Describe an invoker.
    pub fn new(name: &'static str, deps: Vec<(u64, &'static str)>) -> (i: Self)
        ensures
            i.name_spec() == name,
            i.deps_spec() == deps@,
    {
        DynInvoker { name, deps }
    }

    /// Rust type name of the registered invoker function.
    pub fn name(&self) -> (s: &'static str)
        ensures
            s == self.name_spec(),
    {
        self.name
    }

    /// Dependency types this invoker will resolve, in parameter order.
    pub fn dep_types(&self) -> (d: &[(u64, &'static str)])
        ensures
            d@ == self.deps_spec(),
    {
        self.deps.as_slice()
    }
}

/// Invoker bound to the module scope where it was registered.
#[derive(Debug)]
pub struct ScopedInvoker {
    pub scope: ScopeId,
    pub invoker: DynInvoker,
}

/// A supplied value: which type, where, and with what visibility.
#[derive(Clone, Copy, Debug)]
pub struct ValueNode {
    pub type_id: u64,
    pub type_label: &'static str,
    pub scope: ScopeId,
    pub private: bool,
}

} // verus!
