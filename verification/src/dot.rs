//! The dependency graph as a Graphviz DOT document: one node per provider,
//! supplied value and invoker, grouped into one cluster per module, with an
//! edge from each dependency to its consumer and a dotted edge from each
//! group member to its group.

use vstd::prelude::*;
use vstd::string::*;

use crate::container::{entry_has_key, reg_for, Container, ProviderEntry};
use crate::lookup::{any_of, first_index};
use crate::provider::{ProviderKey, ScopedInvoker, ValueNode};
use crate::scope::ScopeId;
use crate::text::{decimal, decimal_text, decimal_text_u64};
use crate::trace::str_eq;

verus! {

// ---- type and function names ------------------------------------------------

/// `s` without the prefix `p`, when `s` starts with `p`.
pub open spec fn strip(s: Seq<char>, p: Seq<char>) -> Option<Seq<char>> {
    if p.len() <= s.len() && s.subrange(0, p.len() as int) == p {
        Some(s.subrange(p.len() as int, s.len() as int))
    } else {
        None
    }
}

/// The stripped text, or `s` itself.
pub open spec fn or_self(o: Option<Seq<char>>, s: Seq<char>) -> Seq<char> {
    match o {
        Some(r) => r,
        None => s,
    }
}

/// A `::` separator starts at `i`.
pub open spec fn sep_at(s: Seq<char>, i: int) -> bool {
    0 <= i && i + 1 < s.len() && s[i] == ':' && s[i + 1] == ':'
}

/// The start of the last `::` at or before `i`, or `-1`.
pub open spec fn last_sep(s: Seq<char>, i: int) -> int
    decreases i + 1,
{
    if i < 0 {
        -1
    } else if sep_at(s, i) {
        i
    } else {
        last_sep(s, i - 1)
    }
}

/// The last `::`-separated segment of a path.
pub open spec fn short_name_spec(s: Seq<char>) -> Seq<char> {
    let j = last_sep(s, s.len() - 2);
    if j < 0 {
        s
    } else {
        s.subrange(j + 2, s.len() as int)
    }
}

/// A type name without this crate's `modrun::` prefix.
pub open spec fn display_type_name_spec(full: Seq<char>) -> Seq<char> {
    or_self(strip(full, "modrun::"@), full)
}

/// A short label for a type: without an `alloc::sync::` / `std::sync::` and a
/// `modrun::` prefix, and, unless it is generic, only its last path segment.
pub open spec fn label_type_name_spec(full: Seq<char>) -> Seq<char> {
    let t1 = match strip(full, "alloc::sync::"@) {
        Some(r) => r,
        None => or_self(strip(full, "std::sync::"@), full),
    };
    let t2 = or_self(strip(t1, "modrun::"@), t1);
    if t2.contains('<') {
        t2
    } else {
        short_name_spec(t2)
    }
}

/// The DOT escape of one character.
pub open spec fn escape_char(c: char) -> Seq<char> {
    if c == '\\' {
        "\\\\"@
    } else if c == '"' {
        "\\\""@
    } else if c == '\n' {
        "\\n"@
    } else if c == '\r' {
        "\\r"@
    } else {
        seq![c]
    }
}

/// A text escaped for a double-quoted DOT string.
pub open spec fn dot_escape_spec(s: Seq<char>) -> Seq<char>
    decreases s.len(),
{
    if s.len() == 0 {
        Seq::empty()
    } else {
        dot_escape_spec(s.drop_last()) + escape_char(s.last())
    }
}

/// `s` starts with `p`.
pub fn has_prefix(s: &str, p: &str) -> (b: bool)
    ensures
        b == (strip(s@, p@) is Some),
{
    let n = s.unicode_len();
    let m = p.unicode_len();
    if m > n {
        return false;
    }
    let mut i: usize = 0;
    while i < m
        invariant
            n == s@.len(),
            m == p@.len(),
            m <= n,
            i <= m,
            forall|j: int| 0 <= j < i ==> s@[j] == p@[j],
        decreases m - i,
    {
        if s.get_char(i) != p.get_char(i) {
            assert(s@.subrange(0, m as int)[i as int] != p@[i as int]);
            return false;
        }
        i = i + 1;
    }
    assert(s@.subrange(0, m as int) =~= p@);
    true
}

/// `s` without the prefix `p`, when `s` starts with `p`.
pub fn strip_prefix<'a>(s: &'a str, p: &str) -> (r: Option<&'a str>)
    ensures
        r is None <==> strip(s@, p@) is None,
        r matches Some(t) ==> strip(s@, p@) == Some(t@),
{
    if has_prefix(s, p) {
        let n = s.unicode_len();
        let m = p.unicode_len();
        Some(s.substring_char(m, n))
    } else {
        None
    }
}

/// `c` occurs in `s`.
pub fn contains_char(s: &str, c: char) -> (b: bool)
    ensures
        b == s@.contains(c),
{
    let n = s.unicode_len();
    let mut i: usize = 0;
    while i < n
        invariant
            n == s@.len(),
            i <= n,
            forall|j: int| 0 <= j < i ==> s@[j] != c,
        decreases n - i,
    {
        if s.get_char(i) == c {
            assert(s@[i as int] == c);
            return true;
        }
        i = i + 1;
    }
    false
}

/// The last `::`-separated segment of a path (`rsplit("::").next()`).
pub fn short_name(full: &str) -> (r: &str)
    ensures
        r@ == short_name_spec(full@),
{
    let n = full.unicode_len();
    if n < 2 {
        assert(last_sep(full@, full@.len() - 2) == -1);
        return full;
    }
    let mut k: usize = n - 1;
    while k > 0
        invariant
            n == full@.len(),
            n >= 2,
            k <= n - 1,
            last_sep(full@, n - 2) == last_sep(full@, k - 1),
        decreases k,
    {
        if full.get_char(k - 1) == ':' && full.get_char(k) == ':' {
            assert(sep_at(full@, k - 1));
            return full.substring_char(k + 1, n);
        }
        k = k - 1;
    }
    full
}

/// A type name without this crate's `modrun::` prefix.
pub fn display_type_name(full: &str) -> (s: String)
    ensures
        s@ == display_type_name_spec(full@),
{
    match strip_prefix(full, "modrun::") {
        Some(r) => String::from_str(r),
        None => String::from_str(full),
    }
}

/// A short label for a type; see [`label_type_name_spec`].
pub fn label_type_name(full: &str) -> (s: String)
    ensures
        s@ == label_type_name_spec(full@),
{
    let t1 = match strip_prefix(full, "alloc::sync::") {
        Some(r) => r,
        None => match strip_prefix(full, "std::sync::") {
            Some(r) => r,
            None => full,
        },
    };
    let t2 = match strip_prefix(t1, "modrun::") {
        Some(r) => r,
        None => t1,
    };
    if contains_char(t2, '<') {
        String::from_str(t2)
    } else {
        String::from_str(short_name(t2))
    }
}

/// `value` escaped for a double-quoted DOT string: backslash, double quote,
/// newline and carriage return become `\\`, `\"`, `\n` and `\r`.
pub fn dot_escape(value: &str) -> (s: String)
    ensures
        s@ == dot_escape_spec(value@),
{
    let n = value.unicode_len();
    let mut s = String::new();
    let mut i: usize = 0;
    while i < n
        invariant
            n == value@.len(),
            i <= n,
            s@ == dot_escape_spec(value@.subrange(0, i as int)),
        decreases n - i,
    {
        let c = value.get_char(i);
        proof {
            let next = value@.subrange(0, i as int + 1);
            assert(next.drop_last() =~= value@.subrange(0, i as int));
            assert(next.last() == c);
        }
        if c == '\\' {
            s.append("\\\\");
        } else if c == '"' {
            s.append("\\\"");
        } else if c == '\n' {
            s.append("\\n");
        } else if c == '\r' {
            s.append("\\r");
        } else {
            let one = value.substring_char(i, i + 1);
            assert(one@ =~= seq![c]);
            s.append(one);
        }
        i = i + 1;
    }
    assert(value@.subrange(0, n as int) =~= value@);
    s
}

} // verus!

verus! {

// ---- nodes ----------------------------------------------------------------

/// A graph node: its identity key, the module scope it belongs to, and the
/// label it is drawn with.
pub struct NodeSpec {
    pub key: Seq<char>,
    pub scope: ScopeId,
    pub label: Seq<char>,
}

/// Display name of scope `s`.
pub open spec fn module_of(c: &Container, s: ScopeId) -> Seq<char> {
    c.scope_tree().name_of(s.idx())
}

/// The provider entry registered under `k` (its first registration).
pub open spec fn entry_for(c: &Container, k: ProviderKey) -> ProviderEntry {
    c.entries_spec()[first_index(c.entries_spec(), entry_has_key(k))]
}

/// `k` is the aggregate provider of some group.
pub open spec fn is_aggregate(c: &Container, k: ProviderKey) -> bool {
    any_of(c.group_regs_spec(), reg_for(k))
}

/// The node key of the provider registered under `k`.
pub open spec fn provider_key_text(c: &Container, k: ProviderKey) -> Seq<char> {
    let p = entry_for(c, k).provider;
    let m = module_of(c, k.scope);
    if k.ordinal != 0 {
        "provider:"@ + m + ":"@ + short_name_spec(p.constructor_name_spec()@) + "#"@ + decimal(k.ordinal as nat)
    } else {
        let t = if is_aggregate(c, k) {
            display_type_name_spec(p.result_name_spec()@)
        } else {
            label_type_name_spec(p.result_name_spec()@)
        };
        if k.private {
            "provider:"@ + m + ":"@ + t + ":private"@
        } else {
            "provider:"@ + m + ":"@ + t
        }
    }
}

/// The label of the provider registered under `k`.
pub open spec fn provider_label_text(c: &Container, k: ProviderKey) -> Seq<char> {
    let p = entry_for(c, k).provider;
    if k.ordinal != 0 {
        label_type_name_spec(p.result_name_spec()@) + "\nctor="@ + short_name_spec(p.constructor_name_spec()@)
            + "\n(group member)"@
    } else if is_aggregate(c, k) {
        display_type_name_spec(p.result_name_spec()@) + "\nctor="@ + p.constructor_name_spec()@
            + "\n(group aggregate)"@
    } else {
        label_type_name_spec(p.result_name_spec()@) + "\nctor="@ + short_name_spec(p.constructor_name_spec()@)
            + if k.private {
            "\n(private)"@
        } else {
            Seq::empty()
        }
    }
}

/// The node key of a value of type `id` bound in `scope`.
pub open spec fn value_key_text(c: &Container, id: u64, scope: ScopeId, private: bool) -> Seq<char> {
    "value:"@ + module_of(c, scope) + ":"@ + decimal(id as nat) + ":"@ + if private {
        "private"@
    } else {
        "public"@
    }
}

/// The node key of invoker number `i`, whose function is `name`.
pub open spec fn invoker_key_text(i: int, name: Seq<char>) -> Seq<char> {
    "invoker:"@ + decimal(i as nat) + ":"@ + short_name_spec(name)
}

/// One node per registered provider, in registration order.
pub open spec fn provider_cands(c: &Container) -> Seq<NodeSpec> {
    c.entries_spec().map_values(
        |e: ProviderEntry|
            NodeSpec { key: provider_key_text(c, e.key), scope: e.key.scope, label: provider_label_text(c, e.key) },
    )
}

/// One node per supplied value that is not a framework handle, in supply
/// order.
pub open spec fn value_cands(c: &Container, vs: Seq<ValueNode>) -> Seq<NodeSpec>
    decreases vs.len(),
{
    if vs.len() == 0 {
        Seq::empty()
    } else {
        let rest = value_cands(c, vs.drop_last());
        let v = vs.last();
        if c.builtins_spec().contains(v.type_id) {
            rest
        } else {
            rest.push(
                NodeSpec {
                    key: value_key_text(c, v.type_id, v.scope, v.private),
                    scope: v.scope,
                    label: label_type_name_spec(v.type_label@) + "\n(supplied)"@,
                },
            )
        }
    }
}

/// One node per invoker, in registration order.
pub open spec fn invoker_cands(invs: Seq<ScopedInvoker>) -> Seq<NodeSpec> {
    Seq::new(
        invs.len(),
        |i: int|
            NodeSpec {
                key: invoker_key_text(i, invs[i].invoker.name_spec()@),
                scope: invs[i].scope,
                label: short_name_spec(invs[i].invoker.name_spec()@) + "\n(invoker)"@,
            },
    )
}

/// The first position at or after `i` of a node with key `k`.
pub open spec fn key_index_from(d: Seq<NodeSpec>, k: Seq<char>, i: int) -> Option<int>
    decreases d.len() - i,
{
    if i < 0 || i >= d.len() {
        None
    } else if d[i].key == k {
        Some(i)
    } else {
        key_index_from(d, k, i + 1)
    }
}

/// The position of the node with key `k`.
pub open spec fn key_index(d: Seq<NodeSpec>, k: Seq<char>) -> Option<int> {
    key_index_from(d, k, 0)
}

/// The nodes in order, each key kept at its first occurrence.
pub open spec fn dedup(s: Seq<NodeSpec>) -> Seq<NodeSpec>
    decreases s.len(),
{
    if s.len() == 0 {
        Seq::empty()
    } else {
        let d = dedup(s.drop_last());
        if key_index(d, s.last().key) is Some {
            d
        } else {
            d.push(s.last())
        }
    }
}

/// The nodes of the graph: providers, then supplied values, then invokers.
pub open spec fn dot_nodes(c: &Container, invs: Seq<ScopedInvoker>) -> Seq<NodeSpec> {
    dedup(provider_cands(c) + value_cands(c, c.value_nodes_spec()) + invoker_cands(invs))
}

// ---- edges ----------------------------------------------------------------

/// The node key a dependency on `id` resolves to from `from`: the value
/// binding, else the provider.
pub open spec fn resolve_target(c: &Container, id: u64, from: ScopeId) -> Option<Seq<char>> {
    match c.value_binding(id, from) {
        Some(b) => Some(value_key_text(c, id, b.scope, b.private)),
        None => match c.resolved_provider(id, from) {
            Some(k) => Some(provider_key_text(c, k)),
            None => None,
        },
    }
}

/// The node of a registered provider key.
pub open spec fn provider_node(c: &Container, nodes: Seq<NodeSpec>, k: ProviderKey) -> Option<int> {
    if c.has_key(k) {
        key_index(nodes, provider_key_text(c, k))
    } else {
        None
    }
}

/// Edges from the (non-framework) dependencies `deps`, resolved from `from`,
/// to the node `to`.
pub open spec fn dep_edges(
    c: &Container,
    nodes: Seq<NodeSpec>,
    deps: Seq<(u64, &'static str)>,
    from: ScopeId,
    to: Option<int>,
) -> Seq<(int, int, bool)>
    decreases deps.len(),
{
    if deps.len() == 0 {
        Seq::empty()
    } else {
        let rest = dep_edges(c, nodes, deps.drop_last(), from, to);
        let id = deps.last().0;
        if c.builtins_spec().contains(id) {
            rest
        } else {
            match (resolve_target(c, id, from), to) {
                (Some(t), Some(b)) => match key_index(nodes, t) {
                    Some(a) => rest.push((a, b, false)),
                    None => rest,
                },
                _ => rest,
            }
        }
    }
}

/// Dependency edges of the first `n` providers.
pub open spec fn provider_edges(c: &Container, nodes: Seq<NodeSpec>, n: int) -> Seq<(int, int, bool)>
    decreases n,
{
    if n <= 0 {
        Seq::empty()
    } else {
        let k = c.entries_spec()[n - 1].key;
        provider_edges(c, nodes, n - 1) + dep_edges(
            c,
            nodes,
            entry_for(c, k).provider.deps_spec(),
            k.scope,
            provider_node(c, nodes, k),
        )
    }
}

/// Dependency edges of the first `n` invokers.
pub open spec fn invoker_edges(
    c: &Container,
    nodes: Seq<NodeSpec>,
    invs: Seq<ScopedInvoker>,
    n: int,
) -> Seq<(int, int, bool)>
    decreases n,
{
    if n <= 0 {
        Seq::empty()
    } else {
        let s = invs[n - 1];
        invoker_edges(c, nodes, invs, n - 1) + dep_edges(
            c,
            nodes,
            s.invoker.deps_spec(),
            s.scope,
            key_index(nodes, invoker_key_text(n - 1, s.invoker.name_spec()@)),
        )
    }
}

/// Dotted edges from the members `ms` to the group node `g`.
pub open spec fn member_edges(c: &Container, nodes: Seq<NodeSpec>, ms: Seq<ProviderKey>, g: Option<int>) -> Seq<
    (int, int, bool),
>
    decreases ms.len(),
{
    if ms.len() == 0 {
        Seq::empty()
    } else {
        let rest = member_edges(c, nodes, ms.drop_last(), g);
        match (provider_node(c, nodes, ms.last()), g) {
            (Some(a), Some(b)) => rest.push((a, b, true)),
            _ => rest,
        }
    }
}

/// Member edges of the first `n` group registrations.
pub open spec fn group_edges(c: &Container, nodes: Seq<NodeSpec>, n: int) -> Seq<(int, int, bool)>
    decreases n,
{
    if n <= 0 {
        Seq::empty()
    } else {
        let r = c.group_regs_spec()[n - 1];
        group_edges(c, nodes, n - 1) + member_edges(c, nodes, c.members_of(r.0), provider_node(c, nodes, r.1))
    }
}

/// The edges of the graph: provider dependencies, invoker dependencies, then
/// group membership.
pub open spec fn dot_edges(c: &Container, invs: Seq<ScopedInvoker>, nodes: Seq<NodeSpec>) -> Seq<(int, int, bool)> {
    provider_edges(c, nodes, c.entries_spec().len() as int) + invoker_edges(c, nodes, invs, invs.len() as int)
        + group_edges(c, nodes, c.group_regs_spec().len() as int)
}

// ---- document -------------------------------------------------------------

/// The DOT attributes of a node.
pub open spec fn node_attrs(c: &Container, n: NodeSpec) -> Seq<char> {
    "label=\""@ + dot_escape_spec(n.label) + "\" tooltip=\""@ + dot_escape_spec(module_of(c, n.scope) + "::"@ + n.key)
        + "\""@
}

/// The statements of the nodes among the first `n` that belong to `s`.
pub open spec fn scope_lines(c: &Container, nodes: Seq<NodeSpec>, s: ScopeId, indent: Seq<char>, n: int) -> Seq<char>
    decreases n,
{
    if n <= 0 {
        Seq::empty()
    } else {
        scope_lines(c, nodes, s, indent, n - 1) + if nodes[n - 1].scope == s {
            indent + "n"@ + decimal((n - 1) as nat) + " ["@ + node_attrs(c, nodes[n - 1]) + "];\n"@
        } else {
            Seq::empty()
        }
    }
}

/// Some node belongs to `s`.
pub open spec fn scope_used(nodes: Seq<NodeSpec>, s: ScopeId) -> bool {
    exists|i: int| 0 <= i < nodes.len() && #[trigger] nodes[i].scope == s
}

/// The block of scope number `s`: root nodes stand at top level, every other
/// module is a cluster labelled with its name; unused scopes print nothing.
pub open spec fn cluster_block(c: &Container, nodes: Seq<NodeSpec>, s: u32) -> Seq<char> {
    let sid = ScopeId(s);
    if !scope_used(nodes, sid) {
        Seq::empty()
    } else if s == 0 {
        scope_lines(c, nodes, sid, "  "@, nodes.len() as int)
    } else {
        "  subgraph cluster_"@ + decimal(s as nat) + " {\n"@ + "    label=\""@ + dot_escape_spec(module_of(c, sid))
            + "\";\n"@ + scope_lines(c, nodes, sid, "    "@, nodes.len() as int) + "  }\n"@
    }
}

/// The blocks of the first `n` scopes, in scope order.
pub open spec fn clusters(c: &Container, nodes: Seq<NodeSpec>, n: int) -> Seq<char>
    decreases n,
{
    if n <= 0 {
        Seq::empty()
    } else {
        clusters(c, nodes, n - 1) + cluster_block(c, nodes, (n - 1) as u32)
    }
}

/// The statement of one edge.
pub open spec fn edge_line(e: (int, int, bool)) -> Seq<char> {
    "  n"@ + decimal(e.0 as nat) + " -> n"@ + decimal(e.1 as nat) + if e.2 {
        " [style=dotted, arrowhead=none]"@
    } else {
        Seq::empty()
    } + ";\n"@
}

/// The statements of the first `n` edges.
pub open spec fn edge_lines(es: Seq<(int, int, bool)>, n: int) -> Seq<char>
    decreases n,
{
    if n <= 0 {
        Seq::empty()
    } else {
        edge_lines(es, n - 1) + edge_line(es[n - 1])
    }
}

/// The DOT document of the graph.
pub open spec fn dot_text(c: &Container, invs: Seq<ScopedInvoker>) -> Seq<char> {
    let nodes = dot_nodes(c, invs);
    let edges = dot_edges(c, invs, nodes);
    "digraph modrun {\n  rankdir=LR;\n  node [shape=box];\n"@ + clusters(c, nodes, c.scope_tree().len() as int)
        + edge_lines(edges, edges.len() as int) + "}\n"@
}

} // verus!

verus! {

/// A node while the graph is assembled.
pub struct DotNode {
    pub key: String,
    pub scope: ScopeId,
    pub label: String,
}

/// The node as a mathematical value.
pub open spec fn node_view(n: DotNode) -> NodeSpec {
    NodeSpec { key: n.key@, scope: n.scope, label: n.label@ }
}

/// The nodes as mathematical values.
pub open spec fn nodes_view(v: Seq<DotNode>) -> Seq<NodeSpec> {
    v.map_values(|n: DotNode| node_view(n))
}

/// The edges as mathematical values.
pub open spec fn edges_view(v: Seq<(usize, usize, bool)>) -> Seq<(int, int, bool)> {
    v.map_values(|e: (usize, usize, bool)| (e.0 as int, e.1 as int, e.2))
}

/// An optional position as a mathematical value.
pub open spec fn opt_int(o: Option<usize>) -> Option<int> {
    match o {
        Some(i) => Some(i as int),
        None => None,
    }
}

/// The position of the node with key `key`.
pub fn find_node(nodes: &Vec<DotNode>, key: &str) -> (r: Option<usize>)
    ensures
        opt_int(r) == key_index(nodes_view(nodes@), key@),
{
    let ghost v = nodes_view(nodes@);
    let mut i: usize = 0;
    while i < nodes.len()
        invariant
            v == nodes_view(nodes@),
            i <= nodes.len(),
            key_index(v, key@) == key_index_from(v, key@, i as int),
        decreases nodes.len() - i,
    {
        if str_eq(nodes[i].key.as_str(), key) {
            assert(v[i as int].key == key@);
            return Some(i);
        }
        assert(v[i as int].key != key@);
        i = i + 1;
    }
    None
}

/// Add a node unless one with the same key exists.
pub fn ensure_node(nodes: &mut Vec<DotNode>, key: String, scope: ScopeId, label: String)
    ensures
        nodes_view(final(nodes)@) == if key_index(nodes_view(old(nodes)@), key@) is Some {
            nodes_view(old(nodes)@)
        } else {
            nodes_view(old(nodes)@).push(NodeSpec { key: key@, scope, label: label@ })
        },
{
    if find_node(nodes, key.as_str()).is_none() {
        let ghost k = key@;
        let ghost l = label@;
        nodes.push(DotNode { key, scope, label });
        assert(nodes_view(nodes@) =~= nodes_view(old(nodes)@).push(NodeSpec { key: k, scope, label: l }));
    }
}

/// The node key of the provider registered under `k`, if one is.
pub fn provider_node_key(c: &Container, k: ProviderKey) -> (r: Option<String>)
    ensures
        r is Some <==> c.has_key(k),
        r matches Some(t) ==> t@ == provider_key_text(c, k),
{
    let p = match c.provider_at(k) {
        Some(p) => p,
        None => return None,
    };
    let module = c.scopes().name(k.scope);
    let mut s = String::from_str("provider:");
    s.append(module);
    s.append(":");
    if k.is_group_member() {
        s.append(short_name(p.constructor_name()));
        s.append("#");
        let n = decimal_text(k.ordinal as usize);
        s.append(n.as_str());
    } else {
        let t = if c.aggregate_element(k).is_some() {
            display_type_name(p.result_name())
        } else {
            label_type_name(p.result_name())
        };
        s.append(t.as_str());
        if k.private {
            s.append(":private");
        }
    }
    Some(s)
}

/// The label of the provider registered under `k`, if one is.
pub fn provider_label(c: &Container, k: ProviderKey) -> (r: Option<String>)
    ensures
        r is Some <==> c.has_key(k),
        r matches Some(t) ==> t@ == provider_label_text(c, k),
{
    let p = match c.provider_at(k) {
        Some(p) => p,
        None => return None,
    };
    if k.is_group_member() {
        let mut s = label_type_name(p.result_name());
        s.append("\nctor=");
        s.append(short_name(p.constructor_name()));
        s.append("\n(group member)");
        Some(s)
    } else if c.aggregate_element(k).is_some() {
        let mut s = display_type_name(p.result_name());
        s.append("\nctor=");
        s.append(p.constructor_name());
        s.append("\n(group aggregate)");
        Some(s)
    } else {
        let mut s = label_type_name(p.result_name());
        s.append("\nctor=");
        s.append(short_name(p.constructor_name()));
        if k.private {
            s.append("\n(private)");
        }
        Some(s)
    }
}

/// The node key of a value of type `id` bound in `scope`.
pub fn value_node_key(c: &Container, id: u64, scope: ScopeId, private: bool) -> (s: String)
    ensures
        s@ == value_key_text(c, id, scope, private),
{
    let mut s = String::from_str("value:");
    s.append(c.scopes().name(scope));
    s.append(":");
    let n = decimal_text_u64(id);
    s.append(n.as_str());
    s.append(":");
    if private {
        s.append("private");
    } else {
        s.append("public");
    }
    s
}

/// The node key of invoker number `index`, whose function is `function`.
pub fn invoker_node_key(index: usize, function: &str) -> (s: String)
    ensures
        s@ == invoker_key_text(index as int, function@),
{
    let mut s = String::from_str("invoker:");
    let n = decimal_text(index);
    s.append(n.as_str());
    s.append(":");
    s.append(short_name(function));
    s
}

} // verus!

verus! {

/// Adding one candidate to the end adds it to the deduplicated nodes unless
/// its key is already there.
proof fn lemma_dedup_push(s: Seq<NodeSpec>, x: NodeSpec)
    ensures
        dedup(s.push(x)) == if key_index(dedup(s), x.key) is Some {
            dedup(s)
        } else {
            dedup(s).push(x)
        },
{
    assert(s.push(x).drop_last() =~= s);
}

/// The value candidates of one more supplied value.
proof fn lemma_value_cands_step(c: &Container, vs: Seq<ValueNode>, j: int)
    requires
        0 <= j < vs.len(),
    ensures
        value_cands(c, vs.subrange(0, j + 1)) == if c.builtins_spec().contains(vs[j].type_id) {
            value_cands(c, vs.subrange(0, j))
        } else {
            value_cands(c, vs.subrange(0, j)).push(
                NodeSpec {
                    key: value_key_text(c, vs[j].type_id, vs[j].scope, vs[j].private),
                    scope: vs[j].scope,
                    label: label_type_name_spec(vs[j].type_label@) + "\n(supplied)"@,
                },
            )
        },
{
    assert(vs.subrange(0, j + 1).drop_last() =~= vs.subrange(0, j));
}

/// The nodes of the graph: every provider, every supplied value that is not a
/// framework handle, and every invoker, each key once.
pub fn collect_nodes(c: &Container, invokers: &[ScopedInvoker]) -> (nodes: Vec<DotNode>)
    ensures
        nodes_view(nodes@) == dot_nodes(c, invokers@),
{
    let mut nodes: Vec<DotNode> = Vec::new();
    let entries = c.entries();
    let ghost pc = provider_cands(c);
    let mut i: usize = 0;
    assert(pc.subrange(0, 0) =~= Seq::<NodeSpec>::empty());
    assert(nodes_view(nodes@) =~= Seq::<NodeSpec>::empty());
    while i < entries.len()
        invariant
            entries@ == c.entries_spec(),
            pc == provider_cands(c),
            i <= entries.len(),
            nodes_view(nodes@) == dedup(pc.subrange(0, i as int)),
        decreases entries.len() - i,
    {
        let k = entries[i].key;
        assert(entry_has_key(k)(c.entries_spec()[i as int]));
        let key = provider_node_key(c, k).unwrap();
        let label = provider_label(c, k).unwrap();
        proof {
            assert(pc.subrange(0, i as int + 1) =~= pc.subrange(0, i as int).push(pc[i as int]));
            lemma_dedup_push(pc.subrange(0, i as int), pc[i as int]);
        }
        ensure_node(&mut nodes, key, k.scope, label);
        i = i + 1;
    }
    assert(pc.subrange(0, entries.len() as int) =~= pc);
    let values = c.value_nodes();
    let mut j: usize = 0;
    assert(value_cands(c, values@.subrange(0, 0)) =~= Seq::<NodeSpec>::empty());
    assert(pc + value_cands(c, values@.subrange(0, 0)) =~= pc);
    while j < values.len()
        invariant
            values@ == c.value_nodes_spec(),
            pc == provider_cands(c),
            j <= values.len(),
            nodes_view(nodes@) == dedup(pc + value_cands(c, values@.subrange(0, j as int))),
        decreases values.len() - j,
    {
        let v = values[j];
        proof {
            lemma_value_cands_step(c, values@, j as int);
        }
        if !c.is_builtin(v.type_id) {
            let key = value_node_key(c, v.type_id, v.scope, v.private);
            let mut label = label_type_name(v.type_label);
            label.append("\n(supplied)");
            proof {
                let x = NodeSpec { key: key@, scope: v.scope, label: label@ };
                let before = pc + value_cands(c, values@.subrange(0, j as int));
                assert(pc + value_cands(c, values@.subrange(0, j as int + 1)) =~= before.push(x));
                lemma_dedup_push(before, x);
            }
            ensure_node(&mut nodes, key, v.scope, label);
        }
        j = j + 1;
    }
    assert(values@.subrange(0, values.len() as int) =~= values@);
    let ghost pv = pc + value_cands(c, c.value_nodes_spec());
    let ghost ic = invoker_cands(invokers@);
    let mut t: usize = 0;
    assert(pv + ic.subrange(0, 0) =~= pv);
    while t < invokers.len()
        invariant
            pv == pc + value_cands(c, c.value_nodes_spec()),
            ic == invoker_cands(invokers@),
            t <= invokers.len(),
            nodes_view(nodes@) == dedup(pv + ic.subrange(0, t as int)),
        decreases invokers.len() - t,
    {
        let function = invokers[t].invoker.name();
        let key = invoker_node_key(t, function);
        let mut label = String::from_str(short_name(function));
        label.append("\n(invoker)");
        proof {
            let x = NodeSpec { key: key@, scope: invokers@[t as int].scope, label: label@ };
            assert(ic[t as int] == x);
            assert(pv + ic.subrange(0, t as int + 1) =~= (pv + ic.subrange(0, t as int)).push(x));
            lemma_dedup_push(pv + ic.subrange(0, t as int), x);
        }
        ensure_node(&mut nodes, key, invokers[t].scope, label);
        t = t + 1;
    }
    assert(ic.subrange(0, invokers.len() as int) =~= ic);
    nodes
}

} // verus!

verus! {

/// The node a dependency on `id`, resolved from `from`, is drawn from.
pub fn resolve_dep(c: &Container, nodes: &Vec<DotNode>, id: u64, from: ScopeId) -> (r: Option<usize>)
    requires
        c.wf(),
        c.scope_tree().has(from),
    ensures
        opt_int(r) == match resolve_target(c, id, from) {
            Some(t) => key_index(nodes_view(nodes@), t),
            None => None,
        },
{
    let key = match c.resolve_value_binding(id, from) {
        Some(b) => value_node_key(c, id, b.scope, b.private),
        None => match c.resolve_provider(id, from) {
            Some(k) => match provider_node_key(c, k) {
                Some(t) => t,
                None => return None,
            },
            None => return None,
        },
    };
    find_node(nodes, key.as_str())
}

/// Add the edges from the dependencies `deps`, resolved from `from`, to the
/// node `to`; framework handles and unresolved dependencies are skipped.
pub fn push_dep_edges(
    c: &Container,
    nodes: &Vec<DotNode>,
    deps: &[(u64, &'static str)],
    from: ScopeId,
    to: Option<usize>,
    edges: &mut Vec<(usize, usize, bool)>,
)
    requires
        c.wf(),
        c.scope_tree().has(from),
    ensures
        edges_view(final(edges)@) == edges_view(old(edges)@) + dep_edges(
            c,
            nodes_view(nodes@),
            deps@,
            from,
            opt_int(to),
        ),
{
    let ghost v = nodes_view(nodes@);
    let mut i: usize = 0;
    assert(deps@.subrange(0, 0) =~= Seq::<(u64, &'static str)>::empty());
    assert(edges_view(edges@) =~= edges_view(old(edges)@) + dep_edges(c, v, deps@.subrange(0, 0), from, opt_int(to)));
    while i < deps.len()
        invariant
            c.wf(),
            c.scope_tree().has(from),
            v == nodes_view(nodes@),
            i <= deps.len(),
            edges_view(edges@) == edges_view(old(edges)@) + dep_edges(
                c,
                v,
                deps@.subrange(0, i as int),
                from,
                opt_int(to),
            ),
        decreases deps.len() - i,
    {
        let (id, _name) = deps[i];
        let ghost pre = deps@.subrange(0, i as int);
        proof {
            assert(deps@.subrange(0, i as int + 1).drop_last() =~= pre);
        }
        if !c.is_builtin(id) {
            if let Some(b) = to {
                if let Some(a) = resolve_dep(c, nodes, id, from) {
                    let ghost before = edges@;
                    edges.push((a, b, false));
                    assert(edges_view(edges@) =~= edges_view(before).push((a as int, b as int, false)));
                }
            }
        }
        i = i + 1;
    }
    assert(deps@.subrange(0, deps.len() as int) =~= deps@);
}

/// The dependency edges of every provider, then of every invoker.
pub fn collect_dependency_edges(c: &Container, invokers: &[ScopedInvoker], nodes: &Vec<DotNode>) -> (edges: Vec<
    (usize, usize, bool),
>)
    requires
        c.wf(),
        forall|t: int| 0 <= t < invokers@.len() ==> c.scope_tree().has(#[trigger] invokers@[t].scope),
    ensures
        edges_view(edges@) == provider_edges(c, nodes_view(nodes@), c.entries_spec().len() as int)
            + invoker_edges(c, nodes_view(nodes@), invokers@, invokers@.len() as int),
{
    let ghost v = nodes_view(nodes@);
    let mut edges: Vec<(usize, usize, bool)> = Vec::new();
    let entries = c.entries();
    let mut i: usize = 0;
    assert(edges_view(edges@) =~= Seq::<(int, int, bool)>::empty());
    while i < entries.len()
        invariant
            c.wf(),
            entries@ == c.entries_spec(),
            v == nodes_view(nodes@),
            i <= entries.len(),
            edges_view(edges@) == provider_edges(c, v, i as int),
        decreases entries.len() - i,
    {
        let k = entries[i].key;
        assert(entry_has_key(k)(c.entries_spec()[i as int]));
        assert(c.scope_tree().has(c.entries_spec()[i as int].key.scope));
        let p = c.provider_at(k).unwrap();
        let to = match provider_node_key(c, k) {
            Some(t) => find_node(nodes, t.as_str()),
            None => None,
        };
        push_dep_edges(c, nodes, p.dep_types(), k.scope, to, &mut edges);
        i = i + 1;
    }
    let ghost pe = provider_edges(c, v, c.entries_spec().len() as int);
    let mut t: usize = 0;
    assert(pe + invoker_edges(c, v, invokers@, 0) =~= pe);
    while t < invokers.len()
        invariant
            c.wf(),
            forall|u: int| 0 <= u < invokers@.len() ==> c.scope_tree().has(#[trigger] invokers@[u].scope),
            v == nodes_view(nodes@),
            pe == provider_edges(c, v, c.entries_spec().len() as int),
            t <= invokers.len(),
            edges_view(edges@) == pe + invoker_edges(c, v, invokers@, t as int),
        decreases invokers.len() - t,
    {
        let s = &invokers[t];
        let key = invoker_node_key(t, s.invoker.name());
        let to = find_node(nodes, key.as_str());
        assert(c.scope_tree().has(invokers@[t as int].scope));
        let ghost before = edges_view(edges@);
        push_dep_edges(c, nodes, s.invoker.dep_types(), s.scope, to, &mut edges);
        assert(pe + invoker_edges(c, v, invokers@, t as int + 1) =~= before + dep_edges(
            c,
            v,
            invokers@[t as int].invoker.deps_spec(),
            invokers@[t as int].scope,
            opt_int(to),
        ));
        t = t + 1;
    }
    edges
}

/// Add a dotted edge from every group member to its group.
pub fn collect_group_edges(c: &Container, nodes: &Vec<DotNode>, edges: &mut Vec<(usize, usize, bool)>)
    ensures
        edges_view(final(edges)@) == edges_view(old(edges)@) + group_edges(
            c,
            nodes_view(nodes@),
            c.group_regs_spec().len() as int,
        ),
{
    let ghost v = nodes_view(nodes@);
    let regs = c.group_regs();
    let mut r: usize = 0;
    assert(edges_view(edges@) =~= edges_view(old(edges)@) + group_edges(c, v, 0));
    while r < regs.len()
        invariant
            regs@ == c.group_regs_spec(),
            v == nodes_view(nodes@),
            r <= regs.len(),
            edges_view(edges@) == edges_view(old(edges)@) + group_edges(c, v, r as int),
        decreases regs.len() - r,
    {
        let (element, virtual_key) = regs[r];
        let group = match provider_node_key(c, virtual_key) {
            Some(t) => find_node(nodes, t.as_str()),
            None => None,
        };
        let members = c.group_member_keys(element);
        let ghost base = edges_view(edges@);
        let mut m: usize = 0;
        assert(members@.subrange(0, 0) =~= Seq::<ProviderKey>::empty());
        assert(edges_view(edges@) =~= base + member_edges(c, v, members@.subrange(0, 0), opt_int(group)));
        while m < members.len()
            invariant
                v == nodes_view(nodes@),
                m <= members.len(),
                edges_view(edges@) == base + member_edges(c, v, members@.subrange(0, m as int), opt_int(group)),
            decreases members.len() - m,
        {
            proof {
                assert(members@.subrange(0, m as int + 1).drop_last() =~= members@.subrange(0, m as int));
            }
            let member = match provider_node_key(c, members[m]) {
                Some(t) => find_node(nodes, t.as_str()),
                None => None,
            };
            if let (Some(a), Some(b)) = (member, group) {
                let ghost before = edges@;
                edges.push((a, b, true));
                assert(edges_view(edges@) =~= edges_view(before).push((a as int, b as int, true)));
            }
            m = m + 1;
        }
        assert(members@.subrange(0, members.len() as int) =~= members@);
        assert(edges_view(old(edges)@) + group_edges(c, v, r as int + 1) =~= base + member_edges(
            c,
            v,
            c.members_of(element),
            opt_int(group),
        ));
        r = r + 1;
    }
}

} // verus!

verus! {

/// The DOT attributes of a node.
pub fn node_attrs_text(c: &Container, node: &DotNode) -> (s: String)
    ensures
        s@ == node_attrs(c, node_view(*node)),
{
    let mut s = String::from_str("label=\"");
    let label = dot_escape(node.label.as_str());
    s.append(label.as_str());
    s.append("\" tooltip=\"");
    let mut tip = String::from_str(c.scopes().name(node.scope));
    tip.append("::");
    tip.append(node.key.as_str());
    let tip = dot_escape(tip.as_str());
    s.append(tip.as_str());
    s.append("\"");
    s
}

/// Some node belongs to `scope`.
pub fn scope_in_use(nodes: &Vec<DotNode>, scope: ScopeId) -> (b: bool)
    ensures
        b == scope_used(nodes_view(nodes@), scope),
{
    let ghost v = nodes_view(nodes@);
    let mut i: usize = 0;
    while i < nodes.len()
        invariant
            v == nodes_view(nodes@),
            i <= nodes.len(),
            forall|j: int| 0 <= j < i ==> v[j].scope != scope,
        decreases nodes.len() - i,
    {
        if nodes[i].scope == scope {
            assert(v[i as int].scope == scope);
            return true;
        }
        i = i + 1;
    }
    false
}

/// Append the statements of the nodes that belong to `scope`.
pub fn push_scope_lines(c: &Container, nodes: &Vec<DotNode>, scope: ScopeId, indent: &str, out: &mut String)
    ensures
        final(out)@ == old(out)@ + scope_lines(c, nodes_view(nodes@), scope, indent@, nodes@.len() as int),
{
    let ghost v = nodes_view(nodes@);
    let mut i: usize = 0;
    assert(out@ =~= old(out)@ + scope_lines(c, v, scope, indent@, 0));
    while i < nodes.len()
        invariant
            v == nodes_view(nodes@),
            i <= nodes.len(),
            out@ == old(out)@ + scope_lines(c, v, scope, indent@, i as int),
        decreases nodes.len() - i,
    {
        let ghost before = out@;
        if nodes[i].scope == scope {
            out.append(indent);
            out.append("n");
            let n = decimal_text(i);
            out.append(n.as_str());
            out.append(" [");
            let attrs = node_attrs_text(c, &nodes[i]);
            out.append(attrs.as_str());
            out.append("];\n");
        }
        assert(out@ =~= old(out)@ + scope_lines(c, v, scope, indent@, i as int + 1));
        i = i + 1;
    }
}

/// The DOT document: a header, one block per module scope in scope order,
/// then one statement per edge.
pub fn format_dot(c: &Container, nodes: &Vec<DotNode>, edges: &Vec<(usize, usize, bool)>) -> (s: String)
    requires
        c.wf(),
    ensures
        s@ == "digraph modrun {\n  rankdir=LR;\n  node [shape=box];\n"@ + clusters(
            c,
            nodes_view(nodes@),
            c.scope_tree().len() as int,
        ) + edge_lines(edges_view(edges@), edges@.len() as int) + "}\n"@,
{
    let ghost v = nodes_view(nodes@);
    let ghost head = "digraph modrun {\n  rankdir=LR;\n  node [shape=box];\n"@;
    let mut out = String::from_str("digraph modrun {\n  rankdir=LR;\n  node [shape=box];\n");
    let count = c.scopes().count();
    let mut s: usize = 0;
    assert(out@ =~= head + clusters(c, v, 0));
    while s < count
        invariant
            c.wf(),
            count == c.scope_tree().len(),
            v == nodes_view(nodes@),
            s <= count,
            out@ == head + clusters(c, v, s as int),
        decreases count - s,
    {
        let sid = ScopeId(s as u32);
        let ghost before = out@;
        if scope_in_use(nodes, sid) {
            if s == 0 {
                push_scope_lines(c, nodes, sid, "  ", &mut out);
            } else {
                out.append("  subgraph cluster_");
                let n = decimal_text(s);
                out.append(n.as_str());
                out.append(" {\n");
                out.append("    label=\"");
                let name = dot_escape(c.scopes().name(sid));
                out.append(name.as_str());
                out.append("\";\n");
                push_scope_lines(c, nodes, sid, "    ", &mut out);
                out.append("  }\n");
            }
        }
        assert(out@ =~= head + clusters(c, v, s as int + 1));
        s = s + 1;
    }
    let ghost ev = edges_view(edges@);
    let ghost mid = out@;
    let mut e: usize = 0;
    assert(out@ =~= mid + edge_lines(ev, 0));
    while e < edges.len()
        invariant
            ev == edges_view(edges@),
            e <= edges.len(),
            out@ == mid + edge_lines(ev, e as int),
        decreases edges.len() - e,
    {
        let (from, to, member) = edges[e];
        out.append("  n");
        let a = decimal_text(from);
        out.append(a.as_str());
        out.append(" -> n");
        let b = decimal_text(to);
        out.append(b.as_str());
        if member {
            out.append(" [style=dotted, arrowhead=none]");
        }
        out.append(";\n");
        assert(out@ =~= mid + edge_lines(ev, e as int + 1));
        e = e + 1;
    }
    out.append("}\n");
    out
}

/// The dependency graph of `c` and its invokers as a Graphviz DOT document.
pub fn render_dot(c: &Container, invokers: &[ScopedInvoker]) -> (s: String)
    requires
        c.wf(),
        forall|t: int| 0 <= t < invokers@.len() ==> c.scope_tree().has(#[trigger] invokers@[t].scope),
    ensures
        s@ == dot_text(c, invokers@),
{
    let nodes = collect_nodes(c, invokers);
    let mut edges = collect_dependency_edges(c, invokers, &nodes);
    collect_group_edges(c, &nodes, &mut edges);
    format_dot(c, &nodes, &edges)
}

} // verus!

verus! {

/// No node at or after `i` has key `k` when the search from `i` finds none.
proof fn lemma_key_index_none(d: Seq<NodeSpec>, k: Seq<char>, i: int)
    requires
        0 <= i,
        key_index_from(d, k, i) is None,
    ensures
        forall|j: int| i <= j < d.len() ==> d[j].key != k,
    decreases d.len() - i,
{
    if i < d.len() {
        lemma_key_index_none(d, k, i + 1);
    }
}

/// The search from `i` finds a node with key `k` at or after `i` when one
/// exists.
proof fn lemma_key_index_some(d: Seq<NodeSpec>, k: Seq<char>, i: int, j: int)
    requires
        0 <= i <= j < d.len(),
        d[j].key == k,
    ensures
        key_index_from(d, k, i) is Some,
    decreases j - i,
{
    if d[i].key != k {
        lemma_key_index_some(d, k, i + 1, j);
    }
}

/// Deduplication keeps each key once, and keeps every key.
proof fn lemma_dedup(s: Seq<NodeSpec>)
    ensures
        forall|i: int, j: int| 0 <= i < j < dedup(s).len() ==> dedup(s)[i].key != dedup(s)[j].key,
        forall|t: int| 0 <= t < s.len() ==> key_index(dedup(s), #[trigger] s[t].key) is Some,
    decreases s.len(),
{
    if s.len() > 0 {
        let front = s.drop_last();
        lemma_dedup(front);
        let d = dedup(front);
        let x = s.last();
        if key_index(d, x.key) is None {
            lemma_key_index_none(d, x.key, 0);
            let e = d.push(x);
            assert forall|t: int| 0 <= t < s.len() implies key_index(e, #[trigger] s[t].key) is Some by {
                if t == s.len() - 1 {
                    lemma_key_index_some(e, x.key, 0, d.len() as int);
                } else {
                    assert(s[t] == front[t]);
                    assert(key_index(d, front[t].key) is Some);
                    let w = key_index(d, front[t].key).unwrap();
                    lemma_key_index_found(d, front[t].key, 0);
                    lemma_key_index_some(e, s[t].key, 0, w);
                }
            }
        } else {
            assert forall|t: int| 0 <= t < s.len() implies key_index(d, #[trigger] s[t].key) is Some by {
                if t < s.len() - 1 {
                    assert(s[t] == front[t]);
                }
            }
        }
    }
}

/// What the search finds is a node with the key, inside the sequence.
proof fn lemma_key_index_found(d: Seq<NodeSpec>, k: Seq<char>, i: int)
    requires
        0 <= i,
        key_index_from(d, k, i) is Some,
    ensures
        i <= key_index_from(d, k, i).unwrap() < d.len(),
        d[key_index_from(d, k, i).unwrap()].key == k,
    decreases d.len() - i,
{
    if i < d.len() && d[i].key != k {
        lemma_key_index_found(d, k, i + 1);
    }
}

/// The graph has one node per key: no two nodes share a key, and every
/// provider, every supplied value that is not a framework handle, and every
/// invoker has its node.
pub proof fn law_dot_nodes_unique_and_complete(c: &Container, invs: Seq<ScopedInvoker>)
    ensures
        forall|i: int, j: int|
            0 <= i < j < dot_nodes(c, invs).len() ==> dot_nodes(c, invs)[i].key != dot_nodes(c, invs)[j].key,
        forall|t: int|
            0 <= t < c.entries_spec().len() ==> key_index(
                dot_nodes(c, invs),
                provider_key_text(c, #[trigger] c.entries_spec()[t].key),
            ) is Some,
        forall|t: int|
            0 <= t < invs.len() ==> key_index(
                dot_nodes(c, invs),
                invoker_key_text(t, (#[trigger] invs[t]).invoker.name_spec()@),
            ) is Some,
{
    let pc = provider_cands(c);
    let all = pc + value_cands(c, c.value_nodes_spec()) + invoker_cands(invs);
    lemma_dedup(all);
    assert forall|t: int| 0 <= t < c.entries_spec().len() implies key_index(
        dot_nodes(c, invs),
        provider_key_text(c, #[trigger] c.entries_spec()[t].key),
    ) is Some by {
        assert(all[t] == pc[t]);
        assert(pc[t].key == provider_key_text(c, c.entries_spec()[t].key));
        assert(key_index(dedup(all), all[t].key) is Some);
    }
    assert forall|t: int| 0 <= t < invs.len() implies key_index(
        dot_nodes(c, invs),
        invoker_key_text(t, (#[trigger] invs[t]).invoker.name_spec()@),
    ) is Some by {
        let base = pc.len() + value_cands(c, c.value_nodes_spec()).len();
        assert(all[base + t] == invoker_cands(invs)[t]);
        assert(key_index(dedup(all), all[base + t].key) is Some);
    }
}

} // verus!

verus! {

// ---- the cluster structure of the document --------------------------------

/// The positions, among the first `n` nodes, of the nodes that belong to
/// scope `s`, in increasing order.
pub open spec fn scope_members(nodes: Seq<NodeSpec>, s: ScopeId, n: int) -> Seq<int>
    decreases n,
{
    if n <= 0 {
        Seq::empty()
    } else if nodes[n - 1].scope == s {
        scope_members(nodes, s, n - 1).push(n - 1)
    } else {
        scope_members(nodes, s, n - 1)
    }
}

/// The statement declaring node `i`, indented by `indent`.
pub open spec fn node_line(c: &Container, nodes: Seq<NodeSpec>, i: int, indent: Seq<char>) -> Seq<char> {
    indent + "n"@ + decimal(i as nat) + " ["@ + node_attrs(c, nodes[i]) + "];\n"@
}

/// The statements declaring the nodes at positions `ms`, in that order.
pub open spec fn node_lines(c: &Container, nodes: Seq<NodeSpec>, ms: Seq<int>, indent: Seq<char>) -> Seq<char>
    decreases ms.len(),
{
    if ms.len() == 0 {
        Seq::empty()
    } else {
        node_lines(c, nodes, ms.drop_last(), indent) + node_line(c, nodes, ms.last(), indent)
    }
}

/// The lines of a scope declare exactly its member nodes, in order.
proof fn lemma_scope_lines_members(c: &Container, nodes: Seq<NodeSpec>, s: ScopeId, indent: Seq<char>, n: int)
    requires
        0 <= n <= nodes.len(),
    ensures
        scope_lines(c, nodes, s, indent, n) == node_lines(c, nodes, scope_members(nodes, s, n), indent),
        forall|i: int| scope_members(nodes, s, n).contains(i) <==> (0 <= i < n && nodes[i].scope == s),
        forall|a: int, b: int|
            0 <= a < b < scope_members(nodes, s, n).len() ==> scope_members(nodes, s, n)[a] < scope_members(
                nodes,
                s,
                n,
            )[b],
        forall|a: int| 0 <= a < scope_members(nodes, s, n).len() ==> 0 <= #[trigger] scope_members(nodes, s, n)[a] < n,
    decreases n,
{
    if n > 0 {
        lemma_scope_lines_members(c, nodes, s, indent, n - 1);
        let m = scope_members(nodes, s, n - 1);
        if nodes[n - 1].scope == s {
            let m2 = m.push(n - 1);
            assert(m2.drop_last() =~= m);
            assert forall|i: int| m2.contains(i) <==> (0 <= i < n && nodes[i].scope == s) by {
                if m2.contains(i) && i != n - 1 {
                    let t = choose|t: int| 0 <= t < m2.len() && m2[t] == i;
                    assert(m[t] == i);
                }
                if 0 <= i < n - 1 && nodes[i].scope == s {
                    assert(m.contains(i));
                    let t = choose|t: int| 0 <= t < m.len() && m[t] == i;
                    assert(m2[t] == i);
                }
                if m2.contains(i) && i != n - 1 {
                    let t = choose|t: int| 0 <= t < m2.len() && m2[t] == i;
                    assert(t < m.len());
                    assert(m.contains(i));
                }
                if i == n - 1 {
                    assert(m2[m.len() as int] == i);
                }
            }
        } else {
            assert forall|i: int| m.contains(i) <==> (0 <= i < n && nodes[i].scope == s) by {
                if m.contains(i) {
                    let t = choose|t: int| 0 <= t < m.len() && m[t] == i;
                    assert(0 <= m[t] < n - 1);
                }
            }
        }
    }
}

/// Every node of a deduplicated sequence is one of the sequence's nodes.
proof fn lemma_dedup_from(s: Seq<NodeSpec>)
    ensures
        forall|i: int| 0 <= i < dedup(s).len() ==> exists|t: int| 0 <= t < s.len() && s[t] == #[trigger] dedup(s)[i],
    decreases s.len(),
{
    if s.len() > 0 {
        let front = s.drop_last();
        lemma_dedup_from(front);
        let d = dedup(front);
        assert forall|i: int| 0 <= i < dedup(s).len() implies exists|t: int| 0 <= t < s.len() && s[t] == #[trigger] dedup(s)[i] by {
            if i < d.len() {
                assert(dedup(s)[i] == d[i]);
                let t = choose|t: int| 0 <= t < front.len() && front[t] == d[i];
                assert(s[t] == front[t]);
            } else {
                assert(dedup(s)[i] == s.last());
                assert(s[s.len() - 1] == s.last());
            }
        }
    }
}

/// The supplied-value nodes sit in the scopes of the value nodes.
proof fn lemma_value_cands_scopes(c: &Container, vs: Seq<ValueNode>)
    ensures
        forall|i: int|
            0 <= i < value_cands(c, vs).len() ==> exists|t: int|
                0 <= t < vs.len() && vs[t].scope == (#[trigger] value_cands(c, vs)[i]).scope,
    decreases vs.len(),
{
    if vs.len() > 0 {
        let front = vs.drop_last();
        lemma_value_cands_scopes(c, front);
        let r = value_cands(c, front);
        assert forall|i: int| 0 <= i < value_cands(c, vs).len() implies exists|t: int|
            0 <= t < vs.len() && vs[t].scope == (#[trigger] value_cands(c, vs)[i]).scope by {
            if i < r.len() {
                assert(value_cands(c, vs)[i] == r[i]);
                let t = choose|t: int| 0 <= t < front.len() && front[t].scope == r[i].scope;
                assert(vs[t] == front[t]);
            } else {
                assert(vs[vs.len() - 1] == vs.last());
            }
        }
    }
}

/// The clusters of the DOT document: after the header, every scope of the
/// tree gets one block in scope order, made of exactly the declarations of
/// its own nodes, in node order. A scope without nodes prints nothing, the
/// root's nodes stand at top level outside every subgraph, and every other
/// scope holding nodes is one `subgraph cluster_N` (`N` its number) labelled
/// with its escaped name. Every node belongs to exactly one scope of the
/// tree, so it is declared exactly once. The edges and the closing brace
/// follow.
pub proof fn law_dot_clusters(c: &Container, invs: Seq<ScopedInvoker>)
    requires
        c.wf(),
        forall|t: int| 0 <= t < invs.len() ==> c.scope_tree().has(#[trigger] invs[t].scope),
    ensures
        ({
            let nodes = dot_nodes(c, invs);
            let edges = dot_edges(c, invs, nodes);
            dot_text(c, invs) == "digraph modrun {\n  rankdir=LR;\n  node [shape=box];\n"@ + clusters(
                c,
                nodes,
                c.scope_tree().len() as int,
            ) + edge_lines(edges, edges.len() as int) + "}\n"@
        }),
        forall|n: int|
            0 <= n <= c.scope_tree().len() ==> #[trigger] clusters(c, dot_nodes(c, invs), n) == if n == 0 {
                Seq::empty()
            } else {
                clusters(c, dot_nodes(c, invs), n - 1) + cluster_block(c, dot_nodes(c, invs), (n - 1) as u32)
            },
        forall|s: int|
            0 <= s < c.scope_tree().len() ==> #[trigger] cluster_block(c, dot_nodes(c, invs), s as u32) == {
                let nodes = dot_nodes(c, invs);
                let ms = scope_members(nodes, ScopeId(s as u32), nodes.len() as int);
                if ms.len() == 0 {
                    Seq::empty()
                } else if s == 0 {
                    node_lines(c, nodes, ms, "  "@)
                } else {
                    "  subgraph cluster_"@ + decimal(s as nat) + " {\n"@ + "    label=\""@ + dot_escape_spec(
                        module_of(c, ScopeId(s as u32)),
                    ) + "\";\n"@ + node_lines(c, nodes, ms, "    "@) + "  }\n"@
                }
            },
        forall|i: int|
            0 <= i < dot_nodes(c, invs).len() ==> c.scope_tree().has((#[trigger] dot_nodes(c, invs)[i]).scope)
                && scope_members(dot_nodes(c, invs), dot_nodes(c, invs)[i].scope, dot_nodes(c, invs).len() as int).contains(i),
        forall|i: int, s: ScopeId|
            0 <= i < dot_nodes(c, invs).len() && s != dot_nodes(c, invs)[i].scope ==> !#[trigger] scope_members(
                dot_nodes(c, invs),
                s,
                dot_nodes(c, invs).len() as int,
            ).contains(i),
        forall|s: ScopeId, a: int, b: int|
            0 <= a < b < scope_members(dot_nodes(c, invs), s, dot_nodes(c, invs).len() as int).len() ==> #[trigger] scope_members(
                dot_nodes(c, invs),
                s,
                dot_nodes(c, invs).len() as int,
            )[a] < #[trigger] scope_members(dot_nodes(c, invs), s, dot_nodes(c, invs).len() as int)[b],
{
    let nodes = dot_nodes(c, invs);
    let n = nodes.len() as int;
    assert forall|s: ScopeId, a: int, b: int|
        0 <= a < b < scope_members(nodes, s, n).len() implies #[trigger] scope_members(nodes, s, n)[a]
        < #[trigger] scope_members(nodes, s, n)[b] by {
        lemma_scope_lines_members(c, nodes, s, "  "@, n);
    }
    assert forall|i: int, s: ScopeId| 0 <= i < n && s != nodes[i].scope implies !#[trigger] scope_members(
        nodes,
        s,
        n,
    ).contains(i) by {
        lemma_scope_lines_members(c, nodes, s, "  "@, n);
    }
    let pc = provider_cands(c);
    let vc = value_cands(c, c.value_nodes_spec());
    let ic = invoker_cands(invs);
    let all = pc + vc + ic;
    lemma_dedup_from(all);
    lemma_value_cands_scopes(c, c.value_nodes_spec());
    assert forall|i: int| 0 <= i < n implies c.scope_tree().has((#[trigger] nodes[i]).scope) && scope_members(
        nodes,
        nodes[i].scope,
        n,
    ).contains(i) by {
        lemma_scope_lines_members(c, nodes, nodes[i].scope, "  "@, n);
        let t = choose|t: int| 0 <= t < all.len() && all[t] == nodes[i];
        if t < pc.len() {
            assert(all[t] == pc[t]);
            assert(pc[t].scope == c.entries_spec()[t].key.scope);
        } else if t < pc.len() + vc.len() {
            assert(all[t] == vc[t - pc.len()]);
            let u = choose|u: int|
                0 <= u < c.value_nodes_spec().len() && c.value_nodes_spec()[u].scope == vc[t - pc.len()].scope;
            assert(c.scope_tree().has(c.value_nodes_spec()[u].scope));
        } else {
            let v = t - pc.len() - vc.len();
            assert(all[t] == ic[v]);
            assert(ic[v].scope == invs[v].scope);
        }
    }
    assert forall|s: int| 0 <= s < c.scope_tree().len() implies #[trigger] cluster_block(c, nodes, s as u32) == {
        let ms = scope_members(nodes, ScopeId(s as u32), n);
        if ms.len() == 0 {
            Seq::empty()
        } else if s == 0 {
            node_lines(c, nodes, ms, "  "@)
        } else {
            "  subgraph cluster_"@ + decimal(s as nat) + " {\n"@ + "    label=\""@ + dot_escape_spec(
                module_of(c, ScopeId(s as u32)),
            ) + "\";\n"@ + node_lines(c, nodes, ms, "    "@) + "  }\n"@
        }
    } by {
        let sid = ScopeId(s as u32);
        lemma_scope_lines_members(c, nodes, sid, "  "@, n);
        lemma_scope_lines_members(c, nodes, sid, "    "@, n);
        let ms = scope_members(nodes, sid, n);
        if ms.len() > 0 {
            assert(ms.contains(ms[0]));
            assert(nodes[ms[0]].scope == sid);
            assert(scope_used(nodes, sid));
        } else if scope_used(nodes, sid) {
            let i = choose|i: int| 0 <= i < nodes.len() && #[trigger] nodes[i].scope == sid;
            assert(ms.contains(i));
        }
    }
}

} // verus!

verus! {

/// `e` is the dotted edge from member `j` of `ms` to the group node `g`.
pub open spec fn member_edge_at(c: &Container, nodes: Seq<NodeSpec>, ms: Seq<ProviderKey>, g: Option<int>, j: int, e: (
    int,
    int,
    bool,
)) -> bool {
    &&& 0 <= j < ms.len()
    &&& provider_node(c, nodes, ms[j]) == Some(e.0)
    &&& g == Some(e.1)
    &&& e.2
}

/// `e` is the dotted edge from member `j` of group registration `i` to the
/// node of that group's aggregate.
pub open spec fn is_membership_edge(c: &Container, nodes: Seq<NodeSpec>, i: int, j: int, e: (int, int, bool)) -> bool {
    &&& 0 <= i < c.group_regs_spec().len()
    &&& member_edge_at(
        c,
        nodes,
        c.members_of(c.group_regs_spec()[i].0),
        provider_node(c, nodes, c.group_regs_spec()[i].1),
        j,
        e,
    )
}

/// The number of members of the first `n` group registrations.
pub open spec fn member_total(c: &Container, n: int) -> int
    decreases n,
{
    if n <= 0 {
        0
    } else {
        member_total(c, n - 1) + c.members_of(c.group_regs_spec()[n - 1].0).len()
    }
}

/// The number of dotted edges in `es`.
pub open spec fn dotted_count(es: Seq<(int, int, bool)>) -> int
    decreases es.len(),
{
    if es.len() == 0 {
        0
    } else {
        dotted_count(es.drop_last()) + if es.last().2 {
            1int
        } else {
            0int
        }
    }
}

proof fn lemma_contains_in_sum<A>(s1: Seq<A>, s2: Seq<A>, x: A)
    ensures
        s1.contains(x) ==> (s1 + s2).contains(x),
        s2.contains(x) ==> (s1 + s2).contains(x),
        (s1 + s2).contains(x) ==> s1.contains(x) || s2.contains(x),
{
    if s1.contains(x) {
        let i = choose|i: int| 0 <= i < s1.len() && s1[i] == x;
        assert((s1 + s2)[i] == x);
    }
    if s2.contains(x) {
        let j = choose|j: int| 0 <= j < s2.len() && s2[j] == x;
        assert((s1 + s2)[s1.len() + j] == x);
    }
    if (s1 + s2).contains(x) {
        let k = choose|k: int| 0 <= k < (s1 + s2).len() && (s1 + s2)[k] == x;
        if k < s1.len() {
            assert(s1[k] == x);
        } else {
            assert(s2[k - s1.len()] == x);
        }
    }
}

proof fn lemma_dotted_count_sum(s1: Seq<(int, int, bool)>, s2: Seq<(int, int, bool)>)
    ensures
        dotted_count(s1 + s2) == dotted_count(s1) + dotted_count(s2),
    decreases s2.len(),
{
    if s2.len() == 0 {
        assert(s1 + s2 =~= s1);
    } else {
        lemma_dotted_count_sum(s1, s2.drop_last());
        assert((s1 + s2).drop_last() =~= s1 + s2.drop_last());
    }
}

proof fn lemma_dotted_count_plain(s: Seq<(int, int, bool)>)
    requires
        forall|k: int| 0 <= k < s.len() ==> !(#[trigger] s[k]).2,
    ensures
        dotted_count(s) == 0,
    decreases s.len(),
{
    if s.len() > 0 {
        lemma_dotted_count_plain(s.drop_last());
    }
}

proof fn lemma_dotted_count_bound(s: Seq<(int, int, bool)>)
    ensures
        0 <= dotted_count(s) <= s.len(),
    decreases s.len(),
{
    if s.len() > 0 {
        lemma_dotted_count_bound(s.drop_last());
    }
}

/// Dependency edges are never dotted.
proof fn lemma_dep_edges_plain(
    c: &Container,
    nodes: Seq<NodeSpec>,
    deps: Seq<(u64, &'static str)>,
    from: ScopeId,
    to: Option<int>,
)
    ensures
        forall|k: int| 0 <= k < dep_edges(c, nodes, deps, from, to).len() ==> !(#[trigger] dep_edges(
            c,
            nodes,
            deps,
            from,
            to,
        )[k]).2,
    decreases deps.len(),
{
    if deps.len() > 0 {
        lemma_dep_edges_plain(c, nodes, deps.drop_last(), from, to);
        let rest = dep_edges(c, nodes, deps.drop_last(), from, to);
        let d = dep_edges(c, nodes, deps, from, to);
        assert(d == rest || exists|x: (int, int, bool)| !x.2 && d == rest.push(x));
        assert forall|k: int| 0 <= k < d.len() implies !(#[trigger] d[k]).2 by {
            if k < rest.len() {
                assert(d[k] == rest[k]);
            }
        }
    }
}

proof fn lemma_provider_edges_plain(c: &Container, nodes: Seq<NodeSpec>, n: int)
    ensures
        forall|k: int| 0 <= k < provider_edges(c, nodes, n).len() ==> !(#[trigger] provider_edges(c, nodes, n)[k]).2,
    decreases n,
{
    if n > 0 {
        lemma_provider_edges_plain(c, nodes, n - 1);
        let k = c.entries_spec()[n - 1].key;
        lemma_dep_edges_plain(c, nodes, entry_for(c, k).provider.deps_spec(), k.scope, provider_node(c, nodes, k));
        let a = provider_edges(c, nodes, n - 1);
        let b = dep_edges(c, nodes, entry_for(c, k).provider.deps_spec(), k.scope, provider_node(c, nodes, k));
        assert forall|t: int| 0 <= t < (a + b).len() implies !(#[trigger] (a + b)[t]).2 by {
            if t >= a.len() {
                assert((a + b)[t] == b[t - a.len()]);
            }
        }
    }
}

proof fn lemma_invoker_edges_plain(c: &Container, nodes: Seq<NodeSpec>, invs: Seq<ScopedInvoker>, n: int)
    ensures
        forall|k: int| 0 <= k < invoker_edges(c, nodes, invs, n).len() ==> !(#[trigger] invoker_edges(
            c,
            nodes,
            invs,
            n,
        )[k]).2,
    decreases n,
{
    if n > 0 {
        lemma_invoker_edges_plain(c, nodes, invs, n - 1);
        let s = invs[n - 1];
        lemma_dep_edges_plain(
            c,
            nodes,
            s.invoker.deps_spec(),
            s.scope,
            key_index(nodes, invoker_key_text(n - 1, s.invoker.name_spec()@)),
        );
        let a = invoker_edges(c, nodes, invs, n - 1);
        let b = dep_edges(
            c,
            nodes,
            s.invoker.deps_spec(),
            s.scope,
            key_index(nodes, invoker_key_text(n - 1, s.invoker.name_spec()@)),
        );
        assert forall|t: int| 0 <= t < (a + b).len() implies !(#[trigger] (a + b)[t]).2 by {
            if t >= a.len() {
                assert((a + b)[t] == b[t - a.len()]);
            }
        }
    }
}

/// Member `j` with a node gets its dotted edge to the group node.
proof fn lemma_member_edge_present(c: &Container, nodes: Seq<NodeSpec>, ms: Seq<ProviderKey>, g: Option<int>, j: int)
    requires
        0 <= j < ms.len(),
        provider_node(c, nodes, ms[j]) is Some,
        g is Some,
    ensures
        member_edges(c, nodes, ms, g).contains((provider_node(c, nodes, ms[j])->0, g->0, true)),
    decreases ms.len(),
{
    let front = ms.drop_last();
    let rest = member_edges(c, nodes, front, g);
    let me = member_edges(c, nodes, ms, g);
    let x = (provider_node(c, nodes, ms[j])->0, g->0, true);
    if j == ms.len() - 1 {
        assert(me == rest.push(x));
        assert(me[rest.len() as int] == x);
    } else {
        assert(front[j] == ms[j]);
        lemma_member_edge_present(c, nodes, front, g, j);
        let i = choose|i: int| 0 <= i < rest.len() && rest[i] == x;
        assert(me[i] == x);
    }
}

/// Every edge of `member_edges` is a member's dotted edge, and there is at
/// most one per member.
proof fn lemma_member_edges_sound(c: &Container, nodes: Seq<NodeSpec>, ms: Seq<ProviderKey>, g: Option<int>)
    ensures
        forall|e: (int, int, bool)|
            #[trigger] member_edges(c, nodes, ms, g).contains(e) ==> exists|j: int| #[trigger]
                member_edge_at(c, nodes, ms, g, j, e),
        member_edges(c, nodes, ms, g).len() <= ms.len(),
        dotted_count(member_edges(c, nodes, ms, g)) == member_edges(c, nodes, ms, g).len(),
    decreases ms.len(),
{
    if ms.len() > 0 {
        let front = ms.drop_last();
        lemma_member_edges_sound(c, nodes, front, g);
        let rest = member_edges(c, nodes, front, g);
        let me = member_edges(c, nodes, ms, g);
        assert forall|e: (int, int, bool)| #[trigger] me.contains(e) implies exists|j: int| #[trigger]
            member_edge_at(c, nodes, ms, g, j, e) by {
            let k = choose|k: int| 0 <= k < me.len() && me[k] == e;
            if k < rest.len() {
                assert(rest[k] == e);
                assert(rest.contains(e));
                let j = choose|j: int| #[trigger] member_edge_at(c, nodes, front, g, j, e);
                assert(front[j] == ms[j]);
                assert(member_edge_at(c, nodes, ms, g, j, e));
            } else {
                assert(member_edge_at(c, nodes, ms, g, ms.len() - 1, e));
            }
        }
        if me.len() > rest.len() {
            assert(me.drop_last() == rest);
        }
    }
}

/// A membership edge of registration `i < n` is among the first `n`
/// registrations' edges.
proof fn lemma_group_edge_present(c: &Container, nodes: Seq<NodeSpec>, n: int, i: int, j: int)
    requires
        0 <= i < n <= c.group_regs_spec().len(),
        0 <= j < c.members_of(c.group_regs_spec()[i].0).len(),
        provider_node(c, nodes, c.members_of(c.group_regs_spec()[i].0)[j]) is Some,
        provider_node(c, nodes, c.group_regs_spec()[i].1) is Some,
    ensures
        group_edges(c, nodes, n).contains(
            (
                provider_node(c, nodes, c.members_of(c.group_regs_spec()[i].0)[j])->0,
                provider_node(c, nodes, c.group_regs_spec()[i].1)->0,
                true,
            ),
        ),
    decreases n,
{
    let r = c.group_regs_spec()[n - 1];
    let x = (
        provider_node(c, nodes, c.members_of(c.group_regs_spec()[i].0)[j])->0,
        provider_node(c, nodes, c.group_regs_spec()[i].1)->0,
        true,
    );
    let last = member_edges(c, nodes, c.members_of(r.0), provider_node(c, nodes, r.1));
    if i == n - 1 {
        lemma_member_edge_present(
            c,
            nodes,
            c.members_of(c.group_regs_spec()[i].0),
            provider_node(c, nodes, c.group_regs_spec()[i].1),
            j,
        );
        lemma_contains_in_sum(group_edges(c, nodes, n - 1), last, x);
    } else {
        lemma_group_edge_present(c, nodes, n - 1, i, j);
        lemma_contains_in_sum(group_edges(c, nodes, n - 1), last, x);
    }
}

/// Every edge of the first `n` registrations is a membership edge of one of
/// them; they are all dotted and number at most their members.
proof fn lemma_group_edges_sound(c: &Container, nodes: Seq<NodeSpec>, n: int)
    requires
        n <= c.group_regs_spec().len(),
    ensures
        forall|e: (int, int, bool)|
            #[trigger] group_edges(c, nodes, n).contains(e) ==> exists|i: int, j: int|
                i < n && #[trigger] is_membership_edge(c, nodes, i, j, e),
        dotted_count(group_edges(c, nodes, n)) == group_edges(c, nodes, n).len(),
        group_edges(c, nodes, n).len() <= member_total(c, n),
    decreases n,
{
    if n > 0 {
        lemma_group_edges_sound(c, nodes, n - 1);
        let r = c.group_regs_spec()[n - 1];
        let ms = c.members_of(r.0);
        let g = provider_node(c, nodes, r.1);
        let front = group_edges(c, nodes, n - 1);
        let last = member_edges(c, nodes, ms, g);
        lemma_member_edges_sound(c, nodes, ms, g);
        lemma_dotted_count_sum(front, last);
        assert forall|e: (int, int, bool)| #[trigger] group_edges(c, nodes, n).contains(e) implies exists|
            i: int,
            j: int,
        | i < n && #[trigger] is_membership_edge(c, nodes, i, j, e) by {
            lemma_contains_in_sum(front, last, e);
            if front.contains(e) {
                let (i, j) = choose|i: int, j: int| i < n - 1 && #[trigger] is_membership_edge(c, nodes, i, j, e);
                assert(is_membership_edge(c, nodes, i, j, e));
            } else {
                let j = choose|j: int| #[trigger] member_edge_at(c, nodes, ms, g, j, e);
                assert(is_membership_edge(c, nodes, n - 1, j, e));
            }
        }
    }
}

/// Group membership in the graph. For every group registration and every
/// member of that group whose provider has a node, while the group's
/// aggregate has one too, the graph draws the dotted edge from the member to
/// the aggregate. Conversely every dotted edge is such a membership edge
/// (dependency edges are never dotted), and there are no more dotted edges
/// than registered members, so no member is drawn twice when all are drawn.
pub proof fn law_dot_group_membership_edges(c: &Container, invs: Seq<ScopedInvoker>)
    ensures
        forall|i: int, j: int|
            0 <= i < c.group_regs_spec().len() && 0 <= j < c.members_of(c.group_regs_spec()[i].0).len()
                && provider_node(c, dot_nodes(c, invs), #[trigger] c.members_of(c.group_regs_spec()[i].0)[j]) is Some
                && provider_node(c, dot_nodes(c, invs), c.group_regs_spec()[i].1) is Some ==> dot_edges(
                c,
                invs,
                dot_nodes(c, invs),
            ).contains(
                (
                    provider_node(c, dot_nodes(c, invs), c.members_of(c.group_regs_spec()[i].0)[j])->0,
                    provider_node(c, dot_nodes(c, invs), c.group_regs_spec()[i].1)->0,
                    true,
                ),
            ),
        forall|e: (int, int, bool)|
            #[trigger] dot_edges(c, invs, dot_nodes(c, invs)).contains(e) && e.2 ==> exists|i: int, j: int| #[trigger]
                is_membership_edge(c, dot_nodes(c, invs), i, j, e),
        dotted_count(dot_edges(c, invs, dot_nodes(c, invs))) <= member_total(c, c.group_regs_spec().len() as int),
{
    let nodes = dot_nodes(c, invs);
    let n = c.group_regs_spec().len() as int;
    let pe = provider_edges(c, nodes, c.entries_spec().len() as int);
    let ie = invoker_edges(c, nodes, invs, invs.len() as int);
    let ge = group_edges(c, nodes, n);
    assert(dot_edges(c, invs, nodes) == pe + ie + ge);
    lemma_provider_edges_plain(c, nodes, c.entries_spec().len() as int);
    lemma_invoker_edges_plain(c, nodes, invs, invs.len() as int);
    lemma_group_edges_sound(c, nodes, n);
    assert forall|i: int, j: int|
        0 <= i < n && 0 <= j < c.members_of(c.group_regs_spec()[i].0).len() && provider_node(
            c,
            nodes,
            #[trigger] c.members_of(c.group_regs_spec()[i].0)[j],
        ) is Some && provider_node(c, nodes, c.group_regs_spec()[i].1) is Some implies dot_edges(c, invs, nodes).contains(
        (
            provider_node(c, nodes, c.members_of(c.group_regs_spec()[i].0)[j])->0,
            provider_node(c, nodes, c.group_regs_spec()[i].1)->0,
            true,
        ),
    ) by {
        lemma_group_edge_present(c, nodes, n, i, j);
        lemma_contains_in_sum(
            pe + ie,
            ge,
            (
                provider_node(c, nodes, c.members_of(c.group_regs_spec()[i].0)[j])->0,
                provider_node(c, nodes, c.group_regs_spec()[i].1)->0,
                true,
            ),
        );
    }
    assert forall|e: (int, int, bool)| #[trigger] dot_edges(c, invs, nodes).contains(e) && e.2 implies exists|
        i: int,
        j: int,
    | #[trigger] is_membership_edge(c, nodes, i, j, e) by {
        lemma_contains_in_sum(pe + ie, ge, e);
        lemma_contains_in_sum(pe, ie, e);
        if pe.contains(e) {
            let k = choose|k: int| 0 <= k < pe.len() && pe[k] == e;
            assert(!pe[k].2);
        } else if ie.contains(e) {
            let k = choose|k: int| 0 <= k < ie.len() && ie[k] == e;
            assert(!ie[k].2);
        } else {
            let (i, j) = choose|i: int, j: int| i < n && #[trigger] is_membership_edge(c, nodes, i, j, e);
            assert(is_membership_edge(c, nodes, i, j, e));
        }
    }
    lemma_dotted_count_plain(pe);
    lemma_dotted_count_plain(ie);
    lemma_dotted_count_sum(pe, ie);
    lemma_dotted_count_sum(pe + ie, ge);
}

} // verus!
