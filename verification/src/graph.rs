//! Dependency layering and cycle extraction over an index graph.
//!
//! Node `i` depends on every node listed in `deps[i]`. A node may only be
//! built once all of its dependencies have been built, so the layers produced
//! here are the construction waves of the container.

use vstd::prelude::*;
use vstd::set_lib::*;

verus! {

/// Every dependency index names a node of the graph.
pub open spec fn graph_wf(g: Seq<Seq<usize>>) -> bool {
    forall|i: int, k: int| 0 <= i < g.len() && 0 <= k < g[i].len() ==> #[trigger] g[i][k] < g.len()
}

/// `rank` strictly decreases along every dependency edge.
pub open spec fn is_ranking(g: Seq<Seq<usize>>, rank: spec_fn(int) -> int) -> bool {
    forall|i: int, k: int|
        0 <= i < g.len() && 0 <= k < g[i].len() ==> rank(#[trigger] g[i][k] as int) < rank(i)
}

/// The graph has no dependency cycle: some ranking orders every edge.
pub open spec fn acyclic(g: Seq<Seq<usize>>) -> bool {
    exists|rank: spec_fn(int) -> int| is_ranking(g, rank)
}

/// `c` walks dependency edges and returns to where it started.
pub open spec fn is_cycle(g: Seq<Seq<usize>>, c: Seq<usize>) -> bool {
    &&& c.len() >= 2
    &&& c[0] == c[c.len() - 1]
    &&& forall|t: int| 0 <= t < c.len() ==> (#[trigger] c[t]) < g.len()
    &&& forall|t: int| 0 <= t < c.len() - 1 ==> #[trigger] g[c[t] as int].contains(c[t + 1])
}

/// Node `i` sits in layer `l`.
pub open spec fn in_layer(layers: Seq<Seq<usize>>, i: int, l: int) -> bool {
    &&& 0 <= l < layers.len()
    &&& exists|p: int| 0 <= p < layers[l].len() && layers[l][p] as int == i
}

/// Node `i` sits in some layer.
pub open spec fn has_layer(layers: Seq<Seq<usize>>, i: int) -> bool {
    exists|l: int| in_layer(layers, i, l)
}

/// `s` is strictly increasing.
pub open spec fn increasing(s: Seq<usize>) -> bool {
    forall|a: int, b: int| 0 <= a < b < s.len() ==> s[a] < s[b]
}

/// `layers` is the longest-path layering of `g`: every node is in exactly one
/// layer, layers list nodes in registration order, every dependency sits in an
/// earlier layer, and a node in layer `l > 0` has a dependency in layer `l - 1`.
pub open spec fn is_layering(g: Seq<Seq<usize>>, layers: Seq<Seq<usize>>) -> bool {
    &&& forall|l: int| 0 <= l < layers.len() ==> (#[trigger] layers[l]).len() > 0
    &&& forall|l: int| 0 <= l < layers.len() ==> increasing(#[trigger] layers[l])
    &&& forall|l: int, p: int|
        0 <= l < layers.len() && 0 <= p < layers[l].len() ==> #[trigger] layers[l][p] < g.len()
    &&& forall|i: int| 0 <= i < g.len() ==> #[trigger] has_layer(layers, i)
    &&& forall|i: int, l1: int, l2: int|
        #[trigger] in_layer(layers, i, l1) && #[trigger] in_layer(layers, i, l2) ==> l1 == l2
    &&& forall|i: int, k: int, l: int, m: int|
        0 <= i < g.len() && 0 <= k < g[i].len() && #[trigger] in_layer(layers, i, l)
            && #[trigger] in_layer(layers, g[i][k] as int, m) ==> m < l
    &&& forall|i: int, l: int|
        0 < l && #[trigger] in_layer(layers, i, l) ==> exists|k: int|
            0 <= k < g[i].len() && #[trigger] in_layer(layers, g[i][k] as int, l - 1)
}

/// Following a cycle, a ranking would have to drop below itself.
pub proof fn lemma_cycle_not_acyclic(g: Seq<Seq<usize>>, c: Seq<usize>)
    requires
        is_cycle(g, c),
    ensures
        !acyclic(g),
{
    if acyclic(g) {
        let rank = choose|rank: spec_fn(int) -> int| is_ranking(g, rank);
        lemma_rank_descends(g, c, rank, c.len() - 1);
    }
}

proof fn lemma_rank_descends(g: Seq<Seq<usize>>, c: Seq<usize>, rank: spec_fn(int) -> int, t: int)
    requires
        is_cycle(g, c),
        is_ranking(g, rank),
        0 <= t < c.len(),
    ensures
        rank(c[t] as int) <= rank(c[0] as int) - t,
    decreases t,
{
    if t > 0 {
        lemma_rank_descends(g, c, rank, t - 1);
        let t1 = t - 1;
        let i = c[t1] as int;
        assert(g[i].contains(c[t1 + 1]));
        let k = choose|k: int| 0 <= k < g[i].len() && g[i][k] == c[t];
        assert(rank(g[i][k] as int) < rank(i));
    }
}

/// A layering is a ranking, so a layered graph is acyclic.
pub proof fn lemma_layering_acyclic(g: Seq<Seq<usize>>, layers: Seq<Seq<usize>>)
    requires
        graph_wf(g),
        is_layering(g, layers),
    ensures
        acyclic(g),
{
    let rank = |i: int| choose|l: int| in_layer(layers, i, l);
    assert forall|i: int, k: int| 0 <= i < g.len() && 0 <= k < g[i].len() implies rank(
        #[trigger] g[i][k] as int,
    ) < rank(i) by {
        let j = g[i][k] as int;
        assert(has_layer(layers, i));
        assert(has_layer(layers, j));
        let li = rank(i);
        let lj = rank(j);
        assert(in_layer(layers, i, li));
        assert(in_layer(layers, j, lj));
    }
    assert(is_ranking(g, rank));
}

} // verus!

verus! {

/// The nodes marked in `placed`, as a set of indices.
pub open spec fn placed_set(placed: Seq<bool>) -> Set<int> {
    Set::new(|i: int| 0 <= i < placed.len() && placed[i])
}

/// All dependencies of node `i` are marked in `placed`.
pub open spec fn deps_placed(g: Seq<Seq<usize>>, placed: Seq<bool>, i: int) -> bool {
    forall|k: int| 0 <= k < g[i].len() ==> #[trigger] placed[g[i][k] as int]
}

proof fn lemma_placed_set_finite(placed: Seq<bool>)
    ensures
        placed_set(placed).finite(),
        placed_set(placed).len() <= placed.len(),
{
    lemma_int_range(0, placed.len() as int);
    lemma_len_subset(placed_set(placed), set_int_range(0, placed.len() as int));
}

proof fn lemma_placed_set_grows(old_p: Seq<bool>, new_p: Seq<bool>, x: int)
    requires
        old_p.len() == new_p.len(),
        forall|i: int| 0 <= i < old_p.len() && old_p[i] ==> new_p[i],
        0 <= x < old_p.len(),
        !old_p[x],
        new_p[x],
    ensures
        placed_set(old_p).len() < placed_set(new_p).len(),
{
    lemma_placed_set_finite(new_p);
    lemma_placed_set_finite(old_p);
    let s_new = placed_set(new_p);
    assert(placed_set(old_p).subset_of(s_new.remove(x)));
    lemma_len_subset(placed_set(old_p), s_new.remove(x));
}

/// A sequence of distinct indices below `n` has at most `n` elements.
proof fn lemma_distinct_bound(s: Seq<usize>, n: nat)
    requires
        forall|a: int, b: int| 0 <= a < s.len() && 0 <= b < s.len() && a != b ==> s[a] != s[b],
        forall|t: int| 0 <= t < s.len() ==> #[trigger] s[t] < n,
    ensures
        s.len() <= n,
{
    let m = s.map_values(|x: usize| x as int);
    assert(m.no_duplicates()) by {
        assert forall|a: int, b: int| 0 <= a < m.len() && 0 <= b < m.len() && a != b implies m[a]
            != m[b] by {
            assert(s[a] != s[b]);
        }
    }
    m.unique_seq_to_set();
    lemma_int_range(0, n as int);
    assert forall|v: int| m.to_set().contains(v) implies set_int_range(0, n as int).contains(v) by {
        let t = choose|t: int| 0 <= t < m.len() && m[t] == v;
        assert(s[t] < n);
    }
    lemma_len_subset(m.to_set(), set_int_range(0, n as int));
}

/// A sequence of distinct integers in `[0, n)` has at most `n` elements.
pub proof fn lemma_distinct_int_bound(s: Seq<int>, n: nat)
    requires
        forall|a: int, b: int| 0 <= a < s.len() && 0 <= b < s.len() && a != b ==> s[a] != s[b],
        forall|t: int| 0 <= t < s.len() ==> 0 <= #[trigger] s[t] < n,
    ensures
        s.len() <= n,
{
    assert(s.no_duplicates());
    s.unique_seq_to_set();
    lemma_int_range(0, n as int);
    assert forall|v: int| s.to_set().contains(v) implies set_int_range(0, n as int).contains(v) by {
        let t = choose|t: int| 0 <= t < s.len() && s[t] == v;
        assert(0 <= s[t] < n);
    }
    lemma_len_subset(s.to_set(), set_int_range(0, n as int));
}

fn deps_all_placed(deps: &Vec<Vec<usize>>, placed: &Vec<bool>, i: usize) -> (res: bool)
    requires
        graph_wf(deps.deep_view()),
        placed.len() == deps.len(),
        i < deps.len(),
    ensures
        res == deps_placed(deps.deep_view(), placed@, i as int),
{
    let ghost g = deps.deep_view();
    let row = &deps[i];
    assert(row@ == g[i as int]);
    let mut k: usize = 0;
    while k < row.len()
        invariant
            g == deps.deep_view(),
            graph_wf(g),
            placed.len() == g.len(),
            i < g.len(),
            row@ == g[i as int],
            k <= row.len(),
            forall|j: int| 0 <= j < k ==> #[trigger] placed@[g[i as int][j] as int],
        decreases row.len() - k,
    {
        let d = row[k];
        assert(d == g[i as int][k as int]);
        if !placed[d] {
            return false;
        }
        k = k + 1;
    }
    true
}

fn first_unplaced_dep(deps: &Vec<Vec<usize>>, placed: &Vec<bool>, i: usize) -> (res: usize)
    requires
        graph_wf(deps.deep_view()),
        placed.len() == deps.len(),
        i < deps.len(),
        !deps_placed(deps.deep_view(), placed@, i as int),
    ensures
        res < deps.len(),
        !placed@[res as int],
        deps.deep_view()[i as int].contains(res),
        exists|k: int|
            0 <= k < deps.deep_view()[i as int].len() && deps.deep_view()[i as int][k] == res && forall|j: int|
                0 <= j < k ==> placed@[#[trigger] deps.deep_view()[i as int][j] as int],
{
    let ghost g = deps.deep_view();
    let row = &deps[i];
    assert(row@ == g[i as int]);
    let mut k: usize = 0;
    while k < row.len()
        invariant
            g == deps.deep_view(),
            graph_wf(g),
            placed.len() == g.len(),
            i < g.len(),
            row@ == g[i as int],
            k <= row.len(),
            forall|j: int| 0 <= j < k ==> #[trigger] placed@[g[i as int][j] as int],
            !deps_placed(g, placed@, i as int),
        decreases row.len() - k,
    {
        let d = row[k];
        assert(d == g[i as int][k as int]);
        if !placed[d] {
            assert(g[i as int].contains(d));
            return d;
        }
        k = k + 1;
    }
    proof {
        assert(deps_placed(g, placed@, i as int));
    }
    0
}

} // verus!

verus! {

/// The layering invariant over the rounds done so far.
pub open spec fn rounds_inv(
    g: Seq<Seq<usize>>,
    placed: Seq<bool>,
    level: Seq<usize>,
    layers: Seq<Seq<usize>>,
) -> bool {
    let n = g.len();
    let r = layers.len();
    &&& placed.len() == n
    &&& level.len() == n
    &&& forall|i: int| 0 <= i < n && #[trigger] placed[i] ==> level[i] < r && in_layer(layers, i, level[i] as int)
    &&& forall|l: int, p: int|
        0 <= l < r && 0 <= p < layers[l].len() ==> {
            let v = #[trigger] layers[l][p];
            &&& v < n
            &&& placed[v as int]
            &&& level[v as int] == l
        }
    &&& forall|l: int| 0 <= l < r ==> (#[trigger] layers[l]).len() > 0
    &&& forall|l: int| 0 <= l < r ==> increasing(#[trigger] layers[l])
    &&& forall|i: int, k: int|
        0 <= i < n && 0 <= k < g[i].len() && #[trigger] placed[i] ==> placed[#[trigger] g[i][k] as int]
            && level[g[i][k] as int] < level[i]
    &&& forall|i: int|
        0 <= i < n && #[trigger] placed[i] && level[i] > 0 ==> exists|k: int|
            0 <= k < g[i].len() && level[#[trigger] g[i][k] as int] == level[i] - 1
    &&& r > 0 ==> forall|i: int|
        0 <= i < n && !#[trigger] placed[i] ==> exists|k: int|
            0 <= k < g[i].len() && (!placed[#[trigger] g[i][k] as int] || level[g[i][k] as int] == r - 1)
}

proof fn lemma_rounds_give_layering(
    g: Seq<Seq<usize>>,
    placed: Seq<bool>,
    level: Seq<usize>,
    layers: Seq<Seq<usize>>,
)
    requires
        graph_wf(g),
        rounds_inv(g, placed, level, layers),
        forall|i: int| 0 <= i < g.len() ==> #[trigger] placed[i],
    ensures
        is_layering(g, layers),
{
    assert forall|i: int, l: int| #[trigger] in_layer(layers, i, l) implies 0 <= i < g.len() && level[i] == l by {
        let p = choose|p: int| 0 <= p < layers[l].len() && layers[l][p] as int == i;
        assert(layers[l][p] < g.len());
    }
    assert forall|i: int| 0 <= i < g.len() implies #[trigger] has_layer(layers, i) by {
        assert(placed[i]);
        assert(in_layer(layers, i, level[i] as int));
    }
    assert forall|i: int, l: int|
        0 < l && #[trigger] in_layer(layers, i, l) implies exists|k: int|
            0 <= k < g[i].len() && #[trigger] in_layer(layers, g[i][k] as int, l - 1) by {
        assert(placed[i]);
        let k = choose|k: int| 0 <= k < g[i].len() && level[#[trigger] g[i][k] as int] == level[i] - 1;
        let j = g[i][k] as int;
        assert(placed[j]);
        assert(in_layer(layers, j, level[j] as int));
    }
}

/// Split the graph into construction layers, or report a dependency cycle.
///
/// Layer 0 holds every node without dependencies; layer `l` holds every node
/// whose dependencies are all in earlier layers and that was not ready
/// before, each layer in ascending index order. When no further node can be
/// placed the remaining nodes all wait on one another: the walk that starts at
/// the first remaining node allowed by `may_start` (or else the first remaining
/// node) and keeps taking the first remaining dependency closes a cycle, which
/// is returned from its first repeated node back to itself.
pub fn freeze_layers(deps: &Vec<Vec<usize>>, may_start: &Vec<bool>) -> (res: Result<Vec<Vec<usize>>, Vec<usize>>)
    requires
        graph_wf(deps.deep_view()),
        may_start.len() == deps.len(),
    ensures
        match res {
            Ok(layers) => is_layering(deps.deep_view(), layers.deep_view()),
            Err(cycle) => is_cycle(deps.deep_view(), cycle@) && cycle@ == reported_cycle(deps.deep_view(), may_start@),
        },
        res is Ok <==> acyclic(deps.deep_view()),
{
    let ghost g = deps.deep_view();
    let n = deps.len();
    let mut placed: Vec<bool> = Vec::new();
    let mut level: Vec<usize> = Vec::new();
    let mut i: usize = 0;
    while i < n
        invariant
            i <= n,
            placed.len() == i,
            level.len() == i,
            forall|j: int| 0 <= j < i ==> !#[trigger] placed@[j],
        decreases n - i,
    {
        placed.push(false);
        level.push(0);
        i = i + 1;
    }
    let mut layers: Vec<Vec<usize>> = Vec::new();
    proof {
        assert(placed_set(placed@) =~= Set::empty());
    }
    loop
        invariant
            g == deps.deep_view(),
            graph_wf(g),
            n == g.len(),
            rounds_inv(g, placed@, level@, layers.deep_view()),
            layers.len() <= placed_set(placed@).len(),
        ensures
            rounds_inv(g, placed@, level@, layers.deep_view()),
            forall|i: int| 0 <= i < n && !#[trigger] placed@[i] ==> !deps_placed(g, placed@, i),
        decreases n - placed_set(placed@).len(),
    {
        let ghost old_placed = placed@;
        let ghost old_level = level@;
        let ghost old_layers = layers.deep_view();
        let r = layers.len();
        proof {
            lemma_placed_set_finite(placed@);
        }
        let mut ready: Vec<usize> = Vec::new();
        let mut is_ready: Vec<bool> = Vec::new();
        let mut i: usize = 0;
        while i < n
            invariant
                g == deps.deep_view(),
                graph_wf(g),
                n == g.len(),
                placed.len() == n,
                i <= n,
                is_ready.len() == i,
                forall|j: int| 0 <= j < i ==> #[trigger] is_ready@[j] == (!placed@[j] && deps_placed(g, placed@, j)),
                increasing(ready@),
                forall|p: int| 0 <= p < ready.len() ==> #[trigger] ready@[p] < i && is_ready@[ready@[p] as int],
                forall|j: int| 0 <= j < i && #[trigger] is_ready@[j] ==> ready@.contains(j as usize),
            decreases n - i,
        {
            let rd = !placed[i] && deps_all_placed(deps, &placed, i);
            is_ready.push(rd);
            let ghost old_ready = ready@;
            if rd {
                ready.push(i);
            }
            proof {
                assert forall|j: int| 0 <= j < i + 1 && #[trigger] is_ready@[j] implies ready@.contains(j as usize) by {
                    if j == i {
                        assert(ready@[ready@.len() - 1] == i);
                    } else {
                        assert(old_ready.contains(j as usize));
                        let p = choose|p: int| 0 <= p < old_ready.len() && old_ready[p] == j as usize;
                        assert(ready@[p] == j as usize);
                    }
                }
            }
            i = i + 1;
        }
        if ready.len() == 0 {
            proof {
                assert forall|i: int| 0 <= i < n && !#[trigger] placed@[i] implies !deps_placed(g, placed@, i) by {
                    if deps_placed(g, placed@, i) {
                        assert(is_ready@[i]);
                        assert(ready@.contains(i as usize));
                    }
                }
            }
            break;
        }
        let mut j: usize = 0;
        while j < n
            invariant
                g == deps.deep_view(),
                n == g.len(),
                placed.len() == n,
                level.len() == n,
                is_ready.len() == n,
                j <= n,
                forall|x: int| 0 <= x < n ==> #[trigger] placed@[x] == (old_placed[x] || (x < j && is_ready@[x])),
                forall|x: int| 0 <= x < n ==> #[trigger] level@[x] == (if x < j && is_ready@[x] { r } else { old_level[x] }),
            decreases n - j,
        {
            if is_ready[j] {
                placed.set(j, true);
                level.set(j, r);
            }
            j = j + 1;
        }
        let ghost ready_s = ready@;
        layers.push(ready);
        proof {
            let lv = layers.deep_view();
            assert(lv.len() == r + 1);
            assert(lv[r as int] == ready_s);
            assert forall|l: int| 0 <= l < r implies #[trigger] lv[l] == old_layers[l] by {}
            let x = ready_s[0] as int;
            assert(is_ready@[x]);
            lemma_placed_set_grows(old_placed, placed@, x);
            lemma_placed_set_finite(placed@);
            // placed nodes sit in their layer
            assert forall|i: int| 0 <= i < n && #[trigger] placed@[i] implies level@[i] < r + 1
                && in_layer(lv, i, level@[i] as int) by {
                if old_placed[i] {
                    let l = old_level[i] as int;
                    assert(in_layer(old_layers, i, l));
                    assert(lv[l] == old_layers[l]);
                    let p = choose|p: int| 0 <= p < old_layers[l].len() && old_layers[l][p] as int == i;
                    assert(lv[l][p] as int == i);
                } else {
                    assert(is_ready@[i]);
                    assert(ready_s.contains(i as usize));
                    let p = choose|p: int| 0 <= p < ready_s.len() && ready_s[p] == i as usize;
                    assert(lv[r as int][p] as int == i);
                }
            }
            assert forall|l: int, p: int| 0 <= l < r + 1 && 0 <= p < lv[l].len() implies {
                let v = #[trigger] lv[l][p];
                &&& v < n
                &&& placed@[v as int]
                &&& level@[v as int] == l
            } by {
                if l < r {
                    assert(lv[l] == old_layers[l]);
                    let v = old_layers[l][p];
                    assert(old_placed[v as int]);
                    assert(!is_ready@[v as int]);
                } else {
                    let v = ready_s[p];
                    assert(is_ready@[v as int]);
                }
            }
            assert forall|l: int| 0 <= l < r + 1 implies (#[trigger] lv[l]).len() > 0 && increasing(lv[l]) by {
                if l < r {
                    assert(lv[l] == old_layers[l]);
                }
            }
            assert forall|i: int, k: int|
                0 <= i < n && 0 <= k < g[i].len() && #[trigger] placed@[i] implies placed@[#[trigger] g[i][k] as int]
                && level@[g[i][k] as int] < level@[i] by {
                let d = g[i][k] as int;
                if old_placed[i] {
                    assert(old_placed[d]);
                    assert(!is_ready@[d]);
                    assert(!is_ready@[i]);
                } else {
                    assert(is_ready@[i]);
                    assert(deps_placed(g, old_placed, i));
                    assert(old_placed[d]);
                    assert(!is_ready@[d]);
                    assert(old_level[d] < r);
                }
            }
            assert forall|i: int|
                0 <= i < n && #[trigger] placed@[i] && level@[i] > 0 implies exists|k: int|
                    0 <= k < g[i].len() && level@[#[trigger] g[i][k] as int] == level@[i] - 1 by {
                if old_placed[i] {
                    assert(!is_ready@[i]);
                    let k = choose|k: int|
                        0 <= k < g[i].len() && old_level[#[trigger] g[i][k] as int] == old_level[i] - 1;
                    let d = g[i][k] as int;
                    assert(old_placed[d]);
                    assert(!is_ready@[d]);
                } else {
                    assert(is_ready@[i]);
                    assert(level@[i] == r);
                    assert(r > 0);
                    let k = choose|k: int|
                        0 <= k < g[i].len() && (!old_placed[#[trigger] g[i][k] as int] || old_level[g[i][k] as int] == r - 1);
                    let d = g[i][k] as int;
                    assert(deps_placed(g, old_placed, i));
                    assert(old_placed[d]);
                    assert(!is_ready@[d]);
                }
            }
            assert forall|i: int|
                0 <= i < n && !#[trigger] placed@[i] implies exists|k: int|
                    0 <= k < g[i].len() && (!placed@[#[trigger] g[i][k] as int] || level@[g[i][k] as int] == r) by {
                assert(!old_placed[i]);
                assert(!is_ready@[i]);
                assert(!deps_placed(g, old_placed, i));
                let k = choose|k: int| 0 <= k < g[i].len() && !#[trigger] old_placed[g[i][k] as int];
                let d = g[i][k] as int;
                if placed@[d] {
                    assert(is_ready@[d]);
                }
            }
            assert(rounds_inv(g, placed@, level@, lv));
            assert(r + 1 <= placed_set(placed@).len());
        }
    }
    proof {
        lemma_unplaced_iff_cyclic(g, placed@, level@, layers.deep_view());
    }
    let start = match first_unplaced(&placed, may_start) {
        None => {
            proof {
                lemma_rounds_give_layering(g, placed@, level@, layers.deep_view());
                lemma_layering_acyclic(g, layers.deep_view());
            }
            return Ok(layers);
        },
        Some(s) => s,
    };
    proof {
        lemma_start_is_cycle_start(g, placed@, may_start@, start as int);
    }
    let cycle = close_cycle(deps, &placed, start);
    proof {
        lemma_cycle_not_acyclic(g, cycle@);
    }
    Err(cycle)
}

/// The first unplaced node allowed by `may_start`, else the first unplaced node.
fn first_unplaced(placed: &Vec<bool>, may_start: &Vec<bool>) -> (res: Option<usize>)
    requires
        placed.len() == may_start.len(),
    ensures
        match res {
            None => forall|i: int| 0 <= i < placed.len() ==> #[trigger] placed@[i],
            Some(s) => {
                &&& s < placed.len()
                &&& !placed@[s as int]
                &&& (exists|j: int| 0 <= j < placed.len() && may_start@[j] && !#[trigger] placed@[j]) ==> may_start@[s as int]
                    && forall|j: int| 0 <= j < s ==> !(may_start@[j] && !#[trigger] placed@[j])
                &&& !(exists|j: int| 0 <= j < placed.len() && may_start@[j] && !#[trigger] placed@[j]) ==> forall|j: int|
                    0 <= j < s ==> #[trigger] placed@[j]
            },
        },
{
    let n = placed.len();
    let mut fallback: Option<usize> = None;
    let mut i: usize = 0;
    while i < n
        invariant
            n == placed.len(),
            n == may_start.len(),
            i <= n,
            forall|j: int| 0 <= j < i ==> !(may_start@[j] && !#[trigger] placed@[j]),
            match fallback {
                None => forall|j: int| 0 <= j < i ==> #[trigger] placed@[j],
                Some(s) => s < i && !placed@[s as int] && forall|j: int| 0 <= j < s ==> #[trigger] placed@[j],
            },
        decreases n - i,
    {
        if !placed[i] {
            if may_start[i] {
                return Some(i);
            }
            if fallback.is_none() {
                fallback = Some(i);
            }
        }
        i = i + 1;
    }
    fallback
}

/// The tail of `path` from `p`, closed by the edge back to `path[p]`.
fn cycle_from(deps: &Vec<Vec<usize>>, path: &Vec<usize>, p: usize, nxt: usize) -> (cycle: Vec<usize>)
    requires
        p < path.len(),
        path@[p as int] == nxt,
        deps.deep_view()[path@[path.len() - 1] as int].contains(nxt),
        forall|t: int| 0 <= t < path.len() ==> #[trigger] path@[t] < deps.len(),
        forall|t: int| 0 <= t < path.len() - 1 ==> #[trigger] deps.deep_view()[path@[t] as int].contains(path@[t + 1]),
    ensures
        is_cycle(deps.deep_view(), cycle@),
        cycle@ == path@.subrange(p as int, path.len() as int).push(nxt),
{
    let ghost g = deps.deep_view();
    let mut cycle: Vec<usize> = Vec::new();
    let mut t = p;
    while t < path.len()
        invariant
            p <= t <= path.len(),
            cycle@ == path@.subrange(p as int, t as int),
        decreases path.len() - t,
    {
        cycle.push(path[t]);
        t = t + 1;
    }
    cycle.push(nxt);
    proof {
        let c = cycle@;
        assert(c.len() == path.len() - p + 1);
        assert(c[0] == path@[p as int]);
        assert forall|t: int| 0 <= t < c.len() - 1 implies #[trigger] g[c[t] as int].contains(c[t + 1]) by {
            if t < c.len() - 2 {
                assert(c[t] == path@[p + t]);
                assert(c[t + 1] == path@[p + t + 1]);
                assert(g[path@[p + t] as int].contains(path@[(p + t) + 1]));
            } else {
                assert(c[t] == path@[path.len() - 1]);
            }
        }
        assert forall|t: int| 0 <= t < c.len() implies (#[trigger] c[t]) < g.len() by {
            if t < c.len() - 1 {
                assert(c[t] == path@[p + t]);
            }
        }
    }
    cycle
}

/// Walk first remaining dependencies from `start` until a node repeats.
fn close_cycle(deps: &Vec<Vec<usize>>, placed: &Vec<bool>, start: usize) -> (cycle: Vec<usize>)
    requires
        graph_wf(deps.deep_view()),
        placed.len() == deps.len(),
        start < deps.len(),
        !placed@[start as int],
        forall|i: int| 0 <= i < deps.len() && !#[trigger] placed@[i] ==> !deps_placed(deps.deep_view(), placed@, i),
        forall|i: int| 0 <= i < deps.len() ==> (#[trigger] placed@[i] <==> !reaches_cycle(deps.deep_view(), i)),
    ensures
        is_cycle(deps.deep_view(), cycle@),
        cycle@ == walk_cycle(deps.deep_view(), start as int),
{
    let ghost g = deps.deep_view();
    let n = deps.len();
    let mut pos: Vec<usize> = Vec::new();
    let mut i: usize = 0;
    while i < n
        invariant
            i <= n,
            pos.len() == i,
            forall|j: int| 0 <= j < i ==> #[trigger] pos@[j] == n,
        decreases n - i,
    {
        pos.push(n);
        i = i + 1;
    }
    let mut path: Vec<usize> = Vec::new();
    path.push(start);
    pos.set(start, 0);
    loop
        invariant
            g == deps.deep_view(),
            graph_wf(g),
            n == g.len(),
            placed.len() == n,
            pos.len() == n,
            forall|i: int| 0 <= i < n && !#[trigger] placed@[i] ==> !deps_placed(g, placed@, i),
            1 <= path.len() <= n,
            forall|t: int| 0 <= t < path.len() ==> #[trigger] path@[t] < n && !placed@[path@[t] as int]
                && pos@[path@[t] as int] == t,
            forall|v: int| 0 <= v < n && #[trigger] pos@[v] != n ==> pos@[v] < path.len() && path@[pos@[v] as int] == v,
            forall|t: int| 0 <= t < path.len() - 1 ==> #[trigger] g[path@[t] as int].contains(path@[t + 1]),
            forall|i: int| 0 <= i < n ==> (#[trigger] placed@[i] <==> !reaches_cycle(g, i)),
            path@ == cycle_walk(g, start as int, (path.len() - 1) as nat),
        decreases n - path.len(),
    {
        let cur = path[path.len() - 1];
        let nxt = first_unplaced_dep(deps, placed, cur);
        proof {
            let ci = cur as int;
            let k0 = choose|k: int|
                0 <= k < g[ci].len() && g[ci][k] == nxt && forall|j: int| 0 <= j < k ==> placed@[#[trigger] g[ci][j] as int];
            let f = |k: int| reaches_cycle(g, g[ci][k] as int);
            assert forall|j: int| 0 <= j < k0 implies !#[trigger] f(j) by {
                assert(placed@[g[ci][j] as int]);
            }
            lemma_least_node_is(g[ci].len() as int, f, k0);
            assert(cyclic_dep(g, ci) == nxt);
            assert(cycle_walk(g, start as int, path.len() as nat) == path@.push(nxt));
        }
        if pos[nxt] != n {
            let p = pos[nxt];
            let ghost q = path.len() as nat;
            proof {
                let w = cycle_walk(g, start as int, q);
                assert(w == path@.push(nxt));
                assert(w.drop_last() =~= path@);
                assert(path@[p as int] == nxt);
                assert(walk_closes(g, start as int, q));
                assert forall|j: nat| j < q implies !#[trigger] walk_closes(g, start as int, j) by {
                    lemma_walk_prefix(g, start as int, j, q);
                    let wj = cycle_walk(g, start as int, j);
                    assert(wj =~= w.take(j as int + 1));
                    if wj.drop_last().contains(wj.last()) {
                        let a = choose|a: int| 0 <= a < wj.drop_last().len() && wj.drop_last()[a] == wj.last();
                        assert(path@[a] == path@[j as int]);
                        assert(pos@[path@[a] as int] == a);
                        assert(pos@[path@[j as int] as int] == j);
                    }
                }
                let cq = closing_step(g, start as int);
                assert(walk_closes(g, start as int, cq) && forall|j: nat| j < cq ==> !#[trigger] walk_closes(g, start as int, j));
                if cq < q {
                    assert(!walk_closes(g, start as int, cq));
                }
                if q < cq {
                    assert(!walk_closes(g, start as int, q));
                }
                assert(cq == q);
                let ft = |t: int| w[t] == w.last();
                assert forall|t: int| 0 <= t < p implies !#[trigger] ft(t) by {
                    assert(w[t] == path@[t]);
                    assert(pos@[path@[t] as int] == t);
                }
                assert(ft(p as int));
                lemma_least_node_is(w.len() as int, ft, p as int);
                assert(w.subrange(p as int, w.len() as int) =~= path@.subrange(p as int, path.len() as int).push(nxt));
            }
            return cycle_from(deps, &path, p, nxt);
        }
        let ghost old_path = path@;
        pos.set(nxt, path.len());
        path.push(nxt);
        proof {
            assert forall|t: int| 0 <= t < path.len() - 1 implies #[trigger] g[path@[t] as int].contains(path@[t + 1]) by {
                if t < path.len() - 2 {
                    assert(g[old_path[t] as int].contains(old_path[t + 1]));
                }
            }
            assert forall|a: int, b: int| 0 <= a < path.len() && 0 <= b < path.len() && a != b implies path@[a] != path@[b] by {
                assert(pos@[path@[a] as int] == a);
                assert(pos@[path@[b] as int] == b);
            }
            lemma_distinct_bound(path@, n as nat);
        }
    }
}

} // verus!

verus! {

// ---- which cycle is reported --------------------------------------------------

/// `p` follows dependency edges between nodes of `g`.
pub open spec fn is_path(g: Seq<Seq<usize>>, p: Seq<usize>) -> bool {
    &&& p.len() >= 1
    &&& forall|t: int| 0 <= t < p.len() ==> (#[trigger] p[t]) < g.len()
    &&& forall|t: int| 0 <= t < p.len() - 1 ==> #[trigger] g[p[t] as int].contains(p[t + 1])
}

/// Some node occurs twice in `p`.
pub open spec fn revisits(p: Seq<usize>) -> bool {
    exists|a: int, b: int| 0 <= a < b < p.len() && p[a] == p[b]
}

/// Following dependencies from `i` can run into a cycle: some dependency
/// walk from `i` visits a node twice.
pub open spec fn reaches_cycle(g: Seq<Seq<usize>>, i: int) -> bool {
    exists|p: Seq<usize>| #[trigger] is_path(g, p) && p[0] as int == i && revisits(p)
}

/// The least node below `n` satisfying `f` (meaningful when there is one).
pub open spec fn least_node(n: int, f: spec_fn(int) -> bool) -> int {
    choose|i: int| 0 <= i < n && #[trigger] f(i) && forall|j: int| 0 <= j < i ==> !#[trigger] f(j)
}

/// Where the reported cycle walk starts: the first node that runs into a
/// cycle and that `may_start` allows, or else the first node that runs into
/// a cycle.
pub open spec fn cycle_start(g: Seq<Seq<usize>>, may_start: Seq<bool>) -> int {
    let allowed = |i: int| may_start[i] && reaches_cycle(g, i);
    if exists|i: int| 0 <= i < g.len() && #[trigger] allowed(i) {
        least_node(g.len() as int, allowed)
    } else {
        least_node(g.len() as int, |i: int| reaches_cycle(g, i))
    }
}

/// The first dependency of `v`, in listed order, that runs into a cycle.
pub open spec fn cyclic_dep(g: Seq<Seq<usize>>, v: int) -> usize {
    g[v][least_node(g[v].len() as int, |k: int| reaches_cycle(g, g[v][k] as int))]
}

/// The walk of `k` steps from `s`, each step to the first dependency that
/// runs into a cycle.
pub open spec fn cycle_walk(g: Seq<Seq<usize>>, s: int, k: nat) -> Seq<usize>
    decreases k,
{
    if k == 0 {
        seq![s as usize]
    } else {
        let w = cycle_walk(g, s, (k - 1) as nat);
        w.push(cyclic_dep(g, w.last() as int))
    }
}

/// After `k` steps the walk from `s` is back at a node it visited before.
pub open spec fn walk_closes(g: Seq<Seq<usize>>, s: int, k: nat) -> bool {
    cycle_walk(g, s, k).drop_last().contains(cycle_walk(g, s, k).last())
}

/// The number of steps after which the walk from `s` first repeats a node.
pub open spec fn closing_step(g: Seq<Seq<usize>>, s: int) -> nat {
    choose|q: nat| #[trigger] walk_closes(g, s, q) && forall|j: nat| j < q ==> !#[trigger] walk_closes(g, s, j)
}

/// The cycle the walk from `s` closes: the walk from the first visit of the
/// repeated node back to it.
pub open spec fn walk_cycle(g: Seq<Seq<usize>>, s: int) -> Seq<usize> {
    let w = cycle_walk(g, s, closing_step(g, s));
    let p = least_node(w.len() as int, |t: int| w[t] == w.last());
    w.subrange(p, w.len() as int)
}

/// The reported cycle: the one the walk from [`cycle_start`] closes.
pub open spec fn reported_cycle(g: Seq<Seq<usize>>, may_start: Seq<bool>) -> Seq<usize> {
    walk_cycle(g, cycle_start(g, may_start))
}

/// The least node is the one that satisfies `f` with none below it.
proof fn lemma_least_node_is(n: int, f: spec_fn(int) -> bool, k: int)
    requires
        0 <= k < n,
        f(k),
        forall|j: int| 0 <= j < k ==> !#[trigger] f(j),
    ensures
        least_node(n, f) == k,
{
    let c = least_node(n, f);
    assert(0 <= c < n && f(c) && forall|j: int| 0 <= j < c ==> !#[trigger] f(j));
    if c < k {
        assert(!f(c));
    }
    if k < c {
        assert(!f(k));
    }
}

/// The walk of `j` steps is the first `j + 1` nodes of any longer walk.
proof fn lemma_walk_prefix(g: Seq<Seq<usize>>, s: int, j: nat, k: nat)
    requires
        j <= k,
    ensures
        cycle_walk(g, s, k).len() == k + 1,
        cycle_walk(g, s, j) == cycle_walk(g, s, k).take(j as int + 1),
    decreases k,
{
    if k > 0 {
        lemma_walk_prefix(g, s, (k - 1) as nat, (k - 1) as nat);
        if j < k {
            lemma_walk_prefix(g, s, j, (k - 1) as nat);
            assert(cycle_walk(g, s, k).take(j as int + 1) =~= cycle_walk(g, s, (k - 1) as nat).take(j as int + 1));
        } else {
            assert(cycle_walk(g, s, k).take(j as int + 1) =~= cycle_walk(g, s, k));
        }
    } else {
        assert(cycle_walk(g, s, k).take(j as int + 1) =~= cycle_walk(g, s, k));
    }
}

/// Along a walk from a placed node, levels strictly fall.
proof fn lemma_placed_walk_falls(
    g: Seq<Seq<usize>>,
    placed: Seq<bool>,
    level: Seq<usize>,
    layers: Seq<Seq<usize>>,
    p: Seq<usize>,
    b: int,
)
    requires
        rounds_inv(g, placed, level, layers),
        is_path(g, p),
        placed[p[0] as int],
        0 <= b < p.len(),
    ensures
        placed[p[b] as int],
        forall|a: int| 0 <= a < b ==> level[p[b] as int] < level[#[trigger] p[a] as int],
    decreases b,
{
    if b > 0 {
        lemma_placed_walk_falls(g, placed, level, layers, p, b - 1);
        let i = p[b - 1] as int;
        assert(g[i].contains(p[(b - 1) + 1]));
        let k = choose|k: int| 0 <= k < g[i].len() && g[i][k] == p[b];
        assert(placed[g[i][k] as int] && level[g[i][k] as int] < level[i]);
    }
}

/// A placed node runs into no cycle.
proof fn lemma_placed_no_cycle(
    g: Seq<Seq<usize>>,
    placed: Seq<bool>,
    level: Seq<usize>,
    layers: Seq<Seq<usize>>,
    i: int,
)
    requires
        rounds_inv(g, placed, level, layers),
        0 <= i < g.len(),
        placed[i],
    ensures
        !reaches_cycle(g, i),
{
    if reaches_cycle(g, i) {
        let p = choose|p: Seq<usize>| #[trigger] is_path(g, p) && p[0] as int == i && revisits(p);
        let (a, b) = choose|a: int, b: int| 0 <= a < b < p.len() && p[a] == p[b];
        lemma_placed_walk_falls(g, placed, level, layers, p, b);
    }
}

/// Some unplaced dependency of an unplaced node.
spec fn stuck_dep(g: Seq<Seq<usize>>, placed: Seq<bool>, v: int) -> usize {
    choose|d: usize| g[v].contains(d) && !placed[d as int]
}

/// A walk of `k` steps through unplaced nodes from `i`.
spec fn stuck_walk(g: Seq<Seq<usize>>, placed: Seq<bool>, i: int, k: nat) -> Seq<usize>
    decreases k,
{
    if k == 0 {
        seq![i as usize]
    } else {
        let w = stuck_walk(g, placed, i, (k - 1) as nat);
        w.push(stuck_dep(g, placed, w.last() as int))
    }
}

proof fn lemma_stuck_walk(g: Seq<Seq<usize>>, placed: Seq<bool>, i: int, k: nat)
    requires
        graph_wf(g),
        placed.len() == g.len(),
        forall|v: int| 0 <= v < g.len() && !#[trigger] placed[v] ==> !deps_placed(g, placed, v),
        0 <= i < g.len() <= usize::MAX,
        !placed[i],
    ensures
        stuck_walk(g, placed, i, k).len() == k + 1,
        is_path(g, stuck_walk(g, placed, i, k)),
        stuck_walk(g, placed, i, k)[0] as int == i,
        forall|t: int| 0 <= t <= k ==> !placed[#[trigger] stuck_walk(g, placed, i, k)[t] as int],
    decreases k,
{
    if k > 0 {
        lemma_stuck_walk(g, placed, i, (k - 1) as nat);
        let w = stuck_walk(g, placed, i, (k - 1) as nat);
        let v = w.last() as int;
        assert(!placed[w[(k - 1) as int] as int]);
        assert(!deps_placed(g, placed, v));
        let kk = choose|kk: int| 0 <= kk < g[v].len() && !#[trigger] placed[g[v][kk] as int];
        assert(g[v].contains(g[v][kk]) && !placed[g[v][kk] as int]);
        let d = stuck_dep(g, placed, v);
        let x = w.push(d);
        assert(x == stuck_walk(g, placed, i, k));
        assert(x[0] == w[0]);
        assert forall|t: int| 0 <= t < x.len() implies (#[trigger] x[t]) < g.len() by {
            if t < w.len() {
                assert(x[t] == w[t]);
            } else {
                let kd = choose|kd: int| 0 <= kd < g[v].len() && g[v][kd] == d;
            }
        }
        assert forall|t: int| 0 <= t < x.len() - 1 implies #[trigger] g[x[t] as int].contains(x[t + 1]) by {
            if t < w.len() - 1 {
                assert(x[t] == w[t] && x[t + 1] == w[t + 1]);
            }
        }
        assert forall|t: int| 0 <= t <= k implies !placed[#[trigger] x[t] as int] by {
            if t < k {
                assert(x[t] == w[t]);
            }
        }
    }
}

/// When every unplaced node waits on an unplaced dependency, every unplaced
/// node runs into a cycle.
proof fn lemma_stuck_reaches_cycle(g: Seq<Seq<usize>>, placed: Seq<bool>, i: int)
    requires
        graph_wf(g),
        placed.len() == g.len(),
        forall|v: int| 0 <= v < g.len() && !#[trigger] placed[v] ==> !deps_placed(g, placed, v),
        0 <= i < g.len() <= usize::MAX,
        !placed[i],
    ensures
        reaches_cycle(g, i),
{
    let n = g.len();
    lemma_stuck_walk(g, placed, i, n);
    let w = stuck_walk(g, placed, i, n);
    if !revisits(w) {
        lemma_distinct_bound(w, n);
    }
    assert(is_path(g, w) && w[0] as int == i && revisits(w));
}

} // verus!

verus! {

/// Once no further node can be placed, exactly the unplaced nodes run into a
/// cycle.
proof fn lemma_unplaced_iff_cyclic(
    g: Seq<Seq<usize>>,
    placed: Seq<bool>,
    level: Seq<usize>,
    layers: Seq<Seq<usize>>,
)
    requires
        graph_wf(g),
        g.len() <= usize::MAX,
        rounds_inv(g, placed, level, layers),
        forall|i: int| 0 <= i < g.len() && !#[trigger] placed[i] ==> !deps_placed(g, placed, i),
    ensures
        forall|i: int| 0 <= i < g.len() ==> (#[trigger] placed[i] <==> !reaches_cycle(g, i)),
{
    assert forall|i: int| 0 <= i < g.len() implies (#[trigger] placed[i] <==> !reaches_cycle(g, i)) by {
        if placed[i] {
            lemma_placed_no_cycle(g, placed, level, layers, i);
        } else {
            lemma_stuck_reaches_cycle(g, placed, i);
        }
    }
}

/// The node chosen to start the cycle walk is [`cycle_start`].
proof fn lemma_start_is_cycle_start(g: Seq<Seq<usize>>, placed: Seq<bool>, may_start: Seq<bool>, start: int)
    requires
        placed.len() == g.len(),
        may_start.len() == g.len(),
        forall|i: int| 0 <= i < g.len() ==> (#[trigger] placed[i] <==> !reaches_cycle(g, i)),
        0 <= start < g.len(),
        !placed[start],
        (exists|j: int| 0 <= j < placed.len() && may_start[j] && !#[trigger] placed[j]) ==> may_start[start]
            && forall|j: int| 0 <= j < start ==> !(may_start[j] && !#[trigger] placed[j]),
        !(exists|j: int| 0 <= j < placed.len() && may_start[j] && !#[trigger] placed[j]) ==> forall|j: int|
            0 <= j < start ==> #[trigger] placed[j],
    ensures
        cycle_start(g, may_start) == start,
{
    let n = g.len() as int;
    let allowed = |i: int| may_start[i] && reaches_cycle(g, i);
    if exists|j: int| 0 <= j < placed.len() && may_start[j] && !#[trigger] placed[j] {
        assert(allowed(start));
        assert forall|x: int| 0 <= x < start implies !#[trigger] allowed(x) by {
            assert(!(may_start[x] && !placed[x]));
        }
        lemma_least_node_is(n, allowed, start);
    } else {
        assert forall|x: int| 0 <= x < n implies !#[trigger] allowed(x) by {
            assert(!(may_start[x] && !placed[x]));
        }
        let f = |i: int| reaches_cycle(g, i);
        assert forall|x: int| 0 <= x < start implies !#[trigger] f(x) by {
            assert(placed[x]);
        }
        lemma_least_node_is(n, f, start);
    }
}

} // verus!
