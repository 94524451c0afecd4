//! First-match search over sequences, the lookup discipline of every registry
//! table in the container.

use vstd::prelude::*;

verus! {

/// Some element of `s` satisfies `p`.
pub open spec fn any_of<T>(s: Seq<T>, p: spec_fn(T) -> bool) -> bool {
    exists|i: int| 0 <= i < s.len() && #[trigger] p(s[i])
}

/// `i` is the first position of `s` whose element satisfies `p`.
pub open spec fn is_first<T>(s: Seq<T>, p: spec_fn(T) -> bool, i: int) -> bool {
    &&& 0 <= i < s.len()
    &&& p(s[i])
    &&& forall|j: int| 0 <= j < i ==> !#[trigger] p(s[j])
}

/// The first position whose element satisfies `p` (meaningful when `any_of`).
pub open spec fn first_index<T>(s: Seq<T>, p: spec_fn(T) -> bool) -> int {
    choose|i: int| is_first(s, p, i)
}

/// The first element satisfying `p`, if any.
pub open spec fn first_match<T>(s: Seq<T>, p: spec_fn(T) -> bool) -> Option<T> {
    if any_of(s, p) {
        Some(s[first_index(s, p)])
    } else {
        None
    }
}

proof fn lemma_first_exists_below<T>(s: Seq<T>, p: spec_fn(T) -> bool, k: int)
    requires
        0 <= k < s.len(),
        p(s[k]),
    ensures
        exists|i: int| is_first(s, p, i),
    decreases k,
{
    if forall|j: int| 0 <= j < k ==> !#[trigger] p(s[j]) {
        assert(is_first(s, p, k));
    } else {
        let j = choose|j: int| 0 <= j < k && #[trigger] p(s[j]);
        lemma_first_exists_below(s, p, j);
    }
}

/// When some element matches, `first_index` is the first matching position.
pub proof fn lemma_first_index<T>(s: Seq<T>, p: spec_fn(T) -> bool)
    requires
        any_of(s, p),
    ensures
        is_first(s, p, first_index(s, p)),
{
    let k = choose|k: int| 0 <= k < s.len() && #[trigger] p(s[k]);
    lemma_first_exists_below(s, p, k);
}

/// The first matching position is unique.
pub proof fn lemma_first_unique<T>(s: Seq<T>, p: spec_fn(T) -> bool, i: int)
    requires
        is_first(s, p, i),
    ensures
        any_of(s, p),
        first_index(s, p) == i,
        first_match(s, p) == Some(s[i]),
{
    assert(p(s[i]));
    let j = first_index(s, p);
    assert(is_first(s, p, j));
    if j < i {
        assert(!p(s[j]));
    }
    if i < j {
        assert(!p(s[i]));
    }
}

/// Nothing matching anywhere.
pub proof fn lemma_none_match<T>(s: Seq<T>, p: spec_fn(T) -> bool)
    requires
        forall|j: int| 0 <= j < s.len() ==> !#[trigger] p(s[j]),
    ensures
        !any_of(s, p),
        first_match(s, p) is None,
{
}

} // verus!

verus! {

/// An element `f` keeps is in the `filter_map`.
pub proof fn lemma_filter_map_has<A, B>(s: Seq<A>, f: spec_fn(A) -> Option<B>, k: int)
    requires
        0 <= k < s.len(),
        f(s[k]) is Some,
    ensures
        s.filter_map(f).contains(f(s[k]).unwrap()),
    decreases s.len(),
{
    let v = f(s[k]).unwrap();
    let rest = s.drop_last();
    if k == s.len() - 1 {
        let r = rest.filter_map(f) + seq![v];
        assert(r[r.len() - 1] == v);
    } else {
        assert(rest[k] == s[k]);
        lemma_filter_map_has(rest, f, k);
        let j = choose|j: int| 0 <= j < rest.filter_map(f).len() && rest.filter_map(f)[j] == v;
        match f(s.last()) {
            Some(x) => {
                assert((rest.filter_map(f) + seq![x])[j] == v);
            },
            None => {},
        }
    }
}

/// Everything in a `filter_map` came from some element.
pub proof fn lemma_filter_map_from<A, B>(s: Seq<A>, f: spec_fn(A) -> Option<B>, v: B)
    requires
        s.filter_map(f).contains(v),
    ensures
        exists|j: int| 0 <= j < s.len() && f(s[j]) == Some(v),
    decreases s.len(),
{
    let rest = s.drop_last();
    if s.len() > 0 {
        match f(s.last()) {
            Some(x) => {
                if x == v {
                    assert(f(s[s.len() - 1]) == Some(v));
                } else {
                    let i = choose|i: int| 0 <= i < s.filter_map(f).len() && s.filter_map(f)[i] == v;
                    assert(rest.filter_map(f).contains(v)) by {
                        assert((rest.filter_map(f) + seq![x])[i] == v);
                        assert(i < rest.filter_map(f).len());
                        assert(rest.filter_map(f)[i] == v);
                    }
                    lemma_filter_map_from(rest, f, v);
                    let j = choose|j: int| 0 <= j < rest.len() && f(rest[j]) == Some(v);
                    assert(s[j] == rest[j]);
                }
            },
            None => {
                lemma_filter_map_from(rest, f, v);
                let j = choose|j: int| 0 <= j < rest.len() && f(rest[j]) == Some(v);
                assert(s[j] == rest[j]);
            },
        }
    }
}

} // verus!
