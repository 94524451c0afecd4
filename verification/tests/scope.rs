use modrun::scope::{ScopeId, ScopeTree};

#[test]
fn ancestors_walk_to_root() {
    let mut tree = ScopeTree::new();
    let a = tree.child(ScopeId::root(), "a");
    let b = tree.child(a, "b");
    let got: Vec<ScopeId> = tree.ancestors_from(b).clone();
    assert_eq!(got, vec![b, a, ScopeId::root()]);
    assert_eq!(tree.name(b), "b");
}

#[test]
fn root_is_named_and_ids_count_up() {
    let mut tree = ScopeTree::new();
    assert_eq!(tree.count(), 1);
    assert_eq!(tree.name(ScopeId::root()), "<root>");
    let a = tree.child(ScopeId::root(), "a");
    assert_eq!(a.discriminant(), 1);
    assert_eq!(tree.count(), 2);
    assert_eq!(tree.name(ScopeId(7)), "<unknown>");
}
