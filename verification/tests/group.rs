use modrun::group::Group;

#[test]
fn group_wraps_a_vector() {
    let routes = Group::from_vec(vec![1, 2, 3]);
    assert_eq!(routes.len(), 3);
    assert!(!routes.is_empty());
    for n in routes.iter() {
        assert!(*n >= 1);
    }
    assert_eq!(routes.as_slice(), &[1, 2, 3]);
    assert_eq!(routes.get(1), Some(&2));
    assert_eq!(routes.get(3), None);
    assert_eq!(routes.into_vec(), vec![1, 2, 3]);
}

#[test]
fn empty_groups() {
    let g: Group<u8> = Group::new();
    assert!(g.is_empty());
    assert_eq!(g.len(), 0);
    let d: Group<u8> = Group::default();
    assert_eq!(d, g);
    let from: Group<u8> = Group::from(vec![7]);
    assert_eq!(from.as_slice(), &[7]);
}

#[test]
fn group_iterates_derefs_and_converts_in_order() {
    let v = vec![3u32, 1, 2];
    let g = Group::from_vec(v.clone());
    let mut by_ref = Vec::new();
    for x in &g {
        by_ref.push(*x);
    }
    assert_eq!(by_ref, v);
    assert_eq!(g.len(), 3);
    assert_eq!(&g[..], &v[..]);
    let slice: &[u32] = g.as_ref();
    assert_eq!(slice, &v[..]);
    assert_eq!(g.first(), Some(&3));
    let by_value: Vec<u32> = Group::from(v.clone()).into_iter().collect();
    assert_eq!(by_value, v);
    assert_eq!(Group::from(v.clone()).into_vec(), v);
    assert!(Group::<u32>::new().into_vec().is_empty());
}
