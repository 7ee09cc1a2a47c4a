use maze_gen::unionfind::UnionFind;

#[test]
fn fetch_correct_root() {
    let mut unionfind = UnionFind::new(10);
    unionfind.merge(2, 5);

    assert_eq!(2, unionfind.root(2));
    assert_eq!(2, unionfind.root(5));
    assert_eq!(1, unionfind.root(1));
}

#[test]
fn union_into_larger_subtree() {
    let mut unionfind = UnionFind::new(10);
    unionfind.merge(2, 5);
    unionfind.merge(1, 5);

    assert_eq!(2, unionfind.root(1));
    assert_eq!(2, unionfind.root(5));
    assert_eq!(2, unionfind.root(2));
}

#[test]
fn cancel_merge_when_root_is_same() {
    let mut unionfind = UnionFind::new(10);
    unionfind.merge(1, 3);
    unionfind.merge(1, 3);

    assert_eq!(2, unionfind.size(1));
}

#[test]
fn identify_differences_of_trees_nodes_belong_to() {
    let mut unionfind = UnionFind::new(10);
    unionfind.merge(1, 3);
    unionfind.merge(4, 5);

    assert!(unionfind.same(1, 3));
    assert!(unionfind.same(4, 5));
    assert!(!unionfind.same(1, 4));

    unionfind.merge(4, 1);

    assert!(unionfind.same(1, 4));
}

#[test]
fn fetch_correct_size() {
    let mut unionfind = UnionFind::new(10);
    unionfind.merge(5, 6);
    unionfind.merge(1, 5);

    unionfind.merge(2, 9);

    assert_eq!(3, unionfind.size(1));
    assert_eq!(3, unionfind.size(5));
    assert_eq!(2, unionfind.size(9));
    assert_eq!(1, unionfind.size(3));
}

#[test]
fn merge_makes_same() {
    let mut unionfind = UnionFind::new(6);
    assert!(!unionfind.same(0, 5));
    unionfind.merge(0, 5);
    assert!(unionfind.same(0, 5));
    assert!(unionfind.same(5, 0));
}

#[test]
fn merge_twice_keeps_structure() {
    let mut once = UnionFind::new(8);
    once.merge(3, 4);
    once.merge(4, 7);
    let mut twice = UnionFind::new(8);
    twice.merge(3, 4);
    twice.merge(4, 7);
    twice.merge(4, 7);
    for node in 0..8 {
        assert_eq!(once.root(node), twice.root(node));
        assert_eq!(once.size(node), twice.size(node));
    }
}

#[test]
fn root_of_root_is_root() {
    let mut unionfind = UnionFind::new(10);
    unionfind.merge(0, 1);
    unionfind.merge(2, 3);
    unionfind.merge(1, 3);
    unionfind.merge(7, 8);
    for node in 0..10 {
        let r = unionfind.root(node);
        assert_eq!(r, unionfind.root(r));
    }
}

#[test]
fn size_of_root_counts_members() {
    let mut unionfind = UnionFind::new(10);
    unionfind.merge(0, 1);
    unionfind.merge(2, 3);
    unionfind.merge(1, 3);
    unionfind.merge(7, 8);
    for node in 0..10 {
        let r = unionfind.root(node);
        let mut members = 0;
        for other in 0..10 {
            if unionfind.root(other) == r {
                members += 1;
            }
        }
        assert_eq!(members, unionfind.size(r));
    }
    assert_eq!(4, unionfind.size(0));
    assert_eq!(2, unionfind.size(8));
    assert_eq!(1, unionfind.size(5));
}

#[test]
fn equal_sizes_keep_left_root() {
    let mut unionfind = UnionFind::new(4);
    unionfind.merge(3, 0);
    assert_eq!(3, unionfind.root(0));
    assert_eq!(3, unionfind.root(3));
}

#[test]
fn new_has_singletons() {
    let mut unionfind = UnionFind::new(3);
    for node in 0..3 {
        assert_eq!(node, unionfind.root(node));
        assert_eq!(1, unionfind.size(node));
    }
}
