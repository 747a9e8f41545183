use contest_lib::unionfind::UnionFind;

#[test]
fn union_find_basic() {
    let mut uf = UnionFind::new(6);
    assert_eq!(uf.len(), 6);
    assert!(!uf.are_same(0, 1));
    assert_eq!(uf.size(0), 1);
    uf.unite(0, 1);
    uf.unite(2, 3);
    assert!(uf.are_same(1, 0));
    assert!(!uf.are_same(1, 2));
    assert_eq!(uf.size(3), 2);
    uf.unite(1, 3);
    assert!(uf.are_same(0, 2));
    assert_eq!(uf.size(0), 4);
    assert_eq!(uf.size(5), 1);
}

#[test]
fn union_find_same_set_twice() {
    let mut uf = UnionFind::new(4);
    uf.unite(0, 1);
    uf.unite(1, 0);
    uf.unite(0, 0);
    assert_eq!(uf.size(1), 2);
    assert!(uf.are_same(0, 1));
    assert!(!uf.are_same(0, 2));
}

#[test]
fn union_find_long_chain() {
    let n = 1000;
    let mut uf = UnionFind::new(n);
    for i in 1..n {
        uf.unite(i - 1, i);
    }
    assert_eq!(uf.size(0), n);
    assert!(uf.are_same(0, n - 1));
}
