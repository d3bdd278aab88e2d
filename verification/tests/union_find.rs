use aoc25::union_find::UnionFind;

#[test]
fn test_union_find_simple() {
    let mut uf = UnionFind::new();
    let a = uf.make_set('a');
    let b = uf.make_set('b');
    let c = uf.make_set('b');

    assert_eq!(uf.union(a, b), true);

    assert_eq!(uf.rank(a), 1);
    assert_eq!(uf.rank(b), 0);
    assert_eq!(uf.find(a), a);
    assert_eq!(uf.find(b), a);

    assert_eq!(uf.union(b, c), true);

    assert_eq!(uf.rank(a), 1);
    assert_eq!(uf.rank(b), 0);
    assert_eq!(uf.rank(c), 0);

    assert_eq!(uf.find(a), a);
    assert_eq!(uf.find(b), a);
    assert_eq!(uf.find(c), a);
}

#[test]
fn test_union_twice_reports_false() {
    let mut uf = UnionFind::new();
    let a = uf.make_set(1u32);
    let b = uf.make_set(2u32);
    assert_eq!(uf.union(a, b), true);
    assert_eq!(uf.union(a, b), false);
    assert_eq!(uf.union(b, a), false);
}

#[test]
fn test_find_is_repeatable_and_union_connects() {
    let mut uf = UnionFind::new();
    let a = uf.make_set("a");
    let b = uf.make_set("b");
    let c = uf.make_set("c");
    let d = uf.make_set("d");
    assert_ne!(uf.find(a), uf.find(b));
    assert!(uf.union(a, b));
    assert!(uf.union(c, d));
    assert_eq!(uf.find(a), uf.find(b));
    assert_eq!(uf.find(c), uf.find(d));
    assert_ne!(uf.find(a), uf.find(c));
    assert!(uf.union(b, d));
    // All four are now one component; find answers do not change on repeats.
    let r1 = uf.find(a);
    let r2 = uf.find(a);
    assert_eq!(r1, r2);
    assert_eq!(uf.find(b), r1);
    assert_eq!(uf.find(c), r1);
    assert_eq!(uf.find(d), r1);
}

#[test]
fn test_data_returns_the_handles_payload() {
    let mut uf = UnionFind::new();
    let a = uf.make_set(10u64);
    let b = uf.make_set(20u64);
    assert!(uf.union(a, b));
    // `data` reads the element itself, not its representative.
    assert_eq!(*uf.data(a), 10);
    assert_eq!(*uf.data(b), 20);
}

#[test]
fn test_rank_zero_components_merge_to_rank_one() {
    let mut uf = UnionFind::new();
    let a = uf.make_set(0u8);
    let b = uf.make_set(1u8);
    assert_eq!(uf.rank(a), 0);
    assert_eq!(uf.rank(b), 0);
    assert!(uf.union(a, b));
    let root = uf.find(a);
    assert_eq!(uf.rank(root), 1);
}
