use ati::tag::Tag;
use ati::union_find::UnionFind;

#[test]
fn make_set_returns_tag_with_identity() {
    let mut uf = UnionFind::new();
    let t = uf.make_set(7);
    assert_eq!(t.id(), 7);
    assert_eq!(t, Tag::new(7));
}

#[test]
fn find_unknown_tag_is_none() {
    let mut uf = UnionFind::new();
    let bogus = Tag::new(42);
    assert_eq!(uf.find(&bogus), None);
    assert!(!uf.contains_tag(&bogus));
}

#[test]
fn find_singleton_is_its_own_leader() {
    let mut uf = UnionFind::new();
    let t = uf.make_set(1);
    assert_eq!(uf.find(&t), Some(t));
    assert!(uf.contains_tag(&t));
}

#[test]
fn union_joins_classes() {
    let mut uf = UnionFind::new();
    let a = uf.make_set(1);
    let b = uf.make_set(2);
    assert_ne!(uf.find(&a), uf.find(&b));
    let leader = uf.union_tags(&a, &b).unwrap();
    assert_eq!(uf.find(&a), Some(leader));
    assert_eq!(uf.find(&b), Some(leader));
}

#[test]
fn union_with_unknown_side_fails_and_changes_nothing() {
    let mut uf = UnionFind::new();
    let a = uf.make_set(1);
    let bogus = Tag::new(99);
    assert_eq!(uf.union_tags(&a, &bogus), None);
    assert_eq!(uf.union_tags(&bogus, &a), None);
    assert_eq!(uf.find(&a), Some(a));
    assert_eq!(uf.find(&bogus), None);
}

// Monotonicity: once union(a, b) succeeds, find(a) == find(b) holds for
// every subsequent call, including after further unrelated unions.
#[test]
fn monotonicity_survives_unrelated_unions() {
    let mut uf = UnionFind::new();
    let a = uf.make_set(1);
    let b = uf.make_set(2);
    let c = uf.make_set(3);
    let d = uf.make_set(4);
    uf.union_tags(&a, &b).unwrap();
    assert_eq!(uf.find(&a), uf.find(&b));
    uf.union_tags(&c, &d).unwrap();
    assert_eq!(uf.find(&a), uf.find(&b));
    uf.union_tags(&c, &a).unwrap();
    assert_eq!(uf.find(&a), uf.find(&b));
    assert_eq!(uf.find(&a), uf.find(&c));
    assert_eq!(uf.find(&a), uf.find(&d));
}

// Idempotent introduction: introducing a tag a second time changes
// neither its class nor anyone else's.
#[test]
fn introduce_twice_is_a_no_op() {
    let mut uf = UnionFind::new();
    let a = uf.make_set(1);
    let b = uf.make_set(2);
    uf.union_tags(&a, &b).unwrap();
    let leader_before_a = uf.find(&a).unwrap();
    let leader_before_b = uf.find(&b).unwrap();
    let returned = uf.introduce_tag(a);
    assert_eq!(returned, a);
    assert_eq!(uf.find(&a), Some(leader_before_a));
    assert_eq!(uf.find(&b), Some(leader_before_b));
    // and a fresh re-introduction by identity behaves the same
    let again = uf.make_set(1);
    assert_eq!(again, a);
    assert_eq!(uf.find(&a), Some(leader_before_a));
}

#[test]
fn union_vals_works_on_identities() {
    let mut uf = UnionFind::new();
    uf.make_set(10);
    uf.make_set(20);
    let leader = uf.union_vals(10, 20).unwrap();
    assert_eq!(uf.find(&Tag::new(10)), Some(leader));
    assert_eq!(uf.find(&Tag::new(20)), Some(leader));
    assert_eq!(uf.union_vals(10, 555), None);
}

#[test]
fn chain_of_unions_collapses_to_one_class() {
    let mut uf = UnionFind::new();
    let tags: Vec<Tag> = (0..8).map(|i| uf.make_set(i)).collect();
    for w in tags.windows(2) {
        uf.union_tags(&w[0], &w[1]).unwrap();
    }
    let leader = uf.find(&tags[0]).unwrap();
    for t in &tags {
        assert_eq!(uf.find(t), Some(leader));
    }
}
