use ati::errors::UnknownTag;
use ati::site::{Site, Sites};
use ati::tag::Tag;
use ati::union_find::UnionFind;

fn class_of<'a>(report: &'a [(String, Tag)], var: &str) -> &'a Tag {
    &report
        .iter()
        .find(|(name, _)| name == var)
        .unwrap_or_else(|| panic!("variable {var} not reported"))
        .1
}

#[test]
fn new_site_reports_nothing() {
    let site = Site::new("loc");
    assert!(site.report().is_empty());
}

#[test]
fn observe_has_no_effect_until_update() {
    let mut uf = UnionFind::new();
    let t = uf.make_set(1);
    let mut site = Site::new("loc");
    site.observe_var("x", &t);
    assert!(site.report().is_empty());
    site.update(&mut uf).unwrap();
    assert_eq!(site.report().len(), 1);
}

#[test]
fn update_groups_interacting_variables() {
    let mut uf = UnionFind::new();
    let tx = uf.make_set(1);
    let ty = uf.make_set(2);
    let tz = uf.make_set(3);
    uf.union_tags(&tx, &ty).unwrap();
    let mut site = Site::new("loc");
    site.observe_var("x", &tx);
    site.observe_var("y", &ty);
    site.observe_var("z", &tz);
    site.update(&mut uf).unwrap();
    let report = site.report();
    assert_eq!(report.len(), 3);
    assert_eq!(class_of(&report, "x"), class_of(&report, "y"));
    assert_ne!(class_of(&report, "x"), class_of(&report, "z"));
}

#[test]
fn update_with_unknown_tag_fails_and_keeps_pending() {
    let mut uf = UnionFind::new();
    let known = uf.make_set(1);
    let bogus = Tag::new(77);
    let mut site = Site::new("loc");
    site.observe_var("x", &known);
    site.observe_var("y", &bogus);
    assert_eq!(site.update(&mut uf), Err(UnknownTag));
    assert!(site.report().is_empty());
    // once the missing tag is introduced, the retained log commits whole
    uf.introduce_tag(bogus);
    assert_eq!(site.update(&mut uf), Ok(()));
    let report = site.report();
    assert_eq!(report.len(), 2);
    assert_ne!(class_of(&report, "x"), class_of(&report, "y"));
}

// Commit order-independence: permuting the order of observe calls within
// one commit yields the same variable-to-class grouping.
#[test]
fn observation_order_within_commit_does_not_change_classes() {
    let observe_orders: [&[(&str, u64)]; 3] = [
        &[("x", 1), ("y", 2), ("z", 3), ("x", 4)],
        &[("x", 1), ("z", 3), ("x", 4), ("y", 2)],
        &[("z", 3), ("x", 1), ("y", 2), ("x", 4)],
    ];
    let mut groupings = Vec::new();
    for order in observe_orders {
        let mut uf = UnionFind::new();
        for id in 1..=4u64 {
            uf.make_set(id);
        }
        // 2 and 4 interacted, so y joins whatever class x's later binding has
        uf.union_vals(2, 4).unwrap();
        let mut site = Site::new("loc");
        for (var, id) in order {
            site.observe_var(var, &Tag::new(*id));
        }
        site.update(&mut uf).unwrap();
        let report = site.report();
        let xy = class_of(&report, "x") == class_of(&report, "y");
        let xz = class_of(&report, "x") == class_of(&report, "z");
        let yz = class_of(&report, "y") == class_of(&report, "z");
        groupings.push((report.len(), xy, xz, yz));
    }
    assert_eq!(groupings[0], groupings[1]);
    assert_eq!(groupings[0], groupings[2]);
    assert_eq!(groupings[0], (3, true, false, false));
}

// Retroactive coarsening: v observed with t1 at commit 1 (class A) and t2
// at commit 2 (class B), with union(t1, t2) in between: after commit 2,
// v's class is the merged class of A and B.
#[test]
fn late_global_merge_coarsens_earlier_commits() {
    let mut uf = UnionFind::new();
    let t1 = uf.make_set(1);
    let t2 = uf.make_set(2);
    // a witnesses class A, b witnesses class B
    let ta = uf.make_set(3);
    let tb = uf.make_set(4);
    uf.union_tags(&ta, &t1).unwrap();
    uf.union_tags(&tb, &t2).unwrap();

    let mut site = Site::new("loc");
    site.observe_var("v", &t1);
    site.observe_var("a", &ta);
    site.observe_var("b", &tb);
    site.update(&mut uf).unwrap();
    let first = site.report();
    assert_eq!(class_of(&first, "v"), class_of(&first, "a"));
    assert_ne!(class_of(&first, "v"), class_of(&first, "b"));

    uf.union_tags(&t1, &t2).unwrap();
    site.observe_var("v", &t2);
    // re-observe a and b so their classes resolve through the merged index
    site.observe_var("a", &ta);
    site.observe_var("b", &tb);
    site.update(&mut uf).unwrap();
    let second = site.report();
    assert_eq!(class_of(&second, "v"), class_of(&second, "a"));
    assert_eq!(class_of(&second, "v"), class_of(&second, "b"));
}

#[test]
fn empty_commit_is_ok_and_commit_clears_pending() {
    let mut uf = UnionFind::new();
    let mut site = Site::new("loc");
    assert_eq!(site.update(&mut uf), Ok(()));
    assert!(site.report().is_empty());
    let t = uf.make_set(1);
    site.observe_var("x", &t);
    site.update(&mut uf).unwrap();
    let before = site.report();
    // the pending log was cleared: committing again changes nothing
    site.update(&mut uf).unwrap();
    assert_eq!(site.report(), before);
}

#[test]
fn extract_unknown_id_yields_fresh_site() {
    let mut sites = Sites::new();
    let site = sites.extract("f");
    assert!(site.report().is_empty());
}

#[test]
fn stash_then_extract_returns_the_same_site() {
    let mut uf = UnionFind::new();
    let t = uf.make_set(1);
    let mut sites = Sites::new();
    let mut site = sites.extract("f");
    site.observe_var("x", &t);
    site.update(&mut uf).unwrap();
    sites.stash(site);
    let site_again = sites.extract("f");
    assert_eq!(site_again.report().len(), 1);
    // it was moved out: a second extract now yields a fresh one
    let fresh = sites.extract("f");
    assert!(fresh.report().is_empty());
}

#[test]
fn stash_overwrites_site_with_same_id() {
    let mut uf = UnionFind::new();
    let t = uf.make_set(1);
    let mut sites = Sites::new();
    let mut first = Site::new("f");
    first.observe_var("x", &t);
    first.update(&mut uf).unwrap();
    sites.stash(first);
    let second = Site::new("f");
    sites.stash(second);
    let report = sites.report();
    assert!(report.is_empty());
}

#[test]
fn sites_report_concatenates_site_reports() {
    let mut uf = UnionFind::new();
    let t1 = uf.make_set(1);
    let t2 = uf.make_set(2);
    let mut sites = Sites::new();
    let mut f = sites.extract("f");
    f.observe_var("x", &t1);
    f.update(&mut uf).unwrap();
    sites.stash(f);
    let mut g = sites.extract("g");
    g.observe_var("y", &t2);
    g.update(&mut uf).unwrap();
    sites.stash(g);
    let report = sites.report();
    assert_eq!(report.len(), 2);
    assert_eq!(report[0].0, "f");
    assert_eq!(report[0].1, "x");
    assert_eq!(report[1].0, "g");
    assert_eq!(report[1].1, "y");
}
