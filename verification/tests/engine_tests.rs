use ati::ati::ATI;
use ati::errors::UnknownTag;
use ati::tag::Tag;

fn class_of<'a>(report: &'a [(String, String, Tag)], site: &str, var: &str) -> &'a Tag {
    &report
        .iter()
        .find(|(s, v, _)| s == site && v == var)
        .unwrap_or_else(|| panic!("{site}/{var} not reported"))
        .2
}

fn has_var(report: &[(String, String, Tag)], site: &str, var: &str) -> bool {
    report.iter().any(|(s, v, _)| s == site && v == var)
}

/// The instrumented helper of the two-call-merge scenario: `x` and `y`
/// arrive with their tags, two constants are minted, and the additions
/// `result = a + x` and `test = b + y` are recorded as interactions.
fn doubled_func(x: u32, x_tag: &Tag, y: u32, y_tag: &Tag, ati: &mut ATI) {
    let mut site = ati.get_site("doubled_func");
    site.observe_var("x", x_tag);
    site.observe_var("y", y_tag);

    let a: u32 = 2;
    let a_tag = ati.mint_tracked("a", &a, &mut site);
    let b: u32 = 2;
    let b_tag = ati.mint_tracked("b", &b, &mut site);

    let result: u32 = a + x;
    let result_tag = ati.mint_tracked("result", &result, &mut site);
    ati.union_tags(&[a_tag, *x_tag, result_tag]).unwrap();

    let test: u32 = b + y;
    let test_tag = ati.mint_tracked("test", &test, &mut site);
    ati.union_tags(&[b_tag, *y_tag, test_tag]).unwrap();

    ati.update_site(site).unwrap();
}

// Two-call merge: both invocations' x/result chains are unioned through
// the same constant-tag pattern, so x ends up in the same reported class
// as result.
#[test]
fn two_call_merge_links_x_and_result() {
    let mut ati = ATI::new();
    let mut main_site = ati.get_site("main");

    let a1: u32 = 10;
    let a1_tag = ati.mint_tracked("a1", &a1, &mut main_site);
    let b1: u32 = 100;
    let b1_tag = ati.mint_tracked("b1", &b1, &mut main_site);
    doubled_func(a1, &a1_tag, b1, &b1_tag, &mut ati);

    let a2: u32 = 20;
    let a2_tag = ati.mint_tracked("a2", &a2, &mut main_site);
    let b2: u32 = 200;
    let b2_tag = ati.mint_tracked("b2", &b2, &mut main_site);
    doubled_func(a2, &a2_tag, b2, &b2_tag, &mut ati);

    ati.update_site(main_site).unwrap();
    let report = ati.report();

    // inside the helper, x interacted with result in both calls, and the
    // helper's variable x accumulated both invocations' classes
    let x = class_of(&report, "doubled_func", "x");
    let result = class_of(&report, "doubled_func", "result");
    assert_eq!(x, result);
    // the constant fed into x's chain shares the class too
    assert_eq!(x, class_of(&report, "doubled_func", "a"));
    // the y/test chain is a separate abstract type
    assert_ne!(
        class_of(&report, "doubled_func", "x"),
        class_of(&report, "doubled_func", "y")
    );
    assert_eq!(
        class_of(&report, "doubled_func", "y"),
        class_of(&report, "doubled_func", "test")
    );
}

// The untracked variant: values minted with no site observation still
// join the global classes but appear in no site's reported map.
#[test]
fn untracked_values_join_classes_but_are_not_reported() {
    let mut ati = ATI::new();
    let mut main_site = ati.get_site("main");

    let a1: u32 = 10;
    let a1_tag = ati.mint_tracked("a1", &a1, &mut main_site);
    let b1: u32 = 100;
    let b1_tag = ati.mint_tracked("b1", &b1, &mut main_site);
    doubled_func(a1, &a1_tag, b1, &b1_tag, &mut ati);

    let a3: u32 = 30;
    let a3_tag = ati.untracked(&a3);
    let b3: u32 = 300;
    let b3_tag = ati.untracked(&b3);
    doubled_func(a3, &a3_tag, b3, &b3_tag, &mut ati);

    ati.update_site(main_site).unwrap();
    let report = ati.report();

    // the helper still grouped its own variables across both calls
    assert_eq!(
        class_of(&report, "doubled_func", "x"),
        class_of(&report, "doubled_func", "result")
    );
    // but no site maps the untracked values themselves: main reports only
    // the two tracked variables
    let main_vars: Vec<&str> = report
        .iter()
        .filter(|(s, _, _)| s == "main")
        .map(|(_, v, _)| v.as_str())
        .collect();
    assert_eq!(main_vars, ["a1", "b1"]);
}

// Unknown tag: record_interaction with a tag that was never minted fails
// with UnknownTag and leaves the global index unchanged.
#[test]
fn interaction_with_unminted_tag_fails_and_changes_nothing() {
    let mut ati = ATI::new();
    let mut site = ati.get_site("loc");
    let x: u32 = 1;
    let x_tag = ati.mint_tracked("x", &x, &mut site);
    let y: u32 = 2;
    let y_tag = ati.mint_tracked("y", &y, &mut site);
    let bogus = Tag::new(u64::MAX);

    assert_eq!(ati.union_tags(&[x_tag, y_tag, bogus]), Err(UnknownTag));
    assert_eq!(ati.union_tags(&[bogus]), Err(UnknownTag));

    // had the index changed, x and y would now share a class
    ati.update_site(site).unwrap();
    let report = ati.report();
    assert_ne!(class_of(&report, "loc", "x"), class_of(&report, "loc", "y"));
}

#[test]
fn empty_and_single_interactions_succeed() {
    let mut ati = ATI::new();
    let v: u32 = 5;
    let t = ati.untracked(&v);
    assert_eq!(ati.union_tags(&[]), Ok(()));
    assert_eq!(ati.union_tags(&[t]), Ok(()));
}

// Double checkout hazard: checking out the same id again before checkin
// yields a second, independent, empty site; whatever was pending on the
// first in-flight site is not in it.
#[test]
fn double_checkout_yields_empty_site() {
    let mut ati = ATI::new();
    let mut first = ati.get_site("f");
    let x: u32 = 1;
    ati.mint_tracked("x", &x, &mut first);

    let second = ati.get_site("f");
    assert!(second.report().is_empty());
    // committing the empty duplicate and checking it in discards nothing
    // yet; committing the first afterwards overwrites it in the registry
    ati.update_site(second).unwrap();
    let report = ati.report();
    assert!(!has_var(&report, "f", "x"));
}

#[test]
fn commit_discards_in_flight_duplicate() {
    let mut ati = ATI::new();
    let mut first = ati.get_site("f");
    let x: u32 = 1;
    ati.mint_tracked("x", &x, &mut first);
    ati.update_site(first).unwrap();

    // check out, then check out again: the in-flight site is lost once
    // the empty duplicate is committed over it
    let _in_flight = ati.get_site("f");
    let duplicate = ati.get_site("f");
    ati.update_site(duplicate).unwrap();
    let report = ati.report();
    assert!(!has_var(&report, "f", "x"));
}

#[test]
fn update_site_with_unknown_tag_reports_error_and_keeps_site() {
    let mut ati = ATI::new();
    let mut site = ati.get_site("loc");
    site.observe_var("x", &Tag::new(12345));
    assert_eq!(ati.update_site(site), Err(UnknownTag));
    // the site went back into the registry unchanged, pending log intact
    let site = ati.get_site("loc");
    assert!(site.report().is_empty());
    ati.update_site(site).err().expect("pending bogus tag still there");
}

#[test]
fn report_is_empty_for_fresh_run() {
    let ati = ATI::new();
    assert!(ati.report().is_empty());
}

#[test]
fn minted_tags_are_distinct() {
    let mut ati = ATI::new();
    let v: u32 = 7;
    let t1 = ati.untracked(&v);
    let t2 = ati.untracked(&v);
    assert_ne!(t1, t2);
    assert_eq!(t1, Tag::new(t1.id()));
}
