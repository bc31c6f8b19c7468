use tx_launch::catalog::Catalog;
use tx_launch::detect::{
    catalog_has_real_id, check_for_change, compute_diff, needs_update, patch_catalog,
};
use tx_launch::pkg::Package;

fn pkg(name: &str) -> Package {
    Package { pack_name: name.to_string(), intent: None }
}

/// A catalog holding the three built-ins plus one real entry per given
/// (label, package) pair.
fn catalog_with(reals: &[(&str, &str)]) -> Catalog {
    let mut c = Catalog::new();
    for (label, id) in reals {
        c.insert(label.to_string(), pkg(id));
    }
    c.insert("playstore".to_string(), Package::playstore());
    c.insert("settings".to_string(), Package::settings());
    c.insert("youtube".to_string(), Package::youtube());
    c
}

#[test]
fn diff_of_changed_sets() {
    // cached real packages {a, b}, live {a, c}
    let mut c = catalog_with(&[("alpha", "a"), ("beta", "b")]);
    let live = vec!["a".to_string(), "c".to_string()];
    let (added, removed) = compute_diff(&c, &live);
    assert_eq!(added, vec!["c".to_string()]);
    assert_eq!(removed, vec!["b".to_string()]);

    // after patching, the real package set equals the live set
    let additions = vec![("gamma".to_string(), pkg("c"))];
    patch_catalog(&mut c, &additions, &removed);
    assert!(catalog_has_real_id(&c, &"a".to_string()));
    assert!(catalog_has_real_id(&c, &"c".to_string()));
    assert!(!catalog_has_real_id(&c, &"b".to_string()));
    let (added2, removed2) = compute_diff(&c, &live);
    assert!(added2.is_empty() && removed2.is_empty());
}

#[test]
fn patch_reaches_live_set_and_goes_idle() {
    let mut c = catalog_with(&[("alpha", "a"), ("beta", "b"), ("delta", "d")]);
    let live = vec!["a".to_string(), "c".to_string()];
    let (added, removed) = check_for_change(&c, &live).expect("counts differ");
    assert_eq!(added, vec!["c".to_string()]);
    assert_eq!(removed, vec!["b".to_string(), "d".to_string()]);

    let additions = vec![("gamma".to_string(), pkg("c"))];
    patch_catalog(&mut c, &additions, &removed);

    // final real set = {a, c}
    assert!(catalog_has_real_id(&c, &"a".to_string()));
    assert!(catalog_has_real_id(&c, &"c".to_string()));
    assert!(!catalog_has_real_id(&c, &"b".to_string()));
    assert!(!catalog_has_real_id(&c, &"d".to_string()));

    // built-ins survived the patch
    assert_eq!(*c.get(&"settings".to_string()).unwrap(), Package::settings());
    assert_eq!(*c.get(&"playstore".to_string()).unwrap(), Package::playstore());
    assert_eq!(*c.get(&"youtube".to_string()).unwrap(), Package::youtube());

    // the second comparison with the same live set sees no change
    assert!(check_for_change(&c, &live).is_none());
}

#[test]
fn builtin_only_catalog_against_empty_live_changes_nothing() {
    // the built-in is not part of the real package set compared against
    // the live list, so no change is detected: no write, no publication
    let mut c = Catalog::new();
    c.insert("settings".to_string(), Package::settings());
    let live: Vec<String> = vec![];
    assert!(check_for_change(&c, &live).is_none());
    let (added, removed) = compute_diff(&c, &live);
    assert!(added.is_empty());
    assert!(removed.is_empty());
    let before = c.clone();
    patch_catalog(&mut c, &vec![], &removed);
    assert_eq!(c, before);
    assert_eq!(*c.get(&"settings".to_string()).unwrap(), Package::settings());
}

#[test]
fn needs_update_compares_counts() {
    let c = catalog_with(&[("alpha", "a")]);
    // four entries, three of them built-ins: one real package expected
    assert!(!needs_update(&c, 1));
    assert!(needs_update(&c, 0));
    assert!(needs_update(&c, 2));
}

#[test]
fn no_change_means_no_publication() {
    let c = catalog_with(&[("alpha", "a")]);
    let live = vec!["a".to_string()];
    assert!(check_for_change(&c, &live).is_none());
}

#[test]
fn empty_catalog_matches_empty_live_list() {
    let c = Catalog::new();
    assert!(!needs_update(&c, 0));
    assert!(needs_update(&c, 1));
}

#[test]
fn removal_takes_first_matching_entry_only() {
    let mut c = Catalog::new();
    c.insert("one".to_string(), pkg("dup"));
    c.insert("two".to_string(), pkg("dup"));
    c.remove_by_pack_name(&"dup".to_string());
    assert!(c.get(&"one".to_string()).is_none());
    assert!(c.get(&"two".to_string()).is_some());
    c.remove_by_pack_name(&"missing".to_string());
    assert_eq!(c.len(), 1);
}
