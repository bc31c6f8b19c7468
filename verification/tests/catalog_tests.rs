use tx_launch::builder::{build_catalog, AppInfo};
use tx_launch::catalog::Catalog;
use tx_launch::pkg::{Options, Package};
use tx_launch::text::lower_ascii;

fn info(pack_name: &str, label: &str, intent: Option<&str>) -> AppInfo {
    AppInfo {
        pack_name: pack_name.to_string(),
        label: label.to_string(),
        intent: intent.map(|s| s.to_string()),
    }
}

#[test]
fn builder_lower_cases_labels_and_adds_builtins() {
    let discovered = vec![info("com.example.maps", "My Maps", Some("com.example.maps.Main"))];
    let c = build_catalog(&discovered);
    assert_eq!(c.len(), 4);
    let p = c.get(&"my maps".to_string()).expect("lower-cased label");
    assert_eq!(p.pack_name, "com.example.maps");
    assert_eq!(p.intent.as_deref(), Some("com.example.maps.Main"));
    assert_eq!(*c.get(&"settings".to_string()).unwrap(), Package::settings());
    assert_eq!(*c.get(&"playstore".to_string()).unwrap(), Package::playstore());
    assert_eq!(*c.get(&"youtube".to_string()).unwrap(), Package::youtube());
}

#[test]
fn builder_label_collision_keeps_the_later_package() {
    let discovered = vec![
        info("com.example.first", "Chat", None),
        info("com.example.second", "CHAT", None),
    ];
    let c = build_catalog(&discovered);
    let p = c.get(&"chat".to_string()).expect("collided label");
    assert_eq!(p.pack_name, "com.example.second");
}

#[test]
fn builder_builtins_shadow_colliding_real_labels() {
    let discovered = vec![info("com.example.fake", "Settings", None)];
    let c = build_catalog(&discovered);
    assert_eq!(*c.get(&"settings".to_string()).unwrap(), Package::settings());
}

#[test]
fn insert_replaces_in_place() {
    let mut c = Catalog::new();
    c.insert("a".to_string(), Package { pack_name: "one".to_string(), intent: None });
    c.insert("b".to_string(), Package { pack_name: "two".to_string(), intent: None });
    c.insert("a".to_string(), Package { pack_name: "three".to_string(), intent: None });
    assert_eq!(c.len(), 2);
    assert_eq!(c.get(&"a".to_string()).unwrap().pack_name, "three");
    assert_eq!(c.label_at(0), "a");
    assert_eq!(c.label_at(1), "b");
}

#[test]
fn labels_come_in_catalog_order() {
    let mut c = Catalog::new();
    c.insert("b".to_string(), Package { pack_name: "two".to_string(), intent: None });
    c.insert("a".to_string(), Package { pack_name: "one".to_string(), intent: None });
    assert_eq!(c.labels(), vec!["b".to_string(), "a".to_string()]);
}

#[test]
fn builtin_entries_have_their_fixed_values() {
    let s = Package::settings();
    assert_eq!(s.pack_name, "com.android.settings");
    assert_eq!(s.intent.as_deref(), Some("com.android.settings.Settings"));
    let p = Package::playstore();
    assert_eq!(p.pack_name, "com.android.vending");
    assert_eq!(p.intent.as_deref(), Some("com.android.vending.AssetBrowserActivity"));
    let y = Package::youtube();
    assert_eq!(y.pack_name, "com.google.android.youtube");
    assert_eq!(y.intent.as_deref(), Some("com.google.android.youtube.app.honeycomb.Shell$HomeActivity"));
    assert!(s.is_builtin() && p.is_builtin() && y.is_builtin());
    assert!(!Package::default().is_builtin());
}

#[test]
fn default_values_match_the_launcher_defaults() {
    let d = Package::default();
    assert_eq!(d.pack_name, "not available");
    assert_eq!(d.intent, None);
    let o = Options::default();
    assert_eq!(o.am, "old");
    assert!(o.warn);
    assert_eq!(o.running_app, None);
}

#[test]
fn ascii_lowering_leaves_other_characters_alone() {
    assert_eq!(lower_ascii("My App 3!"), "my app 3!");
    assert_eq!(lower_ascii("already lower"), "already lower");
    assert_eq!(lower_ascii(""), "");
}
