use tx_launch::catalog::Catalog;
use tx_launch::codec::{load_catalog, save_catalog};
use tx_launch::pkg::Package;

fn pkg(name: &str, intent: Option<&str>) -> Package {
    Package { pack_name: name.to_string(), intent: intent.map(|s| s.to_string()) }
}

#[test]
fn save_empty_catalog() {
    let c = Catalog::new();
    assert_eq!(save_catalog(&c), "{}");
}

#[test]
fn save_one_entry_exact_text() {
    let mut c = Catalog::new();
    c.insert("maps".to_string(), pkg("com.example.maps", Some("com.example.maps.Main")));
    assert_eq!(
        save_catalog(&c),
        "{\"maps\":{\"pack_name\":\"com.example.maps\",\"intent\":\"com.example.maps.Main\"}}"
    );
}

#[test]
fn save_no_intent_uses_null() {
    let mut c = Catalog::new();
    c.insert("maps".to_string(), pkg("com.example.maps", None));
    assert_eq!(save_catalog(&c), "{\"maps\":{\"pack_name\":\"com.example.maps\",\"intent\":null}}");
}

#[test]
fn round_trip_plain() {
    let mut c = Catalog::new();
    c.insert("maps".to_string(), pkg("com.example.maps", Some("com.example.maps.Main")));
    c.insert("mail".to_string(), pkg("com.example.mail", None));
    let loaded = load_catalog(&save_catalog(&c)).expect("round trip must parse");
    assert_eq!(loaded, c);
}

#[test]
fn round_trip_escaped_characters() {
    let mut c = Catalog::new();
    c.insert("a\"b\\c".to_string(), pkg("pkg\"with\\quotes", Some("in\"tent\\")));
    c.insert("plain".to_string(), pkg("p", None));
    let text = save_catalog(&c);
    let loaded = load_catalog(&text).expect("escaped text must parse");
    assert_eq!(loaded, c);
}

#[test]
fn round_trip_empty() {
    let c = Catalog::new();
    let loaded = load_catalog(&save_catalog(&c)).expect("empty catalog must parse");
    assert_eq!(loaded, c);
}

#[test]
fn load_handwritten_text() {
    let text = "{\"maps\":{\"pack_name\":\"com.example.maps\",\"intent\":null}}".to_string();
    let c = load_catalog(&text).expect("valid text must parse");
    assert_eq!(c.len(), 1);
    let p = c.get(&"maps".to_string()).expect("label must be present");
    assert_eq!(p.pack_name, "com.example.maps");
    assert_eq!(p.intent, None);
}

#[test]
fn load_rejects_corrupt_text() {
    assert!(load_catalog(&"".to_string()).is_none());
    assert!(load_catalog(&"{".to_string()).is_none());
    assert!(load_catalog(&"not a catalog".to_string()).is_none());
    assert!(load_catalog(&"{}trailing".to_string()).is_none());
    assert!(load_catalog(&"{\"a\":{\"pack_name\":\"p\",\"intent\":null}".to_string()).is_none());
}

#[test]
fn load_duplicate_label_keeps_last() {
    let text = "{\"a\":{\"pack_name\":\"first\",\"intent\":null},\"a\":{\"pack_name\":\"second\",\"intent\":null}}"
        .to_string();
    let c = load_catalog(&text).expect("valid text must parse");
    assert_eq!(c.len(), 1);
    let p = c.get(&"a".to_string()).expect("label must be present");
    assert_eq!(p.pack_name, "second");
}

#[test]
fn load_ignores_unknown_fields() {
    // a catalog written by a later version may carry extra fields
    let text = "{\"maps\":{\"pack_name\":\"com.example.maps\",\"intent\":null,\"icon\":\"res/m.png\"}}"
        .to_string();
    let c = load_catalog(&text).expect("extra fields are ignored");
    let p = c.get(&"maps".to_string()).expect("label must be present");
    assert_eq!(p.pack_name, "com.example.maps");
    assert_eq!(p.intent, None);
}

#[test]
fn load_accepts_reordered_and_null_valued_fields() {
    let text = "{\"a\":{\"note\":null,\"intent\":\"i\",\"pack_name\":\"p\"}}".to_string();
    let c = load_catalog(&text).expect("field order does not matter");
    let p = c.get(&"a".to_string()).expect("label must be present");
    assert_eq!(p.pack_name, "p");
    assert_eq!(p.intent.as_deref(), Some("i"));
}

#[test]
fn load_defaults_missing_intent_to_none() {
    let text = "{\"a\":{\"pack_name\":\"p\"}}".to_string();
    let c = load_catalog(&text).expect("intent may be absent");
    let p = c.get(&"a".to_string()).expect("label must be present");
    assert_eq!(p.pack_name, "p");
    assert_eq!(p.intent, None);
}

#[test]
fn load_requires_a_package_identifier() {
    // no pack_name pair, or a null one, is corrupt
    assert!(load_catalog(&"{\"a\":{\"intent\":null}}".to_string()).is_none());
    assert!(load_catalog(&"{\"a\":{\"pack_name\":null,\"intent\":null}}".to_string()).is_none());
    assert!(load_catalog(&"{\"a\":{}}".to_string()).is_none());
}

#[test]
fn load_duplicate_field_keeps_last() {
    let text = "{\"a\":{\"pack_name\":\"first\",\"pack_name\":\"second\",\"intent\":null}}"
        .to_string();
    let c = load_catalog(&text).expect("valid text must parse");
    assert_eq!(c.get(&"a".to_string()).unwrap().pack_name, "second");
}
