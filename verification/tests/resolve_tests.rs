use tx_launch::catalog::Catalog;
use tx_launch::pkg::Package;
use tx_launch::resolve::{build_launch_command, resolve, Resolution};

fn pkg(name: &str, intent: Option<&str>) -> Package {
    Package { pack_name: name.to_string(), intent: intent.map(|s| s.to_string()) }
}

fn sample_catalog() -> Catalog {
    let mut c = Catalog::new();
    c.insert("youtube".to_string(), pkg("com.google.android.youtube", None));
    c.insert("maps".to_string(), pkg("com.example.maps", Some("com.example.maps.Main")));
    c.insert("my maps pro".to_string(), pkg("com.example.mapspro", None));
    c
}

#[test]
fn resolution_is_case_insensitive() {
    let c = sample_catalog();
    let lower = resolve("youtube", &c);
    let mixed = resolve("YouTube", &c);
    match (lower, mixed) {
        (Resolution::Found(a), Resolution::Found(b)) => {
            assert_eq!(a.pack_name, "com.google.android.youtube");
            assert_eq!(a, b);
        }
        other => panic!("expected two exact matches, got {:?}", other),
    }
}

#[test]
fn one_character_input_is_not_a_suggestion() {
    let c = sample_catalog();
    // "m" occurs inside "maps", but one character is below the threshold
    assert!(matches!(resolve("m", &c), Resolution::NotFound));
}

#[test]
fn two_character_input_suggests_containing_labels() {
    let c = sample_catalog();
    match resolve("ma", &c) {
        Resolution::Suggestions(ls) => {
            assert_eq!(ls, vec!["maps".to_string(), "my maps pro".to_string()]);
        }
        other => panic!("expected suggestions, got {:?}", other),
    }
}

#[test]
fn unknown_input_is_not_found() {
    let c = sample_catalog();
    assert!(matches!(resolve("calculator", &c), Resolution::NotFound));
}

#[test]
fn exact_match_beats_suggestions() {
    let c = sample_catalog();
    // "maps" is itself a label and occurs inside "my maps pro"
    match resolve("Maps", &c) {
        Resolution::Found(p) => assert_eq!(p.pack_name, "com.example.maps"),
        other => panic!("expected an exact match, got {:?}", other),
    }
}

#[test]
fn launch_command_with_intent() {
    let p = pkg("com.example.maps", Some("com.example.maps.Main"));
    assert_eq!(
        build_launch_command("am", &p),
        "am start --user 0 com.example.maps/'com.example.maps.Main'"
    );
}

#[test]
fn launch_command_without_intent() {
    let p = pkg("com.example.maps", None);
    assert_eq!(
        build_launch_command("/system/bin/am", &p),
        "/system/bin/am start --user 0 com.example.maps/'none'"
    );
}
