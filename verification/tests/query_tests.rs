use tx_launch::query::{
    check_sdk_version, get_am_command, ret_intent, ret_label, ret_pack_names, ret_path,
};

#[test]
fn pack_names_split_on_lines() {
    let out = "com.example.a\ncom.example.b\n";
    assert_eq!(ret_pack_names(out), vec!["com.example.a".to_string(), "com.example.b".to_string()]);
}

#[test]
fn pack_names_handle_crlf_and_blank_lines() {
    let out = "a\r\n\nb";
    assert_eq!(ret_pack_names(out), vec!["a".to_string(), "".to_string(), "b".to_string()]);
    assert_eq!(ret_pack_names(""), Vec::<String>::new());
}

#[test]
fn path_command_is_composed() {
    assert_eq!(
        ret_path("com.example.a"),
        "/system/bin/pm path --user 0  com.example.a | cut -d: -f2"
    );
}

#[test]
fn label_is_taken_from_the_label_line() {
    let out = "package: name='com.x'\napplication-label:'My App'\napplication-icon-160:'res'";
    assert_eq!(ret_label(out), "My App");
}

#[test]
fn label_falls_back_to_placeholder() {
    let out = "package: name='com.x'\nno label here";
    assert_eq!(ret_label(out), "No Label");
}

#[test]
fn intent_is_taken_from_the_name_line() {
    let out = "priority=0 preferredOrder=0\n        name=com.example/.MainActivity   \ndone";
    assert_eq!(ret_intent(out), Some("com.example/.MainActivity".to_string()));
}

#[test]
fn intent_is_absent_without_a_name_line() {
    assert_eq!(ret_intent("nothing resolved"), None);
}

#[test]
fn am_command_variants() {
    assert_eq!(get_am_command("old"), "am");
    assert_eq!(get_am_command("new"), "termux-am");
    assert_eq!(get_am_command("system"), "/system/bin/am");
    assert_eq!(get_am_command("anything"), "am");
}

#[test]
fn sdk_version_warns_only_above_29() {
    assert_eq!(check_sdk_version("30\n"), Some(30));
    assert_eq!(check_sdk_version("  31  "), Some(31));
    assert_eq!(check_sdk_version("+33"), Some(33));
    assert_eq!(check_sdk_version("29\n"), None);
    assert_eq!(check_sdk_version("not a number"), None);
    assert_eq!(check_sdk_version("999"), None);
    assert_eq!(check_sdk_version(""), None);
}
