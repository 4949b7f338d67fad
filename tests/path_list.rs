use jdk_switch::path_list::{has_prefix, join_path, reconcile_path, split_path};

fn strings(v: &[&str]) -> Vec<String> {
    v.iter().map(|s| s.to_string()).collect()
}

#[test]
fn reconcile_moves_entry_first() {
    let entries = strings(&["C:\\Win", "%_JAVA_HOME_%\\bin", "C:\\Other"]);
    assert_eq!(
        reconcile_path(&entries, "%_JAVA_HOME_%"),
        strings(&["%_JAVA_HOME_%\\bin", "C:\\Win", "C:\\Other"])
    );
}

#[test]
fn reconcile_empty_list() {
    assert_eq!(reconcile_path(&Vec::new(), "H"), strings(&["H\\bin"]));
}

#[test]
fn reconcile_prepends_when_absent() {
    let entries = strings(&["a", "b"]);
    assert_eq!(reconcile_path(&entries, "H"), strings(&["H\\bin", "a", "b"]));
}

#[test]
fn reconcile_removes_every_match() {
    let entries = strings(&["H\\bin", "a", "H\\bin\\server", "b", "H\\bin"]);
    let r = reconcile_path(&entries, "H");
    assert_eq!(r, strings(&["H\\bin", "a", "b"]));
    assert_eq!(r.iter().filter(|e| e.starts_with("H\\bin")).count(), 1);
}

#[test]
fn reconcile_is_case_sensitive() {
    let entries = strings(&["h\\BIN", "a"]);
    assert_eq!(reconcile_path(&entries, "H"), strings(&["H\\bin", "h\\BIN", "a"]));
}

#[test]
fn split_and_join() {
    assert_eq!(split_path("a;b;;c;", ';'), strings(&["a", "b", "", "c", ""]));
    assert_eq!(split_path("", ';'), strings(&[""]));
    assert_eq!(join_path(&strings(&["a", "", "c"])), "a;;c");
    assert_eq!(join_path(&Vec::new()), "");
    let s = "x;y;;z";
    assert_eq!(join_path(&split_path(s, ';')), s);
}

#[test]
fn prefix_test() {
    assert!(has_prefix("abc", "ab"));
    assert!(has_prefix("abc", ""));
    assert!(!has_prefix("ab", "abc"));
    assert!(!has_prefix("abc", "b"));
}
