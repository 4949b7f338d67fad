use jdk_switch::registry_helper::{EnvError, RegistryHelper};
use jdk_switch::user_env::{get_path_vars, validate_env_path, validate_java_home, JAVA_HOME};
use jdk_switch::jdk::JDK;

fn store(pairs: &[(&str, &str)]) -> RegistryHelper {
    RegistryHelper::wrap(
        pairs.iter().map(|(n, v)| (n.to_string(), v.to_string())).collect(),
    )
}

fn machine() -> RegistryHelper {
    store(&[
        ("JAVA_HOME", "%ProgramFiles%\\Java\\jdk-17"),
        ("ProgramFiles", "C:\\Program Files"),
        ("_JAVA_HOME_", "C:\\Program Files\\Java\\jdk-17"),
        ("Path", "C:\\Windows;%_JAVA_HOME_%\\bin;%SystemRoot%\\System32"),
        ("SystemRoot", "C:\\Windows"),
    ])
}

#[test]
fn get_java_home() {
    let helper = machine();
    let value = helper
        .get_value("JAVA_HOME", true)
        .expect("Failed to fetch JAVA_HOME env var!");
    assert_eq!(value, "C:\\Program Files\\Java\\jdk-17");
}

#[test]
fn get_env_path() {
    let helper = machine();
    let value = helper
        .get_value("Path", true)
        .expect("Failed to fetch Path env var!");
    println!("{}", value);
    assert_eq!(value, "C:\\Windows;%_JAVA_HOME_%\\bin;C:\\Windows\\System32");
}

#[test]
fn get_env_path_list() {
    let helper = machine();
    let vars = get_path_vars(&helper, true).expect("Error!");
    println!("{:?}", vars);
    assert_eq!(vars, vec!["C:\\Windows", "%_JAVA_HOME_%\\bin", "%SystemRoot%\\System32"]);
}

#[test]
fn validate_env() {
    let helper = machine();
    let path = validate_env_path(&helper).expect("Error!");
    assert_eq!(
        path,
        Some(String::from("%_JAVA_HOME_%\\bin;C:\\Windows;%SystemRoot%\\System32"))
    );
}

#[test]
fn validate_java_home_test() {
    let helper = machine();
    let probe = Ok(String::from("C:\\Program Files\\Java\\jdk-17\\bin\\java.exe"));
    let result = validate_java_home(&helper, &probe, &Vec::new()).expect("Error!");
    println!("{:?}", result);
    assert_eq!(result, None);
}

#[test]
fn resolve_token_free_value_unchanged() {
    let helper = store(&[("A", "plain value; no refs 50%")]);
    assert_eq!(helper.get_value("A", true), Ok(String::from("plain value; no refs 50%")));
}

#[test]
fn resolve_missing_reference_falls_back_to_name() {
    let helper = store(&[("A", "%MISSING%")]);
    assert_eq!(helper.get_value("A", true), Ok(String::from("MISSING")));
}

#[test]
fn resolve_missing_top_level_name_is_itself() {
    let helper = store(&[]);
    assert_eq!(helper.get_value("NOPE", true), Ok(String::from("NOPE")));
}

#[test]
fn resolve_multi_token() {
    let helper = store(&[("A", "%B%-%C%"), ("B", "x"), ("C", "y")]);
    assert_eq!(helper.get_value("A", true), Ok(String::from("x-y")));
}

#[test]
fn resolve_multi_occurrence() {
    let helper = store(&[("A", "%B%/%B%"), ("B", "z")]);
    assert_eq!(helper.get_value("A", true), Ok(String::from("z/z")));
}

#[test]
fn resolve_nested_chain() {
    let helper = store(&[("A", "[%B%]"), ("B", "<%C%>"), ("C", "c")]);
    assert_eq!(helper.get_value("A", true), Ok(String::from("[<c>]")));
}

#[test]
fn resolve_cycle_is_an_error() {
    let helper = store(&[("A", "%B%"), ("B", "%A%")]);
    assert_eq!(helper.get_value("A", true), Err(EnvError::CyclicReference));
    let selfref = store(&[("X", "1%X%")]);
    assert_eq!(selfref.get_value("X", true), Err(EnvError::CyclicReference));
}

#[test]
fn resolve_leaves_non_tokens() {
    let helper = store(&[("A", "%%B%% 100% %_U_% %"), ("B", "b")]);
    assert_eq!(helper.get_value("A", true), Ok(String::from("%b% 100% %_U_% %")));
}

#[test]
fn lookup_ignores_ascii_case() {
    let helper = store(&[("Path", "p"), ("JavaHome", "%path%")]);
    assert_eq!(helper.get_value("PATH", false), Ok(String::from("p")));
    assert_eq!(helper.get_value("javahome", true), Ok(String::from("p")));
}

#[test]
fn non_recursive_get_is_passthrough() {
    let helper = store(&[("A", "%B%"), ("B", "x")]);
    assert_eq!(helper.get_value("A", false), Ok(String::from("%B%")));
}

#[test]
fn non_recursive_missing_is_not_found() {
    let helper = store(&[("A", "1")]);
    assert_eq!(helper.get_value("B", false), Err(EnvError::NotFound));
}

#[test]
fn set_value_replaces_and_adds() {
    let mut helper = store(&[("Path", "old")]);
    helper.set_value("PATH", "new");
    helper.set_value(JAVA_HOME, "C:\\jdk");
    assert_eq!(helper.get_value("Path", false), Ok(String::from("new")));
    assert_eq!(helper.get_value("_java_home_", false), Ok(String::from("C:\\jdk")));
}

#[test]
fn validate_java_home_falls_back_to_last_jdk() {
    let helper = store(&[("Path", "C:\\Windows")]);
    let jdks = vec![
        JDK::new(String::from("jdk-11"), String::from("C:\\Program Files\\Java\\jdk-11")),
        JDK::new(String::from("jdk-17"), String::from("C:\\Program Files\\Java\\jdk-17")),
    ];
    let probe = Err(EnvError::ProbeFailure);
    assert_eq!(
        validate_java_home(&helper, &probe, &jdks),
        Ok(Some(String::from("C:\\Program Files\\Java\\jdk-17")))
    );
}

#[test]
fn validate_java_home_without_jdks_is_not_found() {
    let helper = store(&[]);
    let probe = Ok(String::from("C:\\x\\bin\\java.exe"));
    assert_eq!(validate_java_home(&helper, &probe, &Vec::new()), Err(EnvError::NotFound));
}

#[test]
fn validate_java_home_stale_value_is_returned() {
    let helper = store(&[("_JAVA_HOME_", "C:\\old")]);
    let probe = Ok(String::from("C:\\new\\bin\\java.exe"));
    assert_eq!(
        validate_java_home(&helper, &probe, &Vec::new()),
        Ok(Some(String::from("C:\\old")))
    );
}

#[test]
fn validate_java_home_passes_probe_failure_on() {
    let helper = store(&[("_JAVA_HOME_", "C:\\old")]);
    assert_eq!(
        validate_java_home(&helper, &Err(EnvError::ProbeFailure), &Vec::new()),
        Err(EnvError::ProbeFailure)
    );
    assert_eq!(
        validate_java_home(&helper, &Err(EnvError::IoFailure), &Vec::new()),
        Err(EnvError::IoFailure)
    );
}

#[test]
fn validate_env_path_end_to_end() {
    let helper = store(&[("Path", "C:\\Win;%_JAVA_HOME_%\\bin;C:\\Other")]);
    assert_eq!(
        validate_env_path(&helper),
        Ok(Some(String::from("%_JAVA_HOME_%\\bin;C:\\Win;C:\\Other")))
    );
}

#[test]
fn validate_env_path_first_setup_and_missing() {
    let helper = store(&[("Path", "C:\\Win")]);
    assert_eq!(
        validate_env_path(&helper),
        Ok(Some(String::from("%_JAVA_HOME_%\\bin;C:\\Win")))
    );
    assert_eq!(validate_env_path(&store(&[])), Err(EnvError::NotFound));
}

#[test]
fn resolve_long_acyclic_chain() {
    let mut pairs: Vec<(String, String)> = Vec::new();
    for i in 0..40 {
        pairs.push((format!("N{}", i), format!("<%N{}%>", i + 1)));
    }
    let helper = RegistryHelper::wrap(pairs);
    let expected = format!("{}N40{}", "<".repeat(40), ">".repeat(40));
    assert_eq!(helper.get_value("N0", true), Ok(expected));
}

#[test]
fn resolve_shared_references_once() {
    let mut pairs: Vec<(String, String)> = Vec::new();
    for i in 0..30 {
        pairs.push((format!("D{}", i), format!("%D{}%%D{}%", i + 1, i + 1)));
    }
    pairs.push((String::from("D30"), String::from("x")));
    let helper = RegistryHelper::wrap(pairs);
    let value = helper.get_value("D27", true).expect("resolves");
    assert_eq!(value, "x".repeat(8));
}

#[test]
fn resolve_cycle_behind_long_chain_is_an_error() {
    let mut pairs: Vec<(String, String)> = Vec::new();
    for i in 0..40 {
        pairs.push((format!("C{}", i), format!("%C{}%", (i + 1) % 40)));
    }
    let helper = RegistryHelper::wrap(pairs);
    assert_eq!(helper.get_value("C0", true), Err(EnvError::CyclicReference));
}
