use jdk_switch::jdk::{
    current_jdk_index, get_jdk_vendor, get_jdk_versions, get_jdks, is_jdk, known_vendors,
    parent_path, required_dirs, search_candidates, JDKVendor, KnownFolder, VendorDir,
    VersionDir, JDK,
};

fn version(name: &str, path: &str, is_dir: bool, entries: &[&str]) -> VersionDir {
    VersionDir {
        name: name.to_string(),
        path: path.to_string(),
        is_dir,
        entries: entries.iter().map(|s| s.to_string()).collect(),
    }
}

fn vendor(name: &str, is_dir: bool, versions: Vec<VersionDir>) -> VendorDir {
    VendorDir { name: name.to_string(), is_dir, versions }
}

#[test]
fn get_roaming_path() {
    let roots = vec![
        vec![vendor("Zulu", true, vec![version("zulu-8", "C:\\u\\.jdks\\Zulu\\zulu-8", true, &["bin", "include", "lib"])])],
        Vec::new(),
        vec![
            vendor("Java", true, vec![version("jdk-17", "C:\\pf\\Java\\jdk-17", true, &["lib", "bin", "include"])]),
            vendor("Common Files", true, vec![version("x", "C:\\pf\\Common Files\\x", true, &["bin", "include", "lib"])]),
        ],
    ];
    let p = get_jdks(&roots);
    let found: Vec<(String, String)> = p.iter().map(|j| (j.version.clone(), j.path.clone())).collect();
    assert_eq!(
        found,
        vec![
            (String::from("zulu-8"), String::from("C:\\u\\.jdks\\Zulu\\zulu-8")),
            (String::from("jdk-17"), String::from("C:\\pf\\Java\\jdk-17")),
        ]
    );
}

#[test]
fn structural_filter_excludes_then_includes() {
    let before = vec![vendor("temurin", true, vec![version("17", "T\\17", true, &["bin", "lib"])])];
    assert!(get_jdks(&vec![before]).is_empty());
    let after = vec![vendor("temurin", true, vec![version("17", "T\\17", true, &["bin", "lib", "include"])])];
    let found = get_jdks(&vec![after]);
    assert_eq!(found.len(), 1);
    assert_eq!(found[0].path, "T\\17");
}

#[test]
fn files_and_unknown_folders_are_skipped() {
    let roots = vec![vec![
        vendor("jbr", false, vec![version("21", "J\\21", true, &["bin", "include", "lib"])]),
        vendor("jbr2", true, vec![version("21", "J2\\21", true, &["bin", "include", "lib"])]),
        vendor("jbr", true, vec![
            version("readme", "J\\readme", false, &["bin", "include", "lib"]),
            version("21", "J\\21", true, &["bin", "include", "lib"]),
        ]),
    ]];
    let found = get_jdks(&roots);
    assert_eq!(found.len(), 1);
    assert_eq!(found[0].version, "21");
}

#[test]
fn versions_keep_listing_order() {
    let dirs = vec![
        version("b", "V\\b", true, &["bin", "include", "lib"]),
        version("a", "V\\a", true, &["bin", "include"]),
        version("c", "V\\c", true, &["include", "lib", "bin", "jmods"]),
    ];
    let found = get_jdk_versions(&dirs);
    let names: Vec<&str> = found.iter().map(|j| j.version.as_str()).collect();
    assert_eq!(names, vec!["b", "c"]);
}

#[test]
fn layout_requirements() {
    let v = |e: &[&str]| e.iter().map(|s| s.to_string()).collect::<Vec<String>>();
    assert!(is_jdk(&v(&["bin", "include", "lib"])));
    assert!(!is_jdk(&v(&["bin", "include"])));
    assert!(!is_jdk(&v(&["Bin", "include", "lib"])));
    assert!(!is_jdk(&v(&[])));
    let req: Vec<&str> = required_dirs();
    assert_eq!(req, vec!["bin", "include", "lib"]);
}

#[test]
fn vendor_table_lookup() {
    let vendors = known_vendors();
    assert_eq!(vendors.len(), 14);
    assert_eq!(get_jdk_vendor(&vendors, "Java").map(|v| v.1), Some("Oracle OpenJDK"));
    assert_eq!(get_jdk_vendor(&vendors, "sap").map(|v| v.1), Some("SAP SapMachine"));
    assert_eq!(get_jdk_vendor(&vendors, "Amazon Corretto").map(|v| v.1), Some("Amazon Corretto"));
    assert!(get_jdk_vendor(&vendors, "java").is_none());
    assert!(get_jdk_vendor(&vendors, "zulu").is_none());
    let own = vec![JDKVendor::new("x", "X")];
    assert_eq!(get_jdk_vendor(&own, "x").map(|v| v.1), Some("X"));
}

#[test]
fn search_locations() {
    let c = search_candidates();
    assert_eq!(c.len(), 3);
    assert_eq!(c[0].0, KnownFolder::Profile);
    assert_eq!(c[0].1, ".jdks");
    assert_eq!(c[1].0, KnownFolder::ProgramFiles);
    assert_eq!(c[2].0, KnownFolder::ProgramFilesX86);
}

#[test]
fn current_jdk_marker() {
    let jdks = vec![
        JDK::new(String::from("jdk-11"), String::from("C:\\Java\\jdk-11")),
        JDK::new(String::from("jdk-17"), String::from("C:\\Java\\jdk-17")),
    ];
    assert_eq!(current_jdk_index(&jdks, "C:\\Java\\jdk-17\\bin\\java.exe"), Some(1));
    assert_eq!(current_jdk_index(&jdks, "C:\\Other\\bin\\java.exe"), None);
    assert_eq!(current_jdk_index(&jdks, "java.exe"), None);
    assert_eq!(parent_path("C:\\a\\b"), Some(String::from("C:\\a")));
    assert_eq!(parent_path("C:/a/b"), Some(String::from("C:/a")));
    assert_eq!(parent_path("ab"), None);
}

#[test]
fn display_strings() {
    assert_eq!(JDKVendor::new("Zulu", "Azul Zulu").to_display_string(), "JDKVendor(Zulu, Azul Zulu)");
    let jdk = JDK::new(String::from("jdk-17"), String::from("C:\\Java\\jdk \"17\""));
    assert_eq!(jdk.to_display_string(), "JDK(version:jdk-17, path:\"C:\\\\Java\\\\jdk \\\"17\\\"\")");
    assert_eq!(
        jdk.to_display_string(),
        format!("JDK(version:{}, path:{:?})", jdk.version, jdk.path)
    );
}

#[test]
fn vendor_table_pairs_in_order() {
    let vendors = known_vendors();
    let pairs: Vec<(&str, &str)> = vendors.iter().map(|v| (v.0, v.1)).collect();
    assert_eq!(pairs[0], ("adopt", "AdoptOpenJDK (HotSpot)"));
    assert_eq!(pairs[11], ("sap", "SAP SapMachine"));
    assert_eq!(pairs[13], ("Java", ""));
}
