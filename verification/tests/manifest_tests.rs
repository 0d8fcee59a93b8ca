use rustc_auto_publish::manifest::{
    description, prefixed_name, rewrite, rewrite_dependency, rewrite_dependency_table,
    rewrite_text, rewrite_with, ManifestError, RewriteError,
};
use rustc_auto_publish::version::Version;

fn parse(text: &str) -> toml::Value {
    text.parse().unwrap()
}

fn table(text: &str) -> toml::map::Map<String, toml::Value> {
    match parse(text) {
        toml::Value::Table(t) => t,
        _ => panic!("not a table"),
    }
}

fn keys(v: &toml::Value) -> Vec<String> {
    v.as_table().unwrap().keys().cloned().collect()
}

const MANIFEST_OF_A: &str = r#"
[package]
name = "A"
version = "0.0.0"
authors = ["The Rust Project Developers"]
edition = "2018"

[lib]
name = "A"
path = "lib.rs"
crate-type = ["dylib"]
doctest = false

[dependencies]
C = { path = "../libC" }
log = "0.4"
smallvec = { version = "1.0", features = ["union", "may_dangle"] }

[metadata]
custom = 7
ratio = 1.5
since = 1979-05-27T07:32:00Z
"#;

#[test]
fn local_dependency_is_pinned_and_renamed() {
    let out = rewrite(parse(MANIFEST_OF_A), "A", &Version::new(3, 0, 0), "abc123").unwrap();
    let c = &out["dependencies"]["C"];
    assert_eq!(keys(c), vec!["package", "version"]);
    assert!(c.get("path").is_none());
    assert_eq!(c["version"].as_str(), Some("3.0.0"));
    assert_eq!(c["package"].as_str(), Some("rustc-ap-C"));
}

#[test]
fn other_dependencies_are_unchanged() {
    let before = parse(MANIFEST_OF_A);
    let out = rewrite(before.clone(), "A", &Version::new(3, 0, 0), "abc123").unwrap();
    assert_eq!(keys(&out["dependencies"]), vec!["C", "log", "smallvec"]);
    assert_eq!(out["dependencies"]["log"], before["dependencies"]["log"]);
    assert_eq!(out["dependencies"]["smallvec"], before["dependencies"]["smallvec"]);
}

#[test]
fn sections_that_are_not_named_pass_through() {
    let before = parse(MANIFEST_OF_A);
    let out = rewrite(before.clone(), "A", &Version::new(3, 0, 0), "abc123").unwrap();
    assert_eq!(keys(&out), vec!["dependencies", "lib", "metadata", "package"]);
    assert_eq!(out["metadata"], before["metadata"]);
    assert_eq!(out["metadata"]["custom"].as_integer(), Some(7));
}

#[test]
fn identity_is_set() {
    let out = rewrite(parse(MANIFEST_OF_A), "A", &Version::new(3, 0, 0), "abc123").unwrap();
    let package = &out["package"];
    assert_eq!(
        keys(package),
        vec!["authors", "description", "edition", "license", "name", "repository", "version"]
    );
    assert_eq!(package["name"].as_str(), Some("rustc-ap-A"));
    assert_eq!(package["version"].as_str(), Some("3.0.0"));
    assert_eq!(package["license"].as_str(), Some("MIT / Apache-2.0"));
    assert_eq!(package["repository"].as_str(), Some("https://github.com/rust-lang/rust"));
    assert_eq!(
        package["description"].as_str(),
        Some("Automatically published version of the package `A` in the rust-lang/rust repository from commit abc123 The publishing script for this crate lives at: https://github.com/alexcrichton/rustc-auto-publish\n            ")
    );
    assert_eq!(package["edition"].as_str(), Some("2018"));
    assert_eq!(package["authors"], parse("a = [\"The Rust Project Developers\"]")["a"]);
}

#[test]
fn library_target_loses_name_and_kind() {
    let out = rewrite(parse(MANIFEST_OF_A), "A", &Version::new(3, 0, 0), "abc123").unwrap();
    let lib = &out["lib"];
    assert_eq!(keys(lib), vec!["doctest", "path"]);
    assert_eq!(lib["path"].as_str(), Some("lib.rs"));
    assert_eq!(lib["doctest"].as_bool(), Some(false));
}

#[test]
fn rewritten_manifest_as_a_whole() {
    let out = rewrite(parse(MANIFEST_OF_A), "A", &Version::new(3, 0, 0), "abc123").unwrap();
    let mut want = parse(
        r#"
[package]
name = "rustc-ap-A"
version = "3.0.0"
authors = ["The Rust Project Developers"]
edition = "2018"
license = "MIT / Apache-2.0"
repository = "https://github.com/rust-lang/rust"

[lib]
path = "lib.rs"
doctest = false

[dependencies]
C = { version = "3.0.0", package = "rustc-ap-C" }
log = "0.4"
smallvec = { version = "1.0", features = ["union", "may_dangle"] }

[metadata]
custom = 7
ratio = 1.5
since = 1979-05-27T07:32:00Z
"#,
    );
    want["package"]
        .as_table_mut()
        .unwrap()
        .insert("description".to_string(), toml::Value::String(description("A", "abc123")));
    assert_eq!(out, want);
}

#[test]
fn text_is_rewritten() {
    let text = rewrite_text(MANIFEST_OF_A, "A", &Version::new(3, 0, 0), "abc123").unwrap();
    let want = rewrite(parse(MANIFEST_OF_A), "A", &Version::new(3, 0, 0), "abc123").unwrap();
    assert_eq!(parse(&text), want);
    assert_eq!(text, want.to_string());
    assert!(text.contains("name = \"rustc-ap-A\""));
    assert!(!text.contains("libC"));
}

#[test]
fn text_that_is_no_document_is_refused() {
    let r = rewrite_text("[package\nname = ", "A", &Version::new(3, 0, 0), "abc123");
    assert_eq!(r.unwrap_err(), ManifestError::Parse);
}

#[test]
fn text_of_the_wrong_shape_is_refused() {
    let r = rewrite_text("package = 1", "A", &Version::new(3, 0, 0), "abc123");
    assert_eq!(r.unwrap_err(), ManifestError::Shape(RewriteError::PackageNotTable));
    let r = rewrite_text("lib = \"x\"", "A", &Version::new(3, 0, 0), "abc123");
    assert_eq!(r.unwrap_err(), ManifestError::Shape(RewriteError::LibNotTable));
}

#[test]
fn explicit_alias_is_prefixed() {
    let dep = parse(
        r#"
path = "../librustc_data_structures"
package = "rustc_data_structures"
optional = true
default-features = false
features = ["x"]
target = "cfg(unix)"
"#,
    );
    let out = rewrite_dependency(&"data".to_string(), dep.clone(), "7.0.0").unwrap();
    assert_eq!(
        keys(&out),
        vec!["default-features", "features", "optional", "package", "target", "version"]
    );
    assert_eq!(out["package"].as_str(), Some("rustc-ap-rustc_data_structures"));
    assert_eq!(out["version"].as_str(), Some("7.0.0"));
    assert_eq!(out["optional"], dep["optional"]);
    assert_eq!(out["default-features"], dep["default-features"]);
    assert_eq!(out["features"], dep["features"]);
    assert_eq!(out["target"], dep["target"]);
}

#[test]
fn version_of_a_local_dependency_is_overwritten() {
    let dep = parse("version = \"0.1\"\npath = \"../x\"");
    let out = rewrite_dependency(&"x".to_string(), dep, "2.0.0").unwrap();
    assert_eq!(out, parse("version = \"2.0.0\"\npackage = \"rustc-ap-x\""));
}

#[test]
fn dependency_without_path_is_returned_as_it_is() {
    let dep = parse("version = \"0.1\"\npackage = 3");
    let out = rewrite_dependency(&"x".to_string(), dep.clone(), "2.0.0").unwrap();
    assert_eq!(out, dep);
    let dep = toml::Value::String("1.0".to_string());
    let out = rewrite_dependency(&"x".to_string(), dep.clone(), "2.0.0").unwrap();
    assert_eq!(out, dep);
}

#[test]
fn manifest_without_sections_is_unchanged() {
    let before = parse("[workspace]\nmembers = [\"a\"]");
    let out = rewrite_with(before.clone(), "A", "1.0.0", "c").unwrap();
    assert_eq!(out, before);
    let out = rewrite_with(parse(""), "A", "1.0.0", "c").unwrap();
    assert_eq!(out, parse(""));
}

#[test]
fn manifest_that_is_no_table_is_refused() {
    assert_eq!(
        rewrite_with(toml::Value::String("x".to_string()), "A", "1.0.0", "c").unwrap_err(),
        RewriteError::DocumentNotTable
    );
    assert_eq!(
        rewrite(toml::Value::Array(vec![]), "A", &Version::new(1, 0, 0), "c").unwrap_err(),
        RewriteError::DocumentNotTable
    );
}

#[test]
fn package_that_is_no_table_is_refused() {
    let m = parse("package = \"A\"\nlib = \"x\"");
    assert_eq!(rewrite_with(m, "A", "1.0.0", "c").unwrap_err(), RewriteError::PackageNotTable);
}

#[test]
fn lib_that_is_no_table_is_refused() {
    let m = parse("lib = true\ndependencies = \"x\"\n[package]\n");
    assert_eq!(rewrite_with(m, "A", "1.0.0", "c").unwrap_err(), RewriteError::LibNotTable);
}

#[test]
fn dependencies_that_are_no_table_are_refused() {
    let m = parse("dependencies = []");
    assert_eq!(rewrite_with(m, "A", "1.0.0", "c").unwrap_err(), RewriteError::DependenciesNotTable);
}

#[test]
fn alias_that_is_no_text_is_refused() {
    let m = parse("[dependencies]\na = \"1\"\nb = { path = \"../b\", package = 1 }");
    assert_eq!(rewrite_with(m, "A", "1.0.0", "c").unwrap_err(), RewriteError::AliasNotText);
    let deps = table("b = { package = true, path = \"../b\" }\nc = \"1\"");
    assert_eq!(rewrite_dependency_table(deps, "1.0.0").unwrap_err(), RewriteError::AliasNotText);
}

#[test]
fn table_of_dependencies_is_rewritten_entry_by_entry() {
    let deps = table("b = { path = \"../b\" }\nc = \"1\"\nd = { path = \"../d\", package = \"e\" }");
    let out = rewrite_dependency_table(deps, "4.0.0").unwrap();
    let want = table(
        r#"
b = { version = "4.0.0", package = "rustc-ap-b" }
c = "1"
d = { version = "4.0.0", package = "rustc-ap-e" }
"#,
    );
    assert_eq!(out, want);
    assert_eq!(rewrite_dependency_table(table(""), "4.0.0").unwrap(), table(""));
}

#[test]
fn earlier_identity_is_overwritten() {
    let m = parse("[package]\nlicense = \"GPL\"\ndescription = 0");
    let out = rewrite_with(m, "rustc_ast", "652.0.0", "deadbeef").unwrap();
    let package = &out["package"];
    assert_eq!(keys(package), vec!["description", "license", "name", "repository", "version"]);
    assert_eq!(package["license"].as_str(), Some("MIT / Apache-2.0"));
    assert_eq!(package["name"].as_str(), Some("rustc-ap-rustc_ast"));
    assert_eq!(package["version"].as_str(), Some("652.0.0"));
    assert_eq!(package["description"].as_str(), Some(description("rustc_ast", "deadbeef").as_str()));
}

#[test]
fn rewriting_twice_keeps_what_is_not_named() {
    let once = rewrite(parse(MANIFEST_OF_A), "A", &Version::new(3, 0, 0), "abc123").unwrap();
    let twice = rewrite(once.clone(), "A", &Version::new(3, 0, 0), "abc123").unwrap();
    assert_eq!(twice, once);
}

#[test]
fn names_and_descriptions() {
    assert_eq!(prefixed_name("rustc_parse"), "rustc-ap-rustc_parse");
    assert_eq!(prefixed_name(""), "rustc-ap-");
    assert_eq!(
        description("n", "c"),
        "Automatically published version of the package `n` in the rust-lang/rust repository from commit c The publishing script for this crate lives at: https://github.com/alexcrichton/rustc-auto-publish\n            "
    );
}
