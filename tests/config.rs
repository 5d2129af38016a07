use docref::config::{enter_extends_chain, parent_namespace_base, Config, NamespaceEntry};
use docref::error::Error;

fn entries(list: &[(&str, &str)]) -> Vec<(String, String)> {
    list.iter().map(|(a, b)| (a.to_string(), b.to_string())).collect()
}

#[test]
fn resolve_target_without_namespace() {
    let config = Config::scan_everything_by_default();
    let resolved = config.resolve_target("src/lib.rs").unwrap();
    assert_eq!(resolved, "src/lib.rs");
}

#[test]
fn resolve_target_unknown_namespace_errors() {
    let config = Config::scan_everything_by_default();
    let result = config.resolve_target("nope:src/lib.rs");
    assert!(result.is_err());
    assert!(matches!(result, Err(Error::UnknownNamespace { name }) if name == "nope"));
}

#[test]
fn namespace_expands_target() {
    let ns = Config::merge_namespaces(Vec::new(), entries(&[("auth", "services/auth")]), "");
    let config = Config::from_parts(Vec::new(), Vec::new(), ns);
    assert_eq!(config.resolve_target("auth:src/lib.rs").unwrap(), "services/auth/src/lib.rs");
}

#[test]
fn inherited_namespaces_resolve_from_parent_root() {
    let parent_base = parent_namespace_base("", "../../.docref.toml");
    assert_eq!(parent_base, "../..");
    let parent = Config::merge_namespaces(Vec::new(), entries(&[("auth", "services/auth"), ("shared", "packages/shared")]), &parent_base);
    let merged = Config::merge_namespaces(parent, Vec::new(), "");
    assert_eq!(merged.len(), 2);
    let config = Config::from_parts(vec!["docs/".to_string()], Vec::new(), merged);
    assert_eq!(config.resolve_target("auth:src/lib.rs").unwrap(), "../../services/auth/src/lib.rs");
    assert_eq!(config.resolve_target("shared:src/lib.rs").unwrap(), "../../packages/shared/src/lib.rs");
}

#[test]
fn child_namespace_overrides_parent_entry() {
    let parent = Config::merge_namespaces(Vec::new(), entries(&[("auth", "services/auth-legacy")]), "../..");
    let merged = Config::merge_namespaces(parent, entries(&[("auth", "services/auth-v2")]), "");
    assert_eq!(merged.len(), 1);
    let config = Config::from_parts(Vec::new(), Vec::new(), merged);
    assert_eq!(config.resolve_target("auth:src/lib.rs").unwrap(), "services/auth-v2/src/lib.rs");
}

#[test]
fn extends_cycle_is_reported_with_chain() {
    let mut chain: Vec<String> = Vec::new();
    assert!(enter_extends_chain(&mut chain, "/r/a/.docref.toml".to_string()).is_ok());
    assert!(enter_extends_chain(&mut chain, "/r/b/.docref.toml".to_string()).is_ok());
    match enter_extends_chain(&mut chain, "/r/a/.docref.toml".to_string()) {
        Err(Error::ConfigCycle { chain }) => assert_eq!(chain, vec!["/r/a/.docref.toml", "/r/b/.docref.toml", "/r/a/.docref.toml"]),
        other => panic!("expected a cycle, got {other:?}"),
    }
}

#[test]
fn scan_filter_uses_prefixes() {
    let config = Config::from_parts(vec!["docs/".to_string()], vec!["docs/external/".to_string()], Vec::<(String, NamespaceEntry)>::new());
    assert!(config.should_scan("docs/guide.md"));
    assert!(!config.should_scan("docs/external/ignored.md"));
    assert!(!config.should_scan("README.md"));
    let all = Config::scan_everything_by_default();
    assert!(all.should_scan("README.md"));
}
