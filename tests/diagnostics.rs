use docref::diagnostics::{decimal, render_ambiguous_symbol, render_config_cycle, render_error, render_file_too_large, render_namespace_in_use, render_symbol_not_found};
use docref::error::Error;
use docref::types::SourceRef;

#[test]
fn decimal_digits() {
    assert_eq!(decimal(0), "0");
    assert_eq!(decimal(16777216), "16777216");
    assert_eq!(decimal(u64::MAX), "18446744073709551615");
}

#[test]
fn size_and_count_diagnostics() {
    assert_eq!(render_file_too_large("big.rs", 20, 10), "# Error: File Too Large\n\n`big.rs` is 20 bytes (max 10).\n");
    let text = render_namespace_in_use("auth", 3);
    assert!(text.contains("Namespace `auth` is referenced by 3 lockfile entries."));
    assert!(text.ends_with("    docref namespace remove auth --force\n"));
}

#[test]
fn ambiguity_and_cycle_diagnostics() {
    let text = render_ambiguous_symbol("docs/overview.md", "example", &vec!["foo.example".to_string(), "bar.example".to_string()]);
    assert!(text.contains("- `foo.example`\n- `bar.example`\n"));
    assert!(text.ends_with("    docref resolve docs/overview.md foo.example\n"));
    let cycle = render_config_cycle(&vec!["a".to_string(), "b".to_string(), "a".to_string()]);
    assert!(cycle.contains("Circular `extends` chain: a -> b -> a"));
}

#[test]
fn missing_symbol_diagnostic_suggests_close_match() {
    let refs = vec![SourceRef { content: "See [x](src/lib.rs#Wrapper.new)".to_string(), file: "docs/a.md".to_string(), line: 4 }];
    let text = render_symbol_not_found("src/lib.rs", "Wrapper.new", &vec!["Wrapper<T>.new".to_string()], &refs);
    assert!(text.contains("## Referenced from\n\n- docs/a.md:4\n  See [x](src/lib.rs#Wrapper.new)\n"));
    assert!(text.contains("## Did you mean `Wrapper<T>.new`?"));
    assert!(text.contains("    See [x](src/lib.rs#Wrapper<T>.new)\n"));
    let listed = render_symbol_not_found("src/lib.rs", "gone", &vec!["a".to_string(), "b".to_string()], &Vec::new());
    assert!(listed.ends_with("## Available symbols\n\n- `a`\n- `b`\n"));
}

#[test]
fn every_error_renders_a_heading() {
    let errors = vec![
        Error::ConfigNotFound { path: "x/.docref.toml".to_string() },
        Error::FileNotFound { path: "src/gone.rs".to_string() },
        Error::Io { reason: "denied".to_string() },
        Error::LockfileNotFound { path: ".docref.lock".to_string() },
        Error::ParseFailed { file: "a.rs".to_string(), reason: "bad".to_string() },
        Error::TomlDe { reason: "expected =".to_string() },
        Error::TomlSer { reason: "unsupported".to_string() },
        Error::UnknownNamespace { name: "nope".to_string() },
        Error::UnsupportedLanguage { ext: "txt".to_string() },
        Error::LockfileCorrupt { reason: "entries not sorted".to_string() },
    ];
    for e in &errors {
        assert!(render_error(e).starts_with("# Error"), "{e:?}");
    }
    assert_eq!(render_error(&errors[1]), "# Error: File Not Found\n\n`src/gone.rs` does not exist.\n");
}
