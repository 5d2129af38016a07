use docref::commands::{entry_indices_from, fixes_for_symbol, rewrite_symbol_on_line, drop_namespace_entries, namespace_reference_count, rename_namespace_links, parse_lockfile_symbol_as_query, rename_in_lock_entries, accept_hash, apply_fixes_to_content, check_exit_code, find_closest_suggestion, format_ref, group_indices_by_target, parse_output_format, replace_all, split_file_hash_symbol_reference, split_reference, strip_generics, summarize, FixAction, OutputFormat};
use docref::config::Config;
use docref::error::Error;
use docref::freshness::{hash_stored_symbol, compare_lockfile_entry_against_source, parse_symbol_query, CheckResult};
use docref::hasher::hash_symbol;
use docref::lockfile::{LockEntry, Lockfile};
use docref::resolver::resolve;
use docref::syntax::{language_for_path, Lang};
use docref::types::{SemanticHash, SymbolQuery};

#[test]
fn output_formats() {
    assert_eq!(parse_output_format("json").unwrap(), OutputFormat::Json);
    assert_eq!(parse_output_format("text").unwrap(), OutputFormat::Text);
    assert!(matches!(parse_output_format("yaml"), Err(Error::LockfileCorrupt { .. })));
}

#[test]
fn reference_strings() {
    assert_eq!(format_ref("src/lib.rs", "A"), "src/lib.rs#A");
    assert_eq!(format_ref("src/lib.rs", ""), "src/lib.rs");
    assert_eq!(split_reference("src/lib.rs#Config.validate"), ("src/lib.rs".to_string(), "Config.validate".to_string()));
    assert_eq!(split_reference("src/lib.rs"), ("src/lib.rs".to_string(), String::new()));
    assert!(split_file_hash_symbol_reference("src/lib.rs").is_err());
    assert_eq!(split_file_hash_symbol_reference("a#b").unwrap(), ("a".to_string(), "b".to_string()));
}

#[test]
fn exit_codes_follow_worst_outcome() {
    let s = summarize(&vec![CheckResult::Fresh, CheckResult::Stale, CheckResult::Fresh]);
    assert_eq!((s.fresh, s.stale, s.broken), (2, 1, 0));
    assert_eq!(check_exit_code(&s), 1);
    let s = summarize(&vec![CheckResult::Stale, CheckResult::Broken("symbol removed")]);
    assert_eq!(check_exit_code(&s), 2);
    assert_eq!(check_exit_code(&summarize(&vec![CheckResult::Fresh, CheckResult::Fresh])), 0);
}

#[test]
fn generics_are_stripped_for_suggestions() {
    assert_eq!(strip_generics("Wrapper<T>.new"), "Wrapper.new");
    assert_eq!(strip_generics("A<B<C>>.d"), "A.d");
    let suggestions = vec!["Other.new".to_string(), "Wrapper<T>.new".to_string()];
    assert_eq!(find_closest_suggestion("Wrapper.new", &suggestions), Some("Wrapper<T>.new".to_string()));
    assert_eq!(find_closest_suggestion("Missing", &suggestions), None);
}

#[test]
fn fixes_rewrite_fragments_verbatim() {
    assert_eq!(replace_all("a #old b #old", "#old", "#new"), "a #new b #new");
    let content = "# Guide\nSee [x](../src/lib.rs#old_name).\nkeep #old_name here\n";
    let fixes = vec![FixAction { file: "docs/guide.md".to_string(), line: 2, new_symbol: "new_name".to_string(), old_symbol: "old_name".to_string() }];
    let out = apply_fixes_to_content(content, &fixes);
    assert_eq!(out, "# Guide\nSee [x](../src/lib.rs#new_name).\nkeep #old_name here\n");
    let again = apply_fixes_to_content(&out, &fixes);
    assert_eq!(again, out);
    let no_newline = apply_fixes_to_content("[x](a.rs#old_name)", &vec![FixAction { file: String::new(), line: 1, new_symbol: "n".to_string(), old_symbol: "old_name".to_string() }]);
    assert_eq!(no_newline, "[x](a.rs#n)");
}

fn entry(source: &str, target: &str, symbol: &str, hash: &str) -> LockEntry {
    LockEntry { hash: SemanticHash(hash.to_string()), source: source.to_string(), symbol: symbol.to_string(), target: target.to_string() }
}

#[test]
fn update_rewrites_matching_hashes() {
    let mut l = Lockfile::new(vec![entry("d.md", "src/lib.rs", "A", "old"), entry("d.md", "src/lib.rs", "add", "keep")]);
    assert!(accept_hash(&mut l, "src/lib.rs", "A", &SemanticHash("new".to_string())));
    assert_eq!(l.entries[0].hash.0, "new");
    assert_eq!(l.entries[1].hash.0, "keep");
    assert!(!accept_hash(&mut l, "src/lib.rs", "missing", &SemanticHash("x".to_string())));
}

#[test]
fn indices_group_by_target() {
    let l = Lockfile::new(vec![entry("d.md", "a.rs", "x", "h"), entry("d.md", "b.rs", "y", "h"), entry("d.md", "a.rs", "z", "h")]);
    let groups = group_indices_by_target(&l, &vec![0, 1, 2]).unwrap();
    assert_eq!(groups.len(), 2);
    assert_eq!(groups[0].0, "a.rs");
    assert_eq!(groups[0].1, vec![0, 1]);
    assert!(group_indices_by_target(&l, &vec![5]).is_err());
}

#[test]
fn stored_symbols_become_queries() {
    assert!(matches!(parse_symbol_query(""), SymbolQuery::WholeFile));
    assert!(matches!(parse_symbol_query("add"), SymbolQuery::Bare(n) if n == "add"));
    assert!(matches!(parse_symbol_query("a.b.c"), SymbolQuery::Scoped { parent, child } if parent == "a" && child == "b.c"));
}

#[test]
fn grammar_by_extension() {
    assert_eq!(language_for_path("src/lib.rs").unwrap(), Lang::Rust);
    assert_eq!(language_for_path("web/app.tsx").unwrap(), Lang::Tsx);
    assert_eq!(language_for_path("docs/a.markdown").unwrap(), Lang::Markdown);
    assert_eq!(language_for_path("main.go").unwrap(), Lang::Go);
    assert!(matches!(language_for_path("notes.txt"), Err(Error::UnsupportedLanguage { ext }) if ext == "txt"));
    assert!(matches!(language_for_path(".hidden"), Err(Error::UnsupportedLanguage { ext }) if ext.is_empty()));
}

const LIB: &str = "const A: i32 = 10;\nfn add(x: i32) -> i32 { x + A }\n";

fn stored_entry(symbol: &str, source: &str) -> LockEntry {
    let query = SymbolQuery::Bare(symbol.to_string());
    let resolved = resolve("src/lib.rs", source, Lang::Rust, &query).unwrap();
    let hash = hash_symbol(source, Lang::Rust, &resolved).unwrap();
    LockEntry { hash, source: "docs/guide.md".to_string(), symbol: symbol.to_string(), target: "src/lib.rs".to_string() }
}

#[test]
fn fresh_stale_and_broken_entries() {
    let config = Config::scan_everything_by_default();
    let a = stored_entry("A", LIB);
    assert_eq!(compare_lockfile_entry_against_source(&config, &a, Some(LIB)).unwrap(), CheckResult::Fresh);
    let changed = LIB.replace("10", "20");
    assert_eq!(compare_lockfile_entry_against_source(&config, &a, Some(&changed)).unwrap(), CheckResult::Stale);
    let removed = "fn add(x: i32) -> i32 { x + A }\n";
    assert_eq!(compare_lockfile_entry_against_source(&config, &a, Some(removed)).unwrap(), CheckResult::Broken("symbol removed"));
    assert_eq!(compare_lockfile_entry_against_source(&config, &a, None).unwrap(), CheckResult::Broken("file not found"));
    let mut ns = a.clone();
    ns.target = "nope:src/lib.rs".to_string();
    assert_eq!(compare_lockfile_entry_against_source(&config, &ns, Some(LIB)).unwrap(), CheckResult::Broken("unknown namespace"));
    let mut txt = a.clone();
    txt.target = "notes.txt".to_string();
    assert_eq!(compare_lockfile_entry_against_source(&config, &txt, Some(LIB)).unwrap(), CheckResult::Broken("unsupported language"));
}

#[test]
fn namespace_rename_touches_only_that_prefix() {
    let entries = vec![entry("d.md", "auth:src/lib.rs", "f", "h"), entry("d.md", "authz:src/lib.rs", "g", "h"), entry("d.md", "src/auth:x.rs", "", "h")];
    let renamed = rename_in_lock_entries(entries, "auth", "identity");
    let targets: Vec<&str> = renamed.iter().map(|e| e.target.as_str()).collect();
    assert_eq!(targets, vec!["identity:src/lib.rs", "authz:src/lib.rs", "src/auth:x.rs"]);
    assert!(matches!(parse_lockfile_symbol_as_query("Config.validate"), SymbolQuery::Scoped { parent, child } if parent == "Config" && child == "validate"));
    assert!(matches!(parse_lockfile_symbol_as_query("add"), SymbolQuery::Bare(n) if n == "add"));
}

#[test]
fn namespace_removal_and_link_renaming() {
    let entries = vec![entry("d.md", "auth:src/lib.rs", "f", "h"), entry("d.md", "src/lib.rs", "g", "h"), entry("e.md", "auth:x.rs", "", "h")];
    assert_eq!(namespace_reference_count(&entries, "auth"), 2);
    assert_eq!(namespace_reference_count(&entries, "shared"), 0);
    let kept = drop_namespace_entries(&entries, "auth");
    assert_eq!(kept.len(), 1);
    assert_eq!(kept[0].target, "src/lib.rs");
    assert_eq!(rename_namespace_links("[a](auth:src/lib.rs#f) [b](authz:x.rs)", "auth", "identity"), "[a](identity:src/lib.rs#f) [b](authz:x.rs)");
}

#[test]
fn watch_directories_are_distinct() {
    let config = Config::scan_everything_by_default();
    let l = Lockfile::new(vec![entry("docs/a.md", "src/lib.rs", "x", "h"), entry("docs/b.md", "src/lib.rs", "y", "h"), entry("README.md", "nope:z.rs", "", "h")]);
    let dirs = docref::commands::collect_watch_dirs(&l, &config);
    let mut sorted = dirs.clone();
    sorted.sort();
    assert_eq!(sorted, vec!["".to_string(), "docs".to_string(), "src".to_string()]);
}

#[test]
fn line_zero_fix_rewrites_the_first_line() {
    let mut lines = vec!["[a](x.rs#old)".to_string(), "[b](x.rs#old)".to_string()];
    let fix = FixAction { file: "d.md".to_string(), line: 0, new_symbol: "new".to_string(), old_symbol: "old".to_string() };
    rewrite_symbol_on_line(&mut lines, &fix);
    assert_eq!(lines, vec!["[a](x.rs#new)".to_string(), "[b](x.rs#old)".to_string()]);
}

#[test]
fn stored_symbols_hash_like_the_resolver() {
    let whole = hash_stored_symbol("src/lib.rs", LIB, Lang::Rust, "").unwrap();
    assert_eq!(whole, docref::hasher::hash_file(LIB, Lang::Rust).unwrap());
    let a = hash_stored_symbol("src/lib.rs", LIB, Lang::Rust, "A").unwrap();
    assert_eq!(a, stored_entry("A", LIB).hash);
    assert!(matches!(hash_stored_symbol("src/lib.rs", LIB, Lang::Rust, "gone"), Err(Error::SymbolNotFound { .. })));
}

#[test]
fn entries_and_fixes_selected_by_source_and_symbol() {
    let l = Lockfile::new(vec![entry("a.md", "x.rs", "f", "h"), entry("b.md", "x.rs", "g", "h"), entry("a.md", "y.rs", "", "h")]);
    assert_eq!(entry_indices_from(&l, "a.md"), vec![0, 1]);
    let refs = docref::scanner::extract_references_from_markdown_content("[f](x.rs#f) [g](x.rs#g)\n[f](x.rs#f)\n", "a.md");
    let fixes = fixes_for_symbol(&refs, "f", "h");
    let lines: Vec<u32> = fixes.iter().map(|f| f.line).collect();
    assert_eq!(lines, vec![1, 2]);
    assert!(fixes.iter().all(|f| f.old_symbol == "f" && f.new_symbol == "h" && f.file == "a.md"));
}
