use docref::scanner::{extract_references_from_markdown_content, extract_references_from_markdown_line, group_by_target, normalize_path, parse_symbol_fragment_as_query};
use docref::types::{Reference, SymbolQuery};

#[test]
fn non_namespaced_resolves_relative_to_markdown() {
    let line = "See [`add`](../src/lib.rs#add) for details.";
    let mut refs: Vec<Reference> = Vec::new();
    extract_references_from_markdown_line(line, 1, "docs/guide.md", &mut refs);
    let grouped = group_by_target(&refs);
    let refs: Vec<&Reference> = grouped.iter().flat_map(|(_, v)| v.iter()).collect();
    assert_eq!(refs.len(), 1);
    assert_eq!(refs[0].target, "src/lib.rs");
    assert_eq!(refs[0].source_line, 1);
}

#[test]
fn parses_namespaced_reference() {
    let line = "See [`validate`](auth:src/lib.rs#validate) for details.";
    let mut refs: Vec<Reference> = Vec::new();
    extract_references_from_markdown_line(line, 7, "docs/guide.md", &mut refs);
    let grouped = group_by_target(&refs);
    let refs: Vec<&Reference> = grouped.iter().flat_map(|(_, v)| v.iter()).collect();
    assert_eq!(refs.len(), 1);
    assert_eq!(refs[0].target, "auth:src/lib.rs");
    assert_eq!(refs[0].source_line, 7);
}

#[test]
fn normalization_examples() {
    assert_eq!(normalize_path("a/./b/../c"), "a/c");
    assert_eq!(normalize_path("../x"), "../x");
    assert_eq!(normalize_path("docs/../src/lib.rs"), "src/lib.rs");
    assert_eq!(normalize_path("../../a/../b"), "../../b");
    assert_eq!(normalize_path(""), "");
    assert_eq!(normalize_path("a/../../b"), "../b");
}

#[test]
fn fragments_become_queries() {
    match parse_symbol_fragment_as_query("Config.validate") {
        SymbolQuery::Scoped { parent, child } => {
            assert_eq!(parent, "Config");
            assert_eq!(child, "validate");
        },
        other => panic!("unexpected {other:?}"),
    }
    assert!(matches!(parse_symbol_fragment_as_query("add"), SymbolQuery::Bare(n) if n == "add"));
}

#[test]
fn web_links_and_whole_files() {
    let content = "[site](https://example.com#x) and [plain](http://a.b)\n[guide](other.md) then [A](../src/lib.rs#A)\r\n[empty](../src/lib.rs#)\n";
    let refs = extract_references_from_markdown_content(content, "docs/guide.md");
    assert_eq!(refs.len(), 3);
    assert_eq!(refs[0].target, "docs/other.md");
    assert!(matches!(refs[0].symbol, SymbolQuery::WholeFile));
    assert_eq!(refs[0].source_line, 2);
    assert_eq!(refs[1].target, "src/lib.rs");
    assert!(matches!(&refs[1].symbol, SymbolQuery::Bare(n) if n == "A"));
    assert!(matches!(refs[2].symbol, SymbolQuery::WholeFile));
    assert_eq!(refs[2].source_line, 3);
}

#[test]
fn grouping_keeps_first_appearance_order() {
    let content = "[a](x.rs#a) [b](y.rs#b)\n[c](x.rs#c)\n";
    let refs = extract_references_from_markdown_content(content, "r.md");
    let groups = group_by_target(&refs);
    assert_eq!(groups.len(), 2);
    assert_eq!(groups[0].0, "x.rs");
    assert_eq!(groups[0].1.len(), 2);
    assert_eq!(groups[1].0, "y.rs");
}

#[test]
fn fixing_a_fragment_changes_only_that_symbol_on_rescan() {
    let content = "Intro [a](../src/lib.rs#old_name) and [b](../src/lib.rs#keep)\n[c](../src/lib.rs#old_name)\n";
    let before = extract_references_from_markdown_content(content, "docs/guide.md");
    let fixes = vec![
        docref::commands::FixAction { file: "docs/guide.md".to_string(), line: 1, new_symbol: "new_name".to_string(), old_symbol: "old_name".to_string() },
        docref::commands::FixAction { file: "docs/guide.md".to_string(), line: 2, new_symbol: "new_name".to_string(), old_symbol: "old_name".to_string() },
    ];
    let rewritten = docref::commands::apply_fixes_to_content(content, &fixes);
    let after = extract_references_from_markdown_content(&rewritten, "docs/guide.md");
    assert_eq!(before.len(), after.len());
    for (b, a) in before.iter().zip(after.iter()) {
        assert_eq!(b.target, a.target);
        assert_eq!(b.source_line, a.source_line);
        match (&b.symbol, &a.symbol) {
            (SymbolQuery::Bare(x), SymbolQuery::Bare(y)) if x == "old_name" => assert_eq!(y, "new_name"),
            (SymbolQuery::Bare(x), SymbolQuery::Bare(y)) => assert_eq!(x, y),
            other => panic!("unexpected {other:?}"),
        }
    }
}
