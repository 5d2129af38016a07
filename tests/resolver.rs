use docref::error::Error;
use docref::hasher::{hash_file, hash_symbol};
use docref::resolver::{list_symbols, resolve, slugify, slugify_lowered};
use docref::syntax::Lang;
use docref::types::SymbolQuery;

#[test]
fn consecutive_spaces() {
    assert_eq!(slugify("  Hello   World  "), "hello-world");
}

#[test]
fn empty_string() {
    assert_eq!(slugify(""), "");
}

#[test]
fn multi_word() {
    assert_eq!(slugify("Getting Started"), "getting-started");
}

#[test]
fn simple_heading() {
    assert_eq!(slugify("Architecture"), "architecture");
}

#[test]
fn special_chars() {
    assert_eq!(slugify("What's New?"), "what-s-new");
}

#[test]
fn slug_of_lowered_text_keeps_case() {
    assert_eq!(slugify_lowered("Mixed Case!"), "Mixed-Case");
}

const LIB: &str = "const A: i32 = 10;\n\nfn add(x: i32) -> i32 { x + A }\n";

fn bare(name: &str) -> SymbolQuery {
    SymbolQuery::Bare(name.to_string())
}

fn scoped(parent: &str, child: &str) -> SymbolQuery {
    SymbolQuery::Scoped { child: child.to_string(), parent: parent.to_string() }
}

fn symbol_hash(source: &str, lang: Lang, query: &SymbolQuery) -> String {
    let resolved = resolve("src/lib.rs", source, lang, query).expect("resolves");
    hash_symbol(source, lang, &resolved).expect("hashes").0
}

#[test]
fn resolves_rust_items_to_their_ranges() {
    let r = resolve("src/lib.rs", LIB, Lang::Rust, &bare("A")).unwrap();
    assert_eq!(&LIB[r.byte_range.start as usize..r.byte_range.end as usize], "const A: i32 = 10;");
    let r = resolve("src/lib.rs", LIB, Lang::Rust, &bare("add")).unwrap();
    assert_eq!(&LIB[r.byte_range.start as usize..r.byte_range.end as usize], "fn add(x: i32) -> i32 { x + A }");
}

#[test]
fn changed_constant_changes_hash() {
    let before = symbol_hash(LIB, Lang::Rust, &bare("A"));
    let changed = LIB.replace("const A: i32 = 10;", "const A: i32 = 20;");
    let after = symbol_hash(&changed, Lang::Rust, &bare("A"));
    assert_ne!(before, after);
    assert_eq!(before.len(), 64);
    assert!(before.chars().all(|c| c.is_ascii_hexdigit() && !c.is_ascii_uppercase()));
}

#[test]
fn reformatting_and_comments_keep_hash() {
    let before = symbol_hash(LIB, Lang::Rust, &bare("add"));
    let reformatted = "// one\n// two\n// three\nconst A: i32 = 10;\n\nfn add( x : i32 )->i32{ x  +  A }\n";
    let after = symbol_hash(reformatted, Lang::Rust, &bare("add"));
    assert_eq!(before, after);
    let with_comment = "// base offset\nconst A: i32 = 10;\n\n/// Adds.\nfn add(x: i32) -> i32 { x + A }\n";
    assert_eq!(symbol_hash(LIB, Lang::Rust, &bare("A")), symbol_hash(with_comment, Lang::Rust, &bare("A")));
}

#[test]
fn renaming_an_identifier_changes_hash() {
    let before = symbol_hash(LIB, Lang::Rust, &bare("add"));
    let renamed = "const A: i32 = 10;\n\nfn add(y: i32) -> i32 { y + A }\n";
    assert_ne!(before, symbol_hash(renamed, Lang::Rust, &bare("add")));
}

#[test]
fn whole_file_hash_ignores_whitespace() {
    let a = hash_file(LIB, Lang::Rust).unwrap();
    let b = hash_file("const A: i32 = 10;\nfn add(x: i32) -> i32 {\n    x + A\n}\n", Lang::Rust).unwrap();
    assert_eq!(a, b);
}

#[test]
fn deleted_constant_is_not_found() {
    let source = "fn add(x: i32) -> i32 { x + A }\n";
    match resolve("src/lib.rs", source, Lang::Rust, &bare("A")) {
        Err(Error::SymbolNotFound { symbol, suggestions, referenced_from, .. }) => {
            assert_eq!(symbol, "A");
            assert_eq!(suggestions, vec!["add".to_string()]);
            assert!(referenced_from.is_empty());
        },
        other => panic!("expected symbol-not-found, got {other:?}"),
    }
}

#[test]
fn scoped_impl_method_resolves() {
    let source = "struct Config { host: String }\n\nimpl Config { fn validate(&self) -> bool { !self.host.is_empty() } }\n";
    let r = resolve("src/lib.rs", source, Lang::Rust, &scoped("Config", "validate")).unwrap();
    assert!(source[r.byte_range.start as usize..r.byte_range.end as usize].starts_with("fn validate"));
    let r = resolve("src/lib.rs", source, Lang::Rust, &scoped("Config", "host")).unwrap();
    assert_eq!(&source[r.byte_range.start as usize..r.byte_range.end as usize], "host: String");
    let names: Vec<String> = list_symbols("src/lib.rs", source, Lang::Rust).unwrap().into_iter().map(|s| s.name).collect();
    assert_eq!(names, vec!["Config", "Config.host", "Config.validate"]);
}

#[test]
fn ambiguous_headings_list_candidates() {
    let doc = "# Overview\n\n## Foo\n\ntext\n\n### Example\n\nfoo example\n\n## Bar\n\n### Example\n\nbar example\n";
    match resolve("docs/overview.md", doc, Lang::Markdown, &bare("example")) {
        Err(Error::AmbiguousSymbol { candidates, symbol, file }) => {
            assert_eq!(candidates, vec!["foo.example".to_string(), "bar.example".to_string()]);
            assert_eq!(symbol, "example");
            assert_eq!(file, "docs/overview.md");
        },
        other => panic!("expected ambiguity, got {other:?}"),
    }
    assert!(resolve("docs/overview.md", doc, Lang::Markdown, &scoped("foo", "example")).is_ok());
    assert!(resolve("docs/overview.md", doc, Lang::Markdown, &scoped("bar", "example")).is_ok());
    assert!(resolve("docs/overview.md", doc, Lang::Markdown, &bare("overview")).is_ok());
}

#[test]
fn typescript_declarations() {
    let source = "export const VERSION = \"1.0\";\nexport function greet(name: string): string { return name; }\ninterface Opts { verbose: boolean }\nclass Svc { run() {} }\nenum Color { Red, Green = 2 }\n";
    let names: Vec<String> = list_symbols("app.ts", source, Lang::TypeScript).unwrap().into_iter().map(|s| s.name).collect();
    for expected in ["VERSION", "greet", "Opts", "Opts.verbose", "Svc", "Svc.run", "Color", "Color.Red", "Color.Green"] {
        assert!(names.contains(&expected.to_string()), "missing {expected}: {names:?}");
    }
    let r = resolve("app.ts", source, Lang::TypeScript, &bare("VERSION")).unwrap();
    assert_eq!(&source[r.byte_range.start as usize..r.byte_range.end as usize], "const VERSION = \"1.0\";");
}

#[test]
fn go_declarations() {
    let source = "package main\n\ntype Config struct {\n\tHost string\n}\n\ntype Runner interface {\n\tRun() error\n}\n\nfunc (c *Config) Validate() bool { return true }\n\nfunc main() {}\n\nconst Limit = 3\n\nvar Name = \"x\"\n";
    let names: Vec<String> = list_symbols("main.go", source, Lang::Go).unwrap().into_iter().map(|s| s.name).collect();
    for expected in ["Config", "Config.Host", "Runner", "Runner.Run", "Config.Validate", "main", "Limit", "Name"] {
        assert!(names.contains(&expected.to_string()), "missing {expected}: {names:?}");
    }
}

#[test]
fn python_declarations() {
    let source = "MAX = 3\n_hidden = 1\n\nclass Svc:\n    def __init__(self):\n        self.host = 'a'\n        if True:\n            self.host = 'b'\n            self.port = 1\n\n    @property\n    def name(self):\n        return 'x'\n\n    def __repr__(self):\n        return ''\n\ndef main():\n    pass\n";
    let names: Vec<String> = list_symbols("app.py", source, Lang::Python).unwrap().into_iter().map(|s| s.name).collect();
    assert_eq!(names, vec!["MAX", "Svc.host", "Svc.port", "Svc.name", "Svc", "main"]);
}

#[test]
fn oversized_source_is_refused() {
    let big = " ".repeat(16 * 1024 * 1024 + 1);
    match resolve("big.rs", &big, Lang::Rust, &bare("x")) {
        Err(Error::FileTooLarge { size_bytes, max_bytes, .. }) => {
            assert_eq!(size_bytes, 16 * 1024 * 1024 + 1);
            assert_eq!(max_bytes, 16 * 1024 * 1024);
        },
        other => panic!("expected file-too-large, got {other:?}"),
    }
}
