//! Markdown diagnostics for each kind of error: what happened, and the
//! command that fixes it.

use vstd::prelude::*;
use vstd::string::*;
use crate::commands::{closest_index, find_closest_suggestion, replace_all, replaced};
use crate::error::Error;
use crate::scanner::{join_strings, join_with, views};
use crate::text::{concat2, owned};
use crate::types::SourceRef;

verus! {

/// Decimal digits of a number, most significant first.
pub open spec fn decimal_of(n: nat) -> Seq<char>
    decreases n,
{
    if n < 10 {
        seq![digit_char(n)]
    } else {
        decimal_of(n / 10) + seq![digit_char(n % 10)]
    }
}

/// The character of a decimal digit.
pub open spec fn digit_char(d: nat) -> char {
    seq!['0', '1', '2', '3', '4', '5', '6', '7', '8', '9'][d as int]
}

/// A number in decimal.
pub fn decimal(n: u64) -> (r: String)
    ensures
        r@ == decimal_of(n as nat),
    decreases n,
{
    let digits = "0123456789";
    proof {
        reveal_strlit("0123456789");
        assert(digits@ =~= seq!['0', '1', '2', '3', '4', '5', '6', '7', '8', '9']);
    }
    let d = (n % 10) as usize;
    let last = digits.substring_char(d, d + 1);
    assert(last@ =~= seq![digit_char(d as nat)]);
    if n < 10 {
        owned(last)
    } else {
        let mut s = decimal(n / 10);
        s.append(last);
        s
    }
}

/// The texts of the diagnostics.
pub open spec fn file_not_found_text(path: Seq<char>) -> Seq<char> {
    "# Error: File Not Found\n\n`"@ + path + "` does not exist.\n"@
}

pub open spec fn file_too_large_text(file: Seq<char>, size_bytes: u64, max_bytes: u64) -> Seq<char> {
    "# Error: File Too Large\n\n`"@ + file + "` is "@ + decimal_of(size_bytes as nat) + " bytes (max "@
            + decimal_of(max_bytes as nat) + ").\n"@
}

pub open spec fn lockfile_corrupt_text(reason: Seq<char>) -> Seq<char> {
    "# Error: Lockfile Corrupt\n\n"@ + reason + "\n\n## Fix\n\nRegenerate the lockfile:\n\n    docref init\n"@
}

pub open spec fn lockfile_not_found_text() -> Seq<char> {
    "# Error: Lockfile Not Found\n\n`.docref.lock` does not exist.\n\n## Fix\n\nRun `docref init` to scan markdown and generate the lockfile:\n\n    docref init\n"@
}

pub open spec fn namespace_in_use_text(name: Seq<char>, count: usize) -> Seq<char> {
    "# Error: Namespace In Use\n\nNamespace `"@ + name + "` is referenced by "@ + decimal_of(count as nat)
            + " lockfile entries.\n\n## Fix\n\nRemove all references to `"@ + name + ":` first, or force removal:\n\n    docref namespace remove "@
            + name + " --force\n"@
}

pub open spec fn parse_failed_text(file: Seq<char>, reason: Seq<char>) -> Seq<char> {
    "# Error: Parse Failed\n\nCould not parse `"@ + file + "`: "@ + reason + "\n"@
}

pub open spec fn config_not_found_text(path: Seq<char>) -> Seq<char> {
    "# Error: Config Not Found\n\n`"@ + path + "` does not exist.\n\n## Fix\n\nCheck the `extends` path in your `.docref.toml`.\n"@
}

pub open spec fn config_cycle_text(chain: Seq<Seq<char>>) -> Seq<char> {
    "# Error: Config Cycle Detected\n\nCircular `extends` chain: "@ + join_with(chain, " -> "@)
            + "\n\n## Fix\n\nRemove the circular `extends` reference in one of the config files.\n"@
}

pub open spec fn unknown_namespace_text(name: Seq<char>) -> Seq<char> {
    "# Error: Unknown Namespace\n\nNamespace `"@ + name + "` is not configured.\n\n## Fix\n\nAdd it to `.docref.toml`:\n\n    [namespaces]\n    "@
            + name + " = \"path/to/"@ + name + "\"\n\nOr run:\n\n    docref namespace add "@ + name + " path/to/"@ + name + "\n"@
}

pub open spec fn unsupported_language_text(ext: Seq<char>) -> Seq<char> {
    "# Error: Unsupported Language\n\nNo tree-sitter grammar for `."@ + ext
            + "` files.\n\n## Supported extensions\n\n- `.rs` — Rust\n- `.ts`, `.tsx` — TypeScript\n- `.md` — Markdown\n"@
}

pub open spec fn generic_text(title: Seq<char>, detail: Seq<char>) -> Seq<char> {
    "# Error: "@ + title + "\n\n"@ + detail + "\n"@
}

/// `# Error: File Not Found`.
pub fn render_file_not_found(path: &str) -> (r: String)
    ensures
        r@ == file_not_found_text(path@),
{
    let mut s = owned("# Error: File Not Found\n\n`");
    s.append(path);
    s.append("` does not exist.\n");
    s
}

/// `# Error: File Too Large`, with the actual and the largest size.
pub fn render_file_too_large(file: &str, size_bytes: u64, max_bytes: u64) -> (r: String)
    ensures
        r@ == file_too_large_text(file@, size_bytes, max_bytes),
{
    let mut s = owned("# Error: File Too Large\n\n`");
    s.append(file);
    s.append("` is ");
    s.append(decimal(size_bytes).as_str());
    s.append(" bytes (max ");
    s.append(decimal(max_bytes).as_str());
    s.append(").\n");
    s
}

/// `# Error: Lockfile Corrupt`, with the reason and how to regenerate.
pub fn render_lockfile_corrupt(reason: &str) -> (r: String)
    ensures
        r@ == lockfile_corrupt_text(reason@),
{
    let mut s = owned("# Error: Lockfile Corrupt\n\n");
    s.append(reason);
    s.append("\n\n## Fix\n\nRegenerate the lockfile:\n\n    docref init\n");
    s
}

/// `# Error: Lockfile Not Found`, with how to create one.
pub fn render_lockfile_not_found() -> (r: String)
    ensures
        r@ == lockfile_not_found_text(),
{
    owned("# Error: Lockfile Not Found\n\n`.docref.lock` does not exist.\n\n## Fix\n\nRun `docref init` to scan markdown and generate the lockfile:\n\n    docref init\n")
}

/// `# Error: Namespace In Use`, with the count and the forced removal.
pub fn render_namespace_in_use(name: &str, count: usize) -> (r: String)
    ensures
        r@ == namespace_in_use_text(name@, count),
{
    let mut s = owned("# Error: Namespace In Use\n\nNamespace `");
    s.append(name);
    s.append("` is referenced by ");
    s.append(decimal(count as u64).as_str());
    s.append(" lockfile entries.\n\n## Fix\n\nRemove all references to `");
    s.append(name);
    s.append(":` first, or force removal:\n\n    docref namespace remove ");
    s.append(name);
    s.append(" --force\n");
    s
}

/// `# Error: Parse Failed`, with the reason.
pub fn render_parse_failed(file: &str, reason: &str) -> (r: String)
    ensures
        r@ == parse_failed_text(file@, reason@),
{
    let mut s = owned("# Error: Parse Failed\n\nCould not parse `");
    s.append(file);
    s.append("`: ");
    s.append(reason);
    s.append("\n");
    s
}

/// `# Error: Config Not Found`, pointing at the `extends` path.
pub fn render_config_not_found(path: &str) -> (r: String)
    ensures
        r@ == config_not_found_text(path@),
{
    let mut s = owned("# Error: Config Not Found\n\n`");
    s.append(path);
    s.append("` does not exist.\n\n## Fix\n\nCheck the `extends` path in your `.docref.toml`.\n");
    s
}

/// `# Error: Config Cycle Detected`, with the chain joined by arrows.
pub fn render_config_cycle(chain: &Vec<String>) -> (r: String)
    ensures
        r@ == config_cycle_text(views(chain@)),
{
    let mut s = owned("# Error: Config Cycle Detected\n\nCircular `extends` chain: ");
    s.append(join_strings(chain, " -> ").as_str());
    s.append("\n\n## Fix\n\nRemove the circular `extends` reference in one of the config files.\n");
    s
}

/// `# Error: Unknown Namespace`, with the configuration to add.
pub fn render_unknown_namespace(name: &str) -> (r: String)
    ensures
        r@ == unknown_namespace_text(name@),
{
    let mut s = owned("# Error: Unknown Namespace\n\nNamespace `");
    s.append(name);
    s.append("` is not configured.\n\n## Fix\n\nAdd it to `.docref.toml`:\n\n    [namespaces]\n    ");
    s.append(name);
    s.append(" = \"path/to/");
    s.append(name);
    s.append("\"\n\nOr run:\n\n    docref namespace add ");
    s.append(name);
    s.append(" path/to/");
    s.append(name);
    s.append("\n");
    s
}

/// `# Error: Unsupported Language`, with the extensions that are supported.
pub fn render_unsupported_language(ext: &str) -> (r: String)
    ensures
        r@ == unsupported_language_text(ext@),
{
    let mut s = owned("# Error: Unsupported Language\n\nNo tree-sitter grammar for `.");
    s.append(ext);
    s.append("` files.\n\n## Supported extensions\n\n- `.rs` — Rust\n- `.ts`, `.tsx` — TypeScript\n- `.md` — Markdown\n");
    s
}

/// One line per item: `- `item``.
pub open spec fn code_bullets(items: Seq<Seq<char>>) -> Seq<char>
    decreases items.len(),
{
    if items.len() == 0 {
        Seq::empty()
    } else {
        code_bullets(items.drop_last()) + "- `"@ + items.last() + "`\n"@
    }
}

fn push_code_bullets(out: &mut String, items: &Vec<String>)
    ensures
        final(out)@ == old(out)@ + code_bullets(views(items@)),
{
    let mut i: usize = 0;
    while i < items.len()
        invariant
            i <= items.len(),
            out@ == old(out)@ + code_bullets(views(items@.take(i as int))),
        decreases items.len() - i,
    {
        assert(views(items@.take(i + 1)).drop_last() =~= views(items@.take(i as int)));
        out.append("- `");
        out.append(items[i].as_str());
        out.append("`\n");
        i = i + 1;
    }
    assert(items@.take(i as int) =~= items@);
}

/// The text of the ambiguous-symbol diagnostic.
pub open spec fn ambiguous_symbol_text(file: Seq<char>, symbol: Seq<char>, candidates: Seq<Seq<char>>) -> Seq<char> {
    "# Error: Ambiguous Symbol\n\n`"@ + symbol + "` matches multiple declarations in `"@ + file
        + "`.\n\n## Candidates\n\n"@ + code_bullets(candidates)
        + "\n## Fix\n\nUse the qualified dot-path form:\n\n"@
        + (if candidates.len() > 0 { "    docref resolve "@ + file + " "@ + candidates[0] + "\n"@ } else { Seq::empty() })
}

/// `# Error: Ambiguous Symbol`, with the candidates and a command that
/// resolves the first of them.
pub fn render_ambiguous_symbol(file: &str, symbol: &str, candidates: &Vec<String>) -> (r: String)
    ensures
        r@ == ambiguous_symbol_text(file@, symbol@, views(candidates@)),
{
    let mut s = owned("# Error: Ambiguous Symbol\n\n`");
    s.append(symbol);
    s.append("` matches multiple declarations in `");
    s.append(file);
    s.append("`.\n\n## Candidates\n\n");
    push_code_bullets(&mut s, candidates);
    s.append("\n## Fix\n\nUse the qualified dot-path form:\n\n");
    if candidates.len() > 0 {
        s.append("    docref resolve ");
        s.append(file);
        s.append(" ");
        s.append(candidates[0].as_str());
        s.append("\n");
    }
    s
}

/// The lines naming where a missing symbol is referenced from.
pub open spec fn source_lines(v: Seq<SourceRef>) -> Seq<char>
    decreases v.len(),
{
    if v.len() == 0 {
        Seq::empty()
    } else {
        source_lines(v.drop_last()) + "- "@ + v.last().file@ + ":"@ + decimal_of(v.last().line as nat) + "\n  "@
            + v.last().content@ + "\n"@
    }
}

/// The text of the symbol-not-found diagnostic.
pub open spec fn symbol_not_found_text(file: Seq<char>, symbol: Seq<char>, suggestions: Seq<Seq<char>>, referenced_from: Seq<SourceRef>) -> Seq<char> {
    let head = "# Error: Symbol Not Found\n\nSymbol `"@ + symbol + "` does not exist in `"@ + file + "`.\n"@;
    let refs = if referenced_from.len() > 0 { "\n## Referenced from\n\n"@ + source_lines(referenced_from) } else { Seq::empty() };
    let k = closest_index(symbol, suggestions);
    let tail = if k >= 0 {
        let best = suggestions[k];
        "\n## Did you mean `"@ + best + "`?\n\n"@
            + (if referenced_from.len() > 0 && referenced_from[0].content@.len() > 0 {
                "    "@ + replaced(referenced_from[0].content@, seq!['#'] + symbol, seq!['#'] + best) + "\n"@
            } else { Seq::empty() })
            + "\n## Fix\n\n    docref fix\n"@
    } else if suggestions.len() > 0 {
        "\n## Available symbols\n\n"@ + code_bullets(suggestions)
    } else {
        Seq::empty()
    };
    head + refs + tail
}

/// `# Error: Symbol Not Found`: where it is referenced from, then the close
/// match and the fixed line when there is one, else the available symbols.
pub fn render_symbol_not_found(file: &str, symbol: &str, suggestions: &Vec<String>, referenced_from: &Vec<SourceRef>) -> (r: String)
    ensures
        r@ == symbol_not_found_text(file@, symbol@, views(suggestions@), referenced_from@),
{
    let mut s = owned("# Error: Symbol Not Found\n\nSymbol `");
    s.append(symbol);
    s.append("` does not exist in `");
    s.append(file);
    s.append("`.\n");
    if referenced_from.len() > 0 {
        s.append("\n## Referenced from\n\n");
        let mut i: usize = 0;
        let ghost start = s@;
        while i < referenced_from.len()
            invariant
                i <= referenced_from.len(),
                s@ == start + source_lines(referenced_from@.take(i as int)),
            decreases referenced_from.len() - i,
        {
            assert(referenced_from@.take(i + 1).drop_last() =~= referenced_from@.take(i as int));
            let src = &referenced_from[i];
            s.append("- ");
            s.append(src.file.as_str());
            s.append(":");
            s.append(decimal(src.line as u64).as_str());
            s.append("\n  ");
            s.append(src.content.as_str());
            s.append("\n");
            i = i + 1;
        }
        assert(referenced_from@.take(i as int) =~= referenced_from@);
    }
    match find_closest_suggestion(symbol, suggestions) {
        Some(best) => {
            s.append("\n## Did you mean `");
            s.append(best.as_str());
            s.append("`?\n\n");
            if referenced_from.len() > 0 && referenced_from[0].content.unicode_len() > 0 {
                proof {
                    reveal_strlit("#");
                    assert("#"@ =~= seq!['#']);
                }
                let old_fragment = concat2("#", symbol);
                let new_fragment = concat2("#", best.as_str());
                let fixed = replace_all(referenced_from[0].content.as_str(), old_fragment.as_str(), new_fragment.as_str());
                s.append("    ");
                s.append(fixed.as_str());
                s.append("\n");
            }
            s.append("\n## Fix\n\n    docref fix\n");
        },
        None => {
            if suggestions.len() > 0 {
                s.append("\n## Available symbols\n\n");
                push_code_bullets(&mut s, suggestions);
            }
        },
    }
    s
}

/// A generic diagnostic for the errors without a dedicated one.
pub fn render_generic(title: &str, detail: &str) -> (r: String)
    ensures
        r@ == generic_text(title@, detail@),
{
    let mut s = owned("# Error: ");
    s.append(title);
    s.append("\n\n");
    s.append(detail);
    s.append("\n");
    s
}

/// The diagnostic for an error.
pub fn render_error(e: &Error) -> (r: String)
    ensures
        r@ == match *e {
            Error::LockfileNotFound { .. } => lockfile_not_found_text(),
            Error::SymbolNotFound { file, referenced_from, suggestions, symbol } => symbol_not_found_text(file@, symbol@, views(suggestions@), referenced_from@),
            Error::AmbiguousSymbol { candidates, file, symbol } => ambiguous_symbol_text(file@, symbol@, views(candidates@)),
            Error::UnsupportedLanguage { ext } => unsupported_language_text(ext@),
            Error::UnknownNamespace { name } => unknown_namespace_text(name@),
            Error::ConfigCycle { chain } => config_cycle_text(views(chain@)),
            Error::NamespaceInUse { count, name } => namespace_in_use_text(name@, count),
            Error::FileTooLarge { file, max_bytes, size_bytes } => file_too_large_text(file@, size_bytes, max_bytes),
            Error::FileNotFound { path } => file_not_found_text(path@),
            Error::ConfigNotFound { path } => config_not_found_text(path@),
            Error::LockfileCorrupt { reason } => lockfile_corrupt_text(reason@),
            Error::ParseFailed { file, reason } => parse_failed_text(file@, reason@),
            Error::Io { reason } => generic_text("I/O"@, reason@),
            Error::TomlDe { reason } => generic_text("Invalid TOML"@, reason@),
            Error::TomlSer { reason } => generic_text("TOML Serialization"@, reason@),
        },
{
    match e {
        Error::LockfileNotFound { .. } => render_lockfile_not_found(),
        Error::SymbolNotFound { file, referenced_from, suggestions, symbol } => render_symbol_not_found(file.as_str(), symbol.as_str(), suggestions, referenced_from),
        Error::AmbiguousSymbol { candidates, file, symbol } => render_ambiguous_symbol(file.as_str(), symbol.as_str(), candidates),
        Error::UnsupportedLanguage { ext } => render_unsupported_language(ext.as_str()),
        Error::UnknownNamespace { name } => render_unknown_namespace(name.as_str()),
        Error::ConfigCycle { chain } => render_config_cycle(chain),
        Error::NamespaceInUse { count, name } => render_namespace_in_use(name.as_str(), *count),
        Error::FileTooLarge { file, max_bytes, size_bytes } => render_file_too_large(file.as_str(), *size_bytes, *max_bytes),
        Error::FileNotFound { path } => render_file_not_found(path.as_str()),
        Error::ConfigNotFound { path } => render_config_not_found(path.as_str()),
        Error::LockfileCorrupt { reason } => render_lockfile_corrupt(reason.as_str()),
        Error::ParseFailed { file, reason } => render_parse_failed(file.as_str(), reason.as_str()),
        Error::Io { reason } => render_generic("I/O", reason.as_str()),
        Error::TomlDe { reason } => render_generic("Invalid TOML", reason.as_str()),
        Error::TomlSer { reason } => render_generic("TOML Serialization", reason.as_str()),
    }
}

} // verus!
