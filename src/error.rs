//! The closed set of failures that the library reports.

use vstd::prelude::*;
use crate::types::SourceRef;

verus! {

/// Every failure names the file, symbol or reason it concerns.
#[derive(Debug, Clone)]
pub enum Error {
    /// Two or more declarations answer a bare query.
    AmbiguousSymbol { candidates: Vec<String>, file: String, symbol: String },
    /// The `extends` chain of configuration files comes back to itself.
    ConfigCycle { chain: Vec<String> },
    /// An `extends` target does not exist.
    ConfigNotFound { path: String },
    /// A source file could not be read.
    FileNotFound { path: String },
    /// A source file is larger than the resolver accepts.
    FileTooLarge { file: String, max_bytes: u64, size_bytes: u64 },
    /// A filesystem failure, described.
    Io { reason: String },
    /// The lockfile is not in the required form.
    LockfileCorrupt { reason: String },
    /// There is no lockfile.
    LockfileNotFound { path: String },
    /// A namespace that references still use cannot be removed.
    NamespaceInUse { count: usize, name: String },
    /// A source could not be parsed.
    ParseFailed { file: String, reason: String },
    /// No declaration answers the query.
    SymbolNotFound {
        file: String,
        referenced_from: Vec<SourceRef>,
        suggestions: Vec<String>,
        symbol: String,
    },
    /// A TOML document could not be read.
    TomlDe { reason: String },
    /// A TOML document could not be written.
    TomlSer { reason: String },
    /// A target names a namespace that the configuration lacks.
    UnknownNamespace { name: String },
    /// No grammar handles this file extension.
    UnsupportedLanguage { ext: String },
}

} // verus!
