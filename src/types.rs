//! The domain types: references, symbol queries, resolved ranges and hashes.

use vstd::prelude::*;
use crate::text::{concat3, index_of, owned, split_first, split_once};

verus! {

/// What a reference names inside its target file.
#[derive(Debug, Clone)]
pub enum SymbolQuery {
    /// An unscoped name such as `add`.
    Bare(String),
    /// A member of an enclosing declaration, such as `Config.validate`.
    Scoped { child: String, parent: String },
    /// The whole file.
    WholeFile,
}

/// The textual form of a query: `name`, `parent.child`, or empty.
pub open spec fn query_text(q: SymbolQuery) -> Seq<char> {
    match q {
        SymbolQuery::Bare(n) => n@,
        SymbolQuery::Scoped { child, parent } => parent@ + seq!['.'] + child@,
        SymbolQuery::WholeFile => Seq::empty(),
    }
}

/// The query that a stored symbol string denotes: empty for the whole file,
/// split on its first `.` when it holds one, bare otherwise.
pub open spec fn query_of_text(s: Seq<char>) -> (Seq<char>, Seq<char>, int) {
    if s.len() == 0 {
        (Seq::empty(), Seq::empty(), 0)
    } else {
        match split_first(s, '.') {
            Some((p, c)) => (p, c, 2),
            None => (s, Seq::empty(), 1),
        }
    }
}

/// Whether `q` is the query that `s` denotes.
pub open spec fn query_denoted(q: SymbolQuery, s: Seq<char>) -> bool {
    let (a, b, k) = query_of_text(s);
    match q {
        SymbolQuery::WholeFile => k == 0,
        SymbolQuery::Bare(n) => k == 1 && n@ == a,
        SymbolQuery::Scoped { child, parent } => k == 2 && parent@ == a && child@ == b,
    }
}

impl SymbolQuery {
    /// The display name used in lockfile entries and error messages.
    pub fn display_name(&self) -> (r: String)
        ensures
            r@ == query_text(*self),
    {
        match self {
            SymbolQuery::Bare(name) => owned(name.as_str()),
            SymbolQuery::Scoped { child, parent } => {
                proof {
                    reveal_strlit(".");
                }
                concat3(parent.as_str(), ".", child.as_str())
            },
            SymbolQuery::WholeFile => String::new(),
        }
    }
}

} // verus!

verus! {

/// A link from a Markdown file to a source location.
#[derive(Debug, Clone)]
pub struct Reference {
    /// Markdown file holding the link, relative to the scan root.
    pub source: String,
    /// One-based line of the link in that file.
    pub source_line: u32,
    /// What the link names inside its target.
    pub symbol: SymbolQuery,
    /// Target path as resolved relative to the scan root (or namespaced, verbatim).
    pub target: String,
}

/// A half-open byte range of a declaration inside its source file.
#[derive(Debug)]
pub struct ResolvedSymbol {
    /// Byte offsets `[start, end)` into the source.
    pub byte_range: std::ops::Range<u32>,
}

/// Lowercase hex text of a SHA-256 digest.
#[derive(Debug, Clone, PartialEq, Eq)]
pub struct SemanticHash(pub String);

/// A line of Markdown that refers to a symbol, kept for diagnostics.
#[derive(Debug, Clone)]
pub struct SourceRef {
    /// Trimmed text of the line.
    pub content: String,
    /// Markdown file.
    pub file: String,
    /// One-based line number.
    pub line: u32,
}

} // verus!

verus! {

/// A query as plain values: 0 bare, 1 scoped, 2 whole file, with its names.
pub open spec fn query_view(q: SymbolQuery) -> (int, Seq<char>, Seq<char>) {
    match q {
        SymbolQuery::Bare(n) => (0, n@, Seq::empty()),
        SymbolQuery::Scoped { child, parent } => (1, parent@, child@),
        SymbolQuery::WholeFile => (2, Seq::empty(), Seq::empty()),
    }
}

/// A reference as plain values: (source, line, query, target).
pub open spec fn reference_view(r: Reference) -> (Seq<char>, u32, (int, Seq<char>, Seq<char>), Seq<char>) {
    (r.source@, r.source_line, query_view(r.symbol), r.target@)
}

impl SymbolQuery {
    /// A copy with the same names.
    pub fn duplicate(&self) -> (r: Self)
        ensures
            query_view(r) == query_view(*self),
    {
        match self {
            SymbolQuery::Bare(n) => SymbolQuery::Bare(n.clone()),
            SymbolQuery::Scoped { child, parent } => SymbolQuery::Scoped { child: child.clone(), parent: parent.clone() },
            SymbolQuery::WholeFile => SymbolQuery::WholeFile,
        }
    }
}

impl Reference {
    /// A copy with the same fields.
    pub fn duplicate(&self) -> (r: Self)
        ensures
            reference_view(r) == reference_view(*self),
    {
        Reference {
            source: self.source.clone(),
            source_line: self.source_line,
            symbol: self.symbol.duplicate(),
            target: self.target.clone(),
        }
    }
}

} // verus!
