//! Freshness of lockfile entries, and hashing of the references that point
//! into one target file.

use vstd::prelude::*;
use vstd::string::*;
use crate::config::{namespace_map, path_join, Config};
use crate::error::Error;
use crate::hasher::{hash_file, hash_symbol, range_text, text_hash};
use crate::lockfile::LockEntry;
use crate::resolver::{lang_decls, named, qualified_index, resolve, DeclView, MAX_FILE_SIZE};
use crate::syntax::{extension_of, lang_of_extension, language_for_path, parsed, Lang};
use crate::text::{index_of, lemma_index_of, split_first, split_once, owned};
use crate::types::{query_denoted, query_of_text, query_text, query_view, Reference, SemanticHash, SourceRef, SymbolQuery};
use vstd::utf8::encode_utf8;

verus! {

/// The outcome of checking one lockfile entry.
#[derive(Debug, Clone, Copy, PartialEq, Eq)]
pub enum CheckResult {
    /// The target, its language or its symbol cannot be found; the reason says which.
    Broken(&'static str),
    /// The recomputed hash equals the stored one.
    Fresh,
    /// The recomputed hash differs from the stored one.
    Stale,
}

/// The query that a stored symbol string denotes: empty is the whole file,
/// a `.` splits parent from child at its first occurrence, anything else is bare.
pub fn parse_symbol_query(symbol: &str) -> (r: SymbolQuery)
    ensures
        query_denoted(r, symbol@),
{
    if symbol.unicode_len() == 0 {
        return SymbolQuery::WholeFile;
    }
    match split_once(symbol, '.') {
        None => SymbolQuery::Bare(owned(symbol)),
        Some((parent, child)) => SymbolQuery::Scoped { child, parent },
    }
}

/// Fresh when the hashes are equal, stale otherwise.
pub fn classify_hash(stored: &SemanticHash, recomputed: &SemanticHash) -> (r: CheckResult)
    ensures
        r == (if stored.0@ == recomputed.0@ { CheckResult::Fresh } else { CheckResult::Stale }),
{
    if stored.0 == recomputed.0 {
        CheckResult::Fresh
    } else {
        CheckResult::Stale
    }
}

/// Whether the entry's target names a namespace the configuration lacks.
pub open spec fn unknown_namespace(config: &Config, target: Seq<char>) -> bool {
    split_first(target, ':') matches Some((ns, _)) && !namespace_map(config.namespaces@).contains_key(ns)
}

/// The path a target resolves to, when its namespace (if any) is known.
pub open spec fn resolved_target(config: &Config, target: Seq<char>) -> Seq<char> {
    match split_first(target, ':') {
        None => target,
        Some((ns, rest)) => {
            let m = namespace_map(config.namespaces@);
            path_join(path_join(m[ns].1, m[ns].0), rest)
        },
    }
}

/// The query that a stored symbol string denotes, as plain values:
/// (0, name, _) bare, (1, parent, child) scoped, (2, _, _) the whole file.
pub open spec fn symbol_query_view(s: Seq<char>) -> (int, Seq<char>, Seq<char>) {
    let (a, b, k) = query_of_text(s);
    if k == 1 {
        (0, a, Seq::empty())
    } else if k == 2 {
        (1, a, b)
    } else {
        (2, Seq::empty(), Seq::empty())
    }
}

/// The declaration a bare or scoped query finds among `ds`: the only one of
/// that name, or the first of that qualified name.
pub open spec fn lookup_found(ds: Seq<DeclView>, qv: (int, Seq<char>, Seq<char>)) -> Option<DeclView> {
    if qv.0 == 0 {
        if named(ds, qv.1).len() == 1 { Some(named(ds, qv.1)[0]) } else { None }
    } else {
        let i = qualified_index(ds, qv.1 + seq!['.'] + qv.2);
        if i >= 0 { Some(ds[i]) } else { None }
    }
}

/// Whether no declaration among `ds` answers a bare or scoped query.
pub open spec fn lookup_missing(ds: Seq<DeclView>, qv: (int, Seq<char>, Seq<char>)) -> bool {
    if qv.0 == 0 {
        named(ds, qv.1).len() == 0
    } else {
        qualified_index(ds, qv.1 + seq!['.'] + qv.2) < 0
    }
}

/// The hash of what a query names in `text` (of `size` bytes), when it
/// resolves and hashes: the whole file, or the declaration found.
pub open spec fn ref_hash(lang: Lang, text: Seq<char>, size: u64, qv: (int, Seq<char>, Seq<char>)) -> Option<Seq<char>> {
    if qv.0 == 2 {
        text_hash(lang, text)
    } else if size > MAX_FILE_SIZE {
        None
    } else {
        match parsed(lang, text) {
            None => None,
            Some(t) => match lookup_found(lang_decls(t, encode_utf8(text), lang), qv) {
                None => None,
                Some(d) => match range_text(encode_utf8(text), d.0 as int, d.1 as int) {
                    Some(x) => text_hash(lang, x),
                    None => None,
                },
            },
        }
    }
}

/// Whether the symbol a query names is missing from `text`.
pub open spec fn ref_missing(lang: Lang, text: Seq<char>, size: u64, qv: (int, Seq<char>, Seq<char>)) -> bool {
    qv.0 != 2 && size <= MAX_FILE_SIZE && parsed(lang, text) is Some
        && lookup_missing(lang_decls(parsed(lang, text)->0, encode_utf8(text), lang), qv)
}

/// The stored hash compared with a recomputed one.
pub open spec fn freshness_of(stored: Seq<char>, h: Seq<char>) -> CheckResult {
    if stored == h { CheckResult::Fresh } else { CheckResult::Stale }
}

/// Check one entry. `source` is the content of the file that the entry's
/// target resolves to, or nothing when it could not be read.
pub fn compare_lockfile_entry_against_source(config: &Config, entry: &LockEntry, source: Option<&str>) -> (r: Result<CheckResult, Error>)
    requires
        config.wf(),
    ensures
        unknown_namespace(config, entry.target@) ==> r == Ok::<CheckResult, Error>(CheckResult::Broken("unknown namespace")),
        !unknown_namespace(config, entry.target@) && source is None ==> r == Ok::<CheckResult, Error>(CheckResult::Broken("file not found")),
        !unknown_namespace(config, entry.target@) && source is Some && lang_of_extension(extension_of(resolved_target(config, entry.target@))) is None
            ==> r == Ok::<CheckResult, Error>(CheckResult::Broken("unsupported language")),
        !unknown_namespace(config, entry.target@) && source is Some && lang_of_extension(extension_of(resolved_target(config, entry.target@))) is Some ==> ({
            let l = lang_of_extension(extension_of(resolved_target(config, entry.target@)))->0;
            let text = source->0;
            let qv = symbol_query_view(entry.symbol@);
            &&& ref_missing(l, text@, text.len() as u64, qv) ==> r == Ok::<CheckResult, Error>(CheckResult::Broken("symbol removed"))
            &&& !ref_missing(l, text@, text.len() as u64, qv) ==> match ref_hash(l, text@, text.len() as u64, qv) {
                Some(h) => r == Ok::<CheckResult, Error>(freshness_of(entry.hash.0@, h)),
                None => r is Err,
            }
        }),
{
    let disk_path = match config.resolve_target(entry.target.as_str()) {
        Err(_) => return Ok(CheckResult::Broken("unknown namespace")),
        Ok(p) => p,
    };
    let text = match source {
        None => return Ok(CheckResult::Broken("file not found")),
        Some(t) => t,
    };
    let lang = match language_for_path(disk_path.as_str()) {
        Err(_) => return Ok(CheckResult::Broken("unsupported language")),
        Ok(l) => l,
    };
    let query = parse_symbol_query(entry.symbol.as_str());
    assert(query_view(query) == symbol_query_view(entry.symbol@));
    match hash_reference(disk_path.as_str(), text, lang, &query) {
        Err(Error::SymbolNotFound { .. }) => Ok(CheckResult::Broken("symbol removed")),
        Err(e) => Err(e),
        Ok(h) => Ok(classify_hash(&entry.hash, &h)),
    }
}

/// A query as the scanner makes it: a bare name without `.`, a scoped
/// query whose parent has no `.`, or the whole file.
pub open spec fn canonical_query(q: SymbolQuery) -> bool {
    match q {
        SymbolQuery::Bare(n) => n@.len() > 0 && !n@.contains('.'),
        SymbolQuery::Scoped { child, parent } => !parent@.contains('.'),
        SymbolQuery::WholeFile => true,
    }
}

/// Storing a canonical query as text and reading it back gives the query.
pub proof fn lemma_query_text_round_trip(q: SymbolQuery)
    requires
        canonical_query(q),
    ensures
        symbol_query_view(query_text(q)) == query_view(q),
{
    match q {
        SymbolQuery::Bare(n) => {
            lemma_index_of(n@, '.');
        },
        SymbolQuery::Scoped { child, parent } => {
            let s = parent@ + seq!['.'] + child@;
            lemma_index_of(s, '.');
            assert(s[parent@.len() as int] == '.');
            assert(s.contains('.'));
            let k = index_of(s, '.');
            if k < parent@.len() {
                assert(s[k] == parent@[k]);
                assert(parent@.contains('.'));
            }
            assert(k == parent@.len());
            assert(s.subrange(0, k) =~= parent@);
            assert(s.subrange(k + 1, s.len() as int) =~= child@);
        },
        SymbolQuery::WholeFile => {},
    }
}

/// A baseline is fresh: an entry stored with the hash of its (canonical)
/// reference compares Fresh against the same source, its symbol present.
pub proof fn lemma_baseline_is_fresh(lang: Lang, text: Seq<char>, size: u64, q: SymbolQuery, stored: Seq<char>)
    requires
        canonical_query(q),
        ref_hash(lang, text, size, query_view(q)) == Some(stored),
    ensures
        !ref_missing(lang, text, size, symbol_query_view(query_text(q))),
        ref_hash(lang, text, size, symbol_query_view(query_text(q))) == Some(stored),
        freshness_of(stored, stored) == CheckResult::Fresh,
{
    lemma_query_text_round_trip(q);
    lemma_missing_has_no_hash(lang, text, size, query_view(q));
}

/// The source references of `refs` that use `symbol`, with no line text yet.
pub open spec fn referencing(refs: Seq<Reference>, symbol: Seq<char>) -> Seq<Reference>
    decreases refs.len(),
{
    if refs.len() == 0 {
        Seq::empty()
    } else if query_text(refs.last().symbol) == symbol {
        referencing(refs.drop_last(), symbol).push(refs.last())
    } else {
        referencing(refs.drop_last(), symbol)
    }
}

/// Add to a symbol-not-found error the Markdown locations that reference
/// the missing symbol; other errors pass through unchanged. The line text
/// of each location is left empty for the caller, who reads the files, to fill.
pub fn enrich_with_source_locations(e: Error, refs: &Vec<Reference>) -> (r: Error)
    ensures
        !(e is SymbolNotFound) ==> r == e,
        e matches Error::SymbolNotFound { file, suggestions, symbol, .. } ==> (r matches Error::SymbolNotFound { file: f2, referenced_from, suggestions: s2, symbol: y2 }
            && f2 == file && s2 == suggestions && y2 == symbol
            && referenced_from@.len() == referencing(refs@, symbol@).len()
            && forall|i: int| 0 <= i < referenced_from@.len() ==> {
                let s = #[trigger] referenced_from@[i];
                let src = referencing(refs@, symbol@)[i];
                s.file@ == src.source@ && s.line == src.source_line && s.content@.len() == 0
            }),
{
    match e {
        Error::SymbolNotFound { file, referenced_from: _, suggestions, symbol } => {
            let mut sources: Vec<SourceRef> = Vec::new();
            let mut i: usize = 0;
            while i < refs.len()
                invariant
                    i <= refs.len(),
                    sources@.len() == referencing(refs@.take(i as int), symbol@).len(),
                    forall|k: int| 0 <= k < sources@.len() ==> {
                        let s = #[trigger] sources@[k];
                        let src = referencing(refs@.take(i as int), symbol@)[k];
                        s.file@ == src.source@ && s.line == src.source_line && s.content@.len() == 0
                    },
                decreases refs.len() - i,
            {
                assert(refs@.take(i + 1).drop_last() =~= refs@.take(i as int));
                let name = refs[i].symbol.display_name();
                if name == symbol {
                    let ghost before = sources@;
                    sources.push(SourceRef { content: String::new(), file: refs[i].source.clone(), line: refs[i].source_line });
                    assert forall|k: int| 0 <= k < sources@.len() implies {
                        let s = #[trigger] sources@[k];
                        let src = referencing(refs@.take(i + 1), symbol@)[k];
                        s.file@ == src.source@ && s.line == src.source_line && s.content@.len() == 0
                    } by {
                        if k < before.len() {
                            assert(sources@[k] == before[k]);
                        }
                    }
                }
                i = i + 1;
            }
            assert(refs@.take(i as int) =~= refs@);
            Error::SymbolNotFound { file, referenced_from: sources, suggestions, symbol }
        },
        other => other,
    }
}

/// The hash of one reference: of the whole file, or of the declaration its
/// query resolves to. A missing symbol is the one symbol-not-found error.
fn hash_reference(disk_path: &str, source: &str, lang: Lang, query: &SymbolQuery) -> (r: Result<SemanticHash, Error>)
    ensures
        ref_hash(lang, source@, source.len() as u64, query_view(*query)) matches Some(h) ==> (r matches Ok(x) && x.0@ == h),
        ref_hash(lang, source@, source.len() as u64, query_view(*query)) is None ==> r is Err,
        ref_missing(lang, source@, source.len() as u64, query_view(*query)) ==> (r matches Err(Error::SymbolNotFound { symbol, .. }) && symbol@ == query_text(*query)),
        r matches Err(Error::SymbolNotFound { .. }) ==> ref_missing(lang, source@, source.len() as u64, query_view(*query)),
{
    proof {
        reveal_strlit(".");
    }
    match query {
        SymbolQuery::WholeFile => hash_file(source, lang),
        _ => {
            let resolved = resolve(disk_path, source, lang, query)?;
            hash_symbol(source, lang, &resolved)
        },
    }
}

/// The current hash of a stored symbol (whole file when empty) in a
/// target file with path `disk_path` and content `source`.
pub fn hash_stored_symbol(disk_path: &str, source: &str, lang: Lang, symbol: &str) -> (r: Result<SemanticHash, Error>)
    ensures
        ref_hash(lang, source@, source.len() as u64, symbol_query_view(symbol@)) matches Some(h) ==> (r matches Ok(x) && x.0@ == h),
        ref_hash(lang, source@, source.len() as u64, symbol_query_view(symbol@)) is None ==> r is Err,
        ref_missing(lang, source@, source.len() as u64, symbol_query_view(symbol@)) <==> r matches Err(Error::SymbolNotFound { .. }),
{
    let query = parse_symbol_query(symbol);
    assert(query_view(query) == symbol_query_view(symbol@));
    hash_reference(disk_path, source, lang, &query)
}

/// Lockfile entries for the references into one target file, whose path on
/// disk is `disk_path` and whose content is `source`: each reference's
/// source, target and symbol text with the hash of what it names. A
/// symbol-not-found error carries the locations that use the missing name.
pub fn hash_target_references(disk_path: &str, source: &str, refs: &Vec<Reference>) -> (r: Result<Vec<LockEntry>, Error>)
    ensures
        lang_of_extension(extension_of(disk_path@)) is None ==> r matches Err(Error::UnsupportedLanguage { .. }),
        r matches Ok(v) ==> v@.len() == refs@.len() && forall|i: int| 0 <= i < v@.len() ==> {
            let e = #[trigger] v@[i];
            e.source@ == refs@[i].source@ && e.target@ == refs@[i].target@ && e.symbol@ == query_text(refs@[i].symbol)
        },
        lang_of_extension(extension_of(disk_path@)) matches Some(l) ==> {
            &&& r matches Ok(v) ==> forall|i: int| 0 <= i < v@.len() ==>
                ref_hash(l, source@, source.len() as u64, query_view(refs@[i].symbol)) == Some((#[trigger] v@[i]).hash.0@)
            &&& (forall|i: int| 0 <= i < refs@.len() ==> (#[trigger] ref_hash(l, source@, source.len() as u64, query_view(refs@[i].symbol))) is Some) ==> r is Ok
            &&& (exists|i: int| 0 <= i < refs@.len() && ref_missing(l, source@, source.len() as u64, query_view(#[trigger] refs@[i].symbol))
                && forall|j: int| 0 <= j < i ==> ref_hash(l, source@, source.len() as u64, query_view(#[trigger] refs@[j].symbol)) is Some)
                ==> r matches Err(Error::SymbolNotFound { .. })
        },
        r matches Err(Error::SymbolNotFound { symbol, referenced_from, .. }) ==> referenced_from@.len() == referencing(refs@, symbol@).len()
            && forall|i: int| 0 <= i < referenced_from@.len() ==> {
                let s = #[trigger] referenced_from@[i];
                let src = referencing(refs@, symbol@)[i];
                s.file@ == src.source@ && s.line == src.source_line && s.content@.len() == 0
            },
{
    let lang = language_for_path(disk_path)?;
    let mut entries: Vec<LockEntry> = Vec::new();
    let mut i: usize = 0;
    while i < refs.len()
        invariant
            lang_of_extension(extension_of(disk_path@)) is Some,
            i <= refs.len(),
            entries@.len() == i,
            forall|k: int| 0 <= k < i ==> {
                let e = #[trigger] entries@[k];
                e.source@ == refs@[k].source@ && e.target@ == refs@[k].target@ && e.symbol@ == query_text(refs@[k].symbol)
            },
            lang_of_extension(extension_of(disk_path@)) == Some(lang),
            forall|k: int| 0 <= k < i ==> ref_hash(lang, source@, source.len() as u64, query_view(refs@[k].symbol)) == Some((#[trigger] entries@[k]).hash.0@),
        decreases refs.len() - i,
    {
        let reference = &refs[i];
        let hash = match hash_reference(disk_path, source, lang, &reference.symbol) {
            Ok(h) => h,
            Err(e) => {
                proof {
                    let l = lang;
                    let size = source.len() as u64;
                    assert(ref_hash(l, source@, size, query_view(refs@[i as int].symbol)) is None);
                    assert forall|i0: int| 0 <= i0 < refs@.len() && ref_missing(l, source@, size, query_view(#[trigger] refs@[i0].symbol))
                        && (forall|j: int| 0 <= j < i0 ==> ref_hash(l, source@, size, query_view(#[trigger] refs@[j].symbol)) is Some)
                        implies e is SymbolNotFound by {
                        lemma_missing_has_no_hash(l, source@, size, query_view(refs@[i0].symbol));
                        if i0 < i {
                            assert(ref_hash(l, source@, size, query_view(refs@[i0].symbol)) == Some(entries@[i0].hash.0@));
                        } else if i0 > i {
                            assert(ref_hash(l, source@, size, query_view(refs@[i as int].symbol)) is Some);
                        }
                    }
                }
                return Err(enrich_with_source_locations(e, refs));
            },
        };
        entries.push(LockEntry {
            hash,
            source: reference.source.clone(),
            symbol: reference.symbol.display_name(),
            target: reference.target.clone(),
        });
        i = i + 1;
    }
    proof {
        let size = source.len() as u64;
        assert forall|i0: int| 0 <= i0 < refs@.len() implies !ref_missing(lang, source@, size, query_view(#[trigger] refs@[i0].symbol)) by {
            lemma_missing_has_no_hash(lang, source@, size, query_view(refs@[i0].symbol));
            assert(ref_hash(lang, source@, size, query_view(refs@[i0].symbol)) == Some(entries@[i0].hash.0@));
        }
    }
    Ok(entries)
}

/// A missing symbol has no hash.
proof fn lemma_missing_has_no_hash(lang: Lang, text: Seq<char>, size: u64, qv: (int, Seq<char>, Seq<char>))
    ensures
        ref_missing(lang, text, size, qv) ==> ref_hash(lang, text, size, qv) is None,
{
}

} // verus!
