//! The decisions behind the command-line operations: output formats,
//! reference strings, exit codes, lockfile updates and Markdown fixes.

use vstd::prelude::*;
use vstd::string::*;
use crate::error::Error;
use crate::config::Config;
use crate::freshness::{resolved_target, unknown_namespace, CheckResult};
use crate::lockfile::{entry_views, EntryView, LockEntry, Lockfile};
use crate::scanner::{copy_strings, dir_of, join_strings, join_with, parent_dir, views};
use crate::text::{chars_of, concat2, concat3, owned, split_first, split_once, starts_with_str, str_eq};
use crate::types::{query_text, query_view, Reference, SemanticHash, SymbolQuery};

verus! {

/// How `check` and `status` print.
#[derive(Debug, Clone, Copy, PartialEq, Eq)]
pub enum OutputFormat {
    Json,
    Text,
}

/// Parse an output format name: `json` or `text`.
pub fn parse_output_format(s: &str) -> (r: Result<OutputFormat, Error>)
    ensures
        s@ == "json"@ ==> r == Ok::<OutputFormat, Error>(OutputFormat::Json),
        s@ == "text"@ ==> r == Ok::<OutputFormat, Error>(OutputFormat::Text),
        s@ != "json"@ && s@ != "text"@ ==> r matches Err(Error::LockfileCorrupt { .. }),
{
    proof {
        reveal_strlit("json");
        reveal_strlit("text");
        assert("json"@ != "text"@) by {
            assert("json"@[0] != "text"@[0]);
        }
    }
    if str_eq(s, "json") {
        Ok(OutputFormat::Json)
    } else if str_eq(s, "text") {
        Ok(OutputFormat::Text)
    } else {
        let mut reason = owned("unknown format: ");
        reason.append(s);
        reason.append(" (expected 'text' or 'json')");
        Err(Error::LockfileCorrupt { reason })
    }
}

/// `file#symbol`, or just `file` for a whole-file reference.
pub open spec fn ref_text(target: Seq<char>, symbol: Seq<char>) -> Seq<char> {
    if symbol.len() == 0 {
        target
    } else {
        target + seq!['#'] + symbol
    }
}

/// Format a reference as `file#symbol`, or `file` when the symbol is empty.
pub fn format_ref(target: &str, symbol: &str) -> (r: String)
    ensures
        r@ == ref_text(target@, symbol@),
{
    if symbol.unicode_len() == 0 {
        return owned(target);
    }
    proof {
        reveal_strlit("#");
    }
    concat3(target, "#", symbol)
}

/// Split `file#symbol` at its first `#`; without one, the symbol is empty.
pub fn split_reference(input: &str) -> (r: (String, String))
    ensures
        split_first(input@, '#') matches Some((f, s)) ==> r.0@ == f && r.1@ == s,
        split_first(input@, '#') is None ==> r.0@ == input@ && r.1@.len() == 0,
{
    match split_once(input, '#') {
        Some((file, symbol)) => (file, symbol),
        None => (owned(input), String::new()),
    }
}

/// Split `file#symbol`, which must hold a `#`.
pub fn split_file_hash_symbol_reference(input: &str) -> (r: Result<(String, String), Error>)
    ensures
        split_first(input@, '#') matches Some((f, s)) ==> (r matches Ok((a, b)) && a@ == f && b@ == s),
        split_first(input@, '#') is None ==> r matches Err(Error::ParseFailed { .. }),
{
    match split_once(input, '#') {
        Some((file, symbol)) => Ok((file, symbol)),
        None => Err(Error::ParseFailed { file: owned(input), reason: owned("expected file#symbol format") }),
    }
}

/// A stored, non-empty symbol as a query: scoped at its first `.`, bare otherwise.
pub fn parse_lockfile_symbol_as_query(symbol: &str) -> (r: SymbolQuery)
    ensures
        split_first(symbol@, '.') matches Some((p, c)) ==> query_view(r) == (1int, p, c),
        split_first(symbol@, '.') is None ==> query_view(r) == (0int, symbol@, Seq::<char>::empty()),
{
    match split_once(symbol, '.') {
        Some((parent, child)) => SymbolQuery::Scoped { child, parent },
        None => SymbolQuery::Bare(owned(symbol)),
    }
}

/// Counts of check outcomes.
#[derive(Debug, Clone, Copy, PartialEq, Eq)]
pub struct CheckSummary {
    pub broken: u32,
    pub fresh: u32,
    pub stale: u32,
}

/// How many results are of each kind, up to `u32::MAX`.
pub open spec fn count_kind(rs: Seq<CheckResult>, kind: int) -> nat
    decreases rs.len(),
{
    if rs.len() == 0 {
        0
    } else {
        count_kind(rs.drop_last(), kind) + if (match rs.last() {
            CheckResult::Broken(_) => 0int,
            CheckResult::Fresh => 1int,
            CheckResult::Stale => 2int,
        }) == kind { 1nat } else { 0nat }
    }
}

/// Saturating conversion to `u32`.
pub open spec fn sat32(n: nat) -> u32 {
    if n > u32::MAX { u32::MAX } else { n as u32 }
}

/// Count the outcomes of a check.
pub fn summarize(results: &Vec<CheckResult>) -> (r: CheckSummary)
    ensures
        r.broken == sat32(count_kind(results@, 0)),
        r.fresh == sat32(count_kind(results@, 1)),
        r.stale == sat32(count_kind(results@, 2)),
{
    let mut s = CheckSummary { broken: 0, fresh: 0, stale: 0 };
    let mut i: usize = 0;
    while i < results.len()
        invariant
            i <= results.len(),
            s.broken == sat32(count_kind(results@.take(i as int), 0)),
            s.fresh == sat32(count_kind(results@.take(i as int), 1)),
            s.stale == sat32(count_kind(results@.take(i as int), 2)),
        decreases results.len() - i,
    {
        assert(results@.take(i + 1).drop_last() =~= results@.take(i as int));
        match results[i] {
            CheckResult::Broken(_) => s.broken = s.broken.saturating_add(1),
            CheckResult::Fresh => s.fresh = s.fresh.saturating_add(1),
            CheckResult::Stale => s.stale = s.stale.saturating_add(1),
        }
        i = i + 1;
    }
    assert(results@.take(i as int) =~= results@);
    s
}

/// The exit code of `check`: 2 with any broken reference, else 1 with any
/// stale one, else 0.
pub fn check_exit_code(summary: &CheckSummary) -> (r: u8)
    ensures
        r == (if summary.broken > 0 { 2u8 } else if summary.stale > 0 { 1u8 } else { 0u8 }),
{
    if summary.broken > 0 {
        2
    } else if summary.stale > 0 {
        1
    } else {
        0
    }
}

/// `s` with every `<...>` run (nesting counted) removed.
pub open spec fn strip_generics_state(s: Seq<char>) -> (Seq<char>, nat)
    decreases s.len(),
{
    if s.len() == 0 {
        (Seq::empty(), 0)
    } else {
        let (out, depth) = strip_generics_state(s.drop_last());
        let c = s.last();
        if c == '<' {
            (out, depth + 1)
        } else if c == '>' {
            (out, if depth == 0 { 0 } else { (depth - 1) as nat })
        } else if depth == 0 {
            (out.push(c), depth)
        } else {
            (out, depth)
        }
    }
}

/// Remove generic arguments: every character inside `<` ... `>`, brackets included.
pub fn strip_generics(s: &str) -> (r: String)
    ensures
        r@ == strip_generics_state(s@).0,
{
    let cs = chars_of(s);
    let mut out = String::new();
    let mut depth: u64 = 0;
    let mut i: usize = 0;
    while i < cs.len()
        invariant
            cs@ == s@,
            i <= cs.len(),
            depth <= i,
            strip_generics_state(s@.take(i as int)) == (out@, depth as nat),
        decreases cs.len() - i,
    {
        assert(s@.take(i + 1).drop_last() =~= s@.take(i as int));
        let c = cs[i];
        if c == '<' {
            depth = depth + 1;
        } else if c == '>' {
            if depth > 0 {
                depth = depth - 1;
            }
        } else if depth == 0 {
            out.append(s.substring_char(i, i + 1));
            assert(s@.subrange(i as int, i + 1) =~= seq![c]);
        }
        i = i + 1;
    }
    assert(s@.take(i as int) =~= s@);
    out
}

/// Index of the first suggestion equal to `symbol` once generic arguments
/// are stripped from both, or -1.
pub open spec fn closest_index(symbol: Seq<char>, suggestions: Seq<Seq<char>>) -> int
    decreases suggestions.len(),
{
    if suggestions.len() == 0 {
        -1
    } else if closest_index(symbol, suggestions.drop_last()) >= 0 {
        closest_index(symbol, suggestions.drop_last())
    } else if strip_generics_state(suggestions.last()).0 == strip_generics_state(symbol).0 {
        suggestions.len() - 1
    } else {
        -1
    }
}

/// The first suggestion that matches `symbol` up to generic arguments.
pub fn find_closest_suggestion(symbol: &str, suggestions: &Vec<String>) -> (r: Option<String>)
    ensures
        closest_index(symbol@, views(suggestions@)) < 0 ==> r is None,
        closest_index(symbol@, views(suggestions@)) >= 0 ==> (r matches Some(s)
            && s@ == views(suggestions@)[closest_index(symbol@, views(suggestions@))]),
{
    let normalized = strip_generics(symbol);
    let ghost v = views(suggestions@);
    let mut i: usize = 0;
    while i < suggestions.len()
        invariant
            v == views(suggestions@),
            normalized@ == strip_generics_state(symbol@).0,
            i <= suggestions.len(),
            closest_index(symbol@, v.take(i as int)) < 0,
        decreases suggestions.len() - i,
    {
        assert(v.take(i + 1).drop_last() =~= v.take(i as int));
        let candidate = strip_generics(suggestions[i].as_str());
        if candidate == normalized {
            proof {
                assert(closest_index(symbol@, v.take(i + 1)) == i);
                lemma_closest_prefix(symbol@, v, i + 1);
            }
            return Some(suggestions[i].clone());
        }
        i = i + 1;
    }
    assert(v.take(i as int) =~= v);
    None
}

proof fn lemma_closest_prefix(symbol: Seq<char>, v: Seq<Seq<char>>, k: int)
    requires
        0 <= k <= v.len(),
        closest_index(symbol, v.take(k)) >= 0,
    ensures
        closest_index(symbol, v) == closest_index(symbol, v.take(k)),
    decreases v.len() - k,
{
    if k < v.len() {
        assert(v.take(k + 1).drop_last() =~= v.take(k));
        lemma_closest_prefix(symbol, v, k + 1);
    } else {
        assert(v.take(k) =~= v);
    }
}

/// `s` with each non-overlapping occurrence of `p`, left to right, replaced by `t`.
pub open spec fn replaced(s: Seq<char>, p: Seq<char>, t: Seq<char>) -> Seq<char>
    recommends
        p.len() > 0,
    decreases s.len(),
{
    if p.len() == 0 || s.len() < p.len() {
        s
    } else if s.subrange(0, p.len() as int) == p {
        t + replaced(s.subrange(p.len() as int, s.len() as int), p, t)
    } else {
        seq![s[0]] + replaced(s.drop_first(), p, t)
    }
}

/// Replace every occurrence of a non-empty `p` in `s` by `t`.
pub fn replace_all(s: &str, p: &str, t: &str) -> (r: String)
    requires
        p@.len() > 0,
    ensures
        r@ == replaced(s@, p@, t@),
{
    let n = s.unicode_len();
    let m = p.unicode_len();
    let mut out = String::new();
    let mut i: usize = 0;
    assert(s@.subrange(0, n as int) =~= s@);
    assert(out@ + replaced(s@, p@, t@) =~= replaced(s@, p@, t@));
    while i < n
        invariant
            n == s@.len(),
            m == p@.len(),
            m > 0,
            i <= n,
            out@ + replaced(s@.subrange(i as int, n as int), p@, t@) == replaced(s@, p@, t@),
        decreases n - i,
    {
        let rest = s.substring_char(i, n);
        if m <= n - i && starts_with_str(rest, p) {
            out.append(t);
            proof {
                assert(rest@.subrange(m as int, rest@.len() as int) =~= s@.subrange(i + m, n as int));
                assert(out@ + replaced(s@.subrange(i + m, n as int), p@, t@) =~= replaced(s@, p@, t@));
            }
            i = i + m;
        } else {
            out.append(s.substring_char(i, i + 1));
            proof {
                assert(rest@.drop_first() =~= s@.subrange(i + 1, n as int));
                assert(s@.subrange(i as int, i + 1) =~= seq![rest@[0]]);
                if m <= n - i {
                    assert(rest@.subrange(0, m as int) != p@);
                }
                assert(out@ + replaced(s@.subrange(i + 1, n as int), p@, t@) =~= replaced(s@, p@, t@));
            }
            i = i + 1;
        }
    }
    assert(s@.subrange(n as int, n as int) =~= Seq::<char>::empty());
    assert(out@ + Seq::<char>::empty() =~= out@);
    out
}

/// Replacing a fragment that a line does not hold leaves the line as it is,
/// so applying a fix again, once its fragment is gone, changes nothing.
pub proof fn lemma_replace_absent(s: Seq<char>, p: Seq<char>, t: Seq<char>)
    requires
        p.len() > 0,
        forall|i: int| 0 <= i && i + p.len() <= s.len() ==> #[trigger] s.subrange(i, i + p.len()) != p,
    ensures
        replaced(s, p, t) == s,
    decreases s.len(),
{
    if s.len() >= p.len() {
        let z: int = 0;
        assert(s.subrange(z, z + p.len()) != p);
        assert(s.subrange(z, z + p.len()) == s.subrange(0, p.len() as int));
        let d = s.drop_first();
        assert forall|i: int| 0 <= i && i + p.len() <= d.len() implies #[trigger] d.subrange(i, i + p.len()) != p by {
            assert(d.subrange(i, i + p.len()) =~= s.subrange(i + 1, i + 1 + p.len()));
        }
        lemma_replace_absent(d, p, t);
        assert(s =~= seq![s[0]] + d);
    }
}

/// A pending rewrite of one reference's symbol in a Markdown file.
#[derive(Debug)]
pub struct FixAction {
    /// The Markdown file.
    pub file: String,
    /// One-based line of the reference.
    pub line: u32,
    /// The symbol to write.
    pub new_symbol: String,
    /// The symbol to replace.
    pub old_symbol: String,
}

/// The index of a one-based line number; line 0 is taken as the first line.
pub open spec fn line_index(line: u32) -> int {
    if line == 0 { 0 } else { line - 1 }
}

/// On the fix's line (when the file has it), replace each `#old` by `#new`.
pub fn rewrite_symbol_on_line(lines: &mut Vec<String>, fix: &FixAction)
    ensures
        final(lines)@.len() == old(lines)@.len(),
        forall|k: int| 0 <= k < final(lines)@.len() ==> #[trigger] final(lines)@[k]@ == if k == line_index(fix.line) {
            replaced(old(lines)@[k]@, seq!['#'] + fix.old_symbol@, seq!['#'] + fix.new_symbol@)
        } else {
            old(lines)@[k]@
        },
{
    let idx: usize = if fix.line == 0 { 0 } else { fix.line as usize - 1 };
    if idx >= lines.len() {
        return;
    }
    proof {
        reveal_strlit("#");
        assert("#"@ =~= seq!['#']);
    }
    let old_fragment = concat2("#", fix.old_symbol.as_str());
    let new_fragment = concat2("#", fix.new_symbol.as_str());
    let updated = replace_all(lines[idx].as_str(), old_fragment.as_str(), new_fragment.as_str());
    lines.set(idx, updated);
}

/// The parts of `s` between occurrences of `c`, empty ones included.
pub open spec fn split_on(s: Seq<char>, c: char) -> Seq<Seq<char>>
    decreases s.len(),
{
    if s.len() == 0 {
        seq![Seq::empty()]
    } else {
        let t = split_on(s.drop_last(), c);
        if s.last() == c {
            t.push(Seq::empty())
        } else {
            t.update(t.len() - 1, t.last().push(s.last()))
        }
    }
}

proof fn lemma_split_on_nonempty(s: Seq<char>, c: char)
    ensures
        split_on(s, c).len() >= 1,
    decreases s.len(),
{
    if s.len() > 0 {
        lemma_split_on_nonempty(s.drop_last(), c);
    }
}

/// A line without the carriage return of a `\r\n` ending.
pub open spec fn without_cr(l: Seq<char>) -> Seq<char> {
    if l.len() > 0 && l.last() == '\r' {
        l.drop_last()
    } else {
        l
    }
}

/// The lines of a text as `str::lines` gives them: split at `\n`, a `\r`
/// before a `\n` dropped, and no empty line after a final `\n`.
pub open spec fn lines_of(s: Seq<char>) -> Seq<Seq<char>> {
    let parts = split_on(s, '\n');
    let ended = parts.drop_last().map_values(|l: Seq<char>| without_cr(l));
    if parts.last().len() == 0 {
        ended
    } else {
        ended.push(parts.last())
    }
}

/// Split text into lines as `str::lines` does.
pub fn split_lines(content: &str) -> (r: Vec<String>)
    ensures
        views(r@) == lines_of(content@),
{
    let cs = chars_of(content);
    let mut lines: Vec<String> = Vec::new();
    let mut start: usize = 0;
    let mut i: usize = 0;
    while i < cs.len()
        invariant
            cs@ == content@,
            start <= i <= cs.len(),
            split_on(content@.take(i as int), '\n').last() == content@.subrange(start as int, i as int),
            views(lines@) == split_on(content@.take(i as int), '\n').drop_last().map_values(|l: Seq<char>| without_cr(l)),
        decreases cs.len() - i,
    {
        let ghost pre = content@.take(i as int);
        proof {
            assert(content@.take(i + 1).drop_last() =~= pre);
            lemma_split_on_nonempty(pre, '\n');
        }
        if cs[i] == '\n' {
            let mut end = i;
            if end > start && cs[end - 1] == '\r' {
                end = end - 1;
            }
            let ghost before = lines@;
            lines.push(owned(content.substring_char(start, end)));
            proof {
                let ps = split_on(pre, '\n');
                let seg = content@.subrange(start as int, i as int);
                assert(seg == ps.last());
                if i > start && cs@[i - 1] == '\r' {
                    assert(seg.last() == '\r');
                    assert(content@.subrange(start as int, end as int) =~= seg.drop_last());
                }
                assert(without_cr(seg) == content@.subrange(start as int, end as int));
                assert(split_on(content@.take(i + 1), '\n') == ps.push(Seq::empty()));
                assert(split_on(content@.take(i + 1), '\n').drop_last() =~= ps);
                assert(ps =~= ps.drop_last().push(ps.last()));
                assert(views(lines@) =~= views(before).push(without_cr(seg)));
                assert(ps.map_values(|l: Seq<char>| without_cr(l)) =~= ps.drop_last().map_values(|l: Seq<char>| without_cr(l)).push(without_cr(ps.last())));
            }
            start = i + 1;
        } else {
            proof {
                let ps = split_on(pre, '\n');
                assert(split_on(content@.take(i + 1), '\n').drop_last() =~= ps.drop_last());
                assert(content@.subrange(start as int, i + 1) =~= content@.subrange(start as int, i as int).push(cs@[i as int]));
            }
        }
        i = i + 1;
    }
    proof {
        assert(content@.take(i as int) =~= content@);
        lemma_split_on_nonempty(content@, '\n');
    }
    if start < cs.len() {
        let ghost before = lines@;
        lines.push(owned(content.substring_char(start, cs.len())));
        assert(views(lines@) =~= views(before).push(content@.subrange(start as int, cs.len() as int)));
    }
    lines
}

/// The lines after a list of fixes, each applied in turn.
pub open spec fn fixed_lines(lines: Seq<Seq<char>>, fixes: Seq<FixAction>) -> Seq<Seq<char>>
    decreases fixes.len(),
{
    if fixes.len() == 0 {
        lines
    } else {
        let before = fixed_lines(lines, fixes.drop_last());
        let f = fixes.last();
        let k = line_index(f.line);
        if 0 <= k < before.len() {
            before.update(k, replaced(before[k], seq!['#'] + f.old_symbol@, seq!['#'] + f.new_symbol@))
        } else {
            before
        }
    }
}

/// The new content of a Markdown file after its fixes: each fix rewrites
/// `#old` to `#new` on its line, lines are joined by `\n`, and a final
/// newline is kept.
pub fn apply_fixes_to_content(content: &str, fixes: &Vec<FixAction>) -> (r: String)
    ensures
        r@ == join_with(fixed_lines(lines_of(content@), fixes@), seq!['\n'])
            + (if content@.len() > 0 && content@.last() == '\n' { seq!['\n'] } else { Seq::empty() }),
{
    let mut lines = split_lines(content);
    let mut i: usize = 0;
    while i < fixes.len()
        invariant
            i <= fixes.len(),
            views(lines@) == fixed_lines(lines_of(content@), fixes@.take(i as int)),
        decreases fixes.len() - i,
    {
        rewrite_symbol_on_line(&mut lines, &fixes[i]);
        proof {
            assert(fixes@.take(i + 1).drop_last() =~= fixes@.take(i as int));
            assert(views(lines@) =~= fixed_lines(lines_of(content@), fixes@.take(i + 1)));
        }
        i = i + 1;
    }
    assert(fixes@.take(i as int) =~= fixes@);
    let mut out = join_strings(&lines, "\n");
    proof {
        reveal_strlit("\n");
        assert("\n"@ =~= seq!['\n']);
    }
    let n = content.unicode_len();
    if n > 0 && content.get_char(n - 1) == '\n' {
        out.append("\n");
    }
    out
}

/// The indices among `idx` whose entries have target `t`, in order.
pub open spec fn indices_with_target(entries: Seq<LockEntry>, idx: Seq<usize>, t: Seq<char>) -> Seq<usize>
    decreases idx.len(),
{
    if idx.len() == 0 {
        Seq::empty()
    } else if entries[idx.last() as int].target@ == t {
        indices_with_target(entries, idx.drop_last(), t).push(idx.last())
    } else {
        indices_with_target(entries, idx.drop_last(), t)
    }
}

/// Some group has the key `t`.
pub open spec fn has_index_group(groups: Seq<(String, Vec<usize>)>, t: Seq<char>) -> bool {
    exists|k: int| 0 <= k < groups.len() && (#[trigger] groups[k]).0@ == t
}

/// The indices whose entries have target `t`.
fn indices_to(lockfile: &Lockfile, indices: &Vec<usize>, t: &str) -> (r: Vec<usize>)
    requires
        forall|k: int| 0 <= k < indices@.len() ==> indices@[k] < lockfile.entries@.len(),
    ensures
        r@ == indices_with_target(lockfile.entries@, indices@, t@),
{
    let mut out: Vec<usize> = Vec::new();
    let mut j: usize = 0;
    while j < indices.len()
        invariant
            forall|k: int| 0 <= k < indices@.len() ==> indices@[k] < lockfile.entries@.len(),
            j <= indices.len(),
            out@ == indices_with_target(lockfile.entries@, indices@.take(j as int), t@),
        decreases indices.len() - j,
    {
        assert(indices@.take(j + 1).drop_last() =~= indices@.take(j as int));
        if str_eq(lockfile.entries[indices[j]].target.as_str(), t) {
            out.push(indices[j]);
        }
        j = j + 1;
    }
    assert(indices@.take(j as int) =~= indices@);
    out
}

/// Group lockfile entry indices by the entries' targets: one group per
/// distinct target, in order of first appearance, each with the indices of
/// that target in order. An index outside the lockfile is an error.
pub fn group_indices_by_target(lockfile: &Lockfile, indices: &Vec<usize>) -> (r: Result<Vec<(String, Vec<usize>)>, Error>)
    ensures
        (exists|k: int| 0 <= k < indices@.len() && indices@[k] >= lockfile.entries@.len()) <==> r matches Err(Error::LockfileCorrupt { .. }),
        r matches Ok(g) ==> {
            &&& forall|a: int, b: int| 0 <= a < b < g@.len() ==> (#[trigger] g@[a]).0@ != (#[trigger] g@[b]).0@
            &&& forall|k: int| 0 <= k < g@.len() ==> (#[trigger] g@[k]).1@ == indices_with_target(lockfile.entries@, indices@, g@[k].0@)
            &&& forall|i: int| 0 <= i < indices@.len() ==> has_index_group(g@, lockfile.entries@[#[trigger] indices@[i] as int].target@)
        },
{
    let mut i: usize = 0;
    while i < indices.len()
        invariant
            i <= indices.len(),
            forall|k: int| 0 <= k < i ==> indices@[k] < lockfile.entries@.len(),
        decreases indices.len() - i,
    {
        if indices[i] >= lockfile.entries.len() {
            let reason = owned("index out of bounds");
            return Err(Error::LockfileCorrupt { reason });
        }
        i = i + 1;
    }
    let mut groups: Vec<(String, Vec<usize>)> = Vec::new();
    let mut i: usize = 0;
    while i < indices.len()
        invariant
            i <= indices.len(),
            forall|k: int| 0 <= k < indices@.len() ==> indices@[k] < lockfile.entries@.len(),
            forall|a: int, b: int| 0 <= a < b < groups@.len() ==> (#[trigger] groups@[a]).0@ != (#[trigger] groups@[b]).0@,
            forall|k: int| 0 <= k < groups@.len() ==> (#[trigger] groups@[k]).1@ == indices_with_target(lockfile.entries@, indices@, groups@[k].0@),
            forall|j: int| 0 <= j < i ==> has_index_group(groups@, lockfile.entries@[#[trigger] indices@[j] as int].target@),
        decreases indices.len() - i,
    {
        let target = lockfile.entries[indices[i]].target.as_str();
        let mut k: usize = 0;
        let mut found = false;
        while k < groups.len()
            invariant
                k <= groups.len(),
                !found ==> forall|m: int| 0 <= m < k ==> (#[trigger] groups@[m]).0@ != target@,
                found ==> has_index_group(groups@, target@),
            decreases groups.len() - k,
        {
            if str_eq(groups[k].0.as_str(), target) {
                found = true;
            }
            k = k + 1;
        }
        if !found {
            let ghost before = groups@;
            let members = indices_to(lockfile, indices, target);
            groups.push((owned(target), members));
            assert forall|a: int, b: int| 0 <= a < b < groups@.len() implies (#[trigger] groups@[a]).0@ != (#[trigger] groups@[b]).0@ by {
                if b < before.len() {
                    assert(groups@[a] == before[a] && groups@[b] == before[b]);
                } else {
                    assert(groups@[a] == before[a]);
                }
            }
            assert forall|k: int| 0 <= k < groups@.len() implies (#[trigger] groups@[k]).1@ == indices_with_target(lockfile.entries@, indices@, groups@[k].0@) by {
                if k < before.len() {
                    assert(groups@[k] == before[k]);
                }
            }
            assert forall|j: int| 0 <= j < i + 1 implies has_index_group(groups@, lockfile.entries@[#[trigger] indices@[j] as int].target@) by {
                if j < i {
                    assert(has_index_group(before, lockfile.entries@[indices@[j] as int].target@));
                    let k0 = choose|k: int| 0 <= k < before.len() && (#[trigger] before[k]).0@ == lockfile.entries@[indices@[j] as int].target@;
                    assert(groups@[k0] == before[k0]);
                } else {
                    assert(groups@[before.len() as int].0@ == target@);
                }
            }
        }
        i = i + 1;
    }
    Ok(groups)
}

/// Give every entry with this target and symbol the hash `hash`; whether
/// any entry had them.
pub fn accept_hash(lockfile: &mut Lockfile, target: &str, symbol: &str, hash: &SemanticHash) -> (r: bool)
    ensures
        final(lockfile).entries@.len() == old(lockfile).entries@.len(),
        forall|k: int| 0 <= k < final(lockfile).entries@.len() ==> {
            let e = #[trigger] final(lockfile).entries@[k].view();
            let o = old(lockfile).entries@[k].view();
            if o.1 == target@ && o.2 == symbol@ { e == (o.0, o.1, o.2, hash.0@) } else { e == o }
        },
        r == exists|k: int| 0 <= k < old(lockfile).entries@.len() && #[trigger] old(lockfile).entries@[k].target@ == target@
            && old(lockfile).entries@[k].symbol@ == symbol@,
{
    let mut updated = false;
    let mut i: usize = 0;
    while i < lockfile.entries.len()
        invariant
            i <= lockfile.entries@.len(),
            lockfile.entries@.len() == old(lockfile).entries@.len(),
            forall|k: int| i <= k < lockfile.entries@.len() ==> #[trigger] lockfile.entries@[k] == old(lockfile).entries@[k],
            forall|k: int| 0 <= k < i ==> {
                let e = #[trigger] lockfile.entries@[k].view();
                let o = old(lockfile).entries@[k].view();
                if o.1 == target@ && o.2 == symbol@ { e == (o.0, o.1, o.2, hash.0@) } else { e == o }
            },
            updated == exists|k: int| 0 <= k < i && #[trigger] old(lockfile).entries@[k].target@ == target@
                && old(lockfile).entries@[k].symbol@ == symbol@,
        decreases lockfile.entries.len() - i,
    {
        if str_eq(lockfile.entries[i].target.as_str(), target) && str_eq(lockfile.entries[i].symbol.as_str(), symbol) {
            let e = &lockfile.entries[i];
            let fresh = LockEntry {
                hash: SemanticHash(hash.0.clone()),
                source: e.source.clone(),
                symbol: e.symbol.clone(),
                target: e.target.clone(),
            };
            lockfile.entries.set(i, fresh);
            updated = true;
        }
        i = i + 1;
    }
    updated
}

/// The target after renaming namespace `old` to `new`: a target written
/// `old:rest` becomes `new:rest`; others stay.
pub open spec fn renamed_target(t: Seq<char>, old: Seq<char>, new: Seq<char>) -> Seq<char> {
    let p = old + seq![':'];
    if p.len() <= t.len() && t.subrange(0, p.len() as int) == p {
        new + seq![':'] + t.subrange(p.len() as int, t.len() as int)
    } else {
        t
    }
}

/// Rename namespace `old` to `new` in the targets of lockfile entries.
pub fn rename_in_lock_entries(entries: Vec<LockEntry>, old: &str, new: &str) -> (r: Vec<LockEntry>)
    ensures
        r@.len() == entries@.len(),
        forall|k: int| 0 <= k < r@.len() ==> {
            let e = #[trigger] r@[k].view();
            let o = entries@[k].view();
            e == (o.0, renamed_target(o.1, old@, new@), o.2, o.3)
        },
{
    proof {
        reveal_strlit(":");
        assert(":"@ =~= seq![':']);
    }
    let old_prefix = concat2(old, ":");
    let new_prefix = concat2(new, ":");
    let m = old_prefix.unicode_len();
    let mut out: Vec<LockEntry> = Vec::new();
    let mut i: usize = 0;
    while i < entries.len()
        invariant
            old_prefix@ == old@ + seq![':'],
            new_prefix@ == new@ + seq![':'],
            m == old_prefix@.len(),
            i <= entries.len(),
            out@.len() == i,
            forall|k: int| 0 <= k < i ==> {
                let e = #[trigger] out@[k].view();
                let o = entries@[k].view();
                e == (o.0, renamed_target(o.1, old@, new@), o.2, o.3)
            },
        decreases entries.len() - i,
    {
        let e = &entries[i];
        let t = e.target.as_str();
        let target = if starts_with_str(t, old_prefix.as_str()) {
            let n = t.unicode_len();
            concat2(new_prefix.as_str(), t.substring_char(m, n))
        } else {
            owned(t)
        };
        out.push(LockEntry {
            hash: SemanticHash(e.hash.0.clone()),
            source: e.source.clone(),
            symbol: e.symbol.clone(),
            target,
        });
        i = i + 1;
    }
    out
}

/// Whether a target is written in namespace `name` (`name:rest`).
pub open spec fn in_namespace(t: Seq<char>, name: Seq<char>) -> bool {
    let p = name + seq![':'];
    p.len() <= t.len() && t.subrange(0, p.len() as int) == p
}

/// How many of `v` target namespace `name`.
pub open spec fn count_in_namespace(v: Seq<LockEntry>, name: Seq<char>) -> nat
    decreases v.len(),
{
    if v.len() == 0 {
        0
    } else {
        count_in_namespace(v.drop_last(), name) + if in_namespace(v.last().target@, name) { 1nat } else { 0nat }
    }
}

/// The number of entries whose target is in namespace `name`.
pub fn namespace_reference_count(entries: &Vec<LockEntry>, name: &str) -> (r: usize)
    ensures
        r == count_in_namespace(entries@, name@),
{
    proof {
        reveal_strlit(":");
        assert(":"@ =~= seq![':']);
    }
    let prefix = concat2(name, ":");
    let mut count: usize = 0;
    let mut i: usize = 0;
    while i < entries.len()
        invariant
            prefix@ == name@ + seq![':'],
            i <= entries.len(),
            count == count_in_namespace(entries@.take(i as int), name@),
            count <= i,
        decreases entries.len() - i,
    {
        assert(entries@.take(i + 1).drop_last() =~= entries@.take(i as int));
        if starts_with_str(entries[i].target.as_str(), prefix.as_str()) {
            count = count + 1;
        }
        i = i + 1;
    }
    assert(entries@.take(i as int) =~= entries@);
    count
}

/// The entries whose target is not in namespace `name`, in order.
pub open spec fn outside_namespace(v: Seq<LockEntry>, name: Seq<char>) -> Seq<EntryView>
    decreases v.len(),
{
    if v.len() == 0 {
        Seq::empty()
    } else if in_namespace(v.last().target@, name) {
        outside_namespace(v.drop_last(), name)
    } else {
        outside_namespace(v.drop_last(), name).push(v.last().view())
    }
}

/// Drop the entries whose target is in namespace `name`.
pub fn drop_namespace_entries(entries: &Vec<LockEntry>, name: &str) -> (r: Vec<LockEntry>)
    ensures
        entry_views(r@) == outside_namespace(entries@, name@),
{
    proof {
        reveal_strlit(":");
        assert(":"@ =~= seq![':']);
    }
    let prefix = concat2(name, ":");
    let mut out: Vec<LockEntry> = Vec::new();
    let mut i: usize = 0;
    while i < entries.len()
        invariant
            prefix@ == name@ + seq![':'],
            i <= entries.len(),
            entry_views(out@) == outside_namespace(entries@.take(i as int), name@),
        decreases entries.len() - i,
    {
        assert(entries@.take(i + 1).drop_last() =~= entries@.take(i as int));
        if !starts_with_str(entries[i].target.as_str(), prefix.as_str()) {
            let ghost before = out@;
            out.push(entries[i].duplicate());
            assert(entry_views(out@) =~= entry_views(before).push(entries@[i as int].view()));
        }
        i = i + 1;
    }
    assert(entries@.take(i as int) =~= entries@);
    out
}

/// A Markdown text with every link into namespace `old` (`](old:`) moved
/// to namespace `new`.
pub fn rename_namespace_links(content: &str, old: &str, new: &str) -> (r: String)
    ensures
        r@ == replaced(content@, seq![']', '('] + old@ + seq![':'], seq![']', '('] + new@ + seq![':']),
{
    proof {
        reveal_strlit("](");
        reveal_strlit(":");
        assert("]("@ =~= seq![']', '(']);
        assert(":"@ =~= seq![':']);
    }
    let from = concat3("](", old, ":");
    let to = concat3("](", new, ":");
    replace_all(content, from.as_str(), to.as_str())
}

/// The directories a watcher looks at for one entry: those of its Markdown
/// file, of its target as written, and of the target's resolved path when
/// its namespace is known.
pub open spec fn entry_dirs(config: &Config, e: LockEntry) -> Seq<Seq<char>> {
    seq![dir_of(e.source@), dir_of(e.target@)] + if unknown_namespace(config, e.target@) {
        Seq::empty()
    } else {
        seq![dir_of(resolved_target(config, e.target@))]
    }
}

/// Add `d` to `dirs` unless it is there already.
fn add_dir(dirs: &mut Vec<String>, d: String)
    ensures
        views(final(dirs)@).to_set() == views(old(dirs)@).to_set().insert(d@),
        views(old(dirs)@).no_duplicates() ==> views(final(dirs)@).no_duplicates(),
{
    let mut i: usize = 0;
    while i < dirs.len()
        invariant
            i <= dirs.len(),
            forall|k: int| 0 <= k < i ==> (#[trigger] dirs@[k])@ != d@,
        decreases dirs.len() - i,
    {
        if dirs[i] == d {
            proof {
                assert(views(dirs@)[i as int] == d@);
                assert(views(dirs@).to_set() =~= views(dirs@).to_set().insert(d@));
            }
            return;
        }
        i = i + 1;
    }
    let ghost before = views(dirs@);
    dirs.push(d);
    proof {
        assert(views(dirs@) =~= before.push(d@));
        assert(!before.contains(d@)) by {
            if before.contains(d@) {
                let k = choose|k: int| 0 <= k < before.len() && before[k] == d@;
                assert(dirs@[k]@ == d@);
            }
        }
        assert(views(dirs@).to_set() =~= before.to_set().insert(d@)) by {
            assert forall|x: Seq<char>| views(dirs@).to_set().contains(x) == before.to_set().insert(d@).contains(x) by {
                assert(views(dirs@)[before.len() as int] == d@);
                if views(dirs@).contains(x) && x != d@ {
                    let k = choose|k: int| 0 <= k < views(dirs@).len() && views(dirs@)[k] == x;
                    assert(before[k] == x);
                }
                if before.contains(x) {
                    let k = choose|k: int| 0 <= k < before.len() && before[k] == x;
                    assert(views(dirs@)[k] == x);
                }
            }
        }
    }
}

/// The directories to watch for a lockfile: every directory of
/// `entry_dirs`, each once.
pub fn collect_watch_dirs(lockfile: &Lockfile, config: &Config) -> (r: Vec<String>)
    requires
        config.wf(),
    ensures
        views(r@).no_duplicates(),
        forall|d: Seq<char>| views(r@).to_set().contains(d) <==> exists|k: int| 0 <= k < lockfile.entries@.len()
            && #[trigger] entry_dirs(config, lockfile.entries@[k]).contains(d),
{
    let mut dirs: Vec<String> = Vec::new();
    let mut i: usize = 0;
    while i < lockfile.entries.len()
        invariant
            config.wf(),
            i <= lockfile.entries@.len(),
            views(dirs@).no_duplicates(),
            forall|d: Seq<char>| views(dirs@).to_set().contains(d) <==> exists|k: int| 0 <= k < i
                && #[trigger] entry_dirs(config, lockfile.entries@[k]).contains(d),
        decreases lockfile.entries.len() - i,
    {
        let e = &lockfile.entries[i];
        let ghost before = views(dirs@).to_set();
        let ghost ed = entry_dirs(config, *e);
        add_dir(&mut dirs, parent_dir(e.source.as_str()));
        add_dir(&mut dirs, parent_dir(e.target.as_str()));
        let resolved = config.resolve_target(e.target.as_str());
        let ghost mid = views(dirs@).to_set();
        match resolved {
            Ok(disk) => {
                add_dir(&mut dirs, parent_dir(disk.as_str()));
            },
            Err(_) => {},
        }
        proof {
            let now = views(dirs@).to_set();
            assert(now =~= before.union(ed.to_set())) by {
                assert forall|d: Seq<char>| now.contains(d) == (before.contains(d) || ed.contains(d)) by {
                    assert(ed[0] == dir_of(e.source@));
                    assert(ed[1] == dir_of(e.target@));
                    if ed.len() > 2 {
                        assert(ed[2] == dir_of(resolved_target(config, e.target@)));
                    }
                    if ed.contains(d) {
                        let j = choose|j: int| 0 <= j < ed.len() && ed[j] == d;
                    }
                }
            }
            assert forall|d: Seq<char>| now.contains(d) <==> exists|k: int| 0 <= k < i + 1
                && #[trigger] entry_dirs(config, lockfile.entries@[k]).contains(d) by {
                if now.contains(d) && !before.contains(d) {
                    assert(entry_dirs(config, lockfile.entries@[i as int]).contains(d));
                }
                if exists|k: int| 0 <= k < i + 1 && #[trigger] entry_dirs(config, lockfile.entries@[k]).contains(d) {
                    let k = choose|k: int| 0 <= k < i + 1 && #[trigger] entry_dirs(config, lockfile.entries@[k]).contains(d);
                    if k < i {
                        assert(before.contains(d));
                    }
                }
            }
        }
        i = i + 1;
    }
    dirs
}

/// The indices of the entries written in the Markdown file `source`, in order.
pub open spec fn indices_from(entries: Seq<LockEntry>, source: Seq<char>) -> Seq<usize>
    decreases entries.len(),
{
    if entries.len() == 0 {
        Seq::empty()
    } else if entries.last().source@ == source {
        indices_from(entries.drop_last(), source).push((entries.len() - 1) as usize)
    } else {
        indices_from(entries.drop_last(), source)
    }
}

/// The indices of the lockfile entries that come from the Markdown file `source`.
pub fn entry_indices_from(lockfile: &Lockfile, source: &str) -> (r: Vec<usize>)
    ensures
        r@ == indices_from(lockfile.entries@, source@),
        forall|k: int| 0 <= k < r@.len() ==> r@[k] < lockfile.entries@.len(),
{
    let mut out: Vec<usize> = Vec::new();
    let mut i: usize = 0;
    while i < lockfile.entries.len()
        invariant
            i <= lockfile.entries@.len(),
            out@ == indices_from(lockfile.entries@.take(i as int), source@),
            forall|k: int| 0 <= k < out@.len() ==> out@[k] < i,
        decreases lockfile.entries.len() - i,
    {
        assert(lockfile.entries@.take(i + 1).drop_last() =~= lockfile.entries@.take(i as int));
        if str_eq(lockfile.entries[i].source.as_str(), source) {
            out.push(i);
        }
        i = i + 1;
    }
    assert(lockfile.entries@.take(i as int) =~= lockfile.entries@);
    out
}

/// The fixes that move every reference using `old` to `new`, in order.
pub open spec fn fixes_for(refs: Seq<Reference>, old: Seq<char>, new: Seq<char>) -> Seq<(Seq<char>, u32, Seq<char>, Seq<char>)>
    decreases refs.len(),
{
    if refs.len() == 0 {
        Seq::empty()
    } else if query_text(refs.last().symbol) == old {
        fixes_for(refs.drop_last(), old, new).push((refs.last().source@, refs.last().source_line, new, old))
    } else {
        fixes_for(refs.drop_last(), old, new)
    }
}

pub open spec fn fix_view(f: FixAction) -> (Seq<char>, u32, Seq<char>, Seq<char>) {
    (f.file@, f.line, f.new_symbol@, f.old_symbol@)
}

/// A fix for each reference whose symbol text is `old`, rewriting it to `new`.
pub fn fixes_for_symbol(refs: &Vec<Reference>, old: &str, new: &str) -> (r: Vec<FixAction>)
    ensures
        r@.map_values(|f: FixAction| fix_view(f)) == fixes_for(refs@, old@, new@),
{
    let mut out: Vec<FixAction> = Vec::new();
    let mut i: usize = 0;
    while i < refs.len()
        invariant
            i <= refs.len(),
            out@.map_values(|f: FixAction| fix_view(f)) == fixes_for(refs@.take(i as int), old@, new@),
        decreases refs.len() - i,
    {
        assert(refs@.take(i + 1).drop_last() =~= refs@.take(i as int));
        let name = refs[i].symbol.display_name();
        if str_eq(name.as_str(), old) {
            let ghost before = out@;
            out.push(FixAction { file: refs[i].source.clone(), line: refs[i].source_line, new_symbol: owned(new), old_symbol: owned(old) });
            assert(out@.map_values(|f: FixAction| fix_view(f)) =~= before.map_values(|f: FixAction| fix_view(f)).push(fix_view(out@.last())));
        }
        i = i + 1;
    }
    assert(refs@.take(i as int) =~= refs@);
    out
}

} // verus!
