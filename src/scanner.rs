//! Extraction of code references from Markdown text and normalization of
//! their target paths.

use vstd::prelude::*;
use vstd::string::*;
use crate::commands::{lines_of, split_lines};
use crate::config::{join_path, path_join};
use crate::freshness::canonical_query;
use crate::text::{chars_of, find_char, index_of, lemma_index_of, owned, split_first, split_once, starts_with_str, str_eq};
use crate::types::{query_view, reference_view, Reference, SymbolQuery};

verus! {

/// The `/`-separated segments of a path, empty ones included.
pub open spec fn path_segments(s: Seq<char>) -> Seq<Seq<char>>
    decreases s.len(),
{
    if s.len() == 0 {
        seq![Seq::empty()]
    } else {
        let t = path_segments(s.drop_last());
        if s.last() == '/' {
            t.push(Seq::empty())
        } else {
            t.update(t.len() - 1, t.last().push(s.last()))
        }
    }
}

/// The component `..`.
pub open spec fn parent_component() -> Seq<char> {
    seq!['.', '.']
}

/// One step of normalization: drop empty and `.` components, let `..` pop
/// a component that is not itself `..`, keep everything else.
pub open spec fn push_component(stack: Seq<Seq<char>>, part: Seq<char>) -> Seq<Seq<char>> {
    if part.len() == 0 || part == seq!['.'] {
        stack
    } else if part == parent_component() {
        if stack.len() > 0 && stack.last() != parent_component() {
            stack.drop_last()
        } else {
            stack.push(part)
        }
    } else {
        stack.push(part)
    }
}

/// Normalization of a whole list of components, left to right.
pub open spec fn fold_components(parts: Seq<Seq<char>>) -> Seq<Seq<char>>
    decreases parts.len(),
{
    if parts.len() == 0 {
        Seq::empty()
    } else {
        push_component(fold_components(parts.drop_last()), parts.last())
    }
}

/// The parts joined with `sep` between neighbours.
pub open spec fn join_with(parts: Seq<Seq<char>>, sep: Seq<char>) -> Seq<char>
    decreases parts.len(),
{
    if parts.len() == 0 {
        Seq::empty()
    } else if parts.len() == 1 {
        parts[0]
    } else {
        join_with(parts.drop_last(), sep) + sep + parts.last()
    }
}

/// A relative path with `.` and `..` collapsed logically.
pub open spec fn normalized(p: Seq<char>) -> Seq<char> {
    join_with(fold_components(path_segments(p)), seq!['/'])
}

/// The character views of a list of strings.
pub open spec fn views(v: Seq<String>) -> Seq<Seq<char>> {
    v.map_values(|s: String| s@)
}

proof fn lemma_segments_nonempty(s: Seq<char>)
    ensures
        path_segments(s).len() >= 1,
    decreases s.len(),
{
    if s.len() > 0 {
        lemma_segments_nonempty(s.drop_last());
    }
}

/// A normalized component list: no empty or `.` component, and `..` only
/// in a leading run.
pub open spec fn normal_stack(st: Seq<Seq<char>>) -> bool {
    &&& forall|i: int| 0 <= i < st.len() ==> (#[trigger] st[i]).len() > 0 && st[i] != seq!['.']
    &&& forall|i: int, j: int| 0 <= i < j < st.len() && #[trigger] st[j] == parent_component() ==> #[trigger] st[i] == parent_component()
}

proof fn lemma_push_normal(st: Seq<Seq<char>>, part: Seq<char>)
    requires
        normal_stack(st),
    ensures
        normal_stack(push_component(st, part)),
{
    let r = push_component(st, part);
    if part.len() == 0 || part == seq!['.'] {
    } else if part == parent_component() && st.len() > 0 && st.last() != parent_component() {
        assert forall|i: int, j: int| 0 <= i < j < r.len() && #[trigger] r[j] == parent_component() implies #[trigger] r[i] == parent_component() by {
            assert(r[i] == st[i] && r[j] == st[j]);
        }
    } else {
        assert(r == st.push(part));
        assert forall|i: int, j: int| 0 <= i < j < r.len() && #[trigger] r[j] == parent_component() implies #[trigger] r[i] == parent_component() by {
            if j == st.len() {
                assert(part == parent_component());
                if st.len() > 0 {
                    assert(st.last() == parent_component());
                    if i < st.len() - 1 {
                        assert(st[st.len() - 1] == parent_component());
                    }
                }
            } else {
                assert(r[i] == st[i] && r[j] == st[j]);
            }
        }
        assert(parent_component().len() > 0);
    }
}

proof fn lemma_fold_normal(parts: Seq<Seq<char>>)
    ensures
        normal_stack(fold_components(parts)),
    decreases parts.len(),
{
    if parts.len() > 0 {
        lemma_fold_normal(parts.drop_last());
        lemma_push_normal(fold_components(parts.drop_last()), parts.last());
    }
}

/// Normalization works on the path text alone: its components have no
/// empty or `.` one, and `..` only as a leading run.
pub proof fn lemma_normalized_components(p: Seq<char>)
    ensures
        normal_stack(fold_components(path_segments(p))),
        normalized(p) == join_with(fold_components(path_segments(p)), seq!['/']),
{
    lemma_fold_normal(path_segments(p));
}

/// Handle one path component: `.` and empty are dropped, `..` pops a
/// component when there is one to pop, anything else is pushed.
pub fn push_normalized_component(components: &mut Vec<String>, component: &str)
    ensures
        views(final(components)@) == push_component(views(old(components)@), component@),
{
    proof {
        reveal_strlit(".");
        reveal_strlit("..");
        assert("."@ =~= seq!['.']);
        assert(".."@ =~= parent_component());
    }
    if component.unicode_len() == 0 || str_eq(component, ".") {
        return;
    }
    if str_eq(component, "..") {
        let n = components.len();
        let can_pop = n > 0 && !str_eq(components[n - 1].as_str(), "..");
        proof {
            if n > 0 {
                assert(views(old(components)@).last() == components@[n - 1]@);
            }
        }
        if can_pop {
            components.pop();
            assert(views(components@) =~= views(old(components)@).drop_last());
            return;
        }
    }
    components.push(component.to_owned());
    assert(views(components@) =~= views(old(components)@).push(component@));
}

/// Join strings with a separator.
pub fn join_strings(parts: &Vec<String>, sep: &str) -> (r: String)
    ensures
        r@ == join_with(views(parts@), sep@),
{
    let mut r = String::new();
    let mut i: usize = 0;
    while i < parts.len()
        invariant
            i <= parts.len(),
            r@ == join_with(views(parts@.subrange(0, i as int)), sep@),
        decreases parts.len() - i,
    {
        let ghost before = views(parts@.subrange(0, i as int));
        assert(views(parts@.subrange(0, i + 1)).drop_last() =~= before);
        if i > 0 {
            r.append(sep);
        }
        r.append(parts[i].as_str());
        i = i + 1;
    }
    assert(parts@.subrange(0, i as int) =~= parts@);
    r
}

/// Collapse `.` and `..` in a relative path without touching the filesystem;
/// leading `..` stay when there is nothing left to pop.
pub fn normalize_path(path: &str) -> (r: String)
    ensures
        r@ == normalized(path@),
{
    let cs = chars_of(path);
    let n = cs.len();
    let mut stack: Vec<String> = Vec::new();
    let mut seg_start: usize = 0;
    let mut i: usize = 0;
    proof {
        assert(path@.subrange(0, 0) =~= Seq::<char>::empty());
    }
    while i < n
        invariant
            cs@ == path@,
            n == path@.len(),
            seg_start <= i <= n,
            path_segments(path@.subrange(0, i as int)).last() == path@.subrange(seg_start as int, i as int),
            views(stack@) == fold_components(path_segments(path@.subrange(0, i as int)).drop_last()),
        decreases n - i,
    {
        let ghost pre = path@.subrange(0, i as int);
        let ghost next = path@.subrange(0, i + 1);
        proof {
            assert(next.drop_last() =~= pre);
            lemma_segments_nonempty(pre);
        }
        if cs[i] == '/' {
            let seg = path.substring_char(seg_start, i);
            push_normalized_component(&mut stack, seg);
            proof {
                let ps = path_segments(pre);
                assert(path_segments(next) == ps.push(Seq::empty()));
                assert(path_segments(next).drop_last() =~= ps);
                assert(ps =~= ps.drop_last().push(ps.last()));
            }
            seg_start = i + 1;
        } else {
            proof {
                let ps = path_segments(pre);
                assert(path_segments(next).drop_last() =~= ps.drop_last());
                assert(path@.subrange(seg_start as int, i + 1) =~= path@.subrange(seg_start as int, i as int).push(cs@[i as int]));
            }
        }
        i = i + 1;
    }
    let last = path.substring_char(seg_start, n);
    push_normalized_component(&mut stack, last);
    proof {
        assert(path@.subrange(0, n as int) =~= path@);
        lemma_segments_nonempty(path@);
        let ps = path_segments(path@);
        assert(ps =~= ps.drop_last().push(ps.last()));
        reveal_strlit("/");
        assert("/"@ =~= seq!['/']);
    }
    join_strings(&stack, "/")
}

/// Position of the last `c` in `s`, or -1.
pub open spec fn last_index_of(s: Seq<char>, c: char) -> int
    decreases s.len(),
{
    if s.len() == 0 {
        -1
    } else if s.last() == c {
        s.len() - 1
    } else {
        last_index_of(s.drop_last(), c)
    }
}

/// The directory part of a path: everything before its last `/`, or
/// nothing when it has none.
pub open spec fn dir_of(p: Seq<char>) -> Seq<char> {
    let i = last_index_of(p, '/');
    if i < 0 {
        Seq::empty()
    } else {
        p.subrange(0, i)
    }
}

proof fn lemma_last_index_bound(s: Seq<char>, c: char)
    ensures
        -1 <= last_index_of(s, c) < s.len(),
    decreases s.len(),
{
    if s.len() > 0 {
        lemma_last_index_bound(s.drop_last(), c);
    }
}

/// The directory part of a path.
pub fn parent_dir(p: &str) -> (r: String)
    ensures
        r@ == dir_of(p@),
{
    let cs = chars_of(p);
    let mut i: usize = cs.len();
    assert(p@.subrange(0, i as int) =~= p@);
    while i > 0 && cs[i - 1] != '/'
        invariant
            cs@ == p@,
            i <= cs.len(),
            last_index_of(p@, '/') == last_index_of(p@.subrange(0, i as int), '/'),
        decreases i,
    {
        assert(p@.subrange(0, i as int).drop_last() =~= p@.subrange(0, i - 1));
        i = i - 1;
    }
    proof {
        if i > 0 {
            assert(p@.subrange(0, i as int).last() == '/');
        }
        assert(p@.subrange(0, cs.len() as int) =~= p@);
    }
    if i == 0 {
        String::new()
    } else {
        p.substring_char(0, i - 1).to_owned()
    }
}

/// A copy of a list of strings.
pub fn copy_strings(v: &Vec<String>) -> (r: Vec<String>)
    ensures
        views(r@) == views(v@),
{
    let mut r: Vec<String> = Vec::new();
    let mut i: usize = 0;
    while i < v.len()
        invariant
            i <= v.len(),
            views(r@) == views(v@.subrange(0, i as int)),
        decreases v.len() - i,
    {
        let ghost old_r = r@;
        r.push(v[i].clone());
        assert(views(r@) =~= views(old_r).push(v@[i as int]@));
        assert(views(v@.subrange(0, i + 1)) =~= views(v@.subrange(0, i as int)).push(v@[i as int]@));
        i = i + 1;
    }
    assert(v@.subrange(0, i as int) =~= v@);
    r
}

/// The link pattern: `[text](target)` with an optional `#symbol`.
pub const LINK_PATTERN: &'static str = "\\[([^\\]]+)\\]\\(([^)#]+)(?:#([^)]*))?\\)";

/// What the regex crate finds of `pattern` in `text`: nothing when the
/// pattern does not compile, else each match's groups in order, group 0
/// being the whole match.
pub uninterp spec fn regex_captures(pattern: Seq<char>, text: Seq<char>) -> Option<Seq<Seq<Option<Seq<char>>>>>;

pub open spec fn group_view(g: Option<String>) -> Option<Seq<char>> {
    match g {
        Some(s) => Some(s@),
        None => None,
    }
}

pub open spec fn match_view(m: Vec<Option<String>>) -> Seq<Option<Seq<char>>> {
    m@.map_values(|g: Option<String>| group_view(g))
}

pub open spec fn captures_view(r: Option<Vec<Vec<Option<String>>>>) -> Option<Seq<Seq<Option<Seq<char>>>>> {
    match r {
        Some(v) => Some(v@.map_values(|m: Vec<Option<String>>| match_view(m))),
        None => None,
    }
}

/// Relies on `Regex::new` and `Regex::captures_iter`: the successive
/// non-overlapping matches of the pattern, each with its capture groups;
/// a function of pattern and text alone.
#[verifier::external_body]
fn captures_all(pattern: &str, text: &str) -> (r: Option<Vec<Vec<Option<String>>>>)
    ensures
        captures_view(r) == regex_captures(pattern@, text@),
{
    let re = regex::Regex::new(pattern).ok()?;
    Some(re.captures_iter(text).map(|c| c.iter().map(|m| m.map(|m| m.as_str().to_string())).collect()).collect())
}

/// Parse a symbol fragment: split at its first `.` into a scoped query,
/// bare otherwise.
pub fn parse_symbol_fragment_as_query(raw: &str) -> (r: SymbolQuery)
    ensures
        split_first(raw@, '.') matches Some((p, c)) ==> query_view(r) == (1int, p, c),
        split_first(raw@, '.') is None ==> query_view(r) == (0int, raw@, Seq::<char>::empty()),
        raw@.len() > 0 ==> canonical_query(r),
{
    proof {
        lemma_index_of(raw@, '.');
        let k = index_of(raw@, '.');
        if k >= 0 {
            assert forall|j: int| 0 <= j < k implies raw@.subrange(0, k)[j] != '.' by {}
            assert(!raw@.subrange(0, k).contains('.'));
        }
    }
    match split_once(raw, '.') {
        Some((parent, child)) => SymbolQuery::Scoped { child, parent },
        None => SymbolQuery::Bare(owned(raw)),
    }
}

/// Links to web pages, and links without a target, are not code references.
pub open spec fn is_external(t: Seq<char>) -> bool {
    t.len() == 0 || (t.len() >= 7 && t.subrange(0, 7) == "http://"@) || (t.len() >= 8 && t.subrange(0, 8) == "https://"@)
}

/// The stored target of a link written in the Markdown file `source`:
/// namespaced targets verbatim, others relative to the file's directory,
/// normalized.
pub open spec fn link_target(t: Seq<char>, source: Seq<char>) -> Seq<char> {
    if t.contains(':') {
        t
    } else {
        normalized(path_join(dir_of(source), t))
    }
}

/// The query of a fragment: none or empty is the whole file.
pub open spec fn fragment_query(f: Option<Seq<char>>) -> (int, Seq<char>, Seq<char>) {
    match f {
        None => (2, Seq::empty(), Seq::empty()),
        Some(x) => if x.len() == 0 {
            (2, Seq::empty(), Seq::empty())
        } else {
            match split_first(x, '.') {
                Some((p, c)) => (1, p, c),
                None => (0, x, Seq::empty()),
            }
        },
    }
}

/// The reference a link makes, if any.
pub fn parse_markdown_link_capture(target: &str, fragment: Option<&str>, source: &str, line_number: u32) -> (r: Option<Reference>)
    ensures
        is_external(target@) ==> r is None,
        !is_external(target@) ==> (r matches Some(rf) && reference_view(rf) == (source@, line_number,
            fragment_query(match fragment { Some(f) => Some(f@), None => None }), link_target(target@, source@))),
{
    proof {
        reveal_strlit("http://");
        reveal_strlit("https://");
    }
    if target.unicode_len() == 0 || starts_with_str(target, "http://") || starts_with_str(target, "https://") {
        return None;
    }
    let symbol = match fragment {
        None => SymbolQuery::WholeFile,
        Some(f) => if f.unicode_len() == 0 {
            SymbolQuery::WholeFile
        } else {
            parse_symbol_fragment_as_query(f)
        },
    };
    let stored = match find_char(target, ':') {
        Some(_) => {
            proof {
                lemma_index_of(target@, ':');
            }
            owned(target)
        },
        None => {
            proof {
                lemma_index_of(target@, ':');
            }
            let dir = parent_dir(source);
            let joined = join_path(dir.as_str(), target);
            normalize_path(joined.as_str())
        },
    };
    Some(Reference { source: owned(source), source_line: line_number, symbol, target: stored })
}

/// The references that a list of regex matches makes.
pub open spec fn refs_of_matches(ms: Seq<Seq<Option<Seq<char>>>>, source: Seq<char>, line: u32) -> Seq<(Seq<char>, u32, (int, Seq<char>, Seq<char>), Seq<char>)>
    decreases ms.len(),
{
    if ms.len() == 0 {
        Seq::empty()
    } else {
        let rest = refs_of_matches(ms.drop_last(), source, line);
        let m = ms.last();
        if m.len() >= 3 && m[2] is Some && !is_external(m[2]->0) {
            rest.push((source, line, fragment_query(if m.len() >= 4 { m[3] } else { None }), link_target(m[2]->0, source)))
        } else {
            rest
        }
    }
}

/// The references of a list, as plain values.
pub open spec fn reference_views(v: Seq<Reference>) -> Seq<(Seq<char>, u32, (int, Seq<char>, Seq<char>), Seq<char>)> {
    v.map_values(|r: Reference| reference_view(r))
}

/// Append the references that one Markdown line makes.
pub fn extract_references_from_markdown_line(line: &str, line_number: u32, source: &str, refs: &mut Vec<Reference>)
    ensures
        regex_captures(LINK_PATTERN@, line@) matches Some(ms) ==> reference_views(final(refs)@) == reference_views(old(refs)@) + refs_of_matches(ms, source@, line_number),
        regex_captures(LINK_PATTERN@, line@) is None ==> final(refs)@ == old(refs)@,
{
    let caps = match captures_all(LINK_PATTERN, line) {
        None => return,
        Some(c) => c,
    };
    let ghost ms = captures_view(Some(caps))->0;
    let ghost start = reference_views(refs@);
    let mut i: usize = 0;
    while i < caps.len()
        invariant
            ms == caps@.map_values(|m: Vec<Option<String>>| match_view(m)),
            i <= caps.len(),
            reference_views(refs@) == start + refs_of_matches(ms.take(i as int), source@, line_number),
        decreases caps.len() - i,
    {
        let m = &caps[i];
        assert(ms.take(i + 1).drop_last() =~= ms.take(i as int));
        assert(ms[i as int] == match_view(*m));
        let ghost before = refs@;
        if m.len() >= 3 {
            match &m[2] {
                None => {},
                Some(target) => {
                    let fragment: Option<&str> = if m.len() >= 4 {
                        match &m[3] {
                            Some(f) => Some(f.as_str()),
                            None => None,
                        }
                    } else {
                        None
                    };
                    match parse_markdown_link_capture(target.as_str(), fragment, source, line_number) {
                        None => {},
                        Some(rf) => {
                            refs.push(rf);
                            assert(reference_views(refs@) =~= reference_views(before).push(reference_view(rf)));
                        },
                    }
                },
            }
        }
        i = i + 1;
    }
    assert(ms.take(i as int) =~= ms);
}

/// The one-based number of the line at index `i`, at most `u32::MAX`.
pub open spec fn line_number_of(i: int) -> u32 {
    if i + 1 > u32::MAX {
        u32::MAX
    } else {
        (i + 1) as u32
    }
}

/// The references of a document's lines, in order.
pub open spec fn content_refs(lines: Seq<Seq<char>>, source: Seq<char>) -> Seq<(Seq<char>, u32, (int, Seq<char>, Seq<char>), Seq<char>)>
    decreases lines.len(),
{
    if lines.len() == 0 {
        Seq::empty()
    } else {
        content_refs(lines.drop_last(), source) + match regex_captures(LINK_PATTERN@, lines.last()) {
            Some(ms) => refs_of_matches(ms, source, line_number_of(lines.len() - 1)),
            None => Seq::empty(),
        }
    }
}

/// The references of a Markdown document, line by line, numbered from one.
pub fn extract_references_from_markdown_content(content: &str, source: &str) -> (r: Vec<Reference>)
    ensures
        reference_views(r@) == content_refs(lines_of(content@), source@),
{
    let lines = split_lines(content);
    let ghost lv = views(lines@);
    let mut refs: Vec<Reference> = Vec::new();
    let mut i: usize = 0;
    while i < lines.len()
        invariant
            lv == views(lines@),
            lv == lines_of(content@),
            i <= lines.len(),
            reference_views(refs@) == content_refs(lv.take(i as int), source@),
        decreases lines.len() - i,
    {
        let number: u32 = if i >= u32::MAX as usize { u32::MAX } else { (i + 1) as u32 };
        let ghost before = reference_views(refs@);
        extract_references_from_markdown_line(lines[i].as_str(), number, source, &mut refs);
        proof {
            assert(lv.take(i + 1).drop_last() =~= lv.take(i as int));
            assert(lv.take(i + 1).last() == lines@[i as int]@);
            if regex_captures(LINK_PATTERN@, lines@[i as int]@) is None {
                assert(before + Seq::<(Seq<char>, u32, (int, Seq<char>, Seq<char>), Seq<char>)>::empty() =~= before);
            }
        }
        i = i + 1;
    }
    assert(lv.take(i as int) =~= lv);
    refs
}

/// The references among `v` whose target is `t`, in order.
pub open spec fn with_target(v: Seq<Reference>, t: Seq<char>) -> Seq<(Seq<char>, u32, (int, Seq<char>, Seq<char>), Seq<char>)>
    decreases v.len(),
{
    if v.len() == 0 {
        Seq::empty()
    } else if v.last().target@ == t {
        with_target(v.drop_last(), t).push(reference_view(v.last()))
    } else {
        with_target(v.drop_last(), t)
    }
}

/// The references to `t`, copied in order.
fn references_to(refs: &Vec<Reference>, t: &str) -> (r: Vec<Reference>)
    ensures
        reference_views(r@) == with_target(refs@, t@),
{
    let mut out: Vec<Reference> = Vec::new();
    let mut i: usize = 0;
    while i < refs.len()
        invariant
            i <= refs.len(),
            reference_views(out@) == with_target(refs@.take(i as int), t@),
        decreases refs.len() - i,
    {
        assert(refs@.take(i + 1).drop_last() =~= refs@.take(i as int));
        if str_eq(refs[i].target.as_str(), t) {
            let ghost before = out@;
            out.push(refs[i].duplicate());
            assert(reference_views(out@) =~= reference_views(before).push(reference_view(refs@[i as int])));
        }
        i = i + 1;
    }
    assert(refs@.take(i as int) =~= refs@);
    out
}

/// Some group has the key `t`.
pub open spec fn has_group(groups: Seq<(String, Vec<Reference>)>, t: Seq<char>) -> bool {
    exists|k: int| 0 <= k < groups.len() && (#[trigger] groups[k]).0@ == t
}

/// Group references by target so that each target file is parsed once:
/// one group per distinct target, in order of first appearance, each with
/// its references in order.
pub fn group_by_target(refs: &Vec<Reference>) -> (r: Vec<(String, Vec<Reference>)>)
    ensures
        forall|a: int, b: int| 0 <= a < b < r@.len() ==> (#[trigger] r@[a]).0@ != (#[trigger] r@[b]).0@,
        forall|k: int| 0 <= k < r@.len() ==> reference_views((#[trigger] r@[k]).1@) == with_target(refs@, r@[k].0@),
        forall|i: int| 0 <= i < refs@.len() ==> has_group(r@, (#[trigger] refs@[i]).target@),
{
    let mut groups: Vec<(String, Vec<Reference>)> = Vec::new();
    let mut i: usize = 0;
    while i < refs.len()
        invariant
            i <= refs.len(),
            forall|a: int, b: int| 0 <= a < b < groups@.len() ==> (#[trigger] groups@[a]).0@ != (#[trigger] groups@[b]).0@,
            forall|k: int| 0 <= k < groups@.len() ==> reference_views((#[trigger] groups@[k]).1@) == with_target(refs@, groups@[k].0@),
            forall|j: int| 0 <= j < i ==> has_group(groups@, (#[trigger] refs@[j]).target@),
        decreases refs.len() - i,
    {
        let t = refs[i].target.as_str();
        let mut k: usize = 0;
        let mut found = false;
        while k < groups.len()
            invariant
                k <= groups.len(),
                !found ==> forall|m: int| 0 <= m < k ==> (#[trigger] groups@[m]).0@ != t@,
                found ==> exists|m: int| 0 <= m < groups@.len() && (#[trigger] groups@[m]).0@ == t@,
            decreases groups.len() - k,
        {
            if str_eq(groups[k].0.as_str(), t) {
                found = true;
            }
            k = k + 1;
        }
        if found {
            assert forall|j: int| 0 <= j < i + 1 implies has_group(groups@, (#[trigger] refs@[j]).target@) by {
                if j == i {
                    let m = choose|m: int| 0 <= m < groups@.len() && (#[trigger] groups@[m]).0@ == t@;
                    assert(groups@[m].0@ == refs@[j].target@);
                }
            }
        }
        if !found {
            let ghost before = groups@;
            let members = references_to(refs, t);
            groups.push((owned(t), members));
            assert forall|a: int, b: int| 0 <= a < b < groups@.len() implies (#[trigger] groups@[a]).0@ != (#[trigger] groups@[b]).0@ by {
                if b < before.len() {
                    assert(groups@[a] == before[a] && groups@[b] == before[b]);
                } else {
                    assert(groups@[a] == before[a]);
                }
            }
            assert forall|j: int| 0 <= j < i + 1 implies has_group(groups@, (#[trigger] refs@[j]).target@) by {
                if j < i {
                    assert(has_group(before, refs@[j].target@));
                    let k0 = choose|k: int| 0 <= k < before.len() && (#[trigger] before[k]).0@ == refs@[j].target@;
                    assert(groups@[k0] == before[k0]);
                } else {
                    assert(groups@[before.len() as int].0@ == refs@[j].target@);
                }
            }
            assert forall|k: int| 0 <= k < groups@.len() implies reference_views((#[trigger] groups@[k]).1@) == with_target(refs@, groups@[k].0@) by {
                if k < before.len() {
                    assert(groups@[k] == before[k]);
                }
            }
        }
        i = i + 1;
    }
    groups
}

} // verus!
