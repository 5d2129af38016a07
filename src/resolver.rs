//! Declarations found in a parsed source, their lookup by query, and the
//! heading slugs that Markdown declarations are named by.

use vstd::prelude::*;
use vstd::string::*;
use crate::error::Error;
use crate::hasher::{byte_slice, text_between, trim_ascii_ws, trim_ws};
use vstd::utf8::is_char_boundary;
use crate::scanner::views;
use crate::syntax::{parsed, SyntaxView, children_of, lemma_walk_end, lemma_walk_start, lemma_walk_step, parse_syntax, sibling_chain, walking_children, Lang, SyntaxTree};
use crate::types::{ResolvedSymbol, SymbolQuery};
use crate::text::{chars_of, concat3, index_of, lemma_index_of, owned, split_first, str_eq};

verus! {

broadcast use vstd::utf8::encode_utf8_decode_utf8;

/// What `str::to_lowercase` makes of a text.
pub uninterp spec fn lowercase_of(s: Seq<char>) -> Seq<char>;

/// An ASCII character in lowercase.
pub open spec fn ascii_lower(c: char) -> char {
    if 'A' <= c <= 'Z' { ((c as u32) + 32) as char } else { c }
}

/// Relies on `str::to_lowercase`: the lowercase mapping of each character,
/// a function of the characters alone; on ASCII text it lowercases `A`-`Z`
/// and keeps everything else.
#[verifier::external_body]
fn to_lowercase(s: &str) -> (r: String)
    ensures
        r@ == lowercase_of(s@),
        vstd::utf8::is_ascii_chars(s@) ==> r@.len() == s@.len() && forall|i: int| 0 <= i < s@.len() ==> #[trigger] r@[i] == ascii_lower(s@[i]),
{
    s.to_lowercase()
}

/// Whether `char::is_alphanumeric` holds of a character.
pub uninterp spec fn alphanumeric_char(c: char) -> bool;

/// Relies on `char::is_alphanumeric`: Unicode Alphabetic or Numeric; the
/// ASCII letters and digits are, and `-`, space and `?` are not.
#[verifier::external_body]
fn is_alphanumeric(c: char) -> (r: bool)
    ensures
        r == alphanumeric_char(c),
        ('a' <= c <= 'z' || 'A' <= c <= 'Z' || '0' <= c <= '9') ==> r,
        (c == '-' || c == ' ' || c == '?') ==> !r,
{
    c.is_alphanumeric()
}

/// Slug text before trimming, and whether it ends in a hyphen run (or is
/// empty): alphanumerics are kept, every run of other characters becomes
/// one `-`, and a run at the start is dropped.
pub open spec fn slug_run(s: Seq<char>) -> (Seq<char>, bool)
    decreases s.len(),
{
    if s.len() == 0 {
        (Seq::empty(), true)
    } else {
        let (r, hyphen) = slug_run(s.drop_last());
        let c = s.last();
        if alphanumeric_char(c) {
            (r.push(c), false)
        } else if hyphen {
            (r, true)
        } else {
            (r.push('-'), true)
        }
    }
}

/// The slug of an already lowercased text: `slug_run` without a trailing `-`.
pub open spec fn slug_of(s: Seq<char>) -> Seq<char> {
    let r = slug_run(s).0;
    if r.len() > 0 && r.last() == '-' {
        r.drop_last()
    } else {
        r
    }
}

/// The shape of a partial slug: no `--`, no leading `-`, and the flag says
/// whether it is empty or ends in `-`.
proof fn lemma_slug_run_shape(s: Seq<char>)
    requires
        !alphanumeric_char('-'),
    ensures
        ({
            let (r, hyphen) = slug_run(s);
            &&& forall|i: int| 0 <= i < r.len() - 1 ==> !(#[trigger] r[i] == '-' && r[i + 1] == '-')
            &&& (r.len() > 0 ==> r[0] != '-')
            &&& hyphen == (r.len() == 0 || r.last() == '-')
        }),
    decreases s.len(),
{
    if s.len() > 0 {
        lemma_slug_run_shape(s.drop_last());
        let (r0, h0) = slug_run(s.drop_last());
        let c = s.last();
        if alphanumeric_char(c) {
            let r = r0.push(c);
            assert forall|i: int| 0 <= i < r.len() - 1 implies !(#[trigger] r[i] == '-' && r[i + 1] == '-') by {
                if i < r0.len() - 1 {
                    assert(r[i] == r0[i] && r[i + 1] == r0[i + 1]);
                }
            }
        } else if !h0 {
            let r = r0.push('-');
            assert forall|i: int| 0 <= i < r.len() - 1 implies !(#[trigger] r[i] == '-' && r[i + 1] == '-') by {
                if i < r0.len() - 1 {
                    assert(r[i] == r0[i] && r[i + 1] == r0[i + 1]);
                } else {
                    assert(r[i] == r0.last());
                }
            }
        }
    }
}

/// A slug has no `--` and no `-` at either end.
pub proof fn lemma_slug_shape(s: Seq<char>)
    requires
        !alphanumeric_char('-'),
    ensures
        forall|i: int| 0 <= i < slug_of(s).len() - 1 ==> !(#[trigger] slug_of(s)[i] == '-' && slug_of(s)[i + 1] == '-'),
        slug_of(s).len() > 0 ==> slug_of(s)[0] != '-' && slug_of(s).last() != '-',
{
    lemma_slug_run_shape(s);
    let (r, h) = slug_run(s);
    if r.len() > 0 && r.last() == '-' {
        let t = r.drop_last();
        assert forall|i: int| 0 <= i < t.len() - 1 implies !(#[trigger] t[i] == '-' && t[i + 1] == '-') by {
            assert(t[i] == r[i] && t[i + 1] == r[i + 1]);
        }
        if t.len() > 0 {
            assert(t[0] == r[0]);
            assert(t.last() == r[r.len() - 2]);
            assert(!(r[r.len() - 2] == '-' && r[r.len() - 1] == '-'));
        }
    }
}

/// Slug of a text that is already lowercase.
pub fn slugify_lowered(lowered: &str) -> (r: String)
    ensures
        r@ == slug_of(lowered@),
        forall|i: int| 0 <= i < r@.len() - 1 ==> !(#[trigger] r@[i] == '-' && r@[i + 1] == '-'),
        r@.len() > 0 ==> r@[0] != '-' && r@.last() != '-',
{
    // One call settles, for the proof below, that `-` is not alphanumeric.
    let _dash = is_alphanumeric('-');
    proof {
        lemma_slug_shape(lowered@);
    }
    let cs = chars_of(lowered);
    let mut out = String::new();
    let mut hyphen = true;
    let mut i: usize = 0;
    while i < cs.len()
        invariant
            cs@ == lowered@,
            i <= cs.len(),
            slug_run(lowered@.subrange(0, i as int)) == (out@, hyphen),
        decreases cs.len() - i,
    {
        assert(lowered@.subrange(0, i + 1).drop_last() =~= lowered@.subrange(0, i as int));
        let c = cs[i];
        if is_alphanumeric(c) {
            out.append(lowered.substring_char(i, i + 1));
            assert(lowered@.subrange(i as int, i + 1) =~= seq![c]);
            hyphen = false;
        } else if !hyphen {
            out.append("-");
            proof {
                reveal_strlit("-");
                assert("-"@ =~= seq!['-']);
            }
            hyphen = true;
        }
        i = i + 1;
    }
    assert(lowered@.subrange(0, i as int) =~= lowered@);
    let n = out.unicode_len();
    if n > 0 && out.as_str().get_char(n - 1) == '-' {
        out.as_str().substring_char(0, n - 1).to_owned()
    } else {
        out
    }
}

/// Convert heading text to a slug: lowercase, runs of non-alphanumerics to
/// a single `-`, no `-` at either end.
pub fn slugify(text: &str) -> (r: String)
    ensures
        r@ == slug_of(lowercase_of(text@)),
        forall|i: int| 0 <= i < r@.len() - 1 ==> !(#[trigger] r@[i] == '-' && r@[i + 1] == '-'),
        r@.len() > 0 ==> r@[0] != '-' && r@.last() != '-',
{
    let lowered = to_lowercase(text);
    slugify_lowered(lowered.as_str())
}

} // verus!

verus! {

/// A declaration found in a source: its names and its byte range.
#[derive(Debug)]
pub struct Declaration {
    /// Start of the byte range.
    pub start: u32,
    /// End of the byte range.
    pub end: u32,
    /// Short name, such as `validate`.
    pub name: String,
    /// Qualified name, such as `Config.validate`.
    pub qualified_name: String,
}

/// A symbol listed for a file.
#[derive(Debug)]
pub struct SymbolInfo {
    /// The qualified name.
    pub name: String,
}

/// Every declaration's range lies inside a source of `len` bytes.
pub open spec fn decls_in_source(d: Seq<Declaration>, len: nat) -> bool {
    forall|i: int| 0 <= i < d.len() ==> (#[trigger] d[i]).start <= d[i].end && d[i].end <= len
}

/// Tree and source agree, as parsing guarantees.
pub open spec fn tree_fits(tree: &SyntaxTree, src: &str) -> bool {
    tree.wf(src.spec_bytes().len())
}

/// Whether node `i` has kind `kind`.
fn kind_is(tree: &SyntaxTree, i: usize, kind: &str) -> (r: bool)
    requires
        i < tree.nodes@.len(),
    ensures
        r == (tree@.nodes[i as int].kind == kind@),
{
    str_eq(tree.nodes[i].kind.as_str(), kind)
}

/// The text of node `i`, when its range lies on character boundaries.
pub open spec fn text_of_node(t: SyntaxView, src: Seq<u8>, i: int) -> Option<Seq<char>> {
    let n = t.nodes[i];
    if n.start <= n.end <= src.len() && is_char_boundary(src, n.start as int) && is_char_boundary(src, n.end as int) {
        Some(text_between(src, n.start as int, n.end as int))
    } else {
        None
    }
}

/// The text of node `i`, unless its range splits a character.
fn node_text(tree: &SyntaxTree, src: &str, i: usize) -> (r: Option<String>)
    requires
        i < tree.nodes@.len(),
    ensures
        r is Some <==> text_of_node(tree@, src.spec_bytes(), i as int) is Some,
        r matches Some(t) ==> t@ == text_of_node(tree@, src.spec_bytes(), i as int)->0,
{
    match byte_slice(src, tree.nodes[i].start, tree.nodes[i].end) {
        None => None,
        Some(t) => Some(owned(t)),
    }
}

/// Whether node `c` has kind `s` (with `by_kind`) or field name `s`.
pub open spec fn node_matches(t: SyntaxView, c: usize, by_kind: bool, s: Seq<char>) -> bool {
    if by_kind {
        t.nodes[c as int].kind == s
    } else {
        match t.nodes[c as int].field {
            Some(f) => f == s,
            None => false,
        }
    }
}

/// The first of `cs` that matches.
pub open spec fn first_match(t: SyntaxView, cs: Seq<usize>, by_kind: bool, s: Seq<char>) -> Option<usize>
    decreases cs.len(),
{
    if cs.len() == 0 {
        None
    } else if node_matches(t, cs[0], by_kind, s) {
        Some(cs[0])
    } else {
        first_match(t, cs.drop_first(), by_kind, s)
    }
}

proof fn lemma_first_match_skip(t: SyntaxView, a: Seq<usize>, b: Seq<usize>, by_kind: bool, s: Seq<char>)
    requires
        forall|k: int| 0 <= k < a.len() ==> !node_matches(t, #[trigger] a[k], by_kind, s),
    ensures
        first_match(t, a + b, by_kind, s) == first_match(t, b, by_kind, s),
    decreases a.len(),
{
    if a.len() > 0 {
        assert((a + b)[0] == a[0]);
        assert((a + b).drop_first() =~= a.drop_first() + b);
        assert forall|k: int| 0 <= k < a.drop_first().len() implies !node_matches(t, #[trigger] a.drop_first()[k], by_kind, s) by {
            assert(a.drop_first()[k] == a[k + 1]);
        }
        lemma_first_match_skip(t, a.drop_first(), b, by_kind, s);
    } else {
        assert(a + b =~= b);
    }
}

proof fn lemma_first_match_found(t: SyntaxView, a: Seq<usize>, c: usize, b: Seq<usize>, by_kind: bool, s: Seq<char>)
    requires
        forall|k: int| 0 <= k < a.len() ==> !node_matches(t, #[trigger] a[k], by_kind, s),
        node_matches(t, c, by_kind, s),
    ensures
        first_match(t, a + (seq![c] + b), by_kind, s) == Some(c),
{
    lemma_first_match_skip(t, a, seq![c] + b, by_kind, s);
    assert((seq![c] + b)[0] == c);
}

/// The first child of node `i` that matches.
fn find_child(tree: &SyntaxTree, i: usize, by_kind: bool, s: &str) -> (r: Option<usize>)
    requires
        exists|n: nat| tree.wf(n),
        i < tree.nodes@.len(),
    ensures
        r == first_match(tree@, children_of(tree@, i as int), by_kind, s@),
        r matches Some(c) ==> i < c < tree.nodes@.len(),
{
    let ghost n = choose|n: nat| tree.wf(n);
    let ghost mut done: Seq<usize> = Seq::empty();
    proof {
        lemma_walk_start(tree@, n, i as int);
    }
    let mut cur = tree.first_child[i];
    while cur.is_some()
        invariant
            tree.wf(n),
            i < tree.nodes@.len(),
            walking_children(tree@, i as int, done, cur),
            forall|k: int| 0 <= k < done.len() ==> !node_matches(tree@, #[trigger] done[k], by_kind, s@),
        decreases (match cur { Some(c) => tree.nodes@.len() - c, None => 0 }),
    {
        let c = cur.unwrap();
        let hit = if by_kind {
            str_eq(tree.nodes[c].kind.as_str(), s)
        } else {
            match &tree.nodes[c].field {
                Some(f) => str_eq(f.as_str(), s),
                None => false,
            }
        };
        proof {
            let f = (tree.nodes@.len() - done.len()) as nat;
            assert(sibling_chain(tree@, Some(c), f) == seq![c] + sibling_chain(tree@, tree.next_sibling@[c as int], (f - 1) as nat));
            if hit {
                lemma_first_match_found(tree@, done, c, sibling_chain(tree@, tree.next_sibling@[c as int], (f - 1) as nat), by_kind, s@);
            }
        }
        if hit {
            return Some(c);
        }
        proof {
            lemma_walk_step(tree@, n, i as int, done, c);
            done = done.push(c);
        }
        cur = tree.next_sibling[c];
    }
    proof {
        lemma_walk_end(tree@, i as int, done);
        lemma_first_match_skip(tree@, done, Seq::empty(), by_kind, s@);
        assert(done + Seq::<usize>::empty() =~= done);
    }
    None
}

/// The first child of node `i` under the field `field`.
fn child_by_field(tree: &SyntaxTree, i: usize, field: &str) -> (r: Option<usize>)
    requires
        exists|n: nat| tree.wf(n),
        i < tree.nodes@.len(),
    ensures
        r == first_match(tree@, children_of(tree@, i as int), false, field@),
        r matches Some(c) ==> i < c < tree.nodes@.len(),
{
    find_child(tree, i, false, field)
}

/// The first child of node `i` of kind `kind`.
fn first_child_of_kind(tree: &SyntaxTree, i: usize, kind: &str) -> (r: Option<usize>)
    requires
        exists|n: nat| tree.wf(n),
        i < tree.nodes@.len(),
    ensures
        r == first_match(tree@, children_of(tree@, i as int), true, kind@),
        r matches Some(c) ==> i < c < tree.nodes@.len() && tree@.nodes[c as int].kind == kind@,
{
    let r = find_child(tree, i, true, kind);
    proof {
        if r is Some {
            lemma_first_match_is_match(tree@, children_of(tree@, i as int), true, kind@);
        }
    }
    r
}

proof fn lemma_first_match_is_match(t: SyntaxView, cs: Seq<usize>, by_kind: bool, s: Seq<char>)
    ensures
        first_match(t, cs, by_kind, s) matches Some(c) ==> node_matches(t, c, by_kind, s),
    decreases cs.len(),
{
    if cs.len() > 0 {
        lemma_first_match_is_match(t, cs.drop_first(), by_kind, s);
    }
}

/// Append a declaration when its range fits the stored width.
fn push_declaration(decls: &mut Vec<Declaration>, start: usize, end: usize, name: String, qualified_name: String)
    requires
        start <= end,
    ensures
        forall|i: int| 0 <= i < old(decls)@.len() ==> final(decls)@[i] == old(decls)@[i],
        final(decls)@.len() <= old(decls)@.len() + 1,
        final(decls)@.len() == old(decls)@.len() + 1 ==> {
            let d = final(decls)@.last();
            d.start == start && d.end == end && d.name@ == name@ && d.qualified_name@ == qualified_name@
        },
        end <= u32::MAX ==> decl_views(final(decls)@) == decl_views(old(decls)@).push((start as u32, end as u32, name@, qualified_name@)),
        end > u32::MAX ==> final(decls)@ == old(decls)@,
{
    if end <= u32::MAX as usize {
        decls.push(Declaration { start: start as u32, end: end as u32, name, qualified_name });
        assert(decl_views(decls@) =~= decl_views(old(decls)@).push(decl_view(decls@.last())));
    }
}

/// A declaration as plain values: (start, end, name, qualified name).
pub type DeclView = (u32, u32, Seq<char>, Seq<char>);

pub open spec fn decl_view(d: Declaration) -> DeclView {
    (d.start, d.end, d.name@, d.qualified_name@)
}

pub open spec fn decl_views(v: Seq<Declaration>) -> Seq<DeclView> {
    v.map_values(|d: Declaration| decl_view(d))
}

/// The declaration for node `range_node`, when its end fits the stored width.
pub open spec fn node_decl(t: SyntaxView, range_node: int, name: Seq<char>, qualified: Seq<char>) -> Seq<DeclView> {
    let n = t.nodes[range_node];
    if n.end <= u32::MAX {
        seq![(n.start as u32, n.end as u32, name, qualified)]
    } else {
        Seq::empty()
    }
}

} // verus!

verus! {

/// A qualified name is the short name itself, or an enclosing name, a `.`,
/// and the short name.
pub open spec fn qualified_shape(name: Seq<char>, qualified: Seq<char>) -> bool {
    qualified == name || exists|p: Seq<char>| qualified == p + seq!['.'] + name
}

/// Every declaration's qualified name ends with its short name.
pub open spec fn views_well_named(d: Seq<DeclView>) -> bool {
    forall|i: int| 0 <= i < d.len() ==> qualified_shape((#[trigger] d[i]).2, d[i].3)
}

/// Every declaration's qualified name ends with its short name.
pub open spec fn decls_well_named(d: Seq<Declaration>) -> bool {
    forall|i: int| 0 <= i < d.len() ==> qualified_shape((#[trigger] d[i]).name@, d[i].qualified_name@)
}

/// Declarations gathered so far stay inside the source and are well named.
pub open spec fn decls_fit(decls: Seq<Declaration>, src: &str) -> bool {
    decls_in_source(decls, src.spec_bytes().len()) && decls_well_named(decls)
}

/// Append a declaration for node `i` under its own range.
fn push_node_declaration(tree: &SyntaxTree, src: &str, range_node: usize, name: String, qualified_name: String, decls: &mut Vec<Declaration>)
    requires
        tree_fits(tree, src),
        range_node < tree.nodes@.len(),
        decls_fit(old(decls)@, src),
        qualified_shape(name@, qualified_name@),
    ensures
        decls_fit(final(decls)@, src),
        decl_views(final(decls)@) == decl_views(old(decls)@) + node_decl(tree@, range_node as int, name@, qualified_name@),
{
    let ghost nm = name@;
    let ghost qn = qualified_name@;
    let n = &tree.nodes[range_node];
    assert(tree@.nodes[range_node as int].start <= tree@.nodes[range_node as int].end);
    push_declaration(decls, n.start, n.end, name, qualified_name);
    proof {
        assert forall|k: int| 0 <= k < decls@.len() implies (#[trigger] decls@[k]).start <= decls@[k].end && decls@[k].end <= src.spec_bytes().len() by {
            if k < old(decls)@.len() {
                assert(decls@[k] == old(decls)@[k]);
            }
        }
        assert forall|k: int| 0 <= k < decls@.len() implies qualified_shape((#[trigger] decls@[k]).name@, decls@[k].qualified_name@) by {
            if k < old(decls)@.len() {
                assert(decls@[k] == old(decls)@[k]);
            }
        }
        if tree@.nodes[range_node as int].end <= u32::MAX {
            assert(decl_views(decls@) =~= decl_views(old(decls)@) + node_decl(tree@, range_node as int, nm, qn));
        } else {
            assert(decl_views(old(decls)@) + node_decl(tree@, range_node as int, nm, qn) =~= decl_views(old(decls)@));
        }
    }
}

/// The text of the child of `node` under `field`.
fn field_text(tree: &SyntaxTree, src: &str, node: usize, field: &str) -> (r: Option<String>)
    requires
        tree_fits(tree, src),
        node < tree.nodes@.len(),
    ensures
        r is Some <==> field_text_of(tree@, src.spec_bytes(), node as int, field@) is Some,
        r matches Some(t) ==> t@ == field_text_of(tree@, src.spec_bytes(), node as int, field@)->0,
{
    match child_by_field(tree, node, field) {
        None => None,
        Some(c) => node_text(tree, src, c),
    }
}

/// The text of the child of `node` under field `f`.
pub open spec fn field_text_of(t: SyntaxView, src: Seq<u8>, node: int, f: Seq<char>) -> Option<Seq<char>> {
    match first_match(t, children_of(t, node), false, f) {
        None => None,
        Some(c) => text_of_node(t, src, c as int),
    }
}

/// The members of a declaration whose `body` field holds them, qualified
/// by the text of its `owner` field.
pub open spec fn body_members(t: SyntaxView, src: Seq<u8>, node: int, owner: Seq<char>, a: Seq<char>, b: Seq<char>, by_property: bool) -> Seq<DeclView> {
    match field_text_of(t, src, node, owner) {
        None => Seq::empty(),
        Some(p) => match first_match(t, children_of(t, node), false, "body"@) {
            None => Seq::empty(),
            Some(body) => members(t, src, children_of(t, body as int), p, a, b, by_property),
        },
    }
}

/// A declaration named by the `name` field of `node`, over the range of `range_node`.
pub open spec fn named_decl(t: SyntaxView, src: Seq<u8>, node: int, range_node: int) -> Seq<DeclView> {
    match field_text_of(t, src, node, "name"@) {
        None => Seq::empty(),
        Some(n) => node_decl(t, range_node, n, n),
    }
}

/// The declaration a member node makes: a child of kind `a` or `b`, named
/// by its `name` field (or, with `by_property`, its first
/// `property_identifier` child), qualified by `parent`, over its own range.
pub open spec fn member_decl(t: SyntaxView, src: Seq<u8>, c: usize, parent: Seq<char>, a: Seq<char>, b: Seq<char>, by_property: bool) -> Seq<DeclView> {
    let k = t.nodes[c as int].kind;
    if k == a || k == b {
        let named = if by_property {
            first_match(t, children_of(t, c as int), true, "property_identifier"@)
        } else {
            first_match(t, children_of(t, c as int), false, "name"@)
        };
        match named {
            None => Seq::empty(),
            Some(x) => match text_of_node(t, src, x as int) {
                None => Seq::empty(),
                Some(name) => node_decl(t, c as int, name, parent + seq!['.'] + name),
            },
        }
    } else {
        Seq::empty()
    }
}

/// The declarations that a list of member nodes make, in order.
pub open spec fn members(t: SyntaxView, src: Seq<u8>, cs: Seq<usize>, parent: Seq<char>, a: Seq<char>, b: Seq<char>, by_property: bool) -> Seq<DeclView>
    decreases cs.len(),
{
    if cs.len() == 0 {
        Seq::empty()
    } else {
        members(t, src, cs.drop_last(), parent, a, b, by_property) + member_decl(t, src, cs.last(), parent, a, b, by_property)
    }
}

/// Declarations for the children of `container` of kind `kind_a` or
/// `kind_b`, each named by its `name` field (or, with `by_property`, by its
/// first `property_identifier` child) and qualified by `parent`.
fn collect_members(tree: &SyntaxTree, src: &str, container: usize, parent: &str, kind_a: &str, kind_b: &str, by_property: bool, decls: &mut Vec<Declaration>)
    requires
        tree_fits(tree, src),
        container < tree.nodes@.len(),
        decls_fit(old(decls)@, src),
    ensures
        decls_fit(final(decls)@, src),
        decl_views(final(decls)@) == decl_views(old(decls)@)
            + members(tree@, src.spec_bytes(), children_of(tree@, container as int), parent@, kind_a@, kind_b@, by_property),
{
    proof {
        reveal_strlit(".");
        assert("."@ =~= seq!['.']);
    }
    let ghost n = src.spec_bytes().len();
    let ghost mut done: Seq<usize> = Seq::empty();
    proof {
        lemma_walk_start(tree@, n, container as int);
        assert(members(tree@, src.spec_bytes(), done, parent@, kind_a@, kind_b@, by_property) =~= Seq::<DeclView>::empty());
        assert(decl_views(decls@) + Seq::<DeclView>::empty() =~= decl_views(decls@));
    }
    let mut cur = tree.first_child[container];
    while cur.is_some()
        invariant
            tree_fits(tree, src),
            n == src.spec_bytes().len(),
            container < tree.nodes@.len(),
            walking_children(tree@, container as int, done, cur),
            decls_fit(decls@, src),
            decl_views(decls@) == decl_views(old(decls)@) + members(tree@, src.spec_bytes(), done, parent@, kind_a@, kind_b@, by_property),
        decreases (match cur { Some(c) => tree.nodes@.len() - c, None => 0 }),
    {
        let c = cur.unwrap();
        let ghost before = decl_views(decls@);
        if kind_is(tree, c, kind_a) || kind_is(tree, c, kind_b) {
            let name_node = if by_property {
                first_child_of_kind(tree, c, "property_identifier")
            } else {
                child_by_field(tree, c, "name")
            };
            match name_node {
                None => {},
                Some(nn) => match node_text(tree, src, nn) {
                    None => {},
                    Some(name) => {
                        let qualified = concat3(parent, ".", name.as_str());
                        proof {
                            reveal_strlit(".");
                            assert("."@ =~= seq!['.']);
                            assert(qualified@ == parent@ + seq!['.'] + name@);
                        }
                        push_node_declaration(tree, src, c, name, qualified, decls);
                    },
                },
            }
        }
        proof {
            assert(decl_views(decls@) == before + member_decl(tree@, src.spec_bytes(), c, parent@, kind_a@, kind_b@, by_property)) by {
                assert(before + Seq::<DeclView>::empty() =~= before);
            }
            lemma_walk_step(tree@, n, container as int, done, c);
            assert(done.push(c).drop_last() =~= done);
            assert(decl_views(old(decls)@) + members(tree@, src.spec_bytes(), done.push(c), parent@, kind_a@, kind_b@, by_property)
                =~= decl_views(old(decls)@) + members(tree@, src.spec_bytes(), done, parent@, kind_a@, kind_b@, by_property)
                    + member_decl(tree@, src.spec_bytes(), c, parent@, kind_a@, kind_b@, by_property));
            done = done.push(c);
        }
        cur = tree.next_sibling[c];
    }
    proof {
        lemma_walk_end(tree@, container as int, done);
    }
}

/// Members of a declaration with a `body` field, qualified by the text of
/// its `owner` field.
fn collect_owned_members(tree: &SyntaxTree, src: &str, node: usize, owner: &str, kind_a: &str, kind_b: &str, by_property: bool, decls: &mut Vec<Declaration>)
    requires
        tree_fits(tree, src),
        node < tree.nodes@.len(),
        decls_fit(old(decls)@, src),
    ensures
        decls_fit(final(decls)@, src),
        decl_views(final(decls)@) == decl_views(old(decls)@) + body_members(tree@, src.spec_bytes(), node as int, owner@, kind_a@, kind_b@, by_property),
{
    let parent = match field_text(tree, src, node, owner) {
        None => {
            assert(decl_views(decls@) + Seq::<DeclView>::empty() =~= decl_views(decls@));
            return;
        },
        Some(p) => p,
    };
    match child_by_field(tree, node, "body") {
        None => {
            assert(decl_views(decls@) + Seq::<DeclView>::empty() =~= decl_views(decls@));
        },
        Some(body) => collect_members(tree, src, body, parent.as_str(), kind_a, kind_b, by_property, decls),
    }
}

/// Members of a declaration with `name` and `body` fields, qualified by its name.
fn collect_body_members(tree: &SyntaxTree, src: &str, node: usize, kind_a: &str, kind_b: &str, by_property: bool, decls: &mut Vec<Declaration>)
    requires
        tree_fits(tree, src),
        node < tree.nodes@.len(),
        decls_fit(old(decls)@, src),
    ensures
        decls_fit(final(decls)@, src),
        decl_views(final(decls)@) == decl_views(old(decls)@) + body_members(tree@, src.spec_bytes(), node as int, "name"@, kind_a@, kind_b@, by_property),
{
    collect_owned_members(tree, src, node, "name", kind_a, kind_b, by_property, decls)
}

/// Fields of a Rust struct, as `Struct.field`.
fn collect_struct_fields(tree: &SyntaxTree, src: &str, node: usize, decls: &mut Vec<Declaration>)
    requires
        tree_fits(tree, src),
        node < tree.nodes@.len(),
        decls_fit(old(decls)@, src),
    ensures
        decls_fit(final(decls)@, src),
        decl_views(final(decls)@) == decl_views(old(decls)@) + body_members(tree@, src.spec_bytes(), node as int, "name"@, "field_declaration"@, "field_declaration"@, false),
{
    collect_body_members(tree, src, node, "field_declaration", "field_declaration", false, decls)
}

/// Variants of a Rust enum, as `Enum.Variant`.
fn collect_enum_variants(tree: &SyntaxTree, src: &str, node: usize, decls: &mut Vec<Declaration>)
    requires
        tree_fits(tree, src),
        node < tree.nodes@.len(),
        decls_fit(old(decls)@, src),
    ensures
        decls_fit(final(decls)@, src),
        decl_views(final(decls)@) == decl_views(old(decls)@) + body_members(tree@, src.spec_bytes(), node as int, "name"@, "enum_variant"@, "enum_variant"@, false),
{
    collect_body_members(tree, src, node, "enum_variant", "enum_variant", false, decls)
}

/// Method signatures and default methods of a Rust trait, as `Trait.method`.
fn collect_trait_methods(tree: &SyntaxTree, src: &str, node: usize, decls: &mut Vec<Declaration>)
    requires
        tree_fits(tree, src),
        node < tree.nodes@.len(),
        decls_fit(old(decls)@, src),
    ensures
        decls_fit(final(decls)@, src),
        decl_views(final(decls)@) == decl_views(old(decls)@) + body_members(tree@, src.spec_bytes(), node as int, "name"@, "function_signature_item"@, "function_item"@, false),
{
    collect_body_members(tree, src, node, "function_signature_item", "function_item", false, decls)
}

/// Functions of a Rust impl block, as `Type.method`, the type written as it
/// stands (generic arguments included).
fn collect_impl_methods(tree: &SyntaxTree, src: &str, node: usize, decls: &mut Vec<Declaration>)
    requires
        tree_fits(tree, src),
        node < tree.nodes@.len(),
        decls_fit(old(decls)@, src),
    ensures
        decls_fit(final(decls)@, src),
        decl_views(final(decls)@) == decl_views(old(decls)@) + body_members(tree@, src.spec_bytes(), node as int, "type"@, "function_item"@, "function_item"@, false),
{
    collect_owned_members(tree, src, node, "type", "function_item", "function_item", false, decls)
}

/// A top-level declaration named by its `name` field, over the range of `range_node`.
fn push_named(tree: &SyntaxTree, src: &str, node: usize, range_node: usize, decls: &mut Vec<Declaration>) -> (r: Option<String>)
    requires
        tree_fits(tree, src),
        node < tree.nodes@.len(),
        range_node < tree.nodes@.len(),
        decls_fit(old(decls)@, src),
    ensures
        decls_fit(final(decls)@, src),
        decl_views(final(decls)@) == decl_views(old(decls)@) + named_decl(tree@, src.spec_bytes(), node as int, range_node as int),
        r is Some <==> field_text_of(tree@, src.spec_bytes(), node as int, "name"@) is Some,
        r matches Some(n) ==> n@ == field_text_of(tree@, src.spec_bytes(), node as int, "name"@)->0,
{
    match field_text(tree, src, node, "name") {
        None => {
            assert(decl_views(decls@) + Seq::<DeclView>::empty() =~= decl_views(decls@));
            None
        },
        Some(name) => {
            let q = name.clone();
            let r = name.clone();
            push_node_declaration(tree, src, range_node, name, q, decls);
            Some(r)
        },
    }
}

/// Kinds of the Rust items that are declarations by their `name` field.
pub open spec fn rust_item_kind(k: Seq<char>) -> bool {
    k == "function_item"@ || k == "const_item"@ || k == "struct_item"@ || k == "enum_item"@
        || k == "static_item"@ || k == "type_item"@ || k == "trait_item"@
}

/// What one top-level Rust node declares: the item itself, then its
/// members (impl methods, struct fields, enum variants, trait methods).
pub open spec fn rust_item_decls(t: SyntaxView, src: Seq<u8>, n: usize) -> Seq<DeclView> {
    let k = t.nodes[n as int].kind;
    (if rust_item_kind(k) { named_decl(t, src, n as int, n as int) } else { Seq::empty() })
        + (if k == "impl_item"@ { body_members(t, src, n as int, "type"@, "function_item"@, "function_item"@, false) } else { Seq::empty() })
        + (if k == "struct_item"@ { body_members(t, src, n as int, "name"@, "field_declaration"@, "field_declaration"@, false) } else { Seq::empty() })
        + (if k == "enum_item"@ { body_members(t, src, n as int, "name"@, "enum_variant"@, "enum_variant"@, false) } else { Seq::empty() })
        + (if k == "trait_item"@ { body_members(t, src, n as int, "name"@, "function_signature_item"@, "function_item"@, false) } else { Seq::empty() })
}

/// The declarations of a list of top-level Rust nodes, in order.
pub open spec fn rust_decls(t: SyntaxView, src: Seq<u8>, cs: Seq<usize>) -> Seq<DeclView>
    decreases cs.len(),
{
    if cs.len() == 0 {
        Seq::empty()
    } else {
        rust_decls(t, src, cs.drop_last()) + rust_item_decls(t, src, cs.last())
    }
}

/// Whether a node is a Rust item declared by its `name` field.
fn is_rust_item(tree: &SyntaxTree, node: usize) -> (r: bool)
    requires
        node < tree.nodes@.len(),
    ensures
        r == rust_item_kind(tree@.nodes[node as int].kind),
{
    kind_is(tree, node, "function_item") || kind_is(tree, node, "const_item") || kind_is(tree, node, "struct_item")
        || kind_is(tree, node, "enum_item") || kind_is(tree, node, "static_item") || kind_is(tree, node, "type_item")
        || kind_is(tree, node, "trait_item")
}

/// What one top-level Rust node declares.
#[verifier::rlimit(100)]
fn collect_rust_item(tree: &SyntaxTree, src: &str, node: usize, decls: &mut Vec<Declaration>)
    requires
        tree_fits(tree, src),
        node < tree.nodes@.len(),
        decls_fit(old(decls)@, src),
    ensures
        decls_fit(final(decls)@, src),
        decl_views(final(decls)@) == decl_views(old(decls)@) + rust_item_decls(tree@, src.spec_bytes(), node),
{
    let ghost start = decl_views(decls@);
    let ghost k = tree@.nodes[node as int].kind;
    let ghost src_b = src.spec_bytes();
    if is_rust_item(tree, node) {
        push_named(tree, src, node, node, decls);
    }
    let ghost s1 = decl_views(decls@);
    let ghost part1 = if rust_item_kind(k) { named_decl(tree@, src_b, node as int, node as int) } else { Seq::empty() };
    assert(s1 == start + part1) by {
        assert(start + Seq::<DeclView>::empty() =~= start);
    }
    if kind_is(tree, node, "impl_item") {
        collect_impl_methods(tree, src, node, decls);
    }
    let ghost s2 = decl_views(decls@);
    let ghost part2 = if k == "impl_item"@ { body_members(tree@, src_b, node as int, "type"@, "function_item"@, "function_item"@, false) } else { Seq::empty() };
    assert(s2 == s1 + part2) by {
        assert(s1 + Seq::<DeclView>::empty() =~= s1);
    }
    if kind_is(tree, node, "struct_item") {
        collect_struct_fields(tree, src, node, decls);
    }
    let ghost s3 = decl_views(decls@);
    let ghost part3 = if k == "struct_item"@ { body_members(tree@, src_b, node as int, "name"@, "field_declaration"@, "field_declaration"@, false) } else { Seq::empty() };
    assert(s3 == s2 + part3) by {
        assert(s2 + Seq::<DeclView>::empty() =~= s2);
    }
    if kind_is(tree, node, "enum_item") {
        collect_enum_variants(tree, src, node, decls);
    }
    let ghost s4 = decl_views(decls@);
    let ghost part4 = if k == "enum_item"@ { body_members(tree@, src_b, node as int, "name"@, "enum_variant"@, "enum_variant"@, false) } else { Seq::empty() };
    assert(s4 == s3 + part4) by {
        assert(s3 + Seq::<DeclView>::empty() =~= s3);
    }
    if kind_is(tree, node, "trait_item") {
        collect_trait_methods(tree, src, node, decls);
    }
    proof {
        let s5 = decl_views(decls@);
        let part5 = if k == "trait_item"@ { body_members(tree@, src_b, node as int, "name"@, "function_signature_item"@, "function_item"@, false) } else { Seq::empty() };
        assert(s5 == s4 + part5) by {
            assert(s4 + Seq::<DeclView>::empty() =~= s4);
        }
        assert(rust_item_decls(tree@, src_b, node) == part1 + part2 + part3 + part4 + part5);
        assert(s5 =~= start + (part1 + part2 + part3 + part4 + part5));
    }
}

/// All named declarations of a Rust source: items at the top level, struct
/// fields, enum variants, trait methods and impl methods.
fn collect_rust_declarations(tree: &SyntaxTree, src: &str) -> (r: Vec<Declaration>)
    requires
        tree_fits(tree, src),
    ensures
        decls_fit(r@, src),
        decl_views(r@) == rust_decls(tree@, src.spec_bytes(), children_of(tree@, 0)),
{
    let ghost n = src.spec_bytes().len();
    let ghost mut done: Seq<usize> = Seq::empty();
    let mut decls: Vec<Declaration> = Vec::new();
    proof {
        lemma_walk_start(tree@, n, 0);
        assert(decl_views(decls@) =~= rust_decls(tree@, src.spec_bytes(), done));
    }
    let mut cur = tree.first_child[0];
    while cur.is_some()
        invariant
            tree_fits(tree, src),
            n == src.spec_bytes().len(),
            walking_children(tree@, 0, done, cur),
            decls_fit(decls@, src),
            decl_views(decls@) == rust_decls(tree@, src.spec_bytes(), done),
        decreases (match cur { Some(c) => tree.nodes@.len() - c, None => 0 }),
    {
        let node = cur.unwrap();
        collect_rust_item(tree, src, node, &mut decls);
        proof {
            assert(done.push(node).drop_last() =~= done);
            lemma_walk_step(tree@, n, 0, done, node);
            done = done.push(node);
        }
        cur = tree.next_sibling[node];
    }
    proof {
        lemma_walk_end(tree@, 0, done);
    }
    decls
}

} // verus!

verus! {

/// Kinds that an `export_statement` exports.
pub open spec fn ts_export_kind(k: Seq<char>) -> bool {
    k == "function_declaration"@ || k == "class_declaration"@ || k == "interface_declaration"@
        || k == "type_alias_declaration"@ || k == "enum_declaration"@ || k == "lexical_declaration"@
}

/// Kinds of TypeScript declarations named by their `name` field.
pub open spec fn ts_named_kind(k: Seq<char>) -> bool {
    k == "function_declaration"@ || k == "class_declaration"@ || k == "interface_declaration"@
        || k == "type_alias_declaration"@ || k == "enum_declaration"@
}

/// The first of `cs` of an exported kind.
pub open spec fn first_exported(t: SyntaxView, cs: Seq<usize>) -> Option<usize>
    decreases cs.len(),
{
    if cs.len() == 0 {
        None
    } else if ts_export_kind(t.nodes[cs[0] as int].kind) {
        Some(cs[0])
    } else {
        first_exported(t, cs.drop_first())
    }
}

proof fn lemma_first_exported_skip(t: SyntaxView, a: Seq<usize>, b: Seq<usize>)
    requires
        forall|k: int| 0 <= k < a.len() ==> !ts_export_kind(t.nodes[#[trigger] a[k] as int].kind),
    ensures
        first_exported(t, a + b) == first_exported(t, b),
    decreases a.len(),
{
    if a.len() > 0 {
        assert((a + b)[0] == a[0]);
        assert((a + b).drop_first() =~= a.drop_first() + b);
        assert forall|k: int| 0 <= k < a.drop_first().len() implies !ts_export_kind(t.nodes[#[trigger] a.drop_first()[k] as int].kind) by {
            assert(a.drop_first()[k] == a[k + 1]);
        }
        lemma_first_exported_skip(t, a.drop_first(), b);
    } else {
        assert(a + b =~= b);
    }
}

/// The node a top-level TypeScript node stands for: an `export_statement`
/// unwrapped to its declaration, when it has one.
pub open spec fn ts_inner(t: SyntaxView, n: usize) -> usize {
    if t.nodes[n as int].kind == "export_statement"@ {
        match first_exported(t, children_of(t, n as int)) {
            Some(c) => c,
            None => n,
        }
    } else {
        n
    }
}

fn is_export_kind(tree: &SyntaxTree, c: usize) -> (r: bool)
    requires
        c < tree.nodes@.len(),
    ensures
        r == ts_export_kind(tree@.nodes[c as int].kind),
{
    kind_is(tree, c, "function_declaration") || kind_is(tree, c, "class_declaration") || kind_is(tree, c, "interface_declaration")
        || kind_is(tree, c, "type_alias_declaration") || kind_is(tree, c, "enum_declaration") || kind_is(tree, c, "lexical_declaration")
}

/// Unwrap an `export_statement` to the declaration it exports.
fn unwrap_export(tree: &SyntaxTree, export: usize) -> (r: usize)
    requires
        exists|n: nat| tree.wf(n),
        export < tree.nodes@.len(),
    ensures
        r < tree.nodes@.len(),
        r == (match first_exported(tree@, children_of(tree@, export as int)) { Some(c) => c, None => export }),
{
    let ghost n = choose|n: nat| tree.wf(n);
    let ghost mut done: Seq<usize> = Seq::empty();
    proof {
        lemma_walk_start(tree@, n, export as int);
    }
    let mut cur = tree.first_child[export];
    while cur.is_some()
        invariant
            tree.wf(n),
            export < tree.nodes@.len(),
            walking_children(tree@, export as int, done, cur),
            forall|k: int| 0 <= k < done.len() ==> !ts_export_kind(tree@.nodes[#[trigger] done[k] as int].kind),
        decreases (match cur { Some(c) => tree.nodes@.len() - c, None => 0 }),
    {
        let c = cur.unwrap();
        proof {
            let f = (tree.nodes@.len() - done.len()) as nat;
            let rest = sibling_chain(tree@, tree.next_sibling@[c as int], (f - 1) as nat);
            assert(sibling_chain(tree@, Some(c), f) == seq![c] + rest);
            lemma_first_exported_skip(tree@, done, seq![c] + rest);
            assert((seq![c] + rest)[0] == c);
        }
        if is_export_kind(tree, c) {
            return c;
        }
        proof {
            lemma_walk_step(tree@, n, export as int, done, c);
            done = done.push(c);
        }
        cur = tree.next_sibling[c];
    }
    proof {
        lemma_walk_end(tree@, export as int, done);
        lemma_first_exported_skip(tree@, done, Seq::empty());
        assert(done + Seq::<usize>::empty() =~= done);
    }
    export
}

/// Each `variable_declarator` among `cs`, named by its `name` field, over
/// the range of the whole declaration `range_node`.
pub open spec fn ts_declarators(t: SyntaxView, src: Seq<u8>, cs: Seq<usize>, range_node: int) -> Seq<DeclView>
    decreases cs.len(),
{
    if cs.len() == 0 {
        Seq::empty()
    } else {
        ts_declarators(t, src, cs.drop_last(), range_node)
            + if t.nodes[cs.last() as int].kind == "variable_declarator"@ { named_decl(t, src, cs.last() as int, range_node) } else { Seq::empty() }
    }
}

/// Each declarator of a `const`/`let`/`var` declaration, over the range of
/// the whole declaration.
fn collect_ts_variable_declarators(tree: &SyntaxTree, src: &str, node: usize, decls: &mut Vec<Declaration>)
    requires
        tree_fits(tree, src),
        node < tree.nodes@.len(),
        decls_fit(old(decls)@, src),
    ensures
        decls_fit(final(decls)@, src),
        decl_views(final(decls)@) == decl_views(old(decls)@) + ts_declarators(tree@, src.spec_bytes(), children_of(tree@, node as int), node as int),
{
    let ghost n = src.spec_bytes().len();
    let ghost mut done: Seq<usize> = Seq::empty();
    proof {
        lemma_walk_start(tree@, n, node as int);
        assert(decl_views(decls@) + ts_declarators(tree@, src.spec_bytes(), done, node as int) =~= decl_views(decls@));
    }
    let mut cur = tree.first_child[node];
    while cur.is_some()
        invariant
            tree_fits(tree, src),
            n == src.spec_bytes().len(),
            node < tree.nodes@.len(),
            walking_children(tree@, node as int, done, cur),
            decls_fit(decls@, src),
            decl_views(decls@) == decl_views(old(decls)@) + ts_declarators(tree@, src.spec_bytes(), done, node as int),
        decreases (match cur { Some(c) => tree.nodes@.len() - c, None => 0 }),
    {
        let c = cur.unwrap();
        let ghost before = decl_views(decls@);
        if kind_is(tree, c, "variable_declarator") {
            push_named(tree, src, c, node, decls);
        } else {
            assert(before + Seq::<DeclView>::empty() =~= before);
        }
        proof {
            assert(done.push(c).drop_last() =~= done);
            assert(decl_views(decls@) =~= decl_views(old(decls)@) + ts_declarators(tree@, src.spec_bytes(), done.push(c), node as int));
            lemma_walk_step(tree@, n, node as int, done, c);
            done = done.push(c);
        }
        cur = tree.next_sibling[c];
    }
    proof {
        lemma_walk_end(tree@, node as int, done);
    }
}

/// What one member of a TypeScript enum body declares: an `enum_assignment`
/// by its first `property_identifier`, or a bare `property_identifier`.
pub open spec fn ts_enum_member_decl(t: SyntaxView, src: Seq<u8>, c: usize, enum_name: Seq<char>) -> Seq<DeclView> {
    let k = t.nodes[c as int].kind;
    let named = if k == "enum_assignment"@ {
        first_match(t, children_of(t, c as int), true, "property_identifier"@)
    } else if k == "property_identifier"@ {
        Some(c)
    } else {
        None
    };
    match named {
        None => Seq::empty(),
        Some(x) => match text_of_node(t, src, x as int) {
            None => Seq::empty(),
            Some(name) => node_decl(t, c as int, name, enum_name + seq!['.'] + name),
        },
    }
}

pub open spec fn ts_enum_members(t: SyntaxView, src: Seq<u8>, cs: Seq<usize>, enum_name: Seq<char>) -> Seq<DeclView>
    decreases cs.len(),
{
    if cs.len() == 0 {
        Seq::empty()
    } else {
        ts_enum_members(t, src, cs.drop_last(), enum_name) + ts_enum_member_decl(t, src, cs.last(), enum_name)
    }
}

/// What a TypeScript enum declares about its members.
pub open spec fn ts_enum_decls(t: SyntaxView, src: Seq<u8>, node: int) -> Seq<DeclView> {
    match field_text_of(t, src, node, "name"@) {
        None => Seq::empty(),
        Some(en) => match first_match(t, children_of(t, node), false, "body"@) {
            None => Seq::empty(),
            Some(body) => ts_enum_members(t, src, children_of(t, body as int), en),
        },
    }
}

/// Members of a TypeScript enum, as `Enum.Member`.
fn collect_enum_members(tree: &SyntaxTree, src: &str, node: usize, decls: &mut Vec<Declaration>)
    requires
        tree_fits(tree, src),
        node < tree.nodes@.len(),
        decls_fit(old(decls)@, src),
    ensures
        decls_fit(final(decls)@, src),
        decl_views(final(decls)@) == decl_views(old(decls)@) + ts_enum_decls(tree@, src.spec_bytes(), node as int),
{
    proof {
        assert(decl_views(decls@) + Seq::<DeclView>::empty() =~= decl_views(decls@));
    }
    let enum_name = match field_text(tree, src, node, "name") {
        None => return,
        Some(t) => t,
    };
    let body = match child_by_field(tree, node, "body") {
        None => return,
        Some(b) => b,
    };
    let ghost n = src.spec_bytes().len();
    let ghost mut done: Seq<usize> = Seq::empty();
    proof {
        lemma_walk_start(tree@, n, body as int);
        assert(decl_views(decls@) + ts_enum_members(tree@, src.spec_bytes(), done, enum_name@) =~= decl_views(decls@));
    }
    let mut cur = tree.first_child[body];
    while cur.is_some()
        invariant
            tree_fits(tree, src),
            n == src.spec_bytes().len(),
            body < tree.nodes@.len(),
            walking_children(tree@, body as int, done, cur),
            decls_fit(decls@, src),
            decl_views(decls@) == decl_views(old(decls)@) + ts_enum_members(tree@, src.spec_bytes(), done, enum_name@),
        decreases (match cur { Some(c) => tree.nodes@.len() - c, None => 0 }),
    {
        let c = cur.unwrap();
        let ghost before = decl_views(decls@);
        let name_node = if kind_is(tree, c, "enum_assignment") {
            first_child_of_kind(tree, c, "property_identifier")
        } else if kind_is(tree, c, "property_identifier") {
            Some(c)
        } else {
            None
        };
        match name_node {
            None => {
                assert(before + Seq::<DeclView>::empty() =~= before);
            },
            Some(nn) => match node_text(tree, src, nn) {
                None => {
                    assert(before + Seq::<DeclView>::empty() =~= before);
                },
                Some(name) => {
                    let q = concat3(enum_name.as_str(), ".", name.as_str());
                    proof {
                        reveal_strlit(".");
                        assert("."@ =~= seq!['.']);
                        assert(q@ == enum_name@ + seq!['.'] + name@);
                    }
                    push_node_declaration(tree, src, c, name, q, decls);
                },
            },
        }
        proof {
            assert(decl_views(decls@) == before + ts_enum_member_decl(tree@, src.spec_bytes(), c, enum_name@));
            assert(done.push(c).drop_last() =~= done);
            assert(decl_views(decls@) =~= decl_views(old(decls)@) + ts_enum_members(tree@, src.spec_bytes(), done.push(c), enum_name@));
            lemma_walk_step(tree@, n, body as int, done, c);
            done = done.push(c);
        }
        cur = tree.next_sibling[c];
    }
    proof {
        lemma_walk_end(tree@, body as int, done);
    }
}

/// What one top-level TypeScript node declares, looking through `export`.
pub open spec fn ts_item_decls(t: SyntaxView, src: Seq<u8>, n: usize) -> Seq<DeclView> {
    ts_inner_decls(t, src, ts_inner(t, n))
}

/// What the declaration node `i` (an export already unwrapped) declares.
pub open spec fn ts_inner_decls(t: SyntaxView, src: Seq<u8>, i: usize) -> Seq<DeclView> {
    let k = t.nodes[i as int].kind;
    (if ts_named_kind(k) { named_decl(t, src, i as int, i as int) } else { Seq::empty() })
        + (if k == "lexical_declaration"@ { ts_declarators(t, src, children_of(t, i as int), i as int) } else { Seq::empty() })
        + (if k == "interface_declaration"@ { body_members(t, src, i as int, "name"@, "property_signature"@, "property_signature"@, true) } else { Seq::empty() })
        + (if k == "class_declaration"@ { body_members(t, src, i as int, "name"@, "method_definition"@, "public_field_definition"@, true) } else { Seq::empty() })
        + (if k == "enum_declaration"@ { ts_enum_decls(t, src, i as int) } else { Seq::empty() })
}

pub open spec fn ts_decls(t: SyntaxView, src: Seq<u8>, cs: Seq<usize>) -> Seq<DeclView>
    decreases cs.len(),
{
    if cs.len() == 0 {
        Seq::empty()
    } else {
        ts_decls(t, src, cs.drop_last()) + ts_item_decls(t, src, cs.last())
    }
}

fn is_ts_named(tree: &SyntaxTree, c: usize) -> (r: bool)
    requires
        c < tree.nodes@.len(),
    ensures
        r == ts_named_kind(tree@.nodes[c as int].kind),
{
    kind_is(tree, c, "function_declaration") || kind_is(tree, c, "class_declaration") || kind_is(tree, c, "interface_declaration")
        || kind_is(tree, c, "type_alias_declaration") || kind_is(tree, c, "enum_declaration")
}

/// What one top-level TypeScript node declares.
fn collect_ts_item(tree: &SyntaxTree, src: &str, node: usize, decls: &mut Vec<Declaration>)
    requires
        tree_fits(tree, src),
        node < tree.nodes@.len(),
        decls_fit(old(decls)@, src),
    ensures
        decls_fit(final(decls)@, src),
        decl_views(final(decls)@) == decl_views(old(decls)@) + ts_item_decls(tree@, src.spec_bytes(), node),
{
    let inner = if kind_is(tree, node, "export_statement") {
        unwrap_export(tree, node)
    } else {
        node
    };
    assert(inner == ts_inner(tree@, node));
    collect_ts_inner(tree, src, inner, decls);
}

/// What one TypeScript declaration node declares.
#[verifier::rlimit(100)]
fn collect_ts_inner(tree: &SyntaxTree, src: &str, inner: usize, decls: &mut Vec<Declaration>)
    requires
        tree_fits(tree, src),
        inner < tree.nodes@.len(),
        decls_fit(old(decls)@, src),
    ensures
        decls_fit(final(decls)@, src),
        decl_views(final(decls)@) == decl_views(old(decls)@) + ts_inner_decls(tree@, src.spec_bytes(), inner),
{
    let ghost src_b = src.spec_bytes();
    let ghost k = tree@.nodes[inner as int].kind;
    let ghost start = decl_views(decls@);
    if is_ts_named(tree, inner) {
        push_named(tree, src, inner, inner, decls);
    }
    let ghost s1 = decl_views(decls@);
    let ghost part1 = if ts_named_kind(k) { named_decl(tree@, src_b, inner as int, inner as int) } else { Seq::empty() };
    assert(s1 == start + part1) by {
        assert(start + Seq::<DeclView>::empty() =~= start);
    }
    if kind_is(tree, inner, "lexical_declaration") {
        collect_ts_variable_declarators(tree, src, inner, decls);
    }
    let ghost s2 = decl_views(decls@);
    let ghost part2 = if k == "lexical_declaration"@ { ts_declarators(tree@, src_b, children_of(tree@, inner as int), inner as int) } else { Seq::empty() };
    assert(s2 == s1 + part2) by {
        assert(s1 + Seq::<DeclView>::empty() =~= s1);
    }
    if kind_is(tree, inner, "interface_declaration") {
        collect_body_members(tree, src, inner, "property_signature", "property_signature", true, decls);
    }
    let ghost s3 = decl_views(decls@);
    let ghost part3 = if k == "interface_declaration"@ { body_members(tree@, src_b, inner as int, "name"@, "property_signature"@, "property_signature"@, true) } else { Seq::empty() };
    assert(s3 == s2 + part3) by {
        assert(s2 + Seq::<DeclView>::empty() =~= s2);
    }
    if kind_is(tree, inner, "class_declaration") {
        collect_body_members(tree, src, inner, "method_definition", "public_field_definition", true, decls);
    }
    let ghost s4 = decl_views(decls@);
    let ghost part4 = if k == "class_declaration"@ { body_members(tree@, src_b, inner as int, "name"@, "method_definition"@, "public_field_definition"@, true) } else { Seq::empty() };
    assert(s4 == s3 + part4) by {
        assert(s3 + Seq::<DeclView>::empty() =~= s3);
    }
    if kind_is(tree, inner, "enum_declaration") {
        collect_enum_members(tree, src, inner, decls);
    }
    proof {
        let s5 = decl_views(decls@);
        let part5 = if k == "enum_declaration"@ { ts_enum_decls(tree@, src_b, inner as int) } else { Seq::empty() };
        assert(s5 == s4 + part5) by {
            assert(s4 + Seq::<DeclView>::empty() =~= s4);
        }
        assert(ts_inner_decls(tree@, src_b, inner) == part1 + part2 + part3 + part4 + part5);
        assert(s5 =~= start + (part1 + part2 + part3 + part4 + part5));
    }
}

/// All named declarations of a TypeScript source: top-level declarations
/// (inside `export` too), variable declarators, and the members of
/// interfaces, classes and enums.
fn collect_ts_declarations(tree: &SyntaxTree, src: &str) -> (r: Vec<Declaration>)
    requires
        tree_fits(tree, src),
    ensures
        decls_fit(r@, src),
        decl_views(r@) == ts_decls(tree@, src.spec_bytes(), children_of(tree@, 0)),
{
    let ghost n = src.spec_bytes().len();
    let ghost mut done: Seq<usize> = Seq::empty();
    let mut decls: Vec<Declaration> = Vec::new();
    proof {
        lemma_walk_start(tree@, n, 0);
        assert(decl_views(decls@) =~= ts_decls(tree@, src.spec_bytes(), done));
    }
    let mut cur = tree.first_child[0];
    while cur.is_some()
        invariant
            tree_fits(tree, src),
            n == src.spec_bytes().len(),
            walking_children(tree@, 0, done, cur),
            decls_fit(decls@, src),
            decl_views(decls@) == ts_decls(tree@, src.spec_bytes(), done),
        decreases (match cur { Some(c) => tree.nodes@.len() - c, None => 0 }),
    {
        let node = cur.unwrap();
        collect_ts_item(tree, src, node, &mut decls);
        proof {
            assert(done.push(node).drop_last() =~= done);
            lemma_walk_step(tree@, n, 0, done, node);
            done = done.push(node);
        }
        cur = tree.next_sibling[node];
    }
    proof {
        lemma_walk_end(tree@, 0, done);
    }
    decls
}

/// The declarations of the children of kind `spec_kind`, each by its
/// `name` field over its own range.
pub open spec fn go_specs(t: SyntaxView, src: Seq<u8>, cs: Seq<usize>, spec_kind: Seq<char>) -> Seq<DeclView>
    decreases cs.len(),
{
    if cs.len() == 0 {
        Seq::empty()
    } else {
        go_specs(t, src, cs.drop_last(), spec_kind)
            + if t.nodes[cs.last() as int].kind == spec_kind { named_decl(t, src, cs.last() as int, cs.last() as int) } else { Seq::empty() }
    }
}

/// Each spec of kind `spec_kind` in a Go `const`/`var` declaration, over
/// the spec's own range.
fn collect_go_specs(tree: &SyntaxTree, src: &str, node: usize, spec_kind: &str, decls: &mut Vec<Declaration>)
    requires
        tree_fits(tree, src),
        node < tree.nodes@.len(),
        decls_fit(old(decls)@, src),
    ensures
        decls_fit(final(decls)@, src),
        decl_views(final(decls)@) == decl_views(old(decls)@) + go_specs(tree@, src.spec_bytes(), children_of(tree@, node as int), spec_kind@),
{
    let ghost n = src.spec_bytes().len();
    let ghost mut done: Seq<usize> = Seq::empty();
    proof {
        lemma_walk_start(tree@, n, node as int);
        assert(decl_views(decls@) + go_specs(tree@, src.spec_bytes(), done, spec_kind@) =~= decl_views(decls@));
    }
    let mut cur = tree.first_child[node];
    while cur.is_some()
        invariant
            tree_fits(tree, src),
            n == src.spec_bytes().len(),
            node < tree.nodes@.len(),
            walking_children(tree@, node as int, done, cur),
            decls_fit(decls@, src),
            decl_views(decls@) == decl_views(old(decls)@) + go_specs(tree@, src.spec_bytes(), done, spec_kind@),
        decreases (match cur { Some(c) => tree.nodes@.len() - c, None => 0 }),
    {
        let c = cur.unwrap();
        let ghost before = decl_views(decls@);
        if kind_is(tree, c, spec_kind) {
            push_named(tree, src, c, c, decls);
        } else {
            assert(before + Seq::<DeclView>::empty() =~= before);
        }
        proof {
            assert(done.push(c).drop_last() =~= done);
            assert(decl_views(decls@) =~= decl_views(old(decls)@) + go_specs(tree@, src.spec_bytes(), done.push(c), spec_kind@));
            lemma_walk_step(tree@, n, node as int, done, c);
            done = done.push(c);
        }
        cur = tree.next_sibling[c];
    }
    proof {
        lemma_walk_end(tree@, node as int, done);
    }
}

/// The receiver type of a Go method: the type of its first parameter, a
/// pointer type unwrapped to its `type_identifier`.
pub open spec fn go_receiver_type(t: SyntaxView, src: Seq<u8>, receiver: int) -> Option<Seq<char>> {
    match first_match(t, children_of(t, receiver), true, "parameter_declaration"@) {
        None => None,
        Some(p) => match first_match(t, children_of(t, p as int), false, "type"@) {
            None => None,
            Some(ty) => {
                let base = if t.nodes[ty as int].kind == "pointer_type"@ {
                    first_match(t, children_of(t, ty as int), true, "type_identifier"@)
                } else {
                    Some(ty)
                };
                match base {
                    None => None,
                    Some(b) => text_of_node(t, src, b as int),
                }
            },
        },
    }
}

/// The receiver type of a Go method, a pointer type unwrapped:
/// `(c *Config)` and `(c Config)` both give `Config`.
fn go_receiver_type_name(tree: &SyntaxTree, src: &str, receiver: usize) -> (r: Option<String>)
    requires
        tree_fits(tree, src),
        receiver < tree.nodes@.len(),
    ensures
        r is Some <==> go_receiver_type(tree@, src.spec_bytes(), receiver as int) is Some,
        r matches Some(x) ==> x@ == go_receiver_type(tree@, src.spec_bytes(), receiver as int)->0,
{
    let param = match first_child_of_kind(tree, receiver, "parameter_declaration") {
        None => return None,
        Some(p) => p,
    };
    let type_node = match child_by_field(tree, param, "type") {
        None => return None,
        Some(t) => t,
    };
    let base = if kind_is(tree, type_node, "pointer_type") {
        match first_child_of_kind(tree, type_node, "type_identifier") {
            None => return None,
            Some(b) => b,
        }
    } else {
        type_node
    };
    node_text(tree, src, base)
}

/// What a Go method declares: `Type.Method` over the whole method.
pub open spec fn go_method_decl(t: SyntaxView, src: Seq<u8>, n: int) -> Seq<DeclView> {
    match first_match(t, children_of(t, n), false, "receiver"@) {
        None => Seq::empty(),
        Some(r) => match go_receiver_type(t, src, r as int) {
            None => Seq::empty(),
            Some(owner) => match field_text_of(t, src, n, "name"@) {
                None => Seq::empty(),
                Some(name) => node_decl(t, n, name, owner + seq!['.'] + name),
            },
        },
    }
}

/// A Go method, as `Type.Method`.
fn go_method_declaration(tree: &SyntaxTree, src: &str, node: usize, decls: &mut Vec<Declaration>)
    requires
        tree_fits(tree, src),
        node < tree.nodes@.len(),
        decls_fit(old(decls)@, src),
    ensures
        decls_fit(final(decls)@, src),
        decl_views(final(decls)@) == decl_views(old(decls)@) + go_method_decl(tree@, src.spec_bytes(), node as int),
{
    proof {
        reveal_strlit(".");
        assert("."@ =~= seq!['.']);
        assert(decl_views(decls@) + Seq::<DeclView>::empty() =~= decl_views(decls@));
    }
    let receiver = match child_by_field(tree, node, "receiver") {
        None => return,
        Some(r) => r,
    };
    let owner = match go_receiver_type_name(tree, src, receiver) {
        None => return,
        Some(t) => t,
    };
    match field_text(tree, src, node, "name") {
        None => {},
        Some(name) => {
            let q = concat3(owner.as_str(), ".", name.as_str());
            assert(q@ == owner@ + seq!['.'] + name@);
            push_node_declaration(tree, src, node, name, q, decls);
        },
    }
}

/// What one Go type spec declares: the type, and the fields of a struct
/// type or the methods of an interface type.
pub open spec fn go_type_spec_decls(t: SyntaxView, src: Seq<u8>, c: usize) -> Seq<DeclView> {
    if t.nodes[c as int].kind == "type_spec"@ {
        match field_text_of(t, src, c as int, "name"@) {
            None => Seq::empty(),
            Some(name) => node_decl(t, c as int, name, name) + match first_match(t, children_of(t, c as int), false, "type"@) {
                None => Seq::empty(),
                Some(body) => if t.nodes[body as int].kind == "interface_type"@ {
                    members(t, src, children_of(t, body as int), name, "method_elem"@, "method_elem"@, false)
                } else if t.nodes[body as int].kind == "struct_type"@ {
                    match first_match(t, children_of(t, body as int), true, "field_declaration_list"@) {
                        None => Seq::empty(),
                        Some(list) => members(t, src, children_of(t, list as int), name, "field_declaration"@, "field_declaration"@, false),
                    }
                } else {
                    Seq::empty()
                },
            },
        }
    } else {
        Seq::empty()
    }
}

/// The declarations of a list of Go type specs, in order.
pub open spec fn go_type_specs(t: SyntaxView, src: Seq<u8>, cs: Seq<usize>) -> Seq<DeclView>
    decreases cs.len(),
{
    if cs.len() == 0 {
        Seq::empty()
    } else {
        go_type_specs(t, src, cs.drop_last()) + go_type_spec_decls(t, src, cs.last())
    }
}

/// What one Go type spec declares.
fn collect_go_type_spec(tree: &SyntaxTree, src: &str, c: usize, decls: &mut Vec<Declaration>)
    requires
        tree_fits(tree, src),
        c < tree.nodes@.len(),
        decls_fit(old(decls)@, src),
    ensures
        decls_fit(final(decls)@, src),
        decl_views(final(decls)@) == decl_views(old(decls)@) + go_type_spec_decls(tree@, src.spec_bytes(), c),
{
    let ghost start = decl_views(decls@);
    proof {
        assert(start + Seq::<DeclView>::empty() =~= start);
    }
    if !kind_is(tree, c, "type_spec") {
        return;
    }
    match push_named(tree, src, c, c, decls) {
        None => {},
        Some(name) => {
            let ghost mid = decl_views(decls@);
            proof {
                assert(mid + Seq::<DeclView>::empty() =~= mid);
            }
            match child_by_field(tree, c, "type") {
                None => {},
                Some(body) => {
                    if kind_is(tree, body, "interface_type") {
                        collect_members(tree, src, body, name.as_str(), "method_elem", "method_elem", false, decls);
                    } else if kind_is(tree, body, "struct_type") {
                        match first_child_of_kind(tree, body, "field_declaration_list") {
                            None => {},
                            Some(list) => collect_members(tree, src, list, name.as_str(), "field_declaration", "field_declaration", false, decls),
                        }
                    }
                },
            }
            proof {
                let nd = node_decl(tree@, c as int, name@, name@);
                assert(mid == start + nd);
                let rest = decl_views(decls@).subrange(mid.len() as int, decl_views(decls@).len() as int);
                assert(decl_views(decls@) =~= start + (nd + rest));
            }
        },
    }
}

/// Type specs of a Go `type` declaration, with the fields of struct types
/// and the methods of interface types.
fn collect_go_type_specs(tree: &SyntaxTree, src: &str, node: usize, decls: &mut Vec<Declaration>)
    requires
        tree_fits(tree, src),
        node < tree.nodes@.len(),
        decls_fit(old(decls)@, src),
    ensures
        decls_fit(final(decls)@, src),
        decl_views(final(decls)@) == decl_views(old(decls)@) + go_type_specs(tree@, src.spec_bytes(), children_of(tree@, node as int)),
{
    let ghost n = src.spec_bytes().len();
    let ghost mut done: Seq<usize> = Seq::empty();
    proof {
        lemma_walk_start(tree@, n, node as int);
        assert(decl_views(decls@) + go_type_specs(tree@, src.spec_bytes(), done) =~= decl_views(decls@));
    }
    let mut cur = tree.first_child[node];
    while cur.is_some()
        invariant
            tree_fits(tree, src),
            n == src.spec_bytes().len(),
            node < tree.nodes@.len(),
            walking_children(tree@, node as int, done, cur),
            decls_fit(decls@, src),
            decl_views(decls@) == decl_views(old(decls)@) + go_type_specs(tree@, src.spec_bytes(), done),
        decreases (match cur { Some(c) => tree.nodes@.len() - c, None => 0 }),
    {
        let c = cur.unwrap();
        collect_go_type_spec(tree, src, c, decls);
        proof {
            assert(done.push(c).drop_last() =~= done);
            assert(decl_views(decls@) =~= decl_views(old(decls)@) + go_type_specs(tree@, src.spec_bytes(), done.push(c)));
            lemma_walk_step(tree@, n, node as int, done, c);
            done = done.push(c);
        }
        cur = tree.next_sibling[c];
    }
    proof {
        lemma_walk_end(tree@, node as int, done);
    }
}

/// What one top-level Go node declares.
pub open spec fn go_item_decls(t: SyntaxView, src: Seq<u8>, n: usize) -> Seq<DeclView> {
    let k = t.nodes[n as int].kind;
    if k == "const_declaration"@ {
        go_specs(t, src, children_of(t, n as int), "const_spec"@)
    } else if k == "function_declaration"@ {
        named_decl(t, src, n as int, n as int)
    } else if k == "method_declaration"@ {
        go_method_decl(t, src, n as int)
    } else if k == "type_declaration"@ {
        go_type_specs(t, src, children_of(t, n as int))
    } else if k == "var_declaration"@ {
        go_specs(t, src, children_of(t, n as int), "var_spec"@)
    } else {
        Seq::empty()
    }
}

/// The declarations of a list of top-level Go nodes, in order.
pub open spec fn go_decls(t: SyntaxView, src: Seq<u8>, cs: Seq<usize>) -> Seq<DeclView>
    decreases cs.len(),
{
    if cs.len() == 0 {
        Seq::empty()
    } else {
        go_decls(t, src, cs.drop_last()) + go_item_decls(t, src, cs.last())
    }
}

/// All named declarations of a Go source.
fn collect_go_declarations(tree: &SyntaxTree, src: &str) -> (r: Vec<Declaration>)
    requires
        tree_fits(tree, src),
    ensures
        decls_fit(r@, src),
        decl_views(r@) == go_decls(tree@, src.spec_bytes(), children_of(tree@, 0)),
{
    let ghost n = src.spec_bytes().len();
    let ghost mut done: Seq<usize> = Seq::empty();
    let mut decls: Vec<Declaration> = Vec::new();
    proof {
        lemma_walk_start(tree@, n, 0);
        assert(decl_views(decls@) =~= go_decls(tree@, src.spec_bytes(), done));
    }
    let mut cur = tree.first_child[0];
    while cur.is_some()
        invariant
            tree_fits(tree, src),
            n == src.spec_bytes().len(),
            walking_children(tree@, 0, done, cur),
            decls_fit(decls@, src),
            decl_views(decls@) == go_decls(tree@, src.spec_bytes(), done),
        decreases (match cur { Some(c) => tree.nodes@.len() - c, None => 0 }),
    {
        let node = cur.unwrap();
        let ghost before = decl_views(decls@);
        if kind_is(tree, node, "const_declaration") {
            collect_go_specs(tree, src, node, "const_spec", &mut decls);
        } else if kind_is(tree, node, "function_declaration") {
            push_named(tree, src, node, node, &mut decls);
        } else if kind_is(tree, node, "method_declaration") {
            go_method_declaration(tree, src, node, &mut decls);
        } else if kind_is(tree, node, "type_declaration") {
            collect_go_type_specs(tree, src, node, &mut decls);
        } else if kind_is(tree, node, "var_declaration") {
            collect_go_specs(tree, src, node, "var_spec", &mut decls);
        } else {
            assert(before + Seq::<DeclView>::empty() =~= before);
        }
        proof {
            assert(decl_views(decls@) == before + go_item_decls(tree@, src.spec_bytes(), node));
            assert(done.push(node).drop_last() =~= done);
            lemma_walk_step(tree@, n, 0, done, node);
            done = done.push(node);
        }
        cur = tree.next_sibling[node];
    }
    proof {
        lemma_walk_end(tree@, 0, done);
    }
    decls
}

} // verus!

verus! {

/// A `decorated_definition` stands for the definition it decorates.
pub open spec fn py_unwrap(t: SyntaxView, n: usize) -> usize {
    if t.nodes[n as int].kind == "decorated_definition"@ {
        match first_match(t, children_of(t, n as int), false, "definition"@) {
            Some(d) => d,
            None => n,
        }
    } else {
        n
    }
}

/// A `decorated_definition` unwrapped to the definition it decorates.
fn py_unwrap_decorated(tree: &SyntaxTree, node: usize) -> (r: usize)
    requires
        exists|n: nat| tree.wf(n),
        node < tree.nodes@.len(),
    ensures
        r < tree.nodes@.len(),
        r >= node,
        r == py_unwrap(tree@, node),
{
    if !kind_is(tree, node, "decorated_definition") {
        return node;
    }
    match child_by_field(tree, node, "definition") {
        None => node,
        Some(d) => d,
    }
}

/// A dunder name such as `__repr__`.
pub open spec fn dunder(name: Seq<char>) -> bool {
    name.len() >= 4 && name[0] == '_' && name[1] == '_' && name[name.len() - 1] == '_' && name[name.len() - 2] == '_'
}

/// Whether a name is a dunder name such as `__repr__`.
fn is_dunder(name: &str) -> (r: bool)
    ensures
        r == dunder(name@),
{
    let cs = chars_of(name);
    let n = cs.len();
    n >= 4 && cs[0] == '_' && cs[1] == '_' && cs[n - 1] == '_' && cs[n - 2] == '_'
}

/// The attribute a `self.attr = ...` statement assigns, with its qualified name.
pub open spec fn py_self_attr(t: SyntaxView, src: Seq<u8>, stmt: int, class_name: Seq<char>) -> Option<(Seq<char>, Seq<char>)> {
    match first_match(t, children_of(t, stmt), true, "assignment"@) {
        None => None,
        Some(a) => match first_match(t, children_of(t, a as int), false, "left"@) {
            None => None,
            Some(l) => if t.nodes[l as int].kind == "attribute"@ && field_text_of(t, src, l as int, "object"@) == Some("self"@) {
                match field_text_of(t, src, l as int, "attribute"@) {
                    None => None,
                    Some(attr) => Some((attr, class_name + seq!['.'] + attr)),
                }
            } else {
                None
            },
        },
    }
}

/// A `self.attr = ...` statement, as a declaration `Class.attr` over the
/// statement's range.
fn py_self_attribute_assignment(tree: &SyntaxTree, src: &str, stmt: usize, class_name: &str) -> (r: Option<(String, String)>)
    requires
        tree_fits(tree, src),
        stmt < tree.nodes@.len(),
    ensures
        r is Some <==> py_self_attr(tree@, src.spec_bytes(), stmt as int, class_name@) is Some,
        r matches Some((a, q)) ==> py_self_attr(tree@, src.spec_bytes(), stmt as int, class_name@) == Some((a@, q@)),
        r matches Some((a, q)) ==> q@ == class_name@ + seq!['.'] + a@,
{
    proof {
        reveal_strlit(".");
        assert("."@ =~= seq!['.']);
    }
    let assignment = match first_child_of_kind(tree, stmt, "assignment") {
        None => return None,
        Some(a) => a,
    };
    let left = match child_by_field(tree, assignment, "left") {
        None => return None,
        Some(l) => l,
    };
    if !kind_is(tree, left, "attribute") {
        return None;
    }
    match field_text(tree, src, left, "object") {
        None => return None,
        Some(o) => {
            if !str_eq(o.as_str(), "self") {
                return None;
            }
        },
    }
    match field_text(tree, src, left, "attribute") {
        None => None,
        Some(attr) => {
            let q = concat3(class_name, ".", attr.as_str());
            Some((attr, q))
        },
    }
}

/// Whether a qualified name is among those already seen.
fn seen_name(seen: &Vec<String>, name: &str) -> (r: bool)
    ensures
        r == views(seen@).contains(name@),
{
    let mut i: usize = 0;
    while i < seen.len()
        invariant
            i <= seen.len(),
            forall|k: int| 0 <= k < i ==> (#[trigger] seen@[k])@ != name@,
        decreases seen.len() - i,
    {
        if str_eq(seen[i].as_str(), name) {
            assert(views(seen@)[i as int] == name@);
            return true;
        }
        i = i + 1;
    }
    assert forall|k: int| 0 <= k < views(seen@).len() implies views(seen@)[k] != name@ by {
        assert(views(seen@)[k] == seen@[k]@);
    }
    false
}

/// Kinds of the blocks and branches that `__init__` attributes are sought in.
pub open spec fn py_nested_kind(k: Seq<char>) -> bool {
    k == "if_statement"@ || k == "for_statement"@ || k == "while_statement"@ || k == "try_statement"@
        || k == "with_statement"@ || k == "block"@ || k == "else_clause"@ || k == "elif_clause"@
        || k == "except_clause"@ || k == "finally_clause"@
}

fn is_py_nested(tree: &SyntaxTree, c: usize) -> (r: bool)
    requires
        c < tree.nodes@.len(),
    ensures
        r == py_nested_kind(tree@.nodes[c as int].kind),
{
    kind_is(tree, c, "if_statement") || kind_is(tree, c, "for_statement") || kind_is(tree, c, "while_statement")
        || kind_is(tree, c, "try_statement") || kind_is(tree, c, "with_statement") || kind_is(tree, c, "block")
        || kind_is(tree, c, "else_clause") || kind_is(tree, c, "elif_clause") || kind_is(tree, c, "except_clause")
        || kind_is(tree, c, "finally_clause")
}

/// The `self` attributes assigned among `cs` and, within `fuel` levels, in
/// the blocks nested in them, each qualified name once; with the names seen.
pub open spec fn py_attr_walk(t: SyntaxView, src: Seq<u8>, cs: Seq<usize>, class_name: Seq<char>, seen: Seq<Seq<char>>, fuel: nat) -> (Seq<DeclView>, Seq<Seq<char>>)
    decreases fuel, cs.len(),
{
    if cs.len() == 0 {
        (Seq::empty(), seen)
    } else {
        let (d0, s0) = py_attr_walk(t, src, cs.drop_last(), class_name, seen, fuel);
        let c = cs.last();
        let k = t.nodes[c as int].kind;
        let attr = if k == "expression_statement"@ { py_self_attr(t, src, c as int, class_name) } else { None };
        let fresh = match attr {
            Some((_, q)) => !s0.contains(q),
            None => false,
        };
        if fresh {
            let (a, q) = attr.unwrap();
            (d0 + node_decl(t, c as int, a, q), s0.push(q))
        } else if py_nested_kind(k) && fuel > 0 {
            let (d1, s1) = py_attr_walk(t, src, children_of(t, c as int), class_name, s0, (fuel - 1) as nat);
            (d0 + d1, s1)
        } else {
            (d0, s0)
        }
    }
}

/// `self.attr` assignments in an `__init__` body, through nested blocks and
/// branches, each qualified name once.
fn collect_py_self_attributes_recursive(tree: &SyntaxTree, src: &str, node: usize, class_name: &str, decls: &mut Vec<Declaration>, seen: &mut Vec<String>, Ghost(fuel): Ghost<nat>)
    requires
        tree_fits(tree, src),
        node < tree.nodes@.len(),
        decls_fit(old(decls)@, src),
        fuel >= tree.nodes@.len() - node,
    ensures
        decls_fit(final(decls)@, src),
        ({
            let (d, s) = py_attr_walk(tree@, src.spec_bytes(), children_of(tree@, node as int), class_name@, views(old(seen)@), fuel);
            decl_views(final(decls)@) == decl_views(old(decls)@) + d && views(final(seen)@) == s
        }),
    decreases tree.nodes@.len() - node,
{
    let ghost n = src.spec_bytes().len();
    let ghost mut done: Seq<usize> = Seq::empty();
    let ghost seen0 = views(seen@);
    proof {
        lemma_walk_start(tree@, n, node as int);
        assert(decl_views(decls@) + Seq::<DeclView>::empty() =~= decl_views(decls@));
    }
    let mut cur = tree.first_child[node];
    while cur.is_some()
        invariant
            tree_fits(tree, src),
            n == src.spec_bytes().len(),
            node < tree.nodes@.len(),
            fuel >= tree.nodes@.len() - node,
            walking_children(tree@, node as int, done, cur),
            decls_fit(decls@, src),
            decl_views(decls@) == decl_views(old(decls)@) + py_attr_walk(tree@, src.spec_bytes(), done, class_name@, seen0, fuel).0,
            views(seen@) == py_attr_walk(tree@, src.spec_bytes(), done, class_name@, seen0, fuel).1,
        decreases (match cur { Some(c) => tree.nodes@.len() - c, None => 0 }),
    {
        let c = cur.unwrap();
        let ghost before = decl_views(decls@);
        let ghost seen_before = views(seen@);
        let mut handled = false;
        let is_statement = kind_is(tree, c, "expression_statement");
        let attr = if is_statement {
            py_self_attribute_assignment(tree, src, c, class_name)
        } else {
            None
        };
        match attr {
            None => {},
            Some((name, q)) => {
                if !seen_name(seen, q.as_str()) {
                    let ghost qv = q@;
                    let ghost nv = name@;
                    seen.push(q.clone());
                    proof {
                        assert(views(seen@) =~= seen_before.push(qv));
                        assert(qualified_shape(nv, qv));
                    }
                    push_node_declaration(tree, src, c, name, q, decls);
                    handled = true;
                }
            },
        }
        if !handled && is_py_nested(tree, c) {
            collect_py_self_attributes_recursive(tree, src, c, class_name, decls, seen, Ghost((fuel - 1) as nat));
            proof {
                let (d1, s1) = py_attr_walk(tree@, src.spec_bytes(), children_of(tree@, c as int), class_name@, seen_before, (fuel - 1) as nat);
                assert(decl_views(decls@) == before + d1);
            }
        } else if !handled {
            assert(before + Seq::<DeclView>::empty() =~= before);
        }
        proof {
            assert(done.push(c).drop_last() =~= done);
            let (d0, s0) = py_attr_walk(tree@, src.spec_bytes(), done, class_name@, seen0, fuel);
            assert(decl_views(decls@) =~= decl_views(old(decls)@) + py_attr_walk(tree@, src.spec_bytes(), done.push(c), class_name@, seen0, fuel).0);
            assert(views(seen@) == py_attr_walk(tree@, src.spec_bytes(), done.push(c), class_name@, seen0, fuel).1);
            lemma_walk_step(tree@, n, node as int, done, c);
            done = done.push(c);
        }
        cur = tree.next_sibling[c];
    }
    proof {
        lemma_walk_end(tree@, node as int, done);
    }
}

/// What one member of a Python class body declares: its `self` attributes
/// for `__init__`, else the method over its decorated range unless dunder.
pub open spec fn py_member_decls(t: SyntaxView, src: Seq<u8>, c: usize, class_name: Seq<char>) -> Seq<DeclView> {
    let inner = py_unwrap(t, c);
    if t.nodes[inner as int].kind == "function_definition"@ {
        match field_text_of(t, src, inner as int, "name"@) {
            None => Seq::empty(),
            Some(m) => if m == "__init__"@ {
                match first_match(t, children_of(t, inner as int), false, "body"@) {
                    None => Seq::empty(),
                    Some(b) => py_attr_walk(t, src, children_of(t, b as int), class_name, Seq::empty(), t.nodes.len()).0,
                }
            } else if !dunder(m) {
                node_decl(t, c as int, m, class_name + seq!['.'] + m)
            } else {
                Seq::empty()
            },
        }
    } else {
        Seq::empty()
    }
}

pub open spec fn py_members(t: SyntaxView, src: Seq<u8>, cs: Seq<usize>, class_name: Seq<char>) -> Seq<DeclView>
    decreases cs.len(),
{
    if cs.len() == 0 {
        Seq::empty()
    } else {
        py_members(t, src, cs.drop_last(), class_name) + py_member_decls(t, src, cs.last(), class_name)
    }
}

/// The members a Python class declares.
pub open spec fn py_class_decls(t: SyntaxView, src: Seq<u8>, node: int, class_name: Seq<char>) -> Seq<DeclView> {
    match first_match(t, children_of(t, node), false, "body"@) {
        None => Seq::empty(),
        Some(b) => py_members(t, src, children_of(t, b as int), class_name),
    }
}

/// What one member of a class body declares.
fn collect_py_member(tree: &SyntaxTree, src: &str, c: usize, class_name: &str, decls: &mut Vec<Declaration>)
    requires
        tree_fits(tree, src),
        c < tree.nodes@.len(),
        decls_fit(old(decls)@, src),
    ensures
        decls_fit(final(decls)@, src),
        decl_views(final(decls)@) == decl_views(old(decls)@) + py_member_decls(tree@, src.spec_bytes(), c, class_name@),
{
    proof {
        reveal_strlit(".");
        reveal_strlit("__init__");
        assert("."@ =~= seq!['.']);
        assert(decl_views(decls@) + Seq::<DeclView>::empty() =~= decl_views(decls@));
    }
    let inner = py_unwrap_decorated(tree, c);
    if !kind_is(tree, inner, "function_definition") {
        return;
    }
    let method = match field_text(tree, src, inner, "name") {
        None => return,
        Some(m) => m,
    };
    if str_eq(method.as_str(), "__init__") {
        match child_by_field(tree, inner, "body") {
            None => {},
            Some(init_body) => {
                let mut seen: Vec<String> = Vec::new();
                proof {
                    assert(views(seen@) =~= Seq::<Seq<char>>::empty());
                }
                collect_py_self_attributes_recursive(tree, src, init_body, class_name, decls, &mut seen, Ghost(tree.nodes@.len()));
            },
        }
    } else if !is_dunder(method.as_str()) {
        let q = concat3(class_name, ".", method.as_str());
        assert(q@ == class_name@ + seq!['.'] + method@);
        push_node_declaration(tree, src, c, method, q, decls);
    }
}

/// Methods of a Python class other than dunder methods, as `Class.method`
/// over the decorated range; `__init__` contributes its `self` attributes.
fn collect_py_class_members(tree: &SyntaxTree, src: &str, node: usize, class_name: &str, decls: &mut Vec<Declaration>)
    requires
        tree_fits(tree, src),
        node < tree.nodes@.len(),
        decls_fit(old(decls)@, src),
    ensures
        decls_fit(final(decls)@, src),
        decl_views(final(decls)@) == decl_views(old(decls)@) + py_class_decls(tree@, src.spec_bytes(), node as int, class_name@),
{
    proof {
        assert(decl_views(decls@) + Seq::<DeclView>::empty() =~= decl_views(decls@));
    }
    let body = match child_by_field(tree, node, "body") {
        None => return,
        Some(b) => b,
    };
    let ghost n = src.spec_bytes().len();
    let ghost mut done: Seq<usize> = Seq::empty();
    proof {
        lemma_walk_start(tree@, n, body as int);
        assert(decl_views(decls@) + py_members(tree@, src.spec_bytes(), done, class_name@) =~= decl_views(decls@));
    }
    let mut cur = tree.first_child[body];
    while cur.is_some()
        invariant
            tree_fits(tree, src),
            n == src.spec_bytes().len(),
            body < tree.nodes@.len(),
            walking_children(tree@, body as int, done, cur),
            decls_fit(decls@, src),
            decl_views(decls@) == decl_views(old(decls)@) + py_members(tree@, src.spec_bytes(), done, class_name@),
        decreases (match cur { Some(c) => tree.nodes@.len() - c, None => 0 }),
    {
        let c = cur.unwrap();
        collect_py_member(tree, src, c, class_name, decls);
        proof {
            assert(done.push(c).drop_last() =~= done);
            assert(decl_views(decls@) =~= decl_views(old(decls)@) + py_members(tree@, src.spec_bytes(), done.push(c), class_name@));
            lemma_walk_step(tree@, n, body as int, done, c);
            done = done.push(c);
        }
        cur = tree.next_sibling[c];
    }
    proof {
        lemma_walk_end(tree@, body as int, done);
    }
}

/// A module-level `NAME = ...` whose name does not start with `_`, over
/// the statement's range.
pub open spec fn py_module_var(t: SyntaxView, src: Seq<u8>, node: int) -> Seq<DeclView> {
    match first_match(t, children_of(t, node), true, "assignment"@) {
        None => Seq::empty(),
        Some(a) => match first_match(t, children_of(t, a as int), false, "left"@) {
            None => Seq::empty(),
            Some(l) => if t.nodes[l as int].kind == "identifier"@ {
                match text_of_node(t, src, l as int) {
                    None => Seq::empty(),
                    Some(name) => if name.len() > 0 && name[0] == '_' { Seq::empty() } else { node_decl(t, node, name, name) },
                }
            } else {
                Seq::empty()
            },
        },
    }
}

/// A module-level `NAME = ...` whose name does not start with `_`.
fn py_module_variable(tree: &SyntaxTree, src: &str, node: usize, decls: &mut Vec<Declaration>)
    requires
        tree_fits(tree, src),
        node < tree.nodes@.len(),
        decls_fit(old(decls)@, src),
    ensures
        decls_fit(final(decls)@, src),
        decl_views(final(decls)@) == decl_views(old(decls)@) + py_module_var(tree@, src.spec_bytes(), node as int),
{
    proof {
        assert(decl_views(decls@) + Seq::<DeclView>::empty() =~= decl_views(decls@));
    }
    let assignment = match first_child_of_kind(tree, node, "assignment") {
        None => return,
        Some(a) => a,
    };
    let left = match child_by_field(tree, assignment, "left") {
        None => return,
        Some(l) => l,
    };
    if !kind_is(tree, left, "identifier") {
        return;
    }
    match node_text(tree, src, left) {
        None => {},
        Some(name) => {
            let cs = chars_of(name.as_str());
            if cs.len() > 0 && cs[0] == '_' {
                return;
            }
            let q = name.clone();
            push_node_declaration(tree, src, node, name, q, decls);
        },
    }
}

/// What one top-level Python node declares: a class (after its members)
/// or function over its decorated range, or a public module variable.
pub open spec fn py_item_decls(t: SyntaxView, src: Seq<u8>, n: usize) -> Seq<DeclView> {
    let inner = py_unwrap(t, n);
    let k = t.nodes[inner as int].kind;
    if k == "class_definition"@ || k == "function_definition"@ {
        match field_text_of(t, src, inner as int, "name"@) {
            None => Seq::empty(),
            Some(name) => (if k == "class_definition"@ { py_class_decls(t, src, inner as int, name) } else { Seq::empty() })
                + node_decl(t, n as int, name, name),
        }
    } else if k == "expression_statement"@ {
        py_module_var(t, src, inner as int)
    } else {
        Seq::empty()
    }
}

pub open spec fn py_decls(t: SyntaxView, src: Seq<u8>, cs: Seq<usize>) -> Seq<DeclView>
    decreases cs.len(),
{
    if cs.len() == 0 {
        Seq::empty()
    } else {
        py_decls(t, src, cs.drop_last()) + py_item_decls(t, src, cs.last())
    }
}

/// What one top-level Python node declares.
fn collect_py_top_level_node(tree: &SyntaxTree, src: &str, node: usize, decls: &mut Vec<Declaration>)
    requires
        tree_fits(tree, src),
        node < tree.nodes@.len(),
        decls_fit(old(decls)@, src),
    ensures
        decls_fit(final(decls)@, src),
        decl_views(final(decls)@) == decl_views(old(decls)@) + py_item_decls(tree@, src.spec_bytes(), node),
{
    let ghost start = decl_views(decls@);
    proof {
        assert(start + Seq::<DeclView>::empty() =~= start);
    }
    let inner = py_unwrap_decorated(tree, node);
    let is_class = kind_is(tree, inner, "class_definition");
    if is_class || kind_is(tree, inner, "function_definition") {
        match field_text(tree, src, inner, "name") {
            None => {},
            Some(name) => {
                if is_class {
                    collect_py_class_members(tree, src, inner, name.as_str(), decls);
                }
                let ghost mid = decl_views(decls@);
                let ghost pc = if is_class { py_class_decls(tree@, src.spec_bytes(), inner as int, name@) } else { Seq::empty() };
                assert(mid == start + pc) by {
                    assert(start + Seq::<DeclView>::empty() =~= start);
                }
                let q = name.clone();
                let ghost nm = name@;
                push_node_declaration(tree, src, node, name, q, decls);
                assert(decl_views(decls@) =~= start + (pc + node_decl(tree@, node as int, nm, nm)));
            },
        }
    } else if kind_is(tree, inner, "expression_statement") {
        py_module_variable(tree, src, inner, decls);
    }
}

/// All named declarations of a Python source.
fn collect_py_declarations(tree: &SyntaxTree, src: &str) -> (r: Vec<Declaration>)
    requires
        tree_fits(tree, src),
    ensures
        decls_fit(r@, src),
        decl_views(r@) == py_decls(tree@, src.spec_bytes(), children_of(tree@, 0)),
{
    let ghost n = src.spec_bytes().len();
    let ghost mut done: Seq<usize> = Seq::empty();
    let mut decls: Vec<Declaration> = Vec::new();
    proof {
        lemma_walk_start(tree@, n, 0);
        assert(decl_views(decls@) =~= py_decls(tree@, src.spec_bytes(), done));
    }
    let mut cur = tree.first_child[0];
    while cur.is_some()
        invariant
            tree_fits(tree, src),
            n == src.spec_bytes().len(),
            walking_children(tree@, 0, done, cur),
            decls_fit(decls@, src),
            decl_views(decls@) == py_decls(tree@, src.spec_bytes(), done),
        decreases (match cur { Some(c) => tree.nodes@.len() - c, None => 0 }),
    {
        let node = cur.unwrap();
        collect_py_top_level_node(tree, src, node, &mut decls);
        proof {
            assert(done.push(node).drop_last() =~= done);
            lemma_walk_step(tree@, n, 0, done, node);
            done = done.push(node);
        }
        cur = tree.next_sibling[node];
    }
    proof {
        lemma_walk_end(tree@, 0, done);
    }
    decls
}

/// Kinds of the node that holds a heading's text.
pub open spec fn heading_content_kind(k: Seq<char>) -> bool {
    k == "heading_content"@ || k == "inline"@
}

/// The first of `cs` that holds heading text.
pub open spec fn first_content(t: SyntaxView, cs: Seq<usize>) -> Option<usize>
    decreases cs.len(),
{
    if cs.len() == 0 {
        None
    } else if heading_content_kind(t.nodes[cs[0] as int].kind) {
        Some(cs[0])
    } else {
        first_content(t, cs.drop_first())
    }
}

proof fn lemma_first_content_skip(t: SyntaxView, a: Seq<usize>, b: Seq<usize>)
    requires
        forall|k: int| 0 <= k < a.len() ==> !heading_content_kind(t.nodes[#[trigger] a[k] as int].kind),
    ensures
        first_content(t, a + b) == first_content(t, b),
    decreases a.len(),
{
    if a.len() > 0 {
        assert((a + b)[0] == a[0]);
        assert((a + b).drop_first() =~= a.drop_first() + b);
        assert forall|k: int| 0 <= k < a.drop_first().len() implies !heading_content_kind(t.nodes[#[trigger] a.drop_first()[k] as int].kind) by {
            assert(a.drop_first()[k] == a[k + 1]);
        }
        lemma_first_content_skip(t, a.drop_first(), b);
    } else {
        assert(a + b =~= b);
    }
}

/// `s` without its leading `#` marks.
pub open spec fn strip_hashes(s: Seq<char>) -> Seq<char>
    decreases s.len(),
{
    if s.len() > 0 && s[0] == '#' {
        strip_hashes(s.drop_first())
    } else {
        s
    }
}

/// The text of a heading: its inline content, or else the heading without
/// its `#` marks and surrounding ASCII whitespace.
pub open spec fn heading_text(t: SyntaxView, src: Seq<u8>, h: int) -> Option<Seq<char>> {
    match first_content(t, children_of(t, h)) {
        Some(c) => text_of_node(t, src, c as int),
        None => match text_of_node(t, src, h) {
            None => None,
            Some(x) => Some(trim_ws(strip_hashes(x))),
        },
    }
}

/// The first child of `heading` that holds its text.
fn heading_content_child(tree: &SyntaxTree, heading: usize) -> (r: Option<usize>)
    requires
        exists|n: nat| tree.wf(n),
        heading < tree.nodes@.len(),
    ensures
        r == first_content(tree@, children_of(tree@, heading as int)),
        r matches Some(c) ==> c < tree.nodes@.len(),
{
    let ghost n = choose|n: nat| tree.wf(n);
    let ghost mut done: Seq<usize> = Seq::empty();
    proof {
        lemma_walk_start(tree@, n, heading as int);
    }
    let mut cur = tree.first_child[heading];
    while cur.is_some()
        invariant
            tree.wf(n),
            heading < tree.nodes@.len(),
            walking_children(tree@, heading as int, done, cur),
            forall|k: int| 0 <= k < done.len() ==> !heading_content_kind(tree@.nodes[#[trigger] done[k] as int].kind),
        decreases (match cur { Some(c) => tree.nodes@.len() - c, None => 0 }),
    {
        let c = cur.unwrap();
        proof {
            let f = (tree.nodes@.len() - done.len()) as nat;
            let rest = sibling_chain(tree@, tree.next_sibling@[c as int], (f - 1) as nat);
            assert(sibling_chain(tree@, Some(c), f) == seq![c] + rest);
            lemma_first_content_skip(tree@, done, seq![c] + rest);
            assert((seq![c] + rest)[0] == c);
        }
        if kind_is(tree, c, "heading_content") || kind_is(tree, c, "inline") {
            return Some(c);
        }
        proof {
            lemma_walk_step(tree@, n, heading as int, done, c);
            done = done.push(c);
        }
        cur = tree.next_sibling[c];
    }
    proof {
        lemma_walk_end(tree@, heading as int, done);
        lemma_first_content_skip(tree@, done, Seq::empty());
        assert(done + Seq::<usize>::empty() =~= done);
    }
    None
}

/// The text of a heading: its inline content, or else the heading without
/// its `#` marks and surrounding whitespace.
fn extract_heading_inline_text(tree: &SyntaxTree, src: &str, heading: usize) -> (r: Option<String>)
    requires
        tree_fits(tree, src),
        heading < tree.nodes@.len(),
    ensures
        r is Some <==> heading_text(tree@, src.spec_bytes(), heading as int) is Some,
        r matches Some(x) ==> x@ == heading_text(tree@, src.spec_bytes(), heading as int)->0,
{
    match heading_content_child(tree, heading) {
        Some(c) => return node_text(tree, src, c),
        None => {},
    }
    let text = match node_text(tree, src, heading) {
        None => return None,
        Some(t) => t,
    };
    let cs = chars_of(text.as_str());
    let mut i: usize = 0;
    assert(text@.subrange(0, cs.len() as int) =~= text@);
    while i < cs.len() && cs[i] == '#'
        invariant
            cs@ == text@,
            i <= cs.len(),
            strip_hashes(text@) == strip_hashes(text@.subrange(i as int, cs.len() as int)),
        decreases cs.len() - i,
    {
        assert(text@.subrange(i as int, cs.len() as int).drop_first() =~= text@.subrange(i + 1, cs.len() as int));
        i = i + 1;
    }
    let rest = text.as_str().substring_char(i, cs.len());
    proof {
        if i < cs.len() {
            assert(rest@[0] == cs@[i as int]);
        }
        assert(strip_hashes(rest@) == rest@);
    }
    Some(owned(trim_ascii_ws(rest)))
}

/// The slug of a section's heading and whether the heading is a level-one
/// title; nothing without a heading or with an empty slug.
pub open spec fn section_slug(t: SyntaxView, src: Seq<u8>, section: int) -> Option<(Seq<char>, bool)> {
    match first_match(t, children_of(t, section), true, "atx_heading"@) {
        None => None,
        Some(h) => match heading_text(t, src, h as int) {
            None => None,
            Some(x) => {
                let slug = slug_of(lowercase_of(x));
                if slug.len() == 0 {
                    None
                } else {
                    Some((slug, first_match(t, children_of(t, h as int), true, "atx_h1_marker"@) is Some))
                }
            },
        },
    }
}

/// The slug of a section's heading, and whether the heading is a level-one
/// title; nothing when the section has no heading or its slug is empty.
fn extract_section_slug_and_title_flag(tree: &SyntaxTree, src: &str, section: usize) -> (r: Option<(String, bool)>)
    requires
        tree_fits(tree, src),
        section < tree.nodes@.len(),
    ensures
        r is Some <==> section_slug(tree@, src.spec_bytes(), section as int) is Some,
        r matches Some((slug, title)) ==> section_slug(tree@, src.spec_bytes(), section as int) == Some((slug@, title)),
{
    let heading = match first_child_of_kind(tree, section, "atx_heading") {
        None => return None,
        Some(h) => h,
    };
    let is_h1 = first_child_of_kind(tree, heading, "atx_h1_marker").is_some();
    let text = match extract_heading_inline_text(tree, src, heading) {
        None => return None,
        Some(t) => t,
    };
    let slug = slugify(text.as_str());
    if slug.unicode_len() == 0 {
        return None;
    }
    Some((slug, is_h1))
}

/// The declarations of the sections among `cs` and, within `fuel` levels,
/// of the sections nested in them. A section is named by its slug and
/// qualified by `parent` unless it is a title or `parent` is empty; a
/// title opens no scope for the sections in it.
pub open spec fn md_walk(t: SyntaxView, src: Seq<u8>, cs: Seq<usize>, parent: Seq<char>, fuel: nat) -> Seq<DeclView>
    decreases fuel, cs.len(),
{
    if cs.len() == 0 {
        Seq::empty()
    } else {
        let c = cs.last();
        md_walk(t, src, cs.drop_last(), parent, fuel) + if t.nodes[c as int].kind == "section"@ {
            match section_slug(t, src, c as int) {
                None => Seq::empty(),
                Some((slug, title)) => {
                    let q = if title || parent.len() == 0 { slug } else { parent + seq!['.'] + slug };
                    node_decl(t, c as int, slug, q) + if fuel == 0 {
                        Seq::empty()
                    } else {
                        md_walk(t, src, children_of(t, c as int), if title { Seq::empty() } else { q }, (fuel - 1) as nat)
                    }
                },
            }
        } else {
            Seq::empty()
        }
    }
}

/// Sections below `node` as declarations named by their slugs. A nested
/// section is qualified by its parent's qualified slug; a level-one title
/// starts no scope.
fn walk_markdown_sections_with_scope(tree: &SyntaxTree, src: &str, node: usize, parent_slug: &str, decls: &mut Vec<Declaration>, Ghost(fuel): Ghost<nat>)
    requires
        tree_fits(tree, src),
        node < tree.nodes@.len(),
        decls_fit(old(decls)@, src),
        fuel >= tree.nodes@.len() - node,
    ensures
        decls_fit(final(decls)@, src),
        decl_views(final(decls)@) == decl_views(old(decls)@) + md_walk(tree@, src.spec_bytes(), children_of(tree@, node as int), parent_slug@, fuel),
    decreases tree.nodes@.len() - node,
{
    proof {
        reveal_strlit(".");
        assert("."@ =~= seq!['.']);
    }
    let ghost n = src.spec_bytes().len();
    let ghost mut done: Seq<usize> = Seq::empty();
    proof {
        lemma_walk_start(tree@, n, node as int);
        assert(decl_views(decls@) + md_walk(tree@, src.spec_bytes(), done, parent_slug@, fuel) =~= decl_views(decls@));
    }
    let mut cur = tree.first_child[node];
    while cur.is_some()
        invariant
            tree_fits(tree, src),
            n == src.spec_bytes().len(),
            node < tree.nodes@.len(),
            fuel >= tree.nodes@.len() - node,
            walking_children(tree@, node as int, done, cur),
            decls_fit(decls@, src),
            decl_views(decls@) == decl_views(old(decls)@) + md_walk(tree@, src.spec_bytes(), done, parent_slug@, fuel),
        decreases (match cur { Some(c) => tree.nodes@.len() - c, None => 0 }),
    {
        let c = cur.unwrap();
        let ghost before = decl_views(decls@);
        let mut handled = false;
        if kind_is(tree, c, "section") {
            match extract_section_slug_and_title_flag(tree, src, c) {
                None => {},
                Some((slug, is_title)) => {
                    let qualified = if is_title || parent_slug.unicode_len() == 0 {
                        slug.clone()
                    } else {
                        let q = concat3(parent_slug, ".", slug.as_str());
                        proof {
                            reveal_strlit(".");
                            assert("."@ =~= seq!['.']);
                            assert(q@ == parent_slug@ + seq!['.'] + slug@);
                        }
                        q
                    };
                    let scope = if is_title { String::new() } else { qualified.clone() };
                    let ghost slug_v = slug@;
                    let ghost q_v = qualified@;
                    push_node_declaration(tree, src, c, slug, qualified, decls);
                    walk_markdown_sections_with_scope(tree, src, c, scope.as_str(), decls, Ghost((fuel - 1) as nat));
                    proof {
                        assert(decl_views(decls@) =~= before + (node_decl(tree@, c as int, slug_v, q_v)
                            + md_walk(tree@, src.spec_bytes(), children_of(tree@, c as int), scope@, (fuel - 1) as nat)));
                    }
                    handled = true;
                },
            }
        }
        proof {
            if !handled {
                assert(before + Seq::<DeclView>::empty() =~= before);
            }
            assert(done.push(c).drop_last() =~= done);
            assert(decl_views(decls@) =~= decl_views(old(decls)@) + md_walk(tree@, src.spec_bytes(), done.push(c), parent_slug@, fuel));
            lemma_walk_step(tree@, n, node as int, done, c);
            done = done.push(c);
        }
        cur = tree.next_sibling[c];
    }
    proof {
        lemma_walk_end(tree@, node as int, done);
    }
}

/// The declarations of a tree by the rules of its language.
pub open spec fn lang_decls(t: SyntaxView, src: Seq<u8>, lang: Lang) -> Seq<DeclView> {
    match lang {
        Lang::Rust => rust_decls(t, src, children_of(t, 0)),
        Lang::TypeScript | Lang::Tsx => ts_decls(t, src, children_of(t, 0)),
        Lang::Go => go_decls(t, src, children_of(t, 0)),
        Lang::Markdown => md_walk(t, src, children_of(t, 0), Seq::empty(), t.nodes.len()),
        Lang::Python => py_decls(t, src, children_of(t, 0)),
    }
}

/// The declarations of a parsed source, by the rules of its language.
pub fn collect_declarations(tree: &SyntaxTree, src: &str, lang: Lang) -> (r: Vec<Declaration>)
    requires
        tree_fits(tree, src),
    ensures
        decls_fit(r@, src),
        decl_views(r@) == lang_decls(tree@, src.spec_bytes(), lang),
{
    match lang {
        Lang::Rust => collect_rust_declarations(tree, src),
        Lang::TypeScript | Lang::Tsx => collect_ts_declarations(tree, src),
        Lang::Go => collect_go_declarations(tree, src),
        Lang::Python => collect_py_declarations(tree, src),
        Lang::Markdown => {
            let mut decls: Vec<Declaration> = Vec::new();
            proof {
                reveal_strlit("");
                assert(""@ =~= Seq::<char>::empty());
                assert(decl_views(decls@) =~= Seq::<DeclView>::empty());
            }
            walk_markdown_sections_with_scope(tree, src, 0, "", &mut decls, Ghost(tree.nodes@.len()));
            assert(Seq::<DeclView>::empty() + md_walk(tree@, src.spec_bytes(), children_of(tree@, 0), Seq::empty(), tree.nodes@.len())
                =~= md_walk(tree@, src.spec_bytes(), children_of(tree@, 0), Seq::empty(), tree.nodes@.len()));
            decls
        },
    }
}

} // verus!

verus! {

/// Largest source the resolver accepts: 16 MiB.
pub const MAX_FILE_SIZE: u64 = 16777216;

/// The declarations named `n`, in order.
pub open spec fn named(ds: Seq<DeclView>, n: Seq<char>) -> Seq<DeclView>
    decreases ds.len(),
{
    if ds.len() == 0 {
        Seq::empty()
    } else if ds.last().2 == n {
        named(ds.drop_last(), n).push(ds.last())
    } else {
        named(ds.drop_last(), n)
    }
}

/// The qualified names of some declarations.
pub open spec fn qualified_names(ds: Seq<DeclView>) -> Seq<Seq<char>> {
    ds.map_values(|d: DeclView| d.3)
}

/// Index of the first declaration whose qualified name is `q`, or -1.
pub open spec fn qualified_index(ds: Seq<DeclView>, q: Seq<char>) -> int
    decreases ds.len(),
{
    if ds.len() == 0 {
        -1
    } else if qualified_index(ds.drop_last(), q) >= 0 {
        qualified_index(ds.drop_last(), q)
    } else if ds.last().3 == q {
        ds.len() - 1
    } else {
        -1
    }
}

/// The range of a declaration as a resolved symbol.
pub open spec fn resolves_to(r: ResolvedSymbol, d: DeclView) -> bool {
    r.byte_range.start == d.0 && r.byte_range.end == d.1
}

/// The error for a missing symbol: the first ten qualified names as
/// suggestions, no referencing locations yet.
pub open spec fn not_found_error(e: Error, file: Seq<char>, symbol: Seq<char>, ds: Seq<DeclView>) -> bool {
    e matches Error::SymbolNotFound { file: f, referenced_from, suggestions, symbol: s }
        && f@ == file && s@ == symbol && referenced_from@.len() == 0
        && views(suggestions@) == qualified_names(ds.take(if ds.len() < 10 { ds.len() as int } else { 10 }))
}

fn declaration_to_resolved_symbol(d: &Declaration) -> (r: ResolvedSymbol)
    ensures
        resolves_to(r, decl_view(*d)),
{
    ResolvedSymbol { byte_range: d.start..d.end }
}

/// A symbol-not-found error with up to ten suggestions, in declaration order.
fn symbol_not_found_error(file_path: &str, name: &str, declarations: &Vec<Declaration>) -> (r: Error)
    ensures
        not_found_error(r, file_path@, name@, decl_views(declarations@)),
{
    let limit: usize = if declarations.len() < 10 { declarations.len() } else { 10 };
    let mut suggestions: Vec<String> = Vec::new();
    let mut i: usize = 0;
    while i < limit
        invariant
            limit <= declarations.len(),
            i <= limit,
            views(suggestions@) == qualified_names(decl_views(declarations@).take(i as int)),
        decreases limit - i,
    {
        let ghost before = suggestions@;
        suggestions.push(declarations[i].qualified_name.clone());
        assert(views(suggestions@) =~= views(before).push(decl_views(declarations@)[i as int].3));
        assert(qualified_names(decl_views(declarations@).take(i + 1)) =~= qualified_names(decl_views(declarations@).take(i as int)).push(decl_views(declarations@)[i as int].3));
        i = i + 1;
    }
    Error::SymbolNotFound { file: owned(file_path), referenced_from: Vec::new(), suggestions, symbol: owned(name) }
}

/// The outcome of a bare lookup of `name` among `ds`: the one match, or
/// symbol-not-found, or ambiguity with the qualified names as candidates.
pub open spec fn bare_result(r: Result<ResolvedSymbol, Error>, file_path: Seq<char>, name: Seq<char>, ds: Seq<DeclView>) -> bool {
    let m = named(ds, name);
    &&& m.len() == 0 ==> (r matches Err(e) && not_found_error(e, file_path, name, ds))
    &&& m.len() == 1 ==> (r matches Ok(s) && resolves_to(s, m[0]))
    &&& m.len() >= 2 ==> (r matches Err(Error::AmbiguousSymbol { candidates, file, symbol })
        && views(candidates@) == qualified_names(m) && file@ == file_path && symbol@ == name)
}

/// The outcome of a dot-path lookup of `parent.child` among `ds`: the first
/// declaration with that qualified name, or symbol-not-found.
pub open spec fn dotpath_result(r: Result<ResolvedSymbol, Error>, file_path: Seq<char>, parent: Seq<char>, child: Seq<char>, ds: Seq<DeclView>) -> bool {
    let q = parent + seq!['.'] + child;
    let k = qualified_index(ds, q);
    &&& k >= 0 ==> (r matches Ok(s) && resolves_to(s, ds[k]))
    &&& k < 0 ==> (r matches Err(e) && not_found_error(e, file_path, q, ds))
}

/// The outcome of resolving a query among `ds`.
pub open spec fn query_result(r: Result<ResolvedSymbol, Error>, file_path: Seq<char>, query: SymbolQuery, ds: Seq<DeclView>) -> bool {
    match query {
        SymbolQuery::Bare(n) => bare_result(r, file_path, n@, ds),
        SymbolQuery::Scoped { child, parent } => dotpath_result(r, file_path, parent@, child@, ds),
        SymbolQuery::WholeFile => false,
    }
}

/// Find the declaration with short name `name`: exactly one resolves, none
/// is symbol-not-found, several are ambiguous with their qualified names as
/// candidates.
pub fn find_declaration_by_bare_name(declarations: &Vec<Declaration>, name: &str, file_path: &str) -> (r: Result<ResolvedSymbol, Error>)
    ensures
        bare_result(r, file_path@, name@, decl_views(declarations@)),
{
    let mut first: usize = 0;
    let mut candidates: Vec<String> = Vec::new();
    let mut i: usize = 0;
    while i < declarations.len()
        invariant
            i <= declarations.len(),
            views(candidates@) == qualified_names(named(decl_views(declarations@).take(i as int), name@)),
            named(decl_views(declarations@).take(i as int), name@).len() >= 1 ==> first < i
                && named(decl_views(declarations@).take(i as int), name@)[0] == decl_views(declarations@)[first as int],
        decreases declarations.len() - i,
    {
        let ghost before = candidates@;
        let ghost m = named(decl_views(declarations@).take(i as int), name@);
        assert(decl_views(declarations@).take(i + 1).drop_last() =~= decl_views(declarations@).take(i as int));
        if str_eq(declarations[i].name.as_str(), name) {
            if candidates.len() == 0 {
                first = i;
            }
            candidates.push(declarations[i].qualified_name.clone());
            assert(views(candidates@) =~= views(before).push(decl_views(declarations@)[i as int].3));
            assert(qualified_names(m.push(decl_views(declarations@)[i as int])) =~= qualified_names(m).push(decl_views(declarations@)[i as int].3));
            assert(m.push(decl_views(declarations@)[i as int])[0] == if m.len() == 0 { decl_views(declarations@)[i as int] } else { m[0] });
        }
        i = i + 1;
    }
    assert(decl_views(declarations@).take(i as int) =~= decl_views(declarations@));
    if candidates.len() == 0 {
        return Err(symbol_not_found_error(file_path, name, declarations));
    }
    if candidates.len() == 1 {
        return Ok(declaration_to_resolved_symbol(&declarations[first]));
    }
    Err(Error::AmbiguousSymbol { candidates, file: owned(file_path), symbol: owned(name) })
}

/// Find the first declaration whose qualified name is `parent.child`.
pub fn find_declaration_by_qualified_dotpath(declarations: &Vec<Declaration>, parent: &str, child: &str, file_path: &str) -> (r: Result<ResolvedSymbol, Error>)
    ensures
        dotpath_result(r, file_path@, parent@, child@, decl_views(declarations@)),
{
    proof {
        reveal_strlit(".");
        assert("."@ =~= seq!['.']);
    }
    let qualified = concat3(parent, ".", child);
    proof {
        reveal_strlit(".");
        assert("."@ =~= seq!['.']);
        assert(qualified@ == parent@ + seq!['.'] + (child)@);
    }
    let mut i: usize = 0;
    while i < declarations.len()
        invariant
            qualified@ == parent@ + seq!['.'] + child@,
            i <= declarations.len(),
            qualified_index(decl_views(declarations@).take(i as int), qualified@) < 0,
        decreases declarations.len() - i,
    {
        assert(decl_views(declarations@).take(i + 1).drop_last() =~= decl_views(declarations@).take(i as int));
        if declarations[i].qualified_name == qualified {
            proof {
                lemma_qualified_index_prefix(decl_views(declarations@), qualified@, i + 1);
            }
            return Ok(declaration_to_resolved_symbol(&declarations[i]));
        }
        i = i + 1;
    }
    assert(decl_views(declarations@).take(i as int) =~= decl_views(declarations@));
    Err(symbol_not_found_error(file_path, qualified.as_str(), declarations))
}

proof fn lemma_qualified_index_prefix(ds: Seq<DeclView>, q: Seq<char>, k: int)
    requires
        0 <= k <= ds.len(),
        qualified_index(ds.take(k), q) >= 0,
    ensures
        qualified_index(ds, q) == qualified_index(ds.take(k), q),
        0 <= qualified_index(ds, q) < k,
        ds[qualified_index(ds, q)].3 == q,
    decreases ds.len() - k,
{
    lemma_qualified_index_bound(ds.take(k), q);
    if k < ds.len() {
        assert(ds.take(k + 1).drop_last() =~= ds.take(k));
        lemma_qualified_index_prefix(ds, q, k + 1);
    } else {
        assert(ds.take(k) =~= ds);
    }
}

proof fn lemma_qualified_index_bound(ds: Seq<DeclView>, q: Seq<char>)
    ensures
        -1 <= qualified_index(ds, q) < ds.len(),
        qualified_index(ds, q) >= 0 ==> ds[qualified_index(ds, q)].3 == q,
        (exists|i: int| 0 <= i < ds.len() && (#[trigger] ds[i]).3 == q) ==> qualified_index(ds, q) >= 0,
    decreases ds.len(),
{
    if ds.len() > 0 {
        let t = ds.drop_last();
        lemma_qualified_index_bound(t, q);
        if exists|i: int| 0 <= i < ds.len() && (#[trigger] ds[i]).3 == q {
            let i = choose|i: int| 0 <= i < ds.len() && (#[trigger] ds[i]).3 == q;
            if i < ds.len() - 1 {
                assert(t[i] == ds[i]);
            }
        }
        if qualified_index(t, q) >= 0 {
            assert(t[qualified_index(t, q)] == ds[qualified_index(t, q)]);
        }
    }
}

proof fn lemma_named_members(ds: Seq<DeclView>, n: Seq<char>)
    ensures
        forall|i: int| 0 <= i < named(ds, n).len() ==> exists|j: int| 0 <= j < ds.len() && ds[j] == #[trigger] named(ds, n)[i],
        forall|i: int| 0 <= i < named(ds, n).len() ==> (#[trigger] named(ds, n)[i]).2 == n,
    decreases ds.len(),
{
    if ds.len() > 0 {
        let t = ds.drop_last();
        lemma_named_members(t, n);
        assert forall|i: int| 0 <= i < named(ds, n).len() implies exists|j: int| 0 <= j < ds.len() && ds[j] == #[trigger] named(ds, n)[i] by {
            if i < named(t, n).len() {
                let j = choose|j: int| 0 <= j < t.len() && t[j] == named(t, n)[i];
                assert(ds[j] == t[j]);
            } else {
                assert(ds[ds.len() - 1] == named(ds, n)[i]);
            }
        }
    }
}

/// Every candidate of an ambiguous bare name, split at its first `.`, names
/// a declaration as a scoped query: the dot-path lookup finds it. A
/// candidate that is the bare name itself (two top-level items of one name)
/// has no scoped form and is left out.
pub proof fn lemma_ambiguity_symmetry(ds: Seq<DeclView>, n: Seq<char>)
    requires
        views_well_named(ds),
        named(ds, n).len() >= 2,
        forall|i: int| 0 <= i < named(ds, n).len() ==> (#[trigger] named(ds, n)[i]).3 != n,
    ensures
        forall|i: int| 0 <= i < named(ds, n).len() ==> {
            let c = (#[trigger] named(ds, n)[i]).3;
            split_first(c, '.') matches Some((p, ch)) && qualified_index(ds, p + seq!['.'] + ch) >= 0
        },
{
    lemma_named_members(ds, n);
    assert forall|i: int| 0 <= i < named(ds, n).len() implies {
        let c = (#[trigger] named(ds, n)[i]).3;
        split_first(c, '.') matches Some((p, ch)) && qualified_index(ds, p + seq!['.'] + ch) >= 0
    } by {
        let d = named(ds, n)[i];
        let c = d.3;
        let j = choose|j: int| 0 <= j < ds.len() && ds[j] == named(ds, n)[i];
        assert(qualified_shape(ds[j].2, ds[j].3));
        assert(d.2 == n);
        let pre = choose|pre: Seq<char>| c == pre + seq!['.'] + n;
        assert((pre + seq!['.'] + n)[pre.len() as int] == '.');
        assert(c[pre.len() as int] == '.');
        assert(c.contains('.'));
        lemma_index_of(c, '.');
        let k = index_of(c, '.');
        assert(c =~= c.subrange(0, k) + seq!['.'] + c.subrange(k + 1, c.len() as int));
        lemma_qualified_index_bound(ds, c);
        assert(ds[j].3 == c);
    }
}

/// Resolve a query against the declarations of a source. Sources over
/// 16 MiB are refused. The whole-file query is not resolved here.
pub fn resolve(file_path: &str, source: &str, lang: Lang, query: &SymbolQuery) -> (r: Result<ResolvedSymbol, Error>)
    requires
        !(query is WholeFile),
    ensures
        source.len() as u64 > MAX_FILE_SIZE ==> (r matches Err(Error::FileTooLarge { file, max_bytes, size_bytes })
            && file@ == file_path@ && max_bytes == MAX_FILE_SIZE && size_bytes == source.len() as u64),
        source.len() as u64 <= MAX_FILE_SIZE ==> match parsed(lang, source@) {
            None => r matches Err(Error::ParseFailed { .. }),
            Some(t) => query_result(r, file_path@, *query, lang_decls(t, source.spec_bytes(), lang)),
        },
{
    let size = source.len() as u64;
    if size > MAX_FILE_SIZE {
        return Err(Error::FileTooLarge { file: owned(file_path), max_bytes: MAX_FILE_SIZE, size_bytes: size });
    }
    let tree = match parse_syntax(lang, source) {
        Ok(t) => t,
        Err(e) => return Err(with_file(e, file_path)),
    };
    let declarations = collect_declarations(&tree, source, lang);
    match query {
        SymbolQuery::Bare(name) => find_declaration_by_bare_name(&declarations, name.as_str(), file_path),
        SymbolQuery::Scoped { child, parent } => find_declaration_by_qualified_dotpath(&declarations, parent.as_str(), child.as_str(), file_path),
        SymbolQuery::WholeFile => Err(Error::ParseFailed { file: owned(file_path), reason: owned("whole-file query") }),
    }
}

/// A parse failure, attributed to `file`.
fn with_file(e: Error, file: &str) -> (r: Error)
    ensures
        e is ParseFailed ==> r is ParseFailed,
{
    match e {
        Error::ParseFailed { file: _, reason } => Error::ParseFailed { file: owned(file), reason },
        other => other,
    }
}

/// Every symbol a source declares, by qualified name, in declaration order.
pub fn list_symbols(file_path: &str, source: &str, lang: Lang) -> (r: Result<Vec<SymbolInfo>, Error>)
    ensures
        source.len() as u64 > MAX_FILE_SIZE ==> r matches Err(Error::FileTooLarge { .. }),
        source.len() as u64 <= MAX_FILE_SIZE ==> match parsed(lang, source@) {
            None => r matches Err(Error::ParseFailed { .. }),
            Some(t) => r matches Ok(v) && v@.map_values(|s: SymbolInfo| s.name@) == qualified_names(lang_decls(t, source.spec_bytes(), lang)),
        },
{
    let size = source.len() as u64;
    if size > MAX_FILE_SIZE {
        return Err(Error::FileTooLarge { file: owned(file_path), max_bytes: MAX_FILE_SIZE, size_bytes: size });
    }
    let tree = match parse_syntax(lang, source) {
        Ok(t) => t,
        Err(e) => return Err(with_file(e, file_path)),
    };
    let declarations = collect_declarations(&tree, source, lang);
    let mut out: Vec<SymbolInfo> = Vec::new();
    let mut i: usize = 0;
    while i < declarations.len()
        invariant
            i <= declarations.len(),
            out@.map_values(|s: SymbolInfo| s.name@) == qualified_names(decl_views(declarations@).take(i as int)),
        decreases declarations.len() - i,
    {
        let ghost before = out@;
        out.push(SymbolInfo { name: declarations[i].qualified_name.clone() });
        assert(out@.map_values(|s: SymbolInfo| s.name@) =~= before.map_values(|s: SymbolInfo| s.name@).push(decl_views(declarations@)[i as int].3));
        assert(qualified_names(decl_views(declarations@).take(i + 1)) =~= qualified_names(decl_views(declarations@).take(i as int)).push(decl_views(declarations@)[i as int].3));
        i = i + 1;
    }
    assert(decl_views(declarations@).take(i as int) =~= decl_views(declarations@));
    Ok(out)
}

} // verus!
