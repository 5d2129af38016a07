//! Concrete syntax trees: the grammar for each file kind, and a plain arena
//! copy of a parsed tree that the verified code walks.

use vstd::prelude::*;
use vstd::string::*;
use crate::error::Error;
use crate::scanner::last_index_of;
use crate::text::{chars_of, owned, str_eq};

verus! {

#[verifier::external_type_specification]
#[verifier::external_body]
pub struct ExLanguage(tree_sitter::Language);

/// The grammars this library parses with.
#[derive(Debug, Clone, Copy, PartialEq, Eq)]
pub enum Lang {
    Rust,
    TypeScript,
    Tsx,
    Go,
    Python,
    Markdown,
}

/// Relies on the `LANGUAGE` constants of the grammar crates.
#[verifier::external_body]
fn grammar(lang: Lang) -> tree_sitter::Language {
    match lang {
        Lang::Rust => tree_sitter_rust::LANGUAGE.into(),
        Lang::TypeScript => tree_sitter_typescript::LANGUAGE_TYPESCRIPT.into(),
        Lang::Tsx => tree_sitter_typescript::LANGUAGE_TSX.into(),
        Lang::Go => tree_sitter_go::LANGUAGE.into(),
        Lang::Python => tree_sitter_python::LANGUAGE.into(),
        Lang::Markdown => tree_sitter_md::LANGUAGE.into(),
    }
}

/// One parsed node as plain values: (kind, field name under its parent,
/// start byte, end byte, depth below the root).
pub type NodeRecord = (Seq<char>, Option<Seq<char>>, usize, usize, usize);

/// What tree-sitter makes of a text with a grammar: its nodes in
/// depth-first order, or nothing when the grammar cannot be set or the
/// parse gives no tree.
pub uninterp spec fn syntax_of(lang: Lang, text: Seq<char>) -> Option<Seq<NodeRecord>>;

pub open spec fn record_view(r: (String, Option<String>, usize, usize, usize)) -> NodeRecord {
    (r.0@, match r.1 { Some(f) => Some(f@), None => None }, r.2, r.3, r.4)
}

pub open spec fn records_view(v: Seq<(String, Option<String>, usize, usize, usize)>) -> Seq<NodeRecord> {
    v.map_values(|r: (String, Option<String>, usize, usize, usize)| record_view(r))
}

/// Relies on `Parser::new`, `Parser::set_language`, `Parser::parse`,
/// `Tree::walk`, `Tree::root_node`, `Node::descendant_count` and, for each
/// node in depth-first order, `TreeCursor::goto_descendant`, `node`,
/// `field_name`, `depth` and `Node::kind`, `start_byte`, `end_byte`. The
/// parse is a function of grammar and text alone.
#[verifier::external_body]
fn parse_records(lang: Lang, text: &str) -> (r: Option<Vec<(String, Option<String>, usize, usize, usize)>>)
    ensures
        match r { Some(v) => syntax_of(lang, text@) == Some(records_view(v@)), None => syntax_of(lang, text@) is None },
{
    let mut parser = tree_sitter::Parser::new();
    parser.set_language(&grammar(lang)).ok()?;
    let tree = parser.parse(text, None)?;
    let mut c = tree.walk();
    let n = tree.root_node().descendant_count();
    Some((0..n).map(|i| {
        c.goto_descendant(i);
        let d = c.node();
        (d.kind().to_string(), c.field_name().map(String::from), d.start_byte(), d.end_byte(), c.depth() as usize)
    }).collect())
}

/// One node of a syntax tree, as plain values.
pub struct NodeView {
    pub kind: Seq<char>,
    pub field: Option<Seq<char>>,
    pub start: usize,
    pub end: usize,
}

/// A syntax tree as plain values.
pub struct SyntaxView {
    pub nodes: Seq<NodeView>,
    pub first_child: Seq<Option<usize>>,
    pub next_sibling: Seq<Option<usize>>,
}

impl SyntaxView {
    /// Links point forward and stay inside the tree; ranges lie in a text
    /// of `len` bytes.
    pub open spec fn wf(&self, len: nat) -> bool {
        &&& self.nodes.len() >= 1
        &&& self.first_child.len() == self.nodes.len()
        &&& self.next_sibling.len() == self.nodes.len()
        &&& forall|i: int| 0 <= i < self.nodes.len() ==> {
            let n = #[trigger] self.nodes[i];
            n.start <= n.end <= len
        }
        &&& forall|i: int| 0 <= i < self.nodes.len() ==> (#[trigger] self.first_child[i] matches Some(c) ==> i < c < self.nodes.len())
        &&& forall|i: int| 0 <= i < self.nodes.len() ==> (#[trigger] self.next_sibling[i] matches Some(c) ==> i < c < self.nodes.len())
    }

    /// A node without children.
    pub open spec fn is_leaf(&self, i: int) -> bool {
        self.first_child[i] is None
    }
}

/// The first node from `j` on at depth `d` before any node shallower than `d`.
pub open spec fn next_at_depth(recs: Seq<NodeRecord>, d: usize, j: int) -> Option<usize>
    decreases recs.len() - j,
{
    if j < 0 || j >= recs.len() {
        None
    } else if recs[j].4 < d {
        None
    } else if recs[j].4 == d {
        Some(j as usize)
    } else {
        next_at_depth(recs, d, j + 1)
    }
}

/// The tree that depth-first records describe: a node's first child is the
/// next record when it is one level deeper, and its next sibling is the
/// next record at its depth before the depth drops below it.
pub open spec fn tree_of_records(recs: Seq<NodeRecord>) -> SyntaxView {
    SyntaxView {
        nodes: recs.map_values(|r: NodeRecord| NodeView { kind: r.0, field: r.1, start: r.2, end: r.3 }),
        first_child: Seq::new(recs.len(), |i: int| if i + 1 < recs.len() && recs[i + 1].4 == recs[i].4 + 1 { Some((i + 1) as usize) } else { None }),
        next_sibling: Seq::new(recs.len(), |i: int| next_at_depth(recs, recs[i].4, i + 1)),
    }
}

/// The records are usable: at least one, and every range inside `len` bytes.
pub open spec fn records_ok(recs: Seq<NodeRecord>, len: nat) -> bool {
    recs.len() >= 1 && forall|i: int| 0 <= i < recs.len() ==> (#[trigger] recs[i]).2 <= recs[i].3 <= len
}

/// The tree of a text, when the parse succeeds and its ranges lie in the text.
pub open spec fn parsed(lang: Lang, text: Seq<char>) -> Option<SyntaxView> {
    match syntax_of(lang, text) {
        Some(recs) => if records_ok(recs, vstd::utf8::encode_utf8(text).len()) { Some(tree_of_records(recs)) } else { None },
        None => None,
    }
}

/// One node of a syntax tree.
#[derive(Debug)]
pub struct SyntaxNode {
    /// Grammar kind, such as `function_item`.
    pub kind: String,
    /// Field name under its parent, if any.
    pub field: Option<String>,
    /// Byte offsets `[start, end)` in the parsed text.
    pub start: usize,
    pub end: usize,
}

/// A syntax tree in depth-first order: node 0 is the root, and every node
/// comes before its children, which come in source order.
#[derive(Debug)]
pub struct SyntaxTree {
    pub nodes: Vec<SyntaxNode>,
    /// First child of each node.
    pub first_child: Vec<Option<usize>>,
    /// Next sibling of each node.
    pub next_sibling: Vec<Option<usize>>,
}

pub open spec fn node_view(n: SyntaxNode) -> NodeView {
    NodeView { kind: n.kind@, field: match n.field { Some(f) => Some(f@), None => None }, start: n.start, end: n.end }
}

impl View for SyntaxTree {
    type V = SyntaxView;

    open spec fn view(&self) -> SyntaxView {
        SyntaxView {
            nodes: self.nodes@.map_values(|n: SyntaxNode| node_view(n)),
            first_child: self.first_child@,
            next_sibling: self.next_sibling@,
        }
    }
}

impl SyntaxTree {
    /// The tree's view is well formed for a text of `len` bytes.
    pub open spec fn wf(&self, len: nat) -> bool {
        self@.wf(len)
    }
}

/// The nodes reached from `c` along sibling links, at most `fuel` of them.
pub open spec fn sibling_chain(t: SyntaxView, c: Option<usize>, fuel: nat) -> Seq<usize>
    decreases fuel,
{
    if fuel == 0 {
        Seq::empty()
    } else {
        match c {
            None => Seq::empty(),
            Some(x) => if x < t.nodes.len() {
                seq![x] + sibling_chain(t, t.next_sibling[x as int], (fuel - 1) as nat)
            } else {
                Seq::empty()
            },
        }
    }
}

/// The children of node `p`, in source order.
pub open spec fn children_of(t: SyntaxView, p: int) -> Seq<usize> {
    sibling_chain(t, t.first_child[p], t.nodes.len())
}

/// Walking the children of a node: `done` are the children visited, `cur`
/// the next one; together they are all the children.
pub open spec fn walking_children(t: SyntaxView, p: int, done: Seq<usize>, cur: Option<usize>) -> bool {
    &&& done + sibling_chain(t, cur, (t.nodes.len() - done.len()) as nat) == children_of(t, p)
    &&& done.len() <= t.nodes.len()
    &&& cur matches Some(c) ==> done.len() <= c && p < c < t.nodes.len()
}

/// Starting the walk.
pub proof fn lemma_walk_start(t: SyntaxView, n: nat, p: int)
    requires
        t.wf(n),
        0 <= p < t.nodes.len(),
    ensures
        walking_children(t, p, Seq::empty(), t.first_child[p]),
{
    assert(Seq::<usize>::empty() + children_of(t, p) =~= children_of(t, p));
}

/// One step of the walk.
pub proof fn lemma_walk_step(t: SyntaxView, n: nat, p: int, done: Seq<usize>, c: usize)
    requires
        t.wf(n),
        0 <= p < t.nodes.len(),
        walking_children(t, p, done, Some(c)),
    ensures
        walking_children(t, p, done.push(c), t.next_sibling[c as int]),
{
    let f = (t.nodes.len() - done.len()) as nat;
    assert(f > 0);
    assert(sibling_chain(t, Some(c), f) == seq![c] + sibling_chain(t, t.next_sibling[c as int], (f - 1) as nat));
    assert(done.push(c) + sibling_chain(t, t.next_sibling[c as int], (f - 1) as nat) =~= done + (seq![c] + sibling_chain(t, t.next_sibling[c as int], (f - 1) as nat)));
}

/// The end of the walk: every child was visited.
pub proof fn lemma_walk_end(t: SyntaxView, p: int, done: Seq<usize>)
    requires
        walking_children(t, p, done, None),
    ensures
        done == children_of(t, p),
{
    let f = (t.nodes.len() - done.len()) as nat;
    assert(sibling_chain(t, None, f) =~= Seq::<usize>::empty());
    assert(done + Seq::<usize>::empty() =~= done);
}

/// The next record at depth `d` from `j` on, found by scanning.
fn scan_next_at_depth(recs: &Vec<(String, Option<String>, usize, usize, usize)>, d: usize, j: usize) -> (r: Option<usize>)
    requires
        j <= recs@.len(),
    ensures
        r == next_at_depth(records_view(recs@), d, j as int),
{
    let ghost rv = records_view(recs@);
    let mut k = j;
    while k < recs.len() && recs[k].4 > d
        invariant
            rv == records_view(recs@),
            j <= k <= recs@.len(),
            next_at_depth(rv, d, j as int) == next_at_depth(rv, d, k as int),
        decreases recs.len() - k,
    {
        assert(rv[k as int].4 == recs@[k as int].4);
        k = k + 1;
    }
    if k < recs.len() {
        assert(rv[k as int].4 == recs@[k as int].4);
        if recs[k].4 == d {
            return Some(k);
        }
    }
    None
}

/// Build the tree that depth-first records describe.
fn build_tree(recs: Vec<(String, Option<String>, usize, usize, usize)>, len: usize) -> (r: Result<SyntaxTree, Error>)
    ensures
        records_ok(records_view(recs@), len as nat) ==> (r matches Ok(t) && t@ == tree_of_records(records_view(recs@)) && t.wf(len as nat)),
        !records_ok(records_view(recs@), len as nat) ==> r matches Err(Error::ParseFailed { .. }),
{
    let ghost rv = records_view(recs@);
    let ghost tv = tree_of_records(rv);
    let n = recs.len();
    if n == 0 {
        return Err(Error::ParseFailed { file: String::new(), reason: owned("empty tree") });
    }
    let mut nodes: Vec<SyntaxNode> = Vec::new();
    let mut first_child: Vec<Option<usize>> = Vec::new();
    let mut next_sibling: Vec<Option<usize>> = Vec::new();
    let mut i: usize = 0;
    while i < n
        invariant
            n == recs@.len(),
            rv == records_view(recs@),
            tv == tree_of_records(rv),
            i <= n,
            nodes@.len() == i,
            first_child@.len() == i,
            next_sibling@.len() == i,
            forall|k: int| 0 <= k < i ==> node_view(#[trigger] nodes@[k]) == tv.nodes[k],
            forall|k: int| 0 <= k < i ==> #[trigger] first_child@[k] == tv.first_child[k],
            forall|k: int| 0 <= k < i ==> #[trigger] next_sibling@[k] == tv.next_sibling[k],
            forall|k: int| 0 <= k < i ==> (#[trigger] rv[k]).2 <= rv[k].3 <= len,
        decreases n - i,
    {
        let rec = &recs[i];
        assert(rv[i as int] == record_view(recs@[i as int]));
        if rec.2 > rec.3 || rec.3 > len {
            return Err(Error::ParseFailed { file: String::new(), reason: owned("node range outside the text") });
        }
        let field = match &rec.1 {
            Some(f) => Some(f.clone()),
            None => None,
        };
        nodes.push(SyntaxNode { kind: rec.0.clone(), field, start: rec.2, end: rec.3 });
        let fc = if i + 1 < n && recs[i + 1].4 > 0 && recs[i + 1].4 - 1 == rec.4 { Some(i + 1) } else { None };
        proof {
            if i + 1 < n {
                assert(rv[i + 1].4 == recs@[i + 1].4);
            }
        }
        first_child.push(fc);
        next_sibling.push(scan_next_at_depth(&recs, rec.4, i + 1));
        i = i + 1;
    }
    let t = SyntaxTree { nodes, first_child, next_sibling };
    proof {
        assert(t@.nodes =~= tv.nodes);
        assert(t@.first_child =~= tv.first_child);
        assert(t@.next_sibling =~= tv.next_sibling);
        assert forall|k: int| 0 <= k < n implies (#[trigger] tv.next_sibling[k] matches Some(c) ==> k < c < n) by {
            lemma_next_at_depth_range(rv, rv[k].4, k + 1);
        }
    }
    Ok(t)
}

proof fn lemma_next_at_depth_range(recs: Seq<NodeRecord>, d: usize, j: int)
    requires
        recs.len() <= usize::MAX,
    ensures
        next_at_depth(recs, d, j) matches Some(c) ==> j <= c < recs.len(),
    decreases recs.len() - j,
{
    if 0 <= j < recs.len() {
        if recs[j].4 > d {
            lemma_next_at_depth_range(recs, d, j + 1);
        } else if recs[j].4 == d {
            assert(next_at_depth(recs, d, j) == Some(j as usize));
        }
    }
}

/// Parse `text` with the grammar of `lang` into a tree: exactly the tree
/// of tree-sitter's records, or a parse failure when tree-sitter gives none
/// or a range outside the text.
pub fn parse_syntax(lang: Lang, text: &str) -> (r: Result<SyntaxTree, Error>)
    ensures
        parsed(lang, text@) matches Some(tv) ==> (r matches Ok(t) && t@ == tv && t.wf(text.spec_bytes().len())),
        parsed(lang, text@) is None ==> r matches Err(Error::ParseFailed { .. }),
{
    match parse_records(lang, text) {
        None => Err(Error::ParseFailed { file: String::new(), reason: owned("tree-sitter returned no tree") }),
        Some(recs) => build_tree(recs, text.as_bytes().len()),
    }
}

} // verus!

verus! {

/// The last component of a path.
pub open spec fn file_name_of(p: Seq<char>) -> Seq<char> {
    p.subrange(last_index_of(p, '/') + 1, p.len() as int)
}

/// The extension of a path, without its dot: what follows the last `.` of
/// the file name, when that `.` is not the name's first character.
pub open spec fn extension_of(p: Seq<char>) -> Seq<char> {
    let n = file_name_of(p);
    let i = last_index_of(n, '.');
    if i <= 0 {
        Seq::empty()
    } else {
        n.subrange(i + 1, n.len() as int)
    }
}

/// The grammar for an extension; JavaScript goes through TypeScript.
pub open spec fn lang_of_extension(e: Seq<char>) -> Option<Lang> {
    if e == "rs"@ {
        Some(Lang::Rust)
    } else if e == "ts"@ || e == "js"@ {
        Some(Lang::TypeScript)
    } else if e == "tsx"@ || e == "jsx"@ {
        Some(Lang::Tsx)
    } else if e == "go"@ {
        Some(Lang::Go)
    } else if e == "py"@ {
        Some(Lang::Python)
    } else if e == "md"@ || e == "markdown"@ {
        Some(Lang::Markdown)
    } else {
        None
    }
}

proof fn lemma_last_index_range(s: Seq<char>, c: char)
    ensures
        -1 <= last_index_of(s, c) < s.len(),
        last_index_of(s, c) >= 0 ==> s[last_index_of(s, c)] == c,
    decreases s.len(),
{
    if s.len() > 0 {
        lemma_last_index_range(s.drop_last(), c);
    }
}

/// Index of the last `c` in `s`.
fn rfind_char(s: &Vec<char>, c: char) -> (r: Option<usize>)
    ensures
        r matches Some(i) ==> last_index_of(s@, c) == i,
        r is None ==> last_index_of(s@, c) == -1,
{
    let mut i: usize = s.len();
    assert(s@.subrange(0, i as int) =~= s@);
    while i > 0
        invariant
            i <= s.len(),
            last_index_of(s@, c) == last_index_of(s@.subrange(0, i as int), c),
        decreases i,
    {
        assert(s@.subrange(0, i as int).drop_last() =~= s@.subrange(0, i - 1));
        if s[i - 1] == c {
            return Some(i - 1);
        }
        i = i - 1;
    }
    None
}

/// The extension of a path, as `Path::extension` gives it.
pub fn extension(path: &str) -> (r: String)
    ensures
        r@ == extension_of(path@),
{
    let cs = chars_of(path);
    proof {
        lemma_last_index_range(path@, '/');
    }
    let name_start = match rfind_char(&cs, '/') {
        Some(i) => i + 1,
        None => 0,
    };
    let name = path.substring_char(name_start, cs.len());
    let ns = chars_of(name);
    proof {
        lemma_last_index_range(name@, '.');
    }
    match rfind_char(&ns, '.') {
        None => String::new(),
        Some(0) => String::new(),
        Some(i) => owned(name.substring_char(i + 1, ns.len())),
    }
}

/// The grammar for a file, chosen by its extension.
pub fn language_for_path(path: &str) -> (r: Result<Lang, Error>)
    ensures
        lang_of_extension(extension_of(path@)) matches Some(l) ==> r == Ok::<Lang, Error>(l),
        lang_of_extension(extension_of(path@)) is None ==> (r matches Err(Error::UnsupportedLanguage { ext }) && ext@ == extension_of(path@)),
{
    let ext = extension(path);
    let e = ext.as_str();
    if str_eq(e, "rs") {
        Ok(Lang::Rust)
    } else if str_eq(e, "ts") || str_eq(e, "js") {
        Ok(Lang::TypeScript)
    } else if str_eq(e, "tsx") || str_eq(e, "jsx") {
        Ok(Lang::Tsx)
    } else if str_eq(e, "go") {
        Ok(Lang::Go)
    } else if str_eq(e, "py") {
        Ok(Lang::Python)
    } else if str_eq(e, "md") || str_eq(e, "markdown") {
        Ok(Lang::Markdown)
    } else {
        Err(Error::UnsupportedLanguage { ext })
    }
}

} // verus!
