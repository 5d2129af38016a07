//! Project configuration: which Markdown files are scanned, and the
//! namespaces that expand `name:path` targets, inherited along `extends`.

use vstd::prelude::*;
use vstd::string::*;
use crate::error::Error;
use crate::scanner::{copy_strings, dir_of, parent_dir, views};
use crate::text::{bytes_start_with, concat2, concat3, owned, split_first, split_once, str_eq};

verus! {

/// A namespace: the directory it maps to, and the directory of the
/// configuration file that declared it.
#[derive(Debug)]
pub struct NamespaceEntry {
    pub path: String,
    pub config_root: String,
}

/// What a namespace map holds, by name: (directory, declaring config root).
pub open spec fn namespace_map(v: Seq<(String, NamespaceEntry)>) -> Map<Seq<char>, (Seq<char>, Seq<char>)>
    decreases v.len(),
{
    if v.len() == 0 {
        Map::empty()
    } else {
        namespace_map(v.drop_last()).insert(v.last().0@, (v.last().1.path@, v.last().1.config_root@))
    }
}

/// The namespaces a configuration file declares, all rooted at `root`;
/// a later declaration of a name wins.
pub open spec fn declared_map(v: Seq<(String, String)>, root: Seq<char>) -> Map<Seq<char>, (Seq<char>, Seq<char>)>
    decreases v.len(),
{
    if v.len() == 0 {
        Map::empty()
    } else {
        declared_map(v.drop_last(), root).insert(v.last().0@, (v.last().1@, root))
    }
}

/// No name occurs twice.
pub open spec fn names_unique(v: Seq<(String, NamespaceEntry)>) -> bool {
    forall|i: int, j: int| 0 <= i < j < v.len() ==> (#[trigger] v[i]).0@ != (#[trigger] v[j]).0@
}

/// Joining two relative paths: an absolute or empty side gives the other,
/// otherwise one `/` goes between them.
pub open spec fn path_join(a: Seq<char>, b: Seq<char>) -> Seq<char> {
    if b.len() > 0 && b[0] == '/' {
        b
    } else if a.len() == 0 {
        b
    } else if a.last() == '/' {
        a + b
    } else {
        a + seq!['/'] + b
    }
}

/// Join two paths as `Path::join` does for relative paths.
pub fn join_path(a: &str, b: &str) -> (r: String)
    ensures
        r@ == path_join(a@, b@),
{
    proof {
        reveal_strlit("/");
        assert("/"@ =~= seq!['/']);
    }
    let nb = b.unicode_len();
    if nb > 0 && b.get_char(0) == '/' {
        return owned(b);
    }
    let na = a.unicode_len();
    if na == 0 {
        return owned(b);
    }
    if a.get_char(na - 1) == '/' {
        return concat2(a, b);
    }
    concat3(a, "/", b)
}

/// Whether some pattern is a byte-level prefix of `path`.
pub open spec fn some_prefix(patterns: Seq<String>, path: Seq<u8>) -> bool {
    exists|i: int| 0 <= i < patterns.len() && is_prefix_bytes((#[trigger] patterns[i])@, path)
}

/// Whether the UTF-8 bytes of `p` begin `path`.
pub open spec fn is_prefix_bytes(p: Seq<char>, path: Seq<u8>) -> bool {
    let pb = vstd::utf8::encode_utf8(p);
    pb.len() <= path.len() && path.subrange(0, pb.len() as int) == pb
}

/// Project configuration.
#[derive(Debug)]
pub struct Config {
    /// Path prefixes of the Markdown files to scan; none means all.
    pub scan_prefixes: Vec<String>,
    /// Path prefixes of the Markdown files to leave out.
    pub skip_prefixes: Vec<String>,
    /// Namespaces by name.
    pub namespaces: Vec<(String, NamespaceEntry)>,
}

impl Config {
    pub open spec fn wf(&self) -> bool {
        names_unique(self.namespaces@)
    }

    /// A configuration from its parts.
    pub fn from_parts(scan_prefixes: Vec<String>, skip_prefixes: Vec<String>, namespaces: Vec<(String, NamespaceEntry)>) -> (r: Self)
        requires
            names_unique(namespaces@),
        ensures
            r.scan_prefixes@ == scan_prefixes@,
            r.skip_prefixes@ == skip_prefixes@,
            r.namespaces@ == namespaces@,
            r.wf(),
    {
        Config { scan_prefixes, skip_prefixes, namespaces }
    }

    /// The configuration used when there is no configuration file: every
    /// Markdown file is scanned and there are no namespaces.
    pub fn scan_everything_by_default() -> (r: Self)
        ensures
            r.scan_prefixes@.len() == 0,
            r.skip_prefixes@.len() == 0,
            r.namespaces@.len() == 0,
            r.wf(),
    {
        Config { scan_prefixes: Vec::new(), skip_prefixes: Vec::new(), namespaces: Vec::new() }
    }

    /// Whether a Markdown path (relative to the scan root) is scanned: some
    /// scan prefix matches it, or there is none, and no skip prefix does.
    pub fn should_scan(&self, relative_path: &str) -> (r: bool)
        ensures
            r == ((self.scan_prefixes@.len() == 0 || some_prefix(self.scan_prefixes@, relative_path.spec_bytes()))
                && !some_prefix(self.skip_prefixes@, relative_path.spec_bytes())),
    {
        let path = relative_path.as_bytes();
        let included = self.scan_prefixes.len() == 0 || any_prefix(&self.scan_prefixes, path);
        if !included {
            return false;
        }
        !any_prefix(&self.skip_prefixes, path)
    }

    /// Expand a namespaced target `name:rest` to the namespace's directory
    /// (under the root of the configuration that declared it) joined with
    /// `rest`; a target without `:` is returned as it is.
    pub fn resolve_target(&self, target: &str) -> (r: Result<String, Error>)
        requires
            self.wf(),
        ensures
            split_first(target@, ':') is None ==> (r matches Ok(p) && p@ == target@),
            split_first(target@, ':') matches Some((ns, rest)) ==> {
                let m = namespace_map(self.namespaces@);
                if m.contains_key(ns) {
                    (r matches Ok(p) && p@ == path_join(path_join(m[ns].1, m[ns].0), rest))
                } else {
                    (r matches Err(Error::UnknownNamespace { name }) && name@ == ns)
                }
            },
    {
        match split_once(target, ':') {
            None => Ok(owned(target)),
            Some((ns, rest)) => {
                match find_namespace(&self.namespaces, ns.as_str()) {
                    None => Err(Error::UnknownNamespace { name: ns }),
                    Some(i) => {
                        let entry = &self.namespaces[i].1;
                        let dir = join_path(entry.config_root.as_str(), entry.path.as_str());
                        Ok(join_path(dir.as_str(), rest.as_str()))
                    },
                }
            },
        }
    }

    /// Overlay a configuration file's own namespaces, rooted at `child_root`,
    /// on those it inherits: a name it declares replaces the inherited one.
    pub fn merge_namespaces(base: Vec<(String, NamespaceEntry)>, child_raw: Vec<(String, String)>, child_root: &str) -> (r: Vec<(String, NamespaceEntry)>)
        requires
            names_unique(base@),
        ensures
            names_unique(r@),
            namespace_map(r@) == namespace_map(base@).union_prefer_right(declared_map(child_raw@, child_root@)),
    {
        let mut merged = base;
        let mut i: usize = 0;
        proof {
            assert(declared_map(child_raw@.subrange(0, 0), child_root@) =~= Map::empty());
            assert(namespace_map(base@).union_prefer_right(Map::empty()) =~= namespace_map(base@));
        }
        while i < child_raw.len()
            invariant
                i <= child_raw.len(),
                names_unique(merged@),
                namespace_map(merged@) == namespace_map(base@).union_prefer_right(
                    declared_map(child_raw@.subrange(0, i as int), child_root@)),
            decreases child_raw.len() - i,
        {
            let name = child_raw[i].0.clone();
            let path = child_raw[i].1.clone();
            set_namespace(&mut merged, name, NamespaceEntry { path, config_root: owned(child_root) });
            proof {
                assert(child_raw@.subrange(0, i + 1).drop_last() =~= child_raw@.subrange(0, i as int));
                assert(namespace_map(merged@) =~= namespace_map(base@).union_prefer_right(
                    declared_map(child_raw@.subrange(0, i + 1), child_root@)));
            }
            i = i + 1;
        }
        assert(child_raw@.subrange(0, i as int) =~= child_raw@);
        merged
    }
}

/// Inheritance: after a child configuration's namespaces are merged over
/// its parent's, a name the child declares maps to the child's entry,
/// rooted at the child, and every other name keeps the parent's entry.
pub proof fn lemma_child_overlay(parent: Seq<(String, NamespaceEntry)>, child_raw: Seq<(String, String)>, child_root: Seq<char>, merged: Seq<(String, NamespaceEntry)>)
    requires
        namespace_map(merged) == namespace_map(parent).union_prefer_right(declared_map(child_raw, child_root)),
    ensures
        forall|k: Seq<char>| #[trigger] declared_map(child_raw, child_root).contains_key(k) ==>
            namespace_map(merged).contains_key(k) && namespace_map(merged)[k] == declared_map(child_raw, child_root)[k]
            && namespace_map(merged)[k].1 == child_root,
        forall|k: Seq<char>| !declared_map(child_raw, child_root).contains_key(k) ==>
            (#[trigger] namespace_map(merged).contains_key(k) == namespace_map(parent).contains_key(k))
            && (namespace_map(parent).contains_key(k) ==> namespace_map(merged)[k] == namespace_map(parent)[k]),
{
    lemma_declared_roots(child_raw, child_root);
}

proof fn lemma_declared_roots(v: Seq<(String, String)>, root: Seq<char>)
    ensures
        forall|k: Seq<char>| #[trigger] declared_map(v, root).contains_key(k) ==> declared_map(v, root)[k].1 == root,
    decreases v.len(),
{
    if v.len() > 0 {
        lemma_declared_roots(v.drop_last(), root);
        let m = declared_map(v.drop_last(), root);
        assert forall|k: Seq<char>| #[trigger] declared_map(v, root).contains_key(k) implies declared_map(v, root)[k].1 == root by {
            if k != v.last().0@ {
                assert(m.contains_key(k));
            }
        }
    }
}

/// Whether some pattern is a byte prefix of `path`.
fn any_prefix(patterns: &Vec<String>, path: &[u8]) -> (r: bool)
    ensures
        r == some_prefix(patterns@, path@),
{
    let mut i: usize = 0;
    while i < patterns.len()
        invariant
            i <= patterns.len(),
            forall|k: int| 0 <= k < i ==> !is_prefix_bytes((#[trigger] patterns@[k])@, path@),
        decreases patterns.len() - i,
    {
        let p = patterns[i].as_str().as_bytes();
        if bytes_start_with(path, p) {
            assert(is_prefix_bytes(patterns@[i as int]@, path@));
            return true;
        }
        i = i + 1;
    }
    false
}

/// Facts about `namespace_map` over a list with unique names.
proof fn lemma_namespace_map_index(v: Seq<(String, NamespaceEntry)>)
    requires
        names_unique(v),
    ensures
        forall|i: int| 0 <= i < v.len() ==> #[trigger] namespace_map(v).contains_key(v[i].0@)
            && namespace_map(v)[v[i].0@] == (v[i].1.path@, v[i].1.config_root@),
        forall|k: Seq<char>| namespace_map(v).contains_key(k) ==> exists|i: int| 0 <= i < v.len() && (#[trigger] v[i]).0@ == k,
    decreases v.len(),
{
    if v.len() > 0 {
        let w = v.drop_last();
        assert(names_unique(w)) by {
            assert forall|i: int, j: int| 0 <= i < j < w.len() implies (#[trigger] w[i]).0@ != (#[trigger] w[j]).0@ by {
                assert(w[i] == v[i] && w[j] == v[j]);
            }
        }
        lemma_namespace_map_index(w);
        assert forall|i: int| 0 <= i < v.len() implies #[trigger] namespace_map(v).contains_key(v[i].0@)
            && namespace_map(v)[v[i].0@] == (v[i].1.path@, v[i].1.config_root@) by {
            if i < v.len() - 1 {
                assert(w[i] == v[i]);
                assert(namespace_map(w).contains_key(w[i].0@));
                assert(v[i].0@ != v[v.len() - 1].0@);
            }
        }
        assert forall|k: Seq<char>| namespace_map(v).contains_key(k) implies exists|i: int| 0 <= i < v.len() && (#[trigger] v[i]).0@ == k by {
            if k != v.last().0@ {
                assert(namespace_map(w).contains_key(k));
                let i = choose|i: int| 0 <= i < w.len() && (#[trigger] w[i]).0@ == k;
                assert(v[i] == w[i]);
            } else {
                assert(v[v.len() - 1].0@ == k);
            }
        }
    }
}

/// Index of the namespace called `name`.
fn find_namespace(v: &Vec<(String, NamespaceEntry)>, name: &str) -> (r: Option<usize>)
    requires
        names_unique(v@),
    ensures
        r is None ==> !namespace_map(v@).contains_key(name@),
        r matches Some(i) ==> i < v@.len() && v@[i as int].0@ == name@ && namespace_map(v@).contains_key(name@)
            && namespace_map(v@)[name@] == (v@[i as int].1.path@, v@[i as int].1.config_root@),
{
    proof {
        lemma_namespace_map_index(v@);
    }
    let mut i: usize = 0;
    while i < v.len()
        invariant
            i <= v.len(),
            forall|k: int| 0 <= k < i ==> (#[trigger] v@[k]).0@ != name@,
            names_unique(v@),
        decreases v.len() - i,
    {
        if str_eq(v[i].0.as_str(), name) {
            proof {
                lemma_namespace_map_index(v@);
                assert(namespace_map(v@).contains_key(v@[i as int].0@));
            }
            return Some(i);
        }
        i = i + 1;
    }
    None
}

/// Give `name` the entry `entry`, replacing the one it had.
fn set_namespace(v: &mut Vec<(String, NamespaceEntry)>, name: String, entry: NamespaceEntry)
    requires
        names_unique(old(v)@),
    ensures
        names_unique(final(v)@),
        namespace_map(final(v)@) == namespace_map(old(v)@).insert(name@, (entry.path@, entry.config_root@)),
{
    let ghost m = namespace_map(v@);
    let ghost val = (entry.path@, entry.config_root@);
    proof {
        lemma_namespace_map_index(v@);
    }
    match find_namespace(v, name.as_str()) {
        None => {
            let ghost old_v = v@;
            v.push((name, entry));
            proof {
                assert(v@.drop_last() =~= old_v);
                assert forall|i: int, j: int| 0 <= i < j < v@.len() implies (#[trigger] v@[i]).0@ != (#[trigger] v@[j]).0@ by {
                    if j == v@.len() - 1 {
                        assert(namespace_map(old_v).contains_key(old_v[i].0@));
                    } else {
                        assert(old_v[i] == v@[i] && old_v[j] == v@[j]);
                    }
                }
            }
        },
        Some(i) => {
            let ghost old_v = v@;
            v.set(i, (name, entry));
            proof {
                assert forall|a: int, b: int| 0 <= a < b < v@.len() implies (#[trigger] v@[a]).0@ != (#[trigger] v@[b]).0@ by {
                    if a != i && b != i {
                        assert(old_v[a] == v@[a] && old_v[b] == v@[b]);
                    } else if a == i {
                        assert(old_v[b] == v@[b]);
                        assert(old_v[i as int].0@ != old_v[b].0@);
                    } else {
                        assert(old_v[a] == v@[a]);
                        assert(old_v[a].0@ != old_v[i as int].0@);
                    }
                }
                lemma_namespace_map_index(v@);
                assert forall|k: Seq<char>| #[trigger] namespace_map(v@).contains_key(k) == m.insert(name@, val).contains_key(k) by {
                    if namespace_map(v@).contains_key(k) {
                        let j = choose|j: int| 0 <= j < v@.len() && (#[trigger] v@[j]).0@ == k;
                        if j != i {
                            assert(old_v[j] == v@[j]);
                        }
                    }
                    if m.contains_key(k) && k != name@ {
                        let j = choose|j: int| 0 <= j < old_v.len() && (#[trigger] old_v[j]).0@ == k;
                        assert(j != i);
                        assert(old_v[j] == v@[j]);
                    }
                }
                assert forall|k: Seq<char>| #[trigger] namespace_map(v@).contains_key(k) implies namespace_map(v@)[k] == m.insert(name@, val)[k] by {
                    let j = choose|j: int| 0 <= j < v@.len() && (#[trigger] v@[j]).0@ == k;
                    if j != i {
                        assert(old_v[j] == v@[j]);
                    }
                }
                assert(namespace_map(v@) =~= m.insert(name@, val));
            }
        },
    }
}

/// Record `canonical` as the next configuration file of an `extends`
/// chain. A path that is on the chain already closes a cycle: the error
/// carries the whole chain, ending with the repeated path.
pub fn enter_extends_chain(chain: &mut Vec<String>, canonical: String) -> (r: Result<(), Error>)
    ensures
        views(final(chain)@) == views(old(chain)@).push(canonical@),
        r is Ok <==> !views(old(chain)@).contains(canonical@),
        r matches Err(e) ==> (e matches Error::ConfigCycle { chain: c } && views(c@) == views(final(chain)@)),
{
    let mut i: usize = 0;
    let mut seen = false;
    while i < chain.len()
        invariant
            i <= chain.len(),
            seen == views(chain@.subrange(0, i as int)).contains(canonical@),
        decreases chain.len() - i,
    {
        let ghost before = views(chain@.subrange(0, i as int));
        assert(views(chain@.subrange(0, i + 1)) =~= before.push(chain@[i as int]@));
        if chain[i] == canonical {
            seen = true;
            assert(views(chain@.subrange(0, i + 1))[i as int] == canonical@);
        } else if seen {
            proof {
                let k = choose|k: int| 0 <= k < before.len() && before[k] == canonical@;
                assert(views(chain@.subrange(0, i + 1))[k] == canonical@);
            }
        } else {
            proof {
                let after = views(chain@.subrange(0, i + 1));
                assert forall|k: int| 0 <= k < i + 1 implies #[trigger] after[k] != canonical@ by {
                    if k < i {
                        assert(after[k] == before[k]);
                    }
                }
            }
        }
        i = i + 1;
    }
    assert(chain@.subrange(0, i as int) =~= chain@);
    let ghost old_chain = chain@;
    chain.push(canonical);
    assert(views(chain@) =~= views(old_chain).push(chain@[old_chain.len() as int]@));
    if seen {
        return Err(Error::ConfigCycle { chain: copy_strings(chain) });
    }
    Ok(())
}

/// Where the namespaces of a parent configuration resolve from, given where
/// the child's resolve from and the child's `extends` path to it.
pub fn parent_namespace_base(namespace_base: &str, extends_rel: &str) -> (r: String)
    ensures
        r@ == (if dir_of(extends_rel@).len() == 0 {
            namespace_base@
        } else {
            path_join(namespace_base@, dir_of(extends_rel@))
        }),
{
    let dir = parent_dir(extends_rel);
    if dir.unicode_len() == 0 {
        owned(namespace_base)
    } else {
        join_path(namespace_base, dir.as_str())
    }
}

} // verus!
