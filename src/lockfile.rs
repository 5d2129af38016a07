//! Lockfile entries, their total order, and the sorted, duplicate-free
//! lockfile built from them.

use vstd::prelude::*;
use vstd::string::*;
use crate::error::Error;
use crate::text::{chars_of, owned};
use crate::types::SemanticHash;

verus! {

/// Lexicographic order on character sequences, by code point.
pub open spec fn seq_lt(a: Seq<char>, b: Seq<char>) -> bool
    decreases a.len(),
{
    if a.len() == 0 {
        b.len() > 0
    } else if b.len() == 0 {
        false
    } else if (a[0] as u32) < (b[0] as u32) {
        true
    } else if a[0] == b[0] {
        seq_lt(a.drop_first(), b.drop_first())
    } else {
        false
    }
}

pub proof fn lemma_seq_lt_irreflexive(a: Seq<char>)
    ensures
        !seq_lt(a, a),
    decreases a.len(),
{
    if a.len() > 0 {
        lemma_seq_lt_irreflexive(a.drop_first());
    }
}

pub proof fn lemma_seq_lt_transitive(a: Seq<char>, b: Seq<char>, c: Seq<char>)
    requires
        seq_lt(a, b),
        seq_lt(b, c),
    ensures
        seq_lt(a, c),
    decreases a.len(),
{
    if a.len() > 0 && b.len() > 0 && c.len() > 0 && a[0] == b[0] && b[0] == c[0] {
        lemma_seq_lt_transitive(a.drop_first(), b.drop_first(), c.drop_first());
    }
}

pub proof fn lemma_seq_lt_total(a: Seq<char>, b: Seq<char>)
    requires
        a != b,
    ensures
        seq_lt(a, b) || seq_lt(b, a),
    decreases a.len(),
{
    if a.len() == 0 {
        assert(b.len() > 0) by {
            if b.len() == 0 {
                assert(a =~= b);
            }
        }
    } else if b.len() > 0 && a[0] == b[0] {
        if a.drop_first() == b.drop_first() {
            assert(a =~= seq![a[0]] + a.drop_first());
            assert(b =~= seq![b[0]] + b.drop_first());
        }
        lemma_seq_lt_total(a.drop_first(), b.drop_first());
    } else if b.len() > 0 {
        vstd::utf8::char_u32_cast(a[0], a[0] as u32);
        vstd::utf8::char_u32_cast(b[0], b[0] as u32);
    }
}

/// Whether `a` comes strictly before `b` in code-point order.
pub fn str_lt(a: &str, b: &str) -> (r: bool)
    ensures
        r == seq_lt(a@, b@),
{
    let x = chars_of(a);
    let y = chars_of(b);
    let mut i: usize = 0;
    assert(a@.subrange(0, a@.len() as int) =~= a@);
    assert(b@.subrange(0, b@.len() as int) =~= b@);
    while i < x.len() && i < y.len()
        invariant
            x@ == a@,
            y@ == b@,
            i <= x.len(),
            i <= y.len(),
            seq_lt(a@, b@) == seq_lt(a@.subrange(i as int, a@.len() as int), b@.subrange(i as int, b@.len() as int)),
        decreases x.len() - i,
    {
        let ghost sa = a@.subrange(i as int, a@.len() as int);
        let ghost sb = b@.subrange(i as int, b@.len() as int);
        assert(sa[0] == x@[i as int]);
        assert(sb[0] == y@[i as int]);
        if (x[i] as u32) < (y[i] as u32) {
            return true;
        }
        if x[i] != y[i] {
            return false;
        }
        assert(sa.drop_first() =~= a@.subrange(i + 1, a@.len() as int));
        assert(sb.drop_first() =~= b@.subrange(i + 1, b@.len() as int));
        i = i + 1;
    }
    i < y.len()
}

/// One tracked reference: where it is written, what it names, and the
/// hash of what it named when it was accepted.
#[derive(Debug, Clone)]
pub struct LockEntry {
    /// Hash of the symbol's body.
    pub hash: SemanticHash,
    /// Markdown file holding the reference.
    pub source: String,
    /// Symbol as its query text (empty for a whole file).
    pub symbol: String,
    /// Target path as written (possibly namespaced).
    pub target: String,
}

/// An entry as plain values: (source, target, symbol, hash).
pub type EntryView = (Seq<char>, Seq<char>, Seq<char>, Seq<char>);

impl LockEntry {
    pub open spec fn view(&self) -> EntryView {
        (self.source@, self.target@, self.symbol@, self.hash.0@)
    }

    /// A field-by-field copy.
    pub fn duplicate(&self) -> (r: Self)
        ensures
            r.view() == self.view(),
    {
        LockEntry {
            hash: SemanticHash(self.hash.0.clone()),
            source: self.source.clone(),
            symbol: self.symbol.clone(),
            target: self.target.clone(),
        }
    }
}

/// The views of a list of entries.
pub open spec fn entry_views(v: Seq<LockEntry>) -> Seq<EntryView> {
    v.map_values(|e: LockEntry| e.view())
}

/// The ordering key of an entry: (source, target, symbol).
pub open spec fn key_of(e: EntryView) -> (Seq<char>, Seq<char>, Seq<char>) {
    (e.0, e.1, e.2)
}

/// Same (source, target, symbol).
pub open spec fn same_key(a: EntryView, b: EntryView) -> bool {
    key_of(a) == key_of(b)
}

/// Lexicographic order over keys.
#[verifier::opaque]
pub open spec fn keys_lt(a: (Seq<char>, Seq<char>, Seq<char>), b: (Seq<char>, Seq<char>, Seq<char>)) -> bool {
    seq_lt(a.0, b.0) || (a.0 == b.0 && (seq_lt(a.1, b.1) || (a.1 == b.1 && seq_lt(a.2, b.2))))
}

/// Lexicographic order over (source, target, symbol).
pub open spec fn key_lt(a: EntryView, b: EntryView) -> bool {
    keys_lt(key_of(a), key_of(b))
}

pub proof fn lemma_key_lt_irreflexive(a: EntryView, b: EntryView)
    requires
        same_key(a, b),
    ensures
        !key_lt(a, b),
{
    reveal(keys_lt);
    lemma_seq_lt_irreflexive(a.0);
    lemma_seq_lt_irreflexive(a.1);
    lemma_seq_lt_irreflexive(a.2);
}

pub proof fn lemma_key_lt_transitive(a: EntryView, b: EntryView, c: EntryView)
    requires
        key_lt(a, b),
        key_lt(b, c),
    ensures
        key_lt(a, c),
{
    reveal(keys_lt);
    if seq_lt(a.0, b.0) && seq_lt(b.0, c.0) {
        lemma_seq_lt_transitive(a.0, b.0, c.0);
    }
    if a.0 == b.0 && b.0 == c.0 {
        if seq_lt(a.1, b.1) && seq_lt(b.1, c.1) {
            lemma_seq_lt_transitive(a.1, b.1, c.1);
        }
        if a.1 == b.1 && b.1 == c.1 && seq_lt(a.2, b.2) && seq_lt(b.2, c.2) {
            lemma_seq_lt_transitive(a.2, b.2, c.2);
        }
    }
}

pub proof fn lemma_key_lt_total(a: EntryView, b: EntryView)
    requires
        !same_key(a, b),
    ensures
        key_lt(a, b) || key_lt(b, a),
{
    reveal(keys_lt);
    if a.0 != b.0 {
        lemma_seq_lt_total(a.0, b.0);
    } else if a.1 != b.1 {
        lemma_seq_lt_total(a.1, b.1);
    } else {
        lemma_seq_lt_total(a.2, b.2);
    }
}

/// Each entry comes strictly before the next.
pub open spec fn strictly_ascending(s: Seq<EntryView>) -> bool {
    forall|i: int| 0 <= i < s.len() - 1 ==> key_lt(#[trigger] s[i], s[i + 1])
}

/// Each entry comes strictly before every later one.
pub open spec fn strictly_sorted(s: Seq<EntryView>) -> bool {
    forall|i: int, j: int| 0 <= i < j < s.len() ==> key_lt(#[trigger] s[i], #[trigger] s[j])
}

pub proof fn lemma_ascending_sorted(s: Seq<EntryView>)
    requires
        strictly_ascending(s),
    ensures
        strictly_sorted(s),
{
    assert forall|i: int, j: int| 0 <= i < j < s.len() implies key_lt(#[trigger] s[i], #[trigger] s[j]) by {
        lemma_ascending_chain(s, i, j);
    }
}

proof fn lemma_ascending_chain(s: Seq<EntryView>, i: int, j: int)
    requires
        strictly_ascending(s),
        0 <= i < j < s.len(),
    ensures
        key_lt(s[i], s[j]),
    decreases j - i,
{
    if j > i + 1 {
        lemma_ascending_chain(s, i, j - 1);
        assert(key_lt(s[j - 1], s[j]));
        lemma_key_lt_transitive(s[i], s[j - 1], s[j]);
    }
}

/// Some kept entry has the key of `x`.
#[verifier::opaque]
pub open spec fn key_present(r: Seq<EntryView>, x: EntryView) -> bool {
    exists|i: int| 0 <= i < r.len() && same_key(#[trigger] r[i], x)
}

/// `x` is an entry of `input` that no earlier entry shares a key with.
#[verifier::opaque]
pub open spec fn first_of_its_key(input: Seq<EntryView>, x: EntryView) -> bool {
    exists|j: int| 0 <= j < input.len() && #[trigger] input[j] == x
        && forall|k: int| 0 <= k < j ==> !same_key(#[trigger] input[k], x)
}

/// `r` is `input` sorted by key with, for each key, only the first entry
/// of `input` that has it.
pub open spec fn sorted_first_by_key(input: Seq<EntryView>, r: Seq<EntryView>) -> bool {
    &&& strictly_sorted(r)
    &&& forall|j: int| 0 <= j < input.len() ==> key_present(r, #[trigger] input[j])
    &&& forall|i: int| 0 <= i < r.len() ==> first_of_its_key(input, #[trigger] r[i])
}

/// Whether two entries have the same (source, target, symbol).
pub fn same_entry_key(a: &LockEntry, b: &LockEntry) -> (r: bool)
    ensures
        r == same_key(a.view(), b.view()),
{
    a.source == b.source && a.target == b.target && a.symbol == b.symbol
}

/// Whether `a` comes strictly before `b` by (source, target, symbol).
pub fn entry_lt(a: &LockEntry, b: &LockEntry) -> (r: bool)
    ensures
        r == key_lt(a.view(), b.view()),
{
    reveal(keys_lt);
    if str_lt(a.source.as_str(), b.source.as_str()) {
        return true;
    }
    if a.source != b.source {
        return false;
    }
    if str_lt(a.target.as_str(), b.target.as_str()) {
        return true;
    }
    if a.target != b.target {
        return false;
    }
    str_lt(a.symbol.as_str(), b.symbol.as_str())
}

/// The lockfile: entries strictly ascending by (source, target, symbol).
#[derive(Debug)]
pub struct Lockfile {
    /// The ordered entries.
    pub entries: Vec<LockEntry>,
}

impl Lockfile {
    /// Entries strictly ascending, hence without two of the same key.
    pub open spec fn wf(&self) -> bool {
        strictly_sorted(entry_views(self.entries@))
    }

    /// Build a lockfile from entries in any order: sort them by key and keep,
    /// for each key, the first entry given with it.
    pub fn new(entries: Vec<LockEntry>) -> (r: Self)
        ensures
            sorted_first_by_key(entry_views(entries@), entry_views(r.entries@)),
            r.wf(),
    {
        let ghost iv = entry_views(entries@);
        let mut out: Vec<LockEntry> = Vec::new();
        let mut idx: usize = 0;
        assert(sorted_first_by_key(iv.take(0), entry_views(out@)));
        while idx < entries.len()
            invariant
                iv == entry_views(entries@),
                idx <= entries.len(),
                sorted_first_by_key(iv.take(idx as int), entry_views(out@)),
            decreases entries.len() - idx,
        {
            let e = &entries[idx];
            let ghost ev = e.view();
            let ghost ov = entry_views(out@);
            assert(iv.take(idx + 1) =~= iv.take(idx as int).push(ev));
            let mut j: usize = 0;
            while j < out.len() && entry_lt(&out[j], e)
                invariant
                    ov == entry_views(out@),
                    ev == e.view(),
                    j <= out.len(),
                    forall|k: int| 0 <= k < j ==> key_lt(#[trigger] ov[k], ev),
                decreases out.len() - j,
            {
                j = j + 1;
            }
            if j < out.len() && same_entry_key(&out[j], e) {
                proof {
                    lemma_keep_first(iv.take(idx as int), ov, ev, j as int);
                }
            } else {
                out.insert(j, e.duplicate());
                proof {
                    assert(entry_views(out@) =~= ov.insert(j as int, ev));
                    lemma_insert_new_key(iv.take(idx as int), ov, ev, j as int);
                }
            }
            idx = idx + 1;
        }
        assert(iv.take(idx as int) =~= iv);
        Lockfile { entries: out }
    }
}

/// An entry whose key is already kept leaves the kept list as it is.
proof fn lemma_keep_first(p: Seq<EntryView>, ov: Seq<EntryView>, ev: EntryView, j: int)
    requires
        sorted_first_by_key(p, ov),
        0 <= j < ov.len(),
        same_key(ov[j], ev),
    ensures
        sorted_first_by_key(p.push(ev), ov),
{
    let q = p.push(ev);
    assert forall|jj: int| 0 <= jj < q.len() implies key_present(ov, #[trigger] q[jj]) by {
        if jj == p.len() {
            reveal(key_present);
            assert(same_key(ov[j], q[jj]));
        } else {
            assert(q[jj] == p[jj]);
        }
    }
    assert forall|i: int| 0 <= i < ov.len() implies first_of_its_key(q, #[trigger] ov[i]) by {
        assert(first_of_its_key(p, ov[i]));
        reveal(first_of_its_key);
        let j0 = choose|jj: int| 0 <= jj < p.len() && #[trigger] p[jj] == ov[i]
            && forall|k: int| 0 <= k < jj ==> !same_key(#[trigger] p[k], ov[i]);
        assert(q[j0] == ov[i]);
        assert forall|k: int| 0 <= k < j0 implies !same_key(#[trigger] q[k], ov[i]) by {
            assert(q[k] == p[k]);
        }
    }
}

/// Every kept entry is strictly below or strictly above a key that is not kept.
proof fn lemma_new_key_apart(ov: Seq<EntryView>, ev: EntryView, j: int)
    requires
        strictly_sorted(ov),
        0 <= j <= ov.len(),
        forall|k: int| 0 <= k < j ==> key_lt(#[trigger] ov[k], ev),
        j < ov.len() ==> !key_lt(ov[j], ev) && !same_key(ov[j], ev),
    ensures
        forall|i: int| 0 <= i < ov.len() ==> (i < j ==> key_lt(#[trigger] ov[i], ev)) && (i >= j ==> key_lt(ev, ov[i])),
{
    if j < ov.len() {
        lemma_key_lt_total(ov[j], ev);
    }
    assert forall|i: int| 0 <= i < ov.len() implies (i < j ==> key_lt(#[trigger] ov[i], ev)) && (i >= j ==> key_lt(ev, ov[i])) by {
        if i > j {
            assert(key_lt(ov[j], ov[i]));
            lemma_key_lt_transitive(ev, ov[j], ov[i]);
        }
    }
}

/// An entry with a key not yet kept goes in at the place where the order
/// puts it.
proof fn lemma_insert_new_key(p: Seq<EntryView>, ov: Seq<EntryView>, ev: EntryView, j: int)
    requires
        sorted_first_by_key(p, ov),
        0 <= j <= ov.len(),
        forall|k: int| 0 <= k < j ==> key_lt(#[trigger] ov[k], ev),
        j < ov.len() ==> !key_lt(ov[j], ev) && !same_key(ov[j], ev),
    ensures
        sorted_first_by_key(p.push(ev), ov.insert(j, ev)),
{
    let q = p.push(ev);
    let nv = ov.insert(j, ev);
    lemma_new_key_apart(ov, ev, j);
    assert forall|a: int, b: int| 0 <= a < b < nv.len() implies key_lt(#[trigger] nv[a], #[trigger] nv[b]) by {
        if b < j {
            assert(key_lt(ov[a], ov[b]));
        } else if b == j {
            assert(key_lt(ov[a], ev));
        } else if a < j {
            assert(key_lt(ov[a], ev));
            assert(key_lt(ev, ov[b - 1]));
            lemma_key_lt_transitive(ov[a], ev, ov[b - 1]);
        } else if a == j {
            assert(key_lt(ev, ov[b - 1]));
        } else {
            assert(key_lt(ov[a - 1], ov[b - 1]));
        }
    }
    assert forall|jj: int| 0 <= jj < q.len() implies key_present(nv, #[trigger] q[jj]) by {
        reveal(key_present);
        if jj == p.len() {
            assert(same_key(nv[j], q[jj]));
        } else {
            assert(q[jj] == p[jj]);
            assert(key_present(ov, p[jj]));
            let i0 = choose|i: int| 0 <= i < ov.len() && same_key(#[trigger] ov[i], p[jj]);
            if i0 < j {
                assert(nv[i0] == ov[i0]);
            } else {
                assert(nv[i0 + 1] == ov[i0]);
            }
        }
    }
    assert forall|i: int| 0 <= i < nv.len() implies first_of_its_key(q, #[trigger] nv[i]) by {
        reveal(first_of_its_key);
        if i == j {
            assert forall|k: int| 0 <= k < p.len() implies !same_key(#[trigger] q[k], nv[i]) by {
                assert(q[k] == p[k]);
                assert(key_present(ov, p[k]));
                reveal(key_present);
                let i0 = choose|i1: int| 0 <= i1 < ov.len() && same_key(#[trigger] ov[i1], p[k]);
                if same_key(p[k], ev) {
                    lemma_key_lt_irreflexive(ov[i0], ev);
                    lemma_key_lt_irreflexive(ev, ov[i0]);
                }
            }
            assert(q[p.len() as int] == nv[i]);
        } else {
            let oi = if i < j { i } else { i - 1 };
            assert(nv[i] == ov[oi]);
            assert(first_of_its_key(p, ov[oi]));
            let j0 = choose|jj: int| 0 <= jj < p.len() && #[trigger] p[jj] == ov[oi]
                && forall|k: int| 0 <= k < jj ==> !same_key(#[trigger] p[k], ov[oi]);
            assert(q[j0] == nv[i]);
            assert forall|k: int| 0 <= k < j0 implies !same_key(#[trigger] q[k], nv[i]) by {
                assert(q[k] == p[k]);
            }
        }
    }
}

/// Two strictly sorted lists with the same elements are the same list.
proof fn lemma_sorted_same_elements(a: Seq<EntryView>, b: Seq<EntryView>)
    requires
        strictly_sorted(a),
        strictly_sorted(b),
        forall|x: EntryView| a.contains(x) <==> b.contains(x),
    ensures
        a == b,
    decreases a.len(),
{
    if a.len() == 0 {
        if b.len() > 0 {
            assert(b.contains(b[0]));
        }
        assert(a =~= b);
    } else {
        assert(a.contains(a[0]));
        let c = choose|c: int| 0 <= c < b.len() && b[c] == a[0];
        assert(b.contains(b[0]));
        let d = choose|d: int| 0 <= d < a.len() && a[d] == b[0];
        if c > 0 {
            assert(key_lt(b[0], b[c]));
            if d > 0 {
                assert(key_lt(a[0], a[d]));
                lemma_key_lt_transitive(a[0], a[d], a[0]);
            }
            lemma_key_lt_irreflexive(a[0], a[0]);
        }
        assert(a[0] == b[0]);
        let a1 = a.drop_first();
        let b1 = b.drop_first();
        assert forall|x: EntryView| a1.contains(x) implies b1.contains(x) by {
            let i = choose|i: int| 0 <= i < a1.len() && a1[i] == x;
            assert(a.contains(x)) by { assert(a[i + 1] == x); }
            let k = choose|k: int| 0 <= k < b.len() && b[k] == x;
            if k == 0 {
                assert(key_lt(a[0], a[i + 1]));
                lemma_key_lt_irreflexive(a[0], a[i + 1]);
            }
            assert(b1[k - 1] == x);
        }
        assert forall|x: EntryView| b1.contains(x) implies a1.contains(x) by {
            let i = choose|i: int| 0 <= i < b1.len() && b1[i] == x;
            assert(b.contains(x)) by { assert(b[i + 1] == x); }
            let k = choose|k: int| 0 <= k < a.len() && a[k] == x;
            if k == 0 {
                assert(key_lt(b[0], b[i + 1]));
                lemma_key_lt_irreflexive(b[0], b[i + 1]);
            }
            assert(a1[k - 1] == x);
        }
        lemma_sorted_same_elements(a1, b1);
        assert(a =~= seq![a[0]] + a1);
        assert(b =~= seq![b[0]] + b1);
    }
}

/// Rebuilding a well-formed lockfile from its own entries, shuffled and
/// possibly repeated, gives back exactly the same entries.
pub proof fn lemma_new_recovers_sorted(l: Seq<EntryView>, shuffled: Seq<EntryView>, r: Seq<EntryView>)
    requires
        strictly_sorted(l),
        forall|x: EntryView| shuffled.contains(x) <==> l.contains(x),
        sorted_first_by_key(shuffled, r),
    ensures
        r == l,
{
    reveal(key_present);
    reveal(first_of_its_key);
    assert forall|x: EntryView| r.contains(x) implies l.contains(x) by {
        let i = choose|i: int| 0 <= i < r.len() && r[i] == x;
        assert(first_of_its_key(shuffled, r[i]));
        let j = choose|j: int| 0 <= j < shuffled.len() && #[trigger] shuffled[j] == r[i]
            && forall|k: int| 0 <= k < j ==> !same_key(#[trigger] shuffled[k], r[i]);
        assert(shuffled.contains(x));
    }
    assert forall|x: EntryView| l.contains(x) implies r.contains(x) by {
        let a = choose|a: int| 0 <= a < l.len() && l[a] == x;
        assert(shuffled.contains(x));
        let j = choose|j: int| 0 <= j < shuffled.len() && shuffled[j] == x;
        assert(key_present(r, shuffled[j]));
        let i = choose|i: int| 0 <= i < r.len() && same_key(#[trigger] r[i], shuffled[j]);
        assert(r.contains(r[i]));
        assert(l.contains(r[i]));
        let b = choose|b: int| 0 <= b < l.len() && l[b] == r[i];
        if a < b {
            assert(key_lt(l[a], l[b]));
            lemma_key_lt_irreflexive(l[a], l[b]);
        } else if b < a {
            assert(key_lt(l[b], l[a]));
            lemma_key_lt_irreflexive(l[b], l[a]);
        }
    }
    lemma_sorted_same_elements(r, l);
}

/// Sorting ignores input order: for a well-formed lockfile `l` and any
/// permutation `p` of its entries, `Lockfile::new(p)` (whose result `r`
/// meets `sorted_first_by_key`) has exactly `l`'s entries.
pub proof fn lemma_new_of_permutation(l: Seq<EntryView>, p: Seq<EntryView>, r: Seq<EntryView>)
    requires
        strictly_sorted(l),
        p.to_multiset() == l.to_multiset(),
        sorted_first_by_key(p, r),
    ensures
        r == l,
{
    broadcast use vstd::seq_lib::group_to_multiset_ensures;
    assert forall|x: EntryView| p.contains(x) <==> l.contains(x) by {
        assert(p.contains(x) <==> p.to_multiset().count(x) > 0);
        assert(l.contains(x) <==> l.to_multiset().count(x) > 0);
    }
    lemma_new_recovers_sorted(l, p, r);
}

/// Entries read back exactly as a lockfile holds them pass the ordering
/// check: `from_parsed` returns them unchanged. (Writing them as TOML and
/// reading the TOML back is the toml crate's part.)
pub proof fn lemma_sorted_entries_reparse(s: Seq<EntryView>)
    requires
        strictly_sorted(s),
    ensures
        strictly_ascending(s),
{
    assert forall|i: int| 0 <= i < s.len() - 1 implies key_lt(#[trigger] s[i], s[i + 1]) by {
        assert(key_lt(s[i], s[i + 1]));
    }
}

/// Check that entries are strictly ascending by key.
pub fn enforce_lockfile_entry_ordering(entries: &Vec<LockEntry>) -> (r: Result<(), Error>)
    ensures
        r is Ok <==> strictly_ascending(entry_views(entries@)),
        r matches Err(e) ==> e is LockfileCorrupt,
{
    let ghost v = entry_views(entries@);
    let mut i: usize = 1;
    if entries.len() == 0 {
        return Ok(());
    }
    while i < entries.len()
        invariant
            v == entry_views(entries@),
            1 <= i <= entries.len(),
            forall|k: int| 0 <= k < i - 1 ==> key_lt(#[trigger] v[k], v[k + 1]),
        decreases entries.len() - i,
    {
        let first = &entries[i - 1];
        let second = &entries[i];
        if !entry_lt(first, second) {
            let mut reason = owned("entries not sorted: ");
            reason.append(first.source.as_str());
            reason.append(" ");
            reason.append(first.target.as_str());
            reason.append(" ");
            reason.append(first.symbol.as_str());
            reason.append(" >= ");
            reason.append(second.source.as_str());
            reason.append(" ");
            reason.append(second.target.as_str());
            reason.append(" ");
            reason.append(second.symbol.as_str());
            assert(!key_lt(v[i - 1], v[i as int]));
            return Err(Error::LockfileCorrupt { reason });
        }
        i = i + 1;
    }
    Ok(())
}

impl Lockfile {
    /// A lockfile from entries read back from storage, which must already be
    /// strictly ascending by key.
    pub fn from_parsed(entries: Vec<LockEntry>) -> (r: Result<Lockfile, Error>)
        ensures
            r is Ok <==> strictly_ascending(entry_views(entries@)),
            r matches Ok(l) ==> l.entries@ == entries@ && l.wf(),
            r matches Err(e) ==> e is LockfileCorrupt,
    {
        match enforce_lockfile_entry_ordering(&entries) {
            Ok(()) => {
                proof {
                    lemma_ascending_sorted(entry_views(entries@));
                }
                Ok(Lockfile { entries })
            },
            Err(e) => Err(e),
        }
    }
}

} // verus!
