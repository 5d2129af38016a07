//! Semantic hashing: the leaf tokens of a syntax tree, without comments or
//! surrounding whitespace, joined by single spaces and digested with SHA-256.

use vstd::prelude::*;
use vstd::string::*;
use vstd::utf8::{decode_utf8, encode_utf8};
use crate::error::Error;
use crate::scanner::{join_strings, join_with, views};
use crate::syntax::{parse_syntax, parsed, Lang, SyntaxTree, SyntaxView};
use crate::text::{chars_of, owned};
use crate::types::{ResolvedSymbol, SemanticHash};

verus! {

broadcast use vstd::utf8::encode_utf8_decode_utf8;

/// What SHA-256 makes of a byte string.
pub uninterp spec fn sha256_of(data: Seq<u8>) -> Seq<u8>;

/// Relies on `sha2::Sha256::digest`: the SHA-256 digest of the input,
/// 32 bytes, a function of the bytes alone.
#[verifier::external_body]
fn sha256(data: &[u8]) -> (r: Vec<u8>)
    ensures
        r@ == sha256_of(data@),
        r@.len() == 32,
{
    <sha2::Sha256 as sha2::Digest>::digest(data).to_vec()
}

/// Relies on `str::get` with a byte range: the text between two byte
/// offsets when both lie on character boundaries inside the text.
#[verifier::external_body]
pub(crate) fn byte_slice(s: &str, start: usize, end: usize) -> (r: Option<&str>)
    ensures
        r is Some <==> (start <= end <= s.spec_bytes().len()
            && vstd::utf8::is_char_boundary(s.spec_bytes(), start as int)
            && vstd::utf8::is_char_boundary(s.spec_bytes(), end as int)),
        r matches Some(t) ==> t.spec_bytes() == s.spec_bytes().subrange(start as int, end as int),
{
    s.get(start..end)
}

/// The text of the bytes `[start, end)`.
pub open spec fn text_between(src: Seq<u8>, start: int, end: int) -> Seq<char> {
    decode_utf8(src.subrange(start, end))
}

/// Whether `w` occurs in `s` as a contiguous run.
pub open spec fn has_infix(s: Seq<char>, w: Seq<char>) -> bool {
    exists|i: int| 0 <= i && i + w.len() <= s.len() && #[trigger] s.subrange(i, i + w.len()) == w
}

/// The word that marks comment node kinds.
pub open spec fn comment_word() -> Seq<char> {
    seq!['c', 'o', 'm', 'm', 'e', 'n', 't']
}

/// ASCII whitespace: space, tab, line feed, form feed, carriage return.
pub open spec fn ascii_ws(c: char) -> bool {
    c == ' ' || c == '\t' || c == '\n' || c == '\x0C' || c == '\r'
}

pub open spec fn trim_start_ws(s: Seq<char>) -> Seq<char>
    decreases s.len(),
{
    if s.len() > 0 && ascii_ws(s[0]) {
        trim_start_ws(s.drop_first())
    } else {
        s
    }
}

pub open spec fn trim_end_ws(s: Seq<char>) -> Seq<char>
    decreases s.len(),
{
    if s.len() > 0 && ascii_ws(s.last()) {
        trim_end_ws(s.drop_last())
    } else {
        s
    }
}

/// `s` without ASCII whitespace at either end.
pub open spec fn trim_ws(s: Seq<char>) -> Seq<char> {
    trim_end_ws(trim_start_ws(s))
}

/// The tokens that a list of leaves (kind, text) contributes, in order:
/// comment leaves and leaves that are only whitespace contribute nothing,
/// every other leaf its trimmed text.
pub open spec fn token_stream(leaves: Seq<(Seq<char>, Seq<char>)>) -> Seq<Seq<char>>
    decreases leaves.len(),
{
    if leaves.len() == 0 {
        Seq::empty()
    } else {
        let rest = token_stream(leaves.drop_last());
        let (kind, text) = leaves.last();
        if !has_infix(kind, comment_word()) && trim_ws(text).len() > 0 {
            rest.push(trim_ws(text))
        } else {
            rest
        }
    }
}

/// The leaves among the first `n` nodes, in depth-first order, as
/// (kind, text) pairs.
pub open spec fn leaf_pairs(t: SyntaxView, src: Seq<u8>, n: int) -> Seq<(Seq<char>, Seq<char>)>
    decreases n,
{
    if n <= 0 {
        Seq::empty()
    } else {
        let rest = leaf_pairs(t, src, n - 1);
        let node = t.nodes[n - 1];
        if t.is_leaf(n - 1) {
            rest.push((node.kind, text_between(src, node.start as int, node.end as int)))
        } else {
            rest
        }
    }
}

/// The normalized token text of a tree over its source.
pub open spec fn semantic_text(t: SyntaxView, src: Seq<u8>) -> Seq<char> {
    join_with(token_stream(leaf_pairs(t, src, t.nodes.len() as int)), seq![' '])
}

/// The lowercase hex digit of a value below 16.
pub open spec fn hex_digit(n: int) -> char {
    seq!['0', '1', '2', '3', '4', '5', '6', '7', '8', '9', 'a', 'b', 'c', 'd', 'e', 'f'][n]
}

/// Two lowercase hex digits per byte, high nibble first.
pub open spec fn hex_of(b: Seq<u8>) -> Seq<char>
    decreases b.len(),
{
    if b.len() == 0 {
        Seq::empty()
    } else {
        hex_of(b.drop_last()) + seq![hex_digit(b.last() as int / 16), hex_digit(b.last() as int % 16)]
    }
}

/// The semantic hash of a tree over its source.
pub open spec fn tree_hash(t: SyntaxView, src: Seq<u8>) -> Seq<char> {
    hex_of(sha256_of(encode_utf8(semantic_text(t, src))))
}

/// Every leaf's range lies on character boundaries of the source.
pub open spec fn leaves_on_boundaries(t: SyntaxView, src: Seq<u8>) -> bool {
    forall|i: int| 0 <= i < t.nodes.len() && #[trigger] t.is_leaf(i) ==>
        vstd::utf8::is_char_boundary(src, t.nodes[i].start as int)
        && vstd::utf8::is_char_boundary(src, t.nodes[i].end as int)
}

/// Lowercase hex text of a byte string.
pub fn hex_lower(b: &Vec<u8>) -> (r: String)
    ensures
        r@ == hex_of(b@),
{
    let digits = "0123456789abcdef";
    proof {
        reveal_strlit("0123456789abcdef");
    }
    let mut out = String::new();
    let mut i: usize = 0;
    while i < b.len()
        invariant
            i <= b.len(),
            out@ == hex_of(b@.subrange(0, i as int)),
            digits@ == seq!['0', '1', '2', '3', '4', '5', '6', '7', '8', '9', 'a', 'b', 'c', 'd', 'e', 'f'],
        decreases b.len() - i,
    {
        let hi = (b[i] / 16) as usize;
        let lo = (b[i] % 16) as usize;
        out.append(digits.substring_char(hi, hi + 1));
        out.append(digits.substring_char(lo, lo + 1));
        proof {
            assert(b@.subrange(0, i + 1).drop_last() =~= b@.subrange(0, i as int));
            assert(digits@.subrange(hi as int, hi + 1) =~= seq![hex_digit(hi as int)]);
            assert(digits@.subrange(lo as int, lo + 1) =~= seq![hex_digit(lo as int)]);
        }
        i = i + 1;
    }
    assert(b@.subrange(0, i as int) =~= b@);
    out
}

/// Whether a node kind names a comment.
pub fn is_comment_kind(kind: &str) -> (r: bool)
    ensures
        r == has_infix(kind@, comment_word()),
{
    let word = "comment";
    proof {
        reveal_strlit("comment");
        assert(word@ =~= comment_word());
    }
    let cs = chars_of(kind);
    let ws = chars_of(word);
    if cs.len() < 7 {
        assert forall|i: int| 0 <= i && i + 7 <= kind@.len() implies #[trigger] kind@.subrange(i, i + 7) != comment_word() by {}
        return false;
    }
    let mut i: usize = 0;
    while i < cs.len() - 6
        invariant
            cs@ == kind@,
            ws@ == comment_word(),
            cs.len() >= 7,
            i <= cs.len() - 6,
            forall|k: int| 0 <= k < i ==> #[trigger] kind@.subrange(k, k + 7) != comment_word(),
        decreases cs.len() - i,
    {
        let mut j: usize = 0;
        while j < 7 && cs[i + j] == ws[j]
            invariant
                cs@ == kind@,
                ws@ == comment_word(),
                i + 7 <= cs.len(),
                j <= 7,
                kind@.subrange(i as int, i + j) == comment_word().subrange(0, j as int),
            decreases 7 - j,
        {
            assert(kind@.subrange(i as int, i + j + 1) =~= kind@.subrange(i as int, i + j).push(cs@[i + j]));
            assert(comment_word().subrange(0, j + 1) =~= comment_word().subrange(0, j as int).push(ws@[j as int]));
            j = j + 1;
        }
        if j == 7 {
            assert(comment_word().subrange(0, 7) =~= comment_word());
            assert(kind@.subrange(i as int, i + 7) == comment_word());
            return true;
        }
        assert(kind@.subrange(i as int, i + 7)[j as int] != comment_word()[j as int]);
        i = i + 1;
    }
    false
}

proof fn lemma_trim_start_suffix(s: Seq<char>, i: int)
    requires
        0 <= i <= s.len(),
        forall|k: int| 0 <= k < i ==> ascii_ws(#[trigger] s[k]),
    ensures
        trim_start_ws(s) == trim_start_ws(s.subrange(i, s.len() as int)),
    decreases i,
{
    if i > 0 {
        assert(s.drop_first().subrange(i - 1, s.len() - 1) =~= s.subrange(i, s.len() as int));
        lemma_trim_start_suffix(s.drop_first(), i - 1);
    } else {
        assert(s.subrange(0, s.len() as int) =~= s);
    }
}

proof fn lemma_trim_end_prefix(s: Seq<char>, j: int)
    requires
        0 <= j <= s.len(),
        forall|k: int| j <= k < s.len() ==> ascii_ws(#[trigger] s[k]),
    ensures
        trim_end_ws(s) == trim_end_ws(s.subrange(0, j)),
    decreases s.len() - j,
{
    if j < s.len() {
        assert(s.drop_last().subrange(0, j) =~= s.subrange(0, j));
        lemma_trim_end_prefix(s.drop_last(), j);
    } else {
        assert(s.subrange(0, j) =~= s);
    }
}

/// `s` without ASCII whitespace at either end.
pub fn trim_ascii_ws(s: &str) -> (r: &str)
    ensures
        r@ == trim_ws(s@),
{
    let cs = chars_of(s);
    let n = cs.len();
    let mut i: usize = 0;
    while i < n && (cs[i] == ' ' || cs[i] == '\t' || cs[i] == '\n' || cs[i] == '\x0C' || cs[i] == '\r')
        invariant
            cs@ == s@,
            n == s@.len(),
            i <= n,
            forall|k: int| 0 <= k < i ==> ascii_ws(#[trigger] s@[k]),
        decreases n - i,
    {
        i = i + 1;
    }
    proof {
        lemma_trim_start_suffix(s@, i as int);
    }
    let ghost mid = s@.subrange(i as int, n as int);
    let mut j: usize = n;
    while j > i && (cs[j - 1] == ' ' || cs[j - 1] == '\t' || cs[j - 1] == '\n' || cs[j - 1] == '\x0C' || cs[j - 1] == '\r')
        invariant
            cs@ == s@,
            n == s@.len(),
            i <= j <= n,
            mid == s@.subrange(i as int, n as int),
            forall|k: int| j <= k < n ==> ascii_ws(#[trigger] s@[k]),
        decreases j,
    {
        j = j - 1;
    }
    proof {
        assert forall|k: int| j - i <= k < mid.len() implies ascii_ws(#[trigger] mid[k]) by {
            assert(mid[k] == s@[k + i]);
        }
        lemma_trim_end_prefix(mid, j - i);
        assert(mid.subrange(0, j - i) =~= s@.subrange(i as int, j as int));
        if i < n {
            assert(!ascii_ws(mid[0]));
            assert(trim_start_ws(mid) == mid);
        } else {
            assert(mid.len() == 0);
        }
        if j > i {
            assert(!ascii_ws(s@[j - 1]));
            let t = s@.subrange(i as int, j as int);
            assert(t.last() == s@[j - 1]);
            assert(trim_end_ws(t) == t);
        } else {
            assert(s@.subrange(i as int, j as int).len() == 0);
        }
    }
    s.substring_char(i, j)
}

/// The semantic hash of a syntax tree over the text it was parsed from.
/// Fails only when a leaf's range splits a character.
pub fn semantic_hash(tree: &SyntaxTree, text: &str) -> (r: Result<SemanticHash, Error>)
    requires
        tree.wf(text.spec_bytes().len()),
    ensures
        r is Ok <==> leaves_on_boundaries(tree@, text.spec_bytes()),
        r matches Ok(h) ==> h.0@ == tree_hash(tree@, text.spec_bytes()),
        r matches Ok(h) ==> h.0@.len() == 64 && forall|i: int| 0 <= i < 64 ==> is_lower_hex(#[trigger] h.0@[i]),
        r matches Err(e) ==> e is ParseFailed,
{
    let ghost src = text.spec_bytes();
    let mut tokens: Vec<String> = Vec::new();
    let mut i: usize = 0;
    while i < tree.nodes.len()
        invariant
            src == text.spec_bytes(),
            tree.wf(src.len()),
            i <= tree.nodes@.len(),
            views(tokens@) == token_stream(leaf_pairs(tree@, src, i as int)),
            forall|k: int| 0 <= k < i && #[trigger] tree@.is_leaf(k) ==>
                vstd::utf8::is_char_boundary(src, tree@.nodes[k].start as int)
                && vstd::utf8::is_char_boundary(src, tree@.nodes[k].end as int),
        decreases tree.nodes.len() - i,
    {
        let ghost before = leaf_pairs(tree@, src, i as int);
        if tree.first_child[i].is_none() {
            let node = &tree.nodes[i];
            assert(tree@.nodes[i as int].start <= tree@.nodes[i as int].end <= src.len());
            match byte_slice(text, node.start, node.end) {
                None => {
                    assert(!leaves_on_boundaries(tree@, src)) by {
                        assert(tree@.is_leaf(i as int));
                    }
                    return Err(Error::ParseFailed { file: String::new(), reason: owned("leaf range splits a character") });
                },
                Some(piece) => {
                    let ghost pair = (node.kind@, text_between(src, node.start as int, node.end as int));
                    assert(leaf_pairs(tree@, src, i + 1) == before.push(pair));
                    assert(before.push(pair).drop_last() =~= before);
                    assert(piece@ == pair.1);
                    let trimmed = trim_ascii_ws(piece);
                    if !is_comment_kind(node.kind.as_str()) && trimmed.unicode_len() > 0 {
                        let ghost old_tokens = tokens@;
                        tokens.push(owned(trimmed));
                        assert(views(tokens@) =~= views(old_tokens).push(trimmed@));
                    }
                },
            }
        } else {
            assert(leaf_pairs(tree@, src, i + 1) == before);
        }
        i = i + 1;
    }
    let joined = join_strings(&tokens, " ");
    proof {
        reveal_strlit(" ");
        assert(" "@ =~= seq![' ']);
    }
    let digest = sha256(joined.as_str().as_bytes());
    proof {
        lemma_hex_shape(digest@);
    }
    Ok(SemanticHash(hex_lower(&digest)))
}

/// The semantic hash of a text: of the tree its parse gives, when the
/// parse succeeds and no leaf splits a character.
pub open spec fn text_hash(lang: Lang, text: Seq<char>) -> Option<Seq<char>> {
    match parsed(lang, text) {
        None => None,
        Some(t) => if leaves_on_boundaries(t, encode_utf8(text)) { Some(tree_hash(t, encode_utf8(text))) } else { None },
    }
}

/// The text of a declaration's byte range, when the range lies inside the
/// source on character boundaries.
pub open spec fn range_text(src: Seq<u8>, start: int, end: int) -> Option<Seq<char>> {
    if 0 <= start <= end <= src.len() && vstd::utf8::is_char_boundary(src, start) && vstd::utf8::is_char_boundary(src, end) {
        Some(text_between(src, start, end))
    } else {
        None
    }
}

/// A lowercase hex digit.
pub open spec fn is_lower_hex(c: char) -> bool {
    ('0' <= c <= '9') || ('a' <= c <= 'f')
}

/// `r` is the hash `h` when there is one, else a parse failure; a hash is
/// 64 lowercase hex digits.
pub open spec fn hash_outcome(r: Result<SemanticHash, Error>, h: Option<Seq<char>>) -> bool {
    &&& (h matches Some(x) ==> (r matches Ok(y) && y.0@ == x))
    &&& (h is None ==> r matches Err(Error::ParseFailed { .. }))
    &&& (r matches Ok(y) ==> y.0@.len() == 64 && forall|i: int| 0 <= i < 64 ==> is_lower_hex(#[trigger] y.0@[i]))
}

proof fn lemma_hex_shape(b: Seq<u8>)
    ensures
        hex_of(b).len() == 2 * b.len(),
        forall|i: int| 0 <= i < hex_of(b).len() ==> is_lower_hex(#[trigger] hex_of(b)[i]),
    decreases b.len(),
{
    if b.len() > 0 {
        lemma_hex_shape(b.drop_last());
        let hi = b.last() as int / 16;
        let lo = b.last() as int % 16;
        assert(is_lower_hex(hex_digit(hi)));
        assert(is_lower_hex(hex_digit(lo)));
        let prev = hex_of(b.drop_last());
        assert forall|i: int| 0 <= i < hex_of(b).len() implies is_lower_hex(#[trigger] hex_of(b)[i]) by {
            if i < prev.len() {
                assert(hex_of(b)[i] == prev[i]);
            }
        }
    }
}

/// The semantic hash of a whole source file: the hash of its parse.
pub fn hash_file(source: &str, lang: Lang) -> (r: Result<SemanticHash, Error>)
    ensures
        hash_outcome(r, text_hash(lang, source@)),
{
    let tree = parse_syntax(lang, source)?;
    semantic_hash(&tree, source)
}

/// The semantic hash of a declaration: its byte range is cut out of the
/// source and parsed on its own.
pub fn hash_symbol(source: &str, lang: Lang, symbol: &ResolvedSymbol) -> (r: Result<SemanticHash, Error>)
    ensures
        hash_outcome(r, match range_text(source.spec_bytes(), symbol.byte_range.start as int, symbol.byte_range.end as int) {
            Some(x) => text_hash(lang, x),
            None => None,
        }),
{
    let start = symbol.byte_range.start as usize;
    let end = symbol.byte_range.end as usize;
    match byte_slice(source, start, end) {
        None => Err(Error::ParseFailed { file: owned("symbol"), reason: owned("byte range outside the source") }),
        Some(snippet) => hash_file(snippet, lang),
    }
}

/// Hash invariance: two texts whose parses give the same token stream
/// (kinds and trimmed texts of their non-comment leaves) hash alike,
/// however their whitespace and comments differ.
pub proof fn lemma_same_tokens_same_hash(lang: Lang, a: Seq<char>, b: Seq<char>)
    requires
        parsed(lang, a) is Some,
        parsed(lang, b) is Some,
        leaves_on_boundaries(parsed(lang, a)->0, encode_utf8(a)),
        leaves_on_boundaries(parsed(lang, b)->0, encode_utf8(b)),
        token_stream(leaf_pairs(parsed(lang, a)->0, encode_utf8(a), parsed(lang, a)->0.nodes.len() as int))
            == token_stream(leaf_pairs(parsed(lang, b)->0, encode_utf8(b), parsed(lang, b)->0.nodes.len() as int)),
    ensures
        text_hash(lang, a) == text_hash(lang, b),
{
}

/// The tokens of two leaf lists one after the other are the tokens of each.
pub proof fn lemma_token_stream_append(a: Seq<(Seq<char>, Seq<char>)>, b: Seq<(Seq<char>, Seq<char>)>)
    ensures
        token_stream(a + b) == token_stream(a) + token_stream(b),
    decreases b.len(),
{
    if b.len() == 0 {
        assert(a + b =~= a);
        assert(token_stream(a) + token_stream(b) =~= token_stream(a));
    } else {
        assert((a + b).drop_last() =~= a + b.drop_last());
        lemma_token_stream_append(a, b.drop_last());
        assert((a + b).last() == b.last());
        let t = token_stream(a) + token_stream(b.drop_last());
        assert(t.push(trim_ws(b.last().1)) =~= token_stream(a) + token_stream(b.drop_last()).push(trim_ws(b.last().1)));
    }
}

/// A comment leaf adds no token, wherever it is inserted.
pub proof fn lemma_comment_leaf_adds_no_token(leaves: Seq<(Seq<char>, Seq<char>)>, k: int, kind: Seq<char>, text: Seq<char>)
    requires
        0 <= k <= leaves.len(),
        has_infix(kind, comment_word()),
    ensures
        token_stream(leaves.insert(k, (kind, text))) == token_stream(leaves),
{
    let pre = leaves.subrange(0, k);
    let post = leaves.subrange(k, leaves.len() as int);
    let one = seq![(kind, text)];
    assert(leaves.insert(k, (kind, text)) =~= (pre + one) + post);
    assert(leaves =~= pre + post);
    lemma_token_stream_append(pre + one, post);
    lemma_token_stream_append(pre, one);
    lemma_token_stream_append(pre, post);
    assert(one.drop_last() =~= Seq::<(Seq<char>, Seq<char>)>::empty());
    assert(token_stream(one.drop_last()) =~= Seq::<Seq<char>>::empty());
    assert(one.last() == (kind, text));
    assert(token_stream(one) =~= Seq::<Seq<char>>::empty());
    assert(token_stream(pre) + token_stream(one) =~= token_stream(pre));
}

proof fn lemma_trim_start_extend(x: Seq<char>, y: Seq<char>)
    requires
        trim_start_ws(x).len() > 0,
    ensures
        trim_start_ws(x + y) == trim_start_ws(x) + y,
    decreases x.len(),
{
    if x.len() > 0 && ascii_ws(x[0]) {
        assert((x + y).drop_first() =~= x.drop_first() + y);
        lemma_trim_start_extend(x.drop_first(), y);
    } else {
        assert(x.len() > 0);
        assert((x + y)[0] == x[0]);
    }
}

proof fn lemma_trim_start_all_ws(x: Seq<char>)
    requires
        forall|k: int| 0 <= k < x.len() ==> ascii_ws(#[trigger] x[k]),
    ensures
        trim_start_ws(x).len() == 0,
    decreases x.len(),
{
    if x.len() > 0 {
        assert forall|k: int| 0 <= k < x.drop_first().len() implies ascii_ws(#[trigger] x.drop_first()[k]) by {
            assert(x.drop_first()[k] == x[k + 1]);
        }
        lemma_trim_start_all_ws(x.drop_first());
    }
}

proof fn lemma_trim_start_ws_only(x: Seq<char>)
    requires
        trim_start_ws(x).len() == 0,
    ensures
        forall|k: int| 0 <= k < x.len() ==> ascii_ws(#[trigger] x[k]),
    decreases x.len(),
{
    if x.len() > 0 {
        lemma_trim_start_ws_only(x.drop_first());
        assert forall|k: int| 0 <= k < x.len() implies ascii_ws(#[trigger] x[k]) by {
            if k > 0 {
                assert(x[k] == x.drop_first()[k - 1]);
            }
        }
    }
}

/// ASCII whitespace added around a leaf's text adds no token and changes none.
pub proof fn lemma_padding_adds_no_token(leaves: Seq<(Seq<char>, Seq<char>)>, k: int, before: Seq<char>, after: Seq<char>)
    requires
        0 <= k < leaves.len(),
        forall|i: int| 0 <= i < before.len() ==> ascii_ws(#[trigger] before[i]),
        forall|i: int| 0 <= i < after.len() ==> ascii_ws(#[trigger] after[i]),
    ensures
        token_stream(leaves.update(k, (leaves[k].0, before + leaves[k].1 + after))) == token_stream(leaves),
{
    let text = leaves[k].1;
    let padded = before + text + after;
    let whole = before + (text + after);
    assert(padded =~= whole);
    assert forall|i: int| 0 <= i < before.len() implies ascii_ws(#[trigger] whole[i]) by {
        assert(whole[i] == before[i]);
    }
    lemma_trim_start_suffix(whole, before.len() as int);
    assert(whole.subrange(before.len() as int, whole.len() as int) =~= text + after);
    if trim_start_ws(text).len() > 0 {
        lemma_trim_start_extend(text, after);
        let ts = trim_start_ws(text);
        let te = ts + after;
        assert forall|i: int| ts.len() <= i < te.len() implies ascii_ws(#[trigger] te[i]) by {
            assert(te[i] == after[i - ts.len()]);
        }
        lemma_trim_end_prefix(te, ts.len() as int);
        assert(te.subrange(0, ts.len() as int) =~= ts);
    } else {
        lemma_trim_start_ws_only(text);
        let ta = text + after;
        assert forall|i: int| 0 <= i < ta.len() implies ascii_ws(#[trigger] ta[i]) by {
            if i < text.len() {
                assert(ta[i] == text[i]);
            } else {
                assert(ta[i] == after[i - text.len()]);
            }
        }
        lemma_trim_start_all_ws(ta);
    }
    assert(trim_ws(padded) == trim_ws(text));
    let pre = leaves.subrange(0, k);
    let post = leaves.subrange(k + 1, leaves.len() as int);
    let one = seq![(leaves[k].0, padded)];
    let orig = seq![leaves[k]];
    assert(leaves.update(k, (leaves[k].0, padded)) =~= (pre + one) + post);
    assert(leaves =~= (pre + orig) + post);
    lemma_token_stream_append(pre + one, post);
    lemma_token_stream_append(pre, one);
    lemma_token_stream_append(pre + orig, post);
    lemma_token_stream_append(pre, orig);
    assert(one.drop_last() =~= Seq::<(Seq<char>, Seq<char>)>::empty());
    assert(orig.drop_last() =~= Seq::<(Seq<char>, Seq<char>)>::empty());
    assert(token_stream(one) == token_stream(orig));
}

} // verus!
