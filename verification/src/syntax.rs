//! A syntax tree held as plain values.
//!
//! The nodes of a parsed file are stored in pre-order: node 0 is the root,
//! and every child comes after its parent.  Each node keeps its kind, the
//! field under which it hangs off its parent, its byte range in the source,
//! its first row and its children in order.
use vstd::prelude::*;
use vstd::utf8::{
    decode_utf8, encode_utf8, encode_utf8_decode_utf8, encode_utf8_valid_utf8, is_char_boundary,
    is_char_boundary_iff_not_is_continuation_byte, is_char_boundary_start_end_of_seq,
    valid_utf8, valid_utf8_split,
};

use vstd::string::StringSliceAdditionalSpecFns;

use crate::text::{chars_of, eq_chars, eq_str};

verus! {

pub struct SyntaxNode {
    pub kind: String,
    pub field: Option<String>,
    pub start_byte: usize,
    pub end_byte: usize,
    pub start_row: usize,
    pub children: Vec<usize>,
}

pub struct SyntaxTree {
    pub nodes: Vec<SyntaxNode>,
}

/// The text of the bytes `start..end` of the UTF-8 encoding of `src`.
pub open spec fn span_text(src: Seq<char>, start: int, end: int) -> Seq<char> {
    decode_utf8(encode_utf8(src).subrange(start, end))
}

/// `start..end` is a range of whole characters of `src`.
pub open spec fn span_ok(src: Seq<char>, start: int, end: int) -> bool {
    let b = encode_utf8(src);
    start <= end && is_char_boundary(b, start) && is_char_boundary(b, end)
}

impl SyntaxTree {
    pub open spec fn len(&self) -> int {
        self.nodes@.len() as int
    }

    pub open spec fn node(&self, i: int) -> SyntaxNode {
        self.nodes@[i]
    }

    pub open spec fn kind(&self, i: int) -> Seq<char> {
        self.nodes@[i].kind@
    }

    pub open spec fn children(&self, i: int) -> Seq<usize> {
        self.nodes@[i].children@
    }

    /// A non-empty tree whose children all come after their parents.
    pub open spec fn wf(&self) -> bool {
        &&& self.nodes@.len() > 0
        &&& forall|i: int, j: int|
            0 <= i < self.nodes@.len() && 0 <= j < self.nodes@[i].children@.len() ==> i
                < #[trigger] self.nodes@[i].children@[j] < self.nodes@.len()
    }

    /// Every node covers whole characters of `src` and starts on a row whose
    /// number plus one fits in a `usize`.
    pub open spec fn fits(&self, src: Seq<char>) -> bool {
        forall|i: int|
            0 <= i < self.nodes@.len() ==> span_ok(
                src,
                #[trigger] self.nodes@[i].start_byte as int,
                self.nodes@[i].end_byte as int,
            ) && self.nodes@[i].start_row < usize::MAX
    }

    /// The source text of node `i`.
    pub open spec fn text(&self, src: Seq<char>, i: int) -> Seq<char> {
        span_text(src, self.nodes@[i].start_byte as int, self.nodes@[i].end_byte as int)
    }

    /// Node `c` hangs off its parent under the field `f`.
    pub open spec fn has_field(&self, c: int, f: Seq<char>) -> bool {
        self.nodes@[c].field matches Some(s) && s@ == f
    }
}

/// The first of the nodes `cs` that hangs under field `f`.
pub open spec fn first_with_field(t: SyntaxTree, cs: Seq<usize>, f: Seq<char>) -> Option<usize>
    decreases cs.len(),
{
    if cs.len() == 0 {
        None
    } else if t.has_field(cs[0] as int, f) {
        Some(cs[0])
    } else {
        first_with_field(t, cs.drop_first(), f)
    }
}

/// The first of the nodes `cs` whose kind is one of `ks`.
pub open spec fn first_of_kinds(t: SyntaxTree, cs: Seq<usize>, ks: Seq<Seq<char>>) -> Option<usize>
    decreases cs.len(),
{
    if cs.len() == 0 {
        None
    } else if ks.contains(t.kind(cs[0] as int)) {
        Some(cs[0])
    } else {
        first_of_kinds(t, cs.drop_first(), ks)
    }
}

/// The child of node `i` under field `f` (what `child_by_field_name` gives).
pub open spec fn field_child(t: SyntaxTree, i: int, f: Seq<char>) -> Option<usize> {
    first_with_field(t, t.children(i), f)
}

/// The text of the child of node `i` under field `f`.
pub open spec fn field_text(t: SyntaxTree, src: Seq<char>, i: int, f: Seq<char>) -> Option<Seq<char>> {
    match field_child(t, i, f) {
        Some(c) => Some(t.text(src, c as int)),
        None => None,
    }
}

/// The first child of node `i` whose kind is one of `ks`.
pub open spec fn child_of_kinds(t: SyntaxTree, i: int, ks: Seq<Seq<char>>) -> Option<usize> {
    first_of_kinds(t, t.children(i), ks)
}

/// What `first_with_field` finds is one of `cs`.
pub proof fn lemma_first_with_field_in(t: SyntaxTree, cs: Seq<usize>, f: Seq<char>)
    ensures
        first_with_field(t, cs, f) matches Some(c) ==> cs.contains(c),
    decreases cs.len(),
{
    if cs.len() > 0 {
        if t.has_field(cs[0] as int, f) {
            assert(cs[0] == cs[0]);
        } else {
            lemma_first_with_field_in(t, cs.drop_first(), f);
            if let Some(c) = first_with_field(t, cs, f) {
                let k = choose|k: int| 0 <= k < cs.drop_first().len() && cs.drop_first()[k] == c;
                assert(cs[k + 1] == c);
            }
        }
    }
}

/// What `first_of_kinds` finds is one of `cs`.
pub proof fn lemma_first_of_kinds_in(t: SyntaxTree, cs: Seq<usize>, ks: Seq<Seq<char>>)
    ensures
        first_of_kinds(t, cs, ks) matches Some(c) ==> cs.contains(c),
    decreases cs.len(),
{
    if cs.len() > 0 {
        if ks.contains(t.kind(cs[0] as int)) {
            assert(cs[0] == cs[0]);
        } else {
            lemma_first_of_kinds_in(t, cs.drop_first(), ks);
            if let Some(c) = first_of_kinds(t, cs, ks) {
                let k = choose|k: int| 0 <= k < cs.drop_first().len() && cs.drop_first()[k] == c;
                assert(cs[k + 1] == c);
            }
        }
    }
}

proof fn lemma_first_with_field_skip(t: SyntaxTree, cs: Seq<usize>, f: Seq<char>, k: int)
    requires
        0 <= k <= cs.len(),
        forall|j: int| 0 <= j < k ==> !t.has_field(cs[j] as int, f),
    ensures
        first_with_field(t, cs, f) == first_with_field(t, cs.skip(k), f),
    decreases k,
{
    if k == 0 {
        assert(cs.skip(0) =~= cs);
    } else {
        assert forall|j: int| 0 <= j < k - 1 implies !t.has_field(cs.drop_first()[j] as int, f) by {
            assert(cs.drop_first()[j] == cs[j + 1]);
        }
        lemma_first_with_field_skip(t, cs.drop_first(), f, k - 1);
        assert(cs.drop_first().skip(k - 1) =~= cs.skip(k));
    }
}

proof fn lemma_first_of_kinds_skip(t: SyntaxTree, cs: Seq<usize>, ks: Seq<Seq<char>>, k: int)
    requires
        0 <= k <= cs.len(),
        forall|j: int| 0 <= j < k ==> !ks.contains(t.kind(cs[j] as int)),
    ensures
        first_of_kinds(t, cs, ks) == first_of_kinds(t, cs.skip(k), ks),
    decreases k,
{
    if k == 0 {
        assert(cs.skip(0) =~= cs);
    } else {
        assert forall|j: int| 0 <= j < k - 1 implies !ks.contains(t.kind(cs.drop_first()[j] as int)) by {
            assert(cs.drop_first()[j] == cs[j + 1]);
        }
        lemma_first_of_kinds_skip(t, cs.drop_first(), ks, k - 1);
        assert(cs.drop_first().skip(k - 1) =~= cs.skip(k));
    }
}

/// The child of node `i` under field `f`.
pub fn field_child_exec(t: &SyntaxTree, i: usize, f: &[char]) -> (r: Option<usize>)
    requires
        t.wf(),
        i < t.len(),
    ensures
        r == field_child(*t, i as int, f@),
        r matches Some(c) ==> i < c < t.len(),
{
    let cs = &t.nodes[i].children;
    let mut k: usize = 0;
    while k < cs.len()
        invariant
            t.wf(),
            i < t.len(),
            cs@ == t.children(i as int),
            k <= cs@.len(),
            forall|j: int| 0 <= j < k ==> !t.has_field(cs@[j] as int, f@),
        decreases cs@.len() - k,
    {
        let c = cs[k];
        assert(i < c < t.len());
        let hit = match &t.nodes[c].field {
            Some(s) => {
                let sc = chars_of(s.as_str());
                eq_chars(sc.as_slice(), f)
            },
            None => false,
        };
        if hit {
            proof {
                lemma_first_with_field_skip(*t, cs@, f@, k as int);
                assert(cs@.skip(k as int)[0] == c);
            }
            return Some(c);
        }
        k = k + 1;
    }
    proof {
        lemma_first_with_field_skip(*t, cs@, f@, k as int);
    }
    None
}

/// The first child of node `i` whose kind is one of `ks`.
pub fn find_child_by_kind(t: &SyntaxTree, i: usize, ks: &Vec<Vec<char>>) -> (r: Option<usize>)
    requires
        t.wf(),
        i < t.len(),
    ensures
        r == child_of_kinds(*t, i as int, ks@.map_values(|v: Vec<char>| v@)),
        r matches Some(c) ==> i < c < t.len(),
{
    let ghost kv = ks@.map_values(|v: Vec<char>| v@);
    let cs = &t.nodes[i].children;
    let mut k: usize = 0;
    while k < cs.len()
        invariant
            t.wf(),
            i < t.len(),
            cs@ == t.children(i as int),
            kv == ks@.map_values(|v: Vec<char>| v@),
            k <= cs@.len(),
            forall|j: int| 0 <= j < k ==> !kv.contains(t.kind(cs@[j] as int)),
        decreases cs@.len() - k,
    {
        let c = cs[k];
        assert(i < c < t.len());
        let kind = chars_of(t.nodes[c].kind.as_str());
        let mut m: usize = 0;
        let mut hit = false;
        while m < ks.len()
            invariant
                m <= ks@.len(),
                kv == ks@.map_values(|v: Vec<char>| v@),
                hit ==> kv.contains(kind@),
                !hit ==> forall|q: int| 0 <= q < m ==> kv[q] != kind@,
            decreases ks@.len() - m,
        {
            if !hit && eq_chars(ks[m].as_slice(), kind.as_slice()) {
                hit = true;
                assert(kv[m as int] == kind@);
            }
            m = m + 1;
        }
        if hit {
            proof {
                lemma_first_of_kinds_skip(*t, cs@, kv, k as int);
                assert(cs@.skip(k as int)[0] == c);
            }
            return Some(c);
        }
        k = k + 1;
    }
    proof {
        lemma_first_of_kinds_skip(*t, cs@, kv, k as int);
    }
    None
}

/// Whether node `i` is of kind `k`.
pub fn kind_is(t: &SyntaxTree, i: usize, k: &str) -> (r: bool)
    requires
        i < t.len(),
    ensures
        r == (t.kind(i as int) == k@),
{
    let kc = chars_of(t.nodes[i].kind.as_str());
    eq_str(kc.as_slice(), k)
}

proof fn lemma_boundary_shift(b: Seq<u8>, start: int, k: int)
    requires
        valid_utf8(b),
        is_char_boundary(b, start),
        0 <= start <= b.len(),
        0 <= k <= b.len() - start,
    ensures
        valid_utf8(b.subrange(start, b.len() as int)),
        is_char_boundary(b.subrange(start, b.len() as int), k) == is_char_boundary(b, start + k),
{
    let rest = b.subrange(start, b.len() as int);
    valid_utf8_split(b, start);
    is_char_boundary_start_end_of_seq(rest);
    is_char_boundary_start_end_of_seq(b);
    if k == 0 {
    } else if k == rest.len() {
    } else {
        is_char_boundary_iff_not_is_continuation_byte(rest, k);
        is_char_boundary_iff_not_is_continuation_byte(b, start + k);
        assert(rest[k] == b[start + k]);
    }
}

/// Whether `start..end` is a range of whole characters of `src`.
pub fn span_ok_exec(src: &str, start: usize, end: usize) -> (r: bool)
    ensures
        r == span_ok(src@, start as int, end as int),
{
    proof {
        assert(src.spec_bytes() == encode_utf8(src@));
    }
    start <= end && src.is_char_boundary(start) && src.is_char_boundary(end)
}

/// The text of bytes `start..end` of `src`.
pub fn span_text_exec(src: &str, start: usize, end: usize) -> (r: String)
    requires
        span_ok(src@, start as int, end as int),
    ensures
        r@ == span_text(src@, start as int, end as int),
{
    let ghost b = encode_utf8(src@);
    proof {
        encode_utf8_valid_utf8(src@);
        assert(src.spec_bytes() == b);
        is_char_boundary_start_end_of_seq(b);
        assert(end <= b.len()) by {
            if end > b.len() {
                assert(!is_char_boundary(b, end as int));
            }
        }
        lemma_boundary_shift(b, start as int, (end - start) as int);
    }
    let (_, rest) = src.split_at(start);
    proof {
        assert(rest.spec_bytes() =~= b.subrange(start as int, b.len() as int));
    }
    let (mid, _) = rest.split_at(end - start);
    proof {
        let mb = mid.spec_bytes();
        assert(mb =~= b.subrange(start as int, end as int));
        encode_utf8_decode_utf8(mid@);
    }
    mid.to_owned()
}

} // verus!
