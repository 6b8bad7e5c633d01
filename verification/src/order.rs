//! Sorting by (text, number) keys.
use vstd::prelude::*;

use crate::text::{
    eq_chars, lemma_text_lt_asymmetric, lemma_text_lt_irreflexive, lemma_text_lt_total,
    lemma_text_lt_transitive, text_lt, text_lt_exec,
};

verus! {

/// `a` sorts strictly before `b`: by text, then by number.
pub open spec fn key_lt(a: (Seq<char>, nat), b: (Seq<char>, nat)) -> bool {
    text_lt(a.0, b.0) || (a.0 == b.0 && a.1 < b.1)
}

/// `a` sorts no later than `b`.
pub open spec fn key_le(a: (Seq<char>, nat), b: (Seq<char>, nat)) -> bool {
    text_lt(a.0, b.0) || (a.0 == b.0 && a.1 <= b.1)
}

pub proof fn lemma_key_not_lt(a: (Seq<char>, nat), b: (Seq<char>, nat))
    ensures
        !key_lt(a, b) ==> key_le(b, a),
        key_lt(a, b) ==> !key_le(b, a),
{
    lemma_text_lt_total(a.0, b.0);
    lemma_text_lt_asymmetric(a.0, b.0);
    lemma_text_lt_irreflexive(a.0);
}

pub proof fn lemma_key_le_transitive(a: (Seq<char>, nat), b: (Seq<char>, nat), c: (Seq<char>, nat))
    requires
        key_le(a, b),
        key_le(b, c),
    ensures
        key_le(a, c),
{
    if text_lt(a.0, b.0) && text_lt(b.0, c.0) {
        lemma_text_lt_transitive(a.0, b.0, c.0);
    }
}

/// `p` lists each of `0..n` once.
pub open spec fn is_perm(p: Seq<usize>, n: nat) -> bool {
    &&& p.len() == n
    &&& forall|k: int| 0 <= k < p.len() ==> p[k] < n
    &&& p.no_duplicates()
}

/// Following `p`, positions with equal keys come in increasing order.
pub open spec fn stable_by(keys: Seq<(Seq<char>, nat)>, p: Seq<usize>) -> bool {
    forall|i: int, j: int|
        0 <= i < j < p.len() && keys[p[i] as int] == keys[p[j] as int] ==> p[i] < p[j]
}

/// Following `p`, the keys never decrease.
pub open spec fn sorted_by(keys: Seq<(Seq<char>, nat)>, p: Seq<usize>) -> bool {
    forall|i: int, j: int| 0 <= i < j < p.len() ==> key_le(keys[p[i] as int], keys[p[j] as int])
}

/// The keys made of `texts` and `nums`.
pub open spec fn keys_of(texts: Seq<Vec<char>>, nums: Seq<usize>) -> Seq<(Seq<char>, nat)> {
    Seq::new(texts.len(), |i: int| (texts[i]@, nums[i] as nat))
}

fn key_lt_exec(at: &[char], an: usize, bt: &[char], bn: usize) -> (r: bool)
    ensures
        r == key_lt((at@, an as nat), (bt@, bn as nat)),
{
    text_lt_exec(at, bt) || (eq_chars(at, bt) && an < bn)
}

/// The order in which to visit the positions of `texts` so that the keys
/// `(texts[i], nums[i])` never decrease; equal keys keep their order.
pub fn sort_order(texts: &Vec<Vec<char>>, nums: &Vec<usize>) -> (r: Vec<usize>)
    requires
        texts@.len() == nums@.len(),
    ensures
        is_perm(r@, texts@.len()),
        forall|v: usize| v < texts@.len() ==> r@.contains(v),
        sorted_by(keys_of(texts@, nums@), r@),
        stable_by(keys_of(texts@, nums@), r@),
{
    let ghost keys = keys_of(texts@, nums@);
    let n = texts.len();
    let mut out: Vec<usize> = Vec::new();
    let mut i: usize = 0;
    while i < n
        invariant
            n == texts@.len(),
            n == nums@.len(),
            keys == keys_of(texts@, nums@),
            i <= n,
            out@.len() == i,
            forall|k: int| 0 <= k < out@.len() ==> out@[k] < i,
            out@.no_duplicates(),
            forall|v: usize| v < i ==> out@.contains(v),
            sorted_by(keys, out@),
            stable_by(keys, out@),
        decreases n - i,
    {
        let mut pos: usize = 0;
        while pos < out.len() && !key_lt_exec(texts[i].as_slice(), nums[i], texts[out[pos]].as_slice(), nums[out[pos]])
            invariant
                n == texts@.len(),
                n == nums@.len(),
                keys == keys_of(texts@, nums@),
                i < n,
                pos <= out@.len(),
                forall|k: int| 0 <= k < out@.len() ==> out@[k] < i,
                forall|k: int| 0 <= k < pos ==> !key_lt(keys[i as int], keys[out@[k] as int]),
            decreases out@.len() - pos,
        {
            pos = pos + 1;
        }
        let ghost old_out = out@;
        out.insert(pos, i);
        proof {
            assert(out@ == old_out.insert(pos as int, i));
            assert forall|a: int, b: int| 0 <= a < b < out@.len() implies key_le(keys[out@[a] as int], keys[out@[b] as int]) by {
                if b < pos {
                    assert(out@[a] == old_out[a] && out@[b] == old_out[b]);
                } else if b == pos {
                    assert(out@[a] == old_out[a]);
                    lemma_key_not_lt(keys[i as int], keys[old_out[a] as int]);
                } else if a == pos {
                    assert(out@[b] == old_out[b - 1]);
                    let first = old_out[pos as int];
                    lemma_key_not_lt(keys[i as int], keys[first as int]);
                    if b - 1 > pos {
                        assert(key_le(keys[first as int], keys[old_out[b - 1] as int]));
                        lemma_key_le_transitive(keys[i as int], keys[first as int], keys[old_out[b - 1] as int]);
                    }
                } else if a < pos {
                    assert(out@[a] == old_out[a] && out@[b] == old_out[b - 1]);
                } else {
                    assert(out@[a] == old_out[a - 1] && out@[b] == old_out[b - 1]);
                }
            }
            assert forall|a: int, b: int|
                0 <= a < b < out@.len() && keys[out@[a] as int] == keys[out@[b] as int] implies out@[a] < out@[b] by {
                if b < pos {
                    assert(out@[a] == old_out[a] && out@[b] == old_out[b]);
                } else if b == pos {
                    assert(out@[a] == old_out[a]);
                } else if a == pos {
                    assert(out@[b] == old_out[b - 1]);
                    let first = old_out[pos as int];
                    lemma_key_not_lt(keys[i as int], keys[first as int]);
                    if b - 1 > pos {
                        assert(key_le(keys[first as int], keys[old_out[b - 1] as int]));
                        lemma_key_le_transitive(keys[first as int], keys[old_out[b - 1] as int], keys[i as int]);
                    }
                } else if a < pos {
                    assert(out@[a] == old_out[a] && out@[b] == old_out[b - 1]);
                } else {
                    assert(out@[a] == old_out[a - 1] && out@[b] == old_out[b - 1]);
                }
            }
            assert forall|a: int, b: int| 0 <= a < out@.len() && 0 <= b < out@.len() && a != b implies out@[a] != out@[b] by {
                if a != pos && b != pos {
                    let a0 = if a < pos { a } else { a - 1 };
                    let b0 = if b < pos { b } else { b - 1 };
                    assert(out@[a] == old_out[a0] && out@[b] == old_out[b0]);
                } else if a == pos {
                    let b0 = if b < pos { b } else { b - 1 };
                    assert(out@[b] == old_out[b0]);
                } else {
                    let a0 = if a < pos { a } else { a - 1 };
                    assert(out@[a] == old_out[a0]);
                }
            }
            assert forall|v: usize| v < i + 1 implies out@.contains(v) by {
                if v < i {
                    assert(old_out.contains(v));
                    let k = choose|k: int| 0 <= k < old_out.len() && old_out[k] == v;
                    if k < pos {
                        assert(out@[k] == v);
                    } else {
                        assert(out@[k + 1] == v);
                    }
                } else {
                    assert(out@[pos as int] == v);
                }
            }
            assert forall|k: int| 0 <= k < out@.len() implies out@[k] < i + 1 by {
                if k < pos {
                    assert(out@[k] == old_out[k]);
                } else if k > pos {
                    assert(out@[k] == old_out[k - 1]);
                }
            }
        }
        i = i + 1;
    }
    out
}

} // verus!
