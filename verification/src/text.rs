//! Character-level text operations used throughout the library.
//!
//! Text is modelled as `Seq<char>`, the view of `str` and `String`.  Each
//! operation has a spec function that says what it computes and an executable
//! counterpart proved against it.
use vstd::prelude::*;

verus! {

// ---------------------------------------------------------------------------
// Specifications
// ---------------------------------------------------------------------------

/// Unicode `White_Space`, the property that `char::is_whitespace` tests.
pub open spec fn is_ws(c: char) -> bool {
    let u = c as u32;
    (0x9 <= u && u <= 0xd) || u == 0x20 || u == 0x85 || u == 0xa0 || u == 0x1680 || (0x2000
        <= u && u <= 0x200a) || u == 0x2028 || u == 0x2029 || u == 0x202f || u == 0x205f || u
        == 0x3000
}

/// `s` with leading whitespace removed.
pub open spec fn trim_start_ws(s: Seq<char>) -> Seq<char>
    decreases s.len(),
{
    if s.len() > 0 && is_ws(s[0]) {
        trim_start_ws(s.drop_first())
    } else {
        s
    }
}

/// `s` with trailing whitespace removed.
pub open spec fn trim_end_ws(s: Seq<char>) -> Seq<char>
    decreases s.len(),
{
    if s.len() > 0 && is_ws(s.last()) {
        trim_end_ws(s.drop_last())
    } else {
        s
    }
}

/// What `str::trim` returns.
pub open spec fn trim(s: Seq<char>) -> Seq<char> {
    trim_end_ws(trim_start_ws(s))
}

/// `s` starts with `p`.
pub open spec fn starts_with(s: Seq<char>, p: Seq<char>) -> bool {
    p.len() <= s.len() && s.subrange(0, p.len() as int) == p
}

/// `s` ends with `p`.
pub open spec fn ends_with(s: Seq<char>, p: Seq<char>) -> bool {
    p.len() <= s.len() && s.subrange(s.len() - p.len(), s.len() as int) == p
}

/// `p` occurs in `s` at position `i`.
pub open spec fn occurs_at(s: Seq<char>, p: Seq<char>, i: int) -> bool {
    0 <= i && i + p.len() <= s.len() && s.subrange(i, i + p.len()) == p
}

/// `p` occurs somewhere in `s` (the empty text occurs everywhere).
pub open spec fn contains_text(s: Seq<char>, p: Seq<char>) -> bool {
    exists|i: int| occurs_at(s, p, i)
}

/// What `str::trim_start_matches` returns for a text pattern: `p` removed
/// from the front as many times as it occurs there.
pub open spec fn trim_start_matches(s: Seq<char>, p: Seq<char>) -> Seq<char>
    decreases s.len(),
{
    if p.len() > 0 && starts_with(s, p) {
        trim_start_matches(s.skip(p.len() as int), p)
    } else {
        s
    }
}

/// `s` with every leading character of `set` removed.
pub open spec fn trim_start_chars(s: Seq<char>, set: Seq<char>) -> Seq<char>
    decreases s.len(),
{
    if s.len() > 0 && set.contains(s[0]) {
        trim_start_chars(s.drop_first(), set)
    } else {
        s
    }
}

/// `s` with every trailing character of `set` removed.
pub open spec fn trim_end_chars(s: Seq<char>, set: Seq<char>) -> Seq<char>
    decreases s.len(),
{
    if s.len() > 0 && set.contains(s.last()) {
        trim_end_chars(s.drop_last(), set)
    } else {
        s
    }
}

/// What `str::trim_matches` returns for a set of characters.
pub open spec fn trim_chars(s: Seq<char>, set: Seq<char>) -> Seq<char> {
    trim_end_chars(trim_start_chars(s, set), set)
}

/// `s` with every occurrence of `from` replaced by `to`.
pub open spec fn replace_char(s: Seq<char>, from: char, to: char) -> Seq<char> {
    s.map_values(|c: char| if c == from { to } else { c })
}

/// The part of `s` after its last character that belongs to `seps`; what
/// `rsplit(seps).next()` returns.
pub open spec fn after_last(s: Seq<char>, seps: Seq<char>) -> Seq<char>
    decreases s.len(),
{
    if s.len() == 0 || seps.contains(s.last()) {
        Seq::empty()
    } else {
        after_last(s.drop_last(), seps).push(s.last())
    }
}

/// The position of the first occurrence of `p` in `s`, or -1.
pub open spec fn find_text(s: Seq<char>, p: Seq<char>) -> int
    decreases s.len(),
{
    if starts_with(s, p) {
        0
    } else if s.len() == 0 {
        -1
    } else {
        let r = find_text(s.drop_first(), p);
        if r < 0 {
            -1
        } else {
            r + 1
        }
    }
}

/// What `str::split` returns for a non-empty text separator.
pub open spec fn split_text(s: Seq<char>, sep: Seq<char>) -> Seq<Seq<char>>
    decreases s.len(),
{
    let i = find_text(s, sep);
    if sep.len() == 0 || i < 0 || i + sep.len() > s.len() {
        seq![s]
    } else {
        seq![s.take(i)] + split_text(s.skip(i + sep.len()), sep)
    }
}

/// `x` without one trailing carriage return.
pub open spec fn strip_cr(x: Seq<char>) -> Seq<char> {
    if x.len() > 0 && x.last() == '\r' {
        x.drop_last()
    } else {
        x
    }
}

/// What `str::lines` returns: the text split at each line feed, a final line
/// feed ending the last line rather than starting an empty one, and one
/// carriage return dropped before each line feed.
pub open spec fn lines(s: Seq<char>) -> Seq<Seq<char>>
    decreases s.len(),
{
    let i = find_text(s, seq!['\n']);
    if s.len() == 0 {
        Seq::empty()
    } else if i < 0 || i >= s.len() {
        seq![s]
    } else {
        seq![strip_cr(s.take(i))] + lines(s.skip(i + 1))
    }
}

/// The number of leading characters on which `a` and `b` agree.
pub open spec fn shared_prefix_len(a: Seq<char>, b: Seq<char>) -> nat
    decreases a.len(),
{
    if a.len() > 0 && b.len() > 0 && a[0] == b[0] {
        1 + shared_prefix_len(a.drop_first(), b.drop_first())
    } else {
        0
    }
}

/// Lexicographic order by code point, the order of `str` (UTF-8 keeps it).
pub open spec fn text_lt(a: Seq<char>, b: Seq<char>) -> bool {
    let k = shared_prefix_len(a, b) as int;
    (k == a.len() && k < b.len()) || (k < a.len() && k < b.len() && (a[k] as u32) < (b[k] as u32))
}

/// A sequence of texts in strictly increasing order.
pub open spec fn strictly_sorted(s: Seq<Seq<char>>) -> bool {
    forall|i: int, j: int| 0 <= i < j < s.len() ==> text_lt(#[trigger] s[i], #[trigger] s[j])
}

// ---------------------------------------------------------------------------
// Lemmas
// ---------------------------------------------------------------------------

pub proof fn lemma_common_prefix(a: Seq<char>, b: Seq<char>)
    ensures
        shared_prefix_len(a, b) <= a.len(),
        shared_prefix_len(a, b) <= b.len(),
        forall|j: int| 0 <= j < shared_prefix_len(a, b) ==> a[j] == b[j],
        shared_prefix_len(a, b) < a.len() && shared_prefix_len(a, b) < b.len() ==> a[shared_prefix_len(a, b) as int]
            != b[shared_prefix_len(a, b) as int],
    decreases a.len(),
{
    if a.len() > 0 && b.len() > 0 && a[0] == b[0] {
        lemma_common_prefix(a.drop_first(), b.drop_first());
        let k = shared_prefix_len(a, b);
        assert forall|j: int| 0 <= j < k implies a[j] == b[j] by {
            if j > 0 {
                assert(a.drop_first()[j - 1] == b.drop_first()[j - 1]);
            }
        }
    }
}

/// The common prefix length is the first position where the texts differ.
pub proof fn lemma_common_prefix_at(a: Seq<char>, b: Seq<char>, k: int)
    requires
        0 <= k <= a.len(),
        k <= b.len(),
        forall|j: int| 0 <= j < k ==> a[j] == b[j],
        k == a.len() || k == b.len() || a[k] != b[k],
    ensures
        shared_prefix_len(a, b) == k,
{
    lemma_common_prefix(a, b);
    let c = shared_prefix_len(a, b) as int;
    if c < k {
        assert(a[c] == b[c]);
    } else if c > k {
        assert(a[k] == b[k]);
    }
}

pub proof fn lemma_text_lt_irreflexive(a: Seq<char>)
    ensures
        !text_lt(a, a),
{
    lemma_common_prefix_at(a, a, a.len() as int);
}

pub proof fn lemma_text_lt_asymmetric(a: Seq<char>, b: Seq<char>)
    ensures
        !(text_lt(a, b) && text_lt(b, a)),
{
    lemma_common_prefix(a, b);
    lemma_common_prefix(b, a);
    let k = shared_prefix_len(a, b) as int;
    lemma_common_prefix_at(b, a, k);
}

pub proof fn lemma_text_lt_total(a: Seq<char>, b: Seq<char>)
    ensures
        a == b || text_lt(a, b) || text_lt(b, a),
{
    lemma_common_prefix(a, b);
    let k = shared_prefix_len(a, b) as int;
    lemma_common_prefix_at(b, a, k);
    if k == a.len() && k == b.len() {
        assert(a =~= b);
    } else if k < a.len() && k < b.len() {
        vstd::utf8::char_u32_cast(a[k], a[k] as u32);
        vstd::utf8::char_u32_cast(b[k], b[k] as u32);
    }
}

pub proof fn lemma_text_lt_transitive(a: Seq<char>, b: Seq<char>, c: Seq<char>)
    requires
        text_lt(a, b),
        text_lt(b, c),
    ensures
        text_lt(a, c),
{
    lemma_common_prefix(a, b);
    lemma_common_prefix(b, c);
    lemma_common_prefix(a, c);
    let p = shared_prefix_len(a, b) as int;
    let q = shared_prefix_len(b, c) as int;
    let m = if p < q { p } else { q };
    assert forall|j: int| 0 <= j < m implies a[j] == c[j] by {
        assert(a[j] == b[j]);
        assert(b[j] == c[j]);
    }
    if p < q {
        lemma_common_prefix_at(a, c, p);
    } else if q < p {
        lemma_common_prefix_at(a, c, q);
    } else {
        if p < a.len() {
            lemma_common_prefix_at(a, c, p);
        } else {
            lemma_common_prefix_at(a, c, p);
        }
    }
}

pub proof fn lemma_starts_with_skip(s: Seq<char>, p: Seq<char>, i: int)
    requires
        0 <= i <= s.len(),
    ensures
        starts_with(s.skip(i), p) == occurs_at(s, p, i),
{
    if starts_with(s.skip(i), p) {
        assert(s.subrange(i, i + p.len()) =~= s.skip(i).subrange(0, p.len() as int));
    }
    if occurs_at(s, p, i) {
        assert(s.subrange(i, i + p.len()) =~= s.skip(i).subrange(0, p.len() as int));
    }
}

/// `find_text` gives the first occurrence.
pub proof fn lemma_find_text(s: Seq<char>, p: Seq<char>)
    ensures
        -1 <= find_text(s, p) <= s.len(),
        find_text(s, p) >= 0 ==> occurs_at(s, p, find_text(s, p)),
        forall|j: int| 0 <= j < (if find_text(s, p) < 0 { (s.len() + 1) as int } else { find_text(s, p) }) ==> !occurs_at(s, p, j),
    decreases s.len(),
{
    lemma_starts_with_skip(s, p, 0);
    assert(s.skip(0) =~= s);
    if starts_with(s, p) {
    } else if s.len() == 0 {
        assert forall|j: int| 0 <= j < 1 implies !occurs_at(s, p, j) by {
            assert(s.skip(0) =~= s);
        }
    } else {
        let t = s.drop_first();
        lemma_find_text(t, p);
        let r = find_text(t, p);
        assert forall|j: int| 1 <= j <= s.len() implies occurs_at(s, p, j) == occurs_at(t, p, j - 1) by {
            if j + p.len() <= s.len() {
                assert(s.subrange(j, j + p.len()) =~= t.subrange(j - 1, j - 1 + p.len()));
            }
        }
        let f = find_text(s, p);
        assert forall|j: int| 0 <= j < (if f < 0 { (s.len() + 1) as int } else { f }) implies !occurs_at(s, p, j) by {
            if j > 0 {
                assert(!occurs_at(t, p, j - 1));
            }
        }
    }
}

/// A first occurrence is what `find_text` finds.
pub proof fn lemma_find_text_first(s: Seq<char>, p: Seq<char>, k: int)
    requires
        occurs_at(s, p, k),
        forall|j: int| 0 <= j < k ==> !occurs_at(s, p, j),
    ensures
        find_text(s, p) == k,
{
    lemma_find_text(s, p);
}

/// No occurrence at all: `find_text` gives -1.
pub proof fn lemma_find_text_none(s: Seq<char>, p: Seq<char>)
    requires
        forall|j: int| 0 <= j <= s.len() ==> !occurs_at(s, p, j),
    ensures
        find_text(s, p) == -1,
{
    lemma_find_text(s, p);
}

// ---------------------------------------------------------------------------
// Conversions between `str`/`String` and character vectors
// ---------------------------------------------------------------------------

/// `String::push`: appends one character.
#[verifier::external_body]
fn push_char(s: &mut String, c: char)
    ensures
        final(s)@ == old(s)@.push(c),
{
    s.push(c);
}

/// The characters of `s`.
pub fn chars_of(s: &str) -> (r: Vec<char>)
    ensures
        r@ == s@,
{
    let mut r: Vec<char> = Vec::new();
    broadcast use vstd::string::group_string_axioms;
    for c in it: s.chars()
        invariant
            it.seq() == s@,
            r@ == s@.take(it.index() as int),
    {
        r.push(c);
        assert(r@ =~= s@.take(it.index() as int + 1));
    }
    assert(r@ =~= s@);
    r
}

/// The string made of the characters `v`.
pub fn string_of(v: &[char]) -> (r: String)
    ensures
        r@ == v@,
{
    let mut r = String::new();
    let mut i: usize = 0;
    while i < v.len()
        invariant
            i <= v@.len(),
            r@ == v@.subrange(0, i as int),
        decreases v@.len() - i,
    {
        push_char(&mut r, v[i]);
        i = i + 1;
        assert(r@ =~= v@.subrange(0, i as int));
    }
    assert(v@.subrange(0, v@.len() as int) =~= v@);
    r
}

/// The texts held by a vector of character vectors.
pub open spec fn texts(v: Seq<Vec<char>>) -> Seq<Seq<char>> {
    v.map_values(|x: Vec<char>| x@)
}

/// The unicode lowercase mapping of a text; what `str::to_lowercase` returns.
pub uninterp spec fn lowercase(s: Seq<char>) -> Seq<char>;

/// `str::to_lowercase`.  The contract only names the result: the Unicode
/// case mapping that std applies is not restated here.
#[verifier::external_body]
fn str_to_lowercase(s: &str) -> (r: String)
    ensures
        r@ == lowercase(s@),
{
    s.to_lowercase()
}

/// The lowercase form of a character vector.
pub fn lowercase_chars(v: &[char]) -> (r: Vec<char>)
    ensures
        r@ == lowercase(v@),
{
    let s = string_of(v);
    let l = str_to_lowercase(s.as_str());
    chars_of(l.as_str())
}

// ---------------------------------------------------------------------------
// Executable text operations
// ---------------------------------------------------------------------------

/// `v[lo..hi]` as a new vector.
pub fn sub_chars(v: &[char], lo: usize, hi: usize) -> (r: Vec<char>)
    requires
        lo <= hi <= v@.len(),
    ensures
        r@ == v@.subrange(lo as int, hi as int),
{
    let mut r: Vec<char> = Vec::new();
    let mut i = lo;
    while i < hi
        invariant
            lo <= i <= hi <= v@.len(),
            r@ == v@.subrange(lo as int, i as int),
        decreases hi - i,
    {
        r.push(v[i]);
        i = i + 1;
        assert(r@ =~= v@.subrange(lo as int, i as int));
    }
    r
}

/// `a` followed by `b`.
pub fn concat_chars(a: &[char], b: &[char]) -> (r: Vec<char>)
    ensures
        r@ == a@ + b@,
{
    let mut r = sub_chars(a, 0, a.len());
    let mut i: usize = 0;
    while i < b.len()
        invariant
            i <= b@.len(),
            r@ == a@ + b@.subrange(0, i as int),
        decreases b@.len() - i,
    {
        r.push(b[i]);
        i = i + 1;
        assert(r@ =~= a@ + b@.subrange(0, i as int));
    }
    assert(b@.subrange(0, b@.len() as int) =~= b@);
    r
}

/// Whether `p` occurs in `s` at position `i`.
pub fn occurs_at_exec(s: &[char], p: &[char], i: usize) -> (r: bool)
    ensures
        r == occurs_at(s@, p@, i as int),
{
    let n = s.len();
    if i > n || p.len() > n - i {
        return false;
    }
    let mut k: usize = 0;
    while k < p.len()
        invariant
            n == s@.len(),
            i + p@.len() <= n,
            k <= p@.len(),
            forall|j: int| 0 <= j < k ==> s@[i + j] == p@[j],
        decreases p@.len() - k,
    {
        if s[i + k] != p[k] {
            assert(s@.subrange(i as int, i + p@.len())[k as int] != p@[k as int]);
            return false;
        }
        k = k + 1;
    }
    assert(s@.subrange(i as int, i + p@.len()) =~= p@);
    true
}

/// Whether `a` and `b` are the same text.
pub fn eq_chars(a: &[char], b: &[char]) -> (r: bool)
    ensures
        r == (a@ == b@),
{
    if a.len() != b.len() {
        return false;
    }
    let r = occurs_at_exec(a, b, 0);
    assert(a@.subrange(0, b@.len() as int) =~= a@);
    r
}

/// Whether the text `a` equals the string `b`.
pub fn eq_str(a: &[char], b: &str) -> (r: bool)
    ensures
        r == (a@ == b@),
{
    let bc = chars_of(b);
    eq_chars(a, bc.as_slice())
}

pub fn starts_with_exec(s: &[char], p: &[char]) -> (r: bool)
    ensures
        r == starts_with(s@, p@),
{
    occurs_at_exec(s, p, 0)
}

pub fn ends_with_exec(s: &[char], p: &[char]) -> (r: bool)
    ensures
        r == ends_with(s@, p@),
{
    if p.len() > s.len() {
        return false;
    }
    occurs_at_exec(s, p, s.len() - p.len())
}

/// Whether `p` occurs in `s`.
pub fn contains_exec(s: &[char], p: &[char]) -> (r: bool)
    ensures
        r == contains_text(s@, p@),
{
    if p.len() == 0 {
        assert(s@.subrange(0, 0) =~= p@);
        assert(occurs_at(s@, p@, 0));
        return true;
    }
    if p.len() > s.len() {
        assert forall|i: int| !occurs_at(s@, p@, i) by {}
        return false;
    }
    let mut i: usize = 0;
    while i <= s.len() - p.len()
        invariant
            0 < p@.len() <= s@.len(),
            i <= s@.len() - p@.len() + 1,
            forall|j: int| 0 <= j < i ==> !occurs_at(s@, p@, j),
        decreases s@.len() - p@.len() + 1 - i,
    {
        if occurs_at_exec(s, p, i) {
            return true;
        }
        i = i + 1;
    }
    assert forall|j: int| !occurs_at(s@, p@, j) by {
        if 0 <= j < i {
        }
    }
    false
}

proof fn lemma_occurs_char(s: Seq<char>, c: char, i: int)
    ensures
        occurs_at(s, seq![c], i) == (0 <= i < s.len() && s[i] == c),
{
    if 0 <= i < s.len() {
        if s[i] == c {
            assert(s.subrange(i, i + 1) =~= seq![c]);
        } else {
            assert(s.subrange(i, i + 1)[0] != seq![c][0]);
        }
    }
}

/// What `str::lines` returns.
pub fn lines_exec(s: &[char]) -> (r: Vec<Vec<char>>)
    ensures
        texts(r@) == lines(s@),
{
    let n = s.len();
    let mut out: Vec<Vec<char>> = Vec::new();
    let mut pos: usize = 0;
    assert(s@.skip(0) =~= s@);
    while pos < n
        invariant
            n == s@.len(),
            pos <= n,
            texts(out@) + lines(s@.skip(pos as int)) == lines(s@),
        decreases n - pos,
    {
        let ghost t = s@.skip(pos as int);
        let mut j = pos;
        while j < n && s[j] != '\n'
            invariant
                n == s@.len(),
                pos <= j <= n,
                forall|k: int| pos <= k < j ==> s@[k] != '\n',
            decreases n - j,
        {
            j = j + 1;
        }
        proof {
            assert forall|k: int| 0 <= k < j - pos implies !occurs_at(t, seq!['\n'], k) by {
                lemma_occurs_char(t, '\n', k);
            }
        }
        if j == n {
            proof {
                assert forall|k: int| 0 <= k <= t.len() implies !occurs_at(t, seq!['\n'], k) by {
                    lemma_occurs_char(t, '\n', k);
                }
                lemma_find_text_none(t, seq!['\n']);
                assert(t.len() > 0);
                assert(lines(t) == seq![t]);
                assert(t =~= s@.subrange(pos as int, n as int));
            }
            let line = sub_chars(s, pos, n);
            let ghost before = texts(out@);
            out.push(line);
            proof {
                assert(texts(out@) =~= before.push(t));
                assert(s@.skip(n as int) =~= Seq::<char>::empty());
                assert(lines(s@.skip(n as int)) =~= Seq::<Seq<char>>::empty());
                assert(before + seq![t] =~= before.push(t));
            }
            pos = n;
        } else {
            proof {
                lemma_occurs_char(t, '\n', j - pos);
                lemma_find_text_first(t, seq!['\n'], j - pos);
                assert(t.skip(j - pos + 1) =~= s@.skip(j + 1));
                assert(t.take(j - pos) =~= s@.subrange(pos as int, j as int));
            }
            let body = if j > pos && s[j - 1] == '\r' {
                sub_chars(s, pos, j - 1)
            } else {
                sub_chars(s, pos, j)
            };
            proof {
                let raw = s@.subrange(pos as int, j as int);
                if j > pos && s@[j - 1] == '\r' {
                    assert(raw.drop_last() =~= s@.subrange(pos as int, j - 1));
                }
                assert(body@ == strip_cr(raw));
            }
            let ghost before = texts(out@);
            out.push(body);
            proof {
                assert(texts(out@) =~= before.push(body@));
                assert(before + lines(t) =~= texts(out@) + lines(s@.skip(j + 1)));
            }
            pos = j + 1;
        }
    }
    proof {
        assert(s@.skip(n as int) =~= Seq::<char>::empty());
        assert(texts(out@) + Seq::<Seq<char>>::empty() =~= texts(out@));
    }
    out
}

/// What `str::split` returns for a non-empty text separator.
pub fn split_text_exec(s: &[char], sep: &[char]) -> (r: Vec<Vec<char>>)
    requires
        sep@.len() > 0,
    ensures
        texts(r@) == split_text(s@, sep@),
{
    let n = s.len();
    let m = sep.len();
    let mut out: Vec<Vec<char>> = Vec::new();
    let mut pos: usize = 0;
    assert(s@.skip(0) =~= s@);
    loop
        invariant
            n == s@.len(),
            m == sep@.len(),
            m > 0,
            pos <= n,
            texts(out@) + split_text(s@.skip(pos as int), sep@) == split_text(s@, sep@),
        decreases n - pos,
    {
        let ghost t = s@.skip(pos as int);
        let mut j = pos;
        while j < n && !occurs_at_exec(s, sep, j)
            invariant
                n == s@.len(),
                pos <= j <= n,
                forall|k: int| pos <= k < j ==> !occurs_at(s@, sep@, k),
            decreases n - j,
        {
            j = j + 1;
        }
        proof {
            assert forall|k: int| 0 <= k < j - pos implies !occurs_at(t, sep@, k) by {
                lemma_starts_with_skip(s@, sep@, pos + k);
                lemma_starts_with_skip(t, sep@, k);
                assert(t.skip(k) =~= s@.skip(pos + k));
            }
        }
        if j == n {
            proof {
                assert forall|k: int| 0 <= k <= t.len() implies !occurs_at(t, sep@, k) by {
                    lemma_starts_with_skip(s@, sep@, pos + k);
                    lemma_starts_with_skip(t, sep@, k);
                    assert(t.skip(k) =~= s@.skip(pos + k));
                }
                lemma_find_text_none(t, sep@);
                assert(t =~= s@.subrange(pos as int, n as int));
            }
            let piece = sub_chars(s, pos, n);
            let ghost before = texts(out@);
            out.push(piece);
            proof {
                assert(texts(out@) =~= before + split_text(t, sep@));
            }
            return out;
        }
        proof {
            lemma_starts_with_skip(s@, sep@, j as int);
            lemma_starts_with_skip(t, sep@, j - pos);
            assert(t.skip(j - pos) =~= s@.skip(j as int));
            lemma_find_text_first(t, sep@, j - pos);
            assert(t.skip(j - pos + m) =~= s@.skip(j + m));
            assert(t.take(j - pos) =~= s@.subrange(pos as int, j as int));
        }
        let piece = sub_chars(s, pos, j);
        let ghost before = texts(out@);
        out.push(piece);
        proof {
            assert(texts(out@) =~= before.push(piece@));
            assert(before + split_text(t, sep@) =~= texts(out@) + split_text(s@.skip(j + m), sep@));
        }
        pos = j + m;
    }
}

/// Whether the character `c` occurs in `s`.
pub fn has_char(s: &[char], c: char) -> (r: bool)
    ensures
        r == s@.contains(c),
{
    let mut i: usize = 0;
    while i < s.len()
        invariant
            i <= s@.len(),
            forall|j: int| 0 <= j < i ==> s@[j] != c,
        decreases s@.len() - i,
    {
        if s[i] == c {
            return true;
        }
        i = i + 1;
    }
    false
}

/// `char::is_whitespace`.
pub fn is_ws_exec(c: char) -> (r: bool)
    ensures
        r == is_ws(c),
{
    let u = c as u32;
    (0x9 <= u && u <= 0xd) || u == 0x20 || u == 0x85 || u == 0xa0 || u == 0x1680 || (0x2000 <= u
        && u <= 0x200a) || u == 0x2028 || u == 0x2029 || u == 0x202f || u == 0x205f || u == 0x3000
}

proof fn lemma_trim_start_ws_skip(s: Seq<char>, i: int)
    requires
        0 <= i <= s.len(),
        forall|j: int| 0 <= j < i ==> is_ws(s[j]),
    ensures
        trim_start_ws(s) == trim_start_ws(s.skip(i)),
    decreases i,
{
    if i > 0 {
        assert(is_ws(s[0]));
        assert forall|j: int| 0 <= j < i - 1 implies is_ws(s.drop_first()[j]) by {
            assert(s.drop_first()[j] == s[j + 1]);
        }
        lemma_trim_start_ws_skip(s.drop_first(), i - 1);
        assert(s.drop_first().skip(i - 1) =~= s.skip(i));
    } else {
        assert(s.skip(0) =~= s);
    }
}

proof fn lemma_trim_end_ws_take(s: Seq<char>, i: int)
    requires
        0 <= i <= s.len(),
        forall|j: int| i <= j < s.len() ==> is_ws(s[j]),
    ensures
        trim_end_ws(s) == trim_end_ws(s.take(i)),
    decreases s.len() - i,
{
    if i < s.len() {
        lemma_trim_end_ws_take(s.drop_last(), i);
        assert(s.drop_last().take(i) =~= s.take(i));
    } else {
        assert(s.take(i) =~= s);
    }
}

/// What `str::trim` returns.
pub fn trim_exec(s: &[char]) -> (r: Vec<char>)
    ensures
        r@ == trim(s@),
{
    let mut lo: usize = 0;
    while lo < s.len() && is_ws_exec(s[lo])
        invariant
            lo <= s@.len(),
            forall|j: int| 0 <= j < lo ==> is_ws(s@[j]),
        decreases s@.len() - lo,
    {
        lo = lo + 1;
    }
    proof {
        lemma_trim_start_ws_skip(s@, lo as int);
    }
    let mut hi: usize = s.len();
    while hi > lo && is_ws_exec(s[hi - 1])
        invariant
            lo <= hi <= s@.len(),
            forall|j: int| hi <= j < s@.len() ==> is_ws(s@[j]),
        decreases hi,
    {
        hi = hi - 1;
    }
    let r = sub_chars(s, lo, hi);
    proof {
        let t = s@.skip(lo as int);
        assert(lo == s@.len() || !is_ws(t[0]));
        assert(trim_start_ws(t) == t);
        lemma_trim_end_ws_take(t, hi - lo);
        assert(t.take(hi - lo) =~= s@.subrange(lo as int, hi as int));
        assert(hi == lo || !is_ws(t.take(hi - lo).last()));
    }
    r
}

proof fn lemma_trim_start_chars_skip(s: Seq<char>, set: Seq<char>, i: int)
    requires
        0 <= i <= s.len(),
        forall|j: int| 0 <= j < i ==> set.contains(s[j]),
    ensures
        trim_start_chars(s, set) == trim_start_chars(s.skip(i), set),
    decreases i,
{
    if i > 0 {
        assert(set.contains(s[0]));
        assert forall|j: int| 0 <= j < i - 1 implies set.contains(s.drop_first()[j]) by {
            assert(s.drop_first()[j] == s[j + 1]);
        }
        lemma_trim_start_chars_skip(s.drop_first(), set, i - 1);
        assert(s.drop_first().skip(i - 1) =~= s.skip(i));
    } else {
        assert(s.skip(0) =~= s);
    }
}

proof fn lemma_trim_end_chars_take(s: Seq<char>, set: Seq<char>, i: int)
    requires
        0 <= i <= s.len(),
        forall|j: int| i <= j < s.len() ==> set.contains(s[j]),
    ensures
        trim_end_chars(s, set) == trim_end_chars(s.take(i), set),
    decreases s.len() - i,
{
    if i < s.len() {
        lemma_trim_end_chars_take(s.drop_last(), set, i);
        assert(s.drop_last().take(i) =~= s.take(i));
    } else {
        assert(s.take(i) =~= s);
    }
}

/// What `str::trim_matches` returns for a set of characters.
pub fn trim_chars_exec(s: &[char], set: &[char]) -> (r: Vec<char>)
    ensures
        r@ == trim_chars(s@, set@),
{
    let mut lo: usize = 0;
    while lo < s.len() && has_char(set, s[lo])
        invariant
            lo <= s@.len(),
            forall|j: int| 0 <= j < lo ==> set@.contains(s@[j]),
        decreases s@.len() - lo,
    {
        lo = lo + 1;
    }
    proof {
        lemma_trim_start_chars_skip(s@, set@, lo as int);
    }
    let mut hi: usize = s.len();
    while hi > lo && has_char(set, s[hi - 1])
        invariant
            lo <= hi <= s@.len(),
            forall|j: int| hi <= j < s@.len() ==> set@.contains(s@[j]),
        decreases hi,
    {
        hi = hi - 1;
    }
    let r = sub_chars(s, lo, hi);
    proof {
        let t = s@.skip(lo as int);
        assert(lo == s@.len() || !set@.contains(t[0]));
        assert(trim_start_chars(t, set@) == t);
        lemma_trim_end_chars_take(t, set@, hi - lo);
        assert(t.take(hi - lo) =~= s@.subrange(lo as int, hi as int));
        assert(hi == lo || !set@.contains(t.take(hi - lo).last()));
    }
    r
}

/// `s` with trailing characters of `set` removed.
pub fn trim_end_chars_exec(s: &[char], set: &[char]) -> (r: Vec<char>)
    ensures
        r@ == trim_end_chars(s@, set@),
{
    let mut hi: usize = s.len();
    while hi > 0 && has_char(set, s[hi - 1])
        invariant
            hi <= s@.len(),
            forall|j: int| hi <= j < s@.len() ==> set@.contains(s@[j]),
        decreases hi,
    {
        hi = hi - 1;
    }
    proof {
        lemma_trim_end_chars_take(s@, set@, hi as int);
        assert(hi == 0 || !set@.contains(s@.take(hi as int).last()));
    }
    sub_chars(s, 0, hi)
}

/// What `str::trim_start_matches` returns for a text pattern.
pub fn trim_start_matches_exec(s: &[char], p: &[char]) -> (r: Vec<char>)
    ensures
        r@ == trim_start_matches(s@, p@),
{
    if p.len() == 0 {
        return sub_chars(s, 0, s.len());
    }
    let mut lo: usize = 0;
    assert(s@.skip(0) =~= s@);
    while lo <= s.len() && occurs_at_exec(s, p, lo)
        invariant
            lo <= s@.len(),
            p@.len() > 0,
            trim_start_matches(s@, p@) == trim_start_matches(s@.skip(lo as int), p@),
        decreases s@.len() - lo,
    {
        proof {
            lemma_starts_with_skip(s@, p@, lo as int);
            assert(s@.skip(lo as int).skip(p@.len() as int) =~= s@.skip(lo + p@.len()));
        }
        lo = lo + p.len();
    }
    proof {
        lemma_starts_with_skip(s@, p@, lo as int);
        assert(s@.skip(lo as int) =~= s@.subrange(lo as int, s@.len() as int));
    }
    sub_chars(s, lo, s.len())
}

/// `s` with every `from` replaced by `to`.
pub fn replace_char_exec(s: &[char], from: char, to: char) -> (r: Vec<char>)
    ensures
        r@ == replace_char(s@, from, to),
{
    let mut r: Vec<char> = Vec::new();
    let mut i: usize = 0;
    while i < s.len()
        invariant
            i <= s@.len(),
            r@ == replace_char(s@.subrange(0, i as int), from, to),
        decreases s@.len() - i,
    {
        let c = if s[i] == from {
            to
        } else {
            s[i]
        };
        r.push(c);
        i = i + 1;
        assert(r@ =~= replace_char(s@.subrange(0, i as int), from, to));
    }
    assert(s@.subrange(0, s@.len() as int) =~= s@);
    r
}

proof fn lemma_after_last_take(s: Seq<char>, seps: Seq<char>, i: int)
    requires
        0 <= i <= s.len(),
        forall|j: int| i <= j < s.len() ==> !seps.contains(s[j]),
        i == 0 || seps.contains(s[i - 1]),
    ensures
        after_last(s, seps) == s.skip(i),
    decreases s.len() - i,
{
    if i < s.len() {
        lemma_after_last_take(s.drop_last(), seps, i);
        assert(s.drop_last().skip(i).push(s.last()) =~= s.skip(i));
    } else {
        assert(s.skip(i) =~= Seq::<char>::empty());
    }
}

/// The part of `s` after its last separator.
pub fn after_last_exec(s: &[char], seps: &[char]) -> (r: Vec<char>)
    ensures
        r@ == after_last(s@, seps@),
{
    let mut i: usize = s.len();
    while i > 0 && !has_char(seps, s[i - 1])
        invariant
            i <= s@.len(),
            forall|j: int| i <= j < s@.len() ==> !seps@.contains(s@[j]),
        decreases i,
    {
        i = i - 1;
    }
    proof {
        lemma_after_last_take(s@, seps@, i as int);
        assert(s@.skip(i as int) =~= s@.subrange(i as int, s@.len() as int));
    }
    sub_chars(s, i, s.len())
}

/// The number of leading characters on which `a` and `b` agree.
pub fn shared_prefix_len_exec(a: &[char], b: &[char]) -> (r: usize)
    ensures
        r == shared_prefix_len(a@, b@),
{
    let mut i: usize = 0;
    while i < a.len() && i < b.len() && a[i] == b[i]
        invariant
            i <= a@.len(),
            i <= b@.len(),
            forall|j: int| 0 <= j < i ==> a@[j] == b@[j],
        decreases a@.len() - i,
    {
        i = i + 1;
    }
    proof {
        lemma_common_prefix_at(a@, b@, i as int);
    }
    i
}

/// Whether `a` comes strictly before `b`.
pub fn text_lt_exec(a: &[char], b: &[char]) -> (r: bool)
    ensures
        r == text_lt(a@, b@),
{
    let k = shared_prefix_len_exec(a, b);
    proof {
        lemma_common_prefix(a@, b@);
    }
    if k == a.len() {
        k < b.len()
    } else if k < b.len() {
        (a[k] as u32) < (b[k] as u32)
    } else {
        false
    }
}

} // verus!
