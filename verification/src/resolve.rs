//! Resolving raw import paths to files of the graph.
use vstd::prelude::*;

use crate::graph::strs;
use crate::paths::{
    file_stem_of, join_path, parent_of, path_file_stem, path_join, path_parent,
    path_with_extension, with_extension,
};
use crate::text::{
    after_last, after_last_exec, chars_of, shared_prefix_len, shared_prefix_len_exec, concat_chars,
    contains_exec, contains_text, ends_with, ends_with_exec, eq_chars, eq_str, has_char,
    lowercase, lowercase_chars, replace_char, replace_char_exec, split_text, split_text_exec,
    starts_with, starts_with_exec, string_of, sub_chars, texts, trim_start_matches,
    trim_start_matches_exec,
};

verus! {

// ---------------------------------------------------------------------------
// The stem index
// ---------------------------------------------------------------------------

/// The lowercased file stem of a path, the key under which it is indexed.
pub open spec fn stem_key(p: Seq<char>) -> Option<Seq<char>> {
    match path_file_stem(p) {
        Some(s) => Some(lowercase(s)),
        None => None,
    }
}

/// The paths whose stem key is `key`, in order.
pub open spec fn with_stem(paths: Seq<Seq<char>>, key: Seq<char>) -> Seq<Seq<char>>
    decreases paths.len(),
{
    if paths.len() == 0 {
        Seq::empty()
    } else {
        let rest = with_stem(paths.drop_last(), key);
        if stem_key(paths.last()) == Some(key) {
            rest.push(paths.last())
        } else {
            rest
        }
    }
}

/// What the stem index of `paths` holds under `key`.
pub open spec fn stem_lookup(paths: Seq<Seq<char>>, key: Seq<char>) -> Option<Seq<Seq<char>>> {
    if with_stem(paths, key).len() > 0 {
        Some(with_stem(paths, key))
    } else {
        None
    }
}

/// No two of the keys are the same text.
pub open spec fn keys_distinct(keys: Seq<Vec<char>>) -> bool {
    forall|i: int, j: int| 0 <= i < keys.len() && 0 <= j < keys.len() && i != j ==> keys[i]@ != keys[j]@
}

/// `groups[j]` holds the paths of `paths` with key `keys[j]`, and every key
/// that some path has is among `keys`.
pub open spec fn groups_match(keys: Seq<Vec<char>>, groups: Seq<Vec<String>>, paths: Seq<Seq<char>>) -> bool {
    &&& forall|j: int|
        0 <= j < keys.len() ==> strs(#[trigger] groups[j]@) == with_stem(paths, keys[j]@)
            && groups[j]@.len() > 0
    &&& forall|key: Seq<char>|
        with_stem(paths, key).len() > 0 ==> exists|j: int| 0 <= j < keys.len() && #[trigger] keys[j]@ == key
}

/// The paths of a set of files, grouped by lowercased file stem.
pub struct StemIndex {
    keys: Vec<Vec<char>>,
    groups: Vec<Vec<String>>,
}

impl StemIndex {
    /// The index holds, for each stem key, exactly the paths of `paths` with
    /// that key, in order.
    pub open spec fn indexes(&self, paths: Seq<Seq<char>>) -> bool {
        forall|key: Seq<char>| #[trigger] self.lookup(key) == stem_lookup(paths, key)
    }

    pub closed spec fn lookup(&self, key: Seq<char>) -> Option<Seq<Seq<char>>> {
        if exists|j: int| 0 <= j < self.keys@.len() && self.keys@[j]@ == key {
            let j = choose|j: int| 0 <= j < self.keys@.len() && self.keys@[j]@ == key;
            Some(strs(self.groups@[j]@))
        } else {
            None
        }
    }

    #[verifier::type_invariant]
    closed spec fn well_formed(&self) -> bool {
        &&& self.keys@.len() == self.groups@.len()
        &&& keys_distinct(self.keys@)
    }

    closed spec fn inv(&self, paths: Seq<Seq<char>>) -> bool {
        groups_match(self.keys@, self.groups@, paths)
    }

    proof fn lemma_inv_indexes(&self, paths: Seq<Seq<char>>)
        requires
            self.inv(paths),
        ensures
            self.indexes(paths),
    {
        assert forall|key: Seq<char>| #[trigger] self.lookup(key) == stem_lookup(paths, key) by {
            if exists|j: int| 0 <= j < self.keys@.len() && self.keys@[j]@ == key {
                let j = choose|j: int| 0 <= j < self.keys@.len() && self.keys@[j]@ == key;
                assert(strs(self.groups@[j]@) == with_stem(paths, key));
            }
        }
    }

    /// The paths filed under `key`.
    pub fn get(&self, key: &[char]) -> (r: Option<&Vec<String>>)
        ensures
            match r {
                Some(g) => self.lookup(key@) == Some(strs(g@)),
                None => self.lookup(key@) is None,
            },
    {
        let mut j: usize = 0;
        proof {
            use_type_invariant(self);
        }
        while j < self.keys.len()
            invariant
                j <= self.keys@.len(),
                self.keys@.len() == self.groups@.len(),
                forall|q: int| 0 <= q < j ==> self.keys@[q]@ != key@,
            decreases self.keys@.len() - j,
        {
            if eq_chars(self.keys[j].as_slice(), key) {
                proof {
                    use_type_invariant(self);
                    let c = choose|q: int| 0 <= q < self.keys@.len() && self.keys@[q]@ == key@;
                    assert(c == j);
                }
                return Some(&self.groups[j]);
            }
            j = j + 1;
        }
        None
    }
}


/// Groups `paths` by lowercased file stem, keeping their order in each group.
pub fn build_stem_index(paths: &[String]) -> (r: StemIndex)
    ensures
        r.indexes(strs(paths@)),
{
    let mut keys: Vec<Vec<char>> = Vec::new();
    let mut groups: Vec<Vec<String>> = Vec::new();
    let mut i: usize = 0;
    assert(strs(paths@).take(0) =~= Seq::<Seq<char>>::empty());
    while i < paths.len()
        invariant
            i <= paths@.len(),
            keys@.len() == groups@.len(),
            keys_distinct(keys@),
            groups_match(keys@, groups@, strs(paths@).take(i as int)),
        decreases paths@.len() - i,
    {
        let ghost done = strs(paths@).take(i as int);
        let ghost next = strs(paths@).take(i + 1);
        let p = &paths[i];
        proof {
            assert(next.drop_last() =~= done);
            assert(next.last() == p@);
            assert forall|key: Seq<char>| stem_key(p@) != Some(key) implies with_stem(next, key)
                == with_stem(done, key) by {}
        }
        match file_stem_of(p.as_str()) {
            Some(st) => {
                let sc = chars_of(st.as_str());
                let key = lowercase_chars(sc.as_slice());
                assert(stem_key(p@) == Some(key@));
                let mut j: usize = 0;
                while j < keys.len() && !eq_chars(keys[j].as_slice(), key.as_slice())
                    invariant
                        j <= keys@.len(),
                        forall|q: int| 0 <= q < j ==> keys@[q]@ != key@,
                    decreases keys@.len() - j,
                {
                    j = j + 1;
                }
                if j < keys.len() {
                    let ghost old_groups = groups@;
                    groups[j].push(p.clone());
                    proof {
                        assert(strs(groups@[j as int]@) =~= strs(old_groups[j as int]@).push(p@));
                        assert forall|q: int| 0 <= q < keys@.len() implies strs(
                            #[trigger] groups@[q]@,
                        ) == with_stem(next, keys@[q]@) && groups@[q]@.len() > 0 by {
                            if q != j {
                                assert(groups@[q] == old_groups[q]);
                            }
                        }
                        assert forall|k: Seq<char>| with_stem(next, k).len() > 0 implies exists|q: int|
                            0 <= q < keys@.len() && #[trigger] keys@[q]@ == k by {
                            if k != key@ {
                                assert(with_stem(next, k) == with_stem(done, k));
                            }
                        }
                    }
                } else {
                    let ghost old_groups = groups@;
                    let ghost old_keys = keys@;
                    let mut g: Vec<String> = Vec::new();
                    g.push(p.clone());
                    proof {
                        assert(with_stem(done, key@).len() == 0) by {
                            if with_stem(done, key@).len() > 0 {
                                let q = choose|q: int| 0 <= q < old_keys.len() && #[trigger] old_keys[q]@ == key@;
                                assert(old_keys[q]@ != key@);
                            }
                        }
                        assert(with_stem(next, key@) =~= seq![p@]);
                        assert(strs(g@) =~= seq![p@]);
                    }
                    keys.push(key);
                    groups.push(g);
                    proof {
                        assert forall|q: int| 0 <= q < keys@.len() implies strs(
                            #[trigger] groups@[q]@,
                        ) == with_stem(next, keys@[q]@) && groups@[q]@.len() > 0 by {
                            if q < old_keys.len() {
                                assert(groups@[q] == old_groups[q]);
                                assert(keys@[q] == old_keys[q]);
                            }
                        }
                        assert forall|k: Seq<char>| with_stem(next, k).len() > 0 implies exists|q: int|
                            0 <= q < keys@.len() && #[trigger] keys@[q]@ == k by {
                            if k != key@ {
                                assert(with_stem(next, k) == with_stem(done, k));
                                let q = choose|q: int| 0 <= q < old_keys.len() && #[trigger] old_keys[q]@ == k;
                                assert(keys@[q] == old_keys[q]);
                            } else {
                                assert(keys@[old_keys.len() as int]@ == k);
                            }
                        }
                        assert(keys_distinct(keys@));
                    }
                }
            },
            None => {
                proof {
                    assert forall|q: int| 0 <= q < keys@.len() implies strs(#[trigger] groups@[q]@)
                        == with_stem(next, keys@[q]@) && groups@[q]@.len() > 0 by {}
                }
            },
        }
        i = i + 1;
    }
    assert(strs(paths@).take(paths@.len() as int) =~= strs(paths@));
    let r = StemIndex { keys, groups };
    proof {
        assert(r.inv(strs(paths@)));
        r.lemma_inv_indexes(strs(paths@));
    }
    r
}


// ---------------------------------------------------------------------------
// Choosing among candidates
// ---------------------------------------------------------------------------

/// `cands[i]` shares the longest prefix with `dir`, and no later candidate
/// shares as long a one: what `Iterator::max_by` picks.
pub open spec fn is_last_max(cands: Seq<Seq<char>>, dir: Seq<char>, i: int) -> bool {
    &&& 0 <= i < cands.len()
    &&& forall|j: int|
        0 <= j < cands.len() ==> shared_prefix_len(dir, #[trigger] cands[j]) <= shared_prefix_len(
            dir,
            cands[i],
        )
    &&& forall|j: int|
        i < j < cands.len() ==> shared_prefix_len(dir, #[trigger] cands[j]) < shared_prefix_len(
            dir,
            cands[i],
        )
}

/// The candidate closest to the directory `dir`: the only one if there is
/// one, else the last of those sharing the longest prefix with `dir`.
pub open spec fn closest(cands: Seq<Seq<char>>, dir: Seq<char>) -> Option<Seq<char>> {
    if cands.len() == 0 {
        None
    } else if cands.len() == 1 {
        Some(cands[0])
    } else {
        Some(cands[choose|i: int| is_last_max(cands, dir, i)])
    }
}

pub proof fn lemma_last_max_unique(cands: Seq<Seq<char>>, dir: Seq<char>, i: int, j: int)
    requires
        is_last_max(cands, dir, i),
        is_last_max(cands, dir, j),
    ensures
        i == j,
{
    if i < j {
        assert(shared_prefix_len(dir, cands[j]) < shared_prefix_len(dir, cands[i]));
        assert(shared_prefix_len(dir, cands[i]) <= shared_prefix_len(dir, cands[j]));
    } else if j < i {
        assert(shared_prefix_len(dir, cands[i]) < shared_prefix_len(dir, cands[j]));
        assert(shared_prefix_len(dir, cands[j]) <= shared_prefix_len(dir, cands[i]));
    }
}

pub proof fn lemma_last_max_exists(cands: Seq<Seq<char>>, dir: Seq<char>)
    requires
        cands.len() > 0,
    ensures
        exists|i: int| is_last_max(cands, dir, i),
    decreases cands.len(),
{
    let n = cands.len() as int;
    if n == 1 {
        assert(is_last_max(cands, dir, 0));
    } else {
        let pre = cands.drop_last();
        lemma_last_max_exists(pre, dir);
        let i = choose|i: int| is_last_max(pre, dir, i);
        assert(forall|j: int| 0 <= j < n - 1 ==> pre[j] == cands[j]);
        if shared_prefix_len(dir, cands[n - 1]) >= shared_prefix_len(dir, cands[i]) {
            assert(is_last_max(cands, dir, n - 1));
        } else {
            assert(is_last_max(cands, dir, i));
        }
    }
}

/// What `closest` picks is one of the candidates.
pub proof fn lemma_closest_in(cands: Seq<Seq<char>>, dir: Seq<char>)
    ensures
        closest(cands, dir) matches Some(c) ==> cands.contains(c),
        cands.len() > 0 ==> closest(cands, dir) is Some,
{
    if cands.len() > 1 {
        lemma_last_max_exists(cands, dir);
        let i = choose|i: int| is_last_max(cands, dir, i);
        assert(cands[i] == closest(cands, dir).unwrap());
    } else if cands.len() == 1 {
        assert(cands[0] == closest(cands, dir).unwrap());
    }
}

/// The number of leading characters on which `a` and `b` agree.
pub fn common_prefix_len(a: &str, b: &str) -> (r: usize)
    ensures
        r == shared_prefix_len(a@, b@),
{
    let ac = chars_of(a);
    let bc = chars_of(b);
    shared_prefix_len_exec(ac.as_slice(), bc.as_slice())
}

/// The candidate closest to `dir`.
pub fn find_closest(cands: &Vec<String>, dir: &[char]) -> (r: Option<String>)
    ensures
        r.deep_view() == closest(strs(cands@), dir@),
{
    let ghost cs = strs(cands@);
    if cands.len() == 0 {
        return None;
    }
    if cands.len() == 1 {
        return Some(cands[0].clone());
    }
    let ds = string_of(dir);
    let mut best: usize = 0;
    let mut best_len = common_prefix_len(ds.as_str(), cands[0].as_str());
    let mut j: usize = 1;
    assert(is_last_max(cs.take(1), dir@, 0));
    while j < cands.len()
        invariant
            cs == strs(cands@),
            ds@ == dir@,
            1 <= j <= cands@.len(),
            best < j,
            best_len == shared_prefix_len(dir@, cs[best as int]),
            is_last_max(cs.take(j as int), dir@, best as int),
        decreases cands@.len() - j,
    {
        let l = common_prefix_len(ds.as_str(), cands[j].as_str());
        let ghost old_best = best;
        if l >= best_len {
            best = j;
            best_len = l;
        }
        proof {
            let pre = cs.take(j as int);
            let nxt = cs.take(j + 1);
            assert(forall|q: int| 0 <= q < j ==> pre[q] == nxt[q]);
            assert(nxt[j as int] == cs[j as int]);
            assert(is_last_max(nxt, dir@, best as int));
        }
        j = j + 1;
    }
    proof {
        assert(cs.take(j as int) =~= cs);
        let i = choose|i: int| is_last_max(cs, dir@, i);
        lemma_last_max_unique(cs, dir@, i, best as int);
    }
    Some(cands[best].clone())
}

/// The candidates whose file stem is exactly `stem`, in order.
pub open spec fn exact_stem(cands: Seq<Seq<char>>, stem: Seq<char>) -> Seq<Seq<char>>
    decreases cands.len(),
{
    if cands.len() == 0 {
        Seq::empty()
    } else {
        let rest = exact_stem(cands.drop_last(), stem);
        if path_file_stem(cands.last()) == Some(stem) {
            rest.push(cands.last())
        } else {
            rest
        }
    }
}

/// The closest of the candidates whose stem is exactly `stem`, or of all
/// candidates when none is.
pub open spec fn closest_with_stem(cands: Seq<Seq<char>>, dir: Seq<char>, stem: Seq<char>) -> Option<Seq<char>> {
    let exact = exact_stem(cands, stem);
    if exact.len() > 0 {
        closest(exact, dir)
    } else {
        closest(cands, dir)
    }
}

pub proof fn lemma_exact_stem_in(cands: Seq<Seq<char>>, stem: Seq<char>)
    ensures
        forall|c: Seq<char>| exact_stem(cands, stem).contains(c) ==> cands.contains(c),
    decreases cands.len(),
{
    if cands.len() > 0 {
        lemma_exact_stem_in(cands.drop_last(), stem);
        assert forall|c: Seq<char>| exact_stem(cands, stem).contains(c) implies cands.contains(c) by {
            if cands.drop_last().contains(c) {
                let k = choose|k: int| 0 <= k < cands.drop_last().len() && cands.drop_last()[k] == c;
                assert(cands[k] == c);
            } else {
                assert(cands[cands.len() - 1] == c);
            }
        }
    }
}

/// The candidate closest to `dir` among those whose stem is `stem`.
pub fn find_closest_with_stem(cands: &Vec<String>, dir: &[char], stem: &[char]) -> (r: Option<String>)
    ensures
        r.deep_view() == closest_with_stem(strs(cands@), dir@, stem@),
{
    let ghost cs = strs(cands@);
    let mut exact: Vec<String> = Vec::new();
    let mut j: usize = 0;
    assert(cs.take(0) =~= Seq::<Seq<char>>::empty());
    while j < cands.len()
        invariant
            cs == strs(cands@),
            j <= cands@.len(),
            strs(exact@) == exact_stem(cs.take(j as int), stem@),
        decreases cands@.len() - j,
    {
        let ghost before = strs(exact@);
        let st = file_stem_of(cands[j].as_str());
        let hit = match &st {
            Some(x) => {
                let xc = chars_of(x.as_str());
                eq_chars(xc.as_slice(), stem)
            },
            None => false,
        };
        if hit {
            exact.push(cands[j].clone());
        }
        proof {
            assert(cs.take(j + 1).drop_last() =~= cs.take(j as int));
            assert(cs.take(j + 1).last() == cs[j as int]);
            assert(hit == (path_file_stem(cs[j as int]) == Some(stem@)));
            assert(strs(exact@) =~= exact_stem(cs.take(j + 1), stem@));
        }
        j = j + 1;
    }
    assert(cs.take(j as int) =~= cs);
    if exact.len() > 0 {
        find_closest(&exact, dir)
    } else {
        find_closest(cands, dir)
    }
}


// ---------------------------------------------------------------------------
// Resolving one import
// ---------------------------------------------------------------------------

/// The directory of a source file (the empty path when it has none).
pub open spec fn dir_of(source_file: Seq<char>) -> Seq<char> {
    match path_parent(source_file) {
        Some(d) => d,
        None => Seq::empty(),
    }
}

/// The first of `paths` that satisfies `pred`.
pub open spec fn first_match(paths: Seq<Seq<char>>, pred: spec_fn(Seq<char>) -> bool) -> Option<Seq<char>>
    decreases paths.len(),
{
    if paths.len() == 0 {
        None
    } else if pred(paths[0]) {
        Some(paths[0])
    } else {
        first_match(paths.drop_first(), pred)
    }
}

pub proof fn lemma_first_match_skip(paths: Seq<Seq<char>>, pred: spec_fn(Seq<char>) -> bool, k: int)
    requires
        0 <= k <= paths.len(),
        forall|j: int| 0 <= j < k ==> !pred(paths[j]),
    ensures
        first_match(paths, pred) == first_match(paths.skip(k), pred),
    decreases k,
{
    if k == 0 {
        assert(paths.skip(0) =~= paths);
    } else {
        assert forall|j: int| 0 <= j < k - 1 implies !pred(paths.drop_first()[j]) by {
            assert(paths.drop_first()[j] == paths[j + 1]);
        }
        lemma_first_match_skip(paths.drop_first(), pred, k - 1);
        assert(paths.drop_first().skip(k - 1) =~= paths.skip(k));
    }
}

pub proof fn lemma_first_match_in(paths: Seq<Seq<char>>, pred: spec_fn(Seq<char>) -> bool)
    ensures
        first_match(paths, pred) matches Some(p) ==> paths.contains(p),
    decreases paths.len(),
{
    if paths.len() > 0 && !pred(paths[0]) {
        lemma_first_match_in(paths.drop_first(), pred);
        if let Some(p) = first_match(paths, pred) {
            let k = choose|k: int| 0 <= k < paths.drop_first().len() && paths.drop_first()[k] == p;
            assert(paths[k + 1] == p);
        }
    } else if paths.len() > 0 {
        assert(paths[0] == first_match(paths, pred).unwrap());
    }
}

/// The closest of the files with stem key `key`.
pub open spec fn lookup_closest(paths: Seq<Seq<char>>, key: Seq<char>, dir: Seq<char>) -> Option<Seq<char>> {
    match stem_lookup(paths, key) {
        Some(cs) => closest(cs, dir),
        None => None,
    }
}

/// The two files a Rust `mod m;` in directory `dir` can name.
pub open spec fn mod_candidate(dir: Seq<char>, m: Seq<char>) -> spec_fn(Seq<char>) -> bool {
    |p: Seq<char>| p == path_join(dir, m + ".rs"@) || p == path_join(path_join(dir, m), "mod.rs"@)
}

/// `mod:m`: the module file next to the source, else the closest file named `m`.
pub open spec fn resolve_mod(m: Seq<char>, source: Seq<char>, paths: Seq<Seq<char>>) -> Option<Seq<char>> {
    let dir = dir_of(source);
    match first_match(paths, mod_candidate(dir, m)) {
        Some(p) => Some(p),
        None => lookup_closest(paths, lowercase(m), dir),
    }
}

/// The closest file named by one of `parts[1..n]`, trying the last first.
pub open spec fn scan_segments(paths: Seq<Seq<char>>, parts: Seq<Seq<char>>, dir: Seq<char>, n: int) -> Option<Seq<char>>
    decreases n,
{
    if n <= 1 {
        None
    } else {
        match lookup_closest(paths, lowercase(parts[n - 1]), dir) {
            Some(b) => Some(b),
            None => scan_segments(paths, parts, dir, n - 1),
        }
    }
}

/// `crate::a::b`, `super::a::b`: the closest file named by the last segment
/// that names one.
pub open spec fn resolve_crate(raw: Seq<char>, source: Seq<char>, paths: Seq<Seq<char>>) -> Option<Seq<char>> {
    let parts = split_text(raw, "::"@);
    scan_segments(paths, parts, dir_of(source), parts.len() as int)
}

/// A file whose path without extension ends with `w`.
pub open spec fn alias_match(w: Seq<char>) -> spec_fn(Seq<char>) -> bool {
    |p: Seq<char>| ends_with(path_with_extension(p, ""@), w)
}

/// `@/x/y`: a file whose path ends with `x/y`, else the closest file with
/// stem `y`, preferring an exact stem match.
pub open spec fn resolve_alias(raw: Seq<char>, source: Seq<char>, paths: Seq<Seq<char>>) -> Option<Seq<char>> {
    let w = raw.skip("@/"@.len() as int);
    let last = match path_file_stem(w) {
        Some(s) => s,
        None => w,
    };
    match first_match(paths, alias_match(w)) {
        Some(p) => Some(p),
        None => match stem_lookup(paths, lowercase(last)) {
            Some(cs) => closest_with_stem(cs, dir_of(source), last),
            None => None,
        },
    }
}

/// Whether the file `p`, which is `without_ext` without its extension and
/// has the stem `stem`, is at `base` with any extension, or is an `index`
/// file under it.
pub open spec fn relative_hit_spec(p: Seq<char>, without_ext: Seq<char>, stem: Option<Seq<char>>, base: Seq<char>) -> bool {
    without_ext == base || (starts_with(p, base) && stem == Some("index"@))
}

/// A file at `base` with any extension, or an `index` file under it.
pub open spec fn relative_match(base: Seq<char>) -> spec_fn(Seq<char>) -> bool {
    |p: Seq<char>| relative_hit_spec(p, path_with_extension(p, ""@), path_file_stem(p), base)
}

/// The number of leading `../` of `rest`, and what follows them.
pub open spec fn ups_and_rest(rest: Seq<char>) -> (nat, Seq<char>)
    decreases rest.len(),
{
    if starts_with(rest, seq!['.', '.', '/']) {
        let (n, r) = ups_and_rest(rest.skip(3));
        ((n + 1) as nat, r)
    } else {
        (0, rest)
    }
}

/// `dir` taken `n` directories up.
pub open spec fn dir_up(dir: Seq<char>, n: nat) -> Seq<char>
    decreases n,
{
    if n == 0 {
        dir
    } else {
        dir_up(dir_of(dir), (n - 1) as nat)
    }
}

/// The path a relative import names: after any leading `./`, each leading
/// `../` goes one directory up from the source directory, and the dots of
/// what is left become slashes.
pub open spec fn relative_base(raw: Seq<char>, source: Seq<char>) -> Seq<char> {
    let (n, rest) = ups_and_rest(trim_start_matches(raw, "./"@));
    path_join(dir_up(dir_of(source), n), replace_char(rest, '.', '/'))
}

/// `./x`, `../x`: the file at that path from the source directory.
pub open spec fn resolve_relative(raw: Seq<char>, source: Seq<char>, paths: Seq<Seq<char>>) -> Option<Seq<char>> {
    first_match(paths, relative_match(relative_base(raw, source)))
}

/// A file whose path spells the dotted module name `raw`.
pub open spec fn dotted_match(raw: Seq<char>) -> spec_fn(Seq<char>) -> bool {
    |c: Seq<char>| contains_text(replace_char(c, '/', '.'), raw) || contains_text(c, replace_char(raw, '.', '/'))
}

/// `a.b.c`: among the files with stem `c`, one whose path spells `a.b.c`, or
/// the only one.
pub open spec fn resolve_dotted(raw: Seq<char>, paths: Seq<Seq<char>>) -> Option<Seq<char>> {
    match stem_lookup(paths, lowercase(after_last(raw, seq!['.']))) {
        Some(cs) => match first_match(cs, dotted_match(raw)) {
            Some(c) => Some(c),
            None => if cs.len() == 1 {
                Some(cs[0])
            } else {
                None
            },
        },
        None => None,
    }
}

/// Any other import: the closest file with the same stem.
pub open spec fn resolve_simple(raw: Seq<char>, source: Seq<char>, paths: Seq<Seq<char>>) -> Option<Seq<char>> {
    let stem = match path_file_stem(raw) {
        Some(s) => s,
        None => raw,
    };
    lookup_closest(paths, lowercase(stem), dir_of(source))
}

/// The file of `paths` that the raw import `raw` of file `source` names.
pub open spec fn resolved(raw: Seq<char>, source: Seq<char>, paths: Seq<Seq<char>>) -> Option<Seq<char>> {
    if starts_with(raw, "mod:"@) {
        resolve_mod(raw.skip("mod:"@.len() as int), source, paths)
    } else if starts_with(raw, "crate::"@) || starts_with(raw, "super::"@) {
        resolve_crate(raw, source, paths)
    } else if starts_with(raw, "@/"@) {
        resolve_alias(raw, source, paths)
    } else if starts_with(raw, seq!['.']) {
        resolve_relative(raw, source, paths)
    } else if raw.contains('.') && !raw.contains('/') {
        resolve_dotted(raw, paths)
    } else {
        resolve_simple(raw, source, paths)
    }
}


fn dir_string(source: &str) -> (r: String)
    ensures
        r@ == dir_of(source@),
{
    match parent_of(source) {
        Some(d) => d,
        None => String::new(),
    }
}

fn lookup_closest_exec(index: &StemIndex, paths: Ghost<Seq<Seq<char>>>, key: &[char], dir: &[char]) -> (r: Option<String>)
    requires
        index.indexes(paths@),
    ensures
        r.deep_view() == lookup_closest(paths@, key@, dir@),
{
    assert(index.lookup(key@) == stem_lookup(paths@, key@));
    match index.get(key) {
        Some(g) => find_closest(g, dir),
        None => None,
    }
}

fn resolve_mod_exec(m: &[char], source: &str, index: &StemIndex, all_paths: &[String]) -> (r: Option<String>)
    requires
        index.indexes(strs(all_paths@)),
    ensures
        r.deep_view() == resolve_mod(m@, source@, strs(all_paths@)),
{
    let ghost paths = strs(all_paths@);
    let dir = dir_string(source);
    let ghost pred = mod_candidate(dir@, m@);
    let m_str = string_of(m);
    let ext = chars_of(".rs");
    let file = concat_chars(m, ext.as_slice());
    let c1 = join_path(dir.as_str(), string_of(file.as_slice()).as_str());
    let sub = join_path(dir.as_str(), m_str.as_str());
    let c2 = join_path(sub.as_str(), "mod.rs");
    let mut k: usize = 0;
    while k < all_paths.len()
        invariant
            paths == strs(all_paths@),
            k <= all_paths@.len(),
            pred == mod_candidate(dir@, m@),
            dir@ == dir_of(source@),
            c1@ == path_join(dir@, m@ + ".rs"@),
            c2@ == path_join(path_join(dir@, m@), "mod.rs"@),
            forall|j: int| 0 <= j < k ==> !pred(paths[j]),
        decreases all_paths@.len() - k,
    {
        if all_paths[k] == c1 || all_paths[k] == c2 {
            proof {
                assert(paths[k as int] == all_paths@[k as int]@);
                assert(pred(paths[k as int]));
                lemma_first_match_skip(paths, pred, k as int);
                assert(paths.skip(k as int)[0] == paths[k as int]);
                assert(first_match(paths, pred) == Some(paths[k as int]));
            }
            return Some(all_paths[k].clone());
        }
        k = k + 1;
    }
    proof {
        lemma_first_match_skip(paths, pred, k as int);
        assert(paths.skip(k as int) =~= Seq::<Seq<char>>::empty());
    }
    let key = lowercase_chars(m);
    let dc = chars_of(dir.as_str());
    lookup_closest_exec(index, Ghost(paths), key.as_slice(), dc.as_slice())
}

fn resolve_crate_exec(raw: &[char], source: &str, index: &StemIndex, all_paths: &[String]) -> (r: Option<String>)
    requires
        index.indexes(strs(all_paths@)),
    ensures
        r.deep_view() == resolve_crate(raw@, source@, strs(all_paths@)),
{
    let ghost paths = strs(all_paths@);
    let sep = chars_of("::");
    proof {
        reveal_strlit("::");
    }
    let parts = split_text_exec(raw, sep.as_slice());
    let dir = dir_string(source);
    let dc = chars_of(dir.as_str());
    let ghost ps = texts(parts@);
    let mut k = parts.len();
    while k > 1
        invariant
            ps == texts(parts@),
            ps == split_text(raw@, "::"@),
            k <= parts@.len(),
            dc@ == dir_of(source@),
            index.indexes(paths),
            paths == strs(all_paths@),
            scan_segments(paths, ps, dc@, parts@.len() as int) == scan_segments(paths, ps, dc@, k as int),
        decreases k,
    {
        let key = lowercase_chars(parts[k - 1].as_slice());
        assert(ps[k - 1] == parts@[k - 1]@);
        let found = lookup_closest_exec(index, Ghost(paths), key.as_slice(), dc.as_slice());
        if found.is_some() {
            proof {
                assert(lowercase(ps[k - 1]) == key@);
                assert(scan_segments(paths, ps, dc@, k as int) == found.deep_view());
            }
            return found;
        }
        k = k - 1;
    }
    None
}

fn resolve_alias_exec(raw: &[char], source: &str, index: &StemIndex, all_paths: &[String]) -> (r: Option<String>)
    requires
        index.indexes(strs(all_paths@)),
        starts_with(raw@, "@/"@),
    ensures
        r.deep_view() == resolve_alias(raw@, source@, strs(all_paths@)),
{
    let ghost paths = strs(all_paths@);
    let pre = chars_of("@/");
    let w = sub_chars(raw, pre.len(), raw.len());
    assert(w@ == raw@.skip("@/"@.len() as int));
    let ws = string_of(w.as_slice());
    let last = match file_stem_of(ws.as_str()) {
        Some(st) => chars_of(st.as_str()),
        None => sub_chars(w.as_slice(), 0, w.len()),
    };
    assert(w@.subrange(0, w@.len() as int) =~= w@);
    let ghost pred = alias_match(w@);
    let mut k: usize = 0;
    while k < all_paths.len()
        invariant
            paths == strs(all_paths@),
            k <= all_paths@.len(),
            pred == alias_match(w@),
            w@ == raw@.skip("@/"@.len() as int),
            forall|j: int| 0 <= j < k ==> !pred(paths[j]),
        decreases all_paths@.len() - k,
    {
        proof {
            reveal_strlit("");
        }
        let e = with_extension(all_paths[k].as_str(), "");
        let ec = chars_of(e.as_str());
        if ends_with_exec(ec.as_slice(), w.as_slice()) {
            proof {
                assert(paths[k as int] == all_paths@[k as int]@);
                assert(pred(paths[k as int]));
                lemma_first_match_skip(paths, pred, k as int);
                assert(paths.skip(k as int)[0] == paths[k as int]);
            }
            return Some(all_paths[k].clone());
        }
        k = k + 1;
    }
    proof {
        lemma_first_match_skip(paths, pred, k as int);
        assert(paths.skip(k as int) =~= Seq::<Seq<char>>::empty());
    }
    let key = lowercase_chars(last.as_slice());
    assert(index.lookup(key@) == stem_lookup(paths, key@));
    match index.get(key.as_slice()) {
        Some(g) => {
            let dir = dir_string(source);
            let dc = chars_of(dir.as_str());
            find_closest_with_stem(g, dc.as_slice(), last.as_slice())
        },
        None => None,
    }
}

/// The number of leading `../` of a relative import (after any leading
/// `./`), and what follows them with its dots turned into slashes.
pub fn relative_parts(raw: &[char]) -> (r: (usize, Vec<char>))
    ensures
        r.0 as nat == ups_and_rest(trim_start_matches(raw@, "./"@)).0,
        r.1@ == replace_char(ups_and_rest(trim_start_matches(raw@, "./"@)).1, '.', '/'),
{
    let dot_slash = chars_of("./");
    let start = trim_start_matches_exec(raw, dot_slash.as_slice());
    let ghost whole = start@;
    let total = start.len();
    let mut rest = start;
    let up = vec!['.', '.', '/'];
    assert(up@ =~= seq!['.', '.', '/']);
    let mut n: usize = 0;
    while starts_with_exec(rest.as_slice(), up.as_slice())
        invariant
            up@ == seq!['.', '.', '/'],
            whole == trim_start_matches(raw@, "./"@),
            3 * n + rest@.len() == whole.len(),
            whole.len() == total,
            n + ups_and_rest(rest@).0 == ups_and_rest(whole).0,
            ups_and_rest(rest@).1 == ups_and_rest(whole).1,
        decreases rest@.len(),
    {
        let ghost before = rest@;
        rest = sub_chars(rest.as_slice(), 3, rest.len());
        assert(rest@ =~= before.skip(3));
        n = n + 1;
    }
    (n, replace_char_exec(rest.as_slice(), '.', '/'))
}

/// Whether the file `p`, which is `without_ext` without its extension and
/// has the stem `stem`, is at `base` with any extension, or is an `index`
/// file under it.
pub fn relative_hit(p: &str, without_ext: &str, stem: &Option<String>, base: &[char]) -> (r: bool)
    ensures
        r == relative_hit_spec(p@, without_ext@, stem.deep_view(), base@),
{
    let ec = chars_of(without_ext);
    if eq_chars(ec.as_slice(), base) {
        return true;
    }
    let pc = chars_of(p);
    if !starts_with_exec(pc.as_slice(), base) {
        return false;
    }
    let index_name = chars_of("index");
    match stem {
        Some(st) => {
            let sc = chars_of(st.as_str());
            eq_chars(sc.as_slice(), index_name.as_slice())
        },
        None => false,
    }
}

fn resolve_relative_exec(raw: &[char], source: &str, all_paths: &[String]) -> (r: Option<String>)
    ensures
        r.deep_view() == resolve_relative(raw@, source@, strs(all_paths@)),
{
    let ghost paths = strs(all_paths@);
    let (ups, rest) = relative_parts(raw);
    let mut dir = dir_string(source);
    let mut k: usize = 0;
    while k < ups
        invariant
            k <= ups,
            dir_up(dir@, (ups - k) as nat) == dir_up(dir_of(source@), ups as nat),
        decreases ups - k,
    {
        let ghost before = dir@;
        dir = dir_string(dir.as_str());
        assert(dir_up(before, (ups - k) as nat) == dir_up(dir@, (ups - k - 1) as nat));
        k = k + 1;
    }
    let base = join_path(dir.as_str(), string_of(rest.as_slice()).as_str());
    let bc = chars_of(base.as_str());
    let ghost pred = relative_match(base@);
    let mut k: usize = 0;
    while k < all_paths.len()
        invariant
            paths == strs(all_paths@),
            k <= all_paths@.len(),
            bc@ == base@,
            base@ == relative_base(raw@, source@),
            pred == relative_match(base@),
            forall|j: int| 0 <= j < k ==> !pred(paths[j]),
        decreases all_paths@.len() - k,
    {
        let p = all_paths[k].as_str();
        proof {
            reveal_strlit("");
        }
        let e = with_extension(p, "");
        let stem = file_stem_of(p);
        let hit = relative_hit(p, e.as_str(), &stem, bc.as_slice());
        if hit {
            proof {
                lemma_first_match_skip(paths, pred, k as int);
                assert(paths.skip(k as int)[0] == paths[k as int]);
            }
            return Some(all_paths[k].clone());
        }
        k = k + 1;
    }
    proof {
        lemma_first_match_skip(paths, pred, k as int);
        assert(paths.skip(k as int) =~= Seq::<Seq<char>>::empty());
    }
    None
}

fn resolve_dotted_exec(raw: &[char], index: &StemIndex, all_paths: &[String]) -> (r: Option<String>)
    requires
        index.indexes(strs(all_paths@)),
    ensures
        r.deep_view() == resolve_dotted(raw@, strs(all_paths@)),
{
    let ghost paths = strs(all_paths@);
    let dot = vec!['.'];
    assert(dot@ =~= seq!['.']);
    let last = after_last_exec(raw, dot.as_slice());
    let key = lowercase_chars(last.as_slice());
    assert(index.lookup(key@) == stem_lookup(paths, key@));
    let as_path = replace_char_exec(raw, '.', '/');
    match index.get(key.as_slice()) {
        Some(cs) => {
            let ghost cv = strs(cs@);
            let ghost pred = dotted_match(raw@);
            let mut k: usize = 0;
            while k < cs.len()
                invariant
                    cv == strs(cs@),
                    k <= cs@.len(),
                    as_path@ == replace_char(raw@, '.', '/'),
                    pred == dotted_match(raw@),
                    stem_lookup(paths, key@) == Some(cv),
                    paths == strs(all_paths@),
                    key@ == lowercase(after_last(raw@, seq!['.'])),
                    forall|j: int| 0 <= j < k ==> !pred(cv[j]),
                decreases cs@.len() - k,
            {
                let cc = chars_of(cs[k].as_str());
                let dotted = replace_char_exec(cc.as_slice(), '/', '.');
                if contains_exec(dotted.as_slice(), raw) || contains_exec(cc.as_slice(), as_path.as_slice()) {
                    proof {
                        assert(cv[k as int] == cs@[k as int]@);
                        assert(pred(cv[k as int]));
                        lemma_first_match_skip(cv, pred, k as int);
                        assert(cv.skip(k as int)[0] == cv[k as int]);
                    }
                    return Some(cs[k].clone());
                }
                k = k + 1;
            }
            proof {
                lemma_first_match_skip(cv, pred, k as int);
                assert(cv.skip(k as int) =~= Seq::<Seq<char>>::empty());
            }
            if cs.len() == 1 {
                Some(cs[0].clone())
            } else {
                None
            }
        },
        None => None,
    }
}

fn resolve_simple_exec(raw: &[char], source: &str, index: &StemIndex, all_paths: &[String]) -> (r: Option<String>)
    requires
        index.indexes(strs(all_paths@)),
    ensures
        r.deep_view() == resolve_simple(raw@, source@, strs(all_paths@)),
{
    let rs = string_of(raw);
    let stem = match file_stem_of(rs.as_str()) {
        Some(st) => chars_of(st.as_str()),
        None => sub_chars(raw, 0, raw.len()),
    };
    assert(raw@.subrange(0, raw@.len() as int) =~= raw@);
    let key = lowercase_chars(stem.as_slice());
    let dir = dir_string(source);
    let dc = chars_of(dir.as_str());
    lookup_closest_exec(index, Ghost(strs(all_paths@)), key.as_slice(), dc.as_slice())
}

/// Resolves the raw import `raw_import` of file `source_file` to one of
/// `all_paths`, the files of the graph, which `stem_index` indexes by stem.
pub fn resolve_import(raw_import: &str, source_file: &str, stem_index: &StemIndex, all_paths: &[String]) -> (r: Option<String>)
    requires
        stem_index.indexes(strs(all_paths@)),
    ensures
        r.deep_view() == resolved(raw_import@, source_file@, strs(all_paths@)),
{
    let raw = chars_of(raw_import);
    let raw = raw.as_slice();
    let mod_prefix = chars_of("mod:");
    if starts_with_exec(raw, mod_prefix.as_slice()) {
        let m = sub_chars(raw, mod_prefix.len(), raw.len());
        return resolve_mod_exec(m.as_slice(), source_file, stem_index, all_paths);
    }
    let crate_prefix = chars_of("crate::");
    let super_prefix = chars_of("super::");
    if starts_with_exec(raw, crate_prefix.as_slice()) || starts_with_exec(raw, super_prefix.as_slice()) {
        return resolve_crate_exec(raw, source_file, stem_index, all_paths);
    }
    let alias_prefix = chars_of("@/");
    if starts_with_exec(raw, alias_prefix.as_slice()) {
        return resolve_alias_exec(raw, source_file, stem_index, all_paths);
    }
    let dot = vec!['.'];
    assert(dot@ =~= seq!['.']);
    if starts_with_exec(raw, dot.as_slice()) {
        return resolve_relative_exec(raw, source_file, all_paths);
    }
    if has_char(raw, '.') && !has_char(raw, '/') {
        return resolve_dotted_exec(raw, stem_index, all_paths);
    }
    resolve_simple_exec(raw, source_file, stem_index, all_paths)
}


pub proof fn lemma_with_stem_in(paths: Seq<Seq<char>>, key: Seq<char>)
    ensures
        forall|c: Seq<char>| with_stem(paths, key).contains(c) ==> paths.contains(c),
    decreases paths.len(),
{
    if paths.len() > 0 {
        lemma_with_stem_in(paths.drop_last(), key);
        assert forall|c: Seq<char>| with_stem(paths, key).contains(c) implies paths.contains(c) by {
            if with_stem(paths.drop_last(), key).contains(c) {
                assert(paths.drop_last().contains(c));
                let k = choose|k: int| 0 <= k < paths.drop_last().len() && paths.drop_last()[k] == c;
                assert(paths[k] == c);
            } else {
                assert(paths[paths.len() - 1] == c);
            }
        }
    }
}

proof fn lemma_lookup_closest_in(paths: Seq<Seq<char>>, key: Seq<char>, dir: Seq<char>)
    ensures
        lookup_closest(paths, key, dir) matches Some(c) ==> paths.contains(c),
{
    lemma_with_stem_in(paths, key);
    lemma_closest_in(with_stem(paths, key), dir);
}

proof fn lemma_scan_segments_in(paths: Seq<Seq<char>>, parts: Seq<Seq<char>>, dir: Seq<char>, n: int)
    ensures
        scan_segments(paths, parts, dir, n) matches Some(c) ==> paths.contains(c),
    decreases n,
{
    if n > 1 {
        lemma_lookup_closest_in(paths, lowercase(parts[n - 1]), dir);
        lemma_scan_segments_in(paths, parts, dir, n - 1);
    }
}

/// Every import resolves, if at all, to one of the given paths.
pub proof fn lemma_resolved_in_paths(raw: Seq<char>, source: Seq<char>, paths: Seq<Seq<char>>)
    ensures
        resolved(raw, source, paths) matches Some(c) ==> paths.contains(c),
{
    if starts_with(raw, "mod:"@) {
        let m = raw.skip("mod:"@.len() as int);
        lemma_first_match_in(paths, mod_candidate(dir_of(source), m));
        lemma_lookup_closest_in(paths, lowercase(m), dir_of(source));
    } else if starts_with(raw, "crate::"@) || starts_with(raw, "super::"@) {
        let parts = split_text(raw, "::"@);
        lemma_scan_segments_in(paths, parts, dir_of(source), parts.len() as int);
    } else if starts_with(raw, "@/"@) {
        let w = raw.skip("@/"@.len() as int);
        let last = match path_file_stem(w) {
            Some(s) => s,
            None => w,
        };
        lemma_first_match_in(paths, alias_match(w));
        let cs = with_stem(paths, lowercase(last));
        lemma_with_stem_in(paths, lowercase(last));
        lemma_exact_stem_in(cs, last);
        lemma_closest_in(exact_stem(cs, last), dir_of(source));
        lemma_closest_in(cs, dir_of(source));
    } else if starts_with(raw, seq!['.']) {
        lemma_first_match_in(paths, relative_match(relative_base(raw, source)));
    } else if raw.contains('.') && !raw.contains('/') {
        let key = lowercase(after_last(raw, seq!['.']));
        let cs = with_stem(paths, key);
        lemma_with_stem_in(paths, key);
        lemma_first_match_in(cs, dotted_match(raw));
        if cs.len() == 1 {
            assert(cs.contains(cs[0]));
        }
    } else {
        let stem = match path_file_stem(raw) {
            Some(s) => s,
            None => raw,
        };
        lemma_lookup_closest_in(paths, lowercase(stem), dir_of(source));
    }
}

} // verus!
