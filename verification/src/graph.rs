//! The dependency graph of a set of source files.
use vstd::prelude::*;

use crate::paths::{file_name_of, path_file_name};
use crate::extract::{
    extract_imports, extract_symbols, file_imports, file_symbols, lang_from_name, lang_named, lines_sorted, Lang,
};
use crate::order::is_perm;
use crate::parse::{offsets_fit, parse_source, parsed_nodes, tree_fits, tree_matches};
use crate::syntax::SyntaxTree;
use crate::resolve::resolved;
use crate::text::{after_last, contains_text, lines, lowercase, text_lt, texts};

verus! {

/// A top-level definition found in a file.
#[derive(Debug, Clone)]
pub struct Symbol {
    pub name: String,
    pub kind: String,
    pub line: usize,
}

pub struct SymbolView {
    pub name: Seq<char>,
    pub kind: Seq<char>,
    pub line: nat,
}

impl View for Symbol {
    type V = SymbolView;

    open spec fn view(&self) -> SymbolView {
        SymbolView { name: self.name@, kind: self.kind@, line: self.line as nat }
    }
}

impl Symbol {
    /// A copy of the symbol.
    pub fn duplicate(&self) -> (r: Symbol)
        ensures
            r@ == self@,
    {
        Symbol { name: self.name.clone(), kind: self.kind.clone(), line: self.line }
    }
}

/// The texts of a sequence of strings.
pub open spec fn strs(v: Seq<String>) -> Seq<Seq<char>> {
    v.map_values(|s: String| s@)
}

/// The views of a sequence of symbols.
pub open spec fn syms(v: Seq<Symbol>) -> Seq<SymbolView> {
    v.map_values(|s: Symbol| s@)
}


/// What is known of one file: its symbols, its raw imports, the files it
/// depends on and its source.
#[derive(Debug, Clone)]
pub struct FileNode {
    pub symbols: Vec<Symbol>,
    pub raw_imports: Vec<String>,
    pub depends_on: Vec<String>,
    pub source: String,
}

pub struct FileNodeView {
    pub symbols: Seq<SymbolView>,
    pub raw_imports: Seq<Seq<char>>,
    pub depends_on: Seq<Seq<char>>,
    pub source: Seq<char>,
}

impl View for FileNode {
    type V = FileNodeView;

    open spec fn view(&self) -> FileNodeView {
        FileNodeView {
            symbols: syms(self.symbols@),
            raw_imports: strs(self.raw_imports@),
            depends_on: strs(self.depends_on@),
            source: self.source@,
        }
    }
}

/// A copy of a vector of strings.
pub fn copy_strings(v: &Vec<String>) -> (r: Vec<String>)
    ensures
        strs(r@) == strs(v@),
{
    let mut r: Vec<String> = Vec::new();
    let mut i: usize = 0;
    while i < v.len()
        invariant
            i <= v@.len(),
            r@.len() == i,
            strs(r@) == strs(v@).take(i as int),
        decreases v@.len() - i,
    {
        let c = v[i].clone();
        let ghost before = r@;
        r.push(c);
        proof {
            assert(r@ == before.push(c));
            assert(c@ == v@[i as int]@);
            assert forall|k: int| 0 <= k <= i implies strs(r@)[k] == strs(v@)[k] by {
                if k < i {
                    assert(r@[k] == before[k]);
                    assert(strs(before)[k] == strs(v@).take(i as int)[k]);
                } else {
                    assert(r@[k] == c);
                }
            }
        }
        i = i + 1;
        assert(strs(r@) =~= strs(v@).take(i as int));
    }
    assert(strs(v@).take(i as int) =~= strs(v@));
    r
}

/// A copy of a vector of symbols.
pub fn copy_symbols(v: &Vec<Symbol>) -> (r: Vec<Symbol>)
    ensures
        syms(r@) == syms(v@),
{
    let mut r: Vec<Symbol> = Vec::new();
    let mut i: usize = 0;
    while i < v.len()
        invariant
            i <= v@.len(),
            r@.len() == i,
            syms(r@) == syms(v@).take(i as int),
        decreases v@.len() - i,
    {
        let c = v[i].duplicate();
        let ghost before = r@;
        r.push(c);
        proof {
            assert(r@ == before.push(c));
            assert(c@ == v@[i as int]@);
            assert forall|k: int| 0 <= k <= i implies syms(r@)[k] == syms(v@)[k] by {
                if k < i {
                    assert(r@[k] == before[k]);
                    assert(syms(before)[k] == syms(v@).take(i as int)[k]);
                } else {
                    assert(r@[k] == c);
                }
            }
        }
        i = i + 1;
        assert(syms(r@) =~= syms(v@).take(i as int));
    }
    assert(syms(v@).take(i as int) =~= syms(v@));
    r
}

impl FileNode {
    /// A copy of the node.
    pub fn duplicate(&self) -> (r: FileNode)
        ensures
            r@ == self@,
    {
        FileNode {
            symbols: copy_symbols(&self.symbols),
            raw_imports: copy_strings(&self.raw_imports),
            depends_on: copy_strings(&self.depends_on),
            source: self.source.clone(),
        }
    }
}

/// The file entries of a graph, keyed by path, in the order of insertion.
pub struct FileTable {
    entries: Vec<(String, FileNode)>,
}

/// No two entries have the same path.
pub open spec fn distinct_keys(es: Seq<(Seq<char>, FileNodeView)>) -> bool {
    forall|i: int, j: int| 0 <= i < es.len() && 0 <= j < es.len() && i != j ==> es[i].0 != es[j].0
}

/// The position of the entry for `key` among `es`, if there is one.
pub open spec fn index_in(es: Seq<(Seq<char>, FileNodeView)>, key: Seq<char>) -> Option<int> {
    if exists|i: int| 0 <= i < es.len() && es[i].0 == key {
        Some(choose|i: int| 0 <= i < es.len() && es[i].0 == key)
    } else {
        None
    }
}

/// The node stored under `key` among `es`, if there is one.
pub open spec fn lookup_in(es: Seq<(Seq<char>, FileNodeView)>, key: Seq<char>) -> Option<FileNodeView> {
    match index_in(es, key) {
        Some(i) => Some(es[i].1),
        None => None,
    }
}

/// The paths of a sequence of entries.
pub open spec fn keys_of(es: Seq<(Seq<char>, FileNodeView)>) -> Seq<Seq<char>> {
    es.map_values(|e: (Seq<char>, FileNodeView)| e.0)
}

impl View for FileTable {
    type V = Seq<(Seq<char>, FileNodeView)>;

    closed spec fn view(&self) -> Seq<(Seq<char>, FileNodeView)> {
        self.entries@.map_values(|e: (String, FileNode)| (e.0@, e.1@))
    }
}

impl FileTable {
    #[verifier::type_invariant]
    pub open spec fn well_formed(&self) -> bool {
        distinct_keys(self@)
    }

    /// The position of the entry for `key`, if there is one.
    pub open spec fn index_of(&self, key: Seq<char>) -> Option<int> {
        index_in(self@, key)
    }

    /// The node stored under `key`, if there is one.
    pub open spec fn lookup(&self, key: Seq<char>) -> Option<FileNodeView> {
        lookup_in(self@, key)
    }

    pub fn new() -> (r: FileTable)
        ensures
            r@ == Seq::<(Seq<char>, FileNodeView)>::empty(),
    {
        let r = FileTable { entries: Vec::new() };
        assert(r@ =~= Seq::<(Seq<char>, FileNodeView)>::empty());
        r
    }

    pub fn len(&self) -> (r: usize)
        ensures
            r == self@.len(),
    {
        self.entries.len()
    }

    /// The path of entry `i`.
    pub fn key_at(&self, i: usize) -> (r: &String)
        requires
            i < self@.len(),
        ensures
            r@ == self@[i as int].0,
    {
        &self.entries[i].0
    }

    /// The node of entry `i`.
    pub fn node_at(&self, i: usize) -> (r: &FileNode)
        requires
            i < self@.len(),
        ensures
            r@ == self@[i as int].1,
    {
        &self.entries[i].1
    }

    fn find(&self, key: &str) -> (r: Option<usize>)
        ensures
            match r {
                Some(i) => i < self@.len() && self@[i as int].0 == key@ && self.index_of(key@) == Some(i as int),
                None => self.index_of(key@) is None,
            },
    {
        proof {
            use_type_invariant(self);
        }
        let k = crate::text::chars_of(key);
        let mut i: usize = 0;
        while i < self.entries.len()
            invariant
                i <= self@.len(),
                self@.len() == self.entries@.len(),
                distinct_keys(self@),
                k@ == key@,
                forall|j: int| 0 <= j < i ==> self@[j].0 != key@,
            decreases self@.len() - i,
        {
            let kc = crate::text::chars_of(self.entries[i].0.as_str());
            if crate::text::eq_chars(kc.as_slice(), k.as_slice()) {
                proof {
                    assert(self@[i as int].0 == self.entries@[i as int].0@);
                    let c = choose|j: int| 0 <= j < self@.len() && self@[j].0 == key@;
                    assert(c == i);
                }
                return Some(i);
            }
            i = i + 1;
        }
        None
    }

    /// The node stored under `key`.
    pub fn get(&self, key: &str) -> (r: Option<&FileNode>)
        ensures
            match r {
                Some(n) => self.lookup(key@) == Some(n@),
                None => self.lookup(key@) is None,
            },
    {
        match self.find(key) {
            Some(i) => Some(&self.entries[i].1),
            None => None,
        }
    }

    /// Whether a node is stored under `key`.
    pub fn contains_key(&self, key: &str) -> (r: bool)
        ensures
            r == (self.lookup(key@) is Some),
    {
        self.find(key).is_some()
    }

    /// Stores `node` under `key`: in place of the node stored there, whose
    /// entry keeps its position, or as a new last entry.  Returns the node
    /// that was replaced.
    pub fn insert(&mut self, key: String, node: FileNode) -> (r: Option<FileNode>)
        ensures
            match old(self).index_of(key@) {
                Some(i) => final(self)@ == old(self)@.update(i, (key@, node@)) && (r matches Some(o) && o@ == old(self)@[i].1),
                None => final(self)@ == old(self)@.push((key@, node@)) && r is None,
            },
    {
        let ghost before = self@;
        proof {
            use_type_invariant(&*self);
        }
        let found = self.find(key.as_str());
        let mut entries: Vec<(String, FileNode)> = Vec::new();
        std::mem::swap(&mut entries, &mut self.entries);
        assert(entries@.map_values(|e: (String, FileNode)| (e.0@, e.1@)) == before);
        match found {
            Some(i) => {
                let (_, old_node) = entries.remove(i);
                let ghost mid = entries@;
                entries.insert(i, (key, node));
                let ghost after = entries@.map_values(|e: (String, FileNode)| (e.0@, e.1@));
                assert(after =~= before.update(i as int, (key@, node@)));
                assert(distinct_keys(after)) by {
                    assert forall|a: int, b: int| 0 <= a < after.len() && 0 <= b < after.len() && a != b implies after[a].0 != after[b].0 by {
                        if a != i && b != i {
                            assert(after[a] == before[a]);
                            assert(after[b] == before[b]);
                        } else if a == i {
                            assert(after[b] == before[b]);
                            assert(before[i as int].0 == key@);
                        } else {
                            assert(after[a] == before[a]);
                            assert(before[i as int].0 == key@);
                        }
                    }
                }
                self.entries = entries;
                Some(old_node)
            },
            None => {
                entries.push((key, node));
                let ghost after = entries@.map_values(|e: (String, FileNode)| (e.0@, e.1@));
                assert(after =~= before.push((key@, node@)));
                assert(distinct_keys(after)) by {
                    assert forall|a: int, b: int| 0 <= a < after.len() && 0 <= b < after.len() && a != b implies after[a].0 != after[b].0 by {
                        if a < before.len() && b < before.len() {
                            assert(after[a] == before[a]);
                            assert(after[b] == before[b]);
                        } else if a < before.len() {
                            assert(after[a] == before[a]);
                        } else {
                            assert(after[b] == before[b]);
                        }
                    }
                }
                self.entries = entries;
                None
            },
        }
    }

    /// Replaces what entry `i` depends on.
    pub fn set_depends_on(&mut self, i: usize, deps: Vec<String>)
        requires
            i < old(self)@.len(),
        ensures
            final(self)@.len() == old(self)@.len(),
            forall|j: int| 0 <= j < old(self)@.len() && j != i ==> final(self)@[j] == old(self)@[j],
            final(self)@[i as int].0 == old(self)@[i as int].0,
            final(self)@[i as int].1 == (FileNodeView { depends_on: strs(deps@), ..old(self)@[i as int].1 }),
    {
        let ghost before = self@;
        proof {
            use_type_invariant(&*self);
        }
        let mut entries: Vec<(String, FileNode)> = Vec::new();
        std::mem::swap(&mut entries, &mut self.entries);
        assert(entries@.map_values(|e: (String, FileNode)| (e.0@, e.1@)) == before);
        let (key, mut node) = entries.remove(i);
        node.depends_on = deps;
        entries.insert(i, (key, node));
        let ghost after = entries@.map_values(|e: (String, FileNode)| (e.0@, e.1@));
        assert(forall|j: int| 0 <= j < before.len() && j != i ==> after[j] == before[j]);
        assert(after.len() == before.len());
        assert(distinct_keys(after)) by {
            assert forall|a: int, b: int| 0 <= a < after.len() && 0 <= b < after.len() && a != b implies after[a].0 != after[b].0 by {
                assert(after[a].0 == before[a].0);
                assert(after[b].0 == before[b].0);
            }
        }
        self.entries = entries;
    }
}


// ---------------------------------------------------------------------------
// The reverse index
// ---------------------------------------------------------------------------

/// `fp` once for each occurrence of `d` among `deps`.
pub open spec fn marks(fp: Seq<char>, deps: Seq<Seq<char>>, d: Seq<char>) -> Seq<Seq<char>>
    decreases deps.len(),
{
    if deps.len() == 0 {
        Seq::empty()
    } else {
        marks(fp, deps.drop_last(), d) + if deps.last() == d {
            seq![fp]
        } else {
            Seq::empty()
        }
    }
}

/// The files among `es` that depend on `d`, in order, each once per
/// occurrence of `d` in its dependency list.
pub open spec fn dependents_in(es: Seq<(Seq<char>, FileNodeView)>, d: Seq<char>) -> Seq<Seq<char>>
    decreases es.len(),
{
    if es.len() == 0 {
        Seq::empty()
    } else {
        dependents_in(es.drop_last(), d) + marks(es.last().0, es.last().1.depends_on, d)
    }
}

/// No two strings are the same text.
pub open spec fn distinct_strs(keys: Seq<String>) -> bool {
    forall|i: int, j: int| 0 <= i < keys.len() && 0 <= j < keys.len() && i != j ==> keys[i]@ != keys[j]@
}

/// The list filed under `d`, or nothing.
pub open spec fn list_under(keys: Seq<String>, lists: Seq<Vec<String>>, d: Seq<char>) -> Seq<Seq<char>> {
    if exists|j: int| 0 <= j < keys.len() && keys[j]@ == d {
        strs(lists[choose|j: int| 0 <= j < keys.len() && keys[j]@ == d]@)
    } else {
        Seq::empty()
    }
}

proof fn lemma_list_under_at(keys: Seq<String>, lists: Seq<Vec<String>>, d: Seq<char>, j: int)
    requires
        distinct_strs(keys),
        0 <= j < keys.len(),
        keys[j]@ == d,
    ensures
        list_under(keys, lists, d) == strs(lists[j]@),
{
    let c = choose|q: int| 0 <= q < keys.len() && keys[q]@ == d;
    assert(c == j);
}

/// All the texts of the lists, in order.
pub open spec fn concat_lists(lists: Seq<Vec<String>>) -> Seq<Seq<char>>
    decreases lists.len(),
{
    if lists.len() == 0 {
        Seq::empty()
    } else {
        concat_lists(lists.drop_last()) + strs(lists.last()@)
    }
}

proof fn lemma_concat_lists_contains(lists: Seq<Vec<String>>, j: int, x: Seq<char>)
    requires
        0 <= j < lists.len(),
        strs(lists[j]@).contains(x),
    ensures
        concat_lists(lists).contains(x),
    decreases lists.len(),
{
    let pre = concat_lists(lists.drop_last());
    let last = strs(lists.last()@);
    if j < lists.len() - 1 {
        assert(lists.drop_last()[j] == lists[j]);
        lemma_concat_lists_contains(lists.drop_last(), j, x);
        let k = choose|k: int| 0 <= k < pre.len() && pre[k] == x;
        assert((pre + last)[k] == x);
    } else {
        let k = choose|k: int| 0 <= k < last.len() && last[k] == x;
        assert((pre + last)[pre.len() + k] == x);
    }
}

proof fn lemma_concat_lists_len_update(lists: Seq<Vec<String>>, q: int, v: Vec<String>)
    requires
        0 <= q < lists.len(),
    ensures
        concat_lists(lists.update(q, v)).len() == concat_lists(lists).len() - lists[q]@.len() + v@.len(),
    decreases lists.len(),
{
    let u = lists.update(q, v);
    if q == lists.len() - 1 {
        assert(u.drop_last() =~= lists.drop_last());
    } else {
        assert(u.drop_last() =~= lists.drop_last().update(q, v));
        lemma_concat_lists_len_update(lists.drop_last(), q, v);
        assert(u.last() == lists.last());
    }
}

/// For each file path, the files that depend on it.
pub struct ReverseIndex {
    keys: Vec<String>,
    lists: Vec<Vec<String>>,
}

impl ReverseIndex {
    #[verifier::type_invariant]
    closed spec fn well_formed(&self) -> bool {
        &&& self.keys@.len() == self.lists@.len()
        &&& distinct_strs(self.keys@)
    }

    /// The files recorded as depending on `d`.
    pub closed spec fn lookup(&self, d: Seq<char>) -> Seq<Seq<char>> {
        list_under(self.keys@, self.lists@, d)
    }

    /// Every file recorded as a dependent of some file.
    pub closed spec fn all_values(&self) -> Seq<Seq<char>> {
        concat_lists(self.lists@)
    }

    proof fn lemma_lookup_in_values(&self, d: Seq<char>, x: Seq<char>)
        requires
            self.keys@.len() == self.lists@.len(),
            distinct_strs(self.keys@),
            self.lookup(d).contains(x),
        ensures
            self.all_values().contains(x),
    {
        if exists|j: int| 0 <= j < self.keys@.len() && self.keys@[j]@ == d {
            let j = choose|j: int| 0 <= j < self.keys@.len() && self.keys@[j]@ == d;
            lemma_list_under_at(self.keys@, self.lists@, d, j);
            lemma_concat_lists_contains(self.lists@, j, x);
        }
    }

    pub fn new() -> (r: ReverseIndex)
        ensures
            forall|d: Seq<char>| #[trigger] r.lookup(d) == Seq::<Seq<char>>::empty(),
            r.all_values().len() == 0,
    {
        ReverseIndex { keys: Vec::new(), lists: Vec::new() }
    }

    /// The files recorded as depending on `d`.
    pub fn get(&self, d: &str) -> (r: Option<&Vec<String>>)
        ensures
            match r {
                Some(l) => strs(l@) == self.lookup(d@),
                None => self.lookup(d@) == Seq::<Seq<char>>::empty(),
            },
    {
        proof {
            use_type_invariant(self);
        }
        let dc = crate::text::chars_of(d);
        let mut j: usize = 0;
        while j < self.keys.len()
            invariant
                j <= self.keys@.len(),
                self.keys@.len() == self.lists@.len(),
                distinct_strs(self.keys@),
                dc@ == d@,
                forall|q: int| 0 <= q < j ==> self.keys@[q]@ != d@,
            decreases self.keys@.len() - j,
        {
            let kc = crate::text::chars_of(self.keys[j].as_str());
            if crate::text::eq_chars(kc.as_slice(), dc.as_slice()) {
                proof {
                    lemma_list_under_at(self.keys@, self.lists@, d@, j as int);
                }
                return Some(&self.lists[j]);
            }
            j = j + 1;
        }
        None
    }

    /// The index of what the files of `files` depend on.
    pub fn build(files: &FileTable) -> (r: ReverseIndex)
        ensures
            forall|d: Seq<char>| #[trigger] r.lookup(d) == dependents_in(files@, d),
            r.all_values().len() == edges_in(files@),
    {
        let ghost es = files@;
        let mut keys: Vec<String> = Vec::new();
        let mut lists: Vec<Vec<String>> = Vec::new();
        let mut i: usize = 0;
        assert(es.take(0) =~= Seq::<(Seq<char>, FileNodeView)>::empty());
        while i < files.len()
            invariant
                es == files@,
                i <= es.len(),
                keys@.len() == lists@.len(),
                distinct_strs(keys@),
                forall|d: Seq<char>| #[trigger] list_under(keys@, lists@, d) == dependents_in(es.take(i as int), d),
                concat_lists(lists@).len() == edges_in(es.take(i as int)),
            decreases es.len() - i,
        {
            let fp = files.key_at(i);
            let node = files.node_at(i);
            let deps = &node.depends_on;
            let ghost dv = strs(deps@);
            let mut j: usize = 0;
            proof {
                assert(dv.take(0) =~= Seq::<Seq<char>>::empty());
                assert forall|d: Seq<char>| #[trigger] list_under(keys@, lists@, d) == dependents_in(es.take(i as int), d)
                    + marks(fp@, dv.take(0), d) by {
                    assert(dependents_in(es.take(i as int), d) + Seq::<Seq<char>>::empty() =~= dependents_in(es.take(i as int), d));
                }
            }
            while j < deps.len()
                invariant
                    es == files@,
                    i < es.len(),
                    fp@ == es[i as int].0,
                    dv == es[i as int].1.depends_on,
                    dv == strs(deps@),
                    j <= dv.len(),
                    keys@.len() == lists@.len(),
                    distinct_strs(keys@),
                    forall|d: Seq<char>| #[trigger] list_under(keys@, lists@, d) == dependents_in(es.take(i as int), d)
                        + marks(fp@, dv.take(j as int), d),
                    concat_lists(lists@).len() == edges_in(es.take(i as int)) + j,
                decreases dv.len() - j,
            {
                let dep = &deps[j];
                let ghost old_keys = keys@;
                let ghost old_lists = lists@;
                let dc = crate::text::chars_of(dep.as_str());
                let mut q: usize = 0;
                while q < keys.len() && !crate::text::eq_str(dc.as_slice(), keys[q].as_str())
                    invariant
                        q <= keys@.len(),
                        dc@ == dep@,
                        forall|z: int| 0 <= z < q ==> keys@[z]@ != dep@,
                    decreases keys@.len() - q,
                {
                    q = q + 1;
                }
                if q < keys.len() {
                    lists[q].push(fp.clone());
                    proof {
                        assert(lists@ =~= old_lists.update(q as int, lists@[q as int]));
                        lemma_concat_lists_len_update(old_lists, q as int, lists@[q as int]);
                        assert forall|d: Seq<char>| #[trigger] list_under(keys@, lists@, d) == list_under(old_keys, old_lists, d)
                            + if d == dep@ { seq![fp@] } else { Seq::<Seq<char>>::empty() } by {
                            if d == dep@ {
                                lemma_list_under_at(keys@, lists@, d, q as int);
                                lemma_list_under_at(old_keys, old_lists, d, q as int);
                                assert(strs(lists@[q as int]@) =~= strs(old_lists[q as int]@).push(fp@));
                            } else {
                                if exists|z: int| 0 <= z < keys@.len() && keys@[z]@ == d {
                                    let z = choose|z: int| 0 <= z < keys@.len() && keys@[z]@ == d;
                                    lemma_list_under_at(keys@, lists@, d, z);
                                    lemma_list_under_at(old_keys, old_lists, d, z);
                                    assert(lists@[z] == old_lists[z]);
                                }
                                assert(list_under(old_keys, old_lists, d) + Seq::<Seq<char>>::empty() =~= list_under(old_keys, old_lists, d));
                            }
                        }
                    }
                } else {
                    let mut l: Vec<String> = Vec::new();
                    l.push(fp.clone());
                    keys.push(dep.clone());
                    lists.push(l);
                    proof {
                        assert(lists@.drop_last() =~= old_lists);
                        let n = old_keys.len() as int;
                        assert(keys@[n]@ == dep@);
                        assert(distinct_strs(keys@)) by {
                            assert forall|a: int, b: int| 0 <= a < keys@.len() && 0 <= b < keys@.len() && a != b implies keys@[a]@ != keys@[b]@ by {
                                if a < n && b < n {
                                    assert(keys@[a] == old_keys[a]);
                                    assert(keys@[b] == old_keys[b]);
                                } else if a < n {
                                    assert(keys@[a] == old_keys[a]);
                                } else {
                                    assert(keys@[b] == old_keys[b]);
                                }
                            }
                        }
                        assert forall|d: Seq<char>| #[trigger] list_under(keys@, lists@, d) == list_under(old_keys, old_lists, d)
                            + if d == dep@ { seq![fp@] } else { Seq::<Seq<char>>::empty() } by {
                            if d == dep@ {
                                lemma_list_under_at(keys@, lists@, d, n);
                                assert(!(exists|z: int| 0 <= z < old_keys.len() && old_keys[z]@ == d));
                                assert(strs(lists@[n]@) =~= seq![fp@]);
                                assert(Seq::<Seq<char>>::empty() + seq![fp@] =~= seq![fp@]);
                            } else {
                                if exists|z: int| 0 <= z < keys@.len() && keys@[z]@ == d {
                                    let z = choose|z: int| 0 <= z < keys@.len() && keys@[z]@ == d;
                                    assert(z < n);
                                    lemma_list_under_at(keys@, lists@, d, z);
                                    lemma_list_under_at(old_keys, old_lists, d, z);
                                    assert(lists@[z] == old_lists[z]);
                                } else {
                                    assert forall|z: int| 0 <= z < old_keys.len() implies old_keys[z]@ != d by {
                                        assert(keys@[z] == old_keys[z]);
                                    }
                                }
                                assert(list_under(old_keys, old_lists, d) + Seq::<Seq<char>>::empty() =~= list_under(old_keys, old_lists, d));
                            }
                        }
                    }
                }
                proof {
                    assert(dv.take(j + 1).drop_last() =~= dv.take(j as int));
                    assert(dv.take(j + 1).last() == dep@);
                    assert forall|d: Seq<char>| #[trigger] list_under(keys@, lists@, d) == dependents_in(es.take(i as int), d)
                        + marks(fp@, dv.take(j + 1), d) by {
                        assert(marks(fp@, dv.take(j + 1), d) == marks(fp@, dv.take(j as int), d) + if d == dep@ {
                            seq![fp@]
                        } else {
                            Seq::<Seq<char>>::empty()
                        });
                        assert(dependents_in(es.take(i as int), d) + marks(fp@, dv.take(j as int), d) + (if d == dep@ {
                            seq![fp@]
                        } else {
                            Seq::<Seq<char>>::empty()
                        }) =~= dependents_in(es.take(i as int), d) + marks(fp@, dv.take(j + 1), d));
                    }
                }
                j = j + 1;
            }
            proof {
                assert(dv.take(j as int) =~= dv);
                assert(es.take(i + 1).drop_last() =~= es.take(i as int));
                assert(edges_in(es.take(i + 1)) == edges_in(es.take(i as int)) + dv.len());
                assert(es.take(i + 1).last() == es[i as int]);
                assert forall|d: Seq<char>| #[trigger] list_under(keys@, lists@, d) == dependents_in(es.take(i + 1), d) by {}
            }
            i = i + 1;
        }
        proof {
            assert(es.take(i as int) =~= es);
        }
        ReverseIndex { keys, lists }
    }
}


// ---------------------------------------------------------------------------
// Entry points and uses in source
// ---------------------------------------------------------------------------

/// File names that mark the entry point of a program or package.
pub open spec fn entry_point_names() -> Seq<Seq<char>> {
    seq![
        "main.rs"@, "lib.rs"@, "mod.rs"@,
        "main.ts"@, "main.tsx"@, "main.js"@, "main.jsx"@,
        "index.ts"@, "index.tsx"@, "index.js"@, "index.jsx"@,
        "App.tsx"@, "App.ts"@, "App.js"@, "App.jsx"@,
        "app.tsx"@, "app.ts"@, "app.js"@, "app.jsx"@,
        "main.go"@, "main.py"@, "main.java"@,
        "__init__.py"@,
        "main.c"@, "main.cpp"@,
    ]
}

/// The file is an entry point: its file name is one of `entry_point_names`.
pub open spec fn entry_point(file_path: Seq<char>) -> bool {
    entry_point_names().contains(
        match path_file_name(file_path) {
            Some(n) => n,
            None => Seq::empty(),
        },
    )
}

fn entry_point_names_exec() -> (r: Vec<&'static str>)
    ensures
        r@.map_values(|s: &str| s@) == entry_point_names(),
{
    let r = vec![
        "main.rs", "lib.rs", "mod.rs",
        "main.ts", "main.tsx", "main.js", "main.jsx",
        "index.ts", "index.tsx", "index.js", "index.jsx",
        "App.tsx", "App.ts", "App.js", "App.jsx",
        "app.tsx", "app.ts", "app.js", "app.jsx",
        "main.go", "main.py", "main.java",
        "__init__.py",
        "main.c", "main.cpp",
    ];
    assert(r@.map_values(|s: &str| s@) =~= entry_point_names());
    r
}

/// Whether the file is an entry point (`main.rs`, `index.ts`, `__init__.py`, ...).
pub fn is_entry_point(file_path: &str) -> (r: bool)
    ensures
        r == entry_point(file_path@),
{
    let name = match file_name_of(file_path) {
        Some(n) => crate::text::chars_of(n.as_str()),
        None => Vec::new(),
    };
    let names = entry_point_names_exec();
    let ghost ns = names@.map_values(|s: &str| s@);
    let mut i: usize = 0;
    while i < names.len()
        invariant
            i <= names@.len(),
            ns == names@.map_values(|s: &str| s@),
            ns == entry_point_names(),
            name@ == match path_file_name(file_path@) {
                Some(n) => n,
                None => Seq::<char>::empty(),
            },
            forall|j: int| 0 <= j < i ==> ns[j] != name@,
        decreases names@.len() - i,
    {
        if crate::text::eq_str(name.as_slice(), names[i]) {
            assert(ns[i as int] == name@);
            return true;
        }
        i = i + 1;
    }
    false
}

/// Some line of `source` other than line `def_line` (counting from one)
/// contains `name`.
pub open spec fn used_elsewhere(source: Seq<char>, name: Seq<char>, def_line: nat) -> bool {
    exists|i: int| 0 <= i < lines(source).len() && i + 1 != def_line && contains_text(#[trigger] lines(source)[i], name)
}

/// Whether `name` occurs on a line of `source` other than `def_line`.
pub fn symbol_used_in_source(source: &str, name: &str, def_line: usize) -> (r: bool)
    ensures
        r == used_elsewhere(source@, name@, def_line as nat),
{
    let sc = crate::text::chars_of(source);
    let nc = crate::text::chars_of(name);
    let ls = crate::text::lines_exec(sc.as_slice());
    let ghost lv = texts(ls@);
    let mut i: usize = 0;
    while i < ls.len()
        invariant
            i <= ls@.len(),
            lv == texts(ls@),
            lv == lines(source@),
            nc@ == name@,
            forall|j: int| 0 <= j < i && j + 1 != def_line ==> !contains_text(lv[j], name@),
        decreases ls@.len() - i,
    {
        if i + 1 != def_line && crate::text::contains_exec(ls[i].as_slice(), nc.as_slice()) {
            assert(contains_text(lv[i as int], name@));
            return true;
        }
        i = i + 1;
    }
    false
}

// ---------------------------------------------------------------------------
// The graph
// ---------------------------------------------------------------------------

/// A file that no other file depends on.
#[derive(Debug, Clone)]
pub struct OrphanFile {
    pub file_path: String,
    pub symbols: Vec<Symbol>,
    pub depends_on: Vec<String>,
}

pub struct OrphanView {
    pub file_path: Seq<char>,
    pub symbols: Seq<SymbolView>,
    pub depends_on: Seq<Seq<char>>,
}

impl View for OrphanFile {
    type V = OrphanView;

    open spec fn view(&self) -> OrphanView {
        OrphanView { file_path: self.file_path@, symbols: syms(self.symbols@), depends_on: strs(self.depends_on@) }
    }
}

/// A symbol that nothing seems to use.
#[derive(Debug, Clone)]
pub struct UnusedSymbol {
    pub file_path: String,
    pub symbol: Symbol,
}

pub struct UnusedView {
    pub file_path: Seq<char>,
    pub symbol: SymbolView,
}

impl View for UnusedSymbol {
    type V = UnusedView;

    open spec fn view(&self) -> UnusedView {
        UnusedView { file_path: self.file_path@, symbol: self.symbol@ }
    }
}

impl OrphanFile {
    pub fn duplicate(&self) -> (r: OrphanFile)
        ensures
            r@ == self@,
    {
        OrphanFile {
            file_path: self.file_path.clone(),
            symbols: copy_symbols(&self.symbols),
            depends_on: copy_strings(&self.depends_on),
        }
    }
}

impl UnusedSymbol {
    pub fn duplicate(&self) -> (r: UnusedSymbol)
        ensures
            r@ == self@,
    {
        UnusedSymbol { file_path: self.file_path.clone(), symbol: self.symbol.duplicate() }
    }
}

/// The files of a code base and what depends on what.
pub struct DependencyGraph {
    pub files: FileTable,
    pub reverse: ReverseIndex,
}

/// The total number of dependency edges of the entries `es`.
pub open spec fn edges_in(es: Seq<(Seq<char>, FileNodeView)>) -> nat
    decreases es.len(),
{
    if es.len() == 0 {
        0
    } else {
        edges_in(es.drop_last()) + es.last().1.depends_on.len()
    }
}

impl DependencyGraph {
    /// The files recorded, when the reverse index was last built, as
    /// depending on `d`.
    pub open spec fn dependents_of(&self, d: Seq<char>) -> Seq<Seq<char>> {
        self.reverse.lookup(d)
    }

    /// The entries of the graph's file table.
    pub open spec fn entries(&self) -> Seq<(Seq<char>, FileNodeView)> {
        self.files@
    }

    /// The reverse index agrees with the files' dependency lists, and holds
    /// one record for each dependency edge.
    pub open spec fn indexed(&self) -> bool {
        &&& forall|d: Seq<char>| #[trigger] self.dependents_of(d) == dependents_in(self.entries(), d)
        &&& self.reverse.all_values().len() == edges_in(self.entries())
    }

    /// An empty graph.
    pub fn new() -> (r: Self)
        ensures
            r.entries() == Seq::<(Seq<char>, FileNodeView)>::empty(),
            r.indexed(),
    {
        let r = DependencyGraph { files: FileTable::new(), reverse: ReverseIndex::new() };
        assert forall|d: Seq<char>| #[trigger] r.dependents_of(d) == dependents_in(r.entries(), d) by {}
        r
    }

    /// Rebuilds the index of which files depend on each file.
    pub fn build_reverse_index(&mut self)
        ensures
            final(self).entries() == old(self).entries(),
            final(self).indexed(),
    {
        self.reverse = ReverseIndex::build(&self.files);
    }

    /// The node of a file.
    pub fn deps(&self, file_path: &str) -> (r: Option<&FileNode>)
        ensures
            match r {
                Some(n) => lookup_in(self.entries(), file_path@) == Some(n@),
                None => lookup_in(self.entries(), file_path@) is None,
            },
    {
        self.files.get(file_path)
    }

    /// The files that depend on a file.
    pub fn dependents(&self, file_path: &str) -> (r: Vec<&str>)
        ensures
            r@.map_values(|s: &str| s@) == self.dependents_of(file_path@),
    {
        let mut out: Vec<&str> = Vec::new();
        match self.reverse.get(file_path) {
            Some(l) => {
                let mut i: usize = 0;
                while i < l.len()
                    invariant
                        i <= l@.len(),
                        out@.len() == i,
                        out@.map_values(|s: &str| s@) == strs(l@).take(i as int),
                    decreases l@.len() - i,
                {
                    let ghost before = out@;
                    out.push(l[i].as_str());
                    proof {
                        assert forall|k: int| 0 <= k <= i implies out@.map_values(|s: &str| s@)[k] == strs(l@)[k] by {
                            if k < i {
                                assert(out@[k] == before[k]);
                                assert(before.map_values(|s: &str| s@)[k] == strs(l@).take(i as int)[k]);
                            }
                        }
                    }
                    i = i + 1;
                    assert(out@.map_values(|s: &str| s@) =~= strs(l@).take(i as int));
                }
                assert(strs(l@).take(i as int) =~= strs(l@));
            },
            None => {
                assert(out@.map_values(|s: &str| s@) =~= Seq::<Seq<char>>::empty());
            },
        }
        out
    }

    /// The number of files.
    pub fn file_count(&self) -> (r: usize)
        ensures
            r == self.entries().len(),
    {
        self.files.len()
    }

    /// The number of dependency edges, or `None` when it does not fit in a
    /// `usize`.
    pub fn edge_count_checked(&self) -> (r: Option<usize>)
        ensures
            match r {
                Some(n) => n == edges_in(self.entries()),
                None => edges_in(self.entries()) > usize::MAX,
            },
    {
        let ghost es = self.files@;
        let mut total: usize = 0;
        let mut i: usize = 0;
        assert(es.take(0) =~= Seq::<(Seq<char>, FileNodeView)>::empty());
        while i < self.files.len()
            invariant
                es == self.files@,
                i <= es.len(),
                total == edges_in(es.take(i as int)),
            decreases es.len() - i,
        {
            proof {
                assert(es.take(i + 1).drop_last() =~= es.take(i as int));
                lemma_edges_prefix(es, i + 1);
            }
            match total.checked_add(self.files.node_at(i).depends_on.len()) {
                Some(t) => {
                    total = t;
                },
                None => {
                    return None;
                },
            }
            i = i + 1;
        }
        assert(es.take(i as int) =~= es);
        Some(total)
    }

    /// The number of dependency edges.
    pub fn edge_count(&self) -> (r: usize)
        requires
            edges_in(self.entries()) <= usize::MAX,
        ensures
            r == edges_in(self.entries()),
    {
        let ghost es = self.files@;
        let mut total: usize = 0;
        let mut i: usize = 0;
        assert(es.take(0) =~= Seq::<(Seq<char>, FileNodeView)>::empty());
        while i < self.files.len()
            invariant
                es == self.files@,
                i <= es.len(),
                edges_in(es) <= usize::MAX,
                total == edges_in(es.take(i as int)),
            decreases es.len() - i,
        {
            proof {
                assert(es.take(i + 1).drop_last() =~= es.take(i as int));
                lemma_edges_prefix(es, i + 1);
            }
            total = total + self.files.node_at(i).depends_on.len();
            i = i + 1;
        }
        assert(es.take(i as int) =~= es);
        total
    }
}

/// Whether `d` is among the texts of `v`.
fn contains_string(v: &Vec<String>, d: &str) -> (r: bool)
    ensures
        r == strs(v@).contains(d@),
{
    let dc = crate::text::chars_of(d);
    let mut i: usize = 0;
    while i < v.len()
        invariant
            i <= v@.len(),
            dc@ == d@,
            forall|j: int| 0 <= j < i ==> v@[j]@ != d@,
        decreases v@.len() - i,
    {
        if crate::text::eq_str(dc.as_slice(), v[i].as_str()) {
            assert(strs(v@)[i as int] == d@);
            return true;
        }
        i = i + 1;
    }
    assert forall|j: int| 0 <= j < strs(v@).len() implies strs(v@)[j] != d@ by {
        assert(strs(v@)[j] == v@[j]@);
    }
    false
}

impl DependencyGraph {
    /// `p` is a chain of files each recorded as depending on the one before.
    pub open spec fn is_chain(&self, p: Seq<Seq<char>>) -> bool {
        &&& p.len() >= 1
        &&& forall|k: int| 0 <= k < p.len() - 1 ==> #[trigger] self.dependents_of(p[k]).contains(p[k + 1])
    }

    /// `b` depends on `a` through a chain of recorded dependencies.
    pub open spec fn reaches(&self, a: Seq<char>, b: Seq<char>) -> bool {
        exists|p: Seq<Seq<char>>| self.is_chain(p) && p[0] == a && p.last() == b
    }

    proof fn lemma_reaches_step(&self, a: Seq<char>, b: Seq<char>, c: Seq<char>)
        requires
            self.reaches(a, b),
            self.dependents_of(b).contains(c),
        ensures
            self.reaches(a, c),
    {
        let p = choose|p: Seq<Seq<char>>| self.is_chain(p) && p[0] == a && p.last() == b;
        let q = p.push(c);
        assert forall|k: int| 0 <= k < q.len() - 1 implies #[trigger] self.dependents_of(q[k]).contains(q[k + 1]) by {
            if k < p.len() - 1 {
                assert(q[k] == p[k] && q[k + 1] == p[k + 1]);
            } else {
                assert(q[k] == b && q[k + 1] == c);
            }
        }
        assert(self.is_chain(q) && q[0] == a && q.last() == c);
    }

    proof fn lemma_closed_chain(&self, vis: Seq<Seq<char>>, p: Seq<Seq<char>>)
        requires
            self.is_chain(p),
            vis.contains(p[0]),
            forall|x: Seq<char>, y: Seq<char>| vis.contains(x) && self.dependents_of(x).contains(y) ==> vis.contains(y),
        ensures
            vis.contains(p.last()),
        decreases p.len(),
    {
        if p.len() > 1 {
            let q = p.drop_last();
            assert forall|k: int| 0 <= k < q.len() - 1 implies #[trigger] self.dependents_of(q[k]).contains(q[k + 1]) by {
                assert(q[k] == p[k] && q[k + 1] == p[k + 1]);
            }
            self.lemma_closed_chain(vis, q);
            let k = p.len() - 2;
            assert(q.last() == p[k]);
            assert(self.dependents_of(p[k]).contains(p[k + 1]));
            assert(p[k + 1] == p.last());
        }
    }

    /// The files that depend on `file_path`, directly or through other files,
    /// sorted by path.
    pub fn impact(&self, file_path: &str) -> (r: Vec<String>)
        ensures
            crate::text::strictly_sorted(strs(r@)),
            forall|x: Seq<char>| strs(r@).contains(x) <==> (x != file_path@ && self.reaches(file_path@, x)),
    {
        proof {
            use_type_invariant(&self.reverse);
        }
        let ghost start = file_path@;
        let ghost universe = seq![start] + self.reverse.all_values();
        let mut vis: Vec<String> = Vec::new();
        vis.push(file_path.to_owned());
        proof {
            assert(strs(vis@) =~= seq![start]);
            let p = seq![start];
            assert(self.is_chain(p) && p[0] == start && p.last() == start);
            assert(universe[0] == start);
        }
        let mut head: usize = 0;
        while head < vis.len()
            invariant
                vis@.len() >= 1,
                vis@[0]@ == start,
                strs(vis@).no_duplicates(),
                head <= vis@.len(),
                self.reverse.keys@.len() == self.reverse.lists@.len(),
                distinct_strs(self.reverse.keys@),
                universe == seq![start] + self.reverse.all_values(),
                forall|k: int| 0 <= k < vis@.len() ==> self.reaches(start, #[trigger] strs(vis@)[k]),
                forall|k: int| 0 <= k < vis@.len() ==> universe.contains(#[trigger] strs(vis@)[k]),
                forall|k: int, y: Seq<char>|
                    0 <= k < head && #[trigger] self.dependents_of(strs(vis@)[k]).contains(y) ==> strs(vis@).contains(y),
            decreases universe.len() + 1 - head,
        {
            proof {
                let vs = strs(vis@);
                vs.unique_seq_to_set();
                universe.lemma_cardinality_of_set();
                assert(vs.to_set().subset_of(universe.to_set())) by {
                    assert forall|x: Seq<char>| vs.to_set().contains(x) implies universe.to_set().contains(x) by {
                        let k = choose|k: int| 0 <= k < vs.len() && vs[k] == x;
                        assert(universe.contains(vs[k]));
                    }
                }
                vstd::set_lib::lemma_len_subset(vs.to_set(), universe.to_set());
            }
            let cur = vis[head].clone();
            let ghost cv = cur@;
            assert(cv == strs(vis@)[head as int]);
            match self.reverse.get(cur.as_str()) {
                Some(l) => {
                    let mut j: usize = 0;
                    while j < l.len()
                        invariant
                            vis@.len() >= 1,
                            vis@[0]@ == start,
                            strs(vis@).no_duplicates(),
                            head < vis@.len(),
                            cv == strs(vis@)[head as int],
                            strs(l@) == self.dependents_of(cv),
                            self.reverse.keys@.len() == self.reverse.lists@.len(),
                distinct_strs(self.reverse.keys@),
                            universe == seq![start] + self.reverse.all_values(),
                            j <= l@.len(),
                            forall|k: int| 0 <= k < vis@.len() ==> self.reaches(start, #[trigger] strs(vis@)[k]),
                            forall|k: int| 0 <= k < vis@.len() ==> universe.contains(#[trigger] strs(vis@)[k]),
                            forall|k: int, y: Seq<char>|
                                0 <= k < head && #[trigger] self.dependents_of(strs(vis@)[k]).contains(y) ==> strs(vis@).contains(y),
                            forall|q: int| 0 <= q < j ==> strs(vis@).contains(#[trigger] strs(l@)[q]),
                        decreases l@.len() - j,
                    {
                        let d = &l[j];
                        let ghost old_vis = strs(vis@);
                        assert(strs(l@)[j as int] == d@);
                        if !contains_string(&vis, d.as_str()) {
                            vis.push(d.clone());
                            proof {
                                let nv = strs(vis@);
                                assert(nv =~= old_vis.push(d@));
                                assert forall|a: int, b: int| 0 <= a < nv.len() && 0 <= b < nv.len() && a != b implies nv[a] != nv[b] by {
                                    if a < old_vis.len() && b < old_vis.len() {
                                    } else if a < old_vis.len() {
                                        assert(old_vis.contains(nv[a]));
                                    } else {
                                        assert(old_vis.contains(nv[b]));
                                    }
                                }
                                assert(self.dependents_of(cv).contains(d@));
                                self.lemma_reaches_step(start, cv, d@);
                                self.reverse.lemma_lookup_in_values(cv, d@);
                                let k = choose|k: int| 0 <= k < self.reverse.all_values().len() && self.reverse.all_values()[k] == d@;
                                assert(universe[k + 1] == d@);
                                assert forall|k2: int| 0 <= k2 < nv.len() implies self.reaches(start, #[trigger] nv[k2]) && universe.contains(nv[k2]) by {
                                    if k2 < old_vis.len() {
                                        assert(nv[k2] == old_vis[k2]);
                                    }
                                }
                                assert forall|k2: int, y: Seq<char>|
                                    0 <= k2 < head && #[trigger] self.dependents_of(nv[k2]).contains(y) implies nv.contains(y) by {
                                    assert(nv[k2] == old_vis[k2]);
                                    assert(old_vis.contains(y));
                                    let z = choose|z: int| 0 <= z < old_vis.len() && old_vis[z] == y;
                                    assert(nv[z] == y);
                                }
                                assert forall|q: int| 0 <= q < j + 1 implies nv.contains(#[trigger] strs(l@)[q]) by {
                                    if q < j {
                                        let z = choose|z: int| 0 <= z < old_vis.len() && old_vis[z] == strs(l@)[q];
                                        assert(nv[z] == strs(l@)[q]);
                                    } else {
                                        assert(nv[old_vis.len() as int] == d@);
                                    }
                                }
                            }
                        }
                        j = j + 1;
                    }
                    proof {
                        assert forall|k: int, y: Seq<char>|
                            0 <= k < head + 1 && #[trigger] self.dependents_of(strs(vis@)[k]).contains(y) implies strs(vis@).contains(y) by {
                            if k == head {
                                let q = choose|q: int| 0 <= q < strs(l@).len() && strs(l@)[q] == y;
                            }
                        }
                    }
                },
                None => {
                    proof {
                        assert forall|k: int, y: Seq<char>|
                            0 <= k < head + 1 && #[trigger] self.dependents_of(strs(vis@)[k]).contains(y) implies strs(vis@).contains(y) by {
                            if k == head {
                                assert(self.dependents_of(cv) == Seq::<Seq<char>>::empty());
                            }
                        }
                    }
                },
            }
            head = head + 1;
        }
        // Every file that `start` reaches has been visited.
        proof {
            let vs = strs(vis@);
            assert forall|x: Seq<char>, y: Seq<char>| vs.contains(x) && self.dependents_of(x).contains(y) implies vs.contains(y) by {
                let k = choose|k: int| 0 <= k < vs.len() && vs[k] == x;
            }
            assert forall|x: Seq<char>| self.reaches(start, x) implies vs.contains(x) by {
                let p = choose|p: Seq<Seq<char>>| self.is_chain(p) && p[0] == start && p.last() == x;
                assert(vs[0] == start);
                self.lemma_closed_chain(vs, p);
            }
        }
        let mut texts: Vec<Vec<char>> = Vec::new();
        let mut nums: Vec<usize> = Vec::new();
        let mut m: usize = 1;
        while m < vis.len()
            invariant
                vis@.len() >= 1,
                vis@[0]@ == start,
                strs(vis@).no_duplicates(),
                forall|x: Seq<char>| self.reaches(start, x) ==> strs(vis@).contains(x),
                forall|q: int| 0 <= q < vis@.len() ==> self.reaches(start, #[trigger] strs(vis@)[q]),
                1 <= m <= vis@.len(),
                texts@.len() == m - 1,
                nums@.len() == m - 1,
                forall|q: int| 0 <= q < m - 1 ==> #[trigger] texts@[q]@ == vis@[q + 1]@ && nums@[q] == 0,
            decreases vis@.len() - m,
        {
            let t = crate::text::chars_of(vis[m].as_str());
            let ghost old_texts = texts@;
            let ghost old_nums = nums@;
            texts.push(t);
            nums.push(0);
            proof {
                assert forall|q: int| 0 <= q < m implies #[trigger] texts@[q]@ == vis@[q + 1]@ && nums@[q] == 0 by {
                    if q < m - 1 {
                        assert(texts@[q] == old_texts[q]);
                        assert(nums@[q] == old_nums[q]);
                    }
                }
            }
            m = m + 1;
        }
        let order = crate::order::sort_order(&texts, &nums);
        let mut out: Vec<String> = Vec::new();
        let mut k: usize = 0;
        while k < order.len()
            invariant
                is_perm(order@, texts@.len()),
                texts@.len() == vis@.len() - 1,
                k <= order@.len(),
                out@.len() == k,
                forall|q: int| 0 <= q < k ==> #[trigger] out@[q]@ == vis@[order@[q] + 1]@,
            decreases order@.len() - k,
        {
            out.push(vis[order[k] + 1].clone());
            k = k + 1;
        }
        proof {
            let vs = strs(vis@);
            let os = strs(out@);
            let keys = crate::order::keys_of(texts@, nums@);
            assert forall|a: int, b: int| 0 <= a < b < os.len() implies text_lt(#[trigger] os[a], #[trigger] os[b]) by {
                let x = order@[a] as int;
                let y = order@[b] as int;
                assert(crate::order::key_le(keys[x], keys[y]));
                assert(x != y);
                assert(vs[x + 1] != vs[y + 1]);
                assert(texts@[x]@ == vs[x + 1] && texts@[y]@ == vs[y + 1]);
            }
            assert forall|x: Seq<char>| os.contains(x) <==> (x != start && self.reaches(start, x)) by {
                if os.contains(x) {
                    let a = choose|a: int| 0 <= a < os.len() && os[a] == x;
                    let i = order@[a] as int + 1;
                    assert(vs[i] == x);
                    assert(vs[0] != vs[i]);
                }
                if x != start && self.reaches(start, x) {
                    let i = choose|i: int| 0 <= i < vs.len() && vs[i] == x;
                    assert(i != 0);
                    assert(order@.contains((i - 1) as usize));
                    let a = choose|a: int| 0 <= a < order@.len() && order@[a] == (i - 1) as usize;
                    assert(os[a] == vs[i]);
                }
            }
        }
        out
    }
}

/// The orphan record of an entry.
pub open spec fn orphan_view(e: (Seq<char>, FileNodeView)) -> OrphanView {
    OrphanView { file_path: e.0, symbols: e.1.symbols, depends_on: e.1.depends_on }
}

impl DependencyGraph {
    /// The entries of `es` that are orphans: not entry points, and recorded as
    /// depended on by no file.
    pub open spec fn orphans_among(&self, es: Seq<(Seq<char>, FileNodeView)>) -> Seq<OrphanView>
        decreases es.len(),
    {
        if es.len() == 0 {
            Seq::empty()
        } else {
            let rest = self.orphans_among(es.drop_last());
            let e = es.last();
            if !entry_point(e.0) && self.dependents_of(e.0).len() == 0 {
                rest.push(orphan_view(e))
            } else {
                rest
            }
        }
    }

    /// The files that nothing depends on, except entry points, sorted by path.
    pub fn orphans(&self) -> (r: Vec<OrphanFile>)
        ensures
            ({
                let c = self.orphans_among(self.entries());
                &&& r@.len() == c.len()
                &&& exists|p: Seq<usize>|
                    is_perm(p, c.len()) && forall|k: int| 0 <= k < r@.len() ==> #[trigger] r@[k]@ == c[p[k] as int]
                &&& forall|i: int, j: int| 0 <= i < j < r@.len() ==> text_lt(r@[i].file_path@, r@[j].file_path@)
            }),
            forall|k: int|
                0 <= k < r@.len() ==> self.dependents_of((#[trigger] r@[k]).file_path@).len() == 0 && !entry_point(
                    r@[k].file_path@,
                ),
    {
        proof {
            use_type_invariant(&self.files);
        }
        let ghost es = self.entries();
        let mut cands: Vec<OrphanFile> = Vec::new();
        let mut texts: Vec<Vec<char>> = Vec::new();
        let mut nums: Vec<usize> = Vec::new();
        let ghost mut src: Seq<int> = Seq::empty();
        let mut i: usize = 0;
        assert(es.take(0) =~= Seq::<(Seq<char>, FileNodeView)>::empty());
        while i < self.files.len()
            invariant
                es == self.entries(),
                es == self.files@,
                distinct_keys(es),
                i <= es.len(),
                cands@.map_values(|o: OrphanFile| o@) == self.orphans_among(es.take(i as int)),
                texts@.len() == cands@.len(),
                nums@.len() == cands@.len(),
                src.len() == cands@.len(),
                forall|m: int| 0 <= m < cands@.len() ==> #[trigger] texts@[m]@ == cands@[m].file_path@ && nums@[m] == 0,
                forall|m: int| 0 <= m < cands@.len() ==> 0 <= #[trigger] src[m] < i && cands@[m].file_path@ == es[src[m]].0,
                forall|a: int, b: int| 0 <= a < b < src.len() ==> src[a] < src[b],
            decreases es.len() - i,
        {
            let fp = self.files.key_at(i);
            let node = self.files.node_at(i);
            let count = match self.reverse.get(fp.as_str()) {
                Some(l) => l.len(),
                None => 0,
            };
            let ghost before = cands@;
            if !is_entry_point(fp.as_str()) && count == 0 {
                let o = OrphanFile {
                    file_path: fp.clone(),
                    symbols: copy_symbols(&node.symbols),
                    depends_on: copy_strings(&node.depends_on),
                };
                cands.push(o);
                texts.push(crate::text::chars_of(fp.as_str()));
                nums.push(0);
                proof {
                    src = src.push(i as int);
                }
            }
            proof {
                assert(es.take(i + 1).drop_last() =~= es.take(i as int));
                assert(es.take(i + 1).last() == es[i as int]);
                assert(cands@.map_values(|o: OrphanFile| o@) =~= self.orphans_among(es.take(i + 1)));
            }
            i = i + 1;
        }
        assert(es.take(i as int) =~= es);
        let order = crate::order::sort_order(&texts, &nums);
        let mut out: Vec<OrphanFile> = Vec::new();
        let ghost c = cands@.map_values(|o: OrphanFile| o@);
        let mut k: usize = 0;
        while k < order.len()
            invariant
                c == cands@.map_values(|o: OrphanFile| o@),
                is_perm(order@, cands@.len()),
                k <= order@.len(),
                out@.len() == k,
                forall|q: int| 0 <= q < k ==> #[trigger] out@[q]@ == c[order@[q] as int],
            decreases order@.len() - k,
        {
            let o = cands[order[k]].duplicate();
            out.push(o);
            k = k + 1;
        }
        proof {
            let keys = crate::order::keys_of(texts@, nums@);
            assert forall|a: int, b: int| 0 <= a < b < out@.len() implies text_lt(out@[a].file_path@, out@[b].file_path@) by {
                let x = order@[a] as int;
                let y = order@[b] as int;
                assert(crate::order::key_le(keys[x], keys[y]));
                assert(texts@[x]@ == cands@[x].file_path@);
                assert(texts@[y]@ == cands@[y].file_path@);
                assert(x != y);
                if src[x] < src[y] || src[y] < src[x] {
                    assert(es[src[x]].0 != es[src[y]].0);
                } else {
                    if x < y {
                        assert(src[x] < src[y]);
                    } else {
                        assert(src[y] < src[x]);
                    }
                }
                assert(out@[a]@ == c[x]);
                assert(out@[b]@ == c[y]);
            }
            crate::laws::law_orphans_are_not_entry_points(*self);
            assert forall|q: int| 0 <= q < out@.len() implies self.dependents_of((#[trigger] out@[q]).file_path@).len()
                == 0 && !entry_point(out@[q].file_path@) by {
                let x = order@[q] as int;
                assert(out@[q]@ == c[x]);
            }
        }
        out
    }
}

// ---------------------------------------------------------------------------
// Unused symbols
// ---------------------------------------------------------------------------

/// The definitions that an entry contributes: its path with each symbol.
pub open spec fn entry_defs(e: (Seq<char>, FileNodeView)) -> Seq<(Seq<char>, SymbolView)> {
    e.1.symbols.map_values(|s: SymbolView| (e.0, s))
}

/// Every definition of every file, in order.
pub open spec fn definitions(es: Seq<(Seq<char>, FileNodeView)>) -> Seq<(Seq<char>, SymbolView)>
    decreases es.len(),
{
    if es.len() == 0 {
        Seq::empty()
    } else {
        definitions(es.drop_last()) + entry_defs(es.last())
    }
}

/// The number of definitions named `name`.
pub open spec fn count_named(defs: Seq<(Seq<char>, SymbolView)>, name: Seq<char>) -> nat
    decreases defs.len(),
{
    if defs.len() == 0 {
        0
    } else {
        count_named(defs.drop_last(), name) + if defs.last().1.name == name {
            1nat
        } else {
            0nat
        }
    }
}

/// The separators after the last of which an import's final name starts.
pub open spec fn import_seps() -> Seq<char> {
    seq![':', '.', '/', '\\']
}

/// The names an import makes referenced: its final segment, that segment in
/// lowercase, and the whole import.
pub open spec fn import_names(imp: Seq<char>) -> Seq<Seq<char>> {
    let last = after_last(imp, import_seps());
    seq![last, lowercase(last), imp]
}

/// Some import of some file references `name`.
pub open spec fn imported(es: Seq<(Seq<char>, FileNodeView)>, name: Seq<char>) -> bool {
    exists|i: int, k: int|
        0 <= i < es.len() && 0 <= k < es[i].1.raw_imports.len() && #[trigger] import_names(es[i].1.raw_imports[k]).contains(name)
}

/// Names that are never reported as unused.
pub open spec fn exempt_name(name: Seq<char>) -> bool {
    name == "main"@ || name == "new"@ || name == "default"@ || name == "lib"@
}

impl DependencyGraph {
    /// Whether the definition of `sym` in the file `fp` counts as unused.
    pub open spec fn unused_def(&self, es: Seq<(Seq<char>, FileNodeView)>, fp: Seq<char>, source: Seq<char>, sym: SymbolView) -> bool {
        &&& !exempt_name(sym.name)
        &&& !imported(es, sym.name)
        &&& !imported(es, lowercase(sym.name))
        &&& count_named(definitions(es), sym.name) == 1
        &&& !entry_point(fp)
        &&& !used_elsewhere(source, sym.name, sym.line)
        &&& self.dependents_of(fp).len() == 0
    }

    /// The unused definitions among `defs`, in order.
    pub open spec fn unused_from(&self, es: Seq<(Seq<char>, FileNodeView)>, defs: Seq<(Seq<char>, SymbolView)>) -> Seq<UnusedView>
        decreases defs.len(),
    {
        if defs.len() == 0 {
            Seq::empty()
        } else {
            let rest = self.unused_from(es, defs.drop_last());
            let d = defs.last();
            let source = match lookup_in(es, d.0) {
                Some(n) => n.source,
                None => Seq::empty(),
            };
            if self.unused_def(es, d.0, source, d.1) {
                rest.push(UnusedView { file_path: d.0, symbol: d.1 })
            } else {
                rest
            }
        }
    }

    /// Whether exactly one definition is named `name`.
    fn defined_once(&self, name: &[char]) -> (r: bool)
        ensures
            r == (count_named(definitions(self.entries()), name@) == 1),
    {
        let ghost es = self.entries();
        let mut count: usize = 0;
        let mut i: usize = 0;
        assert(es.take(0) =~= Seq::<(Seq<char>, FileNodeView)>::empty());
        while i < self.files.len()
            invariant
                es == self.entries(),
                es == self.files@,
                i <= es.len(),
                count <= 2,
                count == if count_named(definitions(es.take(i as int)), name@) >= 2 {
                    2
                } else {
                    count_named(definitions(es.take(i as int)), name@)
                },
            decreases es.len() - i,
        {
            let node = self.files.node_at(i);
            let ghost e = es[i as int];
            let ghost base = definitions(es.take(i as int));
            let mut j: usize = 0;
            proof {
                assert(entry_defs(e).take(0) =~= Seq::<(Seq<char>, SymbolView)>::empty());
                assert(base + entry_defs(e).take(0) =~= base);
            }
            while j < node.symbols.len()
                invariant
                    e == es[i as int],
                    node@ == e.1,
                    j <= node.symbols@.len(),
                    count <= 2,
                    count == if count_named(base + entry_defs(e).take(j as int), name@) >= 2 {
                        2
                    } else {
                        count_named(base + entry_defs(e).take(j as int), name@)
                    },
                decreases node.symbols@.len() - j,
            {
                let nc = crate::text::chars_of(node.symbols[j].name.as_str());
                let hit = crate::text::eq_chars(nc.as_slice(), name);
                proof {
                    let a = base + entry_defs(e).take(j as int);
                    let b = base + entry_defs(e).take(j + 1);
                    assert(b.drop_last() =~= a);
                    assert(syms(node.symbols@)[j as int] == node.symbols@[j as int]@);
                    assert(b.last().1.name == node.symbols@[j as int].name@);
                }
                if hit && count < 2 {
                    count = count + 1;
                }
                j = j + 1;
            }
            proof {
                assert(entry_defs(e).take(j as int) =~= entry_defs(e));
                assert(es.take(i + 1).drop_last() =~= es.take(i as int));
                assert(es.take(i + 1).last() == e);
            }
            i = i + 1;
        }
        assert(es.take(i as int) =~= es);
        count == 1
    }

    /// Whether some import of some file references `name`.
    fn is_imported(&self, name: &[char]) -> (r: bool)
        ensures
            r == imported(self.entries(), name@),
    {
        let ghost es = self.entries();
        let seps = vec![':', '.', '/', '\\'];
        assert(seps@ =~= import_seps());
        let mut i: usize = 0;
        while i < self.files.len()
            invariant
                es == self.entries(),
                es == self.files@,
                seps@ == import_seps(),
                i <= es.len(),
                forall|a: int, k: int| 0 <= a < i && 0 <= k < es[a].1.raw_imports.len() ==> !#[trigger] import_names(es[a].1.raw_imports[k]).contains(name@),
            decreases es.len() - i,
        {
            let node = self.files.node_at(i);
            let mut k: usize = 0;
            while k < node.raw_imports.len()
                invariant
                    es == self.files@,
                    i < es.len(),
                    node@ == es[i as int].1,
                    seps@ == import_seps(),
                    k <= node.raw_imports@.len(),
                    forall|a: int, q: int| 0 <= a < i && 0 <= q < es[a].1.raw_imports.len() ==> !#[trigger] import_names(es[a].1.raw_imports[q]).contains(name@),
                    forall|q: int| 0 <= q < k ==> !#[trigger] import_names(es[i as int].1.raw_imports[q]).contains(name@),
                decreases node.raw_imports@.len() - k,
            {
                let imp = crate::text::chars_of(node.raw_imports[k].as_str());
                let last = crate::text::after_last_exec(imp.as_slice(), seps.as_slice());
                let lower = crate::text::lowercase_chars(last.as_slice());
                let hit = crate::text::eq_chars(last.as_slice(), name) || crate::text::eq_chars(lower.as_slice(), name)
                    || crate::text::eq_chars(imp.as_slice(), name);
                proof {
                    assert(strs(node.raw_imports@)[k as int] == imp@);
                    let ns = import_names(imp@);
                    assert(ns[0] == last@ && ns[1] == lower@ && ns[2] == imp@);
                    if !hit {
                        assert forall|z: int| 0 <= z < ns.len() implies ns[z] != name@ by {}
                    }
                }
                if hit {
                    assert(import_names(es[i as int].1.raw_imports[k as int]).contains(name@)) by {
                        let ns = import_names(imp@);
                        if last@ == name@ {
                            assert(ns[0] == name@);
                        } else if lower@ == name@ {
                            assert(ns[1] == name@);
                        } else {
                            assert(ns[2] == name@);
                        }
                    }
                    return true;
                }
                k = k + 1;
            }
            i = i + 1;
        }
        false
    }

    /// Symbols that seem unused: defined once, never named by an import,
    /// not used elsewhere in their file, in a file that is no entry point and
    /// that no file depends on; `main`, `new`, `default` and `lib` are never
    /// reported.  Sorted by file and line.
    pub fn unused_symbols(&self) -> (r: Vec<UnusedSymbol>)
        ensures
            ({
                let c = self.unused_from(self.entries(), definitions(self.entries()));
                &&& r@.len() == c.len()
                &&& exists|p: Seq<usize>|
                    is_perm(p, c.len()) && (forall|k: int| 0 <= k < r@.len() ==> #[trigger] r@[k]@ == c[p[k] as int])
                        && (forall|i: int, j: int|
                        #![trigger p[i], p[j]]
                        0 <= i < j < r@.len() && r@[i].file_path@ == r@[j].file_path@ && r@[i].symbol.line
                            == r@[j].symbol.line ==> p[i] < p[j])
                &&& forall|i: int, j: int|
                    0 <= i < j < r@.len() ==> crate::order::key_le(
                        (r@[i].file_path@, r@[i].symbol.line as nat),
                        (r@[j].file_path@, r@[j].symbol.line as nat),
                    )
            }),
            forall|k: int|
                0 <= k < r@.len() ==> crate::laws::reported_unused(
                    *self,
                    self.entries(),
                    (#[trigger] r@[k]).file_path@,
                    r@[k].symbol@,
                ),
    {
        proof {
            use_type_invariant(&self.files);
        }
        let ghost es = self.entries();
        let mut cands: Vec<UnusedSymbol> = Vec::new();
        let mut texts: Vec<Vec<char>> = Vec::new();
        let mut nums: Vec<usize> = Vec::new();
        let mut i: usize = 0;
        assert(es.take(0) =~= Seq::<(Seq<char>, FileNodeView)>::empty());
        while i < self.files.len()
            invariant
                es == self.entries(),
                es == self.files@,
                distinct_keys(es),
                i <= es.len(),
                cands@.map_values(|u: UnusedSymbol| u@) == self.unused_from(es, definitions(es.take(i as int))),
                texts@.len() == cands@.len(),
                nums@.len() == cands@.len(),
                forall|m: int| 0 <= m < cands@.len() ==> #[trigger] texts@[m]@ == cands@[m].file_path@ && nums@[m] == cands@[m].symbol.line,
            decreases es.len() - i,
        {
            let fp = self.files.key_at(i);
            let node = self.files.node_at(i);
            let ghost e = es[i as int];
            let ghost base = definitions(es.take(i as int));
            proof {
                assert(lookup_in(es, e.0) == Some(e.1)) by {
                    let c = choose|q: int| 0 <= q < es.len() && es[q].0 == e.0;
                    assert(c == i);
                }
            }
            let entry = is_entry_point(fp.as_str());
            let count = match self.reverse.get(fp.as_str()) {
                Some(l) => l.len(),
                None => 0,
            };
            let mut j: usize = 0;
            proof {
                assert(entry_defs(e).take(0) =~= Seq::<(Seq<char>, SymbolView)>::empty());
                assert(base + entry_defs(e).take(0) =~= base);
            }
            while j < node.symbols.len()
                invariant
                    es == self.entries(),
                    es == self.files@,
                    i < es.len(),
                    e == es[i as int],
                    fp@ == e.0,
                    node@ == e.1,
                    lookup_in(es, e.0) == Some(e.1),
                    entry == entry_point(fp@),
                    count == self.dependents_of(fp@).len(),
                    j <= node.symbols@.len(),
                    cands@.map_values(|u: UnusedSymbol| u@) == self.unused_from(es, base + entry_defs(e).take(j as int)),
                    texts@.len() == cands@.len(),
                    nums@.len() == cands@.len(),
                    forall|m: int| 0 <= m < cands@.len() ==> #[trigger] texts@[m]@ == cands@[m].file_path@ && nums@[m] == cands@[m].symbol.line,
                decreases node.symbols@.len() - j,
            {
                let sym = &node.symbols[j];
                let ghost sv = sym@;
                proof {
                    let a = base + entry_defs(e).take(j as int);
                    let b = base + entry_defs(e).take(j + 1);
                    assert(b.drop_last() =~= a);
                    assert(syms(node.symbols@)[j as int] == sv);
                    assert(b.last() == (e.0, sv));
                }
                let name = crate::text::chars_of(sym.name.as_str());
                let lower = crate::text::lowercase_chars(name.as_slice());
                let exempt = crate::text::eq_str(name.as_slice(), "main") || crate::text::eq_str(name.as_slice(), "new")
                    || crate::text::eq_str(name.as_slice(), "default") || crate::text::eq_str(name.as_slice(), "lib");
                let keep = !exempt && !self.is_imported(name.as_slice()) && !self.is_imported(lower.as_slice())
                    && self.defined_once(name.as_slice()) && !entry && count == 0
                    && !symbol_used_in_source(node.source.as_str(), sym.name.as_str(), sym.line);
                let ghost before = cands@;
                if keep {
                    let u = UnusedSymbol { file_path: fp.clone(), symbol: sym.duplicate() };
                    cands.push(u);
                    texts.push(crate::text::chars_of(fp.as_str()));
                    nums.push(sym.line);
                    proof {
                        assert(cands@.map_values(|u: UnusedSymbol| u@) =~= before.map_values(|u: UnusedSymbol| u@).push(
                            UnusedView { file_path: e.0, symbol: sv },
                        ));
                    }
                }
                j = j + 1;
            }
            proof {
                assert(entry_defs(e).take(j as int) =~= entry_defs(e));
                assert(es.take(i + 1).drop_last() =~= es.take(i as int));
                assert(es.take(i + 1).last() == e);
            }
            i = i + 1;
        }
        assert(es.take(i as int) =~= es);
        let order = crate::order::sort_order(&texts, &nums);
        let mut out: Vec<UnusedSymbol> = Vec::new();
        let ghost c = cands@.map_values(|u: UnusedSymbol| u@);
        let mut k: usize = 0;
        while k < order.len()
            invariant
                c == cands@.map_values(|u: UnusedSymbol| u@),
                is_perm(order@, cands@.len()),
                crate::order::stable_by(crate::order::keys_of(texts@, nums@), order@),
                crate::order::sorted_by(crate::order::keys_of(texts@, nums@), order@),
                texts@.len() == cands@.len(),
                nums@.len() == cands@.len(),
                forall|m: int| 0 <= m < cands@.len() ==> #[trigger] texts@[m]@ == cands@[m].file_path@ && nums@[m] == cands@[m].symbol.line,
                k <= order@.len(),
                out@.len() == k,
                forall|q: int| 0 <= q < k ==> #[trigger] out@[q]@ == c[order@[q] as int],
            decreases order@.len() - k,
        {
            let u = cands[order[k]].duplicate();
            out.push(u);
            k = k + 1;
        }
        proof {
            let keys = crate::order::keys_of(texts@, nums@);
            assert forall|a: int, b: int| 0 <= a < b < out@.len() implies crate::order::key_le(
                (out@[a].file_path@, out@[a].symbol.line as nat),
                (out@[b].file_path@, out@[b].symbol.line as nat),
            ) by {
                let x = order@[a] as int;
                let y = order@[b] as int;
                assert(crate::order::key_le(keys[x], keys[y]));
                assert(out@[a]@ == c[x]);
                assert(out@[b]@ == c[y]);
                assert(texts@[x]@ == cands@[x].file_path@);
                assert(texts@[y]@ == cands@[y].file_path@);
            }
            assert forall|a: int, b: int|
                #![trigger order@[a], order@[b]]
                0 <= a < b < out@.len() && out@[a].file_path@ == out@[b].file_path@ && out@[a].symbol.line
                    == out@[b].symbol.line implies order@[a] < order@[b] by {
                let x = order@[a] as int;
                let y = order@[b] as int;
                assert(out@[a]@ == c[x]);
                assert(out@[b]@ == c[y]);
                assert(texts@[x]@ == cands@[x].file_path@);
                assert(texts@[y]@ == cands@[y].file_path@);
                assert(keys[x] == keys[y]);
            }
            crate::laws::law_unused_symbols_in_files_without_dependents(*self);
            assert forall|q: int| 0 <= q < out@.len() implies crate::laws::reported_unused(
                *self,
                self.entries(),
                (#[trigger] out@[q]).file_path@,
                out@[q].symbol@,
            ) by {
                let x = order@[q] as int;
                assert(out@[q]@ == c[x]);
            }
        }
        out
    }
}

// ---------------------------------------------------------------------------
// Resolving dependencies
// ---------------------------------------------------------------------------

/// The files that the raw imports `imps` of file `fp` resolve to among
/// `paths`: each once, in order of first appearance, never `fp` itself.
pub open spec fn resolved_deps(imps: Seq<Seq<char>>, fp: Seq<char>, paths: Seq<Seq<char>>) -> Seq<Seq<char>>
    decreases imps.len(),
{
    if imps.len() == 0 {
        Seq::empty()
    } else {
        let prev = resolved_deps(imps.drop_last(), fp, paths);
        match resolved(imps.last(), fp, paths) {
            Some(d) => if d != fp && !prev.contains(d) {
                prev.push(d)
            } else {
                prev
            },
            None => prev,
        }
    }
}

/// The entry `e` with its dependencies resolved among `paths`.
pub open spec fn with_deps(e: (Seq<char>, FileNodeView), paths: Seq<Seq<char>>) -> (Seq<char>, FileNodeView) {
    (e.0, FileNodeView { depends_on: resolved_deps(e.1.raw_imports, e.0, paths), ..e.1 })
}

/// The entries `es` with every file's dependencies resolved.
pub open spec fn resolve_all(es: Seq<(Seq<char>, FileNodeView)>) -> Seq<(Seq<char>, FileNodeView)> {
    es.map_values(|e: (Seq<char>, FileNodeView)| with_deps(e, keys_of(es)))
}

impl DependencyGraph {
    /// The paths of the files, in order.
    fn paths(&self) -> (r: Vec<String>)
        ensures
            strs(r@) == keys_of(self.entries()),
    {
        let ghost es = self.entries();
        let mut r: Vec<String> = Vec::new();
        let mut i: usize = 0;
        while i < self.files.len()
            invariant
                es == self.files@,
                i <= es.len(),
                r@.len() == i,
                strs(r@) == keys_of(es).take(i as int),
            decreases es.len() - i,
        {
            let k = self.files.key_at(i).clone();
            let ghost before = r@;
            r.push(k);
            proof {
                assert forall|q: int| 0 <= q <= i implies strs(r@)[q] == keys_of(es)[q] by {
                    if q < i {
                        assert(r@[q] == before[q]);
                        assert(strs(before)[q] == keys_of(es).take(i as int)[q]);
                    }
                }
            }
            i = i + 1;
            assert(strs(r@) =~= keys_of(es).take(i as int));
        }
        assert(keys_of(es).take(i as int) =~= keys_of(es));
        r
    }

    /// Resolves the raw imports of every file to files of the graph and
    /// rebuilds the reverse index.
    pub fn resolve_dependencies(&mut self)
        ensures
            final(self).entries() == resolve_all(old(self).entries()),
            final(self).indexed(),
    {
        let ghost es = self.entries();
        let all_paths = self.paths();
        let index = crate::resolve::build_stem_index(all_paths.as_slice());
        let mut i: usize = 0;
        while i < self.files.len()
            invariant
                i <= es.len(),
                self.files@.len() == es.len(),
                strs(all_paths@) == keys_of(es),
                index.indexes(strs(all_paths@)),
                forall|q: int| 0 <= q < i ==> #[trigger] self.files@[q] == with_deps(es[q], keys_of(es)),
                forall|q: int| i <= q < es.len() ==> #[trigger] self.files@[q] == es[q],
            decreases es.len() - i,
        {
            let fp = self.files.key_at(i).clone();
            let node = self.files.node_at(i);
            assert(node@ == es[i as int].1 && fp@ == es[i as int].0);
            let ghost imps = node@.raw_imports;
            let mut deps: Vec<String> = Vec::new();
            let mut k: usize = 0;
            assert(imps.take(0) =~= Seq::<Seq<char>>::empty());
            while k < node.raw_imports.len()
                invariant
                    node@.raw_imports == imps,
                    k <= imps.len(),
                    strs(all_paths@) == keys_of(es),
                    index.indexes(strs(all_paths@)),
                    strs(deps@) == resolved_deps(imps.take(k as int), fp@, keys_of(es)),
                decreases imps.len() - k,
            {
                let r = crate::resolve::resolve_import(node.raw_imports[k].as_str(), fp.as_str(), &index, all_paths.as_slice());
                proof {
                    assert(imps.take(k + 1).drop_last() =~= imps.take(k as int));
                    assert(imps.take(k + 1).last() == imps[k as int]);
                    assert(strs(node.raw_imports@)[k as int] == node.raw_imports@[k as int]@);
                }
                match r {
                    Some(dep) => {
                        let same = crate::text::eq_str(crate::text::chars_of(dep.as_str()).as_slice(), fp.as_str());
                        if !same && !contains_string(&deps, dep.as_str()) {
                            let ghost before = deps@;
                            deps.push(dep);
                            assert(strs(deps@) =~= strs(before).push(deps@[before.len() as int]@));
                        }
                    },
                    None => {},
                }
                k = k + 1;
            }
            assert(imps.take(k as int) =~= imps);
            let ghost before = self.files@;
            self.files.set_depends_on(i, deps);
            proof {
                assert(self.files@[i as int] == with_deps(es[i as int], keys_of(es)));
                assert forall|q: int| 0 <= q < i + 1 implies #[trigger] self.files@[q] == with_deps(es[q], keys_of(es)) by {
                    if q < i {
                        assert(self.files@[q] == before[q]);
                    }
                }
                assert forall|q: int| i + 1 <= q < es.len() implies #[trigger] self.files@[q] == es[q] by {
                    assert(self.files@[q] == before[q]);
                }
            }
            i = i + 1;
        }
        assert(self.files@ =~= resolve_all(es));
        self.build_reverse_index();
    }
}

// ---------------------------------------------------------------------------
// Adding files
// ---------------------------------------------------------------------------

/// `es` with `(key, v)` stored: in place of the entry for `key`, or last.
pub open spec fn store(es: Seq<(Seq<char>, FileNodeView)>, key: Seq<char>, v: FileNodeView) -> Seq<(Seq<char>, FileNodeView)> {
    match index_in(es, key) {
        Some(i) => es.update(i, (key, v)),
        None => es.push((key, v)),
    }
}

/// What a file parsed into `t` becomes: its symbols and raw imports, no
/// resolved dependencies yet, and its source.
pub open spec fn parsed_node(t: SyntaxTree, src: Seq<char>, lang: Lang) -> FileNodeView {
    FileNodeView {
        symbols: file_symbols(t, src, lang),
        raw_imports: file_imports(t, src, lang),
        depends_on: Seq::empty(),
        source: src,
    }
}

impl DependencyGraph {
    /// Records the file `file_path`, whose source `source` in language
    /// `lang` was parsed into `tree`.
    pub fn add_parsed_file(&mut self, file_path: &str, source: &str, lang: Lang, tree: &SyntaxTree)
        requires
            tree.wf(),
            tree.fits(source@),
        ensures
            final(self).entries() == store(old(self).entries(), file_path@, parsed_node(*tree, source@, lang)),
            forall|d: Seq<char>| #[trigger] final(self).dependents_of(d) == old(self).dependents_of(d),
    {
        let symbols = extract_symbols(tree, source, lang);
        let raw_imports = extract_imports(tree, source, lang);
        let node = FileNode { symbols, raw_imports, depends_on: Vec::new(), source: source.to_owned() };
        assert(node@ == parsed_node(*tree, source@, lang)) by {
            assert(strs(node.depends_on@) =~= Seq::<Seq<char>>::empty());
        }
        self.files.insert(file_path.to_owned(), node);
    }

    /// Parses `source` as `language` and records the file's symbols and raw
    /// imports under `file_path`.  Nothing changes when the language is not
    /// one of those known, or when the tree does not fit the source (which
    /// only a source of `0xffff_ffff` bytes or more can give, as tree-sitter
    /// keeps offsets and rows in 32 bits).
    pub fn add_file(&mut self, file_path: &str, source: &str, language: &str)
        ensures
            match lang_named(language@) {
                None => final(self).entries() == old(self).entries(),
                Some(l) => exists|t: SyntaxTree|
                    #[trigger] tree_matches(t, parsed_nodes(l, source@)) && t.wf() && (if t.fits(source@) {
                        final(self).entries() == store(old(self).entries(), file_path@, parsed_node(t, source@, l))
                    } else {
                        final(self).entries() == old(self).entries()
                    }) && (offsets_fit(source@) ==> t.fits(source@) && lines_sorted(
                        parsed_node(t, source@, l).symbols,
                    )),
            },
            forall|d: Seq<char>| #[trigger] final(self).dependents_of(d) == old(self).dependents_of(d),
    {
        let lang = match lang_from_name(language) {
            Some(l) => l,
            None => {
                return;
            },
        };
        let tree = parse_source(lang, source);
        proof {
            if offsets_fit(source@) {
                crate::laws::law_symbols_in_line_order(tree, parsed_nodes(lang, source@), source@, lang);
            }
        }
        if !tree_fits(&tree, source) {
            return;
        }
        self.add_parsed_file(file_path, source, lang, &tree);
    }
}

impl Default for DependencyGraph {
    /// An empty graph.
    fn default() -> (r: Self)
        ensures
            r.entries() == Seq::<(Seq<char>, FileNodeView)>::empty(),
            r.indexed(),
    {
        DependencyGraph::new()
    }
}

proof fn lemma_edges_prefix(es: Seq<(Seq<char>, FileNodeView)>, n: int)
    requires
        0 <= n <= es.len(),
    ensures
        edges_in(es.take(n)) <= edges_in(es),
    decreases es.len(),
{
    if n < es.len() {
        assert(es.drop_last().take(n) =~= es.take(n));
        lemma_edges_prefix(es.drop_last(), n);
    } else {
        assert(es.take(n) =~= es);
    }
}

} // verus!
