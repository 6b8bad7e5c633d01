//! Properties that hold across the operations of the library.
use vstd::prelude::*;

use crate::extract::{file_imports, file_symbols, imports_among, lemma_symbols_among_lines, lines_sorted, node_imports, Lang};
use crate::filter::{collapse_breaks, marks_for, strip_lines, stripped, uncommented, SyntaxMarks};
use crate::parse::{chain, child_list, lemma_chain_bounds, nat_seq, node_matches, rows_sorted, tree_matches, ts_shape, TsNode};
use crate::syntax::SyntaxTree;
use crate::graph::{
    count_named, definitions, entry_point, exempt_name, imported, used_elsewhere, UnusedView, SymbolView, edges_in, dependents_in, distinct_keys, index_in, keys_of, lookup_in, marks, resolve_all, resolved_deps, store,
    with_deps, DependencyGraph, FileNodeView,
};
use crate::paths::path_file_name;
use crate::resolve::{dir_of, lemma_resolved_in_paths, lookup_closest, resolved, scan_segments};
use crate::text::{
    contains_text, is_ws, lines, lowercase, split_text, starts_with, trim, trim_chars, trim_end_chars, trim_end_ws,
    trim_start_chars, trim_start_ws,
};

verus! {

proof fn lemma_marks_contains(fp: Seq<char>, deps: Seq<Seq<char>>, d: Seq<char>, x: Seq<char>)
    ensures
        marks(fp, deps, d).contains(x) <==> (x == fp && deps.contains(d)),
    decreases deps.len(),
{
    if deps.len() > 0 {
        let pre = deps.drop_last();
        lemma_marks_contains(fp, pre, d, x);
        let tail = if deps.last() == d { seq![fp] } else { Seq::<Seq<char>>::empty() };
        let m = marks(fp, pre, d);
        assert(marks(fp, deps, d) == m + tail);
        if (m + tail).contains(x) {
            let k = choose|k: int| 0 <= k < (m + tail).len() && (m + tail)[k] == x;
            if k < m.len() {
                assert(m[k] == x);
                let z = choose|z: int| 0 <= z < pre.len() && pre[z] == d;
                assert(deps[z] == d);
            } else {
                assert(tail[k - m.len()] == x);
                assert(deps[deps.len() - 1] == d);
            }
        }
        if x == fp && deps.contains(d) {
            let z = choose|z: int| 0 <= z < deps.len() && deps[z] == d;
            if z == deps.len() - 1 {
                assert((m + tail)[m.len() as int] == x);
            } else {
                assert(pre[z] == d);
                let k = choose|k: int| 0 <= k < m.len() && m[k] == x;
                assert((m + tail)[k] == x);
            }
        }
    }
}

proof fn lemma_dependents_in_contains(es: Seq<(Seq<char>, FileNodeView)>, d: Seq<char>, g: Seq<char>)
    ensures
        dependents_in(es, d).contains(g) <==> exists|i: int|
            0 <= i < es.len() && es[i].0 == g && #[trigger] es[i].1.depends_on.contains(d),
    decreases es.len(),
{
    if es.len() > 0 {
        let pre = es.drop_last();
        let e = es.last();
        lemma_dependents_in_contains(pre, d, g);
        lemma_marks_contains(e.0, e.1.depends_on, d, g);
        let a = dependents_in(pre, d);
        let b = marks(e.0, e.1.depends_on, d);
        assert(dependents_in(es, d) == a + b);
        if (a + b).contains(g) {
            let k = choose|k: int| 0 <= k < (a + b).len() && (a + b)[k] == g;
            if k < a.len() {
                assert(a[k] == g);
                let i = choose|i: int| 0 <= i < pre.len() && pre[i].0 == g && #[trigger] pre[i].1.depends_on.contains(d);
                assert(es[i] == pre[i]);
            } else {
                assert(b[k - a.len()] == g);
                assert(es[es.len() - 1] == e);
            }
        }
        if exists|i: int| 0 <= i < es.len() && es[i].0 == g && #[trigger] es[i].1.depends_on.contains(d) {
            let i = choose|i: int| 0 <= i < es.len() && es[i].0 == g && #[trigger] es[i].1.depends_on.contains(d);
            if i == es.len() - 1 {
                let k = choose|k: int| 0 <= k < b.len() && b[k] == g;
                assert((a + b)[a.len() + k] == g);
            } else {
                assert(pre[i] == es[i]);
                let k = choose|k: int| 0 <= k < a.len() && a[k] == g;
                assert((a + b)[k] == g);
            }
        }
    }
}

/// Once the reverse index is built, `g` is recorded as a dependent of `d`
/// exactly when `g` is a file whose dependency list names `d`.
pub proof fn law_dependents_match_dependencies(g: DependencyGraph, d: Seq<char>, f: Seq<char>)
    requires
        g.indexed(),
    ensures
        g.dependents_of(d).contains(f) <==> exists|i: int|
            0 <= i < g.entries().len() && g.entries()[i].0 == f && #[trigger] g.entries()[i].1.depends_on.contains(d),
{
    lemma_dependents_in_contains(g.entries(), d, f);
}

proof fn lemma_marks_at_most_once(fp: Seq<char>, deps: Seq<Seq<char>>, d: Seq<char>)
    requires
        deps.no_duplicates(),
    ensures
        marks(fp, deps, d).len() <= 1,
        marks(fp, deps, d).len() == 1 <==> deps.contains(d),
    decreases deps.len(),
{
    if deps.len() > 0 {
        let pre = deps.drop_last();
        assert(pre.no_duplicates());
        lemma_marks_at_most_once(fp, pre, d);
        if deps.last() == d {
            assert(!pre.contains(d)) by {
                if pre.contains(d) {
                    let z = choose|z: int| 0 <= z < pre.len() && pre[z] == d;
                    assert(deps[z] == deps[deps.len() - 1]);
                }
            }
        }
        if deps.contains(d) && deps.last() != d {
            let z = choose|z: int| 0 <= z < deps.len() && deps[z] == d;
            assert(pre[z] == d);
        }
        if pre.contains(d) {
            let z = choose|z: int| 0 <= z < pre.len() && pre[z] == d;
            assert(deps[z] == d);
        }
    }
}

proof fn lemma_dependents_in_distinct(es: Seq<(Seq<char>, FileNodeView)>, d: Seq<char>)
    requires
        distinct_keys(es),
        forall|i: int| 0 <= i < es.len() ==> (#[trigger] es[i].1.depends_on).no_duplicates(),
    ensures
        dependents_in(es, d).no_duplicates(),
    decreases es.len(),
{
    if es.len() > 0 {
        let pre = es.drop_last();
        let e = es.last();
        assert(distinct_keys(pre)) by {
            assert forall|a: int, b: int| 0 <= a < pre.len() && 0 <= b < pre.len() && a != b implies pre[a].0 != pre[b].0 by {
                assert(pre[a] == es[a] && pre[b] == es[b]);
            }
        }
        assert forall|i: int| 0 <= i < pre.len() implies (#[trigger] pre[i].1.depends_on).no_duplicates() by {
            assert(pre[i] == es[i]);
        }
        lemma_dependents_in_distinct(pre, d);
        assert(es[es.len() - 1] == e);
        lemma_marks_at_most_once(e.0, e.1.depends_on, d);
        let a = dependents_in(pre, d);
        let b = marks(e.0, e.1.depends_on, d);
        assert(dependents_in(es, d) == a + b);
        if b.len() == 1 {
            lemma_marks_contains(e.0, e.1.depends_on, d, b[0]);
            assert(b.contains(b[0]));
            lemma_dependents_in_contains(pre, d, e.0);
            assert(!a.contains(e.0)) by {
                if a.contains(e.0) {
                    let i = choose|i: int| 0 <= i < pre.len() && pre[i].0 == e.0 && #[trigger] pre[i].1.depends_on.contains(d);
                    assert(es[i].0 == es[es.len() - 1].0);
                }
            }
            assert forall|x: int, y: int| 0 <= x < (a + b).len() && 0 <= y < (a + b).len() && x != y implies (a + b)[x] != (a + b)[y] by {
                if x < a.len() && y < a.len() {
                } else if x < a.len() {
                    assert(a.contains((a + b)[x]));
                } else if y < a.len() {
                    assert(a.contains((a + b)[y]));
                }
            }
        } else {
            assert(a + b =~= a);
        }
    }
}

/// When file paths are distinct and no file names a dependency twice (as
/// after resolving dependencies), the dependents recorded for a file name
/// each dependent once.
pub proof fn law_dependents_distinct(g: DependencyGraph, d: Seq<char>)
    requires
        g.indexed(),
        distinct_keys(g.entries()),
        forall|i: int| 0 <= i < g.entries().len() ==> (#[trigger] g.entries()[i].1.depends_on).no_duplicates(),
    ensures
        g.dependents_of(d).no_duplicates(),
{
    lemma_dependents_in_distinct(g.entries(), d);
}

proof fn lemma_resolved_deps_sound(imps: Seq<Seq<char>>, fp: Seq<char>, paths: Seq<Seq<char>>)
    ensures
        forall|x: Seq<char>| resolved_deps(imps, fp, paths).contains(x) ==> paths.contains(x) && x != fp,
        resolved_deps(imps, fp, paths).no_duplicates(),
    decreases imps.len(),
{
    if imps.len() > 0 {
        let prev = resolved_deps(imps.drop_last(), fp, paths);
        lemma_resolved_deps_sound(imps.drop_last(), fp, paths);
        lemma_resolved_in_paths(imps.last(), fp, paths);
        let r = resolved_deps(imps, fp, paths);
        assert forall|x: Seq<char>| r.contains(x) implies paths.contains(x) && x != fp by {
            let k = choose|k: int| 0 <= k < r.len() && r[k] == x;
            if k < prev.len() {
                assert(prev[k] == x);
            }
        }
        assert forall|a: int, b: int| 0 <= a < r.len() && 0 <= b < r.len() && a != b implies r[a] != r[b] by {
            if a < prev.len() && b < prev.len() {
            } else if a < prev.len() {
                assert(prev.contains(r[a]));
            } else {
                assert(prev.contains(r[b]));
            }
        }
    }
}

/// After dependencies are resolved, every file's dependencies are files of
/// the graph, never the file itself, and each is named once.
pub proof fn law_resolved_dependencies_are_files(es: Seq<(Seq<char>, FileNodeView)>, i: int, x: Seq<char>)
    requires
        0 <= i < es.len(),
    ensures
        keys_of(resolve_all(es)) == keys_of(es),
        resolve_all(es)[i].1.depends_on.contains(x) ==> keys_of(es).contains(x) && x != es[i].0,
        resolve_all(es)[i].1.depends_on.no_duplicates(),
{
    let r = resolve_all(es);
    assert(keys_of(r) =~= keys_of(es));
    assert(r[i] == with_deps(es[i], keys_of(es)));
    lemma_resolved_deps_sound(es[i].1.raw_imports, es[i].0, keys_of(es));
}

/// Storing a file and then looking it up gives back what was stored; every
/// other file is unchanged, and paths stay distinct.
pub proof fn law_store_then_lookup(es: Seq<(Seq<char>, FileNodeView)>, key: Seq<char>, v: FileNodeView, other: Seq<char>)
    requires
        distinct_keys(es),
    ensures
        distinct_keys(store(es, key, v)),
        lookup_in(store(es, key, v), key) == Some(v),
        other != key ==> lookup_in(store(es, key, v), other) == lookup_in(es, other),
        store(es, key, v).len() == es.len() + if index_in(es, key) is Some { 0int } else { 1int },
{
    let s = store(es, key, v);
    match index_in(es, key) {
        Some(i) => {
            assert forall|a: int, b: int| 0 <= a < s.len() && 0 <= b < s.len() && a != b implies s[a].0 != s[b].0 by {
                assert(es[i].0 == key);
            }
            let c = choose|q: int| 0 <= q < s.len() && s[q].0 == key;
            assert(s[i].0 == key);
            if other != key {
                if exists|q: int| 0 <= q < es.len() && es[q].0 == other {
                    let q = choose|q: int| 0 <= q < es.len() && es[q].0 == other;
                    assert(s[q].0 == other);
                    let q2 = choose|q: int| 0 <= q < s.len() && s[q].0 == other;
                    assert(q2 != i);
                    assert(es[q2].0 == other);
                } else {
                    assert forall|q: int| 0 <= q < s.len() implies s[q].0 != other by {
                        if q != i {
                            assert(s[q] == es[q]);
                        }
                    }
                }
            }
        },
        None => {
            assert forall|a: int, b: int| 0 <= a < s.len() && 0 <= b < s.len() && a != b implies s[a].0 != s[b].0 by {
                if a < es.len() && b < es.len() {
                    assert(s[a] == es[a] && s[b] == es[b]);
                } else if a < es.len() {
                    assert(s[a] == es[a]);
                } else {
                    assert(s[b] == es[b]);
                }
            }
            assert(s[es.len() as int].0 == key);
            if other != key {
                if exists|q: int| 0 <= q < es.len() && es[q].0 == other {
                    let q = choose|q: int| 0 <= q < es.len() && es[q].0 == other;
                    assert(s[q].0 == other);
                    let q2 = choose|q: int| 0 <= q < s.len() && s[q].0 == other;
                    assert(q2 < es.len());
                    assert(s[q2] == es[q2]);
                } else {
                    assert forall|q: int| 0 <= q < s.len() implies s[q].0 != other by {
                        if q < es.len() {
                            assert(s[q] == es[q]);
                        }
                    }
                }
            }
        },
    }
}

proof fn lemma_trim_start_shape(s: Seq<char>)
    ensures
        trim_start_ws(s).len() == 0 || !is_ws(trim_start_ws(s)[0]),
        exists|k: int| 0 <= k <= s.len() && trim_start_ws(s) == s.skip(k),
    decreases s.len(),
{
    if s.len() > 0 && is_ws(s[0]) {
        lemma_trim_start_shape(s.drop_first());
        let k = choose|k: int| 0 <= k <= s.drop_first().len() && trim_start_ws(s.drop_first()) == s.drop_first().skip(k);
        assert(s.drop_first().skip(k) =~= s.skip(k + 1));
    } else {
        assert(s.skip(0) =~= s);
    }
}

proof fn lemma_trim_end_shape(s: Seq<char>)
    ensures
        trim_end_ws(s).len() == 0 || !is_ws(trim_end_ws(s).last()),
        exists|k: int| 0 <= k <= s.len() && trim_end_ws(s) == s.take(k),
    decreases s.len(),
{
    if s.len() > 0 && is_ws(s.last()) {
        lemma_trim_end_shape(s.drop_last());
        let k = choose|k: int| 0 <= k <= s.drop_last().len() && trim_end_ws(s.drop_last()) == s.drop_last().take(k);
        assert(s.drop_last().take(k) =~= s.take(k));
    } else {
        assert(s.take(s.len() as int) =~= s);
    }
}

/// Trimming twice is trimming once.
pub proof fn law_trim_idempotent(s: Seq<char>)
    ensures
        trim(trim(s)) == trim(s),
{
    let a = trim_start_ws(s);
    let t = trim_end_ws(a);
    lemma_trim_start_shape(s);
    lemma_trim_end_shape(a);
    let k = choose|k: int| 0 <= k <= a.len() && t == a.take(k);
    if t.len() > 0 {
        assert(t[0] == a[0]);
        assert(!is_ws(t[0]));
        assert(trim_start_ws(t) == t);
        assert(!is_ws(t.last()));
        assert(trim_end_ws(t) == t);
    } else {
        assert(trim_start_ws(t) == t);
        assert(trim_end_ws(t) == t);
    }
}

/// The result of `strip_comments` has no leading or trailing whitespace.
pub proof fn law_stripped_is_trimmed(content: Seq<char>, lang: Option<Seq<char>>)
    ensures
        trim(stripped(content, lang)) == stripped(content, lang),
{
    let body = crate::filter::uncommented(content, lang);
    law_trim_idempotent(crate::filter::collapse_breaks(body));
}

/// The impact of a file never lists the file itself, and lists every file
/// recorded as depending on it.
pub proof fn law_impact_covers_dependents(g: DependencyGraph, f: Seq<char>, x: Seq<char>)
    requires
        g.dependents_of(f).contains(x),
    ensures
        g.reaches(f, x),
{
    let p = seq![f, x];
    assert forall|k: int| 0 <= k < p.len() - 1 implies #[trigger] g.dependents_of(p[k]).contains(p[k + 1]) by {
        assert(k == 0);
        assert(p[k] == f && p[k + 1] == x);
    }
    assert(g.is_chain(p) && p[0] == f && p.last() == x);
}


/// Transitive dependence composes: if `b` depends on `a` through a chain
/// and `c` on `b`, then `c` depends on `a`; so whatever the impact of `b`
/// lists, the impact of `a` lists too (or it is `a` itself).
pub proof fn law_reaches_transitive(g: DependencyGraph, a: Seq<char>, b: Seq<char>, c: Seq<char>)
    requires
        g.reaches(a, b),
        g.reaches(b, c),
    ensures
        g.reaches(a, c),
{
    let p = choose|p: Seq<Seq<char>>| g.is_chain(p) && p[0] == a && p.last() == b;
    let q = choose|q: Seq<Seq<char>>| g.is_chain(q) && q[0] == b && q.last() == c;
    let r = p + q.drop_first();
    assert forall|k: int| 0 <= k < r.len() - 1 implies #[trigger] g.dependents_of(r[k]).contains(r[k + 1]) by {
        if k < p.len() - 1 {
            assert(r[k] == p[k] && r[k + 1] == p[k + 1]);
        } else if k == p.len() - 1 {
            assert(r[k] == b && q[0] == b);
            assert(r[k + 1] == q[1]);
            assert(g.dependents_of(q[0int]).contains(q[0int + 1]));
        } else {
            let m = k - p.len() + 1;
            assert(r[k] == q[m] && r[k + 1] == q[m + 1]);
        }
    }
    if q.len() == 1 {
        assert(r =~= p);
    } else {
        assert(r.last() == q.last());
    }
    assert(g.is_chain(r) && r[0] == a && r.last() == c);
}


/// Once the reverse index is built, a file has no recorded dependents (the
/// condition for being an orphan, besides not being an entry point) exactly
/// when no file's dependency list names it.
pub proof fn law_orphan_condition(g: DependencyGraph, f: Seq<char>)
    requires
        g.indexed(),
    ensures
        (g.dependents_of(f).len() == 0) <==> forall|i: int|
            0 <= i < g.entries().len() ==> !#[trigger] g.entries()[i].1.depends_on.contains(f),
{
    let es = g.entries();
    if g.dependents_of(f).len() != 0 {
        let x = g.dependents_of(f)[0];
        assert(g.dependents_of(f).contains(x));
        lemma_dependents_in_contains(es, f, x);
    } else {
        assert forall|i: int| 0 <= i < es.len() implies !#[trigger] es[i].1.depends_on.contains(f) by {
            if es[i].1.depends_on.contains(f) {
                lemma_dependents_in_contains(es, f, es[i].0);
                let k = choose|k: int| 0 <= k < g.dependents_of(f).len() && g.dependents_of(f)[k] == es[i].0;
            }
        }
    }
}

/// In a tree laid out as tree-sitter gives it, the symbols that a file
/// defines at its top level come in the order of their lines.
pub proof fn law_symbols_in_line_order(t: SyntaxTree, ms: Seq<TsNode>, src: Seq<char>, lang: Lang)
    requires
        tree_matches(t, ms),
        ts_shape(ms),
        rows_sorted(ms),
    ensures
        lines_sorted(file_symbols(t, src, lang)),
{
    let cs = t.children(0);
    let e = ms[0].end as int;
    lemma_chain_bounds(ms, 1, e);
    assert(node_matches(t.nodes@[0], ms[0]));
    assert(nat_seq(cs) == child_list(ms, 0));
    assert forall|k: int| 0 <= k < cs.len() implies #[trigger] cs[k] < ms.len() by {
        assert(nat_seq(cs)[k] == cs[k] as nat);
        assert(chain(ms, 1, e)[k] == cs[k] as nat);
    }
    assert forall|k: int, l: int| #![trigger cs[k], cs[l]] 0 <= k < l < cs.len() implies ms[cs[k] as int].end <= cs[l] by {
        assert(nat_seq(cs)[k] == cs[k] as nat);
        assert(nat_seq(cs)[l] == cs[l] as nat);
        assert(chain(ms, 1, e)[k] == cs[k] as nat);
        assert(chain(ms, 1, e)[l] == cs[l] as nat);
    }
    lemma_symbols_among_lines(t, ms, src, lang, cs);
}

/// No three line breaks in a row in `s`.
pub open spec fn no_break_triples(s: Seq<char>) -> bool {
    forall|i: int| #![trigger s[i]] 0 <= i && i + 2 < s.len() ==> !(s[i] == '\n' && s[i + 1] == '\n' && s[i + 2] == '\n')
}

/// The number of line breaks at the end of `s`.
spec fn tail_breaks(s: Seq<char>) -> nat
    decreases s.len(),
{
    if s.len() > 0 && s.last() == '\n' {
        1 + tail_breaks(s.drop_last())
    } else {
        0
    }
}

proof fn lemma_tail_breaks_two(s: Seq<char>)
    ensures
        tail_breaks(s) >= 2 <==> (s.len() >= 2 && s[s.len() - 1] == '\n' && s[s.len() - 2] == '\n'),
        tail_breaks(s) >= 3 <==> (s.len() >= 3 && s[s.len() - 1] == '\n' && s[s.len() - 2] == '\n'
            && s[s.len() - 3] == '\n'),
{
    reveal_with_fuel(tail_breaks, 4);
    if s.len() >= 2 {
        assert(s.drop_last().last() == s[s.len() - 2]);
    }
    if s.len() >= 3 {
        assert(s.drop_last().drop_last().last() == s[s.len() - 3]);
    }
}

proof fn lemma_collapse_breaks(s: Seq<char>)
    ensures
        no_break_triples(collapse_breaks(s)),
        tail_breaks(collapse_breaks(s)) == if tail_breaks(s) >= 2 { 2 } else { tail_breaks(s) },
    decreases s.len(),
{
    if s.len() > 0 {
        let a = s.drop_last();
        let n = s.len() as int;
        lemma_collapse_breaks(a);
        lemma_tail_breaks_two(s);
        lemma_tail_breaks_two(a);
        let pre = collapse_breaks(a);
        if n >= 3 && s[n - 1] == '\n' && s[n - 2] == '\n' && s[n - 3] == '\n' {
            assert(collapse_breaks(s) == pre);
            assert(a[n - 2] == s[n - 2] && a[n - 3] == s[n - 3]);
        } else {
            let out = pre.push(s[n - 1]);
            assert(collapse_breaks(s) == out);
            lemma_tail_breaks_two(out);
            lemma_tail_breaks_two(pre);
            assert(out.drop_last() =~= pre);
            if n >= 2 {
                assert(a[n - 2] == s[n - 2]);
            }
            if n >= 3 {
                assert(a[n - 3] == s[n - 3]);
            }
            assert forall|i: int| #![trigger out[i]] 0 <= i && i + 2 < out.len() implies !(out[i] == '\n' && out[i + 1]
                == '\n' && out[i + 2] == '\n') by {
                if i + 2 < pre.len() {
                    assert(out[i] == pre[i] && out[i + 1] == pre[i + 1] && out[i + 2] == pre[i + 2]);
                    assert(!(pre[i] == '\n' && pre[i + 1] == '\n' && pre[i + 2] == '\n'));
                } else {
                    assert(i + 2 == out.len() - 1);
                    assert(out[i + 1] == out[out.len() - 2]);
                    assert(out[i] == out[out.len() - 3]);
                }
            }
        }
    }
}

proof fn lemma_trim_keeps_no_triples(s: Seq<char>)
    requires
        no_break_triples(s),
    ensures
        no_break_triples(trim(s)),
{
    lemma_trim_start_keeps_no_triples(s);
    lemma_trim_end_keeps_no_triples(trim_start_ws(s));
}

proof fn lemma_trim_start_keeps_no_triples(s: Seq<char>)
    requires
        no_break_triples(s),
    ensures
        no_break_triples(trim_start_ws(s)),
    decreases s.len(),
{
    if s.len() > 0 && is_ws(s[0]) {
        let t = s.drop_first();
        assert forall|i: int| #![trigger t[i]] 0 <= i && i + 2 < t.len() implies !(t[i] == '\n' && t[i + 1] == '\n'
            && t[i + 2] == '\n') by {
            assert(t[i] == s[i + 1] && t[i + 1] == s[i + 2] && t[i + 2] == s[i + 3]);
            assert(!(s[i + 1] == '\n' && s[i + 2] == '\n' && s[i + 3] == '\n'));
        }
        lemma_trim_start_keeps_no_triples(t);
    }
}

proof fn lemma_trim_end_keeps_no_triples(s: Seq<char>)
    requires
        no_break_triples(s),
    ensures
        no_break_triples(trim_end_ws(s)),
    decreases s.len(),
{
    if s.len() > 0 && is_ws(s.last()) {
        let t = s.drop_last();
        assert forall|i: int| #![trigger t[i]] 0 <= i && i + 2 < t.len() implies !(t[i] == '\n' && t[i + 1] == '\n'
            && t[i + 2] == '\n') by {
            assert(t[i] == s[i] && t[i + 1] == s[i + 1] && t[i + 2] == s[i + 2]);
        }
        lemma_trim_end_keeps_no_triples(t);
    }
}

/// `strip_comments` never leaves three line breaks in a row: runs of blank
/// lines are collapsed to a single blank line.
pub proof fn law_stripped_has_no_blank_runs(content: Seq<char>, lang: Option<Seq<char>>)
    ensures
        no_break_triples(stripped(content, lang)),
{
    let body = crate::filter::uncommented(content, lang);
    lemma_collapse_breaks(body);
    lemma_trim_keeps_no_triples(collapse_breaks(body));
}

/// How many of `ks` are `d`.
spec fn hits(ks: Seq<Seq<char>>, d: Seq<char>) -> nat
    decreases ks.len(),
{
    if ks.len() == 0 {
        0
    } else {
        hits(ks.drop_last(), d) + if ks.last() == d {
            1nat
        } else {
            0nat
        }
    }
}

proof fn lemma_hits_once(ks: Seq<Seq<char>>, d: Seq<char>)
    requires
        ks.no_duplicates(),
    ensures
        hits(ks, d) == if ks.contains(d) {
            1nat
        } else {
            0nat
        },
    decreases ks.len(),
{
    if ks.len() > 0 {
        let pre = ks.drop_last();
        assert(pre.no_duplicates()) by {
            assert forall|a: int, b: int| 0 <= a < pre.len() && 0 <= b < pre.len() && a != b implies pre[a] != pre[b] by {
                assert(pre[a] == ks[a] && pre[b] == ks[b]);
            }
        }
        lemma_hits_once(pre, d);
        if ks.last() == d {
            assert(ks[ks.len() - 1] == d);
            assert(!pre.contains(d)) by {
                if pre.contains(d) {
                    let z = choose|z: int| 0 <= z < pre.len() && pre[z] == d;
                    assert(ks[z] == ks[ks.len() - 1]);
                }
            }
        } else {
            if ks.contains(d) {
                let z = choose|z: int| 0 <= z < ks.len() && ks[z] == d;
                assert(pre[z] == d);
            }
            if pre.contains(d) {
                let z = choose|z: int| 0 <= z < pre.len() && pre[z] == d;
                assert(ks[z] == d);
            }
        }
    }
}

/// The total length of the marks of `fp` under each of `ks`.
spec fn marks_total(fp: Seq<char>, deps: Seq<Seq<char>>, ks: Seq<Seq<char>>) -> nat
    decreases ks.len(),
{
    if ks.len() == 0 {
        0
    } else {
        marks_total(fp, deps, ks.drop_last()) + marks(fp, deps, ks.last()).len()
    }
}

proof fn lemma_marks_total_empty(fp: Seq<char>, ks: Seq<Seq<char>>)
    ensures
        marks_total(fp, Seq::empty(), ks) == 0,
    decreases ks.len(),
{
    if ks.len() > 0 {
        lemma_marks_total_empty(fp, ks.drop_last());
    }
}

proof fn lemma_marks_total_step(fp: Seq<char>, deps: Seq<Seq<char>>, ks: Seq<Seq<char>>)
    requires
        deps.len() > 0,
    ensures
        marks_total(fp, deps, ks) == marks_total(fp, deps.drop_last(), ks) + hits(ks, deps.last()),
    decreases ks.len(),
{
    if ks.len() > 0 {
        lemma_marks_total_step(fp, deps, ks.drop_last());
        let k = ks.last();
        let tail = if deps.last() == k { seq![fp] } else { Seq::<Seq<char>>::empty() };
        assert(marks(fp, deps, k) == marks(fp, deps.drop_last(), k) + tail);
    }
}

proof fn lemma_marks_total(fp: Seq<char>, deps: Seq<Seq<char>>, ks: Seq<Seq<char>>)
    requires
        ks.no_duplicates(),
        forall|x: Seq<char>| deps.contains(x) ==> ks.contains(x),
    ensures
        marks_total(fp, deps, ks) == deps.len(),
    decreases deps.len(),
{
    if deps.len() == 0 {
        assert(deps =~= Seq::<Seq<char>>::empty());
        lemma_marks_total_empty(fp, ks);
    } else {
        let pre = deps.drop_last();
        assert forall|x: Seq<char>| pre.contains(x) implies ks.contains(x) by {
            let z = choose|z: int| 0 <= z < pre.len() && pre[z] == x;
            assert(deps[z] == x);
        }
        lemma_marks_total(fp, pre, ks);
        lemma_marks_total_step(fp, deps, ks);
        assert(deps[deps.len() - 1] == deps.last());
        lemma_hits_once(ks, deps.last());
    }
}

/// The total length of the dependents under each of `ks` among `es`.
spec fn dependents_total_in(es: Seq<(Seq<char>, FileNodeView)>, ks: Seq<Seq<char>>) -> nat
    decreases ks.len(),
{
    if ks.len() == 0 {
        0
    } else {
        dependents_total_in(es, ks.drop_last()) + dependents_in(es, ks.last()).len()
    }
}

proof fn lemma_dependents_total_empty(ks: Seq<Seq<char>>)
    ensures
        dependents_total_in(Seq::empty(), ks) == 0,
    decreases ks.len(),
{
    if ks.len() > 0 {
        lemma_dependents_total_empty(ks.drop_last());
    }
}

proof fn lemma_dependents_total_step(es: Seq<(Seq<char>, FileNodeView)>, ks: Seq<Seq<char>>)
    requires
        es.len() > 0,
    ensures
        dependents_total_in(es, ks) == dependents_total_in(es.drop_last(), ks) + marks_total(
            es.last().0,
            es.last().1.depends_on,
            ks,
        ),
    decreases ks.len(),
{
    if ks.len() > 0 {
        lemma_dependents_total_step(es, ks.drop_last());
    }
}

proof fn lemma_dependents_total(es: Seq<(Seq<char>, FileNodeView)>, ks: Seq<Seq<char>>)
    requires
        ks.no_duplicates(),
        forall|i: int, x: Seq<char>| 0 <= i < es.len() && #[trigger] es[i].1.depends_on.contains(x) ==> ks.contains(x),
    ensures
        dependents_total_in(es, ks) == edges_in(es),
    decreases es.len(),
{
    if es.len() == 0 {
        assert(es =~= Seq::<(Seq<char>, FileNodeView)>::empty());
        lemma_dependents_total_empty(ks);
    } else {
        let pre = es.drop_last();
        assert forall|i: int, x: Seq<char>| 0 <= i < pre.len() && #[trigger] pre[i].1.depends_on.contains(x) implies ks.contains(x) by {
            assert(pre[i] == es[i]);
        }
        lemma_dependents_total(pre, ks);
        lemma_dependents_total_step(es, ks);
        let e = es.last();
        assert(es[es.len() - 1] == e);
        assert forall|x: Seq<char>| e.1.depends_on.contains(x) implies ks.contains(x) by {
            assert(es[es.len() - 1].1.depends_on.contains(x));
        }
        lemma_marks_total(e.0, e.1.depends_on, ks);
    }
}

/// The total length of the dependents lists of the files `ks` of `g`.
pub open spec fn dependents_total(g: DependencyGraph, ks: Seq<Seq<char>>) -> nat
    decreases ks.len(),
{
    if ks.len() == 0 {
        0
    } else {
        dependents_total(g, ks.drop_last()) + g.dependents_of(ks.last()).len()
    }
}

proof fn lemma_dependents_total_indexed(g: DependencyGraph, ks: Seq<Seq<char>>)
    requires
        g.indexed(),
    ensures
        dependents_total(g, ks) == dependents_total_in(g.entries(), ks),
    decreases ks.len(),
{
    if ks.len() > 0 {
        lemma_dependents_total_indexed(g, ks.drop_last());
        assert(g.dependents_of(ks.last()) == dependents_in(g.entries(), ks.last()));
    }
}

/// Once the dependencies of the files `es` (whose paths are distinct) are
/// resolved into `g`, the number of dependency edges equals the total length
/// of the dependents lists of all the files.
pub proof fn law_edges_equal_dependents(g: DependencyGraph, es: Seq<(Seq<char>, FileNodeView)>)
    requires
        distinct_keys(es),
        g.entries() == resolve_all(es),
        g.indexed(),
    ensures
        edges_in(g.entries()) == dependents_total(g, keys_of(g.entries())),
{
    let r = g.entries();
    let ks = keys_of(r);
    assert(ks =~= keys_of(es));
    assert(ks.no_duplicates()) by {
        assert forall|a: int, b: int| 0 <= a < ks.len() && 0 <= b < ks.len() && a != b implies ks[a] != ks[b] by {
            assert(ks[a] == es[a].0 && ks[b] == es[b].0);
        }
    }
    assert forall|i: int, x: Seq<char>| 0 <= i < r.len() && #[trigger] r[i].1.depends_on.contains(x) implies ks.contains(x) by {
        law_resolved_dependencies_are_files(es, i, x);
    }
    lemma_dependents_total(r, ks);
    lemma_dependents_total_indexed(g, ks);
}

proof fn lemma_scan_segments_last(paths: Seq<Seq<char>>, parts: Seq<Seq<char>>, dir: Seq<char>, n: int, j: int)
    requires
        n <= parts.len(),
    ensures
        1 <= j < n && lookup_closest(paths, lowercase(parts[j]), dir) is Some && (forall|i: int|
            j < i < n ==> #[trigger] lookup_closest(paths, lowercase(parts[i]), dir) is None) ==> scan_segments(
            paths,
            parts,
            dir,
            n,
        ) == lookup_closest(paths, lowercase(parts[j]), dir),
        (forall|i: int| 1 <= i < n ==> #[trigger] lookup_closest(paths, lowercase(parts[i]), dir) is None)
            ==> scan_segments(paths, parts, dir, n) is None,
    decreases n,
{
    if n > 1 {
        lemma_scan_segments_last(paths, parts, dir, n - 1, j);
        if 1 <= j < n - 1 && lookup_closest(paths, lowercase(parts[j]), dir) is Some && (forall|i: int|
            j < i < n ==> #[trigger] lookup_closest(paths, lowercase(parts[i]), dir) is None) {
            assert(lookup_closest(paths, lowercase(parts[n - 1]), dir) is None);
        }
        if forall|i: int| 1 <= i < n ==> #[trigger] lookup_closest(paths, lowercase(parts[i]), dir) is None {
            assert(lookup_closest(paths, lowercase(parts[n - 1]), dir) is None);
        }
    }
}

/// A `crate::` or `super::` import names the closest file whose lowercased
/// stem is the last of its segments after the first that names a file at
/// all: when segment `j` names a file and no later segment does, that file;
/// when no segment names one, nothing.
pub proof fn law_crate_import_uses_last_naming_segment(raw: Seq<char>, source: Seq<char>, paths: Seq<Seq<char>>, j: int)
    requires
        starts_with(raw, "crate::"@) || starts_with(raw, "super::"@),
    ensures
        ({
            let parts = split_text(raw, "::"@);
            let dir = dir_of(source);
            &&& (1 <= j < parts.len() && lookup_closest(paths, lowercase(parts[j]), dir) is Some && (forall|i: int|
                j < i < parts.len() ==> #[trigger] lookup_closest(paths, lowercase(parts[i]), dir) is None))
                ==> resolved(raw, source, paths) == lookup_closest(paths, lowercase(parts[j]), dir)
            &&& (forall|i: int| 1 <= i < parts.len() ==> #[trigger] lookup_closest(paths, lowercase(parts[i]), dir) is None)
                ==> resolved(raw, source, paths) is None
        }),
{
    reveal_strlit("mod:");
    reveal_strlit("crate::");
    reveal_strlit("super::");
    assert(raw[0] == 'c' || raw[0] == 's') by {
        if starts_with(raw, "crate::"@) {
            assert(raw.subrange(0, 7)[0] == raw[0]);
        } else {
            assert(raw.subrange(0, 7)[0] == raw[0]);
        }
    }
    if starts_with(raw, "mod:"@) {
        assert(raw.subrange(0, 4)[0] == raw[0]);
    }
    let parts = split_text(raw, "::"@);
    lemma_scan_segments_last(paths, parts, dir_of(source), parts.len() as int, j);
}

proof fn lemma_trim_start_chars_first(s: Seq<char>, set: Seq<char>)
    ensures
        trim_start_chars(s, set).len() > 0 ==> !set.contains(trim_start_chars(s, set)[0]),
    decreases s.len(),
{
    if s.len() > 0 && set.contains(s[0]) {
        lemma_trim_start_chars_first(s.drop_first(), set);
    }
}

proof fn lemma_trim_end_chars_prefix(s: Seq<char>, set: Seq<char>)
    ensures
        trim_end_chars(s, set).len() <= s.len(),
        forall|i: int| 0 <= i < trim_end_chars(s, set).len() ==> #[trigger] trim_end_chars(s, set)[i] == s[i],
        trim_end_chars(s, set).len() > 0 ==> !set.contains(trim_end_chars(s, set).last()),
    decreases s.len(),
{
    if s.len() > 0 && set.contains(s.last()) {
        lemma_trim_end_chars_prefix(s.drop_last(), set);
        let r = trim_end_chars(s, set);
        assert forall|i: int| 0 <= i < r.len() implies #[trigger] r[i] == s[i] by {
            assert(s.drop_last()[i] == s[i]);
        }
    }
}

/// Neither end of `x` is a quote character.
pub open spec fn unquoted(x: Seq<char>) -> bool {
    x.len() > 0 ==> x[0] != '\'' && x[0] != '"' && x[x.len() - 1] != '\'' && x[x.len() - 1] != '"'
}

proof fn lemma_trim_quotes(x: Seq<char>)
    ensures
        unquoted(trim_chars(x, seq!['\'', '"'])),
{
    let set = seq!['\'', '"'];
    let u = trim_start_chars(x, set);
    let r = trim_chars(x, set);
    lemma_trim_start_chars_first(x, set);
    lemma_trim_end_chars_prefix(u, set);
    if r.len() > 0 {
        assert(r[0] == u[0]);
        assert(set[0] == '\'' && set[1] == '"');
        if r[0] == '\'' || r[0] == '"' || r.last() == '\'' || r.last() == '"' {
            if r[0] == '\'' || r.last() == '\'' {
                assert(set.contains('\''));
            } else {
                assert(set.contains('"'));
            }
        }
    }
}

proof fn lemma_js_imports_among(t: SyntaxTree, src: Seq<char>, lang: Lang, cs: Seq<usize>)
    requires
        lang is JavaScript || lang is TypeScript,
    ensures
        forall|k: int| 0 <= k < imports_among(t, src, lang, cs).len() ==> unquoted(#[trigger] imports_among(t, src, lang, cs)[k]),
    decreases cs.len(),
{
    if cs.len() > 0 {
        lemma_js_imports_among(t, src, lang, cs.drop_last());
        let pre = imports_among(t, src, lang, cs.drop_last());
        let last = node_imports(t, src, lang, cs.last() as int);
        let all = imports_among(t, src, lang, cs);
        assert(all == pre + last);
        assert forall|k: int| 0 <= k < last.len() implies unquoted(#[trigger] last[k]) by {
            let c = cs.last() as int;
            if let Some(x) = crate::syntax::field_text(t, src, c, "source"@) {
                lemma_trim_quotes(x);
            }
        }
        assert forall|k: int| 0 <= k < all.len() implies unquoted(#[trigger] all[k]) by {
            if k < pre.len() {
                assert(all[k] == pre[k]);
            } else {
                assert(all[k] == last[k - pre.len()]);
            }
        }
    }
}

/// The raw imports of a JavaScript or TypeScript file are the sources of
/// its import statements with their quotes trimmed: none starts or ends
/// with a single or double quote.
pub proof fn law_js_imports_unquoted(t: SyntaxTree, src: Seq<char>, lang: Lang)
    requires
        lang is JavaScript || lang is TypeScript,
    ensures
        forall|k: int| 0 <= k < file_imports(t, src, lang).len() ==> unquoted(#[trigger] file_imports(t, src, lang)[k]),
{
    lemma_js_imports_among(t, src, lang, t.children(0));
}

/// The source stored for `fp` among `es`, or nothing.
pub open spec fn source_in(es: Seq<(Seq<char>, FileNodeView)>, fp: Seq<char>) -> Seq<char> {
    match lookup_in(es, fp) {
        Some(n) => n.source,
        None => Seq::empty(),
    }
}

/// The symbol `sym`, defined in `fp`, counts as unused in `g` with files
/// `es`: its file is no entry point and has no recorded dependents; its name
/// is not `main`, `new`, `default` or `lib`, is defined once, is named by no
/// import (nor in lower case), and occurs on no other line of its file.
pub open spec fn reported_unused(g: DependencyGraph, es: Seq<(Seq<char>, FileNodeView)>, fp: Seq<char>, sym: SymbolView) -> bool {
    &&& g.dependents_of(fp).len() == 0
    &&& !entry_point(fp)
    &&& !exempt_name(sym.name)
    &&& count_named(definitions(es), sym.name) == 1
    &&& !imported(es, sym.name)
    &&& !imported(es, lowercase(sym.name))
    &&& !used_elsewhere(source_in(es, fp), sym.name, sym.line)
}

proof fn lemma_unused_from_files(g: DependencyGraph, es: Seq<(Seq<char>, FileNodeView)>, defs: Seq<(Seq<char>, SymbolView)>)
    ensures
        forall|k: int|
            0 <= k < g.unused_from(es, defs).len() ==> reported_unused(
                g,
                es,
                (#[trigger] g.unused_from(es, defs)[k]).file_path,
                g.unused_from(es, defs)[k].symbol,
            ),
        forall|k: int|
            0 <= k < defs.len() && reported_unused(g, es, (#[trigger] defs[k]).0, defs[k].1) ==> g.unused_from(
                es,
                defs,
            ).contains(UnusedView { file_path: defs[k].0, symbol: defs[k].1 }),
    decreases defs.len(),
{
    if defs.len() > 0 {
        let pre = defs.drop_last();
        lemma_unused_from_files(g, es, pre);
        let rest = g.unused_from(es, pre);
        let all = g.unused_from(es, defs);
        assert forall|k: int| 0 <= k < all.len() implies reported_unused(g, es, (#[trigger] all[k]).file_path, all[k].symbol) by {
            if k < rest.len() {
                assert(all[k] == rest[k]);
            }
        }
        assert forall|k: int|
            0 <= k < defs.len() && reported_unused(g, es, (#[trigger] defs[k]).0, defs[k].1) implies all.contains(
                UnusedView { file_path: defs[k].0, symbol: defs[k].1 },
            ) by {
            let u = UnusedView { file_path: defs[k].0, symbol: defs[k].1 };
            if k < pre.len() {
                assert(pre[k] == defs[k]);
                assert(reported_unused(g, es, pre[k].0, pre[k].1));
                let z = choose|z: int| 0 <= z < rest.len() && rest[z] == u;
                assert(all[z] == u);
            } else {
                assert(all[all.len() - 1] == u);
            }
        }
    }
}

/// The symbols that `unused_symbols` reports are exactly the definitions
/// that count as unused: each one reported counts as unused, and each
/// definition that counts as unused is reported.
pub proof fn law_unused_symbols_in_files_without_dependents(g: DependencyGraph)
    ensures
        forall|k: int|
            0 <= k < g.unused_from(g.entries(), definitions(g.entries())).len() ==> reported_unused(
                g,
                g.entries(),
                (#[trigger] g.unused_from(g.entries(), definitions(g.entries()))[k]).file_path,
                g.unused_from(g.entries(), definitions(g.entries()))[k].symbol,
            ),
        forall|k: int|
            0 <= k < definitions(g.entries()).len() && reported_unused(
                g,
                g.entries(),
                (#[trigger] definitions(g.entries())[k]).0,
                definitions(g.entries())[k].1,
            ) ==> g.unused_from(g.entries(), definitions(g.entries())).contains(
                UnusedView { file_path: definitions(g.entries())[k].0, symbol: definitions(g.entries())[k].1 },
            ),
{
    lemma_unused_from_files(g, g.entries(), definitions(g.entries()));
}

/// A file is an entry point exactly when its file name is one of `main.rs`,
/// `lib.rs`, `mod.rs`, `main.ts`, `main.tsx`, `main.js`, `main.jsx`,
/// `index.ts`, `index.tsx`, `index.js`, `index.jsx`, `App.tsx`, `App.ts`,
/// `App.js`, `App.jsx`, `app.tsx`, `app.ts`, `app.js`, `app.jsx`, `main.go`,
/// `main.py`, `main.java`, `__init__.py`, `main.c` and `main.cpp`.
pub proof fn law_entry_point_files(fp: Seq<char>, n: Seq<char>)
    requires
        path_file_name(fp) == Some(n),
    ensures
        entry_point(fp) <==> seq![
            "main.rs"@, "lib.rs"@, "mod.rs"@,
            "main.ts"@, "main.tsx"@, "main.js"@, "main.jsx"@,
            "index.ts"@, "index.tsx"@, "index.js"@, "index.jsx"@,
            "App.tsx"@, "App.ts"@, "App.js"@, "App.jsx"@,
            "app.tsx"@, "app.ts"@, "app.js"@, "app.jsx"@,
            "main.go"@, "main.py"@, "main.java"@,
            "__init__.py"@,
            "main.c"@, "main.cpp"@,
        ].contains(n),
{
}

proof fn lemma_orphans_among_files(g: DependencyGraph, es: Seq<(Seq<char>, FileNodeView)>)
    ensures
        forall|k: int|
            0 <= k < g.orphans_among(es).len() ==> g.dependents_of((#[trigger] g.orphans_among(es)[k]).file_path).len()
                == 0 && !entry_point(g.orphans_among(es)[k].file_path),
    decreases es.len(),
{
    if es.len() > 0 {
        lemma_orphans_among_files(g, es.drop_last());
        let rest = g.orphans_among(es.drop_last());
        let all = g.orphans_among(es);
        assert forall|k: int| 0 <= k < all.len() implies g.dependents_of((#[trigger] all[k]).file_path).len() == 0
            && !entry_point(all[k].file_path) by {
            if k < rest.len() {
                assert(all[k] == rest[k]);
            }
        }
    }
}

/// Every file that `orphans` reports is no entry point and has no recorded
/// dependents.
pub proof fn law_orphans_are_not_entry_points(g: DependencyGraph)
    ensures
        forall|k: int|
            0 <= k < g.orphans_among(g.entries()).len() ==> g.dependents_of(
                (#[trigger] g.orphans_among(g.entries())[k]).file_path,
            ).len() == 0 && !entry_point(g.orphans_among(g.entries())[k].file_path),
{
    lemma_orphans_among_files(g, g.entries());
}

/// Under the comment markers `m`, the line `l` is no comment: it is not a
/// line comment (a doc comment is none) and does not touch a block comment.
pub open spec fn no_comment_line(l: Seq<char>, m: SyntaxMarks) -> bool {
    let t = trim(l);
    &&& (m.block_start matches Some(bs) ==> !contains_text(t, bs))
    &&& (m.line_prefix matches Some(p) ==> !starts_with(t, p) || starts_with(
        t,
        match m.doc_prefix {
            Some(d) => d,
            None => "///"@,
        },
    ))
}

/// The lines `ls` one after another, each ended by a line break; a line
/// that is only whitespace becomes an empty line, and every other line is
/// kept exactly, leading whitespace included.
pub open spec fn kept_lines(ls: Seq<Seq<char>>) -> Seq<char>
    decreases ls.len(),
{
    if ls.len() == 0 {
        Seq::empty()
    } else {
        (if trim(ls[0]).len() == 0 {
            seq!['\n']
        } else {
            ls[0].push('\n')
        }) + kept_lines(ls.drop_first())
    }
}

proof fn lemma_strip_no_comment_lines(ls: Seq<Seq<char>>, m: SyntaxMarks)
    requires
        forall|k: int| 0 <= k < ls.len() ==> no_comment_line(#[trigger] ls[k], m),
    ensures
        strip_lines(ls, m, false) == kept_lines(ls),
    decreases ls.len(),
{
    if ls.len() > 0 {
        let rest = ls.drop_first();
        assert forall|k: int| 0 <= k < rest.len() implies no_comment_line(#[trigger] rest[k], m) by {
            assert(rest[k] == ls[k + 1]);
        }
        assert(no_comment_line(ls[0], m));
        lemma_strip_no_comment_lines(rest, m);
    }
}

/// Lines that are no comments pass through `strip_comments` unchanged,
/// leading whitespace included: when no line of `content` is a comment or
/// part of a block comment, the result is its lines one after another (those
/// that are only whitespace emptied), with runs of blank lines collapsed and
/// both ends trimmed.
pub proof fn law_code_lines_kept_verbatim(content: Seq<char>, lang: Option<Seq<char>>)
    requires
        forall|k: int| 0 <= k < lines(content).len() ==> no_comment_line(#[trigger] lines(content)[k], marks_for(lang)),
    ensures
        stripped(content, lang) == trim(collapse_breaks(kept_lines(lines(content)))),
{
    lemma_strip_no_comment_lines(lines(content), marks_for(lang));
    assert(uncommented(content, lang) == kept_lines(lines(content)));
}

/// The raw import that the JavaScript or TypeScript node `c` gives when it
/// is an import statement with a source.
pub open spec fn import_source_of(t: SyntaxTree, src: Seq<char>, c: int, v: Seq<char>) -> bool {
    &&& t.kind(c) == "import_statement"@
    &&& crate::syntax::field_text(t, src, c, "source"@) matches Some(x)
    &&& v == trim_chars(x, seq!['\'', '"'])
}

proof fn lemma_js_imports_sources(t: SyntaxTree, src: Seq<char>, lang: Lang, cs: Seq<usize>)
    requires
        lang is JavaScript || lang is TypeScript,
    ensures
        forall|k: int|
            #![trigger imports_among(t, src, lang, cs)[k]]
            0 <= k < imports_among(t, src, lang, cs).len() ==> exists|j: int|
                #![trigger cs[j]]
                0 <= j < cs.len() && import_source_of(t, src, cs[j] as int, imports_among(t, src, lang, cs)[k]),
        forall|j: int|
            0 <= j < cs.len() && t.kind(cs[j] as int) == "import_statement"@ ==> (crate::syntax::field_text(
                t,
                src,
                #[trigger] cs[j] as int,
                "source"@,
            ) matches Some(x) ==> imports_among(t, src, lang, cs).contains(trim_chars(x, seq!['\'', '"']))),
    decreases cs.len(),
{
    if cs.len() > 0 {
        let pre = cs.drop_last();
        lemma_js_imports_sources(t, src, lang, pre);
        let rest = imports_among(t, src, lang, pre);
        let c = cs.last();
        let last = node_imports(t, src, lang, c as int);
        let all = imports_among(t, src, lang, cs);
        assert(all == rest + last);
        assert(cs[cs.len() - 1] == c);
        assert forall|k: int| #![trigger all[k]] 0 <= k < all.len() implies exists|j: int|
            #![trigger cs[j]]
            0 <= j < cs.len() && import_source_of(t, src, cs[j] as int, all[k]) by {
            if k < rest.len() {
                assert(all[k] == rest[k]);
                let j = choose|j: int| #![trigger pre[j]] 0 <= j < pre.len() && import_source_of(t, src, pre[j] as int, rest[k]);
                assert(cs[j] == pre[j]);
            } else {
                assert(all[k] == last[k - rest.len()]);
                assert(import_source_of(t, src, cs[cs.len() - 1] as int, all[k]));
            }
        }
        assert forall|j: int|
            0 <= j < cs.len() && t.kind(cs[j] as int) == "import_statement"@ implies (crate::syntax::field_text(
                t,
                src,
                #[trigger] cs[j] as int,
                "source"@,
            ) matches Some(x) ==> all.contains(trim_chars(x, seq!['\'', '"']))) by {
            if let Some(x) = crate::syntax::field_text(t, src, cs[j] as int, "source"@) {
                let v = trim_chars(x, seq!['\'', '"']);
                if j < pre.len() {
                    assert(pre[j] == cs[j]);
                    let z = choose|z: int| 0 <= z < rest.len() && rest[z] == v;
                    assert(all[z] == v);
                } else {
                    assert(last[0] == v);
                    assert(all[rest.len() as int] == v);
                }
            }
        }
    }
}

/// The raw imports of a JavaScript or TypeScript file are exactly the
/// sources of its top-level import statements, each with single and double
/// quotes trimmed from both ends: each raw import comes from such a
/// statement, and each such statement gives one.
pub proof fn law_js_imports_are_statement_sources(t: SyntaxTree, src: Seq<char>, lang: Lang)
    requires
        lang is JavaScript || lang is TypeScript,
    ensures
        forall|k: int|
            #![trigger file_imports(t, src, lang)[k]]
            0 <= k < file_imports(t, src, lang).len() ==> exists|j: int|
                #![trigger t.children(0)[j]]
                0 <= j < t.children(0).len() && import_source_of(
                    t,
                    src,
                    t.children(0)[j] as int,
                    file_imports(t, src, lang)[k],
                ),
        forall|j: int|
            0 <= j < t.children(0).len() && t.kind(t.children(0)[j] as int) == "import_statement"@
                ==> (crate::syntax::field_text(t, src, #[trigger] t.children(0)[j] as int, "source"@) matches Some(x)
                ==> file_imports(t, src, lang).contains(trim_chars(x, seq!['\'', '"']))),
{
    lemma_js_imports_sources(t, src, lang, t.children(0));
}

} // verus!
