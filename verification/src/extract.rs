//! Top-level symbols and raw imports of a parsed file.
use vstd::prelude::*;

use crate::graph::{strs, Symbol, SymbolView};
use crate::parse::{child_list, lemma_chain_bounds, nat_seq, node_matches, rows_sorted, tree_matches, ts_shape, TsNode};
use crate::syntax::{
    child_of_kinds, find_child_by_kind, field_child, field_child_exec, field_text, kind_is,
    lemma_first_of_kinds_in, lemma_first_with_field_in, span_text_exec, SyntaxTree,
};
use crate::text::{
    chars_of, concat_chars, string_of, sub_chars, trim, trim_chars, trim_chars_exec, trim_end_chars,
    trim_end_chars_exec, trim_exec, trim_start_matches, trim_start_matches_exec,
};

verus! {

/// The languages whose files the graph understands.
#[derive(Clone, Copy, Debug, PartialEq, Eq, Structural)]
pub enum Lang {
    Rust,
    Python,
    JavaScript,
    TypeScript,
    Go,
    Java,
    C,
    Cpp,
}

/// The language with the given name.
pub open spec fn lang_named(name: Seq<char>) -> Option<Lang> {
    if name == "rust"@ {
        Some(Lang::Rust)
    } else if name == "python"@ {
        Some(Lang::Python)
    } else if name == "javascript"@ {
        Some(Lang::JavaScript)
    } else if name == "typescript"@ {
        Some(Lang::TypeScript)
    } else if name == "go"@ {
        Some(Lang::Go)
    } else if name == "java"@ {
        Some(Lang::Java)
    } else if name == "c"@ {
        Some(Lang::C)
    } else if name == "cpp"@ {
        Some(Lang::Cpp)
    } else {
        None
    }
}

/// The language with the given name.
pub fn lang_from_name(name: &str) -> (r: Option<Lang>)
    ensures
        r == lang_named(name@),
{
    let n = chars_of(name);
    if crate::text::eq_str(n.as_slice(), "rust") {
        Some(Lang::Rust)
    } else if crate::text::eq_str(n.as_slice(), "python") {
        Some(Lang::Python)
    } else if crate::text::eq_str(n.as_slice(), "javascript") {
        Some(Lang::JavaScript)
    } else if crate::text::eq_str(n.as_slice(), "typescript") {
        Some(Lang::TypeScript)
    } else if crate::text::eq_str(n.as_slice(), "go") {
        Some(Lang::Go)
    } else if crate::text::eq_str(n.as_slice(), "java") {
        Some(Lang::Java)
    } else if crate::text::eq_str(n.as_slice(), "c") {
        Some(Lang::C)
    } else if crate::text::eq_str(n.as_slice(), "cpp") {
        Some(Lang::Cpp)
    } else {
        None
    }
}

// ---------------------------------------------------------------------------
// Symbols
// ---------------------------------------------------------------------------

/// The line number (from one) of node `i`.
pub open spec fn line_of(t: SyntaxTree, i: int) -> nat {
    (t.nodes@[i].start_row + 1) as nat
}

/// A symbol of kind `sk` named by the text of the field `f` of node `i`.
pub open spec fn named(t: SyntaxTree, src: Seq<char>, i: int, sk: Seq<char>, f: Seq<char>) -> Option<SymbolView> {
    match field_text(t, src, i, f) {
        Some(n) => Some(SymbolView { name: n, kind: sk, line: line_of(t, i) }),
        None => None,
    }
}

/// At most the first 40 characters of `s`.
pub open spec fn first_forty(s: Seq<char>) -> Seq<char> {
    if s.len() > 40 {
        s.take(40)
    } else {
        s
    }
}

/// The name a C declarator gives a function definition.
pub open spec fn declarator_name(t: SyntaxTree, src: Seq<char>, i: int) -> Option<Seq<char>> {
    match field_child(t, i, "declarator"@) {
        Some(d) => match field_child(t, d as int, "declarator"@) {
            Some(n) => Some(t.text(src, n as int)),
            None => Some(t.text(src, d as int)),
        },
        None => None,
    }
}

/// The name of a C or C++ function definition: its declarator's, else the
/// start of its text.
pub open spec fn function_name(t: SyntaxTree, src: Seq<char>, i: int) -> Seq<char> {
    match declarator_name(t, src, i) {
        Some(n) => n,
        None => first_forty(t.text(src, i)),
    }
}

/// The name bound by a JavaScript variable declaration.
pub open spec fn variable_name(t: SyntaxTree, src: Seq<char>, i: int) -> Option<Seq<char>> {
    match field_child(t, i, "declarator"@) {
        Some(d) => field_text(t, src, d as int, "name"@),
        None => match child_of_kinds(t, i, seq!["variable_declarator"@]) {
            Some(c) => field_text(t, src, c as int, "name"@),
            None => None,
        },
    }
}

/// The name of the first Go `type_spec` among `cs` that has one.
pub open spec fn go_type_name(t: SyntaxTree, src: Seq<char>, cs: Seq<usize>) -> Option<Seq<char>>
    decreases cs.len(),
{
    if cs.len() == 0 {
        None
    } else if t.kind(cs[0] as int) == "type_spec"@ && field_child(t, cs[0] as int, "name"@) is Some {
        field_text(t, src, cs[0] as int, "name"@)
    } else {
        go_type_name(t, src, cs.drop_first())
    }
}

/// The declaration kinds that an `export` statement can carry.
pub open spec fn export_kinds() -> Seq<Seq<char>> {
    seq![
        "function_declaration"@,
        "class_declaration"@,
        "interface_declaration"@,
        "type_alias_declaration"@,
        "enum_declaration"@,
        "lexical_declaration"@,
    ]
}

/// The symbol that node `i` defines, if any.
pub open spec fn symbol_at(t: SyntaxTree, src: Seq<char>, lang: Lang, i: int) -> Option<SymbolView>
    decreases t.nodes@.len() - i,
{
    if !(0 <= i < t.nodes@.len()) {
        None
    } else {
        let k = t.kind(i);
        match lang {
            Lang::Rust => if k == "function_item"@ {
                named(t, src, i, "function"@, "name"@)
            } else if k == "struct_item"@ {
                named(t, src, i, "struct"@, "name"@)
            } else if k == "enum_item"@ {
                named(t, src, i, "enum"@, "name"@)
            } else if k == "trait_item"@ {
                named(t, src, i, "trait"@, "name"@)
            } else if k == "impl_item"@ {
                named(t, src, i, "impl"@, "type"@)
            } else if k == "mod_item"@ {
                named(t, src, i, "module"@, "name"@)
            } else if k == "const_item"@ {
                named(t, src, i, "const"@, "name"@)
            } else if k == "static_item"@ {
                named(t, src, i, "static"@, "name"@)
            } else if k == "type_item"@ {
                named(t, src, i, "type_alias"@, "name"@)
            } else if k == "macro_definition"@ {
                named(t, src, i, "macro"@, "name"@)
            } else {
                None
            },
            Lang::Python => if k == "function_definition"@ {
                named(t, src, i, "function"@, "name"@)
            } else if k == "class_definition"@ {
                named(t, src, i, "class"@, "name"@)
            } else if k == "decorated_definition"@ {
                match field_child(t, i, "definition"@) {
                    Some(c) => if i < c < t.nodes@.len() {
                        symbol_at(t, src, lang, c as int)
                    } else {
                        None
                    },
                    None => None,
                }
            } else {
                None
            },
            Lang::JavaScript | Lang::TypeScript => if k == "function_declaration"@ {
                named(t, src, i, "function"@, "name"@)
            } else if k == "class_declaration"@ {
                named(t, src, i, "class"@, "name"@)
            } else if k == "interface_declaration"@ {
                named(t, src, i, "interface"@, "name"@)
            } else if k == "type_alias_declaration"@ {
                named(t, src, i, "type_alias"@, "name"@)
            } else if k == "enum_declaration"@ {
                named(t, src, i, "enum"@, "name"@)
            } else if k == "export_statement"@ {
                match child_of_kinds(t, i, export_kinds()) {
                    Some(c) => if i < c < t.nodes@.len() {
                        symbol_at(t, src, lang, c as int)
                    } else {
                        None
                    },
                    None => None,
                }
            } else if k == "lexical_declaration"@ || k == "variable_declaration"@ {
                match variable_name(t, src, i) {
                    Some(n) => Some(SymbolView { name: n, kind: "const"@, line: line_of(t, i) }),
                    None => None,
                }
            } else {
                None
            },
            Lang::Go => if k == "function_declaration"@ {
                named(t, src, i, "function"@, "name"@)
            } else if k == "method_declaration"@ {
                named(t, src, i, "method"@, "name"@)
            } else if k == "type_declaration"@ {
                match go_type_name(t, src, t.children(i)) {
                    Some(n) => Some(SymbolView { name: n, kind: "type"@, line: line_of(t, i) }),
                    None => None,
                }
            } else {
                None
            },
            Lang::Java => if k == "class_declaration"@ {
                named(t, src, i, "class"@, "name"@)
            } else if k == "interface_declaration"@ {
                named(t, src, i, "interface"@, "name"@)
            } else if k == "enum_declaration"@ {
                named(t, src, i, "enum"@, "name"@)
            } else if k == "method_declaration"@ {
                named(t, src, i, "method"@, "name"@)
            } else if k == "record_declaration"@ {
                named(t, src, i, "record"@, "name"@)
            } else {
                None
            },
            Lang::C => if k == "function_definition"@ {
                Some(SymbolView { name: function_name(t, src, i), kind: "function"@, line: line_of(t, i) })
            } else {
                None
            },
            Lang::Cpp => if k == "function_definition"@ {
                Some(SymbolView { name: function_name(t, src, i), kind: "function"@, line: line_of(t, i) })
            } else if k == "class_specifier"@ {
                named(t, src, i, "class"@, "name"@)
            } else if k == "struct_specifier"@ {
                named(t, src, i, "struct"@, "name"@)
            } else if k == "namespace_definition"@ {
                named(t, src, i, "namespace"@, "name"@)
            } else {
                None
            },
        }
    }
}

/// The symbols defined by the nodes `cs`, in order.
pub open spec fn symbols_among(t: SyntaxTree, src: Seq<char>, lang: Lang, cs: Seq<usize>) -> Seq<SymbolView>
    decreases cs.len(),
{
    if cs.len() == 0 {
        Seq::empty()
    } else {
        let rest = symbols_among(t, src, lang, cs.drop_last());
        match symbol_at(t, src, lang, cs.last() as int) {
            Some(s) => rest.push(s),
            None => rest,
        }
    }
}

/// The symbols that a file defines at its top level.
pub open spec fn file_symbols(t: SyntaxTree, src: Seq<char>, lang: Lang) -> Seq<SymbolView> {
    symbols_among(t, src, lang, t.children(0))
}

/// The lines of `syms` never go back up.
pub open spec fn lines_sorted(syms: Seq<SymbolView>) -> bool {
    forall|p: int, q: int| 0 <= p < q < syms.len() ==> syms[p].line <= syms[q].line
}

/// A child of node `i` lies inside the subtree of `i`, with its own subtree.
proof fn lemma_child_within(t: SyntaxTree, ms: Seq<TsNode>, i: int, c: usize)
    requires
        tree_matches(t, ms),
        ts_shape(ms),
        0 <= i < ms.len(),
        t.children(i).contains(c),
    ensures
        i < c < ms[c as int].end <= ms[i].end,
{
    let k = choose|k: int| 0 <= k < t.children(i).len() && t.children(i)[k] == c;
    assert(node_matches(t.nodes@[i], ms[i]));
    assert(nat_seq(t.nodes@[i].children@)[k] == c as nat);
    lemma_chain_bounds(ms, i + 1, ms[i].end as int);
    assert(child_list(ms, i)[k] == c as nat);
}

/// Rows that never go back up give lines that never go back up.
proof fn lemma_lines_follow_rows(t: SyntaxTree, ms: Seq<TsNode>, a: int, b: int)
    requires
        tree_matches(t, ms),
        rows_sorted(ms),
        0 <= a <= b < ms.len(),
    ensures
        line_of(t, a) <= line_of(t, b),
{
    assert(node_matches(t.nodes@[a], ms[a]));
    assert(node_matches(t.nodes@[b], ms[b]));
    assert(ms[a].start_row <= ms[b].start_row);
}

/// The line of a symbol that node `i` defines is the line of a node in the
/// subtree of `i`: the returned one.
proof fn lemma_symbol_line_within(t: SyntaxTree, ms: Seq<TsNode>, src: Seq<char>, lang: Lang, i: int) -> (x: int)
    requires
        tree_matches(t, ms),
        ts_shape(ms),
        0 <= i < ms.len(),
    ensures
        i <= x < ms[i].end,
        symbol_at(t, src, lang, i) matches Some(s) ==> s.line == line_of(t, x),
    decreases ms.len() - i,
{
    let k = t.kind(i);
    if lang is Python {
        if k == "function_definition"@ || k == "class_definition"@ {
            return i;
        }
        if k == "decorated_definition"@ {
            if let Some(c) = field_child(t, i, "definition"@) {
                if i < c < t.nodes@.len() {
                    lemma_first_with_field_in(t, t.children(i), "definition"@);
                    lemma_child_within(t, ms, i, c);
                    let y = lemma_symbol_line_within(t, ms, src, lang, c as int);
                    assert(symbol_at(t, src, lang, i) == symbol_at(t, src, lang, c as int));
                    return y;
                }
            }
        }
        i
    } else if lang is JavaScript || lang is TypeScript {
        if k == "function_declaration"@ || k == "class_declaration"@ || k == "interface_declaration"@
            || k == "type_alias_declaration"@ || k == "enum_declaration"@ {
            return i;
        }
        if k == "export_statement"@ {
            if let Some(c) = child_of_kinds(t, i, export_kinds()) {
                if i < c < t.nodes@.len() {
                    lemma_first_of_kinds_in(t, t.children(i), export_kinds());
                    lemma_child_within(t, ms, i, c);
                    let y = lemma_symbol_line_within(t, ms, src, lang, c as int);
                    assert(symbol_at(t, src, lang, i) == symbol_at(t, src, lang, c as int));
                    return y;
                }
            }
        }
        i
    } else {
        i
    }
}

/// The symbols that nodes `cs` define come in line order when each node of
/// `cs` starts where the subtree of the one before it ends or later; and
/// each is on a line no later than that of any node after the subtree of
/// the last of `cs`.
pub proof fn lemma_symbols_among_lines(t: SyntaxTree, ms: Seq<TsNode>, src: Seq<char>, lang: Lang, cs: Seq<usize>)
    requires
        tree_matches(t, ms),
        ts_shape(ms),
        rows_sorted(ms),
        forall|k: int| 0 <= k < cs.len() ==> #[trigger] cs[k] < ms.len(),
        forall|k: int, l: int| #![trigger cs[k], cs[l]] 0 <= k < l < cs.len() ==> ms[cs[k] as int].end <= cs[l],
    ensures
        lines_sorted(symbols_among(t, src, lang, cs)),
        cs.len() > 0 ==> forall|p: int, y: int|
            #![trigger symbols_among(t, src, lang, cs)[p], line_of(t, y)]
            0 <= p < symbols_among(t, src, lang, cs).len() && ms[cs.last() as int].end <= y < ms.len()
                ==> symbols_among(t, src, lang, cs)[p].line <= line_of(t, y),
    decreases cs.len(),
{
    if cs.len() > 0 {
        let pre = cs.drop_last();
        let c = cs.last();
        assert forall|k: int| 0 <= k < pre.len() implies #[trigger] pre[k] < ms.len() by {
            assert(pre[k] == cs[k]);
        }
        assert forall|k: int, l: int| #![trigger pre[k], pre[l]] 0 <= k < l < pre.len() implies ms[pre[k] as int].end <= pre[l] by {
            assert(pre[k] == cs[k] && pre[l] == cs[l]);
        }
        lemma_symbols_among_lines(t, ms, src, lang, pre);
        assert(c == cs[cs.len() - 1]);
        assert(c < ms.len());
        let x = lemma_symbol_line_within(t, ms, src, lang, c as int);
        let rest = symbols_among(t, src, lang, pre);
        let all = symbols_among(t, src, lang, cs);
        if pre.len() > 0 {
            assert(pre.last() == cs[cs.len() - 2]);
            assert(ms[pre.last() as int].end <= c);
        }
        match symbol_at(t, src, lang, c as int) {
            Some(s) => {
                assert(all == rest.push(s));
                assert forall|p: int, q: int| 0 <= p < q < all.len() implies all[p].line <= all[q].line by {
                    if q == all.len() - 1 {
                        assert(all[p] == rest[p]);
                        assert(rest[p].line <= line_of(t, x));
                    } else {
                        assert(all[p] == rest[p] && all[q] == rest[q]);
                    }
                }
                assert forall|p: int, y: int|
                    #![trigger all[p], line_of(t, y)]
                    0 <= p < all.len() && ms[c as int].end <= y < ms.len() implies all[p].line <= line_of(t, y) by {
                    lemma_lines_follow_rows(t, ms, x, y);
                    if p < rest.len() {
                        assert(all[p] == rest[p]);
                        assert(rest[p].line <= line_of(t, x));
                    }
                }
            },
            None => {
                assert(all == rest);
                assert forall|p: int, y: int|
                    #![trigger all[p], line_of(t, y)]
                    0 <= p < all.len() && ms[c as int].end <= y < ms.len() implies all[p].line <= line_of(t, y) by {
                    assert(rest[p].line <= line_of(t, y));
                }
            },
        }
    }
}

// ---------------------------------------------------------------------------
// Imports
// ---------------------------------------------------------------------------

/// The path that a Rust `use` declaration names.
pub open spec fn rust_use_path(t: SyntaxTree, src: Seq<char>, c: int) -> Seq<char> {
    match child_of_kinds(t, c, seq!["use_tree"@, "scoped_identifier"@, "identifier"@]) {
        Some(k) => t.text(src, k as int),
        None => trim(trim_end_chars(trim_start_matches(t.text(src, c), "use "@), seq![';'])),
    }
}

/// The import path of a Go `import_spec`, if it has one.
pub open spec fn go_spec_path(t: SyntaxTree, src: Seq<char>, c: int) -> Seq<Seq<char>> {
    match field_text(t, src, c, "path"@) {
        Some(p) => seq![trim_chars(p, seq!['"'])],
        None => Seq::empty(),
    }
}

/// The paths of the Go `import_spec` nodes among `cs`.
pub open spec fn go_spec_paths(t: SyntaxTree, src: Seq<char>, cs: Seq<usize>) -> Seq<Seq<char>>
    decreases cs.len(),
{
    if cs.len() == 0 {
        Seq::empty()
    } else {
        go_spec_paths(t, src, cs.drop_last()) + if t.kind(cs.last() as int) == "import_spec"@ {
            go_spec_path(t, src, cs.last() as int)
        } else {
            Seq::empty()
        }
    }
}

/// The paths imported by the children `cs` of a Go import declaration.
pub open spec fn go_imports(t: SyntaxTree, src: Seq<char>, cs: Seq<usize>) -> Seq<Seq<char>>
    decreases cs.len(),
{
    if cs.len() == 0 {
        Seq::empty()
    } else {
        let c = cs.last() as int;
        go_imports(t, src, cs.drop_last()) + if t.kind(c) == "import_spec_list"@ {
            go_spec_paths(t, src, t.children(c))
        } else if t.kind(c) == "import_spec"@ {
            go_spec_path(t, src, c)
        } else {
            Seq::empty()
        }
    }
}

/// The optional text `x` as a sequence of zero or one texts.
pub open spec fn opt_seq(x: Option<Seq<char>>) -> Seq<Seq<char>> {
    match x {
        Some(v) => seq![v],
        None => Seq::empty(),
    }
}

/// The raw imports that the top-level node `c` contributes.
pub open spec fn node_imports(t: SyntaxTree, src: Seq<char>, lang: Lang, c: int) -> Seq<Seq<char>> {
    let k = t.kind(c);
    match lang {
        Lang::Rust => if k == "use_declaration"@ {
            seq![rust_use_path(t, src, c)]
        } else if k == "mod_item"@ && field_child(t, c, "body"@) is None {
            match field_text(t, src, c, "name"@) {
                Some(n) => seq!["mod:"@ + n],
                None => Seq::empty(),
            }
        } else {
            Seq::empty()
        },
        Lang::Python => if k == "import_statement"@ {
            match child_of_kinds(t, c, seq!["dotted_name"@]) {
                Some(d) => seq![t.text(src, d as int)],
                None => Seq::empty(),
            }
        } else if k == "import_from_statement"@ {
            opt_seq(field_text(t, src, c, "module_name"@))
        } else {
            Seq::empty()
        },
        Lang::JavaScript | Lang::TypeScript => if k == "import_statement"@ {
            match field_text(t, src, c, "source"@) {
                Some(x) => seq![trim_chars(x, seq!['\'', '"'])],
                None => Seq::empty(),
            }
        } else {
            Seq::empty()
        },
        Lang::Go => if k == "import_declaration"@ {
            go_imports(t, src, t.children(c))
        } else {
            Seq::empty()
        },
        Lang::Java => if k == "import_declaration"@ {
            seq![
                trim(
                    trim_end_chars(
                        trim_start_matches(trim_start_matches(t.text(src, c), "import "@), "static "@),
                        seq![';'],
                    ),
                ),
            ]
        } else {
            Seq::empty()
        },
        Lang::C | Lang::Cpp => if k == "preproc_include"@ {
            match field_text(t, src, c, "path"@) {
                Some(x) => seq![trim_chars(x, seq!['"', '<', '>'])],
                None => Seq::empty(),
            }
        } else {
            Seq::empty()
        },
    }
}

/// The raw imports of the nodes `cs`, in order.
pub open spec fn imports_among(t: SyntaxTree, src: Seq<char>, lang: Lang, cs: Seq<usize>) -> Seq<Seq<char>>
    decreases cs.len(),
{
    if cs.len() == 0 {
        Seq::empty()
    } else {
        imports_among(t, src, lang, cs.drop_last()) + node_imports(t, src, lang, cs.last() as int)
    }
}

/// The raw imports of a file: what its top-level import statements name.
pub open spec fn file_imports(t: SyntaxTree, src: Seq<char>, lang: Lang) -> Seq<Seq<char>> {
    imports_among(t, src, lang, t.children(0))
}


// ---------------------------------------------------------------------------
// Executable extraction
// ---------------------------------------------------------------------------

/// The view of an optional symbol.
pub open spec fn sym_opt(r: Option<Symbol>) -> Option<SymbolView> {
    match r {
        Some(s) => Some(s@),
        None => None,
    }
}

/// The source text of node `i`.
pub fn node_text(t: &SyntaxTree, src: &str, i: usize) -> (r: String)
    requires
        t.fits(src@),
        i < t.len(),
    ensures
        r@ == t.text(src@, i as int),
{
    let n = &t.nodes[i];
    assert(crate::syntax::span_ok(src@, n.start_byte as int, n.end_byte as int));
    span_text_exec(src, n.start_byte, n.end_byte)
}

/// The text of the child of node `i` under field `f`.
pub fn find_child_text(t: &SyntaxTree, src: &str, i: usize, f: &str) -> (r: Option<String>)
    requires
        t.wf(),
        t.fits(src@),
        i < t.len(),
    ensures
        r.deep_view() == field_text(*t, src@, i as int, f@),
{
    let fc = chars_of(f);
    match field_child_exec(t, i, fc.as_slice()) {
        Some(c) => Some(node_text(t, src, c)),
        None => None,
    }
}

fn line_exec(t: &SyntaxTree, src: Ghost<Seq<char>>, i: usize) -> (r: usize)
    requires
        t.fits(src@),
        i < t.len(),
    ensures
        r == line_of(*t, i as int),
{
    let n = &t.nodes[i];
    assert(t.nodes@[i as int].start_byte == n.start_byte);
    n.start_row + 1
}

fn named_exec(t: &SyntaxTree, src: &str, i: usize, sk: &str, f: &str) -> (r: Option<Symbol>)
    requires
        t.wf(),
        t.fits(src@),
        i < t.len(),
    ensures
        sym_opt(r) == named(*t, src@, i as int, sk@, f@),
{
    match find_child_text(t, src, i, f) {
        Some(name) => Some(Symbol { name, kind: sk.to_owned(), line: line_exec(t, Ghost(src@), i) }),
        None => None,
    }
}

fn text_list(a: &str, b: &str, c: &str) -> (r: Vec<Vec<char>>)
    ensures
        r@.map_values(|v: Vec<char>| v@) == seq![a@, b@, c@],
{
    let mut r: Vec<Vec<char>> = Vec::new();
    r.push(chars_of(a));
    r.push(chars_of(b));
    r.push(chars_of(c));
    assert(r@.map_values(|v: Vec<char>| v@) =~= seq![a@, b@, c@]);
    r
}

fn one_text(a: &str) -> (r: Vec<Vec<char>>)
    ensures
        r@.map_values(|v: Vec<char>| v@) == seq![a@],
{
    let mut r: Vec<Vec<char>> = Vec::new();
    r.push(chars_of(a));
    assert(r@.map_values(|v: Vec<char>| v@) =~= seq![a@]);
    r
}

fn export_kinds_exec() -> (r: Vec<Vec<char>>)
    ensures
        r@.map_values(|v: Vec<char>| v@) == export_kinds(),
{
    let mut r: Vec<Vec<char>> = Vec::new();
    r.push(chars_of("function_declaration"));
    r.push(chars_of("class_declaration"));
    r.push(chars_of("interface_declaration"));
    r.push(chars_of("type_alias_declaration"));
    r.push(chars_of("enum_declaration"));
    r.push(chars_of("lexical_declaration"));
    assert(r@.map_values(|v: Vec<char>| v@) =~= export_kinds());
    r
}

/// The name a C declarator gives the function definition `i`.
fn find_declarator_name(t: &SyntaxTree, src: &str, i: usize) -> (r: Option<String>)
    requires
        t.wf(),
        t.fits(src@),
        i < t.len(),
    ensures
        r.deep_view() == declarator_name(*t, src@, i as int),
{
    let decl = chars_of("declarator");
    match field_child_exec(t, i, decl.as_slice()) {
        Some(d) => match field_child_exec(t, d, decl.as_slice()) {
            Some(n) => Some(node_text(t, src, n)),
            None => Some(node_text(t, src, d)),
        },
        None => None,
    }
}

fn function_name_exec(t: &SyntaxTree, src: &str, i: usize) -> (r: String)
    requires
        t.wf(),
        t.fits(src@),
        i < t.len(),
    ensures
        r@ == function_name(*t, src@, i as int),
{
    match find_declarator_name(t, src, i) {
        Some(n) => n,
        None => {
            let whole = chars_of(node_text(t, src, i).as_str());
            if whole.len() > 40 {
                let head = sub_chars(whole.as_slice(), 0, 40);
                string_of(head.as_slice())
            } else {
                string_of(whole.as_slice())
            }
        },
    }
}

fn find_variable_name(t: &SyntaxTree, src: &str, i: usize) -> (r: Option<String>)
    requires
        t.wf(),
        t.fits(src@),
        i < t.len(),
    ensures
        r.deep_view() == variable_name(*t, src@, i as int),
{
    let decl = chars_of("declarator");
    match field_child_exec(t, i, decl.as_slice()) {
        Some(d) => find_child_text(t, src, d, "name"),
        None => {
            let ks = one_text("variable_declarator");
            match find_child_by_kind(t, i, &ks) {
                Some(c) => find_child_text(t, src, c, "name"),
                None => None,
            }
        },
    }
}

proof fn lemma_go_type_name_skip(t: SyntaxTree, src: Seq<char>, cs: Seq<usize>, k: int)
    requires
        0 <= k <= cs.len(),
        forall|j: int|
            0 <= j < k ==> !(t.kind(cs[j] as int) == "type_spec"@ && field_child(t, cs[j] as int, "name"@) is Some),
    ensures
        go_type_name(t, src, cs) == go_type_name(t, src, cs.skip(k)),
    decreases k,
{
    if k == 0 {
        assert(cs.skip(0) =~= cs);
    } else {
        assert forall|j: int| 0 <= j < k - 1 implies !(t.kind(cs.drop_first()[j] as int) == "type_spec"@
            && field_child(t, cs.drop_first()[j] as int, "name"@) is Some) by {
            assert(cs.drop_first()[j] == cs[j + 1]);
        }
        lemma_go_type_name_skip(t, src, cs.drop_first(), k - 1);
        assert(cs.drop_first().skip(k - 1) =~= cs.skip(k));
    }
}

fn go_type_name_exec(t: &SyntaxTree, src: &str, i: usize) -> (r: Option<String>)
    requires
        t.wf(),
        t.fits(src@),
        i < t.len(),
    ensures
        r.deep_view() == go_type_name(*t, src@, t.children(i as int)),
{
    let cs = &t.nodes[i].children;
    let name = chars_of("name");
    let mut k: usize = 0;
    while k < cs.len()
        invariant
            t.wf(),
            t.fits(src@),
            i < t.len(),
            cs@ == t.children(i as int),
            name@ == "name"@,
            k <= cs@.len(),
            forall|j: int|
                0 <= j < k ==> !(t.kind(cs@[j] as int) == "type_spec"@ && field_child(
                    *t,
                    cs@[j] as int,
                    "name"@,
                ) is Some),
        decreases cs@.len() - k,
    {
        let c = cs[k];
        assert(i < c < t.len());
        if kind_is(t, c, "type_spec") {
            if let Some(nc) = field_child_exec(t, c, name.as_slice()) {
                proof {
                    lemma_go_type_name_skip(*t, src@, cs@, k as int);
                    assert(cs@.skip(k as int)[0] == c);
                }
                return Some(node_text(t, src, nc));
            }
        }
        k = k + 1;
    }
    proof {
        lemma_go_type_name_skip(*t, src@, cs@, k as int);
    }
    None
}

/// The symbol that node `i` defines, if any.
pub fn extract_symbol_from_node(t: &SyntaxTree, src: &str, lang: Lang, i: usize) -> (r: Option<Symbol>)
    requires
        t.wf(),
        t.fits(src@),
        i < t.len(),
    ensures
        sym_opt(r) == symbol_at(*t, src@, lang, i as int),
    decreases t.nodes@.len() - i,
{
    let k = chars_of(t.nodes[i].kind.as_str());
    let k = k.as_slice();
    let line = line_exec(t, Ghost(src@), i);
    match lang {
        Lang::Rust => {
            if crate::text::eq_str(k, "function_item") {
                named_exec(t, src, i, "function", "name")
            } else if crate::text::eq_str(k, "struct_item") {
                named_exec(t, src, i, "struct", "name")
            } else if crate::text::eq_str(k, "enum_item") {
                named_exec(t, src, i, "enum", "name")
            } else if crate::text::eq_str(k, "trait_item") {
                named_exec(t, src, i, "trait", "name")
            } else if crate::text::eq_str(k, "impl_item") {
                named_exec(t, src, i, "impl", "type")
            } else if crate::text::eq_str(k, "mod_item") {
                named_exec(t, src, i, "module", "name")
            } else if crate::text::eq_str(k, "const_item") {
                named_exec(t, src, i, "const", "name")
            } else if crate::text::eq_str(k, "static_item") {
                named_exec(t, src, i, "static", "name")
            } else if crate::text::eq_str(k, "type_item") {
                named_exec(t, src, i, "type_alias", "name")
            } else if crate::text::eq_str(k, "macro_definition") {
                named_exec(t, src, i, "macro", "name")
            } else {
                None
            }
        },
        Lang::Python => {
            if crate::text::eq_str(k, "function_definition") {
                named_exec(t, src, i, "function", "name")
            } else if crate::text::eq_str(k, "class_definition") {
                named_exec(t, src, i, "class", "name")
            } else if crate::text::eq_str(k, "decorated_definition") {
                let f = chars_of("definition");
                match field_child_exec(t, i, f.as_slice()) {
                    Some(c) => extract_symbol_from_node(t, src, lang, c),
                    None => None,
                }
            } else {
                None
            }
        },
        Lang::JavaScript | Lang::TypeScript => {
            if crate::text::eq_str(k, "function_declaration") {
                named_exec(t, src, i, "function", "name")
            } else if crate::text::eq_str(k, "class_declaration") {
                named_exec(t, src, i, "class", "name")
            } else if crate::text::eq_str(k, "interface_declaration") {
                named_exec(t, src, i, "interface", "name")
            } else if crate::text::eq_str(k, "type_alias_declaration") {
                named_exec(t, src, i, "type_alias", "name")
            } else if crate::text::eq_str(k, "enum_declaration") {
                named_exec(t, src, i, "enum", "name")
            } else if crate::text::eq_str(k, "export_statement") {
                let ks = export_kinds_exec();
                match find_child_by_kind(t, i, &ks) {
                    Some(c) => extract_symbol_from_node(t, src, lang, c),
                    None => None,
                }
            } else if crate::text::eq_str(k, "lexical_declaration") || crate::text::eq_str(
                k,
                "variable_declaration",
            ) {
                match find_variable_name(t, src, i) {
                    Some(name) => Some(Symbol { name, kind: "const".to_owned(), line }),
                    None => None,
                }
            } else {
                None
            }
        },
        Lang::Go => {
            if crate::text::eq_str(k, "function_declaration") {
                named_exec(t, src, i, "function", "name")
            } else if crate::text::eq_str(k, "method_declaration") {
                named_exec(t, src, i, "method", "name")
            } else if crate::text::eq_str(k, "type_declaration") {
                match go_type_name_exec(t, src, i) {
                    Some(name) => Some(Symbol { name, kind: "type".to_owned(), line }),
                    None => None,
                }
            } else {
                None
            }
        },
        Lang::Java => {
            if crate::text::eq_str(k, "class_declaration") {
                named_exec(t, src, i, "class", "name")
            } else if crate::text::eq_str(k, "interface_declaration") {
                named_exec(t, src, i, "interface", "name")
            } else if crate::text::eq_str(k, "enum_declaration") {
                named_exec(t, src, i, "enum", "name")
            } else if crate::text::eq_str(k, "method_declaration") {
                named_exec(t, src, i, "method", "name")
            } else if crate::text::eq_str(k, "record_declaration") {
                named_exec(t, src, i, "record", "name")
            } else {
                None
            }
        },
        Lang::C => {
            if crate::text::eq_str(k, "function_definition") {
                Some(Symbol { name: function_name_exec(t, src, i), kind: "function".to_owned(), line })
            } else {
                None
            }
        },
        Lang::Cpp => {
            if crate::text::eq_str(k, "function_definition") {
                Some(Symbol { name: function_name_exec(t, src, i), kind: "function".to_owned(), line })
            } else if crate::text::eq_str(k, "class_specifier") {
                named_exec(t, src, i, "class", "name")
            } else if crate::text::eq_str(k, "struct_specifier") {
                named_exec(t, src, i, "struct", "name")
            } else if crate::text::eq_str(k, "namespace_definition") {
                named_exec(t, src, i, "namespace", "name")
            } else {
                None
            }
        },
    }
}

/// The views of a sequence of symbols.
pub open spec fn sym_views(v: Seq<Symbol>) -> Seq<SymbolView> {
    v.map_values(|s: Symbol| s@)
}

/// The symbols that a parsed file defines at its top level.
pub fn extract_symbols(t: &SyntaxTree, src: &str, lang: Lang) -> (r: Vec<Symbol>)
    requires
        t.wf(),
        t.fits(src@),
    ensures
        sym_views(r@) == file_symbols(*t, src@, lang),
{
    let cs = &t.nodes[0].children;
    let mut out: Vec<Symbol> = Vec::new();
    let mut k: usize = 0;
    assert(cs@.take(0) =~= Seq::<usize>::empty());
    while k < cs.len()
        invariant
            t.wf(),
            t.fits(src@),
            cs@ == t.children(0),
            k <= cs@.len(),
            sym_views(out@) == symbols_among(*t, src@, lang, cs@.take(k as int)),
        decreases cs@.len() - k,
    {
        let c = cs[k];
        assert(0 < c < t.len());
        let ghost before = out@;
        match extract_symbol_from_node(t, src, lang, c) {
            Some(sym) => {
                out.push(sym);
            },
            None => {},
        }
        proof {
            assert(cs@.take(k + 1).drop_last() =~= cs@.take(k as int));
            assert(cs@.take(k + 1).last() == c);
            assert(sym_views(out@) =~= symbols_among(*t, src@, lang, cs@.take(k + 1)));
        }
        k = k + 1;
    }
    assert(cs@.take(cs@.len() as int) =~= cs@);
    out
}


fn extract_rust_use_path(t: &SyntaxTree, src: &str, c: usize) -> (r: String)
    requires
        t.wf(),
        t.fits(src@),
        c < t.len(),
    ensures
        r@ == rust_use_path(*t, src@, c as int),
{
    let ks = text_list("use_tree", "scoped_identifier", "identifier");
    match find_child_by_kind(t, c, &ks) {
        Some(k) => node_text(t, src, k),
        None => {
            let whole = chars_of(node_text(t, src, c).as_str());
            let p = chars_of("use ");
            let a = trim_start_matches_exec(whole.as_slice(), p.as_slice());
            let semi = vec![';'];
            let b = trim_end_chars_exec(a.as_slice(), semi.as_slice());
            assert(semi@ =~= seq![';']);
            let d = trim_exec(b.as_slice());
            string_of(d.as_slice())
        },
    }
}

/// Appends `v` to `out` when it is present.
fn push_opt(out: &mut Vec<String>, v: Option<String>)
    ensures
        strs(final(out)@) == strs(old(out)@) + match v {
            Some(s) => seq![s@],
            None => Seq::<Seq<char>>::empty(),
        },
{
    let ghost before = strs(out@);
    match v {
        Some(s) => {
            out.push(s);
        },
        None => {},
    }
    assert(strs(out@) =~= before + match v {
        Some(s) => seq![s@],
        None => Seq::<Seq<char>>::empty(),
    });
}

/// The text `x` with the characters of `set` trimmed from both ends.
fn trimmed_string(x: &String, set: &[char]) -> (r: String)
    ensures
        r@ == crate::text::trim_chars(x@, set@),
{
    let xc = chars_of(x.as_str());
    let y = trim_chars_exec(xc.as_slice(), set);
    string_of(y.as_slice())
}

fn go_spec_path_exec(t: &SyntaxTree, src: &str, c: usize, out: &mut Vec<String>)
    requires
        t.wf(),
        t.fits(src@),
        c < t.len(),
    ensures
        strs(final(out)@) == strs(old(out)@) + go_spec_path(*t, src@, c as int),
{
    let quote = vec!['"'];
    assert(quote@ =~= seq!['"']);
    let v = match find_child_text(t, src, c, "path") {
        Some(p) => Some(trimmed_string(&p, quote.as_slice())),
        None => None,
    };
    push_opt(out, v);
}

fn go_spec_paths_exec(t: &SyntaxTree, src: &str, i: usize, out: &mut Vec<String>)
    requires
        t.wf(),
        t.fits(src@),
        i < t.len(),
    ensures
        strs(final(out)@) == strs(old(out)@) + go_spec_paths(*t, src@, t.children(i as int)),
{
    let cs = &t.nodes[i].children;
    let ghost start = strs(out@);
    let mut k: usize = 0;
    assert(cs@.take(0) =~= Seq::<usize>::empty());
    assert(start + Seq::<Seq<char>>::empty() =~= start);
    while k < cs.len()
        invariant
            t.wf(),
            t.fits(src@),
            i < t.len(),
            cs@ == t.children(i as int),
            k <= cs@.len(),
            strs(out@) == start + go_spec_paths(*t, src@, cs@.take(k as int)),
        decreases cs@.len() - k,
    {
        let c = cs[k];
        assert(i < c < t.len());
        let ghost before = strs(out@);
        if kind_is(t, c, "import_spec") {
            go_spec_path_exec(t, src, c, out);
        }
        proof {
            assert(cs@.take(k + 1).drop_last() =~= cs@.take(k as int));
            assert(cs@.take(k + 1).last() == c);
            assert(strs(out@) =~= start + go_spec_paths(*t, src@, cs@.take(k + 1)));
        }
        k = k + 1;
    }
    assert(cs@.take(cs@.len() as int) =~= cs@);
}

fn extract_go_imports(t: &SyntaxTree, src: &str, i: usize, out: &mut Vec<String>)
    requires
        t.wf(),
        t.fits(src@),
        i < t.len(),
    ensures
        strs(final(out)@) == strs(old(out)@) + go_imports(*t, src@, t.children(i as int)),
{
    let cs = &t.nodes[i].children;
    let ghost start = strs(out@);
    let mut k: usize = 0;
    assert(cs@.take(0) =~= Seq::<usize>::empty());
    assert(start + Seq::<Seq<char>>::empty() =~= start);
    while k < cs.len()
        invariant
            t.wf(),
            t.fits(src@),
            i < t.len(),
            cs@ == t.children(i as int),
            k <= cs@.len(),
            strs(out@) == start + go_imports(*t, src@, cs@.take(k as int)),
        decreases cs@.len() - k,
    {
        let c = cs[k];
        assert(i < c < t.len());
        let ghost before = strs(out@);
        if kind_is(t, c, "import_spec_list") {
            go_spec_paths_exec(t, src, c, out);
        } else if kind_is(t, c, "import_spec") {
            go_spec_path_exec(t, src, c, out);
        }
        proof {
            assert(cs@.take(k + 1).drop_last() =~= cs@.take(k as int));
            assert(cs@.take(k + 1).last() == c);
            assert(strs(out@) =~= start + go_imports(*t, src@, cs@.take(k + 1)));
        }
        k = k + 1;
    }
    assert(cs@.take(cs@.len() as int) =~= cs@);
}

/// Appends the raw imports of the top-level node `c` to `out`.
fn imports_of_node(t: &SyntaxTree, src: &str, lang: Lang, c: usize, out: &mut Vec<String>)
    requires
        t.wf(),
        t.fits(src@),
        c < t.len(),
    ensures
        strs(final(out)@) == strs(old(out)@) + node_imports(*t, src@, lang, c as int),
{
    let k = chars_of(t.nodes[c].kind.as_str());
    let k = k.as_slice();
    let ghost before = strs(out@);
    proof {
        assert(before + Seq::<Seq<char>>::empty() =~= before);
    }
    match lang {
        Lang::Rust => {
            if crate::text::eq_str(k, "use_declaration") {
                let p = extract_rust_use_path(t, src, c);
                push_opt(out, Some(p));
            } else if crate::text::eq_str(k, "mod_item") {
                let body = chars_of("body");
                if field_child_exec(t, c, body.as_slice()).is_none() {
                    let v = match find_child_text(t, src, c, "name") {
                        Some(n) => {
                            let nc = chars_of(n.as_str());
                            let pre = chars_of("mod:");
                            let full = concat_chars(pre.as_slice(), nc.as_slice());
                            Some(string_of(full.as_slice()))
                        },
                        None => None,
                    };
                    push_opt(out, v);
                }
            }
        },
        Lang::Python => {
            if crate::text::eq_str(k, "import_statement") {
                let ks = one_text("dotted_name");
                let v = match find_child_by_kind(t, c, &ks) {
                    Some(d) => Some(node_text(t, src, d)),
                    None => None,
                };
                push_opt(out, v);
            } else if crate::text::eq_str(k, "import_from_statement") {
                let v = find_child_text(t, src, c, "module_name");
                push_opt(out, v);
            }
        },
        Lang::JavaScript | Lang::TypeScript => {
            if crate::text::eq_str(k, "import_statement") {
                let quotes = vec!['\'', '"'];
                assert(quotes@ =~= seq!['\'', '"']);
                let v = match find_child_text(t, src, c, "source") {
                    Some(x) => Some(trimmed_string(&x, quotes.as_slice())),
                    None => None,
                };
                push_opt(out, v);
            }
        },
        Lang::Go => {
            if crate::text::eq_str(k, "import_declaration") {
                extract_go_imports(t, src, c, out);
            }
        },
        Lang::Java => {
            if crate::text::eq_str(k, "import_declaration") {
                let whole = chars_of(node_text(t, src, c).as_str());
                let p1 = chars_of("import ");
                let p2 = chars_of("static ");
                let a = trim_start_matches_exec(whole.as_slice(), p1.as_slice());
                let b = trim_start_matches_exec(a.as_slice(), p2.as_slice());
                let semi = vec![';'];
                assert(semi@ =~= seq![';']);
                let d = trim_end_chars_exec(b.as_slice(), semi.as_slice());
                let e = trim_exec(d.as_slice());
                push_opt(out, Some(string_of(e.as_slice())));
            }
        },
        Lang::C | Lang::Cpp => {
            if crate::text::eq_str(k, "preproc_include") {
                let marks = vec!['"', '<', '>'];
                assert(marks@ =~= seq!['"', '<', '>']);
                let v = match find_child_text(t, src, c, "path") {
                    Some(x) => Some(trimmed_string(&x, marks.as_slice())),
                    None => None,
                };
                push_opt(out, v);
            }
        },
    }
}

/// The raw imports of a parsed file.
pub fn extract_imports(t: &SyntaxTree, src: &str, lang: Lang) -> (r: Vec<String>)
    requires
        t.wf(),
        t.fits(src@),
    ensures
        strs(r@) == file_imports(*t, src@, lang),
{
    let cs = &t.nodes[0].children;
    let mut out: Vec<String> = Vec::new();
    let mut k: usize = 0;
    assert(cs@.take(0) =~= Seq::<usize>::empty());
    assert(strs(out@) =~= Seq::<Seq<char>>::empty());
    while k < cs.len()
        invariant
            t.wf(),
            t.fits(src@),
            cs@ == t.children(0),
            k <= cs@.len(),
            strs(out@) == imports_among(*t, src@, lang, cs@.take(k as int)),
        decreases cs@.len() - k,
    {
        let c = cs[k];
        assert(0 < c < t.len());
        imports_of_node(t, src, lang, c, &mut out);
        proof {
            assert(cs@.take(k + 1).drop_last() =~= cs@.take(k as int));
            assert(cs@.take(k + 1).last() == c);
        }
        k = k + 1;
    }
    assert(cs@.take(cs@.len() as int) =~= cs@);
    out
}

} // verus!
