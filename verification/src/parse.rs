//! Parsing source text with tree-sitter into a `SyntaxTree`.
//!
//! A tree-sitter tree is modelled as the list of the nodes that a
//! `TreeCursor` visits, in the order it visits them (pre-order).  Each entry
//! holds the node's kind, the field it hangs under, its byte range, its first
//! row and `end`, the index one past the last node of its subtree.  A cursor
//! is modelled as that list and the path of indices from the root of its walk
//! down to its current node.
use vstd::prelude::*;

use crate::extract::Lang;
use crate::syntax::{span_ok, span_ok_exec, SyntaxNode, SyntaxTree};
use vstd::utf8::{encode_utf8, encode_utf8_valid_utf8, is_char_boundary};

verus! {

#[verifier::external_type_specification]
#[verifier::external_body]
pub struct ExParser(tree_sitter::Parser);

#[verifier::external_type_specification]
#[verifier::external_body]
pub struct ExLanguage(tree_sitter::Language);

#[verifier::external_type_specification]
#[verifier::external_body]
pub struct ExTree(tree_sitter::Tree);

#[verifier::external_type_specification]
#[verifier::external_body]
pub struct ExNode<'a>(tree_sitter::Node<'a>);

#[verifier::external_type_specification]
#[verifier::external_body]
pub struct ExTreeCursor<'a>(tree_sitter::TreeCursor<'a>);

/// One node of a tree-sitter tree, as a cursor walking the tree reports it.
pub struct TsNode {
    pub kind: Seq<char>,
    pub field: Option<Seq<char>>,
    pub start_byte: usize,
    pub end_byte: usize,
    pub start_row: usize,
    pub end: nat,
}

/// Which of the bundled grammars a tree-sitter language is, if any.
pub uninterp spec fn grammar_lang(g: tree_sitter::Language) -> Option<Lang>;

/// The bundled grammar of the language that a parser holds (what
/// `Parser::language` gives), if it holds one.
pub uninterp spec fn parser_lang(p: tree_sitter::Parser) -> Option<Lang>;

/// The nodes of a tree in the order in which a cursor visits them.
pub uninterp spec fn tree_nodes(t: tree_sitter::Tree) -> Seq<TsNode>;

/// The nodes of the tree that tree-sitter's parser for `lang` makes of
/// `source`.
pub uninterp spec fn parsed_nodes(lang: Lang, source: Seq<char>) -> Seq<TsNode>;

/// The nodes of the tree that a cursor walks.
pub uninterp spec fn cursor_nodes(c: tree_sitter::TreeCursor) -> Seq<TsNode>;

/// The indices of the nodes from the root of a cursor's walk down to its
/// current node.
pub uninterp spec fn cursor_path(c: tree_sitter::TreeCursor) -> Seq<nat>;

/// What `Node::kind` gives.
pub uninterp spec fn node_kind_of(n: tree_sitter::Node) -> Seq<char>;

/// What `Node::start_byte` gives.
pub uninterp spec fn node_start_byte_of(n: tree_sitter::Node) -> usize;

/// What `Node::end_byte` gives.
pub uninterp spec fn node_end_byte_of(n: tree_sitter::Node) -> usize;

/// The row of what `Node::start_position` gives.
pub uninterp spec fn node_start_row_of(n: tree_sitter::Node) -> usize;

/// `ms` lists the nodes of a tree in pre-order: node 0 is the root, whose
/// subtree is everything, and the subtree of a node holds the subtrees of
/// the nodes in it.
pub open spec fn ts_shape(ms: Seq<TsNode>) -> bool {
    &&& ms.len() > 0
    &&& ms[0].end == ms.len()
    &&& forall|i: int| 0 <= i < ms.len() ==> i < #[trigger] ms[i].end <= ms.len()
    &&& forall|i: int, j: int|
        #![trigger ms[i].end, ms[j].end]
        0 <= i < j < ms[i].end ==> ms[j].end <= ms[i].end
}

/// In the order a cursor visits them, nodes start on rows that never go
/// back up.
pub open spec fn rows_sorted(ms: Seq<TsNode>) -> bool {
    forall|i: int, j: int|
        #![trigger ms[i].start_row, ms[j].start_row]
        0 <= i <= j < ms.len() ==> ms[i].start_row <= ms[j].start_row
}

/// Every node covers whole characters of `src`, and starts on a row no
/// greater than its first byte's offset (a row counts the line breaks
/// before it, each one byte long).
pub open spec fn spans_fit(ms: Seq<TsNode>, src: Seq<char>) -> bool {
    forall|i: int|
        0 <= i < ms.len() ==> span_ok(src, #[trigger] ms[i].start_byte as int, ms[i].end_byte as int)
            && ms[i].start_row <= ms[i].start_byte
}

/// The UTF-8 encoding of `src` is shorter than `0xffff_ffff` bytes.
/// Tree-sitter keeps byte offsets and rows in 32 bits, so below that no
/// offset or row wraps around.
pub open spec fn offsets_fit(src: Seq<char>) -> bool {
    encode_utf8(src).len() < 0xffff_ffff
}

/// `p` runs from the root down through nested subtrees of `ms`.
pub open spec fn valid_path(ms: Seq<TsNode>, p: Seq<nat>) -> bool {
    &&& p.len() > 0
    &&& p[0] == 0
    &&& forall|k: int| 0 <= k < p.len() ==> #[trigger] p[k] < ms.len()
    &&& forall|k: int, l: int|
        #![trigger p[k], p[l]]
        0 <= k < l < p.len() ==> p[k] < p[l] < ms[p[k] as int].end
}

/// The node that a cursor is on.
pub open spec fn cursor_at(c: tree_sitter::TreeCursor) -> TsNode {
    cursor_nodes(c)[cursor_path(c).last() as int]
}

/// The children of a node, from the child at `c` on, up to `stop`: each
/// next child starts where the subtree of the one before it ends.
pub open spec fn chain(ms: Seq<TsNode>, c: int, stop: int) -> Seq<nat>
    decreases stop - c,
{
    if 0 <= c < stop && c < ms.len() && c < ms[c].end <= stop {
        seq![c as nat] + chain(ms, ms[c].end as int, stop)
    } else {
        Seq::empty()
    }
}

/// The nodes listed by `chain` lie between `c` and `stop`, each with its
/// subtree, and each next one starts where the one before it ends or later.
pub proof fn lemma_chain_bounds(ms: Seq<TsNode>, c: int, stop: int)
    requires
        ts_shape(ms),
    ensures
        forall|k: int|
            0 <= k < chain(ms, c, stop).len() ==> c <= #[trigger] chain(ms, c, stop)[k] < stop && chain(
                ms,
                c,
                stop,
            )[k] < ms.len() && chain(ms, c, stop)[k] < ms[chain(ms, c, stop)[k] as int].end <= stop,
        forall|k: int, l: int|
            #![trigger chain(ms, c, stop)[k], chain(ms, c, stop)[l]]
            0 <= k < l < chain(ms, c, stop).len() ==> ms[chain(ms, c, stop)[k] as int].end <= chain(
                ms,
                c,
                stop,
            )[l],
    decreases stop - c,
{
    if 0 <= c < stop && c < ms.len() && c < ms[c].end <= stop {
        let next = ms[c].end as int;
        lemma_chain_bounds(ms, next, stop);
        let rest = chain(ms, next, stop);
        let all = chain(ms, c, stop);
        assert(all == seq![c as nat] + rest);
        assert forall|k: int| 0 <= k < all.len() implies c <= #[trigger] all[k] < stop && all[k] < ms.len()
            && all[k] < ms[all[k] as int].end <= stop by {
            if k > 0 {
                assert(all[k] == rest[k - 1]);
            }
        }
        assert forall|k: int, l: int|
            #![trigger all[k], all[l]]
            0 <= k < l < all.len() implies ms[all[k] as int].end <= all[l] by {
            assert(all[l] == rest[l - 1]);
            if k > 0 {
                assert(all[k] == rest[k - 1]);
            }
        }
    }
}

/// The children of node `i`, in order.
pub open spec fn child_list(ms: Seq<TsNode>, i: int) -> Seq<nat> {
    chain(ms, i + 1, ms[i].end as int)
}

/// The numbers of `v`, as natural numbers.
pub open spec fn nat_seq(v: Seq<usize>) -> Seq<nat> {
    v.map_values(|x: usize| x as nat)
}

/// A node holds the kind, field, byte range and first row of `m`.
pub open spec fn node_matches(n: SyntaxNode, m: TsNode) -> bool {
    &&& n.kind@ == m.kind
    &&& n.field.deep_view() == m.field
    &&& n.start_byte == m.start_byte
    &&& n.end_byte == m.end_byte
    &&& n.start_row == m.start_row
}

/// `t` holds the nodes `ms`, each with its children in order.
pub open spec fn tree_matches(t: SyntaxTree, ms: Seq<TsNode>) -> bool {
    &&& t.nodes@.len() == ms.len()
    &&& forall|i: int|
        0 <= i < ms.len() ==> node_matches(#[trigger] t.nodes@[i], ms[i]) && nat_seq(
            t.nodes@[i].children@,
        ) == child_list(ms, i)
}

/// `tree_sitter_rust::LANGUAGE`, turned into a `tree_sitter::Language` by `Language::from`.
#[verifier::external_body]
fn rust_grammar() -> (r: tree_sitter::Language)
    ensures
        grammar_lang(r) == Some(Lang::Rust),
{
    tree_sitter::Language::from(tree_sitter_rust::LANGUAGE)
}

/// `tree_sitter_python::LANGUAGE`, turned into a `tree_sitter::Language` by `Language::from`.
#[verifier::external_body]
fn python_grammar() -> (r: tree_sitter::Language)
    ensures
        grammar_lang(r) == Some(Lang::Python),
{
    tree_sitter::Language::from(tree_sitter_python::LANGUAGE)
}

/// `tree_sitter_javascript::LANGUAGE`, turned into a `tree_sitter::Language` by `Language::from`.
#[verifier::external_body]
fn javascript_grammar() -> (r: tree_sitter::Language)
    ensures
        grammar_lang(r) == Some(Lang::JavaScript),
{
    tree_sitter::Language::from(tree_sitter_javascript::LANGUAGE)
}

/// `tree_sitter_typescript::LANGUAGE_TYPESCRIPT`, turned into a `tree_sitter::Language` by `Language::from`.
#[verifier::external_body]
fn typescript_grammar() -> (r: tree_sitter::Language)
    ensures
        grammar_lang(r) == Some(Lang::TypeScript),
{
    tree_sitter::Language::from(tree_sitter_typescript::LANGUAGE_TYPESCRIPT)
}

/// `tree_sitter_go::LANGUAGE`, turned into a `tree_sitter::Language` by `Language::from`.
#[verifier::external_body]
fn go_grammar() -> (r: tree_sitter::Language)
    ensures
        grammar_lang(r) == Some(Lang::Go),
{
    tree_sitter::Language::from(tree_sitter_go::LANGUAGE)
}

/// `tree_sitter_java::LANGUAGE`, turned into a `tree_sitter::Language` by `Language::from`.
#[verifier::external_body]
fn java_grammar() -> (r: tree_sitter::Language)
    ensures
        grammar_lang(r) == Some(Lang::Java),
{
    tree_sitter::Language::from(tree_sitter_java::LANGUAGE)
}

/// `tree_sitter_c::LANGUAGE`, turned into a `tree_sitter::Language` by `Language::from`.
#[verifier::external_body]
fn c_grammar() -> (r: tree_sitter::Language)
    ensures
        grammar_lang(r) == Some(Lang::C),
{
    tree_sitter::Language::from(tree_sitter_c::LANGUAGE)
}

/// `tree_sitter_cpp::LANGUAGE`, turned into a `tree_sitter::Language` by `Language::from`.
#[verifier::external_body]
fn cpp_grammar() -> (r: tree_sitter::Language)
    ensures
        grammar_lang(r) == Some(Lang::Cpp),
{
    tree_sitter::Language::from(tree_sitter_cpp::LANGUAGE)
}

/// The grammar that files in `lang` are parsed with.
fn grammar(lang: Lang) -> (r: tree_sitter::Language)
    ensures
        grammar_lang(r) == Some(lang),
{
    match lang {
        Lang::Rust => rust_grammar(),
        Lang::Python => python_grammar(),
        Lang::JavaScript => javascript_grammar(),
        Lang::TypeScript => typescript_grammar(),
        Lang::Go => go_grammar(),
        Lang::Java => java_grammar(),
        Lang::C => c_grammar(),
        Lang::Cpp => cpp_grammar(),
    }
}

/// `tree_sitter::Parser::new`: a parser that holds no language yet.
#[verifier::external_body]
fn new_parser() -> (r: tree_sitter::Parser)
    ensures
        parser_lang(r) is None,
{
    tree_sitter::Parser::new()
}

/// `tree_sitter::Parser::set_language`, which refuses a language only when
/// its ABI version is outside the range this tree-sitter reads; every
/// bundled grammar is of a version in that range, so a bundled grammar is
/// accepted and the parser then holds it.
#[verifier::external_body]
fn parser_set_language(parser: &mut tree_sitter::Parser, language: &tree_sitter::Language) -> (r: bool)
    requires
        grammar_lang(*language) is Some,
    ensures
        r,
        parser_lang(*final(parser)) == grammar_lang(*language),
{
    parser.set_language(language).is_ok()
}

/// `tree_sitter::Parser::parse` of `source`, without an earlier tree.  It
/// gives no tree only when no language is set, a timeout expires or a
/// cancellation flag is raised; none of the last two is ever set here.
/// Tree-sitter's lexer steps over UTF-8 text one whole character at a
/// time, so every node starts and ends on a character boundary; a node's
/// row counts the line breaks before its first byte; and a child starts no
/// earlier than its parent, a node no earlier than the end of the sibling
/// before it, so rows never go back up in the order a cursor visits nodes.
/// Offsets and rows are kept in 32 bits, so these facts are stated only of
/// sources short enough that none wraps around.
#[verifier::external_body]
fn parser_parse(parser: &mut tree_sitter::Parser, source: &str) -> (r: Option<tree_sitter::Tree>)
    ensures
        parser_lang(*final(parser)) == parser_lang(*old(parser)),
        parser_lang(*old(parser)) matches Some(l) ==> r matches Some(t) && tree_nodes(t) == parsed_nodes(l, source@),
        r matches Some(t) ==> (offsets_fit(source@) ==> spans_fit(tree_nodes(t), source@) && rows_sorted(
            tree_nodes(t),
        )),
{
    parser.parse(source, None)
}

/// `tree_sitter::Tree::walk`: a cursor on the root node of the tree, which
/// visits the nodes of the tree in pre-order.
#[verifier::external_body]
fn tree_walk<'a>(tree: &'a tree_sitter::Tree) -> (r: tree_sitter::TreeCursor<'a>)
    ensures
        cursor_nodes(r) == tree_nodes(*tree),
        cursor_path(r) == seq![0nat],
        ts_shape(cursor_nodes(r)),
{
    tree.walk()
}

/// `tree_sitter::TreeCursor::node`: the node the cursor is on.
#[verifier::external_body]
fn cursor_node<'a>(cursor: &tree_sitter::TreeCursor<'a>) -> (r: tree_sitter::Node<'a>)
    ensures
        node_kind_of(r) == cursor_at(*cursor).kind,
        node_start_byte_of(r) == cursor_at(*cursor).start_byte,
        node_end_byte_of(r) == cursor_at(*cursor).end_byte,
        node_start_row_of(r) == cursor_at(*cursor).start_row,
{
    cursor.node()
}

/// `tree_sitter::TreeCursor::field_name`, as an owned string: the field
/// under which the current node hangs off its parent.
#[verifier::external_body]
fn cursor_field_name(cursor: &tree_sitter::TreeCursor) -> (r: Option<String>)
    ensures
        r.deep_view() == cursor_at(*cursor).field,
{
    match cursor.field_name() {
        Some(f) => Some(f.to_string()),
        None => None,
    }
}

/// `tree_sitter::TreeCursor::goto_first_child`: moves to the first child
/// of the current node, which comes right after it, if it has children.
#[verifier::external_body]
fn cursor_goto_first_child(cursor: &mut tree_sitter::TreeCursor) -> (r: bool)
    ensures
        cursor_nodes(*final(cursor)) == cursor_nodes(*old(cursor)),
        r == (cursor_path(*old(cursor)).last() + 1 < cursor_at(*old(cursor)).end),
        r ==> cursor_path(*final(cursor)) == cursor_path(*old(cursor)).push(
            cursor_path(*old(cursor)).last() + 1,
        ),
        !r ==> cursor_path(*final(cursor)) == cursor_path(*old(cursor)),
{
    cursor.goto_first_child()
}

/// `tree_sitter::TreeCursor::goto_next_sibling`: moves to the node right
/// after the current node's subtree, if that is still inside the parent's
/// subtree; the root of the walk has no sibling.
#[verifier::external_body]
fn cursor_goto_next_sibling(cursor: &mut tree_sitter::TreeCursor) -> (r: bool)
    ensures
        cursor_nodes(*final(cursor)) == cursor_nodes(*old(cursor)),
        r == (cursor_path(*old(cursor)).len() >= 2 && cursor_at(*old(cursor)).end
            < cursor_nodes(*old(cursor))[cursor_path(*old(cursor))[cursor_path(*old(cursor)).len()
            - 2] as int].end),
        r ==> cursor_path(*final(cursor)) == cursor_path(*old(cursor)).drop_last().push(
            cursor_at(*old(cursor)).end,
        ),
        !r ==> cursor_path(*final(cursor)) == cursor_path(*old(cursor)),
{
    cursor.goto_next_sibling()
}

/// `tree_sitter::TreeCursor::goto_parent`: moves to the parent, unless the
/// cursor is on the root of its walk.
#[verifier::external_body]
fn cursor_goto_parent(cursor: &mut tree_sitter::TreeCursor) -> (r: bool)
    ensures
        cursor_nodes(*final(cursor)) == cursor_nodes(*old(cursor)),
        r == (cursor_path(*old(cursor)).len() >= 2),
        r ==> cursor_path(*final(cursor)) == cursor_path(*old(cursor)).drop_last(),
        !r ==> cursor_path(*final(cursor)) == cursor_path(*old(cursor)),
{
    cursor.goto_parent()
}

/// `tree_sitter::Node::kind`, as an owned string.
#[verifier::external_body]
fn node_kind(node: &tree_sitter::Node) -> (r: String)
    ensures
        r@ == node_kind_of(*node),
{
    node.kind().to_string()
}

/// `tree_sitter::Node::start_byte`.
#[verifier::external_body]
fn node_start_byte(node: &tree_sitter::Node) -> (r: usize)
    ensures
        r == node_start_byte_of(*node),
{
    node.start_byte()
}

/// `tree_sitter::Node::end_byte`.
#[verifier::external_body]
fn node_end_byte(node: &tree_sitter::Node) -> (r: usize)
    ensures
        r == node_end_byte_of(*node),
{
    node.end_byte()
}

/// The row of `tree_sitter::Node::start_position`.
#[verifier::external_body]
fn node_start_row(node: &tree_sitter::Node) -> (r: usize)
    ensures
        r == node_start_row_of(*node),
{
    node.start_position().row
}

/// The nodes of a tree-sitter tree in the order in which a cursor visits
/// them, each with its field name, byte range, first row and children.
pub fn collect_tree(tree: &tree_sitter::Tree) -> (r: SyntaxTree)
    ensures
        r.wf(),
        tree_matches(r, tree_nodes(*tree)),
        ts_shape(tree_nodes(*tree)),
{
    let mut cursor = tree_walk(tree);
    let ghost ms = tree_nodes(*tree);
    let mut nodes: Vec<SyntaxNode> = Vec::new();
    let mut ends: Vec<usize> = Vec::new();
    let mut path: Vec<usize> = Vec::new();
    path.push(0);
    proof {
        assert(nat_seq(path@) =~= seq![0nat]);
    }
    // Walk the tree in pre-order.  `path` is the cursor's path; a node's
    // `ends` entry is set when the walk leaves its subtree.
    loop
        invariant_except_break
            path@.last() == nodes@.len(),
        invariant
            ts_shape(ms),
            cursor_nodes(cursor) == ms,
            cursor_path(cursor) == nat_seq(path@),
            valid_path(ms, nat_seq(path@)),
            nodes@.len() == ends@.len(),
            nodes@.len() <= ms.len(),
            forall|k: int|
                0 <= k < nodes@.len() ==> node_matches(#[trigger] nodes@[k], ms[k])
                    && nodes@[k].children@.len() == 0,
            forall|k: int|
                0 <= k < nodes@.len() && !nat_seq(path@).contains(k as nat) ==> #[trigger] ends@[k]
                    == ms[k].end,
        ensures
            nodes@.len() == ms.len(),
            forall|k: int| 0 <= k < nodes@.len() ==> #[trigger] ends@[k] == ms[k].end,
        decreases ms.len() - nodes@.len(),
    {
        let ghost p0 = nat_seq(path@);
        let node = cursor_node(&cursor);
        let field = cursor_field_name(&cursor);
        let idx = nodes.len();
        assert(p0.last() == idx);
        let n = SyntaxNode {
            kind: node_kind(&node),
            field,
            start_byte: node_start_byte(&node),
            end_byte: node_end_byte(&node),
            start_row: node_start_row(&node),
            children: Vec::new(),
        };
        assert(node_matches(n, ms[idx as int]));
        nodes.push(n);
        ends.push(0);
        proof {
            assert forall|k: int|
                0 <= k < nodes@.len() && !p0.contains(k as nat) implies #[trigger] ends@[k] == ms[k].end by {
                assert(k != idx);
            }
        }
        if cursor_goto_first_child(&mut cursor) {
            path.push(nodes.len());
            proof {
                let p1 = nat_seq(path@);
                assert(p1 =~= p0.push(idx as nat + 1));
                assert forall|k: int, l: int|
                    #![trigger p1[k], p1[l]]
                    0 <= k < l < p1.len() implies p1[k] < p1[l] < ms[p1[k] as int].end by {
                    if l == p1.len() - 1 && k < p0.len() - 1 {
                        assert(p0[k] < p0[p0.len() - 1]);
                        assert(ms[idx as int].end <= ms[p0[k] as int].end);
                    }
                }
                assert forall|k: int|
                    0 <= k < nodes@.len() && !p1.contains(k as nat) implies #[trigger] ends@[k]
                        == ms[k].end by {
                    if p0.contains(k as nat) {
                        let i = choose|i: int| 0 <= i < p0.len() && p0[i] == k as nat;
                        assert(p1[i] == k as nat);
                    }
                }
            }
            continue;
        }
        let mut done = false;
        // Climb out of finished subtrees until a next sibling is found.
        loop
            invariant_except_break
                !done,
                nodes@.len() == ms[path@.last() as int].end,
            invariant
                ts_shape(ms),
                cursor_nodes(cursor) == ms,
                cursor_path(cursor) == nat_seq(path@),
                valid_path(ms, nat_seq(path@)),
                nodes@.len() == ends@.len(),
                nodes@.len() <= ms.len(),
                forall|k: int|
                    0 <= k < nodes@.len() ==> node_matches(#[trigger] nodes@[k], ms[k])
                        && nodes@[k].children@.len() == 0,
                forall|k: int|
                    0 <= k < nodes@.len() && !nat_seq(path@).contains(k as nat) ==> #[trigger] ends@[k]
                        == ms[k].end,
            ensures
                !done ==> path@.last() == nodes@.len(),
                done ==> nodes@.len() == ms.len() && forall|k: int|
                    0 <= k < nodes@.len() ==> #[trigger] ends@[k] == ms[k].end,
            decreases path@.len(),
        {
            let ghost p = nat_seq(path@);
            let x = path[path.len() - 1];
            assert(p.last() == x);
            let moved = cursor_goto_next_sibling(&mut cursor);
            ends.set(x, nodes.len());
            proof {
                assert forall|k: int|
                    0 <= k < nodes@.len() && !p.contains(k as nat) implies #[trigger] ends@[k]
                        == ms[k].end by {
                    assert(k != x);
                }
            }
            if moved {
                path.pop();
                path.push(nodes.len());
                proof {
                    let p1 = nat_seq(path@);
                    let q = p[p.len() - 2];
                    assert(p1 =~= p.drop_last().push(ms[x as int].end));
                    assert forall|k: int, l: int|
                        #![trigger p1[k], p1[l]]
                        0 <= k < l < p1.len() implies p1[k] < p1[l] < ms[p1[k] as int].end by {
                        if l == p1.len() - 1 {
                            assert(p[k] <= q < x);
                            if k < p.len() - 2 {
                                assert(p[k] < q < ms[p[k] as int].end);
                                assert(ms[q as int].end <= ms[p[k] as int].end);
                            }
                        } else {
                            assert(p1[k] == p[k] && p1[l] == p[l]);
                        }
                    }
                    assert forall|k: int|
                        0 <= k < nodes@.len() && !p1.contains(k as nat) implies #[trigger] ends@[k]
                            == ms[k].end by {
                        if k != x && p.contains(k as nat) {
                            let i = choose|i: int| 0 <= i < p.len() && p[i] == k as nat;
                            assert(i < p.len() - 1);
                            assert(p1[i] == k as nat);
                        }
                    }
                }
                break;
            }
            if !cursor_goto_parent(&mut cursor) {
                done = true;
                proof {
                    assert(p.len() == 1);
                    assert forall|k: int| 0 <= k < nodes@.len() implies #[trigger] ends@[k] == ms[k].end by {
                        if k != 0 {
                            if p.contains(k as nat) {
                                let i = choose|i: int| 0 <= i < p.len() && p[i] == k as nat;
                                assert(i == 0);
                            }
                        }
                    }
                }
                break;
            }
            path.pop();
            proof {
                let p1 = nat_seq(path@);
                let q = p[p.len() - 2];
                assert(p1 =~= p.drop_last());
                assert(q < x < ms[q as int].end);
                assert(ms[x as int].end <= ms[q as int].end);
                assert forall|k: int, l: int|
                    #![trigger p1[k], p1[l]]
                    0 <= k < l < p1.len() implies p1[k] < p1[l] < ms[p1[k] as int].end by {
                    assert(p1[k] == p[k] && p1[l] == p[l]);
                }
                assert forall|k: int|
                    0 <= k < nodes@.len() && !p1.contains(k as nat) implies #[trigger] ends@[k]
                        == ms[k].end by {
                    if k != x && p.contains(k as nat) {
                        let i = choose|i: int| 0 <= i < p.len() && p[i] == k as nat;
                        assert(i < p.len() - 1);
                        assert(p1[i] == k as nat);
                    }
                }
            }
        }
        if done {
            break;
        }
    }
    // Give each node its children: the first comes right after it, and each
    // next one where the subtree of the one before it ends.
    let n = nodes.len();
    let mut k: usize = 0;
    while k < n
        invariant
            ts_shape(ms),
            n == nodes@.len(),
            n == ends@.len(),
            n == ms.len(),
            forall|j: int| 0 <= j < n ==> #[trigger] ends@[j] == ms[j].end,
            forall|j: int| 0 <= j < n ==> node_matches(#[trigger] nodes@[j], ms[j]),
            forall|j: int|
                0 <= j < k ==> nat_seq((#[trigger] nodes@[j]).children@) == child_list(ms, j),
            forall|j: int, q: int|
                0 <= j < k && 0 <= q < nodes@[j].children@.len() ==> j < #[trigger] nodes@[j].children@[q]
                    < n,
        decreases n - k,
    {
        let e = ends[k];
        let mut kids: Vec<usize> = Vec::new();
        let mut c: usize = k + 1;
        proof {
            assert(nat_seq(kids@) + chain(ms, c as int, e as int) =~= child_list(ms, k as int));
        }
        while c < e
            invariant
                ts_shape(ms),
                n == ends@.len(),
                n == ms.len(),
                forall|j: int| 0 <= j < n ==> #[trigger] ends@[j] == ms[j].end,
                k < n,
                e == ms[k as int].end,
                k < c <= e,
                nat_seq(kids@) + chain(ms, c as int, e as int) == child_list(ms, k as int),
                forall|q: int| 0 <= q < kids@.len() ==> k < #[trigger] kids@[q] < e,
            decreases e - c,
        {
            assert(c < ms[c as int].end);
            assert(ms[c as int].end <= ms[k as int].end);
            let ghost rest = chain(ms, ms[c as int].end as int, e as int);
            assert(chain(ms, c as int, e as int) == seq![c as nat] + rest);
            let ghost before = nat_seq(kids@);
            kids.push(c);
            assert(nat_seq(kids@) =~= before.push(c as nat));
            assert(nat_seq(kids@) + rest =~= before + (seq![c as nat] + rest));
            c = ends[c];
        }
        assert(chain(ms, c as int, e as int) =~= Seq::<nat>::empty());
        assert(nat_seq(kids@) =~= nat_seq(kids@) + chain(ms, c as int, e as int));
        let ghost old_nodes = nodes@;
        nodes[k].children = kids;
        proof {
            assert forall|j: int| 0 <= j < n implies node_matches(#[trigger] nodes@[j], ms[j]) by {
                if j != k {
                    assert(nodes@[j] == old_nodes[j]);
                }
            }
        }
        k = k + 1;
    }
    SyntaxTree { nodes }
}

/// Parses `source` as `lang` and collects its syntax tree.
pub fn parse_source(lang: Lang, source: &str) -> (r: SyntaxTree)
    ensures
        r.wf(),
        tree_matches(r, parsed_nodes(lang, source@)),
        ts_shape(parsed_nodes(lang, source@)),
        offsets_fit(source@) ==> rows_sorted(parsed_nodes(lang, source@)) && spans_fit(
            parsed_nodes(lang, source@),
            source@,
        ) && r.fits(source@),
{
    let language = grammar(lang);
    let mut parser = new_parser();
    let accepted = parser_set_language(&mut parser, &language);
    assert(accepted);
    match parser_parse(&mut parser, source) {
        Some(tree) => {
            let t = collect_tree(&tree);
            proof {
                let ms = parsed_nodes(lang, source@);
                let b = encode_utf8(source@);
                encode_utf8_valid_utf8(source@);
                if offsets_fit(source@) {
                    assert forall|i: int|
                        0 <= i < t.nodes@.len() implies crate::syntax::span_ok(
                            source@,
                            #[trigger] t.nodes@[i].start_byte as int,
                            t.nodes@[i].end_byte as int,
                        ) && t.nodes@[i].start_row < usize::MAX by {
                        assert(node_matches(t.nodes@[i], ms[i]));
                        assert(span_ok(source@, ms[i].start_byte as int, ms[i].end_byte as int));
                        assert(is_char_boundary(b, ms[i].end_byte as int));
                        assert(ms[i].end_byte <= b.len());
                    }
                }
            }
            t
        },
        None => {
            proof {
                assert(false);
            }
            SyntaxTree { nodes: Vec::new() }
        },
    }
}

/// Whether every node of `t` covers whole characters of `source` and starts
/// on a row whose number plus one fits in a `usize`.
pub fn tree_fits(t: &SyntaxTree, source: &str) -> (r: bool)
    ensures
        r == t.fits(source@),
{
    let mut i: usize = 0;
    while i < t.nodes.len()
        invariant
            i <= t.nodes@.len(),
            forall|j: int|
                #![trigger t.nodes@[j]]
                0 <= j < i ==> crate::syntax::span_ok(
                    source@,
                    t.nodes@[j].start_byte as int,
                    t.nodes@[j].end_byte as int,
                ) && t.nodes@[j].start_row < usize::MAX,
        decreases t.nodes@.len() - i,
    {
        let n = &t.nodes[i];
        assert(t.nodes@[i as int].start_byte == n.start_byte);
        if !span_ok_exec(source, n.start_byte, n.end_byte) || n.start_row == usize::MAX {
            return false;
        }
        assert(crate::syntax::span_ok(source@, t.nodes@[i as int].start_byte as int, t.nodes@[i as int].end_byte as int));
        i = i + 1;
    }
    true
}

} // verus!
