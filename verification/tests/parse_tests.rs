use semble::extract::Lang;
use semble::parse::{parse_source, tree_fits};

#[test]
fn parse_source_lists_nodes_in_preorder_with_children() {
    let src = "fn a() {}\nfn b() {}\n";
    let t = parse_source(Lang::Rust, src);
    assert_eq!(t.nodes[0].kind, "source_file");
    assert!(t.nodes[0].field.is_none());
    let top = &t.nodes[0].children;
    assert_eq!(top.len(), 2);
    assert_eq!(top[0], 1);
    let (f, g) = (&t.nodes[top[0]], &t.nodes[top[1]]);
    assert_eq!(f.kind, "function_item");
    assert_eq!(g.kind, "function_item");
    assert_eq!((f.start_byte, f.end_byte, f.start_row), (0, 9, 0));
    assert_eq!((g.start_byte, g.end_byte, g.start_row), (10, 19, 1));
    let name = f.children.iter().map(|&c| &t.nodes[c]).find(|n| n.field.as_deref() == Some("name")).unwrap();
    assert_eq!(name.kind, "identifier");
    assert_eq!(&src[name.start_byte..name.end_byte], "a");
    for (i, n) in t.nodes.iter().enumerate() {
        assert!(n.children.iter().all(|&c| c > i && c < t.nodes.len()));
    }
    assert!(tree_fits(&t, src));
}

#[test]
fn parse_source_ranges_fall_on_character_boundaries() {
    let src = "# é\ndef ü():\n    return 'ñ'\n";
    let t = parse_source(Lang::Python, src);
    assert!(tree_fits(&t, src));
    for n in &t.nodes {
        assert!(src.is_char_boundary(n.start_byte) && src.is_char_boundary(n.end_byte));
    }
}
