use semble::filter::CommentSyntax;
use semble::resolve::{
    build_stem_index, common_prefix_len, find_closest, find_closest_with_stem, relative_hit, relative_parts, resolve_import,
};

fn strings(v: &[&str]) -> Vec<String> {
    v.iter().map(|s| s.to_string()).collect()
}

fn chars(s: &str) -> Vec<char> {
    s.chars().collect()
}

#[test]
fn common_prefix_counts_characters() {
    assert_eq!(common_prefix_len("src/lib", "src/graph.rs"), 4);
    assert_eq!(common_prefix_len("", "abc"), 0);
    assert_eq!(common_prefix_len("héllo", "hélp"), 3);
}

#[test]
fn closest_prefers_longest_shared_prefix_then_last() {
    let cands = strings(&["a/x.rs", "b/x.rs", "b/y/x.rs"]);
    assert_eq!(find_closest(&cands, &chars("b/y")), Some("b/y/x.rs".to_string()));
    assert_eq!(find_closest(&cands, &chars("c")), Some("b/y/x.rs".to_string()));
    assert_eq!(find_closest(&strings(&["only.rs"]), &chars("zzz")), Some("only.rs".to_string()));
    assert_eq!(find_closest(&Vec::new(), &chars("zzz")), None);
}

#[test]
fn closest_with_stem_prefers_exact_stem() {
    let cands = strings(&["src/Store.ts", "lib/store.ts"]);
    assert_eq!(find_closest_with_stem(&cands, &chars("src"), &chars("store")), Some("lib/store.ts".to_string()));
    assert_eq!(find_closest_with_stem(&cands, &chars("src"), &chars("other")), Some("src/Store.ts".to_string()));
}

#[test]
fn stem_index_groups_by_lowercase_stem() {
    let paths = strings(&["a/Util.py", "b/util.rs", "c/main.go"]);
    let index = build_stem_index(&paths);
    let group = index.get(&chars("util")).unwrap();
    assert_eq!(group, &strings(&["a/Util.py", "b/util.rs"]));
    assert!(index.get(&chars("Util")).is_none());
    assert_eq!(index.get(&chars("main")).unwrap(), &strings(&["c/main.go"]));
}

#[test]
fn resolve_import_cases() {
    let paths = strings(&["src/lib.rs", "src/graph.rs", "src/util/mod.rs", "web/app.ts", "web/api/index.ts", "pkg/a/b.py"]);
    let index = build_stem_index(&paths);
    assert_eq!(resolve_import("mod:graph", "src/lib.rs", &index, &paths), Some("src/graph.rs".to_string()));
    assert_eq!(resolve_import("mod:util", "src/lib.rs", &index, &paths), Some("src/util/mod.rs".to_string()));
    assert_eq!(resolve_import("crate::graph::Node", "src/lib.rs", &index, &paths), Some("src/graph.rs".to_string()));
    assert_eq!(resolve_import("super::nothing", "src/lib.rs", &index, &paths), None);
    assert_eq!(resolve_import("./api", "web/app.ts", &index, &paths), Some("web/api/index.ts".to_string()));
    assert_eq!(resolve_import("@/api/index", "web/app.ts", &index, &paths), Some("web/api/index.ts".to_string()));
    assert_eq!(resolve_import("pkg.a.b", "main.py", &index, &paths), Some("pkg/a/b.py".to_string()));
    assert_eq!(resolve_import("GRAPH", "src/lib.rs", &index, &paths), Some("src/graph.rs".to_string()));
    assert_eq!(resolve_import("react", "web/app.ts", &index, &paths), None);
}

#[test]
fn comment_syntax_by_language() {
    let py = CommentSyntax::from_lang(Some("python"));
    assert_eq!(py.line_prefix, Some("#"));
    assert_eq!(py.block_start, None);
    let rs = CommentSyntax::from_lang(None);
    assert_eq!(rs.line_prefix, Some("//"));
    assert_eq!(rs.block_start, Some("/*"));
    assert_eq!(rs.block_end, Some("*/"));
    assert_eq!(rs.doc_prefix, Some("///"));
}

#[test]
fn parent_relative_imports_climb_directories() {
    let paths = strings(&["src/pages/Home.js", "src/utils.js", "lib/deep.ts", "src/pages/widgets/index.js"]);
    let index = build_stem_index(&paths);
    assert_eq!(resolve_import("../utils", "src/pages/Home.js", &index, &paths), Some("src/utils.js".to_string()));
    assert_eq!(resolve_import("./../utils", "src/pages/Home.js", &index, &paths), Some("src/utils.js".to_string()));
    assert_eq!(resolve_import("../../lib/deep", "src/pages/Home.js", &index, &paths), Some("lib/deep.ts".to_string()));
    assert_eq!(resolve_import("./widgets", "src/pages/Home.js", &index, &paths), Some("src/pages/widgets/index.js".to_string()));
    assert_eq!(resolve_import("../missing", "src/pages/Home.js", &index, &paths), None);
}

#[test]
fn relative_parts_count_parent_steps() {
    assert_eq!(relative_parts(&chars("../../a.b")), (2, chars("a/b")));
    assert_eq!(relative_parts(&chars("./././x")), (0, chars("x")));
    assert_eq!(relative_parts(&chars("./../y")), (1, chars("y")));
    assert_eq!(relative_parts(&chars("..z")), (0, chars("//z")));
}

#[test]
fn relative_hit_on_given_path_parts() {
    assert!(relative_hit("src/utils.js", "src/utils", &Some("utils".to_string()), &chars("src/utils")));
    assert!(relative_hit("src/w/index.ts", "src/w/index", &Some("index".to_string()), &chars("src/w")));
    assert!(!relative_hit("src/w/main.ts", "src/w/main", &Some("main".to_string()), &chars("src/w")));
    assert!(!relative_hit("lib/w/index.ts", "lib/w/index", &Some("index".to_string()), &chars("src/w")));
}
