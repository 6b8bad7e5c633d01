use semble::graph::{is_entry_point, symbol_used_in_source, DependencyGraph, FileNode, Symbol};

fn node(deps: &[&str]) -> FileNode {
    FileNode {
        symbols: vec![],
        raw_imports: vec![],
        depends_on: deps.iter().map(|d| d.to_string()).collect(),
        source: String::new(),
    }
}

#[test]
fn test_rust_symbols_and_imports() {
    let source = r#"
use crate::types::Chunk;
use std::collections::HashMap;

pub fn search(query: &str) -> Vec<Chunk> {
    Vec::new()
}

struct Index {
    chunks: Vec<Chunk>,
}
"#;
    let mut graph = DependencyGraph::new();
    graph.add_file("src/search.rs", source, "rust");
    let node = graph.files.get("src/search.rs").unwrap();
    assert_eq!(node.symbols.len(), 2);
    assert_eq!(node.symbols[0].name, "search");
    assert_eq!(node.symbols[0].kind, "function");
    assert_eq!(node.symbols[1].name, "Index");
    assert_eq!(node.symbols[1].kind, "struct");
    assert!(node.raw_imports.len() >= 2);
}

#[test]
fn test_python_symbols_and_imports() {
    let source = r#"
import os
from pathlib import Path

class FileWalker:
    def walk(self):
        pass

def main():
    pass
"#;
    let mut graph = DependencyGraph::new();
    graph.add_file("walker.py", source, "python");
    let node = graph.files.get("walker.py").unwrap();
    assert_eq!(node.symbols.len(), 2);
    assert_eq!(node.symbols[0].name, "FileWalker");
    assert_eq!(node.symbols[1].name, "main");
    assert!(node.raw_imports.len() >= 2);
}

#[test]
fn test_impact_analysis() {
    let mut graph = DependencyGraph::new();
    graph.files.insert("a.rs".to_string(), FileNode {
        symbols: vec![],
        raw_imports: vec![],
        depends_on: vec!["b.rs".to_string()],
        source: String::new(),
    });
    graph.files.insert("b.rs".to_string(), FileNode {
        symbols: vec![],
        raw_imports: vec![],
        depends_on: vec!["c.rs".to_string()],
        source: String::new(),
    });
    graph.files.insert("c.rs".to_string(), FileNode {
        symbols: vec![],
        raw_imports: vec![],
        depends_on: vec![],
        source: String::new(),
    });
    graph.build_reverse_index();

    let impact = graph.impact("c.rs");
    assert!(impact.contains(&"b.rs".to_string()));
    assert!(impact.contains(&"a.rs".to_string()));
}

#[test]
fn test_javascript_imports() {
    let source = r#"
import { useState } from 'react';
import utils from './utils';

function App() {
    return null;
}
"#;
    let mut graph = DependencyGraph::new();
    graph.add_file("src/App.js", source, "javascript");
    let node = graph.files.get("src/App.js").unwrap();
    assert!(node.raw_imports.contains(&"react".to_string()));
    assert!(node.raw_imports.contains(&"./utils".to_string()));
}

#[test]
fn test_typescript_export_symbols() {
    let source = r#"
import { db } from './firebase';

export async function getUser(uid: string) {
    return null;
}

export const createPage = async (data: any) => {
    return null;
};

export type PageData = {
    slug: string;
};

export interface UserProfile {
    name: string;
}

const internal = () => {};

export default function MainComponent() {
    return null;
}
"#;
    let mut graph = DependencyGraph::new();
    graph.add_file("src/lib/firestore.ts", source, "typescript");
    let node = graph.files.get("src/lib/firestore.ts").unwrap();
    let names: Vec<&str> = node.symbols.iter().map(|s| s.name.as_str()).collect();
    assert!(names.contains(&"getUser"), "missing getUser, got: {names:?}");
    assert!(names.contains(&"createPage"), "missing createPage, got: {names:?}");
    assert!(names.contains(&"PageData"), "missing PageData, got: {names:?}");
    assert!(names.contains(&"UserProfile"), "missing UserProfile, got: {names:?}");
    assert!(names.contains(&"MainComponent"), "missing MainComponent, got: {names:?}");
    assert!(names.contains(&"internal"), "missing internal, got: {names:?}");
}

#[test]
fn rust_import_texts_and_lines() {
    let source = "use crate::types::Chunk;\nmod util;\nmod inline { }\n\nfn run() {}\n";
    let mut graph = DependencyGraph::new();
    graph.add_file("src/lib2.rs", source, "rust");
    let node = graph.deps("src/lib2.rs").unwrap();
    assert_eq!(node.raw_imports, vec!["crate::types::Chunk".to_string(), "mod:util".to_string()]);
    let names: Vec<(&str, &str, usize)> =
        node.symbols.iter().map(|s| (s.name.as_str(), s.kind.as_str(), s.line)).collect();
    assert_eq!(names, vec![("util", "module", 2), ("inline", "module", 3), ("run", "function", 5)]);
    assert!(node.depends_on.is_empty());
    assert_eq!(node.source, source);
}

#[test]
fn go_imports_and_types() {
    let source = "package main\n\nimport (\n\t\"fmt\"\n\t\"os\"\n)\nimport \"strings\"\n\ntype Point struct{}\n\nfunc Run() {}\n";
    let mut graph = DependencyGraph::new();
    graph.add_file("cmd/run.go", source, "go");
    let node = graph.deps("cmd/run.go").unwrap();
    assert_eq!(node.raw_imports, vec!["fmt".to_string(), "os".to_string(), "strings".to_string()]);
    let names: Vec<(&str, &str)> = node.symbols.iter().map(|s| (s.name.as_str(), s.kind.as_str())).collect();
    assert_eq!(names, vec![("Point", "type"), ("Run", "function")]);
}

#[test]
fn java_c_and_cpp_files() {
    let mut graph = DependencyGraph::new();
    graph.add_file("A.java", "import static java.util.List;\npublic class A {}\n", "java");
    assert_eq!(graph.deps("A.java").unwrap().raw_imports, vec!["java.util.List".to_string()]);
    assert_eq!(graph.deps("A.java").unwrap().symbols[0].name, "A");

    graph.add_file("x.c", "#include <stdio.h>\n#include \"util.h\"\nint main(void) { return 0; }\n", "c");
    let c = graph.deps("x.c").unwrap();
    assert_eq!(c.raw_imports, vec!["stdio.h".to_string(), "util.h".to_string()]);
    assert_eq!(c.symbols[0].name, "main");

    graph.add_file("y.cpp", "namespace ns {}\nclass K {};\n", "cpp");
    let names: Vec<&str> = graph.deps("y.cpp").unwrap().symbols.iter().map(|s| s.name.as_str()).collect();
    assert_eq!(names, vec!["ns", "K"]);
}

#[test]
fn python_decorated_definition() {
    let mut graph = DependencyGraph::new();
    graph.add_file("m.py", "@cache\ndef f():\n    pass\n", "python");
    let s = &graph.deps("m.py").unwrap().symbols;
    assert_eq!(s.len(), 1);
    assert_eq!(s[0].name, "f");
    assert_eq!(s[0].kind, "function");
    assert_eq!(s[0].line, 2);
}

#[test]
fn unknown_language_adds_nothing() {
    let mut graph = DependencyGraph::new();
    graph.add_file("a.hs", "main = pure ()", "haskell");
    assert_eq!(graph.file_count(), 0);
    assert!(graph.deps("a.hs").is_none());
}

#[test]
fn adding_same_path_replaces() {
    let mut graph = DependencyGraph::new();
    graph.add_file("a.rs", "fn one() {}\n", "rust");
    graph.add_file("a.rs", "fn two() {}\n", "rust");
    assert_eq!(graph.file_count(), 1);
    assert_eq!(graph.deps("a.rs").unwrap().symbols[0].name, "two");
}

#[test]
fn resolve_rust_modules_and_crate_paths() {
    let mut graph = DependencyGraph::new();
    graph.add_file("src/lib.rs", "mod graph;\nmod util;\n", "rust");
    graph.add_file("src/graph.rs", "use crate::helpers::run;\n", "rust");
    graph.add_file("src/util/mod.rs", "pub fn helper() {}\n", "rust");
    graph.add_file("src/helpers.rs", "pub fn run() {}\n", "rust");
    graph.resolve_dependencies();
    let lib = graph.deps("src/lib.rs").unwrap();
    assert_eq!(lib.depends_on, vec!["src/graph.rs".to_string(), "src/util/mod.rs".to_string()]);
    assert_eq!(graph.deps("src/graph.rs").unwrap().depends_on, vec!["src/helpers.rs".to_string()]);
    assert_eq!(graph.dependents("src/helpers.rs"), vec!["src/graph.rs"]);
    assert_eq!(graph.dependents("src/util/mod.rs"), vec!["src/lib.rs"]);
    assert_eq!(graph.edge_count(), 3);
    assert_eq!(graph.impact("src/helpers.rs"), vec!["src/graph.rs".to_string(), "src/lib.rs".to_string()]);
}

#[test]
fn resolve_relative_alias_and_dotted_imports() {
    let mut graph = DependencyGraph::new();
    graph.add_file("src/app.ts", "import a from './lib/api';\nimport b from '@/lib/store';\nimport c from './widgets';\n", "typescript");
    graph.add_file("src/lib/api.ts", "", "typescript");
    graph.add_file("src/lib/store.ts", "", "typescript");
    graph.add_file("src/widgets/index.ts", "", "typescript");
    graph.add_file("pkg/tools/Helper.py", "", "python");
    graph.add_file("main.py", "import pkg.tools.helper\n", "python");
    graph.resolve_dependencies();
    assert_eq!(
        graph.deps("src/app.ts").unwrap().depends_on,
        vec!["src/lib/api.ts".to_string(), "src/lib/store.ts".to_string(), "src/widgets/index.ts".to_string()]
    );
    assert_eq!(graph.deps("main.py").unwrap().depends_on, vec!["pkg/tools/Helper.py".to_string()]);
}

#[test]
fn self_imports_and_unknown_imports_are_dropped() {
    let mut graph = DependencyGraph::new();
    graph.add_file("a/x.py", "import x\nimport x\nimport missing\n", "python");
    graph.resolve_dependencies();
    assert!(graph.deps("a/x.py").unwrap().depends_on.is_empty());
    assert_eq!(graph.edge_count(), 0);
}

#[test]
fn closest_candidate_wins_last_on_ties() {
    let mut graph = DependencyGraph::new();
    graph.add_file("x/util.py", "", "python");
    graph.add_file("y/util.py", "", "python");
    graph.add_file("y/main2.py", "import util\n", "python");
    graph.add_file("z/main3.py", "import util\n", "python");
    graph.resolve_dependencies();
    assert_eq!(graph.deps("y/main2.py").unwrap().depends_on, vec!["y/util.py".to_string()]);
    assert_eq!(graph.deps("z/main3.py").unwrap().depends_on, vec!["y/util.py".to_string()]);
}

#[test]
fn impact_follows_cycles_and_excludes_start() {
    let mut graph = DependencyGraph::new();
    graph.files.insert("a.rs".to_string(), node(&["b.rs"]));
    graph.files.insert("b.rs".to_string(), node(&["a.rs"]));
    graph.files.insert("c.rs".to_string(), node(&["b.rs"]));
    graph.build_reverse_index();
    assert_eq!(graph.impact("a.rs"), vec!["b.rs".to_string(), "c.rs".to_string()]);
    assert!(graph.impact("c.rs").is_empty());
    assert!(graph.impact("nowhere.rs").is_empty());
}

#[test]
fn dependents_repeat_per_occurrence() {
    let mut graph = DependencyGraph::new();
    graph.files.insert("a.rs".to_string(), node(&["b.rs", "b.rs"]));
    graph.build_reverse_index();
    assert_eq!(graph.dependents("b.rs"), vec!["a.rs", "a.rs"]);
    assert!(graph.dependents("a.rs").is_empty());
    assert_eq!(graph.edge_count(), 2);
}

#[test]
fn orphans_sorted_without_entry_points() {
    let mut graph = DependencyGraph::new();
    graph.files.insert("z.rs".to_string(), node(&["y.rs"]));
    graph.files.insert("y.rs".to_string(), node(&[]));
    graph.files.insert("src/main.rs".to_string(), node(&["z.rs"]));
    graph.files.insert("b.rs".to_string(), node(&[]));
    graph.build_reverse_index();
    let paths: Vec<String> = graph.orphans().into_iter().map(|o| o.file_path).collect();
    assert_eq!(paths, vec!["b.rs".to_string()]);
    graph.files.insert("a.rs".to_string(), node(&[]));
    graph.build_reverse_index();
    let paths: Vec<String> = graph.orphans().into_iter().map(|o| o.file_path).collect();
    assert_eq!(paths, vec!["a.rs".to_string(), "b.rs".to_string()]);
}

#[test]
fn unused_symbols_rules() {
    let mut graph = DependencyGraph::new();
    let sym = |n: &str, line: usize| Symbol { name: n.to_string(), kind: "function".to_string(), line };
    graph.files.insert("lone.rs".to_string(), FileNode {
        symbols: vec![sym("dead", 1), sym("main", 2), sym("used_inside", 3), sym("Imported", 4)],
        raw_imports: vec![],
        depends_on: vec![],
        source: "fn dead() {}\nfn main() {}\nfn used_inside() {}\nfn imported() {}\nused_inside();".to_string(),
    });
    graph.files.insert("other.rs".to_string(), FileNode {
        symbols: vec![sym("twice", 1)],
        raw_imports: vec!["crate::lone::imported".to_string()],
        depends_on: vec![],
        source: "fn twice() {}".to_string(),
    });
    graph.files.insert("third.rs".to_string(), FileNode {
        symbols: vec![sym("twice", 1)],
        raw_imports: vec![],
        depends_on: vec![],
        source: "fn twice() {}".to_string(),
    });
    graph.build_reverse_index();
    let found: Vec<(String, String)> =
        graph.unused_symbols().into_iter().map(|u| (u.file_path, u.symbol.name)).collect();
    assert_eq!(found, vec![("lone.rs".to_string(), "dead".to_string())]);
}

#[test]
fn entry_points_and_symbol_use() {
    assert!(is_entry_point("src/main.rs"));
    assert!(is_entry_point("pkg/__init__.py"));
    assert!(is_entry_point("web/App.tsx"));
    assert!(!is_entry_point("src/helper.rs"));
    assert!(!is_entry_point(""));
    assert!(symbol_used_in_source("fn a() {}\na();\n", "a", 1));
    assert!(!symbol_used_in_source("fn a() {}\nb();\n", "a", 1));
    assert!(!symbol_used_in_source("fn a() {}", "a", 1));
}

#[test]
fn unused_symbols_on_one_line_keep_their_order() {
    let mut graph = DependencyGraph::new();
    let sym = |n: &str, line: usize| Symbol { name: n.to_string(), kind: "function".to_string(), line };
    graph.files.insert("b.rs".to_string(), FileNode {
        symbols: vec![sym("zeta", 1), sym("alpha", 1)],
        raw_imports: vec![],
        depends_on: vec![],
        source: "fn zeta() {} fn alpha() {}".to_string(),
    });
    graph.files.insert("a.rs".to_string(), FileNode {
        symbols: vec![sym("late", 2), sym("early", 1)],
        raw_imports: vec![],
        depends_on: vec![],
        source: "fn early() {}\nfn late() {}".to_string(),
    });
    graph.build_reverse_index();
    let found: Vec<(String, String)> =
        graph.unused_symbols().into_iter().map(|u| (u.file_path, u.symbol.name)).collect();
    assert_eq!(
        found,
        vec![
            ("a.rs".to_string(), "early".to_string()),
            ("a.rs".to_string(), "late".to_string()),
            ("b.rs".to_string(), "zeta".to_string()),
            ("b.rs".to_string(), "alpha".to_string()),
        ]
    );
}

#[test]
fn resolved_dependents_are_listed_once() {
    let mut graph = DependencyGraph::new();
    let mut a = node(&[]);
    a.raw_imports = vec!["mod:b".to_string(), "mod:b".to_string()];
    graph.files.insert("a.rs".to_string(), a);
    graph.files.insert("b.rs".to_string(), node(&[]));
    graph.resolve_dependencies();
    assert_eq!(graph.files.get("a.rs").unwrap().depends_on, vec!["b.rs".to_string()]);
    assert_eq!(graph.dependents("b.rs"), vec!["a.rs"]);
    assert_eq!(graph.edge_count(), 1);
}

#[test]
fn edge_count_matches_dependents_lists() {
    let mut graph = DependencyGraph::new();
    graph.files.insert("a.rs".to_string(), node(&["b.rs", "c.rs"]));
    graph.files.insert("b.rs".to_string(), node(&["c.rs"]));
    graph.files.insert("c.rs".to_string(), node(&[]));
    graph.build_reverse_index();
    let total: usize = ["a.rs", "b.rs", "c.rs"].iter().map(|f| graph.dependents(f).len()).sum();
    assert_eq!(total, 3);
    assert_eq!(graph.edge_count(), total);
    assert_eq!(graph.dependents("c.rs"), vec!["a.rs", "b.rs"]);
}

#[test]
fn known_language_file_is_stored_with_lines() {
    let mut graph = DependencyGraph::new();
    graph.add_file("k.go", "package k\n\nfunc One() {}\n\nfunc Two() {}\n", "go");
    let node = graph.files.get("k.go").unwrap();
    let found: Vec<(String, usize)> = node.symbols.iter().map(|s| (s.name.clone(), s.line)).collect();
    assert_eq!(found, vec![("One".to_string(), 3), ("Two".to_string(), 5)]);
    assert!(node.depends_on.is_empty());
    assert_eq!(node.source, "package k\n\nfunc One() {}\n\nfunc Two() {}\n");
}

#[test]
fn edge_count_after_resolving_matches_dependents_and_checked_count() {
    let mut graph = DependencyGraph::new();
    let mut a = node(&[]);
    a.raw_imports = vec!["mod:b".to_string(), "mod:c".to_string()];
    let mut b = node(&[]);
    b.raw_imports = vec!["mod:c".to_string(), "mod:nowhere".to_string()];
    graph.files.insert("a.rs".to_string(), a);
    graph.files.insert("b.rs".to_string(), b);
    graph.files.insert("c.rs".to_string(), node(&[]));
    graph.resolve_dependencies();
    let total: usize = ["a.rs", "b.rs", "c.rs"].iter().map(|f| graph.dependents(f).len()).sum();
    assert_eq!(graph.edge_count(), 3);
    assert_eq!(total, 3);
    assert_eq!(graph.edge_count_checked(), Some(3));
    assert_eq!(DependencyGraph::new().edge_count_checked(), Some(0));
}
