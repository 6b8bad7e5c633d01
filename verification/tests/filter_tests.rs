use semble::filter::strip_comments;

#[test]
fn test_strip_line_comments() {
    let code = "// comment\nfn main() {\n    println!(\"hello\");\n}\n";
    let result = strip_comments(code, Some("rust"));
    assert!(!result.contains("// comment"));
    assert!(result.contains("fn main()"));
}

#[test]
fn test_keep_doc_comments() {
    let code = "/// Doc comment\nfn main() {}\n";
    let result = strip_comments(code, Some("rust"));
    assert!(result.contains("/// Doc comment"));
}

#[test]
fn test_strip_block_comments() {
    let code = "/* block */\nfn main() {}\n";
    let result = strip_comments(code, Some("rust"));
    assert!(!result.contains("block"));
    assert!(result.contains("fn main()"));
}

#[test]
fn test_strip_python_comments() {
    let code = "# comment\ndef main():\n    pass\n";
    let result = strip_comments(code, Some("python"));
    assert!(!result.contains("# comment"));
    assert!(result.contains("def main():"));
}

#[test]
fn test_collapse_blank_lines() {
    let code = "a\n\n\n\n\nb\n";
    let result = strip_comments(code, None);
    assert!(!result.contains("\n\n\n"));
}

#[test]
fn collapse_keeps_one_blank_line_exactly() {
    assert_eq!(strip_comments("a\n\n\n\n\nb\n", None), "a\n\nb");
}

#[test]
fn strip_exact_output_rust() {
    let code = "  // lead\nfn a() {}\n/* one\n two */\nlet x = 1;\n";
    assert_eq!(strip_comments(code, Some("rust")), "fn a() {}\nlet x = 1;");
}

#[test]
fn multi_line_block_comment_dropped_until_end_marker() {
    let code = "x\n/* start\nmiddle\nend */\ny\n";
    assert_eq!(strip_comments(code, Some("c")), "x\ny");
}

#[test]
fn hash_comments_for_shell_ruby_bash() {
    for lang in ["shell", "ruby", "bash"] {
        let code = "# note\necho hi\n";
        assert_eq!(strip_comments(code, Some(lang)), "echo hi");
    }
}

#[test]
fn python_keeps_slash_lines() {
    let code = "// not a python comment\nx = 1\n";
    assert_eq!(strip_comments(code, Some("python")), "// not a python comment\nx = 1");
}

#[test]
fn unknown_language_uses_c_style() {
    let code = "# kept\n// dropped\nz\n";
    assert_eq!(strip_comments(code, Some("haskell")), "# kept\nz");
}

#[test]
fn empty_input_gives_empty_output() {
    assert_eq!(strip_comments("", Some("rust")), "");
    assert_eq!(strip_comments("\n\n  \n", None), "");
}

#[test]
fn result_is_trimmed() {
    let r = strip_comments("\n\n   code   \n\n", Some("rust"));
    assert_eq!(r, "code");
    assert_eq!(r.trim(), r);
}

#[test]
fn crlf_lines_lose_carriage_return() {
    assert_eq!(strip_comments("a\r\n// c\r\nb\r\n", Some("rust")), "a\nb");
}

#[test]
fn two_line_breaks_stay_and_longer_runs_become_two() {
    assert_eq!(strip_comments("a\n\nb\n\n\nc\n\n\n\n\n\nd", None), "a\n\nb\n\nc\n\nd");
}
