//! Removing comments from source text.
use vstd::prelude::*;

use crate::text::{
    chars_of, contains_exec, contains_text, eq_str, lines, lines_exec, starts_with, starts_with_exec,
    string_of, texts, trim, trim_exec,
};

verus! {

/// The comment markers of a language.
pub struct CommentSyntax {
    pub line_prefix: Option<&'static str>,
    pub block_start: Option<&'static str>,
    pub block_end: Option<&'static str>,
    pub doc_prefix: Option<&'static str>,
}

/// The marker texts of a comment syntax, in spec form.
pub struct SyntaxMarks {
    pub line_prefix: Option<Seq<char>>,
    pub block_start: Option<Seq<char>>,
    pub block_end: Option<Seq<char>>,
    pub doc_prefix: Option<Seq<char>>,
}

impl CommentSyntax {
    pub open spec fn marks(&self) -> SyntaxMarks {
        SyntaxMarks {
            line_prefix: self.line_prefix.deep_view(),
            block_start: self.block_start.deep_view(),
            block_end: self.block_end.deep_view(),
            doc_prefix: self.doc_prefix.deep_view(),
        }
    }
}

/// The name of a language as text; no name reads as the empty text.
pub open spec fn lang_text(lang: Option<Seq<char>>) -> Seq<char> {
    match lang {
        Some(l) => l,
        None => Seq::empty(),
    }
}

/// Languages whose comments start with `#`.
pub open spec fn is_hash_comment_lang(l: Seq<char>) -> bool {
    l == "python"@ || l == "ruby"@ || l == "shell"@ || l == "bash"@
}

/// The comment markers used for a language: `#` line comments for Python,
/// Ruby and shell, C-style markers for everything else.
pub open spec fn marks_for(lang: Option<Seq<char>>) -> SyntaxMarks {
    if is_hash_comment_lang(lang_text(lang)) {
        SyntaxMarks { line_prefix: Some("#"@), block_start: None, block_end: None, doc_prefix: None }
    } else {
        SyntaxMarks {
            line_prefix: Some("//"@),
            block_start: Some("/*"@),
            block_end: Some("*/"@),
            doc_prefix: Some("///"@),
        }
    }
}

impl CommentSyntax {
    pub fn from_lang(lang: Option<&str>) -> (r: Self)
        ensures
            r.marks() == marks_for(lang.deep_view()),
    {
        let name = match lang {
            Some(l) => chars_of(l),
            None => Vec::new(),
        };
        proof {
            reveal_strlit("python");
            reveal_strlit("ruby");
            reveal_strlit("shell");
            reveal_strlit("bash");
            reveal_strlit("#");
            reveal_strlit("//");
            reveal_strlit("/*");
            reveal_strlit("*/");
            reveal_strlit("///");
            assert(name@ == lang_text(lang.deep_view()));
        }
        if eq_str(name.as_slice(), "python") {
            CommentSyntax { line_prefix: Some("#"), block_start: None, block_end: None, doc_prefix: None }
        } else if eq_str(name.as_slice(), "ruby") || eq_str(name.as_slice(), "shell") || eq_str(
            name.as_slice(),
            "bash",
        ) {
            CommentSyntax { line_prefix: Some("#"), block_start: None, block_end: None, doc_prefix: None }
        } else {
            CommentSyntax {
                line_prefix: Some("//"),
                block_start: Some("/*"),
                block_end: Some("*/"),
                doc_prefix: Some("///"),
            }
        }
    }
}

/// What one line contributes to the output, and whether a block comment is
/// open after it.
pub open spec fn strip_line(line: Seq<char>, m: SyntaxMarks, in_block: bool) -> (Seq<char>, bool) {
    let t = trim(line);
    let block_open = match (m.block_start, m.block_end) {
        (Some(bs), Some(_)) => in_block || contains_text(t, bs),
        _ => in_block,
    };
    let has_block = m.block_start is Some && m.block_end is Some;
    if has_block && block_open {
        (Seq::empty(), !contains_text(t, m.block_end.unwrap()))
    } else if m.line_prefix is Some && starts_with(t, m.line_prefix.unwrap()) && !starts_with(
        t,
        match m.doc_prefix {
            Some(d) => d,
            None => "///"@,
        },
    ) {
        (Seq::empty(), block_open)
    } else if t.len() == 0 {
        (seq!['\n'], block_open)
    } else {
        (line.push('\n'), block_open)
    }
}

/// The output of a run of lines, starting inside a block comment or not.
pub open spec fn strip_lines(ls: Seq<Seq<char>>, m: SyntaxMarks, in_block: bool) -> Seq<char>
    decreases ls.len(),
{
    if ls.len() == 0 {
        Seq::empty()
    } else {
        let (out, next) = strip_line(ls[0], m, in_block);
        out + strip_lines(ls.drop_first(), m, next)
    }
}

/// The text with comment lines dropped, before blank runs are collapsed.
pub open spec fn uncommented(content: Seq<char>, lang: Option<Seq<char>>) -> Seq<char> {
    strip_lines(lines(content), marks_for(lang), false)
}

/// `s` with every run of three or more line breaks cut to two: a line
/// break is dropped when the two characters before it are line breaks too.
pub open spec fn collapse_breaks(s: Seq<char>) -> Seq<char>
    decreases s.len(),
{
    if s.len() == 0 {
        s
    } else {
        let pre = collapse_breaks(s.drop_last());
        let n = s.len() as int;
        if n >= 3 && s[n - 1] == '\n' && s[n - 2] == '\n' && s[n - 3] == '\n' {
            pre
        } else {
            pre.push(s[n - 1])
        }
    }
}

/// The pattern of a run of three or more line breaks.
pub open spec fn break_runs() -> Seq<char> {
    "\n{3,}"@
}

/// Two line breaks.
pub open spec fn two_breaks() -> Seq<char> {
    "\n\n"@
}

/// The pattern and replacement that cut runs of line breaks to two.
pub open spec fn collapses_breaks(pattern: Seq<char>, replacement: Seq<char>) -> bool {
    pattern == break_runs() && replacement == two_breaks()
}

/// What `strip_comments` returns.
pub open spec fn stripped(content: Seq<char>, lang: Option<Seq<char>>) -> Seq<char> {
    trim(collapse_breaks(uncommented(content, lang)))
}

/// What the `regex` crate gives for compiling `pattern` and replacing all
/// its matches in `text` with `replacement` (`None` when the pattern does not
/// compile).
pub uninterp spec fn regex_replaced(pattern: Seq<char>, text: Seq<char>, replacement: Seq<char>) -> Option<Seq<char>>;

/// `regex::Regex::new` followed by `regex::Regex::replace_all`: compiles
/// `pattern` and replaces every match in `text` with `replacement`.  The
/// contract names the result; for the pattern `\n{3,}` (a line break three
/// or more times, matched greedily, leftmost first, without overlap) and the
/// replacement `\n\n`, which holds no `$` reference, it also states it: the
/// pattern compiles, and every maximal run of three or more line breaks
/// becomes two.
#[verifier::external_body]
fn regex_replace_all(pattern: &str, text: &str, replacement: &str) -> (r: Option<String>)
    ensures
        regex_replaced(pattern@, text@, replacement@) == match r {
            Some(s) => Some(s@),
            None => None::<Seq<char>>,
        },
        match r {
            Some(s) => collapses_breaks(pattern@, replacement@) ==> s@ == collapse_breaks(text@),
            None => !collapses_breaks(pattern@, replacement@),
        },
{
    match regex::Regex::new(pattern) {
        Ok(re) => Some(re.replace_all(text, replacement).into_owned()),
        Err(_) => None,
    }
}

fn marker_chars(m: Option<&'static str>) -> (r: Option<Vec<char>>)
    ensures
        r matches Some(v) ==> m matches Some(s) && v@ == s@,
        r is None <==> m is None,
{
    match m {
        Some(s) => Some(chars_of(s)),
        None => None,
    }
}

/// One step of the line filter: returns whether the line is kept, and the
/// block state after it.
fn strip_line_exec(
    line: &[char],
    lp: &Option<Vec<char>>,
    bs: &Option<Vec<char>>,
    be: &Option<Vec<char>>,
    dp: &Vec<char>,
    in_block: bool,
    out: &mut Vec<char>,
) -> (next: bool)
    ensures
        ({
            let m = SyntaxMarks {
                line_prefix: match lp { Some(v) => Some(v@), None => None },
                block_start: match bs { Some(v) => Some(v@), None => None },
                block_end: match be { Some(v) => Some(v@), None => None },
                doc_prefix: Some(dp@),
            };
            let (o, n) = strip_line(line@, m, in_block);
            final(out)@ == old(out)@ + o && next == n
        }),
{
    let ghost m = SyntaxMarks {
        line_prefix: match lp { Some(v) => Some(v@), None => None },
        block_start: match bs { Some(v) => Some(v@), None => None },
        block_end: match be { Some(v) => Some(v@), None => None },
        doc_prefix: Some(dp@),
    };
    let t = trim_exec(line);
    let mut ib = in_block;
    if let (Some(s), Some(e)) = (bs, be) {
        if !ib && contains_exec(t.as_slice(), s.as_slice()) {
            ib = true;
        }
        if ib {
            let still = !contains_exec(t.as_slice(), e.as_slice());
            proof {
                assert(strip_line(line@, m, in_block) == (Seq::<char>::empty(), still));
                assert(out@ + Seq::<char>::empty() =~= out@);
            }
            return still;
        }
    }
    if let Some(p) = lp {
        if starts_with_exec(t.as_slice(), p.as_slice()) && !starts_with_exec(t.as_slice(), dp.as_slice()) {
            assert(out@ + Seq::<char>::empty() =~= out@);
            return ib;
        }
    }
    if t.len() == 0 {
        out.push('\n');
        return ib;
    }
    let ghost before = out@;
    let mut i: usize = 0;
    while i < line.len()
        invariant
            i <= line@.len(),
            out@ == before + line@.subrange(0, i as int),
        decreases line@.len() - i,
    {
        out.push(line[i]);
        i = i + 1;
        assert(out@ =~= before + line@.subrange(0, i as int));
    }
    out.push('\n');
    assert(line@.subrange(0, line@.len() as int) =~= line@);
    assert(out@ =~= before + line@.push('\n'));
    ib
}

/// Removes comment lines from `content`: line comments (but not doc
/// comments) and every line that a block comment touches, then collapses runs
/// of blank lines and trims the result.
pub fn strip_comments(content: &str, lang: Option<&str>) -> (r: String)
    ensures
        r@ == stripped(content@, lang.deep_view()),
{
    let syntax = CommentSyntax::from_lang(lang);
    let lp = marker_chars(syntax.line_prefix);
    let bs = marker_chars(syntax.block_start);
    let be = marker_chars(syntax.block_end);
    let dp = match syntax.doc_prefix {
        Some(d) => chars_of(d),
        None => chars_of("///"),
    };
    let ghost m = marks_for(lang.deep_view());
    proof {
        reveal_strlit("///");
        assert(m.doc_prefix is None ==> dp@ == "///"@);
    }
    let text = chars_of(content);
    let ls = lines_exec(text.as_slice());
    let mut out: Vec<char> = Vec::new();
    let mut in_block = false;
    let mut i: usize = 0;
    proof {
        assert(texts(ls@).skip(0) =~= texts(ls@));
        assert(out@ + uncommented(content@, lang.deep_view()) =~= uncommented(content@, lang.deep_view()));
    }
    while i < ls.len()
        invariant
            i <= ls@.len(),
            texts(ls@) == lines(content@),
            m == marks_for(lang.deep_view()),
            m.line_prefix == match lp { Some(v) => Some(v@), None => None::<Seq<char>> },
            m.block_start == match bs { Some(v) => Some(v@), None => None::<Seq<char>> },
            m.block_end == match be { Some(v) => Some(v@), None => None::<Seq<char>> },
            dp@ == match m.doc_prefix { Some(d) => d, None => "///"@ },
            out@ + strip_lines(texts(ls@).skip(i as int), m, in_block) == uncommented(content@, lang.deep_view()),
        decreases ls@.len() - i,
    {
        let ghost before = out@;
        let ghost rest = texts(ls@).skip(i as int);
        let next = strip_line_exec(ls[i].as_slice(), &lp, &bs, &be, &dp, in_block, &mut out);
        proof {
            let m2 = SyntaxMarks {
                line_prefix: m.line_prefix,
                block_start: m.block_start,
                block_end: m.block_end,
                doc_prefix: Some(dp@),
            };
            assert(rest[0] == ls@[i as int]@);
            assert(strip_line(rest[0], m2, in_block) == strip_line(rest[0], m, in_block));
            assert(rest.drop_first() =~= texts(ls@).skip(i + 1));
        }
        in_block = next;
        i = i + 1;
    }
    proof {
        assert(texts(ls@).skip(i as int) =~= Seq::<Seq<char>>::empty());
        assert(out@ + Seq::<char>::empty() =~= out@);
    }
    let body = string_of(out.as_slice());
    let collapsed = regex_replace_all("\n{3,}", body.as_str(), "\n\n");
    let finished = match collapsed {
        Some(c) => chars_of(c.as_str()),
        None => {
            proof {
                assert(false);
            }
            out
        },
    };
    let trimmed = trim_exec(finished.as_slice());
    string_of(trimmed.as_slice())
}

} // verus!
