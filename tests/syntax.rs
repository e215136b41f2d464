use bundle_rs::syntax::{parse_line, LineRef, LineRefTokenizer, LineToken};

#[test]
fn line_ref_resolve_works() {
    let line = "Hello, world";
    let line_ref = LineRef::new(0, 5);
    assert_eq!("Hello", line_ref.resolve_unchecked(line));
}

#[test]
fn line_ref_empty_works() {
    let line = "test";
    let line_ref = LineRef::new(0, 0);
    assert_eq!("", line_ref.resolve_unchecked(line));
}

#[test]
fn line_ref_tokenizer_works() {
    let line = "a, bb, cccc";
    let tokens: Vec<LineRef> = LineRefTokenizer::new(line).collect();
    assert_eq!(
        vec![LineRef::new(0, 1), LineRef::new(3, 2), LineRef::new(7, 4)],
        tokens
    );
}

#[test]
fn line_ref_tokenizer_spaces() {
    let line = "a,  bb,cccc";
    let tokens: Vec<LineRef> = LineRefTokenizer::new(line).collect();
    assert_eq!(
        vec![LineRef::new(0, 1), LineRef::new(4, 2), LineRef::new(7, 4)],
        tokens
    );
}

#[test]
fn parse_line_pub_mod() {
    let line = "pub mod game;".to_string();
    let token = parse_line(line);
    let expected = LineToken::DeclareOtherModule {
        line: "pub mod game;".to_string(),
        name: LineRef::new(8, 4),
        is_pub: true,
    };
    assert_eq!(token, expected);
}

#[test]
fn parse_line_nonpub_mod() {
    let line = "mod test_this;".to_string();
    let token = parse_line(line.clone());
    let expected = LineToken::DeclareOtherModule {
        line: line,
        name: LineRef::new(4, 9),
        is_pub: false,
    };
    assert_eq!(token, expected);
}

#[test]
fn parse_line_use_mod() {
    let line = "use std::io::Buf;".to_string();
    let token = parse_line(line.clone());
    let expected = LineToken::UseModule {
        line: line,
        name: LineRef::new(4, 12),
    };
    assert_eq!(token, expected);
}

#[test]
fn parse_line_use_multy_mod() {
    let line = "use std::{collections::HashSet, io::BufWriter};".to_string();
    let token = parse_line(line.clone());
    let expected = LineToken::UseManyModules {
        line: line,
        names: vec![LineRef::new(10, 20), LineRef::new(32, 13)],
        parent: LineRef::new(4, 3),
    };
    assert_eq!(token, expected);
}

#[test]
fn parse_line_other_line() {
    let line = "   class Turn  ".to_string();
    let token = parse_line(line.clone());
    let expected = LineToken::OtherLine {
        line: line.clone(),
        trimmed_ref: LineRef::new(3, line.trim().len()),
    };
    assert_eq!(token, expected);
}

fn resolve_all(line: &str, refs: &[LineRef]) -> Vec<String> {
    refs.iter()
        .map(|r| r.resolve_unchecked(line).to_string())
        .collect()
}

#[test]
fn tokenizer_resolves_names() {
    let line = "a, bb, cccc";
    let tokens = LineRefTokenizer::new(line).collect();
    assert_eq!(resolve_all(line, &tokens), vec!["a", "bb", "cccc"]);
    let line = "a,  bb,cccc";
    let tokens = LineRefTokenizer::new(line).collect();
    assert_eq!(resolve_all(line, &tokens), vec!["a", "bb", "cccc"]);
}

#[test]
fn tokenizer_edge_cases() {
    assert_eq!(LineRefTokenizer::new("").collect(), vec![]);
    assert_eq!(LineRefTokenizer::new("a,").collect(), vec![LineRef::new(0, 1)]);
    assert_eq!(
        LineRefTokenizer::new("a,,b").collect(),
        vec![LineRef::new(0, 1), LineRef::new(2, 0), LineRef::new(3, 1)]
    );
    assert_eq!(LineRefTokenizer::new("a , b ").collect(), vec![LineRef::new(0, 2), LineRef::new(4, 2)]);
    let mut it = LineRefTokenizer::new("x,y");
    assert_eq!(it.next(), Some(LineRef::new(0, 1)));
    assert_eq!(it.next(), Some(LineRef::new(2, 1)));
    assert_eq!(it.next(), None);
    assert_eq!(it.next(), None);
}

#[test]
fn plain_lines_are_trimmed() {
    for line in ["", "   ", "\t x y \t", "fn main() {", "  }  ", "pub fn f();"] {
        match parse_line(line.to_string()) {
            LineToken::OtherLine { line: l, trimmed_ref } => {
                assert_eq!(l, line);
                assert_eq!(trimmed_ref.resolve_unchecked(line), line.trim());
            }
            other => panic!("{:?}", other),
        }
    }
    assert_eq!(
        parse_line(String::new()),
        LineToken::OtherLine { line: String::new(), trimmed_ref: LineRef::new(0, 0) }
    );
}

#[test]
fn declarations_with_spacing() {
    let line = "  pub   mod  inner ; // note";
    match parse_line(line.to_string()) {
        LineToken::DeclareOtherModule { name, is_pub, .. } => {
            assert!(is_pub);
            assert_eq!(name.resolve_unchecked(line), "inner");
        }
        other => panic!("{:?}", other),
    }
    let line = "mod tests {";
    assert!(matches!(parse_line(line.to_string()), LineToken::OtherLine { .. }));
    let line = "module x;";
    assert!(matches!(parse_line(line.to_string()), LineToken::OtherLine { .. }));
}

#[test]
fn single_import_spans_path() {
    let line = "use a::b_2::C;";
    match parse_line(line.to_string()) {
        LineToken::UseModule { name, .. } => assert_eq!(name.resolve_unchecked(line), "a::b_2::C"),
        other => panic!("{:?}", other),
    }
    let line = "    use io;";
    match parse_line(line.to_string()) {
        LineToken::UseModule { name, .. } => assert_eq!(name, LineRef::new(8, 2)),
        other => panic!("{:?}", other),
    }
}

#[test]
fn multi_import_spans_prefix_and_names() {
    let line = "use a::b::{x, y::Z, w};";
    match parse_line(line.to_string()) {
        LineToken::UseManyModules { names, parent, .. } => {
            assert_eq!(parent.resolve_unchecked(line), "a::b");
            assert_eq!(resolve_all(line, &names), vec!["x", "y::Z", "w"]);
        }
        other => panic!("{:?}", other),
    }
}

#[test]
fn classified_lines_write_back() {
    for line in [
        "pub mod game;",
        "use std::io::Buf;",
        "use std::{collections::HashSet, io::BufWriter};",
        "   class Turn  ",
    ] {
        let token = parse_line(line.to_string());
        let text = match token {
            LineToken::DeclareOtherModule { line, .. } => line,
            LineToken::UseModule { line, .. } => line,
            LineToken::UseManyModules { line, .. } => line,
            LineToken::OtherLine { line, .. } => line,
            LineToken::Module { .. } => panic!("a line is never a block"),
        };
        assert_eq!(text, line);
    }
}

#[test]
fn non_ascii_identifiers() {
    let line = "mod café;";
    match parse_line(line.to_string()) {
        LineToken::DeclareOtherModule { name, is_pub, .. } => {
            assert!(!is_pub);
            assert_eq!(name, LineRef::new(4, 4));
            assert_eq!(name.resolve_unchecked(line), "café");
        }
        other => panic!("{:?}", other),
    }
    let line = "use café::x;";
    match parse_line(line.to_string()) {
        LineToken::UseModule { name, .. } => assert_eq!(name.resolve_unchecked(line), "café::x"),
        other => panic!("{:?}", other),
    }
    let line = "mod a\u{2003}b;";
    assert!(matches!(parse_line(line.to_string()), LineToken::OtherLine { .. }));
}

#[test]
fn imports_after_leading_whitespace() {
    let line = "\t  use std::io::Buf;";
    assert_eq!(
        parse_line(line.to_string()),
        LineToken::UseModule { line: line.to_string(), name: LineRef::new(7, 12) }
    );
    let line = "    use a::{b, c};";
    match parse_line(line.to_string()) {
        LineToken::UseManyModules { names, parent, .. } => {
            assert_eq!(parent, LineRef::new(8, 1));
            assert_eq!(names, vec![LineRef::new(12, 1), LineRef::new(15, 1)]);
        }
        other => panic!("{:?}", other),
    }
}
