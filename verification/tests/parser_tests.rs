use scope_graph::parser::{parse, parse_checked, try_parse, ParseError, Parser};
use scope_graph::syntax::{node_size_capped, SyntaxElement, SyntaxNode};
use scope_graph::syntax_kind::SyntaxKind;

fn text_len(text: &[char]) -> usize {
    text.iter().map(|c| c.len_utf8()).sum()
}

fn dump_into(node: &SyntaxNode, depth: usize, out: &mut String) {
    let text = node.text();
    out.push_str(&format!(
        "{}{:?}@{}..{}\n",
        "  ".repeat(depth),
        node.kind(),
        node.offset,
        node.offset + text_len(&text)
    ));
    for child in node.children.iter() {
        match child {
            SyntaxElement::Node(n) => dump_into(n, depth + 1, out),
            SyntaxElement::Token(t) => {
                let s: String = t.text.iter().collect();
                out.push_str(&format!(
                    "{}{:?}@{}..{} {:?}\n",
                    "  ".repeat(depth + 1),
                    t.kind,
                    t.offset,
                    t.offset + text_len(&t.text),
                    s
                ));
            }
        }
    }
}

fn dump(node: &SyntaxNode) -> String {
    let mut out = String::new();
    dump_into(node, 0, &mut out);
    out
}

fn node_string(node: &SyntaxNode) -> String {
    node.text().into_iter().collect()
}

#[test]
fn parses_let_statement() {
    let root = parse("let x = 1;");
    let expected = "\
SOURCE_FILE@0..10
  LET_STMT@0..10
    LET_KW@0..3 \"let\"
    WHITESPACE@3..4 \" \"
    NAME_REF@4..5
      IDENT@4..5 \"x\"
    WHITESPACE@5..6 \" \"
    EQ@6..7 \"=\"
    WHITESPACE@7..8 \" \"
    LITERAL@8..9
      INT@8..9 \"1\"
    SEMICOLON@9..10 \";\"
";
    assert_eq!(dump(&root), expected);
}

#[test]
fn star_binds_tighter_than_plus_on_the_right() {
    let root = parse("1 + 2 * 3");
    let expected = "\
SOURCE_FILE@0..9
  EXPR_STMT@0..9
    BINARY_EXPR@0..9
      LITERAL@0..1
        INT@0..1 \"1\"
      WHITESPACE@1..2 \" \"
      PLUS@2..3 \"+\"
      WHITESPACE@3..4 \" \"
      BINARY_EXPR@4..9
        LITERAL@4..5
          INT@4..5 \"2\"
        WHITESPACE@5..6 \" \"
        STAR@6..7 \"*\"
        WHITESPACE@7..8 \" \"
        LITERAL@8..9
          INT@8..9 \"3\"
";
    assert_eq!(dump(&root), expected);
}

#[test]
fn star_binds_tighter_than_plus_on_the_left() {
    let root = parse("1 * 2 + 3");
    let expected = "\
SOURCE_FILE@0..9
  EXPR_STMT@0..9
    BINARY_EXPR@0..9
      BINARY_EXPR@0..6
        LITERAL@0..1
          INT@0..1 \"1\"
        WHITESPACE@1..2 \" \"
        STAR@2..3 \"*\"
        WHITESPACE@3..4 \" \"
        LITERAL@4..5
          INT@4..5 \"2\"
        WHITESPACE@5..6 \" \"
      PLUS@6..7 \"+\"
      WHITESPACE@7..8 \" \"
      LITERAL@8..9
        INT@8..9 \"3\"
";
    assert_eq!(dump(&root), expected);
}

#[test]
fn minus_is_left_associative() {
    let root = parse("a-b-c");
    let expected = "\
SOURCE_FILE@0..5
  EXPR_STMT@0..5
    BINARY_EXPR@0..5
      BINARY_EXPR@0..3
        NAME_REF@0..1
          IDENT@0..1 \"a\"
        MINUS@1..2 \"-\"
        NAME_REF@2..3
          IDENT@2..3 \"b\"
      MINUS@3..4 \"-\"
      NAME_REF@4..5
        IDENT@4..5 \"c\"
";
    assert_eq!(dump(&root), expected);
}

#[test]
fn parses_import_path() {
    let root = parse("import a.b;");
    let expected = "\
SOURCE_FILE@0..11
  IMPORT_STMT@0..11
    IMPORT_KW@0..6 \"import\"
    WHITESPACE@6..7 \" \"
    PATH@7..10
      IDENT@7..8 \"a\"
      DOT@8..9 \".\"
      IDENT@9..10 \"b\"
    SEMICOLON@10..11 \";\"
";
    assert_eq!(dump(&root), expected);
}

#[test]
fn parses_scope_definition() {
    let root = parse("scope s { x }");
    let expected = "\
SOURCE_FILE@0..13
  SCOPE_DEF@0..13
    SCOPE_KW@0..5 \"scope\"
    WHITESPACE@5..6 \" \"
    NAME_REF@6..7
      IDENT@6..7 \"s\"
    WHITESPACE@7..8 \" \"
    BLOCK_EXPR@8..13
      L_CURLY@8..9 \"{\"
      WHITESPACE@9..10 \" \"
      EXPR_STMT@10..12
        NAME_REF@10..11
          IDENT@10..11 \"x\"
        WHITESPACE@11..12 \" \"
      R_CURLY@12..13 \"}\"
";
    assert_eq!(dump(&root), expected);
}

#[test]
fn unclosed_block_ends_at_end_of_input() {
    let root = parse("{ let a = 1;");
    let expected = "\
SOURCE_FILE@0..12
  EXPR_STMT@0..12
    BLOCK_EXPR@0..12
      L_CURLY@0..1 \"{\"
      WHITESPACE@1..2 \" \"
      LET_STMT@2..12
        LET_KW@2..5 \"let\"
        WHITESPACE@5..6 \" \"
        NAME_REF@6..7
          IDENT@6..7 \"a\"
        WHITESPACE@7..8 \" \"
        EQ@8..9 \"=\"
        WHITESPACE@9..10 \" \"
        LITERAL@10..11
          INT@10..11 \"1\"
        SEMICOLON@11..12 \";\"
";
    assert_eq!(dump(&root), expected);
}

#[test]
fn empty_input_gives_empty_file() {
    let root = parse("");
    assert_eq!(dump(&root), "SOURCE_FILE@0..0\n");
}

#[test]
fn byte_offsets_count_utf8() {
    let root = parse("let x\u{00E9} = 1;");
    let expected = "\
SOURCE_FILE@0..12
  LET_STMT@0..12
    LET_KW@0..3 \"let\"
    WHITESPACE@3..4 \" \"
    NAME_REF@4..7
      IDENT@4..7 \"x\u{00E9}\"
    WHITESPACE@7..8 \" \"
    EQ@8..9 \"=\"
    WHITESPACE@9..10 \" \"
    LITERAL@10..11
      INT@10..11 \"1\"
    SEMICOLON@11..12 \";\"
";
    assert_eq!(dump(&root), expected);
}

#[test]
fn parsing_is_lossless() {
    let code = "let a = 1;\nscope s {\n  let b = a * 2;\n  scope t { let c = b; }\n}\nimport s.t.c;\nlet d = c + offset;\n";
    let root = parse(code);
    assert_eq!(node_string(&root), code);
    assert_eq!(root.kind(), SyntaxKind::SOURCE_FILE);
}

#[test]
fn try_parse_gives_the_tree_or_none() {
    let root = try_parse("let x = y;").unwrap();
    assert_eq!(dump(&root), dump(&parse("let x = y;")));
    assert!(try_parse("}").is_none());
    assert!(try_parse("+ 1").is_none());
    assert!(try_parse("let x = a.b;").is_none());
}

#[test]
fn stray_tokens_make_no_progress() {
    assert_eq!(parse_checked("}").err(), Some(ParseError::NoProgress));
    assert_eq!(parse_checked("x = 1").err(), Some(ParseError::NoProgress));
    assert_eq!(parse_checked("let x = a.b;").err(), Some(ParseError::NoProgress));
}

#[test]
fn unlexable_input_is_refused() {
    assert_eq!(parse_checked("\u{00E9}").err(), Some(ParseError::Unlexable));
    assert_eq!(parse_checked("let x = \u{2192};").err(), Some(ParseError::Unlexable));
}

#[test]
fn checked_parse_of_good_input() {
    let root = parse_checked("scope s { let a = 1; }").unwrap();
    assert_eq!(dump(&root), dump(&parse("scope s { let a = 1; }")));
    assert_eq!(node_string(&root), "scope s { let a = 1; }");
}

#[test]
fn parser_gives_green_tree_and_tree() {
    let green = Parser::new("let a = 1;").parse_green();
    assert!(green.is_some());
    assert!(Parser::new("}").parse_green().is_none());
    let root = Parser::new("let a = 1;").parse();
    assert_eq!(dump(&root), dump(&parse("let a = 1;")));
}

#[test]
fn cloned_node_is_the_same_tree() {
    let root = parse("let a = b + 1;");
    let copy = root.clone();
    assert_eq!(dump(&copy), dump(&root));
    assert_eq!(copy.kind(), root.kind());
    assert_eq!(copy.offset, root.offset);
}

#[test]
fn node_sizes_are_counted_up_to_a_cap() {
    let root = parse("let x = 1;");
    assert_eq!(node_size_capped(&root, 100), 12);
    assert_eq!(node_size_capped(&root, 12), 12);
    assert_eq!(node_size_capped(&root, 5), 5);
    assert_eq!(node_size_capped(&root, 1), 1);
    assert_eq!(node_size_capped(&root, 0), 0);
}
