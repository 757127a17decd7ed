use scope_graph::lexer::{is_lexable, tokenize, Lexer};
use scope_graph::syntax_kind::{Lang, SyntaxKind};

fn lexed(input: &str) -> Vec<(SyntaxKind, String)> {
    tokenize(input)
        .into_iter()
        .map(|(k, t)| (k, t.into_iter().collect::<String>()))
        .collect()
}

fn tok(kind: SyntaxKind, text: &str) -> (SyntaxKind, String) {
    (kind, text.to_string())
}

#[test]
fn lexes_let_statement() {
    assert_eq!(
        lexed("let x = 1;"),
        vec![
            tok(SyntaxKind::LET_KW, "let"),
            tok(SyntaxKind::WHITESPACE, " "),
            tok(SyntaxKind::IDENT, "x"),
            tok(SyntaxKind::WHITESPACE, " "),
            tok(SyntaxKind::EQ, "="),
            tok(SyntaxKind::WHITESPACE, " "),
            tok(SyntaxKind::INT, "1"),
            tok(SyntaxKind::SEMICOLON, ";"),
        ]
    );
}

#[test]
fn lexes_keywords_and_identifiers() {
    assert_eq!(
        lexed("scope import letter _x9 Let"),
        vec![
            tok(SyntaxKind::SCOPE_KW, "scope"),
            tok(SyntaxKind::WHITESPACE, " "),
            tok(SyntaxKind::IMPORT_KW, "import"),
            tok(SyntaxKind::WHITESPACE, " "),
            tok(SyntaxKind::IDENT, "letter"),
            tok(SyntaxKind::WHITESPACE, " "),
            tok(SyntaxKind::IDENT, "_x9"),
            tok(SyntaxKind::WHITESPACE, " "),
            tok(SyntaxKind::IDENT, "Let"),
        ]
    );
}

#[test]
fn lexes_punctuation() {
    assert_eq!(
        lexed("+-*=.;{}"),
        vec![
            tok(SyntaxKind::PLUS, "+"),
            tok(SyntaxKind::MINUS, "-"),
            tok(SyntaxKind::STAR, "*"),
            tok(SyntaxKind::EQ, "="),
            tok(SyntaxKind::DOT, "."),
            tok(SyntaxKind::SEMICOLON, ";"),
            tok(SyntaxKind::L_CURLY, "{"),
            tok(SyntaxKind::R_CURLY, "}"),
        ]
    );
}

#[test]
fn numbers_stop_at_letters() {
    assert_eq!(
        lexed("12ab"),
        vec![tok(SyntaxKind::INT, "12"), tok(SyntaxKind::IDENT, "ab")]
    );
}

#[test]
fn numbers_run_over_unicode_digits() {
    assert_eq!(lexed("1\u{00B2}"), vec![tok(SyntaxKind::INT, "1\u{00B2}")]);
}

#[test]
fn identifiers_run_over_unicode_letters() {
    assert_eq!(
        lexed("x\u{00E9}y 1"),
        vec![
            tok(SyntaxKind::IDENT, "x\u{00E9}y"),
            tok(SyntaxKind::WHITESPACE, " "),
            tok(SyntaxKind::INT, "1"),
        ]
    );
}

#[test]
fn whitespace_runs_join() {
    assert_eq!(
        lexed(" \t\n\u{3000}x"),
        vec![
            tok(SyntaxKind::WHITESPACE, " \t\n\u{3000}"),
            tok(SyntaxKind::IDENT, "x"),
        ]
    );
}

#[test]
fn unknown_ascii_is_an_error_token() {
    assert_eq!(
        lexed("@#"),
        vec![tok(SyntaxKind::ERROR, "@"), tok(SyntaxKind::ERROR, "#")]
    );
}

#[test]
fn empty_input_has_no_tokens() {
    assert_eq!(lexed(""), Vec::<(SyntaxKind, String)>::new());
}

#[test]
fn lexing_is_lossless() {
    let input = "let a = 1 + b\u{00E9};\n scope s { import a.b; } @";
    let text: String = lexed(input).into_iter().map(|(_, t)| t).collect();
    assert_eq!(text, input);
}

#[test]
fn lexer_hands_out_tokens_one_at_a_time() {
    let mut lexer = Lexer::new("ab 7");
    assert!(!lexer.is_done());
    assert!(lexer.can_advance());
    let (k1, t1) = lexer.next_token().unwrap();
    assert_eq!(k1, SyntaxKind::IDENT);
    assert_eq!(t1, vec!['a', 'b']);
    let (k2, t2) = lexer.next_token().unwrap();
    assert_eq!(k2, SyntaxKind::WHITESPACE);
    assert_eq!(t2, vec![' ']);
    let (k3, t3) = lexer.next_token().unwrap();
    assert_eq!(k3, SyntaxKind::INT);
    assert_eq!(t3, vec!['7']);
    assert!(lexer.is_done());
    assert!(lexer.next_token().is_none());
}

#[test]
fn lexer_cannot_advance_over_a_wide_unknown_character() {
    let lexer = Lexer::new("\u{00E9}x");
    assert!(!lexer.can_advance());
}

#[test]
fn lexability_of_inputs() {
    assert!(is_lexable(""));
    assert!(is_lexable("let x = 1;"));
    assert!(is_lexable("x\u{00E9}"));
    assert!(is_lexable("\u{00A0}x"));
    assert!(is_lexable("@"));
    assert!(!is_lexable("\u{00E9}"));
    assert!(!is_lexable("let x = \u{2192};"));
}

#[test]
fn raw_kinds_round_trip() {
    assert_eq!(Lang::kind_to_raw(SyntaxKind::WHITESPACE), 0);
    assert_eq!(Lang::kind_to_raw(SyntaxKind::SOURCE_FILE), 15);
    assert_eq!(Lang::kind_to_raw(SyntaxKind::PATH), 24);
    assert_eq!(Lang::kind_from_raw(24), SyntaxKind::PATH);
    assert_eq!(Lang::kind_from_raw(4), SyntaxKind::IDENT);
    for raw in 0u16..=24 {
        assert_eq!(Lang::kind_to_raw(Lang::kind_from_raw(raw)), raw);
        assert_eq!(SyntaxKind::from_raw(raw).to_raw(), raw);
    }
}

#[test]
fn whitespace_tokens_never_follow_each_other() {
    let input = " \t\n x  \u{3000}\u{00A0}y\r\n\n{ }  ";
    let toks = lexed(input);
    assert!(toks.len() <= input.chars().count());
    for t in toks.iter() {
        assert!(!t.1.is_empty());
    }
    for w in toks.windows(2) {
        assert!(!(w[0].0 == SyntaxKind::WHITESPACE && w[1].0 == SyntaxKind::WHITESPACE));
    }
    assert_eq!(
        toks.iter().filter(|t| t.0 == SyntaxKind::WHITESPACE).count(),
        5
    );
}
