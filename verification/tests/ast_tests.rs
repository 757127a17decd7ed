use scope_graph::ast::{
    AstNode, BlockExpr, ImportStmt, LetStmt, NameRef, PathNode, ScopeDef, SourceFile, Stmt,
};
use scope_graph::parser::parse;
use scope_graph::syntax::SyntaxNode;
use scope_graph::syntax_kind::SyntaxKind;

fn text_of(node: &SyntaxNode) -> String {
    node.text().into_iter().collect()
}

fn statements_of_file(code: &str) -> Vec<Stmt> {
    SourceFile::cast(parse(code)).statements()
}

#[test]
fn statements_are_cast_by_kind() {
    let stmts = statements_of_file("let a = 1; scope s {} import a; {} x;");
    assert_eq!(stmts.len(), 5);
    assert!(matches!(stmts[0], Stmt::Let(_)));
    assert!(matches!(stmts[1], Stmt::ScopeDef(_)));
    assert!(matches!(stmts[2], Stmt::Import(_)));
    match &stmts[3] {
        Stmt::Other(n) => assert_eq!(n.kind(), SyntaxKind::EXPR_STMT),
        _ => panic!("a block statement is an expression statement"),
    }
    match &stmts[4] {
        Stmt::Other(n) => assert_eq!(n.kind(), SyntaxKind::EXPR_STMT),
        _ => panic!("a name statement is an expression statement"),
    }
    assert_eq!(text_of(stmts[1].syntax()), "scope s {}");
}

#[test]
fn stmt_cast_of_each_kind() {
    let root = parse("let a = b;");
    let let_node = match &SourceFile::cast(root).statements()[0] {
        Stmt::Let(l) => l.0.clone(),
        _ => panic!("expected a let statement"),
    };
    match Stmt::cast(let_node.clone()) {
        Stmt::Let(l) => assert_eq!(text_of(&l.0), "let a = b;"),
        _ => panic!("expected a let statement"),
    }
    let init = LetStmt(let_node).initializer();
    assert_eq!(init.len(), 1);
    match &init[0] {
        Stmt::NameRef(n) => assert_eq!(text_of(&n.0), "b"),
        _ => panic!("expected a name"),
    }
}

#[test]
fn typed_casts_check_the_kind() {
    let root = parse("let a = 1;");
    assert!(ScopeDef::cast(root.clone()).is_none());
    assert!(BlockExpr::cast(root.clone()).is_none());
    assert!(LetStmt::cast(root.clone()).is_none());
    assert!(ImportStmt::cast(root.clone()).is_none());
    assert!(NameRef::cast(root.clone()).is_none());
    assert!(PathNode::cast(root.clone()).is_none());
    let file = SourceFile::cast(root);
    assert_eq!(file.syntax().kind(), SyntaxKind::SOURCE_FILE);
}

#[test]
fn scope_def_name_and_block() {
    let stmts = statements_of_file("scope outer { let x = 1; scope inner {} }");
    let def = match &stmts[0] {
        Stmt::ScopeDef(d) => d.clone(),
        _ => panic!("expected a scope definition"),
    };
    let name = def.name_node().unwrap();
    assert_eq!(text_of(&name.0), "outer");
    assert_eq!(name.ident_token().unwrap().text.iter().collect::<String>(), "outer");
    let block = def.block().unwrap();
    let inner = block.statements();
    assert_eq!(inner.len(), 2);
    assert!(matches!(inner[0], Stmt::Let(_)));
    assert!(matches!(inner[1], Stmt::ScopeDef(_)));
}

#[test]
fn scope_def_without_name_or_block() {
    let stmts = statements_of_file("scope");
    let def = match &stmts[0] {
        Stmt::ScopeDef(d) => d.clone(),
        _ => panic!("expected a scope definition"),
    };
    assert!(def.name_node().is_none());
    assert!(def.block().is_none());
}

#[test]
fn let_name_and_initializer() {
    let stmts = statements_of_file("let total = a + 2;");
    let l = match &stmts[0] {
        Stmt::Let(l) => l.clone(),
        _ => panic!("expected a let statement"),
    };
    assert_eq!(text_of(&l.name_node().unwrap().0), "total");
    let init = l.initializer();
    assert_eq!(init.len(), 1);
    match &init[0] {
        Stmt::Other(n) => {
            assert_eq!(n.kind(), SyntaxKind::BINARY_EXPR);
            assert_eq!(text_of(n), "a + 2");
        }
        _ => panic!("expected a binary expression"),
    }
}

#[test]
fn let_without_name_keeps_whole_initializer() {
    let stmts = statements_of_file("let = 5;");
    let l = match &stmts[0] {
        Stmt::Let(l) => l.clone(),
        _ => panic!("expected a let statement"),
    };
    assert!(l.name_node().is_none());
    let init = l.initializer();
    assert_eq!(init.len(), 1);
    assert_eq!(init[0].syntax().kind(), SyntaxKind::LITERAL);
}

#[test]
fn import_path_segments() {
    let stmts = statements_of_file("import a . b.c;");
    let imp = match &stmts[0] {
        Stmt::Import(i) => i.clone(),
        _ => panic!("expected an import"),
    };
    let path = imp.path().unwrap();
    assert_eq!(path.0.kind(), SyntaxKind::PATH);
    let segs: Vec<String> = path
        .segments()
        .into_iter()
        .map(|t| t.text.iter().collect())
        .collect();
    assert_eq!(segs, vec!["a", "b", "c"]);
    let last = path.last_segment().unwrap();
    assert_eq!(last.text.iter().collect::<String>(), "c");
    assert_eq!(last.offset, 13);
}

#[test]
fn empty_import_path_has_no_segments() {
    let stmts = statements_of_file("import ;");
    let imp = match &stmts[0] {
        Stmt::Import(i) => i.clone(),
        _ => panic!("expected an import"),
    };
    let path = imp.path().unwrap();
    assert!(path.segments().is_empty());
    assert!(path.last_segment().is_none());
}

#[test]
fn path_cast_accepts_names() {
    let stmts = statements_of_file("x;");
    let expr = stmts[0].syntax().clone();
    let name = match &SourceFile::cast(expr.clone()).statements()[0] {
        Stmt::NameRef(n) => n.0.clone(),
        _ => panic!("expected a name"),
    };
    let path = PathNode::cast(name).unwrap();
    assert_eq!(path.segments().len(), 1);
    assert_eq!(path.last_segment().unwrap().text.iter().collect::<String>(), "x");
}
