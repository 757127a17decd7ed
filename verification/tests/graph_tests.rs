use scope_graph::ast::{SourceFile, Stmt};
use scope_graph::parser::parse;
use scope_graph::scope_graph::{DeclId, ImportCycle, RefId, ScopeGraph, ScopeId};
use scope_graph::syntax::SyntaxNode;
use scope_graph::syntax_kind::SyntaxKind;

const SAMPLE: &str = "let a = 1;
scope s {
    import a;
    let b = a;
    scope t { import s.b; let c = b; }
}
import s.t.c;
let d = c + offset;
{ let a = 2; let e = a; }
";

fn graph_of(code: &str) -> ScopeGraph {
    ScopeGraph::build(&SourceFile::cast(parse(code)))
}

fn name_text(node: &SyntaxNode) -> String {
    node.text().into_iter().collect()
}

fn decl_name(graph: &ScopeGraph, id: DeclId) -> String {
    name_text(&graph.declaration(id).unwrap().node)
}

#[test]
fn sample_counts() {
    let graph = graph_of(SAMPLE);
    assert_eq!(graph.scope_count(), 4);
    assert_eq!(graph.declaration_count(), 8);
    assert_eq!(graph.reference_count(), 5);
    assert_eq!(graph.import_count(), 3);
}

#[test]
fn sample_declarations_in_order() {
    let graph = graph_of(SAMPLE);
    let expected = [
        ("a", 0, None),
        ("s", 0, Some(1)),
        ("b", 1, None),
        ("t", 1, Some(2)),
        ("c", 2, None),
        ("d", 0, None),
        ("a", 3, None),
        ("e", 3, None),
    ];
    for (i, (name, scope, child)) in expected.iter().enumerate() {
        let decl = graph.declaration(DeclId(i as u32)).unwrap();
        assert_eq!(name_text(&decl.node), *name);
        assert_eq!(decl.scope, ScopeId(*scope));
        assert_eq!(decl.child_scope, child.map(ScopeId));
    }
    assert!(graph.declaration(DeclId(8)).is_none());
}

#[test]
fn sample_references_in_order() {
    let graph = graph_of(SAMPLE);
    let refs = graph.references();
    let seen: Vec<(String, u32)> = refs
        .iter()
        .map(|r| (name_text(&r.node), r.scope.0))
        .collect();
    let expected: Vec<(String, u32)> = vec![
        ("a".to_string(), 1),
        ("b".to_string(), 2),
        ("c".to_string(), 0),
        ("offset".to_string(), 0),
        ("a".to_string(), 3),
    ];
    assert_eq!(seen, expected);
    assert_eq!(refs[3].node.offset, SAMPLE.find("offset").unwrap());
}

#[test]
fn all_names_resolve_but_offset() {
    let graph = graph_of(SAMPLE);
    assert_eq!(graph.resolve(RefId(0)), Some(DeclId(0)));
    assert_eq!(graph.resolve(RefId(1)), Some(DeclId(2)));
    assert_eq!(graph.resolve(RefId(2)), Some(DeclId(4)));
    assert_eq!(graph.resolve(RefId(3)), None);
    assert_eq!(graph.resolve(RefId(4)), Some(DeclId(6)));
}

#[test]
fn resolution_keeps_names() {
    let graph = graph_of(SAMPLE);
    for (i, r) in graph.references().iter().enumerate() {
        if let Some(d) = graph.resolve(RefId(i as u32)) {
            assert_eq!(decl_name(&graph, d), name_text(&r.node));
        }
    }
}

#[test]
fn local_declaration_shadows_outer_one() {
    let graph = graph_of("let x = 1; { let x = 2; let y = x; }");
    assert_eq!(graph.reference_count(), 1);
    let d = graph.resolve(RefId(0)).unwrap();
    assert_eq!(d, DeclId(1));
    assert_eq!(graph.declaration(d).unwrap().scope, ScopeId(1));
}

#[test]
fn later_declaration_of_a_name_wins() {
    let graph = graph_of("let x = 1; let x = 2; let y = x;");
    assert_eq!(graph.resolve(RefId(0)), Some(DeclId(1)));
}

#[test]
fn declaration_wins_over_import_in_same_scope() {
    let graph = graph_of("scope s { let v = 1; } import s.v; let v = 2; let w = v;");
    assert_eq!(graph.resolve(RefId(0)), Some(DeclId(2)));
}

#[test]
fn unbound_name_is_found_outside_blocks() {
    let graph = graph_of("let x = 1; { { let y = x; } }");
    assert_eq!(graph.resolve(RefId(0)), Some(DeclId(0)));
}

#[test]
fn named_scope_does_not_see_outer_names() {
    let graph = graph_of("let x = 1; scope a { x }");
    assert_eq!(graph.reference_count(), 1);
    assert_eq!(graph.resolve(RefId(0)), None);
}

#[test]
fn nested_named_scopes_do_not_see_outer_names() {
    let graph = graph_of("let x = 1; scope s { let w = 2; scope t { let y = x; let z = w; } }");
    assert_eq!(graph.resolve(RefId(0)), None);
    assert_eq!(graph.resolve(RefId(1)), None);
}

#[test]
fn block_inside_named_scope_sees_the_named_scope() {
    let graph = graph_of("let x = 1; scope s { let w = 2; { let y = w; let z = x; } }");
    assert_eq!(graph.resolve(RefId(0)), Some(DeclId(2)));
    assert_eq!(graph.resolve(RefId(1)), None);
}

#[test]
fn named_scope_sees_outer_names_through_imports() {
    let graph = graph_of("let x = 1; scope a { import x; let y = x; }");
    assert_eq!(graph.resolve(RefId(0)), Some(DeclId(0)));
}

#[test]
fn name_bound_nowhere_is_unresolved() {
    let graph = graph_of("scope s { let y = z; }");
    assert_eq!(graph.resolve(RefId(0)), None);
}

#[test]
fn import_resolves_from_root_scope() {
    let graph = graph_of("scope lib { let f = 1; } scope app { import lib.f; let g = f; }");
    assert_eq!(graph.import_count(), 1);
    assert_eq!(graph.resolve(RefId(0)), Some(DeclId(1)));
    assert_eq!(graph.try_resolve(RefId(0)), Ok(Some(DeclId(1))));
}

#[test]
fn path_stays_in_named_scope() {
    let code = "let y = 1; scope s { } import s.y;";
    let root = parse(code);
    let file = SourceFile::cast(root);
    let graph = ScopeGraph::build(&file);
    let path = match &file.statements()[2] {
        Stmt::Import(i) => i.path().unwrap(),
        _ => panic!("expected an import"),
    };
    assert_eq!(graph.resolve_path(ScopeId(0), &path), None);
}

#[test]
fn path_goes_through_named_scopes() {
    let code = "scope s { scope t { let z = 1; } } import s.t.z;";
    let root = parse(code);
    let file = SourceFile::cast(root);
    let graph = ScopeGraph::build(&file);
    let path = match &file.statements()[1] {
        Stmt::Import(i) => i.path().unwrap(),
        _ => panic!("expected an import"),
    };
    assert_eq!(graph.resolve_path(ScopeId(0), &path), Some(DeclId(2)));
}

#[test]
fn unresolved_import_falls_back_to_outer_scope() {
    let graph = graph_of("let y = 1; scope s { } { import s.y; let z = y; }");
    assert_eq!(graph.resolve(RefId(0)), Some(DeclId(0)));
}

#[test]
fn unresolved_import_in_named_scope_leaves_name_unresolved() {
    let graph = graph_of("let y = 1; scope s { } scope u { import s.y; let z = y; }");
    assert_eq!(graph.resolve(RefId(0)), None);
}

#[test]
fn import_cycle_is_reported() {
    let graph = graph_of("import a; let x = a;");
    assert_eq!(graph.reference_count(), 1);
    assert_eq!(graph.try_resolve(RefId(0)), Err(ImportCycle::Found));
}

#[test]
fn two_imports_in_a_cycle_are_reported() {
    let graph = graph_of("import b.x; scope b { import x; } let y = x;");
    assert_eq!(graph.try_resolve(RefId(0)), Err(ImportCycle::Found));
}

#[test]
fn names_in_paths_and_scope_names_are_not_references() {
    let graph = graph_of("scope s { } import s.x;");
    assert_eq!(graph.reference_count(), 0);
    assert_eq!(graph.declaration_count(), 1);
    assert_eq!(graph.scope_count(), 2);
}

#[test]
fn blocks_in_expressions_open_scopes() {
    let graph = graph_of("let a = { let b = 1; b } + 2;");
    assert_eq!(graph.scope_count(), 2);
    assert_eq!(graph.declaration_count(), 2);
    assert_eq!(graph.resolve(RefId(0)), Some(DeclId(1)));
}

#[test]
fn graph_is_sound() {
    let graph = graph_of(SAMPLE);
    assert!(graph.scope_count() >= 1);
    let mut named = Vec::new();
    for i in 0..graph.declaration_count() {
        let d = graph.declaration(DeclId(i as u32)).unwrap();
        assert!((d.scope.0 as usize) < graph.scope_count());
        assert_eq!(d.node.kind(), SyntaxKind::NAME_REF);
        if let Some(c) = d.child_scope {
            assert!(c.0 > 0);
            assert!((c.0 as usize) < graph.scope_count());
            assert!(!named.contains(&c));
            named.push(c);
        }
    }
    assert_eq!(named, vec![ScopeId(1), ScopeId(2)]);
    for r in graph.references() {
        assert!((r.scope.0 as usize) < graph.scope_count());
        assert_eq!(r.node.kind(), SyntaxKind::NAME_REF);
    }
}

#[test]
fn default_graph_is_empty() {
    let graph = ScopeGraph::default();
    assert_eq!(graph.scope_count(), 0);
    assert_eq!(graph.declaration_count(), 0);
    assert_eq!(graph.reference_count(), 0);
    assert_eq!(graph.import_count(), 0);
    assert!(graph.references().is_empty());
}

#[test]
fn empty_file_has_only_root_scope() {
    let graph = graph_of("");
    assert_eq!(graph.scope_count(), 1);
    assert_eq!(graph.declaration_count(), 0);
}

#[test]
fn try_build_gives_the_same_graph() {
    let file = SourceFile::cast(parse(SAMPLE));
    let graph = ScopeGraph::try_build(&file).unwrap();
    assert_eq!(graph.scope_count(), 4);
    assert_eq!(graph.declaration_count(), 8);
    assert_eq!(graph.reference_count(), 5);
    assert_eq!(graph.import_count(), 3);
    assert_eq!(graph.resolve(RefId(2)), Some(DeclId(4)));
}

#[test]
fn unknown_first_name_resolves_to_nothing_from_any_scope() {
    let code = "let a = 1; import q.zz;";
    let file = SourceFile::cast(parse(code));
    let graph = ScopeGraph::build(&file);
    let path = match &file.statements()[1] {
        Stmt::Import(i) => i.path().unwrap(),
        _ => panic!("expected an import"),
    };
    assert_eq!(graph.resolve_path(ScopeId(0), &path), None);
    assert_eq!(graph.resolve_path(ScopeId(99), &path), None);
}

fn count_kinds(node: &SyntaxNode, parent: SyntaxKind, out: &mut (usize, usize, usize)) {
    use_kind(node.kind(), parent, out);
    for child in node.children.iter() {
        if let scope_graph::syntax::SyntaxElement::Node(n) = child {
            count_kinds(n, node.kind(), out);
        }
    }
}

fn use_kind(kind: SyntaxKind, parent: SyntaxKind, out: &mut (usize, usize, usize)) {
    if kind == SyntaxKind::NAME_REF {
        out.0 += 1;
    }
    if kind == SyntaxKind::IMPORT_STMT {
        out.1 += 1;
    }
    if kind == SyntaxKind::SCOPE_DEF || (kind == SyntaxKind::BLOCK_EXPR && parent != SyntaxKind::SCOPE_DEF) {
        out.2 += 1;
    }
}

#[test]
fn graph_counts_match_the_tree() {
    let codes = [
        SAMPLE,
        "let a = { let b = 1; b } + 2;",
        "scope s { scope t { import q.r; } } { { x } } let = y;",
        "",
    ];
    for code in codes.iter() {
        let root = parse(code);
        let mut counts = (0, 0, 0);
        count_kinds(&root, SyntaxKind::SOURCE_FILE, &mut counts);
        let graph = ScopeGraph::build(&SourceFile::cast(root));
        assert_eq!(graph.declaration_count() + graph.reference_count(), counts.0);
        assert_eq!(graph.import_count(), counts.1);
        assert_eq!(graph.scope_count(), 1 + counts.2);
    }
}
