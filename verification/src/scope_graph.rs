//! The scope graph of a file: scopes with their parents, declarations,
//! references and imports, and the bindings of names in each scope through
//! which references are resolved.

use vstd::prelude::*;

use std::collections::HashMap;

use crate::ast::{
    child_nodes, first_child_of, ident_tokens, initializer_nodes, lemma_child_nodes_size,
    lemma_first_child_size, lemma_first_index_of, lemma_nodes_size_index,
    lemma_without_size, nodes_size, stmt_node, stmt_of, AstNode, ImportStmt, LetStmt, NameRef,
    PathNode, ScopeDef, SourceFile, Stmt, BlockExpr, statements_of,
};
use crate::interner::{intern, interned, interner_new, lookup_interned, NameInterner};
use crate::syntax::{node_size, node_size_capped, SyntaxNode, SyntaxToken};
use crate::syntax_kind::SyntaxKind;

verus! {

/// The index of a scope.
#[derive(Debug, Clone, Copy, PartialEq, Eq, Structural, Hash)]
pub struct ScopeId(pub u32);

/// The index of a declaration.
#[derive(Debug, Clone, Copy, PartialEq, Eq, Structural, Hash)]
pub struct DeclId(pub u32);

/// The index of a reference.
#[derive(Debug, Clone, Copy, PartialEq, Eq, Structural, Hash)]
pub struct RefId(pub u32);

/// The index of an import.
#[derive(Debug, Clone, Copy, PartialEq, Eq, Structural, Hash)]
pub struct ImportId(pub u32);

/// A scope and the scope it is nested in.
#[derive(Debug)]
pub struct Scope {
    pub parent: Option<ScopeId>,
}

/// A declared name: the scope it is declared in, its `NAME_REF` node, and the
/// scope that it names (for a `scope` definition).
#[derive(Debug)]
pub struct Declaration {
    pub scope: ScopeId,
    pub node: SyntaxNode,
    pub child_scope: Option<ScopeId>,
}

/// A name that is used: the scope it is used in and its `NAME_REF` node.
#[derive(Debug)]
pub struct Reference {
    pub scope: ScopeId,
    pub node: SyntaxNode,
}

/// An imported path.
#[derive(Debug)]
pub struct Import {
    pub path_node: SyntaxNode,
}

/// What a name is bound to in a scope: its last declaration there and its
/// last import there.
pub type BindingModel = (Option<DeclId>, Option<ImportId>);

/// A scope graph as plain values; names are bound by their text, and `names`
/// holds every name that was ever bound.
pub struct GraphModel {
    pub scopes: Seq<Scope>,
    pub declarations: Seq<Declaration>,
    pub references: Seq<Reference>,
    pub imports: Seq<Import>,
    pub bindings: Map<(u32, Seq<char>), BindingModel>,
    pub names: Set<Seq<char>>,
}

/// The graph with nothing in it.
pub open spec fn empty_model() -> GraphModel {
    GraphModel {
        scopes: seq![],
        declarations: seq![],
        references: seq![],
        imports: seq![],
        bindings: Map::empty(),
        names: Set::empty(),
    }
}

/// The text of the first identifier under a node, if any.
pub open spec fn first_ident_text(n: SyntaxNode) -> Option<Seq<char>> {
    if ident_tokens(n).len() > 0 {
        Some(ident_tokens(n)[0].text@)
    } else {
        None
    }
}

/// The text of the last identifier under a node, if any.
pub open spec fn last_ident_text(n: SyntaxNode) -> Option<Seq<char>> {
    if ident_tokens(n).len() > 0 {
        Some(ident_tokens(n).last().text@)
    } else {
        None
    }
}

/// The binding of `name` in scope `s` (nothing where none was made).
pub open spec fn binding_of(m: GraphModel, s: u32, name: Seq<char>) -> BindingModel {
    if m.bindings.contains_key((s, name)) {
        m.bindings[(s, name)]
    } else {
        (None, None)
    }
}

/// The id that the next scope gets.
pub open spec fn next_scope_id(m: GraphModel) -> ScopeId {
    ScopeId(m.scopes.len() as u32)
}

/// Adds a scope with the given parent.
pub open spec fn add_scope(m: GraphModel, parent: Option<ScopeId>) -> GraphModel {
    GraphModel { scopes: m.scopes.push(Scope { parent }), ..m }
}

/// Adds a declaration of the name `node` in `scope`; the first identifier of
/// the name, if any, is bound to it there.
pub open spec fn add_decl(m: GraphModel, scope: ScopeId, node: SyntaxNode, child_scope: Option<ScopeId>) -> GraphModel {
    let id = DeclId(m.declarations.len() as u32);
    let bindings = match first_ident_text(node) {
        Some(t) => m.bindings.insert((scope.0, t), (Some(id), binding_of(m, scope.0, t).1)),
        None => m.bindings,
    };
    let names = match first_ident_text(node) {
        Some(t) => m.names.insert(t),
        None => m.names,
    };
    GraphModel {
        declarations: m.declarations.push(Declaration { scope, node, child_scope }),
        bindings,
        names,
        ..m
    }
}

/// Adds a reference to the name `node` in `scope`.
pub open spec fn add_ref(m: GraphModel, scope: ScopeId, node: SyntaxNode) -> GraphModel {
    GraphModel { references: m.references.push(Reference { scope, node }), ..m }
}

/// Adds an import of the path `node` in `scope`; the last identifier of the
/// path, if any, is bound to it there.
pub open spec fn add_import(m: GraphModel, scope: ScopeId, node: SyntaxNode) -> GraphModel {
    let id = ImportId(m.imports.len() as u32);
    let bindings = match last_ident_text(node) {
        Some(t) => m.bindings.insert((scope.0, t), (binding_of(m, scope.0, t).0, Some(id))),
        None => m.bindings,
    };
    let names = match last_ident_text(node) {
        Some(t) => m.names.insert(t),
        None => m.names,
    };
    GraphModel { imports: m.imports.push(Import { path_node: node }), bindings, names, ..m }
}

/// Whether the graph is sound: a scope's parent, where it has one, comes
/// before it (so the first scope has none); declarations and references are
/// `NAME_REF` nodes in scopes that exist; a declaration names a scope that
/// exists, is not the first and has no parent, and no two declarations name
/// the same scope;
/// every binding is made in a scope that exists, and binds its name to a
/// declaration that exists and has that name, and to an import that exists
/// and whose path ends in that name.
pub open spec fn model_ok(m: GraphModel) -> bool {
    &&& forall|i: int|
        0 <= i < m.scopes.len() ==> ((#[trigger] m.scopes[i]).parent matches Some(p) ==> p.0 < i)
    &&& forall|d: int|
        0 <= d < m.declarations.len() ==> (#[trigger] m.declarations[d]).scope.0 < m.scopes.len()
            && m.declarations[d].node.kind == SyntaxKind::NAME_REF
            && (m.declarations[d].child_scope matches Some(c) ==> 0 < c.0 < m.scopes.len()
            && m.scopes[c.0 as int].parent is None)
    &&& forall|d1: int, d2: int|
        #![trigger m.declarations[d1], m.declarations[d2]]
        0 <= d1 < d2 < m.declarations.len() ==> (m.declarations[d1].child_scope matches Some(c1)
            ==> m.declarations[d2].child_scope != Some(c1))
    &&& forall|r: int|
        0 <= r < m.references.len() ==> (#[trigger] m.references[r]).scope.0 < m.scopes.len()
            && m.references[r].node.kind == SyntaxKind::NAME_REF
    &&& forall|k: (u32, Seq<char>)| #[trigger] m.bindings.dom().contains(k) ==> binding_ok(m, k)
}

/// Whether the binding with key `k` is sound (see `model_ok`).
pub open spec fn binding_ok(m: GraphModel, k: (u32, Seq<char>)) -> bool {
    &&& k.0 < m.scopes.len()
    &&& m.names.contains(k.1)
    &&& m.bindings[k].0 matches Some(d) ==> d.0 < m.declarations.len() && first_ident_text(
        m.declarations[d.0 as int].node,
    ) == Some(k.1)
    &&& m.bindings[k].1 matches Some(i) ==> i.0 < m.imports.len() && last_ident_text(
        m.imports[i.0 as int].path_node,
    ) == Some(k.1)
}

pub proof fn lemma_add_scope_ok(m: GraphModel, parent: Option<ScopeId>)
    requires
        model_ok(m),
        parent matches Some(p) ==> p.0 < m.scopes.len(),
    ensures
        model_ok(add_scope(m, parent)),
{
    let m2 = add_scope(m, parent);
    assert forall|i: int| 0 <= i < m2.scopes.len() implies ((#[trigger] m2.scopes[i]).parent matches Some(
        p,
    ) ==> p.0 < i) by {
        if i < m.scopes.len() {
            assert(m2.scopes[i] == m.scopes[i]);
        }
    }
    assert forall|d: int| 0 <= d < m2.declarations.len() implies (#[trigger] m2.declarations[d]).scope.0
        < m2.scopes.len() && m2.declarations[d].node.kind == SyntaxKind::NAME_REF && (
    m2.declarations[d].child_scope matches Some(c) ==> 0 < c.0 < m2.scopes.len()
        && m2.scopes[c.0 as int].parent is None) by {
        match m.declarations[d].child_scope {
            Some(c) => {
                assert(m2.scopes[c.0 as int] == m.scopes[c.0 as int]);
            },
            None => {},
        }
    }
    assert forall|k: (u32, Seq<char>)| #[trigger] m2.bindings.dom().contains(k) implies binding_ok(m2, k) by {
        assert(binding_ok(m, k));
    }
}

pub proof fn lemma_add_ref_ok(m: GraphModel, scope: ScopeId, node: SyntaxNode)
    requires
        model_ok(m),
        scope.0 < m.scopes.len(),
        node.kind == SyntaxKind::NAME_REF,
    ensures
        model_ok(add_ref(m, scope, node)),
{
    let m2 = add_ref(m, scope, node);
    assert forall|r: int| 0 <= r < m2.references.len() implies (#[trigger] m2.references[r]).scope.0
        < m2.scopes.len() && m2.references[r].node.kind == SyntaxKind::NAME_REF by {
        if r < m.references.len() {
            assert(m2.references[r] == m.references[r]);
        }
    }
    assert forall|k: (u32, Seq<char>)| #[trigger] m2.bindings.dom().contains(k) implies binding_ok(m2, k) by {
        assert(binding_ok(m, k));
    }
}

pub proof fn lemma_add_decl_ok(m: GraphModel, scope: ScopeId, node: SyntaxNode, child: Option<ScopeId>)
    requires
        model_ok(m),
        m.declarations.len() < u32::MAX,
        scope.0 < m.scopes.len(),
        node.kind == SyntaxKind::NAME_REF,
        child matches Some(c) ==> 0 < c.0 < m.scopes.len() && m.scopes[c.0 as int].parent is None
            && forall|d: int|
            0 <= d < m.declarations.len() ==> (#[trigger] m.declarations[d]).child_scope != Some(c),
    ensures
        model_ok(add_decl(m, scope, node, child)),
{
    let m2 = add_decl(m, scope, node, child);
    assert forall|d: int| 0 <= d < m2.declarations.len() implies (#[trigger] m2.declarations[d]).scope.0
        < m2.scopes.len() && m2.declarations[d].node.kind == SyntaxKind::NAME_REF && (
    m2.declarations[d].child_scope matches Some(c) ==> 0 < c.0 < m2.scopes.len()
        && m2.scopes[c.0 as int].parent is None) by {
        if d < m.declarations.len() {
            assert(m2.declarations[d] == m.declarations[d]);
        }
    }
    assert forall|d1: int, d2: int|
        #![trigger m2.declarations[d1], m2.declarations[d2]]
        0 <= d1 < d2 < m2.declarations.len() implies (m2.declarations[d1].child_scope matches Some(c1)
        ==> m2.declarations[d2].child_scope != Some(c1)) by {
        assert(m2.declarations[d1] == m.declarations[d1]);
        if d2 < m.declarations.len() {
            assert(m2.declarations[d2] == m.declarations[d2]);
        } else {
            match child {
                Some(c) => {
                    assert(m.declarations[d1].child_scope != Some(c));
                },
                None => {},
            }
        }
    }
    assert forall|k: (u32, Seq<char>)| #[trigger] m2.bindings.dom().contains(k) implies binding_ok(m2, k) by {
        if m.bindings.dom().contains(k) {
            assert(binding_ok(m, k));
            match m.bindings[k].0 {
                Some(d) => {
                    assert(m2.declarations[d.0 as int] == m.declarations[d.0 as int]);
                },
                None => {},
            }
        }
    }
}

pub proof fn lemma_add_import_ok(m: GraphModel, scope: ScopeId, node: SyntaxNode)
    requires
        model_ok(m),
        m.imports.len() < u32::MAX,
        scope.0 < m.scopes.len(),
    ensures
        model_ok(add_import(m, scope, node)),
{
    let m2 = add_import(m, scope, node);
    assert forall|k: (u32, Seq<char>)| #[trigger] m2.bindings.dom().contains(k) implies binding_ok(m2, k) by {
        if m.bindings.dom().contains(k) {
            assert(binding_ok(m, k));
            match m.bindings[k].1 {
                Some(i) => {
                    assert(m2.imports[i.0 as int] == m.imports[i.0 as int]);
                },
                None => {},
            }
        }
    }
}

/// What a statement adds to the graph, in the scope `scope`; `parent` is the
/// kind of the node whose child the statement is. A `scope` definition opens
/// a scope without a parent; a block opens one whose parent is `scope`.
pub open spec fn walk_node(m: GraphModel, n: SyntaxNode, scope: ScopeId, parent: SyntaxKind) -> GraphModel
    decreases node_size(n), 0int,
{
    proof {
        lemma_child_nodes_size(n);
        lemma_first_child_size(n, SyntaxKind::BLOCK_EXPR, SyntaxKind::BLOCK_EXPR);
        lemma_without_size(
            child_nodes(n),
            crate::ast::first_index_of(child_nodes(n), SyntaxKind::NAME_REF, SyntaxKind::NAME_REF),
        );
    }
    match n.kind {
        SyntaxKind::SCOPE_DEF => {
            // A named scope has no parent: the names used inside it see what
            // it declares and imports, and nothing of the scopes around it.
            let named = next_scope_id(m);
            let m1 = add_scope(m, None);
            let m2 = match first_child_of(n, SyntaxKind::NAME_REF, SyntaxKind::NAME_REF) {
                Some(name) => add_decl(m1, scope, name, Some(named)),
                None => m1,
            };
            match first_child_of(n, SyntaxKind::BLOCK_EXPR, SyntaxKind::BLOCK_EXPR) {
                Some(block) => {
                    proof {
                        lemma_child_nodes_size(block);
                    }
                    walk_nodes(m2, child_nodes(block), named, SyntaxKind::BLOCK_EXPR)
                },
                None => m2,
            }
        },
        SyntaxKind::BLOCK_EXPR => {
            let anon = next_scope_id(m);
            walk_nodes(add_scope(m, Some(scope)), child_nodes(n), anon, SyntaxKind::BLOCK_EXPR)
        },
        SyntaxKind::LET_STMT => {
            let m1 = match first_child_of(n, SyntaxKind::NAME_REF, SyntaxKind::NAME_REF) {
                Some(name) => add_decl(m, scope, name, None),
                None => m,
            };
            walk_nodes(m1, initializer_nodes(n), scope, SyntaxKind::LET_STMT)
        },
        SyntaxKind::IMPORT_STMT => match first_child_of(n, SyntaxKind::PATH, SyntaxKind::NAME_REF) {
            Some(path) => add_import(m, scope, path),
            None => m,
        },
        SyntaxKind::NAME_REF => if parent != SyntaxKind::PATH && parent != SyntaxKind::SCOPE_DEF {
            add_ref(m, scope, n)
        } else {
            m
        },
        _ => walk_nodes(m, child_nodes(n), scope, n.kind),
    }
}

/// What a sequence of statements adds to the graph, one after the other.
pub open spec fn walk_nodes(m: GraphModel, ns: Seq<SyntaxNode>, scope: ScopeId, parent: SyntaxKind) -> GraphModel
    decreases nodes_size(ns), 1int,
{
    if ns.len() == 0 {
        m
    } else {
        walk_nodes(walk_node(m, ns[0], scope, parent), ns.drop_first(), scope, parent)
    }
}

/// The number of scopes, declarations, references and imports of a graph.
pub open spec fn model_total(m: GraphModel) -> nat {
    m.scopes.len() + m.declarations.len() + m.references.len() + m.imports.len()
}

/// A statement adds to the graph, and adds fewer than twice as many items
/// as it has nodes and tokens.
pub proof fn lemma_walk_node_total(m: GraphModel, n: SyntaxNode, scope: ScopeId, parent: SyntaxKind)
    ensures
        model_total(m) <= model_total(walk_node(m, n, scope, parent)) <= model_total(m) + 2
            * node_size(n) - 1,
    decreases node_size(n), 0int,
{
    lemma_child_nodes_size(n);
    lemma_first_child_size(n, SyntaxKind::BLOCK_EXPR, SyntaxKind::BLOCK_EXPR);
    lemma_first_child_size(n, SyntaxKind::NAME_REF, SyntaxKind::NAME_REF);
    lemma_without_size(
        child_nodes(n),
        crate::ast::first_index_of(child_nodes(n), SyntaxKind::NAME_REF, SyntaxKind::NAME_REF),
    );
    match n.kind {
        SyntaxKind::SCOPE_DEF => {
            let named = next_scope_id(m);
            let m1 = add_scope(m, None);
            let m2 = match first_child_of(n, SyntaxKind::NAME_REF, SyntaxKind::NAME_REF) {
                Some(name) => add_decl(m1, scope, name, Some(named)),
                None => m1,
            };
            match first_child_of(n, SyntaxKind::BLOCK_EXPR, SyntaxKind::BLOCK_EXPR) {
                Some(block) => {
                    lemma_child_nodes_size(block);
                    lemma_walk_nodes_total(m2, child_nodes(block), named, SyntaxKind::BLOCK_EXPR);
                },
                None => {},
            }
        },
        SyntaxKind::BLOCK_EXPR => {
            let anon = next_scope_id(m);
            lemma_walk_nodes_total(add_scope(m, Some(scope)), child_nodes(n), anon, SyntaxKind::BLOCK_EXPR);
        },
        SyntaxKind::LET_STMT => {
            let m1 = match first_child_of(n, SyntaxKind::NAME_REF, SyntaxKind::NAME_REF) {
                Some(name) => add_decl(m, scope, name, None),
                None => m,
            };
            lemma_walk_nodes_total(m1, initializer_nodes(n), scope, SyntaxKind::LET_STMT);
        },
        SyntaxKind::IMPORT_STMT => {},
        SyntaxKind::NAME_REF => {},
        _ => {
            lemma_walk_nodes_total(m, child_nodes(n), scope, n.kind);
        },
    }
}

/// Statements add to the graph, and add at most twice as many items as they
/// have nodes and tokens.
pub proof fn lemma_walk_nodes_total(m: GraphModel, ns: Seq<SyntaxNode>, scope: ScopeId, parent: SyntaxKind)
    ensures
        model_total(m) <= model_total(walk_nodes(m, ns, scope, parent)) <= model_total(m) + 2
            * nodes_size(ns),
    decreases nodes_size(ns), 1int,
{
    if ns.len() > 0 {
        lemma_walk_node_total(m, ns[0], scope, parent);
        lemma_walk_nodes_total(walk_node(m, ns[0], scope, parent), ns.drop_first(), scope, parent);
    }
}

/// The scope graph of a file: a root scope, then what its statements add in it.
pub open spec fn build_model(file: SourceFile) -> GraphModel {
    walk_nodes(add_scope(empty_model(), None), child_nodes(file.0), ScopeId(0), file.0.kind)
}

/// The outcome of a resolution: the declaration found, if any; `Err(())`
/// where the resolution enters an import that it is already resolving: the
/// recursion through the imports would never end there.
pub type Resolved = Result<Option<DeclId>, ()>;

/// The texts of the identifiers of a path, if the node is a path or a name.
pub open spec fn path_names(n: SyntaxNode) -> Option<Seq<Seq<char>>> {
    if n.kind == SyntaxKind::PATH || n.kind == SyntaxKind::NAME_REF {
        Some(token_texts(ident_tokens(n)))
    } else {
        None
    }
}

/// The texts of tokens.
pub open spec fn token_texts(ts: Seq<SyntaxToken>) -> Seq<Seq<char>> {
    ts.map_values(|t: SyntaxToken| t.text@)
}

/// What remains of the budget of imports that a resolution may enter.
pub open spec fn budget(m: GraphModel, active: Seq<u32>) -> int {
    m.imports.len() - active.len()
}

/// The declaration that `name` has in `scope` itself: its local declaration,
/// or else what its import resolves to, from the root scope. `active` holds
/// the imports being resolved.
pub open spec fn resolve_in_scope(m: GraphModel, scope: u32, name: Seq<char>, active: Seq<u32>) -> Resolved
    decreases budget(m, active), 0int, 0int,
{
    let b = binding_of(m, scope, name);
    match b.0 {
        Some(d) => Ok(Some(d)),
        None => match b.1 {
            Some(i) => if active.contains(i.0) || active.len() >= m.imports.len() || i.0
                >= m.imports.len() {
                Err(())
            } else {
                match path_names(m.imports[i.0 as int].path_node) {
                    Some(names) => resolve_names(m, 0, names, active.push(i.0)),
                    None => Ok(None),
                }
            },
            None => Ok(None),
        },
    }
}

/// The declaration that `name` has as seen from `scope`: in `scope` itself,
/// or else in the scopes around it, innermost first.
pub open spec fn lookup_symbol(m: GraphModel, scope: u32, name: Seq<char>, active: Seq<u32>) -> Resolved
    decreases budget(m, active), 1int, scope,
{
    if scope >= m.scopes.len() {
        Err(())
    } else {
        match resolve_in_scope(m, scope, name, active) {
            Err(()) => Err(()),
            Ok(Some(d)) => Ok(Some(d)),
            Ok(None) => match m.scopes[scope as int].parent {
                None => Ok(None),
                Some(p) => if p.0 < scope {
                    lookup_symbol(m, p.0, name, active)
                } else {
                    Err(())
                },
            },
        }
    }
}

/// The declaration that the path `names` leads to from `start`: its first
/// name as seen from `start`, then each further name in the scope that the
/// declaration before it names. A name that was never bound anywhere leads
/// nowhere, before any scope is looked at.
pub open spec fn resolve_names(m: GraphModel, start: u32, names: Seq<Seq<char>>, active: Seq<u32>) -> Resolved
    decreases budget(m, active), 2int, 0int,
{
    if names.len() == 0 || !m.names.contains(names[0]) {
        Ok(None)
    } else {
        match lookup_symbol(m, start, names[0], active) {
            Err(()) => Err(()),
            Ok(None) => Ok(None),
            Ok(Some(d)) => resolve_rest(m, d, names.drop_first(), active),
        }
    }
}

/// The declaration that the rest `names` of a path leads to from the
/// declaration `d` (see `resolve_names`).
pub open spec fn resolve_rest(m: GraphModel, d: DeclId, names: Seq<Seq<char>>, active: Seq<u32>) -> Resolved
    decreases budget(m, active), 1int, names.len(),
{
    if names.len() == 0 {
        Ok(Some(d))
    } else if !m.names.contains(names[0]) {
        Ok(None)
    } else if d.0 >= m.declarations.len() {
        Err(())
    } else {
        match m.declarations[d.0 as int].child_scope {
            None => Ok(None),
            Some(c) => match resolve_in_scope(m, c.0, names[0], active) {
                Err(()) => Err(()),
                Ok(None) => Ok(None),
                Ok(Some(d2)) => resolve_rest(m, d2, names.drop_first(), active),
            },
        }
    }
}

/// What the path `path` resolves to from `start`.
pub open spec fn resolve_path_model(m: GraphModel, start: u32, path: SyntaxNode) -> Resolved {
    resolve_names(m, start, token_texts(ident_tokens(path)), seq![])
}

/// What the reference `r` resolves to.
pub open spec fn resolve_ref_model(m: GraphModel, r: int) -> Resolved {
    let reference = m.references[r];
    match path_names(reference.node) {
        Some(names) => resolve_names(m, reference.scope.0, names, seq![]),
        None => Ok(None),
    }
}

/// Whether `d` is a declaration of the graph with the name `name`.
pub open spec fn declares(m: GraphModel, d: DeclId, name: Seq<char>) -> bool {
    d.0 < m.declarations.len() && first_ident_text(m.declarations[d.0 as int].node) == Some(name)
}

proof fn lemma_in_scope_named(m: GraphModel, scope: u32, name: Seq<char>, active: Seq<u32>)
    requires
        model_ok(m),
    ensures
        resolve_in_scope(m, scope, name, active) matches Ok(Some(d)) ==> declares(m, d, name),
    decreases budget(m, active), 0int, 0int,
{
    if m.bindings.contains_key((scope, name)) {
        assert(binding_ok(m, (scope, name)));
    }
    let b = binding_of(m, scope, name);
    match b.0 {
        Some(d) => {},
        None => match b.1 {
            Some(i) => {
                if !(active.contains(i.0) || active.len() >= m.imports.len() || i.0 >= m.imports.len()) {
                    let n = m.imports[i.0 as int].path_node;
                    match path_names(n) {
                        Some(names) => {
                            lemma_names_named(m, 0, names, active.push(i.0));
                            assert(names.len() == ident_tokens(n).len());
                            if names.len() > 0 {
                                assert(names.last() == ident_tokens(n).last().text@);
                            }
                        },
                        None => {},
                    }
                }
            },
            None => {},
        },
    }
}

proof fn lemma_lookup_named(m: GraphModel, scope: u32, name: Seq<char>, active: Seq<u32>)
    requires
        model_ok(m),
    ensures
        lookup_symbol(m, scope, name, active) matches Ok(Some(d)) ==> declares(m, d, name),
    decreases budget(m, active), 1int, scope,
{
    if scope < m.scopes.len() {
        lemma_in_scope_named(m, scope, name, active);
        match resolve_in_scope(m, scope, name, active) {
            Ok(None) => match m.scopes[scope as int].parent {
                Some(p) => {
                    if p.0 < scope {
                        lemma_lookup_named(m, p.0, name, active);
                    }
                },
                None => {},
            },
            _ => {},
        }
    }
}

proof fn lemma_names_named(m: GraphModel, start: u32, names: Seq<Seq<char>>, active: Seq<u32>)
    requires
        model_ok(m),
    ensures
        resolve_names(m, start, names, active) matches Ok(Some(d)) ==> names.len() > 0 && declares(
            m,
            d,
            names.last(),
        ),
    decreases budget(m, active), 2int, 0int,
{
    if names.len() > 0 {
        lemma_lookup_named(m, start, names[0], active);
        match lookup_symbol(m, start, names[0], active) {
            Ok(Some(d)) => {
                lemma_rest_named(m, d, names.drop_first(), active, names[0]);
                if names.len() > 1 {
                    assert(names.drop_first().last() == names.last());
                }
            },
            _ => {},
        }
    }
}

proof fn lemma_rest_named(m: GraphModel, d: DeclId, names: Seq<Seq<char>>, active: Seq<u32>, prev: Seq<char>)
    requires
        model_ok(m),
        declares(m, d, prev),
    ensures
        resolve_rest(m, d, names, active) matches Ok(Some(d2)) ==> declares(
            m,
            d2,
            if names.len() == 0 {
                prev
            } else {
                names.last()
            },
        ),
    decreases budget(m, active), 1int, names.len(),
{
    if names.len() > 0 {
        match m.declarations[d.0 as int].child_scope {
            Some(c) => {
                lemma_in_scope_named(m, c.0, names[0], active);
                match resolve_in_scope(m, c.0, names[0], active) {
                    Ok(Some(d2)) => {
                        lemma_rest_named(m, d2, names.drop_first(), active, names[0]);
                        if names.len() > 1 {
                            assert(names.drop_first().last() == names.last());
                        }
                    },
                    _ => {},
                }
            },
            None => {},
        }
    }
}

/// What a name is bound to in a scope.
#[derive(Clone, Copy)]
struct Binding {
    decl: Option<DeclId>,
    import: Option<ImportId>,
}

/// The key of the binding of the name with symbol index `k` in scope `s`.
pub open spec fn binding_key(s: u32, k: int) -> u64 {
    (s as int * 4294967296 + k) as u64
}

proof fn lemma_binding_key_injective(s1: u32, k1: int, s2: u32, k2: int)
    requires
        0 <= k1 < 4294967296,
        0 <= k2 < 4294967296,
    ensures
        binding_key(s1, k1) == binding_key(s2, k2) <==> (s1 == s2 && k1 == k2),
{
    let a = s1 as int * 4294967296 + k1;
    let b = s2 as int * 4294967296 + k2;
    assert(0 <= a < 18446744073709551616) by (nonlinear_arith)
        requires
            a == s1 as int * 4294967296 + k1,
            0 <= k1 < 4294967296,
            0 <= s1 < 4294967296,
    ;
    assert(0 <= b < 18446744073709551616) by (nonlinear_arith)
        requires
            b == s2 as int * 4294967296 + k2,
            0 <= k2 < 4294967296,
            0 <= s2 < 4294967296,
    ;
    if s1 < s2 {
        assert((s1 as int + 1) * 4294967296 <= s2 as int * 4294967296) by (nonlinear_arith)
            requires
                s1 < s2,
        ;
    } else if s2 < s1 {
        assert((s2 as int + 1) * 4294967296 <= s1 as int * 4294967296) by (nonlinear_arith)
            requires
                s2 < s1,
        ;
    }
}

/// The index of `t` among the interned strings.
pub open spec fn name_index(names: Seq<Seq<char>>, t: Seq<char>) -> int {
    choose|i: int| 0 <= i < names.len() && names[i] == t
}

proof fn lemma_name_index(names: Seq<Seq<char>>, i: int)
    requires
        names.no_duplicates(),
        0 <= i < names.len(),
    ensures
        name_index(names, names[i]) == i,
{
    let j = name_index(names, names[i]);
    assert(0 <= j < names.len() && names[j] == names[i]);
}

/// A binding as plain values.
spec fn binding_pair(b: Binding) -> BindingModel {
    (b.decl, b.import)
}

/// A scope graph, built from a file by `build`.
pub struct ScopeGraph {
    scopes: Vec<Scope>,
    declarations: Vec<Declaration>,
    references: Vec<Reference>,
    imports: Vec<Import>,
    names: NameInterner,
    bindings: HashMap<u64, Binding>,
}

impl ScopeGraph {
    /// The graph as plain values.
    pub closed spec fn model(&self) -> GraphModel {
        let names = interned(self.names);
        GraphModel {
            scopes: self.scopes@,
            declarations: self.declarations@,
            references: self.references@,
            imports: self.imports@,
            bindings: Map::new(
                |key: (u32, Seq<char>)|
                    names.contains(key.1) && self.bindings@.contains_key(
                        binding_key(key.0, name_index(names, key.1)),
                    ),
                |key: (u32, Seq<char>)|
                    binding_pair(self.bindings@[binding_key(key.0, name_index(names, key.1))]),
            ),
            names: names.to_set(),
        }
    }

    /// The number of items in the graph.
    pub closed spec fn total(&self) -> nat {
        (self.scopes@.len() + self.declarations@.len() + self.references@.len()
            + self.imports@.len()) as nat
    }

    /// The graph's invariant: no string is interned twice, there are fewer
    /// interned strings than declarations and imports, no binding has a key of
    /// a symbol that is not interned, and the graph fits in `u32` ids.
    pub closed spec fn wf(&self) -> bool {
        let names = interned(self.names);
        &&& names.no_duplicates()
        &&& names.len() <= self.declarations@.len() + self.imports@.len()
        &&& forall|s: u32, i: int|
            names.len() <= i < 4294967296 ==> !#[trigger] self.bindings@.contains_key(
                binding_key(s, i),
            )
        &&& self.total() < u32::MAX
        &&& model_ok(self.model())
        &&& vstd::std_specs::hash::obeys_key_model::<u64>()
        &&& vstd::std_specs::hash::builds_valid_hashers::<std::hash::RandomState>()
    }

    /// Adds a scope with the given parent.
    fn add_scope(&mut self, parent: Option<ScopeId>) -> (id: ScopeId)
        requires
            old(self).wf(),
            old(self).total() + 1 < u32::MAX,
            parent matches Some(p) ==> p.0 < old(self).model().scopes.len(),
        ensures
            final(self).wf(),
            final(self).model() == add_scope(old(self).model(), parent),
            id == next_scope_id(old(self).model()),
            final(self).total() == old(self).total() + 1,
    {
        let id = ScopeId(self.scopes.len() as u32);
        self.scopes.push(Scope { parent });
        proof {
            lemma_add_scope_ok(old(self).model(), parent);
            assert(self.model().bindings =~= old(self).model().bindings);
            assert(self.model() =~= add_scope(old(self).model(), parent));
        }
        id
    }

    /// Adds a reference to `name_ref` in `scope`.
    fn add_ref(&mut self, scope: ScopeId, name_ref: NameRef) -> (id: RefId)
        requires
            old(self).wf(),
            old(self).total() + 1 < u32::MAX,
            scope.0 < old(self).model().scopes.len(),
            name_ref.0.kind == SyntaxKind::NAME_REF,
        ensures
            final(self).wf(),
            final(self).model() == add_ref(old(self).model(), scope, name_ref.0),
            id == RefId(old(self).model().references.len() as u32),
            final(self).total() == old(self).total() + 1,
    {
        let id = RefId(self.references.len() as u32);
        self.references.push(Reference { scope, node: name_ref.0 });
        proof {
            assert(self.model().bindings =~= old(self).model().bindings);
            assert(self.model() =~= add_ref(old(self).model(), scope, name_ref.0));
            lemma_add_ref_ok(old(self).model(), scope, name_ref.0);
        }
        id
    }

    /// Binds the name `text` in `scope` by `update`, which keeps what the old
    /// binding (or an empty one) holds but for the declaration (`is_decl`) or
    /// the import that it sets.
    fn bind(&mut self, scope: ScopeId, text: &Vec<char>, decl: Option<DeclId>, import: Option<ImportId>, is_decl: bool)
        requires
            old(self).wf(),
            interned(old(self).names).len() < old(self).declarations@.len() + old(self).imports@.len() + 1,
            old(self).total() < u32::MAX,
        ensures
            interned(final(self).names).len() <= interned(old(self).names).len() + 1,
            ({
                let names = interned(final(self).names);
                &&& names.no_duplicates()
                &&& forall|s: u32, i: int|
                    names.len() <= i < 4294967296 ==> !#[trigger] final(self).bindings@.contains_key(
                        binding_key(s, i),
                    )
            }),
            final(self).scopes@ == old(self).scopes@,
            final(self).declarations@ == old(self).declarations@,
            final(self).references@ == old(self).references@,
            final(self).imports@ == old(self).imports@,
            final(self).model().names == old(self).model().names.insert(text@),
            final(self).model().bindings == old(self).model().bindings.insert(
                (scope.0, text@),
                if is_decl {
                    (decl, binding_of(old(self).model(), scope.0, text@).1)
                } else {
                    (binding_of(old(self).model(), scope.0, text@).0, import)
                },
            ),
    {
        let ghost old_names = interned(self.names);
        let k = intern(&mut self.names, text);
        let ghost names = interned(self.names);
        proof {
            assert(names.to_set() =~= old_names.to_set().insert(text@)) by {
                assert forall|x: Seq<char>| names.contains(x) <==> (old_names.contains(x) || x == text@) by {
                    if !old_names.contains(text@) {
                        if names.contains(x) {
                            let j = choose|j: int| 0 <= j < names.len() && names[j] == x;
                            if j < old_names.len() {
                                assert(old_names[j] == x);
                            }
                        }
                        if old_names.contains(x) {
                            let j = choose|j: int| 0 <= j < old_names.len() && old_names[j] == x;
                            assert(names[j] == x);
                        }
                        assert(names[old_names.len() as int] == text@);
                    }
                }
            }
            if !old_names.contains(text@) {
                assert(names.no_duplicates()) by {
                    assert forall|i: int, j: int| 0 <= i < j < names.len() implies names[i] != names[j] by {
                        if j == old_names.len() {
                            assert(names[i] == old_names[i]);
                            assert(old_names.contains(old_names[i]));
                        } else {
                            assert(names[i] == old_names[i]);
                            assert(names[j] == old_names[j]);
                        }
                    }
                }
            }
            lemma_name_index(names, k as int);
        }
        let key: u64 = (scope.0 as u64) * 4294967296 + (k as u64);
        proof {
            assert(key == binding_key(scope.0, k as int));
        }
        let old_b = match self.bindings.get(&key) {
            Some(b) => *b,
            None => Binding { decl: None, import: None },
        };
        let new_b = if is_decl {
            Binding { decl, import: old_b.import }
        } else {
            Binding { decl: old_b.decl, import }
        };
        self.bindings.insert(key, new_b);
        proof {
            let om = old(self).model();
            let nm = self.model();
            assert(binding_of(om, scope.0, text@) == binding_pair(old_b)) by {
                if old_names.contains(text@) {
                    let i = name_index(old_names, text@);
                    assert(0 <= i < old_names.len() && old_names[i] == text@);
                    lemma_name_index(old_names, i);
                    assert(i == k);
                } else {
                    assert(k == old_names.len());
                    assert(!old(self).bindings@.contains_key(key));
                    assert(!om.bindings.contains_key((scope.0, text@)));
                }
            }
            let target = om.bindings.insert((scope.0, text@), binding_pair(new_b));
            assert forall|key2: (u32, Seq<char>)| #[trigger] nm.bindings.dom().contains(key2) == target.dom().contains(key2)
                && (nm.bindings.dom().contains(key2) ==> nm.bindings[key2] == target[key2]) by {
                if key2 == (scope.0, text@) {
                } else {
                    let t2 = key2.1;
                    if names.contains(t2) {
                        let i2 = name_index(names, t2);
                        assert(0 <= i2 < names.len() && names[i2] == t2);
                        lemma_binding_key_injective(key2.0, i2, scope.0, k as int);
                        if old_names.contains(t2) {
                            let j2 = name_index(old_names, t2);
                            assert(0 <= j2 < old_names.len() && old_names[j2] == t2);
                            assert(names[j2] == t2);
                            lemma_name_index(names, j2);
                            lemma_name_index(old_names, j2);
                        } else {
                            assert(i2 >= old_names.len()) by {
                                if i2 < old_names.len() {
                                    assert(names[i2] == old_names[i2]);
                                    assert(old_names.contains(t2));
                                }
                            }
                            assert(!old(self).bindings@.contains_key(binding_key(key2.0, i2)));
                        }
                    } else {
                        assert(!old_names.contains(t2)) by {
                            if old_names.contains(t2) {
                                let j = choose|j: int| 0 <= j < old_names.len() && old_names[j] == t2;
                                assert(names[j] == t2);
                            }
                        }
                    }
                }
            }
            assert(nm.bindings =~= om.bindings.insert((scope.0, text@), binding_pair(new_b)));
            assert forall|s: u32, i: int| names.len() <= i < 4294967296 implies !#[trigger] self.bindings@.contains_key(
                binding_key(s, i),
            ) by {
                lemma_binding_key_injective(s, i, scope.0, k as int);
            }
        }
    }
}

impl ScopeGraph {
    /// Adds a declaration of `name_ref` in `scope`, naming `child_scope`.
    fn add_decl(&mut self, scope: ScopeId, name_ref: NameRef, child_scope: Option<ScopeId>) -> (id: DeclId)
        requires
            old(self).wf(),
            old(self).total() + 1 < u32::MAX,
            scope.0 < old(self).model().scopes.len(),
            name_ref.0.kind == SyntaxKind::NAME_REF,
            child_scope matches Some(c) ==> 0 < c.0 < old(self).model().scopes.len() && old(
                self,
            ).model().scopes[c.0 as int].parent is None && forall|d: int|
                0 <= d < old(self).model().declarations.len() ==> (#[trigger] old(
                    self,
                ).model().declarations[d]).child_scope != Some(c),
        ensures
            final(self).wf(),
            final(self).model() == add_decl(old(self).model(), scope, name_ref.0, child_scope),
            id == DeclId(old(self).model().declarations.len() as u32),
            final(self).total() == old(self).total() + 1,
    {
        let id = DeclId(self.declarations.len() as u32);
        let ghost m0 = self.model();
        match name_ref.ident_token() {
            Some(token) => {
                self.bind(scope, &token.text, Some(id), None, true);
            },
            None => {},
        }
        let ghost m1 = self.model();
        self.declarations.push(Declaration { scope, node: name_ref.0, child_scope });
        proof {
            assert(self.model().bindings =~= m1.bindings);
            assert(self.model() =~= add_decl(m0, scope, name_ref.0, child_scope));
            lemma_add_decl_ok(m0, scope, name_ref.0, child_scope);
        }
        id
    }

    /// Adds an import of `path` in `scope`.
    fn add_import(&mut self, scope: ScopeId, path: PathNode) -> (id: ImportId)
        requires
            old(self).wf(),
            old(self).total() + 1 < u32::MAX,
            scope.0 < old(self).model().scopes.len(),
        ensures
            final(self).wf(),
            final(self).model() == add_import(old(self).model(), scope, path.0),
            id == ImportId(old(self).model().imports.len() as u32),
            final(self).total() == old(self).total() + 1,
    {
        let id = ImportId(self.imports.len() as u32);
        let ghost m0 = self.model();
        match path.last_segment() {
            Some(token) => {
                self.bind(scope, &token.text, None, Some(id), false);
            },
            None => {},
        }
        let ghost m1 = self.model();
        self.imports.push(Import { path_node: path.0 });
        proof {
            assert(self.model().bindings =~= m1.bindings);
            assert(self.model() =~= add_import(m0, scope, path.0));
            lemma_add_import_ok(m0, scope, path.0);
        }
        id
    }

    /// Adds what a statement declares, references and imports in
    /// `current_scope`; `parent_kind` is the kind of the node whose child the
    /// statement is.
    fn walk_stmt(&mut self, stmt: &Stmt, current_scope: ScopeId, parent_kind: SyntaxKind)
        requires
            old(self).wf(),
            *stmt == stmt_of(stmt_node(*stmt)),
            model_total(walk_node(old(self).model(), stmt_node(*stmt), current_scope, parent_kind))
                < u32::MAX,
            current_scope.0 < old(self).model().scopes.len(),
        ensures
            final(self).wf(),
            final(self).model().scopes.len() >= old(self).model().scopes.len(),
            final(self).model() == walk_node(old(self).model(), stmt_node(*stmt), current_scope, parent_kind),
        decreases node_size(stmt_node(*stmt)), 0int,
    {
        let ghost n = stmt_node(*stmt);
        let ghost m0 = self.model();
        let ghost fin = walk_node(m0, n, current_scope, parent_kind);
        proof {
            lemma_child_nodes_size(n);
            assert(self.total() == model_total(m0));
        }
        match stmt {
            Stmt::ScopeDef(def) => {
                proof {
                    let named = next_scope_id(m0);
                    let m1 = add_scope(m0, None);
                    let m2 = match first_child_of(n, SyntaxKind::NAME_REF, SyntaxKind::NAME_REF) {
                        Some(name) => add_decl(m1, current_scope, name, Some(named)),
                        None => m1,
                    };
                    match first_child_of(n, SyntaxKind::BLOCK_EXPR, SyntaxKind::BLOCK_EXPR) {
                        Some(b) => {
                            lemma_walk_nodes_total(m2, child_nodes(b), named, SyntaxKind::BLOCK_EXPR);
                        },
                        None => {},
                    }
                    assert(model_total(m2) <= model_total(fin));
                }
                let named_scope = self.add_scope(None);
                match def.name_node() {
                    Some(name) => {
                        proof {
                            lemma_first_index_of(child_nodes(n), SyntaxKind::NAME_REF, SyntaxKind::NAME_REF);
                            assert forall|d: int| 0 <= d < self.model().declarations.len() implies (
                            #[trigger] self.model().declarations[d]).child_scope != Some(named_scope) by {
                                assert(self.model().declarations[d] == m0.declarations[d]);
                            }
                        }
                        self.add_decl(current_scope, name, Some(named_scope));
                    },
                    None => {},
                }
                match def.block() {
                    Some(block) => {
                        proof {
                            lemma_first_child_size(n, SyntaxKind::BLOCK_EXPR, SyntaxKind::BLOCK_EXPR);
                            lemma_child_nodes_size(block.0);
                        }
                        let stmts = block.statements();
                        self.walk_all(&stmts, named_scope, SyntaxKind::BLOCK_EXPR, Ghost(child_nodes(block.0)));
                    },
                    None => {},
                }
            },
            Stmt::Block(block) => {
                proof {
                    lemma_walk_nodes_total(
                        add_scope(m0, Some(current_scope)),
                        child_nodes(n),
                        next_scope_id(m0),
                        SyntaxKind::BLOCK_EXPR,
                    );
                }
                let anon_scope = self.add_scope(Some(current_scope));
                let stmts = block.statements();
                self.walk_all(&stmts, anon_scope, SyntaxKind::BLOCK_EXPR, Ghost(child_nodes(block.0)));
            },
            Stmt::Let(let_stmt) => {
                proof {
                    let m1 = match first_child_of(n, SyntaxKind::NAME_REF, SyntaxKind::NAME_REF) {
                        Some(name) => add_decl(m0, current_scope, name, None),
                        None => m0,
                    };
                    lemma_walk_nodes_total(m1, initializer_nodes(n), current_scope, SyntaxKind::LET_STMT);
                }
                match let_stmt.name_node() {
                    Some(name) => {
                        proof {
                            lemma_first_index_of(child_nodes(n), SyntaxKind::NAME_REF, SyntaxKind::NAME_REF);
                        }
                        self.add_decl(current_scope, name, None);
                    },
                    None => {},
                }
                proof {
                    lemma_without_size(
                        child_nodes(n),
                        crate::ast::first_index_of(child_nodes(n), SyntaxKind::NAME_REF, SyntaxKind::NAME_REF),
                    );
                }
                let stmts = let_stmt.initializer();
                self.walk_all(&stmts, current_scope, SyntaxKind::LET_STMT, Ghost(initializer_nodes(let_stmt.0)));
            },
            Stmt::Import(import_stmt) => {
                match import_stmt.path() {
                    Some(path) => {
                        self.add_import(current_scope, path);
                    },
                    None => {},
                }
            },
            Stmt::NameRef(name_ref) => {
                if parent_kind != SyntaxKind::PATH && parent_kind != SyntaxKind::SCOPE_DEF {
                    self.add_ref(current_scope, NameRef(name_ref.0.clone()));
                }
            },
            Stmt::Other(node) => {
                let stmts = statements_of(node);
                self.walk_all(&stmts, current_scope, node.kind, Ghost(child_nodes(*node)));
            },
        }
    }

    /// Adds what the statements `stmts`, those of the nodes `ns`, add in turn.
    fn walk_all(&mut self, stmts: &Vec<Stmt>, scope: ScopeId, parent_kind: SyntaxKind, Ghost(ns): Ghost<Seq<SyntaxNode>>)
        requires
            old(self).wf(),
            stmts@ == ns.map_values(|c: SyntaxNode| stmt_of(c)),
            model_total(walk_nodes(old(self).model(), ns, scope, parent_kind)) < u32::MAX,
            scope.0 < old(self).model().scopes.len(),
        ensures
            final(self).wf(),
            final(self).model().scopes.len() >= old(self).model().scopes.len(),
            final(self).model() == walk_nodes(old(self).model(), ns, scope, parent_kind),
        decreases nodes_size(ns), 1int,
    {
        let mut i: usize = 0;
        proof {
            assert(ns.skip(0) =~= ns);
        }
        while i < stmts.len()
            invariant
                self.wf(),
                i <= ns.len(),
                scope.0 < self.model().scopes.len(),
                self.model().scopes.len() >= old(self).model().scopes.len(),
                stmts@ == ns.map_values(|c: SyntaxNode| stmt_of(c)),
                walk_nodes(old(self).model(), ns, scope, parent_kind) == walk_nodes(
                    self.model(),
                    ns.skip(i as int),
                    scope,
                    parent_kind,
                ),
                model_total(walk_nodes(old(self).model(), ns, scope, parent_kind)) < u32::MAX,
            decreases ns.len() - i,
        {
            let ghost rest = ns.skip(i as int);
            proof {
                assert(rest[0] == ns[i as int]);
                assert(rest.drop_first() =~= ns.skip(i + 1));
                assert(stmts@[i as int] == stmt_of(ns[i as int]));
                lemma_nodes_size_index(ns, i as int);
                lemma_walk_nodes_total(
                    walk_node(self.model(), ns[i as int], scope, parent_kind),
                    ns.skip(i + 1),
                    scope,
                    parent_kind,
                );
            }
            self.walk_stmt(&stmts[i], scope, parent_kind);
            i = i + 1;
        }
        proof {
            assert(ns.skip(i as int) =~= Seq::<SyntaxNode>::empty());
        }
    }

    /// The scope graph of `file`: a root scope, then what each statement of
    /// the file declares, references and imports, in order. The ids of the
    /// graph are `u32`s: the graph holds fewer than `u32::MAX` scopes,
    /// declarations, references and imports together.
    pub fn build(file: &SourceFile) -> (graph: ScopeGraph)
        requires
            model_total(build_model(*file)) < u32::MAX,
        ensures
            graph.wf(),
            graph.model() == build_model(*file),
            graph.model().scopes.len() >= 1,
    {
        let mut graph = ScopeGraph {
            scopes: Vec::with_capacity(16),
            declarations: Vec::with_capacity(32),
            references: Vec::with_capacity(32),
            imports: Vec::with_capacity(16),
            names: interner_new(),
            bindings: HashMap::with_capacity(64),
        };
        proof {
            broadcast use vstd::std_specs::hash::group_hash_axioms;
            assert(graph.model() =~= empty_model()) by {
                assert(graph.model().bindings =~= Map::<(u32, Seq<char>), BindingModel>::empty());
                assert(graph.model().names =~= Set::<Seq<char>>::empty());
            }
            assert(model_ok(graph.model()));
        }
        let root_scope = graph.add_scope(None);
        let stmts = file.statements();
        proof {
            lemma_child_nodes_size(file.0);
        }
        graph.walk_all(&stmts, root_scope, file.0.kind, Ghost(child_nodes(file.0)));
        graph
    }
}

impl ScopeGraph {
    /// The declaration with the id `id`, if there is one.
    pub fn declaration(&self, id: DeclId) -> (d: Option<&Declaration>)
        ensures
            d is Some <==> id.0 < self.model().declarations.len(),
            d matches Some(x) ==> *x == self.model().declarations[id.0 as int],
    {
        if (id.0 as usize) < self.declarations.len() {
            Some(&self.declarations[id.0 as usize])
        } else {
            None
        }
    }

    /// All references, in the order in which they were found.
    pub fn references(&self) -> (r: &[Reference])
        ensures
            r@ == self.model().references,
    {
        self.references.as_slice()
    }

    /// The number of scopes.
    pub fn scope_count(&self) -> (n: usize)
        ensures
            n == self.model().scopes.len(),
    {
        self.scopes.len()
    }

    /// The number of declarations.
    pub fn declaration_count(&self) -> (n: usize)
        ensures
            n == self.model().declarations.len(),
    {
        self.declarations.len()
    }

    /// The number of references.
    pub fn reference_count(&self) -> (n: usize)
        ensures
            n == self.model().references.len(),
    {
        self.references.len()
    }

    /// The number of imports.
    pub fn import_count(&self) -> (n: usize)
        ensures
            n == self.model().imports.len(),
    {
        self.imports.len()
    }
}

impl ScopeGraph {
    /// The scope graph of `file`, or `None` where the file holds so many nodes
    /// and tokens that the graph's `u32` ids could run out.
    pub fn try_build(file: &SourceFile) -> (g: Option<ScopeGraph>)
        ensures
            g is Some <==> 2 * node_size(file.0) + 2 < u32::MAX,
            g matches Some(graph) ==> graph.wf() && graph.model() == build_model(*file),
    {
        let n = node_size_capped(&file.0, 2147483647);
        if n < 2147483647 {
            proof {
                lemma_child_nodes_size(file.0);
                lemma_walk_nodes_total(
                    add_scope(empty_model(), None),
                    child_nodes(file.0),
                    ScopeId(0),
                    file.0.kind,
                );
            }
            Some(ScopeGraph::build(file))
        } else {
            None
        }
    }
}

impl Default for ScopeGraph {
    /// The graph with nothing in it, not even a root scope.
    fn default() -> (graph: ScopeGraph)
        ensures
            graph.wf(),
            graph.model() == empty_model(),
    {
        let graph = ScopeGraph {
            scopes: Vec::new(),
            declarations: Vec::new(),
            references: Vec::new(),
            imports: Vec::new(),
            names: interner_new(),
            bindings: HashMap::new(),
        };
        proof {
            broadcast use vstd::std_specs::hash::group_hash_axioms;
            assert(graph.model().bindings =~= Map::<(u32, Seq<char>), BindingModel>::empty());
            assert(graph.model().names =~= Set::<Seq<char>>::empty());
            assert(graph.model() =~= empty_model());
        }
        graph
    }
}

/// A resolution that enters an import that it is already resolving: the
/// recursion through the imports never ends.
#[derive(Debug, Clone, Copy, PartialEq, Eq, Structural)]
pub enum ImportCycle {
    Found,
}

/// Whether `v` holds `x`.
fn contains_u32(v: &Vec<u32>, x: u32) -> (b: bool)
    ensures
        b == v@.contains(x),
{
    let mut i: usize = 0;
    while i < v.len()
        invariant
            i <= v@.len(),
            forall|j: int| 0 <= j < i ==> v@[j] != x,
        decreases v@.len() - i,
    {
        if v[i] == x {
            return true;
        }
        i = i + 1;
    }
    false
}

impl ScopeGraph {
    /// The binding of the name `text` in `scope`.
    fn binding(&self, scope: ScopeId, text: &Vec<char>) -> (b: (Option<DeclId>, Option<ImportId>))
        requires
            self.wf(),
        ensures
            b == binding_of(self.model(), scope.0, text@),
    {
        match lookup_interned(&self.names, text) {
            None => {
                proof {
                    assert(!self.model().bindings.contains_key((scope.0, text@)));
                }
                (None, None)
            },
            Some(k) => {
                proof {
                    lemma_name_index(interned(self.names), k as int);
                }
                let key: u64 = (scope.0 as u64) * 4294967296 + (k as u64);
                proof {
                    assert(key == binding_key(scope.0, k as int));
                }
                match self.bindings.get(&key) {
                    Some(b) => (b.decl, b.import),
                    None => (None, None),
                }
            },
        }
    }

    /// Whether the name `text` was ever bound in the graph.
    fn is_known_name(&self, text: &Vec<char>) -> (b: bool)
        ensures
            b == self.model().names.contains(text@),
    {
        lookup_interned(&self.names, text).is_some()
    }

    /// The declaration that `name` has in `scope` itself (see `resolve_in_scope`).
    fn resolve_symbol_in_scope(&self, scope: ScopeId, name: &Vec<char>, active: &mut Vec<u32>) -> (r: Resolved)
        requires
            self.wf(),
        ensures
            r == resolve_in_scope(self.model(), scope.0, name@, old(active)@),
            final(active)@ == old(active)@,
        decreases budget(self.model(), old(active)@), 0int, 0int,
    {
        let b = self.binding(scope, name);
        match b.0 {
            Some(d) => Ok(Some(d)),
            None => match b.1 {
                None => Ok(None),
                Some(i) => {
                    if contains_u32(active, i.0) || active.len() >= self.imports.len() {
                        return Err(());
                    }
                    proof {
                        assert(self.model().bindings.dom().contains((scope.0, name@)));
                    }
                    let import = &self.imports[i.0 as usize];
                    match PathNode::cast(import.path_node.clone()) {
                        None => Ok(None),
                        Some(path) => {
                            let segs = path.segments();
                            active.push(i.0);
                            let r = self.resolve_segments(ScopeId(0), &segs, active);
                            active.pop();
                            proof {
                                assert(active@ =~= old(active)@);
                            }
                            r
                        },
                    }
                },
            },
        }
    }

    /// The declaration that `name` has as seen from `start_scope` (see
    /// `lookup_symbol`).
    fn lookup_symbol_id(&self, start_scope: ScopeId, name: &Vec<char>, active: &mut Vec<u32>) -> (r: Resolved)
        requires
            self.wf(),
        ensures
            r == lookup_symbol(self.model(), start_scope.0, name@, old(active)@),
            final(active)@ == old(active)@,
        decreases budget(self.model(), old(active)@), 1int, start_scope.0,
    {
        let mut current = start_scope;
        loop
            invariant
                self.wf(),
                active@ == old(active)@,
                current.0 <= start_scope.0,
                lookup_symbol(self.model(), start_scope.0, name@, old(active)@) == lookup_symbol(
                    self.model(),
                    current.0,
                    name@,
                    old(active)@,
                ),
            decreases current.0,
        {
            if current.0 as usize >= self.scopes.len() {
                return Err(());
            }
            match self.resolve_symbol_in_scope(current, name, active) {
                Err(()) => {
                    return Err(());
                },
                Ok(Some(d)) => {
                    return Ok(Some(d));
                },
                Ok(None) => {
                    proof {
                        assert(self.model().scopes[current.0 as int] == self.scopes@[current.0 as int]);
                    }
                    match self.scopes[current.0 as usize].parent {
                        None => {
                            return Ok(None);
                        },
                        Some(p) => {
                            current = p;
                        },
                    }
                },
            }
        }
    }

    /// The declaration that the identifiers `segs` lead to from `start` (see
    /// `resolve_names`).
    fn resolve_segments(&self, start: ScopeId, segs: &Vec<SyntaxToken>, active: &mut Vec<u32>) -> (r: Resolved)
        requires
            self.wf(),
        ensures
            r == resolve_names(self.model(), start.0, token_texts(segs@), old(active)@),
            final(active)@ == old(active)@,
        decreases budget(self.model(), old(active)@), 2int, 0int,
    {
        let ghost names = token_texts(segs@);
        if segs.len() == 0 {
            return Ok(None);
        }
        if !self.is_known_name(&segs[0].text) {
            return Ok(None);
        }
        let mut current = match self.lookup_symbol_id(start, &segs[0].text, active) {
            Err(()) => {
                return Err(());
            },
            Ok(None) => {
                return Ok(None);
            },
            Ok(Some(d)) => d,
        };
        let mut j: usize = 1;
        proof {
            assert(names.drop_first() =~= names.skip(1));
        }
        while j < segs.len()
            invariant
                self.wf(),
                active@ == old(active)@,
                1 <= j <= segs@.len(),
                names == token_texts(segs@),
                resolve_names(self.model(), start.0, names, old(active)@) == resolve_rest(
                    self.model(),
                    current,
                    names.skip(j as int),
                    old(active)@,
                ),
            decreases segs@.len() - j,
        {
            proof {
                assert(names.skip(j as int)[0] == names[j as int]);
                assert(names.skip(j as int).drop_first() =~= names.skip(j + 1));
            }
            if !self.is_known_name(&segs[j].text) {
                return Ok(None);
            }
            if current.0 as usize >= self.declarations.len() {
                return Err(());
            }
            proof {
                assert(self.model().declarations[current.0 as int] == self.declarations@[current.0 as int]);
            }
            match self.declarations[current.0 as usize].child_scope {
                None => {
                    return Ok(None);
                },
                Some(child) => {
                    match self.resolve_symbol_in_scope(child, &segs[j].text, active) {
                        Err(()) => {
                            return Err(());
                        },
                        Ok(None) => {
                            return Ok(None);
                        },
                        Ok(Some(d)) => {
                            current = d;
                        },
                    }
                },
            }
            j = j + 1;
        }
        proof {
            assert(names.skip(j as int) =~= Seq::<Seq<char>>::empty());
        }
        Ok(Some(current))
    }

    /// The declaration that `path` leads to from `start_scope`: its first
    /// identifier as seen from `start_scope`, then each further identifier in
    /// the scope that the declaration before it names; `None` where a name is
    /// not found or a declaration names no scope. The resolution goes round
    /// forever where it enters an import that it is already resolving.
    pub fn resolve_path(&self, start_scope: ScopeId, path: &PathNode) -> (r: Option<DeclId>)
        requires
            self.wf(),
            resolve_path_model(self.model(), start_scope.0, path.0) is Ok,
        ensures
            Ok::<Option<DeclId>, ()>(r) == resolve_path_model(self.model(), start_scope.0, path.0),
    {
        let segs = path.segments();
        let mut active: Vec<u32> = Vec::new();
        match self.resolve_segments(start_scope, &segs, &mut active) {
            Ok(r) => r,
            Err(()) => None,
        }
    }

    /// The declaration that the reference `ref_id` resolves to, from the scope
    /// it is used in. The resolution goes round forever where it enters an
    /// import that it is already resolving.
    pub fn resolve(&self, ref_id: RefId) -> (r: Option<DeclId>)
        requires
            self.wf(),
            ref_id.0 < self.model().references.len(),
            resolve_ref_model(self.model(), ref_id.0 as int) is Ok,
        ensures
            Ok::<Option<DeclId>, ()>(r) == resolve_ref_model(self.model(), ref_id.0 as int),
    {
        match self.try_resolve(ref_id) {
            Ok(r) => r,
            Err(_) => None,
        }
    }

    /// The declaration that the reference `ref_id` resolves to, or
    /// `Err(ImportCycle::Found)` where the resolution would go round forever.
    pub fn try_resolve(&self, ref_id: RefId) -> (r: Result<Option<DeclId>, ImportCycle>)
        requires
            self.wf(),
            ref_id.0 < self.model().references.len(),
        ensures
            match resolve_ref_model(self.model(), ref_id.0 as int) {
                Ok(d) => r == Ok::<Option<DeclId>, ImportCycle>(d),
                Err(()) => r == Err::<Option<DeclId>, ImportCycle>(ImportCycle::Found),
            },
    {
        let reference = &self.references[ref_id.0 as usize];
        proof {
            assert(self.model().references[ref_id.0 as int] == *reference);
        }
        match PathNode::cast(reference.node.clone()) {
            None => Ok(None),
            Some(path) => {
                let segs = path.segments();
                let mut active: Vec<u32> = Vec::new();
                proof {
                    assert(active@ =~= Seq::<u32>::empty());
                }
                match self.resolve_segments(reference.scope, &segs, &mut active) {
                    Ok(r) => Ok(r),
                    Err(()) => Err(ImportCycle::Found),
                }
            },
        }
    }
}

/// The rest `xs` of a path, resolved from `d`, is its first `j` names
/// resolved from `d`, then the others from where those led.
proof fn lemma_rest_split(m: GraphModel, d: DeclId, xs: Seq<Seq<char>>, active: Seq<u32>, j: int)
    requires
        0 <= j <= xs.len(),
    ensures
        resolve_rest(m, d, xs, active) == match resolve_rest(m, d, xs.take(j), active) {
            Ok(Some(d2)) => resolve_rest(m, d2, xs.skip(j), active),
            other => other,
        },
    decreases j,
{
    if j == 0 {
        assert(xs.take(0) =~= Seq::<Seq<char>>::empty());
        assert(xs.skip(0) =~= xs);
    } else {
        let t = xs.take(j);
        assert(t[0] == xs[0]);
        assert(t.drop_first() =~= xs.drop_first().take(j - 1));
        assert(xs.drop_first().skip(j - 1) =~= xs.skip(j));
        if d.0 < m.declarations.len() {
            match m.declarations[d.0 as int].child_scope {
                Some(c) => match resolve_in_scope(m, c.0, xs[0], active) {
                    Ok(Some(d1)) => {
                        lemma_rest_split(m, d1, xs.drop_first(), active, j - 1);
                    },
                    _ => {},
                },
                None => {},
            }
        }
    }
}

/// A graph is sound (see `model_ok`): the first scope has no parent and
/// every other scope's parent, where it has one, comes before it;
/// declarations and references are `NAME_REF` nodes in scopes that exist; a
/// declaration names a scope that exists, is not the first and has no
/// parent, and no two declarations name the same scope; and a name is only
/// ever bound to a declaration of that name and to an import whose path ends
/// in that name. A built graph also has its root scope (see `build`).
pub proof fn law_graph_is_sound(g: &ScopeGraph)
    requires
        g.wf(),
    ensures
        model_ok(g.model()),
        g.model().scopes.len() > 0 ==> g.model().scopes[0].parent is None,
{
    if g.model().scopes.len() > 0 {
        assert(g.model().scopes[0].parent matches Some(p) ==> p.0 < 0);
    }
}

/// A scope that a `scope` definition opens has no parent: from it, a name
/// that it does not bind itself is not found, whatever the scopes around the
/// definition declare.
pub proof fn law_named_scope_is_closed(g: &ScopeGraph, d: DeclId, c: ScopeId, path: SyntaxNode)
    requires
        g.wf(),
        d.0 < g.model().declarations.len(),
        g.model().declarations[d.0 as int].child_scope == Some(c),
        ident_tokens(path).len() == 1,
        binding_of(g.model(), c.0, ident_tokens(path)[0].text@) == (None::<DeclId>, None::<ImportId>),
    ensures
        g.model().scopes[c.0 as int].parent is None,
        resolve_path_model(g.model(), c.0, path) == Ok::<Option<DeclId>, ()>(None),
{
    let m = g.model();
    assert(m.declarations[d.0 as int].child_scope == Some(c));
    let names = token_texts(ident_tokens(path));
    assert(names[0] == ident_tokens(path)[0].text@);
}

/// Resolving a path keeps names: what a path resolves to, from any scope, is
/// a declaration of the graph named by the path's last identifier.
pub proof fn law_path_resolution_keeps_name(g: &ScopeGraph, start: ScopeId, path: SyntaxNode)
    requires
        g.wf(),
    ensures
        resolve_path_model(g.model(), start.0, path) matches Ok(Some(d)) ==> ident_tokens(path).len()
            > 0 && declares(g.model(), d, ident_tokens(path).last().text@),
{
    let names = token_texts(ident_tokens(path));
    lemma_names_named(g.model(), start.0, names, seq![]);
    if names.len() > 0 {
        assert(names.last() == ident_tokens(path).last().text@);
    }
}

/// Resolution keeps names: what a reference resolves to is a declaration of
/// the graph named by the last identifier of the reference.
pub proof fn law_resolution_keeps_name(g: &ScopeGraph, r: RefId)
    requires
        g.wf(),
        r.0 < g.model().references.len(),
    ensures
        resolve_ref_model(g.model(), r.0 as int) matches Ok(Some(d)) ==> path_names(
            g.model().references[r.0 as int].node,
        ) matches Some(names) && names.len() > 0 && declares(g.model(), d, names.last()),
{
    let m = g.model();
    match path_names(m.references[r.0 as int].node) {
        Some(names) => {
            lemma_names_named(m, m.references[r.0 as int].scope.0, names, seq![]);
        },
        None => {},
    }
}

/// A declaration in the reference's own scope wins: a reference made of one
/// identifier, in a scope that declares that name, resolves to the last
/// declaration of the name there, whatever the scopes around it and the
/// imports of the scope hold.
pub proof fn law_local_declaration_wins(g: &ScopeGraph, r: RefId, d: DeclId)
    requires
        g.wf(),
        r.0 < g.model().references.len(),
        path_names(g.model().references[r.0 as int].node) matches Some(names) && names.len() == 1
            && binding_of(g.model(), g.model().references[r.0 as int].scope.0, names[0]).0 == Some(d),
    ensures
        resolve_ref_model(g.model(), r.0 as int) == Ok::<Option<DeclId>, ()>(Some(d)),
{
    let m = g.model();
    let rf = m.references[r.0 as int];
    let names = path_names(rf.node)->0;
    assert(rf.scope.0 < m.scopes.len());
    assert(names.drop_first() =~= Seq::<Seq<char>>::empty());
}

/// A name that a scope does not bind is looked up in its parent scope (a
/// block's parent is the scope it stands in; a named scope has none, see
/// `law_named_scope_is_closed`): from such a scope, a path whose first
/// identifier is that name, however many identifiers follow, resolves as it
/// does from the parent scope.
pub proof fn law_unbound_name_goes_outward(g: &ScopeGraph, s: ScopeId, p: ScopeId, path: SyntaxNode)
    requires
        g.wf(),
        s.0 < g.model().scopes.len(),
        g.model().scopes[s.0 as int].parent == Some(p),
        ident_tokens(path).len() >= 1,
        binding_of(g.model(), s.0, ident_tokens(path)[0].text@) == (None::<DeclId>, None::<ImportId>),
    ensures
        resolve_path_model(g.model(), s.0, path) == resolve_path_model(g.model(), p.0, path),
{
    let m = g.model();
    assert(m.scopes[s.0 as int].parent matches Some(q) && q.0 < s.0);
    let names = token_texts(ident_tokens(path));
    assert(names[0] == ident_tokens(path)[0].text@);
}

/// The later identifiers of a path are looked up in the scope that the
/// declaration before them names, and in no scope around it: where the
/// first `k` identifiers lead to a declaration that names no scope, or names
/// a scope that does not bind the next identifier, the path resolves to
/// nothing, whatever the scopes around that scope declare.
pub proof fn law_path_stays_in_named_scope(g: &ScopeGraph, start: ScopeId, names: Seq<Seq<char>>, k: int, d: DeclId)
    requires
        g.wf(),
        1 <= k < names.len(),
        resolve_names(g.model(), start.0, names.take(k), seq![]) == Ok::<Option<DeclId>, ()>(Some(d)),
        match g.model().declarations[d.0 as int].child_scope {
            None => true,
            Some(c) => binding_of(g.model(), c.0, names[k]) == (None::<DeclId>, None::<ImportId>),
        },
    ensures
        resolve_names(g.model(), start.0, names, seq![]) == Ok::<Option<DeclId>, ()>(None),
{
    let m = g.model();
    let a = Seq::<u32>::empty();
    let t = names.take(k);
    assert(t[0] == names[0]);
    lemma_names_named(m, start.0, t, a);
    match lookup_symbol(m, start.0, names[0], a) {
        Ok(Some(d0)) => {
            let xs = names.drop_first();
            assert(t.drop_first() =~= xs.take(k - 1));
            lemma_rest_split(m, d0, xs, a, k - 1);
            let ys = xs.skip(k - 1);
            assert(ys[0] == names[k]);
            assert(resolve_names(m, start.0, t, a) == resolve_rest(m, d0, t.drop_first(), a));
            assert(resolve_rest(m, d0, xs.take(k - 1), a) == Ok::<Option<DeclId>, ()>(Some(d)));
            assert(resolve_rest(m, d0, xs, a) == resolve_rest(m, d, ys, a));
            assert(d.0 < m.declarations.len());
            match m.declarations[d.0 as int].child_scope {
                None => {},
                Some(c) => {
                    assert(resolve_in_scope(m, c.0, ys[0], a) == Ok::<Option<DeclId>, ()>(None));
                },
            }
            assert(resolve_names(m, start.0, names, a) == resolve_rest(m, d0, xs, a));
        },
        _ => {},
    }
}

/// An imported name is resolved through its import: a reference made of one
/// identifier, in a scope that declares nothing of that name but imports it,
/// resolves to what the import's path leads to from the root scope (where
/// that resolution does not come back through this import), and fails where
/// that resolution goes round through the imports.
pub proof fn law_import_resolves_from_root(g: &ScopeGraph, r: RefId, i: ImportId)
    requires
        g.wf(),
        r.0 < g.model().references.len(),
        path_names(g.model().references[r.0 as int].node) matches Some(names) && names.len() == 1
            && binding_of(g.model(), g.model().references[r.0 as int].scope.0, names[0]) == (
        None::<DeclId>, Some(i)),
    ensures
        i.0 < g.model().imports.len(),
        path_names(g.model().imports[i.0 as int].path_node) matches Some(path) ==> (resolve_names(
            g.model(),
            0,
            path,
            seq![i.0],
        ) matches Ok(Some(d)) ==> resolve_ref_model(g.model(), r.0 as int) == Ok::<
            Option<DeclId>,
            (),
        >(Some(d))),
        path_names(g.model().imports[i.0 as int].path_node) matches Some(path) ==> (resolve_names(
            g.model(),
            0,
            path,
            seq![i.0],
        ) is Err ==> resolve_ref_model(g.model(), r.0 as int) is Err),
{
    let m = g.model();
    let rf = m.references[r.0 as int];
    let names = path_names(rf.node)->0;
    assert(rf.scope.0 < m.scopes.len());
    assert(m.bindings.contains_key((rf.scope.0, names[0])));
    assert(binding_ok(m, (rf.scope.0, names[0])));
    assert(Seq::<u32>::empty().push(i.0) =~= seq![i.0]);
    assert(names.drop_first() =~= Seq::<Seq<char>>::empty());
}

/// An import is followed wherever it is not already being followed: where
/// a scope binds a name only to an import that is not among the imports
/// being resolved (`active`, fewer than all imports), the name resolves to
/// what the import's path resolves to from the root scope, with that import
/// added to those being resolved. So imports chain: an import whose path
/// leads through another import is followed through it, and resolution
/// fails only where it comes back to an import it is already following.
pub proof fn law_import_is_followed(
    g: &ScopeGraph,
    scope: u32,
    name: Seq<char>,
    active: Seq<u32>,
    i: ImportId,
    path: Seq<Seq<char>>,
)
    requires
        g.wf(),
        binding_of(g.model(), scope, name) == (None::<DeclId>, Some(i)),
        !active.contains(i.0),
        active.len() < g.model().imports.len(),
        path_names(g.model().imports[i.0 as int].path_node) == Some(path),
    ensures
        resolve_in_scope(g.model(), scope, name, active) == resolve_names(
            g.model(),
            0,
            path,
            active.push(i.0),
        ),
{
    let m = g.model();
    assert(m.bindings.contains_key((scope, name)));
    assert(binding_ok(m, (scope, name)));
}

/// Whether `m2` holds what `m` holds, and maybe more after it: the scopes,
/// declarations, references and imports of `m` are a prefix of those of `m2`.
pub open spec fn extends(m: GraphModel, m2: GraphModel) -> bool {
    &&& m.scopes.len() <= m2.scopes.len()
    &&& forall|k: int| 0 <= k < m.scopes.len() ==> #[trigger] m2.scopes[k] == m.scopes[k]
    &&& m.declarations.len() <= m2.declarations.len()
    &&& forall|k: int| 0 <= k < m.declarations.len() ==> #[trigger] m2.declarations[k] == m.declarations[k]
    &&& m.references.len() <= m2.references.len()
    &&& forall|k: int| 0 <= k < m.references.len() ==> #[trigger] m2.references[k] == m.references[k]
    &&& m.imports.len() <= m2.imports.len()
    &&& forall|k: int| 0 <= k < m.imports.len() ==> #[trigger] m2.imports[k] == m.imports[k]
}

proof fn lemma_extends_trans(a: GraphModel, b: GraphModel, c: GraphModel)
    requires
        extends(a, b),
        extends(b, c),
    ensures
        extends(a, c),
{
    assert forall|k: int| 0 <= k < a.scopes.len() implies #[trigger] c.scopes[k] == a.scopes[k] by {
        assert(c.scopes[k] == b.scopes[k]);
    }
    assert forall|k: int| 0 <= k < a.declarations.len() implies #[trigger] c.declarations[k]
        == a.declarations[k] by {
        assert(c.declarations[k] == b.declarations[k]);
    }
    assert forall|k: int| 0 <= k < a.references.len() implies #[trigger] c.references[k]
        == a.references[k] by {
        assert(c.references[k] == b.references[k]);
    }
    assert forall|k: int| 0 <= k < a.imports.len() implies #[trigger] c.imports[k] == a.imports[k] by {
        assert(c.imports[k] == b.imports[k]);
    }
}

proof fn lemma_adds_extend(m: GraphModel, scope: ScopeId, node: SyntaxNode, child: Option<ScopeId>, parent: Option<ScopeId>)
    ensures
        extends(m, add_scope(m, parent)),
        extends(m, add_decl(m, scope, node, child)),
        extends(m, add_ref(m, scope, node)),
        extends(m, add_import(m, scope, node)),
        extends(m, m),
{
}

/// What a statement adds comes after what the graph holds, which stays as
/// it was.
pub proof fn lemma_walk_node_extends(m: GraphModel, n: SyntaxNode, scope: ScopeId, parent: SyntaxKind)
    ensures
        extends(m, walk_node(m, n, scope, parent)),
    decreases node_size(n), 0int,
{
    lemma_child_nodes_size(n);
    lemma_first_child_size(n, SyntaxKind::BLOCK_EXPR, SyntaxKind::BLOCK_EXPR);
    lemma_without_size(
        child_nodes(n),
        crate::ast::first_index_of(child_nodes(n), SyntaxKind::NAME_REF, SyntaxKind::NAME_REF),
    );
    match n.kind {
        SyntaxKind::SCOPE_DEF => {
            let named = next_scope_id(m);
            let m1 = add_scope(m, None);
            lemma_adds_extend(m, scope, n, None, None);
            let m2 = match first_child_of(n, SyntaxKind::NAME_REF, SyntaxKind::NAME_REF) {
                Some(name) => {
                    lemma_adds_extend(m1, scope, name, Some(named), None);
                    lemma_extends_trans(m, m1, add_decl(m1, scope, name, Some(named)));
                    add_decl(m1, scope, name, Some(named))
                },
                None => m1,
            };
            match first_child_of(n, SyntaxKind::BLOCK_EXPR, SyntaxKind::BLOCK_EXPR) {
                Some(block) => {
                    lemma_child_nodes_size(block);
                    lemma_walk_nodes_extends(m2, child_nodes(block), named, SyntaxKind::BLOCK_EXPR);
                    lemma_extends_trans(m, m2, walk_nodes(m2, child_nodes(block), named, SyntaxKind::BLOCK_EXPR));
                },
                None => {},
            }
        },
        SyntaxKind::BLOCK_EXPR => {
            let anon = next_scope_id(m);
            let m1 = add_scope(m, Some(scope));
            lemma_adds_extend(m, scope, n, None, Some(scope));
            lemma_walk_nodes_extends(m1, child_nodes(n), anon, SyntaxKind::BLOCK_EXPR);
            lemma_extends_trans(m, m1, walk_nodes(m1, child_nodes(n), anon, SyntaxKind::BLOCK_EXPR));
        },
        SyntaxKind::LET_STMT => {
            let m1 = match first_child_of(n, SyntaxKind::NAME_REF, SyntaxKind::NAME_REF) {
                Some(name) => {
                    lemma_adds_extend(m, scope, name, None, None);
                    add_decl(m, scope, name, None)
                },
                None => {
                    lemma_adds_extend(m, scope, n, None, None);
                    m
                },
            };
            lemma_walk_nodes_extends(m1, initializer_nodes(n), scope, SyntaxKind::LET_STMT);
            lemma_extends_trans(m, m1, walk_nodes(m1, initializer_nodes(n), scope, SyntaxKind::LET_STMT));
        },
        SyntaxKind::IMPORT_STMT => {
            lemma_adds_extend(m, scope, n, None, None);
            match first_child_of(n, SyntaxKind::PATH, SyntaxKind::NAME_REF) {
                Some(path) => {
                    lemma_adds_extend(m, scope, path, None, None);
                },
                None => {},
            }
        },
        SyntaxKind::NAME_REF => {
            lemma_adds_extend(m, scope, n, None, None);
        },
        _ => {
            lemma_walk_nodes_extends(m, child_nodes(n), scope, n.kind);
        },
    }
}

/// What statements add comes after what the graph holds, which stays as it
/// was.
pub proof fn lemma_walk_nodes_extends(m: GraphModel, ns: Seq<SyntaxNode>, scope: ScopeId, parent: SyntaxKind)
    ensures
        extends(m, walk_nodes(m, ns, scope, parent)),
    decreases nodes_size(ns), 1int,
{
    if ns.len() > 0 {
        lemma_walk_node_extends(m, ns[0], scope, parent);
        lemma_walk_nodes_extends(walk_node(m, ns[0], scope, parent), ns.drop_first(), scope, parent);
        lemma_extends_trans(
            m,
            walk_node(m, ns[0], scope, parent),
            walk_nodes(walk_node(m, ns[0], scope, parent), ns.drop_first(), scope, parent),
        );
    }
}

/// A block opens a scope whose parent is the scope that the block stands in,
/// whatever node the block is a child of (a statement, a `let`, an
/// operand): its scope comes right after those of the graph. A `scope`
/// definition opens a scope with no parent.
pub proof fn law_new_scope_parent(m: GraphModel, n: SyntaxNode, scope: ScopeId, parent: SyntaxKind)
    requires
        n.kind == SyntaxKind::BLOCK_EXPR || n.kind == SyntaxKind::SCOPE_DEF,
    ensures
        walk_node(m, n, scope, parent).scopes.len() > m.scopes.len(),
        n.kind == SyntaxKind::BLOCK_EXPR ==> walk_node(m, n, scope, parent).scopes[m.scopes.len() as int].parent
            == Some(scope),
        n.kind == SyntaxKind::SCOPE_DEF ==> walk_node(m, n, scope, parent).scopes[m.scopes.len() as int].parent
            is None,
{
    lemma_child_nodes_size(n);
    let k = m.scopes.len() as int;
    if n.kind == SyntaxKind::BLOCK_EXPR {
        let m1 = add_scope(m, Some(scope));
        lemma_walk_nodes_extends(m1, child_nodes(n), next_scope_id(m), SyntaxKind::BLOCK_EXPR);
        assert(walk_nodes(m1, child_nodes(n), next_scope_id(m), SyntaxKind::BLOCK_EXPR).scopes[k] == m1.scopes[k]);
    } else {
        let named = next_scope_id(m);
        let m1 = add_scope(m, None);
        let m2 = match first_child_of(n, SyntaxKind::NAME_REF, SyntaxKind::NAME_REF) {
            Some(name) => add_decl(m1, scope, name, Some(named)),
            None => m1,
        };
        assert(m2.scopes[k] == m1.scopes[k]);
        match first_child_of(n, SyntaxKind::BLOCK_EXPR, SyntaxKind::BLOCK_EXPR) {
            Some(block) => {
                lemma_first_child_size(n, SyntaxKind::BLOCK_EXPR, SyntaxKind::BLOCK_EXPR);
                lemma_walk_nodes_extends(m2, child_nodes(block), named, SyntaxKind::BLOCK_EXPR);
                assert(walk_nodes(m2, child_nodes(block), named, SyntaxKind::BLOCK_EXPR).scopes[k] == m2.scopes[k]);
            },
            None => {},
        }
    }
}

/// What each kind of statement adds to the graph, in the scope `scope` it
/// stands in: a `let` declares its name there; a `scope` definition declares
/// its name there, naming the scope it opens (the next one); a name that is
/// not part of a path or the name of a `scope` definition is a reference
/// made there, and adds nothing else; an `import` registers its path.
pub proof fn law_statement_effects(m: GraphModel, n: SyntaxNode, scope: ScopeId, parent: SyntaxKind)
    ensures
        n.kind == SyntaxKind::LET_STMT ==> (first_child_of(n, SyntaxKind::NAME_REF, SyntaxKind::NAME_REF)
            matches Some(name) ==> walk_node(m, n, scope, parent).declarations.len() > m.declarations.len()
            && walk_node(m, n, scope, parent).declarations[m.declarations.len() as int] == (Declaration {
            scope,
            node: name,
            child_scope: None,
        })),
        n.kind == SyntaxKind::SCOPE_DEF ==> (first_child_of(n, SyntaxKind::NAME_REF, SyntaxKind::NAME_REF)
            matches Some(name) ==> walk_node(m, n, scope, parent).declarations.len() > m.declarations.len()
            && walk_node(m, n, scope, parent).declarations[m.declarations.len() as int] == (Declaration {
            scope,
            node: name,
            child_scope: Some(ScopeId(m.scopes.len() as u32)),
        })),
        n.kind == SyntaxKind::NAME_REF && parent != SyntaxKind::PATH && parent != SyntaxKind::SCOPE_DEF
            ==> walk_node(m, n, scope, parent).references == m.references.push(Reference { scope, node: n })
            && walk_node(m, n, scope, parent).declarations == m.declarations
            && walk_node(m, n, scope, parent).scopes == m.scopes
            && walk_node(m, n, scope, parent).imports == m.imports,
        n.kind == SyntaxKind::NAME_REF && (parent == SyntaxKind::PATH || parent == SyntaxKind::SCOPE_DEF)
            ==> walk_node(m, n, scope, parent) == m,
        n.kind == SyntaxKind::IMPORT_STMT ==> (first_child_of(n, SyntaxKind::PATH, SyntaxKind::NAME_REF)
            matches Some(path) ==> walk_node(m, n, scope, parent).imports == m.imports.push(
            Import { path_node: path },
        )),
{
    lemma_child_nodes_size(n);
    let k = m.declarations.len() as int;
    if n.kind == SyntaxKind::LET_STMT {
        if let Some(name) = first_child_of(n, SyntaxKind::NAME_REF, SyntaxKind::NAME_REF) {
            let m1 = add_decl(m, scope, name, None);
            lemma_without_size(
                child_nodes(n),
                crate::ast::first_index_of(child_nodes(n), SyntaxKind::NAME_REF, SyntaxKind::NAME_REF),
            );
            lemma_walk_nodes_extends(m1, initializer_nodes(n), scope, SyntaxKind::LET_STMT);
            let w = walk_nodes(m1, initializer_nodes(n), scope, SyntaxKind::LET_STMT);
            assert(w.declarations[k] == m1.declarations[k]);
        }
    } else if n.kind == SyntaxKind::SCOPE_DEF {
        if let Some(name) = first_child_of(n, SyntaxKind::NAME_REF, SyntaxKind::NAME_REF) {
            let named = next_scope_id(m);
            let m2 = add_decl(add_scope(m, None), scope, name, Some(named));
            match first_child_of(n, SyntaxKind::BLOCK_EXPR, SyntaxKind::BLOCK_EXPR) {
                Some(block) => {
                    lemma_first_child_size(n, SyntaxKind::BLOCK_EXPR, SyntaxKind::BLOCK_EXPR);
                    lemma_walk_nodes_extends(m2, child_nodes(block), named, SyntaxKind::BLOCK_EXPR);
                    let w = walk_nodes(m2, child_nodes(block), named, SyntaxKind::BLOCK_EXPR);
                    assert(w.declarations[k] == m2.declarations[k]);
                },
                None => {},
            }
        }
    } else if n.kind == SyntaxKind::NAME_REF {
        if parent != SyntaxKind::PATH && parent != SyntaxKind::SCOPE_DEF {
            assert(walk_node(m, n, scope, parent) == add_ref(m, scope, n));
        }
    }
}

/// A path goes on in the scope that the declaration before each identifier
/// names: where the first `k` identifiers lead to a declaration that names
/// a scope in which the next identifier is declared, the first `k + 1`
/// identifiers lead to that declaration.
pub proof fn law_path_continues_in_named_scope(
    g: &ScopeGraph,
    start: ScopeId,
    names: Seq<Seq<char>>,
    k: int,
    d: DeclId,
    c: ScopeId,
    d2: DeclId,
)
    requires
        g.wf(),
        1 <= k < names.len(),
        resolve_names(g.model(), start.0, names.take(k), seq![]) == Ok::<Option<DeclId>, ()>(Some(d)),
        g.model().declarations[d.0 as int].child_scope == Some(c),
        binding_of(g.model(), c.0, names[k]).0 == Some(d2),
    ensures
        resolve_names(g.model(), start.0, names.take(k + 1), seq![]) == Ok::<Option<DeclId>, ()>(
            Some(d2),
        ),
{
    let m = g.model();
    let a = Seq::<u32>::empty();
    let t = names.take(k);
    let u = names.take(k + 1);
    assert(t[0] == names[0]);
    assert(u[0] == names[0]);
    lemma_names_named(m, start.0, t, a);
    assert(m.bindings.contains_key((c.0, names[k])));
    assert(binding_ok(m, (c.0, names[k])));
    match lookup_symbol(m, start.0, names[0], a) {
        Ok(Some(d0)) => {
            let xs = u.drop_first();
            assert(t.drop_first() =~= xs.take(k - 1));
            lemma_rest_split(m, d0, xs, a, k - 1);
            let ys = xs.skip(k - 1);
            assert(ys =~= seq![names[k]]);
            assert(resolve_names(m, start.0, t, a) == resolve_rest(m, d0, t.drop_first(), a));
            assert(resolve_rest(m, d0, xs.take(k - 1), a) == Ok::<Option<DeclId>, ()>(Some(d)));
            assert(resolve_rest(m, d0, xs, a) == resolve_rest(m, d, ys, a));
            assert(d.0 < m.declarations.len());
            assert(resolve_in_scope(m, c.0, ys[0], a) == Ok::<Option<DeclId>, ()>(Some(d2)));
            assert(ys.drop_first() =~= Seq::<Seq<char>>::empty());
            assert(resolve_rest(m, d2, ys.drop_first(), a) == Ok::<Option<DeclId>, ()>(Some(d2)));
            assert(resolve_rest(m, d, ys, a) == Ok::<Option<DeclId>, ()>(Some(d2)));
            assert(m.names.contains(u[0]));
            assert(resolve_names(m, start.0, u, a) == resolve_rest(m, d0, xs, a));
        },
        _ => {},
    }
}

} // verus!
