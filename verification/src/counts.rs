//! What a scope graph holds, counted over the syntax tree it is built from:
//! for a tree that the parser builds, one declaration or reference per name,
//! one import per `import` statement, and one scope besides the root per
//! `scope` definition and per block that is not the body of one.

use vstd::prelude::*;

use crate::ast::{
    child_nodes, element_nodes, first_child_of, first_index_of, initializer_nodes,
    lemma_child_nodes_size, lemma_first_index_of, nodes_size, without, SourceFile,
};
use crate::green::GreenTree;
use crate::grammar::{
    first_kind, leaves, lemma_let_head_len, lemma_ws_count, let_head, node, opt_name, opt_tok,
    p_block, p_block_items, p_expr, p_expr_ops, p_expr_stmt, p_import, p_items, p_let, p_path,
    p_path_rest, p_scope, p_source_file, p_stmt, tok_tree, ws_count, Tok,
};
use crate::syntax::{element_tree, elements_trees, lemma_elements_trees, node_size, node_tree,
    SyntaxElement, SyntaxNode};
use crate::scope_graph::{
    add_decl, add_scope, build_model, empty_model, next_scope_id, walk_node, walk_nodes, GraphModel,
    ScopeId,
};
use crate::syntax_kind::{kind_raw, lemma_kind_raw_roundtrip, SyntaxKind};

verus! {

/// The number of `NAME_REF` nodes in `n`, itself included.
pub open spec fn tree_names(n: SyntaxNode) -> nat
    decreases node_size(n), 0int,
{
    proof {
        lemma_child_nodes_size(n);
    }
    (if n.kind == SyntaxKind::NAME_REF { 1nat } else { 0nat }) + trees_names(child_nodes(n))
}

/// The number of `NAME_REF` nodes in a sequence of nodes.
pub open spec fn trees_names(ns: Seq<SyntaxNode>) -> nat
    decreases nodes_size(ns), 1int,
{
    if ns.len() == 0 {
        0
    } else {
        tree_names(ns[0]) + trees_names(ns.drop_first())
    }
}

/// The number of `IMPORT_STMT` nodes in `n`, itself included.
pub open spec fn tree_imports(n: SyntaxNode) -> nat
    decreases node_size(n), 0int,
{
    proof {
        lemma_child_nodes_size(n);
    }
    (if n.kind == SyntaxKind::IMPORT_STMT { 1nat } else { 0nat }) + trees_imports(child_nodes(n))
}

/// The number of `IMPORT_STMT` nodes in a sequence of nodes.
pub open spec fn trees_imports(ns: Seq<SyntaxNode>) -> nat
    decreases nodes_size(ns), 1int,
{
    if ns.len() == 0 {
        0
    } else {
        tree_imports(ns[0]) + trees_imports(ns.drop_first())
    }
}

/// The number of nodes in `n`, itself included, that open a scope: `scope`
/// definitions, and blocks that are not the body of a `scope` definition;
/// `parent` is the kind of the node whose child `n` is.
pub open spec fn tree_scopes(n: SyntaxNode, parent: SyntaxKind) -> nat
    decreases node_size(n), 0int,
{
    proof {
        lemma_child_nodes_size(n);
    }
    (if n.kind == SyntaxKind::SCOPE_DEF || (n.kind == SyntaxKind::BLOCK_EXPR && parent
        != SyntaxKind::SCOPE_DEF) {
        1nat
    } else {
        0nat
    }) + trees_scopes(child_nodes(n), n.kind)
}

/// The number of nodes that open a scope in a sequence of nodes, the
/// children of a node of kind `parent`.
pub open spec fn trees_scopes(ns: Seq<SyntaxNode>, parent: SyntaxKind) -> nat
    decreases nodes_size(ns), 1int,
{
    if ns.len() == 0 {
        0
    } else {
        tree_scopes(ns[0], parent) + trees_scopes(ns.drop_first(), parent)
    }
}

/// Whether the child nodes of a `scope` definition are an optional name and
/// then an optional block.
pub open spec fn scope_children_ok(cs: Seq<SyntaxNode>) -> bool {
    ||| cs.len() == 0
    ||| cs.len() == 1 && (cs[0].kind == SyntaxKind::NAME_REF || cs[0].kind == SyntaxKind::BLOCK_EXPR)
    ||| cs.len() == 2 && cs[0].kind == SyntaxKind::NAME_REF && cs[1].kind == SyntaxKind::BLOCK_EXPR
}

/// Whether the tree under `n` has the shape that the parser gives: names and
/// paths hold no nodes, an `import` statement holds one path and no other
/// node, and a `scope` definition holds an optional name and then an optional
/// block.
pub open spec fn shape_ok(n: SyntaxNode) -> bool
    decreases node_size(n), 0int,
{
    proof {
        lemma_child_nodes_size(n);
    }
    let cs = child_nodes(n);
    &&& (n.kind == SyntaxKind::NAME_REF || n.kind == SyntaxKind::PATH) ==> cs.len() == 0
    &&& n.kind == SyntaxKind::IMPORT_STMT ==> cs.len() == 1 && cs[0].kind == SyntaxKind::PATH
    &&& n.kind == SyntaxKind::SCOPE_DEF ==> scope_children_ok(cs)
    &&& shapes_ok(cs)
}

/// Whether every node of a sequence has the shape that the parser gives.
pub open spec fn shapes_ok(ns: Seq<SyntaxNode>) -> bool
    decreases nodes_size(ns), 1int,
{
    ns.len() == 0 || (shape_ok(ns[0]) && shapes_ok(ns.drop_first()))
}

proof fn lemma_shapes_ok_index(ns: Seq<SyntaxNode>, i: int)
    requires
        shapes_ok(ns),
        0 <= i < ns.len(),
    ensures
        shape_ok(ns[i]),
    decreases ns.len(),
{
    if i > 0 {
        lemma_shapes_ok_index(ns.drop_first(), i - 1);
        assert(ns.drop_first()[i - 1] == ns[i]);
    }
}

proof fn lemma_shapes_ok_concat(a: Seq<SyntaxNode>, b: Seq<SyntaxNode>)
    ensures
        shapes_ok(a + b) == (shapes_ok(a) && shapes_ok(b)),
    decreases a.len(),
{
    if a.len() == 0 {
        assert(a + b =~= b);
    } else {
        assert((a + b).drop_first() =~= a.drop_first() + b);
        assert((a + b)[0] == a[0]);
        lemma_shapes_ok_concat(a.drop_first(), b);
    }
}

proof fn lemma_trees_concat(a: Seq<SyntaxNode>, b: Seq<SyntaxNode>, parent: SyntaxKind)
    ensures
        trees_names(a + b) == trees_names(a) + trees_names(b),
        trees_imports(a + b) == trees_imports(a) + trees_imports(b),
        trees_scopes(a + b, parent) == trees_scopes(a, parent) + trees_scopes(b, parent),
    decreases a.len(),
{
    if a.len() == 0 {
        assert(a + b =~= b);
    } else {
        assert((a + b).drop_first() =~= a.drop_first() + b);
        assert((a + b)[0] == a[0]);
        lemma_trees_concat(a.drop_first(), b, parent);
    }
}

proof fn lemma_trees_single(n: SyntaxNode, parent: SyntaxKind)
    ensures
        trees_names(seq![n]) == tree_names(n),
        trees_imports(seq![n]) == tree_imports(n),
        trees_scopes(seq![n], parent) == tree_scopes(n, parent),
{
    let one = seq![n];
    let e = Seq::<SyntaxNode>::empty();
    assert(one.drop_first() =~= e);
    assert(trees_names(e) == 0);
    assert(trees_imports(e) == 0);
    assert(trees_scopes(e, parent) == 0);
    assert(trees_names(one) == tree_names(one[0]) + trees_names(one.drop_first()));
    assert(trees_imports(one) == tree_imports(one[0]) + trees_imports(one.drop_first()));
}

proof fn lemma_trees_pair(a: SyntaxNode, b: SyntaxNode, parent: SyntaxKind)
    ensures
        trees_names(seq![a, b]) == tree_names(a) + tree_names(b),
        trees_imports(seq![a, b]) == tree_imports(a) + tree_imports(b),
        trees_scopes(seq![a, b], parent) == tree_scopes(a, parent) + tree_scopes(b, parent),
{
    assert(seq![a, b] =~= seq![a] + seq![b]);
    lemma_trees_concat(seq![a], seq![b], parent);
    lemma_trees_single(a, parent);
    lemma_trees_single(b, parent);
}

/// Leaving out one node of a sequence takes away what that node counts.
proof fn lemma_trees_without(ns: Seq<SyntaxNode>, i: int, parent: SyntaxKind)
    requires
        0 <= i < ns.len(),
    ensures
        trees_names(ns) == trees_names(without(ns, Some(i))) + tree_names(ns[i]),
        trees_imports(ns) == trees_imports(without(ns, Some(i))) + tree_imports(ns[i]),
        trees_scopes(ns, parent) == trees_scopes(without(ns, Some(i)), parent) + tree_scopes(
            ns[i],
            parent,
        ),
        shapes_ok(ns) ==> shapes_ok(without(ns, Some(i))),
{
    let one = seq![ns[i]];
    assert(ns =~= ns.take(i) + one + ns.skip(i + 1));
    assert(without(ns, Some(i)) =~= ns.take(i) + ns.skip(i + 1));
    lemma_trees_concat(ns.take(i) + one, ns.skip(i + 1), parent);
    lemma_trees_concat(ns.take(i), one, parent);
    lemma_trees_concat(ns.take(i), ns.skip(i + 1), parent);
    assert(one.drop_first() =~= Seq::<SyntaxNode>::empty());
    lemma_trees_single(ns[i], parent);
    lemma_shapes_ok_concat(ns.take(i) + one, ns.skip(i + 1));
    lemma_shapes_ok_concat(ns.take(i), one);
    lemma_shapes_ok_concat(ns.take(i), ns.skip(i + 1));
}

/// The number of names (declarations and references) of a graph.
pub open spec fn graph_names(m: GraphModel) -> nat {
    m.declarations.len() + m.references.len()
}

/// What a statement of the parser's shape adds to the graph: one declaration
/// or reference per name in it, one import per `import` statement, and one
/// scope per node that opens one.
proof fn lemma_walk_node_counts(m: GraphModel, n: SyntaxNode, scope: ScopeId, parent: SyntaxKind)
    requires
        shape_ok(n),
        n.kind == SyntaxKind::NAME_REF ==> parent != SyntaxKind::PATH && parent != SyntaxKind::SCOPE_DEF,
        n.kind == SyntaxKind::BLOCK_EXPR ==> parent != SyntaxKind::SCOPE_DEF,
    ensures
        graph_names(walk_node(m, n, scope, parent)) == graph_names(m) + tree_names(n),
        walk_node(m, n, scope, parent).imports.len() == m.imports.len() + tree_imports(n),
        walk_node(m, n, scope, parent).scopes.len() == m.scopes.len() + tree_scopes(n, parent),
    decreases node_size(n), 0int,
{
    let cs = child_nodes(n);
    lemma_child_nodes_size(n);
    lemma_first_index_of(cs, SyntaxKind::NAME_REF, SyntaxKind::NAME_REF);
    lemma_first_index_of(cs, SyntaxKind::BLOCK_EXPR, SyntaxKind::BLOCK_EXPR);
    lemma_first_index_of(cs, SyntaxKind::PATH, SyntaxKind::NAME_REF);
    match n.kind {
        SyntaxKind::SCOPE_DEF => {
            let named = next_scope_id(m);
            let m1 = add_scope(m, None);
            let m2 = match first_child_of(n, SyntaxKind::NAME_REF, SyntaxKind::NAME_REF) {
                Some(name) => add_decl(m1, scope, name, Some(named)),
                None => m1,
            };
            if cs.len() == 0 {
                assert(trees_names(cs) == 0 && trees_imports(cs) == 0);
            } else if cs.len() == 1 {
                lemma_shapes_ok_index(cs, 0);
                lemma_child_nodes_size(cs[0]);
                assert(cs =~= seq![cs[0]]);
                lemma_trees_single(cs[0], SyntaxKind::SCOPE_DEF);
                if cs[0].kind == SyntaxKind::NAME_REF {
                    assert(child_nodes(cs[0]).len() == 0);
                    assert(tree_names(cs[0]) == 1);
                    assert(tree_imports(cs[0]) == 0);
                }
            } else {
                lemma_shapes_ok_index(cs, 0);
                lemma_shapes_ok_index(cs, 1);
                lemma_child_nodes_size(cs[0]);
                lemma_child_nodes_size(cs[1]);
                assert(cs =~= seq![cs[0], cs[1]]);
                lemma_trees_pair(cs[0], cs[1], SyntaxKind::SCOPE_DEF);
                assert(child_nodes(cs[0]).len() == 0);
                assert(tree_names(cs[0]) == 1);
                assert(tree_imports(cs[0]) == 0);
                assert(first_index_of(cs, SyntaxKind::BLOCK_EXPR, SyntaxKind::BLOCK_EXPR) == Some(1int));
            }
            let has_name = first_child_of(n, SyntaxKind::NAME_REF, SyntaxKind::NAME_REF) is Some;
            assert(tree_names(n) == trees_names(cs));
            assert(tree_imports(n) == trees_imports(cs));
            assert(walk_node(m, n, scope, parent) == match first_child_of(
                n,
                SyntaxKind::BLOCK_EXPR,
                SyntaxKind::BLOCK_EXPR,
            ) {
                Some(block) => walk_nodes(m2, child_nodes(block), named, SyntaxKind::BLOCK_EXPR),
                None => m2,
            });
            assert(graph_names(m2) == graph_names(m) + if has_name { 1int } else { 0int });
            assert(m2.imports.len() == m.imports.len());
            match first_child_of(n, SyntaxKind::BLOCK_EXPR, SyntaxKind::BLOCK_EXPR) {
                Some(block) => {
                    lemma_child_nodes_size(block);
                    lemma_walk_nodes_counts(m2, child_nodes(block), named, SyntaxKind::BLOCK_EXPR);
                    assert(tree_names(block) == trees_names(child_nodes(block)));
                    assert(tree_imports(block) == trees_imports(child_nodes(block)));
                    assert(trees_names(cs) == (if has_name { 1int } else { 0int }) + tree_names(block));
                    assert(trees_imports(cs) == tree_imports(block));
                    let w = walk_nodes(m2, child_nodes(block), named, SyntaxKind::BLOCK_EXPR);
                    assert(graph_names(w) == graph_names(m2) + trees_names(child_nodes(block)));
                    assert(graph_names(w) == graph_names(m) + tree_names(n));
                    assert(w.imports.len() == m.imports.len() + tree_imports(n));
                    assert(walk_node(m, n, scope, parent) == w);
                },
                None => {
                    assert(trees_names(cs) == (if has_name { 1int } else { 0int }));
                    assert(trees_imports(cs) == 0);
                    assert(graph_names(m2) == graph_names(m) + tree_names(n));
                    assert(walk_node(m, n, scope, parent) == m2);
                },
            }
        },
        SyntaxKind::BLOCK_EXPR => {
            let anon = next_scope_id(m);
            lemma_walk_nodes_counts(add_scope(m, Some(scope)), cs, anon, SyntaxKind::BLOCK_EXPR);
        },
        SyntaxKind::LET_STMT => {
            match first_index_of(cs, SyntaxKind::NAME_REF, SyntaxKind::NAME_REF) {
                Some(i) => {
                    lemma_shapes_ok_index(cs, i);
                    lemma_child_nodes_size(cs[i]);
                    lemma_trees_without(cs, i, SyntaxKind::LET_STMT);
                    lemma_without_nodes_size(cs, i);
                    assert(child_nodes(cs[i]).len() == 0);
                    assert(trees_names(child_nodes(cs[i])) == 0);
                    assert(trees_imports(child_nodes(cs[i])) == 0);
                    assert(trees_scopes(child_nodes(cs[i]), cs[i].kind) == 0);
                    let m1 = add_decl(m, scope, cs[i], None);
                    lemma_walk_nodes_counts(m1, initializer_nodes(n), scope, SyntaxKind::LET_STMT);
                },
                None => {
                    lemma_walk_nodes_counts(m, cs, scope, SyntaxKind::LET_STMT);
                },
            }
        },
        SyntaxKind::IMPORT_STMT => {
            lemma_shapes_ok_index(cs, 0);
            lemma_child_nodes_size(cs[0]);
            assert(cs =~= seq![cs[0]]);
            lemma_trees_single(cs[0], SyntaxKind::IMPORT_STMT);
            assert(child_nodes(cs[0]).len() == 0);
            assert(trees_names(child_nodes(cs[0])) == 0);
            assert(trees_imports(child_nodes(cs[0])) == 0);
            assert(trees_scopes(child_nodes(cs[0]), cs[0].kind) == 0);
        },
        SyntaxKind::NAME_REF => {
            assert(trees_names(cs) == 0);
            assert(trees_imports(cs) == 0);
            assert(trees_scopes(cs, n.kind) == 0);
        },
        _ => {
            lemma_walk_nodes_counts(m, cs, scope, n.kind);
        },
    }
}

proof fn lemma_without_nodes_size(ns: Seq<SyntaxNode>, i: int)
    requires
        0 <= i < ns.len(),
    ensures
        nodes_size(without(ns, Some(i))) <= nodes_size(ns),
{
    crate::ast::lemma_without_size(ns, Some(i));
}

/// What statements of the parser's shape add to the graph, one after the
/// other (see `lemma_walk_node_counts`).
proof fn lemma_walk_nodes_counts(m: GraphModel, ns: Seq<SyntaxNode>, scope: ScopeId, parent: SyntaxKind)
    requires
        shapes_ok(ns),
        ns.len() > 0 ==> parent != SyntaxKind::PATH && parent != SyntaxKind::SCOPE_DEF,
    ensures
        graph_names(walk_nodes(m, ns, scope, parent)) == graph_names(m) + trees_names(ns),
        walk_nodes(m, ns, scope, parent).imports.len() == m.imports.len() + trees_imports(ns),
        walk_nodes(m, ns, scope, parent).scopes.len() == m.scopes.len() + trees_scopes(ns, parent),
    decreases nodes_size(ns), 1int,
{
    if ns.len() > 0 {
        lemma_walk_node_counts(m, ns[0], scope, parent);
        lemma_walk_nodes_counts(walk_node(m, ns[0], scope, parent), ns.drop_first(), scope, parent);
    }
}

/// The counts of a graph built from a file of the parser's shape: one
/// declaration or reference per `NAME_REF` node, one import per
/// `IMPORT_STMT` node, and, besides the root scope, one scope per `scope`
/// definition and per block that is not the body of one.
pub proof fn lemma_build_counts(file: SourceFile)
    requires
        shape_ok(file.0),
        file.0.kind != SyntaxKind::PATH && file.0.kind != SyntaxKind::SCOPE_DEF,
        file.0.kind != SyntaxKind::NAME_REF && file.0.kind != SyntaxKind::IMPORT_STMT
            && file.0.kind != SyntaxKind::BLOCK_EXPR,
    ensures
        graph_names(build_model(file)) == tree_names(file.0),
        build_model(file).imports.len() == tree_imports(file.0),
        build_model(file).scopes.len() == 1 + tree_scopes(file.0, file.0.kind),
{
    lemma_walk_nodes_counts(add_scope(empty_model(), None), child_nodes(file.0), ScopeId(0), file.0.kind);
}

/// The nodes among green trees, in order.
pub open spec fn green_nodes(ts: Seq<GreenTree>) -> Seq<GreenTree>
    decreases ts.len(),
{
    if ts.len() == 0 {
        seq![]
    } else {
        (if ts[0] is Node { seq![ts[0]] } else { seq![] }) + green_nodes(ts.drop_first())
    }
}

/// Whether a green node has the raw kind of `k`.
pub open spec fn is_kind(t: GreenTree, k: SyntaxKind) -> bool {
    t matches GreenTree::Node(r, _) && r == kind_raw(k)
}

/// `shape_ok` for green trees.
pub open spec fn green_shape(t: GreenTree) -> bool
    decreases t,
{
    match t {
        GreenTree::Token(_, _) => true,
        GreenTree::Node(k, cs) => {
            let ns = green_nodes(cs);
            &&& (k == kind_raw(SyntaxKind::NAME_REF) || k == kind_raw(SyntaxKind::PATH)) ==> ns.len() == 0
            &&& k == kind_raw(SyntaxKind::IMPORT_STMT) ==> ns.len() == 1 && is_kind(ns[0], SyntaxKind::PATH)
            &&& k == kind_raw(SyntaxKind::SCOPE_DEF) ==> ({
                ||| ns.len() == 0
                ||| ns.len() == 1 && (is_kind(ns[0], SyntaxKind::NAME_REF) || is_kind(ns[0], SyntaxKind::BLOCK_EXPR))
                ||| ns.len() == 2 && is_kind(ns[0], SyntaxKind::NAME_REF) && is_kind(ns[1], SyntaxKind::BLOCK_EXPR)
            })
            &&& green_shapes(cs)
        },
    }
}

/// `green_shape` for each of a sequence of green trees.
pub open spec fn green_shapes(ts: Seq<GreenTree>) -> bool
    decreases ts,
{
    ts.len() == 0 || (green_shape(ts[0]) && green_shapes(ts.subrange(1, ts.len() as int)))
}

proof fn lemma_green_nodes_concat(a: Seq<GreenTree>, b: Seq<GreenTree>)
    ensures
        green_nodes(a + b) == green_nodes(a) + green_nodes(b),
    decreases a.len(),
{
    if a.len() == 0 {
        assert(a + b =~= b);
        assert(green_nodes(a) + green_nodes(b) =~= green_nodes(b));
    } else {
        assert((a + b).drop_first() =~= a.drop_first() + b);
        assert((a + b)[0] == a[0]);
        lemma_green_nodes_concat(a.drop_first(), b);
        let h: Seq<GreenTree> = if a[0] is Node { seq![a[0]] } else { seq![] };
        assert(h + (green_nodes(a.drop_first()) + green_nodes(b)) =~= (h + green_nodes(a.drop_first()))
            + green_nodes(b));
    }
}

proof fn lemma_green_shapes_concat(a: Seq<GreenTree>, b: Seq<GreenTree>)
    ensures
        green_shapes(a + b) == (green_shapes(a) && green_shapes(b)),
    decreases a.len(),
{
    if a.len() == 0 {
        assert(a + b =~= b);
    } else {
        assert((a + b).subrange(1, (a + b).len() as int) =~= a.subrange(1, a.len() as int) + b);
        assert((a + b)[0] == a[0]);
        lemma_green_shapes_concat(a.subrange(1, a.len() as int), b);
    }
}

proof fn lemma_green_single(t: GreenTree)
    ensures
        green_shapes(seq![t]) == green_shape(t),
        green_nodes(seq![t]) == (if t is Node { seq![t] } else { Seq::<GreenTree>::empty() }),
{
    assert(seq![t].subrange(1, 1) =~= Seq::<GreenTree>::empty());
    assert(seq![t].drop_first() =~= Seq::<GreenTree>::empty());
    assert(green_nodes(Seq::<GreenTree>::empty()) =~= Seq::<GreenTree>::empty());
    assert(green_shapes(Seq::<GreenTree>::empty()));
    assert(green_shapes(seq![t]) == (green_shape(seq![t][0]) && green_shapes(seq![t].subrange(1, 1))));
    if t is Node {
        assert(seq![t] + Seq::<GreenTree>::empty() =~= seq![t]);
    } else {
        assert(Seq::<GreenTree>::empty() + Seq::<GreenTree>::empty() =~= Seq::<GreenTree>::empty());
    }
}

/// Whether every green tree of a sequence is a token.
pub open spec fn all_tokens(ts: Seq<GreenTree>) -> bool {
    forall|i: int| 0 <= i < ts.len() ==> (#[trigger] ts[i]) is Token
}

proof fn lemma_all_tokens(ts: Seq<GreenTree>)
    requires
        all_tokens(ts),
    ensures
        green_nodes(ts) == Seq::<GreenTree>::empty(),
        green_shapes(ts),
    decreases ts.len(),
{
    if ts.len() > 0 {
        assert(ts.drop_first() =~= ts.subrange(1, ts.len() as int));
        assert(all_tokens(ts.drop_first()));
        lemma_all_tokens(ts.drop_first());
        assert(ts[0] is Token);
        assert(green_shape(ts[0]));
        assert(green_nodes(ts) =~= Seq::<GreenTree>::empty());
    }
}

/// The child nodes of a node, as green trees, are the green nodes among its
/// children.
proof fn lemma_green_nodes_of(es: Seq<SyntaxElement>)
    ensures
        green_nodes(elements_trees(es)) == element_nodes(es).map_values(|c: SyntaxNode| node_tree(c)),
    decreases es.len(),
{
    lemma_elements_trees(es);
    if es.len() > 0 {
        let rest = es.subrange(1, es.len() as int);
        assert(rest =~= es.drop_first());
        lemma_green_nodes_of(rest);
        let ts = elements_trees(es);
        assert(ts.drop_first() =~= elements_trees(rest)) by {
            lemma_elements_trees(rest);
        }
        assert(ts[0] == element_tree(es[0]));
        let h: Seq<SyntaxNode> = match es[0] {
            SyntaxElement::Node(n) => seq![n],
            SyntaxElement::Token(_) => seq![],
        };
        assert(element_nodes(es) == h + element_nodes(es.drop_first()));
        assert((h + element_nodes(rest)).map_values(|c: SyntaxNode| node_tree(c)) =~= h.map_values(
            |c: SyntaxNode| node_tree(c),
        ) + element_nodes(rest).map_values(|c: SyntaxNode| node_tree(c)));
        match es[0] {
            SyntaxElement::Node(n) => {
                assert(h.map_values(|c: SyntaxNode| node_tree(c)) =~= seq![node_tree(n)]);
            },
            SyntaxElement::Token(_) => {
                assert(h.map_values(|c: SyntaxNode| node_tree(c)) =~= Seq::<GreenTree>::empty());
            },
        }
    }
}

proof fn lemma_green_shapes_index(ts: Seq<GreenTree>, i: int)
    requires
        green_shapes(ts),
        0 <= i < ts.len(),
    ensures
        green_shape(ts[i]),
    decreases ts.len(),
{
    if i > 0 {
        lemma_green_shapes_index(ts.subrange(1, ts.len() as int), i - 1);
    }
}

proof fn lemma_green_nodes_shapes(ts: Seq<GreenTree>)
    requires
        green_shapes(ts),
    ensures
        forall|i: int| 0 <= i < green_nodes(ts).len() ==> green_shape(#[trigger] green_nodes(ts)[i]),
    decreases ts.len(),
{
    if ts.len() > 0 {
        assert(ts.drop_first() =~= ts.subrange(1, ts.len() as int));
        lemma_green_nodes_shapes(ts.drop_first());
        lemma_green_shapes_index(ts, 0);
        let h: Seq<GreenTree> = if ts[0] is Node { seq![ts[0]] } else { seq![] };
        assert forall|i: int| 0 <= i < green_nodes(ts).len() implies green_shape(
            #[trigger] green_nodes(ts)[i],
        ) by {
            if i < h.len() {
                assert(green_nodes(ts)[i] == ts[0]);
            } else {
                assert(green_nodes(ts)[i] == green_nodes(ts.drop_first())[i - h.len()]);
            }
        }
    }
}

proof fn lemma_shapes_ok_from_all(ns: Seq<SyntaxNode>)
    requires
        forall|i: int| 0 <= i < ns.len() ==> shape_ok(#[trigger] ns[i]),
    ensures
        shapes_ok(ns),
    decreases ns.len(),
{
    if ns.len() > 0 {
        assert forall|i: int| 0 <= i < ns.drop_first().len() implies shape_ok(#[trigger] ns.drop_first()[i]) by {
            assert(ns.drop_first()[i] == ns[i + 1]);
        }
        lemma_shapes_ok_from_all(ns.drop_first());
    }
}

proof fn lemma_kind_raw_injective(a: SyntaxKind, b: SyntaxKind)
    ensures
        kind_raw(a) == kind_raw(b) <==> a == b,
{
    lemma_kind_raw_roundtrip(a);
    lemma_kind_raw_roundtrip(b);
}

/// A syntax node whose green tree has the parser's shape has it too.
proof fn lemma_shape_from_green(n: SyntaxNode)
    requires
        green_shape(node_tree(n)),
    ensures
        shape_ok(n),
    decreases node_size(n),
{
    let cs = child_nodes(n);
    lemma_child_nodes_size(n);
    lemma_green_nodes_of(n.children@);
    let gs = elements_trees(n.children@);
    assert(node_tree(n) == GreenTree::Node(kind_raw(n.kind), gs));
    lemma_green_nodes_shapes(gs);
    let gn = green_nodes(gs);
    assert(gn == cs.map_values(|c: SyntaxNode| node_tree(c)));
    assert forall|i: int| 0 <= i < cs.len() implies shape_ok(#[trigger] cs[i]) by {
        assert(gn[i] == node_tree(cs[i]));
        lemma_shape_from_green(cs[i]);
    }
    lemma_shapes_ok_from_all(cs);
    assert forall|i: int| 0 <= i < cs.len() implies forall|k: SyntaxKind|
        is_kind(#[trigger] gn[i], k) <==> cs[i].kind == k by {
        assert(gn[i] == node_tree(cs[i]));
        assert forall|k: SyntaxKind| is_kind(#[trigger] gn[i], k) <==> cs[i].kind == k by {
            lemma_kind_raw_injective(cs[i].kind, k);
        }
    }
    lemma_kind_raw_injective(n.kind, SyntaxKind::NAME_REF);
    lemma_kind_raw_injective(n.kind, SyntaxKind::PATH);
    lemma_kind_raw_injective(n.kind, SyntaxKind::IMPORT_STMT);
    lemma_kind_raw_injective(n.kind, SyntaxKind::SCOPE_DEF);
}

proof fn lemma_leaves(s: Seq<Tok>, n: nat)
    ensures
        all_tokens(leaves(s, n)),
{
    assert forall|i: int| 0 <= i < leaves(s, n).len() implies (#[trigger] leaves(s, n)[i]) is Token by {
        assert(leaves(s, n)[i] == tok_tree(s.take(n as int)[i]));
    }
}

proof fn lemma_tokens_concat(a: Seq<GreenTree>, b: Seq<GreenTree>)
    requires
        all_tokens(a),
        all_tokens(b),
    ensures
        all_tokens(a + b),
{
    assert forall|i: int| 0 <= i < (a + b).len() implies (#[trigger] (a + b)[i]) is Token by {
        if i < a.len() {
            assert((a + b)[i] == a[i]);
        } else {
            assert((a + b)[i] == b[i - a.len()]);
        }
    }
}

proof fn lemma_opt_tok(s: Seq<Tok>, k: SyntaxKind)
    ensures
        all_tokens(opt_tok(s, k).0),
{
}

/// A node of a kind without a rule of its own has the shape when its
/// children have it.
proof fn lemma_plain_node(k: SyntaxKind, cs: Seq<GreenTree>)
    requires
        green_shapes(cs),
        k != SyntaxKind::NAME_REF && k != SyntaxKind::PATH && k != SyntaxKind::IMPORT_STMT && k
            != SyntaxKind::SCOPE_DEF,
    ensures
        green_shape(node(k, cs)),
        green_shapes(seq![node(k, cs)]),
        green_nodes(seq![node(k, cs)]) == seq![node(k, cs)],
{
    lemma_kind_raw_injective(k, SyntaxKind::NAME_REF);
    lemma_kind_raw_injective(k, SyntaxKind::PATH);
    lemma_kind_raw_injective(k, SyntaxKind::IMPORT_STMT);
    lemma_kind_raw_injective(k, SyntaxKind::SCOPE_DEF);
    lemma_green_single(node(k, cs));
}

/// An identifier wrapped in a name: a node of the shape, with no node
/// inside.
proof fn lemma_name_node(t: Tok)
    ensures
        green_shape(node(SyntaxKind::NAME_REF, seq![tok_tree(t)])),
        green_shapes(seq![node(SyntaxKind::NAME_REF, seq![tok_tree(t)])]),
        green_nodes(seq![node(SyntaxKind::NAME_REF, seq![tok_tree(t)])]) == seq![
            node(SyntaxKind::NAME_REF, seq![tok_tree(t)]),
        ],
{
    lemma_green_single(tok_tree(t));
    lemma_green_single(node(SyntaxKind::NAME_REF, seq![tok_tree(t)]));
}

proof fn lemma_opt_name(s: Seq<Tok>)
    ensures
        green_shapes(opt_name(s).0),
        green_nodes(opt_name(s).0).len() <= 1,
        green_nodes(opt_name(s).0).len() == 1 ==> is_kind(green_nodes(opt_name(s).0)[0], SyntaxKind::NAME_REF),
{
    if first_kind(s) == Some(SyntaxKind::IDENT) {
        lemma_name_node(s[0]);
    } else {
        lemma_all_tokens(Seq::<GreenTree>::empty());
    }
}

proof fn lemma_path_rest(s: Seq<Tok>)
    ensures
        all_tokens(p_path_rest(s).0),
    decreases s.len(),
{
    let n = ws_count(s);
    lemma_ws_count(s);
    let r = s.skip(n as int);
    let w = leaves(s, n);
    lemma_leaves(s, n);
    if first_kind(r) == Some(SyntaxKind::DOT) {
        let t = r.drop_first();
        let n2 = ws_count(t);
        lemma_ws_count(t);
        let u = t.skip(n2 as int);
        let v = opt_tok(u, SyntaxKind::IDENT).1;
        lemma_path_rest(v);
        lemma_leaves(t, n2);
        lemma_opt_tok(u, SyntaxKind::IDENT);
        assert(all_tokens(seq![tok_tree(r[0])]));
        lemma_tokens_concat(w, seq![tok_tree(r[0])]);
        lemma_tokens_concat(w + seq![tok_tree(r[0])], leaves(t, n2));
        lemma_tokens_concat(w + seq![tok_tree(r[0])] + leaves(t, n2), opt_tok(u, SyntaxKind::IDENT).0);
        lemma_tokens_concat(
            w + seq![tok_tree(r[0])] + leaves(t, n2) + opt_tok(u, SyntaxKind::IDENT).0,
            p_path_rest(v).0,
        );
    }
}

proof fn lemma_path(s: Seq<Tok>)
    ensures
        green_shape(p_path(s).0),
        is_kind(p_path(s).0, SyntaxKind::PATH),
{
    let (first, b) = opt_tok(s, SyntaxKind::IDENT);
    lemma_opt_tok(s, SyntaxKind::IDENT);
    lemma_path_rest(b);
    lemma_tokens_concat(first, p_path_rest(b).0);
    lemma_all_tokens(first + p_path_rest(b).0);
}

proof fn lemma_import_shape(s: Seq<Tok>)
    ensures
        green_shapes(p_import(s).0),
{
    if s.len() == 0 {
        lemma_all_tokens(Seq::<GreenTree>::empty());
    } else {
        let t1 = s.drop_first();
        let n1 = ws_count(t1);
        let a = t1.skip(n1 as int);
        let (pn, b) = p_path(a);
        let n2 = ws_count(b);
        let c = b.skip(n2 as int);
        let semi = opt_tok(c, SyntaxKind::SEMICOLON).0;
        lemma_path(a);
        let front = seq![tok_tree(s[0])] + leaves(t1, n1);
        let back = leaves(b, n2) + semi;
        lemma_leaves(t1, n1);
        lemma_leaves(b, n2);
        lemma_opt_tok(c, SyntaxKind::SEMICOLON);
        assert(all_tokens(seq![tok_tree(s[0])]));
        lemma_tokens_concat(seq![tok_tree(s[0])], leaves(t1, n1));
        lemma_tokens_concat(leaves(b, n2), semi);
        lemma_all_tokens(front);
        lemma_all_tokens(back);
        lemma_green_single(pn);
        let cs = seq![tok_tree(s[0])] + leaves(t1, n1) + seq![pn] + leaves(b, n2) + semi;
        assert(cs =~= front + seq![pn] + back);
        lemma_green_nodes_concat(front, seq![pn]);
        lemma_green_nodes_concat(front + seq![pn], back);
        lemma_green_shapes_concat(front, seq![pn]);
        lemma_green_shapes_concat(front + seq![pn], back);
        assert(green_nodes(cs) =~= seq![pn]);
        let imp = node(SyntaxKind::IMPORT_STMT, cs);
        assert(green_shape(imp));
        lemma_green_single(imp);
    }
}

proof fn lemma_shapes3(a: Seq<GreenTree>, b: Seq<GreenTree>, c: Seq<GreenTree>)
    requires
        green_shapes(a),
        green_shapes(b),
        green_shapes(c),
    ensures
        green_shapes(a + b + c),
{
    lemma_green_shapes_concat(a, b);
    lemma_green_shapes_concat(a + b, c);
}

proof fn lemma_token_shapes(ts: Seq<GreenTree>)
    requires
        all_tokens(ts),
    ensures
        green_shapes(ts),
        green_nodes(ts) == Seq::<GreenTree>::empty(),
{
    lemma_all_tokens(ts);
}

proof fn lemma_leaves_shapes(s: Seq<Tok>, n: nat)
    ensures
        green_shapes(leaves(s, n)),
        green_nodes(leaves(s, n)) == Seq::<GreenTree>::empty(),
{
    lemma_leaves(s, n);
    lemma_all_tokens(leaves(s, n));
}

proof fn lemma_tok_shapes(t: Tok)
    ensures
        green_shapes(seq![tok_tree(t)]),
        green_nodes(seq![tok_tree(t)]) == Seq::<GreenTree>::empty(),
{
    lemma_green_single(tok_tree(t));
}

proof fn lemma_opt_tok_shapes(s: Seq<Tok>, k: SyntaxKind)
    ensures
        green_shapes(opt_tok(s, k).0),
        green_nodes(opt_tok(s, k).0) == Seq::<GreenTree>::empty(),
{
    lemma_opt_tok(s, k);
    lemma_all_tokens(opt_tok(s, k).0);
}

/// The trees that each rule of the grammar adds have the parser's shape.
proof fn lemma_stmt_shape(s: Seq<Tok>)
    ensures
        p_stmt(s) matches Some((els, _)) ==> green_shapes(els),
    decreases s.len(), 5int,
{
    let n = ws_count(s);
    lemma_ws_count(s);
    let r = s.skip(n as int);
    let w = leaves(s, n);
    lemma_leaves_shapes(s, n);
    match first_kind(r) {
        Some(SyntaxKind::LET_KW) => {
            lemma_let_shape(r);
            if let Some((els, _)) = p_let(r) {
                lemma_green_shapes_concat(w, els);
            }
        },
        Some(SyntaxKind::SCOPE_KW) => {
            lemma_scope_shape(r);
            if let Some((els, _)) = p_scope(r) {
                lemma_green_shapes_concat(w, els);
            }
        },
        Some(SyntaxKind::IMPORT_KW) => {
            lemma_import_shape(r);
            lemma_green_shapes_concat(w, p_import(r).0);
        },
        Some(_) => {
            lemma_expr_stmt_shape(r);
            if let Some((els, _)) = p_expr_stmt(r) {
                lemma_green_shapes_concat(w, els);
            }
        },
        None => {},
    }
}

proof fn lemma_let_shape(s: Seq<Tok>)
    ensures
        p_let(s) matches Some((els, _)) ==> green_shapes(els),
    decreases s.len(), 4int,
{
    if s.len() > 0 {
        lemma_let_head_len(s);
        let t1 = s.drop_first();
        let n1 = ws_count(t1);
        let a = t1.skip(n1 as int);
        let (nm, b) = opt_name(a);
        let n2 = ws_count(b);
        let c = b.skip(n2 as int);
        let (eq, d) = opt_tok(c, SyntaxKind::EQ);
        let n3 = ws_count(d);
        lemma_tok_shapes(s[0]);
        lemma_leaves_shapes(t1, n1);
        lemma_opt_name(a);
        lemma_leaves_shapes(b, n2);
        lemma_opt_tok_shapes(c, SyntaxKind::EQ);
        lemma_leaves_shapes(d, n3);
        let head = let_head(s).0;
        assert(head == seq![tok_tree(s[0])] + leaves(t1, n1) + nm + leaves(b, n2) + eq + leaves(d, n3));
        lemma_shapes3(seq![tok_tree(s[0])], leaves(t1, n1), nm);
        lemma_shapes3(seq![tok_tree(s[0])] + leaves(t1, n1) + nm, leaves(b, n2), eq);
        lemma_green_shapes_concat(seq![tok_tree(s[0])] + leaves(t1, n1) + nm + leaves(b, n2) + eq, leaves(d, n3));
        let e = let_head(s).1;
        lemma_expr_shape(e, 0);
        if let Some((ex, f)) = p_expr(e, 0) {
            let n4 = ws_count(f);
            let g = f.skip(n4 as int);
            lemma_leaves_shapes(f, n4);
            lemma_opt_tok_shapes(g, SyntaxKind::SEMICOLON);
            let semi = opt_tok(g, SyntaxKind::SEMICOLON).0;
            lemma_shapes3(head, ex, leaves(f, n4));
            lemma_green_shapes_concat(head + ex + leaves(f, n4), semi);
            lemma_plain_node(SyntaxKind::LET_STMT, head + ex + leaves(f, n4) + semi);
        }
    }
}

proof fn lemma_scope_shape(s: Seq<Tok>)
    ensures
        p_scope(s) matches Some((els, _)) ==> green_shapes(els),
    decreases s.len(), 4int,
{
    if s.len() > 0 {
        let t1 = s.drop_first();
        let n1 = ws_count(t1);
        lemma_ws_count(t1);
        let a = t1.skip(n1 as int);
        let (nm, b) = opt_name(a);
        let n2 = ws_count(b);
        lemma_ws_count(b);
        let c = b.skip(n2 as int);
        lemma_tok_shapes(s[0]);
        lemma_leaves_shapes(t1, n1);
        lemma_opt_name(a);
        lemma_leaves_shapes(b, n2);
        let head = seq![tok_tree(s[0])] + leaves(t1, n1) + nm + leaves(b, n2);
        lemma_shapes3(seq![tok_tree(s[0])], leaves(t1, n1), nm);
        lemma_green_shapes_concat(seq![tok_tree(s[0])] + leaves(t1, n1) + nm, leaves(b, n2));
        lemma_green_nodes_concat(seq![tok_tree(s[0])], leaves(t1, n1));
        lemma_green_nodes_concat(seq![tok_tree(s[0])] + leaves(t1, n1), nm);
        lemma_green_nodes_concat(seq![tok_tree(s[0])] + leaves(t1, n1) + nm, leaves(b, n2));
        assert(green_nodes(head) =~= green_nodes(nm));
        lemma_kind_raw_injective(SyntaxKind::SCOPE_DEF, SyntaxKind::NAME_REF);
        lemma_kind_raw_injective(SyntaxKind::SCOPE_DEF, SyntaxKind::PATH);
        lemma_kind_raw_injective(SyntaxKind::SCOPE_DEF, SyntaxKind::IMPORT_STMT);
        if first_kind(c) == Some(SyntaxKind::L_CURLY) {
            lemma_block_shape(c);
            if let Some((blk, d)) = p_block(c) {
                lemma_green_shapes_concat(head, blk);
                lemma_green_nodes_concat(head, blk);
                let cs = head + blk;
                assert(green_nodes(cs) =~= green_nodes(nm) + blk);
                let def = node(SyntaxKind::SCOPE_DEF, cs);
                assert(green_shape(def));
                lemma_green_single(def);
            }
        } else {
            let def = node(SyntaxKind::SCOPE_DEF, head);
            assert(green_shape(def));
            lemma_green_single(def);
        }
    }
}

proof fn lemma_expr_stmt_shape(s: Seq<Tok>)
    ensures
        p_expr_stmt(s) matches Some((els, _)) ==> green_shapes(els),
    decreases s.len(), 4int,
{
    lemma_expr_shape(s, 0);
    if let Some((ex, f)) = p_expr(s, 0) {
        let n = ws_count(f);
        let g = f.skip(n as int);
        lemma_leaves_shapes(f, n);
        lemma_opt_tok_shapes(g, SyntaxKind::SEMICOLON);
        lemma_shapes3(ex, leaves(f, n), opt_tok(g, SyntaxKind::SEMICOLON).0);
        lemma_plain_node(SyntaxKind::EXPR_STMT, ex + leaves(f, n) + opt_tok(g, SyntaxKind::SEMICOLON).0);
    }
}

proof fn lemma_expr_shape(s: Seq<Tok>, min_bp: int)
    ensures
        p_expr(s, min_bp) matches Some((els, _)) ==> green_shapes(els),
    decreases s.len(), 3int,
{
    let n = ws_count(s);
    lemma_ws_count(s);
    let r = s.skip(n as int);
    let w = leaves(s, n);
    lemma_leaves_shapes(s, n);
    match first_kind(r) {
        Some(SyntaxKind::INT) => {
            lemma_tok_shapes(r[0]);
            lemma_plain_node(SyntaxKind::LITERAL, seq![tok_tree(r[0])]);
            let acc = seq![node(SyntaxKind::LITERAL, seq![tok_tree(r[0])])];
            lemma_expr_ops_shape(acc, r.drop_first(), min_bp);
            if let Some((els, _)) = p_expr_ops(acc, r.drop_first(), min_bp) {
                lemma_green_shapes_concat(w, els);
            }
        },
        Some(SyntaxKind::IDENT) => {
            lemma_name_node(r[0]);
            let acc = seq![node(SyntaxKind::NAME_REF, seq![tok_tree(r[0])])];
            lemma_expr_ops_shape(acc, r.drop_first(), min_bp);
            if let Some((els, _)) = p_expr_ops(acc, r.drop_first(), min_bp) {
                lemma_green_shapes_concat(w, els);
            }
        },
        Some(SyntaxKind::L_CURLY) => {
            lemma_block_shape(r);
            if let Some((blk, t)) = p_block(r) {
                if t.len() < r.len() {
                    lemma_expr_ops_shape(blk, t, min_bp);
                    if let Some((els, _)) = p_expr_ops(blk, t, min_bp) {
                        lemma_green_shapes_concat(w, els);
                    }
                }
            }
        },
        _ => {},
    }
}

proof fn lemma_expr_ops_shape(acc: Seq<GreenTree>, s: Seq<Tok>, min_bp: int)
    requires
        green_shapes(acc),
    ensures
        p_expr_ops(acc, s, min_bp) matches Some((els, _)) ==> green_shapes(els),
    decreases s.len(), 1int,
{
    let n = ws_count(s);
    lemma_ws_count(s);
    let r = s.skip(n as int);
    lemma_leaves_shapes(s, n);
    let acc2 = acc + leaves(s, n);
    lemma_green_shapes_concat(acc, leaves(s, n));
    match crate::grammar::binding_power(first_kind(r)) {
        None => {},
        Some((l_bp, r_bp)) => {
            if l_bp >= min_bp {
                lemma_expr_shape(r.drop_first(), r_bp);
                if let Some((rhs, t)) = p_expr(r.drop_first(), r_bp) {
                    if t.len() < s.len() {
                        lemma_tok_shapes(r[0]);
                        lemma_shapes3(acc2, seq![tok_tree(r[0])], rhs);
                        lemma_plain_node(SyntaxKind::BINARY_EXPR, acc2 + seq![tok_tree(r[0])] + rhs);
                        lemma_expr_ops_shape(
                            seq![node(SyntaxKind::BINARY_EXPR, acc2 + seq![tok_tree(r[0])] + rhs)],
                            t,
                            min_bp,
                        );
                    }
                }
            }
        },
    }
}

proof fn lemma_block_shape(s: Seq<Tok>)
    ensures
        p_block(s) matches Some((els, _)) ==> green_shapes(els) && els.len() == 1 && is_kind(
            els[0],
            SyntaxKind::BLOCK_EXPR,
        ) && green_nodes(els) == els,
    decreases s.len(), 2int,
{
    if s.len() > 0 {
        lemma_block_items_shape(s.drop_first());
        if let Some((items, t)) = p_block_items(s.drop_first()) {
            lemma_tok_shapes(s[0]);
            lemma_green_shapes_concat(seq![tok_tree(s[0])], items);
            lemma_plain_node(SyntaxKind::BLOCK_EXPR, seq![tok_tree(s[0])] + items);
        }
    }
}

proof fn lemma_block_items_shape(s: Seq<Tok>)
    ensures
        p_block_items(s) matches Some((els, _)) ==> green_shapes(els),
    decreases s.len(), 6int,
{
    let n = ws_count(s);
    lemma_ws_count(s);
    let r = s.skip(n as int);
    let w = leaves(s, n);
    lemma_leaves_shapes(s, n);
    match first_kind(r) {
        Some(SyntaxKind::R_CURLY) => {
            lemma_tok_shapes(r[0]);
            lemma_green_shapes_concat(w, seq![tok_tree(r[0])]);
        },
        None => {},
        Some(_) => {
            lemma_stmt_shape(r);
            if let Some((els, t)) = p_stmt(r) {
                if t.len() < r.len() {
                    lemma_block_items_shape(t);
                    if let Some((more, _)) = p_block_items(t) {
                        lemma_shapes3(w, els, more);
                    }
                }
            }
        },
    }
}

proof fn lemma_items_shape(s: Seq<Tok>)
    ensures
        p_items(s) matches Some((els, _)) ==> green_shapes(els),
    decreases s.len(),
{
    if s.len() == 0 {
        lemma_all_tokens(Seq::<GreenTree>::empty());
    } else {
        lemma_stmt_shape(s);
        if let Some((els, t)) = p_stmt(s) {
            if t.len() < s.len() {
                lemma_items_shape(t);
                if let Some((more, _)) = p_items(t) {
                    lemma_green_shapes_concat(els, more);
                }
            }
        }
    }
}

/// A tree that the parser builds has the parser's shape (see `shape_ok`).
pub proof fn lemma_parsed_tree_shape(toks: Seq<Tok>, root: SyntaxNode)
    requires
        p_source_file(toks) is Some,
        node_tree(root) == p_source_file(toks)->0,
    ensures
        shape_ok(root),
        root.kind == SyntaxKind::SOURCE_FILE,
{
    lemma_items_shape(toks);
    let items = (p_items(toks)->0).0;
    lemma_plain_node(SyntaxKind::SOURCE_FILE, items);
    lemma_shape_from_green(root);
    lemma_kind_raw_injective(root.kind, SyntaxKind::SOURCE_FILE);
}

/// What the scope graph of a parsed file holds: one declaration or reference
/// per `NAME_REF` node of the tree, one import per `IMPORT_STMT` node, and,
/// besides the root scope, one scope per `scope` definition and per block
/// that is not the body of a `scope` definition. `parse` gives such a tree
/// (its `root` has `node_tree(root) == p_source_file(lex(code))->0`), and
/// `ScopeGraph::build` counts its model.
pub proof fn law_build_counts(toks: Seq<Tok>, root: SyntaxNode)
    requires
        p_source_file(toks) is Some,
        node_tree(root) == p_source_file(toks)->0,
    ensures
        build_model(SourceFile(root)).declarations.len() + build_model(SourceFile(root)).references.len()
            == tree_names(root),
        build_model(SourceFile(root)).imports.len() == tree_imports(root),
        build_model(SourceFile(root)).scopes.len() == 1 + tree_scopes(root, SyntaxKind::SOURCE_FILE),
{
    lemma_parsed_tree_shape(toks, root);
    lemma_build_counts(SourceFile(root));
}

} // verus!
