//! Typed views over the nodes of the syntax tree.

use vstd::prelude::*;

use crate::syntax::{elements_size, element_size, node_size, SyntaxElement, SyntaxNode, SyntaxToken};
use crate::syntax_kind::SyntaxKind;

verus! {

/// The child nodes of a sequence of children, in order.
pub open spec fn element_nodes(es: Seq<SyntaxElement>) -> Seq<SyntaxNode>
    decreases es.len(),
{
    if es.len() == 0 {
        seq![]
    } else {
        let head: Seq<SyntaxNode> = match es[0] {
            SyntaxElement::Node(n) => seq![n],
            SyntaxElement::Token(_) => seq![],
        };
        head + element_nodes(es.drop_first())
    }
}

/// The child nodes of a node, in order (tokens left out).
pub open spec fn child_nodes(n: SyntaxNode) -> Seq<SyntaxNode> {
    element_nodes(n.children@)
}

/// The index of the first node in `ns` whose kind is `k1` or `k2`.
pub open spec fn first_index_of(ns: Seq<SyntaxNode>, k1: SyntaxKind, k2: SyntaxKind) -> Option<int>
    decreases ns.len(),
{
    if ns.len() == 0 {
        None
    } else if ns[0].kind == k1 || ns[0].kind == k2 {
        Some(0)
    } else {
        match first_index_of(ns.drop_first(), k1, k2) {
            Some(i) => Some(i + 1),
            None => None,
        }
    }
}

/// The first child node of `n` whose kind is `k1` or `k2`.
pub open spec fn first_child_of(n: SyntaxNode, k1: SyntaxKind, k2: SyntaxKind) -> Option<SyntaxNode> {
    match first_index_of(child_nodes(n), k1, k2) {
        Some(i) => Some(child_nodes(n)[i]),
        None => None,
    }
}

/// The identifier tokens under a sequence of children, in the order of the text.
pub open spec fn elements_idents(es: Seq<SyntaxElement>) -> Seq<SyntaxToken>
    decreases es,
{
    if es.len() == 0 {
        seq![]
    } else {
        element_idents(es[0]) + elements_idents(es.subrange(1, es.len() as int))
    }
}

/// The identifier tokens under a child, in the order of the text.
pub open spec fn element_idents(e: SyntaxElement) -> Seq<SyntaxToken>
    decreases e,
{
    match e {
        SyntaxElement::Node(n) => elements_idents(n.children@),
        SyntaxElement::Token(t) => if t.kind == SyntaxKind::IDENT {
            seq![t]
        } else {
            seq![]
        },
    }
}

/// The identifier tokens under a node, in the order of the text.
pub open spec fn ident_tokens(n: SyntaxNode) -> Seq<SyntaxToken> {
    elements_idents(n.children@)
}

pub proof fn lemma_element_nodes_concat(a: Seq<SyntaxElement>, b: Seq<SyntaxElement>)
    ensures
        element_nodes(a + b) == element_nodes(a) + element_nodes(b),
    decreases a.len(),
{
    if a.len() == 0 {
        assert(a + b =~= b);
        assert(element_nodes(a) + element_nodes(b) =~= element_nodes(b));
    } else {
        assert((a + b).drop_first() =~= a.drop_first() + b);
        assert((a + b)[0] == a[0]);
        lemma_element_nodes_concat(a.drop_first(), b);
        let head: Seq<SyntaxNode> = match a[0] {
            SyntaxElement::Node(n) => seq![n],
            SyntaxElement::Token(_) => seq![],
        };
        assert(head + (element_nodes(a.drop_first()) + element_nodes(b)) =~= (head + element_nodes(
            a.drop_first(),
        )) + element_nodes(b));
    }
}

pub proof fn lemma_elements_idents_concat(a: Seq<SyntaxElement>, b: Seq<SyntaxElement>)
    ensures
        elements_idents(a + b) == elements_idents(a) + elements_idents(b),
    decreases a.len(),
{
    if a.len() == 0 {
        assert(a + b =~= b);
        assert(elements_idents(a) + elements_idents(b) =~= elements_idents(b));
    } else {
        let ab = a + b;
        assert(ab.subrange(1, ab.len() as int) =~= a.subrange(1, a.len() as int) + b);
        assert(ab[0] == a[0]);
        lemma_elements_idents_concat(a.subrange(1, a.len() as int), b);
        assert(element_idents(a[0]) + (elements_idents(a.subrange(1, a.len() as int))
            + elements_idents(b)) =~= (element_idents(a[0]) + elements_idents(
            a.subrange(1, a.len() as int),
        )) + elements_idents(b));
    }
}

/// The number of nodes and tokens in a sequence of nodes.
pub open spec fn nodes_size(ns: Seq<SyntaxNode>) -> nat
    decreases ns.len(),
{
    if ns.len() == 0 {
        0
    } else {
        node_size(ns[0]) + nodes_size(ns.drop_first())
    }
}

pub proof fn lemma_nodes_size_concat(a: Seq<SyntaxNode>, b: Seq<SyntaxNode>)
    ensures
        nodes_size(a + b) == nodes_size(a) + nodes_size(b),
    decreases a.len(),
{
    if a.len() == 0 {
        assert(a + b =~= b);
    } else {
        assert((a + b).drop_first() =~= a.drop_first() + b);
        assert((a + b)[0] == a[0]);
        lemma_nodes_size_concat(a.drop_first(), b);
    }
}

/// A node of a sequence is no larger than the sequence.
pub proof fn lemma_nodes_size_index(ns: Seq<SyntaxNode>, i: int)
    requires
        0 <= i < ns.len(),
    ensures
        node_size(ns[i]) <= nodes_size(ns),
    decreases ns.len(),
{
    if i > 0 {
        lemma_nodes_size_index(ns.drop_first(), i - 1);
        assert(ns.drop_first()[i - 1] == ns[i]);
    }
}

/// The child nodes are no larger than the children.
pub proof fn lemma_element_nodes_size(es: Seq<SyntaxElement>)
    ensures
        nodes_size(element_nodes(es)) <= elements_size(es),
    decreases es.len(),
{
    if es.len() > 0 {
        assert(es.subrange(1, es.len() as int) =~= es.drop_first());
        lemma_element_nodes_size(es.drop_first());
        let head: Seq<SyntaxNode> = match es[0] {
            SyntaxElement::Node(n) => seq![n],
            SyntaxElement::Token(_) => seq![],
        };
        lemma_nodes_size_concat(head, element_nodes(es.drop_first()));
        match es[0] {
            SyntaxElement::Node(n) => {
                assert(head.drop_first() =~= Seq::<SyntaxNode>::empty());
                assert(nodes_size(head) == node_size(n) + nodes_size(Seq::<SyntaxNode>::empty()));
                assert(element_size(es[0]) == node_size(n));
            },
            SyntaxElement::Token(_) => {
                assert(nodes_size(head) == 0);
            },
        }
        assert(elements_size(es) == element_size(es[0]) + elements_size(es.drop_first()));
    }
}

/// The child nodes of a node are smaller than the node, together and one by one.
pub proof fn lemma_child_nodes_size(n: SyntaxNode)
    ensures
        nodes_size(child_nodes(n)) < node_size(n),
        forall|i: int| 0 <= i < child_nodes(n).len() ==> node_size(#[trigger] child_nodes(n)[i]) < node_size(n),
{
    lemma_element_nodes_size(n.children@);
    assert forall|i: int| 0 <= i < child_nodes(n).len() implies node_size(#[trigger] child_nodes(n)[i])
        < node_size(n) by {
        lemma_nodes_size_index(child_nodes(n), i);
    }
}

/// Leaving out one node does not make a sequence larger.
pub proof fn lemma_without_size(ns: Seq<SyntaxNode>, k: Option<int>)
    ensures
        nodes_size(without(ns, k)) <= nodes_size(ns),
{
    if let Some(i) = k {
        if 0 <= i < ns.len() {
            assert(ns =~= ns.take(i) + seq![ns[i]] + ns.skip(i + 1));
            assert(ns.remove(i) =~= ns.take(i) + ns.skip(i + 1));
            lemma_nodes_size_concat(ns.take(i) + seq![ns[i]], ns.skip(i + 1));
            lemma_nodes_size_concat(ns.take(i), seq![ns[i]]);
            lemma_nodes_size_concat(ns.take(i), ns.skip(i + 1));
        }
    }
}

/// The first child of some kind is smaller than the node.
pub proof fn lemma_first_child_size(n: SyntaxNode, k1: SyntaxKind, k2: SyntaxKind)
    ensures
        first_child_of(n, k1, k2) matches Some(c) ==> node_size(c) < node_size(n) && (c.kind == k1
            || c.kind == k2),
{
    lemma_child_nodes_size(n);
    lemma_first_index_of(child_nodes(n), k1, k2);
}

/// The child nodes of `n`, in order.
pub fn children_nodes(n: &SyntaxNode) -> (r: Vec<SyntaxNode>)
    ensures
        r@ == child_nodes(*n),
{
    let mut r: Vec<SyntaxNode> = Vec::new();
    let mut i: usize = 0;
    proof {
        assert(n.children@.take(0) =~= Seq::<SyntaxElement>::empty());
        assert(element_nodes(Seq::<SyntaxElement>::empty()) =~= Seq::<SyntaxNode>::empty());
    }
    while i < n.children.len()
        invariant
            i <= n.children@.len(),
            r@ == element_nodes(n.children@.take(i as int)),
        decreases n.children@.len() - i,
    {
        let ghost es = n.children@;
        proof {
            assert(es.take(i + 1) =~= es.take(i as int) + seq![es[i as int]]);
            lemma_element_nodes_concat(es.take(i as int), seq![es[i as int]]);
            assert(seq![es[i as int]].drop_first() =~= Seq::<SyntaxElement>::empty());
            assert(seq![es[i as int]][0] == es[i as int]);
            assert(element_nodes(Seq::<SyntaxElement>::empty()) =~= Seq::<SyntaxNode>::empty());
            let head: Seq<SyntaxNode> = match es[i as int] {
                SyntaxElement::Node(c) => seq![c],
                SyntaxElement::Token(_) => seq![],
            };
            assert(element_nodes(seq![es[i as int]]) == head + element_nodes(Seq::<SyntaxElement>::empty()));
            assert(head + Seq::<SyntaxNode>::empty() =~= head);
        }
        match &n.children[i] {
            SyntaxElement::Node(c) => {
                r.push(c.clone());
                proof {
                    assert(element_nodes(seq![es[i as int]]) =~= seq![*c]);
                }
            },
            SyntaxElement::Token(_) => {
                proof {
                    assert(element_nodes(seq![es[i as int]]) =~= Seq::<SyntaxNode>::empty());
                }
            },
        }
        proof {
            assert(r@ =~= element_nodes(es.take(i + 1)));
        }
        i = i + 1;
    }
    proof {
        assert(n.children@.take(i as int) =~= n.children@);
    }
    r
}

/// The first child node of `n` whose kind is `k1` or `k2`.
pub fn find_child(n: &SyntaxNode, k1: SyntaxKind, k2: SyntaxKind) -> (r: Option<SyntaxNode>)
    ensures
        r == first_child_of(*n, k1, k2),
{
    let ns = children_nodes(n);
    let mut i: usize = 0;
    proof {
        assert(ns@.skip(0) =~= ns@);
    }
    while i < ns.len()
        invariant
            i <= ns@.len(),
            ns@ == child_nodes(*n),
            forall|j: int| 0 <= j < i ==> ns@[j].kind != k1 && ns@[j].kind != k2,
            first_index_of(ns@, k1, k2) == match first_index_of(ns@.skip(i as int), k1, k2) {
                Some(j) => Some(j + i),
                None => None,
            },
        decreases ns@.len() - i,
    {
        let ghost rest = ns@.skip(i as int);
        proof {
            assert(rest[0] == ns@[i as int]);
            assert(rest.drop_first() =~= ns@.skip(i + 1));
        }
        if ns[i].kind == k1 || ns[i].kind == k2 {
            return Some(ns[i].clone());
        }
        i = i + 1;
    }
    None
}

/// The identifier tokens under `n`, in the order of the text.
pub fn idents_under(n: &SyntaxNode) -> (r: Vec<SyntaxToken>)
    ensures
        r@ == ident_tokens(*n),
    decreases *n,
{
    let mut r: Vec<SyntaxToken> = Vec::new();
    let mut i: usize = 0;
    proof {
        assert(n.children@.take(0) =~= Seq::<SyntaxElement>::empty());
        assert(elements_idents(Seq::<SyntaxElement>::empty()) =~= Seq::<SyntaxToken>::empty());
    }
    while i < n.children.len()
        invariant
            i <= n.children@.len(),
            r@ == elements_idents(n.children@.take(i as int)),
        decreases n.children@.len() - i,
    {
        let ghost es = n.children@;
        proof {
            assert(es.take(i + 1) =~= es.take(i as int) + seq![es[i as int]]);
            lemma_elements_idents_concat(es.take(i as int), seq![es[i as int]]);
            assert(seq![es[i as int]].subrange(1, 1) =~= Seq::<SyntaxElement>::empty());
            assert(seq![es[i as int]][0] == es[i as int]);
            assert(elements_idents(Seq::<SyntaxElement>::empty()) =~= Seq::<SyntaxToken>::empty());
            assert(elements_idents(seq![es[i as int]]) == element_idents(es[i as int]) + elements_idents(Seq::<SyntaxElement>::empty()));
            assert(element_idents(es[i as int]) + Seq::<SyntaxToken>::empty() =~= element_idents(es[i as int]));
        }
        match &n.children[i] {
            SyntaxElement::Node(c) => {
                let sub = idents_under(c);
                let ghost before = r@;
                let mut j: usize = 0;
                while j < sub.len()
                    invariant
                        j <= sub@.len(),
                        r@ == before + sub@.take(j as int),
                    decreases sub@.len() - j,
                {
                    r.push(sub[j].clone());
                    j = j + 1;
                    proof {
                        assert(r@ =~= before + sub@.take(j as int));
                    }
                }
                proof {
                    assert(sub@.take(j as int) =~= sub@);
                }
            },
            SyntaxElement::Token(t) => {
                if t.kind == SyntaxKind::IDENT {
                    r.push(t.clone());
                }
                proof {
                    if t.kind == SyntaxKind::IDENT {
                        assert(element_idents(es[i as int]) =~= seq![*t]);
                    } else {
                        assert(element_idents(es[i as int]) =~= Seq::<SyntaxToken>::empty());
                    }
                }
            },
        }
        proof {
            assert(r@ =~= elements_idents(es.take(i + 1)));
        }
        i = i + 1;
    }
    proof {
        assert(n.children@.take(i as int) =~= n.children@);
    }
    r
}

/// A typed view over a node of the syntax tree.
pub trait AstNode: Sized {
    /// The node under the view.
    fn syntax(&self) -> &SyntaxNode;
}

/// A `scope` definition.
#[derive(Debug)]
pub struct ScopeDef(pub SyntaxNode);

/// A block `{ ... }`.
#[derive(Debug)]
pub struct BlockExpr(pub SyntaxNode);

/// A `let` statement.
#[derive(Debug)]
pub struct LetStmt(pub SyntaxNode);

/// An `import` statement.
#[derive(Debug)]
pub struct ImportStmt(pub SyntaxNode);

/// A name: a declared name or a reference to one.
#[derive(Debug)]
pub struct NameRef(pub SyntaxNode);

/// A whole file.
#[derive(Debug)]
pub struct SourceFile(pub SyntaxNode);

/// A path `a.b.c`, or a single name.
#[derive(Debug)]
pub struct PathNode(pub SyntaxNode);

impl Clone for ScopeDef {
    /// A copy that shares the node's children.
    fn clone(&self) -> (r: Self)
        ensures
            r == *self,
    {
        ScopeDef(self.0.clone())
    }
}

impl Clone for BlockExpr {
    /// A copy that shares the node's children.
    fn clone(&self) -> (r: Self)
        ensures
            r == *self,
    {
        BlockExpr(self.0.clone())
    }
}

impl Clone for LetStmt {
    /// A copy that shares the node's children.
    fn clone(&self) -> (r: Self)
        ensures
            r == *self,
    {
        LetStmt(self.0.clone())
    }
}

impl Clone for ImportStmt {
    /// A copy that shares the node's children.
    fn clone(&self) -> (r: Self)
        ensures
            r == *self,
    {
        ImportStmt(self.0.clone())
    }
}

impl Clone for NameRef {
    /// A copy that shares the node's children.
    fn clone(&self) -> (r: Self)
        ensures
            r == *self,
    {
        NameRef(self.0.clone())
    }
}

impl Clone for SourceFile {
    /// A copy that shares the node's children.
    fn clone(&self) -> (r: Self)
        ensures
            r == *self,
    {
        SourceFile(self.0.clone())
    }
}

impl Clone for PathNode {
    /// A copy that shares the node's children.
    fn clone(&self) -> (r: Self)
        ensures
            r == *self,
    {
        PathNode(self.0.clone())
    }
}

impl AstNode for ScopeDef {
    fn syntax(&self) -> (n: &SyntaxNode)
        ensures
            *n == self.0,
    {
        &self.0
    }
}

impl AstNode for BlockExpr {
    fn syntax(&self) -> (n: &SyntaxNode)
        ensures
            *n == self.0,
    {
        &self.0
    }
}

impl AstNode for LetStmt {
    fn syntax(&self) -> (n: &SyntaxNode)
        ensures
            *n == self.0,
    {
        &self.0
    }
}

impl AstNode for ImportStmt {
    fn syntax(&self) -> (n: &SyntaxNode)
        ensures
            *n == self.0,
    {
        &self.0
    }
}

impl AstNode for NameRef {
    fn syntax(&self) -> (n: &SyntaxNode)
        ensures
            *n == self.0,
    {
        &self.0
    }
}

impl AstNode for SourceFile {
    fn syntax(&self) -> (n: &SyntaxNode)
        ensures
            *n == self.0,
    {
        &self.0
    }
}

impl AstNode for PathNode {
    fn syntax(&self) -> (n: &SyntaxNode)
        ensures
            *n == self.0,
    {
        &self.0
    }
}

impl ScopeDef {
    /// The node as a scope definition, if it is one.
    pub fn cast(node: SyntaxNode) -> (r: Option<ScopeDef>)
        ensures
            r == (if node.kind == SyntaxKind::SCOPE_DEF { Some(ScopeDef(node)) } else { None }),
    {
        if node.kind == SyntaxKind::SCOPE_DEF {
            Some(ScopeDef(node))
        } else {
            None
        }
    }

    /// The name of the scope: its first `NAME_REF` child.
    pub fn name_node(&self) -> (r: Option<NameRef>)
        ensures
            r == match first_child_of(self.0, SyntaxKind::NAME_REF, SyntaxKind::NAME_REF) {
                Some(n) => Some(NameRef(n)),
                None => None,
            },
    {
        match find_child(&self.0, SyntaxKind::NAME_REF, SyntaxKind::NAME_REF) {
            Some(n) => Some(NameRef(n)),
            None => None,
        }
    }

    /// The body of the scope: its first `BLOCK_EXPR` child.
    pub fn block(&self) -> (r: Option<BlockExpr>)
        ensures
            r == match first_child_of(self.0, SyntaxKind::BLOCK_EXPR, SyntaxKind::BLOCK_EXPR) {
                Some(n) => Some(BlockExpr(n)),
                None => None,
            },
    {
        match find_child(&self.0, SyntaxKind::BLOCK_EXPR, SyntaxKind::BLOCK_EXPR) {
            Some(n) => Some(BlockExpr(n)),
            None => None,
        }
    }
}

impl BlockExpr {
    /// The node as a block, if it is one.
    pub fn cast(node: SyntaxNode) -> (r: Option<BlockExpr>)
        ensures
            r == (if node.kind == SyntaxKind::BLOCK_EXPR { Some(BlockExpr(node)) } else { None }),
    {
        if node.kind == SyntaxKind::BLOCK_EXPR {
            Some(BlockExpr(node))
        } else {
            None
        }
    }

    /// The statements of the block: its child nodes, each as a statement.
    pub fn statements(&self) -> (r: Vec<Stmt>)
        ensures
            r@ == child_nodes(self.0).map_values(|n: SyntaxNode| stmt_of(n)),
    {
        statements_of(&self.0)
    }
}

impl LetStmt {
    /// The node as a `let` statement, if it is one.
    pub fn cast(node: SyntaxNode) -> (r: Option<LetStmt>)
        ensures
            r == (if node.kind == SyntaxKind::LET_STMT { Some(LetStmt(node)) } else { None }),
    {
        if node.kind == SyntaxKind::LET_STMT {
            Some(LetStmt(node))
        } else {
            None
        }
    }

    /// The declared name: the first `NAME_REF` child.
    pub fn name_node(&self) -> (r: Option<NameRef>)
        ensures
            r == match first_child_of(self.0, SyntaxKind::NAME_REF, SyntaxKind::NAME_REF) {
                Some(n) => Some(NameRef(n)),
                None => None,
            },
    {
        match find_child(&self.0, SyntaxKind::NAME_REF, SyntaxKind::NAME_REF) {
            Some(n) => Some(NameRef(n)),
            None => None,
        }
    }

    /// The initializer: every child node but the declared name, each as a
    /// statement.
    pub fn initializer(&self) -> (r: Vec<Stmt>)
        ensures
            r@ == initializer_nodes(self.0).map_values(|n: SyntaxNode| stmt_of(n)),
    {
        let ns = children_nodes(&self.0);
        let ghost skip = first_index_of(ns@, SyntaxKind::NAME_REF, SyntaxKind::NAME_REF);
        let mut found = false;
        let mut r: Vec<Stmt> = Vec::new();
        let mut i: usize = 0;
        proof {
            lemma_first_index_of(ns@, SyntaxKind::NAME_REF, SyntaxKind::NAME_REF);
        }
        while i < ns.len()
            invariant
                i <= ns@.len(),
                ns@ == child_nodes(self.0),
                skip == first_index_of(ns@, SyntaxKind::NAME_REF, SyntaxKind::NAME_REF),
                skip matches Some(k) ==> 0 <= k < ns@.len() && ns@[k].kind == SyntaxKind::NAME_REF
                    && forall|j: int| 0 <= j < k ==> ns@[j].kind != SyntaxKind::NAME_REF,
                skip is None ==> forall|j: int| 0 <= j < ns@.len() ==> ns@[j].kind != SyntaxKind::NAME_REF,
                found == (skip matches Some(k) && k < i),
                r@ == without(ns@.take(i as int), if found { skip } else { None }).map_values(
                    |n: SyntaxNode| stmt_of(n),
                ),
            decreases ns@.len() - i,
        {
            let ghost before = r@;
            let ghost f0 = found;
            if !found && ns[i].kind == SyntaxKind::NAME_REF {
                found = true;
                proof {
                    assert(skip == Some(i as int));
                    assert(without(ns@.take(i + 1), Some(i as int)) =~= ns@.take(i as int));
                    assert(without(ns@.take(i as int), None) =~= ns@.take(i as int));
                }
            } else {
                let st = Stmt::cast(ns[i].clone());
                r.push(st);
                proof {
                    let sk = if found { skip } else { None };
                    assert(without(ns@.take(i + 1), sk) =~= without(ns@.take(i as int), sk).push(
                        ns@[i as int],
                    ));
                    assert(r@ =~= without(ns@.take(i + 1), sk).map_values(
                        |n: SyntaxNode| stmt_of(n),
                    ));
                    if !f0 {
                        assert(skip is None || skip.unwrap() > i);
                    }
                }
            }
            i = i + 1;
        }
        proof {
            assert(ns@.take(i as int) =~= ns@);
            if !found {
                assert(skip is None);
                assert(without(ns@, None) =~= without(ns@, skip));
            }
        }
        r
    }
}

/// `ns` without the node at index `k`, if any.
pub open spec fn without(ns: Seq<SyntaxNode>, k: Option<int>) -> Seq<SyntaxNode> {
    match k {
        Some(i) => if 0 <= i < ns.len() {
            ns.remove(i)
        } else {
            ns
        },
        None => ns,
    }
}

/// The child nodes of a `let` statement but its declared name.
pub open spec fn initializer_nodes(n: SyntaxNode) -> Seq<SyntaxNode> {
    without(child_nodes(n), first_index_of(child_nodes(n), SyntaxKind::NAME_REF, SyntaxKind::NAME_REF))
}

pub proof fn lemma_first_index_of(ns: Seq<SyntaxNode>, k1: SyntaxKind, k2: SyntaxKind)
    ensures
        first_index_of(ns, k1, k2) matches Some(k) ==> 0 <= k < ns.len() && (ns[k].kind == k1
            || ns[k].kind == k2) && forall|j: int| 0 <= j < k ==> ns[j].kind != k1 && ns[j].kind != k2,
        first_index_of(ns, k1, k2) is None ==> forall|j: int|
            0 <= j < ns.len() ==> ns[j].kind != k1 && ns[j].kind != k2,
    decreases ns.len(),
{
    if ns.len() > 0 {
        lemma_first_index_of(ns.drop_first(), k1, k2);
        assert forall|j: int| 1 <= j < ns.len() implies ns[j] == ns.drop_first()[j - 1] by {}
    }
}

impl ImportStmt {
    /// The node as an `import` statement, if it is one.
    pub fn cast(node: SyntaxNode) -> (r: Option<ImportStmt>)
        ensures
            r == (if node.kind == SyntaxKind::IMPORT_STMT { Some(ImportStmt(node)) } else { None }),
    {
        if node.kind == SyntaxKind::IMPORT_STMT {
            Some(ImportStmt(node))
        } else {
            None
        }
    }

    /// The imported path: the first child node that is a path or a name.
    pub fn path(&self) -> (r: Option<PathNode>)
        ensures
            r == match first_child_of(self.0, SyntaxKind::PATH, SyntaxKind::NAME_REF) {
                Some(n) => Some(PathNode(n)),
                None => None,
            },
    {
        match find_child(&self.0, SyntaxKind::PATH, SyntaxKind::NAME_REF) {
            Some(n) => Some(PathNode(n)),
            None => None,
        }
    }
}

impl NameRef {
    /// The node as a name, if it is one.
    pub fn cast(node: SyntaxNode) -> (r: Option<NameRef>)
        ensures
            r == (if node.kind == SyntaxKind::NAME_REF { Some(NameRef(node)) } else { None }),
    {
        if node.kind == SyntaxKind::NAME_REF {
            Some(NameRef(node))
        } else {
            None
        }
    }

    /// The first identifier token under the name.
    pub fn ident_token(&self) -> (r: Option<SyntaxToken>)
        ensures
            r == (if ident_tokens(self.0).len() > 0 {
                Some(ident_tokens(self.0)[0])
            } else {
                None
            }),
    {
        let ids = idents_under(&self.0);
        if ids.len() > 0 {
            Some(ids[0].clone())
        } else {
            None
        }
    }
}

impl SourceFile {
    /// The node as a file.
    pub fn cast(node: SyntaxNode) -> (r: SourceFile)
        ensures
            r == SourceFile(node),
    {
        SourceFile(node)
    }

    /// The statements of the file: its child nodes, each as a statement.
    pub fn statements(&self) -> (r: Vec<Stmt>)
        ensures
            r@ == child_nodes(self.0).map_values(|n: SyntaxNode| stmt_of(n)),
    {
        statements_of(&self.0)
    }
}

impl PathNode {
    /// The node as a path, if it is a path or a name.
    pub fn cast(node: SyntaxNode) -> (r: Option<PathNode>)
        ensures
            r == (if node.kind == SyntaxKind::PATH || node.kind == SyntaxKind::NAME_REF {
                Some(PathNode(node))
            } else {
                None
            }),
    {
        if node.kind == SyntaxKind::PATH || node.kind == SyntaxKind::NAME_REF {
            Some(PathNode(node))
        } else {
            None
        }
    }

    /// The identifiers of the path, in order.
    pub fn segments(&self) -> (r: Vec<SyntaxToken>)
        ensures
            r@ == ident_tokens(self.0),
    {
        idents_under(&self.0)
    }

    /// The last identifier of the path.
    pub fn last_segment(&self) -> (r: Option<SyntaxToken>)
        ensures
            r == (if ident_tokens(self.0).len() > 0 {
                Some(ident_tokens(self.0).last())
            } else {
                None
            }),
    {
        let ids = idents_under(&self.0);
        if ids.len() > 0 {
            Some(ids[ids.len() - 1].clone())
        } else {
            None
        }
    }
}

/// A statement, by the kind of its node.
#[derive(Debug)]
pub enum Stmt {
    ScopeDef(ScopeDef),
    Block(BlockExpr),
    Let(LetStmt),
    Import(ImportStmt),
    NameRef(NameRef),
    Other(SyntaxNode),
}

impl Clone for Stmt {
    /// A copy that shares the node's children.
    fn clone(&self) -> (r: Self)
        ensures
            r == *self,
    {
        match self {
            Stmt::ScopeDef(n) => Stmt::ScopeDef(n.clone()),
            Stmt::Block(n) => Stmt::Block(n.clone()),
            Stmt::Let(n) => Stmt::Let(n.clone()),
            Stmt::Import(n) => Stmt::Import(n.clone()),
            Stmt::NameRef(n) => Stmt::NameRef(n.clone()),
            Stmt::Other(n) => Stmt::Other(n.clone()),
        }
    }
}

/// The statement that a node is, by its kind.
pub open spec fn stmt_of(n: SyntaxNode) -> Stmt {
    match n.kind {
        SyntaxKind::SCOPE_DEF => Stmt::ScopeDef(ScopeDef(n)),
        SyntaxKind::BLOCK_EXPR => Stmt::Block(BlockExpr(n)),
        SyntaxKind::LET_STMT => Stmt::Let(LetStmt(n)),
        SyntaxKind::IMPORT_STMT => Stmt::Import(ImportStmt(n)),
        SyntaxKind::NAME_REF => Stmt::NameRef(NameRef(n)),
        _ => Stmt::Other(n),
    }
}

/// The node under a statement.
pub open spec fn stmt_node(s: Stmt) -> SyntaxNode {
    match s {
        Stmt::ScopeDef(d) => d.0,
        Stmt::Block(b) => b.0,
        Stmt::Let(l) => l.0,
        Stmt::Import(i) => i.0,
        Stmt::NameRef(n) => n.0,
        Stmt::Other(n) => n,
    }
}

impl AstNode for Stmt {
    fn syntax(&self) -> (n: &SyntaxNode)
        ensures
            *n == stmt_node(*self),
    {
        match self {
            Stmt::ScopeDef(n) => &n.0,
            Stmt::Block(n) => &n.0,
            Stmt::Let(n) => &n.0,
            Stmt::Import(n) => &n.0,
            Stmt::NameRef(n) => &n.0,
            Stmt::Other(n) => n,
        }
    }
}

impl Stmt {
    /// The statement that a node is, by its kind.
    pub fn cast(node: SyntaxNode) -> (r: Stmt)
        ensures
            r == stmt_of(node),
    {
        match node.kind {
            SyntaxKind::SCOPE_DEF => Stmt::ScopeDef(ScopeDef(node)),
            SyntaxKind::BLOCK_EXPR => Stmt::Block(BlockExpr(node)),
            SyntaxKind::LET_STMT => Stmt::Let(LetStmt(node)),
            SyntaxKind::IMPORT_STMT => Stmt::Import(ImportStmt(node)),
            SyntaxKind::NAME_REF => Stmt::NameRef(NameRef(node)),
            _ => Stmt::Other(node),
        }
    }
}

/// The child nodes of `n`, each as a statement.
pub fn statements_of(n: &SyntaxNode) -> (r: Vec<Stmt>)
    ensures
        r@ == child_nodes(*n).map_values(|c: SyntaxNode| stmt_of(c)),
{
    let ns = children_nodes(n);
    let mut r: Vec<Stmt> = Vec::new();
    let mut i: usize = 0;
    while i < ns.len()
        invariant
            i <= ns@.len(),
            ns@ == child_nodes(*n),
            r@ == ns@.take(i as int).map_values(|c: SyntaxNode| stmt_of(c)),
        decreases ns@.len() - i,
    {
        r.push(Stmt::cast(ns[i].clone()));
        proof {
            assert(r@ =~= ns@.take(i + 1).map_values(|c: SyntaxNode| stmt_of(c)));
        }
        i = i + 1;
    }
    proof {
        assert(ns@.take(i as int) =~= ns@);
    }
    r
}

} // verus!
