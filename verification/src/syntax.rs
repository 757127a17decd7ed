//! The syntax tree that the library reads: nodes and tokens with their kinds,
//! their byte offsets in the input and, for tokens, their text. It is lowered
//! from the green tree that `rowan` built.

use vstd::prelude::*;

use std::rc::Rc;

use rowan::GreenNode;

use crate::green::{
    green_children, green_kind, green_node_children, green_node_kind, green_node_tree,
    green_seq_text, green_text, kinds_ok, lemma_green_seq_text_concat, lemma_green_seq_text_single,
    lemma_utf8_len_concat, utf8_len, GreenChild, GreenTree,
};
use crate::syntax_kind::{kind_raw, SyntaxKind};

verus! {

/// A token of the syntax tree.
#[derive(Debug)]
pub struct SyntaxToken {
    pub kind: SyntaxKind,
    /// The byte offset of the token in the input.
    pub offset: usize,
    pub text: Rc<Vec<char>>,
}

/// A node of the syntax tree; its children are shared between its copies.
#[derive(Debug)]
pub struct SyntaxNode {
    pub kind: SyntaxKind,
    /// The byte offset of the node in the input.
    pub offset: usize,
    pub children: Rc<Vec<SyntaxElement>>,
}

/// `Rc::clone`: another pointer to the same value.
#[verifier::external_body]
fn rc_share<T>(rc: &Rc<T>) -> (r: Rc<T>)
    ensures
        r == *rc,
{
    Rc::clone(rc)
}

impl Clone for SyntaxToken {
    /// A copy that shares the text.
    fn clone(&self) -> (r: Self)
        ensures
            r == *self,
    {
        SyntaxToken { kind: self.kind, offset: self.offset, text: rc_share(&self.text) }
    }
}

impl Clone for SyntaxNode {
    /// A copy that shares the children.
    fn clone(&self) -> (r: Self)
        ensures
            r == *self,
    {
        SyntaxNode { kind: self.kind, offset: self.offset, children: rc_share(&self.children) }
    }
}

impl Clone for SyntaxElement {
    fn clone(&self) -> (r: Self)
        ensures
            r == *self,
    {
        match self {
            SyntaxElement::Node(n) => SyntaxElement::Node(n.clone()),
            SyntaxElement::Token(t) => SyntaxElement::Token(t.clone()),
        }
    }
}

/// A child of a node: a node or a token.
#[derive(Debug)]
pub enum SyntaxElement {
    Node(SyntaxNode),
    Token(SyntaxToken),
}

/// A token as a green tree.
pub open spec fn token_tree(t: SyntaxToken) -> GreenTree {
    GreenTree::Token(kind_raw(t.kind), t.text@)
}

/// A node as a green tree: kinds and texts, without offsets.
pub open spec fn node_tree(n: SyntaxNode) -> GreenTree
    decreases n,
{
    GreenTree::Node(kind_raw(n.kind), elements_trees(n.children@))
}

/// Children as green trees.
pub open spec fn elements_trees(es: Seq<SyntaxElement>) -> Seq<GreenTree>
    decreases es,
{
    if es.len() == 0 {
        seq![]
    } else {
        seq![element_tree(es[0])] + elements_trees(es.subrange(1, es.len() as int))
    }
}

/// The children of a node as green trees.
pub open spec fn children_trees(n: SyntaxNode) -> Seq<GreenTree> {
    elements_trees(n.children@)
}

/// Children as green trees, one by one.
pub proof fn lemma_elements_trees(es: Seq<SyntaxElement>)
    ensures
        elements_trees(es).len() == es.len(),
        forall|i: int| 0 <= i < es.len() ==> #[trigger] elements_trees(es)[i] == element_tree(es[i]),
    decreases es.len(),
{
    if es.len() > 0 {
        let rest = es.subrange(1, es.len() as int);
        lemma_elements_trees(rest);
        assert forall|i: int| 0 <= i < es.len() implies #[trigger] elements_trees(es)[i]
            == element_tree(es[i]) by {
            if i > 0 {
                assert(elements_trees(es)[i] == elements_trees(rest)[i - 1]);
                assert(rest[i - 1] == es[i]);
            }
        }
    }
}

/// The number of nodes and tokens in a node, itself included.
pub open spec fn node_size(n: SyntaxNode) -> nat
    decreases n,
{
    1 + elements_size(n.children@)
}

/// The number of nodes and tokens under a sequence of children.
pub open spec fn elements_size(es: Seq<SyntaxElement>) -> nat
    decreases es,
{
    if es.len() == 0 {
        0
    } else {
        element_size(es[0]) + elements_size(es.subrange(1, es.len() as int))
    }
}

/// The number of nodes and tokens in a child, itself included.
pub open spec fn element_size(e: SyntaxElement) -> nat
    decreases e,
{
    match e {
        SyntaxElement::Node(n) => node_size(n),
        SyntaxElement::Token(_) => 1,
    }
}

pub proof fn lemma_elements_size_concat(a: Seq<SyntaxElement>, b: Seq<SyntaxElement>)
    ensures
        elements_size(a + b) == elements_size(a) + elements_size(b),
    decreases a.len(),
{
    if a.len() == 0 {
        assert(a + b =~= b);
    } else {
        assert((a + b).subrange(1, (a + b).len() as int) =~= a.subrange(1, a.len() as int) + b);
        assert((a + b)[0] == a[0]);
        lemma_elements_size_concat(a.subrange(1, a.len() as int), b);
    }
}

/// A child as a green tree.
pub open spec fn element_tree(e: SyntaxElement) -> GreenTree
    decreases e,
{
    match e {
        SyntaxElement::Node(n) => node_tree(n),
        SyntaxElement::Token(t) => token_tree(t),
    }
}

/// The text under a node.
pub open spec fn node_text(n: SyntaxNode) -> Seq<char> {
    green_text(node_tree(n))
}

/// Whether the offsets under the node are those of a node that starts at byte
/// `start`: each child starts where the text of the children before it ends.
pub open spec fn node_offsets_ok(n: SyntaxNode, start: int) -> bool
    decreases n,
{
    &&& n.offset == start
    &&& forall|i: int|
        0 <= i < n.children@.len() ==> element_offsets_ok(
            #[trigger] n.children@[i],
            start + utf8_len(green_seq_text(children_trees(n).take(i))),
        )
}

/// Whether the offsets under a child are those of a child that starts at
/// byte `start`.
pub open spec fn element_offsets_ok(e: SyntaxElement, start: int) -> bool
    decreases e,
{
    match e {
        SyntaxElement::Node(n) => node_offsets_ok(n, start),
        SyntaxElement::Token(t) => t.offset == start,
    }
}

/// A copy of a text.
pub fn copy_text(v: &Vec<char>) -> (r: Vec<char>)
    ensures
        r@ == v@,
{
    let mut r: Vec<char> = Vec::new();
    let mut i: usize = 0;
    while i < v.len()
        invariant
            i <= v@.len(),
            r@ == v@.take(i as int),
        decreases v@.len() - i,
    {
        r.push(v[i]);
        i = i + 1;
        proof {
            assert(r@ =~= v@.take(i as int));
        }
    }
    proof {
        assert(v@.take(i as int) =~= v@);
    }
    r
}

/// The number of bytes in the UTF-8 encoding of `c` (as `char::len_utf8`).
pub fn char_utf8_len(c: char) -> (n: usize)
    ensures
        n == vstd::utf8::encode_scalar(c as u32).len(),
{
    let v = c as u32;
    if v <= 0x7F {
        1
    } else if v <= 0x7FF {
        2
    } else if v <= 0xFFFF {
        proof {
            vstd::utf8::char_is_scalar(c);
        }
        3
    } else {
        4
    }
}

/// The number of bytes in the UTF-8 encoding of `text`.
pub fn text_utf8_len(text: &Vec<char>) -> (n: usize)
    requires
        utf8_len(text@) <= usize::MAX,
    ensures
        n == utf8_len(text@),
{
    let mut n: usize = 0;
    let mut i: usize = 0;
    proof {
        assert(text@.take(0) =~= Seq::<char>::empty());
    }
    while i < text.len()
        invariant
            i <= text@.len(),
            n == utf8_len(text@.take(i as int)),
            utf8_len(text@) <= usize::MAX,
        decreases text@.len() - i,
    {
        let ghost s = text@;
        proof {
            assert(s.take(i + 1) =~= s.take(i as int) + seq![s[i as int]]);
            lemma_utf8_len_concat(s.take(i as int), seq![s[i as int]]);
            assert(vstd::utf8::encode_utf8(seq![s[i as int]]) =~= vstd::utf8::encode_scalar(
                s[i as int] as u32,
            ) + vstd::utf8::encode_utf8(seq![s[i as int]].drop_first()));
            assert(seq![s[i as int]].drop_first() =~= Seq::<char>::empty());
            assert(vstd::utf8::encode_utf8(Seq::<char>::empty()) =~= Seq::<u8>::empty());
            assert(s =~= s.take(i + 1) + s.skip(i + 1));
            lemma_utf8_len_concat(s.take(i + 1), s.skip(i + 1));
        }
        let w = char_utf8_len(text[i]);
        n = n + w;
        i = i + 1;
    }
    proof {
        assert(text@.take(i as int) =~= text@);
    }
    n
}

/// Lowers a green node that starts at byte `offset` into a syntax node, and
/// gives the byte offset where it ends.
pub fn lower(g: &GreenNode, offset: usize) -> (r: (SyntaxNode, usize))
    requires
        kinds_ok(green_node_tree(*g)),
        offset + utf8_len(green_text(green_node_tree(*g))) <= u32::MAX,
    ensures
        node_tree(r.0) == green_node_tree(*g),
        node_offsets_ok(r.0, offset as int),
        r.1 == offset + utf8_len(green_text(green_node_tree(*g))),
    decreases green_node_tree(*g),
{
    let ghost cs = green_node_children(*g);
    let raw = green_kind(g);
    let kind = SyntaxKind::from_raw(raw);
    let kids = green_children(g);
    let mut children: Vec<SyntaxElement> = Vec::new();
    let mut off = offset;
    let mut i: usize = 0;
    proof {
        assert(cs.take(0) =~= Seq::<GreenTree>::empty());
        assert(green_seq_text(Seq::<GreenTree>::empty()) =~= Seq::<char>::empty());
        assert(vstd::utf8::encode_utf8(Seq::<char>::empty()) =~= Seq::<u8>::empty());
        assert(cs =~= cs.take(0) + cs.skip(0));
    }
    while i < kids.len()
        invariant
            kids@.len() == cs.len(),
            forall|j: int|
                0 <= j < kids@.len() ==> match #[trigger] kids@[j] {
                    GreenChild::Node(c) => cs[j] == green_node_tree(c),
                    GreenChild::Token(k, text) => cs[j] == GreenTree::Token(k, text@),
                },
            cs == green_node_children(*g),
            kinds_ok(green_node_tree(*g)),
            offset + utf8_len(green_text(green_node_tree(*g))) <= u32::MAX,
            i <= cs.len(),
            children@.len() == i,
            forall|j: int| 0 <= j < i ==> element_tree(#[trigger] children@[j]) == cs[j],
            forall|j: int|
                0 <= j < i ==> element_offsets_ok(
                    #[trigger] children@[j],
                    offset + utf8_len(green_seq_text(cs.take(j))),
                ),
            off == offset + utf8_len(green_seq_text(cs.take(i as int))),
        decreases cs.len() - i,
    {
        let ghost t = cs[i as int];
        proof {
            assert(cs.take(i + 1) =~= cs.take(i as int) + seq![t]);
            lemma_green_seq_text_concat(cs.take(i as int), seq![t]);
            lemma_green_seq_text_single(t);
            assert(cs =~= cs.take(i + 1) + cs.skip(i + 1));
            lemma_green_seq_text_concat(cs.take(i + 1), cs.skip(i + 1));
            lemma_utf8_len_concat(green_seq_text(cs.take(i + 1)), green_seq_text(cs.skip(i + 1)));
            lemma_utf8_len_concat(green_seq_text(cs.take(i as int)), green_text(t));
            assert(kinds_ok(t));
        }
        match &kids[i] {
            GreenChild::Node(c) => {
                let (child, end) = lower(c, off);
                children.push(SyntaxElement::Node(child));
                off = end;
            },
            GreenChild::Token(k, text) => {
                let len = text_utf8_len(text);
                let tok = SyntaxToken {
                    kind: SyntaxKind::from_raw(*k),
                    offset: off,
                    text: Rc::new(copy_text(text)),
                };
                proof {
                    assert(tok.text@ =~= text@);
                }
                children.push(SyntaxElement::Token(tok));
                off = off + len;
            },
        }
        i = i + 1;
    }
    let node = SyntaxNode { kind, offset, children: Rc::new(children) };
    proof {
        lemma_elements_trees(node.children@);
        assert(children_trees(node) =~= cs);
        assert(cs.take(cs.len() as int) =~= cs);
        assert(node_tree(node) == green_node_tree(*g));
    }
    (node, off)
}

/// The number of nodes and tokens in `n`, itself included, or `cap` where
/// there are at least `cap` of them.
pub fn node_size_capped(n: &SyntaxNode, cap: u64) -> (r: u64)
    ensures
        r == if node_size(*n) < cap { node_size(*n) } else { cap as nat },
    decreases *n,
{
    let ghost es = n.children@;
    if cap <= 1 {
        return cap;
    }
    let mut total: u64 = 1;
    let mut i: usize = 0;
    proof {
        assert(es.take(0) =~= Seq::<SyntaxElement>::empty());
    }
    while i < n.children.len()
        invariant
            es == n.children@,
            i <= es.len(),
            total == 1 + elements_size(es.take(i as int)),
            total < cap,
            cap > 0,
        decreases es.len() - i,
    {
        proof {
            assert(es.take(i + 1) =~= es.take(i as int) + seq![es[i as int]]);
            lemma_elements_size_concat(es.take(i as int), seq![es[i as int]]);
            assert(seq![es[i as int]].subrange(1, 1) =~= Seq::<SyntaxElement>::empty());
            assert(es =~= es.take(i + 1) + es.skip(i + 1));
            lemma_elements_size_concat(es.take(i + 1), es.skip(i + 1));
        }
        let w: u64 = match &n.children[i] {
            SyntaxElement::Node(c) => {
                assert(es[i as int] == SyntaxElement::Node(*c));
                node_size_capped(c, cap - total)
            },
            SyntaxElement::Token(t) => {
                assert(es[i as int] == SyntaxElement::Token(*t));
                1
            },
        };
        proof {
            assert(w == if element_size(es[i as int]) < cap - total {
                element_size(es[i as int])
            } else {
                (cap - total) as nat
            });
            assert(elements_size(Seq::<SyntaxElement>::empty()) == 0);
            assert(seq![es[i as int]].subrange(1, 1) =~= Seq::<SyntaxElement>::empty());
            assert(elements_size(seq![es[i as int]]) == element_size(es[i as int]));
        }
        if w >= cap - total {
            return cap;
        }
        total = total + w;
        i = i + 1;
    }
    proof {
        assert(es.take(i as int) =~= es);
    }
    total
}

impl SyntaxNode {
    /// The kind of the node.
    pub fn kind(&self) -> (k: SyntaxKind)
        ensures
            k == self.kind,
    {
        self.kind
    }

    /// The text under the node: the texts of its tokens in order.
    pub fn text(&self) -> (t: Vec<char>)
        ensures
            t@ == node_text(*self),
        decreases *self,
    {
        let ghost cs = children_trees(*self);
        proof {
            lemma_elements_trees(self.children@);
        }
        let mut out: Vec<char> = Vec::new();
        let mut i: usize = 0;
        proof {
            assert(cs.take(0) =~= Seq::<GreenTree>::empty());
            assert(green_seq_text(Seq::<GreenTree>::empty()) =~= Seq::<char>::empty());
        }
        while i < self.children.len()
            invariant
                cs == children_trees(*self),
                cs.len() == self.children@.len(),
                forall|j: int| 0 <= j < cs.len() ==> #[trigger] cs[j] == element_tree(self.children@[j]),
                i <= self.children@.len(),
                out@ == green_seq_text(cs.take(i as int)),
            decreases self.children@.len() - i,
        {
            let ghost t = cs[i as int];
            proof {
                assert(cs.take(i + 1) =~= cs.take(i as int) + seq![t]);
                lemma_green_seq_text_concat(cs.take(i as int), seq![t]);
                lemma_green_seq_text_single(t);
            }
            let part = match &self.children[i] {
                SyntaxElement::Node(n) => n.text(),
                SyntaxElement::Token(tok) => copy_text(&tok.text),
            };
            let ghost before = out@;
            let mut j: usize = 0;
            while j < part.len()
                invariant
                    j <= part@.len(),
                    out@ == before + part@.take(j as int),
                decreases part@.len() - j,
            {
                out.push(part[j]);
                j = j + 1;
                proof {
                    assert(out@ =~= before + part@.take(j as int));
                }
            }
            proof {
                assert(part@.take(j as int) =~= part@);
                assert(part@ == green_text(t));
            }
            i = i + 1;
        }
        proof {
            assert(cs.take(i as int) =~= cs);
        }
        out
    }
}

} // verus!
