//! The green tree builder of `rowan`, seen through what it holds: the children
//! built so far at the current level and the stack of nodes that are open.

use vstd::prelude::*;

use rowan::{Checkpoint, GreenNode, GreenNodeBuilder, NodeOrToken};

verus! {

/// A green tree as a plain value: a node with its raw kind and children, or a
/// token with its raw kind and text.
pub enum GreenTree {
    Node(u16, Seq<GreenTree>),
    Token(u16, Seq<char>),
}

/// The text under a green tree: the texts of its tokens in order.
pub open spec fn green_text(t: GreenTree) -> Seq<char>
    decreases t,
{
    match t {
        GreenTree::Node(_, cs) => green_seq_text(cs),
        GreenTree::Token(_, text) => text,
    }
}

/// The text under a sequence of green trees.
pub open spec fn green_seq_text(ts: Seq<GreenTree>) -> Seq<char>
    decreases ts,
{
    if ts.len() == 0 {
        seq![]
    } else {
        green_text(ts[0]) + green_seq_text(ts.subrange(1, ts.len() as int))
    }
}

/// Whether every raw kind in the tree names a `SyntaxKind`.
pub open spec fn kinds_ok(t: GreenTree) -> bool
    decreases t,
{
    match t {
        GreenTree::Node(k, cs) => k <= 24 && forall|i: int| 0 <= i < cs.len() ==> kinds_ok(#[trigger] cs[i]),
        GreenTree::Token(k, _) => k <= 24,
    }
}

/// The length of the UTF-8 encoding of `s`, in bytes.
pub open spec fn utf8_len(s: Seq<char>) -> nat {
    vstd::utf8::encode_utf8(s).len()
}

#[verifier::external_type_specification]
#[verifier::external_body]
pub struct ExGreenNodeBuilder<'cache>(GreenNodeBuilder<'cache>);

#[verifier::external_type_specification]
#[verifier::external_body]
pub struct ExCheckpoint(Checkpoint);

#[verifier::external_type_specification]
#[verifier::external_body]
pub struct ExGreenNode(GreenNode);

/// The children that the builder holds at the current level, finished nodes
/// and tokens, in order.
pub uninterp spec fn builder_children(b: GreenNodeBuilder<'static>) -> Seq<GreenTree>;

/// The nodes that the builder holds open: each with its raw kind and the index
/// in the children where its own children start.
pub uninterp spec fn builder_parents(b: GreenNodeBuilder<'static>) -> Seq<(u16, nat)>;

/// The number of children that the builder held when the checkpoint was taken.
pub uninterp spec fn checkpoint_position(c: Checkpoint) -> nat;

/// The raw kind of a finished green node.
pub uninterp spec fn green_node_kind(n: GreenNode) -> u16;

/// The children of a finished green node, in order.
pub uninterp spec fn green_node_children(n: GreenNode) -> Seq<GreenTree>;

/// The green node as a plain tree.
pub open spec fn green_node_tree(n: GreenNode) -> GreenTree {
    GreenTree::Node(green_node_kind(n), green_node_children(n))
}

/// `GreenNodeBuilder::new`: a builder with no children and no open node.
#[verifier::external_body]
pub(crate) fn builder_new() -> (b: GreenNodeBuilder<'static>)
    ensures
        builder_children(b) == Seq::<GreenTree>::empty(),
        builder_parents(b) == Seq::<(u16, nat)>::empty(),
{
    GreenNodeBuilder::new()
}

/// `GreenNodeBuilder::token`: adds a token with the given raw kind and text to
/// the current level.
#[verifier::external_body]
pub(crate) fn builder_token(b: &mut GreenNodeBuilder<'static>, kind: u16, text: &Vec<char>)
    ensures
        builder_children(*final(b)) == builder_children(*old(b)).push(
            GreenTree::Token(kind, text@),
        ),
        builder_parents(*final(b)) == builder_parents(*old(b)),
{
    let s: String = text.iter().collect();
    b.token(rowan::SyntaxKind(kind), &s)
}

/// `GreenNodeBuilder::start_node`: opens a node whose children start after the
/// children held now.
#[verifier::external_body]
pub(crate) fn builder_start_node(b: &mut GreenNodeBuilder<'static>, kind: u16)
    ensures
        builder_children(*final(b)) == builder_children(*old(b)),
        builder_parents(*final(b)) == builder_parents(*old(b)).push(
            (kind, builder_children(*old(b)).len()),
        ),
{
    b.start_node(rowan::SyntaxKind(kind))
}

/// `GreenNodeBuilder::checkpoint`: marks the number of children held now.
#[verifier::external_body]
pub(crate) fn builder_checkpoint(b: &GreenNodeBuilder<'static>) -> (c: Checkpoint)
    ensures
        checkpoint_position(c) == builder_children(*b).len(),
{
    b.checkpoint()
}

/// `GreenNodeBuilder::start_node_at`: opens a node whose children start at the
/// checkpoint, so that the children held since then become its children. The
/// builder panics unless the checkpoint lies within the children of the
/// innermost open node.
#[verifier::external_body]
pub(crate) fn builder_start_node_at(b: &mut GreenNodeBuilder<'static>, c: Checkpoint, kind: u16)
    requires
        checkpoint_position(c) <= builder_children(*old(b)).len(),
        builder_parents(*old(b)).len() > 0 ==> builder_parents(*old(b)).last().1
            <= checkpoint_position(c),
    ensures
        builder_children(*final(b)) == builder_children(*old(b)),
        builder_parents(*final(b)) == builder_parents(*old(b)).push(
            (kind, checkpoint_position(c)),
        ),
{
    b.start_node_at(c, rowan::SyntaxKind(kind))
}

/// `GreenNodeBuilder::finish_node`: closes the innermost open node; the children
/// held since its start become its children. The builder panics when no node is
/// open, and the node's text length must fit in the `u32` of `rowan::TextSize`.
#[verifier::external_body]
pub(crate) fn builder_finish_node(b: &mut GreenNodeBuilder<'static>)
    requires
        builder_parents(*old(b)).len() > 0,
        builder_parents(*old(b)).last().1 <= builder_children(*old(b)).len(),
        utf8_len(
            green_seq_text(
                builder_children(*old(b)).subrange(
                    builder_parents(*old(b)).last().1 as int,
                    builder_children(*old(b)).len() as int,
                ),
            ),
        ) <= u32::MAX,
    ensures
        ({
            let first = builder_parents(*old(b)).last().1 as int;
            let cs = builder_children(*old(b));
            builder_children(*final(b)) == cs.subrange(0, first).push(
                GreenTree::Node(
                    builder_parents(*old(b)).last().0,
                    cs.subrange(first, cs.len() as int),
                ),
            )
        }),
        builder_parents(*final(b)) == builder_parents(*old(b)).drop_last(),
{
    b.finish_node()
}

/// `GreenNodeBuilder::finish`: hands out the one node that the builder holds;
/// it panics unless it holds exactly one child and that child is a node.
#[verifier::external_body]
pub(crate) fn builder_finish(b: GreenNodeBuilder<'static>) -> (n: GreenNode)
    requires
        builder_children(b).len() == 1,
        builder_children(b)[0] is Node,
    ensures
        green_node_tree(n) == builder_children(b)[0],
{
    b.finish()
}

/// A child of a green node, as the library reads it.
pub enum GreenChild {
    Node(GreenNode),
    Token(u16, Vec<char>),
}

/// The raw kind of a green node (`GreenNodeData::kind`).
#[verifier::external_body]
pub(crate) fn green_kind(n: &GreenNode) -> (kind: u16)
    ensures
        kind == green_node_kind(*n),
{
    n.kind().0
}

/// The children of a green node, in order (`GreenNodeData::children`); a child
/// node is handed out as an owned `GreenNode`, a token by its raw kind and text.
#[verifier::external_body]
pub(crate) fn green_children(n: &GreenNode) -> (cs: Vec<GreenChild>)
    ensures
        cs@.len() == green_node_children(*n).len(),
        forall|i: int|
            0 <= i < cs@.len() ==> match #[trigger] cs@[i] {
                GreenChild::Node(c) => green_node_children(*n)[i] == green_node_tree(c),
                GreenChild::Token(k, text) => green_node_children(*n)[i] == GreenTree::Token(
                    k,
                    text@,
                ),
            },
{
    n.children().map(|c| match c {
        NodeOrToken::Node(node) => GreenChild::Node(node.to_owned()),
        NodeOrToken::Token(token) => GreenChild::Token(token.kind().0, token.text().chars().collect()),
    }).collect()
}

/// The text under trees put side by side is their texts put side by side.
pub proof fn lemma_green_seq_text_concat(a: Seq<GreenTree>, b: Seq<GreenTree>)
    ensures
        green_seq_text(a + b) == green_seq_text(a) + green_seq_text(b),
    decreases a.len(),
{
    if a.len() == 0 {
        assert(a + b =~= b);
        assert(green_seq_text(a) =~= seq![]);
        assert(seq![] + green_seq_text(b) =~= green_seq_text(b));
    } else {
        let ab = a + b;
        assert(ab[0] == a[0]);
        assert(ab.subrange(1, ab.len() as int) =~= a.subrange(1, a.len() as int) + b);
        lemma_green_seq_text_concat(a.subrange(1, a.len() as int), b);
        assert(green_text(a[0]) + (green_seq_text(a.subrange(1, a.len() as int)) + green_seq_text(b))
            =~= (green_text(a[0]) + green_seq_text(a.subrange(1, a.len() as int)))
            + green_seq_text(b));
    }
}

/// The text under a single tree in a sequence.
pub proof fn lemma_green_seq_text_single(t: GreenTree)
    ensures
        green_seq_text(seq![t]) == green_text(t),
{
    let s = seq![t];
    assert(s.subrange(1, 1) =~= Seq::<GreenTree>::empty());
    assert(green_seq_text(s.subrange(1, 1)) =~= seq![]);
    assert(green_text(t) + seq![] =~= green_text(t));
}

/// The UTF-8 encoding of characters put side by side is their encodings put
/// side by side.
pub proof fn lemma_encode_utf8_concat(a: Seq<char>, b: Seq<char>)
    ensures
        vstd::utf8::encode_utf8(a + b) == vstd::utf8::encode_utf8(a) + vstd::utf8::encode_utf8(b),
    decreases a.len(),
{
    if a.len() == 0 {
        assert(a + b =~= b);
        assert(vstd::utf8::encode_utf8(a) =~= seq![]);
        assert(seq![] + vstd::utf8::encode_utf8(b) =~= vstd::utf8::encode_utf8(b));
    } else {
        let ab = a + b;
        assert(ab[0] == a[0]);
        assert(ab.drop_first() =~= a.drop_first() + b);
        lemma_encode_utf8_concat(a.drop_first(), b);
        let e0 = vstd::utf8::encode_scalar(a[0] as u32);
        assert(e0 + (vstd::utf8::encode_utf8(a.drop_first()) + vstd::utf8::encode_utf8(b)) =~= (e0
            + vstd::utf8::encode_utf8(a.drop_first())) + vstd::utf8::encode_utf8(b));
    }
}

pub proof fn lemma_utf8_len_concat(a: Seq<char>, b: Seq<char>)
    ensures
        utf8_len(a + b) == utf8_len(a) + utf8_len(b),
{
    lemma_encode_utf8_concat(a, b);
}

} // verus!
