//! The parser: it walks the tokens of the input and builds the green tree with
//! `rowan`'s builder, as the rules of `grammar` say.

use vstd::prelude::*;

use rowan::{Checkpoint, GreenNode, GreenNodeBuilder};

use crate::grammar::{
    first_kind, leaves, let_head, lemma_let_head_len, lemma_ws_count, node, opt_name, opt_tok, p_block, p_block_items, p_expr,
    p_expr_ops, p_expr_stmt, p_import, p_items, p_let, p_path, p_path_rest, p_scope,
    p_source_file, p_stmt, prepend, tok_tree, ws_count, binding_power, Parsed, Tok,
};
use crate::green::{
    builder_checkpoint, builder_children, builder_finish, builder_finish_node, builder_new,
    builder_parents, builder_start_node, builder_start_node_at, builder_token,
    checkpoint_position, green_node_tree, kinds_ok, green_seq_text, green_text, lemma_green_seq_text_concat,
    lemma_green_seq_text_single, lemma_utf8_len_concat, utf8_len, GreenTree,
};
use crate::lexer::{
    is_lexable, lemma_lex_lossless, lemma_tokens_text_concat, lemma_tokens_text_take_next, lex,
    lexable, token_view, tokenize, tokens_text,
};
use crate::syntax::{char_utf8_len, lower, node_offsets_ok, node_text, node_tree, SyntaxNode};
use crate::syntax_kind::{kind_raw, lemma_kind_raw_roundtrip, SyntaxKind};

verus! {

/// A parser over the tokens of an input, with the green tree built so far.
pub struct Parser {
    tokens: Vec<(SyntaxKind, Vec<char>)>,
    pos: usize,
    builder: GreenNodeBuilder<'static>,
}

impl Parser {
    /// All tokens of the input.
    pub closed spec fn toks(&self) -> Seq<Tok> {
        self.tokens@.map_values(|t: (SyntaxKind, Vec<char>)| token_view(t))
    }

    /// The tokens not yet consumed.
    pub closed spec fn rest(&self) -> Seq<Tok> {
        self.toks().skip(self.pos as int)
    }

    /// The children that the builder holds at the current level.
    pub closed spec fn children(&self) -> Seq<GreenTree> {
        builder_children(self.builder)
    }

    /// The nodes that the builder holds open.
    pub closed spec fn parents(&self) -> Seq<(u16, nat)> {
        builder_parents(self.builder)
    }

    /// The parser's invariant: the open nodes start in order within the
    /// children; the children hold exactly the tokens consumed so far; the whole
    /// input fits in `rowan`'s `u32` text sizes.
    pub closed spec fn inv(&self) -> bool {
        &&& self.pos <= self.tokens@.len()
        &&& forall|i: int|
            0 <= i < self.parents().len() ==> #[trigger] self.parents()[i].1
                <= self.children().len()
        &&& forall|i: int, j: int|
            0 <= i <= j < self.parents().len() ==> #[trigger] self.parents()[i].1
                <= #[trigger] self.parents()[j].1
        &&& forall|i: int| 0 <= i < self.parents().len() ==> #[trigger] self.parents()[i].0 <= 24
        &&& forall|i: int| 0 <= i < self.children().len() ==> kinds_ok(#[trigger] self.children()[i])
        &&& green_seq_text(self.children()) == tokens_text(self.toks().take(self.pos as int))
        &&& utf8_len(tokens_text(self.toks())) <= u32::MAX
    }

    /// A parser that has not yet consumed anything.
    pub closed spec fn fresh(&self) -> bool {
        &&& self.inv()
        &&& self.rest() == self.toks()
        &&& self.children() == Seq::<GreenTree>::empty()
        &&& self.parents() == Seq::<(u16, nat)>::empty()
    }

    /// A parser at the start of the tokens of `input`. Lexing panics on an
    /// input that is not `lexable`, and `rowan` cannot hold more than `u32::MAX`
    /// bytes of text.
    pub fn new(input: &str) -> (p: Parser)
        requires
            lexable(input@),
            utf8_len(input@) <= u32::MAX,
        ensures
            p.fresh(),
            p.toks() == lex(input@),
    {
        let tokens = tokenize(input);
        let builder = builder_new();
        let p = Parser { tokens, pos: 0, builder };
        proof {
            lemma_lex_lossless(input@);
            assert(p.toks().skip(0) =~= p.toks());
            assert(p.toks().take(0) =~= Seq::<Tok>::empty());
            assert(tokens_text(Seq::<Tok>::empty()) =~= seq![]);
            assert(green_seq_text(Seq::<GreenTree>::empty()) =~= seq![]);
        }
        p
    }

    /// The kind of the next token, if any.
    fn peek(&self) -> (k: Option<SyntaxKind>)
        requires
            self.inv(),
        ensures
            k == first_kind(self.rest()),
    {
        if self.pos < self.tokens.len() {
            Some(self.tokens[self.pos].0)
        } else {
            None
        }
    }

    /// Whether the next token has the kind `k`.
    fn at(&self, k: SyntaxKind) -> (b: bool)
        requires
            self.inv(),
        ensures
            b == (first_kind(self.rest()) == Some(k)),
    {
        self.pos < self.tokens.len() && self.tokens[self.pos].0 == k
    }

    /// Moves the next token, if any, into the tree.
    fn bump(&mut self)
        requires
            old(self).inv(),
        ensures
            final(self).inv(),
            final(self).toks() == old(self).toks(),
            final(self).parents() == old(self).parents(),
            old(self).rest().len() > 0 ==> final(self).children() == old(self).children().push(
                tok_tree(old(self).rest()[0]),
            ) && final(self).rest() == old(self).rest().drop_first(),
            old(self).rest().len() == 0 ==> final(self).children() == old(self).children()
                && final(self).rest() == old(self).rest(),
    {
        if self.pos < self.tokens.len() {
            let ghost t = old(self).toks();
            let ghost c = old(self).children();
            let kind = self.tokens[self.pos].0.to_raw();
            builder_token(&mut self.builder, kind, &self.tokens[self.pos].1);
            self.pos = self.pos + 1;
            proof {
                let k = old(self).pos as int;
                assert(t[k] == token_view(self.tokens@[k]));
                assert(old(self).rest()[0] == t[k]);
                assert(self.rest() =~= old(self).rest().drop_first());
                lemma_tokens_text_take_next(t, k);
                lemma_green_seq_text_concat(c, seq![tok_tree(t[k])]);
                lemma_green_seq_text_single(tok_tree(t[k]));
                assert(c.push(tok_tree(t[k])) =~= c + seq![tok_tree(t[k])]);
                lemma_kind_raw_roundtrip(t[k].0);
                assert forall|i: int| 0 <= i < self.children().len() implies kinds_ok(
                    #[trigger] self.children()[i],
                ) by {
                    if i < c.len() {
                        assert(self.children()[i] == c[i]);
                    }
                }
                assert forall|i: int| 0 <= i < self.parents().len() implies #[trigger] self.parents()[i].1
                    <= self.children().len() by {
                    assert(old(self).parents()[i].1 <= c.len());
                }
            }
        }
    }

    /// Moves the whitespace tokens at the front into the tree.
    fn eat_ws(&mut self)
        requires
            old(self).inv(),
        ensures
            final(self).inv(),
            final(self).toks() == old(self).toks(),
            final(self).parents() == old(self).parents(),
            final(self).children() == old(self).children() + leaves(
                old(self).rest(),
                ws_count(old(self).rest()),
            ),
            final(self).rest() == old(self).rest().skip(ws_count(old(self).rest()) as int),
    {
        let ghost s = self.rest();
        let ghost c = self.children();
        let ghost n = ws_count(s);
        proof {
            lemma_ws_count(s);
            assert(s.skip(0) =~= s);
            assert(leaves(s, 0) =~= Seq::<GreenTree>::empty());
            assert(c + leaves(s, 0) =~= c);
        }
        let ghost mut k: nat = 0;
        while self.at(SyntaxKind::WHITESPACE)
            invariant
                self.inv(),
                self.toks() == old(self).toks(),
                self.parents() == old(self).parents(),
                s == old(self).rest(),
                c == old(self).children(),
                n == ws_count(s),
                n <= s.len(),
                forall|i: int| 0 <= i < n ==> (#[trigger] s[i]).0 == SyntaxKind::WHITESPACE,
                n < s.len() ==> s[n as int].0 != SyntaxKind::WHITESPACE,
                k <= n,
                self.rest() == s.skip(k as int),
                self.children() == c + leaves(s, k),
            decreases self.rest().len(),
        {
            proof {
                assert(self.rest()[0] == s[k as int]);
            }
            self.bump();
            proof {
                assert(leaves(s, k + 1) =~= leaves(s, k).push(tok_tree(s[k as int])));
                assert(self.rest() =~= s.skip(k + 1 as int));
                k = k + 1;
            }
        }
        proof {
            if k < n {
                assert(self.rest()[0] == s[k as int]);
            }
        }
    }

    /// Opens a node of kind `kind` after the children held now.
    fn start_node(&mut self, kind: SyntaxKind)
        requires
            old(self).inv(),
        ensures
            final(self).inv(),
            final(self).toks() == old(self).toks(),
            final(self).rest() == old(self).rest(),
            final(self).children() == old(self).children(),
            final(self).parents() == old(self).parents().push(
                (kind_raw(kind), old(self).children().len()),
            ),
    {
        builder_start_node(&mut self.builder, kind.to_raw());
        proof {
            lemma_kind_raw_roundtrip(kind);
            assert forall|i: int, j: int|
                0 <= i <= j < self.parents().len() implies #[trigger] self.parents()[i].1
                <= #[trigger] self.parents()[j].1 by {
                if j == self.parents().len() - 1 {
                    if i < j {
                        assert(old(self).parents()[i].1 <= old(self).children().len());
                    }
                } else {
                    assert(old(self).parents()[i].1 <= old(self).parents()[j].1);
                }
            }
        }
    }

    /// Marks the number of children held now.
    fn checkpoint(&self) -> (c: Checkpoint)
        requires
            self.inv(),
        ensures
            checkpoint_position(c) == self.children().len(),
    {
        builder_checkpoint(&self.builder)
    }

    /// Opens a node of kind `kind` that takes the children held since the
    /// checkpoint `c`, which lies within the children of the innermost open node.
    fn start_node_at(&mut self, c: Checkpoint, kind: SyntaxKind)
        requires
            old(self).inv(),
            checkpoint_position(c) <= old(self).children().len(),
            old(self).parents().len() > 0 ==> old(self).parents().last().1 <= checkpoint_position(
                c,
            ),
        ensures
            final(self).inv(),
            final(self).toks() == old(self).toks(),
            final(self).rest() == old(self).rest(),
            final(self).children() == old(self).children(),
            final(self).parents() == old(self).parents().push(
                (kind_raw(kind), checkpoint_position(c)),
            ),
    {
        builder_start_node_at(&mut self.builder, c, kind.to_raw());
        proof {
            lemma_kind_raw_roundtrip(kind);
            assert forall|i: int, j: int|
                0 <= i <= j < self.parents().len() implies #[trigger] self.parents()[i].1
                <= #[trigger] self.parents()[j].1 by {
                if j == self.parents().len() - 1 {
                    if i < j {
                        let l = old(self).parents().len() - 1;
                        assert(old(self).parents()[i].1 <= old(self).parents()[l].1);
                    }
                } else {
                    assert(old(self).parents()[i].1 <= old(self).parents()[j].1);
                }
            }
        }
    }

    /// Closes the innermost open node: the children held since its start become
    /// its children.
    fn finish_node(&mut self)
        requires
            old(self).inv(),
            old(self).parents().len() > 0,
        ensures
            final(self).inv(),
            final(self).toks() == old(self).toks(),
            final(self).rest() == old(self).rest(),
            ({
                let first = old(self).parents().last().1 as int;
                let cs = old(self).children();
                final(self).children() == cs.subrange(0, first).push(
                    GreenTree::Node(
                        old(self).parents().last().0,
                        cs.subrange(first, cs.len() as int),
                    ),
                )
            }),
            final(self).parents() == old(self).parents().drop_last(),
    {
        let ghost cs = self.children();
        let ghost ps = self.parents();
        let ghost first = ps.last().1 as int;
        let ghost t = self.toks();
        proof {
            assert(ps[ps.len() - 1].1 <= cs.len());
            let a = cs.subrange(0, first);
            let b = cs.subrange(first, cs.len() as int);
            assert(cs =~= a + b);
            lemma_green_seq_text_concat(a, b);
            lemma_utf8_len_concat(green_seq_text(a), green_seq_text(b));
            assert(t =~= t.take(self.pos as int) + t.skip(self.pos as int));
            lemma_tokens_text_concat(t.take(self.pos as int), t.skip(self.pos as int));
            lemma_utf8_len_concat(
                tokens_text(t.take(self.pos as int)),
                tokens_text(t.skip(self.pos as int)),
            );
        }
        builder_finish_node(&mut self.builder);
        proof {
            let a = cs.subrange(0, first);
            let b = cs.subrange(first, cs.len() as int);
            let nd = GreenTree::Node(ps.last().0, b);
            assert(a.push(nd) =~= a + seq![nd]);
            lemma_green_seq_text_concat(a, seq![nd]);
            lemma_green_seq_text_single(nd);
            assert(green_text(nd) == green_seq_text(b));
            assert(ps[ps.len() - 1].0 <= 24);
            assert forall|i: int| 0 <= i < b.len() implies kinds_ok(#[trigger] b[i]) by {
                assert(b[i] == cs[first + i]);
            }
            assert(kinds_ok(nd));
            assert forall|i: int| 0 <= i < self.children().len() implies kinds_ok(
                #[trigger] self.children()[i],
            ) by {
                if i < first {
                    assert(self.children()[i] == cs[i]);
                }
            }
            assert forall|i: int| 0 <= i < self.parents().len() implies #[trigger] self.parents()[i].1
                <= self.children().len() by {
                assert(ps[i].1 <= ps[ps.len() - 1].1);
            }
            assert forall|i: int, j: int|
                0 <= i <= j < self.parents().len() implies #[trigger] self.parents()[i].1
                <= #[trigger] self.parents()[j].1 by {
                assert(ps[i].1 <= ps[j].1);
            }
        }
    }
}


/// Closing a node that was opened after `c0` and holds `inner` leaves `c0` and
/// then the node.
proof fn lemma_close(c0: Seq<GreenTree>, inner: Seq<GreenTree>, k: u16)
    ensures
        (c0 + inner).subrange(0, c0.len() as int).push(
            GreenTree::Node(k, (c0 + inner).subrange(c0.len() as int, (c0 + inner).len() as int)),
        ) == c0 + seq![GreenTree::Node(k, inner)],
{
    assert((c0 + inner).subrange(0, c0.len() as int) =~= c0);
    assert((c0 + inner).subrange(c0.len() as int, (c0 + inner).len() as int) =~= inner);
    assert(c0.push(GreenTree::Node(k, inner)) =~= c0 + seq![GreenTree::Node(k, inner)]);
}

proof fn lemma_app3(a: Seq<GreenTree>, b: Seq<GreenTree>, c: Seq<GreenTree>)
    ensures
        (a + b) + c == a + (b + c),
{
    assert((a + b) + c =~= a + (b + c));
}

impl Parser {
    /// `self` comes from `old` by the rule result `r`: it succeeded exactly when
    /// `r` is `Some`, and then it added the trees of `r` to the children and
    /// left what `r` leaves.
    pub closed spec fn follows(&self, old: Parser, r: Parsed, ok: bool) -> bool {
        &&& self.inv()
        &&& self.toks() == old.toks()
        &&& match r {
            Some((els, rest)) => ok && self.children() == old.children() + els && self.rest()
                == rest && self.parents() == old.parents(),
            None => !ok,
        }
    }

    /// The next token wrapped in a node of kind `kind`.
    fn bump_in_node(&mut self, kind: SyntaxKind)
        requires
            old(self).inv(),
            old(self).rest().len() > 0,
        ensures
            final(self).inv(),
            final(self).toks() == old(self).toks(),
            final(self).parents() == old(self).parents(),
            final(self).children() == old(self).children() + seq![
                node(kind, seq![tok_tree(old(self).rest()[0])]),
            ],
            final(self).rest() == old(self).rest().drop_first(),
    {
        let ghost c0 = self.children();
        self.start_node(kind);
        self.bump();
        proof {
            assert(self.children() =~= c0 + seq![tok_tree(old(self).rest()[0])]);
            lemma_close(c0, seq![tok_tree(old(self).rest()[0])], kind_raw(kind));
        }
        self.finish_node();
    }

    /// A path (see `p_path`), as one `PATH` node.
    fn parse_path(&mut self)
        requires
            old(self).inv(),
        ensures
            final(self).inv(),
            final(self).toks() == old(self).toks(),
            final(self).parents() == old(self).parents(),
            final(self).children() == old(self).children() + seq![p_path(old(self).rest()).0],
            final(self).rest() == p_path(old(self).rest()).1,
    {
        let ghost s = self.rest();
        let ghost c0 = self.children();
        self.start_node(SyntaxKind::PATH);
        if self.at(SyntaxKind::IDENT) {
            self.bump();
        }
        let ghost b = self.rest();
        let ghost first = opt_tok(s, SyntaxKind::IDENT).0;
        proof {
            assert(self.children() =~= c0 + first);
        }
        let ghost mut done: Seq<GreenTree> = seq![];
        let mut finished = false;
        while !finished
            invariant
                self.inv(),
                self.toks() == old(self).toks(),
                self.parents() == old(self).parents().push(
                    (kind_raw(SyntaxKind::PATH), c0.len()),
                ),
                self.children() == c0 + (first + done),
                finished ==> p_path_rest(b) == (done, self.rest()),
                !finished ==> p_path_rest(b) == (done + p_path_rest(self.rest()).0, p_path_rest(
                    self.rest(),
                ).1),
            decreases self.rest().len() + (if finished { 0int } else { 1int }),
        {
            let ghost r0 = self.rest();
            let ghost d0 = done;
            proof {
                lemma_ws_count(r0);
            }
            self.eat_ws();
            let ghost w = leaves(r0, ws_count(r0));
            if self.at(SyntaxKind::DOT) {
                let ghost r = self.rest();
                self.bump();
                let ghost t = self.rest();
                proof {
                    lemma_ws_count(t);
                }
                self.eat_ws();
                let ghost n2 = ws_count(t);
                if self.at(SyntaxKind::IDENT) {
                    self.bump();
                }
                proof {
                    let id = opt_tok(t.skip(n2 as int), SyntaxKind::IDENT).0;
                    done = d0 + (w + seq![tok_tree(r[0])] + leaves(t, n2) + id);
                    assert(self.children() =~= c0 + (first + done));
                    let v = opt_tok(t.skip(n2 as int), SyntaxKind::IDENT).1;
                    assert(self.rest() == v);
                    assert(p_path_rest(r0).0 =~= (w + seq![tok_tree(r[0])] + leaves(t, n2) + id)
                        + p_path_rest(v).0);
                    assert(done + p_path_rest(v).0 =~= d0 + p_path_rest(r0).0);
                }
            } else {
                finished = true;
                proof {
                    done = d0 + w;
                    assert(self.children() =~= c0 + (first + done));
                    assert(p_path_rest(r0) == (w, self.rest()));
                }
            }
        }
        proof {
            lemma_close(c0, first + done, kind_raw(SyntaxKind::PATH));
        }
        self.finish_node();
    }

    /// An import statement (see `p_import`).
    fn parse_import_stmt(&mut self)
        requires
            old(self).inv(),
            first_kind(old(self).rest()) == Some(SyntaxKind::IMPORT_KW),
        ensures
            final(self).inv(),
            final(self).toks() == old(self).toks(),
            final(self).parents() == old(self).parents(),
            final(self).children() == old(self).children() + p_import(old(self).rest()).0,
            final(self).rest() == p_import(old(self).rest()).1,
    {
        let ghost s = self.rest();
        let ghost c0 = self.children();
        self.start_node(SyntaxKind::IMPORT_STMT);
        self.bump();
        let ghost t1 = self.rest();
        proof {
            lemma_ws_count(t1);
        }
        self.eat_ws();
        let ghost a = self.rest();
        self.parse_path();
        let ghost b = self.rest();
        proof {
            lemma_ws_count(b);
        }
        self.eat_ws();
        if self.at(SyntaxKind::SEMICOLON) {
            self.bump();
        }
        proof {
            let n1 = ws_count(t1);
            let n2 = ws_count(b);
            let inner = seq![tok_tree(s[0])] + leaves(t1, n1) + seq![p_path(a).0] + leaves(b, n2)
                + opt_tok(b.skip(n2 as int), SyntaxKind::SEMICOLON).0;
            assert(self.children() =~= c0 + inner);
            lemma_close(c0, inner, kind_raw(SyntaxKind::IMPORT_STMT));
        }
        self.finish_node();
    }
}

impl Parser {
    /// A statement (see `p_stmt`).
    fn parse_stmt(&mut self) -> (ok: bool)
        requires
            old(self).inv(),
        ensures
            final(self).follows(*old(self), p_stmt(old(self).rest()), ok),
        decreases old(self).rest().len(), 5int,
    {
        let ghost s = self.rest();
        let ghost c0 = self.children();
        proof {
            lemma_ws_count(s);
        }
        self.eat_ws();
        let ghost w = leaves(s, ws_count(s));
        let ghost c1 = self.children();
        let ghost r = self.rest();
        match self.peek() {
            Some(SyntaxKind::LET_KW) => {
                let ok = self.parse_let_stmt();
                proof {
                    assert(p_stmt(s) == prepend(w, p_let(r)));
                    if let Some((e, t)) = p_let(r) {
                        lemma_app3(c0, w, e);
                    }
                }
                ok
            },
            Some(SyntaxKind::SCOPE_KW) => {
                let ok = self.parse_scope_def();
                proof {
                    assert(p_stmt(s) == prepend(w, p_scope(r)));
                    if let Some((e, t)) = p_scope(r) {
                        lemma_app3(c0, w, e);
                    }
                }
                ok
            },
            Some(SyntaxKind::IMPORT_KW) => {
                self.parse_import_stmt();
                proof {
                    assert(p_stmt(s) == Some((w + p_import(r).0, p_import(r).1)));
                    lemma_app3(c0, w, p_import(r).0);
                }
                true
            },
            Some(_) => {
                let ok = self.parse_expr_stmt();
                proof {
                    assert(p_stmt(s) == prepend(w, p_expr_stmt(r)));
                    if let Some((e, t)) = p_expr_stmt(r) {
                        lemma_app3(c0, w, e);
                    }
                }
                ok
            },
            None => {
                proof {
                    assert(p_stmt(s) == Some((w, r)));
                }
                true
            },
        }
    }

    /// The front of a `let` statement (see `let_head`).
    fn parse_let_head(&mut self)
        requires
            old(self).inv(),
            first_kind(old(self).rest()) == Some(SyntaxKind::LET_KW),
        ensures
            final(self).inv(),
            final(self).toks() == old(self).toks(),
            final(self).parents() == old(self).parents(),
            final(self).children() == old(self).children() + let_head(old(self).rest()).0,
            final(self).rest() == let_head(old(self).rest()).1,
    {
        let ghost s = self.rest();
        let ghost c0 = self.children();
        self.bump();
        let ghost t1 = self.rest();
        proof {
            lemma_ws_count(t1);
        }
        self.eat_ws();
        let ghost a = self.rest();
        if self.at(SyntaxKind::IDENT) {
            self.bump_in_node(SyntaxKind::NAME_REF);
        }
        let ghost b = self.rest();
        proof {
            lemma_ws_count(b);
        }
        self.eat_ws();
        let ghost c = self.rest();
        if self.at(SyntaxKind::EQ) {
            self.bump();
        }
        let ghost d = self.rest();
        proof {
            lemma_ws_count(d);
        }
        self.eat_ws();
        proof {
            assert(self.children() =~= c0 + let_head(s).0);
        }
    }

    /// A `let` statement (see `p_let`).
    fn parse_let_stmt(&mut self) -> (ok: bool)
        requires
            old(self).inv(),
            first_kind(old(self).rest()) == Some(SyntaxKind::LET_KW),
        ensures
            final(self).follows(*old(self), p_let(old(self).rest()), ok),
        decreases old(self).rest().len(), 4int,
    {
        let ghost s = self.rest();
        let ghost c0 = self.children();
        self.start_node(SyntaxKind::LET_STMT);
        self.parse_let_head();
        let ghost head = let_head(s).0;
        let ghost e = self.rest();
        proof {
            lemma_let_head_len(s);
        }
        if !self.parse_expr(0) {
            return false;
        }
        let ghost ex = p_expr(e, 0).unwrap().0;
        let ghost f = self.rest();
        proof {
            lemma_ws_count(f);
        }
        self.eat_ws();
        if self.at(SyntaxKind::SEMICOLON) {
            self.bump();
        }
        proof {
            let inner = head + ex + leaves(f, ws_count(f)) + opt_tok(
                f.skip(ws_count(f) as int),
                SyntaxKind::SEMICOLON,
            ).0;
            assert(self.children() =~= c0 + inner);
            lemma_close(c0, inner, kind_raw(SyntaxKind::LET_STMT));
        }
        self.finish_node();
        proof {
            assert(self.parents() =~= old(self).parents());
        }
        true
    }

    /// A `scope` definition (see `p_scope`).
    fn parse_scope_def(&mut self) -> (ok: bool)
        requires
            old(self).inv(),
            first_kind(old(self).rest()) == Some(SyntaxKind::SCOPE_KW),
        ensures
            final(self).follows(*old(self), p_scope(old(self).rest()), ok),
        decreases old(self).rest().len(), 4int,
    {
        let ghost s = self.rest();
        let ghost c0 = self.children();
        self.start_node(SyntaxKind::SCOPE_DEF);
        self.bump();
        let ghost t1 = self.rest();
        proof {
            lemma_ws_count(t1);
        }
        self.eat_ws();
        let ghost a = self.rest();
        if self.at(SyntaxKind::IDENT) {
            self.bump_in_node(SyntaxKind::NAME_REF);
        }
        let ghost b = self.rest();
        proof {
            lemma_ws_count(b);
        }
        self.eat_ws();
        let ghost c = self.rest();
        let ghost head = seq![tok_tree(s[0])] + leaves(t1, ws_count(t1)) + opt_name(a).0 + leaves(
            b,
            ws_count(b),
        );
        proof {
            assert(self.children() =~= c0 + head);
        }
        if self.at(SyntaxKind::L_CURLY) {
            let cp = self.checkpoint();
            if !self.parse_block(cp) {
                return false;
            }
            proof {
                let blk = p_block(c).unwrap().0;
                assert(self.children() =~= c0 + (head + blk));
                lemma_close(c0, head + blk, kind_raw(SyntaxKind::SCOPE_DEF));
            }
        } else {
            proof {
                lemma_close(c0, head, kind_raw(SyntaxKind::SCOPE_DEF));
            }
        }
        self.finish_node();
        proof {
            assert(self.parents() =~= old(self).parents());
        }
        true
    }

    /// An expression statement (see `p_expr_stmt`).
    fn parse_expr_stmt(&mut self) -> (ok: bool)
        requires
            old(self).inv(),
        ensures
            final(self).follows(*old(self), p_expr_stmt(old(self).rest()), ok),
        decreases old(self).rest().len(), 4int,
    {
        let ghost s = self.rest();
        let ghost c0 = self.children();
        self.start_node(SyntaxKind::EXPR_STMT);
        if !self.parse_expr(0) {
            return false;
        }
        let ghost ex = p_expr(s, 0).unwrap().0;
        let ghost f = self.rest();
        proof {
            lemma_ws_count(f);
        }
        self.eat_ws();
        if self.at(SyntaxKind::SEMICOLON) {
            self.bump();
        }
        proof {
            let inner = ex + leaves(f, ws_count(f)) + opt_tok(
                f.skip(ws_count(f) as int),
                SyntaxKind::SEMICOLON,
            ).0;
            assert(self.children() =~= c0 + inner);
            lemma_close(c0, inner, kind_raw(SyntaxKind::EXPR_STMT));
        }
        self.finish_node();
        proof {
            assert(self.parents() =~= old(self).parents());
        }
        true
    }

    /// An expression whose operators bind at least as tightly as `min_bp`
    /// (see `p_expr`).
    fn parse_expr(&mut self, min_bp: u8) -> (ok: bool)
        requires
            old(self).inv(),
        ensures
            final(self).follows(*old(self), p_expr(old(self).rest(), min_bp as int), ok),
        decreases old(self).rest().len(), 3int,
    {
        let ghost s = self.rest();
        let ghost c0 = self.children();
        proof {
            lemma_ws_count(s);
        }
        self.eat_ws();
        let ghost w = leaves(s, ws_count(s));
        let ghost r = self.rest();
        let cp = self.checkpoint();
        let ghost c1 = self.children();
        let ghost mut prim: Seq<GreenTree> = seq![];
        let ghost mut r2: Seq<Tok> = r;
        match self.peek() {
            Some(SyntaxKind::INT) => {
                self.bump_in_node(SyntaxKind::LITERAL);
                proof {
                    prim = seq![node(SyntaxKind::LITERAL, seq![tok_tree(r[0])])];
                    r2 = self.rest();
                }
            },
            Some(SyntaxKind::IDENT) => {
                self.bump_in_node(SyntaxKind::NAME_REF);
                proof {
                    prim = seq![node(SyntaxKind::NAME_REF, seq![tok_tree(r[0])])];
                    r2 = self.rest();
                }
            },
            Some(SyntaxKind::L_CURLY) => {
                let before = self.pos;
                if !self.parse_block(cp) {
                    return false;
                }
                if self.pos <= before {
                    return false;
                }
                proof {
                    prim = p_block(r).unwrap().0;
                    r2 = self.rest();
                }
            },
            _ => {
                proof {
                    assert(self.children() =~= c0 + w);
                }
                return true;
            },
        }
        proof {
            assert(self.children().subrange(
                checkpoint_position(cp) as int,
                self.children().len() as int,
            ) =~= prim);
            assert(self.children().subrange(0, checkpoint_position(cp) as int) =~= c1);
        }
        proof {
            assert(p_expr(s, min_bp as int) == prepend(w, p_expr_ops(prim, r2, min_bp as int)));
            assert(self.rest() == r2);
        }
        let ok = self.parse_expr_ops(cp, min_bp, Ghost(prim));
        proof {
            match p_expr_ops(prim, r2, min_bp as int) {
                Some((e, t)) => {
                    lemma_app3(c0, w, e);
                },
                None => {},
            }
        }
        ok
    }

    /// The operators after an operand, whose trees since the checkpoint `cp`
    /// are `acc` (see `p_expr_ops`).
    fn parse_expr_ops(&mut self, cp: Checkpoint, min_bp: u8, Ghost(acc): Ghost<Seq<GreenTree>>) -> (ok: bool)
        requires
            old(self).inv(),
            checkpoint_position(cp) <= old(self).children().len(),
            old(self).children().subrange(
                checkpoint_position(cp) as int,
                old(self).children().len() as int,
            ) == acc,
            old(self).parents().len() > 0 ==> old(self).parents().last().1 <= checkpoint_position(
                cp,
            ),
        ensures
            final(self).inv(),
            final(self).toks() == old(self).toks(),
            match p_expr_ops(acc, old(self).rest(), min_bp as int) {
                Some((els, rest)) => ok && final(self).children() == old(self).children().subrange(
                    0,
                    checkpoint_position(cp) as int,
                ) + els && final(self).rest() == rest && final(self).parents() == old(
                    self,
                ).parents(),
                None => !ok,
            },
        decreases old(self).rest().len(), 1int,
    {
        let ghost base = self.children().subrange(0, checkpoint_position(cp) as int);
        let ghost s0 = self.rest();
        let ghost mut a = acc;
        proof {
            assert(self.children() =~= base + a);
        }
        loop
            invariant
                self.inv(),
                self.toks() == old(self).toks(),
                self.parents() == old(self).parents(),
                base.len() == checkpoint_position(cp),
                base == old(self).children().subrange(0, checkpoint_position(cp) as int),
                self.children() == base + a,
                self.rest().len() <= s0.len(),
                s0 == old(self).rest(),
                p_expr_ops(acc, s0, min_bp as int) == p_expr_ops(a, self.rest(), min_bp as int),
                old(self).parents().len() > 0 ==> old(self).parents().last().1
                    <= checkpoint_position(cp),
            decreases self.rest().len(),
        {
            let ghost s = self.rest();
            let ghost a0 = a;
            let before = self.pos;
            proof {
                lemma_ws_count(s);
            }
            self.eat_ws();
            let ghost r = self.rest();
            let ghost acc2 = a0 + leaves(s, ws_count(s));
            proof {
                assert(self.children() =~= base + acc2);
            }
            let (l_bp, r_bp): (u8, u8) = match self.peek() {
                Some(SyntaxKind::PLUS) => (1, 2),
                Some(SyntaxKind::MINUS) => (1, 2),
                Some(SyntaxKind::STAR) => (3, 4),
                _ => {
                    proof {
                        assert(p_expr_ops(a0, s, min_bp as int) == Some((acc2, r)));
                    }
                    return true;
                },
            };
            if l_bp < min_bp {
                proof {
                    assert(p_expr_ops(a0, s, min_bp as int) == Some((acc2, r)));
                }
                return true;
            }
            proof {
                assert(self.children().len() >= checkpoint_position(cp));
            }
            self.start_node_at(cp, SyntaxKind::BINARY_EXPR);
            self.bump();
            if !self.parse_expr(r_bp) {
                return false;
            }
            let ghost rhs = p_expr(r.drop_first(), r_bp as int).unwrap().0;
            proof {
                let inner = acc2 + seq![tok_tree(r[0])] + rhs;
                assert(self.children() =~= base + inner);
                lemma_close(base, inner, kind_raw(SyntaxKind::BINARY_EXPR));
                a = seq![node(SyntaxKind::BINARY_EXPR, inner)];
            }
            self.finish_node();
            if self.pos <= before {
                return false;
            }
        }
    }

    /// A block, opened at the checkpoint `cp` where nothing has been added
    /// since (see `p_block`).
    fn parse_block(&mut self, cp: Checkpoint) -> (ok: bool)
        requires
            old(self).inv(),
            first_kind(old(self).rest()) == Some(SyntaxKind::L_CURLY),
            checkpoint_position(cp) == old(self).children().len(),
        ensures
            final(self).follows(*old(self), p_block(old(self).rest()), ok),
        decreases old(self).rest().len(), 2int,
    {
        let ghost s = self.rest();
        let ghost c0 = self.children();
        proof {
            if self.parents().len() > 0 {
                assert(self.parents()[self.parents().len() - 1].1 <= c0.len());
            }
        }
        self.start_node_at(cp, SyntaxKind::BLOCK_EXPR);
        self.bump();
        let ghost s1 = self.rest();
        let ghost mut done: Seq<GreenTree> = seq![];
        let mut finished = false;
        proof {
            assert(self.children() =~= c0 + (seq![tok_tree(s[0])] + done));
            assert(prepend(done, p_block_items(s1)) == p_block_items(s1)) by {
                match p_block_items(s1) {
                    Some((e, t)) => {
                        assert(done + e =~= e);
                    },
                    None => {},
                }
            }
        }
        while !finished
            invariant
                self.inv(),
                self.toks() == old(self).toks(),
                self.parents() == old(self).parents().push(
                    (kind_raw(SyntaxKind::BLOCK_EXPR), c0.len()),
                ),
                self.children() == c0 + (seq![tok_tree(s[0])] + done),
                s == old(self).rest(),
                s1 == s.drop_first(),
                p_block(s) == match p_block_items(s1) {
                    None => None,
                    Some((items, t)) => Some(
                        (seq![node(SyntaxKind::BLOCK_EXPR, seq![tok_tree(s[0])] + items)], t),
                    ),
                },
                self.rest().len() < s.len(),
                finished ==> p_block_items(s1) == Some((done, self.rest())),
                !finished ==> p_block_items(s1) == prepend(done, p_block_items(self.rest())),
            decreases self.rest().len() + (if finished { 0int } else { 1int }),
        {
            let ghost r0 = self.rest();
            let ghost d0 = done;
            proof {
                lemma_ws_count(r0);
            }
            self.eat_ws();
            let ghost w = leaves(r0, ws_count(r0));
            let ghost r = self.rest();
            match self.peek() {
                Some(SyntaxKind::R_CURLY) => {
                    self.bump();
                    finished = true;
                    proof {
                        done = d0 + (w + seq![tok_tree(r[0])]);
                        assert(self.children() =~= c0 + (seq![tok_tree(s[0])] + done));
                    }
                },
                None => {
                    finished = true;
                    proof {
                        done = d0 + w;
                        assert(self.children() =~= c0 + (seq![tok_tree(s[0])] + done));
                    }
                },
                Some(_) => {
                    let before = self.pos;
                    proof {
                        assert(p_block_items(r0) == match p_stmt(r) {
                            None => None,
                            Some((els, t)) => if t.len() < r.len() {
                                prepend(w + els, p_block_items(t))
                            } else {
                                None
                            },
                        });
                    }
                    if !self.parse_stmt() {
                        return false;
                    }
                    if self.pos <= before {
                        return false;
                    }
                    proof {
                        let els = p_stmt(r).unwrap().0;
                        done = d0 + (w + els);
                        assert(self.children() =~= c0 + (seq![tok_tree(s[0])] + done));
                        match p_block_items(self.rest()) {
                            Some((e, t)) => {
                                assert(done + e =~= d0 + ((w + els) + e));
                            },
                            None => {},
                        }
                    }
                },
            }
        }
        proof {
            lemma_close(c0, seq![tok_tree(s[0])] + done, kind_raw(SyntaxKind::BLOCK_EXPR));
        }
        self.finish_node();
        proof {
            assert(self.parents() =~= old(self).parents());
        }
        true
    }

    /// Parses the whole input into a `SOURCE_FILE` green node; `None` exactly
    /// where the parser would go round forever.
    pub fn parse_green(self) -> (g: Option<GreenNode>)
        requires
            self.fresh(),
        ensures
            g is Some <==> p_source_file(self.toks()) is Some,
            g matches Some(n) ==> green_node_tree(n) == p_source_file(self.toks())->0,
            g matches Some(n) ==> kinds_ok(green_node_tree(n)),
            g matches Some(n) ==> green_text(green_node_tree(n)) == tokens_text(self.toks()),
            g matches Some(n) ==> utf8_len(green_text(green_node_tree(n))) <= u32::MAX,
    {
        let mut p = self;
        if p.parse_source_file() {
            proof {
                assert(p.toks().skip(p.pos as int).len() == 0);
                assert(p.toks().take(p.pos as int) =~= p.toks());
                lemma_green_seq_text_single(p.children()[0]);
                assert(kinds_ok(p.children()[0]));
            }
            Some(builder_finish(p.builder))
        } else {
            None
        }
    }

    /// Parses the whole input into a syntax tree, lowered from the green tree
    /// that `rowan` built. The parser goes round forever where
    /// `p_source_file` is `None`.
    pub fn parse(self) -> (root: SyntaxNode)
        requires
            self.fresh(),
            p_source_file(self.toks()) is Some,
        ensures
            node_tree(root) == p_source_file(self.toks())->0,
            node_offsets_ok(root, 0),
            node_text(root) == tokens_text(self.toks()),
    {
        let g = self.parse_green().unwrap();
        let (root, _end) = lower(&g, 0);
        root
    }

    /// Builds the `SOURCE_FILE` node of the whole input as the builder's only
    /// child.
    fn parse_source_file(&mut self) -> (ok: bool)
        requires
            old(self).inv(),
            old(self).rest() == old(self).toks(),
            old(self).children() == Seq::<GreenTree>::empty(),
            old(self).parents() == Seq::<(u16, nat)>::empty(),
        ensures
            ok <==> p_source_file(old(self).toks()) is Some,
            ok ==> final(self).children() == seq![p_source_file(old(self).toks())->0],
            ok ==> final(self).inv() && final(self).rest().len() == 0 && final(self).toks() == old(
                self,
            ).toks(),
    {
        let ghost toks = self.toks();
        self.start_node(SyntaxKind::SOURCE_FILE);
        let ghost mut done: Seq<GreenTree> = seq![];
        proof {
            assert(prepend(done, p_items(toks)) == p_items(toks)) by {
                match p_items(toks) {
                    Some((e, t)) => {
                        assert(done + e =~= e);
                    },
                    None => {},
                }
            }
            assert(self.children() =~= Seq::<GreenTree>::empty() + done);
        }
        while self.peek().is_some()
            invariant
                self.inv(),
                self.toks() == toks,
                toks == old(self).toks(),
                self.parents() == seq![(kind_raw(SyntaxKind::SOURCE_FILE), 0nat)],
                self.children() == done,
                p_items(toks) == prepend(done, p_items(self.rest())),
            decreases self.rest().len(),
        {
            let ghost r = self.rest();
            let ghost d0 = done;
            let before = self.pos;
            proof {
                assert(p_items(r) == match p_stmt(r) {
                    None => None,
                    Some((els, t)) => if t.len() < r.len() {
                        prepend(els, p_items(t))
                    } else {
                        None
                    },
                });
            }
            if !self.parse_stmt() {
                proof {
                    assert(p_items(r) is None);
                    assert(p_items(toks) is None);
                }
                return false;
            }
            if self.pos <= before {
                proof {
                    assert(p_items(r) is None);
                    assert(p_items(toks) is None);
                }
                return false;
            }
            proof {
                let els = p_stmt(r).unwrap().0;
                done = d0 + els;
                match p_items(self.rest()) {
                    Some((e, t)) => {
                        assert(done + e =~= d0 + (els + e));
                    },
                    None => {},
                }
            }
        }
        proof {
            assert(p_items(self.rest()) == Some((Seq::<GreenTree>::empty(), self.rest())));
            assert(done + Seq::<GreenTree>::empty() =~= done);
            lemma_close(Seq::<GreenTree>::empty(), done, kind_raw(SyntaxKind::SOURCE_FILE));
            assert(Seq::<GreenTree>::empty() + done =~= done);
        }
        self.finish_node();
        proof {
            assert(self.children() =~= seq![node(SyntaxKind::SOURCE_FILE, done)]);
        }
        true
    }
}

/// Whether the parser comes to an end on `code`: it goes round forever where
/// a statement consumes no token (such as a stray `}`, `+` or `=` where a
/// statement should start).
pub open spec fn parse_terminates(code: Seq<char>) -> bool {
    p_source_file(lex(code)) is Some
}

/// The syntax tree of `code`. Lexing panics unless `code` is `lexable`,
/// `rowan` holds at most `u32::MAX` bytes of text, and the parser goes round
/// forever unless `parse_terminates(code)`.
pub fn parse(code: &str) -> (root: SyntaxNode)
    requires
        lexable(code@),
        utf8_len(code@) <= u32::MAX,
        parse_terminates(code@),
    ensures
        node_tree(root) == p_source_file(lex(code@))->0,
        node_offsets_ok(root, 0),
        node_text(root) == code@,
{
    let p = Parser::new(code);
    proof {
        lemma_lex_lossless(code@);
    }
    p.parse()
}

/// The syntax tree of `code`, or `None` exactly where the parser would go
/// round forever.
pub fn try_parse(code: &str) -> (root: Option<SyntaxNode>)
    requires
        lexable(code@),
        utf8_len(code@) <= u32::MAX,
    ensures
        root is Some <==> parse_terminates(code@),
        root matches Some(r) ==> node_tree(r) == p_source_file(lex(code@))->0 && node_offsets_ok(
            r,
            0,
        ) && node_text(r) == code@,
{
    let p = Parser::new(code);
    proof {
        lemma_lex_lossless(code@);
    }
    match p.parse_green() {
        Some(g) => {
            let (root, _end) = lower(&g, 0);
            Some(root)
        },
        None => None,
    }
}

/// Whether `code` takes at most `u32::MAX` bytes in UTF-8, the most that a
/// `rowan` tree can hold.
fn fits_text_size(code: &str) -> (b: bool)
    ensures
        b == (utf8_len(code@) <= u32::MAX),
{
    let mut n: u64 = 0;
    for c in it: code.chars()
        invariant
            it.seq() == code@,
            n == utf8_len(code@.take(it.index() as int)),
            n <= u32::MAX,
    {
        let ghost i = it.index() as int;
        let ghost s = code@;
        proof {
            assert(s[i] == c);
            assert(s.take(i + 1) =~= s.take(i) + seq![c]);
            lemma_utf8_len_concat(s.take(i), seq![c]);
            assert(vstd::utf8::encode_utf8(seq![c]) =~= vstd::utf8::encode_scalar(c as u32)
                + vstd::utf8::encode_utf8(seq![c].drop_first()));
            assert(seq![c].drop_first() =~= Seq::<char>::empty());
            assert(vstd::utf8::encode_utf8(Seq::<char>::empty()) =~= Seq::<u8>::empty());
            assert(s =~= s.take(i + 1) + s.skip(i + 1));
            lemma_utf8_len_concat(s.take(i + 1), s.skip(i + 1));
        }
        let w = char_utf8_len(c) as u64;
        n = n + w;
        if n > 4294967295 {
            return false;
        }
    }
    proof {
        assert(code@.take(code@.len() as int) =~= code@);
    }
    true
}

/// Why a text cannot be parsed.
#[derive(Debug, Clone, Copy, PartialEq, Eq, Structural)]
pub enum ParseError {
    /// A character that the lexer cannot cut off: it panics there.
    Unlexable,
    /// The text takes more than `u32::MAX` bytes, more than a tree can hold.
    TooLong,
    /// A statement that takes no token: the parser goes round forever.
    NoProgress,
}

/// The syntax tree of `code`, or the reason why `parse` would not give one.
pub fn parse_checked(code: &str) -> (r: Result<SyntaxNode, ParseError>)
    ensures
        r == Err::<SyntaxNode, ParseError>(ParseError::Unlexable) <==> !lexable(code@),
        r == Err::<SyntaxNode, ParseError>(ParseError::TooLong) <==> lexable(code@) && utf8_len(
            code@,
        ) > u32::MAX,
        r == Err::<SyntaxNode, ParseError>(ParseError::NoProgress) <==> lexable(code@) && utf8_len(
            code@,
        ) <= u32::MAX && !parse_terminates(code@),
        r matches Ok(root) ==> node_tree(root) == p_source_file(lex(code@))->0 && node_offsets_ok(
            root,
            0,
        ) && node_text(root) == code@,
{
    if !is_lexable(code) {
        return Err(ParseError::Unlexable);
    }
    if !fits_text_size(code) {
        return Err(ParseError::TooLong);
    }
    match try_parse(code) {
        Some(root) => Ok(root),
        None => Err(ParseError::NoProgress),
    }
}

} // verus!
