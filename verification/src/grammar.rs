//! The grammar of the language, as the tree that the parser builds for a
//! sequence of tokens. Every rule takes what is left of the tokens and gives
//! the trees that it adds to the node being built and what is left after it,
//! or `None` where the parser would never stop: a statement that consumes no
//! token is parsed again and again.

use vstd::prelude::*;

use crate::green::{GreenTree};
use crate::syntax_kind::{kind_raw, SyntaxKind};

verus! {

/// A token: its kind and its text.
pub type Tok = (SyntaxKind, Seq<char>);

/// The trees a rule adds and the tokens left after it; `None` where parsing
/// does not end.
pub type Parsed = Option<(Seq<GreenTree>, Seq<Tok>)>;

/// A token as a leaf of the green tree.
pub open spec fn tok_tree(t: Tok) -> GreenTree {
    GreenTree::Token(kind_raw(t.0), t.1)
}

/// A node of the green tree.
pub open spec fn node(kind: SyntaxKind, children: Seq<GreenTree>) -> GreenTree {
    GreenTree::Node(kind_raw(kind), children)
}

/// The kind of the first token, if any.
pub open spec fn first_kind(s: Seq<Tok>) -> Option<SyntaxKind> {
    if s.len() > 0 {
        Some(s[0].0)
    } else {
        None
    }
}

/// The number of whitespace tokens at the start of `s`.
pub open spec fn ws_count(s: Seq<Tok>) -> nat
    decreases s.len(),
{
    if s.len() > 0 && s[0].0 == SyntaxKind::WHITESPACE {
        1 + ws_count(s.drop_first())
    } else {
        0
    }
}

/// The first `n` tokens of `s` as leaves.
pub open spec fn leaves(s: Seq<Tok>, n: nat) -> Seq<GreenTree> {
    s.take(n as int).map_values(|t: Tok| tok_tree(t))
}

/// The first token as a leaf if it has the kind `k`, and what is left.
pub open spec fn opt_tok(s: Seq<Tok>, k: SyntaxKind) -> (Seq<GreenTree>, Seq<Tok>) {
    if first_kind(s) == Some(k) {
        (seq![tok_tree(s[0])], s.drop_first())
    } else {
        (seq![], s)
    }
}

/// An identifier wrapped in a `NAME_REF` node if the first token is one, and
/// what is left.
pub open spec fn opt_name(s: Seq<Tok>) -> (Seq<GreenTree>, Seq<Tok>) {
    if first_kind(s) == Some(SyntaxKind::IDENT) {
        (seq![node(SyntaxKind::NAME_REF, seq![tok_tree(s[0])])], s.drop_first())
    } else {
        (seq![], s)
    }
}

/// `trees` in front of what a rule adds.
pub open spec fn prepend(trees: Seq<GreenTree>, r: Parsed) -> Parsed {
    match r {
        None => None,
        Some((els, rest)) => Some((trees + els, rest)),
    }
}

/// The binding powers (left, right) of a binary operator.
pub open spec fn binding_power(k: Option<SyntaxKind>) -> Option<(int, int)> {
    match k {
        Some(SyntaxKind::PLUS) => Some((1, 2)),
        Some(SyntaxKind::MINUS) => Some((1, 2)),
        Some(SyntaxKind::STAR) => Some((3, 4)),
        _ => None,
    }
}

pub proof fn lemma_ws_count(s: Seq<Tok>)
    ensures
        ws_count(s) <= s.len(),
        forall|i: int| 0 <= i < ws_count(s) ==> (#[trigger] s[i]).0 == SyntaxKind::WHITESPACE,
        ws_count(s) < s.len() ==> s[ws_count(s) as int].0 != SyntaxKind::WHITESPACE,
    decreases s.len(),
{
    if s.len() > 0 && s[0].0 == SyntaxKind::WHITESPACE {
        lemma_ws_count(s.drop_first());
        assert forall|i: int| 0 <= i < ws_count(s) implies (#[trigger] s[i]).0
            == SyntaxKind::WHITESPACE by {
            if i > 0 {
                assert(s[i] == s.drop_first()[i - 1]);
            }
        }
        if ws_count(s) < s.len() {
            assert(s[ws_count(s) as int] == s.drop_first()[ws_count(s) - 1]);
        }
    }
}

/// A statement: `let`, `scope`, `import`, or an expression statement; the
/// whitespace in front of it stays outside its node.
pub open spec fn p_stmt(s: Seq<Tok>) -> Parsed
    decreases s.len(), 5int,
{
    let n = ws_count(s);
    proof {
        lemma_ws_count(s);
    }
    let r = s.skip(n as int);
    let w = leaves(s, n);
    match first_kind(r) {
        Some(SyntaxKind::LET_KW) => prepend(w, p_let(r)),
        Some(SyntaxKind::SCOPE_KW) => prepend(w, p_scope(r)),
        Some(SyntaxKind::IMPORT_KW) => {
            let (els, rest) = p_import(r);
            Some((w + els, rest))
        },
        Some(_) => prepend(w, p_expr_stmt(r)),
        None => Some((w, r)),
    }
}

/// The front of a `let` statement: `let`, an optional name and an optional
/// `=`, with the whitespace between them; and what is left.
pub open spec fn let_head(s: Seq<Tok>) -> (Seq<GreenTree>, Seq<Tok>) {
    let t1 = s.drop_first();
    let n1 = ws_count(t1);
    let a = t1.skip(n1 as int);
    let (nm, b) = opt_name(a);
    let n2 = ws_count(b);
    let c = b.skip(n2 as int);
    let (eq, d) = opt_tok(c, SyntaxKind::EQ);
    let n3 = ws_count(d);
    (
        seq![tok_tree(s[0])] + leaves(t1, n1) + nm + leaves(b, n2) + eq + leaves(d, n3),
        d.skip(n3 as int),
    )
}

pub proof fn lemma_let_head_len(s: Seq<Tok>)
    requires
        s.len() > 0,
    ensures
        let_head(s).1.len() < s.len(),
{
    let t1 = s.drop_first();
    lemma_ws_count(t1);
    let a = t1.skip(ws_count(t1) as int);
    let b = opt_name(a).1;
    lemma_ws_count(b);
    let c = b.skip(ws_count(b) as int);
    let d = opt_tok(c, SyntaxKind::EQ).1;
    lemma_ws_count(d);
}

/// `let`, then an optional name, an optional `=`, an expression and an optional `;`.
pub open spec fn p_let(s: Seq<Tok>) -> Parsed
    decreases s.len(), 4int,
{
    if s.len() == 0 {
        None
    } else {
        let (head, e) = let_head(s);
        proof {
            lemma_let_head_len(s);
        }
        match p_expr(e, 0) {
            None => None,
            Some((ex, f)) => {
                let n4 = ws_count(f);
                proof {
                    lemma_ws_count(f);
                }
                let g = f.skip(n4 as int);
                let (semi, h) = opt_tok(g, SyntaxKind::SEMICOLON);
                Some((seq![node(SyntaxKind::LET_STMT, head + ex + leaves(f, n4) + semi)], h))
            },
        }
    }
}

/// `scope`, then an optional name and an optional block.
pub open spec fn p_scope(s: Seq<Tok>) -> Parsed
    decreases s.len(), 4int,
{
    if s.len() == 0 {
        None
    } else {
        let t1 = s.drop_first();
        let n1 = ws_count(t1);
        proof {
            lemma_ws_count(t1);
        }
        let a = t1.skip(n1 as int);
        let (nm, b) = opt_name(a);
        let n2 = ws_count(b);
        proof {
            lemma_ws_count(b);
        }
        let c = b.skip(n2 as int);
        let head = seq![tok_tree(s[0])] + leaves(t1, n1) + nm + leaves(b, n2);
        if first_kind(c) == Some(SyntaxKind::L_CURLY) {
            match p_block(c) {
                None => None,
                Some((blk, d)) => Some((seq![node(SyntaxKind::SCOPE_DEF, head + blk)], d)),
            }
        } else {
            Some((seq![node(SyntaxKind::SCOPE_DEF, head)], c))
        }
    }
}

/// `import`, then a path and an optional `;`.
pub open spec fn p_import(s: Seq<Tok>) -> (Seq<GreenTree>, Seq<Tok>) {
    if s.len() == 0 {
        (seq![], s)
    } else {
        let t1 = s.drop_first();
        let n1 = ws_count(t1);
        let a = t1.skip(n1 as int);
        let (pn, b) = p_path(a);
        let n2 = ws_count(b);
        let c = b.skip(n2 as int);
        let (semi, d) = opt_tok(c, SyntaxKind::SEMICOLON);
        (
            seq![
                node(
                    SyntaxKind::IMPORT_STMT,
                    seq![tok_tree(s[0])] + leaves(t1, n1) + seq![pn] + leaves(b, n2) + semi,
                ),
            ],
            d,
        )
    }
}

/// A path: an optional identifier, then any number of `.` each followed by an
/// optional identifier; the whitespace after the last part is inside the node.
pub open spec fn p_path(s: Seq<Tok>) -> (GreenTree, Seq<Tok>) {
    let (first, b) = opt_tok(s, SyntaxKind::IDENT);
    let (more, c) = p_path_rest(b);
    (node(SyntaxKind::PATH, first + more), c)
}

/// The parts of a path after its first identifier.
pub open spec fn p_path_rest(s: Seq<Tok>) -> (Seq<GreenTree>, Seq<Tok>)
    decreases s.len(),
{
    let n = ws_count(s);
    proof {
        lemma_ws_count(s);
    }
    let r = s.skip(n as int);
    let w = leaves(s, n);
    if first_kind(r) == Some(SyntaxKind::DOT) {
        let t = r.drop_first();
        let n2 = ws_count(t);
        proof {
            lemma_ws_count(t);
        }
        let u = t.skip(n2 as int);
        let (id, v) = opt_tok(u, SyntaxKind::IDENT);
        let (more, x) = p_path_rest(v);
        (w + seq![tok_tree(r[0])] + leaves(t, n2) + id + more, x)
    } else {
        (w, r)
    }
}

/// An expression statement: an expression and an optional `;`.
pub open spec fn p_expr_stmt(s: Seq<Tok>) -> Parsed
    decreases s.len(), 4int,
{
    match p_expr(s, 0) {
        None => None,
        Some((ex, f)) => {
            let n = ws_count(f);
            let g = f.skip(n as int);
            let (semi, h) = opt_tok(g, SyntaxKind::SEMICOLON);
            Some((seq![node(SyntaxKind::EXPR_STMT, ex + leaves(f, n) + semi)], h))
        },
    }
}

/// An expression whose operators bind at least as tightly as `min_bp`: a
/// literal, a name or a block, then binary operators; nothing when the first
/// token starts none of these.
pub open spec fn p_expr(s: Seq<Tok>, min_bp: int) -> Parsed
    decreases s.len(), 3int,
{
    let n = ws_count(s);
    proof {
        lemma_ws_count(s);
    }
    let r = s.skip(n as int);
    let w = leaves(s, n);
    match first_kind(r) {
        Some(SyntaxKind::INT) => prepend(
            w,
            p_expr_ops(seq![node(SyntaxKind::LITERAL, seq![tok_tree(r[0])])], r.drop_first(), min_bp),
        ),
        Some(SyntaxKind::IDENT) => prepend(
            w,
            p_expr_ops(
                seq![node(SyntaxKind::NAME_REF, seq![tok_tree(r[0])])],
                r.drop_first(),
                min_bp,
            ),
        ),
        Some(SyntaxKind::L_CURLY) => match p_block(r) {
            None => None,
            Some((blk, t)) => if t.len() < r.len() {
                prepend(w, p_expr_ops(blk, t, min_bp))
            } else {
                None
            },
        },
        _ => Some((w, r)),
    }
}

/// The operators after an operand: `acc` holds what the expression has so far.
/// Each operator wraps what came before, itself and its right operand in a
/// `BINARY_EXPR` node; the whitespace before an operator that ends the
/// expression stays after it.
pub open spec fn p_expr_ops(acc: Seq<GreenTree>, s: Seq<Tok>, min_bp: int) -> Parsed
    decreases s.len(), 1int,
{
    let n = ws_count(s);
    proof {
        lemma_ws_count(s);
    }
    let r = s.skip(n as int);
    let acc2 = acc + leaves(s, n);
    match binding_power(first_kind(r)) {
        None => Some((acc2, r)),
        Some((l_bp, r_bp)) => if l_bp < min_bp {
            Some((acc2, r))
        } else {
            match p_expr(r.drop_first(), r_bp) {
                None => None,
                Some((rhs, t)) => if t.len() < s.len() {
                    p_expr_ops(
                        seq![node(SyntaxKind::BINARY_EXPR, acc2 + seq![tok_tree(r[0])] + rhs)],
                        t,
                        min_bp,
                    )
                } else {
                    None
                },
            }
        },
    }
}

/// A block: `{`, statements, and `}` (or the end of the input).
pub open spec fn p_block(s: Seq<Tok>) -> Parsed
    decreases s.len(), 2int,
{
    if s.len() == 0 {
        None
    } else {
        match p_block_items(s.drop_first()) {
            None => None,
            Some((items, t)) => Some(
                (seq![node(SyntaxKind::BLOCK_EXPR, seq![tok_tree(s[0])] + items)], t),
            ),
        }
    }
}

/// The statements of a block up to and with its `}`; a statement that consumes
/// nothing makes the parser go round forever.
pub open spec fn p_block_items(s: Seq<Tok>) -> Parsed
    decreases s.len(), 6int,
{
    let n = ws_count(s);
    proof {
        lemma_ws_count(s);
    }
    let r = s.skip(n as int);
    let w = leaves(s, n);
    match first_kind(r) {
        Some(SyntaxKind::R_CURLY) => Some((w + seq![tok_tree(r[0])], r.drop_first())),
        None => Some((w, r)),
        Some(_) => match p_stmt(r) {
            None => None,
            Some((els, t)) => if t.len() < r.len() {
                prepend(w + els, p_block_items(t))
            } else {
                None
            },
        },
    }
}

/// The statements of the file, up to the end of the input; a statement that
/// consumes nothing makes the parser go round forever.
pub open spec fn p_items(s: Seq<Tok>) -> Parsed
    decreases s.len(),
{
    if s.len() == 0 {
        Some((seq![], s))
    } else {
        match p_stmt(s) {
            None => None,
            Some((els, t)) => if t.len() < s.len() {
                prepend(els, p_items(t))
            } else {
                None
            },
        }
    }
}

/// The tree of a whole file, or `None` where the parser would never stop.
pub open spec fn p_source_file(toks: Seq<Tok>) -> Option<GreenTree> {
    match p_items(toks) {
        None => None,
        Some((items, _)) => Some(node(SyntaxKind::SOURCE_FILE, items)),
    }
}

/// Whether a token is an operand: a number or a name.
pub open spec fn is_operand(t: Tok) -> bool {
    t.0 == SyntaxKind::INT || t.0 == SyntaxKind::IDENT
}

/// Whether a token is a binary operator.
pub open spec fn is_operator(t: Tok) -> bool {
    t.0 == SyntaxKind::PLUS || t.0 == SyntaxKind::MINUS || t.0 == SyntaxKind::STAR
}

/// How tightly an operator binds: `*` more than `+` and `-`, which bind
/// equally.
pub open spec fn precedence(t: Tok) -> int {
    if t.0 == SyntaxKind::STAR {
        2
    } else {
        1
    }
}

/// An operand as a tree: a `LITERAL` node for a number, a `NAME_REF` for a
/// name.
pub open spec fn operand_tree(t: Tok) -> GreenTree {
    if t.0 == SyntaxKind::INT {
        node(SyntaxKind::LITERAL, seq![tok_tree(t)])
    } else {
        node(SyntaxKind::NAME_REF, seq![tok_tree(t)])
    }
}

/// A binary expression of two trees.
pub open spec fn binary(l: GreenTree, op: Tok, r: GreenTree) -> GreenTree {
    node(SyntaxKind::BINARY_EXPR, seq![l, tok_tree(op), r])
}

proof fn lemma_no_ws(s: Seq<Tok>)
    requires
        s.len() > 0 ==> s[0].0 != SyntaxKind::WHITESPACE,
    ensures
        ws_count(s) == 0,
        s.skip(0) == s,
        leaves(s, 0) == Seq::<GreenTree>::empty(),
{
    assert(s.skip(0) =~= s);
    assert(leaves(s, 0) =~= Seq::<GreenTree>::empty());
}

proof fn lemma_expr_operand(x: Tok, t: Seq<Tok>, bp: int)
    requires
        is_operand(x),
    ensures
        p_expr(seq![x] + t, bp) == p_expr_ops(seq![operand_tree(x)], t, bp),
{
    let s = seq![x] + t;
    lemma_no_ws(s);
    assert(s.drop_first() =~= t);
    assert(seq![] + seq![operand_tree(x)] =~= seq![operand_tree(x)]);
    match p_expr_ops(seq![operand_tree(x)], t, bp) {
        Some((e, r)) => {
            assert(Seq::<GreenTree>::empty() + e =~= e);
        },
        None => {},
    }
}

proof fn lemma_ops_end(acc: Seq<GreenTree>, bp: int)
    ensures
        p_expr_ops(acc, Seq::<Tok>::empty(), bp) == Some((acc, Seq::<Tok>::empty())),
{
    lemma_no_ws(Seq::<Tok>::empty());
    assert(acc + Seq::<GreenTree>::empty() =~= acc);
}

/// An operator between what an expression has so far and an operand.
proof fn lemma_ops_step(acc: Seq<GreenTree>, o: Tok, y: Tok, t: Seq<Tok>, bp: int)
    requires
        is_operator(o),
        is_operand(y),
    ensures
        binding_power(Some(o.0)) matches Some((l, r)) && (l < bp ==> p_expr_ops(acc, seq![o, y] + t, bp)
            == Some((acc, seq![o, y] + t))) && (l >= bp ==> p_expr_ops(acc, seq![o, y] + t, bp)
            == match p_expr_ops(seq![operand_tree(y)], t, r) {
            None => None,
            Some((rhs, t2)) => if t2.len() < t.len() + 2 {
                p_expr_ops(seq![node(SyntaxKind::BINARY_EXPR, acc + seq![tok_tree(o)] + rhs)], t2, bp)
            } else {
                None
            },
        }),
{
    let s = seq![o, y] + t;
    lemma_no_ws(s);
    assert(acc + leaves(s, 0) =~= acc);
    assert(s.drop_first() =~= seq![y] + t);
    lemma_expr_operand(y, t, (binding_power(Some(o.0))->0).1);
}

/// Operator precedence and associativity: of two operators between three
/// operands, the first takes the middle operand where it binds at least as
/// tightly as the second (so `+` and `-` group to the left, and `*` before
/// `+` or `-`), and the second takes it otherwise (`a + b * c`). The whole
/// is one expression statement.
pub proof fn law_operator_precedence(x: Tok, o1: Tok, y: Tok, o2: Tok, z: Tok)
    requires
        is_operand(x),
        is_operand(y),
        is_operand(z),
        is_operator(o1),
        is_operator(o2),
    ensures
        p_source_file(seq![x, o1, y, o2, z]) == Some(
            node(
                SyntaxKind::SOURCE_FILE,
                seq![
                    node(
                        SyntaxKind::EXPR_STMT,
                        seq![
                            if precedence(o1) >= precedence(o2) {
                                binary(binary(operand_tree(x), o1, operand_tree(y)), o2, operand_tree(z))
                            } else {
                                binary(operand_tree(x), o1, binary(operand_tree(y), o2, operand_tree(z)))
                            },
                        ],
                    ),
                ],
            ),
        ),
{
    let e = Seq::<Tok>::empty();
    let s = seq![x, o1, y, o2, z];
    let xt = operand_tree(x);
    let yt = operand_tree(y);
    let zt = operand_tree(z);
    let (l1, r1) = binding_power(Some(o1.0))->0;
    let (l2, r2) = binding_power(Some(o2.0))->0;
    assert(s =~= seq![x] + seq![o1, y, o2, z]);
    assert(seq![o1, y, o2, z] =~= seq![o1, y] + seq![o2, z]);
    assert(seq![o2, z] =~= seq![o2, z] + e);
    lemma_expr_operand(x, seq![o1, y, o2, z], 0);
    lemma_ops_step(seq![xt], o1, y, seq![o2, z], 0);
    lemma_ops_step(seq![yt], o2, z, e, r1);
    lemma_ops_end(seq![zt], r2);
    let inner = node(SyntaxKind::BINARY_EXPR, seq![yt] + seq![tok_tree(o2)] + seq![zt]);
    assert(seq![yt] + seq![tok_tree(o2)] + seq![zt] =~= seq![yt, tok_tree(o2), zt]);
    lemma_ops_end(seq![inner], r1);
    let expected = if precedence(o1) >= precedence(o2) {
        binary(binary(xt, o1, yt), o2, zt)
    } else {
        binary(xt, o1, binary(yt, o2, zt))
    };
    if l2 < r1 {
        assert(precedence(o1) >= precedence(o2));
        let left = node(SyntaxKind::BINARY_EXPR, seq![xt] + seq![tok_tree(o1)] + seq![yt]);
        assert(seq![xt] + seq![tok_tree(o1)] + seq![yt] =~= seq![xt, tok_tree(o1), yt]);
        lemma_ops_step(seq![left], o2, z, e, 0);
        lemma_ops_end(seq![zt], r2);
        let whole = node(SyntaxKind::BINARY_EXPR, seq![left] + seq![tok_tree(o2)] + seq![zt]);
        assert(seq![left] + seq![tok_tree(o2)] + seq![zt] =~= seq![left, tok_tree(o2), zt]);
        lemma_ops_end(seq![whole], 0);
        assert(p_expr(s, 0) == Some((seq![expected], e)));
    } else {
        assert(precedence(o1) < precedence(o2));
        let whole = node(SyntaxKind::BINARY_EXPR, seq![xt] + seq![tok_tree(o1)] + seq![inner]);
        assert(seq![xt] + seq![tok_tree(o1)] + seq![inner] =~= seq![xt, tok_tree(o1), inner]);
        lemma_ops_end(seq![whole], 0);
        assert(p_expr(s, 0) == Some((seq![expected], e)));
    }
    lemma_no_ws(e);
    assert(seq![expected] + leaves(e, 0) + opt_tok(e, SyntaxKind::SEMICOLON).0 =~= seq![expected]);
    assert(p_expr_stmt(s) == Some((seq![node(SyntaxKind::EXPR_STMT, seq![expected])], e)));
    lemma_no_ws(s);
    assert(p_stmt(s) == Some((seq![node(SyntaxKind::EXPR_STMT, seq![expected])], e))) by {
        assert(Seq::<GreenTree>::empty() + seq![node(SyntaxKind::EXPR_STMT, seq![expected])]
            =~= seq![node(SyntaxKind::EXPR_STMT, seq![expected])]);
    }
    assert(p_items(e) == Some((Seq::<GreenTree>::empty(), e)));
    assert(seq![node(SyntaxKind::EXPR_STMT, seq![expected])] + Seq::<GreenTree>::empty()
        =~= seq![node(SyntaxKind::EXPR_STMT, seq![expected])]);
}

/// An expression ends before a token that is no operator.
proof fn lemma_ops_stop(acc: Seq<GreenTree>, t: Tok, r: Seq<Tok>, bp: int)
    requires
        t.0 != SyntaxKind::WHITESPACE,
        !is_operator(t),
    ensures
        p_expr_ops(acc, seq![t] + r, bp) == Some((acc, seq![t] + r)),
{
    lemma_no_ws(seq![t] + r);
    assert(acc + leaves(seq![t] + r, 0) =~= acc);
}

/// A `let` statement `let NAME = OPERAND;` is a `LET_STMT` node that holds
/// the keyword, the name as a `NAME_REF`, the `=`, the operand and the `;`,
/// and what follows is left.
#[verifier::spinoff_prover]
#[verifier::rlimit(60)]
pub proof fn law_let_statement(kw: Tok, name: Tok, eq: Tok, x: Tok, semi: Tok, rest: Seq<Tok>)
    requires
        kw.0 == SyntaxKind::LET_KW,
        name.0 == SyntaxKind::IDENT,
        eq.0 == SyntaxKind::EQ,
        is_operand(x),
        semi.0 == SyntaxKind::SEMICOLON,
    ensures
        p_stmt(seq![kw, name, eq, x, semi] + rest) == Some(
            (
                seq![
                    node(
                        SyntaxKind::LET_STMT,
                        seq![
                            tok_tree(kw),
                            node(SyntaxKind::NAME_REF, seq![tok_tree(name)]),
                            tok_tree(eq),
                            operand_tree(x),
                            tok_tree(semi),
                        ],
                    ),
                ],
                rest,
            ),
        ),
{
    let s = seq![kw, name, eq, x, semi] + rest;
    let t1 = seq![name, eq, x, semi] + rest;
    let b = seq![eq, x, semi] + rest;
    let d = seq![x, semi] + rest;
    let f = seq![semi] + rest;
    lemma_no_ws(s);
    lemma_no_ws(t1);
    lemma_no_ws(b);
    lemma_no_ws(d);
    lemma_no_ws(f);
    assert(s.drop_first() =~= t1);
    assert(t1.drop_first() =~= b);
    assert(b.drop_first() =~= d);
    assert(d =~= seq![x] + f);
    assert(f.drop_first() =~= rest);
    let nr = node(SyntaxKind::NAME_REF, seq![tok_tree(name)]);
    let head = seq![tok_tree(kw)] + leaves(t1, 0) + seq![nr] + leaves(b, 0) + seq![tok_tree(eq)] + leaves(d, 0);
    assert(head =~= seq![tok_tree(kw), nr, tok_tree(eq)]);
    assert(let_head(s) == (head, d));
    lemma_expr_operand(x, f, 0);
    lemma_ops_stop(seq![operand_tree(x)], semi, rest, 0);
    assert(p_expr(d, 0) == Some((seq![operand_tree(x)], f)));
    let cs = head + seq![operand_tree(x)] + leaves(f, 0) + seq![tok_tree(semi)];
    assert(cs =~= seq![tok_tree(kw), nr, tok_tree(eq), operand_tree(x), tok_tree(semi)]);
    assert(p_let(s) == Some((seq![node(SyntaxKind::LET_STMT, cs)], rest)));
    assert(Seq::<GreenTree>::empty() + seq![node(SyntaxKind::LET_STMT, cs)] =~= seq![
        node(SyntaxKind::LET_STMT, cs),
    ]);
}

/// An `import` statement `import A.B;` is an `IMPORT_STMT` node that holds
/// the keyword, one `PATH` node with both identifiers and the dot, and the
/// `;`; what follows is left.
pub proof fn law_import_statement(kw: Tok, a: Tok, dot: Tok, b: Tok, semi: Tok, rest: Seq<Tok>)
    requires
        kw.0 == SyntaxKind::IMPORT_KW,
        a.0 == SyntaxKind::IDENT,
        dot.0 == SyntaxKind::DOT,
        b.0 == SyntaxKind::IDENT,
        semi.0 == SyntaxKind::SEMICOLON,
    ensures
        p_stmt(seq![kw, a, dot, b, semi] + rest) == Some(
            (
                seq![
                    node(
                        SyntaxKind::IMPORT_STMT,
                        seq![
                            tok_tree(kw),
                            node(SyntaxKind::PATH, seq![tok_tree(a), tok_tree(dot), tok_tree(b)]),
                            tok_tree(semi),
                        ],
                    ),
                ],
                rest,
            ),
        ),
{
    let s = seq![kw, a, dot, b, semi] + rest;
    let t1 = seq![a, dot, b, semi] + rest;
    let u = seq![dot, b, semi] + rest;
    let v = seq![b, semi] + rest;
    let w = seq![semi] + rest;
    lemma_no_ws(s);
    lemma_no_ws(t1);
    lemma_no_ws(u);
    lemma_no_ws(v);
    lemma_no_ws(w);
    assert(s.drop_first() =~= t1);
    assert(t1.drop_first() =~= u);
    assert(u.drop_first() =~= v);
    assert(v.drop_first() =~= w);
    assert(p_path_rest(w) == (Seq::<GreenTree>::empty(), w)) by {
        assert(leaves(w, 0) =~= Seq::<GreenTree>::empty());
    }
    let more = leaves(u, 0) + seq![tok_tree(dot)] + leaves(v, 0) + seq![tok_tree(b)] + Seq::<GreenTree>::empty();
    assert(more =~= seq![tok_tree(dot), tok_tree(b)]);
    assert(p_path_rest(u) == (more, w));
    let pn = node(SyntaxKind::PATH, seq![tok_tree(a)] + more);
    assert(seq![tok_tree(a)] + more =~= seq![tok_tree(a), tok_tree(dot), tok_tree(b)]);
    assert(p_path(t1) == (pn, w));
    let cs = seq![tok_tree(kw)] + leaves(t1, 0) + seq![pn] + leaves(w, 0) + seq![tok_tree(semi)];
    assert(cs =~= seq![tok_tree(kw), pn, tok_tree(semi)]);
    assert(w.drop_first() =~= rest);
    assert(p_import(s) == (seq![node(SyntaxKind::IMPORT_STMT, cs)], rest));
    assert(Seq::<GreenTree>::empty() + seq![node(SyntaxKind::IMPORT_STMT, cs)] =~= seq![
        node(SyntaxKind::IMPORT_STMT, cs),
    ]);
}

/// A `scope` definition `scope NAME { }` is a `SCOPE_DEF` node that holds the
/// keyword, the name as a `NAME_REF` and the body as a `BLOCK_EXPR`; what
/// follows is left.
pub proof fn law_scope_statement(kw: Tok, name: Tok, open: Tok, close: Tok, rest: Seq<Tok>)
    requires
        kw.0 == SyntaxKind::SCOPE_KW,
        name.0 == SyntaxKind::IDENT,
        open.0 == SyntaxKind::L_CURLY,
        close.0 == SyntaxKind::R_CURLY,
    ensures
        p_stmt(seq![kw, name, open, close] + rest) == Some(
            (
                seq![
                    node(
                        SyntaxKind::SCOPE_DEF,
                        seq![
                            tok_tree(kw),
                            node(SyntaxKind::NAME_REF, seq![tok_tree(name)]),
                            node(SyntaxKind::BLOCK_EXPR, seq![tok_tree(open), tok_tree(close)]),
                        ],
                    ),
                ],
                rest,
            ),
        ),
{
    let s = seq![kw, name, open, close] + rest;
    let t1 = seq![name, open, close] + rest;
    let c = seq![open, close] + rest;
    let d = seq![close] + rest;
    lemma_no_ws(s);
    lemma_no_ws(t1);
    lemma_no_ws(c);
    lemma_no_ws(d);
    assert(s.drop_first() =~= t1);
    assert(t1.drop_first() =~= c);
    assert(c.drop_first() =~= d);
    assert(d.drop_first() =~= rest);
    assert(p_block_items(d) == Some((seq![tok_tree(close)], rest))) by {
        assert(leaves(d, 0) + seq![tok_tree(close)] =~= seq![tok_tree(close)]);
    }
    let blk = node(SyntaxKind::BLOCK_EXPR, seq![tok_tree(open)] + seq![tok_tree(close)]);
    assert(seq![tok_tree(open)] + seq![tok_tree(close)] =~= seq![tok_tree(open), tok_tree(close)]);
    assert(p_block(c) == Some((seq![blk], rest)));
    let nr = node(SyntaxKind::NAME_REF, seq![tok_tree(name)]);
    let head = seq![tok_tree(kw)] + leaves(t1, 0) + seq![nr] + leaves(c, 0);
    assert(head + seq![blk] =~= seq![tok_tree(kw), nr, blk]);
    assert(p_scope(s) == Some((seq![node(SyntaxKind::SCOPE_DEF, head + seq![blk])], rest)));
    assert(Seq::<GreenTree>::empty() + seq![node(SyntaxKind::SCOPE_DEF, head + seq![blk])] =~= seq![
        node(SyntaxKind::SCOPE_DEF, head + seq![blk]),
    ]);
}

/// An expression statement `OPERAND;` is an `EXPR_STMT` node that holds the
/// operand and the `;`; what follows is left. Whitespace in front of a
/// statement stays outside its node.
pub proof fn law_expression_statement(ws: Seq<Tok>, x: Tok, semi: Tok, rest: Seq<Tok>)
    requires
        forall|i: int| 0 <= i < ws.len() ==> (#[trigger] ws[i]).0 == SyntaxKind::WHITESPACE,
        is_operand(x),
        semi.0 == SyntaxKind::SEMICOLON,
    ensures
        p_stmt(ws + seq![x, semi] + rest) == Some(
            (
                ws.map_values(|t: Tok| tok_tree(t)) + seq![
                    node(SyntaxKind::EXPR_STMT, seq![operand_tree(x), tok_tree(semi)]),
                ],
                rest,
            ),
        ),
{
    let s = ws + seq![x, semi] + rest;
    let r = seq![x, semi] + rest;
    let f = seq![semi] + rest;
    lemma_ws_prefix(ws, r);
    assert(s == ws + r);
    assert(s.skip(ws.len() as int) =~= r);
    assert(leaves(s, ws.len()) =~= ws.map_values(|t: Tok| tok_tree(t)));
    lemma_no_ws(r);
    lemma_no_ws(f);
    assert(r =~= seq![x] + f);
    assert(f.drop_first() =~= rest);
    lemma_expr_operand(x, f, 0);
    lemma_ops_stop(seq![operand_tree(x)], semi, rest, 0);
    assert(p_expr(r, 0) == Some((seq![operand_tree(x)], f)));
    assert(seq![operand_tree(x)] + leaves(f, 0) + seq![tok_tree(semi)] =~= seq![
        operand_tree(x),
        tok_tree(semi),
    ]);
}

/// A run of whitespace tokens in front of a token that is not whitespace is
/// counted whole.
proof fn lemma_ws_prefix(ws: Seq<Tok>, r: Seq<Tok>)
    requires
        forall|i: int| 0 <= i < ws.len() ==> (#[trigger] ws[i]).0 == SyntaxKind::WHITESPACE,
        r.len() > 0,
        r[0].0 != SyntaxKind::WHITESPACE,
    ensures
        ws_count(ws + r) == ws.len(),
    decreases ws.len(),
{
    if ws.len() > 0 {
        assert((ws + r).drop_first() =~= ws.drop_first() + r);
        lemma_ws_prefix(ws.drop_first(), r);
    } else {
        assert(ws + r =~= r);
    }
}

} // verus!
