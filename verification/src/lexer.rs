use vstd::prelude::*;

use crate::syntax_kind::SyntaxKind;

verus! {

/// Whether `c` has the Unicode `White_Space` property: the code points of
/// that property in Unicode's `PropList.txt`.
pub open spec fn unicode_white_space(c: char) -> bool {
    let v = c as u32;
    ||| 0x09 <= v <= 0x0D
    ||| v == 0x20
    ||| v == 0x85
    ||| v == 0xA0
    ||| v == 0x1680
    ||| 0x2000 <= v <= 0x200A
    ||| v == 0x2028
    ||| v == 0x2029
    ||| v == 0x202F
    ||| v == 0x205F
    ||| v == 0x3000
}

/// Whether `c` is in one of Unicode's number categories, as `char::is_numeric` decides.
pub uninterp spec fn unicode_numeric(c: char) -> bool;

/// Whether `c` is alphabetic or numeric in Unicode, as `char::is_alphanumeric` decides.
pub uninterp spec fn unicode_alphanumeric(c: char) -> bool;

/// `char::is_whitespace`: whether `c` has the `White_Space` property.
pub assume_specification[ char::is_whitespace ](c: char) -> (r: bool)
    ensures
        r == unicode_white_space(c),
;

/// `char::is_numeric`: whether `c` is in one of Unicode's number categories,
/// named by `unicode_numeric`; among ASCII characters those are the digits
/// `0` to `9`.
pub assume_specification[ char::is_numeric ](c: char) -> (r: bool)
    ensures
        r == unicode_numeric(c),
        (c as u32) < 128 ==> (r <==> ('0' <= c && c <= '9')),
;

/// `char::is_alphanumeric`: whether `c` is alphabetic or numeric in Unicode,
/// named by `unicode_alphanumeric`; among ASCII characters those are the
/// letters and the digits.
pub assume_specification[ char::is_alphanumeric ](c: char) -> (r: bool)
    ensures
        r == unicode_alphanumeric(c),
        (c as u32) < 128 ==> (r <==> (('0' <= c && c <= '9') || ('a' <= c && c <= 'z') || ('A' <= c
            && c <= 'Z'))),
;

/// The characters that may continue an identifier.
pub open spec fn ident_continue(c: char) -> bool {
    unicode_alphanumeric(c) || c == '_'
}

/// The characters that may start an identifier.
pub open spec fn ident_start(c: char) -> bool {
    ('a' <= c <= 'z') || ('A' <= c <= 'Z') || c == '_'
}

/// The character classes that tokens run over: whitespace (0), numeric
/// characters (1), and characters that may continue an identifier (2).
pub open spec fn in_class(class: u8, c: char) -> bool {
    if class == 0 {
        unicode_white_space(c)
    } else if class == 1 {
        unicode_numeric(c)
    } else {
        ident_continue(c)
    }
}

/// The index of the first character of `s` at or after `i` that is not in the
/// class `p`, or the length of `s` when there is none.
pub open spec fn span_from(s: Seq<char>, i: int, p: u8) -> int
    decreases s.len() - i,
{
    if i < 0 || i >= s.len() {
        s.len() as int
    } else if in_class(p, s[i]) {
        span_from(s, i + 1, p)
    } else {
        i
    }
}

/// The kind of a single punctuation character, if it is one.
pub open spec fn punct_kind(c: char) -> Option<SyntaxKind> {
    if c == '+' { Some(SyntaxKind::PLUS) }
    else if c == '-' { Some(SyntaxKind::MINUS) }
    else if c == '*' { Some(SyntaxKind::STAR) }
    else if c == '=' { Some(SyntaxKind::EQ) }
    else if c == '.' { Some(SyntaxKind::DOT) }
    else if c == ';' { Some(SyntaxKind::SEMICOLON) }
    else if c == '{' { Some(SyntaxKind::L_CURLY) }
    else if c == '}' { Some(SyntaxKind::R_CURLY) }
    else { None }
}

/// The kind of a word: a keyword, or else an identifier.
pub open spec fn word_kind(w: Seq<char>) -> SyntaxKind {
    if w == seq!['l', 'e', 't'] {
        SyntaxKind::LET_KW
    } else if w == seq!['s', 'c', 'o', 'p', 'e'] {
        SyntaxKind::SCOPE_KW
    } else if w == seq!['i', 'm', 'p', 'o', 'r', 't'] {
        SyntaxKind::IMPORT_KW
    } else {
        SyntaxKind::IDENT
    }
}

/// The first token of `s`: its kind and its length in characters, or `None` at
/// the end of the input. A number or a word runs on from its first character
/// (an ASCII digit, letter or underscore, which is numeric, or may continue an
/// identifier) as long as the characters are numeric, or may continue an
/// identifier.
pub open spec fn next_token_spec(s: Seq<char>) -> Option<(SyntaxKind, int)> {
    if s.len() == 0 {
        None
    } else {
        let c = s[0];
        if unicode_white_space(c) {
            Some((SyntaxKind::WHITESPACE, span_from(s, 0, 0)))
        } else if punct_kind(c) is Some {
            Some((punct_kind(c)->0, 1))
        } else if '0' <= c <= '9' {
            Some((SyntaxKind::INT, span_from(s, 1, 1)))
        } else if ident_start(c) {
            let n = span_from(s, 1, 2);
            Some((word_kind(s.take(n)), n))
        } else {
            Some((SyntaxKind::ERROR, 1))
        }
    }
}

/// Whether the first token of `s` can be cut off: an unknown character that
/// takes more than one byte in UTF-8 cannot be split off as a one-byte error
/// token, and the lexer stops there with a panic.
pub open spec fn token_start_ok(s: Seq<char>) -> bool {
    s.len() == 0 || {
        let c = s[0];
        unicode_white_space(c) || punct_kind(c) is Some || ('0' <= c <= '9') || ident_start(c)
            || (c as u32) < 128
    }
}

pub proof fn lemma_span_from_bounds(s: Seq<char>, i: int, p: u8)
    requires
        0 <= i <= s.len(),
    ensures
        i <= span_from(s, i, p) <= s.len(),
        forall|j: int| i <= j < span_from(s, i, p) ==> in_class(p, #[trigger] s[j]),
        span_from(s, i, p) < s.len() ==> !in_class(p, s[span_from(s, i, p)]),
    decreases s.len() - i,
{
    if i < s.len() && in_class(p, s[i]) {
        lemma_span_from_bounds(s, i + 1, p);
    }
}

/// Every token is at least one character long and fits in what is left.
pub proof fn lemma_next_token_len(s: Seq<char>)
    ensures
        next_token_spec(s) matches Some((k, n)) ==> 1 <= n <= s.len(),
{
    if s.len() > 0 {
        let c = s[0];
        lemma_span_from_bounds(s, 0, 0);
        lemma_span_from_bounds(s, 1, 1);
        lemma_span_from_bounds(s, 1, 2);
    }
}

/// The tokens of `s`, each with its kind and its text, in order.
pub open spec fn lex(s: Seq<char>) -> Seq<(SyntaxKind, Seq<char>)>
    decreases s.len(),
{
    match next_token_spec(s) {
        None => seq![],
        Some((k, n)) => {
            proof {
                lemma_next_token_len(s);
            }
            seq![(k, s.take(n))] + lex(s.skip(n))
        },
    }
}

/// Whether lexing all of `s` goes through without a panic.
pub open spec fn lexable(s: Seq<char>) -> bool
    decreases s.len(),
{
    token_start_ok(s) && match next_token_spec(s) {
        None => true,
        Some((k, n)) => {
            proof {
                lemma_next_token_len(s);
            }
            lexable(s.skip(n))
        },
    }
}

/// The text of a sequence of tokens, concatenated.
pub open spec fn tokens_text(toks: Seq<(SyntaxKind, Seq<char>)>) -> Seq<char>
    decreases toks.len(),
{
    if toks.len() == 0 {
        seq![]
    } else {
        toks[0].1 + tokens_text(toks.drop_first())
    }
}

/// The lexer loses nothing: the texts of the tokens of `s`, put together, are `s`.
pub proof fn lemma_lex_lossless(s: Seq<char>)
    ensures
        tokens_text(lex(s)) == s,
    decreases s.len(),
{
    match next_token_spec(s) {
        None => {
            assert(s.len() == 0);
            assert(tokens_text(lex(s)) =~= s);
        },
        Some((k, n)) => {
            lemma_next_token_len(s);
            lemma_lex_lossless(s.skip(n));
            let toks = lex(s);
            assert(toks.drop_first() =~= lex(s.skip(n)));
            assert(s.take(n) + s.skip(n) =~= s);
        },
    }
}

/// A text that starts with a character that is not whitespace starts with a
/// token that is not whitespace.
proof fn lemma_first_token_not_whitespace(s: Seq<char>)
    requires
        s.len() > 0,
        !unicode_white_space(s[0]),
    ensures
        lex(s).len() > 0,
        lex(s)[0].0 != SyntaxKind::WHITESPACE,
{
    lemma_next_token_len(s);
    let (k, n) = next_token_spec(s)->0;
    assert(k != SyntaxKind::WHITESPACE);
    assert(lex(s) == seq![(k, s.take(n))] + lex(s.skip(n)));
}

/// A whitespace token runs up to the end of the text or to a character that
/// is not whitespace.
proof fn lemma_whitespace_token_maximal(s: Seq<char>)
    requires
        next_token_spec(s) matches Some((k, n)) && k == SyntaxKind::WHITESPACE,
    ensures
        (next_token_spec(s)->0).1 < s.len() ==> !unicode_white_space(s.skip((next_token_spec(s)->0).1)[0]),
{
    lemma_span_from_bounds(s, 0, 0);
    let n = (next_token_spec(s)->0).1;
    assert(n == span_from(s, 0, 0));
    if n < s.len() {
        assert(s.skip(n)[0] == s[n]);
    }
}

/// The tokens of `s`: there are at most as many as characters, none is
/// empty, and no whitespace token follows another, since a whitespace token
/// runs over all the whitespace in front of it.
#[verifier::spinoff_prover]
#[verifier::rlimit(60)]
pub proof fn lemma_lex_token_shape(s: Seq<char>)
    ensures
        lex(s).len() <= s.len(),
        forall|i: int| 0 <= i < lex(s).len() ==> (#[trigger] lex(s)[i]).1.len() > 0,
        forall|i: int|
            0 <= i < lex(s).len() - 1 ==> !((#[trigger] lex(s)[i]).0 == SyntaxKind::WHITESPACE
                && lex(s)[i + 1].0 == SyntaxKind::WHITESPACE),
    decreases s.len(),
{
    match next_token_spec(s) {
        None => {},
        Some((k, n)) => {
            lemma_next_token_len(s);
            let rest = s.skip(n);
            lemma_lex_token_shape(rest);
            let t = lex(s);
            let lr = lex(rest);
            assert(t == seq![(k, s.take(n))] + lr);
            if k == SyntaxKind::WHITESPACE && n < s.len() {
                lemma_whitespace_token_maximal(s);
                lemma_first_token_not_whitespace(rest);
            }
            assert forall|i: int| 0 <= i < t.len() implies (#[trigger] t[i]).1.len() > 0 by {
                if i > 0 {
                    assert(t[i] == lr[i - 1]);
                }
            }
            assert forall|i: int| 0 <= i < t.len() - 1 implies !((#[trigger] t[i]).0
                == SyntaxKind::WHITESPACE && t[i + 1].0 == SyntaxKind::WHITESPACE) by {
                assert(t[i + 1] == lr[i]);
                if i > 0 {
                    assert(t[i] == lr[i - 1]);
                }
            }
        },
    }
}

/// Whether a token kind is that of a word: an identifier or a keyword.
pub open spec fn is_word_kind(k: SyntaxKind) -> bool {
    k == SyntaxKind::IDENT || k == SyntaxKind::LET_KW || k == SyntaxKind::SCOPE_KW || k
        == SyntaxKind::IMPORT_KW
}

/// Whether `c` is alphanumeric (as `char::is_alphanumeric` decides) or `_`.
pub open spec fn alnum_or_underscore(c: char) -> bool {
    unicode_alphanumeric(c) || c == '_'
}

/// A word that starts a text starts with an ASCII letter or `_`, runs on over
/// every alphanumeric character and `_` after it, and stops before one that
/// is neither.
proof fn lemma_first_word(s: Seq<char>)
    requires
        next_token_spec(s) matches Some((k, n)) && is_word_kind(k),
    ensures
        ({
            let n = (next_token_spec(s)->0).1;
            &&& 1 <= n <= s.len()
            &&& ('a' <= s[0] <= 'z') || ('A' <= s[0] <= 'Z') || s[0] == '_'
            &&& forall|j: int| 1 <= j < n ==> alnum_or_underscore(#[trigger] s[j])
            &&& n < s.len() ==> !alnum_or_underscore(s[n])
        }),
{
    lemma_next_token_len(s);
    lemma_span_from_bounds(s, 1, 2);
}

/// What a word that starts a text gives for the first two tokens.
proof fn lemma_first_word_tokens(s: Seq<char>)
    requires
        lex(s).len() > 0,
        is_word_kind(lex(s)[0].0),
    ensures
        ({
            let w = lex(s)[0].1;
            &&& w.len() >= 1
            &&& ('a' <= w[0] <= 'z') || ('A' <= w[0] <= 'Z') || w[0] == '_'
            &&& forall|j: int| 1 <= j < w.len() ==> alnum_or_underscore(#[trigger] w[j])
            &&& 1 < lex(s).len() ==> !alnum_or_underscore(lex(s)[1].1[0])
        }),
{
    lemma_next_token_len(s);
    let (k, n) = next_token_spec(s)->0;
    let rest = s.skip(n);
    assert(lex(s) == seq![(k, s.take(n))] + lex(rest));
    assert(lex(s)[0] == (k, s.take(n)));
    lemma_first_word(s);
    let w = s.take(n);
    assert forall|j: int| 1 <= j < w.len() implies alnum_or_underscore(#[trigger] w[j]) by {
        assert(w[j] == s[j]);
    }
    if 1 < lex(s).len() {
        assert(lex(s)[1] == lex(rest)[0]);
        lemma_next_token_len(rest);
        let (k2, n2) = next_token_spec(rest)->0;
        assert(lex(rest) == seq![(k2, rest.take(n2))] + lex(rest.skip(n2)));
        assert(lex(rest)[0].1[0] == rest[0]);
        assert(rest[0] == s[n]);
    }
}

/// The tokens of a text are its first token, then the tokens of the rest.
proof fn lemma_lex_cons(s: Seq<char>)
    requires
        s.len() > 0,
    ensures
        lex(s).len() == 1 + lex(s.skip((next_token_spec(s)->0).1)).len(),
        forall|i: int|
            1 <= i < lex(s).len() ==> #[trigger] lex(s)[i] == lex(s.skip((next_token_spec(s)->0).1))[i - 1],
        (next_token_spec(s)->0).1 >= 1,
        (next_token_spec(s)->0).1 <= s.len(),
{
    lemma_next_token_len(s);
    let (k, n) = next_token_spec(s)->0;
    assert(lex(s) == seq![(k, s.take(n))] + lex(s.skip(n)));
}

/// Words are as long as they can be: in the tokens of any text, a word (an
/// identifier or keyword) starts with an ASCII letter or `_`, every
/// character after its first is alphanumeric or `_`, and the token after it,
/// if any, does not start with such a character. So `my_var` is one
/// identifier.
pub proof fn law_words_are_maximal(s: Seq<char>)
    ensures
        forall|i: int|
            0 <= i < lex(s).len() && is_word_kind(#[trigger] lex(s)[i].0) ==> ({
                let t = lex(s)[i].1;
                &&& t.len() >= 1
                &&& ('a' <= t[0] <= 'z') || ('A' <= t[0] <= 'Z') || t[0] == '_'
                &&& forall|j: int| 1 <= j < t.len() ==> alnum_or_underscore(#[trigger] t[j])
                &&& i + 1 < lex(s).len() ==> !alnum_or_underscore(lex(s)[i + 1].1[0])
            }),
    decreases s.len(),
{
    if s.len() > 0 {
        lemma_lex_cons(s);
        let rest = s.skip((next_token_spec(s)->0).1);
        law_words_are_maximal(rest);
        if lex(s).len() > 0 && is_word_kind(lex(s)[0].0) {
            lemma_first_word_tokens(s);
        }
    } else {
        assert(lex(s).len() == 0);
    }
}

/// Whether a token of kind `k` and text `t`, followed by a token that starts
/// with `next` (if any), follows the lexical rules: whitespace, numbers and
/// words run as long as they can (whitespace over whitespace, a number from
/// an ASCII digit over numeric characters, a word from an ASCII letter or
/// `_` over alphanumeric characters and `_`); a word is a keyword exactly
/// when its text is `let`, `scope` or `import`; each punctuation token is its
/// one character; any other character is an error token of its own.
pub open spec fn token_ok(k: SyntaxKind, t: Seq<char>, next: Option<char>) -> bool {
    &&& t.len() >= 1
    &&& match k {
        SyntaxKind::WHITESPACE => (forall|j: int| 0 <= j < t.len() ==> unicode_white_space(#[trigger] t[j]))
            && (next matches Some(c) ==> !unicode_white_space(c)),
        SyntaxKind::INT => '0' <= t[0] <= '9' && (forall|j: int|
            1 <= j < t.len() ==> unicode_numeric(#[trigger] t[j])) && (next matches Some(c)
            ==> !unicode_numeric(c)),
        SyntaxKind::IDENT | SyntaxKind::LET_KW | SyntaxKind::SCOPE_KW | SyntaxKind::IMPORT_KW => {
            &&& ('a' <= t[0] <= 'z') || ('A' <= t[0] <= 'Z') || t[0] == '_'
            &&& forall|j: int| 1 <= j < t.len() ==> alnum_or_underscore(#[trigger] t[j])
            &&& next matches Some(c) ==> !alnum_or_underscore(c)
            &&& (k == SyntaxKind::LET_KW) == (t == seq!['l', 'e', 't'])
            &&& (k == SyntaxKind::SCOPE_KW) == (t == seq!['s', 'c', 'o', 'p', 'e'])
            &&& (k == SyntaxKind::IMPORT_KW) == (t == seq!['i', 'm', 'p', 'o', 'r', 't'])
        },
        SyntaxKind::PLUS => t == seq!['+'],
        SyntaxKind::MINUS => t == seq!['-'],
        SyntaxKind::STAR => t == seq!['*'],
        SyntaxKind::EQ => t == seq!['='],
        SyntaxKind::DOT => t == seq!['.'],
        SyntaxKind::SEMICOLON => t == seq![';'],
        SyntaxKind::L_CURLY => t == seq!['{'],
        SyntaxKind::R_CURLY => t == seq!['}'],
        SyntaxKind::ERROR => {
            let c = t[0];
            &&& t.len() == 1
            &&& !unicode_white_space(c)
            &&& c != '+' && c != '-' && c != '*' && c != '=' && c != '.' && c != ';' && c != '{' && c != '}'
            &&& !('0' <= c <= '9')
            &&& !(('a' <= c <= 'z') || ('A' <= c <= 'Z') || c == '_')
        },
        _ => false,
    }
}

/// The first token of a text follows the lexical rules.
#[verifier::spinoff_prover]
#[verifier::rlimit(60)]
proof fn lemma_first_token_ok(s: Seq<char>)
    requires
        s.len() > 0,
    ensures
        lex(s).len() > 0,
        token_ok(
            lex(s)[0].0,
            lex(s)[0].1,
            if lex(s).len() > 1 {
                Some(lex(s)[1].1[0])
            } else {
                None
            },
        ),
{
    lemma_next_token_len(s);
    let (k, n) = next_token_spec(s)->0;
    let rest = s.skip(n);
    assert(lex(s) == seq![(k, s.take(n))] + lex(rest));
    assert(lex(s)[0] == (k, s.take(n)));
    let t = s.take(n);
    lemma_span_from_bounds(s, 0, 0);
    lemma_span_from_bounds(s, 1, 1);
    lemma_span_from_bounds(s, 1, 2);
    assert forall|j: int| 0 <= j < t.len() implies #[trigger] t[j] == s[j] by {}
    if 1 < lex(s).len() {
        assert(lex(s)[1] == lex(rest)[0]);
        lemma_next_token_len(rest);
        let (k2, n2) = next_token_spec(rest)->0;
        assert(lex(rest) == seq![(k2, rest.take(n2))] + lex(rest.skip(n2)));
        assert(lex(rest)[0].1[0] == rest[0]);
        assert(rest[0] == s[n]);
    }
    if is_word_kind(k) {
        if t == seq!['l', 'e', 't'] || t == seq!['s', 'c', 'o', 'p', 'e'] || t == seq![
            'i',
            'm',
            'p',
            'o',
            'r',
            't',
        ] {
        }
    }
    if k == SyntaxKind::PLUS || k == SyntaxKind::MINUS || k == SyntaxKind::STAR || k == SyntaxKind::EQ
        || k == SyntaxKind::DOT || k == SyntaxKind::SEMICOLON || k == SyntaxKind::L_CURLY || k
        == SyntaxKind::R_CURLY || k == SyntaxKind::ERROR {
        assert(t =~= seq![s[0]]);
    }
}

/// Every token of every text follows the lexical rules (see `token_ok`),
/// given the token after it.
pub proof fn law_tokens_follow_rules(s: Seq<char>)
    ensures
        forall|i: int|
            0 <= i < lex(s).len() ==> token_ok(
                #[trigger] lex(s)[i].0,
                lex(s)[i].1,
                if i + 1 < lex(s).len() {
                    Some(lex(s)[i + 1].1[0])
                } else {
                    None
                },
            ),
    decreases s.len(),
{
    if s.len() > 0 {
        lemma_lex_cons(s);
        let rest = s.skip((next_token_spec(s)->0).1);
        law_tokens_follow_rules(rest);
        lemma_first_token_ok(s);
        assert forall|i: int| 0 <= i < lex(s).len() implies token_ok(
            #[trigger] lex(s)[i].0,
            lex(s)[i].1,
            if i + 1 < lex(s).len() {
                Some(lex(s)[i + 1].1[0])
            } else {
                None
            },
        ) by {
            if i > 0 {
                assert(lex(s)[i] == lex(rest)[i - 1]);
                if i + 1 < lex(s).len() {
                    assert(lex(s)[i + 1] == lex(rest)[i]);
                }
            }
        }
    }
}

/// The text of tokens put side by side is their texts put side by side.
pub proof fn lemma_tokens_text_concat(a: Seq<(SyntaxKind, Seq<char>)>, b: Seq<(SyntaxKind, Seq<char>)>)
    ensures
        tokens_text(a + b) == tokens_text(a) + tokens_text(b),
    decreases a.len(),
{
    if a.len() == 0 {
        assert(a + b =~= b);
        assert(tokens_text(a) =~= seq![]);
        assert(seq![] + tokens_text(b) =~= tokens_text(b));
    } else {
        let ab = a + b;
        assert(ab[0] == a[0]);
        assert(ab.drop_first() =~= a.drop_first() + b);
        lemma_tokens_text_concat(a.drop_first(), b);
        assert(a[0].1 + (tokens_text(a.drop_first()) + tokens_text(b)) =~= (a[0].1 + tokens_text(
            a.drop_first(),
        )) + tokens_text(b));
    }
}

/// The text of the first `k + 1` tokens is that of the first `k` and then the
/// text of token `k`.
pub proof fn lemma_tokens_text_take_next(t: Seq<(SyntaxKind, Seq<char>)>, k: int)
    requires
        0 <= k < t.len(),
    ensures
        tokens_text(t.take(k + 1)) == tokens_text(t.take(k)) + t[k].1,
{
    assert(t.take(k + 1) =~= t.take(k) + seq![t[k]]);
    lemma_tokens_text_concat(t.take(k), seq![t[k]]);
    assert(tokens_text(seq![t[k]]) =~= t[k].1 + tokens_text(seq![t[k]].drop_first()));
    assert(seq![t[k]].drop_first() =~= Seq::<(SyntaxKind, Seq<char>)>::empty());
    assert(t[k].1 + seq![] =~= t[k].1);
}

/// A lexer over a string: it hands out the tokens of the input one at a time.
pub struct Lexer {
    input: Vec<char>,
    pos: usize,
}

impl View for Lexer {
    type V = Seq<char>;

    /// What is left of the input.
    closed spec fn view(&self) -> Seq<char> {
        self.input@.skip(self.pos as int)
    }
}

impl Lexer {
    pub closed spec fn wf(&self) -> bool {
        self.pos <= self.input@.len()
    }

    /// A lexer at the start of `input`.
    pub fn new(input: &str) -> (lexer: Lexer)
        ensures
            lexer.wf(),
            lexer@ == input@,
    {
        let mut chars: Vec<char> = Vec::new();
        for c in it: input.chars()
            invariant
                chars@ == it.seq().take(it.index() as int),
                it.seq() == input@,
        {
            chars.push(c);
        }
        proof {
            assert(chars@.skip(0) =~= input@);
        }
        Lexer { input: chars, pos: 0 }
    }

    /// The index of the first character at or after `i` that is not in the
    /// class `p`.
    fn span(&self, i: usize, p: u8) -> (end: usize)
        requires
            self.wf(),
            self.pos <= i <= self.input@.len(),
            p <= 2,
        ensures
            end == self.pos + span_from(self@, i - self.pos, p),
    {
        let ghost s = self@;
        let mut j = i;
        while j < self.input.len()
            invariant
                self.wf(),
                self.pos <= i <= j <= self.input@.len(),
                s == self.input@.skip(self.pos as int),
                span_from(s, i - self.pos, p) == span_from(s, j - self.pos, p),
            decreases self.input@.len() - j,
        {
            let c = self.input[j];
            assert(s[j - self.pos] == c);
            let ok = if p == 0 {
                c.is_whitespace()
            } else if p == 1 {
                c.is_numeric()
            } else {
                c.is_alphanumeric() || c == '_'
            };
            proof {
                assert(ok == in_class(p, c));
                let k = j - self.pos;
                assert(0 <= k < s.len());
                assert(s[k] == c);
                reveal_with_fuel(span_from, 2);
                assert(span_from(s, k, p) == if in_class(p, s[k]) {
                    span_from(s, k + 1, p)
                } else {
                    k
                });
            }
            if !ok {
                return j;
            }
            j = j + 1;
        }
        j
    }

    /// Cuts the next token off the input: its kind and its text, or `None` at
    /// the end of the input.
    pub fn next_token(&mut self) -> (tok: Option<(SyntaxKind, Vec<char>)>)
        requires
            old(self).wf(),
            token_start_ok(old(self)@),
        ensures
            final(self).wf(),
            match next_token_spec(old(self)@) {
                None => tok is None && final(self)@ == old(self)@,
                Some((k, n)) => tok matches Some((kind, text)) && kind == k && text@ == old(
                    self,
                )@.take(n) && final(self)@ == old(self)@.skip(n),
            },
    {
        let ghost s = self@;
        if self.pos >= self.input.len() {
            return None;
        }
        proof {
            lemma_next_token_len(s);
        }
        let c = self.input[self.pos];
        assert(c == s[0]);
        let (kind, end) = if c.is_whitespace() {
            (SyntaxKind::WHITESPACE, self.span(self.pos, 0))
        } else if c == '+' {
            (SyntaxKind::PLUS, self.pos + 1)
        } else if c == '-' {
            (SyntaxKind::MINUS, self.pos + 1)
        } else if c == '*' {
            (SyntaxKind::STAR, self.pos + 1)
        } else if c == '=' {
            (SyntaxKind::EQ, self.pos + 1)
        } else if c == '.' {
            (SyntaxKind::DOT, self.pos + 1)
        } else if c == ';' {
            (SyntaxKind::SEMICOLON, self.pos + 1)
        } else if c == '{' {
            (SyntaxKind::L_CURLY, self.pos + 1)
        } else if c == '}' {
            (SyntaxKind::R_CURLY, self.pos + 1)
        } else if '0' <= c && c <= '9' {
            (SyntaxKind::INT, self.span(self.pos + 1, 1))
        } else if ('a' <= c && c <= 'z') || ('A' <= c && c <= 'Z') || c == '_' {
            let end = self.span(self.pos + 1, 2);
            let p = self.pos;
            let n = end - p;
            let kind = if n == 3 && self.input[p] == 'l' && self.input[p + 1] == 'e'
                && self.input[p + 2] == 't' {
                SyntaxKind::LET_KW
            } else if n == 5 && self.input[p] == 's' && self.input[p + 1] == 'c' && self.input[p
                + 2] == 'o' && self.input[p + 3] == 'p' && self.input[p + 4] == 'e' {
                SyntaxKind::SCOPE_KW
            } else if n == 6 && self.input[p] == 'i' && self.input[p + 1] == 'm' && self.input[p
                + 2] == 'p' && self.input[p + 3] == 'o' && self.input[p + 4] == 'r' && self.input[p
                + 5] == 't' {
                SyntaxKind::IMPORT_KW
            } else {
                SyntaxKind::IDENT
            };
            proof {
                let w = s.take(n as int);
                assert(w.len() == n);
                if n == 3 {
                    assert(w[0] == self.input@[p as int]);
                    assert(w[1] == self.input@[p + 1]);
                    assert(w[2] == self.input@[p + 2]);
                }
                if n == 5 {
                    assert(w[0] == self.input@[p as int]);
                    assert(w[1] == self.input@[p + 1]);
                    assert(w[2] == self.input@[p + 2]);
                    assert(w[3] == self.input@[p + 3]);
                    assert(w[4] == self.input@[p + 4]);
                }
                if n == 6 {
                    assert(w[0] == self.input@[p as int]);
                    assert(w[1] == self.input@[p + 1]);
                    assert(w[2] == self.input@[p + 2]);
                    assert(w[3] == self.input@[p + 3]);
                    assert(w[4] == self.input@[p + 4]);
                    assert(w[5] == self.input@[p + 5]);
                }
                if kind == SyntaxKind::LET_KW {
                    assert(w =~= seq!['l', 'e', 't']);
                } else if kind == SyntaxKind::SCOPE_KW {
                    assert(w =~= seq!['s', 'c', 'o', 'p', 'e']);
                } else if kind == SyntaxKind::IMPORT_KW {
                    assert(w =~= seq!['i', 'm', 'p', 'o', 'r', 't']);
                }
            }
            (kind, end)
        } else {
            (SyntaxKind::ERROR, self.pos + 1)
        };
        let mut text: Vec<char> = Vec::new();
        let mut j = self.pos;
        while j < end
            invariant
                self.wf(),
                s == self.input@.skip(self.pos as int),
                next_token_spec(s) matches Some((k, n)) && self.pos + n == end && k == kind,
                end <= self.input@.len(),
                self.pos <= j <= end,
                text@ == s.take(j - self.pos),
            decreases end - j,
        {
            text.push(self.input[j]);
            j = j + 1;
            proof {
                assert(text@ =~= s.take(j - self.pos));
            }
        }
        self.pos = end;
        proof {
            assert(self@ =~= s.skip(end - old(self).pos));
        }
        Some((kind, text))
    }

    /// Whether the next token can be cut off without a panic (see
    /// `token_start_ok`).
    pub fn can_advance(&self) -> (ok: bool)
        requires
            self.wf(),
        ensures
            ok == token_start_ok(self@),
    {
        if self.pos >= self.input.len() {
            return true;
        }
        let c = self.input[self.pos];
        assert(c == self@[0]);
        c.is_whitespace() || c == '+' || c == '-' || c == '*' || c == '=' || c == '.' || c == ';'
            || c == '{' || c == '}' || ('0' <= c && c <= '9') || ('a' <= c && c <= 'z') || (
        'A' <= c && c <= 'Z') || c == '_' || (c as u32) < 128
    }

    /// Whether the input is used up.
    pub fn is_done(&self) -> (done: bool)
        requires
            self.wf(),
        ensures
            done == (self@.len() == 0),
    {
        self.pos >= self.input.len()
    }
}

/// The spec view of a token: its kind and its text.
pub open spec fn token_view(t: (SyntaxKind, Vec<char>)) -> (SyntaxKind, Seq<char>) {
    (t.0, t.1@)
}

/// Whether all of `input` can be lexed without a panic.
pub fn is_lexable(input: &str) -> (b: bool)
    ensures
        b == lexable(input@),
{
    let mut lexer = Lexer::new(input);
    loop
        invariant
            lexer.wf(),
            lexable(input@) == lexable(lexer@),
        decreases lexer@.len(),
    {
        if !lexer.can_advance() {
            return false;
        }
        let ghost before = lexer@;
        proof {
            lemma_next_token_len(before);
        }
        match lexer.next_token() {
            None => {
                return true;
            },
            Some(_) => {},
        }
    }
}

/// All tokens of `input`, in order.
pub fn tokenize(input: &str) -> (toks: Vec<(SyntaxKind, Vec<char>)>)
    requires
        lexable(input@),
    ensures
        toks@.map_values(|t: (SyntaxKind, Vec<char>)| token_view(t)) == lex(input@),
{
    let mut lexer = Lexer::new(input);
    let mut toks: Vec<(SyntaxKind, Vec<char>)> = Vec::new();
    loop
        invariant
            lexer.wf(),
            lexable(lexer@),
            lex(input@) == toks@.map_values(|t: (SyntaxKind, Vec<char>)| token_view(t)) + lex(
                lexer@,
            ),
        decreases lexer@.len(),
    {
        let ghost before = lexer@;
        let ghost old_toks = toks@;
        proof {
            lemma_next_token_len(before);
        }
        match lexer.next_token() {
            None => {
                proof {
                    assert(lex(before) =~= seq![]);
                    assert(lex(input@) =~= toks@.map_values(
                        |t: (SyntaxKind, Vec<char>)| token_view(t),
                    ));
                }
                return toks;
            },
            Some(t) => {
                let ghost rest = lexer@;
                toks.push(t);
                proof {
                    assert(lex(before) =~= seq![token_view(t)] + lex(rest));
                    assert(toks@.map_values(|t: (SyntaxKind, Vec<char>)| token_view(t))
                        =~= old_toks.map_values(|t: (SyntaxKind, Vec<char>)| token_view(t))
                        + seq![token_view(t)]);
                    assert(lex(input@) =~= toks@.map_values(
                        |t: (SyntaxKind, Vec<char>)| token_view(t),
                    ) + lex(rest));
                }
            },
        }
    }
}

} // verus!
