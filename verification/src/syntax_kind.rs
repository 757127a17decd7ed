use vstd::prelude::*;

verus! {

/// The kinds of tokens and composite nodes of the syntax tree.
#[allow(non_camel_case_types)]
#[derive(Debug, Clone, Copy, PartialEq, Eq, Structural, PartialOrd, Ord, Hash)]
pub enum SyntaxKind {
    // Tokens
    WHITESPACE,
    LET_KW,
    SCOPE_KW,
    IMPORT_KW,
    IDENT,
    INT,
    PLUS,
    MINUS,
    STAR,
    EQ,
    DOT,
    SEMICOLON,
    L_CURLY,
    R_CURLY,
    ERROR,
    // Composite nodes
    SOURCE_FILE,
    LET_STMT,
    SCOPE_DEF,
    IMPORT_STMT,
    EXPR_STMT,
    BLOCK_EXPR,
    BINARY_EXPR,
    LITERAL,
    NAME_REF,
    PATH,
}

/// The largest raw number of a kind: that of `PATH`.
pub const MAX_RAW_KIND: u16 = 24;

/// The raw number of a kind: its position in the declaration order.
pub open spec fn kind_raw(kind: SyntaxKind) -> u16 {
    match kind {
        SyntaxKind::WHITESPACE => 0,
        SyntaxKind::LET_KW => 1,
        SyntaxKind::SCOPE_KW => 2,
        SyntaxKind::IMPORT_KW => 3,
        SyntaxKind::IDENT => 4,
        SyntaxKind::INT => 5,
        SyntaxKind::PLUS => 6,
        SyntaxKind::MINUS => 7,
        SyntaxKind::STAR => 8,
        SyntaxKind::EQ => 9,
        SyntaxKind::DOT => 10,
        SyntaxKind::SEMICOLON => 11,
        SyntaxKind::L_CURLY => 12,
        SyntaxKind::R_CURLY => 13,
        SyntaxKind::ERROR => 14,
        SyntaxKind::SOURCE_FILE => 15,
        SyntaxKind::LET_STMT => 16,
        SyntaxKind::SCOPE_DEF => 17,
        SyntaxKind::IMPORT_STMT => 18,
        SyntaxKind::EXPR_STMT => 19,
        SyntaxKind::BLOCK_EXPR => 20,
        SyntaxKind::BINARY_EXPR => 21,
        SyntaxKind::LITERAL => 22,
        SyntaxKind::NAME_REF => 23,
        SyntaxKind::PATH => 24,
    }
}

/// The kind whose raw number is `raw` (meaningful for `raw <= MAX_RAW_KIND`).
pub open spec fn kind_of_raw(raw: u16) -> SyntaxKind {
    if raw == 0 { SyntaxKind::WHITESPACE }
    else if raw == 1 { SyntaxKind::LET_KW }
    else if raw == 2 { SyntaxKind::SCOPE_KW }
    else if raw == 3 { SyntaxKind::IMPORT_KW }
    else if raw == 4 { SyntaxKind::IDENT }
    else if raw == 5 { SyntaxKind::INT }
    else if raw == 6 { SyntaxKind::PLUS }
    else if raw == 7 { SyntaxKind::MINUS }
    else if raw == 8 { SyntaxKind::STAR }
    else if raw == 9 { SyntaxKind::EQ }
    else if raw == 10 { SyntaxKind::DOT }
    else if raw == 11 { SyntaxKind::SEMICOLON }
    else if raw == 12 { SyntaxKind::L_CURLY }
    else if raw == 13 { SyntaxKind::R_CURLY }
    else if raw == 14 { SyntaxKind::ERROR }
    else if raw == 15 { SyntaxKind::SOURCE_FILE }
    else if raw == 16 { SyntaxKind::LET_STMT }
    else if raw == 17 { SyntaxKind::SCOPE_DEF }
    else if raw == 18 { SyntaxKind::IMPORT_STMT }
    else if raw == 19 { SyntaxKind::EXPR_STMT }
    else if raw == 20 { SyntaxKind::BLOCK_EXPR }
    else if raw == 21 { SyntaxKind::BINARY_EXPR }
    else if raw == 22 { SyntaxKind::LITERAL }
    else if raw == 23 { SyntaxKind::NAME_REF }
    else { SyntaxKind::PATH }
}

/// Every kind's raw number is in range and leads back to the kind.
pub proof fn lemma_kind_raw_roundtrip(kind: SyntaxKind)
    ensures
        kind_raw(kind) <= MAX_RAW_KIND,
        kind_of_raw(kind_raw(kind)) == kind,
{
}

/// Every raw number in range leads to a kind whose raw number it is.
pub proof fn lemma_raw_kind_roundtrip(raw: u16)
    requires
        raw <= MAX_RAW_KIND,
    ensures
        kind_raw(kind_of_raw(raw)) == raw,
{
}

impl SyntaxKind {
    /// The raw number of this kind.
    pub fn to_raw(self) -> (raw: u16)
        ensures
            raw == kind_raw(self),
    {
        match self {
            SyntaxKind::WHITESPACE => 0,
            SyntaxKind::LET_KW => 1,
            SyntaxKind::SCOPE_KW => 2,
            SyntaxKind::IMPORT_KW => 3,
            SyntaxKind::IDENT => 4,
            SyntaxKind::INT => 5,
            SyntaxKind::PLUS => 6,
            SyntaxKind::MINUS => 7,
            SyntaxKind::STAR => 8,
            SyntaxKind::EQ => 9,
            SyntaxKind::DOT => 10,
            SyntaxKind::SEMICOLON => 11,
            SyntaxKind::L_CURLY => 12,
            SyntaxKind::R_CURLY => 13,
            SyntaxKind::ERROR => 14,
            SyntaxKind::SOURCE_FILE => 15,
            SyntaxKind::LET_STMT => 16,
            SyntaxKind::SCOPE_DEF => 17,
            SyntaxKind::IMPORT_STMT => 18,
            SyntaxKind::EXPR_STMT => 19,
            SyntaxKind::BLOCK_EXPR => 20,
            SyntaxKind::BINARY_EXPR => 21,
            SyntaxKind::LITERAL => 22,
            SyntaxKind::NAME_REF => 23,
            SyntaxKind::PATH => 24,
        }
    }

    /// The kind with the raw number `raw`.
    pub fn from_raw(raw: u16) -> (kind: SyntaxKind)
        requires
            raw <= MAX_RAW_KIND,
        ensures
            kind == kind_of_raw(raw),
            kind_raw(kind) == raw,
    {
        if raw == 0 { SyntaxKind::WHITESPACE }
        else if raw == 1 { SyntaxKind::LET_KW }
        else if raw == 2 { SyntaxKind::SCOPE_KW }
        else if raw == 3 { SyntaxKind::IMPORT_KW }
        else if raw == 4 { SyntaxKind::IDENT }
        else if raw == 5 { SyntaxKind::INT }
        else if raw == 6 { SyntaxKind::PLUS }
        else if raw == 7 { SyntaxKind::MINUS }
        else if raw == 8 { SyntaxKind::STAR }
        else if raw == 9 { SyntaxKind::EQ }
        else if raw == 10 { SyntaxKind::DOT }
        else if raw == 11 { SyntaxKind::SEMICOLON }
        else if raw == 12 { SyntaxKind::L_CURLY }
        else if raw == 13 { SyntaxKind::R_CURLY }
        else if raw == 14 { SyntaxKind::ERROR }
        else if raw == 15 { SyntaxKind::SOURCE_FILE }
        else if raw == 16 { SyntaxKind::LET_STMT }
        else if raw == 17 { SyntaxKind::SCOPE_DEF }
        else if raw == 18 { SyntaxKind::IMPORT_STMT }
        else if raw == 19 { SyntaxKind::EXPR_STMT }
        else if raw == 20 { SyntaxKind::BLOCK_EXPR }
        else if raw == 21 { SyntaxKind::BINARY_EXPR }
        else if raw == 22 { SyntaxKind::LITERAL }
        else if raw == 23 { SyntaxKind::NAME_REF }
        else { SyntaxKind::PATH }
    }
}

/// The language of the syntax tree: it maps raw kinds to `SyntaxKind`s and back.
#[derive(Debug, Clone, Copy, PartialEq, Eq, PartialOrd, Ord, Hash)]
pub struct Lang;

impl Lang {
    /// The kind with the raw number `raw`; a raw number beyond `PATH` is refused.
    pub fn kind_from_raw(raw: u16) -> (kind: SyntaxKind)
        requires
            raw <= MAX_RAW_KIND,
        ensures
            kind_raw(kind) == raw,
    {
        SyntaxKind::from_raw(raw)
    }

    /// The raw number of `kind`.
    pub fn kind_to_raw(kind: SyntaxKind) -> (raw: u16)
        ensures
            raw == kind_raw(kind),
    {
        kind.to_raw()
    }
}

} // verus!
