//! The token shapes the tokenizer emits.
//!
//! Textual payloads (identifier names, string bodies, URLs, numeric
//! representations) are carried as UTF-8 bytes, exactly the bytes of the
//! preprocessed input they were read from (escape sequences contribute the
//! encoding of the escaped code point). The ghost mirror types carry the
//! same data as mathematical sequences, so that contracts can speak of
//! token values independently of heap allocation.

use vstd::prelude::*;

verus! {

/// A numeric literal: its source text and, for integer literals, its value
/// as a signed 64-bit integer (saturated at the type's bounds).
#[derive(Clone, Debug, PartialEq, Eq)]
pub struct NumericValue {
    pub representation: Vec<u8>,
    pub int_value: Option<i64>,
}

/// The ghost mirror of [`NumericValue`].
pub struct NumS {
    pub representation: Seq<u8>,
    pub int_value: Option<i64>,
}

impl View for NumericValue {
    type V = NumS;

    open spec fn view(&self) -> NumS {
        NumS { representation: self.representation@, int_value: self.int_value }
    }
}

/// A line/column pair; the first line is line 1, the first byte of a line
/// is column 1. Columns count bytes, not code points.
#[derive(Clone, Copy, Debug, PartialEq, Eq, Structural)]
pub struct SourceLocation {
    pub line: usize,
    pub column: usize,
}

/// One CSS token.
#[derive(Clone, Debug, PartialEq, Eq)]
pub enum Token {
    Ident(Vec<u8>),
    Function(Vec<u8>),
    AtKeyword(Vec<u8>),
    Hash(Vec<u8>),
    IDHash(Vec<u8>),
    String(Vec<u8>),
    BadString,
    URL(Vec<u8>),
    BadURL,
    Delim(char),
    Number(NumericValue),
    Percentage(NumericValue),
    Dimension(NumericValue, Vec<u8>),
    UnicodeRange(u32, u32),
    IncludeMatch,
    DashMatch,
    PrefixMatch,
    SuffixMatch,
    SubstringMatch,
    Column,
    WhiteSpace,
    CDO,
    CDC,
    Colon,
    Semicolon,
    Comma,
    LeftBracket,
    RightBracket,
    LeftParen,
    RightParen,
    LeftCurlyBracket,
    RightCurlyBracket,
}

/// The ghost mirror of [`Token`].
pub enum TokenS {
    Ident(Seq<u8>),
    Function(Seq<u8>),
    AtKeyword(Seq<u8>),
    Hash(Seq<u8>),
    IDHash(Seq<u8>),
    String(Seq<u8>),
    BadString,
    URL(Seq<u8>),
    BadURL,
    Delim(char),
    Number(NumS),
    Percentage(NumS),
    Dimension(NumS, Seq<u8>),
    UnicodeRange(u32, u32),
    IncludeMatch,
    DashMatch,
    PrefixMatch,
    SuffixMatch,
    SubstringMatch,
    Column,
    WhiteSpace,
    CDO,
    CDC,
    Colon,
    Semicolon,
    Comma,
    LeftBracket,
    RightBracket,
    LeftParen,
    RightParen,
    LeftCurlyBracket,
    RightCurlyBracket,
}

impl View for Token {
    type V = TokenS;

    open spec fn view(&self) -> TokenS {
        match self {
            Token::Ident(v) => TokenS::Ident(v@),
            Token::Function(v) => TokenS::Function(v@),
            Token::AtKeyword(v) => TokenS::AtKeyword(v@),
            Token::Hash(v) => TokenS::Hash(v@),
            Token::IDHash(v) => TokenS::IDHash(v@),
            Token::String(v) => TokenS::String(v@),
            Token::BadString => TokenS::BadString,
            Token::URL(v) => TokenS::URL(v@),
            Token::BadURL => TokenS::BadURL,
            Token::Delim(c) => TokenS::Delim(*c),
            Token::Number(n) => TokenS::Number(n@),
            Token::Percentage(n) => TokenS::Percentage(n@),
            Token::Dimension(n, u) => TokenS::Dimension(n@, u@),
            Token::UnicodeRange(a, b) => TokenS::UnicodeRange(*a, *b),
            Token::IncludeMatch => TokenS::IncludeMatch,
            Token::DashMatch => TokenS::DashMatch,
            Token::PrefixMatch => TokenS::PrefixMatch,
            Token::SuffixMatch => TokenS::SuffixMatch,
            Token::SubstringMatch => TokenS::SubstringMatch,
            Token::Column => TokenS::Column,
            Token::WhiteSpace => TokenS::WhiteSpace,
            Token::CDO => TokenS::CDO,
            Token::CDC => TokenS::CDC,
            Token::Colon => TokenS::Colon,
            Token::Semicolon => TokenS::Semicolon,
            Token::Comma => TokenS::Comma,
            Token::LeftBracket => TokenS::LeftBracket,
            Token::RightBracket => TokenS::RightBracket,
            Token::LeftParen => TokenS::LeftParen,
            Token::RightParen => TokenS::RightParen,
            Token::LeftCurlyBracket => TokenS::LeftCurlyBracket,
            Token::RightCurlyBracket => TokenS::RightCurlyBracket,
        }
    }
}

/// A token with the source location of its first byte.
pub type Node = (Token, SourceLocation);

/// The ghost mirror of [`Node`]: a token value with its location.
pub struct NodeS {
    pub token: TokenS,
    pub line: int,
    pub column: int,
}

/// The ghost value of an emitted node.
pub open spec fn node_view(n: Node) -> NodeS {
    NodeS { token: n.0@, line: n.1.line as int, column: n.1.column as int }
}

/// The ghost value of a sequence of emitted nodes.
pub open spec fn nodes_view(s: Seq<Node>) -> Seq<NodeS> {
    s.map_values(|n: Node| node_view(n))
}

pub proof fn lemma_nodes_view_push(v: Seq<Node>, n: Node)
    ensures
        nodes_view(v.push(n)) == nodes_view(v).push(node_view(n)),
{
    assert(nodes_view(v.push(n)) =~= nodes_view(v).push(node_view(n)));
}


pub proof fn lemma_nodes_view_concat(a: Seq<Node>, b: Seq<Node>)
    ensures
        nodes_view(a + b) == nodes_view(a) + nodes_view(b),
{
    assert(nodes_view(a + b) =~= nodes_view(a) + nodes_view(b));
}

} // verus!
