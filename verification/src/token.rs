//! The lexical units of the language.

use vstd::prelude::*;

verus! {

/// One lexical unit of source text.
#[derive(Debug, PartialEq, Eq)]
pub enum Token {
    /// A string literal; the text between the quotes.
    Text(String),
    /// An integer literal. A literal above `i32::MAX` is held as `i32::MAX`.
    Integer(i32),
    /// A decimal literal, kept as written: digits, one `.`, digits.
    Decimal(String),
    /// `true` or `false`.
    Boolean(bool),
    /// The keyword `var`.
    VarDeclaration,
    /// A line comment, from `//` through the end of the line.
    Comment,
    /// `+`
    Add,
    /// `-`
    Subtract,
    /// `*`
    Multiply,
    /// `/`
    Divide,
    /// `=`
    Assign,
    /// `==`
    Equals,
    /// `{`
    ScopeStart,
    /// `}`
    ScopeEnd,
    /// A name that is no keyword.
    Identifier(String),
    /// A character that begins no token; the text is that character.
    Unknown(String),
    /// A run of whitespace.
    Whitespace,
}

/// The mathematical value of a [`Token`]: its texts are sequences of
/// characters.
pub enum TokenView {
    Text(Seq<char>),
    Integer(i32),
    Decimal(Seq<char>),
    Boolean(bool),
    VarDeclaration,
    Comment,
    Add,
    Subtract,
    Multiply,
    Divide,
    Assign,
    Equals,
    ScopeStart,
    ScopeEnd,
    Identifier(Seq<char>),
    Unknown(Seq<char>),
    Whitespace,
}

impl View for Token {
    type V = TokenView;

    open spec fn view(&self) -> TokenView {
        match self {
            Token::Text(s) => TokenView::Text(s@),
            Token::Integer(n) => TokenView::Integer(*n),
            Token::Decimal(s) => TokenView::Decimal(s@),
            Token::Boolean(b) => TokenView::Boolean(*b),
            Token::VarDeclaration => TokenView::VarDeclaration,
            Token::Comment => TokenView::Comment,
            Token::Add => TokenView::Add,
            Token::Subtract => TokenView::Subtract,
            Token::Multiply => TokenView::Multiply,
            Token::Divide => TokenView::Divide,
            Token::Assign => TokenView::Assign,
            Token::Equals => TokenView::Equals,
            Token::ScopeStart => TokenView::ScopeStart,
            Token::ScopeEnd => TokenView::ScopeEnd,
            Token::Identifier(s) => TokenView::Identifier(s@),
            Token::Unknown(s) => TokenView::Unknown(s@),
            Token::Whitespace => TokenView::Whitespace,
        }
    }
}

impl TokenView {
    /// Whether the token belongs to the result of tokenizing: every token
    /// but whitespace and comments.
    pub open spec fn is_significant(self) -> bool {
        !(self is Whitespace || self is Comment)
    }
}

/// The values of a sequence of tokens.
pub open spec fn token_views(tokens: Seq<Token>) -> Seq<TokenView> {
    tokens.map_values(|t: Token| t@)
}

} // verus!
