//! The token model: the closed set of lexical unit kinds produced by the
//! lexer, with the raw lexeme text as payload, and its mathematical model
//! (`TokenV`). Tokens are immutable once produced.
use vstd::prelude::*;
use crate::operators::{BinaryOperator, BinaryOperatorV, UnaryOperator, UnaryOperatorV};

verus! {

/// A lexical unit. Literal, identifier and keyword payloads carry the raw
/// lexeme text; numeric parsing is deferred to the parser.
#[derive(Debug, PartialEq, Eq)]
pub enum Token {
    Semi,
    ParOp,
    ParCl,
    BraOp,
    BraCl,
    Comma,
    IntLiteral(String),
    FloatLiteral(String),
    StrLiteral(String),
    Identifier(String),
    Keyword(String),
    Binary(BinaryOperator),
    UnaryOperator(UnaryOperator),
}

/// The mathematical model of a token: payload text as `Seq<char>`.
pub enum TokenV {
    Semi,
    ParOp,
    ParCl,
    BraOp,
    BraCl,
    Comma,
    IntLiteral(Seq<char>),
    FloatLiteral(Seq<char>),
    StrLiteral(Seq<char>),
    Identifier(Seq<char>),
    Keyword(Seq<char>),
    Binary(BinaryOperatorV),
    UnaryOperator(UnaryOperatorV),
}

impl DeepView for Token {
    type V = TokenV;

    open spec fn deep_view(&self) -> TokenV {
        match self {
            Token::Semi => TokenV::Semi,
            Token::ParOp => TokenV::ParOp,
            Token::ParCl => TokenV::ParCl,
            Token::BraOp => TokenV::BraOp,
            Token::BraCl => TokenV::BraCl,
            Token::Comma => TokenV::Comma,
            Token::IntLiteral(s) => TokenV::IntLiteral(s@),
            Token::FloatLiteral(s) => TokenV::FloatLiteral(s@),
            Token::StrLiteral(s) => TokenV::StrLiteral(s@),
            Token::Identifier(s) => TokenV::Identifier(s@),
            Token::Keyword(s) => TokenV::Keyword(s@),
            Token::Binary(op) => TokenV::Binary(op.deep_view()),
            Token::UnaryOperator(op) => TokenV::UnaryOperator(op.deep_view()),
        }
    }
}

impl Clone for Token {
    fn clone(&self) -> (r: Self)
        ensures
            r == *self,
    {
        match self {
            Token::Semi => Token::Semi,
            Token::ParOp => Token::ParOp,
            Token::ParCl => Token::ParCl,
            Token::BraOp => Token::BraOp,
            Token::BraCl => Token::BraCl,
            Token::Comma => Token::Comma,
            Token::IntLiteral(s) => Token::IntLiteral(s.clone()),
            Token::FloatLiteral(s) => Token::FloatLiteral(s.clone()),
            Token::StrLiteral(s) => Token::StrLiteral(s.clone()),
            Token::Identifier(s) => Token::Identifier(s.clone()),
            Token::Keyword(s) => Token::Keyword(s.clone()),
            Token::Binary(op) => Token::Binary(op.clone()),
            Token::UnaryOperator(op) => Token::UnaryOperator(op.clone()),
        }
    }
}

} // verus!
