use vstd::prelude::*;

verus! {

/// A lexical token of the source language. Tokens carry no source
/// position; they are produced once by the lexer and consumed once by
/// the parser.
#[derive(Debug, Clone, PartialEq)]
pub enum Token {
    /// The assignment marker `=`.
    Assign,
    /// An identifier, carrying its text.
    Ident(String),
    /// An unsigned 32-bit integer literal.
    Int(u32),
    /// The arithmetic operator `+`.
    Add,
    /// The arithmetic operator `-`.
    Sub,
    /// The arithmetic operator `*`.
    Mul,
    /// The arithmetic operator `/`.
    Div,
    /// The function-declaration keyword.
    Func,
    /// The function-call marker `@`, carrying the callee name (which may
    /// be empty when no name characters follow the marker).
    FuncCall(String),
    /// The system-call keyword.
    SysCall,
    /// A type keyword.
    Type(Type),
    /// The statement terminator `;`.
    Eot,
}

/// The declarable value types. The language has a single numeric type.
#[derive(Debug, Clone, Copy, PartialEq, Eq, Structural)]
pub enum Type {
    Int,
}

/// The mathematical image of a token: identifier text as a character
/// sequence. Contracts and the specification of each compiler stage are
/// stated over this type.
pub enum TokenV {
    Assign,
    Ident(Seq<char>),
    Int(u32),
    Add,
    Sub,
    Mul,
    Div,
    Func,
    FuncCall(Seq<char>),
    SysCall,
    Type(Type),
    Eot,
}

impl DeepView for Token {
    type V = TokenV;

    open spec fn deep_view(&self) -> TokenV {
        match self {
            Token::Assign => TokenV::Assign,
            Token::Ident(s) => TokenV::Ident(s.deep_view()),
            Token::Int(n) => TokenV::Int(*n),
            Token::Add => TokenV::Add,
            Token::Sub => TokenV::Sub,
            Token::Mul => TokenV::Mul,
            Token::Div => TokenV::Div,
            Token::Func => TokenV::Func,
            Token::FuncCall(s) => TokenV::FuncCall(s.deep_view()),
            Token::SysCall => TokenV::SysCall,
            Token::Type(t) => TokenV::Type(*t),
            Token::Eot => TokenV::Eot,
        }
    }
}

} // verus!
