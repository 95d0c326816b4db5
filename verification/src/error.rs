use vstd::prelude::*;

verus! {

/// Why a compilation run was rejected. The first violation found aborts
/// the whole run; there is no recovery and no partial output.
#[derive(Debug, Clone, Copy, PartialEq, Eq, Structural)]
pub enum CompileError {
    /// Lexical: a character outside the language's alphabet.
    UnsupportedCharacter,
    /// Lexical: an integer literal beyond the 32-bit unsigned range.
    IntegerOverflow,
    /// Structural: a token of the wrong variant where a specific one was
    /// required, including a statement token before any declaration.
    UnexpectedToken,
    /// Structural: the token stream ended in the middle of a construct.
    UnexpectedEnd,
    /// Semantic: a reference to a name not declared in the enclosing
    /// function.
    UndeclaredIdentifier,
    /// Semantic: a system call with more arguments than there are
    /// argument registers; found during emission, never during parsing.
    TooManyArguments,
}

} // verus!
