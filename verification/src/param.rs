//! Faults and scopes of the class-definition parameter language's lexer
//! and parser. The lexer itself works on text this crate does not parse;
//! only its interface types live here.

use vstd::prelude::*;

verus! {

/// A fault in the parameter-language lexer.
#[derive(Clone, Copy, Debug, PartialEq, Eq, Structural)]
pub enum ParamLexerError {
    /// The input ended where a token was required.
    EndReached,
    /// A required token was missing.
    ExpectedToken,
    /// A string escape that is not recognised.
    UnknownEscape,
}

/// Which grammatical position the lexer reads for.
#[derive(Clone, Copy, Debug, PartialEq, Eq, Structural)]
pub enum ParamLexicalScope {
    Statement,
    Expression,
    ArrayExpression,
}

impl Default for ParamLexicalScope {
    /// Lexing starts at statement scope.
    fn default() -> (r: Self)
        ensures
            r == ParamLexicalScope::Statement,
    {
        ParamLexicalScope::Statement
    }
}

/// A fault in the parameter-language parser.
#[derive(Clone, Copy, Debug, PartialEq, Eq, Structural)]
pub enum ParamParseError {
    /// The lexer failed.
    Lexical(ParamLexerError),
    /// The text was not valid text.
    EncodingError,
    /// The input ended inside a construct.
    PrematureEnd,
    /// A token that cannot stand here.
    UnknownToken,
    /// Another token was required.
    ExpectedToken,
}

} // verus!
