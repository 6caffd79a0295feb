//! The token alphabet of the directive-level lexer: scopes, directive
//! payloads, and the faults the lexer can raise.

use vstd::prelude::*;

verus! {

/// A fault in the directive lexer.
#[derive(Clone, Copy, Debug, PartialEq, Eq, Structural)]
pub enum ProcError {
    /// The input ended where a token was required.
    EndOfInput,
    /// A directive that is none of the known ones.
    UnknownDirective,
    /// A directive body without its required space.
    MissingSpace,
    /// An identifier was required.
    ExpectedId,
    /// Some other text was required.
    ExpectedText,
    /// A byte that cannot stand here.
    UnexpectedChar(u8),
}

/// The lexer's scope: the line count and whether it stands inside a quoted
/// string or at the start of a line.
#[derive(Clone, Copy, Debug, PartialEq, Eq, Structural)]
pub struct ProcScope {
    pub line_number: u32,
    pub quoted: bool,
    pub new_line: bool,
}

impl Default for ProcScope {
    /// The scope at the start of input: line zero, unquoted, at a line
    /// start.
    fn default() -> (r: Self)
        ensures
            r.line_number == 0,
            !r.quoted,
            r.new_line,
    {
        ProcScope { line_number: 0, quoted: false, new_line: true }
    }
}

/// The name and parameter names of a macro definition directive.
pub struct ProcMacroDefinition {
    pub macro_name: Vec<u8>,
    pub macro_params: Vec<Vec<u8>>,
}

/// A whole macro definition directive: its header and its body.
pub struct ProcMacro {
    pub definition: ProcMacroDefinition,
    pub value: Vec<u8>,
}

/// A conditional block: its (possibly negated) subject and its branches.
pub struct ProcIfBlock {
    pub negated: bool,
    pub target: Vec<u8>,
    pub if_section: Vec<u8>,
    pub else_section: Option<Vec<u8>>,
}

/// An include directive: its path, and whether angle brackets wrote it.
pub struct ProcInclude {
    pub using_angles: bool,
    pub path: Vec<u8>,
}

/// One token of the directive lexer.
pub enum ProcToken {
    Include(ProcInclude),
    Define(ProcMacro),
    IfBlock(ProcIfBlock),
    Text(Vec<u8>),
    Undefine(Vec<u8>),
    Identifier(Vec<u8>),
    Unknown(Vec<u8>),
    DoubleHash,
    NewLine,
    LineBreak,
    Comment,
    LeftParenthesis,
    RightParenthesis,
    Comma,
}

/// A fault of the preprocessor running over the lexer.
#[derive(Clone, Copy, Debug, PartialEq, Eq, Structural)]
pub enum PreprocessorError {
    /// The underlying stream failed.
    Stream,
    /// The lexer failed.
    Lexer(ProcError),
}

} // verus!
