//! The error taxonomy shared by the lexer and the parser.
//!
//! Every failure aborts the whole operation at its first occurrence; no
//! partial result is returned.
use vstd::prelude::*;

verus! {

#[derive(Debug, Clone, Copy, PartialEq, Eq, Structural)]
pub enum BsonError {
    /// The first line is not the required header literal.
    BadHeader,
    /// A literal tab character appears in an input line.
    TabChar,
    /// A line's leading whitespace is not a whole number of indentation
    /// units.
    BadIndent,
    /// A section header's indentation does not sit one level under its
    /// declared depth, or a flat key is indented deeper than its scope.
    BadHierarchy,
    /// A section claims a depth for which not enough enclosing sections are
    /// open.
    MissingAncestors,
    /// A key equals the reserved keyword.
    ReservedKey,
    /// A non-empty line matches neither line shape, or structural tokens are
    /// missing or out of order.
    BadSyntax,
    /// A value matches no recognized scalar or array shape, or an array is
    /// left unterminated.
    BadValue,
}

impl BsonError {
    /// The diagnostic text each error is reported with.
    pub fn message(&self) -> (m: &'static str)
        ensures
            m@ == self.spec_message(),
    {
        match self {
            BsonError::BadHeader => "Status: Fainted",
            BsonError::TabChar => "Poison Type: Tab character detected",
            BsonError::BadIndent => "The attack missed!",
            BsonError::BadHierarchy => "The attack missed!",
            BsonError::MissingAncestors => "Not enough badges!",
            BsonError::ReservedKey => "It burns the bulb",
            BsonError::BadSyntax => "It hurt itself in its confusion!",
            BsonError::BadValue => "Target is immune!",
        }
    }

    pub open spec fn spec_message(&self) -> Seq<char> {
        match self {
            BsonError::BadHeader => "Status: Fainted"@,
            BsonError::TabChar => "Poison Type: Tab character detected"@,
            BsonError::BadIndent => "The attack missed!"@,
            BsonError::BadHierarchy => "The attack missed!"@,
            BsonError::MissingAncestors => "Not enough badges!"@,
            BsonError::ReservedKey => "It burns the bulb"@,
            BsonError::BadSyntax => "It hurt itself in its confusion!"@,
            BsonError::BadValue => "Target is immune!"@,
        }
    }
}

} // verus!
