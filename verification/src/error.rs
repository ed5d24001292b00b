//! Errors reported when a proof step, or a term given to a rule, does not have the expected form.

use vstd::prelude::*;

use crate::ast::TermId;
use crate::elaborator::error::{ElaborationError, ElaborationPass};
use crate::automata::Trigger;
use crate::utils::Range;

verus! {

/// An error found while checking the string rules.
#[derive(Debug, Clone, PartialEq, Eq)]
pub enum StringError {
    /// A concatenation has a number of components other than the number of premises.
    ConcatTermsNumberDiffersFromPremiseTermsNumber(usize, usize),
    /// The term is not an application of an operator that the rule can reason backwards about.
    NotBackwardableOperator(TermId),
}

/// An error found while checking a step.
#[derive(Debug, Clone, PartialEq, Eq)]
pub enum CheckerError {
    /// Intersecting two triggers requires both of them to be ranges.
    ExpectedRangesToCalculateTheIntersection(Trigger, Trigger),
    /// The clause has a number of terms outside the expected range (expected, found).
    WrongLengthOfClause(Range, usize),
    /// The step has a number of premises outside the expected range (expected, found).
    WrongNumberOfPremises(Range, usize),
    /// The premise at this position is not a clause of exactly one term.
    BadPremise(usize),
    /// The term does not have the form of the pattern.
    TermOfWrongForm(&'static str, TermId),
    /// The two terms were expected to be equal.
    TermEquality(TermId, TermId),
    /// The first term was expected to be equal to the second, up to the order of the sides of
    /// equalities.
    ExpectedTermToBe(TermId, TermId),
    /// A failure explained in words.
    Explanation(String),
    /// The argument of `str.to_re` is not a string constant.
    ExpectedStringConstantInsideStrToRe(TermId),
    /// The term cannot be turned into an automaton.
    UnexpectedTermOnAutomatonConversion(TermId),
    /// The arguments of a regular expression operator are missing or not of the expected form.
    Unspecified,
    /// The first term was expected to be a prefix of the second.
    ExpectedToBePrefix(TermId, TermId),
    /// The first term was expected to be a suffix of the second.
    ExpectedToBeSuffix(TermId, TermId),
    /// The term was expected to be a string constant of length one.
    ExpectedStringConstantOfLengthOne(TermId),
    /// The two terms do not follow from the premises by equality reasoning.
    TermsNotCongruent(TermId, TermId),
    /// A term of the premise is missing from the conclusion.
    ContractionMissingTerm(TermId),
    /// A term of the conclusion is not in the premise.
    ContractionExtraTerm(TermId),
    /// An error of the string rules.
    Str(StringError),
}


/// An error found while checking or elaborating a proof, located at the step where it occurred.
#[derive(Debug)]
pub enum Error {
    /// A step failed to check.
    Checker { inner: CheckerError, rule: String, step: String },
    /// A step could not be elaborated.
    Elaborator { inner: Box<ElaborationError>, rule: String, step: String, pass: ElaborationPass, file: String },
    /// The input could not be read, at a line and column of the named source.
    Parser(ParserError, (usize, usize), String),
}

/// An error found while reading the input.
#[derive(Debug, Clone, PartialEq, Eq)]
pub enum ParserError {
    /// The input ended inside a string literal.
    EofInString,
    /// A unicode escape sequence names no character: its hexadecimal digits.
    InvalidUnicode(String),
    /// A character that cannot start or continue a token there.
    UnexpectedChar(char),
    /// A quoted symbol holds a backslash.
    BackslashInQuotedSymbol,
    /// The input ended inside a quoted symbol.
    EofInQuotedSymbol,
    /// A bitvector literal has no digits.
    EmptyBitvector,
    /// A numeral of more than one digit starts with `0`: its digits.
    LeadingZero(String),
    /// A fraction literal has a zero denominator: the fraction, as written with its numerator
    /// and a zero denominator.
    DivisionByZeroInLiteral(String),
}

/// An error found while reading the input, with its text as sequences of characters.
pub enum ParserErrorView {
    EofInString,
    InvalidUnicode(Seq<char>),
    UnexpectedChar(char),
    BackslashInQuotedSymbol,
    EofInQuotedSymbol,
    EmptyBitvector,
    LeadingZero(Seq<char>),
    DivisionByZeroInLiteral(Seq<char>),
}

impl View for ParserError {
    type V = ParserErrorView;

    open spec fn view(&self) -> ParserErrorView {
        match self {
            ParserError::EofInString => ParserErrorView::EofInString,
            ParserError::InvalidUnicode(d) => ParserErrorView::InvalidUnicode(d@),
            ParserError::UnexpectedChar(c) => ParserErrorView::UnexpectedChar(*c),
            ParserError::BackslashInQuotedSymbol => ParserErrorView::BackslashInQuotedSymbol,
            ParserError::EofInQuotedSymbol => ParserErrorView::EofInQuotedSymbol,
            ParserError::EmptyBitvector => ParserErrorView::EmptyBitvector,
            ParserError::LeadingZero(d) => ParserErrorView::LeadingZero(d@),
            ParserError::DivisionByZeroInLiteral(d) => ParserErrorView::DivisionByZeroInLiteral(d@),
        }
    }
}

/// The message that reports a parser error.
pub open spec fn parser_error_message(e: ParserErrorView) -> Seq<char> {
    match e {
        ParserErrorView::EofInString => "unexpected end of input in string literal"@,
        ParserErrorView::InvalidUnicode(d) => "invalid unicode value: '"@ + d + "'"@,
        ParserErrorView::UnexpectedChar(c) => "unexpected character: '"@ + seq![c] + "'"@,
        ParserErrorView::BackslashInQuotedSymbol => "quoted symbols cannot contain backslashes"@,
        ParserErrorView::EofInQuotedSymbol => "unexpected end of input in quoted symbol"@,
        ParserErrorView::EmptyBitvector => "bitvector literal must have at least one digit"@,
        ParserErrorView::LeadingZero(d) => "leading zero in numeral '"@ + d + "'"@,
        ParserErrorView::DivisionByZeroInLiteral(d) => "division by zero in numerical literal: '"@ + d + "'"@,
    }
}

/// `prefix`, then `middle`, then `suffix`.
fn framed(prefix: &str, middle: &str, suffix: &str) -> (s: String)
    ensures
        s@ == prefix@ + middle@ + suffix@,
{
    let mut s = String::from_str(prefix);
    s.append(middle);
    s.append(suffix);
    s
}

impl ParserError {
    /// The message that reports this error.
    pub fn message(&self) -> (m: String)
        ensures
            m@ == parser_error_message(self@),
    {
        match self {
            ParserError::EofInString => String::from_str("unexpected end of input in string literal"),
            ParserError::InvalidUnicode(d) => framed("invalid unicode value: '", d.as_str(), "'"),
            ParserError::UnexpectedChar(c) => {
                let text = crate::text::char_text(*c);
                framed("unexpected character: '", text.as_str(), "'")
            },
            ParserError::BackslashInQuotedSymbol => String::from_str("quoted symbols cannot contain backslashes"),
            ParserError::EofInQuotedSymbol => String::from_str("unexpected end of input in quoted symbol"),
            ParserError::EmptyBitvector => String::from_str("bitvector literal must have at least one digit"),
            ParserError::LeadingZero(d) => framed("leading zero in numeral '", d.as_str(), "'"),
            ParserError::DivisionByZeroInLiteral(d) => framed("division by zero in numerical literal: '", d.as_str(), "'"),
        }
    }
}

} // verus!
