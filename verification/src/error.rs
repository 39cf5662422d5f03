use vstd::prelude::*;

verus! {

/// The instructions that take an argument.
#[derive(Debug, PartialEq, Eq, Structural, Clone, Copy)]
pub enum Instruction {
    Forward,
    SetSize,
    SetColor,
}

/// The kinds of number that an argument can be.
#[derive(Debug, PartialEq, Eq, Structural, Clone, Copy)]
pub enum NumberKind {
    /// A whole number from 0 to 4294967295.
    Unsigned,
    /// A decimal number, with or without a point and an exponent.
    Decimal,
    /// A whole number from 0 to 255.
    Byte,
}

/// Why a command could not be read.
#[derive(Debug, PartialEq, Eq, Clone)]
pub enum ParseError {
    /// There was no word to read a command from.
    EmptyCommand,
    /// The first word, given here, names no instruction.
    InvalidCommand(String),
    /// The words ended where the instruction needs a number.
    MissingParameter(Instruction, NumberKind),
    /// The word given here is not a number of the kind that is needed.
    NumericParseError(String, NumberKind),
    /// The word given here is not a colour component from 0 to 255.
    ColorParseError(String),
    /// The word given here is not `0x` followed by 1, 3 or 6 hexadecimal
    /// digits.
    HexFormatError(String),
    /// The word after REPEAT, if any, is not a count.
    RepeatCountError(Option<String>),
    /// The word after the count, if any, is not `[`.
    RepeatOpenBracketError(Option<String>),
    /// The words ended before the `]` that closes a block.
    UnterminatedRepeatError,
    /// Blocks stand inside one another more deeply than the parser follows.
    NestingTooDeep,
}

/// What a `ParseError` says, with each word as its characters.
pub enum Failure {
    EmptyCommand,
    InvalidCommand(Seq<char>),
    MissingParameter(Instruction, NumberKind),
    NumericParseError(Seq<char>, NumberKind),
    ColorParseError(Seq<char>),
    HexFormatError(Seq<char>),
    RepeatCountError(Option<Seq<char>>),
    RepeatOpenBracketError(Option<Seq<char>>),
    UnterminatedRepeatError,
    NestingTooDeep,
}

/// The characters of a word that may be absent.
pub open spec fn word_view(w: Option<String>) -> Option<Seq<char>> {
    match w {
        Some(s) => Some(s@),
        None => None,
    }
}

impl View for ParseError {
    type V = Failure;

    open spec fn view(&self) -> Failure {
        match self {
            ParseError::EmptyCommand => Failure::EmptyCommand,
            ParseError::InvalidCommand(w) => Failure::InvalidCommand(w@),
            ParseError::MissingParameter(i, k) => Failure::MissingParameter(*i, *k),
            ParseError::NumericParseError(w, k) => Failure::NumericParseError(w@, *k),
            ParseError::ColorParseError(w) => Failure::ColorParseError(w@),
            ParseError::HexFormatError(w) => Failure::HexFormatError(w@),
            ParseError::RepeatCountError(w) => Failure::RepeatCountError(word_view(*w)),
            ParseError::RepeatOpenBracketError(w) => Failure::RepeatOpenBracketError(
                word_view(*w),
            ),
            ParseError::UnterminatedRepeatError => Failure::UnterminatedRepeatError,
            ParseError::NestingTooDeep => Failure::NestingTooDeep,
        }
    }
}

} // verus!
