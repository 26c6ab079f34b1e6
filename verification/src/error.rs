//! When serializing or deserializing an S-expression goes wrong.

use vstd::prelude::*;
use vstd::string::StringExecFns;

verus! {

/// Relied on for carrying a reading or writing failure of an outer byte
/// source or sink; the library itself never inspects the value.
#[verifier::external_type_specification]
#[verifier::external_body]
pub struct ExIoError(std::io::Error);

/// Categorizes the cause of an [`Error`].
#[derive(Copy, Clone, PartialEq, Eq, Debug, Structural)]
pub enum Category {
    /// The error was caused by a failure to read or write bytes on an IO
    /// stream.
    Io,
    /// The error was caused by input that was not a syntactically valid
    /// S-expression.
    Syntax,
    /// The error was caused by input data that was semantically incorrect,
    /// for example an aggregate that does not have the requested shape or a
    /// map key that is not string-like.
    Data,
    /// The error was caused by prematurely reaching the end of the input
    /// data.  Callers that process streaming input may be interested in
    /// retrying the deserialization once more data is available.
    Eof,
}

/// The mathematical model of an [`ErrorCode`].
#[verifier::ext_equal]
pub enum CodeV {
    /// A shape mismatch, with its message text.
    Message(Seq<char>),
    /// A reading or writing failure of the underlying source or sink.
    Io,
    /// EOF while parsing a list.
    EofWhileParsingList,
    /// EOF while parsing an association list.
    EofWhileParsingAlist,
    /// EOF while parsing a string.
    EofWhileParsingString,
    /// EOF while parsing a value.
    EofWhileParsingValue,
    /// Expected a `.`.
    ExpectedPairDot,
    /// Expected a whitespace separator or `)`.
    ExpectedListEltOrEnd,
    /// Expected either a `.` or a `)`.
    ExpectedPairOrEnd,
    /// Expected a `(`.
    ExpectedList,
    /// Expected `#t`, `#f`, `#nil` or a keyword.
    ExpectedSomeIdent,
    /// Expected a character that starts a value.
    ExpectedSomeValue,
    /// Expected a string, symbol or keyword.
    ExpectedSomeString,
    /// Invalid escape code.
    InvalidEscape,
    /// Invalid number.
    InvalidNumber,
    /// Number too large or too small for a floating value.
    NumberOutOfRange,
    /// Invalid unicode code point.
    InvalidUnicodeCodePoint,
    /// Object key is not string-like.
    KeyMustBeAString,
    /// Lone leading surrogate in hex escape.
    LoneLeadingSurrogateInHexEscape,
    /// Non-whitespace trailing characters after the value.
    TrailingCharacters,
    /// Unexpected end of hex escape.
    UnexpectedEndOfHexEscape,
    /// Nesting deeper than the recursion limit.
    RecursionLimitExceeded,
}

/// The reasons a decode or encode operation can fail.
#[derive(Debug)]
pub enum ErrorCode {
    /// A shape mismatch, with its message text.
    Message(String),
    /// Some IO error occurred while serializing or deserializing.
    Io(std::io::Error),
    /// EOF while parsing a list.
    EofWhileParsingList,
    /// EOF while parsing an association list.
    EofWhileParsingAlist,
    /// EOF while parsing a string.
    EofWhileParsingString,
    /// EOF while parsing a value.
    EofWhileParsingValue,
    /// Expected a `.`.
    ExpectedPairDot,
    /// Expected a whitespace separator or `)`.
    ExpectedListEltOrEnd,
    /// Expected either a `.` or a `)`.
    ExpectedPairOrEnd,
    /// Expected a `(`.
    ExpectedList,
    /// Expected `#t`, `#f`, `#nil` or a keyword.
    ExpectedSomeIdent,
    /// Expected a character that starts a value.
    ExpectedSomeValue,
    /// Expected a string, symbol or keyword.
    ExpectedSomeString,
    /// Invalid escape code.
    InvalidEscape,
    /// Invalid number.
    InvalidNumber,
    /// Number too large or too small for a floating value.
    NumberOutOfRange,
    /// Invalid unicode code point.
    InvalidUnicodeCodePoint,
    /// Object key is not string-like.
    KeyMustBeAString,
    /// Lone leading surrogate in hex escape.
    LoneLeadingSurrogateInHexEscape,
    /// Non-whitespace trailing characters after the value.
    TrailingCharacters,
    /// Unexpected end of hex escape.
    UnexpectedEndOfHexEscape,
    /// Nesting deeper than the recursion limit.
    RecursionLimitExceeded,
}

impl View for ErrorCode {
    type V = CodeV;

    open spec fn view(&self) -> CodeV {
        match self {
            ErrorCode::Message(s) => CodeV::Message(s@),
            ErrorCode::Io(_) => CodeV::Io,
            ErrorCode::EofWhileParsingList => CodeV::EofWhileParsingList,
            ErrorCode::EofWhileParsingAlist => CodeV::EofWhileParsingAlist,
            ErrorCode::EofWhileParsingString => CodeV::EofWhileParsingString,
            ErrorCode::EofWhileParsingValue => CodeV::EofWhileParsingValue,
            ErrorCode::ExpectedPairDot => CodeV::ExpectedPairDot,
            ErrorCode::ExpectedListEltOrEnd => CodeV::ExpectedListEltOrEnd,
            ErrorCode::ExpectedPairOrEnd => CodeV::ExpectedPairOrEnd,
            ErrorCode::ExpectedList => CodeV::ExpectedList,
            ErrorCode::ExpectedSomeIdent => CodeV::ExpectedSomeIdent,
            ErrorCode::ExpectedSomeValue => CodeV::ExpectedSomeValue,
            ErrorCode::ExpectedSomeString => CodeV::ExpectedSomeString,
            ErrorCode::InvalidEscape => CodeV::InvalidEscape,
            ErrorCode::InvalidNumber => CodeV::InvalidNumber,
            ErrorCode::NumberOutOfRange => CodeV::NumberOutOfRange,
            ErrorCode::InvalidUnicodeCodePoint => CodeV::InvalidUnicodeCodePoint,
            ErrorCode::KeyMustBeAString => CodeV::KeyMustBeAString,
            ErrorCode::LoneLeadingSurrogateInHexEscape => CodeV::LoneLeadingSurrogateInHexEscape,
            ErrorCode::TrailingCharacters => CodeV::TrailingCharacters,
            ErrorCode::UnexpectedEndOfHexEscape => CodeV::UnexpectedEndOfHexEscape,
            ErrorCode::RecursionLimitExceeded => CodeV::RecursionLimitExceeded,
        }
    }
}

/// The category a code belongs to.  Shape mismatches and non-string-like map
/// keys are data errors; premature input ends are EOF errors; every other
/// malformed input is a syntax error.
pub open spec fn spec_classify(code: CodeV) -> Category {
    match code {
        CodeV::Message(_) => Category::Data,
        CodeV::Io => Category::Io,
        CodeV::EofWhileParsingList => Category::Eof,
        CodeV::EofWhileParsingAlist => Category::Eof,
        CodeV::EofWhileParsingString => Category::Eof,
        CodeV::EofWhileParsingValue => Category::Eof,
        CodeV::KeyMustBeAString => Category::Data,
        _ => Category::Syntax,
    }
}

/// The mathematical model of an [`Error`]: its code, and its one-based line
/// and column (zero when no position is known yet).
pub struct ErrorV {
    /// The code.
    pub code: CodeV,
    /// One-based line, or zero.
    pub line: nat,
    /// One-based column, or zero.
    pub column: nat,
}

/// This type represents all possible errors that can occur when serializing
/// or deserializing S-expression data.
#[derive(Debug)]
pub struct Error {
    code: ErrorCode,
    line: usize,
    column: usize,
}

impl View for Error {
    type V = ErrorV;

    closed spec fn view(&self) -> ErrorV {
        ErrorV { code: self.code@, line: self.line as nat, column: self.column as nat }
    }
}

impl Error {
    /// One-based line number at which the error was detected, or zero when
    /// no position is known.
    pub fn line(&self) -> (r: usize)
        ensures
            r == self@.line,
    {
        self.line
    }

    /// One-based column number at which the error was detected, or zero when
    /// no position is known.
    pub fn column(&self) -> (r: usize)
        ensures
            r == self@.column,
    {
        self.column
    }

    /// Categorizes the cause of this error.
    ///
    /// - `Category::Io` - failure to read or write bytes on an IO stream
    /// - `Category::Syntax` - input that is not syntactically valid
    /// - `Category::Data` - input data that is semantically incorrect
    /// - `Category::Eof` - unexpected end of the input data
    pub fn classify(&self) -> (r: Category)
        ensures
            r == spec_classify(self@.code),
    {
        match &self.code {
            ErrorCode::Message(_) => Category::Data,
            ErrorCode::Io(_) => Category::Io,
            ErrorCode::EofWhileParsingList
            | ErrorCode::EofWhileParsingAlist
            | ErrorCode::EofWhileParsingString
            | ErrorCode::EofWhileParsingValue => Category::Eof,
            ErrorCode::KeyMustBeAString => Category::Data,
            ErrorCode::ExpectedPairDot
            | ErrorCode::ExpectedListEltOrEnd
            | ErrorCode::ExpectedPairOrEnd
            | ErrorCode::ExpectedList
            | ErrorCode::ExpectedSomeIdent
            | ErrorCode::ExpectedSomeValue
            | ErrorCode::ExpectedSomeString
            | ErrorCode::InvalidEscape
            | ErrorCode::InvalidNumber
            | ErrorCode::NumberOutOfRange
            | ErrorCode::InvalidUnicodeCodePoint
            | ErrorCode::LoneLeadingSurrogateInHexEscape
            | ErrorCode::TrailingCharacters
            | ErrorCode::UnexpectedEndOfHexEscape
            | ErrorCode::RecursionLimitExceeded => Category::Syntax,
        }
    }

    /// True if this error was caused by a failure to read or write bytes on
    /// an IO stream.
    pub fn is_io(&self) -> (r: bool)
        ensures
            r == (spec_classify(self@.code) == Category::Io),
    {
        self.classify() == Category::Io
    }

    /// True if this error was caused by input that was not syntactically
    /// valid.
    pub fn is_syntax(&self) -> (r: bool)
        ensures
            r == (spec_classify(self@.code) == Category::Syntax),
    {
        self.classify() == Category::Syntax
    }

    /// True if this error was caused by input data that was semantically
    /// incorrect.
    pub fn is_data(&self) -> (r: bool)
        ensures
            r == (spec_classify(self@.code) == Category::Data),
    {
        self.classify() == Category::Data
    }

    /// True if this error was caused by prematurely reaching the end of the
    /// input data.
    pub fn is_eof(&self) -> (r: bool)
        ensures
            r == (spec_classify(self@.code) == Category::Eof),
    {
        self.classify() == Category::Eof
    }

    /// Builds an error from a code and the position where it was detected.
    pub fn syntax(code: ErrorCode, line: usize, column: usize) -> (r: Error)
        ensures
            r@ == (ErrorV { code: code@, line: line as nat, column: column as nat }),
    {
        Error { code, line, column }
    }

    /// Builds an error around an IO failure; no position is attached.
    pub fn io(error: std::io::Error) -> (r: Error)
        ensures
            r@ == (ErrorV { code: CodeV::Io, line: 0, column: 0 }),
    {
        Error { code: ErrorCode::Io(error), line: 0, column: 0 }
    }

    /// Builds a data error from a message; no position is attached.
    pub fn data(msg: String) -> (r: Error)
        ensures
            r@ == (ErrorV { code: CodeV::Message(msg@), line: 0, column: 0 }),
    {
        Error { code: ErrorCode::Message(msg), line: 0, column: 0 }
    }

    /// Attaches a position to an error that does not carry one yet; an
    /// already positioned error is preserved unchanged, so the first
    /// reported position wins.
    pub fn fix_position(self, line: usize, column: usize) -> (r: Error)
        ensures
            r@ == if self@.line == 0 {
                ErrorV { code: self@.code, line: line as nat, column: column as nat }
            } else {
                self@
            },
    {
        if self.line == 0 {
            Error { code: self.code, line, column }
        } else {
            self
        }
    }
}


/// The text a code renders as.
pub open spec fn spec_code_text(code: CodeV) -> Seq<char> {
    match code {
        CodeV::Message(msg) => msg,
        CodeV::Io => "IO error"@,
        CodeV::EofWhileParsingList => "EOF while parsing a list"@,
        CodeV::EofWhileParsingAlist => "EOF while parsing an alist"@,
        CodeV::EofWhileParsingString => "EOF while parsing a string"@,
        CodeV::EofWhileParsingValue => "EOF while parsing a value"@,
        CodeV::ExpectedPairDot => "expected `.`"@,
        CodeV::ExpectedListEltOrEnd => "expected ` ` or `)`"@,
        CodeV::ExpectedPairOrEnd => "expected `.` or `)`"@,
        CodeV::ExpectedList => "expected `(`"@,
        CodeV::ExpectedSomeIdent => "expected ident"@,
        CodeV::ExpectedSomeValue => "expected value"@,
        CodeV::ExpectedSomeString => "expected string"@,
        CodeV::InvalidEscape => "invalid escape"@,
        CodeV::InvalidNumber => "invalid number"@,
        CodeV::NumberOutOfRange => "number out of range"@,
        CodeV::InvalidUnicodeCodePoint => "invalid unicode code point"@,
        CodeV::KeyMustBeAString => "key must be a string"@,
        CodeV::LoneLeadingSurrogateInHexEscape => "lone leading surrogate in hex escape"@,
        CodeV::TrailingCharacters => "trailing characters"@,
        CodeV::UnexpectedEndOfHexEscape => "unexpected end of hex escape"@,
        CodeV::RecursionLimitExceeded => "recursion limit exceeded"@,
    }
}

/// The text an error renders as: the code's text, and the position when
/// one is attached.
pub open spec fn spec_error_text(e: ErrorV) -> Seq<char> {
    if e.line == 0 {
        spec_code_text(e.code)
    } else {
        spec_code_text(e.code) + " at line "@ + vstd::utf8::decode_utf8(
            crate::text::spec_digits(e.line),
        ) + " column "@ + vstd::utf8::decode_utf8(crate::text::spec_digits(e.column))
    }
}

/// The decimal text of a non-negative machine integer.
fn usize_to_string(v: usize) -> (r: String)
    ensures
        r@ == vstd::utf8::decode_utf8(crate::text::spec_digits(v as nat)),
{
    let mut digits: Vec<u8> = Vec::new();
    crate::ser::write_u64_digits(&mut digits, v as u64);
    proof {
        crate::laws::lemma_digits_shape(v as nat);
        assert forall|k: int| 0 <= k < digits@.len() implies digits@[k] < 0x80 by {
            assert(crate::text::is_digit(digits@[k]));
        }
        crate::de::lemma_ascii_valid_utf8(digits@);
    }
    match crate::de::bytes_to_string(digits) {
        Some(text) => text,
        None => {
            proof {
                assert(false);
            }
            String::new()
        },
    }
}

impl Error {
    /// Renders the error as text: the reason, and the position when one is
    /// attached.
    pub fn to_text(&self) -> (r: String)
        ensures
            r@ == spec_error_text(self@),
    {
        let mut out: String = match &self.code {
            ErrorCode::Message(msg) => msg.clone(),
            ErrorCode::Io(_) => "IO error".to_owned(),
            ErrorCode::EofWhileParsingList => "EOF while parsing a list".to_owned(),
            ErrorCode::EofWhileParsingAlist => "EOF while parsing an alist".to_owned(),
            ErrorCode::EofWhileParsingString => "EOF while parsing a string".to_owned(),
            ErrorCode::EofWhileParsingValue => "EOF while parsing a value".to_owned(),
            ErrorCode::ExpectedPairDot => "expected `.`".to_owned(),
            ErrorCode::ExpectedListEltOrEnd => "expected ` ` or `)`".to_owned(),
            ErrorCode::ExpectedPairOrEnd => "expected `.` or `)`".to_owned(),
            ErrorCode::ExpectedList => "expected `(`".to_owned(),
            ErrorCode::ExpectedSomeIdent => "expected ident".to_owned(),
            ErrorCode::ExpectedSomeValue => "expected value".to_owned(),
            ErrorCode::ExpectedSomeString => "expected string".to_owned(),
            ErrorCode::InvalidEscape => "invalid escape".to_owned(),
            ErrorCode::InvalidNumber => "invalid number".to_owned(),
            ErrorCode::NumberOutOfRange => "number out of range".to_owned(),
            ErrorCode::InvalidUnicodeCodePoint => "invalid unicode code point".to_owned(),
            ErrorCode::KeyMustBeAString => "key must be a string".to_owned(),
            ErrorCode::LoneLeadingSurrogateInHexEscape => {
                "lone leading surrogate in hex escape".to_owned()
            },
            ErrorCode::TrailingCharacters => "trailing characters".to_owned(),
            ErrorCode::UnexpectedEndOfHexEscape => "unexpected end of hex escape".to_owned(),
            ErrorCode::RecursionLimitExceeded => "recursion limit exceeded".to_owned(),
        };
        if self.line == 0 {
            return out;
        }
        out.append(" at line ");
        let line_text = usize_to_string(self.line);
        out.append(line_text.as_str());
        out.append(" column ");
        let column_text = usize_to_string(self.column);
        out.append(column_text.as_str());
        out
    }
}

} // verus!
