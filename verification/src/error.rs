//! Errors of the parsers.

use vstd::prelude::*;

verus! {

/// Everything that can go wrong while reading or parsing a log.
///
/// Each error carries the input it failed on, for debugging.
#[derive(Debug, Clone, PartialEq, Eq)]
pub enum ParseError {
    /// A record that does not have the expected shape.
    InvalidFormat { raw: String, line_number: u64 },
    /// A file that could not be found or opened.
    FileNotFound { path: String },
    /// An I/O failure.
    IoError(String),
    /// No lines were given.
    EmptyInput,
    /// The first line is not a record start line.
    InvalidRecordStartLine { raw: String },
    /// The first line is too short to hold a timestamp and meta fields.
    LineTooShort { length: usize, raw: String },
    /// The meta part has no closing parenthesis.
    MissingClosingParen { raw: String },
    /// Fewer meta fields than required; `count` fields were read.
    InsufficientMetaFields { count: usize, raw: String },
    /// The `EP[n]` field is malformed.
    InvalidEpFormat { value: String, raw: String },
    /// The number inside `EP[n]` is not a `u8`.
    EpParseError { value: String, raw: String },
    /// A meta field lacks its expected prefix.
    InvalidFieldFormat { expected: String, actual: String, raw: String },
    /// The performance indicators are missing or malformed.
    IndicatorsParseError { reason: String, raw: String },
}

/// The content of a [`ParseError`], with texts as character sequences.
pub enum ParseErrorSpec {
    InvalidFormat { raw: Seq<char>, line_number: u64 },
    FileNotFound { path: Seq<char> },
    IoError(Seq<char>),
    EmptyInput,
    InvalidRecordStartLine { raw: Seq<char> },
    LineTooShort { length: usize, raw: Seq<char> },
    MissingClosingParen { raw: Seq<char> },
    InsufficientMetaFields { count: usize, raw: Seq<char> },
    InvalidEpFormat { value: Seq<char>, raw: Seq<char> },
    EpParseError { value: Seq<char>, raw: Seq<char> },
    InvalidFieldFormat { expected: Seq<char>, actual: Seq<char>, raw: Seq<char> },
    IndicatorsParseError { reason: Seq<char>, raw: Seq<char> },
}

impl View for ParseError {
    type V = ParseErrorSpec;

    open spec fn view(&self) -> ParseErrorSpec {
        match self {
            ParseError::InvalidFormat { raw, line_number } => ParseErrorSpec::InvalidFormat {
                raw: raw@,
                line_number: *line_number,
            },
            ParseError::FileNotFound { path } => ParseErrorSpec::FileNotFound { path: path@ },
            ParseError::IoError(m) => ParseErrorSpec::IoError(m@),
            ParseError::EmptyInput => ParseErrorSpec::EmptyInput,
            ParseError::InvalidRecordStartLine { raw } => ParseErrorSpec::InvalidRecordStartLine { raw: raw@ },
            ParseError::LineTooShort { length, raw } => ParseErrorSpec::LineTooShort {
                length: *length,
                raw: raw@,
            },
            ParseError::MissingClosingParen { raw } => ParseErrorSpec::MissingClosingParen { raw: raw@ },
            ParseError::InsufficientMetaFields { count, raw } => ParseErrorSpec::InsufficientMetaFields {
                count: *count,
                raw: raw@,
            },
            ParseError::InvalidEpFormat { value, raw } => ParseErrorSpec::InvalidEpFormat {
                value: value@,
                raw: raw@,
            },
            ParseError::EpParseError { value, raw } => ParseErrorSpec::EpParseError {
                value: value@,
                raw: raw@,
            },
            ParseError::InvalidFieldFormat { expected, actual, raw } => ParseErrorSpec::InvalidFieldFormat {
                expected: expected@,
                actual: actual@,
                raw: raw@,
            },
            ParseError::IndicatorsParseError { reason, raw } => ParseErrorSpec::IndicatorsParseError {
                reason: reason@,
                raw: raw@,
            },
        }
    }
}

/// Errors of a parse run in the background.
#[derive(Debug)]
pub enum AsyncError {
    /// The parse itself failed.
    Parse(ParseError),
    /// The background task panicked; the text is the panic message.
    Panic(String),
}

impl From<ParseError> for AsyncError {
    fn from(e: ParseError) -> (r: AsyncError) {
        AsyncError::Parse(e)
    }
}

impl vstd::std_specs::convert::FromSpecImpl<ParseError> for AsyncError {
    open spec fn obeys_from_spec() -> bool {
        true
    }

    open spec fn from_spec(e: ParseError) -> AsyncError {
        AsyncError::Parse(e)
    }
}

impl AsyncError {
    /// The error's message: `parse error: ...` or `blocking task panicked: ...`.
    pub fn message(&self) -> (r: String)
        ensures
            match self {
                AsyncError::Parse(e) => r@ == "parse error: "@ + parse_error_summary(e@),
                AsyncError::Panic(m) => r@ == "blocking task panicked: "@ + m@,
            },
    {
        match self {
            AsyncError::Parse(e) => {
                let mut s = String::from_str("parse error: ");
                let d = e.summary();
                s.append(d.as_str());
                s
            },
            AsyncError::Panic(m) => {
                let mut s = String::from_str("blocking task panicked: ");
                s.append(m.as_str());
                s
            },
        }
    }
}

/// The name of an error's kind followed by its main text.
pub open spec fn parse_error_summary(e: ParseErrorSpec) -> Seq<char> {
    match e {
        ParseErrorSpec::InvalidFormat { raw, line_number } => "invalid format at line "@ + decimal(
            line_number as nat,
        ) + " | raw: "@ + raw,
        ParseErrorSpec::FileNotFound { path } => "file not found or inaccessible: "@ + path,
        ParseErrorSpec::IoError(m) => "IO error: "@ + m,
        ParseErrorSpec::EmptyInput => "empty input"@,
        ParseErrorSpec::InvalidRecordStartLine { raw } => "invalid record start line: "@ + raw,
        ParseErrorSpec::LineTooShort { raw, .. } => "line too short: "@ + raw,
        ParseErrorSpec::MissingClosingParen { raw } => "missing closing parenthesis: "@ + raw,
        ParseErrorSpec::InsufficientMetaFields { raw, .. } => "insufficient meta fields: "@ + raw,
        ParseErrorSpec::InvalidEpFormat { value, .. } => "invalid EP format: "@ + value,
        ParseErrorSpec::EpParseError { value, .. } => "EP parse error: "@ + value,
        ParseErrorSpec::InvalidFieldFormat { actual, .. } => "invalid field format: "@ + actual,
        ParseErrorSpec::IndicatorsParseError { reason, .. } => "indicators parse error: "@ + reason,
    }
}

/// The decimal digits of `n`.
pub open spec fn decimal(n: nat) -> Seq<char>
    decreases n,
{
    if n < 10 {
        seq![((n + 48) as u8) as char]
    } else {
        decimal(n / 10).push((((n % 10) + 48) as u8) as char)
    }
}

fn push_decimal(n: u64, out: &mut Vec<char>)
    ensures
        final(out)@ == old(out)@ + decimal(n as nat),
    decreases n,
{
    if n >= 10 {
        push_decimal(n / 10, out);
    }
    let d: u8 = (n % 10) as u8;
    out.push((d + 48) as char);
    assert(final(out)@ =~= old(out)@ + decimal(n as nat));
}

impl ParseError {
    /// A one-line description: the kind of error and its main text.
    pub fn summary(&self) -> (r: String)
        ensures
            r@ == parse_error_summary(self@),
    {
        let (head, tail): (&str, &str) = match self {
            ParseError::InvalidFormat { raw, line_number } => {
                let mut digits: Vec<char> = Vec::new();
                push_decimal(*line_number, &mut digits);
                assert(digits@ =~= Seq::<char>::empty() + decimal(*line_number as nat));
                assert(digits@.subrange(0, digits@.len() as int) =~= digits@);
                let mut s = String::from_str("invalid format at line ");
                let d = crate::text::chars_to_string(digits.as_slice(), 0, digits.len());
                s.append(d.as_str());
                s.append(" | raw: ");
                s.append(raw.as_str());
                return s;
            },
            ParseError::FileNotFound { path } => ("file not found or inaccessible: ", path.as_str()),
            ParseError::IoError(m) => ("IO error: ", m.as_str()),
            ParseError::EmptyInput => ("empty input", ""),
            ParseError::InvalidRecordStartLine { raw } => ("invalid record start line: ", raw.as_str()),
            ParseError::LineTooShort { raw, .. } => ("line too short: ", raw.as_str()),
            ParseError::MissingClosingParen { raw } => ("missing closing parenthesis: ", raw.as_str()),
            ParseError::InsufficientMetaFields { raw, .. } => ("insufficient meta fields: ", raw.as_str()),
            ParseError::InvalidEpFormat { value, .. } => ("invalid EP format: ", value.as_str()),
            ParseError::EpParseError { value, .. } => ("EP parse error: ", value.as_str()),
            ParseError::InvalidFieldFormat { actual, .. } => ("invalid field format: ", actual.as_str()),
            ParseError::IndicatorsParseError { reason, .. } => ("indicators parse error: ", reason.as_str()),
        };
        let mut s = String::from_str(head);
        s.append(tail);
        proof {
            reveal_strlit("");
        }
        s
    }
}

} // verus!
