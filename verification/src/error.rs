//! The errors of the generator, and the text that reports them.

use crate::frontend::lexer::{LexError, LexErrorKind};
use crate::frontend::parse::ParseError;
use crate::text::{decimal, push_char, push_decimal, string_from_utf8};
use crate::types::Range;
use vstd::prelude::*;
use vstd::slice::{slice_subrange, slice_to_vec};
use vstd::utf8::{decode_utf8, encode_utf8_decode_utf8, valid_utf8};

verus! {

/// A problem with the command line or with the input file.
#[derive(Debug, Clone)]
pub enum OptionError {
    NoInputFileName,
    NotFoundInputFileName(String),
    BrokenInputFile(String),
    BrokenInputFilePath(String),
}

/// A grammar description from which no parser can be generated.
#[derive(Debug, Clone)]
pub enum ConfigError {
    /// No production is public, so there is no entry symbol.
    NotFoundPubFunctin,
    /// A binding names a token that the setting does not declare.
    NotFoundTokenTypeStr(String),
    /// A binding names a nonterminal that no production defines.
    NotFoundFunctionName(String),
}

/// Everything that can go wrong between the command line and the output file.
#[derive(Debug)]
pub enum Error {
    OptionError(OptionError),
    LexerError(LexError),
    ParserError(ParseError),
    ConfigError(ConfigError),
}

impl OptionError {
    /// A copy of the error.
    pub fn duplicate(&self) -> (r: OptionError)
        ensures
            r == *self,
    {
        match self {
            OptionError::NoInputFileName => OptionError::NoInputFileName,
            OptionError::NotFoundInputFileName(s) => OptionError::NotFoundInputFileName(s.clone()),
            OptionError::BrokenInputFile(s) => OptionError::BrokenInputFile(s.clone()),
            OptionError::BrokenInputFilePath(s) => OptionError::BrokenInputFilePath(s.clone()),
        }
    }
}

impl ConfigError {
    /// A copy of the error.
    pub fn duplicate(&self) -> (r: ConfigError)
        ensures
            r == *self,
    {
        match self {
            ConfigError::NotFoundPubFunctin => ConfigError::NotFoundPubFunctin,
            ConfigError::NotFoundTokenTypeStr(s) => ConfigError::NotFoundTokenTypeStr(s.clone()),
            ConfigError::NotFoundFunctionName(s) => ConfigError::NotFoundFunctionName(s.clone()),
        }
    }
}

impl Clone for Error {
    fn clone(&self) -> (r: Self)
        ensures
            r == *self,
    {
        match self {
            Error::OptionError(e) => Error::OptionError(e.duplicate()),
            Error::LexerError(e) => Error::LexerError((e.0.duplicate(), e.1)),
            Error::ParserError(e) => Error::ParserError(e.clone()),
            Error::ConfigError(e) => Error::ConfigError(e.duplicate()),
        }
    }
}

/// A rejected grammar description as contracts see it.
pub enum Fault {
    MissingEntrySymbol,
    UnknownToken(Seq<char>),
    UnknownNonterminal(Seq<char>),
}

impl View for ConfigError {
    type V = Fault;

    open spec fn view(&self) -> Fault {
        match *self {
            ConfigError::NotFoundPubFunctin => Fault::MissingEntrySymbol,
            ConfigError::NotFoundTokenTypeStr(name) => Fault::UnknownToken(name@),
            ConfigError::NotFoundFunctionName(name) => Fault::UnknownNonterminal(name@),
        }
    }
}

impl Error {
    /// The fault of the grammar that the error reports, if it reports one.
    pub open spec fn fault(&self) -> Option<Fault> {
        match *self {
            Error::ConfigError(e) => Some(e@),
            _ => None,
        }
    }
}

/// The number of line ends among the first `n` bytes of the input.
pub open spec fn newlines_before(input: Seq<u8>, n: int) -> nat
    decreases n,
{
    if n <= 0 {
        0
    } else if input[n - 1] == 0x0a {
        newlines_before(input, n - 1) + 1
    } else {
        newlines_before(input, n - 1)
    }
}

/// The offset at which the line that holds the offset `n` starts: behind
/// the last line end before `n`. A line end belongs to the line it ends.
pub open spec fn line_start(input: Seq<u8>, n: int) -> int
    decreases n,
{
    if n <= 0 {
        0
    } else if input[n - 1] == 0x0a {
        n
    } else {
        line_start(input, n - 1)
    }
}

/// The line of an offset, counted from one, and the offset of the start of
/// that line.
pub open spec fn line_of(input: Seq<u8>, n: int) -> (int, int) {
    (1 + newlines_before(input, n) as int, line_start(input, n))
}

/// Whether a span lies within the input and holds valid UTF-8, so that its
/// text and its place can be shown.
pub open spec fn can_show(range: Range, input: Seq<u8>) -> bool {
    let lo = if range.0 <= range.1 { range.0 } else { range.1 };
    let hi = if range.0 <= range.1 { range.1 } else { range.0 };
    &&& hi <= input.len()
    &&& input.len() < usize::MAX
    &&& valid_utf8(input.subrange(lo as int, hi as int))
}

pub proof fn lemma_line_start(input: Seq<u8>, n: int)
    requires
        0 <= n <= input.len(),
    ensures
        0 <= line_start(input, n) <= n,
        newlines_before(input, n) <= n,
    decreases n,
{
    if n > 0 {
        lemma_line_start(input, n - 1);
    }
}

/// Follows the lines of the input from the offset `from` to the offset
/// `to`, given the line of `from` and the start of that line.
pub fn follow_lines(input_bytes: &[u8], from: usize, to: usize, line: usize, pos: usize) -> (r: (
    usize,
    usize,
))
    requires
        from <= to <= input_bytes@.len(),
        input_bytes@.len() < usize::MAX,
        (line as int, pos as int) == line_of(input_bytes@, from as int),
    ensures
        (r.0 as int, r.1 as int) == line_of(input_bytes@, to as int),
{
    let mut line = line;
    let mut pos = pos;
    let mut i = from;
    while i < to
        invariant
            from <= i <= to,
            to <= input_bytes@.len(),
            input_bytes@.len() < usize::MAX,
            (line as int, pos as int) == line_of(input_bytes@, i as int),
        decreases to - i,
    {
        proof {
            lemma_line_start(input_bytes@, i as int);
        }
        if input_bytes[i] == 0x0a {
            line = line + 1;
            pos = i + 1;
        }
        i += 1;
    }
    (line, pos)
}

/// The text that a span covers, and the places of its two ends: each a
/// line, counted from one, and a column. The column of the start is counted
/// from one, and the column of the end is that of the last byte covered.
pub fn get_error_point(range: Range, input_bytes: &[u8]) -> (r: (
    String,
    (usize, usize),
    (usize, usize),
))
    requires
        can_show(range, input_bytes@),
    ensures
        ({
            let (start, end) = if range.0 <= range.1 {
                (range.0 as int, range.1 as int)
            } else {
                (range.1 as int, range.0 as int)
            };
            &&& r.0@ == decode_utf8(input_bytes@.subrange(start, end))
            &&& r.1.0 == line_of(input_bytes@, start).0
            &&& r.1.1 == start - line_of(input_bytes@, start).1 + 1
            &&& r.2.0 == line_of(input_bytes@, end).0
            &&& r.2.1 == end - line_of(input_bytes@, end).1
        }),
{
    let (start, end) = range.to_tuple();
    let bytes = slice_to_vec(slice_subrange(input_bytes, start, end));
    let error_point_string = match string_from_utf8(bytes) {
        Some(text) => {
            proof {
                encode_utf8_decode_utf8(text@);
            }
            text
        },
        None => unreached(),
    };
    let (start_line, start_pos) = follow_lines(input_bytes, 0, start, 1, 0);
    let (end_line, end_pos) = follow_lines(input_bytes, start, end, start_line, start_pos);
    proof {
        lemma_line_start(input_bytes@, start as int);
        lemma_line_start(input_bytes@, end as int);
    }
    (error_point_string, (start_line, start - start_pos + 1), (end_line, end - end_pos))
}

pub const NO_INPUT_FILE_NAME: &'static str = "![option error]\n  no input file name";

pub const NOT_FOUND_INPUT_FILE: &'static str = "![opiton error]\n  not found input file: ";

pub const BROKEN_INPUT_FILE: &'static str = "![opiton error]\n  broken input file: ";

pub const BROKEN_INPUT_FILE_PATH: &'static str = "![opiton error]\n  broken input file path: ";

pub const ILLEGAL_TOKEN: &'static str = "![lexer error]\n  illegal token '";

pub const UNDEFINED_TOKEN: &'static str = "![lexer error]\n  undefinde token \"";

pub const LEXER_END_OF_FILE: &'static str = "![lexer error]\n unexpected end of file at ";

pub const UNEXPECTED_TOKEN: &'static str = "![parse error]\n  unexpected token '";

pub const REDUNDANT_EXPRESSION: &'static str = "![parse error]\n  redundant expression '";

pub const PARSER_END_OF_FILE: &'static str = "![parse error]\n  unexpected end of file at ";

pub const NOT_FOUND_PUB_FUNCTION: &'static str = "![config file error]\n not found pub function at ";

pub const NOT_FOUND_QUOTED: &'static str = "![config file error]\n not found \"";

pub const TYPE_AT: &'static str = "\"'s type at ";

pub const NAME_AT: &'static str = "\"'s name at ";

pub const QUOTE_AT: &'static str = "' at ";

pub const DOUBLE_QUOTE_AT: &'static str = "\" at ";

pub const COLON: &'static str = ":";

pub const LINE_END: &'static str = "\n";

/// The smaller end of a span.
pub open spec fn span_start(range: Range) -> int {
    if range.0 <= range.1 {
        range.0 as int
    } else {
        range.1 as int
    }
}

/// The larger end of a span.
pub open spec fn span_end(range: Range) -> int {
    if range.0 <= range.1 {
        range.1 as int
    } else {
        range.0 as int
    }
}

/// The text that a span covers.
pub open spec fn span_text(range: Range, input: Seq<u8>) -> Seq<char> {
    decode_utf8(input.subrange(span_start(range), span_end(range)))
}

/// The place of the start of a span in a file: the path, the line and the
/// column.
pub open spec fn place_text(path: Seq<char>, range: Range, input: Seq<u8>) -> Seq<char> {
    let start = span_start(range);
    path + COLON@ + decimal(line_of(input, start).0 as nat) + COLON@ + decimal(
        (start - line_of(input, start).1 + 1) as nat,
    )
}

/// Whether everything that the message of an error shows can be shown.
pub open spec fn can_report(err: Error, input: Seq<u8>) -> bool {
    match err {
        Error::LexerError(e) => can_show(e.1, input),
        Error::ParserError(ParseError::UnexpectedToken(tok)) => can_show(tok.1, input),
        Error::ParserError(ParseError::RedundantExpression(tok)) => can_show(tok.1, input),
        _ => true,
    }
}

/// The message that reports an error in the file `path` with the content
/// `input`.
pub open spec fn message_text(err: Error, path: Seq<char>, input: Seq<u8>) -> Seq<char> {
    match err {
        Error::OptionError(OptionError::NoInputFileName) => NO_INPUT_FILE_NAME@,
        Error::OptionError(OptionError::NotFoundInputFileName(s)) => NOT_FOUND_INPUT_FILE@ + s@,
        Error::OptionError(OptionError::BrokenInputFile(s)) => BROKEN_INPUT_FILE@ + s@,
        Error::OptionError(OptionError::BrokenInputFilePath(s)) => BROKEN_INPUT_FILE_PATH@ + s@,
        Error::LexerError((LexErrorKind::InvalidChar(c), range)) => ILLEGAL_TOKEN@.push(c)
            + QUOTE_AT@ + place_text(path, range, input) + LINE_END@ + span_text(range, input),
        Error::LexerError((LexErrorKind::UnDefinedToken(s), range)) => UNDEFINED_TOKEN@ + s@
            + DOUBLE_QUOTE_AT@ + place_text(path, range, input) + LINE_END@ + span_text(
            range,
            input,
        ),
        Error::LexerError((LexErrorKind::Eof, range)) => LEXER_END_OF_FILE@ + place_text(
            path,
            range,
            input,
        ),
        Error::ParserError(ParseError::UnexpectedToken(tok)) => UNEXPECTED_TOKEN@ + span_text(
            tok.1,
            input,
        ) + QUOTE_AT@ + place_text(path, tok.1, input),
        Error::ParserError(ParseError::RedundantExpression(tok)) => REDUNDANT_EXPRESSION@
            + span_text(tok.1, input) + QUOTE_AT@ + place_text(path, tok.1, input),
        Error::ParserError(ParseError::Eof) => PARSER_END_OF_FILE@ + path,
        Error::ConfigError(ConfigError::NotFoundPubFunctin) => NOT_FOUND_PUB_FUNCTION@ + path,
        Error::ConfigError(ConfigError::NotFoundTokenTypeStr(s)) => NOT_FOUND_QUOTED@ + s@
            + TYPE_AT@ + path,
        Error::ConfigError(ConfigError::NotFoundFunctionName(s)) => NOT_FOUND_QUOTED@ + s@
            + NAME_AT@ + path,
    }
}

/// Appends the place of the start of a span, and returns the text that the
/// span covers.
pub fn push_place(out: &mut String, input_file_path: &str, range: Range, input_bytes: &[u8]) -> (r:
    String)
    requires
        can_show(range, input_bytes@),
    ensures
        final(out)@ == old(out)@ + place_text(input_file_path@, range, input_bytes@),
        r@ == span_text(range, input_bytes@),
{
    let (err_point_s, start_pos, _end_pos) = get_error_point(range, input_bytes);
    out.append(input_file_path);
    out.append(COLON);
    push_decimal(out, start_pos.0);
    out.append(COLON);
    push_decimal(out, start_pos.1);
    proof {
        assert(out@ =~= old(out)@ + place_text(input_file_path@, range, input_bytes@));
    }
    err_point_s
}

/// The message that reports an error to the user. `input_file_path` is the
/// path of the grammar description and `input_bytes` its content; an error
/// of the lexer or of the parser is shown with its place in that file.
pub fn error_message(err: &Error, input_file_path: &str, input_bytes: &[u8]) -> (r: String)
    requires
        can_report(*err, input_bytes@),
    ensures
        r@ == message_text(*err, input_file_path@, input_bytes@),
{
    let mut out = String::new();
    match err {
        Error::OptionError(e) => match e {
            OptionError::NoInputFileName => {
                out.append(NO_INPUT_FILE_NAME);
            },
            OptionError::NotFoundInputFileName(s) => {
                out.append(NOT_FOUND_INPUT_FILE);
                out.append(s.as_str());
            },
            OptionError::BrokenInputFile(s) => {
                out.append(BROKEN_INPUT_FILE);
                out.append(s.as_str());
            },
            OptionError::BrokenInputFilePath(s) => {
                out.append(BROKEN_INPUT_FILE_PATH);
                out.append(s.as_str());
            },
        },
        Error::LexerError(e) => match &e.0 {
            LexErrorKind::InvalidChar(c) => {
                out.append(ILLEGAL_TOKEN);
                push_char(&mut out, *c);
                out.append(QUOTE_AT);
                let err_point_s = push_place(&mut out, input_file_path, e.1, input_bytes);
                out.append(LINE_END);
                out.append(err_point_s.as_str());
            },
            LexErrorKind::UnDefinedToken(s) => {
                out.append(UNDEFINED_TOKEN);
                out.append(s.as_str());
                out.append(DOUBLE_QUOTE_AT);
                let err_point_s = push_place(&mut out, input_file_path, e.1, input_bytes);
                out.append(LINE_END);
                out.append(err_point_s.as_str());
            },
            LexErrorKind::Eof => {
                out.append(LEXER_END_OF_FILE);
                let _ = push_place(&mut out, input_file_path, e.1, input_bytes);
            },
        },
        Error::ParserError(e) => match e {
            ParseError::UnexpectedToken(tok) => {
                let mut place = String::new();
                let err_point_s = push_place(&mut place, input_file_path, tok.1, input_bytes);
                out.append(UNEXPECTED_TOKEN);
                out.append(err_point_s.as_str());
                out.append(QUOTE_AT);
                out.append(place.as_str());
            },
            ParseError::RedundantExpression(tok) => {
                let mut place = String::new();
                let err_point_s = push_place(&mut place, input_file_path, tok.1, input_bytes);
                out.append(REDUNDANT_EXPRESSION);
                out.append(err_point_s.as_str());
                out.append(QUOTE_AT);
                out.append(place.as_str());
            },
            ParseError::Eof => {
                out.append(PARSER_END_OF_FILE);
                out.append(input_file_path);
            },
        },
        Error::ConfigError(e) => match e {
            ConfigError::NotFoundPubFunctin => {
                out.append(NOT_FOUND_PUB_FUNCTION);
                out.append(input_file_path);
            },
            ConfigError::NotFoundTokenTypeStr(s) => {
                out.append(NOT_FOUND_QUOTED);
                out.append(s.as_str());
                out.append(TYPE_AT);
                out.append(input_file_path);
            },
            ConfigError::NotFoundFunctionName(s) => {
                out.append(NOT_FOUND_QUOTED);
                out.append(s.as_str());
                out.append(NAME_AT);
                out.append(input_file_path);
            },
        },
    }
    proof {
        assert(out@ =~= message_text(*err, input_file_path@, input_bytes@));
    }
    out
}

} // verus!
