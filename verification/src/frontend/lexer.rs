//! The lexer of grammar descriptions.

use crate::text::{ascii_text, is_ascii_bytes, lemma_ascii_text, same_name, string_from_utf8};
use crate::types::Range;
use vstd::prelude::*;
use vstd::slice::{slice_subrange, slice_to_vec};
use vstd::string::StringSliceAdditionalSpecFns;
use vstd::utf8::{
    decode_utf8, encode_utf8_decode_utf8, encode_utf8_valid_utf8, is_char_boundary,
    is_char_boundary_iff_not_is_continuation_byte, length_of_first_scalar, pop_first_scalar,
    valid_utf8, valid_utf8_concat, valid_utf8_split,
};

verus! {

pub const KEYWORD_EXTERN: &'static str = "extern";

/// The kinds of token in a grammar description.
#[derive(Debug, Clone, PartialEq)]
#[allow(non_camel_case_types)]
pub enum TokenKind {
    EOF,
    GRAMMAR,
    EXTERN,
    ENUM,
    PUB,
    VAR(String),
    CONSTRUCTOR(String),
    LCURLYBRACES,
    RCURLYBRACES,
    EQ,
    COMMA,
    SEMICOLON,
    COLON,
    LBRACES,
    RBRACES,
    ARROW,
    STR(String),
}

/// A token with the span of source text that it was read from.
pub type Token = (TokenKind, Range);

/// A token kind as contracts see it.
pub enum Lexeme {
    Eof,
    Grammar,
    Extern,
    Enum,
    Pub,
    Var(Seq<char>),
    Constructor(Seq<char>),
    LCurlyBraces,
    RCurlyBraces,
    Eq,
    Comma,
    Semicolon,
    Colon,
    LBraces,
    RBraces,
    Arrow,
    Str(Seq<char>),
}

impl View for TokenKind {
    type V = Lexeme;

    open spec fn view(&self) -> Lexeme {
        match *self {
            TokenKind::EOF => Lexeme::Eof,
            TokenKind::GRAMMAR => Lexeme::Grammar,
            TokenKind::EXTERN => Lexeme::Extern,
            TokenKind::ENUM => Lexeme::Enum,
            TokenKind::PUB => Lexeme::Pub,
            TokenKind::VAR(s) => Lexeme::Var(s@),
            TokenKind::CONSTRUCTOR(s) => Lexeme::Constructor(s@),
            TokenKind::LCURLYBRACES => Lexeme::LCurlyBraces,
            TokenKind::RCURLYBRACES => Lexeme::RCurlyBraces,
            TokenKind::EQ => Lexeme::Eq,
            TokenKind::COMMA => Lexeme::Comma,
            TokenKind::SEMICOLON => Lexeme::Semicolon,
            TokenKind::COLON => Lexeme::Colon,
            TokenKind::LBRACES => Lexeme::LBraces,
            TokenKind::RBRACES => Lexeme::RBraces,
            TokenKind::ARROW => Lexeme::Arrow,
            TokenKind::STR(s) => Lexeme::Str(s@),
        }
    }
}

impl TokenKind {
    /// A copy of the token kind, with the same text.
    pub fn duplicate(&self) -> (r: TokenKind)
        ensures
            r == *self,
    {
        match self {
            TokenKind::EOF => TokenKind::EOF,
            TokenKind::GRAMMAR => TokenKind::GRAMMAR,
            TokenKind::EXTERN => TokenKind::EXTERN,
            TokenKind::ENUM => TokenKind::ENUM,
            TokenKind::PUB => TokenKind::PUB,
            TokenKind::VAR(s) => TokenKind::VAR(s.clone()),
            TokenKind::CONSTRUCTOR(s) => TokenKind::CONSTRUCTOR(s.clone()),
            TokenKind::LCURLYBRACES => TokenKind::LCURLYBRACES,
            TokenKind::RCURLYBRACES => TokenKind::RCURLYBRACES,
            TokenKind::EQ => TokenKind::EQ,
            TokenKind::COMMA => TokenKind::COMMA,
            TokenKind::SEMICOLON => TokenKind::SEMICOLON,
            TokenKind::COLON => TokenKind::COLON,
            TokenKind::LBRACES => TokenKind::LBRACES,
            TokenKind::RBRACES => TokenKind::RBRACES,
            TokenKind::ARROW => TokenKind::ARROW,
            TokenKind::STR(s) => TokenKind::STR(s.clone()),
        }
    }
}

/// The text that a token carries, if it is of a kind that carries text.
pub open spec fn lexeme_text(lexeme: Lexeme) -> Option<Seq<char>> {
    match lexeme {
        Lexeme::Str(s) => Some(s),
        Lexeme::Var(s) => Some(s),
        Lexeme::Constructor(s) => Some(s),
        _ => None,
    }
}

/// The text of a string literal, a variable or a constructor; `None` for
/// every other kind of token.
pub fn get_string(tok: TokenKind) -> (r: Option<String>)
    ensures
        match r {
            Some(s) => lexeme_text(tok@) == Some(s@),
            None => lexeme_text(tok@) is None,
        },
{
    match tok {
        TokenKind::STR(s) => Some(s),
        TokenKind::VAR(s) => Some(s),
        TokenKind::CONSTRUCTOR(s) => Some(s),
        _ => None,
    }
}

/// Why a grammar description could not be split into tokens.
#[derive(Debug, Clone, PartialEq, Eq, Hash)]
pub enum LexErrorKind {
    InvalidChar(char),
    UnDefinedToken(String),
    Eof,
}

impl LexErrorKind {
    /// A copy of the error kind.
    pub fn duplicate(&self) -> (r: LexErrorKind)
        ensures
            r == *self,
    {
        match self {
            LexErrorKind::InvalidChar(c) => LexErrorKind::InvalidChar(*c),
            LexErrorKind::UnDefinedToken(s) => LexErrorKind::UnDefinedToken(s.clone()),
            LexErrorKind::Eof => LexErrorKind::Eof,
        }
    }
}

/// A lexical error with the span of source text that it is about.
pub type LexError = (LexErrorKind, Range);

/// A lexical error as contracts see it.
pub enum LexFault {
    InvalidChar(char),
    UndefinedToken(Seq<char>),
    Eof,
}

impl View for LexErrorKind {
    type V = LexFault;

    open spec fn view(&self) -> LexFault {
        match *self {
            LexErrorKind::InvalidChar(c) => LexFault::InvalidChar(c),
            LexErrorKind::UnDefinedToken(s) => LexFault::UndefinedToken(s@),
            LexErrorKind::Eof => LexFault::Eof,
        }
    }
}

/// The classes of bytes that the lexer reads runs of.
pub enum ByteClass {
    /// Letters, digits and the underscore.
    Word,
    /// Blanks, tabs and line ends.
    Space,
    /// Everything but a line end.
    Comment,
}

pub open spec fn is_word_byte(b: u8) -> bool {
    ||| 0x61 <= b <= 0x7a
    ||| 0x41 <= b <= 0x5a
    ||| 0x30 <= b <= 0x39
    ||| b == 0x5f
}

pub open spec fn is_space_byte(b: u8) -> bool {
    b == 0x20 || b == 0x0a || b == 0x09
}

pub open spec fn in_class(class: ByteClass, b: u8) -> bool {
    match class {
        ByteClass::Word => is_word_byte(b),
        ByteClass::Space => is_space_byte(b),
        ByteClass::Comment => b != 0x0a,
    }
}

/// The end of the run of bytes of a class that starts at `pos`.
pub open spec fn run_end(input: Seq<u8>, pos: int, class: ByteClass) -> int
    decreases input.len() - pos,
{
    if 0 <= pos < input.len() && in_class(class, input[pos]) {
        run_end(input, pos + 1, class)
    } else {
        pos
    }
}

/// The position of the quote that closes the string literal whose text
/// starts at `pos`, or the end of the input if nothing closes it. A quote
/// after a backslash does not close the literal.
pub open spec fn literal_end(input: Seq<u8>, pos: int) -> int
    decreases input.len() - pos,
{
    if pos < 0 || pos >= input.len() {
        pos
    } else if input[pos] == 0x22 {
        pos
    } else if input[pos] == 0x5c && pos + 1 < input.len() && input[pos + 1] == 0x22 {
        literal_end(input, pos + 2)
    } else {
        literal_end(input, pos + 1)
    }
}

/// The bytes of the string literal whose text starts at `pos`: the text up
/// to the closing quote, with a quote for each backslash and quote.
pub open spec fn literal_bytes(input: Seq<u8>, pos: int) -> Seq<u8>
    decreases input.len() - pos,
{
    if pos < 0 || pos >= input.len() {
        Seq::empty()
    } else if input[pos] == 0x22 {
        Seq::empty()
    } else if input[pos] == 0x5c && pos + 1 < input.len() && input[pos + 1] == 0x22 {
        seq![0x22u8] + literal_bytes(input, pos + 2)
    } else {
        seq![input[pos]] + literal_bytes(input, pos + 1)
    }
}

/// The token that a word stands for: a keyword, or else a variable.
pub open spec fn word_lexeme(text: Seq<char>) -> Lexeme {
    if text == "grammar"@ {
        Lexeme::Grammar
    } else if text == KEYWORD_EXTERN@ {
        Lexeme::Extern
    } else if text == "enum"@ {
        Lexeme::Enum
    } else if text == "pub"@ {
        Lexeme::Pub
    } else {
        Lexeme::Var(text)
    }
}

/// What the lexer finds at a position of the input.
pub enum Scanned {
    /// A token, the span of text it was read from, and where lexing goes on.
    Token(Lexeme, int, int, int),
    /// Blank space or a comment, and where lexing goes on.
    Skip(int),
    /// An error and the span of text that it is about.
    Fail(LexFault, int, int),
}

/// What the lexer finds at the position `pos` of the input.
pub open spec fn scan(input: Seq<u8>, pos: int) -> Scanned
    recommends
        0 <= pos < input.len(),
{
    let b = input[pos];
    if b == 0x2f {
        if pos + 1 >= input.len() {
            Scanned::Fail(LexFault::Eof, pos, pos + 1)
        } else if input[pos + 1] == 0x2f {
            Scanned::Skip(run_end(input, pos + 1, ByteClass::Comment))
        } else {
            Scanned::Fail(LexFault::UndefinedToken("/"@), pos, pos + 1)
        }
    } else if b == 0x7b {
        Scanned::Token(Lexeme::LCurlyBraces, pos, pos + 1, pos + 1)
    } else if b == 0x7d {
        Scanned::Token(Lexeme::RCurlyBraces, pos, pos + 1, pos + 1)
    } else if b == 0x3c {
        Scanned::Token(Lexeme::LBraces, pos, pos + 1, pos + 1)
    } else if b == 0x3e {
        Scanned::Token(Lexeme::RBraces, pos, pos + 1, pos + 1)
    } else if b == 0x3b {
        Scanned::Token(Lexeme::Semicolon, pos, pos + 1, pos + 1)
    } else if b == 0x22 {
        let end = literal_end(input, pos + 1);
        Scanned::Token(
            Lexeme::Str(decode_utf8(literal_bytes(input, pos + 1))),
            pos,
            end + 1,
            end + 1,
        )
    } else if b == 0x5f || 0x61 <= b <= 0x7a {
        let end = run_end(input, pos + 1, ByteClass::Word);
        Scanned::Token(word_lexeme(ascii_text(input.subrange(pos, end))), pos, end, end)
    } else if b == 0x3a {
        Scanned::Token(Lexeme::Colon, pos, pos + 1, pos + 1)
    } else if b == 0x2c {
        Scanned::Token(Lexeme::Comma, pos, pos + 1, pos + 1)
    } else if b == 0x3d {
        if pos + 1 < input.len() && input[pos + 1] == 0x3e {
            Scanned::Token(Lexeme::Arrow, pos, pos + 2, pos + 2)
        } else {
            Scanned::Token(Lexeme::Eq, pos, pos + 2, pos + 2)
        }
    } else if 0x41 <= b <= 0x5a {
        let end = run_end(input, pos + 1, ByteClass::Word);
        Scanned::Token(Lexeme::Constructor(ascii_text(input.subrange(pos, end))), pos, end, end)
    } else if is_space_byte(b) {
        Scanned::Skip(run_end(input, pos, ByteClass::Space))
    } else {
        Scanned::Fail(LexFault::InvalidChar(b as char), pos, pos + 1)
    }
}

/// A token as contracts see it: its kind and the two ends of its span.
pub type Lexed = (Lexeme, (int, int));

/// The tokens of the input from `pos` on and the position at which lexing
/// stops, or the first error.
pub open spec fn lexed(
    input: Seq<u8>,
    pos: int,
) -> Result<(Seq<Lexed>, int), (LexFault, (int, int))>
    decreases input.len() + 1 - pos,
{
    if pos < 0 || pos >= input.len() {
        Ok((Seq::empty(), pos))
    } else {
        proof {
            lemma_scan_advances(input, pos);
        }
        match scan(input, pos) {
            Scanned::Skip(next) => lexed(input, next),
            Scanned::Token(lexeme, lo, hi, next) => match lexed(input, next) {
                Ok((rest, end)) => Ok((seq![(lexeme, (lo, hi))] + rest, end)),
                Err(e) => Err(e),
            },
            Scanned::Fail(fault, lo, hi) => Err((fault, (lo, hi))),
        }
    }
}

/// Whether the text of every string literal that lexing from `pos` reads
/// is valid UTF-8.
pub open spec fn decodable(input: Seq<u8>, pos: int) -> bool
    decreases input.len() + 1 - pos,
{
    if pos < 0 || pos >= input.len() {
        true
    } else {
        proof {
            lemma_scan_advances(input, pos);
        }
        match scan(input, pos) {
            Scanned::Skip(next) => decodable(input, next),
            Scanned::Token(_, _, _, next) => {
                &&& input[pos] == 0x22 ==> valid_utf8(literal_bytes(input, pos + 1))
                &&& decodable(input, next)
            },
            Scanned::Fail(_, _, _) => true,
        }
    }
}

pub proof fn lemma_run_end(input: Seq<u8>, pos: int, class: ByteClass)
    requires
        0 <= pos <= input.len(),
    ensures
        pos <= run_end(input, pos, class) <= input.len(),
        forall|k: int| pos <= k < run_end(input, pos, class) ==> in_class(class, #[trigger] input[k]),
        run_end(input, pos, class) < input.len() ==> !in_class(
            class,
            input[run_end(input, pos, class)],
        ),
    decreases input.len() - pos,
{
    if pos < input.len() && in_class(class, input[pos]) {
        lemma_run_end(input, pos + 1, class);
    }
}

/// A run ends where the first byte outside the class stands.
pub proof fn lemma_run_end_is(input: Seq<u8>, pos: int, class: ByteClass, end: int)
    requires
        0 <= pos <= end <= input.len(),
        forall|k: int| pos <= k < end ==> in_class(class, #[trigger] input[k]),
        end < input.len() ==> !in_class(class, input[end]),
    ensures
        run_end(input, pos, class) == end,
    decreases end - pos,
{
    if pos < end {
        lemma_run_end_is(input, pos + 1, class, end);
    }
}

pub proof fn lemma_literal_end(input: Seq<u8>, pos: int)
    requires
        0 <= pos <= input.len(),
    ensures
        pos <= literal_end(input, pos) <= input.len(),
    decreases input.len() - pos,
{
    if pos < input.len() && input[pos] != 0x22 {
        if input[pos] == 0x5c && pos + 1 < input.len() && input[pos + 1] == 0x22 {
            lemma_literal_end(input, pos + 2);
        } else {
            lemma_literal_end(input, pos + 1);
        }
    }
}

/// Lexing goes on behind the position at which it found something.
pub proof fn lemma_scan_advances(input: Seq<u8>, pos: int)
    requires
        0 <= pos < input.len(),
    ensures
        match scan(input, pos) {
            Scanned::Skip(next) => pos < next <= input.len(),
            Scanned::Token(_, lo, hi, next) => lo == pos && pos < next <= input.len() + 1 && hi
                == next,
            Scanned::Fail(_, lo, hi) => lo == pos && hi == pos + 1,
        },
{
    lemma_run_end(input, pos + 1, ByteClass::Comment);
    lemma_run_end(input, pos + 1, ByteClass::Word);
    lemma_run_end(input, pos, ByteClass::Space);
    lemma_literal_end(input, pos + 1);
}

/// A token as contracts see it.
pub open spec fn token_of(t: Token) -> Lexed {
    (t.0@, (t.1.0 as int, t.1.1 as int))
}

pub open spec fn tokens_of(v: Seq<Token>) -> Seq<Lexed> {
    Seq::new(v.len(), |i: int| token_of(v[i]))
}

/// A lexical error as contracts see it.
pub open spec fn lex_error_of(e: LexError) -> (LexFault, (int, int)) {
    (e.0@, (e.1.0 as int, e.1.1 as int))
}

/// Tokens that were read, followed by what lexing the rest gives.
pub open spec fn glue(
    prefix: Seq<Lexed>,
    rest: Result<(Seq<Lexed>, int), (LexFault, (int, int))>,
) -> Result<(Seq<Lexed>, int), (LexFault, (int, int))> {
    match rest {
        Ok((more, end)) => Ok((prefix + more, end)),
        Err(e) => Err(e),
    }
}

pub fn error_invalid_char(c: char, r: Range) -> (e: LexError)
    ensures
        e.0@ == LexFault::InvalidChar(c),
        e.1 == r,
{
    (LexErrorKind::InvalidChar(c), r)
}

pub fn error_undefined_token(s: String, r: Range) -> (e: LexError)
    ensures
        e.0@ == LexFault::UndefinedToken(s@),
        e.1 == r,
{
    (LexErrorKind::UnDefinedToken(s), r)
}

pub fn error_eof(r: Range) -> (e: LexError)
    ensures
        e.0@ == LexFault::Eof,
        e.1 == r,
{
    (LexErrorKind::Eof, r)
}

/// Whether a byte is a blank, a tab or a line end.
pub fn is_space(b: u8) -> (r: bool)
    ensures
        r == is_space_byte(b),
{
    b == 0x20 || b == 0x0a || b == 0x09
}

/// Whether a byte is a letter, a digit or an underscore.
pub fn is_word(b: u8) -> (r: bool)
    ensures
        r == is_word_byte(b),
{
    (0x61 <= b && b <= 0x7a) || (0x41 <= b && b <= 0x5a) || (0x30 <= b && b <= 0x39) || b == 0x5f
}

/// The end of the run of bytes that `f` accepts and that starts at `pos`.
pub fn recognize_many(input: &[u8], pos: usize, f: impl Fn(u8) -> bool) -> (end: usize)
    requires
        forall|b: u8| call_requires(f, (b,)),
    ensures
        pos <= end,
        pos <= input@.len() ==> end <= input@.len(),
        pos > input@.len() ==> end == pos,
        forall|k: int| pos <= k < end ==> call_ensures(f, (#[trigger] input@[k],), true),
        end < input@.len() ==> call_ensures(f, (input@[end as int],), false),
{
    let mut at = pos;
    while at < input.len()
        invariant
            forall|b: u8| call_requires(f, (b,)),
            pos <= at,
            pos <= input@.len() ==> at <= input@.len(),
            pos > input@.len() ==> at == pos,
            forall|k: int| pos <= k < at ==> call_ensures(f, (#[trigger] input@[k],), true),
        decreases input@.len() - at,
    {
        if !f(input[at]) {
            return at;
        }
        at += 1;
    }
    at
}

/// Skips blanks, tabs and line ends. Behind the end of the input there is
/// nothing to skip.
pub fn skip_spaces(input: &[u8], pos: usize) -> (r: ((), usize))
    ensures
        r.1 == run_end(input@, pos as int, ByteClass::Space),
{
    let end = recognize_many(input, pos, is_space);
    proof {
        if pos <= input@.len() {
            lemma_run_end_is(input@, pos as int, ByteClass::Space, end as int);
        }
    }
    ((), end)
}

/// Skips to the end of the line. Behind the end of the input there is
/// nothing to skip.
pub fn lex_comment(input: &[u8], pos: usize) -> (r: ((), usize))
    ensures
        r.1 == run_end(input@, pos as int, ByteClass::Comment),
{
    let mut at = pos;
    while at < input.len() && input[at] != 0x0a
        invariant
            pos <= at,
            pos <= input@.len() ==> at <= input@.len(),
            pos > input@.len() ==> at == pos,
            forall|k: int| pos <= k < at ==> #[trigger] input@[k] != 0x0a,
        decreases input@.len() - at,
    {
        at += 1;
    }
    proof {
        if pos <= input@.len() {
            lemma_run_end_is(input@, pos as int, ByteClass::Comment, at as int);
        }
    }
    ((), at)
}

/// The text of the word that starts at `pos`, and the position behind it.
/// The byte at `pos` is taken as it is; letters, digits and underscores
/// that follow it belong to the word.
pub fn lex_word(input: &[u8], pos: usize) -> (r: (String, usize))
    requires
        pos < input@.len(),
        input@[pos as int] < 128,
    ensures
        r.1 == run_end(input@, pos + 1, ByteClass::Word),
        pos < r.1 <= input@.len(),
        r.0@ == ascii_text(input@.subrange(pos as int, r.1 as int)),
{
    let len = input.len();
    let end_pos = recognize_many(input, pos + 1, is_word);
    proof {
        lemma_run_end_is(input@, pos + 1, ByteClass::Word, end_pos as int);
    }
    let bytes = slice_to_vec(slice_subrange(input, pos, end_pos));
    proof {
        assert(is_ascii_bytes(bytes@)) by {
            assert forall|i: int| 0 <= i < bytes@.len() implies #[trigger] bytes@[i] < 128 by {
                if i > 0 {
                    assert(is_word_byte(input@[pos + i]));
                }
            }
        }
        lemma_ascii_text(bytes@);
    }
    match string_from_utf8(bytes) {
        Some(text) => {
            proof {
                encode_utf8_decode_utf8(text@);
            }
            (text, end_pos)
        },
        None => unreached(),
    }
}

/// Reads a word that starts with a small letter or an underscore: a keyword
/// or a variable.
pub fn lex_identifier(input: &[u8], pos: usize) -> (r: (Token, usize))
    requires
        pos < input@.len(),
        input@[pos as int] < 128,
    ensures
        r.1 == run_end(input@, pos + 1, ByteClass::Word),
        token_of(r.0) == (
            word_lexeme(ascii_text(input@.subrange(pos as int, r.1 as int))),
            (pos as int, r.1 as int),
        ),
{
    let start = pos;
    let (v_string, end_pos) = lex_word(input, pos);
    let range = Range::make_start_end(start, end_pos);
    if same_name(v_string.as_str(), "grammar") {
        ((TokenKind::GRAMMAR, range), end_pos)
    } else if same_name(v_string.as_str(), KEYWORD_EXTERN) {
        ((TokenKind::EXTERN, range), end_pos)
    } else if same_name(v_string.as_str(), "enum") {
        ((TokenKind::ENUM, range), end_pos)
    } else if same_name(v_string.as_str(), "pub") {
        ((TokenKind::PUB, range), end_pos)
    } else {
        ((TokenKind::VAR(v_string), range), end_pos)
    }
}

/// Reads a word that starts with a capital letter: a constructor.
pub fn lex_constructor(input: &[u8], pos: usize) -> (r: (Token, usize))
    requires
        pos < input@.len(),
        input@[pos as int] < 128,
    ensures
        r.1 == run_end(input@, pos + 1, ByteClass::Word),
        token_of(r.0) == (
            Lexeme::Constructor(ascii_text(input@.subrange(pos as int, r.1 as int))),
            (pos as int, r.1 as int),
        ),
{
    let start = pos;
    let (v_string, end_pos) = lex_word(input, pos);
    ((TokenKind::CONSTRUCTOR(v_string), Range::make_start_end(start, end_pos)), end_pos)
}

/// Reads the string literal whose opening quote stands at `pos`. The
/// literal ends at the next quote that no backslash stands before, or with
/// the input; a backslash and a quote stand for a quote.
pub fn lex_literal(input: &[u8], pos: usize) -> (r: Result<(Token, usize), LexError>)
    requires
        pos + 1 <= usize::MAX,
        literal_end(input@, pos + 1) + 1 <= usize::MAX,
        valid_utf8(literal_bytes(input@, pos + 1)),
    ensures
        r is Ok,
        r->Ok_0.1 == literal_end(input@, pos + 1) + 1,
        token_of(r->Ok_0.0) == (
            Lexeme::Str(decode_utf8(literal_bytes(input@, pos + 1))),
            (pos as int, literal_end(input@, pos + 1) + 1),
        ),
{
    let mut v: Vec<u8> = Vec::new();
    let start = pos + 1;
    let mut s_pos = start;
    proof {
        assert(v@ + literal_bytes(input@, start as int) =~= literal_bytes(input@, start as int));
    }
    while s_pos < input.len()
        invariant
            start <= s_pos,
            start <= input@.len() ==> s_pos <= input@.len(),
            v@ + literal_bytes(input@, s_pos as int) == literal_bytes(input@, start as int),
            literal_end(input@, s_pos as int) == literal_end(input@, start as int),
        ensures
            s_pos >= input@.len() || input@[s_pos as int] == 0x22,
        decreases input@.len() - s_pos,
    {
        let b = input[s_pos];
        let ghost before = v@;
        if b == 0x5c {
            if s_pos + 1 < input.len() && input[s_pos + 1] == 0x22 {
                v.push(0x22);
                proof {
                    assert(v@ + literal_bytes(input@, s_pos + 2) =~= before + (seq![0x22u8]
                        + literal_bytes(input@, s_pos + 2)));
                }
                s_pos += 2;
            } else {
                v.push(b);
                proof {
                    assert(v@ + literal_bytes(input@, s_pos + 1) =~= before + (seq![b]
                        + literal_bytes(input@, s_pos + 1)));
                }
                s_pos += 1;
            }
        } else if b == 0x22 {
            break ;
        } else {
            v.push(b);
            proof {
                assert(v@ + literal_bytes(input@, s_pos + 1) =~= before + (seq![b] + literal_bytes(
                    input@,
                    s_pos + 1,
                )));
            }
            s_pos += 1;
        }
    }
    let end = s_pos;
    proof {
        assert(literal_bytes(input@, s_pos as int) =~= Seq::<u8>::empty());
        assert(v@ =~= literal_bytes(input@, start as int));
        assert(literal_end(input@, start as int) == end);
    }
    match string_from_utf8(v) {
        Some(v_string) => {
            proof {
                encode_utf8_decode_utf8(v_string@);
            }
            Ok(((TokenKind::STR(v_string), Range::make_start_end(start - 1, end + 1)), end + 1))
        },
        None => unreached(),
    }
}

pub fn lex_eof(pos: usize) -> (r: (Token, usize))
    requires
        pos + 1 <= usize::MAX,
    ensures
        token_of(r.0) == (Lexeme::Eof, (pos as int, pos + 1)),
        r.1 == pos + 1,
{
    ((TokenKind::EOF, Range::make(pos, 1)), pos + 1)
}

pub fn lex_lcurlybraces(pos: usize) -> (r: (Token, usize))
    requires
        pos + 1 <= usize::MAX,
    ensures
        token_of(r.0) == (Lexeme::LCurlyBraces, (pos as int, pos + 1)),
        r.1 == pos + 1,
{
    ((TokenKind::LCURLYBRACES, Range::make(pos, 1)), pos + 1)
}

pub fn lex_rcurlybraces(pos: usize) -> (r: (Token, usize))
    requires
        pos + 1 <= usize::MAX,
    ensures
        token_of(r.0) == (Lexeme::RCurlyBraces, (pos as int, pos + 1)),
        r.1 == pos + 1,
{
    ((TokenKind::RCURLYBRACES, Range::make(pos, 1)), pos + 1)
}

/// An equals sign. The byte behind it is passed over with it.
pub fn lex_eq(pos: usize) -> (r: (Token, usize))
    requires
        pos + 2 <= usize::MAX,
    ensures
        token_of(r.0) == (Lexeme::Eq, (pos as int, pos + 2)),
        r.1 == pos + 2,
{
    ((TokenKind::EQ, Range::make(pos, 2)), pos + 2)
}

pub fn lex_comma(pos: usize) -> (r: (Token, usize))
    requires
        pos + 1 <= usize::MAX,
    ensures
        token_of(r.0) == (Lexeme::Comma, (pos as int, pos + 1)),
        r.1 == pos + 1,
{
    ((TokenKind::COMMA, Range::make(pos, 1)), pos + 1)
}

pub fn lex_semicolon(pos: usize) -> (r: (Token, usize))
    requires
        pos + 1 <= usize::MAX,
    ensures
        token_of(r.0) == (Lexeme::Semicolon, (pos as int, pos + 1)),
        r.1 == pos + 1,
{
    ((TokenKind::SEMICOLON, Range::make(pos, 1)), pos + 1)
}

pub fn lex_colon(pos: usize) -> (r: (Token, usize))
    requires
        pos + 1 <= usize::MAX,
    ensures
        token_of(r.0) == (Lexeme::Colon, (pos as int, pos + 1)),
        r.1 == pos + 1,
{
    ((TokenKind::COLON, Range::make(pos, 1)), pos + 1)
}

pub fn lex_lbraces(pos: usize) -> (r: (Token, usize))
    requires
        pos + 1 <= usize::MAX,
    ensures
        token_of(r.0) == (Lexeme::LBraces, (pos as int, pos + 1)),
        r.1 == pos + 1,
{
    ((TokenKind::LBRACES, Range::make(pos, 1)), pos + 1)
}

pub fn lex_rbraces(pos: usize) -> (r: (Token, usize))
    requires
        pos + 1 <= usize::MAX,
    ensures
        token_of(r.0) == (Lexeme::RBraces, (pos as int, pos + 1)),
        r.1 == pos + 1,
{
    ((TokenKind::RBRACES, Range::make(pos, 1)), pos + 1)
}

pub fn lex_arrow(pos: usize) -> (r: (Token, usize))
    requires
        pos + 2 <= usize::MAX,
    ensures
        token_of(r.0) == (Lexeme::Arrow, (pos as int, pos + 2)),
        r.1 == pos + 2,
{
    ((TokenKind::ARROW, Range::make(pos, 2)), pos + 2)
}

/// Appends a token to the tokens that were read.
pub fn push_token(tokens: &mut Vec<Token>, tok: Token)
    ensures
        tokens_of(final(tokens)@) == tokens_of(old(tokens)@).push(token_of(tok)),
{
    tokens.push(tok);
    proof {
        assert(tokens_of(tokens@) =~= tokens_of(old(tokens)@).push(token_of(tok)));
    }
}

/// After a token, lexing goes on behind it.
pub proof fn lemma_token_step(input: Seq<u8>, prefix: Seq<Lexed>, pos: int)
    requires
        0 <= pos < input.len(),
        scan(input, pos) is Token,
        decodable(input, pos),
    ensures
        glue(prefix, lexed(input, pos)) == glue(
            prefix.push((scan(input, pos)->Token_0, (scan(input, pos)->Token_1, scan(input, pos)->Token_2))),
            lexed(input, scan(input, pos)->Token_3),
        ),
        decodable(input, scan(input, pos)->Token_3),
{
    let rest = lexed(input, scan(input, pos)->Token_3);
    let tok = (scan(input, pos)->Token_0, (scan(input, pos)->Token_1, scan(input, pos)->Token_2));
    if rest is Ok {
        assert(prefix + (seq![tok] + rest->Ok_0.0) =~= prefix.push(tok) + rest->Ok_0.0);
    }
}

/// Splits the input from `pos` on into tokens. Blank space is passed over,
/// and so is a comment: two slashes and the rest of the line.
///
/// Fails at the first byte that starts no token.
pub fn lex_program(input: &[u8], pos: usize) -> (r: Result<(Vec<Token>, usize), LexError>)
    requires
        input@.len() + 1 <= usize::MAX,
        decodable(input@, pos as int),
    ensures
        match r {
            Ok((tokens, end)) => {
                &&& lexed(input@, pos as int) == Ok::<_, (LexFault, (int, int))>(
                    (tokens_of(tokens@), end as int),
                )
                &&& pos <= end
                &&& pos <= input@.len() ==> end <= input@.len() + 1
            },
            Err(e) => lexed(input@, pos as int) == Err::<(Seq<Lexed>, int), _>(lex_error_of(e)),
        },
{
    let mut tokens: Vec<Token> = Vec::new();
    let mut cur = pos;
    proof {
        let whole = lexed(input@, pos as int);
        if whole is Ok {
            assert(tokens_of(tokens@) + whole->Ok_0.0 =~= whole->Ok_0.0);
        }
    }
    while cur < input.len()
        invariant
            input@.len() + 1 <= usize::MAX,
            pos <= cur,
            pos <= input@.len() ==> cur <= input@.len() + 1,
            decodable(input@, cur as int),
            lexed(input@, pos as int) == glue(tokens_of(tokens@), lexed(input@, cur as int)),
        decreases input@.len() + 1 - cur,
    {
        let ghost prefix = tokens_of(tokens@);
        let ghost at = cur as int;
        proof {
            lemma_scan_advances(input@, at);
        }
        let b = input[cur];
        if b == 0x2f {
            if cur + 1 >= input.len() {
                return Err(error_eof(Range::make(cur, 1)));
            } else if input[cur + 1] == 0x2f {
                let (_, p) = lex_comment(input, cur + 1);
                cur = p;
            } else {
                return Err(error_undefined_token(String::from_str("/"), Range::make(cur, 1)));
            }
        } else if b == 0x7b {
            let (tok, p) = lex_lcurlybraces(cur);
            push_token(&mut tokens, tok);
            cur = p;
            proof {
                lemma_token_step(input@, prefix, at);
            }
        } else if b == 0x7d {
            let (tok, p) = lex_rcurlybraces(cur);
            push_token(&mut tokens, tok);
            cur = p;
            proof {
                lemma_token_step(input@, prefix, at);
            }
        } else if b == 0x3c {
            let (tok, p) = lex_lbraces(cur);
            push_token(&mut tokens, tok);
            cur = p;
            proof {
                lemma_token_step(input@, prefix, at);
            }
        } else if b == 0x3e {
            let (tok, p) = lex_rbraces(cur);
            push_token(&mut tokens, tok);
            cur = p;
            proof {
                lemma_token_step(input@, prefix, at);
            }
        } else if b == 0x3b {
            let (tok, p) = lex_semicolon(cur);
            push_token(&mut tokens, tok);
            cur = p;
            proof {
                lemma_token_step(input@, prefix, at);
            }
        } else if b == 0x22 {
            match lex_literal(input, cur) {
                Ok((tok, p)) => {
                    push_token(&mut tokens, tok);
                    cur = p;
                    proof {
                        lemma_token_step(input@, prefix, at);
                    }
                },
                Err(e) => {
                    return Err(e);
                },
            }
        } else if b == 0x5f || (0x61 <= b && b <= 0x7a) {
            let (tok, p) = lex_identifier(input, cur);
            push_token(&mut tokens, tok);
            cur = p;
            proof {
                lemma_token_step(input@, prefix, at);
            }
        } else if b == 0x3a {
            let (tok, p) = lex_colon(cur);
            push_token(&mut tokens, tok);
            cur = p;
            proof {
                lemma_token_step(input@, prefix, at);
            }
        } else if b == 0x2c {
            let (tok, p) = lex_comma(cur);
            push_token(&mut tokens, tok);
            cur = p;
            proof {
                lemma_token_step(input@, prefix, at);
            }
        } else if b == 0x3d {
            if cur + 1 < input.len() && input[cur + 1] == 0x3e {
                let (tok, p) = lex_arrow(cur);
                push_token(&mut tokens, tok);
                cur = p;
            } else {
                let (tok, p) = lex_eq(cur);
                push_token(&mut tokens, tok);
                cur = p;
            }
            proof {
                lemma_token_step(input@, prefix, at);
            }
        } else if 0x41 <= b && b <= 0x5a {
            let (tok, p) = lex_constructor(input, cur);
            push_token(&mut tokens, tok);
            cur = p;
            proof {
                lemma_token_step(input@, prefix, at);
            }
        } else if is_space(b) {
            let (_, p) = skip_spaces(input, cur);
            cur = p;
        } else {
            return Err(error_invalid_char(b as char, Range::make(cur, 1)));
        }
    }
    proof {
        assert(tokens_of(tokens@) + Seq::<Lexed>::empty() =~= tokens_of(tokens@));
    }
    Ok((tokens, cur))
}

/// The rest of the input from `pos` on.
pub open spec fn tail(input: Seq<u8>, pos: int) -> Seq<u8> {
    input.subrange(pos, input.len() as int)
}

/// Behind a byte below 128 at the start of valid UTF-8 the rest is valid.
pub proof fn lemma_tail_after_ascii(input: Seq<u8>, pos: int)
    requires
        0 <= pos < input.len(),
        valid_utf8(tail(input, pos)),
        input[pos] < 128,
    ensures
        valid_utf8(tail(input, pos + 1)),
{
    let s = tail(input, pos);
    assert(s[0] == input[pos]);
    assert(pop_first_scalar(s) =~= tail(input, pos + 1));
}

/// The text of a string literal in valid UTF-8 is valid UTF-8: the literal
/// ends at a quote, and what is taken from it is a backslash.
pub proof fn lemma_literal_is_valid(input: Seq<u8>, pos: int)
    requires
        0 <= pos <= input.len(),
        valid_utf8(tail(input, pos)),
    ensures
        valid_utf8(literal_bytes(input, pos)),
    decreases input.len() - pos,
{
    if pos < input.len() {
        let s = tail(input, pos);
        let b = input[pos];
        assert(s[0] == b);
        if b == 0x22 {
        } else if b < 128 {
            lemma_tail_after_ascii(input, pos);
            if b == 0x5c && pos + 1 < input.len() && input[pos + 1] == 0x22 {
                lemma_tail_after_ascii(input, pos + 1);
                lemma_literal_is_valid(input, pos + 2);
                assert(is_ascii_bytes(seq![0x22u8]));
                lemma_ascii_text(seq![0x22u8]);
                valid_utf8_concat(seq![0x22u8], literal_bytes(input, pos + 2));
            } else {
                lemma_literal_is_valid(input, pos + 1);
                assert(is_ascii_bytes(seq![b]));
                lemma_ascii_text(seq![b]);
                valid_utf8_concat(seq![b], literal_bytes(input, pos + 1));
            }
        } else {
            let w = length_of_first_scalar(s);
            assert(2 <= w <= 4 && w <= s.len());
            assert(is_char_boundary(s, w)) by {
                reveal_with_fuel(is_char_boundary, 2);
            }
            valid_utf8_split(s, w);
            assert(s.subrange(w, s.len() as int) =~= tail(input, pos + w));
            lemma_literal_is_valid(input, pos + w);
            assert forall|k: int| pos <= k < pos + w implies #[trigger] input[k] >= 128 by {
                assert(s[k - pos] == input[k]);
            }
            lemma_literal_copies(input, pos, w);
            assert(input.subrange(pos, pos + w) =~= s.subrange(0, w));
            valid_utf8_concat(s.subrange(0, w), literal_bytes(input, pos + w));
        }
    }
}

/// Bytes from 128 on are copied into the text of a string literal.
pub proof fn lemma_literal_copies(input: Seq<u8>, pos: int, n: int)
    requires
        0 <= pos,
        0 <= n,
        pos + n <= input.len(),
        forall|k: int| pos <= k < pos + n ==> #[trigger] input[k] >= 128,
    ensures
        literal_bytes(input, pos) == input.subrange(pos, pos + n) + literal_bytes(input, pos + n),
    decreases n,
{
    if n == 0 {
        assert(input.subrange(pos, pos) + literal_bytes(input, pos) =~= literal_bytes(input, pos));
    } else {
        assert(input[pos] >= 128);
        lemma_literal_copies(input, pos + 1, n - 1);
        assert(seq![input[pos]] + (input.subrange(pos + 1, pos + n) + literal_bytes(
            input,
            pos + n,
        )) =~= input.subrange(pos, pos + n) + literal_bytes(input, pos + n));
    }
}

/// In valid UTF-8 the text of every string literal can be decoded.
pub proof fn lemma_text_is_decodable(input: Seq<u8>, pos: int)
    requires
        valid_utf8(input),
        0 <= pos,
    ensures
        decodable(input, pos),
    decreases input.len() + 1 - pos,
{
    if pos < input.len() {
        lemma_scan_advances(input, pos);
        match scan(input, pos) {
            Scanned::Skip(next) => {
                lemma_text_is_decodable(input, next);
            },
            Scanned::Token(_, _, _, next) => {
                if input[pos] == 0x22 {
                    is_char_boundary_iff_not_is_continuation_byte(input, pos);
                    valid_utf8_split(input, pos);
                    lemma_tail_after_ascii(input, pos);
                    lemma_literal_is_valid(input, pos + 1);
                }
                lemma_text_is_decodable(input, next);
            },
            Scanned::Fail(_, _, _) => {},
        }
    }
}

/// The tokens of a whole input: its tokens, and one more that marks the
/// end of the input.
pub open spec fn lexed_whole(input: Seq<u8>) -> Result<Seq<Lexed>, (LexFault, (int, int))> {
    match lexed(input, 0) {
        Ok((body, end)) => Ok(body.push((Lexeme::Eof, (end, end + 1)))),
        Err(e) => Err(e),
    }
}

/// Splits a grammar description into tokens. The last token marks the end
/// of the input.
///
/// Fails at the first byte that starts no token.
pub fn lex(input: &str) -> (r: Result<Vec<Token>, LexError>)
    requires
        input.spec_bytes().len() + 2 <= usize::MAX,
    ensures
        match r {
            Ok(tokens) => lexed_whole(input.spec_bytes()) == Ok::<_, (LexFault, (int, int))>(
                tokens_of(tokens@),
            ),
            Err(e) => lexed_whole(input.spec_bytes()) == Err::<Seq<Lexed>, _>(lex_error_of(e)),
        },
{
    let bytes = input.as_bytes();
    proof {
        encode_utf8_valid_utf8(input@);
        lemma_text_is_decodable(bytes@, 0);
    }
    let (mut tokens, pos) = match lex_program(bytes, 0) {
        Ok(done) => done,
        Err(e) => {
            return Err(e);
        },
    };
    let (tok, _) = lex_eof(pos);
    push_token(&mut tokens, tok);
    Ok(tokens)
}

} // verus!
