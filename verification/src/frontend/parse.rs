//! The parser of grammar descriptions.
//!
//! A description is a sequence of tokens of this shape, where `"..."` stands
//! for a string literal, `Name` for a constructor and `name` for a variable:
//!
//! ```text
//! "..." "..."                      header: text for the top of the output
//! grammar;
//! extern {
//!   enum "..." {                   the main token type
//!     Name => "...",               a token and the pattern that matches it
//!   }
//! }
//! pub name: "..." = {              a production and the type of its values
//!   <x: Name> <y: name> => { "..." };
//!   => { "..." };                  the null alternative
//! };
//! ```
//!
//! A binding to a constructor refers to a token, a binding to a variable to
//! a nonterminal. One token of lookahead decides everywhere.

use crate::frontend::lexer::{Lexed, Lexeme, Token, TokenKind, token_of, tokens_of};
use crate::types::{
    Alternative, Bnf, Code, FnOrToken, Production, Range, Setting, Symbol, Term, TokenDecl, TypeStr,
    alternative_of, alternatives_of, bindings_of,
};
use vstd::prelude::*;

verus! {

/// The ways in which parsing a sequence of tokens fails.
#[derive(Debug)]
pub enum ParseError {
    /// A token that no alternative can start with, or that does not match.
    UnexpectedToken(Token),
    /// The first token that was left over after the entry symbol was parsed.
    RedundantExpression(Token),
    /// The input ended where a token was needed.
    Eof,
}

impl Clone for ParseError {
    fn clone(&self) -> (r: Self)
        ensures
            r == *self,
    {
        match self {
            ParseError::UnexpectedToken(tok) => ParseError::UnexpectedToken(
                (tok.0.duplicate(), tok.1),
            ),
            ParseError::RedundantExpression(tok) => ParseError::RedundantExpression(
                (tok.0.duplicate(), tok.1),
            ),
            ParseError::Eof => ParseError::Eof,
        }
    }
}

/// A failure of parsing as contracts see it.
pub enum ParseFault {
    UnexpectedToken(Lexed),
    RedundantExpression(Lexed),
    Eof,
}

impl View for ParseError {
    type V = ParseFault;

    open spec fn view(&self) -> ParseFault {
        match *self {
            ParseError::UnexpectedToken(tok) => ParseFault::UnexpectedToken(token_of(tok)),
            ParseError::RedundantExpression(tok) => ParseFault::RedundantExpression(token_of(tok)),
            ParseError::Eof => ParseFault::Eof,
        }
    }
}

/// The kinds of token, without the text that some of them carry.
#[derive(Debug, Clone, Copy, PartialEq, Eq, Structural)]
pub enum Kind {
    Eof,
    Grammar,
    Extern,
    Enum,
    Pub,
    Var,
    Constructor,
    LCurlyBraces,
    RCurlyBraces,
    Eq,
    Comma,
    Semicolon,
    Colon,
    LBraces,
    RBraces,
    Arrow,
    Str,
}

pub open spec fn lexeme_kind(lexeme: Lexeme) -> Kind {
    match lexeme {
        Lexeme::Eof => Kind::Eof,
        Lexeme::Grammar => Kind::Grammar,
        Lexeme::Extern => Kind::Extern,
        Lexeme::Enum => Kind::Enum,
        Lexeme::Pub => Kind::Pub,
        Lexeme::Var(_) => Kind::Var,
        Lexeme::Constructor(_) => Kind::Constructor,
        Lexeme::LCurlyBraces => Kind::LCurlyBraces,
        Lexeme::RCurlyBraces => Kind::RCurlyBraces,
        Lexeme::Eq => Kind::Eq,
        Lexeme::Comma => Kind::Comma,
        Lexeme::Semicolon => Kind::Semicolon,
        Lexeme::Colon => Kind::Colon,
        Lexeme::LBraces => Kind::LBraces,
        Lexeme::RBraces => Kind::RBraces,
        Lexeme::Arrow => Kind::Arrow,
        Lexeme::Str(_) => Kind::Str,
    }
}

/// The text of a token; empty for a token that carries none.
pub open spec fn lexeme_string(lexeme: Lexeme) -> Seq<char> {
    match lexeme {
        Lexeme::Var(s) => s,
        Lexeme::Constructor(s) => s,
        Lexeme::Str(s) => s,
        _ => Seq::empty(),
    }
}

/// The two ends of a span of source text.
pub type Span = (int, int);

/// The smallest span that covers two spans.
pub open spec fn join(a: Span, b: Span) -> Span {
    (if a.0 <= b.0 { a.0 } else { b.0 }, if a.1 >= b.1 { a.1 } else { b.1 })
}

pub open spec fn span_of(range: Range) -> Span {
    (range.0 as int, range.1 as int)
}

/// A grammar description as the parser reads it: the grammar with the span
/// of each header line, of each token declaration and of each production.
pub struct Description {
    pub header: Seq<(Span, Seq<char>)>,
    pub token_type: Seq<char>,
    pub tokens: Seq<(Span, TokenDecl)>,
    pub productions: Seq<(Span, Production)>,
}

pub open spec fn header_lines_of(head: Seq<(Range, String)>) -> Seq<(Span, Seq<char>)> {
    Seq::new(head.len(), |i: int| (span_of(head[i].0), head[i].1@))
}

pub open spec fn declared_tokens_of(
    decls: Seq<(Range, String, TypeStr)>,
) -> Seq<(Span, TokenDecl)> {
    Seq::new(
        decls.len(),
        |i: int| (span_of(decls[i].0), TokenDecl { name: decls[i].1@, pattern: decls[i].2@ }),
    )
}

pub open spec fn bnf_span(bnf: Bnf) -> Span {
    match bnf {
        Bnf::Pub(range, _, _, _) => span_of(range),
        Bnf::NonPub(range, _, _, _) => span_of(range),
    }
}

pub open spec fn described_productions_of(bnfs: Seq<Bnf>) -> Seq<(Span, Production)> {
    Seq::new(bnfs.len(), |i: int| (bnf_span(bnfs[i]), bnfs[i]@))
}

/// A grammar description with its spans, as contracts see it.
pub open spec fn description_of(term: Term) -> Description {
    Description {
        header: header_lines_of(term.0@),
        token_type: term.1.0@,
        tokens: declared_tokens_of(term.1.1@),
        productions: described_productions_of(term.2@),
    }
}

/// Whether a token of the kind `kind` stands at the position `pos`.
pub open spec fn has_kind(tokens: Seq<Lexed>, pos: int, kind: Kind) -> bool {
    0 <= pos < tokens.len() && lexeme_kind(tokens[pos].0) == kind
}

/// What is wrong at a position where the token that was needed does not
/// stand: the token that stands there, or the end of the tokens.
pub open spec fn miss(tokens: Seq<Lexed>, pos: int) -> ParseFault {
    if 0 <= pos < tokens.len() {
        ParseFault::UnexpectedToken(tokens[pos])
    } else {
        ParseFault::Eof
    }
}

/// The first of the two positions from `pos` on at which the token of the
/// kind that is needed there does not stand.
pub open spec fn miss2(tokens: Seq<Lexed>, pos: int, a: Kind, b: Kind) -> Option<int> {
    if !has_kind(tokens, pos, a) {
        Some(pos)
    } else if !has_kind(tokens, pos + 1, b) {
        Some(pos + 1)
    } else {
        None
    }
}

/// The first of the three positions from `pos` on at which the token of the
/// kind that is needed there does not stand.
pub open spec fn miss3(tokens: Seq<Lexed>, pos: int, a: Kind, b: Kind, c: Kind) -> Option<int> {
    if !has_kind(tokens, pos, a) {
        Some(pos)
    } else {
        miss2(tokens, pos + 1, b, c)
    }
}

/// The first of the five positions from `pos` on at which the token of the
/// kind that is needed there does not stand.
pub open spec fn miss5(
    tokens: Seq<Lexed>,
    pos: int,
    a: Kind,
    b: Kind,
    c: Kind,
    d: Kind,
    e: Kind,
) -> Option<int> {
    match miss2(tokens, pos, a, b) {
        Some(bad) => Some(bad),
        None => miss3(tokens, pos + 2, c, d, e),
    }
}

/// The symbol that a binding refers to: a variable names a nonterminal, a
/// constructor a token.
pub open spec fn symbol_at(tokens: Seq<Lexed>, pos: int) -> Symbol {
    match tokens[pos].0 {
        Lexeme::Var(name) => Symbol::Nonterminal(name),
        other => Symbol::Token(lexeme_string(other)),
    }
}

pub open spec fn text_at(tokens: Seq<Lexed>, pos: int) -> Seq<char> {
    lexeme_string(tokens[pos].0)
}

/// The bindings that start at `pos`, each of the shape `<name: symbol>`,
/// and the position behind them.
pub open spec fn bindings_from(tokens: Seq<Lexed>, pos: int) -> Result<
    (Seq<(Seq<char>, Symbol)>, int),
    ParseFault,
>
    decreases tokens.len() - pos,
{
    if !has_kind(tokens, pos, Kind::LBraces) {
        Ok((Seq::empty(), pos))
    } else if !has_kind(tokens, pos + 1, Kind::Var) {
        Err(miss(tokens, pos + 1))
    } else if !has_kind(tokens, pos + 2, Kind::Colon) {
        Err(miss(tokens, pos + 2))
    } else if !has_kind(tokens, pos + 3, Kind::Var) && !has_kind(tokens, pos + 3, Kind::Constructor) {
        Err(miss(tokens, pos + 3))
    } else if !has_kind(tokens, pos + 4, Kind::RBraces) {
        Err(miss(tokens, pos + 4))
    } else {
        match bindings_from(tokens, pos + 5) {
            Ok((rest, end)) => Ok(
                (seq![(text_at(tokens, pos + 1), symbol_at(tokens, pos + 3))] + rest, end),
            ),
            Err(f) => Err(f),
        }
    }
}

/// The first token that is not as the end of an alternative is:
/// `=> { "..." };`.
pub open spec fn action_miss(tokens: Seq<Lexed>, pos: int) -> Option<int> {
    miss5(
        tokens,
        pos,
        Kind::Arrow,
        Kind::LCurlyBraces,
        Kind::Str,
        Kind::RCurlyBraces,
        Kind::Semicolon,
    )
}

/// The alternative that starts at `pos`, and the position behind it.
pub open spec fn alternative_at(
    tokens: Seq<Lexed>,
    pos: int,
) -> Result<(Alternative, int), ParseFault> {
    match bindings_from(tokens, pos) {
        Err(f) => Err(f),
        Ok((bindings, at)) => match action_miss(tokens, at) {
            Some(bad) => Err(miss(tokens, bad)),
            None => Ok((Alternative { bindings, action: text_at(tokens, at + 2) }, at + 5)),
        },
    }
}

/// The alternatives that start at `pos`, and the position behind them. An
/// alternative starts with a binding or with the arrow before its action.
pub open spec fn alternatives_from(tokens: Seq<Lexed>, pos: int) -> Result<
    (Seq<Alternative>, int),
    ParseFault,
>
    decreases tokens.len() - pos,
{
    if !has_kind(tokens, pos, Kind::LBraces) && !has_kind(tokens, pos, Kind::Arrow) {
        Ok((Seq::empty(), pos))
    } else {
        match alternative_at(tokens, pos) {
            Err(f) => Err(f),
            Ok((alt, next)) => {
                proof {
                    lemma_alternative_advances(tokens, pos);
                }
                match alternatives_from(tokens, next) {
                    Ok((rest, end)) => Ok((seq![alt] + rest, end)),
                    Err(f) => Err(f),
                }
            },
        }
    }
}

/// The first token that is not as the start of a production is:
/// `name: "..." = {`.
pub open spec fn production_miss(tokens: Seq<Lexed>, pos: int) -> Option<int> {
    miss5(tokens, pos, Kind::Var, Kind::Colon, Kind::Str, Kind::Eq, Kind::LCurlyBraces)
}

/// The production that starts at `pos`, with its span, and the position
/// behind it.
pub open spec fn production_at(tokens: Seq<Lexed>, pos: int) -> Result<
    ((Span, Production), int),
    ParseFault,
> {
    let public = has_kind(tokens, pos, Kind::Pub);
    let at = if public {
        pos + 1
    } else {
        pos
    };
    match production_miss(tokens, at) {
        Some(bad) => Err(miss(tokens, bad)),
        None => match alternatives_from(tokens, at + 5) {
            Err(f) => Err(f),
            Ok((alternatives, end)) => match miss2(
                tokens,
                end,
                Kind::RCurlyBraces,
                Kind::Semicolon,
            ) {
                Some(bad) => Err(miss(tokens, bad)),
                None => Ok(
                    (
                        (
                            join(tokens[pos].1, tokens[end + 1].1),
                            Production {
                                public,
                                name: text_at(tokens, at),
                                result_type: text_at(tokens, at + 2),
                                alternatives,
                            },
                        ),
                        end + 2,
                    ),
                ),
            },
        },
    }
}

/// The productions that start at `pos`, and the position behind them. A
/// production starts with `pub` or with its name.
pub open spec fn productions_from(tokens: Seq<Lexed>, pos: int) -> Result<
    (Seq<(Span, Production)>, int),
    ParseFault,
>
    decreases tokens.len() - pos,
{
    if !has_kind(tokens, pos, Kind::Pub) && !has_kind(tokens, pos, Kind::Var) {
        Ok((Seq::empty(), pos))
    } else {
        match production_at(tokens, pos) {
            Err(f) => Err(f),
            Ok((production, next)) => {
                proof {
                    lemma_production_advances(tokens, pos);
                }
                match productions_from(tokens, next) {
                    Ok((rest, end)) => Ok((seq![production] + rest, end)),
                    Err(f) => Err(f),
                }
            },
        }
    }
}

/// The token declarations that start at `pos`, each of the shape
/// `Name => "...",`, and the position behind them.
pub open spec fn declarations_from(tokens: Seq<Lexed>, pos: int) -> Result<
    (Seq<(Span, TokenDecl)>, int),
    ParseFault,
>
    decreases tokens.len() - pos,
{
    if !has_kind(tokens, pos, Kind::Constructor) {
        Ok((Seq::empty(), pos))
    } else {
        match miss3(tokens, pos + 1, Kind::Arrow, Kind::Str, Kind::Comma) {
            Some(bad) => Err(miss(tokens, bad)),
            None => match declarations_from(tokens, pos + 4) {
                Ok((rest, end)) => Ok(
                    (
                        seq![
                            (
                                join(tokens[pos].1, tokens[pos + 2].1),
                                TokenDecl {
                                    name: text_at(tokens, pos),
                                    pattern: text_at(tokens, pos + 2),
                                },
                            ),
                        ] + rest,
                        end,
                    ),
                ),
                Err(f) => Err(f),
            },
        }
    }
}

/// The first token that is not as the start of the setting is:
/// `extern { enum "..." {`.
pub open spec fn setting_miss(tokens: Seq<Lexed>, pos: int) -> Option<int> {
    miss5(
        tokens,
        pos,
        Kind::Extern,
        Kind::LCurlyBraces,
        Kind::Enum,
        Kind::Str,
        Kind::LCurlyBraces,
    )
}

/// The setting that starts at `pos`: the main token type and the token
/// declarations, and the position behind it.
pub open spec fn setting_at(tokens: Seq<Lexed>, pos: int) -> Result<
    ((Seq<char>, Seq<(Span, TokenDecl)>), int),
    ParseFault,
> {
    match setting_miss(tokens, pos) {
        Some(bad) => Err(miss(tokens, bad)),
        None => match declarations_from(tokens, pos + 5) {
            Err(f) => Err(f),
            Ok((decls, end)) => match miss2(
                tokens,
                end,
                Kind::RCurlyBraces,
                Kind::RCurlyBraces,
            ) {
                Some(bad) => Err(miss(tokens, bad)),
                None => Ok(((text_at(tokens, pos + 3), decls), end + 2)),
            },
        },
    }
}

/// The header lines that start at `pos`, and the position behind them.
pub open spec fn header_from(tokens: Seq<Lexed>, pos: int) -> (Seq<(Span, Seq<char>)>, int)
    decreases tokens.len() - pos,
{
    if !has_kind(tokens, pos, Kind::Str) {
        (Seq::empty(), pos)
    } else {
        let (rest, end) = header_from(tokens, pos + 1);
        (seq![(tokens[pos].1, text_at(tokens, pos))] + rest, end)
    }
}

/// The grammar description that a sequence of tokens spells: the header,
/// `grammar;`, the setting, the productions and the end of the input.
pub open spec fn described(tokens: Seq<Lexed>) -> Result<Description, ParseFault> {
    let (header, at) = header_from(tokens, 0);
    match miss2(tokens, at, Kind::Grammar, Kind::Semicolon) {
        Some(bad) => Err(miss(tokens, bad)),
        None => match setting_at(tokens, at + 2) {
            Err(f) => Err(f),
            Ok(((token_type, decls), next)) => match productions_from(tokens, next) {
                Err(f) => Err(f),
                Ok((productions, end)) => if !has_kind(tokens, end, Kind::Eof) {
                    Err(miss(tokens, end))
                } else if end + 1 < tokens.len() {
                    Err(ParseFault::RedundantExpression(tokens[end + 1]))
                } else {
                    Ok(Description { header, token_type, tokens: decls, productions })
                },
            },
        },
    }
}

pub proof fn lemma_bindings_advance(tokens: Seq<Lexed>, pos: int)
    requires
        0 <= pos,
    ensures
        bindings_from(tokens, pos) is Ok ==> pos <= bindings_from(tokens, pos)->Ok_0.1,
    decreases tokens.len() - pos,
{
    if has_kind(tokens, pos, Kind::LBraces) && has_kind(tokens, pos + 4, Kind::RBraces) {
        lemma_bindings_advance(tokens, pos + 5);
    }
}

/// An alternative holds at least the five tokens around its action.
pub proof fn lemma_alternative_advances(tokens: Seq<Lexed>, pos: int)
    requires
        0 <= pos,
    ensures
        alternative_at(tokens, pos) is Ok ==> pos + 5 <= alternative_at(tokens, pos)->Ok_0.1
            <= tokens.len(),
{
    lemma_bindings_advance(tokens, pos);

}

pub proof fn lemma_alternatives_advance(tokens: Seq<Lexed>, pos: int)
    requires
        0 <= pos,
    ensures
        alternatives_from(tokens, pos) is Ok ==> pos <= alternatives_from(tokens, pos)->Ok_0.1,
    decreases tokens.len() - pos,
{
    if has_kind(tokens, pos, Kind::LBraces) || has_kind(tokens, pos, Kind::Arrow) {
        lemma_alternative_advances(tokens, pos);
        if alternative_at(tokens, pos) is Ok {
            lemma_alternatives_advance(tokens, alternative_at(tokens, pos)->Ok_0.1);
        }
    }
}

/// A production holds at least seven tokens.
pub proof fn lemma_production_advances(tokens: Seq<Lexed>, pos: int)
    requires
        0 <= pos,
    ensures
        production_at(tokens, pos) is Ok ==> pos + 7 <= production_at(tokens, pos)->Ok_0.1
            <= tokens.len(),
{
    let at = if has_kind(tokens, pos, Kind::Pub) {
        pos + 1
    } else {
        pos
    };
    lemma_alternatives_advance(tokens, at + 5);

}

/// Items that were read, followed by what reading on gives.
pub open spec fn glued<T>(prefix: Seq<T>, rest: Result<(Seq<T>, int), ParseFault>) -> Result<
    (Seq<T>, int),
    ParseFault,
> {
    match rest {
        Ok((more, end)) => Ok((prefix + more, end)),
        Err(f) => Err(f),
    }
}

/// The kind of a token.
pub fn kind_of(tok: &TokenKind) -> (k: Kind)
    ensures
        k == lexeme_kind(tok@),
{
    match tok {
        TokenKind::EOF => Kind::Eof,
        TokenKind::GRAMMAR => Kind::Grammar,
        TokenKind::EXTERN => Kind::Extern,
        TokenKind::ENUM => Kind::Enum,
        TokenKind::PUB => Kind::Pub,
        TokenKind::VAR(_) => Kind::Var,
        TokenKind::CONSTRUCTOR(_) => Kind::Constructor,
        TokenKind::LCURLYBRACES => Kind::LCurlyBraces,
        TokenKind::RCURLYBRACES => Kind::RCurlyBraces,
        TokenKind::EQ => Kind::Eq,
        TokenKind::COMMA => Kind::Comma,
        TokenKind::SEMICOLON => Kind::Semicolon,
        TokenKind::COLON => Kind::Colon,
        TokenKind::LBRACES => Kind::LBraces,
        TokenKind::RBRACES => Kind::RBraces,
        TokenKind::ARROW => Kind::Arrow,
        TokenKind::STR(_) => Kind::Str,
    }
}

/// The text of a token; empty for a token that carries none.
pub fn text_of(tok: &TokenKind) -> (r: String)
    ensures
        r@ == lexeme_string(tok@),
{
    match tok {
        TokenKind::VAR(s) => s.clone(),
        TokenKind::CONSTRUCTOR(s) => s.clone(),
        TokenKind::STR(s) => s.clone(),
        _ => String::new(),
    }
}

/// Whether a token of the kind `kind` stands at the position `pos`.
pub fn at_kind(tokens: &Vec<Token>, pos: usize, kind: Kind) -> (r: bool)
    ensures
        r == has_kind(tokens_of(tokens@), pos as int, kind),
        r ==> pos < tokens@.len() <= usize::MAX,
{
    if pos < tokens.len() {
        proof {
            assert(tokens_of(tokens@)[pos as int] == token_of(tokens@[pos as int]));
        }
        kind_of(&tokens[pos].0) == kind
    } else {
        false
    }
}

/// What is wrong at a position where the token that was needed does not
/// stand.
pub fn error_at(tokens: &Vec<Token>, pos: usize) -> (e: ParseError)
    ensures
        e@ == miss(tokens_of(tokens@), pos as int),
{
    if pos < tokens.len() {
        proof {
            assert(tokens_of(tokens@)[pos as int] == token_of(tokens@[pos as int]));
        }
        ParseError::UnexpectedToken((tokens[pos].0.duplicate(), tokens[pos].1))
    } else {
        ParseError::Eof
    }
}

/// Checks that two tokens of the kinds `a` and `b` stand from `pos` on.
pub fn expect2(tokens: &Vec<Token>, pos: usize, a: Kind, b: Kind) -> (r: Result<(), ParseError>)
    ensures
        match r {
            Ok(_) => miss2(tokens_of(tokens@), pos as int, a, b) is None && pos + 2
                <= tokens@.len(),
            Err(e) => match miss2(tokens_of(tokens@), pos as int, a, b) {
                Some(bad) => e@ == miss(tokens_of(tokens@), bad),
                None => false,
            },
        },
{
    if !at_kind(tokens, pos, a) {
        Err(error_at(tokens, pos))
    } else if !at_kind(tokens, pos + 1, b) {
        Err(error_at(tokens, pos + 1))
    } else {
        Ok(())
    }
}

/// Checks that three tokens of the kinds `a`, `b` and `c` stand from `pos`
/// on.
pub fn expect3(tokens: &Vec<Token>, pos: usize, a: Kind, b: Kind, c: Kind) -> (r: Result<
    (),
    ParseError,
>)
    ensures
        match r {
            Ok(_) => miss3(tokens_of(tokens@), pos as int, a, b, c) is None && pos + 3
                <= tokens@.len(),
            Err(e) => match miss3(tokens_of(tokens@), pos as int, a, b, c) {
                Some(bad) => e@ == miss(tokens_of(tokens@), bad),
                None => false,
            },
        },
{
    if !at_kind(tokens, pos, a) {
        Err(error_at(tokens, pos))
    } else {
        expect2(tokens, pos + 1, b, c)
    }
}

/// Checks that five tokens of the given kinds stand from `pos` on.
pub fn expect5(tokens: &Vec<Token>, pos: usize, a: Kind, b: Kind, c: Kind, d: Kind, e: Kind) -> (r:
    Result<(), ParseError>)
    ensures
        match r {
            Ok(_) => miss5(tokens_of(tokens@), pos as int, a, b, c, d, e) is None && pos + 5
                <= tokens@.len(),
            Err(err) => match miss5(tokens_of(tokens@), pos as int, a, b, c, d, e) {
                Some(bad) => err@ == miss(tokens_of(tokens@), bad),
                None => false,
            },
        },
{
    let len = tokens.len();
    match expect2(tokens, pos, a, b) {
        Err(err) => Err(err),
        Ok(_) => expect3(tokens, pos + 2, c, d, e),
    }
}

/// Reads the bindings that start at `pos`.
pub fn parse_bindings(tokens: &Vec<Token>, pos: usize) -> (r: Result<
    (Vec<(String, FnOrToken)>, usize),
    ParseError,
>)
    ensures
        match r {
            Ok((bindings, end)) => bindings_from(tokens_of(tokens@), pos as int) == Ok::<
                _,
                ParseFault,
            >((bindings_of(bindings@), end as int)),
            Err(e) => bindings_from(tokens_of(tokens@), pos as int) == Err::<
                (Seq<(Seq<char>, Symbol)>, int),
                _,
            >(e@),
        },
{
    let ghost view = tokens_of(tokens@);
    let mut out: Vec<(String, FnOrToken)> = Vec::new();
    let mut at = pos;
    proof {
        let whole = bindings_from(view, pos as int);
        if whole is Ok {
            assert(bindings_of(out@) + whole->Ok_0.0 =~= whole->Ok_0.0);
        }
    }
    while at_kind(tokens, at, Kind::LBraces)
        invariant
            view == tokens_of(tokens@),
            bindings_from(view, pos as int) == glued(
                bindings_of(out@),
                bindings_from(view, at as int),
            ),
        decreases tokens@.len() - at,
    {
        let ghost before = bindings_of(out@);
        if !at_kind(tokens, at + 1, Kind::Var) {
            return Err(error_at(tokens, at + 1));
        }
        if !at_kind(tokens, at + 2, Kind::Colon) {
            return Err(error_at(tokens, at + 2));
        }
        if !at_kind(tokens, at + 3, Kind::Var) && !at_kind(tokens, at + 3, Kind::Constructor) {
            return Err(error_at(tokens, at + 3));
        }
        if !at_kind(tokens, at + 4, Kind::RBraces) {
            return Err(error_at(tokens, at + 4));
        }
        proof {
            assert(view[at + 1] == token_of(tokens@[at + 1]));
            assert(view[at + 3] == token_of(tokens@[at + 3]));
        }
        let name = text_of(&tokens[at + 1].0);
        let symbol = match &tokens[at + 3].0 {
            TokenKind::VAR(s) => FnOrToken::Function(s.clone()),
            other => FnOrToken::Token(text_of(other)),
        };
        out.push((name, symbol));
        proof {
            let item = (text_at(view, at + 1), symbol_at(view, at + 3));
            assert(bindings_of(out@) =~= before.push(item));
            let rest = bindings_from(view, at + 5);
            if rest is Ok {
                assert(before + (seq![item] + rest->Ok_0.0) =~= before.push(item) + rest->Ok_0.0);
            }
        }
        at = at + 5;
    }
    proof {
        assert(bindings_of(out@) + Seq::<(Seq<char>, Symbol)>::empty() =~= bindings_of(out@));
    }
    Ok((out, at))
}

/// Reads the alternative that starts at `pos`: its bindings, and its action
/// between braces behind an arrow.
pub fn parse_alternative(tokens: &Vec<Token>, pos: usize) -> (r: Result<(Code, usize), ParseError>)
    ensures
        match r {
            Ok((code, end)) => alternative_at(tokens_of(tokens@), pos as int) == Ok::<
                _,
                ParseFault,
            >((alternative_of(code), end as int)),
            Err(e) => alternative_at(tokens_of(tokens@), pos as int) == Err::<
                (Alternative, int),
                _,
            >(e@),
        },
{
    let len = tokens.len();
    let (bindings, at) = match parse_bindings(tokens, pos) {
        Ok(done) => done,
        Err(e) => {
            return Err(e);
        },
    };
    match expect5(
        tokens,
        at,
        Kind::Arrow,
        Kind::LCurlyBraces,
        Kind::Str,
        Kind::RCurlyBraces,
        Kind::Semicolon,
    ) {
        Ok(_) => {},
        Err(e) => {
            return Err(e);
        },
    }
    proof {
        assert(tokens_of(tokens@)[at + 2] == token_of(tokens@[at + 2]));
    }
    let action = text_of(&tokens[at + 2].0);
    Ok(((bindings, action), at + 5))
}

/// Reads the alternatives that start at `pos`.
pub fn parse_alternatives(tokens: &Vec<Token>, pos: usize) -> (r: Result<
    (Vec<Code>, usize),
    ParseError,
>)
    ensures
        match r {
            Ok((codes, end)) => alternatives_from(tokens_of(tokens@), pos as int) == Ok::<
                _,
                ParseFault,
            >((alternatives_of(codes@), end as int)),
            Err(e) => alternatives_from(tokens_of(tokens@), pos as int) == Err::<
                (Seq<Alternative>, int),
                _,
            >(e@),
        },
{
    let ghost view = tokens_of(tokens@);
    let mut out: Vec<Code> = Vec::new();
    let mut at = pos;
    proof {
        let whole = alternatives_from(view, pos as int);
        if whole is Ok {
            assert(alternatives_of(out@) + whole->Ok_0.0 =~= whole->Ok_0.0);
        }
    }
    while at_kind(tokens, at, Kind::LBraces) || at_kind(tokens, at, Kind::Arrow)
        invariant
            view == tokens_of(tokens@),
            alternatives_from(view, pos as int) == glued(
                alternatives_of(out@),
                alternatives_from(view, at as int),
            ),
        decreases tokens@.len() - at,
    {
        let ghost before = alternatives_of(out@);
        proof {
            lemma_alternative_advances(view, at as int);
        }
        match parse_alternative(tokens, at) {
            Err(e) => {
                return Err(e);
            },
            Ok((code, next)) => {
                proof {
                    let item = alternative_of(code);
                    let rest = alternatives_from(view, next as int);
                    if rest is Ok {
                        assert(before + (seq![item] + rest->Ok_0.0) =~= before.push(item)
                            + rest->Ok_0.0);
                    }
                }
                out.push(code);
                proof {
                    assert(alternatives_of(out@) =~= before.push(alternative_of(code)));
                }
                at = next;
            },
        }
    }
    proof {
        assert(alternatives_of(out@) + Seq::<Alternative>::empty() =~= alternatives_of(out@));
    }
    Ok((out, at))
}

/// Reads the production that starts at `pos`: `pub` if it is the entry
/// symbol, its name, the type of its values and its alternatives between
/// braces. Its span reaches from its first token to its last.
pub fn parse_production(tokens: &Vec<Token>, pos: usize) -> (r: Result<(Bnf, usize), ParseError>)
    ensures
        match r {
            Ok((bnf, end)) => production_at(tokens_of(tokens@), pos as int) == Ok::<
                _,
                ParseFault,
            >(((bnf_span(bnf), bnf@), end as int)),
            Err(e) => production_at(tokens_of(tokens@), pos as int) == Err::<
                ((Span, Production), int),
                _,
            >(e@),
        },
{
    let ghost view = tokens_of(tokens@);
    let len = tokens.len();
    let public = at_kind(tokens, pos, Kind::Pub);
    let at = if public {
        pos + 1
    } else {
        pos
    };
    match expect5(tokens, at, Kind::Var, Kind::Colon, Kind::Str, Kind::Eq, Kind::LCurlyBraces) {
        Ok(_) => {},
        Err(e) => {
            return Err(e);
        },
    }
    let (codes, end) = match parse_alternatives(tokens, at + 5) {
        Ok(done) => done,
        Err(e) => {
            return Err(e);
        },
    };
    match expect2(tokens, end, Kind::RCurlyBraces, Kind::Semicolon) {
        Ok(_) => {},
        Err(e) => {
            return Err(e);
        },
    }
    proof {
        assert(view[pos as int] == token_of(tokens@[pos as int]));
        assert(view[at as int] == token_of(tokens@[at as int]));
        assert(view[at + 2] == token_of(tokens@[at + 2]));
        assert(view[end + 1] == token_of(tokens@[end + 1]));
    }
    let range = Range::unite(tokens[pos].1, tokens[end + 1].1);
    let name = text_of(&tokens[at].0);
    let result_type = text_of(&tokens[at + 2].0);
    if public {
        Ok((Bnf::Pub(range, name, result_type, codes), end + 2))
    } else {
        Ok((Bnf::NonPub(range, name, result_type, codes), end + 2))
    }
}

/// Reads the productions that start at `pos`.
pub fn parse_productions(tokens: &Vec<Token>, pos: usize) -> (r: Result<
    (Vec<Bnf>, usize),
    ParseError,
>)
    ensures
        match r {
            Ok((bnfs, end)) => productions_from(tokens_of(tokens@), pos as int) == Ok::<
                _,
                ParseFault,
            >((described_productions_of(bnfs@), end as int)),
            Err(e) => productions_from(tokens_of(tokens@), pos as int) == Err::<
                (Seq<(Span, Production)>, int),
                _,
            >(e@),
        },
{
    let ghost view = tokens_of(tokens@);
    let mut out: Vec<Bnf> = Vec::new();
    let mut at = pos;
    proof {
        let whole = productions_from(view, pos as int);
        if whole is Ok {
            assert(described_productions_of(out@) + whole->Ok_0.0 =~= whole->Ok_0.0);
        }
    }
    while at_kind(tokens, at, Kind::Pub) || at_kind(tokens, at, Kind::Var)
        invariant
            view == tokens_of(tokens@),
            productions_from(view, pos as int) == glued(
                described_productions_of(out@),
                productions_from(view, at as int),
            ),
        decreases tokens@.len() - at,
    {
        let ghost before = described_productions_of(out@);
        proof {
            lemma_production_advances(view, at as int);
        }
        match parse_production(tokens, at) {
            Err(e) => {
                return Err(e);
            },
            Ok((bnf, next)) => {
                proof {
                    let item = (bnf_span(bnf), bnf@);
                    let rest = productions_from(view, next as int);
                    if rest is Ok {
                        assert(before + (seq![item] + rest->Ok_0.0) =~= before.push(item)
                            + rest->Ok_0.0);
                    }
                }
                let ghost item = (bnf_span(bnf), bnf@);
                out.push(bnf);
                proof {
                    assert(described_productions_of(out@) =~= before.push(item));
                }
                at = next;
            },
        }
    }
    proof {
        assert(described_productions_of(out@) + Seq::<(Span, Production)>::empty()
            =~= described_productions_of(out@));
    }
    Ok((out, at))
}

/// Reads the token declarations that start at `pos`. The span of a
/// declaration reaches from the name of the token to its pattern.
pub fn parse_declarations(tokens: &Vec<Token>, pos: usize) -> (r: Result<
    (Vec<(Range, String, TypeStr)>, usize),
    ParseError,
>)
    ensures
        match r {
            Ok((decls, end)) => declarations_from(tokens_of(tokens@), pos as int) == Ok::<
                _,
                ParseFault,
            >((declared_tokens_of(decls@), end as int)),
            Err(e) => declarations_from(tokens_of(tokens@), pos as int) == Err::<
                (Seq<(Span, TokenDecl)>, int),
                _,
            >(e@),
        },
{
    let ghost view = tokens_of(tokens@);
    let mut out: Vec<(Range, String, TypeStr)> = Vec::new();
    let mut at = pos;
    proof {
        let whole = declarations_from(view, pos as int);
        if whole is Ok {
            assert(declared_tokens_of(out@) + whole->Ok_0.0 =~= whole->Ok_0.0);
        }
    }
    while at_kind(tokens, at, Kind::Constructor)
        invariant
            view == tokens_of(tokens@),
            declarations_from(view, pos as int) == glued(
                declared_tokens_of(out@),
                declarations_from(view, at as int),
            ),
        decreases tokens@.len() - at,
    {
        let ghost before = declared_tokens_of(out@);
        match expect3(tokens, at + 1, Kind::Arrow, Kind::Str, Kind::Comma) {
            Ok(_) => {},
            Err(e) => {
                return Err(e);
            },
        }
        proof {
            assert(view[at as int] == token_of(tokens@[at as int]));
            assert(view[at + 2] == token_of(tokens@[at + 2]));
        }
        let range = Range::unite(tokens[at].1, tokens[at + 2].1);
        let name = text_of(&tokens[at].0);
        let pattern = text_of(&tokens[at + 2].0);
        out.push((range, name, pattern));
        proof {
            let item = (
                join(view[at as int].1, view[at + 2].1),
                TokenDecl { name: text_at(view, at as int), pattern: text_at(view, at + 2) },
            );
            assert(declared_tokens_of(out@) =~= before.push(item));
            let rest = declarations_from(view, at + 4);
            if rest is Ok {
                assert(before + (seq![item] + rest->Ok_0.0) =~= before.push(item) + rest->Ok_0.0);
            }
        }
        at = at + 4;
    }
    proof {
        assert(declared_tokens_of(out@) + Seq::<(Span, TokenDecl)>::empty() =~= declared_tokens_of(
            out@,
        ));
    }
    Ok((out, at))
}

/// Reads the setting that starts at `pos`: the main token type and the
/// declarations of the tokens.
pub fn parse_setting(tokens: &Vec<Token>, pos: usize) -> (r: Result<(Setting, usize), ParseError>)
    ensures
        match r {
            Ok((setting, end)) => setting_at(tokens_of(tokens@), pos as int) == Ok::<
                _,
                ParseFault,
            >(((setting.0@, declared_tokens_of(setting.1@)), end as int)),
            Err(e) => setting_at(tokens_of(tokens@), pos as int) == Err::<
                ((Seq<char>, Seq<(Span, TokenDecl)>), int),
                _,
            >(e@),
        },
{
    let ghost view = tokens_of(tokens@);
    let len = tokens.len();
    match expect5(
        tokens,
        pos,
        Kind::Extern,
        Kind::LCurlyBraces,
        Kind::Enum,
        Kind::Str,
        Kind::LCurlyBraces,
    ) {
        Ok(_) => {},
        Err(e) => {
            return Err(e);
        },
    }
    let (decls, end) = match parse_declarations(tokens, pos + 5) {
        Ok(done) => done,
        Err(e) => {
            return Err(e);
        },
    };
    match expect2(tokens, end, Kind::RCurlyBraces, Kind::RCurlyBraces) {
        Ok(_) => {},
        Err(e) => {
            return Err(e);
        },
    }
    proof {
        assert(view[pos + 3] == token_of(tokens@[pos + 3]));
    }
    let token_type = text_of(&tokens[pos + 3].0);
    Ok(((token_type, decls), end + 2))
}

/// Reads the header lines that start at `pos`: string literals, each with
/// its span.
pub fn parse_header(tokens: &Vec<Token>, pos: usize) -> (r: (Vec<(Range, String)>, usize))
    ensures
        header_from(tokens_of(tokens@), pos as int) == (header_lines_of(r.0@), r.1 as int),
{
    let ghost view = tokens_of(tokens@);
    let mut out: Vec<(Range, String)> = Vec::new();
    let mut at = pos;
    proof {
        assert(header_lines_of(out@) + header_from(view, pos as int).0 =~= header_from(
            view,
            pos as int,
        ).0);
    }
    while at_kind(tokens, at, Kind::Str)
        invariant
            view == tokens_of(tokens@),
            header_from(view, pos as int) == (
                header_lines_of(out@) + header_from(view, at as int).0,
                header_from(view, at as int).1,
            ),
        decreases tokens@.len() - at,
    {
        let ghost before = header_lines_of(out@);
        proof {
            assert(view[at as int] == token_of(tokens@[at as int]));
        }
        out.push((tokens[at].1, text_of(&tokens[at].0)));
        proof {
            let item = (view[at as int].1, text_at(view, at as int));
            assert(header_lines_of(out@) =~= before.push(item));
            assert(before + (seq![item] + header_from(view, at + 1).0) =~= before.push(item)
                + header_from(view, at + 1).0);
        }
        at = at + 1;
    }
    proof {
        assert(header_lines_of(out@) + Seq::<(Span, Seq<char>)>::empty() =~= header_lines_of(out@));
    }
    (out, at)
}

/// Reads a grammar description from its tokens: the header, `grammar;`, the
/// setting, the productions, and the token that marks the end of the input.
///
/// Fails at the first token that does not fit, or at the first token
/// behind the end of the input, or where the tokens end too early.
pub fn parse(tokens: Vec<Token>) -> (r: Result<Term, ParseError>)
    ensures
        match r {
            Ok(term) => described(tokens_of(tokens@)) == Ok::<_, ParseFault>(description_of(term)),
            Err(e) => described(tokens_of(tokens@)) == Err::<Description, _>(e@),
        },
{
    let ghost view = tokens_of(tokens@);
    let len = tokens.len();
    let (head, at) = parse_header(&tokens, 0);
    match expect2(&tokens, at, Kind::Grammar, Kind::Semicolon) {
        Ok(_) => {},
        Err(e) => {
            return Err(e);
        },
    }
    let (setting, next) = match parse_setting(&tokens, at + 2) {
        Ok(done) => done,
        Err(e) => {
            return Err(e);
        },
    };
    let (bnfs, end) = match parse_productions(&tokens, next) {
        Ok(done) => done,
        Err(e) => {
            return Err(e);
        },
    };
    if !at_kind(&tokens, end, Kind::Eof) {
        return Err(error_at(&tokens, end));
    }
    if end + 1 < tokens.len() {
        proof {
            assert(view[end + 1] == token_of(tokens@[end + 1]));
        }
        return Err(
            ParseError::RedundantExpression((tokens[end + 1].0.duplicate(), tokens[end + 1].1)),
        );
    }
    Ok((head, setting, bnfs))
}

} // verus!
