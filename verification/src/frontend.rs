//! The front end: from the text of a grammar description to the
//! description itself.

pub mod lexer;
pub mod parse;

use crate::error::Error;
use crate::frontend::lexer::{LexFault, lex, lex_error_of, lexed_whole};
use crate::frontend::parse::{Description, ParseFault, described, description_of, parse};
use crate::types::Term;
use vstd::prelude::*;
use vstd::string::StringSliceAdditionalSpecFns;

verus! {

/// Why a text is not a grammar description, as contracts see it.
pub enum ReadFault {
    /// The text cannot be split into tokens.
    Lexer(LexFault, (int, int)),
    /// The tokens do not spell a grammar description.
    Parser(ParseFault),
}

/// The grammar description that a text spells.
pub open spec fn read(input: Seq<u8>) -> Result<Description, ReadFault> {
    match lexed_whole(input) {
        Err((fault, span)) => Err(ReadFault::Lexer(fault, span)),
        Ok(tokens) => match described(tokens) {
            Ok(description) => Ok(description),
            Err(fault) => Err(ReadFault::Parser(fault)),
        },
    }
}

/// What an error of the front end reports.
pub open spec fn read_fault(e: Error) -> Option<ReadFault> {
    match e {
        Error::LexerError(e) => Some(ReadFault::Lexer(lex_error_of(e).0, lex_error_of(e).1)),
        Error::ParserError(e) => Some(ReadFault::Parser(e@)),
        _ => None,
    }
}

/// Reads a grammar description from its text.
///
/// Fails with the error of the lexer if the text cannot be split into
/// tokens, and with the error of the parser if the tokens do not spell a
/// grammar description.
pub fn get_ast(input: &str) -> (r: Result<Term, Error>)
    requires
        input.spec_bytes().len() + 2 <= usize::MAX,
    ensures
        match r {
            Ok(term) => read(input.spec_bytes()) == Ok::<_, ReadFault>(description_of(term)),
            Err(e) => read_fault(e) is Some && read(input.spec_bytes()) == Err::<Description, _>(
                read_fault(e).unwrap(),
            ),
        },
{
    let tokens = match lex(input) {
        Ok(t) => t,
        Err(e) => {
            return Err(Error::LexerError(e));
        },
    };
    match parse(tokens) {
        Ok(t) => Ok(t),
        Err(e) => Err(Error::ParserError(e)),
    }
}

} // verus!
