use llmaker::backend::to_string;
use llmaker::frontend::get_ast;
use llmaker::frontend::lexer::lex;

// The parser that the library writes for the description of grammar
// descriptions below, as it stands in `expected`: the tests run it beside
// the parser of the library.

use llmaker::frontend::lexer::{get_string, Token, TokenKind};
use llmaker::types::{Bnf, Code, FnOrToken, Range, Setting, Term, TypeStr};
fn cons<T>(first: T, mut rest: Vec<T>) -> Vec<T> {
  rest.insert(0, first);
  rest
}
fn public(start: Range, def: Bnf) -> Bnf {
  match def {
    Bnf::NonPub(range, name, ty, codes) => Bnf::Pub(Range::unite(start, range), name, ty, codes),
    other => other,
  }
}
fn bound(binding: (String, FnOrToken), code: Code) -> Code {
  (cons(binding, code.0), code.1)
}
fn headed(line: (Range, String), rest: Term) -> Term {
  (cons(line, rest.0), rest.1, rest.2)
}

#[derive(Debug, Clone)]
pub enum ParseError {
  UnexpectedToken(Token),
  RedundantExpression(Token),
  Eof,
}

#[allow(non_camel_case_types)]
#[allow(non_snake_case)]
#[allow(unused_parens)]
pub fn parse(tokens: Vec<Token>) -> Result<Term, ParseError> {
  let (ret, pos) = _parse_fn_description(&tokens, 0)?;
  if pos == tokens.len() {
    Ok(ret)
  } else if pos > tokens.len() {
    Err(ParseError::Eof)
  } else {
    Err(ParseError::RedundantExpression(tokens[pos].clone()))
  }
}


#[allow(non_camel_case_types)]
#[allow(non_snake_case)]
#[allow(unused_parens)]
fn _parse_fn_description(
  tokens: &Vec<Token>,
  pos: usize,
) -> Result<(Term, usize), ParseError>
{
  let mut _token_pos = pos;
  let token1 = tokens.get(pos);
  enum CodeType {
    Code0,Code1,
    Other
  }
  let code_type: Result<CodeType, ParseError> =
    match token1 {
      None => { Err(ParseError::Eof) }
      Some(tok) => match tok {
    (TokenKind::GRAMMAR, _) => Ok(CodeType::Code1),
(TokenKind::STR(_), _) => Ok(CodeType::Code0),

      _ => {Ok(CodeType::Other)}
      },
    };
  let main =
  match code_type? {
    CodeType::Code0 => {
      let (line, pos) = _parse_token_STR(tokens, pos)?;
      let (rest, pos) = _parse_fn_description(tokens, pos)?;

      _token_pos = pos;
headed((line.1, get_string(line.0).unwrap()), rest)
        }CodeType::Code1 => {
      let (g, pos) = _parse_token_GRAMMAR(tokens, pos)?;
      let (s, pos) = _parse_token_SEMICOLON(tokens, pos)?;
      let (setting, pos) = _parse_fn_setting(tokens, pos)?;
      let (bnfs, pos) = _parse_fn_productions(tokens, pos)?;
      let (e, pos) = _parse_token_EOF(tokens, pos)?;

      _token_pos = pos;
(Vec::new(), setting, bnfs)
        }
    _ => { return Err(ParseError::UnexpectedToken(tokens[pos].clone())) }
  };
  Ok((main, _token_pos))
}

#[allow(non_camel_case_types)]
#[allow(non_snake_case)]
#[allow(unused_parens)]
fn _parse_fn_setting(
  tokens: &Vec<Token>,
  pos: usize,
) -> Result<(Setting, usize), ParseError>
{
  let mut _token_pos = pos;
  let token1 = tokens.get(pos);
  enum CodeType {
    Code0,
    Other
  }
  let code_type: Result<CodeType, ParseError> =
    match token1 {
      None => { Err(ParseError::Eof) }
      Some(tok) => match tok {
    (TokenKind::EXTERN, _) => Ok(CodeType::Code0),

      _ => {Ok(CodeType::Other)}
      },
    };
  let main =
  match code_type? {
    CodeType::Code0 => {
      let (x, pos) = _parse_token_EXTERN(tokens, pos)?;
      let (a, pos) = _parse_token_LCURLYBRACES(tokens, pos)?;
      let (n, pos) = _parse_token_ENUM(tokens, pos)?;
      let (ty, pos) = _parse_token_STR(tokens, pos)?;
      let (b, pos) = _parse_token_LCURLYBRACES(tokens, pos)?;
      let (decls, pos) = _parse_fn_declarations(tokens, pos)?;
      let (c, pos) = _parse_token_RCURLYBRACES(tokens, pos)?;
      let (d, pos) = _parse_token_RCURLYBRACES(tokens, pos)?;

      _token_pos = pos;
(get_string(ty.0).unwrap(), decls)
        }
    _ => { return Err(ParseError::UnexpectedToken(tokens[pos].clone())) }
  };
  Ok((main, _token_pos))
}

#[allow(non_camel_case_types)]
#[allow(non_snake_case)]
#[allow(unused_parens)]
fn _parse_fn_declarations(
  tokens: &Vec<Token>,
  pos: usize,
) -> Result<(Vec<(Range, String, TypeStr)>, usize), ParseError>
{
  let mut _token_pos = pos;
  let token1 = tokens.get(pos);
  enum CodeType {
    Code0,
    Other
  }
  let code_type: Result<CodeType, ParseError> =
    match token1 {
      None => { Ok(CodeType::Other) }
      Some(tok) => match tok {
    (TokenKind::CONSTRUCTOR(_), _) => Ok(CodeType::Code0),

      _ => {Ok(CodeType::Other)}
      },
    };
  let main =
  match code_type? {
    CodeType::Code0 => {
      let (name, pos) = _parse_token_CONSTRUCTOR(tokens, pos)?;
      let (a, pos) = _parse_token_ARROW(tokens, pos)?;
      let (pattern, pos) = _parse_token_STR(tokens, pos)?;
      let (c, pos) = _parse_token_COMMA(tokens, pos)?;
      let (rest, pos) = _parse_fn_declarations(tokens, pos)?;

      _token_pos = pos;
cons((Range::unite(name.1, pattern.1), get_string(name.0).unwrap(), get_string(pattern.0).unwrap()), rest)
        }
    _ => { Vec::new() }
  };
  Ok((main, _token_pos))
}

#[allow(non_camel_case_types)]
#[allow(non_snake_case)]
#[allow(unused_parens)]
fn _parse_fn_productions(
  tokens: &Vec<Token>,
  pos: usize,
) -> Result<(Vec<Bnf>, usize), ParseError>
{
  let mut _token_pos = pos;
  let token1 = tokens.get(pos);
  enum CodeType {
    Code0,Code1,
    Other
  }
  let code_type: Result<CodeType, ParseError> =
    match token1 {
      None => { Ok(CodeType::Other) }
      Some(tok) => match tok {
    (TokenKind::PUB, _) => Ok(CodeType::Code0),
(TokenKind::VAR(_), _) => Ok(CodeType::Code1),

      _ => {Ok(CodeType::Other)}
      },
    };
  let main =
  match code_type? {
    CodeType::Code0 => {
      let (p, pos) = _parse_token_PUB(tokens, pos)?;
      let (def, pos) = _parse_fn_definition(tokens, pos)?;
      let (rest, pos) = _parse_fn_productions(tokens, pos)?;

      _token_pos = pos;
cons(public(p.1, def), rest)
        }CodeType::Code1 => {
      let (def, pos) = _parse_fn_definition(tokens, pos)?;
      let (rest, pos) = _parse_fn_productions(tokens, pos)?;

      _token_pos = pos;
cons(def, rest)
        }
    _ => { Vec::new() }
  };
  Ok((main, _token_pos))
}

#[allow(non_camel_case_types)]
#[allow(non_snake_case)]
#[allow(unused_parens)]
fn _parse_fn_definition(
  tokens: &Vec<Token>,
  pos: usize,
) -> Result<(Bnf, usize), ParseError>
{
  let mut _token_pos = pos;
  let token1 = tokens.get(pos);
  enum CodeType {
    Code0,
    Other
  }
  let code_type: Result<CodeType, ParseError> =
    match token1 {
      None => { Err(ParseError::Eof) }
      Some(tok) => match tok {
    (TokenKind::VAR(_), _) => Ok(CodeType::Code0),

      _ => {Ok(CodeType::Other)}
      },
    };
  let main =
  match code_type? {
    CodeType::Code0 => {
      let (name, pos) = _parse_token_VAR(tokens, pos)?;
      let (c, pos) = _parse_token_COLON(tokens, pos)?;
      let (ty, pos) = _parse_token_STR(tokens, pos)?;
      let (q, pos) = _parse_token_EQ(tokens, pos)?;
      let (a, pos) = _parse_token_LCURLYBRACES(tokens, pos)?;
      let (codes, pos) = _parse_fn_alternatives(tokens, pos)?;
      let (b, pos) = _parse_token_RCURLYBRACES(tokens, pos)?;
      let (s, pos) = _parse_token_SEMICOLON(tokens, pos)?;

      _token_pos = pos;
Bnf::NonPub(Range::unite(name.1, s.1), get_string(name.0).unwrap(), get_string(ty.0).unwrap(), codes)
        }
    _ => { return Err(ParseError::UnexpectedToken(tokens[pos].clone())) }
  };
  Ok((main, _token_pos))
}

#[allow(non_camel_case_types)]
#[allow(non_snake_case)]
#[allow(unused_parens)]
fn _parse_fn_alternatives(
  tokens: &Vec<Token>,
  pos: usize,
) -> Result<(Vec<Code>, usize), ParseError>
{
  let mut _token_pos = pos;
  let token1 = tokens.get(pos);
  enum CodeType {
    Code0,
    Other
  }
  let code_type: Result<CodeType, ParseError> =
    match token1 {
      None => { Ok(CodeType::Other) }
      Some(tok) => match tok {
    (TokenKind::ARROW, _) => Ok(CodeType::Code0),
(TokenKind::LBRACES, _) => Ok(CodeType::Code0),

      _ => {Ok(CodeType::Other)}
      },
    };
  let main =
  match code_type? {
    CodeType::Code0 => {
      let (code, pos) = _parse_fn_alternative(tokens, pos)?;
      let (rest, pos) = _parse_fn_alternatives(tokens, pos)?;

      _token_pos = pos;
cons(code, rest)
        }
    _ => { Vec::new() }
  };
  Ok((main, _token_pos))
}

#[allow(non_camel_case_types)]
#[allow(non_snake_case)]
#[allow(unused_parens)]
fn _parse_fn_alternative(
  tokens: &Vec<Token>,
  pos: usize,
) -> Result<(Code, usize), ParseError>
{
  let mut _token_pos = pos;
  let token1 = tokens.get(pos);
  enum CodeType {
    Code0,Code1,
    Other
  }
  let code_type: Result<CodeType, ParseError> =
    match token1 {
      None => { Err(ParseError::Eof) }
      Some(tok) => match tok {
    (TokenKind::ARROW, _) => Ok(CodeType::Code1),
(TokenKind::LBRACES, _) => Ok(CodeType::Code0),

      _ => {Ok(CodeType::Other)}
      },
    };
  let main =
  match code_type? {
    CodeType::Code0 => {
      let (binding, pos) = _parse_fn_binding(tokens, pos)?;
      let (code, pos) = _parse_fn_alternative(tokens, pos)?;

      _token_pos = pos;
bound(binding, code)
        }CodeType::Code1 => {
      let (a, pos) = _parse_token_ARROW(tokens, pos)?;
      let (b, pos) = _parse_token_LCURLYBRACES(tokens, pos)?;
      let (action, pos) = _parse_token_STR(tokens, pos)?;
      let (c, pos) = _parse_token_RCURLYBRACES(tokens, pos)?;
      let (s, pos) = _parse_token_SEMICOLON(tokens, pos)?;

      _token_pos = pos;
(Vec::new(), get_string(action.0).unwrap())
        }
    _ => { return Err(ParseError::UnexpectedToken(tokens[pos].clone())) }
  };
  Ok((main, _token_pos))
}

#[allow(non_camel_case_types)]
#[allow(non_snake_case)]
#[allow(unused_parens)]
fn _parse_fn_binding(
  tokens: &Vec<Token>,
  pos: usize,
) -> Result<((String, FnOrToken), usize), ParseError>
{
  let mut _token_pos = pos;
  let token1 = tokens.get(pos);
  enum CodeType {
    Code0,
    Other
  }
  let code_type: Result<CodeType, ParseError> =
    match token1 {
      None => { Err(ParseError::Eof) }
      Some(tok) => match tok {
    (TokenKind::LBRACES, _) => Ok(CodeType::Code0),

      _ => {Ok(CodeType::Other)}
      },
    };
  let main =
  match code_type? {
    CodeType::Code0 => {
      let (a, pos) = _parse_token_LBRACES(tokens, pos)?;
      let (name, pos) = _parse_token_VAR(tokens, pos)?;
      let (c, pos) = _parse_token_COLON(tokens, pos)?;
      let (symbol, pos) = _parse_fn_symbol(tokens, pos)?;
      let (b, pos) = _parse_token_RBRACES(tokens, pos)?;

      _token_pos = pos;
(get_string(name.0).unwrap(), symbol)
        }
    _ => { return Err(ParseError::UnexpectedToken(tokens[pos].clone())) }
  };
  Ok((main, _token_pos))
}

#[allow(non_camel_case_types)]
#[allow(non_snake_case)]
#[allow(unused_parens)]
fn _parse_fn_symbol(
  tokens: &Vec<Token>,
  pos: usize,
) -> Result<(FnOrToken, usize), ParseError>
{
  let mut _token_pos = pos;
  let token1 = tokens.get(pos);
  enum CodeType {
    Code0,Code1,
    Other
  }
  let code_type: Result<CodeType, ParseError> =
    match token1 {
      None => { Err(ParseError::Eof) }
      Some(tok) => match tok {
    (TokenKind::CONSTRUCTOR(_), _) => Ok(CodeType::Code1),
(TokenKind::VAR(_), _) => Ok(CodeType::Code0),

      _ => {Ok(CodeType::Other)}
      },
    };
  let main =
  match code_type? {
    CodeType::Code0 => {
      let (name, pos) = _parse_token_VAR(tokens, pos)?;

      _token_pos = pos;
FnOrToken::Function(get_string(name.0).unwrap())
        }CodeType::Code1 => {
      let (name, pos) = _parse_token_CONSTRUCTOR(tokens, pos)?;

      _token_pos = pos;
FnOrToken::Token(get_string(name.0).unwrap())
        }
    _ => { return Err(ParseError::UnexpectedToken(tokens[pos].clone())) }
  };
  Ok((main, _token_pos))
}



#[allow(non_camel_case_types)]
#[allow(non_snake_case)]
#[allow(unused_parens)]
fn _parse_token_EOF(
  tokens: &Vec<Token>,
  pos: usize,
) -> Result<(Token, usize), ParseError>
{
  let token1 = tokens.get(pos);
  token1
  .ok_or(ParseError::Eof)
  .and_then(|tok| match tok {
    (TokenKind::EOF, _) => Ok((tok.clone(), pos + 1)),
    _ => Err(ParseError::UnexpectedToken(tok.clone())),
  })
}

#[allow(non_camel_case_types)]
#[allow(non_snake_case)]
#[allow(unused_parens)]
fn _parse_token_GRAMMAR(
  tokens: &Vec<Token>,
  pos: usize,
) -> Result<(Token, usize), ParseError>
{
  let token1 = tokens.get(pos);
  token1
  .ok_or(ParseError::Eof)
  .and_then(|tok| match tok {
    (TokenKind::GRAMMAR, _) => Ok((tok.clone(), pos + 1)),
    _ => Err(ParseError::UnexpectedToken(tok.clone())),
  })
}

#[allow(non_camel_case_types)]
#[allow(non_snake_case)]
#[allow(unused_parens)]
fn _parse_token_EXTERN(
  tokens: &Vec<Token>,
  pos: usize,
) -> Result<(Token, usize), ParseError>
{
  let token1 = tokens.get(pos);
  token1
  .ok_or(ParseError::Eof)
  .and_then(|tok| match tok {
    (TokenKind::EXTERN, _) => Ok((tok.clone(), pos + 1)),
    _ => Err(ParseError::UnexpectedToken(tok.clone())),
  })
}

#[allow(non_camel_case_types)]
#[allow(non_snake_case)]
#[allow(unused_parens)]
fn _parse_token_ENUM(
  tokens: &Vec<Token>,
  pos: usize,
) -> Result<(Token, usize), ParseError>
{
  let token1 = tokens.get(pos);
  token1
  .ok_or(ParseError::Eof)
  .and_then(|tok| match tok {
    (TokenKind::ENUM, _) => Ok((tok.clone(), pos + 1)),
    _ => Err(ParseError::UnexpectedToken(tok.clone())),
  })
}

#[allow(non_camel_case_types)]
#[allow(non_snake_case)]
#[allow(unused_parens)]
fn _parse_token_PUB(
  tokens: &Vec<Token>,
  pos: usize,
) -> Result<(Token, usize), ParseError>
{
  let token1 = tokens.get(pos);
  token1
  .ok_or(ParseError::Eof)
  .and_then(|tok| match tok {
    (TokenKind::PUB, _) => Ok((tok.clone(), pos + 1)),
    _ => Err(ParseError::UnexpectedToken(tok.clone())),
  })
}

#[allow(non_camel_case_types)]
#[allow(non_snake_case)]
#[allow(unused_parens)]
fn _parse_token_VAR(
  tokens: &Vec<Token>,
  pos: usize,
) -> Result<(Token, usize), ParseError>
{
  let token1 = tokens.get(pos);
  token1
  .ok_or(ParseError::Eof)
  .and_then(|tok| match tok {
    (TokenKind::VAR(_), _) => Ok((tok.clone(), pos + 1)),
    _ => Err(ParseError::UnexpectedToken(tok.clone())),
  })
}

#[allow(non_camel_case_types)]
#[allow(non_snake_case)]
#[allow(unused_parens)]
fn _parse_token_CONSTRUCTOR(
  tokens: &Vec<Token>,
  pos: usize,
) -> Result<(Token, usize), ParseError>
{
  let token1 = tokens.get(pos);
  token1
  .ok_or(ParseError::Eof)
  .and_then(|tok| match tok {
    (TokenKind::CONSTRUCTOR(_), _) => Ok((tok.clone(), pos + 1)),
    _ => Err(ParseError::UnexpectedToken(tok.clone())),
  })
}

#[allow(non_camel_case_types)]
#[allow(non_snake_case)]
#[allow(unused_parens)]
fn _parse_token_LCURLYBRACES(
  tokens: &Vec<Token>,
  pos: usize,
) -> Result<(Token, usize), ParseError>
{
  let token1 = tokens.get(pos);
  token1
  .ok_or(ParseError::Eof)
  .and_then(|tok| match tok {
    (TokenKind::LCURLYBRACES, _) => Ok((tok.clone(), pos + 1)),
    _ => Err(ParseError::UnexpectedToken(tok.clone())),
  })
}

#[allow(non_camel_case_types)]
#[allow(non_snake_case)]
#[allow(unused_parens)]
fn _parse_token_RCURLYBRACES(
  tokens: &Vec<Token>,
  pos: usize,
) -> Result<(Token, usize), ParseError>
{
  let token1 = tokens.get(pos);
  token1
  .ok_or(ParseError::Eof)
  .and_then(|tok| match tok {
    (TokenKind::RCURLYBRACES, _) => Ok((tok.clone(), pos + 1)),
    _ => Err(ParseError::UnexpectedToken(tok.clone())),
  })
}

#[allow(non_camel_case_types)]
#[allow(non_snake_case)]
#[allow(unused_parens)]
fn _parse_token_EQ(
  tokens: &Vec<Token>,
  pos: usize,
) -> Result<(Token, usize), ParseError>
{
  let token1 = tokens.get(pos);
  token1
  .ok_or(ParseError::Eof)
  .and_then(|tok| match tok {
    (TokenKind::EQ, _) => Ok((tok.clone(), pos + 1)),
    _ => Err(ParseError::UnexpectedToken(tok.clone())),
  })
}

#[allow(non_camel_case_types)]
#[allow(non_snake_case)]
#[allow(unused_parens)]
fn _parse_token_COMMA(
  tokens: &Vec<Token>,
  pos: usize,
) -> Result<(Token, usize), ParseError>
{
  let token1 = tokens.get(pos);
  token1
  .ok_or(ParseError::Eof)
  .and_then(|tok| match tok {
    (TokenKind::COMMA, _) => Ok((tok.clone(), pos + 1)),
    _ => Err(ParseError::UnexpectedToken(tok.clone())),
  })
}

#[allow(non_camel_case_types)]
#[allow(non_snake_case)]
#[allow(unused_parens)]
fn _parse_token_SEMICOLON(
  tokens: &Vec<Token>,
  pos: usize,
) -> Result<(Token, usize), ParseError>
{
  let token1 = tokens.get(pos);
  token1
  .ok_or(ParseError::Eof)
  .and_then(|tok| match tok {
    (TokenKind::SEMICOLON, _) => Ok((tok.clone(), pos + 1)),
    _ => Err(ParseError::UnexpectedToken(tok.clone())),
  })
}

#[allow(non_camel_case_types)]
#[allow(non_snake_case)]
#[allow(unused_parens)]
fn _parse_token_COLON(
  tokens: &Vec<Token>,
  pos: usize,
) -> Result<(Token, usize), ParseError>
{
  let token1 = tokens.get(pos);
  token1
  .ok_or(ParseError::Eof)
  .and_then(|tok| match tok {
    (TokenKind::COLON, _) => Ok((tok.clone(), pos + 1)),
    _ => Err(ParseError::UnexpectedToken(tok.clone())),
  })
}

#[allow(non_camel_case_types)]
#[allow(non_snake_case)]
#[allow(unused_parens)]
fn _parse_token_LBRACES(
  tokens: &Vec<Token>,
  pos: usize,
) -> Result<(Token, usize), ParseError>
{
  let token1 = tokens.get(pos);
  token1
  .ok_or(ParseError::Eof)
  .and_then(|tok| match tok {
    (TokenKind::LBRACES, _) => Ok((tok.clone(), pos + 1)),
    _ => Err(ParseError::UnexpectedToken(tok.clone())),
  })
}

#[allow(non_camel_case_types)]
#[allow(non_snake_case)]
#[allow(unused_parens)]
fn _parse_token_RBRACES(
  tokens: &Vec<Token>,
  pos: usize,
) -> Result<(Token, usize), ParseError>
{
  let token1 = tokens.get(pos);
  token1
  .ok_or(ParseError::Eof)
  .and_then(|tok| match tok {
    (TokenKind::RBRACES, _) => Ok((tok.clone(), pos + 1)),
    _ => Err(ParseError::UnexpectedToken(tok.clone())),
  })
}

#[allow(non_camel_case_types)]
#[allow(non_snake_case)]
#[allow(unused_parens)]
fn _parse_token_ARROW(
  tokens: &Vec<Token>,
  pos: usize,
) -> Result<(Token, usize), ParseError>
{
  let token1 = tokens.get(pos);
  token1
  .ok_or(ParseError::Eof)
  .and_then(|tok| match tok {
    (TokenKind::ARROW, _) => Ok((tok.clone(), pos + 1)),
    _ => Err(ParseError::UnexpectedToken(tok.clone())),
  })
}

#[allow(non_camel_case_types)]
#[allow(non_snake_case)]
#[allow(unused_parens)]
fn _parse_token_STR(
  tokens: &Vec<Token>,
  pos: usize,
) -> Result<(Token, usize), ParseError>
{
  let token1 = tokens.get(pos);
  token1
  .ok_or(ParseError::Eof)
  .and_then(|tok| match tok {
    (TokenKind::STR(_), _) => Ok((tok.clone(), pos + 1)),
    _ => Err(ParseError::UnexpectedToken(tok.clone())),
  })
}

fn description() -> &'static str {
    "\"use llmaker::frontend::lexer::{get_string, Token, TokenKind};
use llmaker::types::{Bnf, Code, FnOrToken, Range, Setting, Term, TypeStr};\"
\"fn cons<T>(first: T, mut rest: Vec<T>) -> Vec<T> {
  rest.insert(0, first);
  rest
}\"
\"fn public(start: Range, def: Bnf) -> Bnf {
  match def {
    Bnf::NonPub(range, name, ty, codes) => Bnf::Pub(Range::unite(start, range), name, ty, codes),
    other => other,
  }
}\"
\"fn bound(binding: (String, FnOrToken), code: Code) -> Code {
  (cons(binding, code.0), code.1)
}\"
\"fn headed(line: (Range, String), rest: Term) -> Term {
  (cons(line, rest.0), rest.1, rest.2)
}\"

grammar;

extern {
  enum \"Token\" {
    EOF => \"(TokenKind::EOF, _)\",
    GRAMMAR => \"(TokenKind::GRAMMAR, _)\",
    EXTERN => \"(TokenKind::EXTERN, _)\",
    ENUM => \"(TokenKind::ENUM, _)\",
    PUB => \"(TokenKind::PUB, _)\",
    VAR => \"(TokenKind::VAR(_), _)\",
    CONSTRUCTOR => \"(TokenKind::CONSTRUCTOR(_), _)\",
    LCURLYBRACES => \"(TokenKind::LCURLYBRACES, _)\",
    RCURLYBRACES => \"(TokenKind::RCURLYBRACES, _)\",
    EQ => \"(TokenKind::EQ, _)\",
    COMMA => \"(TokenKind::COMMA, _)\",
    SEMICOLON => \"(TokenKind::SEMICOLON, _)\",
    COLON => \"(TokenKind::COLON, _)\",
    LBRACES => \"(TokenKind::LBRACES, _)\",
    RBRACES => \"(TokenKind::RBRACES, _)\",
    ARROW => \"(TokenKind::ARROW, _)\",
    STR => \"(TokenKind::STR(_), _)\",
  }
}

pub description: \"Term\" = {
  <line: STR> <rest: description> => { \"headed((line.1, get_string(line.0).unwrap()), rest)\" };
  <g: GRAMMAR> <s: SEMICOLON> <setting: setting> <bnfs: productions> <e: EOF> => { \"(Vec::new(), setting, bnfs)\" };
};

setting: \"Setting\" = {
  <x: EXTERN> <a: LCURLYBRACES> <n: ENUM> <ty: STR> <b: LCURLYBRACES> <decls: declarations> <c: RCURLYBRACES> <d: RCURLYBRACES> => { \"(get_string(ty.0).unwrap(), decls)\" };
};

declarations: \"Vec<(Range, String, TypeStr)>\" = {
  <name: CONSTRUCTOR> <a: ARROW> <pattern: STR> <c: COMMA> <rest: declarations> => { \"cons((Range::unite(name.1, pattern.1), get_string(name.0).unwrap(), get_string(pattern.0).unwrap()), rest)\" };
  => { \"Vec::new()\" };
};

productions: \"Vec<Bnf>\" = {
  <p: PUB> <def: definition> <rest: productions> => { \"cons(public(p.1, def), rest)\" };
  <def: definition> <rest: productions> => { \"cons(def, rest)\" };
  => { \"Vec::new()\" };
};

definition: \"Bnf\" = {
  <name: VAR> <c: COLON> <ty: STR> <q: EQ> <a: LCURLYBRACES> <codes: alternatives> <b: RCURLYBRACES> <s: SEMICOLON> => { \"Bnf::NonPub(Range::unite(name.1, s.1), get_string(name.0).unwrap(), get_string(ty.0).unwrap(), codes)\" };
};

alternatives: \"Vec<Code>\" = {
  <code: alternative> <rest: alternatives> => { \"cons(code, rest)\" };
  => { \"Vec::new()\" };
};

alternative: \"Code\" = {
  <binding: binding> <code: alternative> => { \"bound(binding, code)\" };
  <a: ARROW> <b: LCURLYBRACES> <action: STR> <c: RCURLYBRACES> <s: SEMICOLON> => { \"(Vec::new(), get_string(action.0).unwrap())\" };
};

binding: \"(String, FnOrToken)\" = {
  <a: LBRACES> <name: VAR> <c: COLON> <symbol: symbol> <b: RBRACES> => { \"(get_string(name.0).unwrap(), symbol)\" };
};

symbol: \"FnOrToken\" = {
  <name: VAR> => { \"FnOrToken::Function(get_string(name.0).unwrap())\" };
  <name: CONSTRUCTOR> => { \"FnOrToken::Token(get_string(name.0).unwrap())\" };
};
"
}

fn expected() -> &'static str {
    "use llmaker::frontend::lexer::{get_string, Token, TokenKind};
use llmaker::types::{Bnf, Code, FnOrToken, Range, Setting, Term, TypeStr};
fn cons<T>(first: T, mut rest: Vec<T>) -> Vec<T> {
  rest.insert(0, first);
  rest
}
fn public(start: Range, def: Bnf) -> Bnf {
  match def {
    Bnf::NonPub(range, name, ty, codes) => Bnf::Pub(Range::unite(start, range), name, ty, codes),
    other => other,
  }
}
fn bound(binding: (String, FnOrToken), code: Code) -> Code {
  (cons(binding, code.0), code.1)
}
fn headed(line: (Range, String), rest: Term) -> Term {
  (cons(line, rest.0), rest.1, rest.2)
}

#[derive(Debug, Clone)]
pub enum ParseError {
  UnexpectedToken(Token),
  RedundantExpression(Token),
  Eof,
}

#[allow(non_camel_case_types)]
#[allow(non_snake_case)]
#[allow(unused_parens)]
pub fn parse(tokens: Vec<Token>) -> Result<Term, ParseError> {
  let (ret, pos) = _parse_fn_description(&tokens, 0)?;
  if pos == tokens.len() {
    Ok(ret)
  } else if pos > tokens.len() {
    Err(ParseError::Eof)
  } else {
    Err(ParseError::RedundantExpression(tokens[pos].clone()))
  }
}


#[allow(non_camel_case_types)]
#[allow(non_snake_case)]
#[allow(unused_parens)]
fn _parse_fn_description(
  tokens: &Vec<Token>,
  pos: usize,
) -> Result<(Term, usize), ParseError>
{
  let mut _token_pos = pos;
  let token1 = tokens.get(pos);
  enum CodeType {
    Code0,Code1,
    Other
  }
  let code_type: Result<CodeType, ParseError> =
    match token1 {
      None => { Err(ParseError::Eof) }
      Some(tok) => match tok {
    (TokenKind::GRAMMAR, _) => Ok(CodeType::Code1),
(TokenKind::STR(_), _) => Ok(CodeType::Code0),

      _ => {Ok(CodeType::Other)}
      },
    };
  let main =
  match code_type? {
    CodeType::Code0 => {
      let (line, pos) = _parse_token_STR(tokens, pos)?;
      let (rest, pos) = _parse_fn_description(tokens, pos)?;

      _token_pos = pos;
headed((line.1, get_string(line.0).unwrap()), rest)
        }CodeType::Code1 => {
      let (g, pos) = _parse_token_GRAMMAR(tokens, pos)?;
      let (s, pos) = _parse_token_SEMICOLON(tokens, pos)?;
      let (setting, pos) = _parse_fn_setting(tokens, pos)?;
      let (bnfs, pos) = _parse_fn_productions(tokens, pos)?;
      let (e, pos) = _parse_token_EOF(tokens, pos)?;

      _token_pos = pos;
(Vec::new(), setting, bnfs)
        }
    _ => { return Err(ParseError::UnexpectedToken(tokens[pos].clone())) }
  };
  Ok((main, _token_pos))
}

#[allow(non_camel_case_types)]
#[allow(non_snake_case)]
#[allow(unused_parens)]
fn _parse_fn_setting(
  tokens: &Vec<Token>,
  pos: usize,
) -> Result<(Setting, usize), ParseError>
{
  let mut _token_pos = pos;
  let token1 = tokens.get(pos);
  enum CodeType {
    Code0,
    Other
  }
  let code_type: Result<CodeType, ParseError> =
    match token1 {
      None => { Err(ParseError::Eof) }
      Some(tok) => match tok {
    (TokenKind::EXTERN, _) => Ok(CodeType::Code0),

      _ => {Ok(CodeType::Other)}
      },
    };
  let main =
  match code_type? {
    CodeType::Code0 => {
      let (x, pos) = _parse_token_EXTERN(tokens, pos)?;
      let (a, pos) = _parse_token_LCURLYBRACES(tokens, pos)?;
      let (n, pos) = _parse_token_ENUM(tokens, pos)?;
      let (ty, pos) = _parse_token_STR(tokens, pos)?;
      let (b, pos) = _parse_token_LCURLYBRACES(tokens, pos)?;
      let (decls, pos) = _parse_fn_declarations(tokens, pos)?;
      let (c, pos) = _parse_token_RCURLYBRACES(tokens, pos)?;
      let (d, pos) = _parse_token_RCURLYBRACES(tokens, pos)?;

      _token_pos = pos;
(get_string(ty.0).unwrap(), decls)
        }
    _ => { return Err(ParseError::UnexpectedToken(tokens[pos].clone())) }
  };
  Ok((main, _token_pos))
}

#[allow(non_camel_case_types)]
#[allow(non_snake_case)]
#[allow(unused_parens)]
fn _parse_fn_declarations(
  tokens: &Vec<Token>,
  pos: usize,
) -> Result<(Vec<(Range, String, TypeStr)>, usize), ParseError>
{
  let mut _token_pos = pos;
  let token1 = tokens.get(pos);
  enum CodeType {
    Code0,
    Other
  }
  let code_type: Result<CodeType, ParseError> =
    match token1 {
      None => { Ok(CodeType::Other) }
      Some(tok) => match tok {
    (TokenKind::CONSTRUCTOR(_), _) => Ok(CodeType::Code0),

      _ => {Ok(CodeType::Other)}
      },
    };
  let main =
  match code_type? {
    CodeType::Code0 => {
      let (name, pos) = _parse_token_CONSTRUCTOR(tokens, pos)?;
      let (a, pos) = _parse_token_ARROW(tokens, pos)?;
      let (pattern, pos) = _parse_token_STR(tokens, pos)?;
      let (c, pos) = _parse_token_COMMA(tokens, pos)?;
      let (rest, pos) = _parse_fn_declarations(tokens, pos)?;

      _token_pos = pos;
cons((Range::unite(name.1, pattern.1), get_string(name.0).unwrap(), get_string(pattern.0).unwrap()), rest)
        }
    _ => { Vec::new() }
  };
  Ok((main, _token_pos))
}

#[allow(non_camel_case_types)]
#[allow(non_snake_case)]
#[allow(unused_parens)]
fn _parse_fn_productions(
  tokens: &Vec<Token>,
  pos: usize,
) -> Result<(Vec<Bnf>, usize), ParseError>
{
  let mut _token_pos = pos;
  let token1 = tokens.get(pos);
  enum CodeType {
    Code0,Code1,
    Other
  }
  let code_type: Result<CodeType, ParseError> =
    match token1 {
      None => { Ok(CodeType::Other) }
      Some(tok) => match tok {
    (TokenKind::PUB, _) => Ok(CodeType::Code0),
(TokenKind::VAR(_), _) => Ok(CodeType::Code1),

      _ => {Ok(CodeType::Other)}
      },
    };
  let main =
  match code_type? {
    CodeType::Code0 => {
      let (p, pos) = _parse_token_PUB(tokens, pos)?;
      let (def, pos) = _parse_fn_definition(tokens, pos)?;
      let (rest, pos) = _parse_fn_productions(tokens, pos)?;

      _token_pos = pos;
cons(public(p.1, def), rest)
        }CodeType::Code1 => {
      let (def, pos) = _parse_fn_definition(tokens, pos)?;
      let (rest, pos) = _parse_fn_productions(tokens, pos)?;

      _token_pos = pos;
cons(def, rest)
        }
    _ => { Vec::new() }
  };
  Ok((main, _token_pos))
}

#[allow(non_camel_case_types)]
#[allow(non_snake_case)]
#[allow(unused_parens)]
fn _parse_fn_definition(
  tokens: &Vec<Token>,
  pos: usize,
) -> Result<(Bnf, usize), ParseError>
{
  let mut _token_pos = pos;
  let token1 = tokens.get(pos);
  enum CodeType {
    Code0,
    Other
  }
  let code_type: Result<CodeType, ParseError> =
    match token1 {
      None => { Err(ParseError::Eof) }
      Some(tok) => match tok {
    (TokenKind::VAR(_), _) => Ok(CodeType::Code0),

      _ => {Ok(CodeType::Other)}
      },
    };
  let main =
  match code_type? {
    CodeType::Code0 => {
      let (name, pos) = _parse_token_VAR(tokens, pos)?;
      let (c, pos) = _parse_token_COLON(tokens, pos)?;
      let (ty, pos) = _parse_token_STR(tokens, pos)?;
      let (q, pos) = _parse_token_EQ(tokens, pos)?;
      let (a, pos) = _parse_token_LCURLYBRACES(tokens, pos)?;
      let (codes, pos) = _parse_fn_alternatives(tokens, pos)?;
      let (b, pos) = _parse_token_RCURLYBRACES(tokens, pos)?;
      let (s, pos) = _parse_token_SEMICOLON(tokens, pos)?;

      _token_pos = pos;
Bnf::NonPub(Range::unite(name.1, s.1), get_string(name.0).unwrap(), get_string(ty.0).unwrap(), codes)
        }
    _ => { return Err(ParseError::UnexpectedToken(tokens[pos].clone())) }
  };
  Ok((main, _token_pos))
}

#[allow(non_camel_case_types)]
#[allow(non_snake_case)]
#[allow(unused_parens)]
fn _parse_fn_alternatives(
  tokens: &Vec<Token>,
  pos: usize,
) -> Result<(Vec<Code>, usize), ParseError>
{
  let mut _token_pos = pos;
  let token1 = tokens.get(pos);
  enum CodeType {
    Code0,
    Other
  }
  let code_type: Result<CodeType, ParseError> =
    match token1 {
      None => { Ok(CodeType::Other) }
      Some(tok) => match tok {
    (TokenKind::ARROW, _) => Ok(CodeType::Code0),
(TokenKind::LBRACES, _) => Ok(CodeType::Code0),

      _ => {Ok(CodeType::Other)}
      },
    };
  let main =
  match code_type? {
    CodeType::Code0 => {
      let (code, pos) = _parse_fn_alternative(tokens, pos)?;
      let (rest, pos) = _parse_fn_alternatives(tokens, pos)?;

      _token_pos = pos;
cons(code, rest)
        }
    _ => { Vec::new() }
  };
  Ok((main, _token_pos))
}

#[allow(non_camel_case_types)]
#[allow(non_snake_case)]
#[allow(unused_parens)]
fn _parse_fn_alternative(
  tokens: &Vec<Token>,
  pos: usize,
) -> Result<(Code, usize), ParseError>
{
  let mut _token_pos = pos;
  let token1 = tokens.get(pos);
  enum CodeType {
    Code0,Code1,
    Other
  }
  let code_type: Result<CodeType, ParseError> =
    match token1 {
      None => { Err(ParseError::Eof) }
      Some(tok) => match tok {
    (TokenKind::ARROW, _) => Ok(CodeType::Code1),
(TokenKind::LBRACES, _) => Ok(CodeType::Code0),

      _ => {Ok(CodeType::Other)}
      },
    };
  let main =
  match code_type? {
    CodeType::Code0 => {
      let (binding, pos) = _parse_fn_binding(tokens, pos)?;
      let (code, pos) = _parse_fn_alternative(tokens, pos)?;

      _token_pos = pos;
bound(binding, code)
        }CodeType::Code1 => {
      let (a, pos) = _parse_token_ARROW(tokens, pos)?;
      let (b, pos) = _parse_token_LCURLYBRACES(tokens, pos)?;
      let (action, pos) = _parse_token_STR(tokens, pos)?;
      let (c, pos) = _parse_token_RCURLYBRACES(tokens, pos)?;
      let (s, pos) = _parse_token_SEMICOLON(tokens, pos)?;

      _token_pos = pos;
(Vec::new(), get_string(action.0).unwrap())
        }
    _ => { return Err(ParseError::UnexpectedToken(tokens[pos].clone())) }
  };
  Ok((main, _token_pos))
}

#[allow(non_camel_case_types)]
#[allow(non_snake_case)]
#[allow(unused_parens)]
fn _parse_fn_binding(
  tokens: &Vec<Token>,
  pos: usize,
) -> Result<((String, FnOrToken), usize), ParseError>
{
  let mut _token_pos = pos;
  let token1 = tokens.get(pos);
  enum CodeType {
    Code0,
    Other
  }
  let code_type: Result<CodeType, ParseError> =
    match token1 {
      None => { Err(ParseError::Eof) }
      Some(tok) => match tok {
    (TokenKind::LBRACES, _) => Ok(CodeType::Code0),

      _ => {Ok(CodeType::Other)}
      },
    };
  let main =
  match code_type? {
    CodeType::Code0 => {
      let (a, pos) = _parse_token_LBRACES(tokens, pos)?;
      let (name, pos) = _parse_token_VAR(tokens, pos)?;
      let (c, pos) = _parse_token_COLON(tokens, pos)?;
      let (symbol, pos) = _parse_fn_symbol(tokens, pos)?;
      let (b, pos) = _parse_token_RBRACES(tokens, pos)?;

      _token_pos = pos;
(get_string(name.0).unwrap(), symbol)
        }
    _ => { return Err(ParseError::UnexpectedToken(tokens[pos].clone())) }
  };
  Ok((main, _token_pos))
}

#[allow(non_camel_case_types)]
#[allow(non_snake_case)]
#[allow(unused_parens)]
fn _parse_fn_symbol(
  tokens: &Vec<Token>,
  pos: usize,
) -> Result<(FnOrToken, usize), ParseError>
{
  let mut _token_pos = pos;
  let token1 = tokens.get(pos);
  enum CodeType {
    Code0,Code1,
    Other
  }
  let code_type: Result<CodeType, ParseError> =
    match token1 {
      None => { Err(ParseError::Eof) }
      Some(tok) => match tok {
    (TokenKind::CONSTRUCTOR(_), _) => Ok(CodeType::Code1),
(TokenKind::VAR(_), _) => Ok(CodeType::Code0),

      _ => {Ok(CodeType::Other)}
      },
    };
  let main =
  match code_type? {
    CodeType::Code0 => {
      let (name, pos) = _parse_token_VAR(tokens, pos)?;

      _token_pos = pos;
FnOrToken::Function(get_string(name.0).unwrap())
        }CodeType::Code1 => {
      let (name, pos) = _parse_token_CONSTRUCTOR(tokens, pos)?;

      _token_pos = pos;
FnOrToken::Token(get_string(name.0).unwrap())
        }
    _ => { return Err(ParseError::UnexpectedToken(tokens[pos].clone())) }
  };
  Ok((main, _token_pos))
}



#[allow(non_camel_case_types)]
#[allow(non_snake_case)]
#[allow(unused_parens)]
fn _parse_token_EOF(
  tokens: &Vec<Token>,
  pos: usize,
) -> Result<(Token, usize), ParseError>
{
  let token1 = tokens.get(pos);
  token1
  .ok_or(ParseError::Eof)
  .and_then(|tok| match tok {
    (TokenKind::EOF, _) => Ok((tok.clone(), pos + 1)),
    _ => Err(ParseError::UnexpectedToken(tok.clone())),
  })
}

#[allow(non_camel_case_types)]
#[allow(non_snake_case)]
#[allow(unused_parens)]
fn _parse_token_GRAMMAR(
  tokens: &Vec<Token>,
  pos: usize,
) -> Result<(Token, usize), ParseError>
{
  let token1 = tokens.get(pos);
  token1
  .ok_or(ParseError::Eof)
  .and_then(|tok| match tok {
    (TokenKind::GRAMMAR, _) => Ok((tok.clone(), pos + 1)),
    _ => Err(ParseError::UnexpectedToken(tok.clone())),
  })
}

#[allow(non_camel_case_types)]
#[allow(non_snake_case)]
#[allow(unused_parens)]
fn _parse_token_EXTERN(
  tokens: &Vec<Token>,
  pos: usize,
) -> Result<(Token, usize), ParseError>
{
  let token1 = tokens.get(pos);
  token1
  .ok_or(ParseError::Eof)
  .and_then(|tok| match tok {
    (TokenKind::EXTERN, _) => Ok((tok.clone(), pos + 1)),
    _ => Err(ParseError::UnexpectedToken(tok.clone())),
  })
}

#[allow(non_camel_case_types)]
#[allow(non_snake_case)]
#[allow(unused_parens)]
fn _parse_token_ENUM(
  tokens: &Vec<Token>,
  pos: usize,
) -> Result<(Token, usize), ParseError>
{
  let token1 = tokens.get(pos);
  token1
  .ok_or(ParseError::Eof)
  .and_then(|tok| match tok {
    (TokenKind::ENUM, _) => Ok((tok.clone(), pos + 1)),
    _ => Err(ParseError::UnexpectedToken(tok.clone())),
  })
}

#[allow(non_camel_case_types)]
#[allow(non_snake_case)]
#[allow(unused_parens)]
fn _parse_token_PUB(
  tokens: &Vec<Token>,
  pos: usize,
) -> Result<(Token, usize), ParseError>
{
  let token1 = tokens.get(pos);
  token1
  .ok_or(ParseError::Eof)
  .and_then(|tok| match tok {
    (TokenKind::PUB, _) => Ok((tok.clone(), pos + 1)),
    _ => Err(ParseError::UnexpectedToken(tok.clone())),
  })
}

#[allow(non_camel_case_types)]
#[allow(non_snake_case)]
#[allow(unused_parens)]
fn _parse_token_VAR(
  tokens: &Vec<Token>,
  pos: usize,
) -> Result<(Token, usize), ParseError>
{
  let token1 = tokens.get(pos);
  token1
  .ok_or(ParseError::Eof)
  .and_then(|tok| match tok {
    (TokenKind::VAR(_), _) => Ok((tok.clone(), pos + 1)),
    _ => Err(ParseError::UnexpectedToken(tok.clone())),
  })
}

#[allow(non_camel_case_types)]
#[allow(non_snake_case)]
#[allow(unused_parens)]
fn _parse_token_CONSTRUCTOR(
  tokens: &Vec<Token>,
  pos: usize,
) -> Result<(Token, usize), ParseError>
{
  let token1 = tokens.get(pos);
  token1
  .ok_or(ParseError::Eof)
  .and_then(|tok| match tok {
    (TokenKind::CONSTRUCTOR(_), _) => Ok((tok.clone(), pos + 1)),
    _ => Err(ParseError::UnexpectedToken(tok.clone())),
  })
}

#[allow(non_camel_case_types)]
#[allow(non_snake_case)]
#[allow(unused_parens)]
fn _parse_token_LCURLYBRACES(
  tokens: &Vec<Token>,
  pos: usize,
) -> Result<(Token, usize), ParseError>
{
  let token1 = tokens.get(pos);
  token1
  .ok_or(ParseError::Eof)
  .and_then(|tok| match tok {
    (TokenKind::LCURLYBRACES, _) => Ok((tok.clone(), pos + 1)),
    _ => Err(ParseError::UnexpectedToken(tok.clone())),
  })
}

#[allow(non_camel_case_types)]
#[allow(non_snake_case)]
#[allow(unused_parens)]
fn _parse_token_RCURLYBRACES(
  tokens: &Vec<Token>,
  pos: usize,
) -> Result<(Token, usize), ParseError>
{
  let token1 = tokens.get(pos);
  token1
  .ok_or(ParseError::Eof)
  .and_then(|tok| match tok {
    (TokenKind::RCURLYBRACES, _) => Ok((tok.clone(), pos + 1)),
    _ => Err(ParseError::UnexpectedToken(tok.clone())),
  })
}

#[allow(non_camel_case_types)]
#[allow(non_snake_case)]
#[allow(unused_parens)]
fn _parse_token_EQ(
  tokens: &Vec<Token>,
  pos: usize,
) -> Result<(Token, usize), ParseError>
{
  let token1 = tokens.get(pos);
  token1
  .ok_or(ParseError::Eof)
  .and_then(|tok| match tok {
    (TokenKind::EQ, _) => Ok((tok.clone(), pos + 1)),
    _ => Err(ParseError::UnexpectedToken(tok.clone())),
  })
}

#[allow(non_camel_case_types)]
#[allow(non_snake_case)]
#[allow(unused_parens)]
fn _parse_token_COMMA(
  tokens: &Vec<Token>,
  pos: usize,
) -> Result<(Token, usize), ParseError>
{
  let token1 = tokens.get(pos);
  token1
  .ok_or(ParseError::Eof)
  .and_then(|tok| match tok {
    (TokenKind::COMMA, _) => Ok((tok.clone(), pos + 1)),
    _ => Err(ParseError::UnexpectedToken(tok.clone())),
  })
}

#[allow(non_camel_case_types)]
#[allow(non_snake_case)]
#[allow(unused_parens)]
fn _parse_token_SEMICOLON(
  tokens: &Vec<Token>,
  pos: usize,
) -> Result<(Token, usize), ParseError>
{
  let token1 = tokens.get(pos);
  token1
  .ok_or(ParseError::Eof)
  .and_then(|tok| match tok {
    (TokenKind::SEMICOLON, _) => Ok((tok.clone(), pos + 1)),
    _ => Err(ParseError::UnexpectedToken(tok.clone())),
  })
}

#[allow(non_camel_case_types)]
#[allow(non_snake_case)]
#[allow(unused_parens)]
fn _parse_token_COLON(
  tokens: &Vec<Token>,
  pos: usize,
) -> Result<(Token, usize), ParseError>
{
  let token1 = tokens.get(pos);
  token1
  .ok_or(ParseError::Eof)
  .and_then(|tok| match tok {
    (TokenKind::COLON, _) => Ok((tok.clone(), pos + 1)),
    _ => Err(ParseError::UnexpectedToken(tok.clone())),
  })
}

#[allow(non_camel_case_types)]
#[allow(non_snake_case)]
#[allow(unused_parens)]
fn _parse_token_LBRACES(
  tokens: &Vec<Token>,
  pos: usize,
) -> Result<(Token, usize), ParseError>
{
  let token1 = tokens.get(pos);
  token1
  .ok_or(ParseError::Eof)
  .and_then(|tok| match tok {
    (TokenKind::LBRACES, _) => Ok((tok.clone(), pos + 1)),
    _ => Err(ParseError::UnexpectedToken(tok.clone())),
  })
}

#[allow(non_camel_case_types)]
#[allow(non_snake_case)]
#[allow(unused_parens)]
fn _parse_token_RBRACES(
  tokens: &Vec<Token>,
  pos: usize,
) -> Result<(Token, usize), ParseError>
{
  let token1 = tokens.get(pos);
  token1
  .ok_or(ParseError::Eof)
  .and_then(|tok| match tok {
    (TokenKind::RBRACES, _) => Ok((tok.clone(), pos + 1)),
    _ => Err(ParseError::UnexpectedToken(tok.clone())),
  })
}

#[allow(non_camel_case_types)]
#[allow(non_snake_case)]
#[allow(unused_parens)]
fn _parse_token_ARROW(
  tokens: &Vec<Token>,
  pos: usize,
) -> Result<(Token, usize), ParseError>
{
  let token1 = tokens.get(pos);
  token1
  .ok_or(ParseError::Eof)
  .and_then(|tok| match tok {
    (TokenKind::ARROW, _) => Ok((tok.clone(), pos + 1)),
    _ => Err(ParseError::UnexpectedToken(tok.clone())),
  })
}

#[allow(non_camel_case_types)]
#[allow(non_snake_case)]
#[allow(unused_parens)]
fn _parse_token_STR(
  tokens: &Vec<Token>,
  pos: usize,
) -> Result<(Token, usize), ParseError>
{
  let token1 = tokens.get(pos);
  token1
  .ok_or(ParseError::Eof)
  .and_then(|tok| match tok {
    (TokenKind::STR(_), _) => Ok((tok.clone(), pos + 1)),
    _ => Err(ParseError::UnexpectedToken(tok.clone())),
  })
}

"
}

fn small_description() -> &'static str {
    "\"use a::B;\"\ngrammar;\nextern { enum \"B\" { X => \"B::X\", Y => \"B::Y(_)\", } }\n// comment\npub s: \"u8\" = {\n  <x: X> <r: rest> => { \"1 + r\" };\n  => { \"0\" };\n};\nrest: \"u8\" = { <y: Y> => { \"2\" }; };\n"
}

#[test]
fn self_description_is_written_as_expected() {
    assert_eq!(to_string(get_ast(description()).unwrap()).unwrap(), expected());
}

#[test]
fn self_description_reads_itself_as_the_library_does() {
    let by_library = get_ast(description()).unwrap();
    let by_written = parse(lex(description()).unwrap()).unwrap();
    assert_eq!(format!("{:?}", by_written), format!("{:?}", by_library));
    assert_eq!(to_string(by_written).unwrap(), expected());
}

#[test]
fn self_description_reads_other_descriptions_as_the_library_does() {
    let by_library = get_ast(small_description()).unwrap();
    let by_written = parse(lex(small_description()).unwrap()).unwrap();
    assert_eq!(format!("{:?}", by_written), format!("{:?}", by_library));
    let least = "grammar; extern { enum \"T\" { } }";
    assert_eq!(
        format!("{:?}", parse(lex(least).unwrap()).unwrap()),
        format!("{:?}", get_ast(least).unwrap())
    );
}

#[test]
fn self_description_rejects_what_the_library_rejects() {
    let cases = vec![
        "",
        "grammar",
        "grammar; extern { enum T { } }",
        "grammar; extern { enum \"T\" { X => \"x\" } }",
        "grammar; extern { enum \"T\" { } } s: \"t\" = { <x: X> };",
        "grammar; extern { enum \"T\" { } } s: \"t\" = { => { \"1\" }; } }",
        "grammar; extern { enum \"T\" { } } pub pub",
    ];
    for text in cases {
        let tokens = lex(text).unwrap();
        let by_library = llmaker::frontend::parse::parse(tokens.clone());
        let by_written = parse(tokens);
        match (by_library, by_written) {
            (
                Err(llmaker::frontend::parse::ParseError::UnexpectedToken(a)),
                Err(ParseError::UnexpectedToken(b)),
            ) => assert_eq!(a, b),
            _ => panic!("the two parsers disagree"),
        }
    }
}
