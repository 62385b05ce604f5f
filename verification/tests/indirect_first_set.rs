use llmaker::backend::to_string;
use llmaker::types::{Bnf, FnOrToken, Range, Term};

// The parser that the library writes for the grammar below, as it stands
// in `expected`: the tests run it.

#[derive(Debug, Clone, PartialEq)]
pub enum Tok {
  Num(i64),
  Other,
}
fn num_of(tok: Tok) -> i64 {
  match tok {
    Tok::Num(n) => n,
    _ => 0,
  }
}

#[derive(Debug, Clone)]
pub enum ParseError {
  UnexpectedToken(Tok),
  RedundantExpression(Tok),
  Eof,
}

#[allow(non_camel_case_types)]
#[allow(non_snake_case)]
#[allow(unused_parens)]
pub fn parse(tokens: Vec<Tok>) -> Result<i64, ParseError> {
  let (ret, pos) = _parse_fn_E(&tokens, 0)?;
  if pos == tokens.len() {
    Ok(ret)
  } else if pos > tokens.len() {
    Err(ParseError::Eof)
  } else {
    Err(ParseError::RedundantExpression(tokens[pos].clone()))
  }
}


#[allow(non_camel_case_types)]
#[allow(non_snake_case)]
#[allow(unused_parens)]
fn _parse_fn_E(
  tokens: &Vec<Tok>,
  pos: usize,
) -> Result<(i64, usize), ParseError>
{
  let mut _token_pos = pos;
  let token1 = tokens.get(pos);
  enum CodeType {
    Code0,
    Other
  }
  let code_type: Result<CodeType, ParseError> =
    match token1 {
      None => { Err(ParseError::Eof) }
      Some(tok) => match tok {
    Tok::Num(_) => Ok(CodeType::Code0),

      _ => {Ok(CodeType::Other)}
      },
    };
  let main =
  match code_type? {
    CodeType::Code0 => {
      let (t, pos) = _parse_fn_T(tokens, pos)?;

      _token_pos = pos;
t
        }
    _ => { return Err(ParseError::UnexpectedToken(tokens[pos].clone())) }
  };
  Ok((main, _token_pos))
}

#[allow(non_camel_case_types)]
#[allow(non_snake_case)]
#[allow(unused_parens)]
fn _parse_fn_T(
  tokens: &Vec<Tok>,
  pos: usize,
) -> Result<(i64, usize), ParseError>
{
  let mut _token_pos = pos;
  let token1 = tokens.get(pos);
  enum CodeType {
    Code0,
    Other
  }
  let code_type: Result<CodeType, ParseError> =
    match token1 {
      None => { Err(ParseError::Eof) }
      Some(tok) => match tok {
    Tok::Num(_) => Ok(CodeType::Code0),

      _ => {Ok(CodeType::Other)}
      },
    };
  let main =
  match code_type? {
    CodeType::Code0 => {
      let (a, pos) = _parse_fn_A(tokens, pos)?;

      _token_pos = pos;
a
        }
    _ => { return Err(ParseError::UnexpectedToken(tokens[pos].clone())) }
  };
  Ok((main, _token_pos))
}

#[allow(non_camel_case_types)]
#[allow(non_snake_case)]
#[allow(unused_parens)]
fn _parse_fn_A(
  tokens: &Vec<Tok>,
  pos: usize,
) -> Result<(i64, usize), ParseError>
{
  let mut _token_pos = pos;
  let token1 = tokens.get(pos);
  enum CodeType {
    Code0,
    Other
  }
  let code_type: Result<CodeType, ParseError> =
    match token1 {
      None => { Err(ParseError::Eof) }
      Some(tok) => match tok {
    Tok::Num(_) => Ok(CodeType::Code0),

      _ => {Ok(CodeType::Other)}
      },
    };
  let main =
  match code_type? {
    CodeType::Code0 => {
      let (n, pos) = _parse_token_Num(tokens, pos)?;

      _token_pos = pos;
num_of(n)
        }
    _ => { return Err(ParseError::UnexpectedToken(tokens[pos].clone())) }
  };
  Ok((main, _token_pos))
}



#[allow(non_camel_case_types)]
#[allow(non_snake_case)]
#[allow(unused_parens)]
fn _parse_token_Num(
  tokens: &Vec<Tok>,
  pos: usize,
) -> Result<(Tok, usize), ParseError>
{
  let token1 = tokens.get(pos);
  token1
  .ok_or(ParseError::Eof)
  .and_then(|tok| match tok {
    Tok::Num(_) => Ok((tok.clone(), pos + 1)),
    _ => Err(ParseError::UnexpectedToken(tok.clone())),
  })
}

fn grammar() -> Term {
    (
        vec![
            (Range::dummy(), "#[derive(Debug, Clone, PartialEq)]\npub enum Tok {\n  Num(i64),\n  Other,\n}".to_string()),
            (Range::dummy(), "fn num_of(tok: Tok) -> i64 {\n  match tok {\n    Tok::Num(n) => n,\n    _ => 0,\n  }\n}".to_string()),
        ],
        (
            "Tok".to_string(),
            vec![
                (Range::dummy(), "Num".to_string(), "Tok::Num(_)".to_string()),
            ],
        ),
        vec![
            Bnf::Pub(
                Range::dummy(),
                "E".to_string(),
                "i64".to_string(),
                vec![
                    (
                        vec![
                            ("t".to_string(), FnOrToken::Function("T".to_string())),
                        ],
                        "t".to_string(),
                    ),
                ],
            ),
            Bnf::NonPub(
                Range::dummy(),
                "T".to_string(),
                "i64".to_string(),
                vec![
                    (
                        vec![
                            ("a".to_string(), FnOrToken::Function("A".to_string())),
                        ],
                        "a".to_string(),
                    ),
                ],
            ),
            Bnf::NonPub(
                Range::dummy(),
                "A".to_string(),
                "i64".to_string(),
                vec![
                    (
                        vec![
                            ("n".to_string(), FnOrToken::Token("Num".to_string())),
                        ],
                        "num_of(n)".to_string(),
                    ),
                ],
            ),
        ],
    )
}

fn expected() -> &'static str {
    "#[derive(Debug, Clone, PartialEq)]
pub enum Tok {
  Num(i64),
  Other,
}
fn num_of(tok: Tok) -> i64 {
  match tok {
    Tok::Num(n) => n,
    _ => 0,
  }
}

#[derive(Debug, Clone)]
pub enum ParseError {
  UnexpectedToken(Tok),
  RedundantExpression(Tok),
  Eof,
}

#[allow(non_camel_case_types)]
#[allow(non_snake_case)]
#[allow(unused_parens)]
pub fn parse(tokens: Vec<Tok>) -> Result<i64, ParseError> {
  let (ret, pos) = _parse_fn_E(&tokens, 0)?;
  if pos == tokens.len() {
    Ok(ret)
  } else if pos > tokens.len() {
    Err(ParseError::Eof)
  } else {
    Err(ParseError::RedundantExpression(tokens[pos].clone()))
  }
}


#[allow(non_camel_case_types)]
#[allow(non_snake_case)]
#[allow(unused_parens)]
fn _parse_fn_E(
  tokens: &Vec<Tok>,
  pos: usize,
) -> Result<(i64, usize), ParseError>
{
  let mut _token_pos = pos;
  let token1 = tokens.get(pos);
  enum CodeType {
    Code0,
    Other
  }
  let code_type: Result<CodeType, ParseError> =
    match token1 {
      None => { Err(ParseError::Eof) }
      Some(tok) => match tok {
    Tok::Num(_) => Ok(CodeType::Code0),

      _ => {Ok(CodeType::Other)}
      },
    };
  let main =
  match code_type? {
    CodeType::Code0 => {
      let (t, pos) = _parse_fn_T(tokens, pos)?;

      _token_pos = pos;
t
        }
    _ => { return Err(ParseError::UnexpectedToken(tokens[pos].clone())) }
  };
  Ok((main, _token_pos))
}

#[allow(non_camel_case_types)]
#[allow(non_snake_case)]
#[allow(unused_parens)]
fn _parse_fn_T(
  tokens: &Vec<Tok>,
  pos: usize,
) -> Result<(i64, usize), ParseError>
{
  let mut _token_pos = pos;
  let token1 = tokens.get(pos);
  enum CodeType {
    Code0,
    Other
  }
  let code_type: Result<CodeType, ParseError> =
    match token1 {
      None => { Err(ParseError::Eof) }
      Some(tok) => match tok {
    Tok::Num(_) => Ok(CodeType::Code0),

      _ => {Ok(CodeType::Other)}
      },
    };
  let main =
  match code_type? {
    CodeType::Code0 => {
      let (a, pos) = _parse_fn_A(tokens, pos)?;

      _token_pos = pos;
a
        }
    _ => { return Err(ParseError::UnexpectedToken(tokens[pos].clone())) }
  };
  Ok((main, _token_pos))
}

#[allow(non_camel_case_types)]
#[allow(non_snake_case)]
#[allow(unused_parens)]
fn _parse_fn_A(
  tokens: &Vec<Tok>,
  pos: usize,
) -> Result<(i64, usize), ParseError>
{
  let mut _token_pos = pos;
  let token1 = tokens.get(pos);
  enum CodeType {
    Code0,
    Other
  }
  let code_type: Result<CodeType, ParseError> =
    match token1 {
      None => { Err(ParseError::Eof) }
      Some(tok) => match tok {
    Tok::Num(_) => Ok(CodeType::Code0),

      _ => {Ok(CodeType::Other)}
      },
    };
  let main =
  match code_type? {
    CodeType::Code0 => {
      let (n, pos) = _parse_token_Num(tokens, pos)?;

      _token_pos = pos;
num_of(n)
        }
    _ => { return Err(ParseError::UnexpectedToken(tokens[pos].clone())) }
  };
  Ok((main, _token_pos))
}



#[allow(non_camel_case_types)]
#[allow(non_snake_case)]
#[allow(unused_parens)]
fn _parse_token_Num(
  tokens: &Vec<Tok>,
  pos: usize,
) -> Result<(Tok, usize), ParseError>
{
  let token1 = tokens.get(pos);
  token1
  .ok_or(ParseError::Eof)
  .and_then(|tok| match tok {
    Tok::Num(_) => Ok((tok.clone(), pos + 1)),
    _ => Err(ParseError::UnexpectedToken(tok.clone())),
  })
}

"
}

#[test]
fn indirect_first_set_is_written_as_expected() {
    assert_eq!(to_string(grammar()).unwrap(), expected());
}

#[test]
fn indirect_first_set_reaches_the_token() {
    assert!(matches!(parse(vec![Tok::Num(5)]), Ok(5)));
}

#[test]
fn indirect_first_set_rejects_another_token() {
    assert!(matches!(parse(vec![Tok::Other]), Err(ParseError::UnexpectedToken(Tok::Other))));
    assert!(matches!(parse(vec![]), Err(ParseError::Eof)));
}
