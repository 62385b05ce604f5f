use llmaker::backend::to_string;
use llmaker::types::{Bnf, FnOrToken, Range, Term};

// The parser that the library writes for the grammar below, as it stands
// in `expected`: the tests run it.

#[derive(Debug, Clone, PartialEq)]
pub enum Tok {
  Num(i64),
  Str(String),
}
fn num_of(tok: Tok) -> i64 {
  match tok {
    Tok::Num(n) => n,
    _ => 0,
  }
}
fn parse_int(tok: Tok) -> i64 {
  match tok {
    Tok::Str(s) => s.parse().unwrap_or(0),
    _ => 0,
  }
}

#[derive(Debug, Clone)]
pub enum ParseError {
  UnexpectedToken(Tok),
  RedundantExpression(Tok),
  Eof,
}

#[allow(non_camel_case_types)]
#[allow(non_snake_case)]
#[allow(unused_parens)]
pub fn parse(tokens: Vec<Tok>) -> Result<i64, ParseError> {
  let (ret, pos) = _parse_fn_S(&tokens, 0)?;
  if pos == tokens.len() {
    Ok(ret)
  } else if pos > tokens.len() {
    Err(ParseError::Eof)
  } else {
    Err(ParseError::RedundantExpression(tokens[pos].clone()))
  }
}


#[allow(non_camel_case_types)]
#[allow(non_snake_case)]
#[allow(unused_parens)]
fn _parse_fn_S(
  tokens: &Vec<Tok>,
  pos: usize,
) -> Result<(i64, usize), ParseError>
{
  let mut _token_pos = pos;
  let token1 = tokens.get(pos);
  enum CodeType {
    Code0,Code1,
    Other
  }
  let code_type: Result<CodeType, ParseError> =
    match token1 {
      None => { Err(ParseError::Eof) }
      Some(tok) => match tok {
    Tok::Num(_) => Ok(CodeType::Code0),
Tok::Str(_) => Ok(CodeType::Code1),

      _ => {Ok(CodeType::Other)}
      },
    };
  let main =
  match code_type? {
    CodeType::Code0 => {
      let (n, pos) = _parse_token_Num(tokens, pos)?;

      _token_pos = pos;
num_of(n)
        }CodeType::Code1 => {
      let (s, pos) = _parse_token_Str(tokens, pos)?;

      _token_pos = pos;
parse_int(s)
        }
    _ => { return Err(ParseError::UnexpectedToken(tokens[pos].clone())) }
  };
  Ok((main, _token_pos))
}



#[allow(non_camel_case_types)]
#[allow(non_snake_case)]
#[allow(unused_parens)]
fn _parse_token_Num(
  tokens: &Vec<Tok>,
  pos: usize,
) -> Result<(Tok, usize), ParseError>
{
  let token1 = tokens.get(pos);
  token1
  .ok_or(ParseError::Eof)
  .and_then(|tok| match tok {
    Tok::Num(_) => Ok((tok.clone(), pos + 1)),
    _ => Err(ParseError::UnexpectedToken(tok.clone())),
  })
}

#[allow(non_camel_case_types)]
#[allow(non_snake_case)]
#[allow(unused_parens)]
fn _parse_token_Str(
  tokens: &Vec<Tok>,
  pos: usize,
) -> Result<(Tok, usize), ParseError>
{
  let token1 = tokens.get(pos);
  token1
  .ok_or(ParseError::Eof)
  .and_then(|tok| match tok {
    Tok::Str(_) => Ok((tok.clone(), pos + 1)),
    _ => Err(ParseError::UnexpectedToken(tok.clone())),
  })
}

fn grammar() -> Term {
    (
        vec![
            (Range::dummy(), "#[derive(Debug, Clone, PartialEq)]\npub enum Tok {\n  Num(i64),\n  Str(String),\n}".to_string()),
            (Range::dummy(), "fn num_of(tok: Tok) -> i64 {\n  match tok {\n    Tok::Num(n) => n,\n    _ => 0,\n  }\n}".to_string()),
            (Range::dummy(), "fn parse_int(tok: Tok) -> i64 {\n  match tok {\n    Tok::Str(s) => s.parse().unwrap_or(0),\n    _ => 0,\n  }\n}".to_string()),
        ],
        (
            "Tok".to_string(),
            vec![
                (Range::dummy(), "Num".to_string(), "Tok::Num(_)".to_string()),
                (Range::dummy(), "Str".to_string(), "Tok::Str(_)".to_string()),
            ],
        ),
        vec![
            Bnf::Pub(
                Range::dummy(),
                "S".to_string(),
                "i64".to_string(),
                vec![
                    (
                        vec![
                            ("n".to_string(), FnOrToken::Token("Num".to_string())),
                        ],
                        "num_of(n)".to_string(),
                    ),
                    (
                        vec![
                            ("s".to_string(), FnOrToken::Token("Str".to_string())),
                        ],
                        "parse_int(s)".to_string(),
                    ),
                ],
            ),
        ],
    )
}

fn expected() -> &'static str {
    "#[derive(Debug, Clone, PartialEq)]
pub enum Tok {
  Num(i64),
  Str(String),
}
fn num_of(tok: Tok) -> i64 {
  match tok {
    Tok::Num(n) => n,
    _ => 0,
  }
}
fn parse_int(tok: Tok) -> i64 {
  match tok {
    Tok::Str(s) => s.parse().unwrap_or(0),
    _ => 0,
  }
}

#[derive(Debug, Clone)]
pub enum ParseError {
  UnexpectedToken(Tok),
  RedundantExpression(Tok),
  Eof,
}

#[allow(non_camel_case_types)]
#[allow(non_snake_case)]
#[allow(unused_parens)]
pub fn parse(tokens: Vec<Tok>) -> Result<i64, ParseError> {
  let (ret, pos) = _parse_fn_S(&tokens, 0)?;
  if pos == tokens.len() {
    Ok(ret)
  } else if pos > tokens.len() {
    Err(ParseError::Eof)
  } else {
    Err(ParseError::RedundantExpression(tokens[pos].clone()))
  }
}


#[allow(non_camel_case_types)]
#[allow(non_snake_case)]
#[allow(unused_parens)]
fn _parse_fn_S(
  tokens: &Vec<Tok>,
  pos: usize,
) -> Result<(i64, usize), ParseError>
{
  let mut _token_pos = pos;
  let token1 = tokens.get(pos);
  enum CodeType {
    Code0,Code1,
    Other
  }
  let code_type: Result<CodeType, ParseError> =
    match token1 {
      None => { Err(ParseError::Eof) }
      Some(tok) => match tok {
    Tok::Num(_) => Ok(CodeType::Code0),
Tok::Str(_) => Ok(CodeType::Code1),

      _ => {Ok(CodeType::Other)}
      },
    };
  let main =
  match code_type? {
    CodeType::Code0 => {
      let (n, pos) = _parse_token_Num(tokens, pos)?;

      _token_pos = pos;
num_of(n)
        }CodeType::Code1 => {
      let (s, pos) = _parse_token_Str(tokens, pos)?;

      _token_pos = pos;
parse_int(s)
        }
    _ => { return Err(ParseError::UnexpectedToken(tokens[pos].clone())) }
  };
  Ok((main, _token_pos))
}



#[allow(non_camel_case_types)]
#[allow(non_snake_case)]
#[allow(unused_parens)]
fn _parse_token_Num(
  tokens: &Vec<Tok>,
  pos: usize,
) -> Result<(Tok, usize), ParseError>
{
  let token1 = tokens.get(pos);
  token1
  .ok_or(ParseError::Eof)
  .and_then(|tok| match tok {
    Tok::Num(_) => Ok((tok.clone(), pos + 1)),
    _ => Err(ParseError::UnexpectedToken(tok.clone())),
  })
}

#[allow(non_camel_case_types)]
#[allow(non_snake_case)]
#[allow(unused_parens)]
fn _parse_token_Str(
  tokens: &Vec<Tok>,
  pos: usize,
) -> Result<(Tok, usize), ParseError>
{
  let token1 = tokens.get(pos);
  token1
  .ok_or(ParseError::Eof)
  .and_then(|tok| match tok {
    Tok::Str(_) => Ok((tok.clone(), pos + 1)),
    _ => Err(ParseError::UnexpectedToken(tok.clone())),
  })
}

"
}

#[test]
fn two_token_choice_is_written_as_expected() {
    assert_eq!(to_string(grammar()).unwrap(), expected());
}

#[test]
fn two_token_choice_takes_a_number() {
    assert!(matches!(parse(vec![Tok::Num(7)]), Ok(7)));
}

#[test]
fn two_token_choice_takes_a_string() {
    assert!(matches!(parse(vec![Tok::Str("9".to_string())]), Ok(9)));
}

#[test]
fn two_token_choice_on_no_input_is_eof() {
    assert!(matches!(parse(vec![]), Err(ParseError::Eof)));
}

#[test]
fn two_token_choice_reports_what_is_left_over() {
    assert!(matches!(
        parse(vec![Tok::Num(7), Tok::Num(8)]),
        Err(ParseError::RedundantExpression(Tok::Num(8)))
    ));
}
