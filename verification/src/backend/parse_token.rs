//! The token matchers of the generated parser: one procedure per declared
//! token, which accepts a token that matches the declared pattern.

use crate::types::{Range, Setting, TokenDecl, TypeStr, token_decl_of, token_decls_of};
use vstd::prelude::*;

verus! {

pub const MATCHER_OPEN: &'static str = "
#[allow(non_camel_case_types)]
#[allow(non_snake_case)]
#[allow(unused_parens)]
fn _parse_token_";

pub const MATCHER_TOKENS: &'static str = "(
  tokens: &Vec<";

pub const MATCHER_RESULT: &'static str = ">,
  pos: usize,
) -> Result<(";

pub const MATCHER_BODY: &'static str = ", usize), ParseError>
{
  let token1 = tokens.get(pos);
  token1
  .ok_or(ParseError::Eof)
  .and_then(|tok| match tok {
    ";

pub const MATCHER_CLOSE: &'static str = " => Ok((tok.clone(), pos + 1)),
    _ => Err(ParseError::UnexpectedToken(tok.clone())),
  })
}
";

/// The matcher of one token: it takes the token at the cursor if the
/// pattern matches it, and moves the cursor by one.
pub open spec fn matcher_text(token_type: Seq<char>, decl: TokenDecl) -> Seq<char> {
    MATCHER_OPEN@ + decl.name + MATCHER_TOKENS@ + token_type + MATCHER_RESULT@ + token_type
        + MATCHER_BODY@ + decl.pattern + MATCHER_CLOSE@
}

/// The matchers of all declared tokens, in the order of their declarations.
pub open spec fn matchers_text(token_type: Seq<char>, decls: Seq<TokenDecl>) -> Seq<char>
    decreases decls.len(),
{
    if decls.len() == 0 {
        Seq::empty()
    } else {
        matchers_text(token_type, decls.drop_last()) + matcher_text(token_type, decls.last())
    }
}

/// Renders the matcher of one token.
pub fn token_and_str_to_str(main_type_str: &String, token_and_str: &(Range, String, TypeStr)) -> (r:
    String)
    ensures
        r@ == matcher_text(main_type_str@, token_decl_of(*token_and_str)),
{
    let mut out = String::new();
    out.append(MATCHER_OPEN);
    out.append(token_and_str.1.as_str());
    out.append(MATCHER_TOKENS);
    out.append(main_type_str.as_str());
    out.append(MATCHER_RESULT);
    out.append(main_type_str.as_str());
    out.append(MATCHER_BODY);
    out.append(token_and_str.2.as_str());
    out.append(MATCHER_CLOSE);
    proof {
        assert(out@ =~= matcher_text(main_type_str@, token_decl_of(*token_and_str)));
    }
    out
}

/// Renders the matchers of the declared tokens, in order.
pub fn token_and_str_vec_to_str(
    main_type_str: &String,
    token_and_str_vec: &Vec<(Range, String, TypeStr)>,
) -> (r: String)
    ensures
        r@ == matchers_text(main_type_str@, token_decls_of(token_and_str_vec@)),
{
    let ghost decls = token_decls_of(token_and_str_vec@);
    let mut main_s = String::new();
    let mut i: usize = 0;
    while i < token_and_str_vec.len()
        invariant
            i <= token_and_str_vec@.len(),
            decls == token_decls_of(token_and_str_vec@),
            main_s@ == matchers_text(main_type_str@, decls.take(i as int)),
        decreases token_and_str_vec@.len() - i,
    {
        let s = token_and_str_to_str(main_type_str, &token_and_str_vec[i]);
        proof {
            assert(decls.take(i + 1).drop_last() =~= decls.take(i as int));
            assert(decls.take(i + 1).last() == token_decl_of(token_and_str_vec@[i as int]));
        }
        main_s.append(s.as_str());
        i += 1;
    }
    proof {
        assert(decls.take(i as int) =~= decls);
    }
    main_s
}

/// The text of the token matchers for a setting: one per declared token, in
/// the order of the declarations.
pub fn make_parse_token_fn_str(setting: Setting) -> (r: String)
    ensures
        r@ == matchers_text(setting.0@, token_decls_of(setting.1@)),
{
    token_and_str_vec_to_str(&setting.0, &setting.1)
}

} // verus!
