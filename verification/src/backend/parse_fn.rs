//! The nonterminal procedures of the generated parser, and its entry
//! procedure.
//!
//! A procedure looks at the token under the cursor, picks the alternative
//! that the token can start, runs the bindings of that alternative in order
//! and yields the value of its action. Where no alternative can start with
//! the token, or the input has ended, the null alternative is taken if there
//! is one.

use crate::backend::first_set::{
    entries_of, feeds, first_set, lemma_first_set_entries, make_first_set,
};
use crate::backend::grammar::{first_public, is_null, lemma_first_public, pattern_of, production_of};
use crate::backend::index::{GrammarIndex, find_pub};
use crate::backend::reach::resolution_fault;
use crate::error::{ConfigError, Error, Fault};
use crate::text::{decimal, push_decimal};
use crate::types::{
    Alternative, Bnf, Code, FnOrToken, Production, Setting, Symbol, TokenDecl, alternative_of,
    alternatives_of, bindings_of, productions_of, token_decls_of,
};
use vstd::prelude::*;

verus! {

pub const LET_OPEN: &'static str = "      let (";

pub const LET_FUNCTION: &'static str = ", pos) = _parse_fn_";

pub const LET_TOKEN: &'static str = ", pos) = _parse_token_";

pub const LET_CLOSE: &'static str = "(tokens, pos)?;\n";

pub const TAG_OPEN: &'static str = "Code";

pub const TAG_CLOSE: &'static str = ",";

pub const TAGS_OPEN: &'static str = "enum CodeType {
    ";

pub const TAGS_CLOSE: &'static str = "
    Other
  }";

pub const BODY_OPEN: &'static str = "CodeType::Code";

pub const BODY_LETS: &'static str = " => {
";

pub const BODY_ACTION: &'static str = "
      _token_pos = pos;
";

pub const BODY_CLOSE: &'static str = "
        }";

pub const ARM_MIDDLE: &'static str = " => Ok(CodeType::Code";

pub const ARM_CLOSE: &'static str = "),\n";

pub const AT_END_NULL: &'static str = "Ok(CodeType::Other)";

pub const AT_END_ERROR: &'static str = "Err(ParseError::Eof)";

pub const FALLBACK_ERROR: &'static str =
    "return Err(ParseError::UnexpectedToken(tokens[pos].clone()))";

pub const PROCEDURE_OPEN: &'static str = "
#[allow(non_camel_case_types)]
#[allow(non_snake_case)]
#[allow(unused_parens)]
fn _parse_fn_";

pub const PROCEDURE_TOKENS: &'static str = "(
  tokens: &Vec<";

pub const PROCEDURE_RESULT: &'static str = ">,
  pos: usize,
) -> Result<(";

pub const PROCEDURE_ENTER: &'static str = ", usize), ParseError>
{
  let mut _token_pos = pos;
  let token1 = tokens.get(pos);
  ";

pub const PROCEDURE_AT_END: &'static str = "
  let code_type: Result<CodeType, ParseError> =
    match token1 {
      None => { ";

pub const PROCEDURE_ARMS: &'static str = " }
      Some(tok) => match tok {
    ";

pub const PROCEDURE_BODIES: &'static str = "
      _ => {Ok(CodeType::Other)}
      },
    };
  let main =
  match code_type? {
    ";

pub const PROCEDURE_FALLBACK: &'static str = "
    _ => { ";

pub const PROCEDURE_CLOSE: &'static str = " }
  };
  Ok((main, _token_pos))
}
";

pub const ENTRY_OPEN: &'static str = "#[allow(non_camel_case_types)]
#[allow(non_snake_case)]
#[allow(unused_parens)]
pub fn parse(tokens: Vec<";

pub const ENTRY_RESULT: &'static str = ">) -> Result<";

pub const ENTRY_CALL: &'static str = ", ParseError> {
  let (ret, pos) = _parse_fn_";

pub const ENTRY_CLOSE: &'static str = "(&tokens, 0)?;
  if pos == tokens.len() {
    Ok(ret)
  } else if pos > tokens.len() {
    Err(ParseError::Eof)
  } else {
    Err(ParseError::RedundantExpression(tokens[pos].clone()))
  }
}
";

pub const LINE_END: &'static str = "\n";

/// The call that one binding stands for: the procedure of a nonterminal or
/// the matcher of a token, with the result bound to the local name and the
/// cursor threaded through.
pub open spec fn let_text(binding: (Seq<char>, Symbol)) -> Seq<char> {
    match binding.1 {
        Symbol::Nonterminal(name) => LET_OPEN@ + binding.0 + LET_FUNCTION@ + name + LET_CLOSE@,
        Symbol::Token(name) => LET_OPEN@ + binding.0 + LET_TOKEN@ + name + LET_CLOSE@,
    }
}

/// The calls of the bindings of an alternative, in order.
pub open spec fn lets_text(bindings: Seq<(Seq<char>, Symbol)>) -> Seq<char>
    decreases bindings.len(),
{
    if bindings.len() == 0 {
        Seq::empty()
    } else {
        lets_text(bindings.drop_last()) + let_text(bindings.last())
    }
}

/// The number of alternatives that are not null. The tag of an alternative
/// is the number of such alternatives before it.
pub open spec fn count_tags(alts: Seq<Alternative>) -> nat
    decreases alts.len(),
{
    if alts.len() == 0 {
        0
    } else if is_null(alts.last()) {
        count_tags(alts.drop_last())
    } else {
        count_tags(alts.drop_last()) + 1
    }
}

/// The tag of the alternative at position `i`: the number of alternatives
/// before it that are not null.
pub open spec fn tag_of(alts: Seq<Alternative>, i: int) -> nat {
    count_tags(alts.take(i))
}

/// The tags of the alternatives that are not null, in document order.
pub open spec fn tags_text(alts: Seq<Alternative>) -> Seq<char>
    decreases alts.len(),
{
    if alts.len() == 0 {
        Seq::empty()
    } else if is_null(alts.last()) {
        tags_text(alts.drop_last())
    } else {
        tags_text(alts.drop_last()) + TAG_OPEN@ + decimal(count_tags(alts.drop_last()))
            + TAG_CLOSE@
    }
}

/// The tag enumeration: one tag for each alternative that is not null, and
/// one for the case that no alternative can start with the token.
pub open spec fn code_type_text(alts: Seq<Alternative>) -> Seq<char> {
    TAGS_OPEN@ + tags_text(alts) + TAGS_CLOSE@
}

/// The body of one alternative that is not null, under the tag `tag`.
pub open spec fn body_text(alt: Alternative, tag: nat) -> Seq<char> {
    BODY_OPEN@ + decimal(tag) + BODY_LETS@ + lets_text(alt.bindings) + BODY_ACTION@ + alt.action
        + BODY_CLOSE@
}

/// The bodies of the alternatives that are not null, in document order.
pub open spec fn bodies_text(alts: Seq<Alternative>) -> Seq<char>
    decreases alts.len(),
{
    if alts.len() == 0 {
        Seq::empty()
    } else if is_null(alts.last()) {
        bodies_text(alts.drop_last())
    } else {
        bodies_text(alts.drop_last()) + body_text(alts.last(), count_tags(alts.drop_last()))
    }
}

/// The action of the null alternative; of several, that of the last.
pub open spec fn null_action(alts: Seq<Alternative>) -> Option<Seq<char>>
    decreases alts.len(),
{
    if alts.len() == 0 {
        None
    } else if is_null(alts.last()) {
        Some(alts.last().action)
    } else {
        null_action(alts.drop_last())
    }
}

/// Renders the calls of the bindings of one alternative, in order.
pub fn make_let_code(fn_or_token_lst: &Vec<(String, FnOrToken)>) -> (r: String)
    ensures
        r@ == lets_text(bindings_of(fn_or_token_lst@)),
{
    let ghost bindings = bindings_of(fn_or_token_lst@);
    let mut main_s = String::new();
    let mut i: usize = 0;
    while i < fn_or_token_lst.len()
        invariant
            i <= fn_or_token_lst@.len(),
            bindings == bindings_of(fn_or_token_lst@),
            main_s@ == lets_text(bindings.take(i as int)),
        decreases fn_or_token_lst@.len() - i,
    {
        let ghost before = main_s@;
        proof {
            assert(bindings.take(i + 1).drop_last() =~= bindings.take(i as int));
            assert(bindings.take(i + 1).last() == (
                fn_or_token_lst@[i as int].0@,
                fn_or_token_lst@[i as int].1@,
            ));
        }
        main_s.append(LET_OPEN);
        main_s.append(fn_or_token_lst[i].0.as_str());
        match &fn_or_token_lst[i].1 {
            FnOrToken::Function(fn_name) => {
                main_s.append(LET_FUNCTION);
                main_s.append(fn_name.as_str());
            },
            FnOrToken::Token(tok_name) => {
                main_s.append(LET_TOKEN);
                main_s.append(tok_name.as_str());
            },
        }
        main_s.append(LET_CLOSE);
        proof {
            assert(main_s@ =~= before + let_text(bindings[i as int]));
        }
        i += 1;
    }
    proof {
        assert(bindings.take(i as int) =~= bindings);
    }
    main_s
}

/// Renders the tag enumeration of a nonterminal.
pub fn make_code_type_str(code_lst: &Vec<Code>) -> (r: String)
    ensures
        r@ == code_type_text(alternatives_of(code_lst@)),
{
    let ghost alts = alternatives_of(code_lst@);
    let mut toknum_str = String::new();
    toknum_str.append(TAGS_OPEN);
    let mut toknum: usize = 0;
    let mut i: usize = 0;
    while i < code_lst.len()
        invariant
            i <= code_lst@.len(),
            alts == alternatives_of(code_lst@),
            toknum == count_tags(alts.take(i as int)),
            toknum <= i,
            toknum_str@ == TAGS_OPEN@ + tags_text(alts.take(i as int)),
        decreases code_lst@.len() - i,
    {
        let ghost before = toknum_str@;
        proof {
            assert(alts.take(i + 1).drop_last() =~= alts.take(i as int));
            assert(alts.take(i + 1).last() == alternative_of(code_lst@[i as int]));
        }
        if code_lst[i].0.len() != 0 {
            toknum_str.append(TAG_OPEN);
            push_decimal(&mut toknum_str, toknum);
            toknum_str.append(TAG_CLOSE);
            proof {
                assert(toknum_str@ =~= TAGS_OPEN@ + tags_text(alts.take(i + 1)));
            }
            toknum = toknum + 1;
        }
        i += 1;
    }
    proof {
        assert(alts.take(i as int) =~= alts);
    }
    toknum_str.append(TAGS_CLOSE);
    toknum_str
}

/// Renders the bodies of the alternatives that are not null. Where there is
/// a null alternative the result is an `Err`, which holds the bodies and
/// the action of the null alternative.
pub fn make_main_code_str(code_lst: &Vec<Code>) -> (r: Result<String, (String, String)>)
    ensures
        match r {
            Ok(code) => {
                &&& null_action(alternatives_of(code_lst@)) is None
                &&& code@ == bodies_text(alternatives_of(code_lst@))
            },
            Err((code, null_code)) => {
                &&& null_action(alternatives_of(code_lst@)) == Some(null_code@)
                &&& code@ == bodies_text(alternatives_of(code_lst@))
            },
        },
{
    let ghost alts = alternatives_of(code_lst@);
    let mut null_code_opt: Option<String> = None;
    let mut code_str = String::new();
    let mut toknum: usize = 0;
    let mut i: usize = 0;
    while i < code_lst.len()
        invariant
            i <= code_lst@.len(),
            alts == alternatives_of(code_lst@),
            toknum == count_tags(alts.take(i as int)),
            toknum <= i,
            code_str@ == bodies_text(alts.take(i as int)),
            match null_code_opt {
                Some(null_code) => null_action(alts.take(i as int)) == Some(null_code@),
                None => null_action(alts.take(i as int)) is None,
            },
        decreases code_lst@.len() - i,
    {
        let ghost before = code_str@;
        proof {
            assert(alts.take(i + 1).drop_last() =~= alts.take(i as int));
            assert(alts.take(i + 1).last() == alternative_of(code_lst@[i as int]));
        }
        if code_lst[i].0.len() == 0 {
            null_code_opt = Some(code_lst[i].1.clone());
        } else {
            let let_code = make_let_code(&code_lst[i].0);
            code_str.append(BODY_OPEN);
            push_decimal(&mut code_str, toknum);
            code_str.append(BODY_LETS);
            code_str.append(let_code.as_str());
            code_str.append(BODY_ACTION);
            code_str.append(code_lst[i].1.as_str());
            code_str.append(BODY_CLOSE);
            proof {
                assert(code_str@ =~= before + body_text(alts[i as int], toknum as nat));
            }
            toknum = toknum + 1;
        }
        i += 1;
    }
    proof {
        assert(alts.take(i as int) =~= alts);
    }
    match null_code_opt {
        None => Ok(code_str),
        Some(null_code) => Err((code_str, null_code)),
    }
}

/// A text followed by what comes after it, unless that fails.
pub open spec fn prepend(
    text: Seq<char>,
    rest: Result<Seq<char>, Fault>,
) -> Result<Seq<char>, Fault> {
    match rest {
        Ok(t) => Ok(text + t),
        Err(f) => Err(f),
    }
}

/// Whether a rendering is what the grammar calls for: the expected text, or
/// an error that reports the expected fault.
pub open spec fn renders(r: Result<String, Error>, expected: Result<Seq<char>, Fault>) -> bool {
    match r {
        Ok(s) => expected == Ok::<Seq<char>, Fault>(s@),
        Err(e) => e.fault() is Some && expected == Err::<Seq<char>, Fault>(e.fault().unwrap()),
    }
}

/// The dispatch arm of one entry of the first set: if the token under the
/// cursor matches the pattern of the entry's token, the tag of the first
/// alternative, in document order, that the token can start.
pub open spec fn arm_text(
    tokens: Seq<TokenDecl>,
    alts: Seq<Alternative>,
    entry: (Symbol, Seq<int>),
) -> Result<Seq<char>, Fault> {
    match entry.0 {
        Symbol::Token(name) => match pattern_of(tokens, name) {
            Some(pattern) => Ok(
                pattern + ARM_MIDDLE@ + decimal(tag_of(alts, entry.1[0])) + ARM_CLOSE@,
            ),
            None => Err(Fault::UnknownToken(name)),
        },
        Symbol::Nonterminal(_) => Ok(Seq::empty()),
    }
}

/// The dispatch arms of the entries from position `from` on, in order. The
/// first entry whose token is not declared is reported.
pub open spec fn arms_from(
    tokens: Seq<TokenDecl>,
    alts: Seq<Alternative>,
    entries: Seq<(Symbol, Seq<int>)>,
    from: int,
) -> Result<Seq<char>, Fault>
    decreases entries.len() - from,
{
    if from < 0 || from >= entries.len() {
        Ok(Seq::empty())
    } else {
        match arm_text(tokens, alts, entries[from]) {
            Err(f) => Err(f),
            Ok(arm) => prepend(arm, arms_from(tokens, alts, entries, from + 1)),
        }
    }
}

/// The lookahead map of a nonterminal with the alternatives `alts`: one
/// dispatch arm for each token of its first set, in the order of the tokens.
pub open spec fn dispatch_text(
    tokens: Seq<TokenDecl>,
    prods: Seq<Production>,
    alts: Seq<Alternative>,
) -> Result<Seq<char>, Fault> {
    match resolution_fault(prods, alts, 0) {
        Some(f) => Err(f),
        None => arms_from(tokens, alts, first_set(prods, alts), 0),
    }
}

/// The fault of a reference to a name that is not declared.
pub open spec fn symbol_fault(tokens: Seq<TokenDecl>, prods: Seq<Production>, s: Symbol) -> Option<
    Fault,
> {
    match s {
        Symbol::Token(name) => if pattern_of(tokens, name) is None {
            Some(Fault::UnknownToken(name))
        } else {
            None
        },
        Symbol::Nonterminal(name) => if production_of(prods, name) is None {
            Some(Fault::UnknownNonterminal(name))
        } else {
            None
        },
    }
}

/// The first fault among the bindings from position `from` on.
pub open spec fn bindings_fault(
    tokens: Seq<TokenDecl>,
    prods: Seq<Production>,
    bindings: Seq<(Seq<char>, Symbol)>,
    from: int,
) -> Option<Fault>
    decreases bindings.len() - from,
{
    if from < 0 || from >= bindings.len() {
        None
    } else {
        match symbol_fault(tokens, prods, bindings[from].1) {
            Some(f) => Some(f),
            None => bindings_fault(tokens, prods, bindings, from + 1),
        }
    }
}

/// The first fault among the bindings of the alternatives from position
/// `from` on, in document order.
pub open spec fn references_fault(
    tokens: Seq<TokenDecl>,
    prods: Seq<Production>,
    alts: Seq<Alternative>,
    from: int,
) -> Option<Fault>
    decreases alts.len() - from,
{
    if from < 0 || from >= alts.len() {
        None
    } else {
        match bindings_fault(tokens, prods, alts[from].bindings, 0) {
            Some(f) => Some(f),
            None => references_fault(tokens, prods, alts, from + 1),
        }
    }
}

/// What the procedure does where the input has ended: the null alternative
/// if there is one, else an error.
pub open spec fn at_end_text(alts: Seq<Alternative>) -> Seq<char> {
    if null_action(alts) is Some {
        AT_END_NULL@
    } else {
        AT_END_ERROR@
    }
}

/// What the procedure does where no alternative can start with the token
/// under the cursor: the action of the null alternative if there is one,
/// else an error that reports that token.
pub open spec fn fallback_text(alts: Seq<Alternative>) -> Seq<char> {
    match null_action(alts) {
        Some(action) => action,
        None => FALLBACK_ERROR@,
    }
}

/// The procedure of a nonterminal, around its dispatch arms.
pub open spec fn procedure_text(
    token_type: Seq<char>,
    p: Production,
    arms: Seq<char>,
) -> Seq<char> {
    PROCEDURE_OPEN@ + p.name + PROCEDURE_TOKENS@ + token_type + PROCEDURE_RESULT@ + p.result_type
        + PROCEDURE_ENTER@ + code_type_text(p.alternatives) + PROCEDURE_AT_END@ + at_end_text(
        p.alternatives,
    ) + PROCEDURE_ARMS@ + arms + PROCEDURE_BODIES@ + bodies_text(p.alternatives)
        + PROCEDURE_FALLBACK@ + fallback_text(p.alternatives) + PROCEDURE_CLOSE@
}

/// The procedure of the nonterminal `name`, or the first fault that making
/// it meets: in resolving the first sets of its alternatives, then in the
/// patterns of the tokens of its first set, then in its bindings.
pub open spec fn procedure(
    token_type: Seq<char>,
    tokens: Seq<TokenDecl>,
    prods: Seq<Production>,
    name: Seq<char>,
) -> Result<Seq<char>, Fault> {
    match production_of(prods, name) {
        None => Err(Fault::UnknownNonterminal(name)),
        Some(p) => match dispatch_text(tokens, prods, p.alternatives) {
            Err(f) => Err(f),
            Ok(arms) => match references_fault(tokens, prods, p.alternatives, 0) {
                Some(f) => Err(f),
                None => Ok(procedure_text(token_type, p, arms)),
            },
        },
    }
}

/// The procedures of the productions from position `from` on, in document
/// order, or the first fault.
pub open spec fn procedures_from(
    token_type: Seq<char>,
    tokens: Seq<TokenDecl>,
    prods: Seq<Production>,
    from: int,
) -> Result<Seq<char>, Fault>
    decreases prods.len() - from,
{
    if from < 0 || from >= prods.len() {
        Ok(Seq::empty())
    } else {
        match procedure(token_type, tokens, prods, prods[from].name) {
            Err(f) => Err(f),
            Ok(text) => prepend(text, procedures_from(token_type, tokens, prods, from + 1)),
        }
    }
}

/// The entry procedure: it parses the entry symbol from the start of the
/// input and accepts if the whole input was consumed.
pub open spec fn entry_text(token_type: Seq<char>, entry: Production) -> Seq<char> {
    ENTRY_OPEN@ + token_type + ENTRY_RESULT@ + entry.result_type + ENTRY_CALL@ + entry.name
        + ENTRY_CLOSE@
}

/// The entry procedure of the grammar, or the fault that it has no entry
/// symbol.
pub open spec fn entry_procedure(token_type: Seq<char>, prods: Seq<Production>) -> Result<
    Seq<char>,
    Fault,
> {
    match first_public(prods) {
        Some(i) => Ok(entry_text(token_type, prods[i])),
        None => Err(Fault::MissingEntrySymbol),
    }
}

/// The entry procedure and the procedures of all productions.
pub open spec fn parser_text(
    token_type: Seq<char>,
    tokens: Seq<TokenDecl>,
    prods: Seq<Production>,
) -> Result<Seq<char>, Fault> {
    match entry_procedure(token_type, prods) {
        Err(f) => Err(f),
        Ok(entry) => match procedures_from(token_type, tokens, prods, 0) {
            Err(f) => Err(f),
            Ok(procedures) => Ok(entry + LINE_END@ + procedures + LINE_END@),
        },
    }
}

/// The tag of every alternative: for each position, the number of
/// alternatives before it that are not null.
pub fn make_tags(code_lst: &Vec<Code>) -> (r: Vec<usize>)
    ensures
        r@.len() == code_lst@.len(),
        forall|i: int|
            0 <= i < code_lst@.len() ==> #[trigger] r@[i] == tag_of(alternatives_of(code_lst@), i),
{
    let ghost alts = alternatives_of(code_lst@);
    let mut tags: Vec<usize> = Vec::new();
    let mut toknum: usize = 0;
    let mut i: usize = 0;
    while i < code_lst.len()
        invariant
            i <= code_lst@.len(),
            alts == alternatives_of(code_lst@),
            tags@.len() == i,
            toknum == count_tags(alts.take(i as int)),
            toknum <= i,
            forall|m: int| 0 <= m < i ==> #[trigger] tags@[m] == tag_of(alts, m),
        decreases code_lst@.len() - i,
    {
        proof {
            assert(alts.take(i + 1).drop_last() =~= alts.take(i as int));
            assert(alts.take(i + 1).last() == alternative_of(code_lst@[i as int]));
        }
        tags.push(toknum);
        if code_lst[i].0.len() != 0 {
            toknum = toknum + 1;
        }
        i += 1;
    }
    tags
}

/// Renders the lookahead map of a nonterminal: for each token of its first
/// set, in the order of the tokens, an arm that yields the tag of the first
/// alternative, in document order, that the token can start.
///
/// Fails if resolving the first set reaches an undefined nonterminal, or if
/// a token of the first set is not declared.
pub fn make_nexttoken_to_code_type(
    code_lst: &Vec<Code>,
    setting: &Setting,
    index: &GrammarIndex,
    bnfs: &Vec<Bnf>,
) -> (r: Result<String, Error>)
    requires
        index.indexes(token_decls_of(setting.1@), productions_of(bnfs@)),
    ensures
        renders(
            r,
            dispatch_text(
                token_decls_of(setting.1@),
                productions_of(bnfs@),
                alternatives_of(code_lst@),
            ),
        ),
{
    let ghost tokens = token_decls_of(setting.1@);
    let ghost prods = productions_of(bnfs@);
    let ghost alts = alternatives_of(code_lst@);
    let tok_vec = match make_first_set(code_lst, index, bnfs) {
        Ok(v) => v,
        Err(e) => {
            return Err(e);
        },
    };
    let ghost entries = entries_of(tok_vec@);
    let tags = make_tags(code_lst);
    let mut toknum_str = String::new();
    let mut k: usize = 0;
    proof {
        assert(Seq::<char>::empty() + arms_from(tokens, alts, entries, 0)->Ok_0 =~= arms_from(
            tokens,
            alts,
            entries,
            0,
        )->Ok_0);
        assert forall|n: int| 0 <= n < tok_vec@.len() implies (#[trigger] entries[n]).1.len() > 0
            && 0 <= entries[n].1[0] < code_lst@.len() by {
            lemma_first_set_entries(prods, alts, n);
        }
    }
    while k < tok_vec.len()
        invariant
            k <= tok_vec@.len(),
            resolution_fault(prods, alts, 0) is None,
            index.indexes(token_decls_of(setting.1@), productions_of(bnfs@)),
            tokens == token_decls_of(setting.1@),
            prods == productions_of(bnfs@),
            alts == alternatives_of(code_lst@),
            entries == entries_of(tok_vec@),
            entries == first_set(prods, alts),
            forall|n: int| 0 <= n < tok_vec@.len() ==> (#[trigger] entries[n]).0 is Token,
            forall|n: int|
                0 <= n < tok_vec@.len() ==> (#[trigger] entries[n]).1.len() > 0 && 0
                    <= entries[n].1[0] < code_lst@.len(),
            tags@.len() == code_lst@.len(),
            forall|i: int| 0 <= i < code_lst@.len() ==> #[trigger] tags@[i] == tag_of(alts, i),
            arms_from(tokens, alts, entries, 0) == prepend(
                toknum_str@,
                arms_from(tokens, alts, entries, k as int),
            ),
        decreases tok_vec@.len() - k,
    {
        let ghost before = toknum_str@;
        proof {
            assert(entries[k as int] == (
                tok_vec@[k as int].0@,
                crate::backend::first_set::positions_of(tok_vec@[k as int].1@),
            ));
            assert(entries[k as int].0 is Token);
            assert(entries[k as int].1.len() > 0);
        }
        match &tok_vec[k].0 {
            FnOrToken::Token(tokname) => {
                match index.token_type_of(setting, tokname.as_str()) {
                    Some(pattern) => {
                        let first: usize = tok_vec[k].1[0];
                        toknum_str.append(pattern.as_str());
                        toknum_str.append(ARM_MIDDLE);
                        push_decimal(&mut toknum_str, tags[first]);
                        toknum_str.append(ARM_CLOSE);
                        proof {
                            let arm = arm_text(tokens, alts, entries[k as int])->Ok_0;
                            assert(toknum_str@ =~= before + arm);
                            let rest = arms_from(tokens, alts, entries, k + 1);
                            if rest is Ok {
                                assert(before + (arm + rest->Ok_0) =~= (before + arm) + rest->Ok_0);
                            }
                        }
                    },
                    None => {
                        return Err(
                            Error::ConfigError(ConfigError::NotFoundTokenTypeStr(tokname.clone())),
                        );
                    },
                }
            },
            FnOrToken::Function(_) => {},
        }
        k += 1;
    }
    proof {
        assert(toknum_str@ + Seq::<char>::empty() =~= toknum_str@);
    }
    Ok(toknum_str)
}

/// Checks that every binding refers to a declared token or to a defined
/// nonterminal. The first binding that does not is reported.
pub fn check_bindings(
    fn_or_token_lst: &Vec<(String, FnOrToken)>,
    setting: &Setting,
    index: &GrammarIndex,
    bnfs: &Vec<Bnf>,
) -> (r: Result<(), Error>)
    requires
        index.indexes(token_decls_of(setting.1@), productions_of(bnfs@)),
    ensures
        match r {
            Ok(_) => bindings_fault(
                token_decls_of(setting.1@),
                productions_of(bnfs@),
                bindings_of(fn_or_token_lst@),
                0,
            ) is None,
            Err(e) => e.fault() is Some && e.fault() == bindings_fault(
                token_decls_of(setting.1@),
                productions_of(bnfs@),
                bindings_of(fn_or_token_lst@),
                0,
            ),
        },
{
    let ghost tokens = token_decls_of(setting.1@);
    let ghost prods = productions_of(bnfs@);
    let ghost bindings = bindings_of(fn_or_token_lst@);
    let mut j: usize = 0;
    while j < fn_or_token_lst.len()
        invariant
            j <= fn_or_token_lst@.len(),
            index.indexes(token_decls_of(setting.1@), productions_of(bnfs@)),
            tokens == token_decls_of(setting.1@),
            prods == productions_of(bnfs@),
            bindings == bindings_of(fn_or_token_lst@),
            bindings_fault(tokens, prods, bindings, 0) == bindings_fault(
                tokens,
                prods,
                bindings,
                j as int,
            ),
        decreases fn_or_token_lst@.len() - j,
    {
        proof {
            assert(bindings[j as int].1 == fn_or_token_lst@[j as int].1@);
        }
        match &fn_or_token_lst[j].1 {
            FnOrToken::Token(name) => {
                if index.token_type_of(setting, name.as_str()).is_none() {
                    return Err(Error::ConfigError(ConfigError::NotFoundTokenTypeStr(name.clone())));
                }
            },
            FnOrToken::Function(name) => {
                if index.production_of(bnfs, name.as_str()).is_none() {
                    return Err(Error::ConfigError(ConfigError::NotFoundFunctionName(name.clone())));
                }
            },
        }
        j += 1;
    }
    Ok(())
}

/// Checks that every binding of every alternative refers to a declared
/// token or to a defined nonterminal. The first binding, in document order,
/// that does not is reported.
pub fn check_references(
    code_lst: &Vec<Code>,
    setting: &Setting,
    index: &GrammarIndex,
    bnfs: &Vec<Bnf>,
) -> (r: Result<(), Error>)
    requires
        index.indexes(token_decls_of(setting.1@), productions_of(bnfs@)),
    ensures
        match r {
            Ok(_) => references_fault(
                token_decls_of(setting.1@),
                productions_of(bnfs@),
                alternatives_of(code_lst@),
                0,
            ) is None,
            Err(e) => e.fault() is Some && e.fault() == references_fault(
                token_decls_of(setting.1@),
                productions_of(bnfs@),
                alternatives_of(code_lst@),
                0,
            ),
        },
{
    let ghost tokens = token_decls_of(setting.1@);
    let ghost prods = productions_of(bnfs@);
    let ghost alts = alternatives_of(code_lst@);
    let mut i: usize = 0;
    while i < code_lst.len()
        invariant
            i <= code_lst@.len(),
            index.indexes(token_decls_of(setting.1@), productions_of(bnfs@)),
            tokens == token_decls_of(setting.1@),
            prods == productions_of(bnfs@),
            alts == alternatives_of(code_lst@),
            references_fault(tokens, prods, alts, 0) == references_fault(
                tokens,
                prods,
                alts,
                i as int,
            ),
        decreases code_lst@.len() - i,
    {
        proof {
            assert(alts[i as int].bindings == bindings_of(code_lst@[i as int].0@));
        }
        match check_bindings(&code_lst[i].0, setting, index, bnfs) {
            Ok(_) => {},
            Err(e) => {
                return Err(e);
            },
        }
        i += 1;
    }
    Ok(())
}

/// Renders the procedure of the nonterminal `name`: the tag enumeration,
/// the lookahead map, the bodies of the alternatives and the fallback.
/// Where a name is defined twice, the later definition is rendered.
///
/// Fails if the nonterminal is not defined, if resolving the first sets of
/// its alternatives reaches an undefined nonterminal, if a token of its
/// first set is not declared, or if one of its bindings refers to a name
/// that is not declared; the first of these, in this order, is reported.
pub fn make_parse_fn(name: &str, setting: &Setting, index: &GrammarIndex, bnfs: &Vec<Bnf>) -> (r:
    Result<String, Error>)
    requires
        index.indexes(token_decls_of(setting.1@), productions_of(bnfs@)),
    ensures
        renders(
            r,
            procedure(setting.0@, token_decls_of(setting.1@), productions_of(bnfs@), name@),
        ),
{
    let bnf = match index.production_of(bnfs, name) {
        Some(bnf) => bnf,
        None => {
            return Err(
                Error::ConfigError(ConfigError::NotFoundFunctionName(String::from_str(name))),
            );
        },
    };
    let code_lst = bnf.codes();
    let code_type = make_code_type_str(code_lst);
    let nexttoken_to_code_type = match make_nexttoken_to_code_type(code_lst, setting, index, bnfs) {
        Ok(text) => text,
        Err(e) => {
            return Err(e);
        },
    };
    match check_references(code_lst, setting, index, bnfs) {
        Ok(_) => {},
        Err(e) => {
            return Err(e);
        },
    }
    let mut out = String::new();
    out.append(PROCEDURE_OPEN);
    out.append(bnf.name().as_str());
    out.append(PROCEDURE_TOKENS);
    out.append(setting.0.as_str());
    out.append(PROCEDURE_RESULT);
    out.append(bnf.result_type().as_str());
    out.append(PROCEDURE_ENTER);
    out.append(code_type.as_str());
    out.append(PROCEDURE_AT_END);
    match make_main_code_str(code_lst) {
        Ok(main_code) => {
            out.append(AT_END_ERROR);
            out.append(PROCEDURE_ARMS);
            out.append(nexttoken_to_code_type.as_str());
            out.append(PROCEDURE_BODIES);
            out.append(main_code.as_str());
            out.append(PROCEDURE_FALLBACK);
            out.append(FALLBACK_ERROR);
        },
        Err((main_code, null_code)) => {
            out.append(AT_END_NULL);
            out.append(PROCEDURE_ARMS);
            out.append(nexttoken_to_code_type.as_str());
            out.append(PROCEDURE_BODIES);
            out.append(main_code.as_str());
            out.append(PROCEDURE_FALLBACK);
            out.append(null_code.as_str());
        },
    }
    out.append(PROCEDURE_CLOSE);
    proof {
        assert(out@ =~= procedure_text(setting.0@, bnf@, nexttoken_to_code_type@));
    }
    Ok(out)
}

/// Renders the procedures of all productions, in document order.
///
/// Fails with the first fault that rendering a procedure meets.
pub fn make_parse_fn_str(setting: &Setting, index: &GrammarIndex, bnfs: &Vec<Bnf>) -> (r: Result<
    String,
    Error,
>)
    requires
        index.indexes(token_decls_of(setting.1@), productions_of(bnfs@)),
    ensures
        renders(
            r,
            procedures_from(setting.0@, token_decls_of(setting.1@), productions_of(bnfs@), 0),
        ),
{
    let ghost tokens = token_decls_of(setting.1@);
    let ghost prods = productions_of(bnfs@);
    let mut main_s = String::new();
    let mut i: usize = 0;
    proof {
        assert(Seq::<char>::empty() + procedures_from(setting.0@, tokens, prods, 0)->Ok_0
            =~= procedures_from(setting.0@, tokens, prods, 0)->Ok_0);
    }
    while i < bnfs.len()
        invariant
            i <= bnfs@.len(),
            index.indexes(token_decls_of(setting.1@), productions_of(bnfs@)),
            tokens == token_decls_of(setting.1@),
            prods == productions_of(bnfs@),
            procedures_from(setting.0@, tokens, prods, 0) == prepend(
                main_s@,
                procedures_from(setting.0@, tokens, prods, i as int),
            ),
        decreases bnfs@.len() - i,
    {
        let ghost before = main_s@;
        proof {
            assert(prods[i as int].name == bnfs@[i as int]@.name);
        }
        match make_parse_fn(bnfs[i].name().as_str(), setting, index, bnfs) {
            Ok(text) => {
                main_s.append(text.as_str());
                proof {
                    let rest = procedures_from(setting.0@, tokens, prods, i + 1);
                    if rest is Ok {
                        assert(before + (text@ + rest->Ok_0) =~= (before + text@) + rest->Ok_0);
                    }
                }
            },
            Err(e) => {
                return Err(e);
            },
        }
        i += 1;
    }
    proof {
        assert(main_s@ + Seq::<char>::empty() =~= main_s@);
    }
    Ok(main_s)
}

/// Renders the entry procedure of the generated parser, which parses the
/// entry symbol: the first public production.
///
/// Fails if no production is public.
pub fn make_main_parse_fn_str(main_type_str: &String, bnfs: &Vec<Bnf>) -> (r: Result<String, Error>)
    ensures
        renders(r, entry_procedure(main_type_str@, productions_of(bnfs@))),
{
    let entry = match find_pub(bnfs) {
        Some(i) => {
            proof {
                lemma_first_public(productions_of(bnfs@));
            }
            &bnfs[i]
        },
        None => {
            return Err(Error::ConfigError(ConfigError::NotFoundPubFunctin));
        },
    };
    let mut out = String::new();
    out.append(ENTRY_OPEN);
    out.append(main_type_str.as_str());
    out.append(ENTRY_RESULT);
    out.append(entry.result_type().as_str());
    out.append(ENTRY_CALL);
    out.append(entry.name().as_str());
    out.append(ENTRY_CLOSE);
    proof {
        assert(out@ =~= entry_text(main_type_str@, entry@));
    }
    Ok(out)
}

/// Renders the entry procedure and the procedures of all productions of a
/// grammar.
///
/// Fails if the grammar has no public production, or with the first fault
/// that rendering a procedure meets.
pub fn make_parse_fn_fn_str(setting: Setting, bnfs: &Vec<Bnf>) -> (r: Result<String, Error>)
    ensures
        renders(r, parser_text(setting.0@, token_decls_of(setting.1@), productions_of(bnfs@))),
{
    let index = match GrammarIndex::build(&setting, bnfs) {
        Ok(index) => index,
        Err(e) => {
            return Err(e);
        },
    };
    let main_parse_fn_str = match make_main_parse_fn_str(&setting.0, bnfs) {
        Ok(text) => text,
        Err(e) => {
            return Err(e);
        },
    };
    let parse_fn_str = match make_parse_fn_str(&setting, &index, bnfs) {
        Ok(text) => text,
        Err(e) => {
            return Err(e);
        },
    };
    let mut out = String::new();
    out.append(main_parse_fn_str.as_str());
    out.append(LINE_END);
    out.append(parse_fn_str.as_str());
    out.append(LINE_END);
    proof {
        assert(out@ =~= main_parse_fn_str@ + LINE_END@ + parse_fn_str@ + LINE_END@);
    }
    Ok(out)
}

/// Where a nonterminal has a null alternative, wherever it stands, its
/// procedure takes the action of the last null alternative at the end of
/// the input and where no arm matches. Where it has none, the procedure
/// fails there: with `Eof` at the end of the input, else with the token
/// under the cursor.
pub proof fn lemma_fallback(alts: Seq<Alternative>)
    ensures
        null_action(alts) is Some <==> exists|i: int| 0 <= i < alts.len() && is_null(#[trigger] alts[i]),
        null_action(alts) is Some ==> exists|i: int|
            {
                &&& 0 <= i < alts.len()
                &&& is_null(#[trigger] alts[i])
                &&& forall|j: int| i < j < alts.len() ==> !is_null(#[trigger] alts[j])
                &&& fallback_text(alts) == alts[i].action
                &&& at_end_text(alts) == AT_END_NULL@
            },
        null_action(alts) is None ==> fallback_text(alts) == FALLBACK_ERROR@ && at_end_text(alts)
            == AT_END_ERROR@,
    decreases alts.len(),
{
    if alts.len() > 0 {
        let rest = alts.drop_last();
        lemma_fallback(rest);
        assert forall|j: int| 0 <= j < rest.len() implies rest[j] == alts[j] by {}
        if is_null(alts.last()) {
            let i = alts.len() - 1;
            assert(is_null(alts[i]) && fallback_text(alts) == alts[i].action);
        } else {
            if null_action(rest) is Some {
                let i = choose|i: int|
                    {
                        &&& 0 <= i < rest.len()
                        &&& is_null(#[trigger] rest[i])
                        &&& forall|j: int| i < j < rest.len() ==> !is_null(#[trigger] rest[j])
                        &&& fallback_text(rest) == rest[i].action
                        &&& at_end_text(rest) == AT_END_NULL@
                    };
                assert(is_null(alts[i]));
                assert forall|j: int| i < j < alts.len() implies !is_null(#[trigger] alts[j]) by {
                    if j < rest.len() {
                        assert(!is_null(rest[j]));
                    }
                }
            }
            if exists|i: int| 0 <= i < alts.len() && is_null(#[trigger] alts[i]) {
                let i = choose|i: int| 0 <= i < alts.len() && is_null(#[trigger] alts[i]);
                assert(is_null(rest[i]));
            }
        }
    }
}

/// The alternatives before a position hold no more alternatives that are
/// not null than all alternatives do.
pub proof fn lemma_count_tags_grows(alts: Seq<Alternative>, n: int)
    requires
        0 <= n <= alts.len(),
    ensures
        count_tags(alts.take(n)) <= count_tags(alts),
    decreases alts.len() - n,
{
    if n < alts.len() {
        assert(alts.take(n + 1).drop_last() =~= alts.take(n));
        lemma_count_tags_grows(alts, n + 1);
    } else {
        assert(alts.take(n) =~= alts);
    }
}

/// The tag of an alternative that is not null is one of the tags of the
/// tag enumeration.
pub proof fn lemma_tag_is_enumerated(alts: Seq<Alternative>, i: int)
    requires
        0 <= i < alts.len(),
        !is_null(alts[i]),
    ensures
        tag_of(alts, i) < count_tags(alts),
{
    assert(alts.take(i + 1).drop_last() =~= alts.take(i));
    assert(alts.take(i + 1).last() == alts[i]);
    lemma_count_tags_grows(alts, i + 1);
}

/// Every arm of the lookahead map names an alternative that is not null:
/// the first alternative, in document order, that the token of the arm can
/// start. The tag that the arm yields is one of the tag enumeration.
pub proof fn lemma_dispatch_names_alternatives(
    prods: Seq<Production>,
    alts: Seq<Alternative>,
    k: int,
)
    requires
        0 <= k < first_set(prods, alts).len(),
    ensures
        ({
            let token = first_set(prods, alts)[k].0;
            let chosen = first_set(prods, alts)[k].1[0];
            &&& 0 <= chosen < alts.len()
            &&& !is_null(alts[chosen])
            &&& feeds(prods, alts[chosen], token)
            &&& forall|i: int| 0 <= i < chosen ==> !feeds(prods, #[trigger] alts[i], token)
            &&& tag_of(alts, chosen) < count_tags(alts)
        }),
{
    lemma_first_set_entries(prods, alts, k);
    let chosen = first_set(prods, alts)[k].1[0];
    lemma_tag_is_enumerated(alts, chosen);
}

} // verus!
