//! The back end: from a grammar description to the source text of its parser.
//!
//! The grammar index gives the lookups, the first-set resolver finds the
//! tokens that each alternative can start with, the dispatch synthesizer
//! turns them into the lookahead map of each procedure, and the emitter
//! renders the whole source.

pub mod first_set;
pub mod grammar;
pub mod headstr;
pub mod index;
pub mod parse_fn;
pub mod parse_token;
pub mod reach;
pub mod symbols;

use crate::backend::first_set::{
    feeds, first_set, first_symbols, first_tokens, lemma_first_set_entries,
    lemma_first_set_lists_first_symbols,
};
use crate::backend::grammar::{
    first_public, is_null, last_index, leading, lemma_last_index, production_names, production_of,
};
use crate::backend::headstr::{head_text, render_head};
use crate::backend::parse_fn::{
    AT_END_NULL, LINE_END, TAGS_CLOSE, TAGS_OPEN, arms_from, at_end_text, bindings_fault,
    bodies_text, code_type_text, dispatch_text, fallback_text, make_parse_fn_fn_str, null_action,
    parser_text, procedure, procedure_text, procedures_from, references_fault, renders,
    symbol_fault, tags_text,
};
use crate::backend::parse_token::{matchers_text, token_and_str_vec_to_str};
use crate::backend::reach::{
    derives, is_undefined, lemma_reachable_transitive, reachable, reachable_from, resolution_fault,
    within,
};
use crate::backend::symbols::sorted_listing;
use crate::error::{Error, Fault};
use crate::frontend::parse::description_of;
use crate::types::{
    Alternative, Grammar, Production, Symbol, Term, TokenDecl, grammar_of, header_of,
    productions_of, token_decl_of, token_decls_of,
};
use vstd::prelude::*;

verus! {

/// The source text of the parser of a grammar: the header and the error
/// type, the entry procedure, one procedure for each production, and one
/// matcher for each declared token. A grammar without an entry symbol, or
/// with a reference to a name that is not declared, has none.
pub open spec fn generated(g: Grammar) -> Result<Seq<char>, Fault> {
    match parser_text(g.token_type, g.tokens, g.productions) {
        Err(f) => Err(f),
        Ok(parser) => Ok(
            head_text(g.header, g.token_type) + LINE_END@ + parser + LINE_END@ + matchers_text(
                g.token_type,
                g.tokens,
            ) + LINE_END@,
        ),
    }
}

/// Generates the source text of the parser of a grammar description.
///
/// Nothing is generated for a grammar that is rejected: the error reports
/// the first fault.
pub fn to_string(term: Term) -> (r: Result<String, Error>)
    ensures
        renders(r, generated(grammar_of(term))),
{
    let (head, setting, bnfs) = term;
    let head_str = render_head(&head, &setting.0);
    let parse_token_fn_str = token_and_str_vec_to_str(&setting.0, &setting.1);
    let parse_fn_fn_str = match make_parse_fn_fn_str(setting, &bnfs) {
        Ok(text) => text,
        Err(e) => {
            return Err(e);
        },
    };
    let mut out = String::new();
    out.append(head_str.as_str());
    out.append(LINE_END);
    out.append(parse_fn_fn_str.as_str());
    out.append(LINE_END);
    out.append(parse_token_fn_str.as_str());
    out.append(LINE_END);
    proof {
        assert(out@ =~= head_str@ + LINE_END@ + parse_fn_fn_str@ + LINE_END@ + parse_token_fn_str@
            + LINE_END@);
    }
    Ok(out)
}

/// Generation is deterministic: whatever two runs on equal grammars return,
/// they return the same text or report the same fault. Source ranges are no
/// part of a grammar, so they cannot change what is generated.
pub proof fn lemma_generation_is_deterministic(
    a: Term,
    b: Term,
    first: Result<String, Error>,
    second: Result<String, Error>,
)
    requires
        grammar_of(a) == grammar_of(b),
        renders(first, generated(grammar_of(a))),
        renders(second, generated(grammar_of(b))),
    ensures
        first is Ok <==> second is Ok,
        first is Ok ==> first->Ok_0@ == second->Ok_0@,
        first is Err ==> first->Err_0.fault() == second->Err_0.fault(),
{
}

/// What is generated from a text depends on the text alone: two readings of
/// texts that spell the same description, spans and all, lead to the same
/// output or to the same fault.
pub proof fn lemma_same_description_same_output(a: Term, b: Term)
    requires
        description_of(a) == description_of(b),
    ensures
        grammar_of(a) == grammar_of(b),
        generated(grammar_of(a)) == generated(grammar_of(b)),
{
    let da = description_of(a);
    let db = description_of(b);
    assert(grammar_of(a).header =~= grammar_of(b).header) by {
        assert(da.header.len() == a.0@.len() && db.header.len() == b.0@.len());
        assert forall|i: int| 0 <= i < a.0@.len() implies header_of(a.0@)[i] == header_of(
            b.0@,
        )[i] by {
            assert(da.header[i].1 == a.0@[i].1@);
            assert(db.header[i].1 == b.0@[i].1@);
        }
    }
    assert(grammar_of(a).tokens =~= grammar_of(b).tokens) by {
        assert(da.tokens.len() == a.1.1@.len() && db.tokens.len() == b.1.1@.len());
        assert forall|i: int| 0 <= i < a.1.1@.len() implies token_decls_of(a.1.1@)[i]
            == token_decls_of(b.1.1@)[i] by {
            assert(da.tokens[i].1 == token_decl_of(a.1.1@[i]));
            assert(db.tokens[i].1 == token_decl_of(b.1.1@[i]));
        }
    }
    assert(grammar_of(a).productions =~= grammar_of(b).productions) by {
        assert(da.productions.len() == a.2@.len() && db.productions.len() == b.2@.len());
        assert forall|i: int| 0 <= i < a.2@.len() implies productions_of(a.2@)[i] == productions_of(
            b.2@,
        )[i] by {
            assert(da.productions[i].1 == a.2@[i]@);
            assert(db.productions[i].1 == b.2@[i]@);
        }
    }
    assert(da.token_type == db.token_type);
}

/// The first set of a nonterminal holds the first set of every nonterminal
/// that following leading symbols from it arrives at.
pub proof fn lemma_first_set_holds_reached(
    prods: Seq<Production>,
    name: Seq<char>,
    reached: Seq<char>,
)
    requires
        reachable(prods, Symbol::Nonterminal(name), Symbol::Nonterminal(reached)),
    ensures
        first_tokens(prods, reached).subset_of(first_tokens(prods, name)),
{
    assert forall|t: Seq<char>| first_tokens(prods, reached).contains(t) implies first_tokens(
        prods,
        name,
    ).contains(t) by {
        lemma_reachable_transitive(
            prods,
            set![Symbol::Nonterminal(name)],
            Symbol::Nonterminal(reached),
            Symbol::Token(t),
        );
    }
}

/// Alternatives from whose leading symbols no token is ever arrived at,
/// as where nonterminals only lead to each other in a cycle, have an empty
/// first set.
pub proof fn lemma_cycles_have_empty_first_set(prods: Seq<Production>, alts: Seq<Alternative>)
    requires
        forall|i: int, s: Symbol| 0 <= i < alts.len() ==> !#[trigger] feeds(prods, alts[i], s),
    ensures
        first_set(prods, alts).len() == 0,
{
    lemma_first_set_lists_first_symbols(prods, alts);
    let listing = sorted_listing(first_symbols(prods, alts));
    if listing.len() > 0 {
        assert(listing.contains(listing[0]));
        assert(first_symbols(prods, alts).contains(listing[0]));
    }
}

/// A nonterminal with a single alternative that is null is rendered without
/// a dispatch arm and without a body: at the end of the input and on every
/// token its procedure falls through to the action of that alternative.
pub proof fn lemma_single_null_alternative(
    token_type: Seq<char>,
    tokens: Seq<TokenDecl>,
    prods: Seq<Production>,
    name: Seq<char>,
)
    requires
        production_of(prods, name) is Some,
        production_of(prods, name).unwrap().alternatives.len() == 1,
        is_null(production_of(prods, name).unwrap().alternatives[0]),
    ensures
        ({
            let p = production_of(prods, name).unwrap();
            &&& procedure(token_type, tokens, prods, name) == Ok::<Seq<char>, Fault>(
                procedure_text(token_type, p, Seq::empty()),
            )
            &&& code_type_text(p.alternatives) == TAGS_OPEN@ + TAGS_CLOSE@
            &&& at_end_text(p.alternatives) == AT_END_NULL@
            &&& bodies_text(p.alternatives) == Seq::<char>::empty()
            &&& fallback_text(p.alternatives) == p.alternatives[0].action
        }),
{
    let p = production_of(prods, name).unwrap();
    let alts = p.alternatives;
    assert(alts.drop_last() =~= Seq::<Alternative>::empty());
    assert(alts.last() == alts[0]);
    assert(resolution_fault(prods, alts, 0) is None) by {
        assert(resolution_fault(prods, alts, 1) is None);
    }
    lemma_cycles_have_empty_first_set(prods, alts);
    assert(references_fault(tokens, prods, alts, 0) is None) by {
        assert(references_fault(tokens, prods, alts, 1) is None);
        assert(bindings_fault(tokens, prods, alts[0].bindings, 0) is None);
    }
    let none = alts.drop_last();
    assert(tags_text(none) =~= Seq::<char>::empty());
    assert(tags_text(alts) == tags_text(none));
    assert(bodies_text(none) =~= Seq::<char>::empty());
    assert(bodies_text(alts) == bodies_text(none));
    assert(null_action(alts) == Some(alts[0].action));
    assert(code_type_text(alts) =~= TAGS_OPEN@ + TAGS_CLOSE@);
    assert(arms_from(tokens, alts, first_set(prods, alts), 0) == Ok::<Seq<char>, Fault>(
        Seq::empty(),
    ));
    assert(dispatch_text(tokens, prods, alts) == Ok::<Seq<char>, Fault>(Seq::empty()));
}

/// Whether a symbol refers to a declared token or to a defined nonterminal.
pub open spec fn is_declared(g: Grammar, s: Symbol) -> bool {
    symbol_fault(g.tokens, g.productions, s) is None
}

/// Whether every binding of the definition of `name` refers to a declared
/// token or to a defined nonterminal. Where a name is defined twice, the
/// later definition is the one that counts.
pub open spec fn refers_to_declared(g: Grammar, name: Seq<char>) -> bool {
    match production_of(g.productions, name) {
        Some(p) => forall|i: int, j: int|
            0 <= i < p.alternatives.len() && 0 <= j < p.alternatives[i].bindings.len()
                ==> is_declared(g, #[trigger] p.alternatives[i].bindings[j].1),
        None => true,
    }
}

/// A grammar from which a parser is generated: it has an entry symbol, and
/// every binding refers to a declared token or to a defined nonterminal.
pub open spec fn is_well_formed(g: Grammar) -> bool {
    &&& first_public(g.productions) is Some
    &&& forall|name: Seq<char>| #[trigger] refers_to_declared(g, name)
}

proof fn lemma_bindings_fault(g: Grammar, bindings: Seq<(Seq<char>, Symbol)>, from: int)
    requires
        0 <= from,
    ensures
        bindings_fault(g.tokens, g.productions, bindings, from) is None <==> forall|j: int|
            from <= j < bindings.len() ==> is_declared(g, #[trigger] bindings[j].1),
    decreases bindings.len() - from,
{
    if from < bindings.len() {
        lemma_bindings_fault(g, bindings, from + 1);
        if bindings_fault(g.tokens, g.productions, bindings, from) is None {
            assert(is_declared(g, bindings[from].1));
        }
    }
}

proof fn lemma_references_fault(g: Grammar, alts: Seq<Alternative>, from: int)
    requires
        0 <= from,
    ensures
        references_fault(g.tokens, g.productions, alts, from) is None <==> forall|i: int, j: int|
            from <= i < alts.len() && 0 <= j < alts[i].bindings.len() ==> is_declared(
                g,
                #[trigger] alts[i].bindings[j].1,
            ),
    decreases alts.len() - from,
{
    if from < alts.len() {
        lemma_references_fault(g, alts, from + 1);
        lemma_bindings_fault(g, alts[from].bindings, 0);
        if references_fault(g.tokens, g.productions, alts, from) is None {
            assert forall|i: int, j: int|
                from <= i < alts.len() && 0 <= j < alts[i].bindings.len() implies is_declared(
                g,
                #[trigger] alts[i].bindings[j].1,
            ) by {
                if i == from {
                    assert(is_declared(g, alts[from].bindings[j].1));
                }
            }
        }
        if forall|i: int, j: int|
            from <= i < alts.len() && 0 <= j < alts[i].bindings.len() ==> is_declared(
                g,
                #[trigger] alts[i].bindings[j].1,
            ) {
            assert forall|j: int| 0 <= j < alts[from].bindings.len() implies is_declared(
                g,
                #[trigger] alts[from].bindings[j].1,
            ) by {}
        }
    }
}

/// In a well-formed grammar, whatever is arrived at from a declared symbol
/// is declared.
proof fn lemma_reached_is_declared(g: Grammar, from: Symbol, to: Symbol, steps: nat)
    requires
        forall|name: Seq<char>| #[trigger] refers_to_declared(g, name),
        is_declared(g, from),
        within(g.productions, set![from], to, steps),
    ensures
        is_declared(g, to),
    decreases steps,
{
    if to != from {
        let mid = choose|mid: Symbol|
            within(g.productions, set![from], mid, (steps - 1) as nat) && #[trigger] derives(
                g.productions,
                mid,
                to,
            );
        let name = mid->Nonterminal_0;
        let p = production_of(g.productions, name).unwrap();
        let i = choose|i: int|
            0 <= i < p.alternatives.len() && #[trigger] leading(p.alternatives[i]) == Some(to);
        assert(refers_to_declared(g, name));
        assert(is_declared(g, p.alternatives[i].bindings[0].1));
    }
}

proof fn lemma_resolution_succeeds(g: Grammar, alts: Seq<Alternative>, from: int)
    requires
        0 <= from,
        forall|name: Seq<char>| #[trigger] refers_to_declared(g, name),
        forall|i: int, j: int|
            0 <= i < alts.len() && 0 <= j < alts[i].bindings.len() ==> is_declared(
                g,
                #[trigger] alts[i].bindings[j].1,
            ),
    ensures
        resolution_fault(g.productions, alts, from) is None,
    decreases alts.len() - from,
{
    if from < alts.len() {
        lemma_resolution_succeeds(g, alts, from + 1);
        if leading(alts[from]) is Some {
            let l = leading(alts[from]).unwrap();
            assert(is_declared(g, alts[from].bindings[0].1));
            assert forall|s: Symbol| reachable_from(g.productions, set![l], s) implies !is_undefined(
                g.productions,
                s,
            ) by {
                let k = choose|steps: nat| within(g.productions, set![l], s, steps);
                lemma_reached_is_declared(g, l, s, k);
            }
        }
    }
}

proof fn lemma_arms_succeed(
    g: Grammar,
    alts: Seq<Alternative>,
    entries: Seq<(Symbol, Seq<int>)>,
    from: int,
)
    requires
        0 <= from,
        forall|k: int| 0 <= k < entries.len() ==> is_declared(g, (#[trigger] entries[k]).0),
    ensures
        arms_from(g.tokens, alts, entries, from) is Ok,
    decreases entries.len() - from,
{
    if from < entries.len() {
        lemma_arms_succeed(g, alts, entries, from + 1);
        assert(is_declared(g, entries[from].0));
    }
}

proof fn lemma_procedure_succeeds(g: Grammar, name: Seq<char>)
    requires
        forall|name: Seq<char>| #[trigger] refers_to_declared(g, name),
        production_of(g.productions, name) is Some,
    ensures
        procedure(g.token_type, g.tokens, g.productions, name) is Ok,
{
    let prods = g.productions;
    let p = production_of(prods, name).unwrap();
    let alts = p.alternatives;
    assert(refers_to_declared(g, name));
    lemma_resolution_succeeds(g, alts, 0);
    lemma_references_fault(g, alts, 0);
    let entries = first_set(prods, alts);
    assert forall|k: int| 0 <= k < entries.len() implies is_declared(g, (#[trigger] entries[k]).0) by {
        lemma_first_set_entries(prods, alts, k);
        let i = entries[k].1[0];
        let l = leading(alts[i]).unwrap();
        assert(is_declared(g, alts[i].bindings[0].1));
        let n = choose|steps: nat| within(prods, set![l], entries[k].0, steps);
        lemma_reached_is_declared(g, l, entries[k].0, n);
    }
    lemma_arms_succeed(g, alts, entries, 0);
}

proof fn lemma_procedures(g: Grammar, from: int)
    requires
        0 <= from,
    ensures
        procedures_from(g.token_type, g.tokens, g.productions, from) is Ok <==> forall|k: int|
            from <= k < g.productions.len() ==> (#[trigger] procedure(
                g.token_type,
                g.tokens,
                g.productions,
                g.productions[k].name,
            )) is Ok,
    decreases g.productions.len() - from,
{
    if from < g.productions.len() {
        lemma_procedures(g, from + 1);
        if procedures_from(g.token_type, g.tokens, g.productions, from) is Ok {
            assert forall|k: int| from <= k < g.productions.len() implies (#[trigger] procedure(
                g.token_type,
                g.tokens,
                g.productions,
                g.productions[k].name,
            )) is Ok by {
                if k > from {
                    assert(from + 1 <= k);
                }
            }
        }
    }
}

/// A parser is generated exactly for the well-formed grammars: those that
/// have an entry symbol and in which every binding refers to a declared
/// token or to a defined nonterminal.
pub proof fn lemma_generated_iff_well_formed(g: Grammar)
    ensures
        generated(g) is Ok <==> is_well_formed(g),
{
    let prods = g.productions;
    let names = production_names(prods);
    lemma_procedures(g, 0);
    if is_well_formed(g) {
        assert forall|k: int| 0 <= k < prods.len() implies (#[trigger] procedure(
            g.token_type,
            g.tokens,
            prods,
            prods[k].name,
        )) is Ok by {
            lemma_last_index(names, prods[k].name);
            assert(names[k] == prods[k].name);
            lemma_procedure_succeeds(g, prods[k].name);
        }
    }
    if generated(g) is Ok {
        assert forall|name: Seq<char>| #[trigger] refers_to_declared(g, name) by {
            if production_of(prods, name) is Some {
                lemma_last_index(names, name);
                let k = last_index(names, name).unwrap();
                assert(prods[k].name == name);
                assert(procedure(g.token_type, g.tokens, prods, prods[k].name) is Ok);
                lemma_references_fault(g, production_of(prods, name).unwrap().alternatives, 0);
            }
        }
    }
}

} // verus!
