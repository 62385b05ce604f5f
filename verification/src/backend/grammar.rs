//! The lookups of a grammar as contracts see them: the definition of a
//! nonterminal, the pattern of a token, the entry symbol, and the leading
//! symbols of alternatives.

use crate::types::{Alternative, Production, Symbol, TokenDecl};
use vstd::prelude::*;

verus! {

/// The position of the last of `names` that equals `name`: where a name is
/// declared twice, the later declaration counts.
pub open spec fn last_index(names: Seq<Seq<char>>, name: Seq<char>) -> Option<int>
    decreases names.len(),
{
    if names.len() == 0 {
        None
    } else if names.last() == name {
        Some(names.len() - 1)
    } else {
        last_index(names.drop_last(), name)
    }
}

pub proof fn lemma_last_index(names: Seq<Seq<char>>, name: Seq<char>)
    ensures
        match last_index(names, name) {
            Some(i) => 0 <= i < names.len() && names[i] == name && forall|j: int|
                i < j < names.len() ==> names[j] != name,
            None => forall|j: int| 0 <= j < names.len() ==> names[j] != name,
        },
    decreases names.len(),
{
    if names.len() > 0 && names.last() != name {
        let rest = names.drop_last();
        lemma_last_index(rest, name);
        assert forall|j: int| 0 <= j < rest.len() implies rest[j] == names[j] by {}
    }
}

pub open spec fn production_names(prods: Seq<Production>) -> Seq<Seq<char>> {
    Seq::new(prods.len(), |i: int| prods[i].name)
}

pub open spec fn token_names(tokens: Seq<TokenDecl>) -> Seq<Seq<char>> {
    Seq::new(tokens.len(), |i: int| tokens[i].name)
}

/// The definition of the nonterminal `name`, if there is one.
pub open spec fn production_of(prods: Seq<Production>, name: Seq<char>) -> Option<Production> {
    match last_index(production_names(prods), name) {
        Some(i) => Some(prods[i]),
        None => None,
    }
}

/// The pattern that matches the token `name`, if the token is declared.
pub open spec fn pattern_of(tokens: Seq<TokenDecl>, name: Seq<char>) -> Option<Seq<char>> {
    match last_index(token_names(tokens), name) {
        Some(i) => Some(tokens[i].pattern),
        None => None,
    }
}

/// The position of the first public production: the entry symbol.
pub open spec fn first_public(prods: Seq<Production>) -> Option<int>
    decreases prods.len(),
{
    if prods.len() == 0 {
        None
    } else {
        match first_public(prods.drop_last()) {
            Some(i) => Some(i),
            None => if prods.last().public {
                Some(prods.len() - 1)
            } else {
                None
            },
        }
    }
}

pub proof fn lemma_first_public(prods: Seq<Production>)
    ensures
        match first_public(prods) {
            Some(i) => 0 <= i < prods.len() && prods[i].public && forall|j: int|
                0 <= j < i ==> !(#[trigger] prods[j]).public,
            None => forall|j: int| 0 <= j < prods.len() ==> !(#[trigger] prods[j]).public,
        },
    decreases prods.len(),
{
    if prods.len() > 0 {
        let rest = prods.drop_last();
        lemma_first_public(rest);
        assert forall|j: int| 0 <= j < rest.len() implies rest[j] == prods[j] by {}
    }
}

/// The symbol of the first binding, if there is a binding.
pub open spec fn first_symbol(bindings: Seq<(Seq<char>, Symbol)>) -> Option<Symbol> {
    if bindings.len() == 0 {
        None
    } else {
        Some(bindings[0].1)
    }
}

/// The symbol of the first binding; a null alternative has none.
pub open spec fn leading(alt: Alternative) -> Option<Symbol> {
    first_symbol(alt.bindings)
}

pub open spec fn is_null(alt: Alternative) -> bool {
    alt.bindings.len() == 0
}

/// The leading symbols of the alternatives that are not null, in order.
pub open spec fn heads(alts: Seq<Alternative>) -> Seq<Symbol>
    decreases alts.len(),
{
    if alts.len() == 0 {
        Seq::empty()
    } else {
        match leading(alts.last()) {
            Some(s) => heads(alts.drop_last()).push(s),
            None => heads(alts.drop_last()),
        }
    }
}

pub proof fn lemma_heads(alts: Seq<Alternative>, s: Symbol)
    ensures
        heads(alts).contains(s) <==> exists|i: int|
            0 <= i < alts.len() && #[trigger] leading(alts[i]) == Some(s),
    decreases alts.len(),
{
    if alts.len() > 0 {
        let rest = alts.drop_last();
        lemma_heads(rest, s);
        assert forall|i: int| 0 <= i < rest.len() implies rest[i] == alts[i] by {}
        if heads(alts).contains(s) {
            let k = choose|k: int| 0 <= k < heads(alts).len() && heads(alts)[k] == s;
            if leading(alts.last()) is Some && k == heads(alts).len() - 1 {
                assert(leading(alts[alts.len() - 1]) == Some(s));
            } else {
                assert(heads(rest)[k] == s);
                assert(heads(rest).contains(s));
                let i = choose|i: int|
                    0 <= i < rest.len() && #[trigger] leading(rest[i]) == Some(s);
                assert(leading(alts[i]) == Some(s));
            }
        }
        if exists|i: int| 0 <= i < alts.len() && #[trigger] leading(alts[i]) == Some(s) {
            let i = choose|i: int| 0 <= i < alts.len() && #[trigger] leading(alts[i]) == Some(s);
            if i == alts.len() - 1 {
                assert(heads(alts)[heads(alts).len() - 1] == s);
            } else {
                assert(leading(rest[i]) == Some(s));
                assert(heads(rest).contains(s));
                let k = choose|k: int| 0 <= k < heads(rest).len() && heads(rest)[k] == s;
                assert(heads(alts)[k] == s);
            }
        }
    }
}

/// The leading symbols of the alternatives.
pub open spec fn alternative_heads(alts: Seq<Alternative>) -> Set<Symbol>
    decreases alts.len(),
{
    if alts.len() == 0 {
        Set::empty()
    } else {
        match leading(alts.last()) {
            Some(s) => alternative_heads(alts.drop_last()).insert(s),
            None => alternative_heads(alts.drop_last()),
        }
    }
}

/// The leading symbols of all alternatives of all productions.
pub open spec fn grammar_heads(prods: Seq<Production>) -> Set<Symbol>
    decreases prods.len(),
{
    if prods.len() == 0 {
        Set::empty()
    } else {
        grammar_heads(prods.drop_last()).union(alternative_heads(prods.last().alternatives))
    }
}

pub proof fn lemma_alternative_heads(alts: Seq<Alternative>)
    ensures
        alternative_heads(alts).finite(),
        forall|i: int|
            0 <= i < alts.len() && leading(#[trigger] alts[i]) is Some ==> alternative_heads(
                alts,
            ).contains(leading(alts[i]).unwrap()),
    decreases alts.len(),
{
    if alts.len() > 0 {
        let rest = alts.drop_last();
        lemma_alternative_heads(rest);
        assert forall|i: int| 0 <= i < alts.len() && leading(#[trigger] alts[i]) is Some implies alternative_heads(
            alts,
        ).contains(leading(alts[i]).unwrap()) by {
            if i < alts.len() - 1 {
                assert(rest[i] == alts[i]);
            }
        }
    }
}

pub proof fn lemma_grammar_heads(prods: Seq<Production>)
    ensures
        grammar_heads(prods).finite(),
        forall|k: int, i: int|
            0 <= k < prods.len() && 0 <= i < prods[k].alternatives.len() && leading(
                #[trigger] prods[k].alternatives[i],
            ) is Some ==> grammar_heads(prods).contains(leading(prods[k].alternatives[i]).unwrap()),
    decreases prods.len(),
{
    if prods.len() > 0 {
        let rest = prods.drop_last();
        lemma_grammar_heads(rest);
        lemma_alternative_heads(prods.last().alternatives);
        assert forall|k: int, i: int|
            0 <= k < prods.len() && 0 <= i < prods[k].alternatives.len() && leading(
                #[trigger] prods[k].alternatives[i],
            ) is Some implies grammar_heads(prods).contains(
            leading(prods[k].alternatives[i]).unwrap(),
        ) by {
            if k < prods.len() - 1 {
                assert(rest[k] == prods[k]);
            }
        }
    }
}

} // verus!
