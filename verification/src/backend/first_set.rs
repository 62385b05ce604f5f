//! The first-set resolver: which tokens can start each alternative of a
//! nonterminal.
//!
//! The first set of an alternative is taken from its leading symbol alone:
//! a token stands for itself, and a nonterminal for the leading symbols of
//! its own alternatives, and so on until nothing new is found. The resolver
//! does not look past a leading nonterminal that has a null alternative, so
//! a grammar should not start an alternative with such a nonterminal.
//!
//! A working set is a strictly increasing vector of symbols. Each step adds
//! the expansion of every symbol of the set; when a step adds nothing the
//! set is complete, and only its tokens are kept. Because a symbol that is
//! already there is never added again, nonterminals that lead to each other
//! in a cycle do no harm.

use crate::backend::grammar::{
    alternative_heads, first_symbol, grammar_heads, heads, is_null, leading,
    lemma_alternative_heads, lemma_grammar_heads, production_of,
};
use crate::backend::index::GrammarIndex;
use crate::backend::reach::{
    all_defined, derives, expansion, first_undefined, is_undefined, lead_fault, lemma_expansion,
    lemma_first_in_level, lemma_first_step, lemma_first_undefined, lemma_fixed_point,
    lemma_reachable_step, lemma_reachable_transitive, lemma_within_bounded, lemma_within_monotone,
    none_undefined_within, reachable, reachable_from, resolution_fault, undefined_within, within,
};
use crate::backend::symbols::{
    duplicate_symbols, find_slot, insert_symbol, is_sorted_listing, lemma_listing_bounded,
    lemma_listing_exists, lemma_listing_grows, lemma_sorted_listing, lemma_sorted_no_duplicates,
    sorted_listing, strictly_sorted, symbol_lt,
};
use crate::error::{ConfigError, Error, Fault};
use crate::types::{
    Alternative, Bnf, Code, FnOrToken, Production, Symbol, alternative_of, alternatives_of,
    bindings_of, productions_of, symbols_of,
};
use vstd::prelude::*;

verus! {

/// Whether `s` is a token that following leading symbols from `lead`
/// arrives at.
pub open spec fn starts(prods: Seq<Production>, lead: Option<Symbol>, s: Symbol) -> bool {
    s is Token && match lead {
        Some(l) => reachable(prods, l, s),
        None => false,
    }
}

/// Whether the token `s` can start the alternative `alt`: whether following
/// leading symbols from the alternative's first binding arrives at it.
pub open spec fn feeds(prods: Seq<Production>, alt: Alternative, s: Symbol) -> bool {
    starts(prods, leading(alt), s)
}

/// Whether one of the first `n` alternatives can start with the token `s`.
pub open spec fn starts_within(
    prods: Seq<Production>,
    alts: Seq<Alternative>,
    n: int,
    s: Symbol,
) -> bool {
    exists|i: int| 0 <= i < n && feeds(prods, #[trigger] alts[i], s)
}

/// The tokens that can start one of the alternatives.
pub open spec fn first_symbols(prods: Seq<Production>, alts: Seq<Alternative>) -> Set<Symbol> {
    Set::new(|s: Symbol| exists|i: int| 0 <= i < alts.len() && feeds(prods, #[trigger] alts[i], s))
}

/// The names of the tokens that can start the nonterminal `name`.
pub open spec fn first_tokens(prods: Seq<Production>, name: Seq<char>) -> Set<Seq<char>> {
    Set::new(|t: Seq<char>| reachable(prods, Symbol::Nonterminal(name), Symbol::Token(t)))
}

/// The positions, in increasing order, of those of the first `n`
/// alternatives that the token `s` can start.
pub open spec fn provenance(
    prods: Seq<Production>,
    alts: Seq<Alternative>,
    s: Symbol,
    n: nat,
) -> Seq<int>
    decreases n,
{
    if n == 0 {
        Seq::empty()
    } else {
        let rest = provenance(prods, alts, s, (n - 1) as nat);
        if feeds(prods, alts[n - 1], s) {
            rest.push(n - 1)
        } else {
            rest
        }
    }
}

/// The first set of a nonterminal with alternatives `alts`: each token that
/// can start one of them, in increasing order, with the positions of the
/// alternatives that it can start.
pub open spec fn first_set(
    prods: Seq<Production>,
    alts: Seq<Alternative>,
) -> Seq<(Symbol, Seq<int>)> {
    let listing = sorted_listing(first_symbols(prods, alts));
    Seq::new(
        listing.len(),
        |k: int| (listing[k], provenance(prods, alts, listing[k], alts.len())),
    )
}

/// Whether `v` lists, in strictly increasing order, the tokens that
/// following leading symbols from `lead` arrives at.
pub open spec fn is_first_list(
    prods: Seq<Production>,
    lead: Option<Symbol>,
    v: Seq<Symbol>,
) -> bool {
    strictly_sorted(v) && forall|s: Symbol| #[trigger] v.contains(s) <==> starts(prods, lead, s)
}

/// The positions, in increasing order, of those of the first `n` lists that
/// hold `s`.
pub open spec fn holders(lists: Seq<Seq<Symbol>>, s: Symbol, n: nat) -> Seq<int>
    decreases n,
{
    if n == 0 {
        Seq::empty()
    } else {
        let rest = holders(lists, s, (n - 1) as nat);
        if lists[n - 1].contains(s) {
            rest.push(n - 1)
        } else {
            rest
        }
    }
}

pub proof fn lemma_provenance(prods: Seq<Production>, alts: Seq<Alternative>, s: Symbol, n: nat)
    requires
        n <= alts.len(),
    ensures
        forall|j: int|
            0 <= j < provenance(prods, alts, s, n).len() ==> {
                let i = #[trigger] provenance(prods, alts, s, n)[j];
                0 <= i < n && feeds(prods, alts[i], s)
            },
        forall|j: int, k: int|
            #![trigger provenance(prods, alts, s, n)[j], provenance(prods, alts, s, n)[k]]
            0 <= j < k < provenance(prods, alts, s, n).len() ==> provenance(prods, alts, s, n)[j]
                < provenance(prods, alts, s, n)[k],
        forall|i: int|
            0 <= i < n && feeds(prods, #[trigger] alts[i], s) ==> provenance(
                prods,
                alts,
                s,
                n,
            ).contains(i),
    decreases n,
{
    if n > 0 {
        let rest = provenance(prods, alts, s, (n - 1) as nat);
        lemma_provenance(prods, alts, s, (n - 1) as nat);
        let all = provenance(prods, alts, s, n);
        if feeds(prods, alts[n - 1], s) {
            assert(all[all.len() - 1] == n - 1);
            assert forall|i: int| 0 <= i < n && feeds(prods, #[trigger] alts[i], s) implies all.contains(
                i,
            ) by {
                if i < n - 1 {
                    assert(rest.contains(i));
                    let j = choose|j: int| 0 <= j < rest.len() && rest[j] == i;
                    assert(all[j] == i);
                } else {
                    assert(all[all.len() - 1] == i);
                }
            }
        }
    }
}

/// Where each list holds what can start the alternative at its position,
/// the lists that hold a token are the alternatives that it can start.
pub proof fn lemma_holders(
    prods: Seq<Production>,
    alts: Seq<Alternative>,
    lists: Seq<Seq<Symbol>>,
    s: Symbol,
    n: nat,
)
    requires
        n <= alts.len(),
        n <= lists.len(),
        forall|m: int| 0 <= m < n ==> is_first_list(prods, leading(alts[m]), #[trigger] lists[m]),
    ensures
        holders(lists, s, n) == provenance(prods, alts, s, n),
    decreases n,
{
    if n > 0 {
        lemma_holders(prods, alts, lists, s, (n - 1) as nat);
        assert(is_first_list(prods, leading(alts[n - 1]), lists[n - 1]));
    }
}

/// The tokens that can start a nonterminal are those that can start one of
/// its alternatives.
pub proof fn lemma_first_tokens(prods: Seq<Production>, name: Seq<char>, t: Seq<char>)
    requires
        production_of(prods, name) is Some,
    ensures
        first_tokens(prods, name).contains(t) <==> first_symbols(
            prods,
            production_of(prods, name).unwrap().alternatives,
        ).contains(Symbol::Token(t)),
{
    let p = production_of(prods, name).unwrap();
    let from = Symbol::Nonterminal(name);
    let to = Symbol::Token(t);
    if first_tokens(prods, name).contains(t) {
        let k = choose|steps: nat| within(prods, set![from], to, steps);
        lemma_first_step(prods, from, to, k);
        let l = choose|l: Symbol| #[trigger]
            derives(prods, from, l) && within(prods, set![l], to, (k - 1) as nat);
        let i = choose|i: int|
            0 <= i < p.alternatives.len() && #[trigger] leading(p.alternatives[i]) == Some(l);
        assert(feeds(prods, p.alternatives[i], to));
    }
    if first_symbols(prods, p.alternatives).contains(to) {
        let i = choose|i: int|
            0 <= i < p.alternatives.len() && feeds(prods, #[trigger] p.alternatives[i], to);
        let l = leading(p.alternatives[i]).unwrap();
        assert(derives(prods, from, l));
        assert(set![from].contains(from));
        assert(within(prods, set![from], from, 0));
        lemma_reachable_step(prods, set![from], from, l);
        lemma_reachable_transitive(prods, set![from], l, to);
    }
}

/// The tokens that can start the alternatives of a nonterminal are finitely
/// many, so the first set lists them all, in strictly increasing order.
pub proof fn lemma_first_set_lists_first_symbols(prods: Seq<Production>, alts: Seq<Alternative>)
    ensures
        first_symbols(prods, alts).finite(),
        is_sorted_listing(
            sorted_listing(first_symbols(prods, alts)),
            first_symbols(prods, alts),
        ),
{
    let universe = alternative_heads(alts).union(grammar_heads(prods));
    lemma_alternative_heads(alts);
    lemma_grammar_heads(prods);
    assert(first_symbols(prods, alts).subset_of(universe)) by {
        assert forall|s: Symbol| first_symbols(prods, alts).contains(s) implies universe.contains(
            s,
        ) by {
            let i = choose|i: int| 0 <= i < alts.len() && feeds(prods, #[trigger] alts[i], s);
            let l = leading(alts[i]).unwrap();
            let k = choose|steps: nat| within(prods, set![l], s, steps);
            lemma_within_bounded(prods, set![l], s, k);
        }
    }
    vstd::set_lib::lemma_len_subset(first_symbols(prods, alts), universe);
    lemma_listing_exists(first_symbols(prods, alts));
}

/// Every position in the first set is that of an alternative that is not
/// null and that the token can start; the positions of a token increase,
/// and there is at least one.
pub proof fn lemma_first_set_entries(prods: Seq<Production>, alts: Seq<Alternative>, k: int)
    requires
        0 <= k < first_set(prods, alts).len(),
    ensures
        first_set(prods, alts)[k].0 is Token,
        first_set(prods, alts)[k].1.len() > 0,
        forall|j: int|
            0 <= j < first_set(prods, alts)[k].1.len() ==> {
                let i = #[trigger] first_set(prods, alts)[k].1[j];
                &&& 0 <= i < alts.len()
                &&& !is_null(alts[i])
                &&& feeds(prods, alts[i], first_set(prods, alts)[k].0)
            },
        forall|i: int|
            0 <= i < first_set(prods, alts)[k].1[0] ==> !feeds(
                prods,
                #[trigger] alts[i],
                first_set(prods, alts)[k].0,
            ),
{
    lemma_first_set_lists_first_symbols(prods, alts);
    let listing = sorted_listing(first_symbols(prods, alts));
    let s = listing[k];
    assert(listing.contains(s));
    assert(first_symbols(prods, alts).contains(s));
    let i0 = choose|i: int| 0 <= i < alts.len() && feeds(prods, #[trigger] alts[i], s);
    lemma_provenance(prods, alts, s, alts.len());
    let origins = provenance(prods, alts, s, alts.len());
    assert(origins.contains(i0));
    assert forall|i: int| 0 <= i < origins[0] implies !feeds(prods, #[trigger] alts[i], s) by {
        if feeds(prods, alts[i], s) {
            assert(origins.contains(i));
            let j = choose|j: int| 0 <= j < origins.len() && origins[j] == i;
            if j > 0 {
                assert(origins[0] < origins[j]);
            }
        }
    }
}

/// The leading symbols of the alternatives that are not null, in order.
pub fn get_head(codes: &Vec<Code>) -> (r: Vec<FnOrToken>)
    ensures
        symbols_of(r@) == heads(alternatives_of(codes@)),
{
    let ghost alts = alternatives_of(codes@);
    let mut out: Vec<FnOrToken> = Vec::new();
    let mut i: usize = 0;
    while i < codes.len()
        invariant
            i <= codes@.len(),
            alts == alternatives_of(codes@),
            symbols_of(out@) == heads(alts.take(i as int)),
        decreases codes@.len() - i,
    {
        let ghost before = symbols_of(out@);
        proof {
            assert(alts.take(i + 1).drop_last() =~= alts.take(i as int));
            assert(alts.take(i + 1).last() == alternative_of(codes@[i as int]));
        }
        if codes[i].0.len() > 0 {
            out.push(codes[i].0[0].1.duplicate());
            proof {
                assert(symbols_of(out@) =~= before.push(codes@[i as int].0@[0].1@));
            }
        }
        i += 1;
    }
    proof {
        assert(alts.take(i as int) =~= alts);
    }
    out
}

/// Expands one symbol: a token to itself, a nonterminal to the leading
/// symbols of its alternatives. A nonterminal that no production defines
/// is reported.
pub fn serch(fn_or_token: &FnOrToken, index: &GrammarIndex, bnfs: &Vec<Bnf>) -> (r: Result<
    Vec<FnOrToken>,
    Error,
>)
    requires
        index.knows_productions(productions_of(bnfs@)),
    ensures
        match r {
            Ok(v) => {
                &&& !is_undefined(productions_of(bnfs@), fn_or_token@)
                &&& symbols_of(v@) == expansion(productions_of(bnfs@), fn_or_token@)
            },
            Err(e) => {
                &&& is_undefined(productions_of(bnfs@), fn_or_token@)
                &&& e.fault() == Some(Fault::UnknownNonterminal(fn_or_token@->Nonterminal_0))
            },
        },
{
    match fn_or_token {
        FnOrToken::Token(_) => {
            let mut out: Vec<FnOrToken> = Vec::new();
            out.push(fn_or_token.duplicate());
            proof {
                assert(symbols_of(out@) =~= seq![fn_or_token@]);
            }
            Ok(out)
        },
        FnOrToken::Function(name) => match index.production_of(bnfs, name.as_str()) {
            Some(bnf) => Ok(get_head(bnf.codes())),
            None => Err(Error::ConfigError(ConfigError::NotFoundFunctionName(name.clone()))),
        },
    }
}

/// Adds every symbol of `found` to the set `next`.
pub fn expand_into(next: &mut Vec<FnOrToken>, found: &Vec<FnOrToken>)
    requires
        strictly_sorted(symbols_of(old(next)@)),
    ensures
        strictly_sorted(symbols_of(final(next)@)),
        forall|s: Symbol| #[trigger]
            symbols_of(final(next)@).contains(s) <==> symbols_of(old(next)@).contains(s)
                || symbols_of(found@).contains(s),
{
    let ghost start = symbols_of(next@);
    let ghost added = symbols_of(found@);
    let mut t: usize = 0;
    while t < found.len()
        invariant
            t <= found@.len(),
            added == symbols_of(found@),
            strictly_sorted(symbols_of(next@)),
            forall|s: Symbol| #[trigger]
                symbols_of(next@).contains(s) <==> start.contains(s) || added.take(
                    t as int,
                ).contains(s),
        decreases found@.len() - t,
    {
        let ghost before = symbols_of(next@);
        insert_symbol(next, &found[t]);
        proof {
            assert(added[t as int] == found@[t as int]@);
            assert(added.take(t + 1) =~= added.take(t as int).push(added[t as int]));
            assert forall|s: Symbol| #[trigger]
                symbols_of(next@).contains(s) <==> start.contains(s) || added.take(
                    t + 1,
                ).contains(s) by {
                lemma_contains_push(added.take(t as int), added[t as int], s);
                assert(before.contains(s) <==> start.contains(s) || added.take(
                    t as int,
                ).contains(s));
            }
        }
        t += 1;
    }
    proof {
        assert(added.take(t as int) =~= added);
        assert forall|s: Symbol| #[trigger]
            symbols_of(next@).contains(s) <==> start.contains(s) || added.contains(s) by {}
    }
}

/// What a sequence holds after one more symbol was appended.
pub proof fn lemma_contains_push(v: Seq<Symbol>, last: Symbol, s: Symbol)
    ensures
        v.push(last).contains(s) <==> v.contains(s) || s == last,
{
    if v.push(last).contains(s) {
        let k = choose|k: int| 0 <= k < v.push(last).len() && v.push(last)[k] == s;
        if k < v.len() {
            assert(v[k] == s);
        }
    }
    if v.contains(s) {
        let k = choose|k: int| 0 <= k < v.len() && v[k] == s;
        assert(v.push(last)[k] == s);
    }
    if s == last {
        assert(v.push(last)[v.len() as int] == s);
    }
}

/// Whether `s` is a leading symbol of one of the first `n` symbols of `level`.
pub open spec fn some_derives(
    prods: Seq<Production>,
    level: Seq<Symbol>,
    n: int,
    s: Symbol,
) -> bool {
    exists|m: int| 0 <= m < n && derives(prods, #[trigger] level[m], s)
}

/// One step of resolution: the set together with the expansion of each of
/// its symbols. The first symbol, in order, that is an undefined nonterminal
/// is reported.
pub fn serch_step(cur: &Vec<FnOrToken>, index: &GrammarIndex, bnfs: &Vec<Bnf>) -> (r: Result<
    Vec<FnOrToken>,
    (usize, Error),
>)
    requires
        index.knows_productions(productions_of(bnfs@)),
        strictly_sorted(symbols_of(cur@)),
    ensures
        match r {
            Ok(next) => {
                &&& strictly_sorted(symbols_of(next@))
                &&& forall|m: int|
                    0 <= m < cur@.len() ==> !is_undefined(
                        productions_of(bnfs@),
                        #[trigger] symbols_of(cur@)[m],
                    )
                &&& forall|s: Symbol| #[trigger]
                    symbols_of(next@).contains(s) <==> symbols_of(cur@).contains(s)
                        || some_derives(
                        productions_of(bnfs@),
                        symbols_of(cur@),
                        cur@.len() as int,
                        s,
                    )
            },
            Err((at, e)) => {
                &&& at < cur@.len()
                &&& is_undefined(productions_of(bnfs@), symbols_of(cur@)[at as int])
                &&& forall|m: int|
                    0 <= m < at ==> !is_undefined(
                        productions_of(bnfs@),
                        #[trigger] symbols_of(cur@)[m],
                    )
                &&& e.fault() == Some(
                    Fault::UnknownNonterminal(symbols_of(cur@)[at as int]->Nonterminal_0),
                )
            },
        },
{
    let ghost prods = productions_of(bnfs@);
    let ghost level = symbols_of(cur@);
    let mut next = duplicate_symbols(cur);
    let mut j: usize = 0;
    while j < cur.len()
        invariant
            j <= cur@.len(),
            index.knows_productions(productions_of(bnfs@)),
            prods == productions_of(bnfs@),
            level == symbols_of(cur@),
            strictly_sorted(symbols_of(next@)),
            forall|m: int| 0 <= m < j ==> !is_undefined(prods, #[trigger] level[m]),
            forall|s: Symbol| #[trigger]
                symbols_of(next@).contains(s) <==> level.contains(s) || some_derives(
                    prods,
                    level,
                    j as int,
                    s,
                ),
        decreases cur@.len() - j,
    {
        assert(level[j as int] == cur@[j as int]@);
        match serch(&cur[j], index, bnfs) {
            Err(e) => {
                return Err((j, e));
            },
            Ok(found) => {
                let ghost before = symbols_of(next@);
                expand_into(&mut next, &found);
                proof {
                    assert forall|s: Symbol| #[trigger]
                        symbols_of(next@).contains(s) <==> level.contains(s) || some_derives(
                            prods,
                            level,
                            j + 1,
                            s,
                        ) by {
                        lemma_expansion(prods, level[j as int], s);
                        assert(before.contains(s) <==> level.contains(s) || some_derives(
                            prods,
                            level,
                            j as int,
                            s,
                        ));
                        if some_derives(prods, level, j as int, s) {
                            let m = choose|m: int|
                                0 <= m < j && derives(prods, #[trigger] level[m], s);
                            assert(0 <= m < j + 1 && derives(prods, level[m], s));
                        }
                        if symbols_of(found@).contains(s) {
                            if derives(prods, level[j as int], s) {
                                assert(0 <= j < j + 1 && derives(prods, level[j as int], s));
                            } else {
                                assert(level.contains(level[j as int]));
                            }
                        }
                        if some_derives(prods, level, j + 1, s) {
                            let m = choose|m: int|
                                0 <= m < j + 1 && derives(prods, #[trigger] level[m], s);
                            if m < j {
                                assert(some_derives(prods, level, j as int, s));
                            }
                        }
                    }
                }
            },
        }
        j += 1;
    }
    Ok(next)
}

/// The tokens of a set of symbols, in the order of the set.
pub fn keep_tokens(set: &Vec<FnOrToken>) -> (r: Vec<FnOrToken>)
    requires
        strictly_sorted(symbols_of(set@)),
    ensures
        strictly_sorted(symbols_of(r@)),
        forall|k: int| 0 <= k < r@.len() ==> (#[trigger] symbols_of(r@)[k]) is Token,
        forall|s: Symbol| #[trigger]
            symbols_of(r@).contains(s) <==> s is Token && symbols_of(set@).contains(s),
{
    let ghost all = symbols_of(set@);
    let mut out: Vec<FnOrToken> = Vec::new();
    let mut j: usize = 0;
    while j < set.len()
        invariant
            j <= set@.len(),
            all == symbols_of(set@),
            strictly_sorted(all),
            strictly_sorted(symbols_of(out@)),
            forall|k: int| 0 <= k < out@.len() ==> (#[trigger] symbols_of(out@)[k]) is Token,
            forall|s: Symbol| #[trigger]
                symbols_of(out@).contains(s) <==> s is Token && all.take(j as int).contains(s),
            forall|k: int, m: int|
                0 <= k < out@.len() && j <= m < all.len() ==> symbol_lt(
                    #[trigger] symbols_of(out@)[k],
                    #[trigger] all[m],
                ),
        decreases set@.len() - j,
    {
        let ghost before = symbols_of(out@);
        proof {
            assert(all[j as int] == set@[j as int]@);
            assert(all.take(j + 1) =~= all.take(j as int).push(all[j as int]));
        }
        match &set[j] {
            FnOrToken::Token(_) => {
                out.push(set[j].duplicate());
                proof {
                    assert(symbols_of(out@) =~= before.push(all[j as int]));
                    assert forall|s: Symbol| #[trigger]
                        symbols_of(out@).contains(s) <==> s is Token && all.take(j + 1).contains(
                            s,
                        ) by {
                        lemma_contains_push(before, all[j as int], s);
                        lemma_contains_push(all.take(j as int), all[j as int], s);
                        assert(before.contains(s) <==> s is Token && all.take(j as int).contains(
                            s,
                        ));
                    }
                    assert forall|k: int, m: int|
                        0 <= k < out@.len() && j + 1 <= m < all.len() implies symbol_lt(
                        #[trigger] symbols_of(out@)[k],
                        #[trigger] all[m],
                    ) by {
                        if k < before.len() {
                            assert(symbols_of(out@)[k] == before[k]);
                        } else {
                            assert(symbol_lt(all[j as int], all[m]));
                        }
                    }
                    assert forall|x: int, y: int|
                        0 <= x < y < out@.len() implies symbol_lt(
                        #[trigger] symbols_of(out@)[x],
                        #[trigger] symbols_of(out@)[y],
                    ) by {
                        assert(symbols_of(out@)[x] == before[x]);
                        if y < before.len() {
                            assert(symbols_of(out@)[y] == before[y]);
                        } else {
                            assert(symbol_lt(before[x], all[j as int]));
                        }
                    }
                }
            },
            FnOrToken::Function(_) => {
                proof {
                    assert forall|s: Symbol| #[trigger]
                        symbols_of(out@).contains(s) <==> s is Token && all.take(j + 1).contains(
                            s,
                        ) by {
                        lemma_contains_push(all.take(j as int), all[j as int], s);
                    }
                }
            },
        }
        j += 1;
    }
    proof {
        assert(all.take(j as int) =~= all);
    }
    out
}

/// Whether `steps` steps of expansion find every symbol that following
/// leading symbols from `sources` arrives at.
pub open spec fn resolved_within(prods: Seq<Production>, sources: Set<Symbol>, steps: nat) -> bool {
    forall|s: Symbol| reachable_from(prods, sources, s) ==> within(prods, sources, s, steps)
}

/// Resolves a set of symbols to the tokens that it leads to. The set is
/// expanded, step by step, until a step adds nothing: then every symbol
/// that following leading symbols from the set arrives at has been found.
/// Of these only the tokens are kept; the nonterminals that resolution
/// passed through are discarded. The result lists the tokens in strictly
/// increasing order. Cycles between nonterminals are harmless: a symbol
/// that is already there is not new, and every step but the last adds a
/// symbol, so there are no more steps than the grammar has distinct leading
/// symbols, and one more that finds nothing new.
///
/// Fails if an undefined nonterminal is reached, and reports the nearest
/// one: of several that are equally near, the first by name.
pub fn serch_next_token(
    fn_or_token_lst: &Vec<FnOrToken>,
    index: &GrammarIndex,
    bnfs: &Vec<Bnf>,
) -> (r: Result<Vec<FnOrToken>, Error>)
    requires
        index.knows_productions(productions_of(bnfs@)),
        strictly_sorted(symbols_of(fn_or_token_lst@)),
    ensures
        match r {
            Ok(v) => {
                &&& all_defined(productions_of(bnfs@), symbols_of(fn_or_token_lst@).to_set())
                &&& strictly_sorted(symbols_of(v@))
                &&& forall|k: int| 0 <= k < v@.len() ==> (#[trigger] symbols_of(v@)[k]) is Token
                &&& forall|s: Symbol| #[trigger]
                    symbols_of(v@).contains(s) <==> s is Token && reachable_from(
                        productions_of(bnfs@),
                        symbols_of(fn_or_token_lst@).to_set(),
                        s,
                    )
                &&& exists|steps: nat|
                    steps <= grammar_heads(productions_of(bnfs@)).len() && #[trigger] resolved_within(
                        productions_of(bnfs@),
                        symbols_of(fn_or_token_lst@).to_set(),
                        steps,
                    )
            },
            Err(e) => {
                &&& !all_defined(productions_of(bnfs@), symbols_of(fn_or_token_lst@).to_set())
                &&& e.fault() == Some(
                    Fault::UnknownNonterminal(
                        first_undefined(
                            productions_of(bnfs@),
                            symbols_of(fn_or_token_lst@).to_set(),
                        ),
                    ),
                )
            },
        },
{
    broadcast use vstd::seq_lib::seq_to_set_is_finite;

    let ghost prods = productions_of(bnfs@);
    let ghost sources = symbols_of(fn_or_token_lst@).to_set();
    let ghost universe = sources.union(grammar_heads(prods));
    let ghost mut steps: nat = 0;
    let mut cur = duplicate_symbols(fn_or_token_lst);
    proof {
        lemma_grammar_heads(prods);
        assert(universe.finite());
        lemma_level_bounded(prods, sources, symbols_of(cur@), 0);
        assert(cur@.len() == symbols_of(cur@).len());
        assert(fn_or_token_lst@.len() == symbols_of(fn_or_token_lst@).len());
        lemma_sorted_no_duplicates(symbols_of(fn_or_token_lst@));
        symbols_of(fn_or_token_lst@).unique_seq_to_set();
        vstd::set_lib::lemma_len_union(sources, grammar_heads(prods));
    }
    loop
        invariant
            steps + fn_or_token_lst@.len() <= cur@.len(),
            universe.len() <= fn_or_token_lst@.len() + grammar_heads(prods).len(),
            index.knows_productions(productions_of(bnfs@)),
            prods == productions_of(bnfs@),
            sources == symbols_of(fn_or_token_lst@).to_set(),
            universe == sources.union(grammar_heads(prods)),
            universe.finite(),
            strictly_sorted(symbols_of(cur@)),
            forall|s: Symbol| #[trigger]
                symbols_of(cur@).contains(s) <==> within(prods, sources, s, steps),
            steps > 0 ==> none_undefined_within(prods, sources, (steps - 1) as nat),
            cur@.len() <= universe.len(),
        decreases universe.len() - cur@.len(),
    {
        let ghost level = symbols_of(cur@);
        match serch_step(&cur, index, bnfs) {
            Err((at, e)) => {
                proof {
                    lemma_first_in_level(prods, sources, level, steps, at as int);
                    let name = level[at as int]->Nonterminal_0;
                    lemma_first_undefined(prods, sources, name);
                    assert(level.contains(level[at as int]));
                    assert(reachable_from(prods, sources, level[at as int]));
                }
                return Err(e);
            },
            Ok(next) => {
                let ghost wider = symbols_of(next@);
                proof {
                    assert forall|s: Symbol| wider.contains(s) <==> within(
                        prods,
                        sources,
                        s,
                        steps + 1,
                    ) by {
                        if wider.contains(s) {
                            if level.contains(s) {
                                lemma_within_monotone(prods, sources, s, steps, steps + 1);
                            } else {
                                assert(some_derives(prods, level, level.len() as int, s));
                                let m = choose|m: int|
                                    0 <= m < level.len() && derives(prods, #[trigger] level[m], s);
                                assert(level.contains(level[m]));
                            }
                        }
                        if within(prods, sources, s, steps + 1) && !sources.contains(s) {
                            let mid = choose|mid: Symbol|
                                within(prods, sources, mid, steps) && #[trigger] derives(
                                    prods,
                                    mid,
                                    s,
                                );
                            assert(level.contains(mid));
                            let m = choose|m: int| 0 <= m < level.len() && level[m] == mid;
                            assert(derives(prods, level[m], s));
                            assert(some_derives(prods, level, level.len() as int, s));
                        }
                        if sources.contains(s) {
                            assert(within(prods, sources, s, steps));
                        }
                    }
                    assert(none_undefined_within(prods, sources, steps)) by {
                        assert forall|m: Seq<char>| !undefined_within(
                            prods,
                            sources,
                            m,
                            steps,
                        ) by {
                            if undefined_within(prods, sources, m, steps) {
                                let s = Symbol::Nonterminal(m);
                                assert(level.contains(s));
                                let k = choose|k: int| 0 <= k < level.len() && level[k] == s;
                                assert(!is_undefined(prods, level[k]));
                            }
                        }
                    }
                    lemma_listing_grows(level, wider);
                    lemma_level_bounded(prods, sources, wider, steps + 1);
                    assert(level.len() == cur@.len() && wider.len() == next@.len());
                }
                if next.len() == cur.len() {
                    proof {
                        assert forall|s: Symbol| within(prods, sources, s, steps + 1) implies within(
                            prods,
                            sources,
                            s,
                            steps,
                        ) by {
                            assert(wider.contains(s));
                        }
                        assert forall|s: Symbol| wider.contains(s) <==> reachable_from(
                            prods,
                            sources,
                            s,
                        ) by {
                            if reachable_from(prods, sources, s) {
                                let n = choose|n: nat| within(prods, sources, s, n);
                                lemma_fixed_point(prods, sources, steps, s, n);
                            }
                        }
                        assert forall|s: Symbol| reachable_from(prods, sources, s) implies !is_undefined(
                            prods,
                            s,
                        ) by {
                            assert(level.contains(s));
                            let k = choose|k: int| 0 <= k < level.len() && level[k] == s;
                            assert(!is_undefined(prods, level[k]));
                        }
                        assert(resolved_within(prods, sources, steps)) by {
                            assert forall|s: Symbol| reachable_from(
                                prods,
                                sources,
                                s,
                            ) implies within(prods, sources, s, steps) by {
                                assert(level.contains(s));
                            }
                        }
                        assert(steps <= grammar_heads(prods).len());
                    }
                    return Ok(keep_tokens(&next));
                }
                proof {
                    steps = steps + 1;
                }
                cur = next;
            },
        }
    }
}

/// A level of resolution holds only sources and leading symbols of the
/// grammar, so it is no longer than those are many.
pub proof fn lemma_level_bounded(
    prods: Seq<Production>,
    sources: Set<Symbol>,
    level: Seq<Symbol>,
    steps: nat,
)
    requires
        strictly_sorted(level),
        sources.finite(),
        forall|s: Symbol| level.contains(s) <==> within(prods, sources, s, steps),
    ensures
        level.len() <= sources.union(grammar_heads(prods)).len(),
{
    lemma_grammar_heads(prods);
    assert forall|s: Symbol| level.contains(s) implies sources.union(
        grammar_heads(prods),
    ).contains(s) by {
        lemma_within_bounded(prods, sources, s, steps);
    }
    lemma_listing_bounded(level, sources.union(grammar_heads(prods)));
}

/// The first set of one alternative: the tokens that it can start with, in
/// strictly increasing order. A null alternative has none. Nonterminals
/// that resolution passes through are not part of it.
///
/// Fails if resolution reaches an undefined nonterminal.
pub fn make_next_tokens_lst(
    tokens_lst: &Vec<(String, FnOrToken)>,
    index: &GrammarIndex,
    bnfs: &Vec<Bnf>,
) -> (r: Result<Vec<FnOrToken>, Error>)
    requires
        index.knows_productions(productions_of(bnfs@)),
    ensures
        match r {
            Ok(v) => {
                &&& lead_fault(productions_of(bnfs@), first_symbol(bindings_of(tokens_lst@))) is None
                &&& is_first_list(
                    productions_of(bnfs@),
                    first_symbol(bindings_of(tokens_lst@)),
                    symbols_of(v@),
                )
                &&& forall|k: int| 0 <= k < v@.len() ==> (#[trigger] symbols_of(v@)[k]) is Token
            },
            Err(e) => {
                &&& e.fault() is Some
                &&& e.fault() == lead_fault(
                    productions_of(bnfs@),
                    first_symbol(bindings_of(tokens_lst@)),
                )
            },
        },
{
    if tokens_lst.len() == 0 {
        return Ok(Vec::new());
    }
    let ghost lead = tokens_lst@[0].1@;
    let mut start: Vec<FnOrToken> = Vec::new();
    start.push(tokens_lst[0].1.duplicate());
    proof {
        assert(symbols_of(start@) =~= seq![lead]);
        assert(symbols_of(start@).to_set() =~= set![lead]) by {
            assert(symbols_of(start@)[0] == lead);
        }
        assert(first_symbol(bindings_of(tokens_lst@)) == Some(lead));
    }
    serch_next_token(&start, index, bnfs)
}

/// The first set as contracts see it: each token with the positions of the
/// alternatives that it can start.
pub open spec fn entry_of(e: (FnOrToken, Vec<usize>)) -> (Symbol, Seq<int>) {
    (e.0@, positions_of(e.1@))
}

pub open spec fn positions_of(v: Seq<usize>) -> Seq<int> {
    Seq::new(v.len(), |j: int| v[j] as int)
}

pub open spec fn entries_of(v: Seq<(FnOrToken, Vec<usize>)>) -> Seq<(Symbol, Seq<int>)> {
    Seq::new(v.len(), |k: int| entry_of(v[k]))
}

pub open spec fn lists_of(v: Seq<Vec<FnOrToken>>) -> Seq<Seq<Symbol>> {
    Seq::new(v.len(), |m: int| symbols_of(v[m]@))
}

/// The positions, in increasing order, of the lists that hold `key`.
pub fn collect_holders(lists: &Vec<Vec<FnOrToken>>, key: &FnOrToken) -> (r: Vec<usize>)
    requires
        forall|m: int| 0 <= m < lists@.len() ==> strictly_sorted(#[trigger] lists_of(lists@)[m]),
    ensures
        positions_of(r@) == holders(lists_of(lists@), key@, lists@.len() as nat),
{
    let ghost all = lists_of(lists@);
    let mut out: Vec<usize> = Vec::new();
    let mut m: usize = 0;
    while m < lists.len()
        invariant
            m <= lists@.len(),
            all == lists_of(lists@),
            forall|m: int| 0 <= m < lists@.len() ==> strictly_sorted(#[trigger] all[m]),
            positions_of(out@) == holders(all, key@, m as nat),
        decreases lists@.len() - m,
    {
        let ghost before = positions_of(out@);
        assert(strictly_sorted(all[m as int]));
        assert(all[m as int] == symbols_of(lists@[m as int]@));
        let (_, present) = find_slot(&lists[m], key);
        if present {
            out.push(m);
            proof {
                assert(positions_of(out@) =~= before.push(m as int));
            }
        }
        m += 1;
    }
    out
}

/// The first set of a nonterminal with the alternatives `codes`: each token
/// that can start one of them, in strictly increasing order, with the
/// positions of the alternatives that it can start, in document order.
/// It holds tokens only, and every position in it is that of an alternative
/// that is not null.
///
/// Fails if resolving an alternative reaches an undefined nonterminal; the
/// first alternative that fails decides what is reported.
pub fn make_first_set(codes: &Vec<Code>, index: &GrammarIndex, bnfs: &Vec<Bnf>) -> (r: Result<
    Vec<(FnOrToken, Vec<usize>)>,
    Error,
>)
    requires
        index.knows_productions(productions_of(bnfs@)),
    ensures
        match r {
            Ok(v) => {
                &&& resolution_fault(productions_of(bnfs@), alternatives_of(codes@), 0) is None
                &&& entries_of(v@) == first_set(productions_of(bnfs@), alternatives_of(codes@))
                &&& forall|k: int| 0 <= k < v@.len() ==> (#[trigger] entries_of(v@)[k]).0 is Token
                &&& forall|k: int, j: int|
                    0 <= k < v@.len() && 0 <= j < entries_of(v@)[k].1.len() ==> {
                        let i = #[trigger] entries_of(v@)[k].1[j];
                        0 <= i < codes@.len() && !is_null(alternatives_of(codes@)[i])
                    }
            },
            Err(e) => {
                &&& e.fault() is Some
                &&& e.fault() == resolution_fault(
                    productions_of(bnfs@),
                    alternatives_of(codes@),
                    0,
                )
            },
        },
{
    let ghost prods = productions_of(bnfs@);
    let ghost alts = alternatives_of(codes@);
    let mut lists: Vec<Vec<FnOrToken>> = Vec::new();
    let mut keys: Vec<FnOrToken> = Vec::new();
    let mut i: usize = 0;
    while i < codes.len()
        invariant
            i <= codes@.len(),
            index.knows_productions(productions_of(bnfs@)),
            prods == productions_of(bnfs@),
            alts == alternatives_of(codes@),
            lists@.len() == i,
            forall|m: int|
                0 <= m < i ==> is_first_list(prods, leading(alts[m]), #[trigger] lists_of(lists@)[m]),
            strictly_sorted(symbols_of(keys@)),
            forall|s: Symbol| #[trigger]
                symbols_of(keys@).contains(s) <==> starts_within(prods, alts, i as int, s),
            resolution_fault(prods, alts, 0) == resolution_fault(prods, alts, i as int),
        decreases codes@.len() - i,
    {
        proof {
            assert(alts[i as int] == alternative_of(codes@[i as int]));
        }
        match make_next_tokens_lst(&codes[i].0, index, bnfs) {
            Err(e) => {
                return Err(e);
            },
            Ok(lst) => {
                let ghost keys_before = symbols_of(keys@);
                let ghost lists_before = lists_of(lists@);
                expand_into(&mut keys, &lst);
                lists.push(lst);
                proof {
                    assert forall|m: int| 0 <= m < i + 1 implies is_first_list(
                        prods,
                        leading(alts[m]),
                        #[trigger] lists_of(lists@)[m],
                    ) by {
                        if m < i {
                            assert(lists_of(lists@)[m] == lists_before[m]);
                        }
                    }
                    assert forall|s: Symbol| #[trigger]
                        symbols_of(keys@).contains(s) <==> starts_within(
                            prods,
                            alts,
                            i + 1,
                            s,
                        ) by {
                        assert(keys_before.contains(s) <==> starts_within(
                            prods,
                            alts,
                            i as int,
                            s,
                        ));
                        if starts_within(prods, alts, i as int, s) {
                            let m = choose|m: int|
                                0 <= m < i && feeds(prods, #[trigger] alts[m], s);
                            assert(0 <= m < i + 1 && feeds(prods, alts[m], s));
                        }
                        if symbols_of(lists@[i as int]@).contains(s) {
                            assert(0 <= i < i + 1 && feeds(prods, alts[i as int], s));
                        }
                        if starts_within(prods, alts, i + 1, s) {
                            let m = choose|m: int|
                                0 <= m < i + 1 && feeds(prods, #[trigger] alts[m], s);
                            if m < i {
                                assert(starts_within(prods, alts, i as int, s));
                            }
                        }
                    }
                }
            },
        }
        i += 1;
    }
    let ghost listing = symbols_of(keys@);
    proof {
        assert forall|s: Symbol| listing.contains(s) <==> first_symbols(prods, alts).contains(
            s,
        ) by {
            assert(listing.contains(s) <==> starts_within(prods, alts, alts.len() as int, s));
        }
        lemma_sorted_listing(listing, first_symbols(prods, alts));
        assert forall|m: int| 0 <= m < lists@.len() implies strictly_sorted(
            #[trigger] lists_of(lists@)[m],
        ) by {
            assert(is_first_list(prods, leading(alts[m]), lists_of(lists@)[m]));
        }
    }
    let mut out: Vec<(FnOrToken, Vec<usize>)> = Vec::new();
    let mut k: usize = 0;
    while k < keys.len()
        invariant
            k <= keys@.len(),
            prods == productions_of(bnfs@),
            alts == alternatives_of(codes@),
            lists@.len() == alts.len(),
            listing == symbols_of(keys@),
            listing == sorted_listing(first_symbols(prods, alts)),
            forall|m: int|
                0 <= m < lists@.len() ==> is_first_list(
                    prods,
                    leading(alts[m]),
                    #[trigger] lists_of(lists@)[m],
                ),
            forall|m: int| 0 <= m < lists@.len() ==> strictly_sorted(#[trigger] lists_of(lists@)[m]),
            out@.len() == k,
            forall|n: int|
                0 <= n < k ==> #[trigger] entries_of(out@)[n] == first_set(prods, alts)[n],
        decreases keys@.len() - k,
    {
        let origin = collect_holders(&lists, &keys[k]);
        let ghost before = entries_of(out@);
        proof {
            assert(listing[k as int] == keys@[k as int]@);
            lemma_holders(prods, alts, lists_of(lists@), listing[k as int], alts.len());
        }
        out.push((keys[k].duplicate(), origin));
        proof {
            assert forall|n: int| 0 <= n < k + 1 implies #[trigger] entries_of(out@)[n]
                == first_set(prods, alts)[n] by {
                if n < k {
                    assert(entries_of(out@)[n] == before[n]);
                }
            }
        }
        k += 1;
    }
    proof {
        assert(entries_of(out@) =~= first_set(prods, alts));
        assert forall|k: int| 0 <= k < out@.len() implies (#[trigger] entries_of(out@)[k]).0 is Token by {
            lemma_first_set_entries(prods, alts, k);
        }
        assert forall|k: int, j: int|
            0 <= k < out@.len() && 0 <= j < entries_of(out@)[k].1.len() implies {
            let i = #[trigger] entries_of(out@)[k].1[j];
            0 <= i < codes@.len() && !is_null(alts[i])
        } by {
            lemma_first_set_entries(prods, alts, k);
        }
    }
    Ok(out)
}

} // verus!
