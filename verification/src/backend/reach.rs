//! Which symbols the leading symbols of a grammar lead to, and which
//! undefined nonterminal resolution reports when it meets one.

use crate::backend::grammar::{
    grammar_heads, heads, last_index, leading, lemma_grammar_heads, lemma_heads, lemma_last_index,
    production_names, production_of,
};
use crate::backend::symbols::{strictly_sorted, symbol_lt};
use crate::error::Fault;
use crate::text::{
    lemma_name_lt_asymmetric, lemma_name_lt_connected, lemma_name_lt_irreflexive, name_lt,
};
use crate::types::{Alternative, Production, Symbol};
use vstd::prelude::*;

verus! {

/// Whether `to` is the leading symbol of an alternative of the nonterminal
/// `from`. A token leads nowhere, and neither does an undefined nonterminal.
pub open spec fn derives(prods: Seq<Production>, from: Symbol, to: Symbol) -> bool {
    match from {
        Symbol::Nonterminal(name) => match production_of(prods, name) {
            Some(p) => exists|i: int|
                0 <= i < p.alternatives.len() && #[trigger] leading(p.alternatives[i]) == Some(to),
            None => false,
        },
        Symbol::Token(_) => false,
    }
}

/// What one symbol expands to: a token to itself, a nonterminal to the
/// leading symbols of its alternatives.
pub open spec fn expansion(prods: Seq<Production>, s: Symbol) -> Seq<Symbol> {
    match s {
        Symbol::Token(_) => seq![s],
        Symbol::Nonterminal(name) => match production_of(prods, name) {
            Some(p) => heads(p.alternatives),
            None => Seq::empty(),
        },
    }
}

/// A symbol is in the expansion of another exactly if it is that token
/// itself or a leading symbol of that nonterminal.
pub proof fn lemma_expansion(prods: Seq<Production>, from: Symbol, s: Symbol)
    ensures
        expansion(prods, from).contains(s) <==> (from is Token && s == from) || derives(
            prods,
            from,
            s,
        ),
{
    match from {
        Symbol::Token(_) => {
            if s == from {
                assert(seq![from][0] == s);
            }
        },
        Symbol::Nonterminal(name) => {
            match production_of(prods, name) {
                Some(p) => {
                    lemma_heads(p.alternatives, s);
                },
                None => {},
            }
        },
    }
}

/// Whether `to` is one of `sources` or can be had from one of them by
/// following leading symbols at most `steps` times.
pub open spec fn within(
    prods: Seq<Production>,
    sources: Set<Symbol>,
    to: Symbol,
    steps: nat,
) -> bool
    decreases steps,
{
    sources.contains(to) || (steps > 0 && exists|mid: Symbol|
        within(prods, sources, mid, (steps - 1) as nat) && #[trigger] derives(prods, mid, to))
}

/// Whether following leading symbols from one of `sources` ever arrives at `to`.
pub open spec fn reachable_from(prods: Seq<Production>, sources: Set<Symbol>, to: Symbol) -> bool {
    exists|steps: nat| within(prods, sources, to, steps)
}

/// Whether following leading symbols from `from` ever arrives at `to`.
pub open spec fn reachable(prods: Seq<Production>, from: Symbol, to: Symbol) -> bool {
    reachable_from(prods, set![from], to)
}

pub proof fn lemma_within_monotone(
    prods: Seq<Production>,
    sources: Set<Symbol>,
    to: Symbol,
    steps: nat,
    more: nat,
)
    requires
        within(prods, sources, to, steps),
        steps <= more,
    ensures
        within(prods, sources, to, more),
    decreases steps,
{
    if !sources.contains(to) {
        let mid = choose|mid: Symbol|
            within(prods, sources, mid, (steps - 1) as nat) && #[trigger] derives(prods, mid, to);
        lemma_within_monotone(prods, sources, mid, (steps - 1) as nat, (more - 1) as nat);
    }
}

/// One more leading symbol after a reachable symbol is reachable.
pub proof fn lemma_reachable_step(
    prods: Seq<Production>,
    sources: Set<Symbol>,
    mid: Symbol,
    to: Symbol,
)
    requires
        reachable_from(prods, sources, mid),
        derives(prods, mid, to),
    ensures
        reachable_from(prods, sources, to),
{
    let k = choose|steps: nat| within(prods, sources, mid, steps);
    assert(within(prods, sources, to, k + 1));
}

proof fn lemma_reachable_chain(
    prods: Seq<Production>,
    sources: Set<Symbol>,
    mid: Symbol,
    to: Symbol,
    steps: nat,
)
    requires
        reachable_from(prods, sources, mid),
        within(prods, set![mid], to, steps),
    ensures
        reachable_from(prods, sources, to),
    decreases steps,
{
    if !set![mid].contains(to) {
        let via = choose|via: Symbol|
            within(prods, set![mid], via, (steps - 1) as nat) && #[trigger] derives(prods, via, to);
        lemma_reachable_chain(prods, sources, mid, via, (steps - 1) as nat);
        lemma_reachable_step(prods, sources, via, to);
    }
}

/// What can be reached from a reachable symbol is reachable.
pub proof fn lemma_reachable_transitive(
    prods: Seq<Production>,
    sources: Set<Symbol>,
    mid: Symbol,
    to: Symbol,
)
    requires
        reachable_from(prods, sources, mid),
        reachable(prods, mid, to),
    ensures
        reachable_from(prods, sources, to),
{
    let k = choose|steps: nat| within(prods, set![mid], to, steps);
    lemma_reachable_chain(prods, sources, mid, to, k);
}

/// A step from the start can be taken first: what is reached from `from`
/// in some steps, and is not `from`, is reached from one of its leading
/// symbols in one step less.
pub proof fn lemma_first_step(prods: Seq<Production>, from: Symbol, to: Symbol, steps: nat)
    requires
        within(prods, set![from], to, steps),
        to != from,
    ensures
        steps > 0,
        exists|l: Symbol| #[trigger]
            derives(prods, from, l) && within(prods, set![l], to, (steps - 1) as nat),
    decreases steps,
{
    let mid = choose|mid: Symbol|
        within(prods, set![from], mid, (steps - 1) as nat) && #[trigger] derives(prods, mid, to);
    if mid == from {
        assert(set![to].contains(to));
        assert(derives(prods, from, to) && within(prods, set![to], to, (steps - 1) as nat));
    } else {
        lemma_first_step(prods, from, mid, (steps - 1) as nat);
        let l = choose|l: Symbol| #[trigger]
            derives(prods, from, l) && within(prods, set![l], mid, (steps - 2) as nat);
        assert(within(prods, set![l], to, (steps - 1) as nat));
    }
}

/// Where one more step adds nothing, no number of steps does.
pub proof fn lemma_fixed_point(
    prods: Seq<Production>,
    sources: Set<Symbol>,
    k: nat,
    to: Symbol,
    steps: nat,
)
    requires
        forall|s: Symbol| within(prods, sources, s, k + 1) ==> within(prods, sources, s, k),
        within(prods, sources, to, steps),
    ensures
        within(prods, sources, to, k),
    decreases steps,
{
    if !sources.contains(to) {
        let mid = choose|mid: Symbol|
            within(prods, sources, mid, (steps - 1) as nat) && #[trigger] derives(prods, mid, to);
        lemma_fixed_point(prods, sources, k, mid, (steps - 1) as nat);
        assert(within(prods, sources, to, k + 1));
    }
}

/// Whatever is within some number of steps of the sources is a source or
/// the leading symbol of some alternative of the grammar.
pub proof fn lemma_within_bounded(
    prods: Seq<Production>,
    sources: Set<Symbol>,
    to: Symbol,
    steps: nat,
)
    requires
        within(prods, sources, to, steps),
    ensures
        sources.contains(to) || grammar_heads(prods).contains(to),
{
    if !sources.contains(to) {
        let mid = choose|mid: Symbol|
            within(prods, sources, mid, (steps - 1) as nat) && #[trigger] derives(prods, mid, to);
        let name = mid->Nonterminal_0;
        let names = production_names(prods);
        lemma_last_index(names, name);
        let k = last_index(names, name).unwrap();
        let p = prods[k];
        let i = choose|i: int|
            0 <= i < p.alternatives.len() && #[trigger] leading(p.alternatives[i]) == Some(to);
        lemma_grammar_heads(prods);
        assert(leading(prods[k].alternatives[i]) is Some);
    }
}

/// A nonterminal that no production defines.
pub open spec fn is_undefined(prods: Seq<Production>, s: Symbol) -> bool {
    match s {
        Symbol::Nonterminal(name) => production_of(prods, name) is None,
        Symbol::Token(_) => false,
    }
}

pub open spec fn undefined_within(
    prods: Seq<Production>,
    sources: Set<Symbol>,
    name: Seq<char>,
    steps: nat,
) -> bool {
    within(prods, sources, Symbol::Nonterminal(name), steps) && production_of(prods, name) is None
}

pub open spec fn none_undefined_within(
    prods: Seq<Production>,
    sources: Set<Symbol>,
    steps: nat,
) -> bool {
    forall|m: Seq<char>| !undefined_within(prods, sources, m, steps)
}

/// Whether `name` is, among the undefined nonterminals that can be reached
/// from `sources`, one of those in the fewest steps, and of those the first
/// by name.
pub open spec fn nearest_undefined(
    prods: Seq<Production>,
    sources: Set<Symbol>,
    name: Seq<char>,
) -> bool {
    exists|steps: nat|
        {
            &&& #[trigger] undefined_within(prods, sources, name, steps)
            &&& forall|m: Seq<char>|
                undefined_within(prods, sources, m, steps) ==> !name_lt(m, name)
            &&& steps > 0 ==> none_undefined_within(prods, sources, (steps - 1) as nat)
        }
}

/// Whether every nonterminal that can be reached from `sources` is defined.
pub open spec fn all_defined(prods: Seq<Production>, sources: Set<Symbol>) -> bool {
    forall|s: Symbol| reachable_from(prods, sources, s) ==> !is_undefined(prods, s)
}

/// The undefined nonterminal that resolution from `sources` reports: the
/// nearest one, and of several equally near the first by name.
pub open spec fn first_undefined(prods: Seq<Production>, sources: Set<Symbol>) -> Seq<char> {
    choose|name: Seq<char>| nearest_undefined(prods, sources, name)
}

/// A second report of the nearest undefined nonterminal names the same one.
pub proof fn lemma_nearest_undefined_unique(
    prods: Seq<Production>,
    sources: Set<Symbol>,
    a: Seq<char>,
    b: Seq<char>,
)
    requires
        nearest_undefined(prods, sources, a),
        nearest_undefined(prods, sources, b),
    ensures
        a == b,
{
    let ka = choose|steps: nat|
        {
            &&& #[trigger] undefined_within(prods, sources, a, steps)
            &&& forall|m: Seq<char>| undefined_within(prods, sources, m, steps) ==> !name_lt(m, a)
            &&& steps > 0 ==> none_undefined_within(prods, sources, (steps - 1) as nat)
        };
    let kb = choose|steps: nat|
        {
            &&& #[trigger] undefined_within(prods, sources, b, steps)
            &&& forall|m: Seq<char>| undefined_within(prods, sources, m, steps) ==> !name_lt(m, b)
            &&& steps > 0 ==> none_undefined_within(prods, sources, (steps - 1) as nat)
        };
    if ka < kb {
        lemma_within_monotone(prods, sources, Symbol::Nonterminal(a), ka, (kb - 1) as nat);
        assert(undefined_within(prods, sources, a, (kb - 1) as nat));
    } else if kb < ka {
        lemma_within_monotone(prods, sources, Symbol::Nonterminal(b), kb, (ka - 1) as nat);
        assert(undefined_within(prods, sources, b, (ka - 1) as nat));
    } else {
        assert(!name_lt(a, b));
        assert(!name_lt(b, a));
        lemma_name_lt_connected(a, b);
    }
}

/// The report of resolution is the nonterminal that is nearest and first.
pub proof fn lemma_first_undefined(prods: Seq<Production>, sources: Set<Symbol>, name: Seq<char>)
    requires
        nearest_undefined(prods, sources, name),
    ensures
        first_undefined(prods, sources) == name,
{
    lemma_nearest_undefined_unique(prods, sources, name, first_undefined(prods, sources));
}

/// The first undefined nonterminal of a level, in the order of symbols, is
/// the nearest undefined nonterminal if no level before holds one.
pub proof fn lemma_first_in_level(
    prods: Seq<Production>,
    sources: Set<Symbol>,
    level: Seq<Symbol>,
    steps: nat,
    at: int,
)
    requires
        strictly_sorted(level),
        forall|s: Symbol| level.contains(s) <==> within(prods, sources, s, steps),
        steps > 0 ==> none_undefined_within(prods, sources, (steps - 1) as nat),
        0 <= at < level.len(),
        is_undefined(prods, level[at]),
        forall|m: int| 0 <= m < at ==> !is_undefined(prods, #[trigger] level[m]),
    ensures
        level[at] is Nonterminal,
        nearest_undefined(prods, sources, level[at]->Nonterminal_0),
{
    let name = level[at]->Nonterminal_0;
    assert(level.contains(level[at]));
    assert(undefined_within(prods, sources, name, steps));
    assert forall|m: Seq<char>| undefined_within(prods, sources, m, steps) implies !name_lt(
        m,
        name,
    ) by {
        let s = Symbol::Nonterminal(m);
        assert(level.contains(s));
        let k = choose|k: int| 0 <= k < level.len() && level[k] == s;
        if k < at {
            assert(!is_undefined(prods, level[k]));
        } else if k == at {
            lemma_name_lt_irreflexive(name);
        } else {
            assert(symbol_lt(level[at], level[k]));
            lemma_name_lt_asymmetric(name, m);
        }
    }
}

/// The fault that resolution from `lead` meets: the nearest undefined
/// nonterminal, if one is reached.
pub open spec fn lead_fault(prods: Seq<Production>, lead: Option<Symbol>) -> Option<Fault> {
    match lead {
        Some(l) => if all_defined(prods, set![l]) {
            None
        } else {
            Some(Fault::UnknownNonterminal(first_undefined(prods, set![l])))
        },
        None => None,
    }
}

/// The fault that resolving the leading symbol of an alternative meets.
pub open spec fn alternative_fault(prods: Seq<Production>, alt: Alternative) -> Option<Fault> {
    lead_fault(prods, leading(alt))
}

/// The first fault that resolving the alternatives from position `from` on
/// meets, in document order.
pub open spec fn resolution_fault(
    prods: Seq<Production>,
    alts: Seq<Alternative>,
    from: int,
) -> Option<Fault>
    decreases alts.len() - from,
{
    if from < 0 || from >= alts.len() {
        None
    } else {
        match alternative_fault(prods, alts[from]) {
            Some(f) => Some(f),
            None => resolution_fault(prods, alts, from + 1),
        }
    }
}

} // verus!
