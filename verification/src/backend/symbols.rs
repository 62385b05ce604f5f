//! The order of symbols, and sets of symbols kept as strictly increasing
//! sequences: a set has exactly one such listing, so two resolvers that
//! find the same symbols return the same vector.

use crate::text::{
    Rank, lemma_name_lt_asymmetric, lemma_name_lt_connected, lemma_name_lt_irreflexive,
    lemma_name_lt_transitive, name_lt, rank_names,
};
use crate::types::{FnOrToken, Symbol, symbols_of};
use vstd::prelude::*;

verus! {

/// The order of symbols: every nonterminal comes before every token, and
/// two symbols of one kind are ordered by their names.
pub open spec fn symbol_lt(a: Symbol, b: Symbol) -> bool {
    match (a, b) {
        (Symbol::Nonterminal(x), Symbol::Nonterminal(y)) => name_lt(x, y),
        (Symbol::Token(x), Symbol::Token(y)) => name_lt(x, y),
        (Symbol::Nonterminal(_), Symbol::Token(_)) => true,
        (Symbol::Token(_), Symbol::Nonterminal(_)) => false,
    }
}

pub proof fn lemma_symbol_lt_irreflexive(a: Symbol)
    ensures
        !symbol_lt(a, a),
{
    match a {
        Symbol::Nonterminal(x) => lemma_name_lt_irreflexive(x),
        Symbol::Token(x) => lemma_name_lt_irreflexive(x),
    }
}

pub proof fn lemma_symbol_lt_transitive(a: Symbol, b: Symbol, c: Symbol)
    requires
        symbol_lt(a, b),
        symbol_lt(b, c),
    ensures
        symbol_lt(a, c),
{
    match (a, b, c) {
        (Symbol::Nonterminal(x), Symbol::Nonterminal(y), Symbol::Nonterminal(z)) => {
            lemma_name_lt_transitive(x, y, z)
        },
        (Symbol::Token(x), Symbol::Token(y), Symbol::Token(z)) => {
            lemma_name_lt_transitive(x, y, z)
        },
        _ => {},
    }
}

pub proof fn lemma_symbol_lt_connected(a: Symbol, b: Symbol)
    ensures
        symbol_lt(a, b) || symbol_lt(b, a) || a == b,
{
    match (a, b) {
        (Symbol::Nonterminal(x), Symbol::Nonterminal(y)) => lemma_name_lt_connected(x, y),
        (Symbol::Token(x), Symbol::Token(y)) => lemma_name_lt_connected(x, y),
        _ => {},
    }
}

pub proof fn lemma_symbol_lt_asymmetric(a: Symbol, b: Symbol)
    requires
        symbol_lt(a, b),
    ensures
        !symbol_lt(b, a),
        a != b,
{
    match (a, b) {
        (Symbol::Nonterminal(x), Symbol::Nonterminal(y)) => lemma_name_lt_asymmetric(x, y),
        (Symbol::Token(x), Symbol::Token(y)) => lemma_name_lt_asymmetric(x, y),
        _ => {},
    }
}

/// A sequence of symbols in strictly increasing order. Such a sequence holds
/// no symbol twice.
pub open spec fn strictly_sorted(v: Seq<Symbol>) -> bool {
    forall|i: int, j: int|
        #![trigger v[i], v[j]]
        0 <= i < j < v.len() ==> symbol_lt(v[i], v[j])
}

pub proof fn lemma_sorted_no_duplicates(v: Seq<Symbol>)
    requires
        strictly_sorted(v),
    ensures
        v.no_duplicates(),
{
    assert forall|i: int, j: int| 0 <= i < v.len() && 0 <= j < v.len() && i != j implies v[i]
        != v[j] by {
        if i < j {
            lemma_symbol_lt_asymmetric(v[i], v[j]);
        } else {
            lemma_symbol_lt_asymmetric(v[j], v[i]);
        }
    }
}

pub open spec fn is_sorted_listing(v: Seq<Symbol>, s: Set<Symbol>) -> bool {
    strictly_sorted(v) && forall|x: Symbol| v.contains(x) <==> s.contains(x)
}

/// The strictly increasing listing of a finite set of symbols.
pub open spec fn sorted_listing(s: Set<Symbol>) -> Seq<Symbol> {
    choose|v: Seq<Symbol>| is_sorted_listing(v, s)
}

/// A set of symbols has at most one strictly increasing listing.
pub proof fn lemma_sorted_listing_unique(a: Seq<Symbol>, b: Seq<Symbol>)
    requires
        strictly_sorted(a),
        strictly_sorted(b),
        forall|s: Symbol| a.contains(s) <==> b.contains(s),
    ensures
        a == b,
    decreases a.len(),
{
    if a.len() == 0 {
        if b.len() > 0 {
            assert(b.contains(b[0]));
        }
        assert(a =~= b);
    } else {
        assert(a.contains(a[0]));
        if b.len() == 0 {
            assert(b.contains(a[0]));
        }
        assert(b.contains(b[0]));
        let i = choose|i: int| 0 <= i < a.len() && a[i] == b[0];
        let j = choose|j: int| 0 <= j < b.len() && b[j] == a[0];
        if j > 0 {
            // b[0] < b[j] == a[0] <= a[i] == b[0]
            if i > 0 {
                lemma_symbol_lt_transitive(b[0], a[0], a[i]);
            }
            lemma_symbol_lt_irreflexive(b[0]);
        }
        assert(a[0] == b[0]);
        let ta = a.drop_first();
        let tb = b.drop_first();
        assert forall|s: Symbol| ta.contains(s) <==> tb.contains(s) by {
            if ta.contains(s) {
                let k = choose|k: int| 0 <= k < ta.len() && ta[k] == s;
                assert(a[k + 1] == s);
                lemma_symbol_lt_asymmetric(a[0], a[k + 1]);
                assert(b.contains(s));
                let m = choose|m: int| 0 <= m < b.len() && b[m] == s;
                assert(tb[m - 1] == s);
            }
            if tb.contains(s) {
                let k = choose|k: int| 0 <= k < tb.len() && tb[k] == s;
                assert(b[k + 1] == s);
                lemma_symbol_lt_asymmetric(b[0], b[k + 1]);
                assert(a.contains(s));
                let m = choose|m: int| 0 <= m < a.len() && a[m] == s;
                assert(ta[m - 1] == s);
            }
        }
        assert(strictly_sorted(ta)) by {
            assert forall|x: int, y: int| 0 <= x < y < ta.len() implies symbol_lt(
                #[trigger] ta[x],
                #[trigger] ta[y],
            ) by {
                assert(symbol_lt(a[x + 1], a[y + 1]));
            }
        }
        assert(strictly_sorted(tb)) by {
            assert forall|x: int, y: int| 0 <= x < y < tb.len() implies symbol_lt(
                #[trigger] tb[x],
                #[trigger] tb[y],
            ) by {
                assert(symbol_lt(b[x + 1], b[y + 1]));
            }
        }
        lemma_sorted_listing_unique(ta, tb);
        assert(a =~= seq![a[0]] + ta);
        assert(b =~= seq![b[0]] + tb);
    }
}

/// A sequence that lists a set in strictly increasing order is its listing.
pub proof fn lemma_sorted_listing(v: Seq<Symbol>, s: Set<Symbol>)
    requires
        is_sorted_listing(v, s),
    ensures
        sorted_listing(s) == v,
{
    lemma_sorted_listing_unique(v, sorted_listing(s));
}

/// A strictly increasing sequence splits at every symbol that it does not
/// hold: what stands before the split is below the symbol, and what stands
/// from it on is above.
pub proof fn lemma_split_point(v: Seq<Symbol>, x: Symbol) -> (at: int)
    requires
        strictly_sorted(v),
        !v.contains(x),
    ensures
        0 <= at <= v.len(),
        forall|k: int| 0 <= k < at ==> symbol_lt(#[trigger] v[k], x),
        forall|k: int| at <= k < v.len() ==> symbol_lt(x, #[trigger] v[k]),
    decreases v.len(),
{
    if v.len() == 0 {
        0
    } else {
        let last = v.last();
        assert(v.contains(last));
        lemma_symbol_lt_connected(last, x);
        if symbol_lt(last, x) {
            assert forall|k: int| 0 <= k < v.len() implies symbol_lt(#[trigger] v[k], x) by {
                if k < v.len() - 1 {
                    assert(symbol_lt(v[k], v[v.len() - 1]));
                    lemma_symbol_lt_transitive(v[k], last, x);
                }
            }
            v.len() as int
        } else {
            let rest = v.drop_last();
            assert(strictly_sorted(rest)) by {
                assert forall|i: int, j: int| 0 <= i < j < rest.len() implies symbol_lt(
                    #[trigger] rest[i],
                    #[trigger] rest[j],
                ) by {
                    assert(symbol_lt(v[i], v[j]));
                }
            }
            if rest.contains(x) {
                let k = choose|k: int| 0 <= k < rest.len() && rest[k] == x;
                assert(v[k] == x);
            }
            let at = lemma_split_point(rest, x);
            assert forall|k: int| 0 <= k < at implies symbol_lt(#[trigger] v[k], x) by {
                assert(rest[k] == v[k]);
            }
            assert forall|k: int| at <= k < v.len() implies symbol_lt(x, #[trigger] v[k]) by {
                if k < rest.len() {
                    assert(rest[k] == v[k]);
                }
            }
            at
        }
    }
}

/// Every finite set of symbols has a strictly increasing listing.
pub proof fn lemma_listing_exists(s: Set<Symbol>)
    requires
        s.finite(),
    ensures
        is_sorted_listing(sorted_listing(s), s),
    decreases s.len(),
{
    if s.len() == 0 {
        let nothing = Seq::<Symbol>::empty();
        assert(is_sorted_listing(nothing, s)) by {
            assert forall|x: Symbol| nothing.contains(x) <==> s.contains(x) by {
                if s.contains(x) {
                    vstd::set::axiom_set_contains_len(s, x);
                }
            }
        }
    } else {
        let x = s.choose();
        vstd::set::axiom_set_choose_len(s);
        let rest = s.remove(x);
        vstd::set::axiom_set_remove_finite(s, x);
        vstd::set::axiom_set_remove_len(s, x);
        lemma_listing_exists(rest);
        let v = sorted_listing(rest);
        let at = lemma_split_point(v, x);
        let w = v.insert(at, x);
        assert(is_sorted_listing(w, s)) by {
            assert forall|i: int, j: int| 0 <= i < j < w.len() implies symbol_lt(
                #[trigger] w[i],
                #[trigger] w[j],
            ) by {
                if j < at {
                    assert(symbol_lt(v[i], v[j]));
                } else if j == at {
                    assert(symbol_lt(v[i], x));
                } else if i < at {
                    assert(symbol_lt(v[i], v[j - 1]));
                } else if i == at {
                    assert(symbol_lt(x, v[j - 1]));
                } else {
                    assert(symbol_lt(v[i - 1], v[j - 1]));
                }
            }
            assert forall|y: Symbol| w.contains(y) <==> s.contains(y) by {
                if w.contains(y) {
                    let k = choose|k: int| 0 <= k < w.len() && w[k] == y;
                    if k < at {
                        assert(v[k] == y);
                        assert(v.contains(y));
                    } else if k > at {
                        assert(v[k - 1] == y);
                        assert(v.contains(y));
                    }
                }
                if s.contains(y) {
                    if y == x {
                        assert(w[at] == y);
                    } else {
                        assert(rest.contains(y));
                        assert(v.contains(y));
                        let k = choose|k: int| 0 <= k < v.len() && v[k] == y;
                        if k < at {
                            assert(w[k] == y);
                        } else {
                            assert(w[k + 1] == y);
                        }
                    }
                }
            }
        }
    }
}

/// A strictly increasing sequence of members of a finite set is no longer
/// than the set is large.
pub proof fn lemma_listing_bounded(v: Seq<Symbol>, universe: Set<Symbol>)
    requires
        strictly_sorted(v),
        universe.finite(),
        forall|s: Symbol| v.contains(s) ==> universe.contains(s),
    ensures
        v.len() <= universe.len(),
{
    lemma_sorted_no_duplicates(v);
    v.unique_seq_to_set();
    assert(v.to_set().subset_of(universe));
    vstd::set_lib::lemma_len_subset(v.to_set(), universe);
}

/// Of two strictly increasing sequences, one holding all of the other: the
/// larger is at least as long, and if it is no longer it holds nothing more.
pub proof fn lemma_listing_grows(a: Seq<Symbol>, b: Seq<Symbol>)
    requires
        strictly_sorted(a),
        strictly_sorted(b),
        forall|s: Symbol| a.contains(s) ==> b.contains(s),
    ensures
        a.len() <= b.len(),
        a.len() == b.len() ==> forall|s: Symbol| b.contains(s) ==> a.contains(s),
{
    broadcast use vstd::seq_lib::seq_to_set_is_finite;

    lemma_sorted_no_duplicates(a);
    lemma_sorted_no_duplicates(b);
    a.unique_seq_to_set();
    b.unique_seq_to_set();
    assert(a.to_set().subset_of(b.to_set()));
    vstd::set_lib::lemma_len_subset(a.to_set(), b.to_set());
    if a.len() == b.len() {
        vstd::set_lib::lemma_subset_equality(a.to_set(), b.to_set());
        assert forall|s: Symbol| b.contains(s) implies a.contains(s) by {
            assert(b.to_set().contains(s));
            assert(a.to_set().contains(s));
        }
    }
}

pub open spec fn symbol_rank(a: Symbol, b: Symbol) -> Rank {
    if symbol_lt(a, b) {
        Rank::Before
    } else if a == b {
        Rank::Same
    } else {
        Rank::After
    }
}

/// Where `a` stands relative to `b` in the order of symbols.
pub fn rank_symbols(a: &FnOrToken, b: &FnOrToken) -> (r: Rank)
    ensures
        r == symbol_rank(a@, b@),
{
    match (a, b) {
        (FnOrToken::Function(x), FnOrToken::Function(y)) => rank_names(x.as_str(), y.as_str()),
        (FnOrToken::Token(x), FnOrToken::Token(y)) => rank_names(x.as_str(), y.as_str()),
        (FnOrToken::Function(_), FnOrToken::Token(_)) => Rank::Before,
        (FnOrToken::Token(_), FnOrToken::Function(_)) => Rank::After,
    }
}

/// The place of `symbol` in a strictly increasing vector: the position at
/// which it stands, or at which it would have to be inserted, and whether it
/// is there.
pub fn find_slot(set: &Vec<FnOrToken>, symbol: &FnOrToken) -> (r: (usize, bool))
    requires
        strictly_sorted(symbols_of(set@)),
    ensures
        r.0 <= set@.len(),
        forall|k: int| 0 <= k < r.0 ==> symbol_lt(#[trigger] symbols_of(set@)[k], symbol@),
        forall|k: int|
            r.0 + (if r.1 { 1int } else { 0int }) <= k < set@.len() ==> symbol_lt(
                symbol@,
                #[trigger] symbols_of(set@)[k],
            ),
        r.1 ==> r.0 < set@.len() && symbols_of(set@)[r.0 as int] == symbol@,
        r.1 <==> symbols_of(set@).contains(symbol@),
{
    let ghost view = symbols_of(set@);
    let mut i: usize = 0;
    while i < set.len()
        invariant
            i <= set@.len(),
            view == symbols_of(set@),
            strictly_sorted(view),
            forall|k: int| 0 <= k < i ==> symbol_lt(#[trigger] view[k], symbol@),
        decreases set@.len() - i,
    {
        let rank = rank_symbols(&set[i], symbol);
        assert(view[i as int] == set@[i as int]@);
        match rank {
            Rank::Before => {
                i += 1;
            },
            Rank::Same => {
                proof {
                    assert forall|k: int| i + 1 <= k < set@.len() implies symbol_lt(
                        symbol@,
                        #[trigger] view[k],
                    ) by {
                        assert(symbol_lt(view[i as int], view[k]));
                    }
                    assert(view.contains(symbol@));
                }
                return (i, true);
            },
            Rank::After => {
                proof {
                    lemma_symbol_lt_connected(view[i as int], symbol@);
                    assert forall|k: int| i <= k < set@.len() implies symbol_lt(
                        symbol@,
                        #[trigger] view[k],
                    ) by {
                        if k > i {
                            assert(symbol_lt(view[i as int], view[k]));
                            lemma_symbol_lt_transitive(symbol@, view[i as int], view[k]);
                        }
                    }
                    lemma_absent(view, symbol@, i as int);
                }
                return (i, false);
            },
        }
    }
    proof {
        lemma_absent(view, symbol@, i as int);
    }
    (i, false)
}

/// A symbol that is above everything before a position and below everything
/// from it on does not occur.
pub proof fn lemma_absent(view: Seq<Symbol>, symbol: Symbol, at: int)
    requires
        0 <= at <= view.len(),
        forall|k: int| 0 <= k < at ==> symbol_lt(#[trigger] view[k], symbol),
        forall|k: int| at <= k < view.len() ==> symbol_lt(symbol, #[trigger] view[k]),
    ensures
        !view.contains(symbol),
{
    if view.contains(symbol) {
        let k = choose|k: int| 0 <= k < view.len() && view[k] == symbol;
        lemma_symbol_lt_irreflexive(symbol);
    }
}

/// Inserting a symbol at its place keeps a vector strictly increasing.
pub proof fn lemma_insert_sorted(view: Seq<Symbol>, symbol: Symbol, at: int)
    requires
        strictly_sorted(view),
        0 <= at <= view.len(),
        forall|k: int| 0 <= k < at ==> symbol_lt(#[trigger] view[k], symbol),
        forall|k: int| at <= k < view.len() ==> symbol_lt(symbol, #[trigger] view[k]),
    ensures
        strictly_sorted(view.insert(at, symbol)),
        forall|s: Symbol| view.insert(at, symbol).contains(s) <==> view.contains(s) || s == symbol,
{
    let after = view.insert(at, symbol);
    assert forall|i: int, j: int| 0 <= i < j < after.len() implies symbol_lt(
        #[trigger] after[i],
        #[trigger] after[j],
    ) by {
        if j < at {
            assert(symbol_lt(view[i], view[j]));
        } else if j == at {
            assert(symbol_lt(view[i], symbol));
        } else if i < at {
            assert(symbol_lt(view[i], view[j - 1]));
        } else if i == at {
            assert(symbol_lt(symbol, view[j - 1]));
        } else {
            assert(symbol_lt(view[i - 1], view[j - 1]));
        }
    }
    assert forall|s: Symbol| after.contains(s) <==> view.contains(s) || s == symbol by {
        if after.contains(s) {
            let k = choose|k: int| 0 <= k < after.len() && after[k] == s;
            if k < at {
                assert(view[k] == s);
            } else if k > at {
                assert(view[k - 1] == s);
            }
        }
        if view.contains(s) {
            let k = choose|k: int| 0 <= k < view.len() && view[k] == s;
            if k < at {
                assert(after[k] == s);
            } else {
                assert(after[k + 1] == s);
            }
        }
        if s == symbol {
            assert(after[at] == s);
        }
    }
}

/// Adds `symbol` to a set kept as a strictly increasing vector. Returns the
/// position at which the symbol then stands, and whether it was new.
pub fn insert_symbol(set: &mut Vec<FnOrToken>, symbol: &FnOrToken) -> (r: (usize, bool))
    requires
        strictly_sorted(symbols_of(old(set)@)),
    ensures
        strictly_sorted(symbols_of(final(set)@)),
        r.0 < final(set)@.len(),
        symbols_of(final(set)@)[r.0 as int] == symbol@,
        r.1 <==> !symbols_of(old(set)@).contains(symbol@),
        r.1 ==> symbols_of(final(set)@) == symbols_of(old(set)@).insert(r.0 as int, symbol@),
        !r.1 ==> final(set)@ == old(set)@,
        forall|s: Symbol| #[trigger]
            symbols_of(final(set)@).contains(s) <==> symbols_of(old(set)@).contains(s) || s
                == symbol@,
{
    let (at, present) = find_slot(set, symbol);
    if present {
        (at, false)
    } else {
        let ghost before = symbols_of(set@);
        set.insert(at, symbol.duplicate());
        proof {
            assert(symbols_of(set@) =~= before.insert(at as int, symbol@));
            lemma_insert_sorted(before, symbol@, at as int);
        }
        (at, true)
    }
}

/// A copy of a vector of symbols.
pub fn duplicate_symbols(set: &Vec<FnOrToken>) -> (r: Vec<FnOrToken>)
    ensures
        symbols_of(r@) == symbols_of(set@),
{
    let mut out: Vec<FnOrToken> = Vec::new();
    let mut i: usize = 0;
    while i < set.len()
        invariant
            i <= set@.len(),
            out@.len() == i,
            symbols_of(out@) == symbols_of(set@).take(i as int),
        decreases set@.len() - i,
    {
        let ghost before = out@;
        out.push(set[i].duplicate());
        proof {
            assert forall|k: int| 0 <= k < i + 1 implies symbols_of(out@)[k] == symbols_of(
                set@,
            )[k] by {
                if k < i {
                    assert(symbols_of(before)[k] == symbols_of(set@).take(i as int)[k]);
                }
            }
            assert(symbols_of(out@) =~= symbols_of(set@).take(i + 1));
        }
        i += 1;
    }
    proof {
        assert(symbols_of(set@).take(i as int) =~= symbols_of(set@));
    }
    out
}

} // verus!
