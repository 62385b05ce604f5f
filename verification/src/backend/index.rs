//! The grammar index: lookup of token patterns and of productions by name,
//! and the entry symbol.

use crate::backend::grammar::{
    first_public, last_index, lemma_first_public, lemma_last_index, pattern_of, production_names,
    production_of, token_names,
};
use crate::error::{ConfigError, Error, Fault};
use crate::types::{Bnf, Production, Setting, TokenDecl, TypeStr, productions_of, token_decls_of};
use vstd::hash_map::StringHashMap;
use vstd::prelude::*;

verus! {

/// Whether `table` maps each of `names` to the position of its last
/// occurrence, and nothing else.
pub open spec fn is_table_of(table: Map<Seq<char>, usize>, names: Seq<Seq<char>>) -> bool {
    forall|name: Seq<char>|
        match #[trigger] last_index(names, name) {
            Some(i) => table.contains_key(name) && table[name] == i,
            None => !table.contains_key(name),
        }
}

/// The position of the first public production, if there is one.
pub fn find_pub(bnfs: &Vec<Bnf>) -> (r: Option<usize>)
    ensures
        match r {
            Some(i) => first_public(productions_of(bnfs@)) == Some(i as int),
            None => first_public(productions_of(bnfs@)) is None,
        },
{
    let ghost prods = productions_of(bnfs@);
    let mut i: usize = 0;
    while i < bnfs.len()
        invariant
            i <= bnfs@.len(),
            prods == productions_of(bnfs@),
            first_public(prods.take(i as int)) is None,
        decreases bnfs@.len() - i,
    {
        proof {
            assert(prods.take(i + 1).drop_last() =~= prods.take(i as int));
            assert(prods.take(i + 1).last() == bnfs@[i as int]@);
        }
        if bnfs[i].is_pub() {
            proof {
                lemma_first_public_extends(prods, i + 1);
            }
            return Some(i);
        }
        i += 1;
    }
    proof {
        assert(prods.take(i as int) =~= prods);
    }
    None
}

/// A public production that was found stays the first when more follow.
pub proof fn lemma_first_public_extends(prods: Seq<Production>, n: int)
    requires
        0 <= n <= prods.len(),
        first_public(prods.take(n)) is Some,
    ensures
        first_public(prods) == first_public(prods.take(n)),
    decreases prods.len() - n,
{
    if n < prods.len() {
        assert(prods.take(n + 1).drop_last() =~= prods.take(n));
        lemma_first_public_extends(prods, n + 1);
    } else {
        assert(prods.take(n) =~= prods);
    }
}

/// Two lookup tables over one grammar description, built in a single pass,
/// and the position of its entry symbol. Where a name is declared twice, the
/// later declaration is found.
pub struct GrammarIndex {
    tokens: StringHashMap<usize>,
    productions: StringHashMap<usize>,
    entry: usize,
}

impl GrammarIndex {
    /// Whether the token table was built from these declarations.
    pub closed spec fn knows_tokens(&self, tokens: Seq<TokenDecl>) -> bool {
        is_table_of(self.tokens@, token_names(tokens))
    }

    /// Whether the production table and the entry symbol were taken from
    /// these productions.
    pub closed spec fn knows_productions(&self, prods: Seq<Production>) -> bool {
        &&& is_table_of(self.productions@, production_names(prods))
        &&& first_public(prods) == Some(self.entry as int)
    }

    /// Whether this is the index of the grammar with these token
    /// declarations and productions.
    pub open spec fn indexes(&self, tokens: Seq<TokenDecl>, prods: Seq<Production>) -> bool {
        self.knows_tokens(tokens) && self.knows_productions(prods)
    }

    /// Builds the index of a grammar description. A description without a
    /// public production has no entry symbol and is rejected.
    pub fn build(setting: &Setting, bnfs: &Vec<Bnf>) -> (r: Result<GrammarIndex, Error>)
        ensures
            match r {
                Ok(index) => {
                    &&& index.indexes(token_decls_of(setting.1@), productions_of(bnfs@))
                    &&& first_public(productions_of(bnfs@)) is Some
                },
                Err(e) => {
                    &&& first_public(productions_of(bnfs@)) is None
                    &&& e.fault() == Some(Fault::MissingEntrySymbol)
                },
            },
    {
        let ghost tnames = token_names(token_decls_of(setting.1@));
        let ghost pnames = production_names(productions_of(bnfs@));
        let mut tokens: StringHashMap<usize> = StringHashMap::new();
        let mut i: usize = 0;
        while i < setting.1.len()
            invariant
                i <= setting.1@.len(),
                tnames == token_names(token_decls_of(setting.1@)),
                is_table_of(tokens@, tnames.take(i as int)),
            decreases setting.1@.len() - i,
        {
            let ghost before = tokens@;
            tokens.insert(setting.1[i].1.clone(), i);
            proof {
                lemma_table_grows(before, tnames, i as int);
            }
            i += 1;
        }
        let mut productions: StringHashMap<usize> = StringHashMap::new();
        let mut j: usize = 0;
        while j < bnfs.len()
            invariant
                j <= bnfs@.len(),
                pnames == production_names(productions_of(bnfs@)),
                is_table_of(productions@, pnames.take(j as int)),
            decreases bnfs@.len() - j,
        {
            let ghost before = productions@;
            productions.insert(bnfs[j].name().clone(), j);
            proof {
                lemma_table_grows(before, pnames, j as int);
            }
            j += 1;
        }
        proof {
            assert(tnames.take(i as int) =~= tnames);
            assert(pnames.take(j as int) =~= pnames);
        }
        match find_pub(bnfs) {
            Some(entry) => Ok(GrammarIndex { tokens, productions, entry }),
            None => Err(Error::ConfigError(ConfigError::NotFoundPubFunctin)),
        }
    }

    /// The pattern that matches the token `name`, if the token is declared.
    pub fn token_type_of<'a>(&self, setting: &'a Setting, name: &str) -> (r: Option<&'a TypeStr>)
        requires
            self.knows_tokens(token_decls_of(setting.1@)),
        ensures
            match r {
                Some(p) => pattern_of(token_decls_of(setting.1@), name@) == Some(p@),
                None => pattern_of(token_decls_of(setting.1@), name@) is None,
            },
    {
        let ghost names = token_names(token_decls_of(setting.1@));
        proof {
            lemma_last_index(names, name@);
        }
        match self.tokens.get(name) {
            Some(i) => Some(&setting.1[*i].2),
            None => None,
        }
    }

    /// The definition of the nonterminal `name`, if there is one.
    pub fn production_of<'a>(&self, bnfs: &'a Vec<Bnf>, name: &str) -> (r: Option<&'a Bnf>)
        requires
            self.knows_productions(productions_of(bnfs@)),
        ensures
            match r {
                Some(b) => production_of(productions_of(bnfs@), name@) == Some(b@),
                None => production_of(productions_of(bnfs@), name@) is None,
            },
    {
        let ghost names = production_names(productions_of(bnfs@));
        proof {
            lemma_last_index(names, name@);
        }
        match self.productions.get(name) {
            Some(i) => Some(&bnfs[*i]),
            None => None,
        }
    }

    /// The entry symbol: the first public production.
    pub fn entry_symbol<'a>(&self, bnfs: &'a Vec<Bnf>) -> (r: &'a Bnf)
        requires
            self.knows_productions(productions_of(bnfs@)),
        ensures
            first_public(productions_of(bnfs@)) is Some,
            r@ == productions_of(bnfs@)[first_public(productions_of(bnfs@)).unwrap()],
    {
        proof {
            lemma_first_public(productions_of(bnfs@));
        }
        &bnfs[self.entry]
    }
}

/// Recording one more name at its position keeps a table in step with the
/// names recorded so far.
pub proof fn lemma_table_grows(table: Map<Seq<char>, usize>, names: Seq<Seq<char>>, at: int)
    requires
        0 <= at < names.len(),
        at <= usize::MAX,
        is_table_of(table, names.take(at)),
    ensures
        is_table_of(table.insert(names[at], at as usize), names.take(at + 1)),
{
    let longer = names.take(at + 1);
    assert(longer.drop_last() =~= names.take(at));
    assert(longer.last() == names[at]);
    assert forall|name: Seq<char>|
        match #[trigger] last_index(longer, name) {
            Some(i) => table.insert(names[at], at as usize).contains_key(name) && table.insert(
                names[at],
                at as usize,
            )[name] == i,
            None => !table.insert(names[at], at as usize).contains_key(name),
        } by {
        if names[at] != name {
            assert(last_index(longer, name) == last_index(names.take(at), name));
        }
    }
}

} // verus!
