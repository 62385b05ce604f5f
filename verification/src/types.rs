//! The grammar description that the front end produces and the back end
//! consumes, together with the mathematical model that contracts speak of.

use vstd::prelude::*;

verus! {

/// A span of byte offsets into the grammar source, kept for diagnostics.
#[derive(Debug, Clone, PartialEq, Eq, Hash, Copy, Structural)]
pub struct Range(pub usize, pub usize);

impl Range {
    /// The smallest span that covers both `self` and `other`.
    pub fn merge(&self, other: &Range) -> (r: Range)
        ensures
            r.0 == (if self.0 <= other.0 { self.0 } else { other.0 }),
            r.1 == (if self.1 >= other.1 { self.1 } else { other.1 }),
    {
        let lo: usize = if self.0 <= other.0 { self.0 } else { other.0 };
        let hi: usize = if self.1 >= other.1 { self.1 } else { other.1 };
        Range(lo, hi)
    }

    /// The smallest span that covers both `v1` and `v2`.
    pub fn unite(v1: Range, v2: Range) -> (r: Range)
        ensures
            r.0 == (if v1.0 <= v2.0 { v1.0 } else { v2.0 }),
            r.1 == (if v1.1 >= v2.1 { v1.1 } else { v2.1 }),
    {
        v1.merge(&v2)
    }

    /// The empty span at offset zero, for values that have no source position.
    pub fn dummy() -> (r: Range)
        ensures
            r == Range(0, 0),
    {
        Range(0, 0)
    }

    /// The span that starts at `start` and covers `size` bytes.
    pub fn make(start: usize, size: usize) -> (r: Range)
        requires
            start + size <= usize::MAX,
        ensures
            r.0 == start,
            r.1 == start + size,
    {
        Range(start, start + size)
    }

    /// The span from `start` up to, not including, `end`.
    pub fn make_start_end(start: usize, end: usize) -> (r: Range)
        ensures
            r == Range(start, end),
    {
        Range(start, end)
    }

    /// The two ends of the span, the smaller one first.
    pub fn to_tuple(&self) -> (r: (usize, usize))
        ensures
            r.0 <= r.1,
            r == (if self.0 > self.1 { (self.1, self.0) } else { (self.0, self.1) }),
    {
        if self.0 > self.1 {
            (self.1, self.0)
        } else {
            (self.0, self.1)
        }
    }
}

/// The spelling of a host-language type or pattern.
pub type TypeStr = String;

/// Text fragments that are copied to the top of the generated source.
pub type Head = Vec<(Range, String)>;

/// The main token type, and each token's name with the pattern that matches it.
pub type Setting = (String, Vec<(Range, String, TypeStr)>);

/// One alternative: its bindings in order, and the action that builds its value.
pub type Code = (Vec<(String, FnOrToken)>, String);

pub type Bnfs = Vec<Bnf>;

/// A whole grammar description: header, setting and productions.
pub type Term = (Head, Setting, Bnfs);

/// What a binding refers to: a nonterminal (`Function`) or a token.
///
/// Every nonterminal orders before every token; two of a kind order by name.
#[derive(Debug, Clone, PartialEq, Eq, PartialOrd, Ord)]
pub enum FnOrToken {
    Function(String),
    Token(String),
}

/// The definition of a nonterminal. The public one is the entry symbol.
#[derive(Debug, Clone)]
pub enum Bnf {
    Pub(Range, String, TypeStr, Vec<Code>),
    NonPub(Range, String, TypeStr, Vec<Code>),
}

/// A symbol reference as contracts see it.
pub enum Symbol {
    Nonterminal(Seq<char>),
    Token(Seq<char>),
}

/// An alternative as contracts see it.
pub struct Alternative {
    pub bindings: Seq<(Seq<char>, Symbol)>,
    pub action: Seq<char>,
}

/// A nonterminal definition as contracts see it. Source ranges are left out:
/// nothing that is generated depends on them.
pub struct Production {
    pub public: bool,
    pub name: Seq<char>,
    pub result_type: Seq<char>,
    pub alternatives: Seq<Alternative>,
}

/// A token declaration as contracts see it.
pub struct TokenDecl {
    pub name: Seq<char>,
    pub pattern: Seq<char>,
}

/// A grammar description as contracts see it.
pub struct Grammar {
    pub header: Seq<Seq<char>>,
    pub token_type: Seq<char>,
    pub tokens: Seq<TokenDecl>,
    pub productions: Seq<Production>,
}

impl View for FnOrToken {
    type V = Symbol;

    open spec fn view(&self) -> Symbol {
        match *self {
            FnOrToken::Function(name) => Symbol::Nonterminal(name@),
            FnOrToken::Token(name) => Symbol::Token(name@),
        }
    }
}

impl View for Bnf {
    type V = Production;

    open spec fn view(&self) -> Production {
        match *self {
            Bnf::Pub(_, name, result_type, codes) => Production {
                public: true,
                name: name@,
                result_type: result_type@,
                alternatives: alternatives_of(codes@),
            },
            Bnf::NonPub(_, name, result_type, codes) => Production {
                public: false,
                name: name@,
                result_type: result_type@,
                alternatives: alternatives_of(codes@),
            },
        }
    }
}

impl FnOrToken {
    /// A copy of the symbol, with the same name and kind.
    pub fn duplicate(&self) -> (r: FnOrToken)
        ensures
            r == *self,
    {
        match self {
            FnOrToken::Function(name) => FnOrToken::Function(name.clone()),
            FnOrToken::Token(name) => FnOrToken::Token(name.clone()),
        }
    }
}

impl Bnf {
    /// The name of the nonterminal that is defined.
    pub fn name(&self) -> (r: &String)
        ensures
            r@ == self@.name,
    {
        match self {
            Bnf::Pub(_, name, _, _) => name,
            Bnf::NonPub(_, name, _, _) => name,
        }
    }

    /// The spelling of the type of the values that the nonterminal yields.
    pub fn result_type(&self) -> (r: &String)
        ensures
            r@ == self@.result_type,
    {
        match self {
            Bnf::Pub(_, _, result_type, _) => result_type,
            Bnf::NonPub(_, _, result_type, _) => result_type,
        }
    }

    /// The alternatives, in document order.
    pub fn codes(&self) -> (r: &Vec<Code>)
        ensures
            alternatives_of(r@) == self@.alternatives,
    {
        match self {
            Bnf::Pub(_, _, _, codes) => codes,
            Bnf::NonPub(_, _, _, codes) => codes,
        }
    }

    /// Whether this is the definition of an entry symbol.
    pub fn is_pub(&self) -> (r: bool)
        ensures
            r == self@.public,
    {
        match self {
            Bnf::Pub(_, _, _, _) => true,
            Bnf::NonPub(_, _, _, _) => false,
        }
    }
}

pub open spec fn bindings_of(bindings: Seq<(String, FnOrToken)>) -> Seq<(Seq<char>, Symbol)> {
    Seq::new(bindings.len(), |i: int| (bindings[i].0@, bindings[i].1@))
}

pub open spec fn alternative_of(code: Code) -> Alternative {
    Alternative { bindings: bindings_of(code.0@), action: code.1@ }
}

pub open spec fn alternatives_of(codes: Seq<Code>) -> Seq<Alternative> {
    Seq::new(codes.len(), |i: int| alternative_of(codes[i]))
}

pub open spec fn productions_of(bnfs: Seq<Bnf>) -> Seq<Production> {
    Seq::new(bnfs.len(), |i: int| bnfs[i]@)
}

pub open spec fn token_decl_of(decl: (Range, String, TypeStr)) -> TokenDecl {
    TokenDecl { name: decl.1@, pattern: decl.2@ }
}

pub open spec fn token_decls_of(decls: Seq<(Range, String, TypeStr)>) -> Seq<TokenDecl> {
    Seq::new(decls.len(), |i: int| token_decl_of(decls[i]))
}

pub open spec fn header_of(head: Seq<(Range, String)>) -> Seq<Seq<char>> {
    Seq::new(head.len(), |i: int| head[i].1@)
}

pub open spec fn symbols_of(symbols: Seq<FnOrToken>) -> Seq<Symbol> {
    Seq::new(symbols.len(), |i: int| symbols[i]@)
}

/// The model of a whole grammar description.
pub open spec fn grammar_of(term: Term) -> Grammar {
    Grammar {
        header: header_of(term.0@),
        token_type: term.1.0@,
        tokens: token_decls_of(term.1.1@),
        productions: productions_of(term.2@),
    }
}

} // verus!
