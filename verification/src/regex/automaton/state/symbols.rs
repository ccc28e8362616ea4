//! Edge labels of the automaton graph: a concrete character, a character
//! class (currently only "any character"), or the empty (epsilon) label.

use vstd::prelude::*;

verus! {

/// A character class. Only one class exists today: the class that matches
/// every character. The `contains` relation is the seam where richer classes
/// would plug in.
#[derive(Clone, Copy, Debug, PartialEq, Eq, Structural)]
pub enum Class {
    All,
}

/// The label on an automaton edge.
#[derive(Clone, Copy, Debug, PartialEq, Eq, Structural)]
pub enum Symbol {
    Alphabet(char),
    CharClass(Class),
    Epsilon,
}

impl Class {
    /// Whether this class covers the character `c`.
    pub open spec fn spec_contains(self, c: char) -> bool {
        match self {
            Class::All => true,
        }
    }

    fn contains(&self, c: &char) -> (r: bool)
        ensures
            r == self.spec_contains(*c),
    {
        match self {
            Class::All => true,
        }
    }

    /// Whether this class covers every character of the class `other`.
    pub open spec fn spec_covers(self, other: Class) -> bool {
        match self {
            Class::All => true,
        }
    }

    fn covers(&self, other: &Class) -> (r: bool)
        ensures
            r == self.spec_covers(*other),
    {
        match self {
            Class::All => true,
        }
    }
}

impl Symbol {
    /// The containment relation: `self` subsumes `other` when both are the
    /// same concrete character, both are epsilon, or `self` is a class that
    /// covers what `other` carries — the character of an `Alphabet` label,
    /// or every character of another class's tag. A concrete character never
    /// subsumes a class.
    pub open spec fn spec_contains(self, other: Symbol) -> bool {
        match self {
            Symbol::Alphabet(c0) => match other {
                Symbol::Alphabet(c1) => c0 == c1,
                Symbol::CharClass(_) => false,
                Symbol::Epsilon => false,
            },
            Symbol::CharClass(cl) => match other {
                Symbol::Alphabet(c1) => cl.spec_contains(c1),
                Symbol::CharClass(cl1) => cl.spec_covers(cl1),
                Symbol::Epsilon => false,
            },
            Symbol::Epsilon => other is Epsilon,
        }
    }

    /// Rank of the variant in the canonical edge order:
    /// concrete characters first, then classes, then epsilon.
    pub open spec fn spec_rank(self) -> int {
        match self {
            Symbol::Alphabet(_) => 0,
            Symbol::CharClass(_) => 1,
            Symbol::Epsilon => 2,
        }
    }

    /// The canonical total order on symbols: by variant rank, and among
    /// concrete characters by code point.
    pub open spec fn spec_lt(self, other: Symbol) -> bool {
        self.spec_rank() < other.spec_rank() || {
            match (self, other) {
                (Symbol::Alphabet(c0), Symbol::Alphabet(c1)) => (c0 as u32) < (c1 as u32),
                _ => false,
            }
        }
    }

    pub fn new_alphabet(c: char) -> (r: Symbol)
        ensures
            r == Symbol::Alphabet(c),
    {
        Symbol::Alphabet(c)
    }

    pub fn new_epsilon() -> (r: Symbol)
        ensures
            r == Symbol::Epsilon,
    {
        Symbol::Epsilon
    }

    pub fn new_all_char() -> (r: Symbol)
        ensures
            r == Symbol::CharClass(Class::All),
    {
        Symbol::CharClass(Class::All)
    }

    pub fn contains(&self, other: &Symbol) -> (r: bool)
        ensures
            r == self.spec_contains(*other),
    {
        match self {
            Symbol::Alphabet(c0) => match other {
                Symbol::Alphabet(c1) => c0 == c1,
                Symbol::CharClass(_) => false,
                Symbol::Epsilon => false,
            },
            Symbol::CharClass(cl) => match other {
                Symbol::Alphabet(c1) => cl.contains(c1),
                Symbol::CharClass(cl1) => cl.covers(cl1),
                Symbol::Epsilon => false,
            },
            Symbol::Epsilon => matches!(other, Symbol::Epsilon),
        }
    }

    /// Strict comparison in the canonical edge order.
    pub fn lt(&self, other: &Symbol) -> (r: bool)
        ensures
            r == self.spec_lt(*other),
    {
        match (self, other) {
            (Symbol::Alphabet(c0), Symbol::Alphabet(c1)) => (*c0 as u32) < (*c1 as u32),
            (Symbol::Alphabet(_), _) => true,
            (Symbol::CharClass(_), Symbol::Alphabet(_)) => false,
            (Symbol::CharClass(_), Symbol::CharClass(_)) => false,
            (Symbol::CharClass(_), Symbol::Epsilon) => true,
            (Symbol::Epsilon, _) => false,
        }
    }
}

} // verus!
