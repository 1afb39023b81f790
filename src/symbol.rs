use vstd::prelude::*;

verus! {

/// One element of a rule: a literal token or a reference to a state by name.
#[derive(Debug, Clone, PartialEq, Eq, Hash)]
pub enum Symbol {
    Terminal(String),
    NonTerminal(String),
}

/// What a symbol stands for: its kind and its text as characters.
pub enum SymbolView {
    Terminal(Seq<char>),
    NonTerminal(Seq<char>),
}

impl View for Symbol {
    type V = SymbolView;

    open spec fn view(&self) -> SymbolView {
        match self {
            Symbol::Terminal(t) => SymbolView::Terminal(t@),
            Symbol::NonTerminal(n) => SymbolView::NonTerminal(n@),
        }
    }
}

/// A rule as a sequence of symbol views.
pub open spec fn rule_view(r: Seq<Symbol>) -> Seq<SymbolView> {
    r.map_values(|s: Symbol| s@)
}

impl Symbol {
    /// Whether two symbols have the same kind and the same text.
    pub fn same_as(&self, other: &Symbol) -> (r: bool)
        ensures
            r == (self@ == other@),
    {
        match self {
            Symbol::Terminal(a) => match other {
                Symbol::Terminal(b) => a.eq(b),
                _ => false,
            },
            Symbol::NonTerminal(a) => match other {
                Symbol::NonTerminal(b) => a.eq(b),
                _ => false,
            },
        }
    }

    pub fn is_terminal(&self) -> (r: bool)
        ensures
            r == (self is Terminal),
    {
        match self {
            Symbol::Terminal(_) => true,
            _ => false,
        }
    }

    pub fn is_nonterminal(&self) -> (r: bool)
        ensures
            r == (self is NonTerminal),
    {
        match self {
            Symbol::NonTerminal(_) => true,
            _ => false,
        }
    }
}

} // verus!

verus! {

/// Whether two rules hold the same symbols in the same order.
pub fn same_rule(a: &Vec<Symbol>, b: &Vec<Symbol>) -> (r: bool)
    ensures
        r == (rule_view(a@) == rule_view(b@)),
{
    if a.len() != b.len() {
        assert(rule_view(a@).len() != rule_view(b@).len());
        return false;
    }
    let mut i: usize = 0;
    while i < a.len()
        invariant
            a.len() == b.len(),
            i <= a.len(),
            forall|j: int| 0 <= j < i ==> a@[j]@ == b@[j]@,
        decreases a.len() - i,
    {
        if !a[i].same_as(&b[i]) {
            assert(rule_view(a@)[i as int] != rule_view(b@)[i as int]);
            return false;
        }
        i = i + 1;
    }
    assert(rule_view(a@) =~= rule_view(b@));
    true
}

} // verus!
