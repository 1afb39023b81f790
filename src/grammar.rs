use vstd::prelude::*;
use crate::symbol::{Symbol, SymbolView, rule_view, same_rule};
use crate::text::{trim, trimmed};

verus! {

/// A rule: the symbols of one alternative, in order.
pub type Rule = Vec<Symbol>;

/// What a state holds: its name, whether it accepts the empty sequence, and
/// its rules in the order in which they were first added.
pub struct StateView {
    pub name: Seq<char>,
    pub nullable: bool,
    pub rules: Seq<Seq<SymbolView>>,
}

/// Whether some state of `g` is called `name`.
pub open spec fn has_state(g: Seq<StateView>, name: Seq<char>) -> bool {
    exists|i: int| 0 <= i < g.len() && g[i].name == name
}

/// The position of the state called `name`, or -1 where there is none.
pub open spec fn index_of(g: Seq<StateView>, name: Seq<char>) -> int {
    if has_state(g, name) {
        choose|i: int| 0 <= i < g.len() && g[i].name == name
    } else {
        -1
    }
}

/// No two states share a name, and no state holds a rule twice.
pub open spec fn well_formed(g: Seq<StateView>) -> bool {
    &&& forall|i: int, j: int|
        0 <= i < g.len() && 0 <= j < g.len() && i != j ==> g[i].name != g[j].name
    &&& forall|i: int| 0 <= i < g.len() ==> (#[trigger] g[i].rules).no_duplicates()
}

/// A state as it is first declared: no rules, not nullable.
pub open spec fn fresh_state(name: Seq<char>) -> StateView {
    StateView { name, nullable: false, rules: seq![] }
}

/// `g` after declaring `name`: a state of that name is replaced by a fresh
/// one, otherwise a fresh one is appended.
pub open spec fn declare(g: Seq<StateView>, name: Seq<char>) -> Seq<StateView> {
    if has_state(g, name) {
        g.update(index_of(g, name), fresh_state(name))
    } else {
        g.push(fresh_state(name))
    }
}

/// `g` with `r` among the rules of state `i` (a rule already there is not repeated).
pub open spec fn insert_rule(g: Seq<StateView>, i: int, r: Seq<SymbolView>) -> Seq<StateView> {
    if g[i].rules.contains(r) {
        g
    } else {
        g.update(i, StateView { name: g[i].name, nullable: g[i].nullable, rules: g[i].rules.push(r) })
    }
}

/// `g` with state `i` accepting the empty sequence.
pub open spec fn set_nullable(g: Seq<StateView>, i: int) -> Seq<StateView> {
    g.update(i, StateView { name: g[i].name, nullable: true, rules: g[i].rules })
}

pub proof fn lemma_index_of(g: Seq<StateView>, name: Seq<char>, i: int)
    requires
        well_formed(g),
        0 <= i < g.len(),
        g[i].name == name,
    ensures
        has_state(g, name),
        index_of(g, name) == i,
{
}

/// The error of an operation that names a state the grammar does not have.
#[derive(Debug, Clone)]
pub enum GrammarError {
    NoSuchState(String),
}

struct StateEntry {
    name: String,
    accepts_empty: bool,
    rules: Vec<Rule>,
}

impl StateEntry {
    spec fn view(&self) -> StateView {
        StateView {
            name: self.name@,
            nullable: self.accepts_empty,
            rules: self.rules@.map_values(|r: Rule| rule_view(r@)),
        }
    }
}

/// A grammar: its states in the order of their first declaration, and the
/// name of the initial state.
pub struct Grammar {
    states: Vec<StateEntry>,
    initial: String,
}

impl View for Grammar {
    type V = Seq<StateView>;

    closed spec fn view(&self) -> Seq<StateView> {
        self.states@.map_values(|e: StateEntry| e.view())
    }
}

impl Grammar {
    /// The name of the initial state.
    pub closed spec fn initial_name(&self) -> Seq<char> {
        self.initial@
    }

    /// The states are well formed and the initial state is one of them.
    pub closed spec fn wf(&self) -> bool {
        well_formed(self@) && has_state(self@, self.initial@)
    }

    pub proof fn lemma_wf(&self)
        requires
            self.wf(),
        ensures
            well_formed(self@),
            has_state(self@, self.initial_name()),
    {
    }

    /// The name of the initial state.
    pub fn initial(&self) -> (r: &String)
        ensures
            r@ == self.initial_name(),
    {
        &self.initial
    }

    /// The number of states.
    pub fn state_count(&self) -> (n: usize)
        ensures
            n == self@.len(),
    {
        self.states.len()
    }

    /// The name of state `i`.
    pub fn state_name(&self, i: usize) -> (r: &String)
        requires
            i < self@.len(),
        ensures
            r@ == self@[i as int].name,
    {
        &self.states[i].name
    }

    /// Whether state `i` accepts the empty sequence.
    pub fn accepts_empty(&self, i: usize) -> (r: bool)
        requires
            i < self@.len(),
        ensures
            r == self@[i as int].nullable,
    {
        self.states[i].accepts_empty
    }

    /// The number of rules of state `i`.
    pub fn rule_count(&self, i: usize) -> (n: usize)
        requires
            i < self@.len(),
        ensures
            n == self@[i as int].rules.len(),
    {
        self.states[i].rules.len()
    }

    /// Rule `k` of state `i`.
    pub fn rule(&self, i: usize, k: usize) -> (r: &Rule)
        requires
            i < self@.len(),
            k < self@[i as int].rules.len(),
        ensures
            rule_view(r@) == self@[i as int].rules[k as int],
    {
        &self.states[i].rules[k]
    }

    /// A grammar with the single state `S`, initial, without rules.
    pub fn new() -> (g: Self)
        ensures
            g.wf(),
            g@ == seq![fresh_state(seq!['S'])],
            g.initial_name() == seq!['S'],
    {
        let mut name = String::new();
        name.push('S');
        let mut initial = String::new();
        initial.push('S');
        let mut states: Vec<StateEntry> = Vec::new();
        states.push(StateEntry { name, accepts_empty: false, rules: Vec::new() });
        let g = Grammar { states, initial };
        assert(g.states@[0].name@ =~= seq!['S']);
        assert(g.initial@ =~= seq!['S']);
        assert(g@[0].rules =~= seq![]);
        assert(g@ =~= seq![fresh_state(seq!['S'])]);
        assert(g@[0].name == g.initial@);
        g
    }

    /// The position of the state called `name`.
    pub fn find_state(&self, name: &String) -> (r: Option<usize>)
        requires
            self.wf(),
        ensures
            match r {
                Some(i) => has_state(self@, name@) && i == index_of(self@, name@),
                None => !has_state(self@, name@),
            },
    {
        let mut i: usize = 0;
        while i < self.states.len()
            invariant
                self.wf(),
                i <= self.states@.len(),
                self@.len() == self.states@.len(),
                forall|j: int| 0 <= j < i ==> self@[j].name != name@,
            decreases self.states.len() - i,
        {
            if self.states[i].name.eq(name) {
                proof {
                    self.lemma_wf();
                    assert(self@[i as int].name == name@);
                    lemma_index_of(self@, name@, i as int);
                }
                return Some(i);
            }
            i = i + 1;
        }
        None
    }

    /// Declares the state called `n` with surrounding whitespace removed. A
    /// state of that name loses its rules and its empty alternative.
    pub fn create_state(&mut self, n: String)
        requires
            old(self).wf(),
        ensures
            final(self).wf(),
            final(self)@ == declare(old(self)@, trim(n@)),
            final(self).initial_name() == old(self).initial_name(),
    {
        let name = trimmed(n.as_str());
        let ghost t = name@;
        let ghost g0 = self@;
        let entry = StateEntry { name, accepts_empty: false, rules: Vec::new() };
        assert(entry.view().rules =~= seq![]);
        match self.find_state(&entry.name) {
            Some(i) => {
                self.states.set(i, entry);
                assert(self@ =~= g0.update(i as int, fresh_state(t)));
                assert(self@[i as int].name == t);
            },
            None => {
                self.states.push(entry);
                assert(self@ =~= g0.push(fresh_state(t)));
            },
        }
        proof {
            let g = self@;
            assert(has_state(g, self.initial@)) by {
                let k = choose|k: int| 0 <= k < g0.len() && g0[k].name == self.initial@;
                assert(g[k].name == self.initial@);
            }
            assert(well_formed(g)) by {
                assert forall|a: int| 0 <= a < g.len() implies (#[trigger] g[a].rules).no_duplicates() by {
                    if a < g0.len() && g[a] == g0[a] {
                    } else {
                        assert(g[a].rules =~= seq![]);
                    }
                }
            }
        }
    }

    /// Adds `rule` to the rules of the state called `state`; a rule that is
    /// already there is not added twice.
    pub fn add_rule_to(&mut self, state: &String, rule: Rule) -> (r: Result<(), GrammarError>)
        requires
            old(self).wf(),
        ensures
            final(self).wf(),
            final(self).initial_name() == old(self).initial_name(),
            r is Ok <==> has_state(old(self)@, state@),
            r is Ok ==> final(self)@ == insert_rule(
                old(self)@,
                index_of(old(self)@, state@),
                rule_view(rule@),
            ),
            r matches Err(GrammarError::NoSuchState(n)) ==> n@ == state@ && final(self)@ == old(self)@,
    {
        let ghost g0 = self@;
        match self.find_state(state) {
            None => Err(GrammarError::NoSuchState(state.clone())),
            Some(i) => {
                let mut k: usize = 0;
                while k < self.states[i].rules.len()
                    invariant
                        self.wf(),
                        self@ == g0,
                        i < g0.len(),
                        has_state(g0, state@),
                        i == index_of(g0, state@),
                        k <= g0[i as int].rules.len(),
                        self.states@[i as int].rules@.len() == g0[i as int].rules.len(),
                        forall|j: int| 0 <= j < k ==> g0[i as int].rules[j] != rule_view(rule@),
                    decreases self.states@[i as int].rules@.len() - k,
                {
                    if same_rule(&self.states[i].rules[k], &rule) {
                        assert(g0[i as int].rules[k as int] == rule_view(rule@));
                        assert(g0[i as int].rules.contains(rule_view(rule@)));
                        return Ok(());
                    }
                    k = k + 1;
                }
                let ghost rv = rule_view(rule@);
                let mut entry = StateEntry { name: String::new(), accepts_empty: false, rules: Vec::new() };
                std::mem::swap(&mut entry, &mut self.states[i]);
                entry.rules.push(rule);
                std::mem::swap(&mut entry, &mut self.states[i]);
                proof {
                    let g = self@;
                    assert(g[i as int].rules =~= g0[i as int].rules.push(rv));
                    assert(!g0[i as int].rules.contains(rv));
                    assert(g =~= insert_rule(g0, i as int, rv));
                    assert(has_state(g, self.initial@)) by {
                        let q = choose|q: int| 0 <= q < g0.len() && g0[q].name == self.initial@;
                        assert(g[q].name == self.initial@);
                    }
                    assert(g[i as int].rules.no_duplicates()) by {
                        assert(g0[i as int].rules.no_duplicates());
                    }
                    assert(well_formed(g));
                }
                Ok(())
            },
        }
    }

    /// Lets the state called `state` accept the empty sequence.
    pub fn mark_nullable(&mut self, state: &String) -> (r: Result<(), GrammarError>)
        requires
            old(self).wf(),
        ensures
            final(self).wf(),
            final(self).initial_name() == old(self).initial_name(),
            r is Ok <==> has_state(old(self)@, state@),
            r is Ok ==> final(self)@ == set_nullable(old(self)@, index_of(old(self)@, state@)),
            r matches Err(GrammarError::NoSuchState(n)) ==> n@ == state@ && final(self)@ == old(self)@,
    {
        let ghost g0 = self@;
        match self.find_state(state) {
            None => Err(GrammarError::NoSuchState(state.clone())),
            Some(i) => {
                self.states[i].accepts_empty = true;
                proof {
                    let g = self@;
                    assert(g =~= set_nullable(g0, i as int));
                    assert(has_state(g, self.initial@)) by {
                        let q = choose|q: int| 0 <= q < g0.len() && g0[q].name == self.initial@;
                        assert(g[q].name == self.initial@);
                    }
                }
                Ok(())
            },
        }
    }
}

} // verus!

verus! {

/// Declaring a state keeps the grammar well formed, and leaves a fresh state
/// under that name.
pub proof fn lemma_declare(g: Seq<StateView>, t: Seq<char>)
    requires
        well_formed(g),
    ensures
        well_formed(declare(g, t)),
        has_state(declare(g, t), t),
        declare(g, t)[index_of(declare(g, t), t)] == fresh_state(t),
{
    let g1 = declare(g, t);
    let i = if has_state(g, t) { index_of(g, t) } else { g.len() as int };
    assert(g1[i] == fresh_state(t));
    assert(fresh_state(t).rules =~= Seq::<Seq<SymbolView>>::empty());
    assert(well_formed(g1)) by {
        assert forall|a: int| 0 <= a < g1.len() implies (#[trigger] g1[a].rules).no_duplicates() by {
            if a != i {
                assert(g1[a] == g[a]);
            }
        }
    }
    lemma_index_of(g1, t, i);
}

/// Declaring a state again discards the rules added to it since.
pub proof fn redeclare_discards_rules(g: Seq<StateView>, t: Seq<char>, r: Seq<SymbolView>)
    requires
        well_formed(g),
    ensures
        declare(insert_rule(declare(g, t), index_of(declare(g, t), t), r), t) == declare(g, t),
{
    lemma_declare(g, t);
    let g1 = declare(g, t);
    let i = index_of(g1, t);
    let g2 = insert_rule(g1, i, r);
    assert(g2[i].name == t);
    assert(well_formed(g2)) by {
        assert(g1[i].rules =~= Seq::<Seq<SymbolView>>::empty());
        if !g1[i].rules.contains(r) {
            assert(g2[i].rules =~= seq![r]);
        }
        assert forall|a: int| 0 <= a < g2.len() implies (#[trigger] g2[a].rules).no_duplicates() by {
            if a != i {
                assert(g2[a] == g1[a]);
            }
        }
    }
    lemma_index_of(g2, t, i);
    assert(declare(g2, t) =~= g1);
}

/// Declaring a state again discards its empty alternative.
pub proof fn redeclare_discards_nullable(g: Seq<StateView>, t: Seq<char>)
    requires
        well_formed(g),
    ensures
        declare(set_nullable(declare(g, t), index_of(declare(g, t), t)), t) == declare(g, t),
{
    lemma_declare(g, t);
    let g1 = declare(g, t);
    let i = index_of(g1, t);
    let g2 = set_nullable(g1, i);
    assert(well_formed(g2)) by {
        assert forall|a: int| 0 <= a < g2.len() implies (#[trigger] g2[a].rules).no_duplicates() by {
            if a != i {
                assert(g2[a] == g1[a]);
            }
        }
    }
    lemma_index_of(g2, t, i);
    assert(declare(g2, t) =~= g1);
}

} // verus!
