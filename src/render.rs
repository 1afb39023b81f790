use vstd::prelude::*;
use crate::symbol::{Symbol, SymbolView};
use crate::grammar::{Grammar, StateView, index_of, well_formed};

verus! {

/// `a` sorts before `b` as `str` orders them: by the first differing
/// character, and a proper prefix first.
pub open spec fn name_lt(a: Seq<char>, b: Seq<char>) -> bool
    decreases a.len(),
{
    if b.len() == 0 {
        false
    } else if a.len() == 0 {
        true
    } else if a[0] != b[0] {
        (a[0] as int) < (b[0] as int)
    } else {
        name_lt(a.drop_first(), b.drop_first())
    }
}

pub proof fn lemma_name_lt_irreflexive(a: Seq<char>)
    ensures
        !name_lt(a, a),
    decreases a.len(),
{
    if a.len() > 0 {
        lemma_name_lt_irreflexive(a.drop_first());
    }
}

pub proof fn lemma_name_lt_total(a: Seq<char>, b: Seq<char>)
    requires
        a != b,
    ensures
        name_lt(a, b) || name_lt(b, a),
    decreases a.len(),
{
    if a.len() > 0 && b.len() > 0 {
        if a[0] == b[0] {
            if a.drop_first() == b.drop_first() {
                assert(a =~= seq![a[0]] + a.drop_first());
                assert(b =~= seq![b[0]] + b.drop_first());
            }
            lemma_name_lt_total(a.drop_first(), b.drop_first());
        } else {
        }
    } else if a.len() == 0 && b.len() == 0 {
        assert(a =~= b);
    }
}

pub proof fn lemma_name_lt_transitive(a: Seq<char>, b: Seq<char>, c: Seq<char>)
    requires
        name_lt(a, b),
        name_lt(b, c),
    ensures
        name_lt(a, c),
    decreases a.len(),
{
    if a.len() > 0 && b.len() > 0 && c.len() > 0 {
        if a[0] == b[0] && b[0] == c[0] {
            lemma_name_lt_transitive(a.drop_first(), b.drop_first(), c.drop_first());
        }
    }
}

/// Whether `a` sorts before `b`.
pub fn name_less(a: &String, b: &String) -> (r: bool)
    ensures
        r == name_lt(a@, b@),
{
    let sa = a.as_str();
    let sb = b.as_str();
    let na = sa.unicode_len();
    let nb = sb.unicode_len();
    let mut i: usize = 0;
    assert(a@.subrange(0, na as int) =~= a@);
    assert(b@.subrange(0, nb as int) =~= b@);
    while i < na && i < nb
        invariant
            na == a@.len(),
            nb == b@.len(),
            sa@ == a@,
            sb@ == b@,
            i <= na,
            i <= nb,
            name_lt(a@, b@) == name_lt(a@.subrange(i as int, na as int), b@.subrange(i as int, nb as int)),
        decreases na - i,
    {
        let ca = sa.get_char(i);
        let cb = sb.get_char(i);
        let ghost x = a@.subrange(i as int, na as int);
        let ghost y = b@.subrange(i as int, nb as int);
        assert(x[0] == ca && y[0] == cb);
        if ca != cb {
            return ca < cb;
        }
        assert(x.drop_first() =~= a@.subrange(i + 1, na as int));
        assert(y.drop_first() =~= b@.subrange(i + 1, nb as int));
        i = i + 1;
    }
    i < nb
}

} // verus!

verus! {

/// `order` lists every state of `g` but `ii`, each once, by increasing name.
pub open spec fn sorted_others(g: Seq<StateView>, ii: int, order: Seq<int>) -> bool {
    &&& forall|a: int| 0 <= a < order.len() ==> 0 <= #[trigger] order[a] < g.len() && order[a] != ii
    &&& forall|a: int, b: int| 0 <= a < b < order.len() ==> name_lt(g[order[a]].name, g[order[b]].name)
    &&& forall|j: int| 0 <= j < g.len() && j != ii ==> order.contains(j)
}

/// The positions of the states but `ii`, by increasing name.
fn others_by_name(g: &Grammar, ii: usize) -> (order: Vec<usize>)
    requires
        g.wf(),
        ii < g@.len(),
    ensures
        sorted_others(g@, ii as int, order@.map_values(|x: usize| x as int)),
{
    proof {
        g.lemma_wf();
    }
    let n = g.state_count();
    let mut order: Vec<usize> = Vec::new();
    loop
        invariant
            g.wf(),
            well_formed(g@),
            n == g@.len(),
            ii < n,
            forall|a: int| 0 <= a < order@.len() ==> (#[trigger] order@[a]) < n && order@[a] != ii,
            forall|a: int, b: int| 0 <= a < b < order@.len() ==> name_lt(g@[order@[a] as int].name, g@[order@[b] as int].name),
            forall|j: int| 0 <= j < n && j != ii && !order@.contains(j as usize) ==> order@.len() > 0 ==> name_lt(
                g@[order@.last() as int].name,
                #[trigger] g@[j].name,
            ),
        decreases n - order@.len(),
    {
        // the smallest name above the last one taken
        let mut best: Option<usize> = None;
        let mut j: usize = 0;
        while j < n
            invariant
                g.wf(),
                well_formed(g@),
                n == g@.len(),
                ii < n,
                j <= n,
                forall|a: int| 0 <= a < order@.len() ==> (#[trigger] order@[a]) < n && order@[a] != ii,
                forall|a: int, b: int| 0 <= a < b < order@.len() ==> name_lt(g@[order@[a] as int].name, g@[order@[b] as int].name),
                forall|x: int| 0 <= x < n && x != ii && !order@.contains(x as usize) ==> order@.len() > 0 ==> name_lt(
                    g@[order@.last() as int].name,
                    #[trigger] g@[x].name,
                ),
                match best {
                    Some(m) => m < j && m != ii && (order@.len() > 0 ==> name_lt(g@[order@.last() as int].name, g@[m as int].name)),
                    None => true,
                },
                forall|x: int| #![trigger g@[x]] 0 <= x < j && x != ii && (order@.len() > 0 ==> name_lt(g@[order@.last() as int].name, g@[x].name))
                    ==> match best {
                        Some(m) => x == m || name_lt(g@[m as int].name, g@[x].name),
                        None => false,
                    },
            decreases n - j,
        {
            let ghost best0 = best;
            let mut above = false;
            if j != ii {
                above = if order.len() == 0 {
                    true
                } else {
                    name_less(g.state_name(order[order.len() - 1]), g.state_name(j))
                };
                if above {
                    match best {
                        None => {
                            best = Some(j);
                        },
                        Some(m) => {
                            if name_less(g.state_name(j), g.state_name(m)) {
                                best = Some(j);
                            }
                        },
                    }
                }
            }
            proof {
                if order@.len() > 0 {
                    assert(order@.last() == order@[order@.len() - 1]);
                }
                assert forall|x: int| #![trigger g@[x]] 0 <= x < j + 1 && x != ii && (order@.len() > 0 ==> name_lt(g@[order@.last() as int].name, g@[x].name))
                    implies match best {
                        Some(m) => x == m || name_lt(g@[m as int].name, g@[x].name),
                        None => false,
                    } by {
                    let _ = g@[x].name;
                    if x < j {
                        match best0 {
                            None => {},
                            Some(m0) => {
                                if best != best0 && x != m0 {
                                    lemma_name_lt_transitive(g@[j as int].name, g@[m0 as int].name, g@[x].name);
                                }
                            },
                        }
                    } else {
                        assert(above);
                        match best0 {
                            None => {},
                            Some(m0) => {
                                if best == best0 {
                                    assert(g@[j as int].name != g@[m0 as int].name);
                                    lemma_name_lt_total(g@[j as int].name, g@[m0 as int].name);
                                }
                            },
                        }
                    }
                }
            }
            j = j + 1;
        }
        match best {
            None => {
                proof {
                    let os = order@.map_values(|x: usize| x as int);
                    assert forall|x: int| 0 <= x < n && x != ii implies os.contains(x) by {
                        let _ = g@[x].name;
                        if !order@.contains(x as usize) {
                            if order@.len() > 0 {
                                assert(order@.last() == order@[order@.len() - 1]);
                                assert(name_lt(g@[order@.last() as int].name, g@[x].name));
                            }
                            assert(x < j);
                            assert(match best {
                                Some(m) => x == m || name_lt(g@[m as int].name, g@[x].name),
                                None => false,
                            });
                            assert(false);
                        } else {
                            let a = choose|a: int| 0 <= a < order@.len() && order@[a] == x as usize;
                            assert(os[a] == x);
                        }
                    }
                }
                return order;
            },
            Some(m) => {
                let ghost os = order@.map_values(|x: usize| x as int);
                proof {
                    // `m` is new, so there is room for it
                    assert forall|a: int| 0 <= a < order@.len() implies #[trigger] order@[a] != m by {
                        let l = order@.len() - 1;
                        if a < l {
                            lemma_name_lt_transitive(g@[order@[a] as int].name, g@[order@[l] as int].name, g@[m as int].name);
                        }
                        lemma_name_lt_irreflexive(g@[m as int].name);
                    }
                    assert forall|a: int, b: int| 0 <= a < b < os.len() implies os[a] != os[b] by {
                        lemma_name_lt_irreflexive(g@[order@[a] as int].name);
                    }
                    let s = os.to_set().insert(m as int);
                    os.unique_seq_to_set();
                    vstd::set_lib::lemma_int_range(0, n as int);
                    assert(s.subset_of(vstd::set_lib::set_int_range(0, n as int).remove(ii as int)));
                    vstd::set_lib::lemma_len_subset(s, vstd::set_lib::set_int_range(0, n as int).remove(ii as int));
                    assert(!os.to_set().contains(m as int));
                }
                let ghost old_order = order@;
                order.push(m);
                proof {
                    assert forall|a: int, b: int| 0 <= a < b < order@.len() implies name_lt(g@[order@[a] as int].name, g@[order@[b] as int].name) by {
                        if b == order@.len() - 1 && a < b - 1 {
                            lemma_name_lt_transitive(g@[order@[a] as int].name, g@[order@[b - 1] as int].name, g@[m as int].name);
                        }
                    }
                    assert forall|x: int| 0 <= x < n && x != ii && !order@.contains(x as usize) implies name_lt(
                        g@[order@.last() as int].name,
                        #[trigger] g@[x].name,
                    ) by {
                        assert(!old_order.contains(x as usize)) by {
                            if old_order.contains(x as usize) {
                                let a = choose|a: int| 0 <= a < old_order.len() && old_order[a] == x as usize;
                                assert(order@[a] == x as usize);
                            }
                        }
                        assert(x != m) by {
                            assert(order@[order@.len() - 1] == m);
                        }
                    }
                }
            },
        }
    }
}

} // verus!

verus! {

/// A symbol as written: a reference in angle brackets, a terminal as it is.
pub open spec fn symbol_text(s: SymbolView) -> Seq<char> {
    match s {
        SymbolView::NonTerminal(n) => seq!['<'] + n + seq!['>'],
        SymbolView::Terminal(t) => t,
    }
}

/// A rule as written: its symbols side by side.
pub open spec fn rule_text(r: Seq<SymbolView>) -> Seq<char>
    decreases r.len(),
{
    if r.len() == 0 {
        Seq::empty()
    } else {
        rule_text(r.drop_last()) + symbol_text(r.last())
    }
}

/// Rules as written: separated by ` | `.
pub open spec fn alternatives_text(rules: Seq<Seq<SymbolView>>) -> Seq<char>
    decreases rules.len(),
{
    if rules.len() == 0 {
        Seq::empty()
    } else if rules.len() == 1 {
        rule_text(rules[0])
    } else {
        alternatives_text(rules.drop_last()) + seq![' ', '|', ' '] + rule_text(rules.last())
    }
}

/// The line of a state: `<name> ::= alternatives`, then ` | <>` where it
/// accepts the empty sequence, then a newline.
pub open spec fn state_line(s: StateView) -> Seq<char> {
    seq!['<'] + s.name + seq!['>', ' ', ':', ':', '=', ' '] + alternatives_text(s.rules) + if s.nullable {
        seq![' ', '|', ' ', '<', '>', '\n']
    } else {
        seq!['\n']
    }
}

/// The lines of the states at the positions `order`, in that order.
pub open spec fn lines_text(g: Seq<StateView>, order: Seq<int>) -> Seq<char>
    decreases order.len(),
{
    if order.len() == 0 {
        Seq::empty()
    } else {
        lines_text(g, order.drop_last()) + state_line(g[order.last()])
    }
}

/// Appends the characters of `s`.
fn push_str(out: &mut String, s: &str)
    ensures
        final(out)@ == old(out)@ + s@,
{
    let n = s.unicode_len();
    let mut i: usize = 0;
    while i < n
        invariant
            n == s@.len(),
            i <= n,
            out@ == old(out)@ + s@.subrange(0, i as int),
        decreases n - i,
    {
        let c = s.get_char(i);
        out.push(c);
        assert(s@.subrange(0, i + 1) =~= s@.subrange(0, i as int).push(c));
        assert(out@ =~= old(out)@ + s@.subrange(0, i + 1));
        i = i + 1;
    }
    assert(s@.subrange(0, n as int) =~= s@);
}

fn write_symbol(out: &mut String, s: &Symbol)
    ensures
        final(out)@ == old(out)@ + symbol_text(s@),
{
    match s {
        Symbol::NonTerminal(n) => {
            out.push('<');
            push_str(out, n.as_str());
            out.push('>');
            assert(out@ =~= old(out)@ + symbol_text(s@));
        },
        Symbol::Terminal(t) => {
            push_str(out, t.as_str());
        },
    }
}

fn write_rule(out: &mut String, r: &Vec<Symbol>)
    ensures
        final(out)@ == old(out)@ + rule_text(crate::symbol::rule_view(r@)),
{
    let ghost rv = crate::symbol::rule_view(r@);
    let mut j: usize = 0;
    assert(rv.subrange(0, 0) =~= Seq::<SymbolView>::empty());
    while j < r.len()
        invariant
            rv == crate::symbol::rule_view(r@),
            j <= r@.len(),
            out@ == old(out)@ + rule_text(rv.subrange(0, j as int)),
        decreases r@.len() - j,
    {
        write_symbol(out, &r[j]);
        assert(rv.subrange(0, j + 1).drop_last() =~= rv.subrange(0, j as int));
        assert(out@ =~= old(out)@ + rule_text(rv.subrange(0, j + 1)));
        j = j + 1;
    }
    assert(rv.subrange(0, r@.len() as int) =~= rv);
}

fn write_line(out: &mut String, g: &Grammar, i: usize)
    requires
        i < g@.len(),
    ensures
        final(out)@ == old(out)@ + state_line(g@[i as int]),
{
    let ghost s = g@[i as int];
    out.push('<');
    push_str(out, g.state_name(i).as_str());
    out.push('>');
    out.push(' ');
    out.push(':');
    out.push(':');
    out.push('=');
    out.push(' ');
    let ghost head = out@;
    let nr = g.rule_count(i);
    let mut k: usize = 0;
    assert(s.rules.subrange(0, 0) =~= Seq::<Seq<SymbolView>>::empty());
    while k < nr
        invariant
            i < g@.len(),
            s == g@[i as int],
            nr == s.rules.len(),
            k <= nr,
            out@ == head + alternatives_text(s.rules.subrange(0, k as int)),
        decreases nr - k,
    {
        if k > 0 {
            out.push(' ');
            out.push('|');
            out.push(' ');
        }
        write_rule(out, g.rule(i, k));
        let ghost sub = s.rules.subrange(0, k + 1);
        assert(sub.drop_last() =~= s.rules.subrange(0, k as int));
        assert(out@ =~= head + alternatives_text(sub));
        k = k + 1;
    }
    assert(s.rules.subrange(0, nr as int) =~= s.rules);
    let ghost body = out@;
    if g.accepts_empty(i) {
        out.push(' ');
        out.push('|');
        out.push(' ');
        out.push('<');
        out.push('>');
        out.push('\n');
    } else {
        out.push('\n');
    }
    assert(out@ =~= old(out)@ + state_line(s));
}

impl Grammar {
    /// The grammar as text: the line of the initial state, then the lines of
    /// the other states by increasing name.
    pub fn to_string(&self) -> (r: String)
        requires
            self.wf(),
        ensures
            exists|order: Seq<int>|
                sorted_others(self@, index_of(self@, self.initial_name()), order) && r@ == state_line(
                    self@[index_of(self@, self.initial_name())],
                ) + lines_text(self@, order),
    {
        proof {
            self.lemma_wf();
        }
        let ii = match self.find_state(self.initial()) {
            Some(ii) => ii,
            None => 0,
        };
        let order = others_by_name(self, ii);
        let ghost os = order@.map_values(|x: usize| x as int);
        let mut out = String::new();
        write_line(&mut out, self, ii);
        let ghost head = out@;
        let mut a: usize = 0;
        assert(os.subrange(0, 0) =~= Seq::<int>::empty());
        while a < order.len()
            invariant
                self.wf(),
                ii < self@.len(),
                os == order@.map_values(|x: usize| x as int),
                sorted_others(self@, ii as int, os),
                a <= order@.len(),
                out@ == head + lines_text(self@, os.subrange(0, a as int)),
            decreases order@.len() - a,
        {
            assert(os[a as int] == order@[a as int] as int);
            write_line(&mut out, self, order[a]);
            let ghost sub = os.subrange(0, a + 1);
            assert(sub.drop_last() =~= os.subrange(0, a as int));
            assert(out@ =~= head + lines_text(self@, sub));
            a = a + 1;
        }
        assert(os.subrange(0, order@.len() as int) =~= os);
        out
    }
}

} // verus!
