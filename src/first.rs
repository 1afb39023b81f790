use vstd::prelude::*;
use crate::symbol::{Symbol, SymbolView, rule_view};
use crate::grammar::{Grammar, StateView, has_state, index_of};
use crate::charset::{CharSets, insert_char, add_all_except, copy_chars};

verus! {

/// Marks, inside a FIRST set, that the empty sequence is derivable.
pub const EPSILON: char = '\u{a7}';

/// `f` is below `h`, state by state.
pub open spec fn below(f: Seq<Set<char>>, h: Seq<Set<char>>) -> bool {
    f.len() == h.len() && forall|x: int| 0 <= x < f.len() ==> (#[trigger] f[x]).subset_of(h[x])
}

/// Whether `s` names a declared state that accepts the empty sequence.
pub open spec fn symbol_nullable(g: Seq<StateView>, s: SymbolView) -> bool {
    match s {
        SymbolView::NonTerminal(n) => has_state(g, n) && g[index_of(g, n)].nullable,
        SymbolView::Terminal(_) => false,
    }
}

/// What one symbol adds to a FIRST set, given the sets `f`: the first
/// character of a terminal; the set of a declared state, without `EPSILON`.
pub open spec fn symbol_first(g: Seq<StateView>, f: Seq<Set<char>>, s: SymbolView) -> Set<char> {
    match s {
        SymbolView::Terminal(t) => if t.len() > 0 {
            set![t[0]]
        } else {
            Set::empty()
        },
        SymbolView::NonTerminal(n) => if has_state(g, n) {
            f[index_of(g, n)].remove(EPSILON)
        } else {
            Set::empty()
        },
    }
}

/// What the symbols `r` add from the left: each symbol while those before it
/// are nullable states, and `EPSILON` when all of them are.
pub open spec fn seq_first(g: Seq<StateView>, f: Seq<Set<char>>, r: Seq<SymbolView>) -> Set<char>
    decreases r.len(),
{
    if r.len() == 0 {
        set![EPSILON]
    } else {
        symbol_first(g, f, r[0]).union(
            if symbol_nullable(g, r[0]) {
                seq_first(g, f, r.drop_first())
            } else {
                Set::empty()
            },
        )
    }
}

/// What rule `r` of state `i` adds to the FIRST set of `i`; a nullable state
/// adds `EPSILON` with each of its rules. A rule without symbols is no
/// alternative and adds nothing else.
pub open spec fn rule_first(g: Seq<StateView>, f: Seq<Set<char>>, i: int, r: Seq<SymbolView>) -> Set<char> {
    let own = if r.len() == 0 {
        Set::empty()
    } else {
        seq_first(g, f, r)
    };
    if g[i].nullable {
        own.insert(EPSILON)
    } else {
        own
    }
}

/// What the first `k` rules of state `i` add.
pub open spec fn rules_first(g: Seq<StateView>, f: Seq<Set<char>>, i: int, k: int) -> Set<char>
    decreases k,
{
    if k <= 0 {
        Set::empty()
    } else {
        rules_first(g, f, i, k - 1).union(rule_first(g, f, i, g[i].rules[k - 1]))
    }
}

/// One round over all rules: each set grows by what its rules add.
pub open spec fn first_round(g: Seq<StateView>, f: Seq<Set<char>>) -> Seq<Set<char>> {
    Seq::new(g.len(), |i: int| f[i].union(rules_first(g, f, i, g[i].rules.len() as int)))
}

/// Every rule's contribution is already in its state's set.
pub open spec fn first_closed(g: Seq<StateView>, f: Seq<Set<char>>) -> bool {
    &&& f.len() == g.len()
    &&& forall|i: int, k: int|
        0 <= i < g.len() && 0 <= k < g[i].rules.len() ==> (#[trigger] rule_first(
            g,
            f,
            i,
            g[i].rules[k],
        )).subset_of(f[i])
}

/// `f` is closed, and below every closed family.
pub open spec fn least_first(g: Seq<StateView>, f: Seq<Set<char>>) -> bool {
    &&& first_closed(g, f)
    &&& forall|h: Seq<Set<char>>| #[trigger] first_closed(g, h) ==> below(f, h)
}

/// The FIRST sets of the states of `g`, by position: the least family closed
/// under the rules.
pub open spec fn first_sets(g: Seq<StateView>) -> Seq<Set<char>> {
    choose|f: Seq<Set<char>>| least_first(g, f)
}

pub proof fn lemma_seq_first_mono(g: Seq<StateView>, f: Seq<Set<char>>, h: Seq<Set<char>>, r: Seq<SymbolView>)
    requires
        below(f, h),
        f.len() == g.len(),
    ensures
        seq_first(g, f, r).subset_of(seq_first(g, h, r)),
    decreases r.len(),
{
    if r.len() > 0 {
        lemma_seq_first_mono(g, f, h, r.drop_first());
        if let SymbolView::NonTerminal(n) = r[0] {
            if has_state(g, n) {
                assert(f[index_of(g, n)].subset_of(h[index_of(g, n)]));
            }
        }
    }
}

pub proof fn lemma_rules_first_mono(g: Seq<StateView>, f: Seq<Set<char>>, h: Seq<Set<char>>, i: int, k: int)
    requires
        below(f, h),
        f.len() == g.len(),
        0 <= i < g.len(),
        k <= g[i].rules.len(),
    ensures
        rules_first(g, f, i, k).subset_of(rules_first(g, h, i, k)),
    decreases k,
{
    if k > 0 {
        lemma_rules_first_mono(g, f, h, i, k - 1);
        lemma_seq_first_mono(g, f, h, g[i].rules[k - 1]);
    }
}

pub proof fn lemma_rules_first_has(g: Seq<StateView>, f: Seq<Set<char>>, i: int, k: int, j: int)
    requires
        0 <= j < k,
    ensures
        rule_first(g, f, i, g[i].rules[j]).subset_of(rules_first(g, f, i, k)),
    decreases k,
{
    if j < k - 1 {
        lemma_rules_first_has(g, f, i, k - 1, j);
    }
}

/// A family that one round leaves as it is, is closed.
pub proof fn lemma_first_fixpoint_closed(g: Seq<StateView>, f: Seq<Set<char>>)
    requires
        f.len() == g.len(),
        first_round(g, f) == f,
    ensures
        first_closed(g, f),
{
    assert forall|i: int, k: int| 0 <= i < g.len() && 0 <= k < g[i].rules.len() implies (#[trigger] rule_first(
        g,
        f,
        i,
        g[i].rules[k],
    )).subset_of(f[i]) by {
        lemma_rules_first_has(g, f, i, g[i].rules.len() as int, k);
        assert(first_round(g, f)[i] == f[i]);
    }
}

/// A round keeps a family below every closed family.
pub proof fn lemma_first_round_below(g: Seq<StateView>, f: Seq<Set<char>>, h: Seq<Set<char>>)
    requires
        f.len() == g.len(),
        below(f, h),
        first_closed(g, h),
    ensures
        below(first_round(g, f), h),
{
    assert forall|i: int| 0 <= i < g.len() implies (#[trigger] first_round(g, f)[i]).subset_of(h[i]) by {
        lemma_rules_first_mono(g, f, h, i, g[i].rules.len() as int);
        lemma_rules_first_within(g, h, i, g[i].rules.len() as int);
        assert(f[i].subset_of(h[i]));
    }
}

pub proof fn lemma_rules_first_within(g: Seq<StateView>, h: Seq<Set<char>>, i: int, k: int)
    requires
        first_closed(g, h),
        0 <= i < g.len(),
        k <= g[i].rules.len(),
    ensures
        rules_first(g, h, i, k).subset_of(h[i]),
    decreases k,
{
    if k > 0 {
        lemma_rules_first_within(g, h, i, k - 1);
        assert(rule_first(g, h, i, g[i].rules[k - 1]).subset_of(h[i]));
    }
}

/// A least family is the one `first_sets` names.
pub proof fn lemma_least_first_unique(g: Seq<StateView>, f: Seq<Set<char>>)
    requires
        least_first(g, f),
    ensures
        first_sets(g) == f,
{
    let c = first_sets(g);
    assert(least_first(g, c));
    assert(below(f, c));
    assert(below(c, f));
    assert forall|x: int| 0 <= x < f.len() implies #[trigger] c[x] == f[x] by {
        assert(c[x].subset_of(f[x]) && f[x].subset_of(c[x]));
        assert(c[x] =~= f[x]);
    }
    assert(c =~= f);
}

} // verus!

verus! {

/// The first character of a terminal, if any, is in `a`.
pub open spec fn lead_in(s: SymbolView, a: Set<char>) -> bool {
    match s {
        SymbolView::Terminal(t) => t.len() > 0 ==> a.contains(t[0]),
        SymbolView::NonTerminal(_) => true,
    }
}

/// `a` holds `EPSILON` and the first character of every terminal of `g`.
pub open spec fn leads_in(g: Seq<StateView>, a: Set<char>) -> bool {
    &&& a.contains(EPSILON)
    &&& forall|i: int, k: int, j: int|
        0 <= i < g.len() && 0 <= k < g[i].rules.len() && 0 <= j < g[i].rules[k].len() ==> lead_in(
            #[trigger] g[i].rules[k][j],
            a,
        )
}

/// The sets that the character lists of `c` hold.
pub open spec fn family(c: Seq<Vec<char>>) -> Seq<Set<char>> {
    c.map_values(|v: Vec<char>| v@.to_set())
}

/// The sum of the lengths of the lists of `c`.
pub open spec fn total(c: Seq<Vec<char>>) -> nat
    decreases c.len(),
{
    if c.len() == 0 {
        0
    } else {
        total(c.drop_last()) + c.last()@.len()
    }
}

pub proof fn lemma_total_bound(c: Seq<Vec<char>>, m: nat)
    requires
        forall|x: int| 0 <= x < c.len() ==> (#[trigger] c[x])@.len() <= m,
    ensures
        total(c) <= c.len() * m,
    decreases c.len(),
{
    if c.len() > 0 {
        lemma_total_bound(c.drop_last(), m);
        assert(total(c) <= (c.len() - 1) * m + m);
        assert((c.len() - 1) * m + m == c.len() * m) by (nonlinear_arith);
    }
}

pub proof fn lemma_total_grows(c: Seq<Vec<char>>, d: Seq<Vec<char>>)
    requires
        c.len() == d.len(),
        forall|x: int| 0 <= x < c.len() ==> (#[trigger] c[x])@.len() <= d[x]@.len(),
    ensures
        total(c) <= total(d),
        (exists|x: int| 0 <= x < c.len() && (#[trigger] c[x])@.len() < d[x]@.len()) ==> total(c) < total(d),
    decreases c.len(),
{
    if c.len() > 0 {
        let c0 = c.drop_last();
        let d0 = d.drop_last();
        assert forall|x: int| 0 <= x < c0.len() implies (#[trigger] c0[x])@.len() <= d0[x]@.len() by {
            assert(c0[x] == c[x] && d0[x] == d[x]);
        }
        lemma_total_grows(c0, d0);
        if exists|x: int| 0 <= x < c.len() && (#[trigger] c[x])@.len() < d[x]@.len() {
            let x = choose|x: int| 0 <= x < c.len() && (#[trigger] c[x])@.len() < d[x]@.len();
            if x < c.len() - 1 {
                assert(c0[x] == c[x] && d0[x] == d[x]);
            }
        }
    }
}

/// A list without repeats, inside the set of another, is no longer than it.
pub proof fn lemma_list_bound(v: Seq<char>, a: Seq<char>)
    requires
        v.no_duplicates(),
        v.to_set().subset_of(a.to_set()),
    ensures
        v.len() <= a.len(),
{
    v.unique_seq_to_set();
    a.lemma_cardinality_of_set();
    vstd::seq_lib::seq_to_set_is_finite(a);
    vstd::set_lib::lemma_len_subset(v.to_set(), a.to_set());
}

pub proof fn lemma_seq_first_within(g: Seq<StateView>, f: Seq<Set<char>>, r: Seq<SymbolView>, a: Set<char>)
    requires
        f.len() == g.len(),
        a.contains(EPSILON),
        forall|x: int| 0 <= x < f.len() ==> (#[trigger] f[x]).subset_of(a),
        forall|j: int| 0 <= j < r.len() ==> lead_in(#[trigger] r[j], a),
    ensures
        seq_first(g, f, r).subset_of(a),
    decreases r.len(),
{
    if r.len() > 0 {
        let r1 = r.drop_first();
        assert forall|j: int| 0 <= j < r1.len() implies lead_in(#[trigger] r1[j], a) by {
            assert(r1[j] == r[j + 1]);
        }
        lemma_seq_first_within(g, f, r1, a);
        assert(lead_in(r[0], a));
        if let SymbolView::NonTerminal(n) = r[0] {
            if has_state(g, n) {
                assert(f[index_of(g, n)].subset_of(a));
            }
        }
    }
}

pub proof fn lemma_rules_first_in(g: Seq<StateView>, f: Seq<Set<char>>, i: int, k: int, a: Set<char>)
    requires
        f.len() == g.len(),
        leads_in(g, a),
        forall|x: int| 0 <= x < f.len() ==> (#[trigger] f[x]).subset_of(a),
        0 <= i < g.len(),
        k <= g[i].rules.len(),
    ensures
        rules_first(g, f, i, k).subset_of(a),
    decreases k,
{
    if k > 0 {
        lemma_rules_first_in(g, f, i, k - 1, a);
        let r = g[i].rules[k - 1];
        assert forall|j: int| 0 <= j < r.len() implies lead_in(#[trigger] r[j], a) by {
            assert(lead_in(g[i].rules[k - 1][j], a));
        }
        lemma_seq_first_within(g, f, r, a);
    }
}

} // verus!

verus! {

/// `EPSILON` and the first character of every terminal of `g`, once each.
pub(crate) fn alphabet(g: &Grammar) -> (a: Vec<char>)
    ensures
        a@.no_duplicates(),
        leads_in(g@, a@.to_set()),
{
    let mut a: Vec<char> = Vec::new();
    insert_char(&mut a, EPSILON);
    let n = g.state_count();
    let mut i: usize = 0;
    while i < n
        invariant
            n == g@.len(),
            i <= n,
            a@.no_duplicates(),
            a@.to_set().contains(EPSILON),
            forall|i1: int, k1: int, j1: int|
                0 <= i1 < i && 0 <= k1 < g@[i1].rules.len() && 0 <= j1 < g@[i1].rules[k1].len()
                    ==> lead_in(#[trigger] g@[i1].rules[k1][j1], a@.to_set()),
        decreases n - i,
    {
        let nr = g.rule_count(i);
        let mut k: usize = 0;
        while k < nr
            invariant
                n == g@.len(),
                i < n,
                nr == g@[i as int].rules.len(),
                k <= nr,
                a@.no_duplicates(),
                a@.to_set().contains(EPSILON),
                forall|i1: int, k1: int, j1: int|
                    0 <= i1 < i && 0 <= k1 < g@[i1].rules.len() && 0 <= j1 < g@[i1].rules[k1].len()
                        ==> lead_in(#[trigger] g@[i1].rules[k1][j1], a@.to_set()),
                forall|k1: int, j1: int|
                    0 <= k1 < k && 0 <= j1 < g@[i as int].rules[k1].len()
                        ==> lead_in(#[trigger] g@[i as int].rules[k1][j1], a@.to_set()),
            decreases nr - k,
        {
            let r = g.rule(i, k);
            let mut j: usize = 0;
            while j < r.len()
                invariant
                    n == g@.len(),
                    i < n,
                    nr == g@[i as int].rules.len(),
                    k < nr,
                    rule_view(r@) == g@[i as int].rules[k as int],
                    j <= r@.len(),
                    a@.no_duplicates(),
                    a@.to_set().contains(EPSILON),
                    forall|i1: int, k1: int, j1: int|
                        0 <= i1 < i && 0 <= k1 < g@[i1].rules.len() && 0 <= j1 < g@[i1].rules[k1].len()
                            ==> lead_in(#[trigger] g@[i1].rules[k1][j1], a@.to_set()),
                    forall|k1: int, j1: int|
                        0 <= k1 < k && 0 <= j1 < g@[i as int].rules[k1].len()
                            ==> lead_in(#[trigger] g@[i as int].rules[k1][j1], a@.to_set()),
                    forall|j1: int| 0 <= j1 < j ==> lead_in(#[trigger] g@[i as int].rules[k as int][j1], a@.to_set()),
                decreases r@.len() - j,
            {
                let ghost a0 = a@.to_set();
                match &r[j] {
                    Symbol::Terminal(t) => {
                        if !t.as_str().is_empty() {
                            let c = t.as_str().get_char(0);
                            insert_char(&mut a, c);
                        }
                    },
                    Symbol::NonTerminal(_) => {},
                }
                proof {
                    assert(a0.subset_of(a@.to_set()));
                    assert(g@[i as int].rules[k as int][j as int] == r@[j as int]@);
                }
                j = j + 1;
            }
            k = k + 1;
        }
        i = i + 1;
    }
    a
}

} // verus!

verus! {

/// Adds to `acc` what rule `k` of state `i` contributes, given the sets `cur`.
fn add_rule_first(g: &Grammar, cur: &Vec<Vec<char>>, i: usize, k: usize, acc: &mut Vec<char>) -> (grew: bool)
    requires
        g.wf(),
        cur@.len() == g@.len(),
        i < g@.len(),
        k < g@[i as int].rules.len(),
        old(acc)@.no_duplicates(),
    ensures
        final(acc)@.no_duplicates(),
        final(acc)@.to_set() == old(acc)@.to_set().union(
            rule_first(g@, family(cur@), i as int, g@[i as int].rules[k as int]),
        ),
        final(acc)@.len() >= old(acc)@.len(),
        final(acc)@.subrange(0, old(acc)@.len() as int) == old(acc)@,
        !grew ==> final(acc)@ == old(acc)@,
{
    let ghost f = family(cur@);
    let ghost rv = g@[i as int].rules[k as int];
    let ghost target = acc@.to_set().union(rule_first(g@, f, i as int, rv));
    let ghost a0 = acc@;
    let r = g.rule(i, k);
    let mut grew = false;
    if g.accepts_empty(i) {
        grew = insert_char(acc, EPSILON);
        assert(acc@.subrange(0, a0.len() as int) =~= a0);
    }
    if r.len() == 0 {
        assert(rv.len() == 0);
        assert(acc@.to_set() =~= target);
        return grew;
    }
    let mut go = true;
    let mut j: usize = 0;
    assert(rv.subrange(0, rv.len() as int) =~= rv);
    while go && j < r.len()
        invariant
            g.wf(),
            cur@.len() == g@.len(),
            f == family(cur@),
            rule_view(r@) == rv,
            j <= r@.len(),
            acc@.no_duplicates(),
            acc@.len() >= a0.len(),
            acc@.subrange(0, a0.len() as int) == a0,
            !grew ==> acc@ == a0,
            acc@.to_set().subset_of(target),
            acc@.to_set().union(
                if go {
                    seq_first(g@, f, rv.subrange(j as int, rv.len() as int))
                } else {
                    Set::empty()
                },
            ) == target,
        decreases r@.len() - j,
    {
        let ghost sub = rv.subrange(j as int, rv.len() as int);
        let ghost before = acc@;
        assert(sub.drop_first() =~= rv.subrange(j + 1, rv.len() as int));
        assert(sub[0] == r@[j as int]@);
        match &r[j] {
            Symbol::Terminal(t) => {
                if !t.as_str().is_empty() {
                    let c = t.as_str().get_char(0);
                    if insert_char(acc, c) {
                        grew = true;
                    }
                    assert(acc@.subrange(0, a0.len() as int) =~= before.subrange(0, a0.len() as int));
                    assert(symbol_first(g@, f, sub[0]) =~= set![c]);
                } else {
                    assert(symbol_first(g@, f, sub[0]) =~= Set::empty());
                }
                go = false;
            },
            Symbol::NonTerminal(n) => {
                match g.find_state(n) {
                    Some(x) => {
                        proof {
                            g.lemma_wf();
                        }
                        if add_all_except(acc, &cur[x], Some(EPSILON)) {
                            grew = true;
                        }
                        assert(acc@.subrange(0, a0.len() as int) =~= acc@.subrange(0, before.len() as int).subrange(0, a0.len() as int));
                        assert(f[x as int] == cur@[x as int]@.to_set());
                        go = g.accepts_empty(x);
                    },
                    None => {
                        go = false;
                    },
                }
            },
        }
        assert(acc@.to_set().union(
            if go {
                seq_first(g@, f, rv.subrange(j + 1, rv.len() as int))
            } else {
                Set::empty()
            },
        ) =~= target);
        j = j + 1;
    }
    if go {
        assert(rv.subrange(j as int, rv.len() as int) =~= Seq::<SymbolView>::empty());
        let ghost before = acc@;
        if insert_char(acc, EPSILON) {
            grew = true;
        }
        assert(acc@.subrange(0, a0.len() as int) =~= before.subrange(0, a0.len() as int));
    }
    assert(acc@.to_set() =~= target);
    grew
}

} // verus!

verus! {

/// One round of FIRST over all states, from the sets `cur`.
fn first_pass(g: &Grammar, cur: &Vec<Vec<char>>) -> (res: (Vec<Vec<char>>, bool))
    requires
        g.wf(),
        cur@.len() == g@.len(),
        forall|x: int| 0 <= x < cur@.len() ==> (#[trigger] cur@[x])@.no_duplicates(),
    ensures
        res.0@.len() == cur@.len(),
        family(res.0@) == first_round(g@, family(cur@)),
        forall|x: int| 0 <= x < cur@.len() ==> (#[trigger] res.0@[x])@.no_duplicates(),
        forall|x: int| 0 <= x < cur@.len() ==> (#[trigger] res.0@[x])@.len() >= cur@[x]@.len(),
        res.1 ==> exists|x: int| 0 <= x < cur@.len() && (#[trigger] res.0@[x])@.len() > cur@[x]@.len(),
        !res.1 ==> forall|x: int| 0 <= x < cur@.len() ==> (#[trigger] res.0@[x])@ == cur@[x]@,
{
    let ghost f = family(cur@);
    let n = g.state_count();
    let mut next: Vec<Vec<char>> = Vec::new();
    let mut grew = false;
    let mut i: usize = 0;
    while i < n
        invariant
            g.wf(),
            n == g@.len(),
            cur@.len() == n,
            f == family(cur@),
            forall|x: int| 0 <= x < cur@.len() ==> (#[trigger] cur@[x])@.no_duplicates(),
            i <= n,
            next@.len() == i,
            forall|x: int| 0 <= x < i ==> (#[trigger] next@[x])@.to_set() == first_round(g@, f)[x],
            forall|x: int| 0 <= x < i ==> (#[trigger] next@[x])@.no_duplicates(),
            forall|x: int| 0 <= x < i ==> (#[trigger] next@[x])@.len() >= cur@[x]@.len(),
            grew ==> exists|x: int| 0 <= x < i && (#[trigger] next@[x])@.len() > cur@[x]@.len(),
            !grew ==> forall|x: int| 0 <= x < i ==> (#[trigger] next@[x])@ == cur@[x]@,
        decreases n - i,
    {
        let mut acc = copy_chars(&cur[i]);
        let nr = g.rule_count(i);
        let mut k: usize = 0;
        while k < nr
            invariant
                g.wf(),
                n == g@.len(),
                cur@.len() == n,
                f == family(cur@),
                i < n,
                nr == g@[i as int].rules.len(),
                k <= nr,
                acc@.no_duplicates(),
                acc@.to_set() == f[i as int].union(rules_first(g@, f, i as int, k as int)),
                acc@.len() >= cur@[i as int]@.len(),
                acc@.subrange(0, cur@[i as int]@.len() as int) == cur@[i as int]@,
            decreases nr - k,
        {
            let ghost before = acc@;
            add_rule_first(g, cur, i, k, &mut acc);
            assert(acc@.subrange(0, cur@[i as int]@.len() as int) =~= acc@.subrange(0, before.len() as int).subrange(0, cur@[i as int]@.len() as int));
            assert(acc@.to_set() =~= f[i as int].union(rules_first(g@, f, i as int, k + 1)));
            k = k + 1;
        }
        let ghost a = acc@;
        let ghost next0 = next@;
        let ghost grew0 = grew;
        if acc.len() > cur[i].len() {
            grew = true;
        } else {
            assert(a =~= a.subrange(0, cur@[i as int]@.len() as int));
        }
        next.push(acc);
        assert(next@[i as int]@ == a);
        proof {
            assert forall|x: int| 0 <= x < i implies next@[x] == next0[x] by {}
            if grew0 {
                let x = choose|x: int| 0 <= x < i && (#[trigger] next0[x])@.len() > cur@[x]@.len();
                assert(next@[x] == next0[x]);
            } else if grew {
                assert(next@[i as int]@.len() > cur@[i as int]@.len());
            }
        }
        i = i + 1;
    }
    assert(family(next@) =~= first_round(g@, f));
    (next, grew)
}

} // verus!

verus! {

/// The least family closed under the rules of `g`, as lists without repeats.
pub(crate) fn first_lists(g: &Grammar) -> (r: Vec<Vec<char>>)
    requires
        g.wf(),
    ensures
        r@.len() == g@.len(),
        least_first(g@, family(r@)),
        forall|x: int| 0 <= x < r@.len() ==> (#[trigger] r@[x])@.no_duplicates(),
{
    let alpha = alphabet(g);
    let ghost a = alpha@.to_set();
    let ghost m = alpha@.len();
    let n = g.state_count();
    let mut cur: Vec<Vec<char>> = Vec::new();
    let mut i: usize = 0;
    while i < n
        invariant
            i <= n,
            cur@.len() == i,
            forall|x: int| 0 <= x < i ==> (#[trigger] cur@[x])@ == Seq::<char>::empty(),
        decreases n - i,
    {
        cur.push(Vec::new());
        i = i + 1;
    }
    proof {
        assert forall|h: Seq<Set<char>>| #[trigger] first_closed(g@, h) implies below(family(cur@), h) by {
            assert forall|x: int| 0 <= x < cur@.len() implies (#[trigger] family(cur@)[x]).subset_of(h[x]) by {
                assert(family(cur@)[x] =~= Set::empty());
            }
        }
        assert forall|x: int| 0 <= x < cur@.len() implies (#[trigger] cur@[x])@.to_set().subset_of(a) by {
            assert(cur@[x]@.to_set() =~= Set::empty());
        }
    }
    loop
        invariant
            g.wf(),
            n == g@.len(),
            cur@.len() == n,
            alpha@.no_duplicates(),
            a == alpha@.to_set(),
            m == alpha@.len(),
            leads_in(g@, a),
            forall|x: int| 0 <= x < cur@.len() ==> (#[trigger] cur@[x])@.no_duplicates(),
            forall|x: int| 0 <= x < cur@.len() ==> (#[trigger] cur@[x])@.to_set().subset_of(a),
            forall|h: Seq<Set<char>>| #[trigger] first_closed(g@, h) ==> below(family(cur@), h),
        decreases n * m - total(cur@),
    {
        let ghost f = family(cur@);
        let (next, grew) = first_pass(g, &cur);
        proof {
            assert forall|x: int| 0 <= x < n implies (#[trigger] f[x]).subset_of(a) by {
                assert(f[x] == cur@[x]@.to_set());
            }
            assert forall|x: int| 0 <= x < n implies (#[trigger] next@[x])@.to_set().subset_of(a) by {
                lemma_rules_first_in(g@, f, x, g@[x].rules.len() as int, a);
                assert(family(next@)[x] == next@[x]@.to_set());
                assert(f[x].subset_of(a));
            }
            assert forall|h: Seq<Set<char>>| #[trigger] first_closed(g@, h) implies below(family(next@), h) by {
                lemma_first_round_below(g@, f, h);
            }
            assert forall|x: int| 0 <= x < n implies (#[trigger] next@[x])@.len() <= m by {
                lemma_list_bound(next@[x]@, alpha@);
            }
            lemma_total_bound(next@, m);
            lemma_total_grows(cur@, next@);
        }
        if !grew {
            proof {
                assert(family(next@) =~= f);
                lemma_first_fixpoint_closed(g@, f);
            }
            return cur;
        }
        cur = next;
    }
}

impl Grammar {
    /// The FIRST set of every state: the characters that can begin what the
    /// state derives, with `EPSILON` where the rules let it derive nothing.
    pub fn first_set(&self) -> (r: CharSets)
        requires
            self.wf(),
        ensures
            r.wf(),
            r.names() == self@.map_values(|s: StateView| s.name),
            r.sets() == first_sets(self@),
            least_first(self@, r.sets()),
            first_round(self@, r.sets()) == r.sets(),
    {
        let lists = first_lists(self);
        let names = self.state_names();
        proof {
            lemma_least_first_unique(self@, family(lists@));
            lemma_least_is_fixpoint(self@, family(lists@));
        }
        let r = CharSets::from_parts(names, lists);
        assert(r.sets() == family(lists@));
        r
    }

    /// The names of the states, in order.
    pub fn state_names(&self) -> (r: Vec<String>)
        ensures
            r@.len() == self@.len(),
            r@.map_values(|s: String| s@) == self@.map_values(|s: StateView| s.name),
    {
        let n = self.state_count();
        let mut r: Vec<String> = Vec::new();
        let mut i: usize = 0;
        while i < n
            invariant
                n == self@.len(),
                i <= n,
                r@.len() == i,
                forall|x: int| 0 <= x < i ==> (#[trigger] r@[x])@ == self@[x].name,
            decreases n - i,
        {
            r.push(self.state_name(i).clone());
            i = i + 1;
        }
        assert(r@.map_values(|s: String| s@) =~= self@.map_values(|s: StateView| s.name));
        r
    }
}

/// The least closed family is left as it is by a round.
pub proof fn lemma_least_is_fixpoint(g: Seq<StateView>, f: Seq<Set<char>>)
    requires
        least_first(g, f),
    ensures
        first_round(g, f) == f,
{
    assert forall|i: int| 0 <= i < g.len() implies #[trigger] first_round(g, f)[i] == f[i] by {
        lemma_rules_first_within(g, f, i, g[i].rules.len() as int);
        assert(first_round(g, f)[i] =~= f[i]);
    }
    assert(first_round(g, f) =~= f);
}

} // verus!

verus! {

/// FIRST sets depend on the grammar alone: two least closed families of one
/// grammar are equal, so computing them twice gives the same sets.
pub proof fn first_sets_deterministic(g: Seq<StateView>, f1: Seq<Set<char>>, f2: Seq<Set<char>>)
    requires
        least_first(g, f1),
        least_first(g, f2),
    ensures
        f1 == f2,
{
    lemma_least_first_unique(g, f1);
    lemma_least_first_unique(g, f2);
}

/// A round of the FIRST iteration never removes a character from a set.
pub proof fn first_round_keeps(g: Seq<StateView>, f: Seq<Set<char>>)
    requires
        f.len() == g.len(),
    ensures
        forall|i: int| 0 <= i < g.len() ==> f[i].subset_of(#[trigger] first_round(g, f)[i]),
{
}

/// A nullable state with at least one rule has `EPSILON` in its FIRST set.
pub proof fn nullable_state_first_has_epsilon(g: Seq<StateView>, f: Seq<Set<char>>, i: int)
    requires
        least_first(g, f),
        0 <= i < g.len(),
        g[i].nullable,
        g[i].rules.len() > 0,
    ensures
        f[i].contains(EPSILON),
{
    assert(rule_first(g, f, i, g[i].rules[0]).subset_of(f[i]));
}

} // verus!

verus! {

/// `g` and `g2` have the same states, with the same names and flags.
pub open spec fn same_states(g: Seq<StateView>, g2: Seq<StateView>) -> bool {
    &&& g.len() == g2.len()
    &&& forall|j: int| 0 <= j < g.len() ==> (#[trigger] g2[j]).name == g[j].name && g2[j].nullable == g[j].nullable
}

pub proof fn lemma_same_states_index(g: Seq<StateView>, g2: Seq<StateView>, n: Seq<char>)
    requires
        crate::grammar::well_formed(g),
        crate::grammar::well_formed(g2),
        same_states(g, g2),
    ensures
        has_state(g2, n) == has_state(g, n),
        index_of(g2, n) == index_of(g, n),
{
    if has_state(g, n) {
        let q = choose|q: int| 0 <= q < g.len() && g[q].name == n;
        assert(g2[q].name == n);
        crate::grammar::lemma_index_of(g, n, q);
        crate::grammar::lemma_index_of(g2, n, q);
    } else if has_state(g2, n) {
        let q = choose|q: int| 0 <= q < g2.len() && g2[q].name == n;
        assert(g[q].name == n);
    }
}

pub proof fn lemma_same_states_seq_first(g: Seq<StateView>, g2: Seq<StateView>, f: Seq<Set<char>>, r: Seq<SymbolView>)
    requires
        crate::grammar::well_formed(g),
        crate::grammar::well_formed(g2),
        same_states(g, g2),
    ensures
        seq_first(g2, f, r) == seq_first(g, f, r),
    decreases r.len(),
{
    if r.len() > 0 {
        lemma_same_states_seq_first(g, g2, f, r.drop_first());
        if let SymbolView::NonTerminal(n) = r[0] {
            lemma_same_states_index(g, g2, n);
            if has_state(g, n) {
                assert(g2[index_of(g, n)].nullable == g[index_of(g, n)].nullable);
            }
        }
    }
}

/// Adding a rule keeps the grammar's states, names and flags.
pub proof fn lemma_insert_rule_shape(g: Seq<StateView>, i: int, r: Seq<SymbolView>)
    requires
        crate::grammar::well_formed(g),
        0 <= i < g.len(),
    ensures
        crate::grammar::well_formed(crate::grammar::insert_rule(g, i, r)),
        same_states(g, crate::grammar::insert_rule(g, i, r)),
        forall|a: int, k: int|
            0 <= a < g.len() && 0 <= k < g[a].rules.len() ==> k < crate::grammar::insert_rule(g, i, r)[a].rules.len()
                && (#[trigger] crate::grammar::insert_rule(g, i, r)[a].rules[k]) == g[a].rules[k],
{
    let g2 = crate::grammar::insert_rule(g, i, r);
    if !g[i].rules.contains(r) {
        assert forall|a: int| 0 <= a < g2.len() implies (#[trigger] g2[a].rules).no_duplicates() by {
            if a == i {
                assert(g[i].rules.no_duplicates());
            } else {
                assert(g2[a] == g[a]);
            }
        }
    }
}

/// Adding a rule to a grammar never removes a character from a FIRST set.
pub proof fn first_sets_grow_with_rules(
    g: Seq<StateView>,
    i: int,
    r: Seq<SymbolView>,
    f1: Seq<Set<char>>,
    f2: Seq<Set<char>>,
)
    requires
        crate::grammar::well_formed(g),
        0 <= i < g.len(),
        least_first(g, f1),
        least_first(crate::grammar::insert_rule(g, i, r), f2),
    ensures
        below(f1, f2),
{
    let g2 = crate::grammar::insert_rule(g, i, r);
    lemma_insert_rule_shape(g, i, r);
    assert forall|a: int, k: int| 0 <= a < g.len() && 0 <= k < g[a].rules.len() implies (#[trigger] rule_first(
        g,
        f2,
        a,
        g[a].rules[k],
    )).subset_of(f2[a]) by {
        assert(g2[a].rules[k] == g[a].rules[k]);
        lemma_same_states_seq_first(g, g2, f2, g[a].rules[k]);
        assert(g2[a].nullable == g[a].nullable);
        assert(rule_first(g2, f2, a, g2[a].rules[k]).subset_of(f2[a]));
    }
    assert(first_closed(g, f2));
}

} // verus!
