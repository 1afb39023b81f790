use vstd::prelude::*;
use crate::symbol::{Symbol, SymbolView, rule_view};
use crate::grammar::{Grammar, StateView, has_state, index_of};
use crate::charset::{CharSets, insert_char, add_all_except, copy_chars};
use crate::first::{EPSILON, below, family, total, lead_in, leads_in, first_sets, least_first, alphabet,
    first_lists, lemma_least_first_unique, lemma_total_grows, lemma_total_bound, lemma_list_bound};

verus! {

/// Marks the end of the input inside FOLLOW sets.
pub const END_MARKER: char = '$';

/// The position of the state that `s` names, or -1 for a terminal or an
/// undeclared name.
pub open spec fn nt_index(g: Seq<StateView>, s: SymbolView) -> int {
    match s {
        SymbolView::NonTerminal(n) => index_of(g, n),
        SymbolView::Terminal(_) => -1,
    }
}

/// What the symbol `s` passes to the FOLLOW set of a state right before it:
/// the first character of a terminal; the FIRST set without `EPSILON` and
/// the FOLLOW set of a declared state.
pub open spec fn next_gives(g: Seq<StateView>, fi: Seq<Set<char>>, fo: Seq<Set<char>>, s: SymbolView) -> Set<char> {
    match s {
        SymbolView::Terminal(t) => if t.len() > 0 {
            set![t[0]]
        } else {
            Set::empty()
        },
        SymbolView::NonTerminal(n) => if has_state(g, n) {
            fi[index_of(g, n)].remove(EPSILON).union(fo[index_of(g, n)])
        } else {
            Set::empty()
        },
    }
}

/// Every symbol of `r` after position `p` is a declared state whose FIRST
/// set holds `EPSILON`.
pub open spec fn tail_nullable(g: Seq<StateView>, fi: Seq<Set<char>>, r: Seq<SymbolView>, p: int) -> bool {
    forall|q: int| p < q < r.len() ==> nt_index(g, #[trigger] r[q]) >= 0 && fi[nt_index(g, r[q])].contains(EPSILON)
}

/// The FOLLOW sets `fo` meet position `p` of rule `r` of state `a`.
pub open spec fn position_ok(g: Seq<StateView>, fi: Seq<Set<char>>, fo: Seq<Set<char>>, a: int, r: Seq<SymbolView>, p: int) -> bool {
    nt_index(g, r[p]) >= 0 ==> {
        &&& p + 1 < r.len() ==> next_gives(g, fi, fo, r[p + 1]).subset_of(fo[nt_index(g, r[p])])
        &&& tail_nullable(g, fi, r, p) ==> fo[a].subset_of(fo[nt_index(g, r[p])])
    }
}

/// The FOLLOW sets `fo` meet every position of rule `r` of state `a`.
pub open spec fn rule_ok(g: Seq<StateView>, fi: Seq<Set<char>>, fo: Seq<Set<char>>, a: int, r: Seq<SymbolView>) -> bool {
    forall|p: int| 0 <= p < r.len() ==> #[trigger] position_ok(g, fi, fo, a, r, p)
}

/// `fo` holds `END_MARKER` for the initial state `init` and meets every rule.
pub open spec fn follow_closed(g: Seq<StateView>, fi: Seq<Set<char>>, init: Seq<char>, fo: Seq<Set<char>>) -> bool {
    &&& fo.len() == g.len()
    &&& has_state(g, init) ==> fo[index_of(g, init)].contains(END_MARKER)
    &&& forall|a: int, k: int|
        0 <= a < g.len() && 0 <= k < g[a].rules.len() ==> #[trigger] rule_ok(g, fi, fo, a, g[a].rules[k])
}

/// `fo` is closed, and below every closed family.
pub open spec fn least_follow(g: Seq<StateView>, fi: Seq<Set<char>>, init: Seq<char>, fo: Seq<Set<char>>) -> bool {
    &&& follow_closed(g, fi, init, fo)
    &&& forall|h: Seq<Set<char>>| #[trigger] follow_closed(g, fi, init, h) ==> below(fo, h)
}

/// The FOLLOW sets of the states of `g` with initial state `init`, by
/// position: the least family closed under the rules, given the FIRST sets.
pub open spec fn follow_sets(g: Seq<StateView>, init: Seq<char>) -> Seq<Set<char>> {
    choose|fo: Seq<Set<char>>| least_follow(g, first_sets(g), init, fo)
}

/// A least family is the one `follow_sets` names.
pub proof fn lemma_least_follow_unique(g: Seq<StateView>, init: Seq<char>, fo: Seq<Set<char>>)
    requires
        least_follow(g, first_sets(g), init, fo),
    ensures
        follow_sets(g, init) == fo,
{
    let c = follow_sets(g, init);
    assert(least_follow(g, first_sets(g), init, c));
    assert(below(fo, c) && below(c, fo));
    assert forall|x: int| 0 <= x < fo.len() implies #[trigger] c[x] == fo[x] by {
        assert(c[x].subset_of(fo[x]) && fo[x].subset_of(c[x]));
        assert(c[x] =~= fo[x]);
    }
    assert(c =~= fo);
}

/// What a position adds, computed from sets below a closed family `h`, is
/// already in `h`.
pub proof fn lemma_position_sound(
    g: Seq<StateView>,
    fi: Seq<Set<char>>,
    init: Seq<char>,
    fo: Seq<Set<char>>,
    h: Seq<Set<char>>,
    a: int,
    k: int,
    p: int,
)
    requires
        fo.len() == g.len(),
        below(fo, h),
        follow_closed(g, fi, init, h),
        0 <= a < g.len(),
        0 <= k < g[a].rules.len(),
        0 <= p < g[a].rules[k].len(),
        nt_index(g, g[a].rules[k][p]) >= 0,
    ensures
        p + 1 < g[a].rules[k].len() ==> next_gives(g, fi, fo, g[a].rules[k][p + 1]).subset_of(
            h[nt_index(g, g[a].rules[k][p])],
        ),
        tail_nullable(g, fi, g[a].rules[k], p) ==> fo[a].subset_of(h[nt_index(g, g[a].rules[k][p])]),
{
    let r = g[a].rules[k];
    assert(rule_ok(g, fi, h, a, r));
    assert(position_ok(g, fi, h, a, r, p));
    assert(fo[a].subset_of(h[a]));
    if p + 1 < r.len() {
        if let SymbolView::NonTerminal(n) = r[p + 1] {
            if has_state(g, n) {
                assert(fo[index_of(g, n)].subset_of(h[index_of(g, n)]));
            }
        }
    }
}

} // verus!

verus! {

/// The lists of `c` and `d` hold the same characters in the same order.
pub open spec fn same_lists(c: Seq<Vec<char>>, d: Seq<Vec<char>>) -> bool {
    c.len() == d.len() && forall|y: int| 0 <= y < c.len() ==> (#[trigger] c[y])@ == d[y]@
}

/// Adds to entry `x` of `cur` the characters of `src` but `skip`.
fn grow_entry(cur: &mut Vec<Vec<char>>, x: usize, src: &Vec<char>, skip: Option<char>) -> (grew: bool)
    requires
        x < old(cur)@.len(),
        old(cur)@[x as int]@.no_duplicates(),
    ensures
        final(cur)@.len() == old(cur)@.len(),
        forall|y: int| 0 <= y < old(cur)@.len() && y != x ==> (#[trigger] final(cur)@[y]) == old(cur)@[y],
        final(cur)@[x as int]@.no_duplicates(),
        final(cur)@[x as int]@.to_set() == old(cur)@[x as int]@.to_set().union(
            crate::charset::without(src@.to_set(), skip),
        ),
        final(cur)@[x as int]@.len() >= old(cur)@[x as int]@.len(),
        grew ==> final(cur)@[x as int]@.len() > old(cur)@[x as int]@.len(),
        !grew ==> final(cur)@[x as int]@ == old(cur)@[x as int]@,
{
    let mut e: Vec<char> = Vec::new();
    std::mem::swap(&mut e, &mut cur[x]);
    let grew = add_all_except(&mut e, src, skip);
    std::mem::swap(&mut e, &mut cur[x]);
    grew
}

/// A change of one entry that does not shorten it.
pub proof fn lemma_one_entry(c: Seq<Vec<char>>, d: Seq<Vec<char>>, x: int)
    requires
        c.len() == d.len(),
        0 <= x < c.len(),
        forall|y: int| 0 <= y < c.len() && y != x ==> (#[trigger] d[y]) == c[y],
        d[x]@.len() >= c[x]@.len(),
    ensures
        total(c) <= total(d),
        d[x]@.len() > c[x]@.len() ==> total(c) < total(d),
        forall|y: int| 0 <= y < c.len() ==> (#[trigger] c[y])@.len() <= d[y]@.len(),
{
    assert forall|y: int| 0 <= y < c.len() implies (#[trigger] c[y])@.len() <= d[y]@.len() by {
        if y != x {
            assert(d[y] == c[y]);
        }
    }
    lemma_total_grows(c, d);
}

/// Whether every symbol of `r` after `p` is a declared state whose FIRST set
/// holds `EPSILON`.
fn tail_nullable_exec(g: &Grammar, fi: &Vec<Vec<char>>, r: &Vec<Symbol>, p: usize) -> (b: bool)
    requires
        g.wf(),
        fi@.len() == g@.len(),
        p < r@.len(),
    ensures
        b == tail_nullable(g@, family(fi@), rule_view(r@), p as int),
{
    let ghost rv = rule_view(r@);
    let len = r.len();
    let mut q: usize = p + 1;
    while q < r.len()
        invariant
            g.wf(),
            fi@.len() == g@.len(),
            rv == rule_view(r@),
            p < q <= r@.len(),
            forall|q1: int| p < q1 < q ==> nt_index(g@, #[trigger] rv[q1]) >= 0 && family(fi@)[nt_index(g@, rv[q1])].contains(EPSILON),
        decreases r@.len() - q,
    {
        assert(rv[q as int] == r@[q as int]@);
        match &r[q] {
            Symbol::Terminal(_) => {
                return false;
            },
            Symbol::NonTerminal(n) => {
                match g.find_state(n) {
                    None => {
                        return false;
                    },
                    Some(z) => {
                        if !crate::charset::contains_char(&fi[z], EPSILON) {
                            assert(family(fi@)[z as int] == fi@[z as int]@.to_set());
                            return false;
                        }
                        assert(family(fi@)[z as int] == fi@[z as int]@.to_set());
                    },
                }
            },
        }
        q = q + 1;
    }
    true
}

} // verus!

verus! {

/// `grow_entry`, with what the FOLLOW loops keep: the lists stay inside `u`,
/// and below every closed family that `cur0` is below.
fn grow(
    cur: &mut Vec<Vec<char>>,
    x: usize,
    src: &Vec<char>,
    skip: Option<char>,
    Ghost(g): Ghost<Seq<StateView>>,
    Ghost(fi): Ghost<Seq<Set<char>>>,
    Ghost(init): Ghost<Seq<char>>,
    Ghost(cur0): Ghost<Seq<Vec<char>>>,
    Ghost(u): Ghost<Set<char>>,
) -> (grew: bool)
    requires
        x < old(cur)@.len(),
        forall|y: int| 0 <= y < old(cur)@.len() ==> (#[trigger] old(cur)@[y])@.no_duplicates(),
        forall|y: int| 0 <= y < old(cur)@.len() ==> (#[trigger] old(cur)@[y])@.to_set().subset_of(u),
        crate::charset::without(src@.to_set(), skip).subset_of(u),
        forall|h: Seq<Set<char>>|
            #[trigger] follow_closed(g, fi, init, h) && below(family(cur0), h) ==> below(family(old(cur)@), h)
                && crate::charset::without(src@.to_set(), skip).subset_of(h[x as int]),
    ensures
        final(cur)@.len() == old(cur)@.len(),
        forall|y: int| 0 <= y < old(cur)@.len() ==> (#[trigger] final(cur)@[y])@.no_duplicates(),
        forall|y: int| 0 <= y < old(cur)@.len() ==> (#[trigger] final(cur)@[y])@.to_set().subset_of(u),
        forall|y: int| 0 <= y < old(cur)@.len() ==> (#[trigger] old(cur)@[y])@.to_set().subset_of(final(cur)@[y]@.to_set()),
        forall|y: int| 0 <= y < old(cur)@.len() ==> (#[trigger] old(cur)@[y])@.len() <= final(cur)@[y]@.len(),
        total(old(cur)@) <= total(final(cur)@),
        grew ==> total(old(cur)@) < total(final(cur)@),
        !grew ==> same_lists(final(cur)@, old(cur)@),
        !grew ==> crate::charset::without(src@.to_set(), skip).subset_of(old(cur)@[x as int]@.to_set()),
        crate::charset::without(src@.to_set(), skip).subset_of(final(cur)@[x as int]@.to_set()),
        forall|h: Seq<Set<char>>|
            #[trigger] follow_closed(g, fi, init, h) && below(family(cur0), h) ==> below(family(final(cur)@), h),
{
    let ghost c0 = cur@;
    let grew = grow_entry(cur, x, src, skip);
    proof {
        lemma_one_entry(c0, cur@, x as int);
        assert forall|y: int| 0 <= y < c0.len() implies (#[trigger] c0[y])@.to_set().subset_of(cur@[y]@.to_set()) by {
            if y != x {
                assert(cur@[y] == c0[y]);
            }
        }
        assert forall|y: int| 0 <= y < c0.len() implies (#[trigger] cur@[y])@.to_set().subset_of(u) by {
            if y != x {
                assert(cur@[y] == c0[y]);
            }
        }
        assert forall|y: int| 0 <= y < c0.len() implies (#[trigger] cur@[y])@.no_duplicates() by {
            if y != x {
                assert(cur@[y] == c0[y]);
            }
        }
        if !grew {
            assert forall|y: int| 0 <= y < c0.len() implies (#[trigger] cur@[y])@ == c0[y]@ by {
                if y != x {
                    assert(cur@[y] == c0[y]);
                }
            }
        }
        assert forall|h: Seq<Set<char>>|
            #[trigger] follow_closed(g, fi, init, h) && below(family(cur0), h) implies below(family(cur@), h) by {
            assert(below(family(c0), h));
            assert forall|y: int| 0 <= y < cur@.len() implies (#[trigger] family(cur@)[y]).subset_of(h[y]) by {
                assert(family(c0)[y].subset_of(h[y]));
                if y != x {
                    assert(cur@[y] == c0[y]);
                }
            }
        }
    }
    grew
}

} // verus!

verus! {

pub proof fn lemma_same_family(c: Seq<Vec<char>>, d: Seq<Vec<char>>)
    requires
        same_lists(c, d),
    ensures
        family(c) == family(d),
{
    assert(family(c) =~= family(d));
}

/// One visit of rule `k` of state `a`, updating the FOLLOW lists in place.
fn follow_rule(
    g: &Grammar,
    fi: &Vec<Vec<char>>,
    cur: &mut Vec<Vec<char>>,
    a: usize,
    k: usize,
    Ghost(init): Ghost<Seq<char>>,
    Ghost(u): Ghost<Set<char>>,
) -> (grew: bool)
    requires
        g.wf(),
        fi@.len() == g@.len(),
        old(cur)@.len() == g@.len(),
        a < g@.len(),
        k < g@[a as int].rules.len(),
        leads_in(g@, u),
        forall|z: int| 0 <= z < fi@.len() ==> (#[trigger] fi@[z])@.to_set().subset_of(u),
        forall|y: int| 0 <= y < old(cur)@.len() ==> (#[trigger] old(cur)@[y])@.no_duplicates(),
        forall|y: int| 0 <= y < old(cur)@.len() ==> (#[trigger] old(cur)@[y])@.to_set().subset_of(u),
    ensures
        final(cur)@.len() == old(cur)@.len(),
        forall|y: int| 0 <= y < old(cur)@.len() ==> (#[trigger] final(cur)@[y])@.no_duplicates(),
        forall|y: int| 0 <= y < old(cur)@.len() ==> (#[trigger] final(cur)@[y])@.to_set().subset_of(u),
        forall|y: int| 0 <= y < old(cur)@.len() ==> (#[trigger] old(cur)@[y])@.to_set().subset_of(final(cur)@[y]@.to_set()),
        total(old(cur)@) <= total(final(cur)@),
        grew ==> total(old(cur)@) < total(final(cur)@),
        !grew ==> same_lists(final(cur)@, old(cur)@),
        !grew ==> rule_ok(g@, family(fi@), family(old(cur)@), a as int, g@[a as int].rules[k as int]),
        forall|h: Seq<Set<char>>|
            #[trigger] follow_closed(g@, family(fi@), init, h) && below(family(old(cur)@), h) ==> below(family(final(cur)@), h),
{
    let ghost c0 = cur@;
    let ghost f = family(fi@);
    let ghost rv = g@[a as int].rules[k as int];
    let r = g.rule(a, k);
    let len = r.len();
    let mut grew = false;
    let mut p: usize = 0;
    proof {
        assert forall|z: int| 0 <= z < f.len() implies (#[trigger] f[z]).subset_of(u) by {
            assert(f[z] == fi@[z]@.to_set());
        }
    }
    while p < len
        invariant
            g.wf(),
            fi@.len() == g@.len(),
            f == family(fi@),
            forall|z: int| 0 <= z < f.len() ==> (#[trigger] f[z]).subset_of(u),
            forall|z: int| 0 <= z < fi@.len() ==> (#[trigger] fi@[z])@.to_set().subset_of(u),
            c0.len() == g@.len(),
            a < g@.len(),
            k < g@[a as int].rules.len(),
            rv == g@[a as int].rules[k as int],
            rule_view(r@) == rv,
            len == r@.len(),
            p <= len,
            leads_in(g@, u),
            cur@.len() == c0.len(),
            forall|y: int| 0 <= y < c0.len() ==> (#[trigger] cur@[y])@.no_duplicates(),
            forall|y: int| 0 <= y < c0.len() ==> (#[trigger] cur@[y])@.to_set().subset_of(u),
            forall|y: int| 0 <= y < c0.len() ==> (#[trigger] c0[y])@.to_set().subset_of(cur@[y]@.to_set()),
            total(c0) <= total(cur@),
            grew ==> total(c0) < total(cur@),
            !grew ==> same_lists(cur@, c0),
            !grew ==> forall|p1: int| 0 <= p1 < p ==> #[trigger] position_ok(g@, f, family(c0), a as int, rv, p1),
            forall|h: Seq<Set<char>>|
                #[trigger] follow_closed(g@, f, init, h) && below(family(c0), h) ==> below(family(cur@), h),
        decreases len - p,
    {
        let ghost grew0 = grew;
        let ghost before = cur@;
        assert(rv[p as int] == r@[p as int]@);
        match &r[p] {
            Symbol::NonTerminal(n) => {
                match g.find_state(n) {
                    Some(x) => {
                        assert(nt_index(g@, rv[p as int]) == x);
                        if p + 1 < len {
                            assert(rv[p + 1] == r@[p + 1]@);
                            match &r[p + 1] {
                                Symbol::Terminal(t) => {
                                    if !t.as_str().is_empty() {
                                        let mut one: Vec<char> = Vec::new();
                                        let c = t.as_str().get_char(0);
                                        one.push(c);
                                        proof {
                                            assert(rv[p + 1] == SymbolView::Terminal(t@));
                                            assert forall|x: char| one@.to_set().contains(x) <==> x == c by {
                                                if x == c {
                                                    assert(one@[0] == c);
                                                }
                                            }
                                            assert(one@.to_set() =~= next_gives(g@, f, family(cur@), rv[p + 1]));
                                            assert(lead_in(g@[a as int].rules[k as int][p + 1], u));
                                            assert forall|h: Seq<Set<char>>|
                                                #[trigger] follow_closed(g@, f, init, h) && below(family(c0), h)
                                                    implies below(family(cur@), h) && crate::charset::without(one@.to_set(), None).subset_of(h[x as int]) by {
                                                lemma_position_sound(g@, f, init, family(cur@), h, a as int, k as int, p as int);
                                            }
                                        }
                                        if grow(cur, x, &one, None, Ghost(g@), Ghost(f), Ghost(init), Ghost(c0), Ghost(u)) {
                                            grew = true;
                                        }
                                    } else {
                                        assert(next_gives(g@, f, family(cur@), rv[p + 1]) =~= Set::empty());
                                    }
                                },
                                Symbol::NonTerminal(n2) => {
                                    match g.find_state(n2) {
                                        Some(z) => {
                                            let ghost mid0 = cur@;
                                            proof {
                                                assert(f[z as int] == fi@[z as int]@.to_set());
                                                assert forall|h: Seq<Set<char>>|
                                                    #[trigger] follow_closed(g@, f, init, h) && below(family(c0), h)
                                                        implies below(family(cur@), h) && crate::charset::without(fi@[z as int]@.to_set(), Some(EPSILON)).subset_of(h[x as int]) by {
                                                    lemma_position_sound(g@, f, init, family(cur@), h, a as int, k as int, p as int);
                                                }
                                            }
                                            if grow(cur, x, &fi[z], Some(EPSILON), Ghost(g@), Ghost(f), Ghost(init), Ghost(c0), Ghost(u)) {
                                                grew = true;
                                            }
                                            let ghost mid = cur@;
                                            let src = copy_chars(&cur[z]);
                                            proof {
                                                assert(family(cur@)[z as int] == src@.to_set());
                                                assert forall|h: Seq<Set<char>>|
                                                    #[trigger] follow_closed(g@, f, init, h) && below(family(c0), h)
                                                        implies below(family(cur@), h) && crate::charset::without(src@.to_set(), None).subset_of(h[x as int]) by {
                                                    lemma_position_sound(g@, f, init, family(cur@), h, a as int, k as int, p as int);
                                                }
                                            }
                                            if grow(cur, x, &src, None, Ghost(g@), Ghost(f), Ghost(init), Ghost(c0), Ghost(u)) {
                                                grew = true;
                                            }
                                            proof {
                                                if !grew {
                                                    assert(same_lists(mid, mid0));
                                                    assert(src@ == mid0[z as int]@);
                                                    assert(next_gives(g@, f, family(before), rv[p + 1]).subset_of(family(before)[x as int])) by {
                                                        assert(family(before)[z as int] == before[z as int]@.to_set());
                                                        assert(family(before)[x as int] == before[x as int]@.to_set());
                                                        assert(mid0[x as int]@ == before[x as int]@);
                                                    }
                                                }
                                            }
                                        },
                                        None => {
                                            assert(next_gives(g@, f, family(cur@), rv[p + 1]) =~= Set::empty());
                                        },
                                    }
                                },
                            }
                        }
                        let ghost mid2 = cur@;
                        if tail_nullable_exec(g, fi, r, p) {
                            let src = copy_chars(&cur[a]);
                            proof {
                                assert(family(cur@)[a as int] == src@.to_set());
                                assert forall|h: Seq<Set<char>>|
                                    #[trigger] follow_closed(g@, f, init, h) && below(family(c0), h)
                                        implies below(family(cur@), h) && crate::charset::without(src@.to_set(), None).subset_of(h[x as int]) by {
                                    lemma_position_sound(g@, f, init, family(cur@), h, a as int, k as int, p as int);
                                }
                            }
                            if grow(cur, x, &src, None, Ghost(g@), Ghost(f), Ghost(init), Ghost(c0), Ghost(u)) {
                                grew = true;
                            }
                            proof {
                                if !grew {
                                    assert(src@ == mid2[a as int]@);
                                    assert(mid2[a as int]@ == c0[a as int]@);
                                    assert(mid2[x as int]@ == c0[x as int]@);
                                    assert(family(c0)[a as int] == c0[a as int]@.to_set());
                                    assert(family(c0)[x as int] == c0[x as int]@.to_set());
                                }
                            }
                        }
                        proof {
                            if !grew {
                                lemma_same_family(before, c0);
                                assert(position_ok(g@, f, family(c0), a as int, rv, p as int));
                            }
                        }
                    },
                    None => {
                        assert(nt_index(g@, rv[p as int]) == -1);
                    },
                }
            },
            Symbol::Terminal(_) => {},
        }
        p = p + 1;
    }
    grew
}

} // verus!

verus! {

/// One visit of every rule, updating the FOLLOW lists in place.
fn follow_pass(
    g: &Grammar,
    fi: &Vec<Vec<char>>,
    cur: &mut Vec<Vec<char>>,
    Ghost(init): Ghost<Seq<char>>,
    Ghost(u): Ghost<Set<char>>,
) -> (grew: bool)
    requires
        g.wf(),
        fi@.len() == g@.len(),
        old(cur)@.len() == g@.len(),
        leads_in(g@, u),
        forall|z: int| 0 <= z < fi@.len() ==> (#[trigger] fi@[z])@.to_set().subset_of(u),
        forall|y: int| 0 <= y < old(cur)@.len() ==> (#[trigger] old(cur)@[y])@.no_duplicates(),
        forall|y: int| 0 <= y < old(cur)@.len() ==> (#[trigger] old(cur)@[y])@.to_set().subset_of(u),
    ensures
        final(cur)@.len() == old(cur)@.len(),
        forall|y: int| 0 <= y < old(cur)@.len() ==> (#[trigger] final(cur)@[y])@.no_duplicates(),
        forall|y: int| 0 <= y < old(cur)@.len() ==> (#[trigger] final(cur)@[y])@.to_set().subset_of(u),
        forall|y: int| 0 <= y < old(cur)@.len() ==> (#[trigger] old(cur)@[y])@.to_set().subset_of(final(cur)@[y]@.to_set()),
        grew ==> total(old(cur)@) < total(final(cur)@),
        !grew ==> same_lists(final(cur)@, old(cur)@),
        !grew ==> forall|a: int, k: int|
            0 <= a < g@.len() && 0 <= k < g@[a].rules.len() ==> #[trigger] rule_ok(g@, family(fi@), family(old(cur)@), a, g@[a].rules[k]),
        forall|h: Seq<Set<char>>|
            #[trigger] follow_closed(g@, family(fi@), init, h) && below(family(old(cur)@), h) ==> below(family(final(cur)@), h),
{
    let ghost c0 = cur@;
    let ghost f = family(fi@);
    let n = g.state_count();
    let mut grew = false;
    let mut a: usize = 0;
    while a < n
        invariant
            g.wf(),
            n == g@.len(),
            fi@.len() == n,
            f == family(fi@),
            leads_in(g@, u),
            forall|z: int| 0 <= z < fi@.len() ==> (#[trigger] fi@[z])@.to_set().subset_of(u),
            c0.len() == n,
            a <= n,
            cur@.len() == n,
            forall|y: int| 0 <= y < n ==> (#[trigger] cur@[y])@.no_duplicates(),
            forall|y: int| 0 <= y < n ==> (#[trigger] cur@[y])@.to_set().subset_of(u),
            forall|y: int| 0 <= y < n ==> (#[trigger] c0[y])@.to_set().subset_of(cur@[y]@.to_set()),
            total(c0) <= total(cur@),
            grew ==> total(c0) < total(cur@),
            !grew ==> same_lists(cur@, c0),
            !grew ==> forall|a1: int, k1: int|
                0 <= a1 < a && 0 <= k1 < g@[a1].rules.len() ==> #[trigger] rule_ok(g@, f, family(c0), a1, g@[a1].rules[k1]),
            forall|h: Seq<Set<char>>|
                #[trigger] follow_closed(g@, f, init, h) && below(family(c0), h) ==> below(family(cur@), h),
        decreases n - a,
    {
        let nr = g.rule_count(a);
        let mut k: usize = 0;
        while k < nr
            invariant
                g.wf(),
                n == g@.len(),
                fi@.len() == n,
                f == family(fi@),
                leads_in(g@, u),
                forall|z: int| 0 <= z < fi@.len() ==> (#[trigger] fi@[z])@.to_set().subset_of(u),
                c0.len() == n,
                a < n,
                nr == g@[a as int].rules.len(),
                k <= nr,
                cur@.len() == n,
                forall|y: int| 0 <= y < n ==> (#[trigger] cur@[y])@.no_duplicates(),
                forall|y: int| 0 <= y < n ==> (#[trigger] cur@[y])@.to_set().subset_of(u),
                forall|y: int| 0 <= y < n ==> (#[trigger] c0[y])@.to_set().subset_of(cur@[y]@.to_set()),
                total(c0) <= total(cur@),
                grew ==> total(c0) < total(cur@),
                !grew ==> same_lists(cur@, c0),
                !grew ==> forall|a1: int, k1: int|
                    0 <= a1 < a && 0 <= k1 < g@[a1].rules.len() ==> #[trigger] rule_ok(g@, f, family(c0), a1, g@[a1].rules[k1]),
                !grew ==> forall|k1: int| 0 <= k1 < k ==> #[trigger] rule_ok(g@, f, family(c0), a as int, g@[a as int].rules[k1]),
                forall|h: Seq<Set<char>>|
                    #[trigger] follow_closed(g@, f, init, h) && below(family(c0), h) ==> below(family(cur@), h),
            decreases nr - k,
        {
            let ghost before = cur@;
            let step = follow_rule(g, fi, cur, a, k, Ghost(init), Ghost(u));
            if step {
                grew = true;
            }
            proof {
                assert forall|y: int| 0 <= y < n implies (#[trigger] c0[y])@.to_set().subset_of(cur@[y]@.to_set()) by {
                    assert(c0[y]@.to_set().subset_of(before[y]@.to_set()));
                    assert(before[y]@.to_set().subset_of(cur@[y]@.to_set()));
                }
                if !grew {
                    lemma_same_family(before, c0);
                    assert forall|y: int| 0 <= y < n implies (#[trigger] cur@[y])@ == c0[y]@ by {
                        assert(cur@[y]@ == before[y]@);
                    }
                }
                assert forall|h: Seq<Set<char>>|
                    #[trigger] follow_closed(g@, f, init, h) && below(family(c0), h) implies below(family(cur@), h) by {
                    assert(below(family(before), h));
                }
            }
            k = k + 1;
        }
        a = a + 1;
    }
    grew
}

impl Grammar {
    /// The FOLLOW set of every state: the characters that can come right
    /// after it, with `END_MARKER` for the initial state.
    pub fn follow_set(&self) -> (r: CharSets)
        requires
            self.wf(),
        ensures
            r.wf(),
            r.names() == self@.map_values(|s: StateView| s.name),
            r.sets() == follow_sets(self@, self.initial_name()),
            least_follow(self@, first_sets(self@), self.initial_name(), r.sets()),
    {
        let ghost init = self.initial_name();
        let fi = first_lists(self);
        proof {
            lemma_least_first_unique(self@, family(fi@));
            self.lemma_wf();
        }
        let ghost f = family(fi@);
        let n = self.state_count();
        let mut u = alphabet(self);
        let mut z: usize = 0;
        while z < n
            invariant
                n == self@.len(),
                fi@.len() == n,
                z <= n,
                u@.no_duplicates(),
                leads_in(self@, u@.to_set()),
                forall|z1: int| 0 <= z1 < z ==> (#[trigger] fi@[z1])@.to_set().subset_of(u@.to_set()),
            decreases n - z,
        {
            let ghost u0 = u@.to_set();
            add_all_except(&mut u, &fi[z], None);
            proof {
                assert(u0.subset_of(u@.to_set()));
                assert forall|z1: int| 0 <= z1 <= z implies (#[trigger] fi@[z1])@.to_set().subset_of(u@.to_set()) by {
                    if z1 < z {
                        assert(fi@[z1]@.to_set().subset_of(u0));
                    }
                }
            }
            z = z + 1;
        }
        let ghost u1 = u@.to_set();
        insert_char(&mut u, END_MARKER);
        let ghost us = u@.to_set();
        let ghost m = u@.len();
        proof {
            assert(u1.subset_of(us));
            assert forall|z1: int| 0 <= z1 < n implies (#[trigger] fi@[z1])@.to_set().subset_of(us) by {
                assert(fi@[z1]@.to_set().subset_of(u1));
            }
        }
        let mut cur: Vec<Vec<char>> = Vec::new();
        let mut i: usize = 0;
        while i < n
            invariant
                i <= n,
                cur@.len() == i,
                forall|x: int| 0 <= x < i ==> (#[trigger] cur@[x])@ == Seq::<char>::empty(),
            decreases n - i,
        {
            cur.push(Vec::new());
            i = i + 1;
        }
        let ghost c_empty = cur@;
        let ii = match self.find_state(self.initial()) {
            Some(ii) => ii,
            None => {
                proof {
                    assert(has_state(self@, init));
                }
                0
            },
        };
        let mut end: Vec<char> = Vec::new();
        end.push(END_MARKER);
        proof {
            assert forall|x: char| end@.to_set().contains(x) <==> x == END_MARKER by {
                if x == END_MARKER {
                    assert(end@[0] == END_MARKER);
                }
            }
            assert(crate::charset::without(end@.to_set(), None) =~= set![END_MARKER]);
            assert forall|y: int| 0 <= y < n implies (#[trigger] cur@[y])@.to_set().subset_of(us) by {
                assert(cur@[y]@.to_set() =~= Set::empty());
            }
            assert forall|h: Seq<Set<char>>|
                #[trigger] follow_closed(self@, f, init, h) && below(family(c_empty), h)
                    implies below(family(cur@), h) && crate::charset::without(end@.to_set(), None).subset_of(h[ii as int]) by {
            }
        }
        grow(&mut cur, ii, &end, None, Ghost(self@), Ghost(f), Ghost(init), Ghost(c_empty), Ghost(us));
        proof {
            assert(cur@[ii as int]@.to_set().contains(END_MARKER));
            assert forall|h: Seq<Set<char>>| #[trigger] follow_closed(self@, f, init, h) implies below(family(cur@), h) by {
                assert forall|x: int| 0 <= x < n implies (#[trigger] family(c_empty)[x]).subset_of(h[x]) by {
                    assert(family(c_empty)[x] =~= Set::empty());
                }
                assert(below(family(c_empty), h));
            }
        }
        loop
            invariant
                self.wf(),
                n == self@.len(),
                fi@.len() == n,
                f == family(fi@),
                f == first_sets(self@),
                init == self.initial_name(),
                ii < n,
                ii == index_of(self@, init),
                has_state(self@, init),
                u@.no_duplicates(),
                us == u@.to_set(),
                m == u@.len(),
                leads_in(self@, us),
                forall|z1: int| 0 <= z1 < n ==> (#[trigger] fi@[z1])@.to_set().subset_of(us),
                cur@.len() == n,
                forall|y: int| 0 <= y < n ==> (#[trigger] cur@[y])@.no_duplicates(),
                forall|y: int| 0 <= y < n ==> (#[trigger] cur@[y])@.to_set().subset_of(us),
                cur@[ii as int]@.to_set().contains(END_MARKER),
                forall|h: Seq<Set<char>>| #[trigger] follow_closed(self@, f, init, h) ==> below(family(cur@), h),
            decreases n * m - total(cur@),
        {
            let ghost before = cur@;
            let grew = follow_pass(self, &fi, &mut cur, Ghost(init), Ghost(us));
            proof {
                assert(before[ii as int]@.to_set().subset_of(cur@[ii as int]@.to_set()));
                assert forall|h: Seq<Set<char>>| #[trigger] follow_closed(self@, f, init, h) implies below(family(cur@), h) by {
                    assert(below(family(before), h));
                }
                assert forall|x: int| 0 <= x < n implies (#[trigger] cur@[x])@.len() <= m by {
                    lemma_list_bound(cur@[x]@, u@);
                }
                lemma_total_bound(cur@, m);
            }
            if !grew {
                let names = self.state_names();
                proof {
                    lemma_same_family(cur@, before);
                    let fo = family(cur@);
                    assert(fo[ii as int] == cur@[ii as int]@.to_set());
                    assert(follow_closed(self@, f, init, fo));
                    lemma_least_follow_unique(self@, init, fo);
                }
                let r = CharSets::from_parts(names, cur);
                return r;
            }
        }
    }
}

} // verus!

verus! {

/// The FOLLOW set of the initial state holds `END_MARKER`.
pub proof fn follow_initial_has_end(g: Seq<StateView>, init: Seq<char>, fo: Seq<Set<char>>)
    requires
        least_follow(g, first_sets(g), init, fo),
        has_state(g, init),
    ensures
        fo[index_of(g, init)].contains(END_MARKER),
{
}

/// FOLLOW sets depend on the grammar alone: two least closed families are
/// equal, so computing them twice gives the same sets.
pub proof fn follow_sets_deterministic(g: Seq<StateView>, init: Seq<char>, f1: Seq<Set<char>>, f2: Seq<Set<char>>)
    requires
        least_follow(g, first_sets(g), init, f1),
        least_follow(g, first_sets(g), init, f2),
    ensures
        f1 == f2,
{
    lemma_least_follow_unique(g, init, f1);
    lemma_least_follow_unique(g, init, f2);
}

} // verus!

verus! {

/// A position that holds in the larger grammar, with larger FIRST sets,
/// holds in the smaller one.
pub proof fn lemma_position_shrinks(
    g: Seq<StateView>,
    g2: Seq<StateView>,
    fi1: Seq<Set<char>>,
    fi2: Seq<Set<char>>,
    fo: Seq<Set<char>>,
    a: int,
    r: Seq<SymbolView>,
    p: int,
)
    requires
        crate::grammar::well_formed(g),
        crate::grammar::well_formed(g2),
        crate::first::same_states(g, g2),
        below(fi1, fi2),
        fi1.len() == g.len(),
        0 <= p < r.len(),
        position_ok(g2, fi2, fo, a, r, p),
    ensures
        position_ok(g, fi1, fo, a, r, p),
{
    assert forall|s: SymbolView| nt_index(g2, s) == nt_index(g, s) by {
        if let SymbolView::NonTerminal(n) = s {
            crate::first::lemma_same_states_index(g, g2, n);
        }
    }
    if p + 1 < r.len() {
        if let SymbolView::NonTerminal(n) = r[p + 1] {
            crate::first::lemma_same_states_index(g, g2, n);
            if has_state(g, n) {
                assert(fi1[index_of(g, n)].subset_of(fi2[index_of(g, n)]));
            }
        }
    }
    if tail_nullable(g, fi1, r, p) {
        assert forall|q: int| p < q < r.len() implies nt_index(g2, #[trigger] r[q]) >= 0 && fi2[nt_index(g2, r[q])].contains(EPSILON) by {
            assert(nt_index(g, r[q]) >= 0 && fi1[nt_index(g, r[q])].contains(EPSILON));
            assert(fi1[nt_index(g, r[q])].subset_of(fi2[nt_index(g, r[q])]));
        }
    }
}

/// Adding a rule to a grammar never removes a character from a FOLLOW set.
pub proof fn follow_sets_grow_with_rules(
    g: Seq<StateView>,
    i: int,
    r: Seq<SymbolView>,
    init: Seq<char>,
    fo1: Seq<Set<char>>,
    fo2: Seq<Set<char>>,
)
    requires
        crate::grammar::well_formed(g),
        0 <= i < g.len(),
        least_first(g, first_sets(g)),
        least_first(crate::grammar::insert_rule(g, i, r), first_sets(crate::grammar::insert_rule(g, i, r))),
        least_follow(g, first_sets(g), init, fo1),
        least_follow(crate::grammar::insert_rule(g, i, r), first_sets(crate::grammar::insert_rule(g, i, r)), init, fo2),
    ensures
        below(fo1, fo2),
{
    let g2 = crate::grammar::insert_rule(g, i, r);
    let fi1 = first_sets(g);
    let fi2 = first_sets(g2);
    crate::first::lemma_insert_rule_shape(g, i, r);
    crate::first::first_sets_grow_with_rules(g, i, r, fi1, fi2);
    crate::first::lemma_same_states_index(g, g2, init);
    assert forall|a: int, k: int| 0 <= a < g.len() && 0 <= k < g[a].rules.len() implies #[trigger] rule_ok(
        g,
        fi1,
        fo2,
        a,
        g[a].rules[k],
    ) by {
        let rr = g[a].rules[k];
        assert(g2[a].rules[k] == rr);
        assert(rule_ok(g2, fi2, fo2, a, g2[a].rules[k]));
        assert forall|p: int| 0 <= p < rr.len() implies #[trigger] position_ok(g, fi1, fo2, a, rr, p) by {
            assert(position_ok(g2, fi2, fo2, a, rr, p));
            lemma_position_shrinks(g, g2, fi1, fi2, fo2, a, rr, p);
        }
    }
    assert(follow_closed(g, fi1, init, fo2));
}

} // verus!
