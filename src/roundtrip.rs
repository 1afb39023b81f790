use vstd::prelude::*;
use crate::symbol::SymbolView;
use crate::grammar::{StateView, has_state, index_of, well_formed, declare, insert_rule, set_nullable, lemma_index_of};
use crate::text::{whitespace, trim, trim_start, trim_end};
use crate::parser::{ParserView, ParserState, step, run, flush_terminal, commit, close_reference, end_line, split_lines};
use crate::render::{symbol_text, rule_text, alternatives_text, state_line};

verus! {

/// A character with no role in the notation.
pub open spec fn plain_char(c: char) -> bool {
    c != '<' && c != '>' && c != '|' && c != ':' && c != '=' && c != '\n'
}

/// Nonempty text of plain characters, with no whitespace at either end.
pub open spec fn plain_text(t: Seq<char>) -> bool {
    &&& t.len() > 0
    &&& forall|i: int| 0 <= i < t.len() ==> plain_char(#[trigger] t[i])
    &&& !whitespace(t[0])
    &&& !whitespace(t.last())
}

pub proof fn lemma_run_concat(p: ParserView, a: Seq<char>, b: Seq<char>)
    ensures
        run(p, a + b) == run(run(p, a), b),
    decreases b.len(),
{
    if b.len() == 0 {
        assert(a + b =~= a);
    } else {
        lemma_run_concat(p, a, b.drop_last());
        assert((a + b).drop_last() =~= a + b.drop_last());
        assert((a + b).last() == b.last());
    }
}

/// Plain characters go to the buffer in the modes that read text.
pub proof fn lemma_run_collect(p: ParserView, t: Seq<char>)
    requires
        p.mode == ParserState::StateName || p.mode == ParserState::Defs || p.mode == ParserState::DefsNonTerminal,
        forall|i: int| 0 <= i < t.len() ==> plain_char(#[trigger] t[i]),
    ensures
        run(p, t) == (ParserView { buffer: p.buffer + t, ..p }),
    decreases t.len(),
{
    if t.len() == 0 {
        assert(p.buffer + t =~= p.buffer);
    } else {
        let t0 = t.drop_last();
        assert forall|i: int| 0 <= i < t0.len() implies plain_char(#[trigger] t0[i]) by {
            assert(t0[i] == t[i]);
        }
        lemma_run_collect(p, t0);
        assert(plain_char(t[t.len() - 1]));
        assert(p.buffer + t0.push(t.last()) =~= p.buffer + t);
        assert(t0.push(t.last()) =~= t);
    }
}

pub proof fn lemma_trim_plain(t: Seq<char>)
    requires
        plain_text(t),
    ensures
        trim(t) == t,
        trim(seq![' '] + t) == t,
        trim(t + seq![' ']) == t,
        trim(seq![' '] + t + seq![' ']) == t,
{
    assert(!whitespace(t[0]));
    assert(!whitespace(t.last()));
    let a = seq![' '] + t;
    assert(whitespace(' '));
    assert(a.drop_first() =~= t);
    assert(trim_start(a) == trim_start(t));
    let b = t + seq![' '];
    assert(b[0] == t[0]);
    assert(trim_start(b) == b);
    assert(b.drop_last() =~= t);
    assert(trim_end(b) == trim_end(t));
    let c = seq![' '] + t + seq![' '];
    assert(c.drop_first() =~= b);
    assert(trim_start(c) == b);
}

} // verus!

verus! {

/// A symbol whose text is plain.
pub open spec fn plain_symbol(s: SymbolView) -> bool {
    match s {
        SymbolView::Terminal(t) => plain_text(t),
        SymbolView::NonTerminal(n) => plain_text(n),
    }
}

/// Plain symbols, no two terminals side by side.
pub open spec fn plain_symbols(r: Seq<SymbolView>) -> bool {
    &&& forall|j: int| 0 <= j < r.len() ==> plain_symbol(#[trigger] r[j])
    &&& forall|j: int| 0 <= j < r.len() - 1 ==> !((#[trigger] r[j]) is Terminal && r[j + 1] is Terminal)
}

/// A state that its line describes without loss: a plain name, and rules
/// each nonempty and plain.
pub open spec fn plain_state(s: StateView) -> bool {
    &&& plain_text(s.name)
    &&& s.rules.no_duplicates()
    &&& forall|k: int| 0 <= k < s.rules.len() ==> (#[trigger] s.rules[k]).len() > 0 && plain_symbols(s.rules[k])
}

/// The parser after the text of the symbols `r` of an alternative, read from
/// `p0` with only whitespace buffered: the last terminal stays in the buffer.
pub open spec fn after_rule(p0: ParserView, r: Seq<SymbolView>) -> ParserView {
    if r.len() == 0 {
        p0
    } else {
        match r.last() {
            SymbolView::NonTerminal(_) => ParserView { buffer: Seq::empty(), pending: p0.pending + r, ..p0 },
            SymbolView::Terminal(t) => ParserView {
                buffer: (if r.len() == 1 {
                    p0.buffer
                } else {
                    Seq::empty()
                }) + t,
                pending: p0.pending + r.drop_last(),
                ..p0
            },
        }
    }
}

pub proof fn lemma_plain_symbols_prefix(r: Seq<SymbolView>)
    requires
        r.len() > 0,
        plain_symbols(r),
    ensures
        plain_symbols(r.drop_last()),
{
    let r0 = r.drop_last();
    assert forall|j: int| 0 <= j < r0.len() implies plain_symbol(#[trigger] r0[j]) by {
        assert(r0[j] == r[j]);
    }
    assert forall|j: int| 0 <= j < r0.len() - 1 implies !((#[trigger] r0[j]) is Terminal && r0[j + 1] is Terminal) by {
        assert(r0[j] == r[j] && r0[j + 1] == r[j + 1]);
    }
}

pub proof fn lemma_run_one(q: ParserView, c: char)
    ensures
        run(q, seq![c]) == step(q, c),
{
    assert(seq![c].drop_last() =~= Seq::<char>::empty());
    assert(run(q, Seq::<char>::empty()) == q);
    assert(seq![c].last() == c);
}

/// Flushing after the text of `r0` leaves all of `r0` pending.
pub proof fn lemma_flush_after(p0: ParserView, r0: Seq<SymbolView>)
    requires
        p0.buffer == Seq::<char>::empty() || p0.buffer == seq![' '],
        plain_symbols(r0),
    ensures
        flush_terminal(after_rule(p0, r0)).pending == p0.pending + r0,
        flush_terminal(after_rule(p0, r0)).buffer == Seq::<char>::empty(),
{
    if r0.len() == 0 {
        assert(trim(p0.buffer) =~= Seq::<char>::empty()) by {
            let e = Seq::<char>::empty();
            assert(trim_start(e) == e);
            assert(trim_end(e) == e);
            if p0.buffer.len() > 0 {
                assert(whitespace(p0.buffer[0]));
                assert(p0.buffer.drop_first() =~= e);
                assert(trim_start(p0.buffer) == trim_start(e));
            }
        }
        assert(p0.pending + r0 =~= p0.pending);
    } else {
        assert(plain_symbol(r0[r0.len() - 1]));
        match r0.last() {
            SymbolView::Terminal(t0) => {
                lemma_trim_plain(t0);
                if r0.len() == 1 {
                    if p0.buffer.len() > 0 {
                        assert(p0.buffer + t0 =~= seq![' '] + t0);
                    } else {
                        assert(p0.buffer + t0 =~= t0);
                    }
                } else {
                    assert(Seq::<char>::empty() + t0 =~= t0);
                }
                assert(r0.drop_last().push(r0.last()) =~= r0);
                assert(p0.pending + r0.drop_last().push(SymbolView::Terminal(t0)) =~= p0.pending + r0);
            },
            SymbolView::NonTerminal(_) => {
                assert(trim(Seq::<char>::empty()) =~= Seq::<char>::empty());
            },
        }
    }
}

/// Reading `<n>` after the text of `r0`.
pub proof fn lemma_reference_step(p0: ParserView, r0: Seq<SymbolView>, n: Seq<char>)
    requires
        p0.mode == ParserState::Defs,
        p0.buffer == Seq::<char>::empty() || p0.buffer == seq![' '],
        plain_symbols(r0),
        plain_text(n),
    ensures
        run(after_rule(p0, r0), symbol_text(SymbolView::NonTerminal(n))) == after_rule(p0, r0.push(SymbolView::NonTerminal(n))),
{
    let q = after_rule(p0, r0);
    let r = r0.push(SymbolView::NonTerminal(n));
    let f = flush_terminal(q);
    lemma_flush_after(p0, r0);
    lemma_run_one(q, '<');
    let q1 = step(q, '<');
    assert(q1 == ParserView { mode: ParserState::DefsNonTerminal, ..f });
    assert(seq!['<'] + n + seq!['>'] =~= (seq!['<'] + n) + seq!['>']);
    lemma_run_concat(q, seq!['<'], n);
    lemma_run_collect(q1, n);
    let q2 = run(q1, n);
    assert(q2.buffer =~= n);
    lemma_run_concat(q, seq!['<'] + n, seq!['>']);
    lemma_run_one(q2, '>');
    lemma_trim_plain(n);
    assert(r.drop_last() =~= r0);
    assert(p0.pending + r0.push(SymbolView::NonTerminal(n)) =~= p0.pending + r);
}

/// Reading a terminal `t` after the text of `r0`.
pub proof fn lemma_terminal_step(p0: ParserView, r0: Seq<SymbolView>, t: Seq<char>)
    requires
        p0.mode == ParserState::Defs,
        plain_symbols(r0.push(SymbolView::Terminal(t))),
        plain_text(t),
    ensures
        run(after_rule(p0, r0), symbol_text(SymbolView::Terminal(t))) == after_rule(p0, r0.push(SymbolView::Terminal(t))),
{
    let r = r0.push(SymbolView::Terminal(t));
    let q = after_rule(p0, r0);
    if r0.len() >= 1 {
        assert(!(r[r.len() - 2] is Terminal && r[r.len() - 1] is Terminal));
        assert(r0.last() == r[r.len() - 2]);
    }
    lemma_run_collect(q, t);
    assert(r.drop_last() =~= r0);
    if r0.len() == 0 {
        assert(p0.pending + r0 =~= p0.pending);
    }
}

pub proof fn lemma_after_rule(p0: ParserView, r: Seq<SymbolView>)
    requires
        p0.mode == ParserState::Defs,
        p0.buffer == Seq::<char>::empty() || p0.buffer == seq![' '],
        plain_symbols(r),
    ensures
        run(p0, rule_text(r)) == after_rule(p0, r),
    decreases r.len(),
{
    if r.len() > 0 {
        let r0 = r.drop_last();
        lemma_plain_symbols_prefix(r);
        lemma_after_rule(p0, r0);
        lemma_run_concat(p0, rule_text(r0), symbol_text(r.last()));
        assert(plain_symbol(r[r.len() - 1]));
        assert(r0.push(r.last()) =~= r);
        match r.last() {
            SymbolView::Terminal(t) => {
                lemma_terminal_step(p0, r0, t);
            },
            SymbolView::NonTerminal(n) => {
                lemma_reference_step(p0, r0, n);
            },
        }
    }
}

} // verus!

verus! {

/// `g` with the rules `rs` added in order to state `i`.
pub open spec fn insert_all(g: Seq<StateView>, i: int, rs: Seq<Seq<SymbolView>>) -> Seq<StateView>
    decreases rs.len(),
{
    if rs.len() == 0 {
        g
    } else {
        insert_rule(insert_all(g, i, rs.drop_last()), i, rs.last())
    }
}

/// Adding distinct rules to a state without rules gives it exactly those.
pub proof fn lemma_insert_all(g: Seq<StateView>, i: int, rs: Seq<Seq<SymbolView>>)
    requires
        well_formed(g),
        0 <= i < g.len(),
        g[i].rules.len() == 0,
        rs.no_duplicates(),
    ensures
        well_formed(insert_all(g, i, rs)),
        insert_all(g, i, rs) == g.update(i, StateView { name: g[i].name, nullable: g[i].nullable, rules: rs }),
    decreases rs.len(),
{
    if rs.len() > 0 {
        let r0 = rs.drop_last();
        assert(r0.no_duplicates());
        lemma_insert_all(g, i, r0);
        let h = insert_all(g, i, r0);
        assert(!h[i].rules.contains(rs.last())) by {
            if h[i].rules.contains(rs.last()) {
                let q = choose|q: int| 0 <= q < r0.len() && r0[q] == rs.last();
                assert(rs[q] == rs[rs.len() - 1]);
            }
        }
        assert(r0.push(rs.last()) =~= rs);
        let h2 = insert_all(g, i, rs);
        assert(h2 =~= g.update(i, StateView { name: g[i].name, nullable: g[i].nullable, rules: rs }));
        assert(well_formed(h2)) by {
            assert forall|a: int| 0 <= a < h2.len() implies (#[trigger] h2[a].rules).no_duplicates() by {
                if a != i {
                    assert(h2[a] == g[a]);
                }
            }
        }
    } else {
        assert(g[i].rules =~= rs);
        assert(g =~= g.update(i, StateView { name: g[i].name, nullable: g[i].nullable, rules: rs }));
    }
}

/// The head `<name> ::= ` of a line declares the state.
pub proof fn lemma_head(p: ParserView, name: Seq<char>)
    requires
        p.mode == ParserState::State,
        p.buffer == Seq::<char>::empty(),
        plain_text(name),
    ensures
        run(p, seq!['<'] + name + seq!['>', ' ', ':', ':', '=', ' ']) == (ParserView {
            buffer: Seq::empty(),
            current: name,
            pending: p.pending,
            mode: ParserState::Separator,
            grammar: declare(p.grammar, name),
        }),
{
    lemma_run_one(p, '<');
    let q1 = step(p, '<');
    lemma_run_concat(p, seq!['<'], name);
    lemma_run_collect(q1, name);
    let q2 = run(q1, name);
    assert(q2.buffer =~= name);
    lemma_trim_plain(name);
    let tail = seq!['>', ' ', ':', ':', '=', ' '];
    lemma_run_concat(p, seq!['<'] + name, tail);
    lemma_run_one(q2, '>');
    let q3 = step(q2, '>');
    lemma_run_concat(q2, seq!['>'], seq![' ', ':', ':', '=', ' ']);
    assert(seq!['>'] + seq![' ', ':', ':', '=', ' '] =~= tail);
    lemma_run_one(q3, ' ');
    let q4 = step(q3, ' ');
    assert(q4 == ParserView { buffer: Seq::empty(), current: name, mode: ParserState::Separator, grammar: declare(p.grammar, name), ..p });
    assert(whitespace(' '));
    lemma_run_concat(q3, seq![' '], seq![':', ':', '=', ' ']);
    assert(seq![' '] + seq![':', ':', '=', ' '] =~= seq![' ', ':', ':', '=', ' ']);
    lemma_run_one(q4, ':');
    lemma_run_concat(q4, seq![':'], seq![':', '=', ' ']);
    assert(seq![':'] + seq![':', '=', ' '] =~= seq![':', ':', '=', ' ']);
    lemma_run_one(q4, ':');
    lemma_run_concat(q4, seq![':'], seq!['=', ' ']);
    assert(seq![':'] + seq!['=', ' '] =~= seq![':', '=', ' ']);
    lemma_run_one(q4, '=');
    lemma_run_concat(q4, seq!['='], seq![' ']);
    assert(seq!['='] + seq![' '] =~= seq!['=', ' ']);
    lemma_run_one(q4, ' ');
}

/// A character that ends the separator after a state name.
pub open spec fn opens_alternatives(c: char) -> bool {
    c != ':' && c != '=' && !whitespace(c)
}

/// After the separator, the first other character is read as an alternative's.
pub proof fn lemma_enter_defs(q: ParserView, t: Seq<char>)
    requires
        q.mode == ParserState::Separator,
        t.len() > 0,
        opens_alternatives(t[0]),
    ensures
        run(q, t) == run(ParserView { mode: ParserState::Defs, ..q }, t),
{
    let qd = ParserView { mode: ParserState::Defs, ..q };
    let rest = t.drop_first();
    assert(seq![t[0]] + rest =~= t);
    lemma_run_concat(q, seq![t[0]], rest);
    lemma_run_concat(qd, seq![t[0]], rest);
    lemma_run_one(q, t[0]);
    lemma_run_one(qd, t[0]);
}

pub proof fn lemma_rule_text_first(r: Seq<SymbolView>)
    requires
        r.len() > 0,
        plain_symbols(r),
    ensures
        rule_text(r).len() > 0,
        opens_alternatives(rule_text(r)[0]),
    decreases r.len(),
{
    let r0 = r.drop_last();
    if r.len() == 1 {
        assert(r0.len() == 0);
        assert(rule_text(r0) =~= Seq::<char>::empty());
        assert(rule_text(r) =~= symbol_text(r[0]));
        assert(plain_symbol(r[0]));
        match r[0] {
            SymbolView::Terminal(t) => {
                assert(plain_char(t[0]) && !whitespace(t[0]));
            },
            SymbolView::NonTerminal(n) => {
                assert(symbol_text(r[0])[0] == '<');
            },
        }
    } else {
        lemma_plain_symbols_prefix(r);
        lemma_rule_text_first(r0);
        assert(rule_text(r)[0] == rule_text(r0)[0]);
    }
}

pub proof fn lemma_alternatives_first(rules: Seq<Seq<SymbolView>>)
    requires
        rules.len() > 0,
        forall|k: int| 0 <= k < rules.len() ==> (#[trigger] rules[k]).len() > 0 && plain_symbols(rules[k]),
    ensures
        alternatives_text(rules).len() > 0,
        opens_alternatives(alternatives_text(rules)[0]),
    decreases rules.len(),
{
    if rules.len() == 1 {
        assert(rules[0].len() > 0 && plain_symbols(rules[0]));
        lemma_rule_text_first(rules[0]);
    } else {
        let r0 = rules.drop_last();
        assert forall|k: int| 0 <= k < r0.len() implies (#[trigger] r0[k]).len() > 0 && plain_symbols(r0[k]) by {
            assert(r0[k] == rules[k]);
        }
        lemma_alternatives_first(r0);
        let a = alternatives_text(r0);
        assert((a + seq![' ', '|', ' '] + rule_text(rules.last()))[0] == a[0]);
    }
}

} // verus!

verus! {

/// Flushing after the text of `r0` and a space leaves all of `r0` pending.
pub proof fn lemma_flush_space(p0: ParserView, r0: Seq<SymbolView>)
    requires
        p0.buffer == Seq::<char>::empty() || p0.buffer == seq![' '],
        plain_symbols(r0),
        r0.len() > 0,
    ensures
        flush_terminal(ParserView { buffer: after_rule(p0, r0).buffer + seq![' '], ..after_rule(p0, r0) }).pending
            == p0.pending + r0,
{
    assert(plain_symbol(r0[r0.len() - 1]));
    match r0.last() {
        SymbolView::Terminal(t0) => {
            lemma_trim_plain(t0);
            if r0.len() == 1 {
                if p0.buffer.len() > 0 {
                    assert(p0.buffer + t0 + seq![' '] =~= seq![' '] + t0 + seq![' ']);
                } else {
                    assert(p0.buffer + t0 + seq![' '] =~= t0 + seq![' ']);
                }
            } else {
                assert(Seq::<char>::empty() + t0 + seq![' '] =~= t0 + seq![' ']);
            }
            assert(r0.drop_last().push(r0.last()) =~= r0);
            assert(p0.pending + r0.drop_last().push(SymbolView::Terminal(t0)) =~= p0.pending + r0);
        },
        SymbolView::NonTerminal(_) => {
            let b = Seq::<char>::empty() + seq![' '];
            let e = Seq::<char>::empty();
            assert(b.drop_first() =~= e);
            assert(whitespace(b[0]));
            assert(trim_start(b) == trim_start(e));
            assert(trim_start(e) == e);
            assert(trim_end(e) == e);
        },
    }
}

/// ` | ` after an alternative adds it to the current state.
pub proof fn lemma_separator(pk: ParserView, r: Seq<SymbolView>)
    requires
        pk.mode == ParserState::Defs,
        pk.buffer == Seq::<char>::empty() || pk.buffer == seq![' '],
        pk.pending == Seq::<SymbolView>::empty(),
        plain_symbols(r),
        r.len() > 0,
    ensures
        run(after_rule(pk, r), seq![' ', '|', ' ']) == (ParserView { buffer: seq![' '], grammar: commit(ParserView { pending: r, ..pk }).grammar, ..pk }),
        run(after_rule(pk, r), seq![' ', '|']) == (ParserView { buffer: Seq::empty(), grammar: commit(ParserView { pending: r, ..pk }).grammar, ..pk }),
{
    let q = after_rule(pk, r);
    lemma_run_one(q, ' ');
    let q1 = step(q, ' ');
    assert(q1 == ParserView { buffer: q.buffer + seq![' '], ..q }) by {
        assert(q.buffer.push(' ') =~= q.buffer + seq![' ']);
    }
    lemma_flush_space(pk, r);
    assert(pk.pending + r =~= r);
    lemma_run_concat(q, seq![' '], seq!['|']);
    assert(seq![' '] + seq!['|'] =~= seq![' ', '|']);
    lemma_run_one(q1, '|');
    let q2 = step(q1, '|');
    lemma_run_concat(q, seq![' ', '|'], seq![' ']);
    assert(seq![' ', '|'] + seq![' '] =~= seq![' ', '|', ' ']);
    lemma_run_one(q2, ' ');
    assert(Seq::<char>::empty().push(' ') =~= seq![' ']);
}

/// The end of a line after an alternative adds it to the current state.
pub proof fn lemma_line_end(pk: ParserView, r: Seq<SymbolView>)
    requires
        pk.mode == ParserState::Defs,
        pk.buffer == Seq::<char>::empty() || pk.buffer == seq![' '],
        pk.pending == Seq::<SymbolView>::empty(),
        plain_symbols(r),
        r.len() > 0,
    ensures
        end_line(after_rule(pk, r)).grammar == commit(ParserView { pending: r, ..pk }).grammar,
{
    lemma_flush_after(pk, r);
    assert(pk.pending + r =~= r);
}

/// ` | <>` after an alternative adds it, then lets the current state accept
/// the empty sequence.
pub proof fn lemma_empty_alternative(pk: ParserView, r: Seq<SymbolView>)
    requires
        pk.mode == ParserState::Defs,
        pk.buffer == Seq::<char>::empty() || pk.buffer == seq![' '],
        pk.pending == Seq::<SymbolView>::empty(),
        plain_symbols(r),
        r.len() > 0,
    ensures
        ({
            let g = commit(ParserView { pending: r, ..pk }).grammar;
            end_line(run(after_rule(pk, r), seq![' ', '|', ' ', '<', '>'])).grammar == if has_state(g, pk.current) {
                set_nullable(g, index_of(g, pk.current))
            } else {
                g
            }
        }),
{
    let q = after_rule(pk, r);
    lemma_separator(pk, r);
    let q3 = run(q, seq![' ', '|', ' ']);
    lemma_run_concat(q, seq![' ', '|', ' '], seq!['<']);
    assert(seq![' ', '|', ' '] + seq!['<'] =~= seq![' ', '|', ' ', '<']);
    lemma_run_one(q3, '<');
    let q4 = step(q3, '<');
    let e = Seq::<char>::empty();
    assert(trim(seq![' ']) == e) by {
        assert(seq![' '].drop_first() =~= e);
        assert(whitespace(seq![' '][0]));
        assert(trim_start(seq![' ']) == trim_start(e));
        assert(trim_start(e) == e);
        assert(trim_end(e) == e);
    }
    lemma_run_concat(q, seq![' ', '|', ' ', '<'], seq!['>']);
    assert(seq![' ', '|', ' ', '<'] + seq!['>'] =~= seq![' ', '|', ' ', '<', '>']);
    lemma_run_one(q4, '>');
    assert(trim(e) == e) by {
        assert(trim_start(e) == e);
        assert(trim_end(e) == e);
    }
}

} // verus!

verus! {

/// Adding rules keeps the grammar well formed and every name in place.
pub proof fn lemma_insert_all_names(g: Seq<StateView>, i: int, rs: Seq<Seq<SymbolView>>)
    requires
        well_formed(g),
        0 <= i < g.len(),
    ensures
        well_formed(insert_all(g, i, rs)),
        insert_all(g, i, rs).len() == g.len(),
        forall|j: int| 0 <= j < g.len() ==> (#[trigger] insert_all(g, i, rs)[j]).name == g[j].name,
        insert_all(g, i, rs)[i].nullable == g[i].nullable,
    decreases rs.len(),
{
    if rs.len() > 0 {
        lemma_insert_all_names(g, i, rs.drop_last());
        let h = insert_all(g, i, rs.drop_last());
        let h2 = insert_all(g, i, rs);
        assert(well_formed(h2)) by {
            if !h[i].rules.contains(rs.last()) {
                assert forall|a: int| 0 <= a < h2.len() implies (#[trigger] h2[a].rules).no_duplicates() by {
                    if a == i {
                        assert(h[i].rules.no_duplicates());
                    } else {
                        assert(h2[a] == h[a]);
                    }
                }
            }
        }
        assert forall|j: int| 0 <= j < g.len() implies (#[trigger] h2[j]).name == g[j].name by {
            assert(h2[j].name == h[j].name);
        }
    }
}

/// The alternatives of a line, read after its head.
/// The parser right before the last alternative of `rules`: the others added.
pub open spec fn alt_start(p1: ParserView, rules: Seq<Seq<SymbolView>>) -> ParserView {
    ParserView {
        buffer: if rules.len() <= 1 {
            p1.buffer
        } else {
            seq![' ']
        },
        grammar: insert_all(p1.grammar, index_of(p1.grammar, p1.current), rules.drop_last()),
        ..p1
    }
}

pub proof fn lemma_alternatives(p1: ParserView, rules: Seq<Seq<SymbolView>>)
    requires
        p1.mode == ParserState::Defs,
        p1.buffer == Seq::<char>::empty() || p1.buffer == seq![' '],
        p1.pending == Seq::<SymbolView>::empty(),
        well_formed(p1.grammar),
        has_state(p1.grammar, p1.current),
        rules.len() > 0,
        forall|k: int| 0 <= k < rules.len() ==> (#[trigger] rules[k]).len() > 0 && plain_symbols(rules[k]),
    ensures
        run(p1, alternatives_text(rules)) == after_rule(alt_start(p1, rules), rules.last()),
    decreases rules.len(),
{
    let g = p1.grammar;
    let i = index_of(g, p1.current);
    if rules.len() == 1 {
        assert(rules.drop_last() =~= Seq::<Seq<SymbolView>>::empty());
        assert(alt_start(p1, rules) == p1);
        assert(rules.last() == rules[0]);
        lemma_after_rule(p1, rules[0]);
    } else {
        let rs0 = rules.drop_last();
        assert forall|k: int| 0 <= k < rs0.len() implies (#[trigger] rs0[k]).len() > 0 && plain_symbols(rs0[k]) by {
            assert(rs0[k] == rules[k]);
        }
        lemma_alternatives(p1, rs0);
        let pk0 = alt_start(p1, rs0);
        let a = alternatives_text(rs0);
        let sep = seq![' ', '|', ' '];
        let r = rule_text(rules.last());
        lemma_run_concat(p1, a + sep, r);
        lemma_run_concat(p1, a, sep);
        assert(rs0.last() == rules[rules.len() - 2]);
        lemma_separator(pk0, rs0.last());
        lemma_insert_all_names(g, i, rs0.drop_last());
        lemma_index_of(pk0.grammar, p1.current, i);
        assert(rs0.drop_last().push(rs0.last()) =~= rs0);
        let pk1 = ParserView { buffer: seq![' '], grammar: insert_all(g, i, rs0), ..p1 };
        assert(pk1 == alt_start(p1, rules));
        assert(rules.last() == rules[rules.len() - 1]);
        lemma_after_rule(pk1, rules.last());
    }
}

/// The line of a state without rules, after its head.
pub proof fn lemma_no_rules(p1: ParserView, nullable: bool)
    requires
        p1.mode == ParserState::Separator,
        p1.buffer == Seq::<char>::empty(),
        p1.pending == Seq::<SymbolView>::empty(),
        has_state(p1.grammar, p1.current),
    ensures
        ({
            let tail = if nullable { seq![' ', '|', ' ', '<', '>'] } else { Seq::<char>::empty() };
            let q = run(p1, tail);
            &&& end_line(q).grammar == if nullable {
                set_nullable(p1.grammar, index_of(p1.grammar, p1.current))
            } else {
                p1.grammar
            }
            &&& !crate::parser::end_fails(q)
        }),
{
    let e = Seq::<char>::empty();
    assert(trim_start(e) == e);
    assert(trim_end(e) == e);
    assert(trim(seq![' ']) == e) by {
        assert(seq![' '].drop_first() =~= e);
        assert(whitespace(seq![' '][0]));
        assert(trim_start(seq![' ']) == trim_start(e));
    }
    if nullable {
        let tail = seq![' ', '|', ' ', '<', '>'];
        assert(whitespace(' '));
        lemma_run_one(p1, ' ');
        let q1 = step(p1, ' ');
        assert(q1 == p1);
        lemma_run_concat(p1, seq![' '], seq!['|']);
        assert(seq![' '] + seq!['|'] =~= seq![' ', '|']);
        lemma_run_one(q1, '|');
        let q2 = step(q1, '|');
        assert(q2 == ParserView { mode: ParserState::Defs, ..p1 });
        lemma_run_concat(p1, seq![' ', '|'], seq![' ']);
        assert(seq![' ', '|'] + seq![' '] =~= seq![' ', '|', ' ']);
        lemma_run_one(q2, ' ');
        let q3 = step(q2, ' ');
        assert(q3.buffer =~= seq![' ']);
        lemma_run_concat(p1, seq![' ', '|', ' '], seq!['<']);
        assert(seq![' ', '|', ' '] + seq!['<'] =~= seq![' ', '|', ' ', '<']);
        lemma_run_one(q3, '<');
        let q4 = step(q3, '<');
        lemma_run_concat(p1, seq![' ', '|', ' ', '<'], seq!['>']);
        assert(seq![' ', '|', ' ', '<'] + seq!['>'] =~= tail);
        lemma_run_one(q4, '>');
        let q5 = step(q4, '>');
        assert(has_state(q5.grammar, p1.current)) by {
            let w = choose|w: int| 0 <= w < p1.grammar.len() && p1.grammar[w].name == p1.current;
            assert(q5.grammar[w].name == p1.current);
        }
    }
}

/// Whatever follows an alternative on its line keeps the current state and
/// the states declared, so closing the line does not fail.
pub proof fn lemma_no_failure_after(pk: ParserView, r: Seq<SymbolView>, tail: Seq<char>)
    requires
        pk.mode == ParserState::Defs,
        pk.buffer == Seq::<char>::empty() || pk.buffer == seq![' '],
        pk.pending == Seq::<SymbolView>::empty(),
        plain_symbols(r),
        r.len() > 0,
        well_formed(pk.grammar),
        has_state(pk.grammar, pk.current),
        tail == seq![' ', '|', ' ', '<', '>'],
    ensures
        run(after_rule(pk, r), tail).current == pk.current,
        has_state(run(after_rule(pk, r), tail).grammar, pk.current),
{
    let q = after_rule(pk, r);
    lemma_separator(pk, r);
    let q3 = run(q, seq![' ', '|', ' ']);
    let i = index_of(pk.grammar, pk.current);
    let g2 = commit(ParserView { pending: r, ..pk }).grammar;
    assert(g2[i].name == pk.current);
    lemma_run_concat(q, seq![' ', '|', ' '], seq!['<']);
    assert(seq![' ', '|', ' '] + seq!['<'] =~= seq![' ', '|', ' ', '<']);
    lemma_run_one(q3, '<');
    let q4 = step(q3, '<');
    lemma_run_concat(q, seq![' ', '|', ' ', '<'], seq!['>']);
    assert(seq![' ', '|', ' ', '<'] + seq!['>'] =~= tail);
    lemma_run_one(q4, '>');
    let q5 = step(q4, '>');
    assert(has_state(q5.grammar, pk.current)) by {
        assert(q5.grammar[i].name == pk.current);
    }
}

/// The line of a plain state, read into a parser that waits for a
/// declaration, declares that state with the same rules, in the same order,
/// and the same empty alternative.
pub proof fn state_line_round_trip(p: ParserView, s: StateView)
    requires
        p.mode == ParserState::State,
        p.buffer == Seq::<char>::empty(),
        p.pending == Seq::<SymbolView>::empty(),
        well_formed(p.grammar),
        plain_state(s),
    ensures
        ({
            let g1 = declare(p.grammar, s.name);
            end_line(run(p, state_line(s).drop_last())).grammar == g1.update(index_of(g1, s.name), s)
        }),
        !crate::parser::end_fails(run(p, state_line(s).drop_last())),
{
    let g1 = declare(p.grammar, s.name);
    crate::grammar::lemma_declare(p.grammar, s.name);
    let i = index_of(g1, s.name);
    let head = seq!['<'] + s.name + seq!['>', ' ', ':', ':', '=', ' '];
    let alts = alternatives_text(s.rules);
    lemma_head(p, s.name);
    let p1 = run(p, head);
    lemma_run_concat(p, head, alts);
    if s.rules.len() == 0 {
        lemma_index_of(g1, s.name, i);
        lemma_no_rules(p1, s.nullable);
        assert(alts =~= Seq::<char>::empty());
        if s.nullable {
            let tail = seq![' ', '|', ' ', '<', '>'];
            assert(state_line(s).drop_last() =~= head + tail);
            assert(head + alts =~= head);
            lemma_run_concat(p, head, tail);
            assert(s.rules =~= Seq::<Seq<SymbolView>>::empty());
            assert(g1[i] == crate::grammar::fresh_state(s.name));
            assert(set_nullable(g1, i)[i] == s);
            assert(set_nullable(g1, i) =~= g1.update(i, s));
        } else {
            assert(state_line(s).drop_last() =~= head);
            assert(run(p1, Seq::<char>::empty()) == p1);
            assert(s.rules =~= Seq::<Seq<SymbolView>>::empty());
            assert(g1 =~= g1.update(i, s));
        }
        return;
    }
    let p1d = ParserView { mode: ParserState::Defs, ..p1 };
    lemma_alternatives_first(s.rules);
    lemma_enter_defs(p1, alts);
    lemma_alternatives(p1d, s.rules);
    let pk = alt_start(p1d, s.rules);
    lemma_insert_all_names(g1, i, s.rules.drop_last());
    lemma_index_of(pk.grammar, s.name, i);
    let last = s.rules.last();
    assert(last == s.rules[s.rules.len() - 1]);
    assert(s.rules.drop_last().push(last) =~= s.rules);
    lemma_insert_all(g1, i, s.rules);
    let done = insert_all(g1, i, s.rules);
    assert(done == commit(ParserView { pending: last, ..pk }).grammar);
    if s.nullable {
        let tail = seq![' ', '|', ' ', '<', '>'];
        assert(state_line(s).drop_last() =~= head + alts + tail);
        lemma_run_concat(p, head + alts, tail);
        lemma_run_concat(p1, alts, tail);
        lemma_run_concat(p1d, alts, tail);
        lemma_empty_alternative(pk, last);
        lemma_index_of(done, s.name, i);
        assert(set_nullable(done, i) =~= g1.update(i, s));
        lemma_no_failure_after(pk, last, tail);
    } else {
        assert(state_line(s).drop_last() =~= head + alts);
        lemma_line_end(pk, last);
        assert(done =~= g1.update(i, s));
        assert(has_state(pk.grammar, pk.current));
    }
}

} // verus!

verus! {

/// `h` after reading the line of `s`: `s` declared, then given its rules and flag.
pub open spec fn place(h: Seq<StateView>, s: StateView) -> Seq<StateView> {
    let h1 = declare(h, s.name);
    h1.update(index_of(h1, s.name), s)
}

/// The state called `name` in `h`.
pub open spec fn lookup(h: Seq<StateView>, name: Seq<char>) -> StateView {
    h[index_of(h, name)]
}

pub proof fn lemma_place(h: Seq<StateView>, s: StateView)
    requires
        well_formed(h),
        plain_state(s),
    ensures
        well_formed(place(h, s)),
        has_state(place(h, s), s.name),
        lookup(place(h, s), s.name) == s,
        forall|n: Seq<char>| n != s.name ==> has_state(place(h, s), n) == has_state(h, n),
        forall|n: Seq<char>| n != s.name && has_state(h, n) ==> lookup(place(h, s), n) == lookup(h, n),
        forall|k: int| 0 <= k < place(h, s).len() ==> place(h, s)[k] == s || h.contains(#[trigger] place(h, s)[k]),
{
    crate::grammar::lemma_declare(h, s.name);
    let h1 = declare(h, s.name);
    let i = index_of(h1, s.name);
    let h2 = place(h, s);
    assert(well_formed(h2)) by {
        assert forall|a: int, b: int| 0 <= a < h2.len() && 0 <= b < h2.len() && a != b implies h2[a].name != h2[b].name by {
            assert(h2[a].name == h1[a].name && h2[b].name == h1[b].name);
        }
    }
    lemma_index_of(h2, s.name, i);
    let j0 = if has_state(h, s.name) { index_of(h, s.name) } else { h.len() as int };
    assert(i == j0) by {
        lemma_index_of(h1, s.name, j0);
    }
    assert forall|n: Seq<char>| n != s.name implies has_state(h2, n) == has_state(h, n) by {
        if has_state(h, n) {
            let q = choose|q: int| 0 <= q < h.len() && h[q].name == n;
            assert(h2[q].name == n);
        }
        if has_state(h2, n) {
            let q = choose|q: int| 0 <= q < h2.len() && h2[q].name == n;
            assert(q != i);
            assert(h[q].name == n);
        }
    }
    assert forall|n: Seq<char>| n != s.name && has_state(h, n) implies lookup(h2, n) == lookup(h, n) by {
        let q = index_of(h, n);
        lemma_index_of(h, n, q);
        assert(q != i);
        assert(h2[q] == h[q]);
        lemma_index_of(h2, n, q);
    }
    assert forall|k: int| 0 <= k < h2.len() implies h2[k] == s || h.contains(#[trigger] h2[k]) by {
        if k != i {
            assert(h2[k] == h[k]);
        }
    }
}

/// What a line of the rendering holds, without its newline.
pub open spec fn line_body(s: StateView) -> Seq<char> {
    state_line(s).drop_last()
}

/// Reading the lines of plain states with distinct names, one after the
/// other, declares each of them as it is, and leaves other states alone.
pub proof fn lemma_read_states(p0: ParserView, ss: Seq<StateView>)
    requires
        p0.mode == ParserState::State,
        p0.buffer == Seq::<char>::empty(),
        p0.pending == Seq::<SymbolView>::empty(),
        well_formed(p0.grammar),
        forall|x: int| 0 <= x < ss.len() ==> plain_state(#[trigger] ss[x]),
        forall|x: int, y: int| 0 <= x < y < ss.len() ==> ss[x].name != ss[y].name,
    ensures
        ({
            let q = crate::parser::read_lines(p0, ss.map_values(|s: StateView| line_body(s)));
            &&& !crate::parser::some_line_fails(p0, ss.map_values(|s: StateView| line_body(s)))
            &&& q.mode == ParserState::State
            &&& q.buffer == Seq::<char>::empty()
            &&& q.pending == Seq::<SymbolView>::empty()
            &&& well_formed(q.grammar)
            &&& forall|x: int| 0 <= x < ss.len() ==> has_state(q.grammar, (#[trigger] ss[x]).name) && lookup(q.grammar, ss[x].name) == ss[x]
            &&& forall|n: Seq<char>| (forall|x: int| 0 <= x < ss.len() ==> (#[trigger] ss[x]).name != n) ==> has_state(q.grammar, n) == has_state(p0.grammar, n)
                && (has_state(p0.grammar, n) ==> lookup(q.grammar, n) == lookup(p0.grammar, n))
            &&& forall|k: int| 0 <= k < q.grammar.len() ==> ss.contains(#[trigger] q.grammar[k]) || p0.grammar.contains(q.grammar[k])
        }),
    decreases ss.len(),
{
    let ls = ss.map_values(|s: StateView| line_body(s));
    if ss.len() == 0 {
        assert(ls.len() == 0);
    } else {
        let ss0 = ss.drop_last();
        let s = ss.last();
        assert(ls.drop_last() =~= ss0.map_values(|s: StateView| line_body(s)));
        assert(ls.last() == line_body(s));
        lemma_read_states(p0, ss0);
        let q0 = crate::parser::read_lines(p0, ss0.map_values(|s: StateView| line_body(s)));
        assert(plain_state(ss[ss.len() - 1]));
        state_line_round_trip(q0, s);
        let q = crate::parser::read_lines(p0, ls);
        assert(q.grammar == place(q0.grammar, s));
        lemma_place(q0.grammar, s);
        assert forall|x: int| 0 <= x < ss.len() implies has_state(q.grammar, (#[trigger] ss[x]).name) && lookup(q.grammar, ss[x].name) == ss[x] by {
            if x < ss.len() - 1 {
                assert(ss0[x] == ss[x]);
                assert(ss[x].name != s.name);
            }
        }
        assert forall|n: Seq<char>| (forall|x: int| 0 <= x < ss.len() ==> (#[trigger] ss[x]).name != n) implies has_state(q.grammar, n) == has_state(p0.grammar, n)
            && (has_state(p0.grammar, n) ==> lookup(q.grammar, n) == lookup(p0.grammar, n)) by {
            assert(ss[ss.len() - 1].name != n);
            assert forall|x: int| 0 <= x < ss0.len() implies (#[trigger] ss0[x]).name != n by {
                assert(ss0[x] == ss[x]);
            }
        }
        assert forall|k: int| 0 <= k < q.grammar.len() implies ss.contains(#[trigger] q.grammar[k]) || p0.grammar.contains(q.grammar[k]) by {
            if q.grammar[k] == s {
                assert(ss[ss.len() - 1] == s);
            } else {
                assert(q0.grammar.contains(q.grammar[k]));
                let m = choose|m: int| 0 <= m < q0.grammar.len() && q0.grammar[m] == q.grammar[k];
                assert(ss0.contains(q0.grammar[m]) || p0.grammar.contains(q0.grammar[m]));
                if ss0.contains(q0.grammar[m]) {
                    let x = choose|x: int| 0 <= x < ss0.len() && ss0[x] == q0.grammar[m];
                    assert(ss[x] == ss0[x]);
                }
            }
        }
    }
}

} // verus!

verus! {

/// Reading, line by line, the lines that render a grammar whose states are
/// all plain gives back each of its states as it was, and no other state.
pub proof fn rendering_round_trip(g: Seq<StateView>, ii: int, order: Seq<int>)
    requires
        well_formed(g),
        0 <= ii < g.len(),
        g[ii].name == seq!['S'],
        crate::render::sorted_others(g, ii, order),
        forall|j: int| 0 <= j < g.len() ==> plain_state(#[trigger] g[j]),
    ensures
        ({
            let ss = seq![g[ii]] + order.map_values(|o: int| g[o]);
            let h = crate::parser::read_lines(
                crate::parser::GrammarParser::new_view(),
                ss.map_values(|s: StateView| line_body(s)),
            ).grammar;
            &&& forall|j: int| 0 <= j < g.len() ==> has_state(h, (#[trigger] g[j]).name) && lookup(h, g[j].name) == g[j]
            &&& forall|k: int| 0 <= k < h.len() ==> g.contains(#[trigger] h[k])
        }),
{
    let ss = seq![g[ii]] + order.map_values(|o: int| g[o]);
    let p0 = crate::parser::GrammarParser::new_view();
    assert forall|x: int| 0 <= x < ss.len() implies plain_state(#[trigger] ss[x]) by {
        if x > 0 {
            assert(ss[x] == g[order[x - 1]]);
        }
    }
    assert forall|x: int, y: int| 0 <= x < y < ss.len() implies ss[x].name != ss[y].name by {
        assert(ss[y] == g[order[y - 1]]);
        if x == 0 {
            assert(order[y - 1] != ii);
        } else {
            assert(ss[x] == g[order[x - 1]]);
            assert(crate::render::name_lt(g[order[x - 1]].name, g[order[y - 1]].name));
            if g[order[x - 1]].name == g[order[y - 1]].name {
                crate::render::lemma_name_lt_irreflexive(g[order[x - 1]].name);
            }
        }
    }
    assert(well_formed(p0.grammar)) by {
        assert(p0.grammar[0].rules.no_duplicates());
    }
    lemma_read_states(p0, ss);
    let h = crate::parser::read_lines(p0, ss.map_values(|s: StateView| line_body(s))).grammar;
    assert forall|j: int| 0 <= j < g.len() implies has_state(h, (#[trigger] g[j]).name) && lookup(h, g[j].name) == g[j] by {
        if j == ii {
            assert(ss[0] == g[j]);
        } else {
            assert(order.contains(j));
            let x = choose|x: int| 0 <= x < order.len() && order[x] == j;
            assert(ss[x + 1] == g[j]);
        }
    }
    assert forall|k: int| 0 <= k < h.len() implies g.contains(#[trigger] h[k]) by {
        if ss.contains(h[k]) {
            let x = choose|x: int| 0 <= x < ss.len() && ss[x] == h[k];
            if x == 0 {
                assert(g[ii] == h[k]);
            } else {
                assert(ss[x] == g[order[x - 1]]);
            }
        } else {
            assert(p0.grammar.contains(h[k]));
            let m = choose|m: int| 0 <= m < p0.grammar.len() && p0.grammar[m] == h[k];
            assert(h[k].name == g[ii].name);
            assert(has_state(h, g[ii].name));
            lemma_index_of(h, g[ii].name, k);
            assert(g[ii] == h[k]);
        }
    }
}

} // verus!

verus! {

/// No newline in `s`.
pub open spec fn one_line(s: Seq<char>) -> bool {
    forall|i: int| 0 <= i < s.len() ==> s[i] != '\n'
}

/// The lines `bs`, each ended by a newline.
pub open spec fn text_of(bs: Seq<Seq<char>>) -> Seq<char>
    decreases bs.len(),
{
    if bs.len() == 0 {
        Seq::empty()
    } else {
        text_of(bs.drop_last()) + bs.last().push('\n')
    }
}

pub proof fn lemma_split_append(t: Seq<char>, u: Seq<char>)
    requires
        one_line(u),
    ensures
        split_lines(t + u) == split_lines(t).update(split_lines(t).len() - 1, split_lines(t).last() + u),
    decreases u.len(),
{
    lemma_split_nonempty(t);
    if u.len() == 0 {
        assert(t + u =~= t);
        assert(split_lines(t).last() + u =~= split_lines(t).last());
        assert(split_lines(t).update(split_lines(t).len() - 1, split_lines(t).last()) =~= split_lines(t));
    } else {
        let u0 = u.drop_last();
        assert(u[u.len() - 1] != '\n');
        lemma_split_append(t, u0);
        assert((t + u).drop_last() =~= t + u0);
        assert((t + u).last() == u.last());
        lemma_split_nonempty(t + u0);
        let p = split_lines(t);
        assert(split_lines(t + u) =~= p.update(p.len() - 1, p.last() + u)) by {
            assert((p.last() + u0).push(u.last()) =~= p.last() + u);
        }
    }
}

pub proof fn lemma_split_nonempty(s: Seq<char>)
    ensures
        split_lines(s).len() >= 1,
    decreases s.len(),
{
    if s.len() > 0 {
        lemma_split_nonempty(s.drop_last());
    }
}

pub proof fn lemma_split_text(bs: Seq<Seq<char>>)
    requires
        forall|x: int| 0 <= x < bs.len() ==> one_line(#[trigger] bs[x]),
    ensures
        split_lines(text_of(bs)) == bs.push(Seq::empty()),
    decreases bs.len(),
{
    if bs.len() == 0 {
        assert(split_lines(Seq::<char>::empty()) =~= bs.push(Seq::empty()));
    } else {
        let b0 = bs.drop_last();
        let b = bs.last();
        assert forall|x: int| 0 <= x < b0.len() implies one_line(#[trigger] b0[x]) by {
            assert(b0[x] == bs[x]);
        }
        lemma_split_text(b0);
        assert(one_line(bs[bs.len() - 1]));
        lemma_split_append(text_of(b0), b);
        let t = text_of(b0) + b;
        assert(text_of(bs) =~= t.push('\n'));
        assert(t.push('\n').drop_last() =~= t);
        assert(Seq::<char>::empty() + b =~= b);
        assert(split_lines(t) =~= b0.push(b));
        assert(b0.push(b) =~= bs);
    }
}

/// The lines of the text of `bs` are `bs`, where none holds a newline or
/// ends with a carriage return.
pub proof fn lemma_lines_of_text(bs: Seq<Seq<char>>)
    requires
        forall|x: int| 0 <= x < bs.len() ==> one_line(#[trigger] bs[x]),
        forall|x: int| 0 <= x < bs.len() ==> (#[trigger] bs[x]).len() > 0 && bs[x].last() != '\r',
    ensures
        crate::parser::lines_of(text_of(bs)) == bs,
{
    lemma_split_text(bs);
    let p = bs.push(Seq::<char>::empty());
    assert(p.drop_last() =~= bs);
    assert(bs.map_values(|l: Seq<char>| crate::parser::strip_cr(l)) =~= bs);
}

} // verus!

verus! {

pub proof fn lemma_concat_line(a: Seq<char>, b: Seq<char>)
    requires
        one_line(a),
        one_line(b),
    ensures
        one_line(a + b),
{
    assert forall|i: int| 0 <= i < (a + b).len() implies (a + b)[i] != '\n' by {
        if i >= a.len() {
            assert((a + b)[i] == b[i - a.len()]);
        }
    }
}

pub proof fn lemma_rule_text_line(r: Seq<SymbolView>)
    requires
        plain_symbols(r),
    ensures
        one_line(rule_text(r)),
        r.len() > 0 ==> rule_text(r).len() > 0 && rule_text(r).last() != '\r',
    decreases r.len(),
{
    if r.len() > 0 {
        lemma_plain_symbols_prefix(r);
        lemma_rule_text_line(r.drop_last());
        assert(plain_symbol(r[r.len() - 1]));
        let st = symbol_text(r.last());
        match r.last() {
            SymbolView::Terminal(t) => {
                assert(!whitespace(t.last()));
            },
            SymbolView::NonTerminal(n) => {
                lemma_concat_line(seq!['<'], n);
                lemma_concat_line(seq!['<'] + n, seq!['>']);
            },
        }
        lemma_concat_line(rule_text(r.drop_last()), st);
    }
}

pub proof fn lemma_alternatives_line(rules: Seq<Seq<SymbolView>>)
    requires
        forall|k: int| 0 <= k < rules.len() ==> (#[trigger] rules[k]).len() > 0 && plain_symbols(rules[k]),
    ensures
        one_line(alternatives_text(rules)),
        rules.len() > 0 ==> alternatives_text(rules).len() > 0 && alternatives_text(rules).last() != '\r',
    decreases rules.len(),
{
    if rules.len() == 1 {
        assert(rules[0].len() > 0 && plain_symbols(rules[0]));
        lemma_rule_text_line(rules[0]);
    } else if rules.len() > 1 {
        let r0 = rules.drop_last();
        assert forall|k: int| 0 <= k < r0.len() implies (#[trigger] r0[k]).len() > 0 && plain_symbols(r0[k]) by {
            assert(r0[k] == rules[k]);
        }
        lemma_alternatives_line(r0);
        assert(rules[rules.len() - 1].len() > 0 && plain_symbols(rules[rules.len() - 1]));
        lemma_rule_text_line(rules.last());
        lemma_concat_line(alternatives_text(r0), seq![' ', '|', ' ']);
        lemma_concat_line(alternatives_text(r0) + seq![' ', '|', ' '], rule_text(rules.last()));
    }
}

pub proof fn lemma_body_line(s: StateView)
    requires
        plain_state(s),
    ensures
        one_line(line_body(s)),
        line_body(s).len() > 0,
        line_body(s).last() != '\r',
        state_line(s) == line_body(s).push('\n'),
{
    if s.rules.len() == 0 {
        assert(alternatives_text(s.rules) =~= Seq::<char>::empty());
    }
    lemma_alternatives_line(s.rules);
    let head = seq!['<'] + s.name + seq!['>', ' ', ':', ':', '=', ' '];
    lemma_concat_line(seq!['<'], s.name);
    lemma_concat_line(seq!['<'] + s.name, seq!['>', ' ', ':', ':', '=', ' ']);
    lemma_concat_line(head, alternatives_text(s.rules));
    if s.nullable {
        lemma_concat_line(head + alternatives_text(s.rules), seq![' ', '|', ' ', '<', '>']);
        assert(line_body(s) =~= head + alternatives_text(s.rules) + seq![' ', '|', ' ', '<', '>']);
    } else {
        assert(line_body(s) =~= head + alternatives_text(s.rules));
    }
    assert(state_line(s) =~= line_body(s).push('\n'));
}

/// The rendering of the states `ii`, then `order`, is the text of their lines.
pub proof fn lemma_render_text(g: Seq<StateView>, ii: int, order: Seq<int>)
    requires
        0 <= ii < g.len(),
        forall|x: int| 0 <= x < order.len() ==> 0 <= #[trigger] order[x] < g.len(),
        forall|j: int| 0 <= j < g.len() ==> plain_state(#[trigger] g[j]),
    ensures
        state_line(g[ii]) + crate::render::lines_text(g, order) == text_of(
            (seq![g[ii]] + order.map_values(|o: int| g[o])).map_values(|s: StateView| line_body(s)),
        ),
    decreases order.len(),
{
    let bs = (seq![g[ii]] + order.map_values(|o: int| g[o])).map_values(|s: StateView| line_body(s));
    if order.len() == 0 {
        lemma_body_line(g[ii]);
        assert(bs =~= seq![line_body(g[ii])]);
        assert(bs.drop_last() =~= Seq::<Seq<char>>::empty());
        assert(crate::render::lines_text(g, order) =~= Seq::<char>::empty());
        assert(text_of(bs.drop_last()) =~= Seq::<char>::empty());
        assert(bs.last() == line_body(g[ii]));
        assert(text_of(bs) =~= Seq::<char>::empty() + line_body(g[ii]).push('\n'));
        assert(state_line(g[ii]) + crate::render::lines_text(g, order) =~= text_of(bs));
    } else {
        let o0 = order.drop_last();
        lemma_render_text(g, ii, o0);
        let b0 = (seq![g[ii]] + o0.map_values(|o: int| g[o])).map_values(|s: StateView| line_body(s));
        assert(bs.drop_last() =~= b0);
        assert(plain_state(g[order.last()]));
        lemma_body_line(g[order.last()]);
        assert(bs.last() == line_body(g[order.last()]));
        assert(state_line(g[ii]) + crate::render::lines_text(g, order) =~= text_of(b0) + state_line(g[order.last()]));
    }
}

} // verus!

verus! {

/// Reading the text that renders a grammar whose states are all plain, with
/// the initial state `S` first and the others by name, fails on no line and
/// gives back each of its states as it was, and no other state.
pub proof fn text_round_trip(g: Seq<StateView>, ii: int, order: Seq<int>)
    requires
        well_formed(g),
        0 <= ii < g.len(),
        g[ii].name == seq!['S'],
        crate::render::sorted_others(g, ii, order),
        forall|j: int| 0 <= j < g.len() ==> plain_state(#[trigger] g[j]),
    ensures
        ({
            let text = state_line(g[ii]) + crate::render::lines_text(g, order);
            let p0 = crate::parser::GrammarParser::new_view();
            let h = crate::parser::read_lines(p0, crate::parser::lines_of(text)).grammar;
            &&& !crate::parser::some_line_fails(p0, crate::parser::lines_of(text))
            &&& forall|j: int| 0 <= j < g.len() ==> has_state(h, (#[trigger] g[j]).name) && lookup(h, g[j].name) == g[j]
            &&& forall|k: int| 0 <= k < h.len() ==> g.contains(#[trigger] h[k])
        }),
{
    let ss = seq![g[ii]] + order.map_values(|o: int| g[o]);
    let bs = ss.map_values(|s: StateView| line_body(s));
    lemma_render_text(g, ii, order);
    assert forall|x: int| 0 <= x < bs.len() implies one_line(#[trigger] bs[x]) && bs[x].len() > 0 && bs[x].last() != '\r' by {
        if x == 0 {
            lemma_body_line(g[ii]);
        } else {
            assert(ss[x] == g[order[x - 1]]);
            lemma_body_line(g[order[x - 1]]);
        }
    }
    lemma_lines_of_text(bs);
    rendering_round_trip(g, ii, order);
    assert forall|x: int| 0 <= x < ss.len() implies plain_state(#[trigger] ss[x]) by {
        if x > 0 {
            assert(ss[x] == g[order[x - 1]]);
        }
    }
    assert forall|x: int, y: int| 0 <= x < y < ss.len() implies ss[x].name != ss[y].name by {
        assert(ss[y] == g[order[y - 1]]);
        if x == 0 {
            assert(order[y - 1] != ii);
        } else {
            assert(ss[x] == g[order[x - 1]]);
            if g[order[x - 1]].name == g[order[y - 1]].name {
                crate::render::lemma_name_lt_irreflexive(g[order[x - 1]].name);
            }
        }
    }
    let p0 = crate::parser::GrammarParser::new_view();
    assert(well_formed(p0.grammar)) by {
        assert(p0.grammar[0].rules.no_duplicates());
    }
    lemma_read_states(p0, ss);
}

} // verus!
