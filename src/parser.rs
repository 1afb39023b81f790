use vstd::prelude::*;
use crate::symbol::{Symbol, SymbolView};
use crate::grammar::{Grammar, GrammarError, StateView, has_state, index_of, declare, insert_rule, set_nullable};
use crate::text::{trim, trimmed, whitespace, is_space};

verus! {

/// Where the parser stands inside a line.
#[derive(Debug, Clone, Copy, PartialEq, Eq)]
pub enum ParserState {
    /// Before a declaration: waits for `<`.
    State,
    /// Reads the name of the declared state.
    StateName,
    /// Declares the state whose name was read.
    StoreState,
    /// Skips the `::=` separator and the whitespace around it.
    Separator,
    /// Reads the alternatives.
    Defs,
    /// Reads the name of a referenced state.
    DefsNonTerminal,
}

/// What the parser holds: the text read since the last flush, the state
/// being defined, the symbols of the alternative being read, where it stands,
/// and the grammar built so far.
pub struct ParserView {
    pub buffer: Seq<char>,
    pub current: Seq<char>,
    pub pending: Seq<SymbolView>,
    pub mode: ParserState,
    pub grammar: Seq<StateView>,
}

/// Turns the buffered text, trimmed, into a terminal of the pending
/// alternative; blank text adds nothing.
pub open spec fn flush_terminal(p: ParserView) -> ParserView {
    let t = trim(p.buffer);
    ParserView {
        buffer: Seq::empty(),
        pending: if t.len() == 0 {
            p.pending
        } else {
            p.pending.push(SymbolView::Terminal(t))
        },
        ..p
    }
}

/// Adds the pending alternative, if it has symbols, to the current state,
/// where that state exists; the pending alternative is emptied.
pub open spec fn commit(p: ParserView) -> ParserView {
    ParserView {
        pending: Seq::empty(),
        grammar: if p.pending.len() > 0 && has_state(p.grammar, p.current) {
            insert_rule(p.grammar, index_of(p.grammar, p.current), p.pending)
        } else {
            p.grammar
        },
        ..p
    }
}

/// Closes a reference `<...>`: an empty name lets the current state accept
/// the empty sequence, another name becomes a nonterminal.
pub open spec fn close_reference(p: ParserView) -> ParserView {
    let t = trim(p.buffer);
    ParserView {
        buffer: Seq::empty(),
        pending: if t.len() == 0 {
            p.pending
        } else {
            p.pending.push(SymbolView::NonTerminal(t))
        },
        grammar: if t.len() == 0 && has_state(p.grammar, p.current) {
            set_nullable(p.grammar, index_of(p.grammar, p.current))
        } else {
            p.grammar
        },
        mode: ParserState::Defs,
        ..p
    }
}

/// Reading `ch` among the alternatives: `|` or a newline ends one, `<` opens
/// a reference, any other character is text.
pub open spec fn defs_step(p: ParserView, ch: char) -> ParserView {
    if ch == '|' || ch == '\n' {
        commit(flush_terminal(p))
    } else if ch == '<' {
        ParserView { mode: ParserState::DefsNonTerminal, ..flush_terminal(p) }
    } else {
        ParserView { buffer: p.buffer.push(ch), ..p }
    }
}

/// The parser after reading the character `ch`.
pub open spec fn step(p: ParserView, ch: char) -> ParserView {
    match p.mode {
        ParserState::State => if ch == '<' {
            ParserView { mode: ParserState::StateName, ..p }
        } else {
            p
        },
        ParserState::StateName => if ch != '>' && ch != ':' && ch != '=' {
            ParserView { buffer: p.buffer.push(ch), ..p }
        } else {
            ParserView { mode: ParserState::StoreState, ..p }
        },
        ParserState::StoreState => {
            let name = trim(p.buffer);
            ParserView {
                buffer: Seq::empty(),
                current: name,
                grammar: declare(p.grammar, trim(name)),
                mode: ParserState::Separator,
                ..p
            }
        },
        ParserState::Separator => if ch == ':' || ch == '=' || whitespace(ch) {
            p
        } else {
            defs_step(ParserView { mode: ParserState::Defs, ..p }, ch)
        },
        ParserState::Defs => defs_step(p, ch),
        ParserState::DefsNonTerminal => if ch != '>' {
            ParserView { buffer: p.buffer.push(ch), ..p }
        } else {
            close_reference(p)
        },
    }
}

/// The parser after reading the characters `s` in order.
pub open spec fn run(p: ParserView, s: Seq<char>) -> ParserView
    decreases s.len(),
{
    if s.len() == 0 {
        p
    } else {
        step(run(p, s.drop_last()), s.last())
    }
}

/// The end of a line: the pending alternative is closed and added, and the
/// parser waits for a new declaration.
pub open spec fn end_line(p: ParserView) -> ParserView {
    ParserView { mode: ParserState::State, ..commit(flush_terminal(p)) }
}

/// Closing the line fails: it has a nonempty alternative and no state to add it to.
pub open spec fn end_fails(p: ParserView) -> bool {
    flush_terminal(p).pending.len() > 0 && !has_state(p.grammar, p.current)
}

} // verus!

verus! {

/// Reads grammar text line by line and builds a `Grammar`.
pub struct GrammarParser {
    buffer: String,
    current_reading: String,
    temp_rule: Vec<Symbol>,
    read_state: ParserState,
    grammar: Grammar,
}

impl View for GrammarParser {
    type V = ParserView;

    closed spec fn view(&self) -> ParserView {
        ParserView {
            buffer: self.buffer@,
            current: self.current_reading@,
            pending: crate::symbol::rule_view(self.temp_rule@),
            mode: self.read_state,
            grammar: self.grammar@,
        }
    }
}

impl GrammarParser {
    pub closed spec fn wf(&self) -> bool {
        self.grammar.wf()
    }

    /// The initial state of the grammar being built.
    pub closed spec fn initial_name(&self) -> Seq<char> {
        self.grammar.initial_name()
    }

    /// What a new parser holds.
    pub open spec fn new_view() -> ParserView {
        ParserView {
            buffer: Seq::empty(),
            current: Seq::empty(),
            pending: Seq::empty(),
            mode: ParserState::State,
            grammar: seq![crate::grammar::fresh_state(seq!['S'])],
        }
    }

    /// The name of the state being defined.
    pub fn current_name(&self) -> (r: String)
        ensures
            r@ == self@.current,
    {
        self.current_reading.clone()
    }

    /// A parser before any line, holding the grammar of `Grammar::new`.
    pub fn new() -> (p: Self)
        ensures
            p.wf(),
            p@ == Self::new_view(),
            p.initial_name() == seq!['S'],
    {
        let p = GrammarParser {
            buffer: String::new(),
            current_reading: String::new(),
            temp_rule: Vec::new(),
            read_state: ParserState::State,
            grammar: Grammar::new(),
        };
        assert(p@.pending =~= Seq::empty());
        p
    }

    /// Empties the buffer and returns its text, trimmed.
    fn take_buffer(&mut self) -> (t: String)
        ensures
            t@ == trim(old(self)@.buffer),
            final(self)@ == (ParserView { buffer: Seq::empty(), ..old(self)@ }),
            final(self).wf() == old(self).wf(),
            final(self).initial_name() == old(self).initial_name(),
    {
        let mut b = String::new();
        std::mem::swap(&mut b, &mut self.buffer);
        trimmed(b.as_str())
    }

    fn store_buffer_as_terminal(&mut self)
        ensures
            final(self)@ == flush_terminal(old(self)@),
            final(self).wf() == old(self).wf(),
            final(self).initial_name() == old(self).initial_name(),
    {
        let tname = self.take_buffer();
        if tname.as_str().is_empty() {
            return;
        }
        let ghost t = tname@;
        self.temp_rule.push(Symbol::Terminal(tname));
        assert(self@.pending =~= old(self)@.pending.push(SymbolView::Terminal(t)));
    }

    fn store_buffer_as_nonterminal(&mut self)
        requires
            old(self).wf(),
        ensures
            final(self).wf(),
            final(self)@ == (ParserView { mode: old(self)@.mode, ..close_reference(old(self)@) }),
            final(self).initial_name() == old(self).initial_name(),
    {
        let ntname = self.take_buffer();
        if ntname.as_str().is_empty() {
            let _ = self.grammar.mark_nullable(&self.current_reading);
            return;
        }
        let ghost t = ntname@;
        self.temp_rule.push(Symbol::NonTerminal(ntname));
        assert(self@.pending =~= old(self)@.pending.push(SymbolView::NonTerminal(t)));
    }

    fn store_rule(&mut self) -> (r: Result<(), GrammarError>)
        requires
            old(self).wf(),
        ensures
            final(self).wf(),
            final(self)@ == commit(old(self)@),
            final(self).initial_name() == old(self).initial_name(),
            r is Err <==> old(self)@.pending.len() > 0 && !has_state(old(self)@.grammar, old(self)@.current),
            r matches Err(GrammarError::NoSuchState(n)) ==> n@ == old(self)@.current,
    {
        let mut rule: Vec<Symbol> = Vec::new();
        std::mem::swap(&mut rule, &mut self.temp_rule);
        assert(self@.pending =~= Seq::empty());
        if rule.len() > 0 {
            self.grammar.add_rule_to(&self.current_reading, rule)
        } else {
            Ok(())
        }
    }

    /// Reads `ch` among the alternatives.
    fn defs_char(&mut self, ch: char)
        requires
            old(self).wf(),
            old(self)@.mode == ParserState::Defs,
        ensures
            final(self).wf(),
            final(self)@ == defs_step(old(self)@, ch),
            final(self).initial_name() == old(self).initial_name(),
    {
        if ch == '|' || ch == '\n' {
            self.store_buffer_as_terminal();
            let _ = self.store_rule();
        } else if ch == '<' {
            self.store_buffer_as_terminal();
            self.read_state = ParserState::DefsNonTerminal;
        } else {
            self.buffer.push(ch);
        }
    }

    /// Reads one line of grammar text. Fails where the line leaves an
    /// alternative and no state has been declared to take it; that
    /// alternative is then dropped.
    pub fn parse_line(&mut self, line: String) -> (r: Result<(), GrammarError>)
        requires
            old(self).wf(),
        ensures
            final(self).wf(),
            final(self)@ == end_line(run(old(self)@, line@)),
            final(self).initial_name() == old(self).initial_name(),
            r is Err <==> end_fails(run(old(self)@, line@)),
            r matches Err(GrammarError::NoSuchState(n)) ==> n@ == run(old(self)@, line@).current,
    {
        let ghost p0 = self@;
        let s = line.as_str();
        let n = s.unicode_len();
        let mut i: usize = 0;
        while i < n
            invariant
                self.wf(),
                n == line@.len(),
                s@ == line@,
                i <= n,
                self@ == run(p0, line@.subrange(0, i as int)),
                self.initial_name() == old(self).initial_name(),
            decreases n - i,
        {
            let ch = s.get_char(i);
            let ghost before = self@;
            match self.read_state {
                ParserState::State => {
                    if ch == '<' {
                        self.read_state = ParserState::StateName;
                    }
                },
                ParserState::StateName => {
                    if ch != '>' && ch != ':' && ch != '=' {
                        self.buffer.push(ch);
                    } else {
                        self.read_state = ParserState::StoreState;
                    }
                },
                ParserState::StoreState => {
                    let state_name = self.take_buffer();
                    self.current_reading = state_name.clone();
                    self.grammar.create_state(state_name);
                    self.read_state = ParserState::Separator;
                },
                ParserState::Separator => {
                    if ch == ':' || ch == '=' || is_space(ch) {
                    } else {
                        self.read_state = ParserState::Defs;
                        self.defs_char(ch);
                    }
                },
                ParserState::Defs => {
                    self.defs_char(ch);
                },
                ParserState::DefsNonTerminal => {
                    if ch != '>' {
                        self.buffer.push(ch);
                    } else {
                        self.store_buffer_as_nonterminal();
                        self.read_state = ParserState::Defs;
                    }
                },
            }
            proof {
                let sub = line@.subrange(0, i + 1);
                assert(sub.drop_last() =~= line@.subrange(0, i as int));
                assert(sub.last() == ch);
                assert(self@ == step(before, ch));
            }
            i = i + 1;
        }
        assert(line@.subrange(0, n as int) =~= line@);
        self.store_buffer_as_terminal();
        let r = self.store_rule();
        self.read_state = ParserState::State;
        r
    }

    /// The grammar built so far.
    pub fn get_grammar(&self) -> (g: &Grammar)
        ensures
            g@ == self@.grammar,
            g.initial_name() == self.initial_name(),
            self.wf() ==> g.wf(),
    {
        &self.grammar
    }

    /// Ends the reading and hands over the grammar.
    pub fn finish(self) -> (g: Grammar)
        ensures
            g@ == self@.grammar,
            g.initial_name() == self.initial_name(),
            self.wf() ==> g.wf(),
    {
        self.grammar
    }
}

} // verus!

verus! {

/// The pieces of `s` between newlines (one more than there are newlines).
pub open spec fn split_lines(s: Seq<char>) -> Seq<Seq<char>>
    decreases s.len(),
{
    if s.len() == 0 {
        seq![Seq::empty()]
    } else {
        let rest = split_lines(s.drop_last());
        if s.last() == '\n' {
            rest.push(Seq::empty())
        } else {
            rest.update(rest.len() - 1, rest.last().push(s.last()))
        }
    }
}

/// A line that a newline ended, without a carriage return right before it.
pub open spec fn strip_cr(l: Seq<char>) -> Seq<char> {
    if l.len() > 0 && l.last() == '\r' {
        l.drop_last()
    } else {
        l
    }
}

/// The lines of `s`: cut at each newline, a carriage return before a newline
/// removed, and no empty line after a final newline.
pub open spec fn lines_of(s: Seq<char>) -> Seq<Seq<char>> {
    let p = split_lines(s);
    let ended = p.drop_last().map_values(|l: Seq<char>| strip_cr(l));
    if p.last().len() == 0 {
        ended
    } else {
        ended.push(p.last())
    }
}

/// The parser after reading the lines `ls`, unless one of them fails.
pub open spec fn read_lines(p: ParserView, ls: Seq<Seq<char>>) -> ParserView
    decreases ls.len(),
{
    if ls.len() == 0 {
        p
    } else {
        end_line(run(read_lines(p, ls.drop_last()), ls.last()))
    }
}

/// Some line of `ls` fails when read after those before it.
pub open spec fn some_line_fails(p: ParserView, ls: Seq<Seq<char>>) -> bool
    decreases ls.len(),
{
    if ls.len() == 0 {
        false
    } else {
        some_line_fails(p, ls.drop_last()) || end_fails(run(read_lines(p, ls.drop_last()), ls.last()))
    }
}

/// The state current when the first failing line of `ls` closes, if one fails.
pub open spec fn failure_name(p: ParserView, ls: Seq<Seq<char>>) -> Option<Seq<char>>
    decreases ls.len(),
{
    if ls.len() == 0 {
        None
    } else if failure_name(p, ls.drop_last()) is Some {
        failure_name(p, ls.drop_last())
    } else if end_fails(run(read_lines(p, ls.drop_last()), ls.last())) {
        Some(run(read_lines(p, ls.drop_last()), ls.last()).current)
    } else {
        None
    }
}

pub proof fn lemma_failure_name(p: ParserView, ls: Seq<Seq<char>>)
    ensures
        failure_name(p, ls) is Some <==> some_line_fails(p, ls),
    decreases ls.len(),
{
    if ls.len() > 0 {
        lemma_failure_name(p, ls.drop_last());
    }
}

impl GrammarParser {
    /// Reads one line and adds it to the lines read.
    fn read_one(&mut self, line: String, Ghost(p0): Ghost<ParserView>, Ghost(done): Ghost<Seq<Seq<char>>>) -> (r: Result<(), GrammarError>)
        requires
            old(self).wf(),
            old(self)@ == read_lines(p0, done),
        ensures
            final(self).wf(),
            final(self).initial_name() == old(self).initial_name(),
            final(self)@ == read_lines(p0, done.push(line@)),
            r is Err <==> end_fails(run(read_lines(p0, done), line@)),
            r matches Err(GrammarError::NoSuchState(n)) ==> n@ == run(read_lines(p0, done), line@).current,
            failure_name(p0, done.push(line@)) == if failure_name(p0, done) is Some {
                failure_name(p0, done)
            } else if r matches Err(GrammarError::NoSuchState(n)) {
                Some(run(read_lines(p0, done), line@).current)
            } else {
                None
            },
            some_line_fails(p0, done.push(line@)) == (some_line_fails(p0, done) || r is Err),
    {
        let ghost l = line@;
        let r = self.parse_line(line);
        assert(done.push(l).drop_last() =~= done);
        proof {
            lemma_failure_name(p0, done);
        }
        r
    }
}

impl Grammar {
    /// Reads a whole text, line by line, into a grammar. Fails where a line
    /// leaves an alternative with no state declared to take it; the error
    /// names the state of the first such line.
    pub fn from_source(source: &str) -> (r: Result<Grammar, GrammarError>)
        ensures
            r is Ok <==> !some_line_fails(GrammarParser::new_view(), lines_of(source@)),
            r matches Ok(g) ==> g.wf() && g.initial_name() == seq!['S']
                && g@ == read_lines(GrammarParser::new_view(), lines_of(source@)).grammar,
            r matches Err(GrammarError::NoSuchState(n)) ==> failure_name(GrammarParser::new_view(), lines_of(source@))
                == Some(n@),
    {
        let mut parser = GrammarParser::new();
        let ghost p0 = parser@;
        let n = source.unicode_len();
        let mut cur = String::new();
        let mut failure: Option<GrammarError> = None;
        let ghost mut done: Seq<Seq<char>> = Seq::empty();
        let mut i: usize = 0;
        assert(source@.subrange(0, 0) =~= Seq::<char>::empty());
        while i < n
            invariant
                parser.wf(),
                parser.initial_name() == seq!['S'],
                p0 == GrammarParser::new_view(),
                n == source@.len(),
                i <= n,
                split_lines(source@.subrange(0, i as int)) == done.map_values(|l: Seq<char>| l).push(cur@),
                parser@ == read_lines(p0, done.map_values(|l: Seq<char>| strip_cr(l))),
                failure is Some <==> some_line_fails(p0, done.map_values(|l: Seq<char>| strip_cr(l))),
                failure_name(p0, done.map_values(|l: Seq<char>| strip_cr(l))) == match failure {
                    Some(GrammarError::NoSuchState(n)) => Some(n@),
                    None => None,
                },
            decreases n - i,
        {
            let c = source.get_char(i);
            let ghost sub = source@.subrange(0, i + 1);
            assert(sub.drop_last() =~= source@.subrange(0, i as int));
            if c == '\n' {
                let ghost raw = cur@;
                let mut line = String::new();
                std::mem::swap(&mut line, &mut cur);
                let line = drop_cr(line);
                let ghost ended = done.map_values(|l: Seq<char>| strip_cr(l));
                let r = parser.read_one(line, Ghost(p0), Ghost(ended));
                proof {
                    assert(done.push(raw).map_values(|l: Seq<char>| strip_cr(l)) =~= ended.push(strip_cr(raw)));
                    assert(done.push(raw).map_values(|l: Seq<char>| l).push(Seq::<char>::empty())
                        =~= done.map_values(|l: Seq<char>| l).push(raw).push(Seq::<char>::empty()));
                    done = done.push(raw);
                }
                if failure.is_none() {
                    if let Err(e) = r {
                        failure = Some(e);
                    }
                }
                proof {
                    lemma_failure_name(p0, done.map_values(|l: Seq<char>| strip_cr(l)));
                }
            } else {
                cur.push(c);
                proof {
                    let pieces = done.map_values(|l: Seq<char>| l).push(cur@);
                    assert(split_lines(sub) =~= pieces);
                }
            }
            i = i + 1;
        }
        assert(source@.subrange(0, n as int) =~= source@);
        proof {
            assert(done.map_values(|l: Seq<char>| l).push(cur@).drop_last() =~= done);
        }
        if !cur.as_str().is_empty() {
            let ghost ended = done.map_values(|l: Seq<char>| strip_cr(l));
            let ghost last = cur@;
            let r = parser.read_one(cur, Ghost(p0), Ghost(ended));
            if failure.is_none() {
                if let Err(e) = r {
                    failure = Some(e);
                }
            }
            proof {
                lemma_failure_name(p0, ended.push(last));
            }
            proof {
                assert(lines_of(source@) =~= ended.push(last));
            }
        } else {
            proof {
                assert(lines_of(source@) =~= done.map_values(|l: Seq<char>| strip_cr(l)));
            }
        }
        match failure {
            Some(e) => Err(e),
            None => Ok(parser.finish()),
        }
    }
}

/// `line` without a carriage return at its end.
fn drop_cr(line: String) -> (r: String)
    ensures
        r@ == strip_cr(line@),
{
    let s = line.as_str();
    let n = s.unicode_len();
    if n > 0 && s.get_char(n - 1) == '\r' {
        crate::text::copy_range(s, 0, n - 1)
    } else {
        line
    }
}

} // verus!
