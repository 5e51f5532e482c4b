//! The stack-driven predictive parser with panic-mode error recovery.
//!
//! The parser owns the grammar, its parsing table and FOLLOW sets, and an
//! input symbol sequence. One `parse` call runs the canonical LL(1) loop:
//! match a terminal on the stack top against the lookahead, or expand a
//! non-terminal by the table cell for the lookahead. On a mismatch or a
//! missing cell, three recovery strategies are tried in a fixed order —
//! skipping input, popping the stack, and resynchronizing on a FOLLOW
//! member — under a global error budget. An error-free accepted parse is
//! proved sound: the consumed input is derivable from the start symbol.

use vstd::prelude::*;

use crate::error::Ll1Error;
use crate::error::ParseError;
use crate::first_follow::is_first_sets;
use crate::first_follow::is_follow_sets;
use crate::first_follow::first_seq;
use crate::grammar::Grammar;
use crate::grammar::GrammarV;
use crate::grammar::ProductionV;
use crate::grammar::grammar_wf;
use crate::grammar::contains_id;
use crate::language::derives;
use crate::language::derives_n;
use crate::language::lemma_derives_concat;
use crate::language::lemma_derives_first_step;
use crate::language::lemma_derives_first_subset;
use crate::language::lemma_derives_follow_sound;
use crate::language::lemma_derives_only_self;
use crate::language::lemma_derives_split;
use crate::language::lemma_derives_step;
use crate::language::lemma_first_seq_strip;
use crate::language::lemma_first_seq_terminal_string;
use crate::language::rev;
use crate::language::step_rewrites;
use crate::language::strip_epsilon;
use crate::language::terminal_string;
use crate::table::cell_claim;
use crate::table::table_matches;
use crate::symbols::SetTable;
use crate::symbols::Symbol;
use crate::table::ParsingTable;
use crate::table::built_from;

verus! {

/// The number of parse-time errors the recovery protocol may absorb over one
/// whole parse before the parse is aborted.
pub const MAX_ERRORS: usize = 10;

/// The flat part of the parse loop's step budget.
pub const STEP_BUDGET_BASE: u64 = 100000;

/// The per-input-symbol part of the parse loop's step budget.
pub const STEP_BUDGET_PER_SYMBOL: u64 = 100;

/// A predictive parser for one grammar. The fields are built once and then
/// treated as read-only by the parse loop; only the input is replaceable.
pub struct Parser {
    /// The grammar being parsed against.
    pub grammar: Grammar,
    /// The parsing table built from the grammar.
    pub parsing_table: ParsingTable,
    /// The input symbol sequence.
    pub input: Vec<Symbol>,
    /// The FOLLOW sets, kept for the resynchronization strategy.
    pub follow_sets: SetTable,
}

/// The stack top and the lookahead are aligned: a registered terminal on top
/// equals the lookahead, or a registered non-terminal on top has a table
/// cell for the lookahead. An empty stack, an exhausted input, or a marker
/// on top is never aligned.
pub open spec fn alignment_ok(
    g: GrammarV,
    tb: Map<(u64, Symbol), Seq<Symbol>>,
    input: Seq<Symbol>,
    stack: Seq<Symbol>,
    pos: int,
) -> bool {
    &&& stack.len() > 0
    &&& 0 <= pos < input.len()
    &&& (match stack.last() {
        Symbol::Terminal(tid) => g.terminals.contains(tid) && stack.last() == input[pos],
        Symbol::NonTerminal(n) => g.non_terminals.contains(n) && tb.contains_key((n, input[pos])),
        _ => false,
    })
}

/// The first input position at or after `from` aligned with the given stack.
pub open spec fn scan_align(
    g: GrammarV,
    tb: Map<(u64, Symbol), Seq<Symbol>>,
    input: Seq<Symbol>,
    stack: Seq<Symbol>,
    from: int,
) -> Option<int>
    decreases input.len() - from,
{
    if from < 0 || from >= input.len() {
        None
    } else if alignment_ok(g, tb, input, stack, from) {
        Some(from)
    } else {
        scan_align(g, tb, input, stack, from + 1)
    }
}

/// The longest prefix of the stack (a stack shrunk only from the top) that is
/// aligned with the fixed input position, if any.
pub open spec fn scan_pop(
    g: GrammarV,
    tb: Map<(u64, Symbol), Seq<Symbol>>,
    input: Seq<Symbol>,
    stack: Seq<Symbol>,
    pos: int,
) -> Option<Seq<Symbol>>
    decreases stack.len(),
{
    if stack.len() == 0 {
        None
    } else if alignment_ok(g, tb, input, stack, pos) {
        Some(stack)
    } else {
        scan_pop(g, tb, input, stack.drop_last(), pos)
    }
}

/// The synchronization tokens of the resynchronization strategy: the FOLLOW
/// set of the non-terminal on top of the stack, or nothing when the top is
/// no non-terminal with a FOLLOW entry.
pub open spec fn sync_tokens_of(f: Map<u64, Set<Symbol>>, stack: Seq<Symbol>) -> Set<Symbol> {
    if stack.len() > 0 {
        match stack.last() {
            Symbol::NonTerminal(n) => if f.contains_key(n) {
                f[n]
            } else {
                Set::empty()
            },
            _ => Set::empty(),
        }
    } else {
        Set::empty()
    }
}

/// The first input position at or after `from` holding a member of `toks`.
pub open spec fn scan_sync(input: Seq<Symbol>, toks: Set<Symbol>, from: int) -> Option<int>
    decreases input.len() - from,
{
    if from < 0 || from >= input.len() {
        None
    } else if toks.contains(input[from]) {
        Some(from)
    } else {
        scan_sync(input, toks, from + 1)
    }
}

/// The input is a word of the grammar's language: terminals only, each
/// registered, and derivable from the start symbol.
pub open spec fn language_input(g: GrammarV, w: Seq<Symbol>) -> bool {
    &&& forall|i: int|
        0 <= i < w.len() ==> (#[trigger] w[i]) is Terminal && g.terminals.contains(
            w[i]->Terminal_0,
        )
    &&& derives(g, seq![Symbol::NonTerminal(g.start_symbol)], w)
}

/// The completeness invariant of an error-free parse of a language word `w`:
/// the stack contents above the bottom marker derive exactly the unconsumed
/// part of the word — or the word and its end marker are fully consumed and
/// the stack is gone.
pub open spec fn complete_state(g: GrammarV, w: Seq<Symbol>, stack: Seq<Symbol>, pos: int) -> bool {
    ||| (stack.len() > 0 && 0 <= pos <= w.len() && derives(g, rev(stack.skip(1)), w.skip(pos)))
    ||| (stack.len() == 0 && pos == w.len() + 1)
}

/// Popping the stack top splits its content into the top and the rest.
proof fn lemma_content_pop(stack: Seq<Symbol>)
    requires
        stack.len() >= 2,
    ensures
        rev(stack.skip(1)).len() == stack.len() - 1,
        rev(stack.skip(1))[0] == stack.last(),
        rev(stack.skip(1)).drop_first() == rev(stack.drop_last().skip(1)),
        rev(stack.skip(1)) == seq![stack.last()] + rev(stack.drop_last().skip(1)),
{
    let c = rev(stack.skip(1));
    assert(c[0] == stack.skip(1)[stack.len() - 2]);
    assert(stack.skip(1)[stack.len() - 2] == stack[stack.len() - 1]);
    assert(c.drop_first() =~= rev(stack.drop_last().skip(1))) by {
        assert forall|q: int| 0 <= q < c.len() - 1
            implies #[trigger] c.drop_first()[q] == rev(stack.drop_last().skip(1))[q] by {
            assert(c.drop_first()[q] == c[q + 1]);
            assert(c[q + 1] == stack.skip(1)[stack.len() - 3 - q]);
            assert(stack.skip(1)[stack.len() - 3 - q] == stack[stack.len() - 2 - q]);
            assert(rev(stack.drop_last().skip(1))[q] == stack.drop_last().skip(1)[stack.len() - 3
                - q]);
            assert(stack.drop_last().skip(1)[stack.len() - 3 - q] == stack.drop_last()[stack.len()
                - 2 - q]);
            assert(stack.drop_last()[stack.len() - 2 - q] == stack[stack.len() - 2 - q]);
        }
    }
    assert(c =~= seq![stack.last()] + rev(stack.drop_last().skip(1)));
}

/// Pushing a reversed right-hand side above a popped stack top makes the
/// content the right-hand side followed by the remaining content.
proof fn lemma_content_push(stack: Seq<Symbol>, alpha: Seq<Symbol>)
    requires
        stack.len() >= 2,
    ensures
        rev((stack.drop_last() + rev(alpha)).skip(1)) == alpha + rev(stack.drop_last().skip(1)),
{
    let newstack = stack.drop_last() + rev(alpha);
    let lhs = rev(newstack.skip(1));
    let rhs = alpha + rev(stack.drop_last().skip(1));
    let ll = stack.len();
    let aa = alpha.len();
    assert(newstack.len() == ll - 1 + aa);
    assert(lhs.len() == ll + aa - 2);
    assert(rhs.len() == ll + aa - 2);
    assert forall|t: int| 0 <= t < lhs.len() implies #[trigger] lhs[t] == rhs[t] by {
        assert(lhs[t] == newstack.skip(1)[ll + aa - 3 - t]);
        assert(newstack.skip(1)[ll + aa - 3 - t] == newstack[ll + aa - 2 - t]);
        if t < aa {
            assert(newstack[ll + aa - 2 - t] == rev(alpha)[aa - 1 - t]);
            assert(rev(alpha)[aa - 1 - t] == alpha[t]);
            assert(rhs[t] == alpha[t]);
        } else {
            assert(newstack[ll + aa - 2 - t] == stack.drop_last()[ll + aa - 2 - t]);
            assert(rhs[t] == rev(stack.drop_last().skip(1))[t - aa]);
            assert(rev(stack.drop_last().skip(1))[t - aa] == stack.drop_last().skip(1)[ll - 3 - (t
                - aa)]);
            assert(stack.drop_last().skip(1)[ll - 3 - (t - aa)] == stack.drop_last()[ll - 2 - (t
                - aa)]);
        }
    }
    assert(lhs =~= rhs);
}

/// One step of the completeness argument, terminal on top: when the stack
/// content derives the unconsumed word, the word continues with exactly that
/// terminal, and after the match the rest of the content derives the rest of
/// the word.
proof fn lemma_complete_terminal(
    g: GrammarV,
    w: Seq<Symbol>,
    prestack: Seq<Symbol>,
    pos: int,
    t: Symbol,
)
    requires
        prestack.len() >= 2,
        prestack.last() == t,
        t is Terminal,
        0 <= pos <= w.len(),
        terminal_string(w),
        derives(g, rev(prestack.skip(1)), w.skip(pos)),
    ensures
        pos < w.len(),
        w[pos] == t,
        derives(g, rev(prestack.drop_last().skip(1)), w.skip(pos + 1)),
{
    lemma_content_pop(prestack);
    let content = rev(prestack.skip(1));
    let tail = rev(prestack.drop_last().skip(1));
    let rest = w.skip(pos);
    let nn = choose|nn: nat| derives_n(g, content, rest, nn);
    assert(derives_n(g, seq![t] + tail, rest, nn));
    lemma_derives_split(g, seq![t], tail, rest, nn);
    let (w1, w2, n1, n2): (Seq<Symbol>, Seq<Symbol>, nat, nat) = choose|
        w1: Seq<Symbol>,
        w2: Seq<Symbol>,
        n1: nat,
        n2: nat,
    |
        #![trigger derives_n(g, seq![t], w1, n1), derives_n(g, tail, w2, n2)]
        rest == w1 + w2 && n1 + n2 == nn && derives_n(g, seq![t], w1, n1) && derives_n(
            g,
            tail,
            w2,
            n2,
        );
    lemma_derives_only_self(g, seq![t], w1, n1);
    assert(w1 == seq![t]);
    assert(rest.len() >= 1);
    assert(rest[0] == t);
    assert(pos < w.len());
    assert(w[pos] == t);
    assert(w2 =~= w.skip(pos + 1)) by {
        assert forall|q: int| 0 <= q < w2.len() implies #[trigger] w2[q] == w.skip(pos + 1)[q] by {
            assert(w2[q] == rest[1 + q]);
            assert(rest[1 + q] == w[pos + 1 + q]);
        }
    }
    assert(derives(g, tail, w.skip(pos + 1))) by {
        assert(derives_n(g, tail, w.skip(pos + 1), n2));
    }
}

/// One step of the completeness argument, end marker on top: the stack has
/// shrunk to the bottom marker exactly when the whole word is consumed.
proof fn lemma_complete_end(g: GrammarV, w: Seq<Symbol>, prestack: Seq<Symbol>, pos: int)
    requires
        prestack.len() == 1,
        0 <= pos <= w.len(),
        derives(g, rev(prestack.skip(1)), w.skip(pos)),
    ensures
        pos == w.len(),
{
    let content = rev(prestack.skip(1));
    assert(content.len() == 0);
    let nn = choose|nn: nat| derives_n(g, content, w.skip(pos), nn);
    lemma_derives_only_self(g, content, w.skip(pos), nn);
    assert(w.skip(pos).len() == 0);
}

/// One step of the completeness argument, non-terminal on top: the table has
/// a cell for the lookahead, and the cell's right-hand side keeps the stack
/// content deriving the unconsumed word.
proof fn lemma_complete_expand(
    g: GrammarV,
    m: Map<u64, Set<Symbol>>,
    f: Map<u64, Set<Symbol>>,
    tb: Map<(u64, Symbol), Seq<Symbol>>,
    w: Seq<Symbol>,
    prestack: Seq<Symbol>,
    pos: int,
    nid: u64,
    c: Symbol,
)
    requires
        grammar_wf(g),
        is_first_sets(g, m),
        is_follow_sets(g, m, f),
        table_matches(g, m, f, tb),
        prestack.len() >= 2,
        prestack.last() == Symbol::NonTerminal(nid),
        0 <= pos <= w.len(),
        terminal_string(w),
        c == (if pos < w.len() {
            w[pos]
        } else {
            Symbol::End
        }),
        derives(g, rev(prestack.skip(1)), w.skip(pos)),
        derives(
            g,
            seq![Symbol::NonTerminal(g.start_symbol)],
            w.take(pos) + rev(prestack.skip(1)),
        ),
    ensures
        tb.contains_key((nid, c)),
        derives(g, strip_epsilon(tb[(nid, c)]) + rev(prestack.drop_last().skip(1)), w.skip(pos)),
{
    lemma_content_pop(prestack);
    let content = rev(prestack.skip(1));
    let tail = rev(prestack.drop_last().skip(1));
    let rest = w.skip(pos);
    let top = Symbol::NonTerminal(nid);
    let nn = choose|nn: nat| derives_n(g, content, rest, nn);
    assert(derives_n(g, seq![top] + tail, rest, nn));
    lemma_derives_split(g, seq![top], tail, rest, nn);
    let (w1, w2, n1, n2): (Seq<Symbol>, Seq<Symbol>, nat, nat) = choose|
        w1: Seq<Symbol>,
        w2: Seq<Symbol>,
        n1: nat,
        n2: nat,
    |
        #![trigger derives_n(g, seq![top], w1, n1), derives_n(g, tail, w2, n2)]
        rest == w1 + w2 && n1 + n2 == nn && derives_n(g, seq![top], w1, n1) && derives_n(
            g,
            tail,
            w2,
            n2,
        );
    assert(terminal_string(rest)) by {
        assert forall|q: int| 0 <= q < rest.len() implies (#[trigger] rest[q]) is Terminal by {
            assert(rest[q] == w[pos + q]);
        }
    }
    assert(terminal_string(w1)) by {
        assert forall|q: int| 0 <= q < w1.len() implies (#[trigger] w1[q]) is Terminal by {
            assert(w1[q] == rest[q]);
        }
    }
    assert(terminal_string(w2)) by {
        assert forall|q: int| 0 <= q < w2.len() implies (#[trigger] w2[q]) is Terminal by {
            assert(w2[q] == rest[w1.len() + q]);
        }
    }
    assert(n1 >= 1) by {
        if n1 == 0 {
            assert(w1 == seq![top]);
            assert(w1[0] is Terminal);
            assert(false);
        }
    }
    lemma_derives_first_step(g, seq![top], w1, n1);
    let mid0 = choose|mid0: Seq<Symbol>|
        #[trigger] step_rewrites(g, seq![top], mid0) && derives_n(g, mid0, w1, (n1 - 1) as nat);
    let (i0, p0): (int, ProductionV) = choose|i0: int, p0: ProductionV|
        #![trigger g.productions.contains(p0), seq![top][i0]]
        0 <= i0 < seq![top].len() && g.productions.contains(p0) && seq![top][i0]
            == Symbol::NonTerminal(p0.non_terminal) && mid0 == seq![top].take(i0) + strip_epsilon(
            p0.derivation,
        ) + seq![top].skip(i0 + 1);
    assert(i0 == 0);
    assert(p0.non_terminal == nid);
    assert(mid0 =~= strip_epsilon(p0.derivation)) by {
        assert(seq![top].take(0) =~= Seq::<Symbol>::empty());
        assert(seq![top].skip(1) =~= Seq::<Symbol>::empty());
    }
    assert(derives_n(g, strip_epsilon(p0.derivation), w1, (n1 - 1) as nat));
    let k0 = choose|k0: int| 0 <= k0 < g.productions.len() && g.productions[k0] == p0;
    lemma_derives_first_subset(g, m, strip_epsilon(p0.derivation), w1, (n1 - 1) as nat);
    lemma_first_seq_strip(m, p0.derivation);
    lemma_first_seq_terminal_string(m, w1);
    if w1.len() > 0 {
        assert(first_seq(m, p0.derivation).contains(w1[0]));
        assert(rest[0] == w1[0]);
        assert(rest.len() > 0);
        assert(pos < w.len());
        assert(w[pos] == rest[0]);
        assert(c == w1[0]);
        assert(c is Terminal);
        assert(first_seq(m, p0.derivation).remove(Symbol::Epsilon).contains(c));
        assert(cell_claim(g, m, f, nid, c, k0, false));
    } else {
        assert(first_seq(m, p0.derivation).contains(Symbol::Epsilon));
        assert(rest =~= w2);
        let form = w.take(pos) + content;
        let nf = choose|nf: nat|
            derives_n(g, seq![Symbol::NonTerminal(g.start_symbol)], form, nf);
        assert(form.len() == pos + content.len());
        assert(form[pos] == content[0]);
        assert(form[pos] == top);
        assert(form.skip(pos + 1) =~= tail) by {
            assert forall|q: int| 0 <= q < tail.len()
                implies #[trigger] form.skip(pos + 1)[q] == tail[q] by {
                assert(form.skip(pos + 1)[q] == form[pos + 1 + q]);
                assert(form[pos + 1 + q] == content[1 + q]);
                assert(content[1 + q] == content.drop_first()[q]);
            }
        }
        lemma_derives_follow_sound(g, m, f, form, nf, pos);
        assert(form[pos]->NonTerminal_0 == nid);
        lemma_derives_first_subset(g, m, tail, w2, n2);
        lemma_first_seq_terminal_string(m, w2);
        if w2.len() > 0 {
            assert(first_seq(m, tail).contains(w2[0]));
            assert(rest[0] == w2[0]);
            assert(pos < w.len());
            assert(w[pos] == rest[0]);
            assert(c == w2[0]);
            assert(c is Terminal);
            assert(first_seq(m, form.skip(pos + 1)).remove(Symbol::Epsilon).contains(c));
            assert(f[nid].contains(c));
            assert(cell_claim(g, m, f, nid, c, k0, true));
        } else {
            assert(rest.len() == 0);
            assert(pos == w.len());
            assert(c == Symbol::End);
            assert(first_seq(m, tail).contains(Symbol::Epsilon));
            assert(first_seq(m, form.skip(pos + 1)).contains(Symbol::Epsilon));
            assert(f[nid].contains(Symbol::End));
            assert(cell_claim(g, m, f, nid, c, k0, true));
        }
    }
    assert(tb.contains_key((nid, c)));
    assert(tb[(nid, c)] == g.productions[k0].derivation);
    assert(tb[(nid, c)] == p0.derivation);
    lemma_derives_concat(
        g,
        strip_epsilon(p0.derivation),
        w1,
        tail,
        w2,
        (n1 - 1) as nat,
        n2,
    );
    assert(derives(g, strip_epsilon(tb[(nid, c)]) + tail, rest)) by {
        assert(derives_n(
            g,
            strip_epsilon(p0.derivation) + tail,
            w1 + w2,
            ((n1 - 1) as nat) + n2,
        ));
    }
}

impl Parser {
    /// The parser invariant: the grammar is well formed, the table was built
    /// from it without conflict, and the FOLLOW sets are the grammar's own.
    pub open spec fn wf(self) -> bool {
        &&& self.grammar.wf()
        &&& self.grammar@.non_terminals.contains(self.grammar@.start_symbol)
        &&& self.parsing_table.inv()
        &&& self.follow_sets.inv()
        &&& self.follow_sets.keys@ == self.grammar.non_terminals@
        &&& built_from(self.grammar@, self.parsing_table.table@)
        &&& exists|m: Map<u64, Set<Symbol>>|
            (#[trigger] is_first_sets(self.grammar@, m)) && is_follow_sets(
                self.grammar@,
                m,
                self.follow_sets@,
            )
    }

    /// Creates a parser for a grammar: computes its FIRST and FOLLOW sets and
    /// builds the parsing table, failing exactly as table construction fails
    /// and passing its conflict-cell error through unchanged.
    pub fn new(grammar: Grammar) -> (r: Result<Parser, Ll1Error>)
        requires
            grammar.wf(),
            grammar@.non_terminals.contains(grammar@.start_symbol),
        ensures
            (match r {
                Ok(p) => p.wf() && p.grammar@ == grammar@ && p.input@ == Seq::<Symbol>::empty(),
                Err(e) => exists|m: Map<u64, Set<Symbol>>, f: Map<u64, Set<Symbol>>|
                    (#[trigger] is_first_sets(grammar@, m)) && (#[trigger] is_follow_sets(
                        grammar@,
                        m,
                        f,
                    )) && crate::table::table_conflict(grammar@, m, f)
                        && crate::table::conflict_cell_reported(grammar@, m, f, e),
            }),
    {
        let first_sets = grammar.compute_first_sets();
        let follow_sets = grammar.compute_follow_sets(&first_sets);
        match ParsingTable::build(&grammar) {
            Ok(parsing_table) => {
                let p = Parser { grammar, parsing_table, input: Vec::new(), follow_sets };
                proof {
                    assert(p.wf()) by {
                        assert(is_first_sets(p.grammar@, first_sets@) && is_follow_sets(
                            p.grammar@,
                            first_sets@,
                            p.follow_sets@,
                        ));
                    }
                }
                Ok(p)
            },
            Err(e) => Err(e),
        }
    }

    /// Replaces the input symbol sequence to be parsed.
    pub fn set_input(&mut self, input: Vec<Symbol>)
        ensures
            final(self).input@ == input@,
            final(self).grammar == old(self).grammar,
            final(self).parsing_table == old(self).parsing_table,
            final(self).follow_sets == old(self).follow_sets,
            old(self).wf() ==> final(self).wf(),
    {
        self.input = input;
    }

    /// Returns a copy of the current input symbol sequence.
    pub fn get_input(&self) -> (r: Vec<Symbol>)
        ensures
            r@ == self.input@,
    {
        let r = self.input.clone();
        proof {
            assert(r@ =~= self.input@);
        }
        r
    }

    /// Runs the predictive parse over the current input: repeatedly matches a
    /// terminal stack top against the lookahead or expands a non-terminal top
    /// by its table cell, recovering from mismatches and missing cells until
    /// the error budget runs out. On acceptance the count of recovered errors
    /// is returned.
    ///
    /// An error-free accepted parse is sound: the consumed input — the final
    /// input sequence without its trailing end marker — is derivable from the
    /// start symbol. It is also complete: a word of the grammar's language,
    /// terminated by at most one end marker, is accepted with no recovered
    /// error (the step budget aside). A parse is never rejected for a
    /// malformed stack symbol: the stack invariant makes that report
    /// unreachable.
    pub fn parse(&mut self) -> (r: Result<usize, ParseError>)
        requires
            old(self).wf(),
        ensures
            final(self).wf(),
            final(self).grammar == old(self).grammar,
            final(self).parsing_table == old(self).parsing_table,
            final(self).follow_sets == old(self).follow_sets,
            final(self).input@ == (if old(self).input@.len() > 0 && old(self).input@.last()
                == Symbol::End {
                old(self).input@
            } else {
                old(self).input@.push(Symbol::End)
            }),
            (match r {
                Ok(errors) => errors <= MAX_ERRORS,
                Err(_) => true,
            }),
            r != Err::<usize, ParseError>(ParseError::InvalidStackSymbol),
            r == Ok::<usize, ParseError>(0usize) ==> derives(
                old(self).grammar@,
                seq![Symbol::NonTerminal(old(self).grammar@.start_symbol)],
                without_trailing_end(final(self).input@),
            ),
            ({
                &&& language_input(
                    old(self).grammar@,
                    without_trailing_end(final(self).input@),
                )
                &&& final(self).input@ == without_trailing_end(final(self).input@).push(
                    Symbol::End,
                )
                &&& r != Err::<usize, ParseError>(ParseError::StepBudgetExhausted)
            }) ==> r == Ok::<usize, ParseError>(0usize),
    {
        let ghost g = self.grammar@;
        let ghost tb = self.parsing_table.table@;
        let ghost (m, f): (Map<u64, Set<Symbol>>, Map<u64, Set<Symbol>>) = choose|
            m: Map<u64, Set<Symbol>>,
            f: Map<u64, Set<Symbol>>,
        |
            (#[trigger] is_first_sets(g, m)) && (#[trigger] is_follow_sets(g, m, f))
                && !crate::table::table_conflict(g, m, f) && crate::table::table_matches(
                g,
                m,
                f,
                tb,
            );
        let len0 = self.input.len();
        let needs_end = len0 == 0 || !matches!(self.input[len0 - 1], Symbol::End);
        if needs_end {
            self.input.push(Symbol::End);
        }
        let ghost inp = self.input@;
        proof {
            if !needs_end {
                assert(inp =~= old(self).input@);
            }
            assert(inp[inp.len() - 1] == Symbol::End);
        }
        let n = self.input.len();
        let mut stack: Vec<Symbol> = Vec::new();
        stack.push(Symbol::End);
        stack.push(Symbol::NonTerminal(self.grammar.start_symbol));
        let mut pos: usize = 0;
        let mut errs: usize = 0;
        let mut fuel: u64 = if self.input.len() < 100000000 {
            STEP_BUDGET_BASE + STEP_BUDGET_PER_SYMBOL * (self.input.len() as u64)
        } else {
            u64::MAX
        };
        let ghost wword = without_trailing_end(inp);
        let ghost comp = language_input(g, wword) && inp == wword.push(Symbol::End);
        proof {
            assert(stack@ =~= seq![Symbol::End, Symbol::NonTerminal(g.start_symbol)]);
            assert(clean_state(g, inp, stack@, 0)) by {
                assert(parse_form(inp, 0, stack@) =~= seq![
                    Symbol::NonTerminal(g.start_symbol),
                ]);
                assert(derives_n(
                    g,
                    seq![Symbol::NonTerminal(g.start_symbol)],
                    parse_form(inp, 0, stack@),
                    0,
                ));
            }
            if comp {
                assert(rev(stack@.skip(1)) =~= seq![Symbol::NonTerminal(g.start_symbol)]);
                assert(wword.skip(0) =~= wword);
                assert(complete_state(g, wword, stack@, 0));
            }
        }
        while stack.len() > 0 && pos < n
            invariant
                self.wf(),
                self.grammar == old(self).grammar,
                self.parsing_table == old(self).parsing_table,
                self.follow_sets == old(self).follow_sets,
                inp == (if old(self).input@.len() > 0 && old(self).input@.last() == Symbol::End {
                    old(self).input@
                } else {
                    old(self).input@.push(Symbol::End)
                }),
                g == self.grammar@,
                tb == self.parsing_table.table@,
                inp == self.input@,
                is_first_sets(g, m),
                is_follow_sets(g, m, f),
                table_matches(g, m, f, tb),
                n == inp.len(),
                n >= 1,
                inp[n - 1] == Symbol::End,
                stack_wf(g, stack@),
                pos <= n,
                errs <= MAX_ERRORS,
                errs == 0 ==> clean_state(g, inp, stack@, pos as int),
                wword == without_trailing_end(inp),
                comp == (language_input(g, wword) && inp == wword.push(Symbol::End)),
                comp ==> errs == 0 && complete_state(g, wword, stack@, pos as int),
            decreases fuel,
        {
            if fuel == 0 {
                return Err(ParseError::StepBudgetExhausted);
            }
            fuel = fuel - 1;
            if errs >= MAX_ERRORS {
                return Err(ParseError::TooManyErrors);
            }
            let current = self.input[pos];
            let ghost prestack = stack@;
            let top = match stack.pop() {
                Some(t) => t,
                None => {
                    proof {
                        assert(false);
                    }
                    unreached()
                },
            };
            proof {
                assert(top == prestack.last());
                assert(stack@ == prestack.drop_last());
            }
            match top {
                Symbol::Terminal(tid) => {
                    proof {
                        assert(prestack[prestack.len() - 1] == top);
                        assert(prestack.len() >= 2) by {
                            if prestack.len() == 1 {
                                assert(prestack[0] == Symbol::End);
                            }
                        }
                        assert(crate::grammar::symbol_registered(g, top));
                        if comp {
                            lemma_complete_terminal(g, wword, prestack, pos as int, top);
                            assert(inp[pos as int] == wword[pos as int]);
                            assert(current == top);
                        }
                    }
                    if contains_id(&self.grammar.terminals, tid) {
                        if top == current {
                            proof {
                                if errs == 0 {
                                    lemma_form_match(inp, pos as int, prestack);
                                    assert forall|i: int| 0 <= i < pos + 1
                                        implies (#[trigger] inp[i]).spec_is_terminal() by {
                                        if i == pos {
                                            assert(inp[i] == top);
                                        }
                                    }
                                }
                                if comp {
                                    assert(complete_state(g, wword, stack@, pos + 1));
                                }
                            }
                            pos = pos + 1;
                        } else {
                            errs = errs + 1;
                            stack.push(top);
                            proof {
                                assert(stack@ =~= prestack);
                            }
                            let ok = self.recover(&mut stack, &mut pos);
                            proof {
                                lemma_stack_wf_prefix(g, stack@, prestack);
                            }
                            if !ok {
                                return Err(ParseError::UnableToRecover);
                            }
                        }
                    } else {
                        proof {
                            assert(false);
                        }
                        return Err(ParseError::InvalidStackSymbol);
                    }
                },
                Symbol::End => {
                    proof {
                        assert(prestack[prestack.len() - 1] == top);
                        assert(prestack.len() == 1) by {
                            if prestack.len() >= 2 {
                                assert(crate::grammar::symbol_registered(
                                    g,
                                    prestack[prestack.len() - 1],
                                ));
                            }
                        }
                        if comp {
                            lemma_complete_end(g, wword, prestack, pos as int);
                            assert(inp[pos as int] == Symbol::End);
                            assert(current == top);
                        }
                    }
                    if top == current {
                        proof {
                            if errs == 0 {
                                assert(parse_form(inp, pos as int, prestack) =~= inp.take(
                                    pos as int,
                                ));
                                assert(inp[pos as int] == Symbol::End);
                            }
                            if comp {
                                assert(stack@.len() == 0);
                                assert(complete_state(g, wword, stack@, pos + 1));
                            }
                        }
                        pos = pos + 1;
                    } else {
                        errs = errs + 1;
                        stack.push(top);
                        proof {
                            assert(stack@ =~= prestack);
                        }
                        let ok = self.recover(&mut stack, &mut pos);
                        proof {
                            lemma_stack_wf_prefix(g, stack@, prestack);
                        }
                        if !ok {
                            return Err(ParseError::UnableToRecover);
                        }
                    }
                },
                Symbol::NonTerminal(nid) => {
                    proof {
                        assert(prestack[prestack.len() - 1] == top);
                        assert(prestack.len() >= 2) by {
                            if prestack.len() == 1 {
                                assert(prestack[0] == Symbol::End);
                            }
                        }
                        assert(crate::grammar::symbol_registered(g, top));
                        if comp {
                            assert(current == (if (pos as int) < wword.len() {
                                wword[pos as int]
                            } else {
                                Symbol::End
                            })) by {
                                if (pos as int) < wword.len() {
                                    assert(inp[pos as int] == wword[pos as int]);
                                } else {
                                    assert(pos == wword.len());
                                    assert(inp[pos as int] == Symbol::End);
                                }
                            }
                            assert(parse_form(inp, pos as int, prestack) =~= wword.take(
                                pos as int,
                            ) + rev(prestack.skip(1))) by {
                                assert(inp.take(pos as int) =~= wword.take(pos as int));
                            }
                            lemma_complete_expand(
                                g, m, f, tb, wword, prestack, pos as int, nid, current,
                            );
                        }
                    }
                    if contains_id(&self.grammar.non_terminals, nid) {
                        match self.parsing_table.table.get(nid, current) {
                            Some(rhs) => {
                                let ghost (kk, b): (int, bool) = choose|kk: int, b: bool|
                                    crate::table::cell_claim(g, m, f, nid, current, kk, b);
                                let ghost pv = g.productions[kk];
                                proof {
                                    assert(tb.contains_key((nid, current)));
                                    assert(crate::table::cell_claim(g, m, f, nid, current, kk, b));
                                    assert(pv.non_terminal == nid);
                                    assert(rhs@ == pv.derivation);
                                    assert(g.productions.contains(pv));
                                    assert(crate::grammar::production_wf(g, pv));
                                }
                                let ghost base = stack@;
                                let is_eps_only = rhs.len() == 1 && matches!(
                                    rhs[0],
                                    Symbol::Epsilon,
                                );
                                if !is_eps_only {
                                    proof {
                                        assert forall|i2: int| 0 <= i2 < rhs@.len()
                                            implies rhs@[i2] != Symbol::Epsilon by {
                                            if rhs@[i2] == Symbol::Epsilon {
                                                assert(rhs@.contains(Symbol::Epsilon));
                                            }
                                        }
                                        assert(strip_epsilon(pv.derivation) == pv.derivation);
                                        assert(stack@ =~= base + rev(rhs@.skip(rhs@.len() as int)));
                                    }
                                    let mut idx = rhs.len();
                                    while idx > 0
                                        invariant
                                            rhs@ == pv.derivation,
                                            0 <= idx <= rhs@.len(),
                                            forall|i2: int|
                                                0 <= i2 < rhs@.len() ==> rhs@[i2]
                                                    != Symbol::Epsilon,
                                            stack@ == base + rev(rhs@.skip(idx as int)),
                                        decreases idx,
                                    {
                                        idx = idx - 1;
                                        stack.push(rhs[idx]);
                                        proof {
                                            let pre = base + rev(rhs@.skip(idx + 1));
                                            assert(stack@ =~= base + rev(rhs@.skip(idx as int)))
                                                by {
                                                assert(stack@ == pre.push(rhs@[idx as int]));
                                                let tail = rev(rhs@.skip(idx as int));
                                                assert(tail.len() == rhs@.len() - idx);
                                                assert forall|q: int| 0 <= q < tail.len()
                                                    implies tail[q] == stack@[base.len() + q] by {
                                                    assert(tail[q] == rhs@.skip(idx as int)[
                                                        rhs@.len() - idx - 1 - q
                                                    ]);
                                                    assert(rhs@.skip(idx as int)[rhs@.len() - idx
                                                        - 1 - q] == rhs@[rhs@.len() - 1 - q]);
                                                    if q < tail.len() - 1 {
                                                        assert(stack@[base.len() + q] == pre[
                                                            base.len() + q
                                                        ]);
                                                        assert(pre[base.len() + q] == rev(
                                                            rhs@.skip(idx + 1),
                                                        )[q]);
                                                        assert(rev(rhs@.skip(idx + 1))[q]
                                                            == rhs@.skip(idx + 1)[rhs@.len() - idx
                                                            - 2 - q]);
                                                        assert(rhs@.skip(idx + 1)[rhs@.len() - idx
                                                            - 2 - q] == rhs@[rhs@.len() - 1 - q]);
                                                    } else {
                                                        assert(stack@[base.len() + q] == rhs@[
                                                            idx as int
                                                        ]);
                                                    }
                                                }
                                            }
                                        }
                                    }
                                    proof {
                                        assert(rhs@.skip(0) =~= rhs@);
                                    }
                                } else {
                                    proof {
                                        assert(strip_epsilon(pv.derivation)
                                            =~= Seq::<Symbol>::empty());
                                        assert(stack@ =~= base + rev(strip_epsilon(pv.derivation)));
                                    }
                                }
                                proof {
                                    assert(stack@ == prestack.drop_last() + rev(
                                        strip_epsilon(pv.derivation),
                                    ));
                                    assert(stack_wf(g, stack@)) by {
                                        let alpha = strip_epsilon(pv.derivation);
                                        assert forall|i: int| 1 <= i < stack@.len()
                                            implies crate::grammar::symbol_registered(
                                                g,
                                                #[trigger] stack@[i],
                                            ) && stack@[i] != Symbol::Epsilon by {
                                            if i < prestack.len() - 1 {
                                                assert(stack@[i] == prestack[i]);
                                            } else {
                                                let q = i - (prestack.len() - 1);
                                                assert(stack@[i] == rev(alpha)[q]);
                                                assert(rev(alpha)[q] == alpha[alpha.len() - 1 - q]);
                                                assert(alpha[alpha.len() - 1 - q] == pv.derivation[
                                                    alpha.len() - 1 - q
                                                ]);
                                            }
                                        }
                                        assert(stack@[0] == prestack[0]);
                                    }
                                    if errs == 0 {
                                        lemma_form_expand(g, inp, pos as int, prestack, pv);
                                    }
                                    assert(stack@.len() > 0) by {
                                        assert(stack@[0] == prestack[0]);
                                    }
                                    if comp {
                                        lemma_content_push(
                                            prestack,
                                            strip_epsilon(pv.derivation),
                                        );
                                        lemma_content_pop(prestack);
                                        assert(pv.derivation == tb[(nid, current)]);
                                        assert(rev(stack@.skip(1)) == strip_epsilon(
                                            tb[(nid, current)],
                                        ) + rev(prestack.drop_last().skip(1)));
                                        assert(complete_state(g, wword, stack@, pos as int));
                                    }
                                }
                            },
                            None => {
                                errs = errs + 1;
                                stack.push(top);
                                proof {
                                    assert(stack@ =~= prestack);
                                }
                                let ok = self.recover(&mut stack, &mut pos);
                                proof {
                                    lemma_stack_wf_prefix(g, stack@, prestack);
                                }
                                if !ok {
                                    return Err(ParseError::UnableToRecover);
                                }
                            },
                        }
                    } else {
                        proof {
                            assert(false);
                        }
                        return Err(ParseError::InvalidStackSymbol);
                    }
                },
                Symbol::Epsilon => {
                    proof {
                        assert(prestack[prestack.len() - 1] == top);
                        if prestack.len() == 1 {
                            assert(prestack[0] == Symbol::End);
                        } else {
                            assert(prestack[prestack.len() - 1] != Symbol::Epsilon);
                        }
                        assert(false);
                    }
                    return Err(ParseError::InvalidStackSymbol);
                },
            }
        }
        let accept_pos = pos == n || (pos + 1 == n && matches!(self.input[pos], Symbol::End));
        let accept_stack = stack.len() == 0 || (stack.len() == 1 && matches!(
            stack[0],
            Symbol::End,
        ));
        if accept_pos && accept_stack {
            proof {
                if errs == 0 {
                    if stack@.len() == 0 {
                        assert forall|i: int| 0 <= i < pos - 1
                            implies (#[trigger] inp[i]) != Symbol::End by {
                            assert(inp[i].spec_is_terminal());
                        }
                        assert forall|i: int| pos - 1 <= i < inp.len()
                            implies (#[trigger] inp[i]) == Symbol::End by {
                            if i == pos - 1 {
                            } else {
                                assert(i == pos && pos + 1 == n);
                            }
                        }
                        lemma_without_trailing_end(inp, pos - 1);
                    } else {
                        assert(stack@.len() == 1 && stack@[0] == Symbol::End);
                        assert(pos + 1 == n && inp[pos as int] == Symbol::End) by {
                            if pos == n {
                                assert(inp[n - 1].spec_is_terminal());
                            }
                        }
                        assert forall|i: int| 0 <= i < pos
                            implies (#[trigger] inp[i]) != Symbol::End by {
                            assert(inp[i].spec_is_terminal());
                        }
                        assert forall|i: int| pos <= i < inp.len()
                            implies (#[trigger] inp[i]) == Symbol::End by {
                            assert(i == pos);
                        }
                        lemma_without_trailing_end(inp, pos as int);
                        assert(parse_form(inp, pos as int, stack@) =~= inp.take(pos as int));
                    }
                }
            }
            Ok(errs)
        } else {
            Err(ParseError::IncompleteParse)
        }
    }

    /// Decides whether the given stack and input position are aligned.
    fn validate_alignment(&self, stack: &Vec<Symbol>, input_pos: usize) -> (r: bool)
        requires
            self.parsing_table.inv(),
        ensures
            r == alignment_ok(
                self.grammar@,
                self.parsing_table.table@,
                self.input@,
                stack@,
                input_pos as int,
            ),
    {
        if stack.len() == 0 || input_pos >= self.input.len() {
            return false;
        }
        let top = stack[stack.len() - 1];
        let current = self.input[input_pos];
        proof {
            assert(stack@.last() == top);
        }
        match top {
            Symbol::Terminal(tid) => {
                contains_id(&self.grammar.terminals, tid) && top == current
            },
            Symbol::NonTerminal(n) => {
                contains_id(&self.grammar.non_terminals, n) && self.parsing_table.table.contains_key(
                    n,
                    current,
                )
            },
            _ => false,
        }
    }

    /// Attempts panic-mode recovery with the failing symbol restored on top:
    /// in order, skip input to a realigned position, pop the stack to a
    /// realigned prefix, or skip input to a member of the stack top's FOLLOW
    /// set and pop the top. Alignment is re-validated before success; on
    /// failure, the input cursor is restored (a pop by the third strategy is
    /// kept, as the cursor alone is rolled back).
    fn recover(&self, stack: &mut Vec<Symbol>, input_pos: &mut usize) -> (r: bool)
        requires
            self.parsing_table.inv(),
            self.follow_sets.inv(),
            *old(input_pos) <= self.input@.len(),
        ensures
            ({
                let g = self.grammar@;
                let tb = self.parsing_table.table@;
                let input = self.input@;
                let s0 = old(stack)@;
                let p0 = *old(input_pos) as int;
                let al = scan_align(g, tb, input, s0, p0);
                let pp = scan_pop(g, tb, input, s0, p0);
                let sy = scan_sync(input, sync_tokens_of(self.follow_sets@, s0), p0);
                if al is Some {
                    r && final(stack)@ == s0 && *final(input_pos) == al->Some_0
                } else if pp is Some {
                    r && final(stack)@ == pp->Some_0 && *final(input_pos) == p0
                } else if sy is Some {
                    final(stack)@ == s0.drop_last() && (if alignment_ok(
                        g,
                        tb,
                        input,
                        s0.drop_last(),
                        sy->Some_0,
                    ) {
                        r && *final(input_pos) == sy->Some_0
                    } else {
                        !r && *final(input_pos) == p0
                    })
                } else {
                    !r && final(stack)@ == s0 && *final(input_pos) == p0
                }
            }),
            final(stack)@.is_prefix_of(old(stack)@),
            *final(input_pos) <= self.input@.len(),
            r ==> alignment_ok(
                self.grammar@,
                self.parsing_table.table@,
                self.input@,
                final(stack)@,
                *final(input_pos) as int,
            ),
    {
        let ghost g = self.grammar@;
        let ghost tb = self.parsing_table.table@;
        let ghost input = self.input@;
        let ghost s0 = stack@;
        let original_pos: usize = *input_pos;
        let ghost p0 = original_pos as int;
        let n = self.input.len();

        // Strategy 1: skip input until a synchronizing position.
        let mut temp_pos: usize = original_pos;
        while temp_pos < n
            invariant_except_break
                self.parsing_table.inv(),
                g == self.grammar@,
                tb == self.parsing_table.table@,
                input == self.input@,
                s0 == stack@,
                n == self.input@.len(),
                p0 <= temp_pos <= n,
                scan_align(g, tb, input, s0, p0) == scan_align(g, tb, input, s0, temp_pos as int),
            ensures
                self.parsing_table.inv(),
                s0 == stack@,
                (match scan_align(g, tb, input, s0, p0) {
                    Some(q) => temp_pos < n && q == temp_pos as int && alignment_ok(
                        g,
                        tb,
                        input,
                        s0,
                        temp_pos as int,
                    ),
                    None => temp_pos == n,
                }),
            decreases n - temp_pos,
        {
            if self.validate_alignment(stack, temp_pos) {
                break;
            }
            temp_pos = temp_pos + 1;
        }
        if temp_pos < n {
            *input_pos = temp_pos;
            proof {
                assert(stack@.is_prefix_of(s0)) by {
                    assert(stack@ =~= s0.subrange(0, stack@.len() as int));
                }
            }
            return true;
        }

        // Strategy 2: pop stack symbols until alignment.
        let mut temp_stack = clone_symbols(stack);
        let mut popped: bool = false;
        while temp_stack.len() > 0
            invariant_except_break
                self.parsing_table.inv(),
                g == self.grammar@,
                tb == self.parsing_table.table@,
                input == self.input@,
                s0 == stack@,
                original_pos == *input_pos,
                p0 == original_pos as int,
                temp_stack@.is_prefix_of(s0),
                scan_pop(g, tb, input, s0, p0) == scan_pop(g, tb, input, temp_stack@, p0),
            ensures
                self.parsing_table.inv(),
                s0 == stack@,
                original_pos == *input_pos,
                (match scan_pop(g, tb, input, s0, p0) {
                    Some(st) => temp_stack@.len() > 0 && st == temp_stack@ && alignment_ok(
                        g,
                        tb,
                        input,
                        temp_stack@,
                        p0,
                    ),
                    None => temp_stack@.len() == 0,
                }),
                temp_stack@.is_prefix_of(s0),
            decreases temp_stack@.len(),
        {
            if self.validate_alignment(&temp_stack, original_pos) {
                break;
            }
            let _ = temp_stack.pop();
            proof {
                assert(temp_stack@.is_prefix_of(s0));
            }
        }
        if temp_stack.len() > 0 {
            *stack = temp_stack;
            return true;
        }

        // Strategy 3: skip input to a member of the stack top's FOLLOW set,
        // then pop the offending top.
        let mut found_sync = false;
        let mut sync_pos: usize = 0;
        if stack.len() > 0 {
            let top = stack[stack.len() - 1];
            proof {
                assert(stack@.last() == top);
            }
            if let Symbol::NonTerminal(nid) = top {
                if self.follow_sets.contains_key(nid) {
                    let widx = self.follow_sets.index_for(nid);
                    let wset = &self.follow_sets.sets[widx];
                    let ghost toks = sync_tokens_of(self.follow_sets@, s0);
                    proof {
                        assert(wset@ == toks);
                    }
                    let mut temp_pos2: usize = original_pos;
                    while temp_pos2 < n
                        invariant_except_break
                            self.follow_sets.inv(),
                            input == self.input@,
                            n == self.input@.len(),
                            wset == &self.follow_sets.sets[widx as int],
                            widx < self.follow_sets.sets@.len(),
                            wset@ == toks,
                            p0 <= temp_pos2 <= n,
                            scan_sync(input, toks, p0) == scan_sync(input, toks, temp_pos2 as int),
                        ensures
                            (match scan_sync(input, toks, p0) {
                                Some(q) => temp_pos2 < n && q == temp_pos2 as int,
                                None => temp_pos2 == n,
                            }),
                        decreases n - temp_pos2,
                    {
                        if wset.contains(self.input[temp_pos2]) {
                            break;
                        }
                        temp_pos2 = temp_pos2 + 1;
                    }
                    if temp_pos2 < n {
                        found_sync = true;
                        sync_pos = temp_pos2;
                    }
                } else {
                    proof {
                        lemma_scan_sync_empty(input, p0);
                        assert(sync_tokens_of(self.follow_sets@, s0) =~= Set::<Symbol>::empty());
                    }
                }
            } else {
                proof {
                    lemma_scan_sync_empty(input, p0);
                    assert(sync_tokens_of(self.follow_sets@, s0) =~= Set::<Symbol>::empty());
                }
            }
        } else {
            proof {
                lemma_scan_sync_empty(input, p0);
                assert(sync_tokens_of(self.follow_sets@, s0) =~= Set::<Symbol>::empty());
            }
        }
        if found_sync {
            let _ = stack.pop();
            *input_pos = sync_pos;
            if self.validate_alignment(stack, *input_pos) {
                return true;
            }
            *input_pos = original_pos;
            return false;
        }
        proof {
            assert(stack@.is_prefix_of(s0)) by {
                assert(stack@ =~= s0.subrange(0, stack@.len() as int));
            }
        }
        false
    }
}

/// The sentential form a parse state stands for: the consumed input followed
/// by the stack contents above the bottom marker, read top first.
pub open spec fn parse_form(input: Seq<Symbol>, pos: int, stack: Seq<Symbol>) -> Seq<Symbol> {
    input.take(pos) + rev(stack.skip(1))
}

/// The parse stack is well shaped: the end marker sits at the bottom and
/// nowhere else, and everything above it is a registered terminal or
/// non-terminal.
pub open spec fn stack_wf(g: GrammarV, stack: Seq<Symbol>) -> bool {
    &&& (stack.len() > 0 ==> stack[0] == Symbol::End)
    &&& forall|i: int|
        1 <= i < stack.len() ==> crate::grammar::symbol_registered(g, #[trigger] stack[i])
            && stack[i] != Symbol::Epsilon
}

/// A prefix of a well-shaped stack is well shaped.
proof fn lemma_stack_wf_prefix(g: GrammarV, s1: Seq<Symbol>, s2: Seq<Symbol>)
    requires
        stack_wf(g, s2),
        s1.is_prefix_of(s2),
    ensures
        stack_wf(g, s1),
{
    assert forall|i: int| 0 <= i < s1.len() implies s1[i] == s2[i] by {
        assert(s1[i] == s2.subrange(0, s1.len() as int)[i]);
    }
}

/// The error-free portion of the parse-loop invariant: while no error has
/// arisen, the consumed input is all terminals and the current sentential
/// form is derivable from the start symbol; once the stack has emptied, the
/// end marker was just consumed and everything before it is derivable.
pub open spec fn clean_state(g: GrammarV, input: Seq<Symbol>, stack: Seq<Symbol>, pos: int) -> bool {
    &&& 0 <= pos <= input.len()
    &&& (stack.len() > 0 ==> (forall|i: int|
        0 <= i < pos ==> (#[trigger] input[i]).spec_is_terminal()) && derives(
        g,
        seq![Symbol::NonTerminal(g.start_symbol)],
        parse_form(input, pos, stack),
    ))
    &&& (stack.len() == 0 ==> pos >= 1 && input[pos - 1] == Symbol::End && (forall|i: int|
        0 <= i < pos - 1 ==> (#[trigger] input[i]).spec_is_terminal()) && derives(
        g,
        seq![Symbol::NonTerminal(g.start_symbol)],
        input.take(pos - 1),
    ))
}

/// The input with every trailing end marker removed.
pub open spec fn without_trailing_end(s: Seq<Symbol>) -> Seq<Symbol>
    decreases s.len(),
{
    if s.len() > 0 && s.last() == Symbol::End {
        without_trailing_end(s.drop_last())
    } else {
        s
    }
}

/// A sequence that is all non-markers up to `k` and all end markers after
/// loses exactly the markers when the trailing end markers are removed.
proof fn lemma_without_trailing_end(s: Seq<Symbol>, k: int)
    requires
        0 <= k <= s.len(),
        forall|i: int| 0 <= i < k ==> (#[trigger] s[i]) != Symbol::End,
        forall|i: int| k <= i < s.len() ==> (#[trigger] s[i]) == Symbol::End,
    ensures
        without_trailing_end(s) == s.take(k),
    decreases s.len(),
{
    if s.len() > k {
        assert(s.last() == Symbol::End);
        let d = s.drop_last();
        assert forall|i: int| 0 <= i < k implies (#[trigger] d[i]) != Symbol::End by {
            assert(d[i] == s[i]);
        }
        assert forall|i: int| k <= i < d.len() implies (#[trigger] d[i]) == Symbol::End by {
            assert(d[i] == s[i]);
        }
        lemma_without_trailing_end(d, k);
        assert(d.take(k) =~= s.take(k));
    } else {
        if s.len() > 0 {
            assert(s.last() != Symbol::End);
        }
        assert(s.take(k) =~= s);
    }
}

/// Matching the stack-top terminal against the lookahead leaves the
/// sentential form unchanged.
proof fn lemma_form_match(input: Seq<Symbol>, pos: int, stack: Seq<Symbol>)
    requires
        0 <= pos < input.len(),
        stack.len() >= 2,
        stack.last() == input[pos],
    ensures
        parse_form(input, pos, stack) == parse_form(input, pos + 1, stack.drop_last()),
{
    let f1 = parse_form(input, pos, stack);
    let f2 = parse_form(input, pos + 1, stack.drop_last());
    assert forall|idx: int| 0 <= idx < f1.len() implies f1[idx] == f2[idx] by {
        if idx < pos {
        } else if idx == pos {
            assert(f1[idx] == rev(stack.skip(1))[0]);
            assert(rev(stack.skip(1))[0] == stack.skip(1)[stack.len() - 2]);
            assert(stack.skip(1)[stack.len() - 2] == stack[stack.len() - 1]);
            assert(f2[idx] == input[pos]);
        } else {
            assert(f1[idx] == rev(stack.skip(1))[idx - pos]);
            assert(rev(stack.skip(1))[idx - pos] == stack.skip(1)[stack.len() - 2 - (idx - pos)]);
            assert(stack.skip(1)[stack.len() - 2 - (idx - pos)] == stack[stack.len() - 1 - (idx
                - pos)]);
            assert(f2[idx] == rev(stack.drop_last().skip(1))[idx - pos - 1]);
            assert(rev(stack.drop_last().skip(1))[idx - pos - 1] == stack.drop_last().skip(1)[
                stack.len() - 2 - 1 - (idx - pos - 1)
            ]);
            assert(stack.drop_last().skip(1)[stack.len() - 3 - (idx - pos - 1)] == stack[stack.len()
                - 1 - (idx - pos)]);
        }
    }
    assert(f1 =~= f2);
}

/// Expanding the stack-top non-terminal by one of its productions performs
/// exactly one rewrite step on the sentential form.
proof fn lemma_form_expand(
    g: GrammarV,
    input: Seq<Symbol>,
    pos: int,
    stack: Seq<Symbol>,
    p: crate::grammar::ProductionV,
)
    requires
        0 <= pos <= input.len(),
        stack.len() >= 2,
        stack.last() == Symbol::NonTerminal(p.non_terminal),
        g.productions.contains(p),
        derives(g, seq![Symbol::NonTerminal(g.start_symbol)], parse_form(input, pos, stack)),
    ensures
        derives(
            g,
            seq![Symbol::NonTerminal(g.start_symbol)],
            parse_form(input, pos, stack.drop_last() + rev(strip_epsilon(p.derivation))),
        ),
{
    let f1 = parse_form(input, pos, stack);
    let alpha = strip_epsilon(p.derivation);
    let newstack = stack.drop_last() + rev(alpha);
    let f2 = f1.take(pos) + alpha + f1.skip(pos + 1);
    assert(f1.len() == pos + stack.len() - 1);
    assert(f1[pos] == rev(stack.skip(1))[0]);
    assert(rev(stack.skip(1))[0] == stack.skip(1)[stack.len() - 2]);
    assert(stack.skip(1)[stack.len() - 2] == stack[stack.len() - 1]);
    assert(f1[pos] == Symbol::NonTerminal(p.non_terminal));
    assert(step_rewrites(g, f1, f2)) by {
        assert(0 <= pos < f1.len() && g.productions.contains(p) && f1[pos] == Symbol::NonTerminal(
            p.non_terminal,
        ) && f2 == f1.take(pos) + strip_epsilon(p.derivation) + f1.skip(pos + 1));
    }
    assert(f2 =~= parse_form(input, pos, newstack)) by {
        let fn2 = parse_form(input, pos, newstack);
        assert(newstack.len() == stack.len() - 1 + alpha.len());
        assert(f2.len() == pos + alpha.len() + (stack.len() - 2));
        assert(fn2.len() == pos + (newstack.len() - 1));
        assert forall|idx: int| 0 <= idx < f2.len() implies f2[idx] == fn2[idx] by {
            if idx < pos {
                assert(f2[idx] == f1.take(pos)[idx]);
                assert(f1[idx] == input.take(pos)[idx]);
                assert(fn2[idx] == input.take(pos)[idx]);
            } else if idx < pos + alpha.len() {
                assert(f2[idx] == alpha[idx - pos]);
                assert(fn2[idx] == rev(newstack.skip(1))[idx - pos]);
                assert(rev(newstack.skip(1))[idx - pos] == newstack.skip(1)[newstack.len() - 2 - (
                idx - pos)]);
                assert(newstack.skip(1)[newstack.len() - 2 - (idx - pos)] == newstack[newstack.len()
                    - 1 - (idx - pos)]);
                assert(newstack[newstack.len() - 1 - (idx - pos)] == rev(alpha)[newstack.len() - 1
                    - (idx - pos) - (stack.len() - 1)]);
                assert(rev(alpha)[alpha.len() - 1 - (idx - pos)] == alpha[idx - pos]);
            } else {
                assert(f2[idx] == f1.skip(pos + 1)[idx - pos - alpha.len()]);
                assert(f1.skip(pos + 1)[idx - pos - alpha.len()] == f1[idx - alpha.len() + 1]);
                let j = idx - alpha.len() + 1;
                assert(f1[j] == rev(stack.skip(1))[j - pos]);
                assert(rev(stack.skip(1))[j - pos] == stack.skip(1)[stack.len() - 2 - (j - pos)]);
                assert(stack.skip(1)[stack.len() - 2 - (j - pos)] == stack[stack.len() - 1 - (j
                    - pos)]);
                assert(fn2[idx] == rev(newstack.skip(1))[idx - pos]);
                assert(rev(newstack.skip(1))[idx - pos] == newstack.skip(1)[newstack.len() - 2 - (
                idx - pos)]);
                assert(newstack.skip(1)[newstack.len() - 2 - (idx - pos)] == newstack[newstack.len()
                    - 1 - (idx - pos)]);
                assert(newstack.len() - 1 - (idx - pos) < stack.len() - 1);
                assert(newstack[newstack.len() - 1 - (idx - pos)] == stack.drop_last()[
                    newstack.len() - 1 - (idx - pos)
                ]);
                assert(stack.drop_last()[newstack.len() - 1 - (idx - pos)] == stack[stack.len() - 1
                    - (j - pos)]);
            }
        }
    }
    lemma_derives_step(
        g,
        seq![Symbol::NonTerminal(g.start_symbol)],
        f1,
        parse_form(input, pos, newstack),
    );
}

/// Scanning an empty token set yields nothing, from any position.
proof fn lemma_scan_sync_empty(input: Seq<Symbol>, from: int)
    ensures
        scan_sync(input, Set::empty(), from) is None,
    decreases input.len() - from,
{
    if from < 0 || from >= input.len() {
    } else {
        lemma_scan_sync_empty(input, from + 1);
    }
}

/// Copies a vector of symbols.
fn clone_symbols(v: &Vec<Symbol>) -> (r: Vec<Symbol>)
    ensures
        r@ == v@,
{
    let r = v.clone();
    proof {
        assert(r@ =~= v@);
    }
    r
}

} // verus!
