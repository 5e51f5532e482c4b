//! FIRST and FOLLOW set computation as least fixed points.
//!
//! The specification pins each computed table down exactly: it is closed
//! under the defining rules (one more pass adds nothing) and lies below every
//! closed table (nothing beyond the rules ever enters). Those two clauses
//! determine the table uniquely, so the result is independent of the order of
//! the production list and of the iteration strategy.

use vstd::prelude::*;

use crate::grammar::Grammar;
use crate::grammar::GrammarV;
use crate::grammar::ProductionV;
use crate::grammar::symbol_registered;
use crate::symbols::Symbol;
use crate::symbols::SymbolSet;
use crate::symbols::SetTable;
use crate::symbols::total_len;

verus! {

/// FIRST of a single symbol, read against a table `m` of tentative FIRST
/// sets for the non-terminals. A terminal yields itself. Anything the table
/// has no entry for — the reserved markers, or an unregistered non-terminal —
/// contributes no terminal and does not stop a scan, which is expressed as
/// the set holding only the empty-derivation marker.
pub open spec fn first_sym(m: Map<u64, Set<Symbol>>, s: Symbol) -> Set<Symbol> {
    match s {
        Symbol::Terminal(t) => set![Symbol::Terminal(t)],
        Symbol::NonTerminal(n) => if m.contains_key(n) {
            m[n]
        } else {
            set![Symbol::Epsilon]
        },
        _ => set![Symbol::Epsilon],
    }
}

/// FIRST of a symbol sequence under table `m`: the nullable scan. Every
/// non-epsilon member of FIRST of the leading symbol belongs to it; the scan
/// continues past a symbol exactly when that symbol's FIRST holds the
/// empty-derivation marker; the marker itself belongs to the result exactly
/// when the scan runs off the end.
pub open spec fn first_seq(m: Map<u64, Set<Symbol>>, s: Seq<Symbol>) -> Set<Symbol>
    decreases s.len(),
{
    if s.len() == 0 {
        set![Symbol::Epsilon]
    } else {
        let f = first_sym(m, s[0]);
        if f.contains(Symbol::Epsilon) {
            f.remove(Symbol::Epsilon).union(first_seq(m, s.drop_first()))
        } else {
            f
        }
    }
}

/// What may populate a FIRST set of grammar `g`: a registered terminal or
/// the empty-derivation marker.
pub open spec fn first_elem_ok(g: GrammarV, x: Symbol) -> bool {
    match x {
        Symbol::Terminal(t) => g.terminals.contains(t),
        Symbol::Epsilon => true,
        _ => false,
    }
}

/// Every member of every set of `m` is acceptable for a FIRST table of `g`.
pub open spec fn first_elems_ok(g: GrammarV, m: Map<u64, Set<Symbol>>) -> bool {
    forall|n: u64, x: Symbol|
        m.contains_key(n) && #[trigger] m[n].contains(x) ==> first_elem_ok(g, x)
}

/// The table has exactly one entry per registered non-terminal.
pub open spec fn dom_ok(g: GrammarV, m: Map<u64, Set<Symbol>>) -> bool {
    m.dom() == g.non_terminals
}

/// `m` is closed under the FIRST rules of `g`: a further pass over the
/// productions adds nothing.
pub open spec fn first_closed(g: GrammarV, m: Map<u64, Set<Symbol>>) -> bool {
    forall|p: ProductionV|
        #[trigger] g.productions.contains(p) ==> first_seq(m, p.derivation).subset_of(
            m[p.non_terminal],
        )
}

/// `m1` lies pointwise below `m2`.
pub open spec fn map_below(m1: Map<u64, Set<Symbol>>, m2: Map<u64, Set<Symbol>>) -> bool {
    forall|n: u64| m1.contains_key(n) ==> (#[trigger] m1[n]).subset_of(m2[n])
}

/// `m` is the FIRST-set table of `g`: one well-typed entry per non-terminal,
/// closed under the FIRST rules, and below every closed table. The two last
/// clauses pin the table down uniquely as the least fixed point.
pub open spec fn is_first_sets(g: GrammarV, m: Map<u64, Set<Symbol>>) -> bool {
    &&& dom_ok(g, m)
    &&& first_elems_ok(g, m)
    &&& first_closed(g, m)
    &&& forall|m2: Map<u64, Set<Symbol>>|
        dom_ok(g, m2) && #[trigger] first_closed(g, m2) ==> map_below(m, m2)
}

/// Computes FIRST of the suffix of `string` that starts at `from`.
pub(crate) fn first_of_suffix(first_sets: &SetTable, string: &Vec<Symbol>, from: usize) -> (result:
    SymbolSet)
    requires
        first_sets.inv(),
        from <= string@.len(),
    ensures
        result.inv(),
        result@ == first_seq(first_sets@, string@.skip(from as int)),
{
    let ghost m = first_sets@;
    let n = string.len();
    let mut result = SymbolSet::new();
    let mut all_nullable: bool = true;
    let mut i: usize = from;
    while i < n
        invariant_except_break
            first_sets.inv(),
            m == first_sets@,
            n == string@.len(),
            from <= i <= n,
            result.inv(),
            !result@.contains(Symbol::Epsilon),
            all_nullable,
            first_seq(m, string@.skip(from as int)) == result@.union(
                first_seq(m, string@.skip(i as int)),
            ),
        ensures
            result.inv(),
            all_nullable ==> i == n && !result@.contains(Symbol::Epsilon) && first_seq(
                m,
                string@.skip(from as int),
            ) == result@.union(first_seq(m, string@.skip(i as int))),
            !all_nullable ==> first_seq(m, string@.skip(from as int)) == result@,
        decreases n - i,
    {
        let ghost suffix = string@.skip(i as int);
        proof {
            assert(suffix.len() > 0);
            assert(suffix[0] == string@[i as int]);
            assert(suffix.drop_first() =~= string@.skip(i + 1));
        }
        let s = string[i];
        let ghost f = first_sym(m, s);
        match s {
            Symbol::Terminal(t) => {
                result.insert(Symbol::Terminal(t));
                all_nullable = false;
                proof {
                    assert(!f.contains(Symbol::Epsilon));
                    assert(first_seq(m, suffix) == f);
                    assert(first_seq(m, string@.skip(from as int)) =~= result@);
                }
                break;
            },
            Symbol::NonTerminal(nid) => {
                if first_sets.contains_key(nid) {
                    let idx = first_sets.index_for(nid);
                    let entry = &first_sets.sets[idx];
                    let has_eps = entry.contains(Symbol::Epsilon);
                    proof {
                        assert(f == m[nid]);
                        assert(entry@ == m[nid]);
                    }
                    result.union_from(entry, true);
                    if !has_eps {
                        all_nullable = false;
                        proof {
                            assert(first_seq(m, suffix) == f);
                            assert(f.remove(Symbol::Epsilon) =~= f);
                            assert(first_seq(m, string@.skip(from as int)) =~= result@);
                        }
                        break;
                    }
                    proof {
                        assert(first_seq(m, suffix) == f.remove(Symbol::Epsilon).union(
                            first_seq(m, string@.skip(i + 1)),
                        ));
                        assert(first_seq(m, string@.skip(from as int)) =~= result@.union(
                            first_seq(m, string@.skip(i + 1)),
                        ));
                    }
                } else {
                    proof {
                        assert(f =~= set![Symbol::Epsilon]);
                        assert(f.remove(Symbol::Epsilon) =~= Set::<Symbol>::empty());
                        assert(first_seq(m, suffix) == f.remove(Symbol::Epsilon).union(
                            first_seq(m, string@.skip(i + 1)),
                        ));
                        assert(first_seq(m, string@.skip(from as int)) =~= result@.union(
                            first_seq(m, string@.skip(i + 1)),
                        ));
                    }
                }
            },
            Symbol::Epsilon => {
                proof {
                    assert(f =~= set![Symbol::Epsilon]);
                    assert(f.remove(Symbol::Epsilon) =~= Set::<Symbol>::empty());
                    assert(first_seq(m, suffix) == f.remove(Symbol::Epsilon).union(
                        first_seq(m, string@.skip(i + 1)),
                    ));
                    assert(first_seq(m, string@.skip(from as int)) =~= result@.union(
                        first_seq(m, string@.skip(i + 1)),
                    ));
                }
            },
            Symbol::End => {
                proof {
                    assert(f =~= set![Symbol::Epsilon]);
                    assert(f.remove(Symbol::Epsilon) =~= Set::<Symbol>::empty());
                    assert(first_seq(m, suffix) == f.remove(Symbol::Epsilon).union(
                        first_seq(m, string@.skip(i + 1)),
                    ));
                    assert(first_seq(m, string@.skip(from as int)) =~= result@.union(
                        first_seq(m, string@.skip(i + 1)),
                    ));
                }
            },
        }
        i = i + 1;
    }
    if all_nullable {
        proof {
            assert(string@.skip(n as int) =~= Seq::<Symbol>::empty());
            assert(first_seq(m, string@.skip(n as int)) == set![Symbol::Epsilon]);
        }
        result.insert(Symbol::Epsilon);
        proof {
            assert(first_seq(m, string@.skip(from as int)) =~= result@);
        }
    }
    result
}

/// The nullable scan only grows when the table grows: with every entry of
/// `m1` contained in the corresponding entry of `m2`, FIRST of any sequence
/// under `m1` is contained in FIRST under `m2`.
proof fn lemma_first_seq_mono(
    m1: Map<u64, Set<Symbol>>,
    m2: Map<u64, Set<Symbol>>,
    s: Seq<Symbol>,
)
    requires
        m1.dom() == m2.dom(),
        map_below(m1, m2),
    ensures
        first_seq(m1, s).subset_of(first_seq(m2, s)),
    decreases s.len(),
{
    if s.len() == 0 {
    } else {
        lemma_first_seq_mono(m1, m2, s.drop_first());
        let f1 = first_sym(m1, s[0]);
        let f2 = first_sym(m2, s[0]);
        assert(f1.subset_of(f2)) by {
            match s[0] {
                Symbol::NonTerminal(n) => {
                    if m1.contains_key(n) {
                        assert(m1[n].subset_of(m2[n]));
                    }
                },
                _ => {},
            }
        }
        assert forall|x: Symbol| #[trigger] first_seq(m1, s).contains(x)
            implies first_seq(m2, s).contains(x) by {
            if f1.contains(Symbol::Epsilon) {
                assert(f2.contains(Symbol::Epsilon));
            }
        }
    }
}

/// The nullable scan produces only acceptable FIRST members when read
/// against a well-typed table over registered symbols.
proof fn lemma_first_seq_elems(g: GrammarV, m: Map<u64, Set<Symbol>>, s: Seq<Symbol>)
    requires
        dom_ok(g, m),
        first_elems_ok(g, m),
        forall|i: int| 0 <= i < s.len() ==> symbol_registered(g, #[trigger] s[i]),
    ensures
        forall|x: Symbol| #[trigger] first_seq(m, s).contains(x) ==> first_elem_ok(g, x),
    decreases s.len(),
{
    if s.len() == 0 {
    } else {
        assert forall|i: int| 0 <= i < s.drop_first().len()
            implies symbol_registered(g, #[trigger] s.drop_first()[i]) by {
            assert(s.drop_first()[i] == s[i + 1]);
        }
        lemma_first_seq_elems(g, m, s.drop_first());
        let f = first_sym(m, s[0]);
        assert forall|x: Symbol| #[trigger] f.contains(x) implies first_elem_ok(g, x) by {
            assert(symbol_registered(g, s[0]));
            match s[0] {
                Symbol::NonTerminal(n) => {
                    assert(g.non_terminals.contains(n));
                    assert(m.dom().contains(n));
                    assert(m[n].contains(x));
                },
                _ => {},
            }
        }
        assert forall|x: Symbol| #[trigger] first_seq(m, s).contains(x)
            implies first_elem_ok(g, x) by {
            if f.contains(Symbol::Epsilon) {
                assert(first_seq(m, s) == f.remove(Symbol::Epsilon).union(
                    first_seq(m, s.drop_first()),
                ));
            }
        }
    }
}

impl Grammar {
    /// Computes the FIRST-set table of this grammar: the least table, one
    /// entry per registered non-terminal, closed under the FIRST rules.
    ///
    /// FIRST of a terminal is the terminal itself and is not tabulated; the
    /// table carries the non-terminals, whose FIRST sets are the fixed point
    /// of repeated passes over the productions.
    pub fn compute_first_sets(&self) -> (r: SetTable)
        requires
            self.wf(),
        ensures
            r.inv(),
            r.keys@ == self.non_terminals@,
            is_first_sets(self@, r@),
    {
        let ghost g = self@;
        let mut first = empty_table_for(&self.non_terminals);
        proof {
            assert(first@.dom() =~= g.non_terminals);
            assert forall|m2: Map<u64, Set<Symbol>>|
                dom_ok(g, m2) && #[trigger] first_closed(g, m2)
                implies map_below(first@, m2) by {
                assert forall|n: u64| first@.contains_key(n)
                    implies (#[trigger] first@[n]).subset_of(m2[n]) by {
                    assert(first@[n] == Set::<Symbol>::empty());
                }
            }
        }
        let ghost cap: int = (self.non_terminals@.len() * (self.terminals@.len() + 1)) as int;
        proof {
            lemma_first_capacity(self, &first, cap);
        }
        let mut changed = true;
        while changed
            invariant
                self.wf(),
                g == self@,
                first.inv(),
                first.keys@ == self.non_terminals@,
                dom_ok(g, first@),
                first_elems_ok(g, first@),
                forall|m2: Map<u64, Set<Symbol>>|
                    dom_ok(g, m2) && #[trigger] first_closed(g, m2) ==> map_below(first@, m2),
                !changed ==> first_closed(g, first@),
                cap == (self.non_terminals@.len() * (self.terminals@.len() + 1)) as int,
                total_len(first.sets@) <= cap,
            decreases 2 * (cap - total_len(first.sets@) as int) + (if changed { 1int } else { 0int }),
        {
            changed = false;
            let ghost t0 = total_len(first.sets@);
            let np = self.productions.len();
            let mut k: usize = 0;
            while k < np
                invariant
                    self.wf(),
                    g == self@,
                    first.inv(),
                    first.keys@ == self.non_terminals@,
                    dom_ok(g, first@),
                    first_elems_ok(g, first@),
                    forall|m2: Map<u64, Set<Symbol>>|
                        dom_ok(g, m2) && #[trigger] first_closed(g, m2) ==> map_below(first@, m2),
                    np == self.productions@.len(),
                    0 <= k <= np,
                    total_len(first.sets@) >= t0,
                    changed ==> total_len(first.sets@) >= t0 + 1,
                    !changed ==> total_len(first.sets@) == t0,
                    !changed ==> forall|k2: int|
                        0 <= k2 < k ==> first_seq(
                            first@,
                            (#[trigger] g.productions[k2]).derivation,
                        ).subset_of(first@[g.productions[k2].non_terminal]),
                decreases np - k,
            {
                let production = &self.productions[k];
                let lhs = production.non_terminal;
                let f = first_of_suffix(&first, &production.derivation, 0);
                let ghost p = g.productions[k as int];
                proof {
                    assert(p == self.productions@[k as int]@);
                    assert(production.derivation@.skip(0) =~= production.derivation@);
                    assert(g.productions.contains(p));
                    assert(crate::grammar::production_wf(g, p));
                    assert(first@.contains_key(lhs));
                }
                let ghost mpre = first@;
                let grew = first.union_into(lhs, &f, false);
                proof {
                    lemma_first_seq_elems(g, mpre, p.derivation);
                    assert forall|n: u64, x: Symbol|
                        first@.contains_key(n) && #[trigger] first@[n].contains(x)
                        implies first_elem_ok(g, x) by {
                        if n == lhs {
                            assert(first@[lhs] == mpre[lhs].union(f@));
                            if mpre[n].contains(x) {
                            } else {
                                assert(f@.contains(x));
                                assert(first_seq(mpre, p.derivation).contains(x));
                            }
                        } else {
                            assert(first@[n] == mpre[n]);
                        }
                    }
                    assert forall|m2: Map<u64, Set<Symbol>>|
                        dom_ok(g, m2) && #[trigger] first_closed(g, m2)
                        implies map_below(first@, m2) by {
                        assert(map_below(mpre, m2));
                        assert(mpre.dom() =~= m2.dom());
                        lemma_first_seq_mono(mpre, m2, p.derivation);
                        assert(g.productions.contains(p));
                        assert(first_seq(m2, p.derivation).subset_of(m2[p.non_terminal]));
                        assert forall|n: u64| first@.contains_key(n)
                            implies (#[trigger] first@[n]).subset_of(m2[n]) by {
                            assert(mpre[n].subset_of(m2[n]));
                            if n == lhs {
                                assert(first@[lhs] == mpre[lhs].union(f@));
                            } else {
                                assert(first@[n] == mpre[n]);
                            }
                        }
                    }
                    if !grew {
                        assert(mpre[lhs].union(f@) =~= mpre[lhs]);
                        assert(first@ =~= mpre);
                    }
                }
                if grew {
                    changed = true;
                }
                k = k + 1;
            }
            proof {
                if !changed {
                    assert forall|p: ProductionV| #[trigger] g.productions.contains(p)
                        implies first_seq(first@, p.derivation).subset_of(
                            first@[p.non_terminal],
                        ) by {
                        let k2 = choose|k2: int|
                            0 <= k2 < g.productions.len() && g.productions[k2] == p;
                    }
                }
                lemma_first_capacity(self, &first, cap);
            }
        }
        first
    }
}

/// Specializes the capacity bound to a well-typed FIRST table.
proof fn lemma_first_capacity(grammar: &Grammar, first: &SetTable, cap: int)
    requires
        grammar.wf(),
        first.inv(),
        first.keys@ == grammar.non_terminals@,
        first_elems_ok(grammar@, first@),
        cap == (grammar.non_terminals@.len() * (grammar.terminals@.len() + 1)) as int,
    ensures
        total_len(first.sets@) <= cap,
{
    let g = grammar@;
    assert forall|n: u64, x: Symbol|
        first@.contains_key(n) && #[trigger] first@[n].contains(x)
        implies x == Symbol::Epsilon || (exists|t: u64|
            x == Symbol::Terminal(t) && g.terminals.contains(t)) by {
        assert(first_elem_ok(g, x));
        match x {
            Symbol::Terminal(t) => {
                assert(x == Symbol::Terminal(t) && g.terminals.contains(t));
            },
            _ => {},
        }
    }
    lemma_capacity(grammar, first, cap, Symbol::Epsilon);
}

/// Creates a table with one empty set per key.
fn empty_table_for(keys: &Vec<u64>) -> (r: SetTable)
    requires
        keys@.no_duplicates(),
    ensures
        r.inv(),
        r.keys@ == keys@,
        forall|n: u64| #[trigger] r@.contains_key(n) ==> r@[n] == Set::<Symbol>::empty(),
{
    let mut table = SetTable::new();
    let nk = keys.len();
    let mut i: usize = 0;
    while i < nk
        invariant
            keys@.no_duplicates(),
            nk == keys@.len(),
            0 <= i <= nk,
            table.inv(),
            table.keys@ == keys@.take(i as int),
            forall|n: u64| #[trigger] table@.contains_key(n) ==> table@[n]
                == Set::<Symbol>::empty(),
        decreases nk - i,
    {
        let nt = keys[i];
        proof {
            if table.keys@.contains(nt) {
                let j = choose|j: int| 0 <= j < table.keys@.len() && table.keys@[j] == nt;
                assert(keys@[j] == nt);
                assert(false);
            }
        }
        table.push_entry(nt, SymbolSet::new());
        proof {
            assert(table.keys@ =~= keys@.take(i + 1));
        }
        i = i + 1;
    }
    proof {
        assert(keys@.take(nk as int) =~= keys@);
    }
    table
}

/// The total size of a table whose members are all registered terminals plus
/// at most one non-terminal marker never exceeds one entry per non-terminal
/// times the terminal count plus one.
proof fn lemma_capacity(grammar: &Grammar, table: &SetTable, cap: int, marker: Symbol)
    requires
        grammar.wf(),
        table.inv(),
        table.keys@ == grammar.non_terminals@,
        !marker.spec_is_terminal(),
        forall|n: u64, x: Symbol|
            table@.contains_key(n) && #[trigger] table@[n].contains(x) ==> x == marker || (
            exists|t: u64| x == Symbol::Terminal(t) && grammar@.terminals.contains(t)),
        cap == (grammar.non_terminals@.len() * (grammar.terminals@.len() + 1)) as int,
    ensures
        total_len(table.sets@) <= cap,
{
    let g = grammar@;
    assert forall|ii: int| 0 <= ii < table.sets@.len()
        implies (#[trigger] table.sets@[ii]).elems@.len() <= grammar.terminals@.len() + 1 by {
        table.lemma_key_at(ii);
        let key = table.keys@[ii];
        assert forall|x: Symbol| #[trigger] table.sets@[ii]@.contains(x)
            implies x == marker || (exists|t: u64|
                x == Symbol::Terminal(t) && grammar.terminals@.contains(t)) by {
            assert(table@[key].contains(x));
        }
        crate::symbols::lemma_symbol_set_bounded(
            grammar.terminals@,
            table.sets@[ii],
            marker,
        );
    }
    crate::symbols::lemma_total_len_bound(
        table.sets@,
        (grammar.terminals@.len() + 1) as nat,
    );
    assert(table.sets@.len() == grammar.non_terminals@.len());
}

/// What may populate a FOLLOW set of grammar `g`: a registered terminal or
/// the end marker.
pub open spec fn follow_elem_ok(g: GrammarV, x: Symbol) -> bool {
    match x {
        Symbol::Terminal(t) => g.terminals.contains(t),
        Symbol::End => true,
        _ => false,
    }
}

/// Every member of every set of `f` is acceptable for a FOLLOW table of `g`.
pub open spec fn follow_elems_ok(g: GrammarV, f: Map<u64, Set<Symbol>>) -> bool {
    forall|n: u64, x: Symbol|
        f.contains_key(n) && #[trigger] f[n].contains(x) ==> follow_elem_ok(g, x)
}

/// The FOLLOW contribution of position `i` of production `p` is present in
/// `f`: for a non-terminal at that position, FIRST of the remaining suffix
/// minus the empty-derivation marker feeds its FOLLOW set, and when that
/// suffix is nullable or empty, the left-hand side's FOLLOW set feeds it too.
pub open spec fn follow_pos_ok(
    m: Map<u64, Set<Symbol>>,
    f: Map<u64, Set<Symbol>>,
    p: ProductionV,
    i: int,
) -> bool {
    p.derivation[i] is NonTerminal ==> {
        let b = p.derivation[i]->NonTerminal_0;
        let rest = first_seq(m, p.derivation.skip(i + 1));
        &&& rest.remove(Symbol::Epsilon).subset_of(f[b])
        &&& (rest.contains(Symbol::Epsilon) ==> f[p.non_terminal].subset_of(f[b]))
    }
}

/// Every position of production `p` has its FOLLOW contribution in `f`.
pub open spec fn follow_production_closed(
    m: Map<u64, Set<Symbol>>,
    f: Map<u64, Set<Symbol>>,
    p: ProductionV,
) -> bool {
    forall|i: int| 0 <= i < p.derivation.len() ==> #[trigger] follow_pos_ok(m, f, p, i)
}

/// `f` is closed under the FOLLOW rules of `g` with FIRST table `m`: the end
/// marker follows the start symbol, and a further pass over the productions
/// adds nothing.
pub open spec fn follow_closed(
    g: GrammarV,
    m: Map<u64, Set<Symbol>>,
    f: Map<u64, Set<Symbol>>,
) -> bool {
    &&& f[g.start_symbol].contains(Symbol::End)
    &&& forall|p: ProductionV|
        #[trigger] g.productions.contains(p) ==> follow_production_closed(m, f, p)
}

/// `f` is the FOLLOW-set table of `g` for FIRST table `m`: one well-typed
/// entry per non-terminal, closed under the FOLLOW rules, and below every
/// closed table.
pub open spec fn is_follow_sets(
    g: GrammarV,
    m: Map<u64, Set<Symbol>>,
    f: Map<u64, Set<Symbol>>,
) -> bool {
    &&& dom_ok(g, f)
    &&& follow_elems_ok(g, f)
    &&& follow_closed(g, m, f)
    &&& forall|f2: Map<u64, Set<Symbol>>|
        dom_ok(g, f2) && #[trigger] follow_closed(g, m, f2) ==> map_below(f, f2)
}

impl Grammar {
    /// Computes the FOLLOW-set table of this grammar against a FIRST-set
    /// table: the least table, one entry per registered non-terminal, seeded
    /// with the end marker after the start symbol and closed under the FOLLOW
    /// rules.
    pub fn compute_follow_sets(&self, first_sets: &SetTable) -> (r: SetTable)
        requires
            self.wf(),
            self@.non_terminals.contains(self@.start_symbol),
            first_sets.inv(),
            first_sets.keys@ == self.non_terminals@,
            first_elems_ok(self@, first_sets@),
        ensures
            r.inv(),
            r.keys@ == self.non_terminals@,
            is_follow_sets(self@, first_sets@, r@),
    {
        let ghost g = self@;
        let ghost m = first_sets@;
        let mut follow = empty_table_for(&self.non_terminals);
        proof {
            assert(follow@.dom() =~= g.non_terminals);
        }
        follow.insert_into(self.start_symbol, Symbol::End);
        proof {
            assert forall|n: u64, x: Symbol|
                follow@.contains_key(n) && #[trigger] follow@[n].contains(x)
                implies follow_elem_ok(g, x) by {
                if n == self.start_symbol {
                    assert(follow@[n] == Set::<Symbol>::empty().insert(Symbol::End));
                } else {
                    assert(follow@[n] == Set::<Symbol>::empty());
                }
            }
            assert forall|f2: Map<u64, Set<Symbol>>|
                dom_ok(g, f2) && #[trigger] follow_closed(g, m, f2)
                implies map_below(follow@, f2) by {
                assert(f2[g.start_symbol].contains(Symbol::End));
                assert forall|n: u64| follow@.contains_key(n)
                    implies (#[trigger] follow@[n]).subset_of(f2[n]) by {
                    if n == self.start_symbol {
                        assert(follow@[n] == Set::<Symbol>::empty().insert(Symbol::End));
                    } else {
                        assert(follow@[n] == Set::<Symbol>::empty());
                    }
                }
            }
        }
        let ghost cap: int = (self.non_terminals@.len() * (self.terminals@.len() + 1)) as int;
        proof {
            lemma_follow_capacity(self, &follow, cap);
        }
        let mut changed = true;
        while changed
            invariant
                self.wf(),
                g == self@,
                m == first_sets@,
                first_sets.inv(),
                first_sets.keys@ == self.non_terminals@,
                first_elems_ok(g, m),
                follow.inv(),
                follow.keys@ == self.non_terminals@,
                dom_ok(g, follow@),
                follow_elems_ok(g, follow@),
                follow@[g.start_symbol].contains(Symbol::End),
                forall|f2: Map<u64, Set<Symbol>>|
                    dom_ok(g, f2) && #[trigger] follow_closed(g, m, f2) ==> map_below(follow@, f2),
                !changed ==> follow_closed(g, m, follow@),
                cap == (self.non_terminals@.len() * (self.terminals@.len() + 1)) as int,
                total_len(follow.sets@) <= cap,
            decreases 2 * (cap - total_len(follow.sets@) as int) + (if changed {
                1int
            } else {
                0int
            }),
        {
            changed = false;
            let ghost t0 = total_len(follow.sets@);
            let np = self.productions.len();
            let mut k: usize = 0;
            while k < np
                invariant
                    self.wf(),
                    g == self@,
                    m == first_sets@,
                    first_sets.inv(),
                    first_sets.keys@ == self.non_terminals@,
                    first_elems_ok(g, m),
                    follow.inv(),
                    follow.keys@ == self.non_terminals@,
                    dom_ok(g, follow@),
                    follow_elems_ok(g, follow@),
                    follow@[g.start_symbol].contains(Symbol::End),
                    forall|f2: Map<u64, Set<Symbol>>|
                        dom_ok(g, f2) && #[trigger] follow_closed(g, m, f2) ==> map_below(
                            follow@,
                            f2,
                        ),
                    np == self.productions@.len(),
                    0 <= k <= np,
                    total_len(follow.sets@) >= t0,
                    changed ==> total_len(follow.sets@) >= t0 + 1,
                    !changed ==> total_len(follow.sets@) == t0,
                    !changed ==> forall|k2: int|
                        0 <= k2 < k ==> follow_production_closed(
                            m,
                            follow@,
                            #[trigger] g.productions[k2],
                        ),
                decreases np - k,
            {
                let production = &self.productions[k];
                let lhs = production.non_terminal;
                let ghost p = g.productions[k as int];
                proof {
                    assert(p == self.productions@[k as int]@);
                    assert(g.productions.contains(p));
                    assert(crate::grammar::production_wf(g, p));
                }
                let nd = production.derivation.len();
                let mut i: usize = 0;
                while i < nd
                    invariant
                        self.wf(),
                        g == self@,
                        m == first_sets@,
                        first_sets.inv(),
                        first_sets.keys@ == self.non_terminals@,
                        first_elems_ok(g, m),
                        follow.inv(),
                        follow.keys@ == self.non_terminals@,
                        dom_ok(g, follow@),
                        follow_elems_ok(g, follow@),
                        follow@[g.start_symbol].contains(Symbol::End),
                        forall|f2: Map<u64, Set<Symbol>>|
                            dom_ok(g, f2) && #[trigger] follow_closed(g, m, f2) ==> map_below(
                                follow@,
                                f2,
                            ),
                        np == self.productions@.len(),
                        0 <= k < np,
                        production == &self.productions[k as int],
                        lhs == production.non_terminal,
                        p == g.productions[k as int],
                        g.productions.contains(p),
                        crate::grammar::production_wf(g, p),
                        nd == production.derivation@.len(),
                        0 <= i <= nd,
                        total_len(follow.sets@) >= t0,
                        changed ==> total_len(follow.sets@) >= t0 + 1,
                        !changed ==> total_len(follow.sets@) == t0,
                        !changed ==> forall|k2: int|
                            0 <= k2 < k ==> follow_production_closed(
                                m,
                                follow@,
                                #[trigger] g.productions[k2],
                            ),
                        !changed ==> forall|i2: int|
                            0 <= i2 < i ==> #[trigger] follow_pos_ok(m, follow@, p, i2),
                    decreases nd - i,
                {
                    match production.derivation[i] {
                        Symbol::NonTerminal(b) => {
                            proof {
                                assert(symbol_registered(g, p.derivation[i as int]));
                                assert(g.non_terminals.contains(b));
                                assert(follow@.contains_key(b));
                                assert(follow@.contains_key(lhs));
                            }
                            let rest = first_of_suffix(first_sets, &production.derivation, i + 1);
                            let ghost suffix = p.derivation.skip(i + 1);
                            proof {
                                assert(rest@ == first_seq(m, suffix));
                                assert forall|j: int| 0 <= j < suffix.len()
                                    implies symbol_registered(g, #[trigger] suffix[j]) by {
                                    assert(suffix[j] == p.derivation[i + 1 + j]);
                                }
                                lemma_first_seq_elems(g, m, suffix);
                            }
                            let has_eps = rest.contains(Symbol::Epsilon);
                            let ghost fpre = follow@;
                            let grew1 = follow.union_into(b, &rest, true);
                            if grew1 {
                                changed = true;
                            }
                            proof {
                                assert forall|n: u64, x: Symbol|
                                    follow@.contains_key(n) && #[trigger] follow@[n].contains(x)
                                    implies follow_elem_ok(g, x) by {
                                    if n == b && !fpre[n].contains(x) {
                                        assert(rest@.remove(Symbol::Epsilon).contains(x));
                                        assert(first_elem_ok(g, x));
                                    } else {
                                        assert(fpre[n].contains(x));
                                    }
                                }
                                assert forall|f2: Map<u64, Set<Symbol>>|
                                    dom_ok(g, f2) && #[trigger] follow_closed(g, m, f2)
                                    implies map_below(follow@, f2) by {
                                    assert(map_below(fpre, f2));
                                    assert(follow_production_closed(m, f2, p));
                                    assert(follow_pos_ok(m, f2, p, i as int));
                                    assert(rest@.remove(Symbol::Epsilon).subset_of(f2[b]));
                                    assert forall|n: u64| follow@.contains_key(n)
                                        implies (#[trigger] follow@[n]).subset_of(f2[n]) by {
                                        assert(fpre[n].subset_of(f2[n]));
                                        if n == b {
                                            assert(follow@[b] == fpre[b].union(
                                                rest@.remove(Symbol::Epsilon),
                                            ));
                                        } else {
                                            assert(follow@[n] == fpre[n]);
                                        }
                                    }
                                }
                                assert(follow@[g.start_symbol].contains(Symbol::End)) by {
                                    assert(fpre[g.start_symbol].contains(Symbol::End));
                                    if g.start_symbol == b {
                                        assert(follow@[b] == fpre[b].union(
                                            rest@.remove(Symbol::Epsilon),
                                        ));
                                    }
                                }
                            }
                            let mut grew2 = false;
                            if has_eps {
                                let idxa = follow.index_for(lhs);
                                let fa = follow.sets[idxa].duplicate();
                                let ghost fmid = follow@;
                                grew2 = follow.union_into(b, &fa, false);
                                if grew2 {
                                    changed = true;
                                }
                                proof {
                                    assert(fa@ == fmid[lhs]);
                                    assert forall|n: u64, x: Symbol|
                                        follow@.contains_key(n) && #[trigger] follow@[n].contains(
                                            x,
                                        ) implies follow_elem_ok(g, x) by {
                                        if n == b && !fmid[n].contains(x) {
                                            assert(fa@.contains(x));
                                            assert(fmid[lhs].contains(x));
                                        } else {
                                            assert(fmid[n].contains(x));
                                        }
                                    }
                                    assert forall|f2: Map<u64, Set<Symbol>>|
                                        dom_ok(g, f2) && #[trigger] follow_closed(g, m, f2)
                                        implies map_below(follow@, f2) by {
                                        assert(map_below(fmid, f2));
                                        assert(follow_production_closed(m, f2, p));
                                        assert(follow_pos_ok(m, f2, p, i as int));
                                        assert(f2[lhs].subset_of(f2[b]));
                                        assert forall|n: u64| follow@.contains_key(n)
                                            implies (#[trigger] follow@[n]).subset_of(f2[n]) by {
                                            assert(fmid[n].subset_of(f2[n]));
                                            if n == b {
                                                assert(follow@[b] == fmid[b].union(fa@));
                                                assert(fmid[lhs].subset_of(f2[lhs]));
                                            } else {
                                                assert(follow@[n] == fmid[n]);
                                            }
                                        }
                                    }
                                    assert(follow@[g.start_symbol].contains(Symbol::End)) by {
                                        assert(fmid[g.start_symbol].contains(Symbol::End));
                                        if g.start_symbol == b {
                                            assert(follow@[b] == fmid[b].union(fa@));
                                        }
                                    }
                                }
                            }
                            proof {
                                if !changed {
                                    assert(!grew1 && !grew2);
                                    assert(follow@ =~= fpre) by {
                                        assert(fpre[b].union(rest@.remove(Symbol::Epsilon))
                                            =~= fpre[b]);
                                        if has_eps {
                                            assert(fpre[b].union(fpre[lhs]) =~= fpre[b]);
                                        }
                                    }
                                    assert forall|i2: int| 0 <= i2 < i + 1
                                        implies #[trigger] follow_pos_ok(m, follow@, p, i2) by {
                                        if i2 == i as int {
                                            assert(rest@.remove(Symbol::Epsilon).subset_of(
                                                follow@[b],
                                            ));
                                            if rest@.contains(Symbol::Epsilon) {
                                                assert(follow@[lhs].subset_of(follow@[b]));
                                            }
                                        }
                                    }
                                }
                            }
                        },
                        _ => {
                            proof {
                                if !changed {
                                    assert forall|i2: int| 0 <= i2 < i + 1
                                        implies #[trigger] follow_pos_ok(m, follow@, p, i2) by {
                                        if i2 == i as int {
                                            assert(!(p.derivation[i2] is NonTerminal));
                                        }
                                    }
                                }
                            }
                        },
                    }
                    i = i + 1;
                }
                proof {
                    if !changed {
                        assert(follow_production_closed(m, follow@, p));
                    }
                }
                k = k + 1;
            }
            proof {
                if !changed {
                    assert forall|p2: ProductionV| #[trigger] g.productions.contains(p2)
                        implies follow_production_closed(m, follow@, p2) by {
                        let k2 = choose|k2: int|
                            0 <= k2 < g.productions.len() && g.productions[k2] == p2;
                    }
                }
                lemma_follow_capacity(self, &follow, cap);
            }
        }
        follow
    }
}

/// Specializes the capacity bound to a well-typed FOLLOW table.
proof fn lemma_follow_capacity(grammar: &Grammar, follow: &SetTable, cap: int)
    requires
        grammar.wf(),
        follow.inv(),
        follow.keys@ == grammar.non_terminals@,
        follow_elems_ok(grammar@, follow@),
        cap == (grammar.non_terminals@.len() * (grammar.terminals@.len() + 1)) as int,
    ensures
        total_len(follow.sets@) <= cap,
{
    let g = grammar@;
    assert forall|n: u64, x: Symbol|
        follow@.contains_key(n) && #[trigger] follow@[n].contains(x)
        implies x == Symbol::End || (exists|t: u64|
            x == Symbol::Terminal(t) && g.terminals.contains(t)) by {
        assert(follow_elem_ok(g, x));
        match x {
            Symbol::Terminal(t) => {
                assert(x == Symbol::Terminal(t) && g.terminals.contains(t));
            },
            _ => {},
        }
    }
    lemma_capacity(grammar, follow, cap, Symbol::End);
}

/// A FIRST table is unique: any two tables that both satisfy the defining
/// clauses — closed under the FIRST rules and below every closed table —
/// coincide. Recomputation is therefore deterministic.
pub proof fn lemma_first_sets_unique(
    g: GrammarV,
    m1: Map<u64, Set<Symbol>>,
    m2: Map<u64, Set<Symbol>>,
)
    requires
        is_first_sets(g, m1),
        is_first_sets(g, m2),
    ensures
        m1 == m2,
{
    assert(map_below(m1, m2));
    assert(map_below(m2, m1));
    assert forall|n: u64| #[trigger] m1.contains_key(n) implies m1[n] == m2[n] by {
        assert(m1[n].subset_of(m2[n]));
        assert(m2[n].subset_of(m1[n]));
        assert(m1[n] =~= m2[n]);
    }
    assert(m1 =~= m2);
}

/// A FOLLOW table is unique for a given FIRST table, by the same argument.
pub proof fn lemma_follow_sets_unique(
    g: GrammarV,
    m: Map<u64, Set<Symbol>>,
    f1: Map<u64, Set<Symbol>>,
    f2: Map<u64, Set<Symbol>>,
)
    requires
        is_follow_sets(g, m, f1),
        is_follow_sets(g, m, f2),
    ensures
        f1 == f2,
{
    assert(map_below(f1, f2));
    assert(map_below(f2, f1));
    assert forall|n: u64| #[trigger] f1.contains_key(n) implies f1[n] == f2[n] by {
        assert(f1[n].subset_of(f2[n]));
        assert(f2[n].subset_of(f1[n]));
        assert(f1[n] =~= f2[n]);
    }
    assert(f1 =~= f2);
}

/// Two grammars with the same vocabularies and start symbol whose production
/// lists are permutations of one another satisfy the same FIRST closure
/// conditions.
proof fn lemma_first_closed_equiv(g1: GrammarV, g2: GrammarV, mm: Map<u64, Set<Symbol>>)
    requires
        forall|p: ProductionV|
            #![trigger g1.productions.contains(p)]
            #![trigger g2.productions.contains(p)]
            g1.productions.contains(p) <==> g2.productions.contains(p),
    ensures
        first_closed(g1, mm) == first_closed(g2, mm),
{
    if first_closed(g1, mm) {
        assert forall|p: ProductionV| #[trigger] g2.productions.contains(p)
            implies first_seq(mm, p.derivation).subset_of(mm[p.non_terminal]) by {
            assert(g1.productions.contains(p));
        }
    }
    if first_closed(g2, mm) {
        assert forall|p: ProductionV| #[trigger] g1.productions.contains(p)
            implies first_seq(mm, p.derivation).subset_of(mm[p.non_terminal]) by {
            assert(g2.productions.contains(p));
        }
    }
}

/// The FOLLOW analogue of the closure equivalence.
proof fn lemma_follow_closed_equiv(
    g1: GrammarV,
    g2: GrammarV,
    m: Map<u64, Set<Symbol>>,
    ff: Map<u64, Set<Symbol>>,
)
    requires
        g1.start_symbol == g2.start_symbol,
        forall|p: ProductionV|
            #![trigger g1.productions.contains(p)]
            #![trigger g2.productions.contains(p)]
            g1.productions.contains(p) <==> g2.productions.contains(p),
    ensures
        follow_closed(g1, m, ff) == follow_closed(g2, m, ff),
{
    if follow_closed(g1, m, ff) {
        assert forall|p: ProductionV| #[trigger] g2.productions.contains(p)
            implies follow_production_closed(m, ff, p) by {
            assert(g1.productions.contains(p));
        }
    }
    if follow_closed(g2, m, ff) {
        assert forall|p: ProductionV| #[trigger] g1.productions.contains(p)
            implies follow_production_closed(m, ff, p) by {
            assert(g2.productions.contains(p));
        }
    }
}

/// Permuting the production list of a grammar changes membership of no
/// production.
proof fn lemma_permuted_contains(g1: GrammarV, g2: GrammarV)
    requires
        g1.productions.to_multiset() == g2.productions.to_multiset(),
    ensures
        forall|p: ProductionV|
            #![trigger g1.productions.contains(p)]
            #![trigger g2.productions.contains(p)]
            g1.productions.contains(p) <==> g2.productions.contains(p),
{
    broadcast use vstd::seq_lib::group_to_multiset_ensures;

    assert forall|p: ProductionV|
        #![trigger g1.productions.contains(p)]
        #![trigger g2.productions.contains(p)]
        g1.productions.contains(p) <==> g2.productions.contains(p) by {
        assert(g1.productions.contains(p) <==> g1.productions.to_multiset().count(p) > 0);
        assert(g2.productions.contains(p) <==> g2.productions.to_multiset().count(p) > 0);
    }
}

/// The FIRST fixed point is order-independent: permuting the production list
/// of a grammar — keeping the vocabularies and the start symbol — cannot
/// change the FIRST table.
pub proof fn lemma_first_order_independent(
    g1: GrammarV,
    g2: GrammarV,
    m1: Map<u64, Set<Symbol>>,
    m2: Map<u64, Set<Symbol>>,
)
    requires
        g1.terminals == g2.terminals,
        g1.non_terminals == g2.non_terminals,
        g1.start_symbol == g2.start_symbol,
        g1.productions.to_multiset() == g2.productions.to_multiset(),
        is_first_sets(g1, m1),
        is_first_sets(g2, m2),
    ensures
        m1 == m2,
{
    lemma_permuted_contains(g1, g2);
    assert(is_first_sets(g1, m2)) by {
        lemma_first_closed_equiv(g1, g2, m2);
        assert forall|mx: Map<u64, Set<Symbol>>|
            dom_ok(g1, mx) && #[trigger] first_closed(g1, mx) implies map_below(m2, mx) by {
            lemma_first_closed_equiv(g1, g2, mx);
            assert(first_closed(g2, mx));
        }
    }
    lemma_first_sets_unique(g1, m1, m2);
}

/// The FOLLOW fixed point is order-independent in the same sense.
pub proof fn lemma_follow_order_independent(
    g1: GrammarV,
    g2: GrammarV,
    m1: Map<u64, Set<Symbol>>,
    m2: Map<u64, Set<Symbol>>,
    f1: Map<u64, Set<Symbol>>,
    f2: Map<u64, Set<Symbol>>,
)
    requires
        g1.terminals == g2.terminals,
        g1.non_terminals == g2.non_terminals,
        g1.start_symbol == g2.start_symbol,
        g1.productions.to_multiset() == g2.productions.to_multiset(),
        is_first_sets(g1, m1),
        is_first_sets(g2, m2),
        is_follow_sets(g1, m1, f1),
        is_follow_sets(g2, m2, f2),
    ensures
        f1 == f2,
{
    lemma_first_order_independent(g1, g2, m1, m2);
    lemma_permuted_contains(g1, g2);
    assert(is_follow_sets(g1, m1, f2)) by {
        lemma_follow_closed_equiv(g1, g2, m1, f2);
        assert forall|fx: Map<u64, Set<Symbol>>|
            dom_ok(g1, fx) && #[trigger] follow_closed(g1, m1, fx) implies map_below(f2, fx) by {
            lemma_follow_closed_equiv(g1, g2, m1, fx);
            assert(follow_closed(g2, m1, fx));
        }
    }
    lemma_follow_sets_unique(g1, m1, f1, f2);
}

/// Idempotence of the FIRST fixed point: on a computed table, one more pass
/// over the productions contributes nothing that is not already present.
pub proof fn lemma_first_idempotent(g: GrammarV, m: Map<u64, Set<Symbol>>)
    requires
        is_first_sets(g, m),
    ensures
        forall|p: ProductionV|
            #[trigger] g.productions.contains(p) ==> first_seq(m, p.derivation).subset_of(
                m[p.non_terminal],
            ),
{
}

/// Idempotence of the FOLLOW fixed point: on a computed table, every FOLLOW
/// contribution of every production position is already present.
pub proof fn lemma_follow_idempotent(
    g: GrammarV,
    m: Map<u64, Set<Symbol>>,
    f: Map<u64, Set<Symbol>>,
)
    requires
        is_follow_sets(g, m, f),
    ensures
        f[g.start_symbol].contains(Symbol::End),
        forall|p: ProductionV, i: int|
            g.productions.contains(p) && 0 <= i < p.derivation.len()
                ==> #[trigger] follow_pos_ok(m, f, p, i),
{
    assert forall|p: ProductionV, i: int|
        g.productions.contains(p) && 0 <= i < p.derivation.len()
        implies #[trigger] follow_pos_ok(m, f, p, i) by {
        assert(follow_production_closed(m, f, p));
    }
}

impl Grammar {
    /// Computes FIRST of an arbitrary symbol sequence against a FIRST-set
    /// table, by the same nullable scan that governs productions.
    pub fn compute_first_of_string(&self, string: &Vec<Symbol>, first_sets: &SetTable) -> (result:
        SymbolSet)
        requires
            first_sets.inv(),
        ensures
            result.inv(),
            result@ == first_seq(first_sets@, string@),
    {
        let r = first_of_suffix(first_sets, string, 0);
        proof {
            assert(string@.skip(0) =~= string@);
        }
        r
    }
}

} // verus!
