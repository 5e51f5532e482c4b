//! LL(1) membership checks.
//!
//! The validator applies the FIRST/FOLLOW disjointness rules to every
//! unordered pair of productions with the same left-hand side; the table
//! check simply builds the parsing table and reports whether construction
//! succeeded. The two are proved to agree wherever they can: the only
//! separations involve productions whose own FIRST and FOLLOW claims collide,
//! or nullable alternatives of a non-terminal with an empty FOLLOW set.

use vstd::prelude::*;

use crate::first_follow::first_seq;
use crate::first_follow::follow_elem_ok;
use crate::first_follow::is_first_sets;
use crate::first_follow::is_follow_sets;
use crate::first_follow::lemma_first_sets_unique;
use crate::first_follow::lemma_follow_sets_unique;
use crate::grammar::Grammar;
use crate::grammar::GrammarV;
use crate::grammar::ProductionV;
use crate::grammar::grammar_wf;
use crate::symbols::SetTable;
use crate::symbols::Symbol;
use crate::table::ParsingTable;
use crate::table::cell_claim;
use crate::table::table_conflict;

verus! {

/// The disjointness rules for one unordered pair of productions of the same
/// non-terminal: their FIRST sets must not meet, and when either side is
/// nullable, the other side's FIRST set must not meet the non-terminal's
/// FOLLOW set.
pub open spec fn ll1_pair_ok(
    m: Map<u64, Set<Symbol>>,
    f: Map<u64, Set<Symbol>>,
    p1: ProductionV,
    p2: ProductionV,
) -> bool {
    let f1 = first_seq(m, p1.derivation);
    let f2 = first_seq(m, p2.derivation);
    &&& f1.disjoint(f2)
    &&& (f1.contains(Symbol::Epsilon) ==> f2.disjoint(f[p1.non_terminal]))
    &&& (f2.contains(Symbol::Epsilon) ==> f1.disjoint(f[p1.non_terminal]))
}

/// The grammar passes the validator: every unordered pair of productions of
/// a common non-terminal satisfies the disjointness rules.
pub open spec fn ll1_ok(g: GrammarV, m: Map<u64, Set<Symbol>>, f: Map<u64, Set<Symbol>>) -> bool {
    forall|i: int, j: int|
        0 <= i < j < g.productions.len() && (#[trigger] g.productions[i]).non_terminal == (
        #[trigger] g.productions[j]).non_terminal ==> ll1_pair_ok(
            m,
            f,
            g.productions[i],
            g.productions[j],
        )
}

impl Grammar {
    /// Applies the disjointness rules to every pair of productions with a
    /// common left-hand side, against the given FIRST and FOLLOW tables.
    fn check_pairs(&self, firsts: &SetTable, follows: &SetTable) -> (r: bool)
        requires
            self.wf(),
            firsts.inv(),
            follows.inv(),
            follows.keys@ == self.non_terminals@,
        ensures
            r == ll1_ok(self@, firsts@, follows@),
    {
        let ghost g = self@;
        let ghost m = firsts@;
        let ghost f = follows@;
        let np = self.productions.len();
        let mut i: usize = 0;
        while i < np
            invariant
                self.wf(),
                g == self@,
                m == firsts@,
                f == follows@,
                firsts.inv(),
                follows.inv(),
                follows.keys@ == self.non_terminals@,
                np == self.productions@.len(),
                0 <= i <= np,
                forall|i2: int, j2: int|
                    0 <= i2 < j2 < np && i2 < i && (#[trigger] g.productions[i2]).non_terminal == (
                    #[trigger] g.productions[j2]).non_terminal ==> ll1_pair_ok(
                        m,
                        f,
                        g.productions[i2],
                        g.productions[j2],
                    ),
            decreases np - i,
        {
            let pi = &self.productions[i];
            let ghost pvi = g.productions[i as int];
            proof {
                assert(pvi == self.productions@[i as int]@);
                assert(crate::grammar::production_wf(g, pvi));
            }
            let first_i = self.compute_first_of_string(&pi.derivation, firsts);
            let widx = follows.index_for(pi.non_terminal);
            let wset = &follows.sets[widx];
            proof {
                assert(wset@ == f[pvi.non_terminal]);
            }
            let mut j: usize = i + 1;
            while j < np
                invariant
                    self.wf(),
                    g == self@,
                    m == firsts@,
                    f == follows@,
                    firsts.inv(),
                    follows.inv(),
                    follows.keys@ == self.non_terminals@,
                    np == self.productions@.len(),
                    0 <= i < np,
                    i < j <= np,
                    pi == &self.productions[i as int],
                    pvi == g.productions[i as int],
                    first_i.inv(),
                    first_i@ == first_seq(m, pvi.derivation),
                    widx < follows.sets@.len(),
                    wset == &follows.sets[widx as int],
                    wset@ == f[pvi.non_terminal],
                    forall|i2: int, j2: int|
                        0 <= i2 < j2 < np && i2 < i && (#[trigger] g.productions[i2]).non_terminal
                            == (#[trigger] g.productions[j2]).non_terminal
                            ==> ll1_pair_ok(m, f, g.productions[i2], g.productions[j2]),
                    forall|j2: int|
                        i < j2 < j && pvi.non_terminal
                            == (#[trigger] g.productions[j2]).non_terminal
                            ==> ll1_pair_ok(m, f, pvi, g.productions[j2]),
                decreases np - j,
            {
                let pj = &self.productions[j];
                let ghost pvj = g.productions[j as int];
                proof {
                    assert(pvj == self.productions@[j as int]@);
                }
                if pi.non_terminal == pj.non_terminal {
                    let first_j = self.compute_first_of_string(&pj.derivation, firsts);
                    if !first_i.is_disjoint(&first_j) {
                        proof {
                            assert(!ll1_pair_ok(m, f, pvi, pvj));
                            assert(!ll1_ok(g, m, f));
                        }
                        return false;
                    }
                    if first_i.contains(Symbol::Epsilon) {
                        if !first_j.is_disjoint(wset) {
                            proof {
                                assert(!ll1_pair_ok(m, f, pvi, pvj));
                                assert(!ll1_ok(g, m, f));
                            }
                            return false;
                        }
                    }
                    if first_j.contains(Symbol::Epsilon) {
                        if !first_i.is_disjoint(wset) {
                            proof {
                                assert(!ll1_pair_ok(m, f, pvi, pvj));
                                assert(!ll1_ok(g, m, f));
                            }
                            return false;
                        }
                    }
                    proof {
                        assert(ll1_pair_ok(m, f, pvi, pvj));
                    }
                }
                j = j + 1;
            }
            i = i + 1;
        }
        true
    }

    /// Decides LL(1) membership from the FIRST/FOLLOW disjointness rules
    /// alone, without building the parsing table.
    pub fn is_ll1_first_follow(&self) -> (r: bool)
        requires
            self.wf(),
            self@.non_terminals.contains(self@.start_symbol),
        ensures
            forall|m: Map<u64, Set<Symbol>>, f: Map<u64, Set<Symbol>>|
                is_first_sets(self@, m) && #[trigger] is_follow_sets(self@, m, f) ==> r == ll1_ok(
                    self@,
                    m,
                    f,
                ),
    {
        let ghost g = self@;
        let firsts = self.compute_first_sets();
        let follows = self.compute_follow_sets(&firsts);
        let r = self.check_pairs(&firsts, &follows);
        proof {
            assert forall|m: Map<u64, Set<Symbol>>, f: Map<u64, Set<Symbol>>|
                is_first_sets(g, m) && #[trigger] is_follow_sets(g, m, f)
                implies r == ll1_ok(g, m, f) by {
                lemma_first_sets_unique(g, m, firsts@);
                lemma_follow_sets_unique(g, firsts@, f, follows@);
            }
        }
        r
    }

    /// Decides LL(1) membership by building the parsing table: the grammar is
    /// LL(1) exactly when construction reports no conflicted cell.
    pub fn is_ll1_parsing_table(&self) -> (r: bool)
        requires
            self.wf(),
            self@.non_terminals.contains(self@.start_symbol),
        ensures
            forall|m: Map<u64, Set<Symbol>>, f: Map<u64, Set<Symbol>>|
                is_first_sets(self@, m) && #[trigger] is_follow_sets(self@, m, f) ==> r
                    == !table_conflict(self@, m, f),
    {
        let ghost g = self@;
        match ParsingTable::build(self) {
            Ok(_table) => {
                proof {
                    let tb = _table.table@;
                    let (mb, fb): (Map<u64, Set<Symbol>>, Map<u64, Set<Symbol>>) = choose|
                        m: Map<u64, Set<Symbol>>,
                        f: Map<u64, Set<Symbol>>,
                    |
                        (#[trigger] is_first_sets(g, m)) && (#[trigger] is_follow_sets(g, m, f))
                            && !table_conflict(g, m, f) && crate::table::table_matches(
                            g,
                            m,
                            f,
                            tb,
                        );
                    assert forall|m: Map<u64, Set<Symbol>>, f: Map<u64, Set<Symbol>>|
                        is_first_sets(g, m) && #[trigger] is_follow_sets(g, m, f)
                        implies true == !table_conflict(g, m, f) by {
                        lemma_first_sets_unique(g, m, mb);
                        lemma_follow_sets_unique(g, mb, f, fb);
                    }
                }
                true
            },
            Err(_e) => {
                proof {
                    let (mb, fb): (Map<u64, Set<Symbol>>, Map<u64, Set<Symbol>>) = choose|
                        m: Map<u64, Set<Symbol>>,
                        f: Map<u64, Set<Symbol>>,
                    |
                        (#[trigger] is_first_sets(g, m)) && (#[trigger] is_follow_sets(g, m, f))
                            && table_conflict(g, m, f) && crate::table::conflict_cell_reported(
                            g,
                            m,
                            f,
                            _e,
                        );
                    assert forall|m: Map<u64, Set<Symbol>>, f: Map<u64, Set<Symbol>>|
                        is_first_sets(g, m) && #[trigger] is_follow_sets(g, m, f)
                        implies false == !table_conflict(g, m, f) by {
                        lemma_first_sets_unique(g, m, mb);
                        lemma_follow_sets_unique(g, mb, f, fb);
                    }
                }
                false
            },
        }
    }

    /// Decides LL(1) membership by both checks at once, as a cross-check:
    /// the grammar is accepted only when the disjointness rules hold and the
    /// table builds without conflict.
    pub fn is_ll1(&self) -> (r: bool)
        requires
            self.wf(),
            self@.non_terminals.contains(self@.start_symbol),
        ensures
            forall|m: Map<u64, Set<Symbol>>, f: Map<u64, Set<Symbol>>|
                is_first_sets(self@, m) && #[trigger] is_follow_sets(self@, m, f) ==> r == (ll1_ok(
                    self@,
                    m,
                    f,
                ) && !table_conflict(self@, m, f)),
    {
        if self.is_ll1_first_follow() && self.is_ll1_parsing_table() {
            true
        } else {
            false
        }
    }
}

/// The validator and the builder agree: the disjointness rules hold exactly
/// when table construction finds no conflict. Two side conditions carve out
/// the separations: no production's own FIRST-ground and FOLLOW-ground
/// claims may collide, and a non-terminal with two nullable alternatives
/// must have a non-empty FOLLOW set (otherwise the builder, having no cell
/// to claim twice, accepts a grammar the validator rejects).
pub proof fn lemma_validator_builder_agree(
    g: GrammarV,
    m: Map<u64, Set<Symbol>>,
    f: Map<u64, Set<Symbol>>,
)
    requires
        grammar_wf(g),
        is_first_sets(g, m),
        is_follow_sets(g, m, f),
        forall|k: int, t: Symbol|
            0 <= k < g.productions.len() && (#[trigger] first_seq(
                m,
                g.productions[k].derivation,
            ).remove(Symbol::Epsilon).contains(t)) && first_seq(
                m,
                g.productions[k].derivation,
            ).contains(Symbol::Epsilon) ==> !f[g.productions[k].non_terminal].contains(t),
        forall|i: int, j: int|
            0 <= i < j < g.productions.len() && (#[trigger] g.productions[i]).non_terminal == (
            #[trigger] g.productions[j]).non_terminal && first_seq(
                m,
                g.productions[i].derivation,
            ).contains(Symbol::Epsilon) && first_seq(m, g.productions[j].derivation).contains(
                Symbol::Epsilon,
            ) ==> exists|t: Symbol| f[g.productions[i].non_terminal].contains(t),
    ensures
        ll1_ok(g, m, f) <==> !table_conflict(g, m, f),
{
    if table_conflict(g, m, f) {
        let (a, t, k1, b1, k2, b2): (u64, Symbol, int, bool, int, bool) = choose|
            a: u64,
            t: Symbol,
            k1: int,
            b1: bool,
            k2: int,
            b2: bool,
        |
            (k1 != k2 || b1 != b2) && #[trigger] cell_claim(g, m, f, a, t, k1, b1)
                && #[trigger] cell_claim(g, m, f, a, t, k2, b2);
        if k1 == k2 {
            assert(b1 != b2);
            assert(first_seq(m, g.productions[k1].derivation).remove(Symbol::Epsilon).contains(t)
                && first_seq(m, g.productions[k1].derivation).contains(Symbol::Epsilon)
                && f[a].contains(t));
            assert(false);
        } else {
            let i = if k1 < k2 { k1 } else { k2 };
            let j = if k1 < k2 { k2 } else { k1 };
            let bi = if k1 < k2 { b1 } else { b2 };
            let bj = if k1 < k2 { b2 } else { b1 };
            assert(cell_claim(g, m, f, a, t, i, bi));
            assert(cell_claim(g, m, f, a, t, j, bj));
            let fi = first_seq(m, g.productions[i].derivation);
            let fj = first_seq(m, g.productions[j].derivation);
            assert(!ll1_pair_ok(m, f, g.productions[i], g.productions[j])) by {
                if !bi && !bj {
                    assert(fi.contains(t) && fj.contains(t));
                } else if !bi && bj {
                    assert(fi.contains(t) && f[a].contains(t) && fj.contains(Symbol::Epsilon));
                } else if bi && !bj {
                    assert(fj.contains(t) && f[a].contains(t) && fi.contains(Symbol::Epsilon));
                } else {
                    assert(fi.contains(Symbol::Epsilon) && fj.contains(Symbol::Epsilon));
                }
            }
            assert(!ll1_ok(g, m, f));
        }
    }
    if !ll1_ok(g, m, f) {
        let (i, j): (int, int) = choose|i: int, j: int|
            0 <= i < j < g.productions.len() && (#[trigger] g.productions[i]).non_terminal == (
            #[trigger] g.productions[j]).non_terminal && !ll1_pair_ok(
                m,
                f,
                g.productions[i],
                g.productions[j],
            );
        let a = g.productions[i].non_terminal;
        let fi = first_seq(m, g.productions[i].derivation);
        let fj = first_seq(m, g.productions[j].derivation);
        assert(f.contains_key(a)) by {
            assert(crate::grammar::production_wf(g, g.productions[i]));
            assert(g.non_terminals.contains(a));
        }
        if !fi.disjoint(fj) {
            let x = choose|x: Symbol| fi.contains(x) && fj.contains(x);
            if x == Symbol::Epsilon {
                assert(exists|t: Symbol| f[a].contains(t));
                let t = choose|t: Symbol| f[a].contains(t);
                assert(cell_claim(g, m, f, a, t, i, true));
                assert(cell_claim(g, m, f, a, t, j, true));
                assert(table_conflict(g, m, f));
            } else {
                assert(fi.remove(Symbol::Epsilon).contains(x));
                assert(fj.remove(Symbol::Epsilon).contains(x));
                assert(cell_claim(g, m, f, a, x, i, false));
                assert(cell_claim(g, m, f, a, x, j, false));
                assert(table_conflict(g, m, f));
            }
        } else if fi.contains(Symbol::Epsilon) && !fj.disjoint(f[a]) {
            let x = choose|x: Symbol| fj.contains(x) && f[a].contains(x);
            assert(follow_elem_ok(g, x));
            assert(x != Symbol::Epsilon);
            assert(fj.remove(Symbol::Epsilon).contains(x));
            assert(cell_claim(g, m, f, a, x, j, false));
            assert(cell_claim(g, m, f, a, x, i, true));
            assert(table_conflict(g, m, f));
        } else {
            assert(fj.contains(Symbol::Epsilon) && !fi.disjoint(f[a]));
            let x = choose|x: Symbol| fi.contains(x) && f[a].contains(x);
            assert(follow_elem_ok(g, x));
            assert(x != Symbol::Epsilon);
            assert(fi.remove(Symbol::Epsilon).contains(x));
            assert(cell_claim(g, m, f, a, x, i, false));
            assert(cell_claim(g, m, f, a, x, j, true));
            assert(table_conflict(g, m, f));
        }
    }
}

} // verus!
