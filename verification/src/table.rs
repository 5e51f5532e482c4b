//! The LL(1) predictive parsing table.
//!
//! A cell `(A, t)` holds the right-hand side chosen when non-terminal `A` is
//! on the parse stack and `t` is the lookahead. A production `A -> alpha`
//! claims cell `(A, t)` for every terminal `t` in FIRST(alpha), and — when
//! alpha is nullable — for every member of FOLLOW(A). Construction succeeds
//! exactly when no cell is claimed twice; a doubly-claimed cell is the LL(1)
//! conflict condition and is reported with the cell itself.

use vstd::prelude::*;

use crate::error::Ll1Error;
use crate::first_follow::first_seq;
use crate::first_follow::is_first_sets;
use crate::first_follow::is_follow_sets;
use crate::grammar::Grammar;
use crate::grammar::GrammarV;
use crate::symbols::Symbol;

verus! {

/// A finite map from `(non-terminal, lookahead)` cells to right-hand sides,
/// stored as two parallel vectors with unique keys.
#[derive(Clone, Debug)]
pub struct CellMap {
    /// The claimed cells, each occurring exactly once.
    pub keys: Vec<(u64, Symbol)>,
    /// The right-hand side stored for the cell of the same index.
    pub vals: Vec<Vec<Symbol>>,
}

impl View for CellMap {
    type V = Map<(u64, Symbol), Seq<Symbol>>;

    open spec fn view(&self) -> Map<(u64, Symbol), Seq<Symbol>> {
        Map::new(
            |c: (u64, Symbol)| self.keys@.contains(c),
            |c: (u64, Symbol)| self.vals@[self.keys@.index_of(c)]@,
        )
    }
}

impl CellMap {
    /// The representation invariant: keys are unique and the vectors run in
    /// parallel.
    pub open spec fn inv(self) -> bool {
        &&& self.keys@.no_duplicates()
        &&& self.vals@.len() == self.keys@.len()
    }

    /// Each key's position is exactly what the view indexes the values with.
    pub proof fn lemma_key_at(self, i: int)
        requires
            self.inv(),
            0 <= i < self.keys@.len(),
        ensures
            self.keys@.index_of(self.keys@[i]) == i,
            self@.contains_key(self.keys@[i]),
            self@[self.keys@[i]] == self.vals@[i]@,
    {
        let c = self.keys@[i];
        assert(self.keys@.contains(c));
        let j = self.keys@.index_of(c);
        assert(0 <= j < self.keys@.len() && self.keys@[j] == c);
        assert(j == i);
    }

    /// Creates an empty map.
    pub fn new() -> (r: CellMap)
        ensures
            r.inv(),
            r@ == Map::<(u64, Symbol), Seq<Symbol>>::empty(),
    {
        let r = CellMap { keys: Vec::new(), vals: Vec::new() };
        proof {
            assert(r@ =~= Map::<(u64, Symbol), Seq<Symbol>>::empty());
        }
        r
    }

    /// Returns the position of cell `(nt, t)`, if it is claimed.
    fn position(&self, nt: u64, t: Symbol) -> (r: Option<usize>)
        requires
            self.inv(),
        ensures
            match r {
                Some(i) => i < self.keys@.len() && self.keys@[i as int] == (nt, t)
                    && self@.contains_key((nt, t)) && self@[(nt, t)] == self.vals@[i as int]@,
                None => !self@.contains_key((nt, t)),
            },
    {
        let n = self.keys.len();
        let mut i: usize = 0;
        while i < n
            invariant
                self.inv(),
                n == self.keys@.len(),
                0 <= i <= n,
                forall|j: int| 0 <= j < i ==> self.keys@[j] != (nt, t),
            decreases n - i,
        {
            let key = self.keys[i];
            if key.0 == nt && key.1 == t {
                proof {
                    self.lemma_key_at(i as int);
                }
                return Some(i);
            }
            i = i + 1;
        }
        proof {
            assert(!self.keys@.contains((nt, t)));
        }
        None
    }

    /// Returns whether cell `(nt, t)` is claimed.
    pub fn contains_key(&self, nt: u64, t: Symbol) -> (r: bool)
        requires
            self.inv(),
        ensures
            r == self@.contains_key((nt, t)),
    {
        self.position(nt, t).is_some()
    }

    /// Returns the right-hand side stored at cell `(nt, t)`, if any.
    pub fn get(&self, nt: u64, t: Symbol) -> (r: Option<&Vec<Symbol>>)
        requires
            self.inv(),
        ensures
            match r {
                Some(v) => self@.contains_key((nt, t)) && v@ == self@[(nt, t)],
                None => !self@.contains_key((nt, t)),
            },
    {
        match self.position(nt, t) {
            Some(i) => Some(&self.vals[i]),
            None => None,
        }
    }

    /// Stores `val` at cell `(nt, t)`, replacing any earlier entry; returns
    /// whether the cell was already claimed.
    fn insert(&mut self, nt: u64, t: Symbol, val: Vec<Symbol>) -> (existed: bool)
        requires
            old(self).inv(),
        ensures
            final(self).inv(),
            final(self)@ == old(self)@.insert((nt, t), val@),
            existed == old(self)@.contains_key((nt, t)),
    {
        match self.position(nt, t) {
            Some(i) => {
                self.vals[i] = val;
                proof {
                    assert(self.keys@ == old(self).keys@);
                    assert(self.vals@ == old(self).vals@.update(i as int, self.vals@[i as int]));
                    assert forall|c: (u64, Symbol)| #[trigger] self@.contains_key(c)
                        implies self@[c] == old(self)@.insert((nt, t), val@)[c] by {
                        let j = choose|j: int| 0 <= j < self.keys@.len() && self.keys@[j] == c;
                        self.lemma_key_at(j);
                        old(self).lemma_key_at(j);
                        if c == (nt, t) {
                            assert(j == i as int);
                        } else {
                            assert(j != i as int);
                        }
                    }
                    assert(self@ =~= old(self)@.insert((nt, t), val@));
                }
                true
            },
            None => {
                proof {
                    assert(!self.keys@.contains((nt, t)));
                }
                self.keys.push((nt, t));
                self.vals.push(val);
                proof {
                    let oldkeys = old(self).keys@;
                    assert forall|c: (u64, Symbol)| self.keys@.contains(c)
                        <==> (oldkeys.contains(c) || c == (nt, t)) by {
                        if self.keys@.contains(c) {
                            let j = choose|j: int|
                                0 <= j < self.keys@.len() && self.keys@[j] == c;
                            if j < oldkeys.len() {
                                assert(oldkeys[j] == c);
                            }
                        }
                        if oldkeys.contains(c) {
                            let j = choose|j: int| 0 <= j < oldkeys.len() && oldkeys[j] == c;
                            assert(self.keys@[j] == c);
                        }
                        assert(self.keys@[self.keys@.len() - 1] == (nt, t));
                    }
                    assert(self.keys@.no_duplicates());
                    assert forall|c: (u64, Symbol)| #[trigger] self@.contains_key(c)
                        implies self@[c] == old(self)@.insert((nt, t), val@)[c] by {
                        let j = choose|j: int| 0 <= j < self.keys@.len() && self.keys@[j] == c;
                        self.lemma_key_at(j);
                        if c == (nt, t) {
                            assert(j == self.keys@.len() - 1);
                        } else {
                            assert(j < old(self).keys@.len());
                            old(self).lemma_key_at(j);
                        }
                    }
                    assert(self@ =~= old(self)@.insert((nt, t), val@));
                }
                false
            },
        }
    }
}

/// Whether production `k` of grammar `g` claims cell `(a, t)`, and on which
/// ground: `via_follow` false means `t` lies in FIRST of the right-hand side;
/// `via_follow` true means the right-hand side is nullable and `t` lies in
/// FOLLOW of the left-hand side.
pub open spec fn cell_claim(
    g: GrammarV,
    m: Map<u64, Set<Symbol>>,
    f: Map<u64, Set<Symbol>>,
    a: u64,
    t: Symbol,
    k: int,
    via_follow: bool,
) -> bool {
    &&& 0 <= k < g.productions.len()
    &&& g.productions[k].non_terminal == a
    &&& (if via_follow {
        first_seq(m, g.productions[k].derivation).contains(Symbol::Epsilon) && f[a].contains(t)
    } else {
        first_seq(m, g.productions[k].derivation).remove(Symbol::Epsilon).contains(t)
    })
}

/// The LL(1) conflict condition: some cell is claimed twice, by two distinct
/// productions or by one production on both grounds.
pub open spec fn table_conflict(
    g: GrammarV,
    m: Map<u64, Set<Symbol>>,
    f: Map<u64, Set<Symbol>>,
) -> bool {
    exists|a: u64, t: Symbol, k1: int, b1: bool, k2: int, b2: bool|
        (k1 != k2 || b1 != b2) && #[trigger] cell_claim(g, m, f, a, t, k1, b1)
            && #[trigger] cell_claim(g, m, f, a, t, k2, b2)
}

/// The cells of `tb` are exactly the claimed cells, and each holds the
/// right-hand side of a production claiming it.
pub open spec fn table_matches(
    g: GrammarV,
    m: Map<u64, Set<Symbol>>,
    f: Map<u64, Set<Symbol>>,
    tb: Map<(u64, Symbol), Seq<Symbol>>,
) -> bool {
    &&& forall|a: u64, t: Symbol|
        #[trigger] tb.contains_key((a, t)) ==> exists|k: int, b: bool| cell_claim(g, m, f, a, t, k, b)
    &&& forall|a: u64, t: Symbol, k: int, b: bool|
        #[trigger] cell_claim(g, m, f, a, t, k, b) ==> tb.contains_key((a, t)) && tb[(a, t)]
            == g.productions[k].derivation
}

/// The cells of `tb` are those of a conflict-free build from `g`: there are
/// FIRST and FOLLOW tables of `g` — unique ones — under which no cell is
/// claimed twice and `tb` matches the claims exactly.
pub open spec fn built_from(g: GrammarV, tb: Map<(u64, Symbol), Seq<Symbol>>) -> bool {
    exists|m: Map<u64, Set<Symbol>>, f: Map<u64, Set<Symbol>>|
        (#[trigger] is_first_sets(g, m)) && (#[trigger] is_follow_sets(g, m, f))
            && !table_conflict(g, m, f) && table_matches(g, m, f, tb)
}

/// The identifiers run strictly upward.
pub open spec fn sorted_ids(v: Seq<u64>) -> bool {
    forall|i: int, j: int| 0 <= i < j < v.len() ==> #[trigger] v[i] < #[trigger] v[j]
}

/// An LL(1) parsing table: the cell map, and the sorted vocabularies carried
/// for presentation. The end marker is an implicit extra column: it appears
/// in cell keys but not in the terminal vocabulary.
#[derive(Clone, Debug)]
pub struct ParsingTable {
    /// The cells.
    pub table: CellMap,
    /// The registered non-terminals, sorted ascending.
    pub non_terminals: Vec<u64>,
    /// The registered terminals, sorted ascending.
    pub terminals: Vec<u64>,
}

impl ParsingTable {
    /// The representation invariant.
    pub open spec fn inv(self) -> bool {
        &&& self.table.inv()
        &&& sorted_ids(self.non_terminals@)
        &&& sorted_ids(self.terminals@)
    }
}

/// Inserts `x` into a sorted duplicate-free vector that does not hold it yet.
fn insert_sorted(v: &mut Vec<u64>, x: u64)
    requires
        sorted_ids(old(v)@),
        !old(v)@.contains(x),
    ensures
        sorted_ids(final(v)@),
        final(v)@.to_set() == old(v)@.to_set().insert(x),
        final(v)@.len() == old(v)@.len() + 1,
{
    let n = v.len();
    let mut p: usize = 0;
    while p < n
        invariant_except_break
            sorted_ids(v@),
            !v@.contains(x),
            v@ == old(v)@,
            n == v@.len(),
            0 <= p <= n,
            forall|j: int| 0 <= j < p ==> v@[j] < x,
        ensures
            sorted_ids(v@),
            !v@.contains(x),
            v@ == old(v)@,
            n == v@.len(),
            0 <= p <= n,
            forall|j: int| 0 <= j < p ==> v@[j] < x,
            p < n ==> v@[p as int] > x,
        decreases n - p,
    {
        if v[p] > x {
            break;
        }
        proof {
            assert(v@[p as int] != x);
        }
        p = p + 1;
    }
    v.insert(p, x);
    proof {
        let out = v@;
        let pre = old(v)@;
        assert(out.len() == pre.len() + 1);
        assert forall|idx: int| 0 <= idx < out.len() implies out[idx] == (if idx < p {
            pre[idx]
        } else if idx == p {
            x
        } else {
            pre[idx - 1]
        }) by {
            assert(out =~= pre.subrange(0, p as int).push(x).add(
                pre.subrange(p as int, pre.len() as int),
            ));
        }
        assert forall|i: int, j: int| 0 <= i < j < out.len() implies out[i] < out[j] by {
            if j > p {
                assert(out[j] == (if j == p { x } else { pre[j - 1] }));
                if j != p as int {
                    assert(p < pre.len());
                    assert(pre[j - 1] >= pre[p as int]);
                    assert(pre[j - 1] > x);
                }
            }
            if i < p && j > p {
                assert(out[i] == pre[i]);
                assert(pre[i] < x);
            }
        }
        assert forall|y: u64| out.to_set().contains(y) <==> pre.to_set().insert(x).contains(y) by {
            if out.contains(y) {
                let j = choose|j: int| 0 <= j < out.len() && out[j] == y;
            }
            if pre.contains(y) {
                let j = choose|j: int| 0 <= j < pre.len() && pre[j] == y;
                if j < p {
                    assert(out[j] == y);
                } else {
                    assert(out[j + 1] == y);
                }
            }
            assert(out[p as int] == x);
        }
        assert(out.to_set() =~= pre.to_set().insert(x));
    }
}

/// A claim the builder has already processed: either its production comes
/// before `k`, or it is production `k` itself and the claimed lookahead was
/// already handled in the FIRST pass (`fdone`) or the FOLLOW pass (`wdone`)
/// of that production.
spec fn claim_done(
    g: GrammarV,
    m: Map<u64, Set<Symbol>>,
    f: Map<u64, Set<Symbol>>,
    a: u64,
    t: Symbol,
    kk: int,
    b: bool,
    k: int,
    fdone: Set<Symbol>,
    wdone: Set<Symbol>,
) -> bool {
    &&& cell_claim(g, m, f, a, t, kk, b)
    &&& (kk < k || (kk == k && (if b {
        wdone.contains(t)
    } else {
        fdone.contains(t)
    })))
}

/// The builder's table is exactly the processed claims, each cell claimed
/// once.
spec fn builder_clean(
    g: GrammarV,
    m: Map<u64, Set<Symbol>>,
    f: Map<u64, Set<Symbol>>,
    tb: Map<(u64, Symbol), Seq<Symbol>>,
    k: int,
    fdone: Set<Symbol>,
    wdone: Set<Symbol>,
) -> bool {
    &&& forall|a: u64, t: Symbol|
        #[trigger] tb.contains_key((a, t)) ==> exists|kk: int, b: bool|
            claim_done(g, m, f, a, t, kk, b, k, fdone, wdone)
    &&& forall|a: u64, t: Symbol, kk: int, b: bool|
        #[trigger] claim_done(g, m, f, a, t, kk, b, k, fdone, wdone) ==> tb.contains_key((a, t))
            && tb[(a, t)] == g.productions[kk].derivation
    &&& forall|a: u64, t: Symbol, k1: int, b1: bool, k2: int, b2: bool|
        #[trigger] claim_done(g, m, f, a, t, k1, b1, k, fdone, wdone) && #[trigger] claim_done(
            g,
            m,
            f,
            a,
            t,
            k2,
            b2,
            k,
            fdone,
            wdone,
        ) ==> k1 == k2 && b1 == b2
}

/// Cell `(a, t)` is claimed twice.
pub open spec fn conflict_found(
    g: GrammarV,
    m: Map<u64, Set<Symbol>>,
    f: Map<u64, Set<Symbol>>,
    a: u64,
    t: Symbol,
) -> bool {
    exists|k1: int, b1: bool, k2: int, b2: bool|
        (k1 != k2 || b1 != b2) && #[trigger] cell_claim(g, m, f, a, t, k1, b1)
            && #[trigger] cell_claim(g, m, f, a, t, k2, b2)
}

/// The error value carries a genuinely conflicted cell.
pub open spec fn conflict_cell_reported(
    g: GrammarV,
    m: Map<u64, Set<Symbol>>,
    f: Map<u64, Set<Symbol>>,
    e: Ll1Error,
) -> bool {
    exists|a: u64, t: Symbol|
        #[trigger] conflict_found(g, m, f, a, t) && e == (Ll1Error::ParsingTableError {
            non_terminal: a,
            lookahead: t,
        })
}

impl ParsingTable {
    /// Builds the parsing table of a grammar, computing its FIRST and FOLLOW
    /// tables and claiming one cell per production and applicable lookahead.
    /// Construction succeeds exactly when no cell is claimed twice; on
    /// failure the error carries a conflicted cell.
    pub fn build(grammar: &Grammar) -> (r: Result<ParsingTable, Ll1Error>)
        requires
            grammar.wf(),
            grammar@.non_terminals.contains(grammar@.start_symbol),
        ensures
            (match r {
                Ok(table) => {
                    &&& table.inv()
                    &&& built_from(grammar@, table.table@)
                    &&& table.non_terminals@.to_set() == grammar@.non_terminals
                    &&& table.non_terminals@.no_duplicates()
                    &&& table.terminals@.to_set() == grammar@.terminals
                    &&& table.terminals@.no_duplicates()
                },
                Err(e) => exists|m: Map<u64, Set<Symbol>>, f: Map<u64, Set<Symbol>>|
                    (#[trigger] is_first_sets(grammar@, m)) && (#[trigger] is_follow_sets(
                        grammar@,
                        m,
                        f,
                    )) && table_conflict(grammar@, m, f) && conflict_cell_reported(
                        grammar@,
                        m,
                        f,
                        e,
                    ),
            }),
    {
        let ghost g = grammar@;
        let firsts = grammar.compute_first_sets();
        let follows = grammar.compute_follow_sets(&firsts);
        let ghost m = firsts@;
        let ghost f = follows@;
        let mut tb = CellMap::new();
        let mut conflicts = false;
        let mut bad_nt: u64 = 0;
        let mut bad_t: Symbol = Symbol::End;
        proof {
            assert forall|a: u64, t: Symbol| #[trigger] tb@.contains_key((a, t))
                implies exists|kk: int, b: bool|
                    claim_done(g, m, f, a, t, kk, b, 0, Set::empty(), Set::empty()) by {
                assert(false);
            }
            assert(builder_clean(g, m, f, tb@, 0, Set::empty(), Set::empty()));
        }
        let np = grammar.productions.len();
        let mut k: usize = 0;
        while k < np
            invariant
                grammar.wf(),
                g == grammar@,
                m == firsts@,
                f == follows@,
                firsts.inv(),
                follows.inv(),
                is_first_sets(g, m),
                is_follow_sets(g, m, f),
                follows.keys@ == grammar.non_terminals@,
                tb.inv(),
                np == grammar.productions@.len(),
                0 <= k <= np,
                !conflicts ==> builder_clean(g, m, f, tb@, k as int, Set::empty(), Set::empty()),
                conflicts ==> conflict_found(g, m, f, bad_nt, bad_t),
            decreases np - k,
        {
            let production = &grammar.productions[k];
            let lhs = production.non_terminal;
            let ghost p = g.productions[k as int];
            proof {
                assert(p == grammar.productions@[k as int]@);
                assert(g.productions.contains(p));
                assert(crate::grammar::production_wf(g, p));
                assert(g.non_terminals.contains(lhs));
            }
            let fset = grammar.compute_first_of_string(&production.derivation, &firsts);
            let ghost fseq = first_seq(m, p.derivation);
            proof {
                assert(fset@ == fseq);
            }
            let nf = fset.elems.len();
            let mut j: usize = 0;
            proof {
                assert(fset.elems@.take(0).to_set() =~= Set::<Symbol>::empty());
            }
            while j < nf
                invariant
                    grammar.wf(),
                    g == grammar@,
                    m == firsts@,
                    f == follows@,
                    firsts.inv(),
                    follows.inv(),
                    is_first_sets(g, m),
                    is_follow_sets(g, m, f),
                    follows.keys@ == grammar.non_terminals@,
                    tb.inv(),
                    np == grammar.productions@.len(),
                    0 <= k < np,
                    production == &grammar.productions[k as int],
                    lhs == production.non_terminal,
                    p == g.productions[k as int],
                    g.productions.contains(p),
                    fset.inv(),
                    fset@ == fseq,
                    fseq == first_seq(m, p.derivation),
                    nf == fset.elems@.len(),
                    0 <= j <= nf,
                    !conflicts ==> builder_clean(
                        g,
                        m,
                        f,
                        tb@,
                        k as int,
                        fset.elems@.take(j as int).to_set(),
                        Set::empty(),
                    ),
                    conflicts ==> conflict_found(g, m, f, bad_nt, bad_t),
                decreases nf - j,
            {
                let e = fset.elems[j];
                let ghost fdone = fset.elems@.take(j as int).to_set();
                let ghost fdone1 = fset.elems@.take(j + 1).to_set();
                proof {
                    let tk1 = fset.elems@.take(j + 1);
                    let tk = fset.elems@.take(j as int);
                    assert(tk1 =~= tk.push(e));
                    assert forall|x: Symbol| #[trigger] tk1.contains(x)
                        <==> (tk.contains(x) || x == e) by {
                        crate::symbols::lemma_push_contains(tk, e, x);
                    }
                    assert(fset.elems@[j as int] == e);
                    assert(fset.elems@.contains(e));
                    assert(fset@.contains(e));
                    assert(!fdone.contains(e)) by {
                        if tk.contains(e) {
                            let q = choose|q: int| 0 <= q < j && tk[q] == e;
                            assert(fset.elems@[q] == e);
                            assert(false);
                        }
                    }
                    assert(fdone1 =~= fdone.insert(e));
                }
                if !matches!(e, Symbol::Epsilon) {
                    proof {
                        assert(cell_claim(g, m, f, lhs, e, k as int, false)) by {
                            assert(fseq.remove(Symbol::Epsilon).contains(e));
                        }
                    }
                    let ghost pre = tb@;
                    let existed = tb.insert(lhs, e, production.derivation.clone());
                    if existed {
                        if !conflicts {
                            proof {
                                let (kk, b): (int, bool) = choose|kk: int, b: bool|
                                    claim_done(g, m, f, lhs, e, kk, b, k as int, fdone, Set::empty());
                                assert(kk != k as int || b != false);
                                assert(conflict_found(g, m, f, lhs, e)) by {
                                    assert(cell_claim(g, m, f, lhs, e, kk, b));
                                    assert(cell_claim(g, m, f, lhs, e, k as int, false));
                                }
                            }
                            conflicts = true;
                            bad_nt = lhs;
                            bad_t = e;
                        }
                    } else {
                        proof {
                            if !conflicts {
                                lemma_claim_step(
                                    g, m, f, pre, tb@, k as int, fdone, fdone1, Set::empty(),
                                    Set::empty(), lhs, e, false, p.derivation,
                                );
                            }
                        }
                    }
                    proof {
                        if !conflicts {
                            assert(builder_clean(g, m, f, tb@, k as int, fdone1, Set::empty()));
                        }
                    }
                } else {
                    proof {
                        if !conflicts {
                            assert forall|a: u64, t: Symbol, kk: int, b: bool|
                                claim_done(g, m, f, a, t, kk, b, k as int, fdone1, Set::empty())
                                    <==> claim_done(
                                    g, m, f, a, t, kk, b, k as int, fdone, Set::empty(),
                                ) by {
                                if cell_claim(g, m, f, a, t, kk, b) && kk == k as int && !b {
                                    assert(!fseq.remove(Symbol::Epsilon).contains(Symbol::Epsilon));
                                }
                            }
                            assert(builder_clean(g, m, f, tb@, k as int, fdone1, Set::empty()));
                        }
                    }
                }
                j = j + 1;
            }
            let ghost ffull = fset.elems@.take(nf as int).to_set();
            proof {
                assert(fset.elems@.take(nf as int) =~= fset.elems@);
            }
            let has_eps = fset.contains(Symbol::Epsilon);
            let mut wdone_len: usize = 0;
            if has_eps {
                let widx = follows.index_for(lhs);
                let wset = &follows.sets[widx];
                proof {
                    assert(wset@ == f[lhs]);
                }
                let nw = wset.elems.len();
                let mut j2: usize = 0;
                proof {
                    assert(wset.elems@.take(0).to_set() =~= Set::<Symbol>::empty());
                }
                while j2 < nw
                    invariant
                        grammar.wf(),
                        g == grammar@,
                        m == firsts@,
                        f == follows@,
                        firsts.inv(),
                        follows.inv(),
                        is_first_sets(g, m),
                        is_follow_sets(g, m, f),
                        follows.keys@ == grammar.non_terminals@,
                        tb.inv(),
                        np == grammar.productions@.len(),
                        0 <= k < np,
                        production == &grammar.productions[k as int],
                        lhs == production.non_terminal,
                        p == g.productions[k as int],
                        g.productions.contains(p),
                        fseq == first_seq(m, p.derivation),
                        fseq.contains(Symbol::Epsilon),
                        ffull == fset@,
                        fset@ == fseq,
                        wset == &follows.sets[widx as int],
                        widx < follows.sets@.len(),
                        wset.inv(),
                        wset@ == f[lhs],
                        nw == wset.elems@.len(),
                        0 <= j2 <= nw,
                        !conflicts ==> builder_clean(
                            g,
                            m,
                            f,
                            tb@,
                            k as int,
                            ffull,
                            wset.elems@.take(j2 as int).to_set(),
                        ),
                        conflicts ==> conflict_found(g, m, f, bad_nt, bad_t),
                    decreases nw - j2,
                {
                    let e = wset.elems[j2];
                    let ghost wdone = wset.elems@.take(j2 as int).to_set();
                    let ghost wdone1 = wset.elems@.take(j2 + 1).to_set();
                    proof {
                        let tk1 = wset.elems@.take(j2 + 1);
                        let tk = wset.elems@.take(j2 as int);
                        assert(tk1 =~= tk.push(e));
                        assert forall|x: Symbol| #[trigger] tk1.contains(x)
                            <==> (tk.contains(x) || x == e) by {
                            crate::symbols::lemma_push_contains(tk, e, x);
                        }
                        assert(wset.elems@[j2 as int] == e);
                        assert(wset.elems@.contains(e));
                        assert(f[lhs].contains(e));
                        assert(!wdone.contains(e)) by {
                            if tk.contains(e) {
                                let q = choose|q: int| 0 <= q < j2 && tk[q] == e;
                                assert(wset.elems@[q] == e);
                                assert(false);
                            }
                        }
                        assert(wdone1 =~= wdone.insert(e));
                        assert(cell_claim(g, m, f, lhs, e, k as int, true));
                    }
                    let ghost pre = tb@;
                    let existed = tb.insert(lhs, e, production.derivation.clone());
                    if existed {
                        if !conflicts {
                            proof {
                                let (kk, b): (int, bool) = choose|kk: int, b: bool|
                                    claim_done(g, m, f, lhs, e, kk, b, k as int, ffull, wdone);
                                assert(kk != k as int || b != true);
                                assert(conflict_found(g, m, f, lhs, e)) by {
                                    assert(cell_claim(g, m, f, lhs, e, kk, b));
                                    assert(cell_claim(g, m, f, lhs, e, k as int, true));
                                }
                            }
                            conflicts = true;
                            bad_nt = lhs;
                            bad_t = e;
                        }
                    } else {
                        proof {
                            if !conflicts {
                                lemma_claim_step(
                                    g, m, f, pre, tb@, k as int, ffull, ffull, wdone, wdone1,
                                    lhs, e, true, p.derivation,
                                );
                            }
                        }
                    }
                    proof {
                        if !conflicts {
                            assert(builder_clean(g, m, f, tb@, k as int, ffull, wdone1));
                        }
                    }
                    j2 = j2 + 1;
                }
                proof {
                    assert(wset.elems@.take(nw as int) =~= wset.elems@);
                    if !conflicts {
                        assert(wset.elems@.to_set() == f[lhs]);
                        lemma_advance(g, m, f, tb@, k as int, k + 1, ffull, wset.elems@.to_set());
                    }
                }
            } else {
                proof {
                    if !conflicts {
                        assert forall|t: Symbol|
                            first_seq(m, g.productions[k as int].derivation).contains(
                                Symbol::Epsilon,
                            ) && #[trigger] f[g.productions[k as int].non_terminal].contains(t)
                            implies Set::<Symbol>::empty().contains(t) by {
                            assert(fseq.contains(Symbol::Epsilon));
                            assert(false);
                        }
                        lemma_advance(g, m, f, tb@, k as int, k + 1, ffull, Set::empty());
                    }
                }
            }
            k = k + 1;
        }
        if conflicts {
            proof {
                assert(table_conflict(g, m, f));
                assert(conflict_cell_reported(g, m, f, Ll1Error::ParsingTableError {
                    non_terminal: bad_nt,
                    lookahead: bad_t,
                }));
            }
            Err(Ll1Error::ParsingTableError { non_terminal: bad_nt, lookahead: bad_t })
        } else {
            proof {
                assert forall|a: u64, t: Symbol, kk: int, b: bool|
                    #[trigger] cell_claim(g, m, f, a, t, kk, b)
                    implies claim_done(g, m, f, a, t, kk, b, np as int, Set::empty(), Set::empty())
                    by {}
                assert(table_matches(g, m, f, tb@));
                assert(!table_conflict(g, m, f)) by {
                    if table_conflict(g, m, f) {
                        let (a, t, k1, b1, k2, b2): (u64, Symbol, int, bool, int, bool) = choose|
                            a: u64,
                            t: Symbol,
                            k1: int,
                            b1: bool,
                            k2: int,
                            b2: bool,
                        |
                            (k1 != k2 || b1 != b2) && #[trigger] cell_claim(g, m, f, a, t, k1, b1)
                                && #[trigger] cell_claim(g, m, f, a, t, k2, b2);
                        assert(claim_done(g, m, f, a, t, k1, b1, np as int, Set::empty(),
                            Set::empty()));
                        assert(claim_done(g, m, f, a, t, k2, b2, np as int, Set::empty(),
                            Set::empty()));
                        assert(false);
                    }
                }
                assert(built_from(g, tb@)) by {
                    assert(is_first_sets(g, m) && is_follow_sets(g, m, f) && !table_conflict(
                        g, m, f,
                    ) && table_matches(g, m, f, tb@));
                }
            }
            let nts = sorted_copy(&grammar.non_terminals);
            let ts = sorted_copy(&grammar.terminals);
            Ok(ParsingTable { table: tb, non_terminals: nts, terminals: ts })
        }
    }
}

/// Round-trip determinism of construction: any two conflict-free builds from
/// the same grammar hold identical cell contents, because the FIRST and
/// FOLLOW tables they rest on are unique and each cell holds the right-hand
/// side of its unique claimant.
pub proof fn lemma_build_deterministic(
    g: GrammarV,
    t1: Map<(u64, Symbol), Seq<Symbol>>,
    t2: Map<(u64, Symbol), Seq<Symbol>>,
)
    requires
        built_from(g, t1),
        built_from(g, t2),
    ensures
        t1 == t2,
{
    let (m1, f1): (Map<u64, Set<Symbol>>, Map<u64, Set<Symbol>>) = choose|
        m: Map<u64, Set<Symbol>>,
        f: Map<u64, Set<Symbol>>,
    |
        (#[trigger] is_first_sets(g, m)) && (#[trigger] is_follow_sets(g, m, f))
            && !table_conflict(g, m, f) && table_matches(g, m, f, t1);
    let (m2, f2): (Map<u64, Set<Symbol>>, Map<u64, Set<Symbol>>) = choose|
        m: Map<u64, Set<Symbol>>,
        f: Map<u64, Set<Symbol>>,
    |
        (#[trigger] is_first_sets(g, m)) && (#[trigger] is_follow_sets(g, m, f))
            && !table_conflict(g, m, f) && table_matches(g, m, f, t2);
    crate::first_follow::lemma_first_sets_unique(g, m1, m2);
    crate::first_follow::lemma_follow_sets_unique(g, m1, f1, f2);
    assert forall|c: (u64, Symbol)| #[trigger] t1.contains_key(c)
        implies t2.contains_key(c) && t1[c] == t2[c] by {
        let a = c.0;
        let t = c.1;
        assert(t1.contains_key((a, t)));
        let (kk, b): (int, bool) = choose|kk: int, b: bool| cell_claim(g, m1, f1, a, t, kk, b);
        assert(cell_claim(g, m1, f1, a, t, kk, b));
        assert(t1[(a, t)] == g.productions[kk].derivation);
        assert(t2.contains_key((a, t)) && t2[(a, t)] == g.productions[kk].derivation);
    }
    assert forall|c: (u64, Symbol)| #[trigger] t2.contains_key(c)
        implies t1.contains_key(c) by {
        let a = c.0;
        let t = c.1;
        assert(t2.contains_key((a, t)));
        let (kk, b): (int, bool) = choose|kk: int, b: bool| cell_claim(g, m1, f1, a, t, kk, b);
        assert(cell_claim(g, m1, f1, a, t, kk, b));
        assert(t1.contains_key((a, t)));
    }
    assert(t1 =~= t2);
}

/// Once every claim of production `k` is processed, the builder may advance
/// to production `k + 1` with fresh per-production bookkeeping.
proof fn lemma_advance(
    g: GrammarV,
    m: Map<u64, Set<Symbol>>,
    f: Map<u64, Set<Symbol>>,
    tb: Map<(u64, Symbol), Seq<Symbol>>,
    k: int,
    k1: int,
    fdone: Set<Symbol>,
    wdone: Set<Symbol>,
)
    requires
        k1 == k + 1,
        0 <= k < g.productions.len(),
        builder_clean(g, m, f, tb, k, fdone, wdone),
        forall|t: Symbol|
            #[trigger] first_seq(m, g.productions[k].derivation).remove(
                Symbol::Epsilon,
            ).contains(t) ==> fdone.contains(t),
        forall|t: Symbol|
            first_seq(m, g.productions[k].derivation).contains(Symbol::Epsilon) && #[trigger] f[
                g.productions[k].non_terminal
            ].contains(t) ==> wdone.contains(t),
    ensures
        builder_clean(g, m, f, tb, k1, Set::empty(), Set::empty()),
{
    assert forall|a: u64, t: Symbol, kk: int, b: bool|
        claim_done(g, m, f, a, t, kk, b, k1, Set::empty(), Set::empty())
            <==> #[trigger] claim_done(g, m, f, a, t, kk, b, k, fdone, wdone) by {
        if cell_claim(g, m, f, a, t, kk, b) && kk == k {
            assert(g.productions[k].non_terminal == a);
            if b {
                if first_seq(m, g.productions[k].derivation).contains(Symbol::Epsilon)
                    && f[a].contains(t) {
                    assert(wdone.contains(t));
                }
            } else {
                if first_seq(m, g.productions[k].derivation).remove(Symbol::Epsilon).contains(t) {
                    assert(fdone.contains(t));
                }
            }
        }
    }
    assert forall|a: u64, t: Symbol| #[trigger] tb.contains_key((a, t))
        implies exists|kk: int, b: bool|
            claim_done(g, m, f, a, t, kk, b, k1, Set::empty(), Set::empty()) by {
        let (kk, b): (int, bool) = choose|kk: int, b: bool|
            claim_done(g, m, f, a, t, kk, b, k, fdone, wdone);
        assert(claim_done(g, m, f, a, t, kk, b, k1, Set::empty(), Set::empty()));
    }
    assert forall|a: u64, t: Symbol, kk: int, b: bool|
        #[trigger] claim_done(g, m, f, a, t, kk, b, k1, Set::empty(), Set::empty())
        implies tb.contains_key((a, t)) && tb[(a, t)] == g.productions[kk].derivation by {
        assert(claim_done(g, m, f, a, t, kk, b, k, fdone, wdone));
    }
    assert forall|a: u64, t: Symbol, ka: int, b1: bool, kb: int, b2: bool|
        #[trigger] claim_done(g, m, f, a, t, ka, b1, k1, Set::empty(), Set::empty())
            && #[trigger] claim_done(g, m, f, a, t, kb, b2, k1, Set::empty(), Set::empty())
        implies ka == kb && b1 == b2 by {
        assert(claim_done(g, m, f, a, t, ka, b1, k, fdone, wdone));
        assert(claim_done(g, m, f, a, t, kb, b2, k, fdone, wdone));
    }
}

/// Recording one fresh claim keeps the builder's table exactly the processed
/// claims: the new cell was unclaimed, the new done-sets admit exactly the
/// new claim, and every older claim is untouched.
proof fn lemma_claim_step(
    g: GrammarV,
    m: Map<u64, Set<Symbol>>,
    f: Map<u64, Set<Symbol>>,
    pre: Map<(u64, Symbol), Seq<Symbol>>,
    post: Map<(u64, Symbol), Seq<Symbol>>,
    k: int,
    fdone: Set<Symbol>,
    fdone1: Set<Symbol>,
    wdone: Set<Symbol>,
    wdone1: Set<Symbol>,
    lhs: u64,
    e: Symbol,
    via_follow: bool,
    derivation: Seq<Symbol>,
)
    requires
        builder_clean(g, m, f, pre, k, fdone, wdone),
        cell_claim(g, m, f, lhs, e, k, via_follow),
        g.productions[k].derivation == derivation,
        g.productions[k].non_terminal == lhs,
        !pre.contains_key((lhs, e)),
        post == pre.insert((lhs, e), derivation),
        if via_follow {
            fdone1 == fdone && wdone1 == wdone.insert(e) && !wdone.contains(e)
        } else {
            wdone1 == wdone && fdone1 == fdone.insert(e) && !fdone.contains(e)
        },
    ensures
        builder_clean(g, m, f, post, k, fdone1, wdone1),
{
    assert forall|a: u64, t: Symbol, kk: int, b: bool|
        claim_done(g, m, f, a, t, kk, b, k, fdone1, wdone1)
            <==> (claim_done(g, m, f, a, t, kk, b, k, fdone, wdone) || (a == lhs && t == e && kk
            == k && b == via_follow)) by {}
    assert forall|a: u64, t: Symbol| #[trigger] post.contains_key((a, t))
        implies exists|kk: int, b: bool| claim_done(g, m, f, a, t, kk, b, k, fdone1, wdone1) by {
        if (a, t) == (lhs, e) {
            assert(claim_done(g, m, f, lhs, e, k, via_follow, k, fdone1, wdone1));
        } else {
            assert(pre.contains_key((a, t)));
            let (kk, b): (int, bool) = choose|kk: int, b: bool|
                claim_done(g, m, f, a, t, kk, b, k, fdone, wdone);
            assert(claim_done(g, m, f, a, t, kk, b, k, fdone1, wdone1));
        }
    }
    assert forall|a: u64, t: Symbol, kk: int, b: bool|
        #[trigger] claim_done(g, m, f, a, t, kk, b, k, fdone1, wdone1)
        implies post.contains_key((a, t)) && post[(a, t)] == g.productions[kk].derivation by {
        if a == lhs && t == e && kk == k && b == via_follow {
        } else {
            assert(claim_done(g, m, f, a, t, kk, b, k, fdone, wdone));
            assert((a, t) != (lhs, e));
        }
    }
    assert forall|a: u64, t: Symbol, k1: int, b1: bool, k2: int, b2: bool|
        #[trigger] claim_done(g, m, f, a, t, k1, b1, k, fdone1, wdone1) && #[trigger] claim_done(
            g,
            m,
            f,
            a,
            t,
            k2,
            b2,
            k,
            fdone1,
            wdone1,
        ) implies k1 == k2 && b1 == b2 by {
        let new1 = a == lhs && t == e && k1 == k && b1 == via_follow;
        let new2 = a == lhs && t == e && k2 == k && b2 == via_follow;
        if new1 && !new2 {
            assert(claim_done(g, m, f, a, t, k2, b2, k, fdone, wdone));
            assert(pre.contains_key((a, t)));
            assert(false);
        }
        if new2 && !new1 {
            assert(claim_done(g, m, f, a, t, k1, b1, k, fdone, wdone));
            assert(pre.contains_key((a, t)));
            assert(false);
        }
    }
}

/// Copies a duplicate-free vector of identifiers into ascending order.
fn sorted_copy(src: &Vec<u64>) -> (r: Vec<u64>)
    requires
        src@.no_duplicates(),
    ensures
        sorted_ids(r@),
        r@.to_set() == src@.to_set(),
        r@.no_duplicates(),
{
    let n = src.len();
    let mut out: Vec<u64> = Vec::new();
    let mut i: usize = 0;
    proof {
        assert(out@.to_set() =~= src@.take(0).to_set());
    }
    while i < n
        invariant
            src@.no_duplicates(),
            n == src@.len(),
            0 <= i <= n,
            sorted_ids(out@),
            out@.to_set() == src@.take(i as int).to_set(),
            out@.len() == i,
        decreases n - i,
    {
        let x = src[i];
        proof {
            if out@.contains(x) {
                assert(out@.to_set().contains(x));
                assert(src@.take(i as int).contains(x));
                let j = choose|j: int| 0 <= j < i && src@.take(i as int)[j] == x;
                assert(src@[j] == x);
                assert(false);
            }
        }
        insert_sorted(&mut out, x);
        proof {
            let tk1 = src@.take(i + 1);
            let tk = src@.take(i as int);
            assert(tk1 =~= tk.push(x));
            assert forall|y: u64| tk1.to_set().contains(y)
                <==> tk.to_set().insert(x).contains(y) by {
                if tk1.contains(y) {
                    let j = choose|j: int| 0 <= j < tk1.len() && tk1[j] == y;
                    if j < tk.len() {
                        assert(tk[j] == y);
                    }
                }
                if tk.contains(y) {
                    let j = choose|j: int| 0 <= j < tk.len() && tk[j] == y;
                    assert(tk1[j] == y);
                }
                assert(tk1[tk.len() as int] == x);
            }
            assert(out@.to_set() =~= src@.take(i + 1).to_set());
        }
        i = i + 1;
    }
    proof {
        assert(src@.take(n as int) =~= src@);
        assert forall|i2: int, j2: int| 0 <= i2 < out@.len() && 0 <= j2 < out@.len() && i2 != j2
            implies out@[i2] != out@[j2] by {
            if i2 < j2 {
            }
        }
    }
    out
}

} // verus!
