//! The grammar model: productions, symbol vocabularies, start symbol.
//!
//! A grammar is built once, by adding productions, and is read-only for every
//! downstream computation. Adding a production registers its left-hand
//! non-terminal and every symbol of its right-hand side in the corresponding
//! vocabulary. The two reserved markers are never registered: the
//! empty-derivation marker stands only as the sole right-hand symbol of a
//! production, and the end marker never appears in a production at all.

use vstd::prelude::*;

use crate::symbols::Symbol;
use crate::symbols::lemma_push_contains;

verus! {

/// The mathematical value of a production.
pub struct ProductionV {
    /// The identifier of the left-hand non-terminal.
    pub non_terminal: u64,
    /// The ordered right-hand side.
    pub derivation: Seq<Symbol>,
}

/// The mathematical value of a grammar: the production list (order and
/// duplicates kept) and the vocabularies as sets.
pub struct GrammarV {
    /// The productions, in the order they were added.
    pub productions: Seq<ProductionV>,
    /// The identifiers of the registered terminals.
    pub terminals: Set<u64>,
    /// The identifiers of the registered non-terminals.
    pub non_terminals: Set<u64>,
    /// The identifier of the start non-terminal.
    pub start_symbol: u64,
}

/// One production: a left-hand non-terminal and its right-hand derivation.
///
/// The derivation is never empty: a production deriving the empty string
/// holds the single symbol `Symbol::Epsilon`.
#[derive(Clone, Debug)]
pub struct Production {
    /// The identifier of the left-hand non-terminal.
    pub non_terminal: u64,
    /// The ordered right-hand side.
    pub derivation: Vec<Symbol>,
}

impl View for Production {
    type V = ProductionV;

    open spec fn view(&self) -> ProductionV {
        ProductionV { non_terminal: self.non_terminal, derivation: self.derivation@ }
    }
}

/// A right-hand side acceptable for a production: non-empty, free of the end
/// marker, and holding the empty-derivation marker only as its sole symbol.
pub open spec fn derivation_ok(d: Seq<Symbol>) -> bool {
    &&& d.len() >= 1
    &&& forall|i: int| 0 <= i < d.len() ==> d[i] != Symbol::End
    &&& (d.contains(Symbol::Epsilon) ==> d.len() == 1)
}

/// Whether `s` may stand in a derivation of grammar `g`: the reserved markers
/// aside, its identifier must be registered in the vocabulary of its class.
pub open spec fn symbol_registered(g: GrammarV, s: Symbol) -> bool {
    match s {
        Symbol::Terminal(t) => g.terminals.contains(t),
        Symbol::NonTerminal(n) => g.non_terminals.contains(n),
        Symbol::Epsilon => true,
        Symbol::End => false,
    }
}

/// Whether production `p` is well formed with respect to grammar `g`.
pub open spec fn production_wf(g: GrammarV, p: ProductionV) -> bool {
    &&& derivation_ok(p.derivation)
    &&& g.non_terminals.contains(p.non_terminal)
    &&& forall|i: int| 0 <= i < p.derivation.len() ==> symbol_registered(g, #[trigger] p.derivation[i])
}

/// Whether every production of `g` is well formed.
pub open spec fn grammar_wf(g: GrammarV) -> bool {
    forall|i: int| 0 <= i < g.productions.len() ==> production_wf(g, #[trigger] g.productions[i])
}

impl Production {
    /// Creates a new production from a non-terminal and its derivation.
    pub fn new(non_terminal: u64, derivation: Vec<Symbol>) -> (r: Production)
        ensures
            r@ == (ProductionV { non_terminal, derivation: derivation@ }),
    {
        Production { non_terminal, derivation }
    }
}

/// A context-free grammar: an ordered list of productions, the terminal and
/// non-terminal vocabularies, and the start symbol.
#[derive(Debug)]
pub struct Grammar {
    /// The productions, in the order they were added; duplicates are kept.
    pub productions: Vec<Production>,
    /// The identifiers of the registered terminals, each occurring once.
    pub terminals: Vec<u64>,
    /// The identifiers of the registered non-terminals, each occurring once.
    pub non_terminals: Vec<u64>,
    /// The identifier of the start non-terminal.
    pub start_symbol: u64,
}

impl View for Grammar {
    type V = GrammarV;

    open spec fn view(&self) -> GrammarV {
        GrammarV {
            productions: self.productions@.map_values(|p: Production| p@),
            terminals: self.terminals@.to_set(),
            non_terminals: self.non_terminals@.to_set(),
            start_symbol: self.start_symbol,
        }
    }
}

impl Grammar {
    /// The grammar invariant: vocabularies hold no duplicates and every
    /// production is well formed.
    pub open spec fn wf(self) -> bool {
        &&& self.terminals@.no_duplicates()
        &&& self.non_terminals@.no_duplicates()
        &&& grammar_wf(self@)
    }

    /// Creates a new grammar with the given start symbol and no productions.
    ///
    /// The start symbol becomes registered once a production for it is added.
    pub fn new(start_symbol: u64) -> (r: Grammar)
        ensures
            r.wf(),
            r@.productions == Seq::<ProductionV>::empty(),
            r@.terminals == Set::<u64>::empty(),
            r@.non_terminals == Set::<u64>::empty(),
            r@.start_symbol == start_symbol,
    {
        let r = Grammar {
            productions: Vec::new(),
            terminals: Vec::new(),
            non_terminals: Vec::new(),
            start_symbol,
        };
        proof {
            assert(r@.productions =~= Seq::<ProductionV>::empty());
            assert(r@.terminals =~= Set::<u64>::empty());
            assert(r@.non_terminals =~= Set::<u64>::empty());
        }
        r
    }

    /// Adds a production rule to the grammar, registering its left-hand
    /// non-terminal and every right-hand symbol.
    pub fn add_production(&mut self, non_terminal: u64, derivation: Vec<Symbol>)
        requires
            old(self).wf(),
            derivation_ok(derivation@),
        ensures
            final(self).wf(),
            final(self)@.start_symbol == old(self)@.start_symbol,
            final(self)@.productions == old(self)@.productions.push(
                ProductionV { non_terminal, derivation: derivation@ },
            ),
            final(self)@.terminals == old(self)@.terminals.union(derivation_terminals(derivation@)),
            final(self)@.non_terminals == old(self)@.non_terminals.union(
                derivation_non_terminals(derivation@),
            ).insert(non_terminal),
    {
        insert_unique(&mut self.non_terminals, non_terminal);
        let production = Production::new(non_terminal, derivation.clone());
        self.update_symbols(&derivation);
        proof {
            assert(self@.non_terminals =~= old(self)@.non_terminals.union(
                derivation_non_terminals(derivation@),
            ).insert(non_terminal));
            assert(self@.terminals =~= old(self)@.terminals.union(
                derivation_terminals(derivation@),
            ));
        }
        self.productions.push(production);
        proof {
            let gv = self@;
            let pv = ProductionV { non_terminal, derivation: derivation@ };
            assert(gv.productions =~= old(self)@.productions.push(pv));
            assert(gv.non_terminals.contains(non_terminal));
            assert forall|i: int| 0 <= i < gv.productions.len()
                implies production_wf(gv, #[trigger] gv.productions[i]) by {
                let p = gv.productions[i];
                if i < old(self)@.productions.len() {
                    assert(production_wf(old(self)@, p));
                } else {
                    assert(p == pv);
                }
                assert forall|j: int| 0 <= j < p.derivation.len()
                    implies symbol_registered(gv, #[trigger] p.derivation[j]) by {
                    match p.derivation[j] {
                        Symbol::Terminal(t) => {
                            if i < old(self)@.productions.len() {
                                assert(old(self)@.terminals.contains(t));
                            } else {
                                assert(derivation_terminals(derivation@).contains(t));
                            }
                        },
                        Symbol::NonTerminal(n) => {
                            if i < old(self)@.productions.len() {
                                assert(old(self)@.non_terminals.contains(n));
                            } else {
                                assert(derivation_non_terminals(derivation@).contains(n));
                            }
                        },
                        _ => {},
                    }
                }
            }
        }
    }

    /// Registers every terminal and non-terminal of a derivation in the
    /// matching vocabulary; the reserved markers are never registered.
    fn update_symbols(&mut self, derivation: &Vec<Symbol>)
        requires
            old(self).terminals@.no_duplicates(),
            old(self).non_terminals@.no_duplicates(),
        ensures
            final(self).terminals@.no_duplicates(),
            final(self).non_terminals@.no_duplicates(),
            final(self).productions@ == old(self).productions@,
            final(self).start_symbol == old(self).start_symbol,
            final(self)@.terminals == old(self)@.terminals.union(
                derivation_terminals(derivation@),
            ),
            final(self)@.non_terminals == old(self)@.non_terminals.union(
                derivation_non_terminals(derivation@),
            ),
    {
        let n = derivation.len();
        let mut i: usize = 0;
        while i < n
            invariant
                n == derivation.len(),
                0 <= i <= n,
                self.terminals@.no_duplicates(),
                self.non_terminals@.no_duplicates(),
                self.productions@ == old(self).productions@,
                self.start_symbol == old(self).start_symbol,
                self@.terminals =~= old(self)@.terminals.union(
                    derivation_terminals(derivation@.take(i as int)),
                ),
                self@.non_terminals =~= old(self)@.non_terminals.union(
                    derivation_non_terminals(derivation@.take(i as int)),
                ),
            decreases n - i,
        {
            proof {
                lemma_vocab_take_step(derivation@, i as int);
            }
            match derivation[i] {
                Symbol::Terminal(t) => {
                    insert_unique(&mut self.terminals, t);
                },
                Symbol::NonTerminal(m) => {
                    insert_unique(&mut self.non_terminals, m);
                },
                Symbol::Epsilon => {},
                Symbol::End => {},
            }
            proof {
                assert(self@.terminals =~= old(self)@.terminals.union(
                    derivation_terminals(derivation@.take(i + 1)),
                ));
                assert(self@.non_terminals =~= old(self)@.non_terminals.union(
                    derivation_non_terminals(derivation@.take(i + 1)),
                ));
            }
            i = i + 1;
        }
        proof {
            assert(derivation@.take(n as int) =~= derivation@);
        }
    }

    /// Returns whether a symbol may stand in a derivation: everything but the
    /// end-of-input marker is acceptable.
    pub fn is_valid_symbol(symbol: &Symbol) -> (r: bool)
        ensures
            r == (*symbol != Symbol::End),
    {
        !matches!(symbol, Symbol::End)
    }
}

/// The identifiers of the terminals occurring in a derivation.
pub open spec fn derivation_terminals(d: Seq<Symbol>) -> Set<u64> {
    Set::new(|t: u64| d.contains(Symbol::Terminal(t)))
}

/// The identifiers of the non-terminals occurring in a derivation.
pub open spec fn derivation_non_terminals(d: Seq<Symbol>) -> Set<u64> {
    Set::new(|n: u64| d.contains(Symbol::NonTerminal(n)))
}

/// Taking one more symbol of a derivation extends the collected vocabularies
/// by exactly that symbol's identifier, if it has one.
proof fn lemma_vocab_take_step(d: Seq<Symbol>, i: int)
    requires
        0 <= i < d.len(),
    ensures
        derivation_terminals(d.take(i + 1)) == (match d[i] {
            Symbol::Terminal(t) => derivation_terminals(d.take(i)).insert(t),
            _ => derivation_terminals(d.take(i)),
        }),
        derivation_non_terminals(d.take(i + 1)) == (match d[i] {
            Symbol::NonTerminal(n) => derivation_non_terminals(d.take(i)).insert(n),
            _ => derivation_non_terminals(d.take(i)),
        }),
{
    assert(d.take(i + 1) =~= d.take(i).push(d[i]));
    assert forall|t: u64| #[trigger] d.take(i + 1).contains(Symbol::Terminal(t))
        <==> (d.take(i).contains(Symbol::Terminal(t)) || d[i] == Symbol::Terminal(t)) by {
        lemma_push_contains(d.take(i), d[i], Symbol::Terminal(t));
    }
    assert forall|n: u64| #[trigger] d.take(i + 1).contains(Symbol::NonTerminal(n))
        <==> (d.take(i).contains(Symbol::NonTerminal(n)) || d[i] == Symbol::NonTerminal(n)) by {
        lemma_push_contains(d.take(i), d[i], Symbol::NonTerminal(n));
    }
    match d[i] {
        Symbol::Terminal(t0) => {
            assert(derivation_terminals(d.take(i + 1)) =~= derivation_terminals(
                d.take(i),
            ).insert(t0));
            assert(derivation_non_terminals(d.take(i + 1)) =~= derivation_non_terminals(
                d.take(i),
            ));
        },
        Symbol::NonTerminal(n0) => {
            assert(derivation_terminals(d.take(i + 1)) =~= derivation_terminals(d.take(i)));
            assert(derivation_non_terminals(d.take(i + 1)) =~= derivation_non_terminals(
                d.take(i),
            ).insert(n0));
        },
        _ => {
            assert(derivation_terminals(d.take(i + 1)) =~= derivation_terminals(d.take(i)));
            assert(derivation_non_terminals(d.take(i + 1)) =~= derivation_non_terminals(
                d.take(i),
            ));
        },
    }
}

/// Returns whether a vector of identifiers holds `x`.
pub(crate) fn contains_id(v: &Vec<u64>, x: u64) -> (r: bool)
    ensures
        r == v@.contains(x),
{
    let n = v.len();
    let mut i: usize = 0;
    while i < n
        invariant
            n == v.len(),
            0 <= i <= n,
            forall|j: int| 0 <= j < i ==> v@[j] != x,
        decreases n - i,
    {
        if v[i] == x {
            assert(v@.contains(x));
            return true;
        }
        i = i + 1;
    }
    proof {
        assert(!v@.contains(x));
    }
    false
}

/// Appends `x` to a duplicate-free vector unless it is already present.
fn insert_unique(v: &mut Vec<u64>, x: u64)
    requires
        old(v)@.no_duplicates(),
    ensures
        final(v)@.no_duplicates(),
        final(v)@.to_set() == old(v)@.to_set().insert(x),
{
    let n = v.len();
    let mut i: usize = 0;
    while i < n
        invariant
            v@ == old(v)@,
            v@.no_duplicates(),
            n == v.len(),
            0 <= i <= n,
            forall|j: int| 0 <= j < i ==> v@[j] != x,
        decreases n - i,
    {
        if v[i] == x {
            proof {
                assert(v@.contains(x));
                assert(v@.to_set() =~= v@.to_set().insert(x));
            }
            return;
        }
        i = i + 1;
    }
    proof {
        assert(!v@.contains(x));
    }
    v.push(x);
    proof {
        assert forall|y: u64| v@.contains(y) <==> (old(v)@.contains(y) || y == x) by {
            if v@.contains(y) {
                let j = choose|j: int| 0 <= j < v@.len() && v@[j] == y;
                if j < old(v)@.len() {
                    assert(old(v)@[j] == y);
                }
            }
            if old(v)@.contains(y) {
                let j = choose|j: int| 0 <= j < old(v)@.len() && old(v)@[j] == y;
                assert(v@[j] == y);
            }
            assert(v@[v@.len() - 1] == x);
        }
        assert(v@.no_duplicates());
        assert(v@.to_set() =~= old(v)@.to_set().insert(x));
    }
}

} // verus!
