//! Grammar symbols and finite symbol sets.
//!
//! A symbol is classified once, at construction time: it is a terminal, a
//! non-terminal, the empty-derivation marker, or the end-of-input marker.
//! Terminals and non-terminals carry a numeric identifier; the two identifier
//! spaces are independent. Symbol sets are small deduplicated vectors viewed
//! as mathematical sets.

use vstd::prelude::*;

verus! {

/// A grammar symbol. The class of a symbol is fixed by its variant and is
/// never re-derived from any textual convention.
#[derive(Clone, Copy, PartialEq, Eq, Structural, Debug, Hash)]
pub enum Symbol {
    /// An atomic input symbol, identified by a number.
    Terminal(u64),
    /// A symbol expandable via productions, identified by a number.
    NonTerminal(u64),
    /// The marker for the empty derivation.
    Epsilon,
    /// The sentinel for the end of input and the bottom of the parse stack.
    End,
}

impl Symbol {
    /// Whether this symbol is a terminal.
    pub open spec fn spec_is_terminal(self) -> bool {
        matches!(self, Symbol::Terminal(_))
    }

    /// Whether this symbol is a non-terminal.
    pub open spec fn spec_is_non_terminal(self) -> bool {
        matches!(self, Symbol::NonTerminal(_))
    }

    /// Returns whether this symbol is a terminal.
    pub fn is_terminal(&self) -> (r: bool)
        ensures
            r == self.spec_is_terminal(),
    {
        matches!(self, Symbol::Terminal(_))
    }

    /// Returns whether this symbol is a non-terminal.
    pub fn is_non_terminal(&self) -> (r: bool)
        ensures
            r == self.spec_is_non_terminal(),
    {
        matches!(self, Symbol::NonTerminal(_))
    }
}

/// A finite set of symbols, stored as a vector without duplicates.
#[derive(Clone, Debug)]
pub struct SymbolSet {
    /// The members, each occurring exactly once.
    pub elems: Vec<Symbol>,
}

impl View for SymbolSet {
    type V = Set<Symbol>;

    open spec fn view(&self) -> Set<Symbol> {
        self.elems@.to_set()
    }
}

impl SymbolSet {
    /// The representation invariant: no member occurs twice.
    pub open spec fn inv(self) -> bool {
        self.elems@.no_duplicates()
    }

    /// Creates the empty set.
    pub fn new() -> (r: SymbolSet)
        ensures
            r.inv(),
            r@ == Set::<Symbol>::empty(),
    {
        let r = SymbolSet { elems: Vec::new() };
        proof {
            assert(r@ =~= Set::<Symbol>::empty());
        }
        r
    }

    /// Returns whether `s` is a member.
    pub fn contains(&self, s: Symbol) -> (r: bool)
        ensures
            r == self@.contains(s),
    {
        let n = self.elems.len();
        let mut i: usize = 0;
        while i < n
            invariant
                n == self.elems.len(),
                0 <= i <= n,
                forall|j: int| 0 <= j < i ==> self.elems@[j] != s,
            decreases n - i,
        {
            if self.elems[i] == s {
                assert(self.elems@.contains(s));
                return true;
            }
            i = i + 1;
        }
        assert(!self.elems@.contains(s));
        false
    }

    /// Inserts `s`, keeping the no-duplicates invariant; returns whether the
    /// set grew (i.e. `s` was not yet a member).
    pub fn insert(&mut self, s: Symbol) -> (added: bool)
        requires
            old(self).inv(),
        ensures
            final(self).inv(),
            final(self)@ == old(self)@.insert(s),
            added == !old(self)@.contains(s),
            final(self).elems@.len() == old(self).elems@.len() + (if added { 1int } else { 0int }),
            !added ==> *final(self) == *old(self),
    {
        if self.contains(s) {
            proof {
                assert(self@ =~= old(self)@.insert(s));
            }
            false
        } else {
            self.elems.push(s);
            proof {
                assert(self.elems@ == old(self).elems@.push(s));
                assert forall|x: Symbol| self@.contains(x) <==> old(self)@.insert(s).contains(x) by {
                    if self.elems@.contains(x) {
                        let j = choose|j: int| 0 <= j < self.elems@.len() && self.elems@[j] == x;
                        if j < old(self).elems@.len() {
                            assert(old(self).elems@[j] == x);
                        }
                    }
                    if old(self).elems@.contains(x) {
                        let j = choose|j: int| 0 <= j < old(self).elems@.len()
                            && old(self).elems@[j] == x;
                        assert(self.elems@[j] == x);
                    }
                    if x == s {
                        assert(self.elems@[self.elems@.len() - 1] == s);
                    }
                }
                assert(self@ =~= old(self)@.insert(s));
            }
            true
        }
    }

    /// Creates a set with the same members.
    pub fn duplicate(&self) -> (r: SymbolSet)
        ensures
            r.elems@ == self.elems@,
            r@ == self@,
            self.inv() ==> r.inv(),
    {
        let r = SymbolSet { elems: self.elems.clone() };
        proof {
            assert(r.elems@ =~= self.elems@);
        }
        r
    }

    /// Unions `src` (or `src` without the empty-derivation marker) into this
    /// set.
    pub fn union_from(&mut self, src: &SymbolSet, skip_epsilon: bool)
        requires
            old(self).inv(),
        ensures
            final(self).inv(),
            final(self)@ == old(self)@.union(
                if skip_epsilon { src@.remove(Symbol::Epsilon) } else { src@ },
            ),
    {
        let ghost part = |j: int| Set::new(
            |x: Symbol| src.elems@.take(j).contains(x) && !(skip_epsilon && x == Symbol::Epsilon),
        );
        let n = src.elems.len();
        let mut j: usize = 0;
        proof {
            assert(old(self)@.union(part(0)) =~= old(self)@);
        }
        while j < n
            invariant
                self.inv(),
                n == src.elems.len(),
                0 <= j <= n,
                part == |j: int| Set::new(
                    |x: Symbol| src.elems@.take(j).contains(x)
                        && !(skip_epsilon && x == Symbol::Epsilon),
                ),
                self@ == old(self)@.union(part(j as int)),
            decreases n - j,
        {
            let e = src.elems[j];
            proof {
                let tk1 = src.elems@.take(j + 1);
                let tk = src.elems@.take(j as int);
                assert(tk1 =~= tk.push(e));
                assert forall|x: Symbol| #[trigger] tk1.contains(x) <==> (tk.contains(x) || x == e) by {
                    lemma_push_contains(tk, e, x);
                }
            }
            if skip_epsilon && matches!(e, Symbol::Epsilon) {
                proof {
                    assert(part(j + 1) =~= part(j as int));
                }
            } else {
                self.insert(e);
                proof {
                    assert(part(j + 1) =~= part(j as int).insert(e));
                    assert(self@ =~= old(self)@.union(part(j + 1)));
                }
            }
            j = j + 1;
        }
        proof {
            assert(src.elems@.take(n as int) =~= src.elems@);
            assert(part(n as int) =~= (if skip_epsilon { src@.remove(Symbol::Epsilon) } else { src@ }));
        }
    }

    /// The number of members.
    pub fn len(&self) -> (r: usize)
        requires
            self.inv(),
        ensures
            r == self@.len(),
    {
        proof {
            self.elems@.unique_seq_to_set();
        }
        self.elems.len()
    }

    /// Returns whether this set and `other` have no member in common.
    pub fn is_disjoint(&self, other: &SymbolSet) -> (r: bool)
        ensures
            r == self@.disjoint(other@),
    {
        let n = self.elems.len();
        let mut i: usize = 0;
        while i < n
            invariant
                n == self.elems.len(),
                0 <= i <= n,
                forall|j: int| 0 <= j < i ==> !other@.contains(#[trigger] self.elems@[j]),
            decreases n - i,
        {
            if other.contains(self.elems[i]) {
                assert(self@.contains(self.elems@[i as int]));
                assert(!self@.disjoint(other@));
                return false;
            }
            i = i + 1;
        }
        proof {
            assert forall|x: Symbol| self@.contains(x) implies !other@.contains(x) by {
                let j = choose|j: int| 0 <= j < self.elems@.len() && self.elems@[j] == x;
            }
        }
        true
    }
}

/// A sequence extended by one element contains exactly the old elements and
/// the new one.
pub proof fn lemma_push_contains(s: Seq<Symbol>, pushed: Symbol, x: Symbol)
    ensures
        s.push(pushed).contains(x) <==> (s.contains(x) || x == pushed),
{
    if s.push(pushed).contains(x) {
        let q = choose|q: int| 0 <= q < s.push(pushed).len() && s.push(pushed)[q] == x;
        if q < s.len() {
            assert(s[q] == x);
        }
    }
    if s.contains(x) {
        let q = choose|q: int| 0 <= q < s.len() && s[q] == x;
        assert(s.push(pushed)[q] == x);
    }
    assert(s.push(pushed)[s.len() as int] == pushed);
}

/// The total number of stored members over a sequence of symbol sets: the
/// termination measure of the fixed-point computations.
pub open spec fn total_len(sets: Seq<SymbolSet>) -> nat
    decreases sets.len(),
{
    if sets.len() == 0 {
        0
    } else {
        total_len(sets.drop_last()) + sets.last().elems@.len()
    }
}

/// Replacing one set changes the total by the difference of the two lengths.
pub proof fn lemma_total_len_update(sets: Seq<SymbolSet>, i: int, s2: SymbolSet)
    requires
        0 <= i < sets.len(),
    ensures
        total_len(sets.update(i, s2)) + sets[i].elems@.len() == total_len(sets)
            + s2.elems@.len(),
    decreases sets.len(),
{
    let upd = sets.update(i, s2);
    if i == sets.len() - 1 {
        assert(upd.drop_last() =~= sets.drop_last());
        assert(upd.last() == s2);
    } else {
        assert(upd.drop_last() =~= sets.drop_last().update(i, s2));
        assert(upd.last() == sets.last());
        lemma_total_len_update(sets.drop_last(), i, s2);
    }
}

/// If every set is bounded, the total is bounded by count times bound.
pub proof fn lemma_total_len_bound(sets: Seq<SymbolSet>, b: nat)
    requires
        forall|i: int| 0 <= i < sets.len() ==> (#[trigger] sets[i]).elems@.len() <= b,
    ensures
        total_len(sets) <= sets.len() * b,
    decreases sets.len(),
{
    if sets.len() == 0 {
    } else {
        let rest = sets.drop_last();
        assert forall|i: int| 0 <= i < rest.len() implies (#[trigger] rest[i]).elems@.len() <= b by {
            assert(rest[i] == sets[i]);
        }
        lemma_total_len_bound(rest, b);
        assert(sets.last() == sets[sets.len() - 1]);
        assert((sets.len() - 1) * b + b == sets.len() * b) by (nonlinear_arith);
    }
}

/// A duplicate-free set whose members are all drawn from a duplicate-free
/// list of terminals, plus at most one marker, has at most one member more
/// than that list.
pub proof fn lemma_symbol_set_bounded(terminals: Seq<u64>, s: SymbolSet, marker: Symbol)
    requires
        terminals.no_duplicates(),
        s.inv(),
        !marker.spec_is_terminal(),
        forall|x: Symbol| #[trigger] s@.contains(x) ==> x == marker || (exists|t: u64|
            x == Symbol::Terminal(t) && terminals.contains(t)),
    ensures
        s.elems@.len() <= terminals.len() + 1,
{
    broadcast use vstd::seq_lib::seq_to_set_is_finite;

    let u = terminals.map_values(|t: u64| Symbol::Terminal(t)).push(marker);
    assert forall|i: int, j: int| 0 <= i < u.len() && 0 <= j < u.len() && i != j
        implies u[i] != u[j] by {
        if i < terminals.len() && j < terminals.len() {
            assert(u[i] == Symbol::Terminal(terminals[i]));
            assert(u[j] == Symbol::Terminal(terminals[j]));
        } else if i < terminals.len() {
            assert(u[i] == Symbol::Terminal(terminals[i]));
            assert(u[j] == marker);
        } else {
            assert(u[i] == marker);
            assert(u[j] == Symbol::Terminal(terminals[j]));
        }
    }
    assert(u.no_duplicates());
    assert forall|x: Symbol| s.elems@.to_set().contains(x) implies u.to_set().contains(x) by {
        assert(s@.contains(x));
        if x == marker {
            assert(u[u.len() - 1] == marker);
            assert(u.contains(x));
        } else {
            let t = choose|t: u64| x == Symbol::Terminal(t) && terminals.contains(t);
            let j = choose|j: int| 0 <= j < terminals.len() && terminals[j] == t;
            assert(u[j] == Symbol::Terminal(t));
            assert(u.contains(x));
        }
    }
    s.elems@.unique_seq_to_set();
    u.unique_seq_to_set();
    vstd::set_lib::lemma_len_subset(s.elems@.to_set(), u.to_set());
}

/// A finite map from non-terminal identifiers to symbol sets, stored as two
/// parallel vectors. It is the executable form of the FIRST-set and
/// FOLLOW-set tables.
#[derive(Clone, Debug)]
pub struct SetTable {
    /// The keys, each occurring exactly once.
    pub keys: Vec<u64>,
    /// The set associated with the key of the same index.
    pub sets: Vec<SymbolSet>,
}

impl View for SetTable {
    type V = Map<u64, Set<Symbol>>;

    open spec fn view(&self) -> Map<u64, Set<Symbol>> {
        Map::new(
            |k: u64| self.keys@.contains(k),
            |k: u64| self.sets@[self.keys@.index_of(k)]@,
        )
    }
}

impl SetTable {
    /// The representation invariant: keys are unique, the vectors run in
    /// parallel, and every stored set keeps its own invariant.
    pub open spec fn inv(self) -> bool {
        &&& self.keys@.no_duplicates()
        &&& self.sets@.len() == self.keys@.len()
        &&& forall|i: int| 0 <= i < self.sets@.len() ==> (#[trigger] self.sets@[i]).inv()
    }

    /// Each key's position is exactly what the view indexes the sets with.
    pub proof fn lemma_key_at(self, i: int)
        requires
            self.inv(),
            0 <= i < self.keys@.len(),
        ensures
            self.keys@.index_of(self.keys@[i]) == i,
            self@.contains_key(self.keys@[i]),
            self@[self.keys@[i]] == self.sets@[i]@,
    {
        let k = self.keys@[i];
        assert(self.keys@.contains(k));
        let j = self.keys@.index_of(k);
        assert(0 <= j < self.keys@.len() && self.keys@[j] == k);
        assert(j == i);
    }

    /// Creates an empty table.
    pub fn new() -> (r: SetTable)
        ensures
            r.inv(),
            r@ == Map::<u64, Set<Symbol>>::empty(),
            r.keys@ == Seq::<u64>::empty(),
    {
        let r = SetTable { keys: Vec::new(), sets: Vec::new() };
        proof {
            assert(r@ =~= Map::<u64, Set<Symbol>>::empty());
        }
        r
    }

    /// Returns whether `k` has an entry.
    pub fn contains_key(&self, k: u64) -> (r: bool)
        ensures
            r == self@.contains_key(k),
    {
        let n = self.keys.len();
        let mut i: usize = 0;
        while i < n
            invariant
                n == self.keys.len(),
                0 <= i <= n,
                forall|j: int| 0 <= j < i ==> self.keys@[j] != k,
            decreases n - i,
        {
            if self.keys[i] == k {
                assert(self.keys@.contains(k));
                return true;
            }
            i = i + 1;
        }
        assert(!self.keys@.contains(k));
        false
    }

    /// Returns the position of key `k`.
    pub fn index_for(&self, k: u64) -> (r: usize)
        requires
            self.inv(),
            self@.contains_key(k),
        ensures
            r < self.keys@.len(),
            self.keys@[r as int] == k,
            self.sets@[r as int]@ == self@[k],
            self.sets@[r as int].inv(),
    {
        let n = self.keys.len();
        let mut i: usize = 0;
        assert(self.keys@.contains(k));
        while i < n
            invariant
                self.inv(),
                self@.contains_key(k),
                n == self.keys.len(),
                0 <= i <= n,
                self.keys@.contains(k),
                forall|j: int| 0 <= j < i ==> self.keys@[j] != k,
            decreases n - i,
        {
            if self.keys[i] == k {
                proof {
                    self.lemma_key_at(i as int);
                }
                return i;
            }
            i = i + 1;
        }
        proof {
            let j = choose|j: int| 0 <= j < self.keys@.len() && self.keys@[j] == k;
            assert(false);
        }
        unreached()
    }

    /// Adds an entry for a key not yet present.
    pub fn push_entry(&mut self, k: u64, set: SymbolSet)
        requires
            old(self).inv(),
            !old(self)@.contains_key(k),
            set.inv(),
        ensures
            final(self).inv(),
            final(self)@ == old(self)@.insert(k, set@),
            final(self).keys@ == old(self).keys@.push(k),
    {
        proof {
            assert(!self.keys@.contains(k));
        }
        self.keys.push(k);
        self.sets.push(set);
        proof {
            let oldkeys = old(self).keys@;
            assert forall|k2: u64| self.keys@.contains(k2)
                <==> (oldkeys.contains(k2) || k2 == k) by {
                if self.keys@.contains(k2) {
                    let j = choose|j: int| 0 <= j < self.keys@.len() && self.keys@[j] == k2;
                    if j < oldkeys.len() {
                        assert(oldkeys[j] == k2);
                    }
                }
                if oldkeys.contains(k2) {
                    let j = choose|j: int| 0 <= j < oldkeys.len() && oldkeys[j] == k2;
                    assert(self.keys@[j] == k2);
                }
                assert(self.keys@[self.keys@.len() - 1] == k);
            }
            assert(self.keys@.no_duplicates());
            assert forall|k2: u64| #[trigger] self@.contains_key(k2)
                implies self@[k2] == old(self)@.insert(k, set@)[k2] by {
                let j = choose|j: int| 0 <= j < self.keys@.len() && self.keys@[j] == k2;
                self.lemma_key_at(j);
                if k2 == k {
                    assert(j == self.keys@.len() - 1);
                } else {
                    assert(j < old(self).keys@.len());
                    old(self).lemma_key_at(j);
                }
            }
            assert(self@ =~= old(self)@.insert(k, set@));
        }
    }

    /// Inserts symbol `s` into the set of key `k`; returns whether that set
    /// grew.
    pub fn insert_into(&mut self, k: u64, s: Symbol) -> (added: bool)
        requires
            old(self).inv(),
            old(self)@.contains_key(k),
        ensures
            final(self).inv(),
            final(self).keys@ == old(self).keys@,
            final(self)@ == old(self)@.insert(k, old(self)@[k].insert(s)),
            added == !old(self)@[k].contains(s),
            total_len(final(self).sets@) == total_len(old(self).sets@) + (if added {
                1nat
            } else {
                0nat
            }),
    {
        let i = self.index_for(k);
        let ghost oldsets = self.sets@;
        let added = self.sets[i].insert(s);
        proof {
            lemma_total_len_update(oldsets, i as int, self.sets@[i as int]);
        }
        proof {
            assert(self.sets@ == old(self).sets@.update(i as int, self.sets@[i as int]));
            assert forall|k2: u64| #[trigger] self@.contains_key(k2)
                implies self@[k2] == old(self)@.insert(k, old(self)@[k].insert(s))[k2] by {
                let j = choose|j: int| 0 <= j < self.keys@.len() && self.keys@[j] == k2;
                self.lemma_key_at(j);
                old(self).lemma_key_at(j);
                if k2 == k {
                    assert(j == i as int);
                } else {
                    assert(j != i as int);
                }
            }
            assert(self@ =~= old(self)@.insert(k, old(self)@[k].insert(s)));
        }
        added
    }

    /// Unions `src` (or `src` without the empty-derivation marker) into the
    /// set of key `k`; returns whether that set grew.
    pub fn union_into(&mut self, k: u64, src: &SymbolSet, skip_epsilon: bool) -> (added: bool)
        requires
            old(self).inv(),
            old(self)@.contains_key(k),
            src.inv(),
        ensures
            final(self).inv(),
            final(self).keys@ == old(self).keys@,
            final(self)@ == old(self)@.insert(k, old(self)@[k].union(
                if skip_epsilon { src@.remove(Symbol::Epsilon) } else { src@ },
            )),
            added == !(if skip_epsilon { src@.remove(Symbol::Epsilon) } else { src@ }).subset_of(
                old(self)@[k],
            ),
            added ==> total_len(final(self).sets@) >= total_len(old(self).sets@) + 1,
            !added ==> total_len(final(self).sets@) == total_len(old(self).sets@),
    {
        let ghost eligible: Set<Symbol> = if skip_epsilon {
            src@.remove(Symbol::Epsilon)
        } else {
            src@
        };
        let ghost part = |j: int| Set::new(
            |x: Symbol| src.elems@.take(j).contains(x) && !(skip_epsilon && x == Symbol::Epsilon),
        );
        let n = src.elems.len();
        let mut j: usize = 0;
        let mut added = false;
        proof {
            assert(old(self)@[k].union(part(0)) =~= old(self)@[k]);
            assert(self@ =~= old(self)@.insert(k, old(self)@[k].union(part(0))));
        }
        while j < n
            invariant
                self.inv(),
                self.keys@ == old(self).keys@,
                self@.contains_key(k),
                src.inv(),
                n == src.elems.len(),
                0 <= j <= n,
                part == |j: int| Set::new(
                    |x: Symbol| src.elems@.take(j).contains(x)
                        && !(skip_epsilon && x == Symbol::Epsilon),
                ),
                self@ == old(self)@.insert(k, old(self)@[k].union(part(j as int))),
                added == !part(j as int).subset_of(old(self)@[k]),
                added ==> total_len(self.sets@) >= total_len(old(self).sets@) + 1,
                !added ==> total_len(self.sets@) == total_len(old(self).sets@),
            decreases n - j,
        {
            let e = src.elems[j];
            proof {
                let tk1 = src.elems@.take(j + 1);
                let tk = src.elems@.take(j as int);
                assert(tk1 =~= tk.push(e));
                assert forall|x: Symbol| #[trigger] tk1.contains(x) <==> (tk.contains(x) || x == e) by {
                    lemma_push_contains(tk, e, x);
                }
            }
            if skip_epsilon && matches!(e, Symbol::Epsilon) {
                proof {
                    assert(part(j + 1) =~= part(j as int));
                }
            } else {
                let grew = self.insert_into(k, e);
                if grew {
                    added = true;
                }
                proof {
                    assert(part(j + 1) =~= part(j as int).insert(e));
                    assert((old(self)@[k].union(part(j as int))).insert(e) =~= old(self)@[k].union(
                        part(j + 1),
                    ));
                    assert(self@ =~= old(self)@.insert(
                        k,
                        old(self)@[k].union(part(j + 1)),
                    ));
                    if !added {
                        assert(part(j + 1).subset_of(old(self)@[k]));
                    } else {
                        if part(j as int).subset_of(old(self)@[k]) {
                            assert(!old(self)@[k].union(part(j as int)).contains(e));
                            assert(!old(self)@[k].contains(e));
                            assert(!part(j + 1).subset_of(old(self)@[k]));
                        }
                    }
                }
            }
            j = j + 1;
        }
        proof {
            assert(src.elems@.take(n as int) =~= src.elems@);
            assert(part(n as int) =~= eligible);
        }
        added
    }
}

} // verus!
