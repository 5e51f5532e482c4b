//! The derivation relation of a grammar and its theory.
//!
//! A sentential form rewrites by replacing one non-terminal occurrence with a
//! production's right-hand side; a word belongs to the grammar's language
//! when it is derivable from the start symbol. This module develops the
//! theory the parser's contracts rest on: derivations compose and decompose
//! over concatenation, a derived word's first symbol lies in FIRST of what it
//! came from, and a non-terminal occurrence in any form derived from the
//! start symbol has its following terminals in its FOLLOW set.

use vstd::prelude::*;

use crate::grammar::GrammarV;
use crate::grammar::ProductionV;
use crate::grammar::grammar_wf;
use crate::first_follow::dom_ok;
use crate::first_follow::first_closed;
use crate::first_follow::first_seq;
use crate::first_follow::first_sym;
use crate::first_follow::follow_closed;
use crate::first_follow::follow_pos_ok;
use crate::first_follow::follow_production_closed;
use crate::symbols::Symbol;

verus! {

/// The given sequence written back to front.
pub open spec fn rev(s: Seq<Symbol>) -> Seq<Symbol> {
    Seq::new(s.len(), |i: int| s[s.len() - 1 - i])
}

/// The symbols a right-hand side stands for in a sentential form: the
/// empty-derivation marker stands for nothing.
pub open spec fn strip_epsilon(alpha: Seq<Symbol>) -> Seq<Symbol> {
    if alpha.len() == 1 && alpha[0] == Symbol::Epsilon {
        Seq::empty()
    } else {
        alpha
    }
}

/// One rewrite step of the grammar: some non-terminal occurrence in `s1` is
/// replaced by the right-hand side of one of its productions.
pub open spec fn step_rewrites(g: GrammarV, s1: Seq<Symbol>, s2: Seq<Symbol>) -> bool {
    exists|i: int, p: crate::grammar::ProductionV|
        #![trigger g.productions.contains(p), s1[i]]
        0 <= i < s1.len() && g.productions.contains(p) && s1[i] == Symbol::NonTerminal(
            p.non_terminal,
        ) && s2 == s1.take(i) + strip_epsilon(p.derivation) + s1.skip(i + 1)
}

/// `s1` rewrites to `s2` in exactly `n` steps.
pub open spec fn derives_n(g: GrammarV, s1: Seq<Symbol>, s2: Seq<Symbol>, n: nat) -> bool
    decreases n,
{
    if n == 0 {
        s1 == s2
    } else {
        exists|mid: Seq<Symbol>|
            derives_n(g, s1, mid, (n - 1) as nat) && #[trigger] step_rewrites(g, mid, s2)
    }
}

/// `s1` rewrites to `s2` in finitely many steps: `s2` is derivable from `s1`.
pub open spec fn derives(g: GrammarV, s1: Seq<Symbol>, s2: Seq<Symbol>) -> bool {
    exists|n: nat| #[trigger] derives_n(g, s1, s2, n)
}

/// Derivability is closed under one more rewrite step.
pub proof fn lemma_derives_step(g: GrammarV, s1: Seq<Symbol>, s2: Seq<Symbol>, s3: Seq<Symbol>)
    requires
        derives(g, s1, s2),
        step_rewrites(g, s2, s3),
    ensures
        derives(g, s1, s3),
{
    let n = choose|n: nat| derives_n(g, s1, s2, n);
    let n1: nat = n + 1;
    assert(derives_n(g, s1, s3, n1)) by {
        assert(n1 != 0);
        assert(derives_n(g, s1, s2, (n1 - 1) as nat));
        assert(step_rewrites(g, s2, s3));
    }
}


/// A string of terminal symbols only.
pub open spec fn terminal_string(w: Seq<Symbol>) -> bool {
    forall|i: int| 0 <= i < w.len() ==> (#[trigger] w[i]) is Terminal
}

/// A string without non-terminals admits no rewrite step: it derives only
/// itself.
pub proof fn lemma_derives_only_self(g: GrammarV, s: Seq<Symbol>, w: Seq<Symbol>, n: nat)
    requires
        derives_n(g, s, w, n),
        forall|i: int| 0 <= i < s.len() ==> !((#[trigger] s[i]) is NonTerminal),
    ensures
        w == s,
        n == 0,
    decreases n,
{
    if n != 0 {
        let mid = choose|mid: Seq<Symbol>|
            derives_n(g, s, mid, (n - 1) as nat) && #[trigger] step_rewrites(g, mid, w);
        lemma_derives_only_self(g, s, mid, (n - 1) as nat);
        let (i, p): (int, ProductionV) = choose|i: int, p: ProductionV|
            #![trigger g.productions.contains(p), mid[i]]
            0 <= i < mid.len() && g.productions.contains(p) && mid[i] == Symbol::NonTerminal(
                p.non_terminal,
            ) && w == mid.take(i) + strip_epsilon(p.derivation) + mid.skip(i + 1);
        assert(s[i] is NonTerminal);
        assert(false);
    }
}

/// A derivation of at least one step starts with a step.
pub proof fn lemma_derives_first_step(g: GrammarV, s1: Seq<Symbol>, s2: Seq<Symbol>, n: nat)
    requires
        derives_n(g, s1, s2, n),
        n >= 1,
    ensures
        exists|mid: Seq<Symbol>|
            #[trigger] step_rewrites(g, s1, mid) && derives_n(g, mid, s2, (n - 1) as nat),
    decreases n,
{
    let mid2 = choose|mid2: Seq<Symbol>|
        derives_n(g, s1, mid2, (n - 1) as nat) && #[trigger] step_rewrites(g, mid2, s2);
    if n == 1 {
        assert(s1 == mid2);
        assert(step_rewrites(g, s1, s2));
        assert(derives_n(g, s2, s2, 0));
    } else {
        lemma_derives_first_step(g, s1, mid2, (n - 1) as nat);
        let m1 = choose|m1: Seq<Symbol>|
            #[trigger] step_rewrites(g, s1, m1) && derives_n(g, m1, mid2, ((n - 1) - 1) as nat);
        let k: nat = (n - 1) as nat;
        assert(derives_n(g, m1, s2, k)) by {
            assert(k != 0);
            assert(derives_n(g, m1, mid2, (k - 1) as nat));
            assert(step_rewrites(g, mid2, s2));
        }
        assert(step_rewrites(g, s1, m1) && derives_n(g, m1, s2, (n - 1) as nat));
    }
}

/// Derivations chain: the step counts add.
pub proof fn lemma_derives_n_trans(
    g: GrammarV,
    a: Seq<Symbol>,
    b: Seq<Symbol>,
    c: Seq<Symbol>,
    n: nat,
    k: nat,
)
    requires
        derives_n(g, a, b, n),
        derives_n(g, b, c, k),
    ensures
        derives_n(g, a, c, n + k),
    decreases k,
{
    if k == 0 {
        assert(b == c);
    } else {
        let mid = choose|mid: Seq<Symbol>|
            derives_n(g, b, mid, (k - 1) as nat) && #[trigger] step_rewrites(g, mid, c);
        lemma_derives_n_trans(g, a, b, mid, n, (k - 1) as nat);
        let t: nat = n + k;
        assert(derives_n(g, a, c, t)) by {
            assert(t != 0);
            assert(derives_n(g, a, mid, (t - 1) as nat));
            assert(step_rewrites(g, mid, c));
        }
    }
}

/// A rewrite step lifts to a right context.
proof fn lemma_step_lift_right(g: GrammarV, s: Seq<Symbol>, t: Seq<Symbol>, y: Seq<Symbol>)
    requires
        step_rewrites(g, s, t),
    ensures
        step_rewrites(g, s + y, t + y),
{
    let (i, p): (int, ProductionV) = choose|i: int, p: ProductionV|
        #![trigger g.productions.contains(p), s[i]]
        0 <= i < s.len() && g.productions.contains(p) && s[i] == Symbol::NonTerminal(
            p.non_terminal,
        ) && t == s.take(i) + strip_epsilon(p.derivation) + s.skip(i + 1);
    assert((s + y)[i] == s[i]);
    assert(t + y =~= (s + y).take(i) + strip_epsilon(p.derivation) + (s + y).skip(i + 1)) by {
        assert((s + y).take(i) =~= s.take(i));
        assert((s + y).skip(i + 1) =~= s.skip(i + 1) + y);
    }
    assert(g.productions.contains(p));
    assert(step_rewrites(g, s + y, t + y));
}

/// A rewrite step lifts to a left context.
proof fn lemma_step_lift_left(g: GrammarV, x: Seq<Symbol>, s: Seq<Symbol>, t: Seq<Symbol>)
    requires
        step_rewrites(g, s, t),
    ensures
        step_rewrites(g, x + s, x + t),
{
    let (i, p): (int, ProductionV) = choose|i: int, p: ProductionV|
        #![trigger g.productions.contains(p), s[i]]
        0 <= i < s.len() && g.productions.contains(p) && s[i] == Symbol::NonTerminal(
            p.non_terminal,
        ) && t == s.take(i) + strip_epsilon(p.derivation) + s.skip(i + 1);
    let j = x.len() + i;
    assert((x + s)[j] == s[i]);
    assert(x + t =~= (x + s).take(j) + strip_epsilon(p.derivation) + (x + s).skip(j + 1)) by {
        assert((x + s).take(j) =~= x + s.take(i));
        assert((x + s).skip(j + 1) =~= s.skip(i + 1));
        assert(x + t =~= (x + s.take(i)) + strip_epsilon(p.derivation) + s.skip(i + 1));
    }
    assert(g.productions.contains(p));
    assert(step_rewrites(g, x + s, x + t));
}

/// A derivation lifts to a right context.
proof fn lemma_derives_lift_right(g: GrammarV, s: Seq<Symbol>, w: Seq<Symbol>, y: Seq<Symbol>, n: nat)
    requires
        derives_n(g, s, w, n),
    ensures
        derives_n(g, s + y, w + y, n),
    decreases n,
{
    if n == 0 {
        assert(s == w);
    } else {
        let mid = choose|mid: Seq<Symbol>|
            derives_n(g, s, mid, (n - 1) as nat) && #[trigger] step_rewrites(g, mid, w);
        lemma_derives_lift_right(g, s, mid, y, (n - 1) as nat);
        lemma_step_lift_right(g, mid, w, y);
        assert(derives_n(g, s + y, w + y, n)) by {
            assert(derives_n(g, s + y, mid + y, (n - 1) as nat));
            assert(step_rewrites(g, mid + y, w + y));
        }
    }
}

/// A derivation lifts to a left context.
proof fn lemma_derives_lift_left(g: GrammarV, x: Seq<Symbol>, s: Seq<Symbol>, w: Seq<Symbol>, n: nat)
    requires
        derives_n(g, s, w, n),
    ensures
        derives_n(g, x + s, x + w, n),
    decreases n,
{
    if n == 0 {
        assert(s == w);
    } else {
        let mid = choose|mid: Seq<Symbol>|
            derives_n(g, s, mid, (n - 1) as nat) && #[trigger] step_rewrites(g, mid, w);
        lemma_derives_lift_left(g, x, s, mid, (n - 1) as nat);
        lemma_step_lift_left(g, x, mid, w);
        assert(derives_n(g, x + s, x + w, n)) by {
            assert(derives_n(g, x + s, x + mid, (n - 1) as nat));
            assert(step_rewrites(g, x + mid, x + w));
        }
    }
}

/// Derivations compose over concatenation.
pub proof fn lemma_derives_concat(
    g: GrammarV,
    x: Seq<Symbol>,
    w1: Seq<Symbol>,
    y: Seq<Symbol>,
    w2: Seq<Symbol>,
    n1: nat,
    n2: nat,
)
    requires
        derives_n(g, x, w1, n1),
        derives_n(g, y, w2, n2),
    ensures
        derives_n(g, x + y, w1 + w2, n1 + n2),
{
    lemma_derives_lift_right(g, x, w1, y, n1);
    lemma_derives_lift_left(g, w1, y, w2, n2);
    lemma_derives_n_trans(g, x + y, w1 + y, w1 + w2, n1, n2);
}

/// Derivations decompose over concatenation: whatever a concatenation
/// derives splits into a part derived from each side.
pub proof fn lemma_derives_split(g: GrammarV, x: Seq<Symbol>, y: Seq<Symbol>, w: Seq<Symbol>, n: nat)
    requires
        derives_n(g, x + y, w, n),
    ensures
        exists|w1: Seq<Symbol>, w2: Seq<Symbol>, n1: nat, n2: nat|
            #![trigger derives_n(g, x, w1, n1), derives_n(g, y, w2, n2)]
            w == w1 + w2 && n1 + n2 == n && derives_n(g, x, w1, n1) && derives_n(g, y, w2, n2),
    decreases n,
{
    if n == 0 {
        assert(w == x + y);
        assert(derives_n(g, x, x, 0) && derives_n(g, y, y, 0));
    } else {
        let mid = choose|mid: Seq<Symbol>|
            derives_n(g, x + y, mid, (n - 1) as nat) && #[trigger] step_rewrites(g, mid, w);
        lemma_derives_split(g, x, y, mid, (n - 1) as nat);
        let (m1, m2, a, b): (Seq<Symbol>, Seq<Symbol>, nat, nat) = choose|
            m1: Seq<Symbol>,
            m2: Seq<Symbol>,
            a: nat,
            b: nat,
        |
            #![trigger derives_n(g, x, m1, a), derives_n(g, y, m2, b)]
            mid == m1 + m2 && a + b == (n - 1) as nat && derives_n(g, x, m1, a) && derives_n(
                g,
                y,
                m2,
                b,
            );
        let (i, p): (int, ProductionV) = choose|i: int, p: ProductionV|
            #![trigger g.productions.contains(p), mid[i]]
            0 <= i < mid.len() && g.productions.contains(p) && mid[i] == Symbol::NonTerminal(
                p.non_terminal,
            ) && w == mid.take(i) + strip_epsilon(p.derivation) + mid.skip(i + 1);
        if i < m1.len() {
            let w1 = m1.take(i) + strip_epsilon(p.derivation) + m1.skip(i + 1);
            assert(m1[i] == mid[i]);
            assert(g.productions.contains(p));
            assert(step_rewrites(g, m1, w1));
            let a1: nat = a + 1;
            assert(derives_n(g, x, w1, a1)) by {
                assert(a1 != 0);
                assert(derives_n(g, x, m1, (a1 - 1) as nat));
                assert(step_rewrites(g, m1, w1));
            }
            assert(w =~= w1 + m2) by {
                assert(mid.take(i) =~= m1.take(i));
                assert(mid.skip(i + 1) =~= m1.skip(i + 1) + m2);
            }
            assert(w == w1 + m2 && a1 + b == n && derives_n(g, x, w1, a1) && derives_n(
                g,
                y,
                m2,
                b,
            ));
        } else {
            let j = i - m1.len();
            let w2 = m2.take(j) + strip_epsilon(p.derivation) + m2.skip(j + 1);
            assert(m2[j] == mid[i]);
            assert(g.productions.contains(p));
            assert(step_rewrites(g, m2, w2));
            let b1: nat = b + 1;
            assert(derives_n(g, y, w2, b1)) by {
                assert(b1 != 0);
                assert(derives_n(g, y, m2, (b1 - 1) as nat));
                assert(step_rewrites(g, m2, w2));
            }
            assert(w =~= m1 + w2) by {
                assert(mid.take(i) =~= m1 + m2.take(j));
                assert(mid.skip(i + 1) =~= m2.skip(j + 1));
            }
            assert(w == m1 + w2 && a + b1 == n && derives_n(g, x, m1, a) && derives_n(
                g,
                y,
                w2,
                b1,
            ));
        }
    }
}

/// The nullable scan over a concatenation: the non-epsilon part of the left
/// side, and the right side exactly when the left side is nullable.
pub proof fn lemma_first_seq_concat(m: Map<u64, Set<Symbol>>, u: Seq<Symbol>, v: Seq<Symbol>)
    ensures
        first_seq(m, u + v) == first_seq(m, u).remove(Symbol::Epsilon).union(
            if first_seq(m, u).contains(Symbol::Epsilon) {
                first_seq(m, v)
            } else {
                Set::empty()
            },
        ),
    decreases u.len(),
{
    if u.len() == 0 {
        assert(u + v =~= v);
        assert(first_seq(m, u) == set![Symbol::Epsilon]);
        assert(first_seq(m, u + v) =~= first_seq(m, u).remove(Symbol::Epsilon).union(
            first_seq(m, v),
        ));
    } else {
        assert((u + v).len() > 0);
        assert((u + v)[0] == u[0]);
        assert((u + v).drop_first() =~= u.drop_first() + v);
        lemma_first_seq_concat(m, u.drop_first(), v);
        let f = first_sym(m, u[0]);
        if f.contains(Symbol::Epsilon) {
            assert(first_seq(m, u + v) == f.remove(Symbol::Epsilon).union(
                first_seq(m, u.drop_first() + v),
            ));
            assert(first_seq(m, u) == f.remove(Symbol::Epsilon).union(
                first_seq(m, u.drop_first()),
            ));
            if first_seq(m, u.drop_first()).contains(Symbol::Epsilon) {
                assert(first_seq(m, u).contains(Symbol::Epsilon));
                assert(first_seq(m, u + v) =~= first_seq(m, u).remove(Symbol::Epsilon).union(
                    first_seq(m, v),
                ));
            } else {
                assert(!first_seq(m, u).contains(Symbol::Epsilon));
                assert(first_seq(m, u + v) =~= first_seq(m, u).remove(Symbol::Epsilon).union(
                    Set::empty(),
                ));
            }
        } else {
            assert(first_seq(m, u + v) == f);
            assert(first_seq(m, u) == f);
            assert(!first_seq(m, u).contains(Symbol::Epsilon));
            assert(first_seq(m, u + v) =~= first_seq(m, u).remove(Symbol::Epsilon).union(
                Set::empty(),
            ));
        }
    }
}

/// What a right-hand side stands for in a sentential form has the same FIRST
/// set as the right-hand side itself.
pub proof fn lemma_first_seq_strip(m: Map<u64, Set<Symbol>>, alpha: Seq<Symbol>)
    ensures
        first_seq(m, strip_epsilon(alpha)) == first_seq(m, alpha),
{
    if alpha.len() == 1 && alpha[0] == Symbol::Epsilon {
        assert(first_sym(m, alpha[0]) == set![Symbol::Epsilon]);
        assert(set![Symbol::Epsilon].contains(Symbol::Epsilon));
        assert(alpha.drop_first() =~= Seq::<Symbol>::empty());
        assert(first_seq(m, alpha.drop_first()) == set![Symbol::Epsilon]);
        assert(first_seq(m, alpha) == first_sym(m, alpha[0]).remove(Symbol::Epsilon).union(
            first_seq(m, alpha.drop_first()),
        ));
        assert(first_seq(m, alpha) =~= set![Symbol::Epsilon]);
        assert(strip_epsilon(alpha) =~= Seq::<Symbol>::empty());
        assert(first_seq(m, strip_epsilon(alpha)) == set![Symbol::Epsilon]);
    }
}

/// A left context keeps FIRST-set inclusion of its continuations.
proof fn lemma_first_seq_prefix_mono(
    m: Map<u64, Set<Symbol>>,
    u: Seq<Symbol>,
    x1: Seq<Symbol>,
    x2: Seq<Symbol>,
)
    requires
        first_seq(m, x1).subset_of(first_seq(m, x2)),
    ensures
        first_seq(m, u + x1).subset_of(first_seq(m, u + x2)),
{
    lemma_first_seq_concat(m, u, x1);
    lemma_first_seq_concat(m, u, x2);
    assert forall|s: Symbol| #[trigger] first_seq(m, u + x1).contains(s)
        implies first_seq(m, u + x2).contains(s) by {}
}

/// One rewrite step can only shrink the FIRST set of a form, under a closed
/// FIRST table.
pub proof fn lemma_step_first_subset(
    g: GrammarV,
    m: Map<u64, Set<Symbol>>,
    s1: Seq<Symbol>,
    s2: Seq<Symbol>,
)
    requires
        grammar_wf(g),
        dom_ok(g, m),
        first_closed(g, m),
        step_rewrites(g, s1, s2),
    ensures
        first_seq(m, s2).subset_of(first_seq(m, s1)),
{
    let (i, p): (int, ProductionV) = choose|i: int, p: ProductionV|
        #![trigger g.productions.contains(p), s1[i]]
        0 <= i < s1.len() && g.productions.contains(p) && s1[i] == Symbol::NonTerminal(
            p.non_terminal,
        ) && s2 == s1.take(i) + strip_epsilon(p.derivation) + s1.skip(i + 1);
    let rest = s1.skip(i + 1);
    let a = p.non_terminal;
    assert(g.non_terminals.contains(a)) by {
        let k = choose|k: int| 0 <= k < g.productions.len() && g.productions[k] == p;
        assert(crate::grammar::production_wf(g, g.productions[k]));
    }
    assert(first_seq(m, strip_epsilon(p.derivation) + rest).subset_of(first_seq(
        m,
        seq![s1[i]] + rest,
    ))) by {
        lemma_first_seq_concat(m, strip_epsilon(p.derivation), rest);
        lemma_first_seq_concat(m, seq![s1[i]], rest);
        lemma_first_seq_strip(m, p.derivation);
        assert(first_seq(m, p.derivation).subset_of(m[a]));
        assert(first_seq(m, seq![s1[i]]) == first_sym(m, s1[i]).remove(Symbol::Epsilon).union(
            if first_sym(m, s1[i]).contains(Symbol::Epsilon) {
                first_seq(m, Seq::<Symbol>::empty())
            } else {
                Set::empty()
            },
        )) by {
            assert(seq![s1[i]].drop_first() =~= Seq::<Symbol>::empty());
        }
        assert(m.contains_key(a)) by {
            assert(m.dom().contains(a));
        }
        assert(first_sym(m, s1[i]) == m[a]);
        assert forall|s: Symbol| #[trigger] first_seq(
            m,
            strip_epsilon(p.derivation) + rest,
        ).contains(s) implies first_seq(m, seq![s1[i]] + rest).contains(s) by {
            if s == Symbol::Epsilon {
                assert(first_seq(m, p.derivation).contains(Symbol::Epsilon) || first_seq(
                    m,
                    rest,
                ).contains(Symbol::Epsilon));
            }
        }
    }
    assert(s2 =~= s1.take(i) + (strip_epsilon(p.derivation) + rest));
    assert(s1 =~= s1.take(i) + (seq![s1[i]] + rest));
    lemma_first_seq_prefix_mono(
        m,
        s1.take(i),
        strip_epsilon(p.derivation) + rest,
        seq![s1[i]] + rest,
    );
}

/// A derivation can only shrink the FIRST set, under a closed FIRST table.
pub proof fn lemma_derives_first_subset(
    g: GrammarV,
    m: Map<u64, Set<Symbol>>,
    alpha: Seq<Symbol>,
    w: Seq<Symbol>,
    n: nat,
)
    requires
        grammar_wf(g),
        dom_ok(g, m),
        first_closed(g, m),
        derives_n(g, alpha, w, n),
    ensures
        first_seq(m, w).subset_of(first_seq(m, alpha)),
    decreases n,
{
    if n == 0 {
        assert(w == alpha);
    } else {
        let mid = choose|mid: Seq<Symbol>|
            derives_n(g, alpha, mid, (n - 1) as nat) && #[trigger] step_rewrites(g, mid, w);
        lemma_derives_first_subset(g, m, alpha, mid, (n - 1) as nat);
        lemma_step_first_subset(g, m, mid, w);
    }
}

/// FOLLOW soundness along derivations: in any form derived from the start
/// symbol, whatever terminal can begin the remainder after a non-terminal
/// occurrence lies in that non-terminal's FOLLOW set, and when the remainder
/// is nullable the end marker does.
pub proof fn lemma_derives_follow_sound(
    g: GrammarV,
    m: Map<u64, Set<Symbol>>,
    f: Map<u64, Set<Symbol>>,
    x: Seq<Symbol>,
    n: nat,
    j: int,
)
    requires
        grammar_wf(g),
        dom_ok(g, m),
        first_closed(g, m),
        follow_closed(g, m, f),
        derives_n(g, seq![Symbol::NonTerminal(g.start_symbol)], x, n),
        0 <= j < x.len(),
        x[j] is NonTerminal,
    ensures
        first_seq(m, x.skip(j + 1)).remove(Symbol::Epsilon).subset_of(f[x[j]->NonTerminal_0]),
        first_seq(m, x.skip(j + 1)).contains(Symbol::Epsilon) ==> f[x[j]->NonTerminal_0].contains(
            Symbol::End,
        ),
    decreases n,
{
    let a = x[j]->NonTerminal_0;
    let start = seq![Symbol::NonTerminal(g.start_symbol)];
    if n == 0 {
        assert(x == start);
        assert(x.len() == 1);
        assert(j == 0);
        assert(x[0] == Symbol::NonTerminal(g.start_symbol));
        assert(a == g.start_symbol);
        assert(x.skip(1) =~= Seq::<Symbol>::empty());
        assert(first_seq(m, x.skip(j + 1)) == set![Symbol::Epsilon]);
        assert(first_seq(m, x.skip(j + 1)).remove(Symbol::Epsilon) =~= Set::<Symbol>::empty());
        assert(f[g.start_symbol].contains(Symbol::End));
    } else {
        let mid = choose|mid: Seq<Symbol>|
            derives_n(g, start, mid, (n - 1) as nat) && #[trigger] step_rewrites(g, mid, x);
        let (i, p): (int, ProductionV) = choose|i: int, p: ProductionV|
            #![trigger g.productions.contains(p), mid[i]]
            0 <= i < mid.len() && g.productions.contains(p) && mid[i] == Symbol::NonTerminal(
                p.non_terminal,
            ) && x == mid.take(i) + strip_epsilon(p.derivation) + mid.skip(i + 1);
        let st = strip_epsilon(p.derivation);
        let b = p.non_terminal;
        assert(x.len() == mid.len() - 1 + st.len());
        if j < i {
            assert(x[j] == mid[j]);
            let msuf = mid.skip(j + 1);
            let xsuf = x.skip(j + 1);
            let i2 = i - (j + 1);
            assert(step_rewrites(g, msuf, xsuf)) by {
                assert(msuf[i2] == mid[i]);
                assert(xsuf =~= msuf.take(i2) + st + msuf.skip(i2 + 1)) by {
                    assert(msuf.take(i2) =~= mid.subrange(j + 1, i));
                    assert(msuf.skip(i2 + 1) =~= mid.skip(i + 1));
                    assert(xsuf =~= mid.subrange(j + 1, i) + st + mid.skip(i + 1));
                }
                assert(g.productions.contains(p));
            }
            lemma_step_first_subset(g, m, msuf, xsuf);
            lemma_derives_follow_sound(g, m, f, mid, (n - 1) as nat, j);
            assert forall|s: Symbol| #[trigger] first_seq(m, xsuf).remove(
                Symbol::Epsilon,
            ).contains(s) implies f[a].contains(s) by {
                assert(first_seq(m, msuf).remove(Symbol::Epsilon).contains(s));
            }
            if first_seq(m, xsuf).contains(Symbol::Epsilon) {
                assert(first_seq(m, msuf).contains(Symbol::Epsilon));
            }
        } else if j < i + st.len() {
            let q = j - i;
            assert(st.len() > 0);
            assert(st == p.derivation);
            assert(x[j] == st[q]);
            assert(p.derivation[q] == Symbol::NonTerminal(a));
            assert(follow_production_closed(m, f, p));
            assert(follow_pos_ok(m, f, p, q));
            let dsuf = first_seq(m, p.derivation.skip(q + 1));
            assert(dsuf.remove(Symbol::Epsilon).subset_of(f[a]));
            assert(dsuf.contains(Symbol::Epsilon) ==> f[b].subset_of(f[a]));
            assert(x.skip(j + 1) =~= p.derivation.skip(q + 1) + mid.skip(i + 1));
            lemma_first_seq_concat(m, p.derivation.skip(q + 1), mid.skip(i + 1));
            assert(mid[i] is NonTerminal);
            lemma_derives_follow_sound(g, m, f, mid, (n - 1) as nat, i);
            assert(mid[i]->NonTerminal_0 == b);
            let msuff = first_seq(m, mid.skip(i + 1));
            assert forall|s: Symbol| #[trigger] first_seq(m, x.skip(j + 1)).remove(
                Symbol::Epsilon,
            ).contains(s) implies f[a].contains(s) by {
                if dsuf.remove(Symbol::Epsilon).contains(s) {
                } else {
                    assert(dsuf.contains(Symbol::Epsilon));
                    assert(msuff.contains(s));
                    assert(msuff.remove(Symbol::Epsilon).contains(s));
                    assert(f[b].contains(s));
                    assert(f[b].subset_of(f[a]));
                }
            }
            if first_seq(m, x.skip(j + 1)).contains(Symbol::Epsilon) {
                assert(dsuf.contains(Symbol::Epsilon) && msuff.contains(Symbol::Epsilon));
                assert(f[b].contains(Symbol::End));
                assert(f[b].subset_of(f[a]));
            }
        } else {
            let j2 = j - st.len() + 1;
            assert(x[j] == mid[j2]) by {
                assert(x[j] == mid.skip(i + 1)[j - i - st.len()]);
            }
            let xs = x.skip(j + 1);
            let ms = mid.skip(j2 + 1);
            assert(xs =~= ms) by {
                assert(xs.len() == ms.len());
                assert forall|t: int| 0 <= t < xs.len() implies #[trigger] xs[t] == ms[t] by {
                    assert(x[j + 1 + t] == mid.skip(i + 1)[j + 1 + t - i - st.len()]);
                }
            }
            lemma_derives_follow_sound(g, m, f, mid, (n - 1) as nat, j2);
        }
    }
}

/// The FIRST set of a string of terminals: the string's first symbol, or the
/// empty-derivation marker when the string is empty.
pub proof fn lemma_first_seq_terminal_string(m: Map<u64, Set<Symbol>>, w: Seq<Symbol>)
    requires
        terminal_string(w),
    ensures
        w.len() == 0 ==> first_seq(m, w).contains(Symbol::Epsilon),
        w.len() > 0 ==> first_seq(m, w).contains(w[0]),
{
    if w.len() > 0 {
        assert(w[0] is Terminal);
        assert(first_sym(m, w[0]).contains(w[0]));
        assert(!first_sym(m, w[0]).contains(Symbol::Epsilon));
        assert(first_seq(m, w) == first_sym(m, w[0]));
    }
}

} // verus!
