//! FIRST/FOLLOW computation: exact tables, order independence, idempotence.

use ll1::Grammar;
use ll1::Symbol;
use ll1::symbols::SetTable;

// S -> A a B, A -> b A | eps, B -> c B | eps, start S.
// Non-terminals: S = 0, A = 1, B = 2. Terminals: a = 0, b = 1, c = 2.
fn sample() -> Grammar {
    let mut g = Grammar::new(0);
    g.add_production(
        0,
        vec![Symbol::NonTerminal(1), Symbol::Terminal(0), Symbol::NonTerminal(2)],
    );
    g.add_production(1, vec![Symbol::Terminal(1), Symbol::NonTerminal(1)]);
    g.add_production(1, vec![Symbol::Epsilon]);
    g.add_production(2, vec![Symbol::Terminal(2), Symbol::NonTerminal(2)]);
    g.add_production(2, vec![Symbol::Epsilon]);
    g
}

// The same productions in a different order.
fn sample_permuted() -> Grammar {
    let mut g = Grammar::new(0);
    g.add_production(2, vec![Symbol::Epsilon]);
    g.add_production(1, vec![Symbol::Terminal(1), Symbol::NonTerminal(1)]);
    g.add_production(2, vec![Symbol::Terminal(2), Symbol::NonTerminal(2)]);
    g.add_production(1, vec![Symbol::Epsilon]);
    g.add_production(
        0,
        vec![Symbol::NonTerminal(1), Symbol::Terminal(0), Symbol::NonTerminal(2)],
    );
    g
}

fn set_of(table: &SetTable, key: u64) -> Vec<Symbol> {
    let i = table.index_for(key);
    table.sets[i].elems.clone()
}

fn same_members(mut a: Vec<Symbol>, b: &Vec<Symbol>) -> bool {
    if a.len() != b.len() {
        return false;
    }
    for s in b.iter() {
        match a.iter().position(|x| x == s) {
            Some(p) => {
                a.remove(p);
            }
            None => return false,
        }
    }
    true
}

#[test]
fn first_sets_of_sample() {
    let g = sample();
    let firsts = g.compute_first_sets();
    assert!(same_members(
        set_of(&firsts, 0),
        &vec![Symbol::Terminal(0), Symbol::Terminal(1)],
    ));
    assert!(same_members(
        set_of(&firsts, 1),
        &vec![Symbol::Terminal(1), Symbol::Epsilon],
    ));
    assert!(same_members(
        set_of(&firsts, 2),
        &vec![Symbol::Terminal(2), Symbol::Epsilon],
    ));
}

#[test]
fn follow_sets_of_sample() {
    let g = sample();
    let firsts = g.compute_first_sets();
    let follows = g.compute_follow_sets(&firsts);
    assert!(same_members(set_of(&follows, 0), &vec![Symbol::End]));
    assert!(same_members(set_of(&follows, 1), &vec![Symbol::Terminal(0)]));
    assert!(same_members(set_of(&follows, 2), &vec![Symbol::End]));
}

#[test]
fn first_of_string_scans_past_nullable_symbols() {
    let g = sample();
    let firsts = g.compute_first_sets();
    // FIRST(A a) = {b, a}: A is nullable, so the terminal after it shows.
    let s = vec![Symbol::NonTerminal(1), Symbol::Terminal(0)];
    let r = g.compute_first_of_string(&s, &firsts);
    assert!(r.contains(Symbol::Terminal(1)));
    assert!(r.contains(Symbol::Terminal(0)));
    assert!(!r.contains(Symbol::Epsilon));
    assert_eq!(r.len(), 2);
}

#[test]
fn first_of_string_all_nullable_yields_epsilon() {
    let g = sample();
    let firsts = g.compute_first_sets();
    // FIRST(A B) = {b, c, eps}: both symbols are nullable.
    let s = vec![Symbol::NonTerminal(1), Symbol::NonTerminal(2)];
    let r = g.compute_first_of_string(&s, &firsts);
    assert!(r.contains(Symbol::Terminal(1)));
    assert!(r.contains(Symbol::Terminal(2)));
    assert!(r.contains(Symbol::Epsilon));
    assert_eq!(r.len(), 3);
}

#[test]
fn first_of_empty_string_is_epsilon() {
    let g = sample();
    let firsts = g.compute_first_sets();
    let r = g.compute_first_of_string(&Vec::new(), &firsts);
    assert!(r.contains(Symbol::Epsilon));
    assert_eq!(r.len(), 1);
}

#[test]
fn first_follow_order_independent() {
    let g1 = sample();
    let g2 = sample_permuted();
    let f1 = g1.compute_first_sets();
    let f2 = g2.compute_first_sets();
    for key in [0u64, 1, 2] {
        assert!(same_members(set_of(&f1, key), &set_of(&f2, key)));
    }
    let w1 = g1.compute_follow_sets(&f1);
    let w2 = g2.compute_follow_sets(&f2);
    for key in [0u64, 1, 2] {
        assert!(same_members(set_of(&w1, key), &set_of(&w2, key)));
    }
}

#[test]
fn first_follow_recomputation_is_idempotent() {
    let g = sample();
    let f1 = g.compute_first_sets();
    let f2 = g.compute_first_sets();
    for key in [0u64, 1, 2] {
        assert!(same_members(set_of(&f1, key), &set_of(&f2, key)));
    }
    let w1 = g.compute_follow_sets(&f1);
    let w2 = g.compute_follow_sets(&f2);
    for key in [0u64, 1, 2] {
        assert!(same_members(set_of(&w1, key), &set_of(&w2, key)));
    }
}

#[test]
fn empty_grammar_has_degenerate_first_sets() {
    let mut g = Grammar::new(0);
    // One production makes the start symbol known; its FIRST set stays empty
    // because the grammar is circular.
    g.add_production(0, vec![Symbol::NonTerminal(0)]);
    let firsts = g.compute_first_sets();
    let i = firsts.index_for(0);
    assert_eq!(firsts.sets[i].len(), 0);
}
