//! Parsing-table construction and LL(1) validation: determinism, conflict
//! reporting, and the agreement of the two membership checks.

use ll1::Grammar;
use ll1::Ll1Error;
use ll1::ParsingTable;
use ll1::Symbol;

// S -> A a B, A -> b A | eps, B -> c B | eps, start S.
// Non-terminals: S = 0, A = 1, B = 2; terminals: a = 0, b = 1, c = 2.
fn ll1_grammar() -> Grammar {
    let mut g = Grammar::new(0);
    g.add_production(
        0,
        vec![Symbol::NonTerminal(1), Symbol::Terminal(0), Symbol::NonTerminal(2)],
    );
    g.add_production(1, vec![Symbol::Terminal(1), Symbol::NonTerminal(1)]);
    g.add_production(1, vec![Symbol::Epsilon]);
    g.add_production(2, vec![Symbol::Terminal(2), Symbol::NonTerminal(2)]);
    g.add_production(2, vec![Symbol::Epsilon]);
    g
}

// S -> A | B, A -> a, B -> a, start S: a FIRST/FIRST conflict at (S, a).
fn conflicted_grammar() -> Grammar {
    let mut g = Grammar::new(0);
    g.add_production(0, vec![Symbol::NonTerminal(1)]);
    g.add_production(0, vec![Symbol::NonTerminal(2)]);
    g.add_production(1, vec![Symbol::Terminal(0)]);
    g.add_production(2, vec![Symbol::Terminal(0)]);
    g
}

#[test]
fn table_of_ll1_grammar_has_expected_cells() {
    let g = ll1_grammar();
    let t = ParsingTable::build(&g).unwrap();
    // (S, a) and (S, b) expand S; (A, a) erases A; (B, End) erases B.
    assert!(t.table.get(0, Symbol::Terminal(0)).is_some());
    assert!(t.table.get(0, Symbol::Terminal(1)).is_some());
    assert_eq!(
        t.table.get(1, Symbol::Terminal(0)).unwrap().clone(),
        vec![Symbol::Epsilon],
    );
    assert_eq!(
        t.table.get(2, Symbol::End).unwrap().clone(),
        vec![Symbol::Epsilon],
    );
    assert!(t.table.get(0, Symbol::Terminal(2)).is_none());
    assert!(t.table.get(0, Symbol::End).is_none());
}

#[test]
fn table_vocabularies_are_sorted() {
    let g = ll1_grammar();
    let t = ParsingTable::build(&g).unwrap();
    assert_eq!(t.non_terminals, vec![0, 1, 2]);
    assert_eq!(t.terminals, vec![0, 1, 2]);
}

#[test]
fn building_twice_yields_identical_cells() {
    let g = ll1_grammar();
    let t1 = ParsingTable::build(&g).unwrap();
    let t2 = ParsingTable::build(&g).unwrap();
    assert_eq!(t1.table.keys.len(), t2.table.keys.len());
    for (i, key) in t1.table.keys.iter().enumerate() {
        let other = t2.table.get(key.0, key.1).unwrap();
        assert_eq!(t1.table.vals[i], other.clone());
    }
}

#[test]
fn conflict_is_reported_with_its_cell() {
    let g = conflicted_grammar();
    match ParsingTable::build(&g) {
        Ok(_) => panic!("conflicted grammar must not build"),
        Err(Ll1Error::ParsingTableError { non_terminal, lookahead }) => {
            assert_eq!(non_terminal, 0);
            assert_eq!(lookahead, Symbol::Terminal(0));
        }
        Err(_) => panic!("unexpected error kind"),
    }
}

#[test]
fn duplicate_production_surfaces_as_conflict() {
    // S -> a, S -> a, start S: duplicates are kept and collide.
    let mut g = Grammar::new(0);
    g.add_production(0, vec![Symbol::Terminal(0)]);
    g.add_production(0, vec![Symbol::Terminal(0)]);
    assert!(ParsingTable::build(&g).is_err());
    assert!(!g.is_ll1());
}

#[test]
fn validators_agree_on_ll1_grammar() {
    let g = ll1_grammar();
    assert!(g.is_ll1_first_follow());
    assert!(g.is_ll1_parsing_table());
    assert!(g.is_ll1());
}

#[test]
fn validators_agree_on_conflicted_grammar() {
    let g = conflicted_grammar();
    assert!(!g.is_ll1_first_follow());
    assert!(!g.is_ll1_parsing_table());
    assert!(!g.is_ll1());
}

#[test]
fn checks_separate_on_unreachable_nullable_duplicates() {
    // S -> a, A -> eps, A -> eps, start S: the duplicated nullable
    // alternative trips the disjointness rules, while the builder has no
    // cell to claim twice because FOLLOW(A) is empty — A is unreachable.
    // The combined check stays conservative and rejects.
    let mut g = Grammar::new(0);
    g.add_production(0, vec![Symbol::Terminal(0)]);
    g.add_production(1, vec![Symbol::Epsilon]);
    g.add_production(1, vec![Symbol::Epsilon]);
    assert!(!g.is_ll1_first_follow());
    assert!(g.is_ll1_parsing_table());
    assert!(!g.is_ll1());
}

#[test]
fn validators_agree_on_first_follow_overlap() {
    // S -> A a, A -> a | eps: FIRST(A -> a) meets FOLLOW(A) under the
    // nullable alternative, so both checks must reject.
    let mut g = Grammar::new(0);
    g.add_production(0, vec![Symbol::NonTerminal(1), Symbol::Terminal(0)]);
    g.add_production(1, vec![Symbol::Terminal(0)]);
    g.add_production(1, vec![Symbol::Epsilon]);
    assert!(!g.is_ll1_first_follow());
    assert!(!g.is_ll1_parsing_table());
    assert!(!g.is_ll1());
}
