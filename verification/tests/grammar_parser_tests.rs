//! The grammar model and the parser's input handling and failure modes.

use ll1::Grammar;
use ll1::ParseError;
use ll1::Parser;
use ll1::Production;
use ll1::Symbol;

#[test]
fn production_new_keeps_its_parts() {
    let p = Production::new(7, vec![Symbol::Terminal(1), Symbol::NonTerminal(7)]);
    assert_eq!(p.non_terminal, 7);
    assert_eq!(p.derivation, vec![Symbol::Terminal(1), Symbol::NonTerminal(7)]);
}

#[test]
fn add_production_registers_symbols() {
    let mut g = Grammar::new(0);
    g.add_production(0, vec![Symbol::Terminal(3), Symbol::NonTerminal(1)]);
    g.add_production(1, vec![Symbol::Epsilon]);
    assert!(g.terminals.contains(&3));
    assert!(g.non_terminals.contains(&0));
    assert!(g.non_terminals.contains(&1));
    assert_eq!(g.terminals.len(), 1);
    assert_eq!(g.non_terminals.len(), 2);
    assert_eq!(g.productions.len(), 2);
    assert_eq!(g.start_symbol, 0);
}

#[test]
fn valid_symbols_exclude_the_end_marker() {
    assert!(Grammar::is_valid_symbol(&Symbol::Terminal(4)));
    assert!(Grammar::is_valid_symbol(&Symbol::NonTerminal(4)));
    assert!(Grammar::is_valid_symbol(&Symbol::Epsilon));
    assert!(!Grammar::is_valid_symbol(&Symbol::End));
}

#[test]
fn symbol_classification_is_fixed_by_variant() {
    assert!(Symbol::Terminal(2).is_terminal());
    assert!(!Symbol::Terminal(2).is_non_terminal());
    assert!(Symbol::NonTerminal(2).is_non_terminal());
    assert!(!Symbol::End.is_terminal());
    assert!(!Symbol::Epsilon.is_non_terminal());
}

// S -> a S | b, start S; S = 0, a = 0, b = 1.
fn tail_grammar() -> Grammar {
    let mut g = Grammar::new(0);
    g.add_production(0, vec![Symbol::Terminal(0), Symbol::NonTerminal(0)]);
    g.add_production(0, vec![Symbol::Terminal(1)]);
    g
}

#[test]
fn set_input_round_trips() {
    let mut parser = Parser::new(tail_grammar()).unwrap();
    let input = vec![Symbol::Terminal(0), Symbol::Terminal(1)];
    parser.set_input(input.clone());
    assert_eq!(parser.get_input(), input);
}

#[test]
fn parse_appends_the_end_marker_once() {
    let mut parser = Parser::new(tail_grammar()).unwrap();
    parser.set_input(vec![Symbol::Terminal(0), Symbol::Terminal(1)]);
    assert_eq!(parser.parse(), Ok(0));
    assert_eq!(
        parser.get_input(),
        vec![Symbol::Terminal(0), Symbol::Terminal(1), Symbol::End],
    );
    // A second parse over the terminated input appends nothing more.
    assert_eq!(parser.parse(), Ok(0));
    assert_eq!(
        parser.get_input(),
        vec![Symbol::Terminal(0), Symbol::Terminal(1), Symbol::End],
    );
}

#[test]
fn explicitly_terminated_input_is_accepted() {
    let mut parser = Parser::new(tail_grammar()).unwrap();
    parser.set_input(vec![Symbol::Terminal(0), Symbol::Terminal(1), Symbol::End]);
    assert_eq!(parser.parse(), Ok(0));
}

#[test]
fn empty_input_is_rejected_when_start_is_not_nullable() {
    let mut parser = Parser::new(tail_grammar()).unwrap();
    parser.set_input(Vec::new());
    assert!(parser.parse().is_err());
}

#[test]
fn unrecoverable_input_reports_failure() {
    // S -> a, start S: a foreign symbol aligns with nothing and the FOLLOW
    // resynchronization lands on the end marker, which never realigns.
    let mut g = Grammar::new(0);
    g.add_production(0, vec![Symbol::Terminal(0)]);
    let mut parser = Parser::new(g).unwrap();
    parser.set_input(vec![Symbol::Terminal(99)]);
    assert_eq!(parser.parse(), Err(ParseError::UnableToRecover));
}

#[test]
fn leftover_input_after_the_end_marker_is_incomplete() {
    // S -> eps, start S: the parse consumes the embedded end marker and
    // stops with input left over.
    let mut g = Grammar::new(0);
    g.add_production(0, vec![Symbol::Epsilon]);
    let mut parser = Parser::new(g).unwrap();
    parser.set_input(vec![Symbol::End, Symbol::Terminal(5)]);
    assert_eq!(parser.parse(), Err(ParseError::IncompleteParse));
}

#[test]
fn recovered_parse_reports_its_error_count() {
    // The nullable-wrapper grammar with one foreign symbol: exactly one
    // recovery.
    let mut g = Grammar::new(0);
    g.add_production(
        0,
        vec![Symbol::NonTerminal(1), Symbol::Terminal(0), Symbol::NonTerminal(2)],
    );
    g.add_production(1, vec![Symbol::Terminal(1), Symbol::NonTerminal(1)]);
    g.add_production(1, vec![Symbol::Epsilon]);
    g.add_production(2, vec![Symbol::Terminal(2), Symbol::NonTerminal(2)]);
    g.add_production(2, vec![Symbol::Epsilon]);
    let mut parser = Parser::new(g).unwrap();
    parser.set_input(vec![
        Symbol::Terminal(1),
        Symbol::Terminal(1),
        Symbol::Terminal(99),
        Symbol::Terminal(0),
        Symbol::Terminal(2),
        Symbol::Terminal(2),
    ]);
    assert_eq!(parser.parse(), Ok(1));
}

#[test]
fn parser_new_fails_on_conflicted_grammar() {
    let mut g = Grammar::new(0);
    g.add_production(0, vec![Symbol::Terminal(0)]);
    g.add_production(0, vec![Symbol::Terminal(0)]);
    assert!(Parser::new(g).is_err());
}
