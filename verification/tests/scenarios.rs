//! End-to-end scenarios: grammar analysis and parsing over small grammars.

use ll1::Grammar;
use ll1::ParseError;
use ll1::Parser;
use ll1::ParsingTable;
use ll1::Symbol;

// A grammar with two nullable wrappers: S -> A a B, A -> b A | eps,
// B -> c B | eps, start S.
// Non-terminals: S = 0, A = 1, B = 2. Terminals: a = 0, b = 1, c = 2.
fn wrap_grammar() -> Grammar {
    let mut g = Grammar::new(0);
    g.add_production(
        0,
        vec![Symbol::NonTerminal(1), Symbol::Terminal(0), Symbol::NonTerminal(2)],
    );
    g.add_production(1, vec![Symbol::Terminal(1), Symbol::NonTerminal(1)]);
    g.add_production(1, vec![Symbol::Epsilon]);
    g.add_production(2, vec![Symbol::Terminal(2), Symbol::NonTerminal(2)]);
    g.add_production(2, vec![Symbol::Epsilon]);
    g
}

#[test]
fn wrap_grammar_is_ll1() {
    let g = wrap_grammar();
    assert!(g.is_ll1());
}

#[test]
fn wrap_grammar_first_of_nullable() {
    let g = wrap_grammar();
    let firsts = g.compute_first_sets();
    let i = firsts.index_for(1);
    let set = &firsts.sets[i];
    assert!(set.contains(Symbol::Terminal(1)));
    assert!(set.contains(Symbol::Epsilon));
    assert_eq!(set.len(), 2);
}

#[test]
fn wrap_grammar_follow_of_nullable() {
    let g = wrap_grammar();
    let firsts = g.compute_first_sets();
    let follows = g.compute_follow_sets(&firsts);
    let i = follows.index_for(1);
    let set = &follows.sets[i];
    assert!(set.contains(Symbol::Terminal(0)));
    assert_eq!(set.len(), 1);
}

#[test]
fn wrap_grammar_table_cell() {
    let g = wrap_grammar();
    let table = ParsingTable::build(&g).unwrap();
    let cell = table.table.get(0, Symbol::Terminal(0)).unwrap();
    assert_eq!(
        cell.clone(),
        vec![Symbol::NonTerminal(1), Symbol::Terminal(0), Symbol::NonTerminal(2)],
    );
}

#[test]
fn wrap_grammar_accepts_a() {
    let mut parser = Parser::new(wrap_grammar()).unwrap();
    parser.set_input(vec![Symbol::Terminal(0)]);
    assert_eq!(parser.parse(), Ok(0));
}

#[test]
fn wrap_grammar_accepts_bacc() {
    let mut parser = Parser::new(wrap_grammar()).unwrap();
    parser.set_input(vec![
        Symbol::Terminal(1),
        Symbol::Terminal(0),
        Symbol::Terminal(2),
        Symbol::Terminal(2),
    ]);
    assert_eq!(parser.parse(), Ok(0));
}

#[test]
fn wrap_grammar_accepts_ba() {
    let mut parser = Parser::new(wrap_grammar()).unwrap();
    parser.set_input(vec![Symbol::Terminal(1), Symbol::Terminal(0)]);
    assert_eq!(parser.parse(), Ok(0));
}

// A grammar whose two alternatives for the start symbol begin alike:
// S -> A, S -> B, A -> a, B -> a, start S.
// Non-terminals: S = 0, A = 1, B = 2. Terminal: a = 0.
fn twin_grammar() -> Grammar {
    let mut g = Grammar::new(0);
    g.add_production(0, vec![Symbol::NonTerminal(1)]);
    g.add_production(0, vec![Symbol::NonTerminal(2)]);
    g.add_production(1, vec![Symbol::Terminal(0)]);
    g.add_production(2, vec![Symbol::Terminal(0)]);
    g
}

#[test]
fn twin_grammar_is_not_ll1() {
    let g = twin_grammar();
    assert!(!g.is_ll1());
}

#[test]
fn twin_grammar_conflict_cell() {
    let g = twin_grammar();
    match ParsingTable::build(&g) {
        Ok(_) => panic!("construction must report a conflict"),
        Err(e) => {
            assert_eq!(
                e,
                ll1::Ll1Error::ParsingTableError { non_terminal: 0, lookahead: Symbol::Terminal(0) },
            );
        }
    }
}

// An expression-shaped grammar: E -> T S, S -> y T S | eps, T -> F B,
// B -> x F B | eps, F -> i | n E m, start E.
// Non-terminals: E = 0, S = 1, T = 2, B = 3, F = 4.
// Terminals: y = 0, x = 1, i = 2, n = 3, m = 4.
fn expression_grammar() -> Grammar {
    let mut g = Grammar::new(0);
    g.add_production(0, vec![Symbol::NonTerminal(2), Symbol::NonTerminal(1)]);
    g.add_production(
        1,
        vec![Symbol::Terminal(0), Symbol::NonTerminal(2), Symbol::NonTerminal(1)],
    );
    g.add_production(1, vec![Symbol::Epsilon]);
    g.add_production(2, vec![Symbol::NonTerminal(4), Symbol::NonTerminal(3)]);
    g.add_production(
        3,
        vec![Symbol::Terminal(1), Symbol::NonTerminal(4), Symbol::NonTerminal(3)],
    );
    g.add_production(3, vec![Symbol::Epsilon]);
    g.add_production(4, vec![Symbol::Terminal(2)]);
    g.add_production(
        4,
        vec![Symbol::Terminal(3), Symbol::NonTerminal(0), Symbol::Terminal(4)],
    );
    g
}

#[test]
fn expression_grammar_is_ll1() {
    let g = expression_grammar();
    assert!(g.is_ll1());
}

#[test]
fn expression_grammar_accepts_ixiyi() {
    let mut parser = Parser::new(expression_grammar()).unwrap();
    parser.set_input(vec![
        Symbol::Terminal(2),
        Symbol::Terminal(1),
        Symbol::Terminal(2),
        Symbol::Terminal(0),
        Symbol::Terminal(2),
    ]);
    assert_eq!(parser.parse(), Ok(0));
}

#[test]
fn expression_grammar_accepts_nimyi() {
    let mut parser = Parser::new(expression_grammar()).unwrap();
    parser.set_input(vec![
        Symbol::Terminal(3),
        Symbol::Terminal(2),
        Symbol::Terminal(4),
        Symbol::Terminal(0),
        Symbol::Terminal(2),
    ]);
    assert_eq!(parser.parse(), Ok(0));
}

// Malformed input against the wrapper grammar: the symbol with identifier
// 99 stands for a character foreign to the vocabulary in "bbxacc".
#[test]
fn malformed_input_never_silently_accepted() {
    let mut parser = Parser::new(wrap_grammar()).unwrap();
    parser.set_input(vec![
        Symbol::Terminal(1),
        Symbol::Terminal(1),
        Symbol::Terminal(99),
        Symbol::Terminal(0),
        Symbol::Terminal(2),
        Symbol::Terminal(2),
    ]);
    match parser.parse() {
        Ok(recovered) => assert!(recovered >= 1),
        Err(e) => assert_eq!(e, ParseError::UnableToRecover),
    }
}

// Each foreign symbol before an "a" burns one recovery, and more of them
// arise than the error budget allows, so the parse must abort.
#[test]
fn too_many_errors_aborts_the_parse() {
    // S -> a S | eps, start S; S = 0, a = 0.
    let mut g = Grammar::new(0);
    g.add_production(0, vec![Symbol::Terminal(0), Symbol::NonTerminal(0)]);
    g.add_production(0, vec![Symbol::Epsilon]);
    let mut parser = Parser::new(g).unwrap();
    let mut input = Vec::new();
    for _ in 0..11 {
        input.push(Symbol::Terminal(99));
        input.push(Symbol::Terminal(0));
    }
    parser.set_input(input);
    assert_eq!(parser.parse(), Err(ParseError::TooManyErrors));
}
