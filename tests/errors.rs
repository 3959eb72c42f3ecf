use grammar_utils::lexer::{Lexer, LexerError};
use grammar_utils::lr1::{GrammarError, LR1GrammarConstraint};
use grammar_utils::parser::{LR1GrammarParser, ParserError};
use grammar_utils::table::{Action, ParseTable, Rule};

fn names(items: &[&str]) -> Vec<String> {
    items.iter().map(|s| s.to_string()).collect()
}

fn foo_table(eoi: usize, num_terminals: usize) -> ParseTable {
    let row = |a: Action, b: Action| {
        let mut r = vec![Action::Error; num_terminals];
        r[0] = a;
        r[eoi] = b;
        r
    };
    ParseTable {
        action: vec![
            row(Action::Shift(1), Action::Error),
            row(Action::Error, Action::Reduce(0)),
            row(Action::Error, Action::Accept),
        ],
        goto: vec![vec![Some(2)], vec![None], vec![None]],
        rules: vec![Rule { lhs: 0, len: 1 }],
        start: 0,
        eoi,
        num_terminals,
        num_nonterminals: 1,
    }
}

#[test]
fn lexer_rejects_bad_pattern() {
    assert_eq!(Lexer::new(&names(&["foo", "(x"]), vec![false, true]).err(), Some(LexerError::Compile));
    assert_eq!(Lexer::new(&names(&["foo"]), vec![false, true]).err(), Some(LexerError::Mismatch));
}

#[test]
fn lexer_prefers_lower_index_on_ties() {
    let lexer = Lexer::new(&names(&["[a-z]+", "foo"]), vec![false, false]).unwrap();
    let q = lexer.dfa.run(lexer.dfa.start, b"foo");
    assert_eq!(lexer.token[q], Some(0));
    let lexer = Lexer::new(&names(&["foo", "[a-z]+"]), vec![false, false]).unwrap();
    let q = lexer.dfa.run(lexer.dfa.start, b"foo");
    assert_eq!(lexer.token[q], Some(0));
    let q = lexer.dfa.run(lexer.dfa.start, b"fo");
    assert_eq!(lexer.token[q], Some(1));
}

#[test]
fn grammar_rejects_token_without_column() {
    let lexer = Lexer::new(&names(&["foo", "[ ]+", "bar"]), vec![false, true, false]).unwrap();
    let r = LR1GrammarConstraint::new(foo_table(2, 3), lexer, vec![], true);
    assert_eq!(r.err(), Some(GrammarError::Tokens));
    let lexer = Lexer::new(&names(&["foo", "[ ]+"]), vec![false, true]).unwrap();
    let mut table = foo_table(2, 3);
    table.goto[0][0] = Some(9);
    assert_eq!(LR1GrammarConstraint::new(table, lexer, vec![], true).err(), Some(GrammarError::Table));
}

#[test]
fn parser_construction_errors() {
    let lexer = Lexer::new(&names(&["foo", "[ ]+"]), vec![false, true]).unwrap();
    let r = LR1GrammarParser::new(foo_table(2, 3), lexer, names(&["foo"]), names(&["S"]));
    assert_eq!(r.err(), Some(ParserError::Names));
    let lexer = Lexer::new(&names(&["foo", "[ ]+"]), vec![false, true]).unwrap();
    let mut table = foo_table(2, 3);
    table.start = 5;
    let r = LR1GrammarParser::new(table, lexer, names(&["foo", "ws"]), names(&["S"]));
    assert_eq!(r.err(), Some(ParserError::Tables));
    let lexer = Lexer::new(&names(&["foo", "[ ]+"]), vec![false, true]).unwrap();
    let p = LR1GrammarParser::new(foo_table(2, 3), lexer, names(&["foo", "ws"]), names(&["S"])).unwrap();
    let (_, tail) = p.prefix_parse(b" foo bar", false, false).unwrap();
    assert_eq!(tail, b" bar".to_vec());
}
