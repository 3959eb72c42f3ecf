use grammar_utils::lexer::Lexer;
use grammar_utils::parser::{LR1GrammarParser, LR1Parse, ParseError};
use grammar_utils::table::{Action, ParseTable, Rule};

use Action::{Accept as A, Error as E, Reduce as R, Shift as S};

fn names(items: &[&str]) -> Vec<String> {
    items.iter().map(|s| s.to_string()).collect()
}

/// E -> E + T | T ; T -> T * F | F ; F -> num, with skippable spaces.
fn arithmetic() -> LR1GrammarParser {
    let lexer = Lexer::new(&names(&["[0-9]+", r"\+", r"\*", "[ ]+"]), vec![false, false, false, true]).unwrap();
    let none = vec![E, E, E, E, E];
    let action = vec![
        vec![S(5), E, E, E, E],
        vec![E, S(6), E, E, A],
        vec![E, R(1), S(7), E, R(1)],
        vec![E, R(3), R(3), E, R(3)],
        none.clone(),
        vec![E, R(4), R(4), E, R(4)],
        vec![S(5), E, E, E, E],
        vec![S(5), E, E, E, E],
        none.clone(),
        vec![E, R(0), S(7), E, R(0)],
        vec![E, R(2), R(2), E, R(2)],
        none,
    ];
    let mut goto = vec![vec![None, None, None]; 12];
    goto[0] = vec![Some(1), Some(2), Some(3)];
    goto[6] = vec![None, Some(9), Some(3)];
    goto[7] = vec![None, None, Some(10)];
    let rules = vec![
        Rule { lhs: 0, len: 3 },
        Rule { lhs: 0, len: 1 },
        Rule { lhs: 1, len: 3 },
        Rule { lhs: 1, len: 1 },
        Rule { lhs: 2, len: 1 },
    ];
    let table = ParseTable { action, goto, rules, start: 0, eoi: 4, num_terminals: 5, num_nonterminals: 3 };
    LR1GrammarParser::new(table, lexer, names(&["num", "plus", "times", "ws"]), names(&["E", "T", "F"])).unwrap()
}

fn terminals(t: &LR1Parse, out: &mut Vec<(usize, usize, Vec<u8>)>) {
    match t {
        LR1Parse::Empty(_) => {}
        LR1Parse::Terminal(_, (s, e), v) => out.push((*s, *e, v.clone())),
        LR1Parse::NonTerminal(_, cs) => cs.iter().for_each(|c| terminals(c, out)),
    }
}

fn shape(t: &LR1Parse) -> String {
    match t {
        LR1Parse::Empty(n) => format!("{n}()"),
        LR1Parse::Terminal(n, _, v) => format!("{n}:{}", String::from_utf8_lossy(v)),
        LR1Parse::NonTerminal(n, cs) => {
            format!("{n}({})", cs.iter().map(shape).collect::<Vec<_>>().join(" "))
        }
    }
}

#[test]
fn prefix_parse_stops_before_trailing_operator() {
    let p = arithmetic();
    let (tree, tail) = p.prefix_parse(b"1 + 2 *", false, false).unwrap();
    assert_eq!(tail, b" *".to_vec());
    assert_eq!(shape(&tree), "E(E(T(F(num:1))) plus:+ T(F(num:2)))");
    let (tree, tail) = p.prefix_parse(b"1 + 2 *", false, true).unwrap();
    assert_eq!(tail, b" *".to_vec());
    assert_eq!(shape(&tree), "E(num:1 plus:+ num:2)");
}

#[test]
fn prefix_parse_round_trip() {
    let p = arithmetic();
    let input = b"12 +3 *  4";
    let (tree, tail) = p.prefix_parse(input, false, true).unwrap();
    assert!(tail.is_empty());
    let mut leaves = Vec::new();
    terminals(&tree, &mut leaves);
    assert_eq!(leaves.len(), 5);
    let mut rebuilt = Vec::new();
    let mut last = 0;
    for (s, e, v) in leaves {
        assert!(input[last..s].iter().all(|b| *b == b' '));
        rebuilt.extend_from_slice(&input[last..s]);
        assert_eq!(&input[s..e], v.as_slice());
        rebuilt.extend_from_slice(&v);
        last = e;
    }
    rebuilt.extend_from_slice(&input[last..]);
    assert_eq!(rebuilt, input.to_vec());
    assert_eq!(shape(&tree), "E(num:12 plus:+ T(num:3 times:* num:4))");
}

#[test]
fn prefix_parse_skippable_transparency() {
    let p = arithmetic();
    let (a, _) = p.prefix_parse(b"1+2*3", false, false).unwrap();
    let (b, _) = p.prefix_parse(b"1  +2 *   3", false, false).unwrap();
    assert_eq!(shape(&a), shape(&b));
}

#[test]
fn prefix_parse_trailing_whitespace_is_consumed() {
    let p = arithmetic();
    let (_, tail) = p.prefix_parse(b"1 + 2  ", false, false).unwrap();
    assert!(tail.is_empty());
}

#[test]
fn prefix_parse_failures() {
    let p = arithmetic();
    assert!(matches!(p.prefix_parse(b"+ 1", false, false), Err(ParseError::NoPrefix(0))));
    assert!(matches!(p.prefix_parse(b"", false, false), Err(ParseError::NoPrefix(0))));
    assert!(matches!(p.prefix_parse(b"1 + ? 2", false, false), Ok(_)));
    assert!(matches!(p.lex(b"1 ? 2"), Err(ParseError::NoToken(2))));
    assert!(matches!(p.parse(b"1 + 2 *", false, false), Err(ParseError::Incomplete)));
    assert!(p.parse(b"1 * 2", false, false).is_ok());
}

#[test]
fn lex_splits_into_tokens() {
    let p = arithmetic();
    let toks = p.lex(b"12 + 3").unwrap();
    assert_eq!(toks, vec![(0, (0, 2)), (3, (2, 3)), (1, (3, 4)), (3, (4, 5)), (0, (5, 6))]);
    assert!(p.lex(b"1 ? 2").is_err());
}
