use grammar_utils::lexer::Lexer;
use grammar_utils::lr1::LR1GrammarConstraint;
use grammar_utils::table::{Action, ParseTable, Rule};
use grammar_utils::Constraint;

use Action::{Accept as A, Error as E, Reduce as R, Shift as S};

fn vocab(items: &[&str]) -> Vec<Vec<u8>> {
    items.iter().map(|s| s.as_bytes().to_vec()).collect()
}

/// O -> { } | { M } ; M -> P | M , P ; P -> STR : V ; V -> STR | NUM | O,
/// with skippable whitespace. Terminals: { } , : STR NUM WS end.
fn json_objects(conts: Vec<Vec<u8>>, exact: bool) -> LR1GrammarConstraint {
    let patterns: Vec<String> =
        [r"\{", r"\}", ",", ":", "\"[^\"]*\"", "[0-9]+", "[ \n]+"].iter().map(|s| s.to_string()).collect();
    let lexer = Lexer::new(&patterns, vec![false, false, false, false, false, false, true]).unwrap();
    let follow = |r: usize, with_end: bool| {
        let mut row = vec![E; 8];
        row[1] = R(r);
        row[2] = R(r);
        if with_end {
            row[7] = R(r);
        }
        row
    };
    let mut action = vec![vec![E; 8]; 15];
    action[0][0] = S(2);
    action[1][7] = A;
    action[2][1] = S(3);
    action[2][4] = S(6);
    action[3] = follow(0, true);
    action[4][1] = S(7);
    action[4][2] = S(8);
    action[5] = follow(2, false);
    action[6][3] = S(9);
    action[7] = follow(1, true);
    action[8][4] = S(6);
    action[9][0] = S(2);
    action[9][4] = S(11);
    action[9][5] = S(12);
    action[10] = follow(3, false);
    action[11] = follow(5, false);
    action[12] = follow(6, false);
    action[13] = follow(4, false);
    action[14] = follow(7, false);
    let mut goto = vec![vec![None; 4]; 15];
    goto[0][0] = Some(1);
    goto[2][1] = Some(4);
    goto[2][2] = Some(5);
    goto[8][2] = Some(10);
    goto[9][3] = Some(13);
    goto[9][0] = Some(14);
    let rules = vec![
        Rule { lhs: 0, len: 2 },
        Rule { lhs: 0, len: 3 },
        Rule { lhs: 1, len: 1 },
        Rule { lhs: 1, len: 3 },
        Rule { lhs: 2, len: 3 },
        Rule { lhs: 3, len: 1 },
        Rule { lhs: 3, len: 1 },
        Rule { lhs: 3, len: 1 },
    ];
    let table = ParseTable { action, goto, rules, start: 0, eoi: 7, num_terminals: 8, num_nonterminals: 4 };
    LR1GrammarConstraint::new(table, lexer, conts, exact).unwrap()
}

#[test]
fn json_value_after_key() {
    let c = json_objects(vocab(&["1", " ", "\"", "}", "]", "{", "12", ":", "\n"]), true);
    let s = c.get_state(br#"{"name":"a","age":"#).unwrap();
    assert_eq!(c.get_valid_continuations(&s), vec![0, 1, 2, 5, 6, 8]);
    assert!(!c.is_match_state(&s));
}

#[test]
fn json_complete_objects_match() {
    let c = json_objects(vocab(&["}"]), true);
    for (w, ok) in [
        (r#"{"name":"a","age":12}"#, true),
        (r#"{ "a" : { } }"#, true),
        ("{}", true),
        (r#"{"a":1,}"#, false),
        (r#"{"a":1"#, false),
    ] {
        let m = c.get_state(w.as_bytes()).map(|s| c.is_match_state(&s)).unwrap_or(false);
        assert_eq!(m, ok, "{w}");
    }
    assert!(c.get_state(br#"{"a":1,}"#).is_none());
    let s = c.get_state(br#"{"a":1"#).unwrap();
    assert_eq!(c.get_valid_continuations(&s), vec![0]);
}
