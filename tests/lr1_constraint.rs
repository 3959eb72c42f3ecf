use grammar_utils::lexer::Lexer;
use grammar_utils::lr1::LR1GrammarConstraint;
use grammar_utils::session::LR1Constraint;
use grammar_utils::table::{Action, ParseTable, Rule};
use grammar_utils::Constraint;

use Action::{Accept as A, Error as E, Reduce as R, Shift as S};

fn vocab(items: &[&str]) -> Vec<Vec<u8>> {
    items.iter().map(|s| s.as_bytes().to_vec()).collect()
}

/// E -> E + T | T ; T -> T * F | F ; F -> num, with skippable spaces.
fn arithmetic(conts: Vec<Vec<u8>>) -> LR1GrammarConstraint {
    arithmetic_variant(conts, true)
}

fn arithmetic_variant(conts: Vec<Vec<u8>>, exact: bool) -> LR1GrammarConstraint {
    let patterns: Vec<String> = ["[0-9]+", r"\+", r"\*", "[ ]+"].iter().map(|s| s.to_string()).collect();
    let lexer = Lexer::new(&patterns, vec![false, false, false, true]).unwrap();
    let none = vec![E, E, E, E, E];
    let action = vec![
        vec![S(5), E, E, E, E],
        vec![E, S(6), E, E, A],
        vec![E, R(1), S(7), E, R(1)],
        vec![E, R(3), R(3), E, R(3)],
        none.clone(),
        vec![E, R(4), R(4), E, R(4)],
        vec![S(5), E, E, E, E],
        vec![S(5), E, E, E, E],
        none.clone(),
        vec![E, R(0), S(7), E, R(0)],
        vec![E, R(2), R(2), E, R(2)],
        none,
    ];
    let mut goto = vec![vec![None, None, None]; 12];
    goto[0] = vec![Some(1), Some(2), Some(3)];
    goto[6] = vec![None, Some(9), Some(3)];
    goto[7] = vec![None, None, Some(10)];
    let rules = vec![
        Rule { lhs: 0, len: 3 },
        Rule { lhs: 0, len: 1 },
        Rule { lhs: 1, len: 3 },
        Rule { lhs: 1, len: 1 },
        Rule { lhs: 2, len: 1 },
    ];
    let table = ParseTable { action, goto, rules, start: 0, eoi: 4, num_terminals: 5, num_nonterminals: 3 };
    LR1GrammarConstraint::new(table, lexer, conts, exact).unwrap()
}

/// S -> foo, with skippable spaces.
fn foo_grammar(conts: Vec<Vec<u8>>, exact: bool) -> LR1GrammarConstraint {
    let patterns: Vec<String> = ["foo", "[ ]+"].iter().map(|s| s.to_string()).collect();
    let lexer = Lexer::new(&patterns, vec![false, true]).unwrap();
    let table = ParseTable {
        action: vec![vec![S(1), E, E], vec![E, E, R(0)], vec![E, E, A]],
        goto: vec![vec![Some(2)], vec![None], vec![None]],
        rules: vec![Rule { lhs: 0, len: 1 }],
        start: 0,
        eoi: 2,
        num_terminals: 3,
        num_nonterminals: 1,
    };
    LR1GrammarConstraint::new(table, lexer, conts, exact).unwrap()
}

#[test]
fn lr1_arithmetic_after_operator() {
    let c = arithmetic(vocab(&["1", "+", "*", " ", "", ")"]));
    let s = c.get_state(b"1 + 2 *").unwrap();
    assert!(!c.is_match_state(&s));
    assert_eq!(c.get_valid_continuations(&s), vec![0, 3, 4]);
    let done = c.get_state(b"1 + 2").unwrap();
    assert!(c.is_match_state(&done));
    assert!(c.get_state(b"1 + + 2").is_none());
    assert!(c.get_state(b"1 )").is_none());
}

#[test]
fn lr1_arithmetic_start() {
    let c = arithmetic(vocab(&["1", "+", "*", " ", "", "12"]));
    let s = c.get_start_state();
    assert_eq!(c.get_valid_continuations(&s), vec![0, 3, 4, 5]);
    assert!(!c.is_match_state(&s));
}

#[test]
fn lr1_soundness_and_completeness() {
    let v = vocab(&["1", "+", "*", " ", "", "2 ", "+3", "**"]);
    let c = arithmetic(v.clone());
    for prefix in ["", "1", "1 ", "1 +", "1 + 2", "1*2*"] {
        let s = c.get_state(prefix.as_bytes()).unwrap();
        let valid = c.get_valid_continuations(&s);
        for i in 0..v.len() {
            assert_eq!(valid.contains(&i), c.get_next_state(&s, i).is_some(), "{prefix} {i}");
        }
    }
}

#[test]
fn lr1_state_determinism() {
    let bytes: Vec<Vec<u8>> = (0u8..=255).map(|b| vec![b]).collect();
    let c = arithmetic(bytes);
    for w in ["1 + 2", "12*3 ", "1 +", "1 + * 2", ""] {
        let mut s = Some(c.get_start_state());
        for b in w.bytes() {
            s = s.and_then(|st| c.get_next_state(&st, b as usize));
        }
        assert_eq!(s.is_some(), c.get_state(w.as_bytes()).is_some(), "{w}");
        if let (Some(a), Some(b)) = (s, c.get_state(w.as_bytes())) {
            assert_eq!(a.stack, b.stack);
            assert_eq!(a.pending, b.pending);
            assert_eq!(a.lex, b.lex);
            assert_eq!(a.matched, b.matched);
        }
    }
}

#[test]
fn lr1_skippable_trailing() {
    let c = foo_grammar(vocab(&["", " ", "f", "foo", "x"]), true);
    let s = c.get_state(b"foo   ").unwrap();
    assert!(c.is_match_state(&s));
    assert!(c.only_skippable_matching(&s));
    assert_eq!(c.get_valid_continuations(&s), vec![0, 1]);
    let s = c.get_state(b"foo").unwrap();
    assert!(c.is_match_state(&s));
    let s = c.get_state(b"fo").unwrap();
    assert!(!c.is_match_state(&s));
    assert!(!c.only_skippable_matching(&s));
}

#[test]
fn lr1_skippable_between_tokens() {
    let c = arithmetic(vocab(&["1"]));
    let a = c.get_state(b"1+2").unwrap();
    let b = c.get_state(b"1   +  2").unwrap();
    assert_eq!(a.stack, b.stack);
    assert!(c.is_match_state(&a) && c.is_match_state(&b));
}

#[test]
fn lr1_empty_continuation() {
    let c = arithmetic(vocab(&["", "1", "+"]));
    for prefix in ["", "1", "1 +", "1 + 2 "] {
        let s = c.get_state(prefix.as_bytes()).unwrap();
        assert!(c.get_valid_continuations(&s).contains(&0));
        let t = c.get_next_state(&s, 0).unwrap();
        assert_eq!(t.stack, s.stack);
        assert_eq!(t.pending, s.pending);
    }
}

#[test]
fn lr1_session_stops_after_skippable_tail() {
    let mut c = LR1Constraint::init(foo_grammar(vocab(&["foo", " ", "f"]), true), None);
    assert_eq!(c.get(), vec![0, 1, 2]);
    c.next(0);
    assert!(c.is_match());
    c.next(1);
    assert!(c.is_match());
    assert_eq!(c.get(), Vec::<usize>::new());
    assert!(!c.is_invalid());
    c.next(2);
    assert!(c.is_invalid());
}

#[test]
fn lr1_malformed_table() {
    let patterns: Vec<String> = vec!["a".to_string()];
    let lexer = Lexer::new(&patterns, vec![false]).unwrap();
    let table = ParseTable {
        action: vec![vec![S(7), E]],
        goto: vec![vec![]],
        rules: vec![],
        start: 0,
        eoi: 1,
        num_terminals: 2,
        num_nonterminals: 0,
    };
    assert!(LR1GrammarConstraint::new(table, lexer, vec![], false).is_err());
    assert!(Lexer::new(&patterns, vec![]).is_err());
}

#[test]
fn lr1_regular_variant_is_coarser() {
    let v = vocab(&["", " ", "f", "foo", "x"]);
    let exact = foo_grammar(v.clone(), true);
    let regular = foo_grammar(v.clone(), false);
    let s = regular.get_state(b"foo   ").unwrap();
    assert!(regular.is_match_state(&s));
    assert_eq!(regular.get_valid_continuations(&s), vec![0, 1, 2, 3]);
    assert!(!regular.only_skippable_matching(&s));
    let e = exact.get_state(b"foo   ").unwrap();
    assert_eq!(exact.get_valid_continuations(&e), vec![0, 1]);
    assert!(exact.get_state(b"foo f").is_none());
    assert!(regular.get_state(b"foo f").is_some());
    assert!(regular.get_state(b"foo foo ").is_none());

    let short = foo_grammar(vocab(&["", " ", "x"]), false);
    let s = short.get_state(b"foo   ").unwrap();
    assert!(short.only_skippable_matching(&s));
}

#[test]
fn lr1_regular_arithmetic() {
    let v = vocab(&["1", "+", "*", " ", "", ")"]);
    let exact = arithmetic_variant(v.clone(), true);
    let regular = arithmetic_variant(v.clone(), false);
    for prefix in ["", "1", "1 +", "1 + 2 *"] {
        let e = exact.get_state(prefix.as_bytes()).unwrap();
        let r = regular.get_state(prefix.as_bytes()).unwrap();
        let ev = exact.get_valid_continuations(&e);
        let rv = regular.get_valid_continuations(&r);
        assert!(ev.iter().all(|i| rv.contains(i)), "{prefix}");
    }
    let r = regular.get_state(b"1 + 2 *").unwrap();
    assert_eq!(regular.get_valid_continuations(&r), vec![0, 1, 2, 3, 4]);
}

#[test]
fn lr1_session_new_and_reset() {
    let patterns: Vec<String> = vec!["foo".to_string(), "[ ]+".to_string()];
    let lexer = Lexer::new(&patterns, vec![false, true]).unwrap();
    let table = ParseTable {
        action: vec![vec![S(1), E, E], vec![E, E, R(0)], vec![E, E, A]],
        goto: vec![vec![Some(2)], vec![None], vec![None]],
        rules: vec![Rule { lhs: 0, len: 1 }],
        start: 0,
        eoi: 2,
        num_terminals: 3,
        num_nonterminals: 1,
    };
    let mut c = LR1Constraint::new(table, lexer, vocab(&["foo", " ", "x"]), true, Some(0)).unwrap();
    assert!(c.reset(Some(b"fox".to_vec())).is_err());
    assert!(c.reset(Some(b"foo".to_vec())).is_ok());
    assert!(c.is_match());
    assert_eq!(c.indices, vec![1]);
    assert_eq!(c.get(), Vec::<usize>::new());
    c.next(2);
    assert!(c.is_invalid());
}

#[test]
fn lr1_session_small_cache_is_invisible() {
    let v = vocab(&["1", "+", "*", " ", ""]);
    let mut small = LR1Constraint::init(arithmetic(v.clone()), Some(1));
    let mut large = LR1Constraint::init(arithmetic(v.clone()), None);
    for prefix in ["1 +", "1", "1 +", "2 * 3", "1", ""] {
        small.reset(Some(prefix.as_bytes().to_vec())).unwrap();
        large.reset(Some(prefix.as_bytes().to_vec())).unwrap();
        assert_eq!(small.get(), large.get(), "{prefix}");
        assert_eq!(small.is_match(), large.is_match());
        let fresh = arithmetic(v.clone());
        let s = fresh.get_state(prefix.as_bytes()).unwrap();
        assert_eq!(small.get(), fresh.get_valid_continuations(&s));
    }
    for i in [0, 3, 1, 3, 0, 2, 0] {
        small.next(i);
        large.next(i);
        assert_eq!(small.get(), large.get());
        assert_eq!(small.is_invalid(), large.is_invalid());
    }
    assert!(small.is_match());
}

#[test]
fn lr1_only_skippable_rejects_token_extension() {
    // S -> ident, where "foo" can still grow into a longer identifier.
    let patterns: Vec<String> = vec!["[a-z]+".to_string(), "[ ]+".to_string()];
    let lexer = Lexer::new(&patterns, vec![false, true]).unwrap();
    let table = ParseTable {
        action: vec![vec![S(1), E, E], vec![E, E, R(0)], vec![E, E, A]],
        goto: vec![vec![Some(2)], vec![None], vec![None]],
        rules: vec![Rule { lhs: 0, len: 1 }],
        start: 0,
        eoi: 2,
        num_terminals: 3,
        num_nonterminals: 1,
    };
    let c = LR1GrammarConstraint::new(table, lexer, vocab(&["o", " "]), true).unwrap();
    let s = c.get_state(b"foo").unwrap();
    assert!(c.is_match_state(&s));
    assert_eq!(c.get_valid_continuations(&s), vec![0, 1]);
    assert!(!c.only_skippable_matching(&s));
}
