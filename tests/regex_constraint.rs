use grammar_utils::regex::RegularExpressionConstraint;
use grammar_utils::session::{RegexConstraint, SessionError};
use grammar_utils::Constraint;

fn vocab(items: &[&str]) -> Vec<Vec<u8>> {
    items.iter().map(|s| s.as_bytes().to_vec()).collect()
}

#[test]
fn regex_yes_no_maybe_after_may() {
    let re = RegularExpressionConstraint::new("yes|no|maybe", vocab(&["s", "y", "n", "o", "maybe"])).unwrap();
    let state = re.get_state(b"may").unwrap();
    assert_eq!(re.get_valid_continuations(&state), Vec::<usize>::new());
    assert!(!re.is_match_state(&state));

    let re = RegularExpressionConstraint::new("yes|no|maybe", vocab(&["b", "be", "x"])).unwrap();
    let state = re.get_state(b"may").unwrap();
    assert_eq!(re.get_valid_continuations(&state), vec![0, 1]);
    let done = re.get_next_state(&state, 1).unwrap();
    assert!(re.is_match_state(&done));
    assert!(re.get_next_state(&state, 2).is_none());
}

#[test]
fn regex_start_continuations() {
    let re = RegularExpressionConstraint::new("yes|no|maybe", vocab(&["s", "y", "n", "o", "maybe"])).unwrap();
    let start = re.get_start_state();
    assert_eq!(re.get_valid_continuations(&start), vec![1, 2, 4]);
    assert!(!re.is_match_state(&start));
}

#[test]
fn regex_rejects_dead_prefix() {
    let re = RegularExpressionConstraint::new("yes|no|maybe", vocab(&["s"])).unwrap();
    assert!(re.get_state(b"yex").is_none());
    assert!(re.get_state(b"ye").is_some());
}

#[test]
fn regex_match_stability() {
    let re = RegularExpressionConstraint::new("yes|no|maybe", vocab(&["s"])).unwrap();
    for (w, inside) in [("yes", true), ("no", true), ("maybe", true), ("ye", false), ("", false), ("may", false)] {
        let s = re.get_state(w.as_bytes()).unwrap();
        assert_eq!(re.is_match_state(&s), inside, "{w}");
    }
    assert!(re.get_state(b"yess").is_none());
}

#[test]
fn regex_email_after_dot_c() {
    let re = RegularExpressionConstraint::new(
        r"\w+@\w+\.(com|de|org)",
        vocab(&["o", "om", "c", ".", "@", "omg", "m"]),
    )
    .unwrap();
    let state = re.get_state(b"test@gmail.c").unwrap();
    assert_eq!(re.get_valid_continuations(&state), vec![0, 1]);
}

#[test]
fn regex_soundness_and_completeness() {
    let v = vocab(&["s", "y", "n", "o", "maybe", "ye", "", "no", "x"]);
    let re = RegularExpressionConstraint::new("yes|no|maybe", v.clone()).unwrap();
    for prefix in ["", "y", "ye", "m", "may", "n"] {
        let s = re.get_state(prefix.as_bytes()).unwrap();
        let valid = re.get_valid_continuations(&s);
        for i in 0..v.len() {
            assert_eq!(valid.contains(&i), re.get_next_state(&s, i).is_some(), "{prefix} {i}");
        }
    }
}

#[test]
fn regex_state_determinism() {
    let bytes: Vec<Vec<u8>> = (0u8..=255).map(|b| vec![b]).collect();
    let re = RegularExpressionConstraint::new("yes|no|maybe", bytes).unwrap();
    for w in ["yes", "maybe", "ma", "nx", "q"] {
        let mut s = Some(re.get_start_state());
        for b in w.bytes() {
            s = s.and_then(|st| re.get_next_state(&st, b as usize));
        }
        assert_eq!(s, re.get_state(w.as_bytes()), "{w}");
    }
}

#[test]
fn regex_empty_continuation() {
    let re = RegularExpressionConstraint::new("yes|no|maybe", vocab(&["", "y", "es"])).unwrap();
    for prefix in ["", "y", "ye", "yes"] {
        let s = re.get_state(prefix.as_bytes()).unwrap();
        assert!(re.get_valid_continuations(&s).contains(&0));
        assert_eq!(re.get_next_state(&s, 0), Some(s));
    }
}

#[test]
fn regex_syntax_error() {
    assert!(RegularExpressionConstraint::new("(ab", vocab(&["a"])).is_err());
}

#[test]
fn regex_session_walk() {
    let mut c = RegexConstraint::new("yes|no|maybe", vocab(&["y", "es", "x", "no"])).unwrap();
    assert_eq!(c.get(), vec![0, 3]);
    assert!(!c.is_match());
    assert!(!c.is_invalid());
    c.next(0);
    assert_eq!(c.get(), vec![1]);
    c.next(1);
    assert!(c.is_match());
    assert_eq!(c.get(), Vec::<usize>::new());
    assert!(!c.is_invalid());
    c.next(2);
    assert!(c.is_invalid());
    assert_eq!(c.reset(Some(b"zz".to_vec())), Err(SessionError::InvalidPrefix));
    assert!(c.is_invalid());
    assert_eq!(c.reset(Some(b"n".to_vec())), Ok(()));
    assert!(c.is_invalid());
    assert_eq!(c.reset(Some(b"no".to_vec())), Ok(()));
    assert!(!c.is_invalid());
    assert!(c.is_match());
    assert_eq!(c.reset(None), Ok(()));
    assert_eq!(c.get(), vec![0, 3]);
}
