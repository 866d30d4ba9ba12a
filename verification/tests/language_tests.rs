use ebnf::chomsky::{self, NormalFormError};
use ebnf::grammar::{Grammar, Token};
use ebnf::producer::Producer;

fn term(s: &str) -> Token {
    Token::T(String::from(s).chars().collect())
}

fn word(s: &str) -> Vec<char> {
    s.chars().collect()
}

#[test]
fn literal_choice_language() {
    // start -> "a" | "b" | "c"
    let mut g = Grammar {
        start: 0,
        rules: vec![vec![vec![term("a")], vec![term("b")], vec![term("c")]]],
    };
    g.normalize();
    let cnf = chomsky::Grammar::from_normalized(&g).unwrap();
    assert!(cnf.accepts("a"));
    assert!(!cnf.accepts("ab"));
    let mut prod = Producer::new(cnf);
    assert_eq!(prod.next(), Some(word("a")));
    assert_eq!(prod.next(), Some(word("b")));
    assert_eq!(prod.next(), Some(word("c")));
    assert_eq!(prod.next(), None);
}

#[test]
fn sequencing() {
    // r1 -> r2 r3, r2 -> "a", r3 -> "b", start = r1
    let mut g = Grammar {
        start: 0,
        rules: vec![
            vec![vec![Token::NT(1), Token::NT(2)]],
            vec![vec![term("a")]],
            vec![vec![term("b")]],
        ],
    };
    g.normalize();
    let cnf = chomsky::Grammar::from_normalized(&g).unwrap();
    assert!(cnf.accepts("ab"));
    assert!(!cnf.accepts("ba"));
    assert!(!cnf.accepts("a"));
}

#[test]
fn empty_word_follows_null_flag() {
    let mut nullable = Grammar {
        start: 0,
        rules: vec![vec![vec![], vec![term("hi")]]],
    };
    nullable.normalize();
    let cnf = chomsky::Grammar::from_normalized(&nullable).unwrap();
    assert!(cnf.null);
    assert!(cnf.accepts(""));

    let mut plain = Grammar {
        start: 0,
        rules: vec![vec![vec![term("hi")]]],
    };
    plain.normalize();
    let cnf = chomsky::Grammar::from_normalized(&plain).unwrap();
    assert!(!cnf.null);
    assert!(!cnf.accepts(""));
}

#[test]
fn normalize_always_converts() {
    // a grammar with a cycle, an unreachable rule, and a nested optional
    let mut g = Grammar {
        start: 0,
        rules: vec![
            vec![vec![Token::NT(1)], vec![term("x")]],
            vec![vec![Token::NT(0)], vec![], vec![term("y"), Token::NT(0), term("z")]],
            vec![vec![term("dead")]],
            vec![vec![Token::NT(3)]],
        ],
    };
    g.normalize();
    assert!(chomsky::Grammar::from_normalized(&g).is_ok());
    // a grammar whose rules can produce nothing at all
    let mut hollow = Grammar {
        start: 0,
        rules: vec![vec![vec![Token::NT(1)]], vec![vec![Token::NT(0)]]],
    };
    hollow.normalize();
    assert!(chomsky::Grammar::from_normalized(&hollow).is_ok());
}

#[test]
fn conversion_rejects_misplaced_empty() {
    let g = Grammar {
        start: 0,
        rules: vec![vec![vec![term("a")]], vec![vec![]]],
    };
    assert_eq!(
        chomsky::Grammar::from_normalized(&g),
        Err(NormalFormError::OnlyStartMayBeNullable)
    );
}

#[test]
fn conversion_rejects_unit_production() {
    let g = Grammar {
        start: 0,
        rules: vec![vec![vec![Token::NT(0)]]],
    };
    assert_eq!(
        chomsky::Grammar::from_normalized(&g),
        Err(NormalFormError::UnitProductionNotAllowed)
    );
}

#[test]
fn conversion_rejects_bad_arity() {
    let mixed = Grammar {
        start: 0,
        rules: vec![vec![vec![Token::NT(0), term("b")]]],
    };
    assert_eq!(
        chomsky::Grammar::from_normalized(&mixed),
        Err(NormalFormError::InvalidArity)
    );
    let long = Grammar {
        start: 0,
        rules: vec![vec![vec![Token::NT(0), Token::NT(0), Token::NT(0)]]],
    };
    assert_eq!(
        chomsky::Grammar::from_normalized(&long),
        Err(NormalFormError::InvalidArity)
    );
}

#[test]
fn repetition_language() {
    // start -> empty | start start | "a"  (zero or more letters a)
    let mut g = Grammar {
        start: 0,
        rules: vec![vec![
            vec![],
            vec![Token::NT(0), Token::NT(0)],
            vec![term("a")],
        ]],
    };
    g.normalize();
    let cnf = chomsky::Grammar::from_normalized(&g).unwrap();
    assert!(cnf.accepts(""));
    assert!(cnf.accepts("a"));
    assert!(cnf.accepts("aaaa"));
    assert!(!cnf.accepts("ab"));
}
