use ebnf::grammar::{Grammar, Token};
use ebnf::chomsky;
use ebnf::chomsky::Grammar as CGram;

fn term(s: &str) -> Token {
    Token::T(String::from(s).chars().collect())
}

fn cterm(s: &str) -> chomsky::Definition {
    chomsky::Definition::Term(String::from(s).chars().collect())
}

#[test]
fn sanity_check() {
    let mut g = Grammar {
        start: 0,
        rules: vec![vec![vec![term("foo")]]],
    };
    g.simplify();
    assert_eq!(g.rules, vec![vec![vec![term("foo")]]]);
}

#[test]
fn remove_duplicate_definitions() {
    let mut g = Grammar {
        start: 0,
        rules: Vec::new(),
    };

    let def1 = vec![vec![term("hello")]];

    let mut def4 = def1.clone();
    def4.extend_from_within(..);
    def4.extend_from_within(..);

    g.rules.push(def4);

    g.simplify();

    assert_eq!(g.rules[0], def1);
    assert_eq!(g.rules.len(), 1);
}

#[test]
fn concat_strings() {
    let mut g = Grammar {
        start: 0,
        rules: vec![vec![vec![term("hello"), term(" "), term("world")]]],
    };
    g.simplify();

    assert_eq!(g.rules, vec![vec![vec![term("hello world")]]]);
}

#[test]
fn normalize_sequence() {
    let r1 = vec![vec![Token::NT(1), Token::NT(2), Token::NT(3)]];
    let r2 = vec![vec![term("a")]];
    let r3 = vec![vec![term("b")]];
    let r4 = vec![vec![term("c")]];

    let mut g = Grammar {
        start: 0,
        rules: vec![r1, r2, r3, r4],
    };

    g.simplify();
    assert_eq!(g.rules.len(), 4);

    g.normalize();
    assert!(g.rules.len() >= 4, "{:?}", g);
    assert!(chomsky::Grammar::from_normalized(&g).is_ok(), "{:?}", g);
}

#[test]
fn normalize_optional() {
    let mut g = Grammar {
        start: 0,
        rules: vec![vec![vec![], vec![term("hello")]]],
    };
    g.normalize();
    assert_eq!(
        CGram::from_normalized(&g),
        Ok(CGram {
            start: 0,
            null: true,
            rules: vec![vec![cterm("hello")]]
        })
    );
    let mut g = Grammar {
        start: 0,
        rules: vec![vec![vec![term("hello")]]],
    };
    g.normalize();
    assert_eq!(
        CGram::from_normalized(&g),
        Ok(CGram {
            start: 0,
            null: false,
            rules: vec![vec![cterm("hello")]]
        })
    );
}

#[test]
fn normalize_optional_alternative() {
    let mut g = Grammar {
        start: 0,
        rules: vec![vec![vec![], vec![term("hello")], vec![term("world")]]],
    };
    g.normalize();
    assert_eq!(
        CGram::from_normalized(&g),
        Ok(CGram {
            start: 0,
            null: true,
            rules: vec![vec![cterm("hello"), cterm("world"),]]
        })
    )
}

#[test]
fn simplify_is_idempotent() {
    let mut g = Grammar {
        start: 0,
        rules: vec![
            vec![vec![Token::NT(1), term(""), Token::NT(2)], vec![term("a"), term("b")]],
            vec![vec![term("x")], vec![term("x")], vec![Token::NT(1)]],
            vec![vec![Token::NT(3)]],
            vec![vec![Token::NT(2)]],
            vec![vec![term("unreachable")]],
        ],
    };
    g.simplify();
    let once = g.rules.clone();
    let start_once = g.start;
    g.simplify();
    assert_eq!(g.rules, once);
    assert_eq!(g.start, start_once);
}

#[test]
fn textual_dump() {
    let g = Grammar {
        start: 0,
        rules: vec![
            vec![vec![term("ab")], vec![Token::NT(1)]],
            vec![],
            vec![vec![]],
        ],
    };
    assert_eq!(
        g.to_text(),
        "Start: 0\n  0 -> 'ab' | 1\n  1 -> undefined\n  2 -> \"\"\n"
    );
}
