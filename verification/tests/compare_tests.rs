use ebnf::chomsky;
use ebnf::compare::Comparison;
use ebnf::grammar::{Grammar, Token};

fn term(s: &str) -> Token {
    Token::T(String::from(s).chars().collect())
}

fn normalize_to_cnf(mut g: Grammar) -> chomsky::Grammar {
    g.normalize();
    chomsky::Grammar::from_normalized(&g).unwrap()
}

fn words(ws: &[&str]) -> Vec<Vec<char>> {
    ws.iter().map(|s| s.chars().collect()).collect()
}

#[test]
fn identical_languages_share_everything() {
    let g1 = normalize_to_cnf(Grammar {
        start: 0,
        rules: vec![vec![vec![term("a")], vec![term("b")], vec![term("cc")]]],
    });
    // the same language, written in a different order
    let g2 = normalize_to_cnf(Grammar {
        start: 0,
        rules: vec![vec![vec![term("cc")], vec![term("b")], vec![term("a")]]],
    });
    let cmp = Comparison::from_grammars(g1, g2, 100);
    assert_eq!(cmp.first, words(&[]));
    assert_eq!(cmp.second, words(&[]));
    assert_eq!(cmp.both, words(&["a", "b", "cc"]));
}

#[test]
fn differing_languages_split() {
    let g1 = normalize_to_cnf(Grammar {
        start: 0,
        rules: vec![vec![vec![term("a")], vec![term("b")]]],
    });
    let g2 = normalize_to_cnf(Grammar {
        start: 0,
        rules: vec![vec![vec![term("b")], vec![term("c")]]],
    });
    let cmp = Comparison::from_grammars(g1, g2, 100);
    assert_eq!(cmp.first, words(&["a"]));
    assert_eq!(cmp.both, words(&["b"]));
    // the walk stops when the first list runs out, so "c" stays unreported
    assert_eq!(cmp.second, words(&[]));
}

#[test]
fn limit_bounds_the_window() {
    let g1 = normalize_to_cnf(Grammar {
        start: 0,
        rules: vec![vec![vec![], vec![Token::NT(0), Token::NT(0)], vec![term("a")]]],
    });
    let g2 = normalize_to_cnf(Grammar {
        start: 0,
        rules: vec![vec![vec![], vec![Token::NT(0), Token::NT(0)], vec![term("a")]]],
    });
    let cmp = Comparison::from_grammars(g1, g2, 4);
    assert_eq!(cmp.first, words(&[]));
    assert_eq!(cmp.second, words(&[]));
    assert_eq!(cmp.both, words(&["", "a", "aa", "aaa"]));
}
