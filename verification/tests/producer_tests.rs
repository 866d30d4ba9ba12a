use ebnf::chomsky;
use ebnf::grammar::{Grammar, Token};
use ebnf::producer::Producer;

fn term(s: &str) -> Token {
    Token::T(String::from(s).chars().collect())
}

fn normalize_to_cnf(mut g: Grammar) -> chomsky::Grammar {
    g.normalize();
    chomsky::Grammar::from_normalized(&g).unwrap()
}

#[test]
fn outputs_never_shrink_and_never_repeat() {
    // start -> empty | start start | "a" | "bb"
    let g = Grammar {
        start: 0,
        rules: vec![vec![
            vec![],
            vec![Token::NT(0), Token::NT(0)],
            vec![term("a")],
            vec![term("bb")],
        ]],
    };
    let cnf = normalize_to_cnf(g);
    let mut prod = Producer::new(cnf);
    let mut seen: Vec<Vec<char>> = Vec::new();
    for _ in 0..12 {
        if let Some(w) = prod.next() {
            if let Some(last) = seen.last() {
                assert!(last.len() <= w.len());
            }
            assert!(!seen.contains(&w));
            seen.push(w);
        }
    }
    assert_eq!(seen.len(), 12);
}

#[test]
fn produced_words_are_accepted() {
    let g = Grammar {
        start: 0,
        rules: vec![vec![
            vec![],
            vec![Token::NT(0), Token::NT(0)],
            vec![term("ab")],
        ]],
    };
    let cnf = normalize_to_cnf(g);
    let checker = normalize_to_cnf(Grammar {
        start: 0,
        rules: vec![vec![
            vec![],
            vec![Token::NT(0), Token::NT(0)],
            vec![term("ab")],
        ]],
    });
    let mut prod = Producer::new(cnf);
    for _ in 0..8 {
        if let Some(w) = prod.next() {
            let s: String = w.iter().collect();
            assert!(checker.accepts(&s), "{:?}", s);
        }
    }
}

#[test]
fn finite_language_ends() {
    let g = Grammar {
        start: 0,
        rules: vec![vec![vec![term("x")], vec![term("yz")]]],
    };
    let cnf = normalize_to_cnf(g);
    let mut prod = Producer::new(cnf);
    assert_eq!(prod.next(), Some("x".chars().collect()));
    assert_eq!(prod.next(), Some("yz".chars().collect()));
    assert_eq!(prod.next(), None);
    assert_eq!(prod.next(), None);
}

#[test]
fn buffered_words_cover_everything_pulled() {
    let g = Grammar {
        start: 0,
        rules: vec![vec![vec![term("a")], vec![term("b")]]],
    };
    let cnf = normalize_to_cnf(g);
    let mut prod = Producer::new(cnf);
    while let Some(_) = prod.next() {}
    let all = prod.all_buffered_words();
    assert_eq!(
        all,
        vec!["a".chars().collect::<Vec<char>>(), "b".chars().collect()]
    );
}
