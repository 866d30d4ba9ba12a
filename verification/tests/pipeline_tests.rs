use ebnf::bnf::{to_grammar, BnfPart};
use ebnf::chomsky;
use ebnf::lex::lex;
use ebnf::parse::parse;

#[test]
fn text_to_membership() {
    let source = "<greeting> <= hello | world\n";
    let tokens = lex(source);
    let rules = parse(&tokens).unwrap();
    let mut g = to_grammar(&rules, &rules[0].name);
    g.simplify();
    g.normalize();
    let cnf = chomsky::Grammar::from_normalized(&g).unwrap();
    assert!(cnf.accepts("hello"));
    assert!(cnf.accepts("world"));
    assert!(!cnf.accepts("helloworld"));
    assert!(!cnf.accepts(""));
}

#[test]
fn text_with_repetition() {
    let source = "<as> <= {a}\n";
    let tokens = lex(source);
    let rules = parse(&tokens).unwrap();
    let mut g = to_grammar(&rules, &rules[0].name);
    g.simplify();
    g.normalize();
    let cnf = chomsky::Grammar::from_normalized(&g).unwrap();
    assert!(cnf.accepts(""));
    assert!(cnf.accepts("a"));
    assert!(cnf.accepts("aaa"));
    assert!(!cnf.accepts("b"));
}

#[test]
fn optional_constructor_shape() {
    let part = BnfPart::Opt(BnfPart::Literal("x".into()));
    assert_eq!(
        part,
        BnfPart::Choice(vec![BnfPart::Literal("x".into()), BnfPart::Empty])
    );
}

#[test]
fn surface_simplify_keeps_the_tree() {
    let mut part = BnfPart::Opt(BnfPart::Rule("r".into()));
    let copy = BnfPart::Opt(BnfPart::Rule("r".into()));
    part.simplify();
    assert_eq!(part, copy);
}
