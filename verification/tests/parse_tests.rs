use ebnf::bnf::BnfPart;
use ebnf::bnf::BnfPart::{Choice, Literal, Repeat, Rule};
use ebnf::lex::lex;
use ebnf::parse::rparse;

fn full_parse(bnf: &str) -> BnfPart {
    let tokens = lex(bnf);
    let n = tokens.len();
    rparse(&tokens, 0, n, None).unwrap().0
}

#[test]
fn literal_choice2() {
    assert_eq!(
        full_parse("a|b"),
        Choice(vec![Literal("a".into()), Literal("b".into())])
    )
}

#[test]
fn literal_choice3() {
    assert_eq!(
        full_parse("a|b | c"),
        Choice(vec![
            Literal("a".into()),
            Literal("b".into()),
            Literal("c".into())
        ])
    )
}

#[test]
fn instantiation() {
    assert_eq!(full_parse("<rule>"), Rule("rule".into()))
}

#[test]
fn repetition() {
    assert_eq!(
        full_parse("{<rule>}"),
        Repeat(Box::new(Rule("rule".into())))
    )
}

#[test]
fn parse_full_rule_line() {
    let tokens = lex("<greeting> <= hello | world\n");
    let rules = ebnf::parse::parse(&tokens).unwrap();
    assert_eq!(rules.len(), 1);
    assert_eq!(rules[0].name, String::from("greeting"));
    assert_eq!(
        rules[0].def,
        Choice(vec![Literal("hello".into()), Literal("world".into())])
    );
}

#[test]
fn parse_reports_errors() {
    let tokens = lex("<broken <= a\n");
    let errs = ebnf::parse::parse(&tokens).unwrap_err();
    assert_eq!(errs.len(), 1);
    assert!(errs[0].message().starts_with("expected"));
}
