use ebnf::lex::lex;
use ebnf::lex::Token::{Alternative, Assign, GroupClose, GroupOpen, Newline, OptClose, OptOpen, RepClose, RepOpen, RuleClose, RuleOpen, Str};

#[test]
fn lex_a() {
    assert_eq!(
        lex("<peter\\ >   <= mueller[asdf]\\a\\}")
            .into_iter()
            .map(|(_, t)| t)
            .collect::<Vec<_>>(),
        vec![
            RuleOpen,
            Str("peter ".into()),
            RuleClose,
            Assign,
            Str("mueller".into()),
            OptOpen,
            Str("asdf".into()),
            OptClose,
            Str("a}".into())
        ]
    )
}

#[test]
fn lex_newlines_and_groups() {
    assert_eq!(
        lex("(a|b)\n{x}")
            .into_iter()
            .map(|(_, t)| t)
            .collect::<Vec<_>>(),
        vec![
            GroupOpen,
            Str("a".into()),
            Alternative,
            Str("b".into()),
            GroupClose,
            Newline,
            RepOpen,
            Str("x".into()),
            RepClose,
        ]
    )
}
