//! The recursive-descent parser: a token stream to a list of named
//! surface rules, with located errors.

use vstd::prelude::*;
use vstd::string::StrSliceExecFns;
use vstd::string::StringExecFns;
use crate::lex::{Location, Token};
use crate::bnf::{BnfRule, BnfPart};

verus! {

/// A parse error: what was expected, what stood there instead, and
/// where.
#[derive(Clone, Debug)]
pub struct ParseError {
    expected: Vec<Token>,
    got: Option<Token>,
    location: Option<Location>,
}

impl ParseError {
    /// Where the error was found, when a location is known.
    pub closed spec fn spec_location(&self) -> Option<Location> {
        self.location
    }

    /// Where the error was found, when a location is known.
    pub fn location(&self) -> (r: Option<Location>)
        ensures
            r == self.spec_location(),
    {
        match &self.location {
            Option::Some(l) => Option::Some(*l),
            Option::None => Option::None,
        }
    }

    /// A human-readable description of the error.
    pub fn message(&self) -> String {
        let got = match &self.got {
            Option::Some(token) => token.to_expected(),
            Option::None => String::from_str("nothing"),
        };
        if self.expected.len() == 0 {
            let mut out = String::from_str("unexpected symbol ");
            out.append(got.as_str());
            out
        } else if self.expected.len() == 1 {
            let mut out = String::from_str("expected ");
            let e = self.expected[0].to_expected();
            out.append(e.as_str());
            out.append(", found ");
            out.append(got.as_str());
            out
        } else {
            let mut out = String::from_str("expected ");
            let mut i: usize = 1;
            while i < self.expected.len()
                decreases self.expected.len() - i,
            {
                let e = self.expected[i].to_expected();
                out.append(e.as_str());
                out.append(", ");
                i += 1;
            }
            out.append("or");
            let e0 = self.expected[0].to_expected();
            out.append(e0.as_str());
            out.append(", found ");
            out.append(got.as_str());
            out
        }
    }
}

/// The mathematical value of a surface rule body.
pub ghost enum PartModel {
    Empty,
    Literal(Seq<char>),
    Choice(Seq<PartModel>),
    Concat(Seq<PartModel>),
    Repeat(Box<PartModel>),
    Rule(Seq<char>),
}

/// The mathematical value of one rule body.
pub open spec fn part_view(p: BnfPart) -> PartModel
    decreases p,
{
    match p {
        BnfPart::Empty => PartModel::Empty,
        BnfPart::Literal(s) => PartModel::Literal(s@),
        BnfPart::Choice(v) => PartModel::Choice(parts_view(v@)),
        BnfPart::Concat(v) => PartModel::Concat(parts_view(v@)),
        BnfPart::Repeat(b) => PartModel::Repeat(Box::new(part_view(*b))),
        BnfPart::Rule(s) => PartModel::Rule(s@),
    }
}

/// The mathematical values of a list of rule bodies.
pub open spec fn parts_view(v: Seq<BnfPart>) -> Seq<PartModel>
    decreases v,
{
    if v.len() == 0 {
        Seq::<PartModel>::empty()
    } else {
        seq![part_view(v[0])] + parts_view(v.drop_first())
    }
}

/// Appending one part to a list, seen through the model.
pub proof fn lemma_parts_view_push(v: Seq<BnfPart>, p: BnfPart)
    ensures
        parts_view(v.push(p)) == parts_view(v).push(part_view(p)),
    decreases v.len(),
{
    if v.len() == 0 {
        assert(v.push(p).drop_first() =~= Seq::<BnfPart>::empty());
        assert(v.push(p)[0] == p);
        assert(parts_view(Seq::<BnfPart>::empty()) =~= Seq::<PartModel>::empty());
        assert(parts_view(v) =~= Seq::<PartModel>::empty());
        assert(parts_view(v.push(p)) =~= parts_view(v).push(part_view(p)));
    } else {
        assert(v.push(p)[0] == v[0]);
        assert(v.push(p).drop_first() =~= v.drop_first().push(p));
        lemma_parts_view_push(v.drop_first(), p);
        lemma_parts_view_len(v.drop_first());
        assert(parts_view(v.push(p)) =~= parts_view(v).push(part_view(p)));
    }
}

/// The model of each listed part, by position.
pub proof fn lemma_parts_view_index(v: Seq<BnfPart>, i: int)
    requires
        0 <= i < v.len(),
    ensures
        parts_view(v).len() == v.len(),
        parts_view(v)[i] == part_view(v[i]),
    decreases v.len(),
{
    if i > 0 {
        lemma_parts_view_index(v.drop_first(), i - 1);
        assert(v.drop_first()[i - 1] == v[i]);
    } else {
        lemma_parts_view_len(v.drop_first());
    }
}

/// The model keeps the list's length.
pub proof fn lemma_parts_view_len(v: Seq<BnfPart>)
    ensures
        parts_view(v).len() == v.len(),
    decreases v.len(),
{
    if v.len() > 0 {
        lemma_parts_view_len(v.drop_first());
    }
}

/// The token models of a located token stream.
pub open spec fn toks_view(ts: Seq<(Location, Token)>) -> Seq<crate::lex::TokModel> {
    ts.map_values(|e: (Location, Token)| e.1@)
}

/// Closing the alternative collected so far: no parts mean the empty
/// word, one part stands alone, several parts concatenate.
pub open spec fn close_alt(acc: Seq<PartModel>, alts: Seq<PartModel>) -> Seq<PartModel> {
    alts.push(
        if acc.len() == 0 {
            PartModel::Empty
        } else if acc.len() == 1 {
            acc[0]
        } else {
            PartModel::Concat(acc)
        },
    )
}

/// The finished body: a lone alternative stands alone, several become a
/// choice.
pub open spec fn assemble(alts: Seq<PartModel>) -> PartModel {
    if alts.len() == 1 {
        alts[0]
    } else {
        PartModel::Choice(alts)
    }
}

/// What parsing a rule body from `p` with the collected state yields:
/// the parsed body and the position after it, or nothing on a syntax
/// error. Mirrors the descent exactly; a sub-window that would not
/// advance is treated as an error, which a successful parse never
/// produces.
pub open spec fn rp_spec(
    ts: Seq<crate::lex::TokModel>,
    p: int,
    end: int,
    closing: Option<crate::lex::TokModel>,
    acc: Seq<PartModel>,
    alts: Seq<PartModel>,
) -> Option<(PartModel, int)>
    decreases end - p, 1int,
{
    if p < 0 || p >= end || end > ts.len() {
        if p == end && closing is None {
            Option::Some((assemble(close_alt(acc, alts)), p))
        } else {
            Option::None
        }
    } else {
        match ts[p] {
            crate::lex::TokModel::RuleOpen => {
                if p + 1 < end && ts[p + 1] is Str && p + 2 < end && ts[p + 2]
                    is RuleClose {
                    rp_spec(ts, p + 3, end, closing, acc.push(PartModel::Rule(ts[p + 1]->Str_0)), alts)
                } else {
                    Option::None
                }
            },
            crate::lex::TokModel::GroupOpen => rp_sub(ts, p, end, closing, acc, alts, 0),
            crate::lex::TokModel::OptOpen => rp_sub(ts, p, end, closing, acc, alts, 1),
            crate::lex::TokModel::RepOpen => rp_sub(ts, p, end, closing, acc, alts, 2),
            crate::lex::TokModel::Str(text) => rp_spec(
                ts,
                p + 1,
                end,
                closing,
                acc.push(PartModel::Literal(text)),
                alts,
            ),
            crate::lex::TokModel::Alternative => rp_spec(
                ts,
                p + 1,
                end,
                closing,
                Seq::<PartModel>::empty(),
                close_alt(acc, alts),
            ),
            tok => {
                if closing == Option::Some(tok) {
                    Option::Some((assemble(close_alt(acc, alts)), p + 1))
                } else {
                    Option::None
                }
            },
        }
    }
}

/// One bracketed sub-part: group, optional, or repetition.
pub open spec fn rp_sub(
    ts: Seq<crate::lex::TokModel>,
    p: int,
    end: int,
    closing: Option<crate::lex::TokModel>,
    acc: Seq<PartModel>,
    alts: Seq<PartModel>,
    kind: int,
) -> Option<(PartModel, int)>
    decreases end - p, 0int,
{
    let close = if kind == 0 {
        crate::lex::TokModel::GroupClose
    } else if kind == 1 {
        crate::lex::TokModel::OptClose
    } else {
        crate::lex::TokModel::RepClose
    };
    if p < 0 || p >= end {
        Option::None
    } else {
        match rp_spec(ts, p + 1, end, Option::Some(close), Seq::empty(), Seq::empty()) {
        Option::Some((part, np)) => {
            if p + 1 <= np <= end && np > p {
                let wrapped = if kind == 0 {
                    part
                } else if kind == 1 {
                    PartModel::Choice(seq![part, PartModel::Empty])
                } else {
                    PartModel::Repeat(Box::new(part))
                };
                rp_spec(ts, np, end, closing, acc.push(wrapped), alts)
            } else {
                Option::None
            }
            },
            Option::None => Option::None,
        }
    }
}

/// Whether two tokens are the same symbol, or literals with the same
/// text.
fn tok_eq(a: &Token, b: &Token) -> (r: bool)
    ensures
        r == (a@ == b@),
{
    match (a, b) {
        (Token::Str(x), Token::Str(y)) => *x == *y,
        (Token::RuleOpen, Token::RuleOpen) => true,
        (Token::RuleClose, Token::RuleClose) => true,
        (Token::GroupOpen, Token::GroupOpen) => true,
        (Token::GroupClose, Token::GroupClose) => true,
        (Token::OptOpen, Token::OptOpen) => true,
        (Token::OptClose, Token::OptClose) => true,
        (Token::RepOpen, Token::RepOpen) => true,
        (Token::RepClose, Token::RepClose) => true,
        (Token::Alternative, Token::Alternative) => true,
        (Token::Assign, Token::Assign) => true,
        (Token::Newline, Token::Newline) => true,
        _ => false,
    }
}

/// Closes the alternative collected so far and starts a new one: no
/// parts mean the empty word, one part stands alone, several parts
/// concatenate.
fn push_alt(acc: Vec<BnfPart>, alts: &mut Vec<BnfPart>) -> (fresh: Vec<BnfPart>)
    ensures
        fresh@.len() == 0,
        parts_view(final(alts)@) == close_alt(parts_view(acc@), parts_view(old(alts)@)),
{
    let ghost accm = parts_view(acc@);
    let ghost altsm = parts_view(alts@);
    proof {
        lemma_parts_view_len(acc@);
    }
    let mut acc = acc;
    let alt = if acc.len() == 0 {
        BnfPart::Empty
    } else if acc.len() == 1 {
        proof {
            lemma_parts_view_index(acc@, 0);
        }
        match acc.pop() {
            Option::Some(p) => p,
            Option::None => BnfPart::Empty,
        }
    } else {
        BnfPart::Concat(acc)
    };
    proof {
        assert(part_view(alt) == (if accm.len() == 0 {
            PartModel::Empty
        } else if accm.len() == 1 {
            accm[0]
        } else {
            PartModel::Concat(accm)
        }));
    }
    alts.push(alt);
    proof {
        lemma_parts_view_push(old(alts)@, alt);
    }
    Vec::new()
}

/// The model of an optional closing token.
pub open spec fn closing_view(c: Option<Token>) -> Option<crate::lex::TokModel> {
    match c {
        Option::Some(t) => Option::Some(t@),
        Option::None => Option::None,
    }
}

/// Parses one rule body from the token window, stopping at the given
/// closing symbol if one is expected, exactly as [`rp_spec`] lays down:
/// a successful parse returns the body `rp_spec` names and its end
/// position, and an error is returned exactly when `rp_spec` has none.
pub fn rparse(tokens: &[(Location, Token)], pos: usize, end: usize, closing: Option<Token>) -> (r:
    Result<(BnfPart, usize), ParseError>)
    requires
        pos <= end <= tokens@.len(),
    ensures
        r is Ok ==> pos <= r->Ok_0.1 <= end,
        r is Ok && closing is Some ==> pos < r->Ok_0.1,
        match r {
            Result::Ok(res) => rp_spec(
                toks_view(tokens@),
                pos as int,
                end as int,
                closing_view(closing),
                Seq::<PartModel>::empty(),
                Seq::<PartModel>::empty(),
            ) == Option::Some((part_view(res.0), res.1 as int)),
            Result::Err(_) => rp_spec(
                toks_view(tokens@),
                pos as int,
                end as int,
                closing_view(closing),
                Seq::<PartModel>::empty(),
                Seq::<PartModel>::empty(),
            ) is None,
        },
    decreases end - pos,
{
    let ghost ts = toks_view(tokens@);
    let ghost cm0 = closing_view(closing);
    let ghost full = rp_spec(
        ts,
        pos as int,
        end as int,
        cm0,
        Seq::<PartModel>::empty(),
        Seq::<PartModel>::empty(),
    );
    let mut acc: Vec<BnfPart> = Vec::new();
    let mut alts: Vec<BnfPart> = Vec::new();
    let mut p = pos;
    let mut closed = false;
    proof {
        assert(parts_view(acc@) =~= Seq::<PartModel>::empty());
        assert(parts_view(alts@) =~= Seq::<PartModel>::empty());
        assert(ts.len() == tokens@.len());
    }
    while p < end && !closed
        invariant
            pos <= p <= end,
            end <= tokens@.len(),
            ts == toks_view(tokens@),
            ts.len() == tokens@.len(),
            cm0 == closing_view(closing),
            full == rp_spec(
                ts,
                pos as int,
                end as int,
                cm0,
                Seq::<PartModel>::empty(),
                Seq::<PartModel>::empty(),
            ),
            closed ==> pos < p,
            !closed ==> full == rp_spec(
                ts,
                p as int,
                end as int,
                cm0,
                parts_view(acc@),
                parts_view(alts@),
            ),
            closed ==> full == Option::Some(
                (assemble(close_alt(parts_view(acc@), parts_view(alts@))), p as int),
            ),
        decreases end - p + (if closed { 0int } else { 1int }),
    {
        let first_loc = tokens[p].0;
        let pos_here = p;
        p = p + 1;
        proof {
            assert(ts[pos_here as int] == tokens@[pos_here as int].1@);
        }
        match &tokens[pos_here].1 {
            Token::RuleOpen => {
                if p < end {
                    proof {
                        assert(ts[p as int] == tokens@[p as int].1@);
                    }
                    match &tokens[p].1 {
                        Token::Str(s) => {
                            if p + 1 < end {
                                proof {
                                    assert(ts[p + 1] == tokens@[p + 1].1@);
                                }
                                match &tokens[p + 1].1 {
                                    Token::RuleClose => {
                                        let ghost a0 = parts_view(acc@);
                                        let ghost av0 = acc@;
                                        acc.push(BnfPart::Rule(s.clone()));
                                        proof {
                                            assert(acc@ =~= av0.push(acc@.last()));
                                            lemma_parts_view_push(av0, acc@.last());
                                            assert(parts_view(acc@) == a0.push(
                                                PartModel::Rule(s@),
                                            ));
                                            assert(rp_spec(
                                                ts,
                                                pos_here as int,
                                                end as int,
                                                cm0,
                                                a0,
                                                parts_view(alts@),
                                            ) == rp_spec(
                                                ts,
                                                pos_here + 3,
                                                end as int,
                                                cm0,
                                                a0.push(PartModel::Rule(s@)),
                                                parts_view(alts@),
                                            ));
                                        }
                                        p = p + 2;
                                    },
                                    _ => {
                                        proof {
                                            assert(rp_spec(
                                                ts,
                                                pos_here as int,
                                                end as int,
                                                cm0,
                                                parts_view(acc@),
                                                parts_view(alts@),
                                            ) is None);
                                        }
                                        let mut expected: Vec<Token> = Vec::new();
                                        expected.push(Token::RuleClose);
                                        return Result::Err(ParseError {
                                            expected,
                                            got: Option::Some(tokens[p + 1].1.clone()),
                                            location: Option::Some(tokens[p + 1].0),
                                        });
                                    },
                                }
                            } else {
                                proof {
                                    assert(rp_spec(
                                        ts,
                                        pos_here as int,
                                        end as int,
                                        cm0,
                                        parts_view(acc@),
                                        parts_view(alts@),
                                    ) is None);
                                }
                                let mut expected: Vec<Token> = Vec::new();
                                expected.push(Token::RuleClose);
                                return Result::Err(ParseError {
                                    expected,
                                    got: Option::None,
                                    location: Option::None,
                                });
                            }
                        },
                        _ => {
                            proof {
                                assert(rp_spec(
                                    ts,
                                    pos_here as int,
                                    end as int,
                                    cm0,
                                    parts_view(acc@),
                                    parts_view(alts@),
                                ) is None);
                            }
                            let mut expected: Vec<Token> = Vec::new();
                            expected.push(Token::Str(String::new()));
                            return Result::Err(ParseError {
                                expected,
                                got: Option::Some(tokens[p].1.clone()),
                                location: Option::Some(tokens[p].0),
                            });
                        },
                    }
                } else {
                    proof {
                        assert(rp_spec(
                            ts,
                            pos_here as int,
                            end as int,
                            cm0,
                            parts_view(acc@),
                            parts_view(alts@),
                        ) is None);
                    }
                    let mut expected: Vec<Token> = Vec::new();
                    expected.push(Token::Str(String::new()));
                    return Result::Err(ParseError {
                        expected,
                        got: Option::None,
                        location: Option::None,
                    });
                }
            },
            Token::GroupOpen => {
                match rparse(tokens, p, end, Option::Some(Token::GroupClose)) {
                    Result::Ok((part, np)) => {
                        let ghost a0 = parts_view(acc@);
                        proof {
                            assert(rp_sub(
                                ts,
                                pos_here as int,
                                end as int,
                                cm0,
                                a0,
                                parts_view(alts@),
                                0,
                            ) == rp_spec(
                                ts,
                                np as int,
                                end as int,
                                cm0,
                                a0.push(part_view(part)),
                                parts_view(alts@),
                            ));
                        }
                        let ghost av0 = acc@;
                        acc.push(part);
                        proof {
                            assert(acc@ =~= av0.push(acc@.last()));
                            lemma_parts_view_push(av0, acc@.last());
                            assert(parts_view(acc@) == a0.push(part_view(acc@.last())));
                        }
                        p = np;
                    },
                    Result::Err(e) => {
                        proof {
                            reveal_with_fuel(rp_spec, 2);
                            reveal_with_fuel(rp_sub, 2);
                            assert(rp_sub(
                                ts,
                                pos_here as int,
                                end as int,
                                cm0,
                                parts_view(acc@),
                                parts_view(alts@),
                                0,
                            ) is None);
                            assert(rp_spec(
                                ts,
                                pos_here as int,
                                end as int,
                                cm0,
                                parts_view(acc@),
                                parts_view(alts@),
                            ) is None);
                        }
                        return Result::Err(e);
                    },
                }
            },
            Token::OptOpen => {
                match rparse(tokens, p, end, Option::Some(Token::OptClose)) {
                    Result::Ok((part, np)) => {
                        let ghost a0 = parts_view(acc@);
                        let ghost pm = part_view(part);
                        let wrapped = BnfPart::Opt(part);
                        proof {
                            assert(parts_view(wrapped->Choice_0@) =~= seq![pm, PartModel::Empty])
                                by {
                                lemma_parts_view_len(wrapped->Choice_0@);
                                lemma_parts_view_index(wrapped->Choice_0@, 0);
                                lemma_parts_view_index(wrapped->Choice_0@, 1);
                            }
                            assert(part_view(wrapped) == PartModel::Choice(
                                seq![pm, PartModel::Empty],
                            ));
                            assert(rp_sub(
                                ts,
                                pos_here as int,
                                end as int,
                                cm0,
                                a0,
                                parts_view(alts@),
                                1,
                            ) == rp_spec(
                                ts,
                                np as int,
                                end as int,
                                cm0,
                                a0.push(part_view(wrapped)),
                                parts_view(alts@),
                            ));
                        }
                        let ghost av0 = acc@;
                        acc.push(wrapped);
                        proof {
                            assert(acc@ =~= av0.push(acc@.last()));
                            lemma_parts_view_push(av0, acc@.last());
                            assert(parts_view(acc@) == a0.push(part_view(acc@.last())));
                        }
                        p = np;
                    },
                    Result::Err(e) => {
                        proof {
                            reveal_with_fuel(rp_spec, 2);
                            reveal_with_fuel(rp_sub, 2);
                            assert(rp_sub(
                                ts,
                                pos_here as int,
                                end as int,
                                cm0,
                                parts_view(acc@),
                                parts_view(alts@),
                                1,
                            ) is None);
                            assert(rp_spec(
                                ts,
                                pos_here as int,
                                end as int,
                                cm0,
                                parts_view(acc@),
                                parts_view(alts@),
                            ) is None);
                        }
                        return Result::Err(e);
                    },
                }
            },
            Token::RepOpen => {
                match rparse(tokens, p, end, Option::Some(Token::RepClose)) {
                    Result::Ok((part, np)) => {
                        let ghost a0 = parts_view(acc@);
                        let ghost pm = part_view(part);
                        let wrapped = BnfPart::Repeat(Box::new(part));
                        proof {
                            assert(part_view(wrapped) == PartModel::Repeat(Box::new(pm)));
                            assert(rp_sub(
                                ts,
                                pos_here as int,
                                end as int,
                                cm0,
                                a0,
                                parts_view(alts@),
                                2,
                            ) == rp_spec(
                                ts,
                                np as int,
                                end as int,
                                cm0,
                                a0.push(part_view(wrapped)),
                                parts_view(alts@),
                            ));
                        }
                        let ghost av0 = acc@;
                        acc.push(wrapped);
                        proof {
                            assert(acc@ =~= av0.push(acc@.last()));
                            lemma_parts_view_push(av0, acc@.last());
                            assert(parts_view(acc@) == a0.push(part_view(acc@.last())));
                        }
                        p = np;
                    },
                    Result::Err(e) => {
                        proof {
                            reveal_with_fuel(rp_spec, 2);
                            reveal_with_fuel(rp_sub, 2);
                            assert(rp_sub(
                                ts,
                                pos_here as int,
                                end as int,
                                cm0,
                                parts_view(acc@),
                                parts_view(alts@),
                                2,
                            ) is None);
                            assert(rp_spec(
                                ts,
                                pos_here as int,
                                end as int,
                                cm0,
                                parts_view(acc@),
                                parts_view(alts@),
                            ) is None);
                        }
                        return Result::Err(e);
                    },
                }
            },
            Token::Str(s) => {
                let ghost a0 = parts_view(acc@);
                let ghost av0 = acc@;
                acc.push(BnfPart::Literal(s.clone()));
                proof {
                    assert(acc@ =~= av0.push(acc@.last()));
                    lemma_parts_view_push(av0, acc@.last());
                    assert(parts_view(acc@) == a0.push(PartModel::Literal(s@)));
                    assert(rp_spec(
                        ts,
                        pos_here as int,
                        end as int,
                        cm0,
                        a0,
                        parts_view(alts@),
                    ) == rp_spec(
                        ts,
                        p as int,
                        end as int,
                        cm0,
                        a0.push(PartModel::Literal(s@)),
                        parts_view(alts@),
                    ));
                }
            },
            Token::Alternative => {
                let ghost a0 = parts_view(acc@);
                let ghost l0 = parts_view(alts@);
                acc = push_alt(acc, &mut alts);
                proof {
                    assert(parts_view(acc@) =~= Seq::<PartModel>::empty());
                    assert(rp_spec(ts, pos_here as int, end as int, cm0, a0, l0) == rp_spec(
                        ts,
                        p as int,
                        end as int,
                        cm0,
                        Seq::<PartModel>::empty(),
                        close_alt(a0, l0),
                    ));
                }
            },
            token => {
                let matches_closing = match &closing {
                    Option::Some(c) => tok_eq(token, c),
                    Option::None => false,
                };
                if matches_closing {
                    proof {
                        assert(rp_spec(
                            ts,
                            pos_here as int,
                            end as int,
                            cm0,
                            parts_view(acc@),
                            parts_view(alts@),
                        ) == Option::Some(
                            (
                                assemble(close_alt(parts_view(acc@), parts_view(alts@))),
                                pos_here + 1,
                            ),
                        ));
                    }
                    closed = true;
                } else {
                    proof {
                        assert(rp_spec(
                            ts,
                            pos_here as int,
                            end as int,
                            cm0,
                            parts_view(acc@),
                            parts_view(alts@),
                        ) is None);
                    }
                    let mut expected: Vec<Token> = Vec::new();
                    match &closing {
                        Option::Some(c) => {
                            expected.push(c.clone());
                        },
                        Option::None => {},
                    }
                    return Result::Err(ParseError {
                        expected,
                        got: Option::Some(token.clone()),
                        location: Option::Some(first_loc),
                    });
                }
            },
        }
    }
    if !closed {
        match &closing {
            Option::Some(c) => {
                proof {
                    assert(p == end);
                    assert(rp_spec(
                        ts,
                        p as int,
                        end as int,
                        cm0,
                        parts_view(acc@),
                        parts_view(alts@),
                    ) is None);
                }
                let mut expected: Vec<Token> = Vec::new();
                expected.push(c.clone());
                return Result::Err(ParseError {
                    expected,
                    got: Option::None,
                    location: Option::None,
                });
            },
            Option::None => {},
        }
    }
    proof {
        if !closed {
            assert(p == end);
            assert(cm0 is None);
            assert(rp_spec(
                ts,
                p as int,
                end as int,
                cm0,
                parts_view(acc@),
                parts_view(alts@),
            ) == Option::Some(
                (assemble(close_alt(parts_view(acc@), parts_view(alts@))), p as int),
            ));
        }
    }
    let ghost accm = parts_view(acc@);
    let ghost altsm = parts_view(alts@);
    let mut alts = alts;
    let _ = push_alt(acc, &mut alts);
    proof {
        assert(parts_view(alts@) == close_alt(accm, altsm));
        lemma_parts_view_len(alts@);
    }
    let res = if alts.len() == 0 {
        proof {
            assert(false);
        }
        BnfPart::Empty
    } else if alts.len() == 1 {
        proof {
            lemma_parts_view_index(alts@, 0);
        }
        match alts.pop() {
            Option::Some(part) => part,
            Option::None => BnfPart::Empty,
        }
    } else {
        BnfPart::Choice(alts)
    };
    proof {
        assert(part_view(res) == assemble(close_alt(accm, altsm)));
    }
    Result::Ok((res, p))
}

/// What parsing one line yields: the rule's name and body, or nothing
/// on a syntax error. A line is `< name > = body`, body parsed by
/// [`rp_spec`] to the line's end.
pub open spec fn line_spec(ts: Seq<crate::lex::TokModel>, ls: int, le: int) -> Option<
    (Seq<char>, PartModel),
> {
    if ls + 4 <= le && ts[ls] is RuleOpen && ts[ls + 1] is Str && ts[ls + 2] is RuleClose && ts[ls
        + 3] is Assign {
        match rp_spec(
            ts,
            ls + 4,
            le,
            Option::None,
            Seq::<PartModel>::empty(),
            Seq::<PartModel>::empty(),
        ) {
            Option::Some((part, _)) => Option::Some((ts[ls + 1]->Str_0, part)),
            Option::None => Option::None,
        }
    } else {
        Option::None
    }
}

/// Parses a line of the token stream as one named rule definition,
/// exactly as [`line_spec`] lays down.
fn parse_line(tokens: &[(Location, Token)], ls: usize, le: usize) -> (r: Result<
    BnfRule,
    ParseError,
>)
    requires
        ls <= le <= tokens@.len(),
    ensures
        match r {
            Result::Ok(rule) => line_spec(toks_view(tokens@), ls as int, le as int)
                == Option::Some((rule.name@, part_view(rule.def))),
            Result::Err(_) => line_spec(toks_view(tokens@), ls as int, le as int) is None,
        },
{
    let ghost ts = toks_view(tokens@);
    proof {
        assert(forall|k: int|
            0 <= k < tokens@.len() ==> ts[k] == #[trigger] tokens@[k].1@);
    }
    let mut pos = ls;
    if !(pos < le) {
        let mut expected: Vec<Token> = Vec::new();
        expected.push(Token::RuleOpen);
        return Result::Err(ParseError { expected, got: Option::None, location: Option::None });
    }
    match &tokens[pos].1 {
        Token::RuleOpen => {
            pos = pos + 1;
        },
        t => {
            let mut expected: Vec<Token> = Vec::new();
            expected.push(Token::RuleOpen);
            return Result::Err(ParseError {
                expected,
                got: Option::Some(t.clone()),
                location: Option::Some(tokens[pos].0),
            });
        },
    }
    let name: String;
    if !(pos < le) {
        let mut expected: Vec<Token> = Vec::new();
        expected.push(Token::Str(String::new()));
        return Result::Err(ParseError { expected, got: Option::None, location: Option::None });
    }
    match &tokens[pos].1 {
        Token::Str(s) => {
            name = s.clone();
            pos = pos + 1;
        },
        t => {
            let mut expected: Vec<Token> = Vec::new();
            expected.push(Token::Str(String::new()));
            return Result::Err(ParseError {
                expected,
                got: Option::Some(t.clone()),
                location: Option::Some(tokens[pos].0),
            });
        },
    }
    if !(pos < le) {
        let mut expected: Vec<Token> = Vec::new();
        expected.push(Token::RuleClose);
        return Result::Err(ParseError { expected, got: Option::None, location: Option::None });
    }
    match &tokens[pos].1 {
        Token::RuleClose => {
            pos = pos + 1;
        },
        t => {
            let mut expected: Vec<Token> = Vec::new();
            expected.push(Token::RuleClose);
            return Result::Err(ParseError {
                expected,
                got: Option::Some(t.clone()),
                location: Option::Some(tokens[pos].0),
            });
        },
    }
    if !(pos < le) {
        let mut expected: Vec<Token> = Vec::new();
        expected.push(Token::Assign);
        return Result::Err(ParseError { expected, got: Option::None, location: Option::None });
    }
    match &tokens[pos].1 {
        Token::Assign => {
            pos = pos + 1;
        },
        t => {
            let mut expected: Vec<Token> = Vec::new();
            expected.push(Token::Assign);
            return Result::Err(ParseError {
                expected,
                got: Option::Some(t.clone()),
                location: Option::Some(tokens[pos].0),
            });
        },
    }
    match rparse(tokens, pos, le, Option::None) {
        Result::Ok((def, _)) => Result::Ok(BnfRule { name, def }),
        Result::Err(e) => Result::Err(e),
    }
}

/// The position of the newline that ends the line starting at `p`, or
/// the stream's end when no newline follows.
pub open spec fn line_end(ts: Seq<crate::lex::TokModel>, p: int) -> int
    decreases ts.len() - p,
{
    if p < 0 || p >= ts.len() {
        ts.len() as int
    } else if ts[p] is Newline {
        p
    } else {
        line_end(ts, p + 1)
    }
}

/// A window free of newlines and ended by one (or by the stream's end)
/// is exactly one line.
proof fn lemma_line_end_at(ts: Seq<crate::lex::TokModel>, p: int, q: int)
    requires
        0 <= p <= q <= ts.len(),
        forall|k: int| p <= k < q ==> !(#[trigger] ts[k] is Newline),
        q == ts.len() || ts[q] is Newline,
    ensures
        line_end(ts, p) == q,
    decreases q - p,
{
    if p < q {
        assert(!(ts[p] is Newline));
        lemma_line_end_at(ts, p + 1, q);
    }
}

/// The models of the rules a stream parses to, line by line, or
/// nothing when any non-empty line fails. Empty lines contribute no
/// rule.
pub open spec fn rules_spec(ts: Seq<crate::lex::TokModel>, pos: int) -> Option<
    Seq<(Seq<char>, PartModel)>,
>
    decreases ts.len() - pos,
{
    if pos < 0 || pos >= ts.len() {
        Option::Some(Seq::<(Seq<char>, PartModel)>::empty())
    } else {
        let le0 = line_end(ts, pos);
        let le = if le0 < pos {
            pos
        } else if le0 > ts.len() {
            ts.len() as int
        } else {
            le0
        };
        let next = if le < ts.len() {
            le + 1
        } else {
            ts.len() as int
        };
        let rest = rules_spec(ts, next);
        if le > pos {
            match line_spec(ts, pos, le) {
                Option::Some(r) => match rest {
                    Option::Some(rs) => Option::Some(seq![r] + rs),
                    Option::None => Option::None,
                },
                Option::None => Option::None,
            }
        } else {
            rest
        }
    }
}

/// The mathematical values of a list of named rules.
pub open spec fn rule_views(v: Seq<BnfRule>) -> Seq<(Seq<char>, PartModel)> {
    v.map_values(|r: BnfRule| (r.name@, part_view(r.def)))
}

/// Parses a token stream into named rules, one per non-empty line,
/// exactly as [`rules_spec`] lays down; every failed line contributes
/// one located error.
pub fn parse(tokens: &[(Location, Token)]) -> (r: Result<Vec<BnfRule>, Vec<ParseError>>)
    ensures
        r is Ok <==> rules_spec(toks_view(tokens@), 0) is Some,
        r is Ok ==> Option::Some(rule_views(r->Ok_0@)) == rules_spec(toks_view(tokens@), 0),
        r is Err ==> r->Err_0@.len() > 0,
{
    let ghost ts = toks_view(tokens@);
    let n = tokens.len();
    let mut rules: Vec<BnfRule> = Vec::new();
    let mut errors: Vec<ParseError> = Vec::new();
    let mut line_count: usize = 0;
    let mut pos: usize = 0;
    proof {
        assert(forall|k: int| 0 <= k < tokens@.len() ==> ts[k] == #[trigger] tokens@[k].1@);
        if rules_spec(ts, 0) is Some {
            assert(rule_views(rules@) + rules_spec(ts, 0)->Some_0 =~= rules_spec(ts, 0)->Some_0);
        }
    }
    while pos < n
        invariant
            pos <= n,
            n == tokens@.len(),
            ts == toks_view(tokens@),
            ts.len() == n,
            forall|k: int| 0 <= k < tokens@.len() ==> ts[k] == #[trigger] tokens@[k].1@,
            errors@.len() == 0 && rules_spec(ts, pos as int) is Some ==> rules_spec(ts, 0)
                == Option::Some(rule_views(rules@) + rules_spec(ts, pos as int)->Some_0),
            errors@.len() == 0 && rules_spec(ts, pos as int) is None ==> rules_spec(ts, 0)
                is None,
            errors@.len() > 0 ==> rules_spec(ts, 0) is None,
        decreases n - pos,
    {
        let ls = pos;
        let mut le = pos;
        let mut stop = false;
        while le < n && !stop
            invariant
                ls <= le <= n,
                n == tokens@.len(),
                ts == toks_view(tokens@),
                ts.len() == n,
                forall|k: int| 0 <= k < tokens@.len() ==> ts[k] == #[trigger] tokens@[k].1@,
                forall|k: int| ls <= k < le ==> !(#[trigger] ts[k] is Newline),
                stop ==> le < n && ts[le as int] is Newline,
            decreases n - le + (if stop { 0int } else { 1int }),
        {
            match &tokens[le].1 {
                Token::Newline => {
                    stop = true;
                },
                _ => {
                    le = le + 1;
                },
            }
        }
        proof {
            lemma_line_end_at(ts, ls as int, le as int);
            assert(line_end(ts, ls as int) == le as int);
        }
        let ghost next = if (le as int) < n { le + 1 } else { n as int };
        let ghost rest = rules_spec(ts, next);
        if le > ls {
            if line_count < usize::MAX {
                line_count = line_count + 1;
            }
            match parse_line(tokens, ls, le) {
                Result::Ok(rule) => {
                    let ghost rv0 = rule_views(rules@);
                    let ghost rm = (rule.name@, part_view(rule.def));
                    proof {
                        assert(line_spec(ts, ls as int, le as int) == Option::Some(rm));
                        if rest is Some {
                            assert(rules_spec(ts, ls as int) == Option::Some(
                                seq![rm] + rest->Some_0,
                            ));
                        } else {
                            assert(rules_spec(ts, ls as int) is None);
                        }
                    }
                    rules.push(rule);
                    proof {
                        assert(rule_views(rules@) =~= rv0.push(rm));
                        if errors@.len() == 0 && rest is Some {
                            assert(rv0 + (seq![rm] + rest->Some_0) =~= rule_views(rules@)
                                + rest->Some_0);
                        }
                    }
                },
                Result::Err(e) => {
                    proof {
                        assert(line_spec(ts, ls as int, le as int) is None);
                        assert(rules_spec(ts, ls as int) is None);
                    }
                    let patched = patch_location(tokens, e, line_count);
                    errors.push(patched);
                },
            }
        } else {
            proof {
                assert(rules_spec(ts, ls as int) == rest);
            }
        }
        pos = if le < n {
            le + 1
        } else {
            n
        };
    }
    proof {
        assert(rules_spec(ts, pos as int) == Option::Some(
            Seq::<(Seq<char>, PartModel)>::empty(),
        ));
        if errors@.len() == 0 {
            assert(rule_views(rules@) + Seq::<(Seq<char>, PartModel)>::empty() =~= rule_views(
                rules@,
            ));
        }
    }
    if errors.len() == 0 {
        Result::Ok(rules)
    } else {
        Result::Err(errors)
    }
}

/// Gives an unlocated error the location of the line's terminating
/// newline, counted from the top of the stream.
fn patch_location(tokens: &[(Location, Token)], e: ParseError, line_count: usize) -> (r:
    ParseError)
{
    let mut e = e;
    let has_loc = match &e.location {
        Option::Some(_) => true,
        Option::None => false,
    };
    if has_loc {
        return e;
    }
    let n = tokens.len();
    let mut seen: usize = 0;
    let mut i: usize = 0;
    while i < n
        invariant
            i <= n,
            n == tokens@.len(),
        decreases n - i,
    {
        match &tokens[i].1 {
            Token::Newline => {
                if line_count > 0 && seen == line_count - 1 {
                    e.location = Option::Some(tokens[i].0);
                    return e;
                }
                if seen < usize::MAX {
                    seen = seen + 1;
                }
            },
            _ => {},
        }
        i = i + 1;
    }
    e
}

} // verus!
