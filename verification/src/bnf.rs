//! The surface abstract syntax tree of rule definitions, and its
//! conversion into the generic grammar representation.

use vstd::prelude::*;
use vstd::string::StringExecFns;
use crate::grammar::{Grammar, Token, TokenModel, Definition, Rule, GrammarModel, wf_rules,
    rules_view, rule_view, def_view, chars_of};

verus! {

/// One named surface rule.
#[derive(PartialEq, Eq, Debug)]
pub struct BnfRule {
    pub name: String,
    pub def: BnfPart,
}

/// A surface rule body: the empty word, a literal, a choice among
/// parts, a concatenation of parts, a repetition of a part, or a
/// reference to a named rule.
#[derive(PartialEq, Eq, Debug)]
pub enum BnfPart {
    Empty,
    Literal(String),
    Choice(Vec<BnfPart>),
    Concat(Vec<BnfPart>),
    Repeat(Box<BnfPart>),
    Rule(String),
}

impl BnfPart {
    /// Constructs an optional part by adding the empty word as an
    /// alternative.
    #[allow(non_snake_case)]
    pub fn Opt(part: Self) -> (r: Self)
        ensures
            match r {
                BnfPart::Choice(v) => v@.len() == 2 && v@[0] == part && v@[1] == BnfPart::Empty,
                _ => false,
            },
    {
        let mut v: Vec<BnfPart> = Vec::new();
        v.push(part);
        v.push(BnfPart::Empty);
        BnfPart::Choice(v)
    }

    /// Surface simplification: the tree is already canonical, so there
    /// is nothing to rewrite.
    pub fn simplify(&mut self)
        ensures
            *final(self) == *old(self),
    {
    }
}

/// The conversion state: the rules built so far, and the rule index
/// bound to each name, in first-reference order.
pub ghost struct ConvState {
    pub rules: Seq<Seq<Seq<TokenModel>>>,
    pub names: Seq<(Seq<char>, int)>,
}

/// The result of converting one part: the grown state, and the rule
/// standing for the part.
pub ghost struct ConvOut {
    pub st: ConvState,
    pub nt: int,
}

/// The result of converting a list of parts: the grown state, and the
/// rules standing for the parts, in order.
pub ghost struct ConvSeqOut {
    pub st: ConvState,
    pub nts: Seq<int>,
}

/// The rule index bound to a name: the first binding wins.
pub open spec fn name_lookup(names: Seq<(Seq<char>, int)>, s: Seq<char>) -> Option<int>
    decreases names.len(),
{
    if names.len() == 0 {
        Option::None
    } else if names[0].0 == s {
        Option::Some(names[0].1)
    } else {
        name_lookup(names.drop_first(), s)
    }
}

/// What converting one surface part does: a reference is bound to a
/// fresh empty rule on first sight; a literal becomes a singleton
/// terminal rule; the empty word becomes a rule with one empty
/// alternative; a choice becomes a rule with one single-reference
/// alternative per converted part; a concatenation becomes a rule with
/// one alternative listing the converted parts in order; a repetition
/// becomes a fresh self-recursive rule with the alternatives empty,
/// self twice, and the converted part once.
pub open spec fn conv_part_spec(p: BnfPart, st: ConvState) -> ConvOut
    decreases p,
{
    match p {
        BnfPart::Rule(s) => match name_lookup(st.names, s@) {
            Option::Some(nt) => ConvOut { st, nt },
            Option::None => ConvOut {
                st: ConvState {
                    rules: st.rules.push(Seq::<Seq<TokenModel>>::empty()),
                    names: st.names.push((s@, st.rules.len() as int)),
                },
                nt: st.rules.len() as int,
            },
        },
        BnfPart::Literal(l) => ConvOut {
            st: ConvState {
                rules: st.rules.push(seq![seq![TokenModel::T(l@)]]),
                names: st.names,
            },
            nt: st.rules.len() as int,
        },
        BnfPart::Empty => ConvOut {
            st: ConvState {
                rules: st.rules.push(seq![Seq::<TokenModel>::empty()]),
                names: st.names,
            },
            nt: st.rules.len() as int,
        },
        BnfPart::Choice(parts) => {
            let inner = conv_parts_spec(parts@, st);
            ConvOut {
                st: ConvState {
                    rules: inner.st.rules.push(
                        inner.nts.map_values(|n: int| seq![TokenModel::NT(n)]),
                    ),
                    names: inner.st.names,
                },
                nt: inner.st.rules.len() as int,
            }
        },
        BnfPart::Concat(parts) => {
            let inner = conv_parts_spec(parts@, st);
            ConvOut {
                st: ConvState {
                    rules: inner.st.rules.push(
                        seq![inner.nts.map_values(|n: int| TokenModel::NT(n))],
                    ),
                    names: inner.st.names,
                },
                nt: inner.st.rules.len() as int,
            }
        },
        BnfPart::Repeat(b) => {
            let inner = conv_part_spec(*b, st);
            let nt = inner.st.rules.len() as int;
            ConvOut {
                st: ConvState {
                    rules: inner.st.rules.push(
                        seq![
                            Seq::<TokenModel>::empty(),
                            seq![TokenModel::NT(nt), TokenModel::NT(nt)],
                            seq![TokenModel::NT(inner.nt)],
                        ],
                    ),
                    names: inner.st.names,
                },
                nt,
            }
        },
    }
}

/// What converting a list of parts does, front first.
pub open spec fn conv_parts_spec(parts: Seq<BnfPart>, st: ConvState) -> ConvSeqOut
    decreases parts,
{
    if parts.len() == 0 {
        ConvSeqOut { st, nts: Seq::<int>::empty() }
    } else {
        let head = conv_part_spec(parts[0], st);
        let tail = conv_parts_spec(parts.drop_first(), head.st);
        ConvSeqOut { st: tail.st, nts: seq![head.nt] + tail.nts }
    }
}

/// What converting the whole rule list does: each definition is
/// converted, then appended to the rule already bound to its name as a
/// single-reference alternative, or bound to the name if the name is
/// new.
pub open spec fn conv_rules_spec(rs: Seq<BnfRule>, st: ConvState) -> ConvState
    decreases rs.len(),
{
    if rs.len() == 0 {
        st
    } else {
        let head = conv_part_spec(rs[0].def, st);
        let st2 = match name_lookup(head.st.names, rs[0].name@) {
            Option::Some(def) => ConvState {
                rules: head.st.rules.update(
                    def,
                    head.st.rules[def].push(seq![TokenModel::NT(head.nt)]),
                ),
                names: head.st.names,
            },
            Option::None => ConvState {
                rules: head.st.rules,
                names: head.st.names.push((rs[0].name@, head.nt)),
            },
        };
        conv_rules_spec(rs.drop_first(), st2)
    }
}

/// The grammar a rule list stands for: the converted rules, started at
/// the rule bound to the root name, or at a fresh empty rule when the
/// root name is unbound.
pub open spec fn grammar_of_rules(rs: Seq<BnfRule>, root: Seq<char>) -> GrammarModel {
    let st = conv_rules_spec(rs, ConvState { rules: Seq::empty(), names: Seq::empty() });
    match name_lookup(st.names, root) {
        Option::Some(nt) => GrammarModel { start: nt, rules: st.rules },
        Option::None => GrammarModel {
            start: st.rules.len() as int,
            rules: st.rules.push(Seq::<Seq<TokenModel>>::empty()),
        },
    }
}

/// Every rule index recorded for a name is a valid rule of the grammar.
pub open spec fn lookup_ok(l: Seq<(String, usize)>, n: int) -> bool {
    forall|i: int| 0 <= i < l.len() ==> ((#[trigger] l[i]).1 as int) < n
}

/// The name bindings a lookup table stands for.
pub open spec fn names_view(l: Seq<(String, usize)>) -> Seq<(Seq<char>, int)> {
    l.map_values(|p: (String, usize)| (p.0@, p.1 as int))
}

/// A binding found by name carries an index some entry holds.
pub proof fn lemma_name_lookup_bound(names: Seq<(Seq<char>, int)>, s: Seq<char>)
    requires
        name_lookup(names, s) is Some,
    ensures
        exists|i: int| 0 <= i < names.len() && (#[trigger] names[i]).1 == name_lookup(names, s)->0,
    decreases names.len(),
{
    if names.len() > 0 && names[0].0 != s {
        lemma_name_lookup_bound(names.drop_first(), s);
        let i = choose|i: int|
            0 <= i < names.drop_first().len() && (#[trigger] names.drop_first()[i]).1
                == name_lookup(names, s)->0;
        assert(names[i + 1] == names.drop_first()[i]);
    }
}

/// The rule index recorded for a name, if any: the earliest entry wins.
fn find_name(lookup: &Vec<(String, usize)>, name: &String) -> (r: Option<usize>)
    ensures
        match r {
            Option::Some(nt) => name_lookup(names_view(lookup@), name@) == Option::Some(nt as int),
            Option::None => name_lookup(names_view(lookup@), name@) is None,
        },
{
    let ghost nv = names_view(lookup@);
    proof {
        assert(nv.skip(0) =~= nv);
    }
    let mut i: usize = 0;
    while i < lookup.len()
        invariant
            i <= lookup.len(),
            nv == names_view(lookup@),
            nv.len() == lookup@.len(),
            name_lookup(nv, name@) == name_lookup(nv.skip(i as int), name@),
        decreases lookup.len() - i,
    {
        proof {
            assert(nv.skip(i as int)[0] == nv[i as int]);
            assert(nv[i as int] == (lookup@[i as int].0@, lookup@[i as int].1 as int));
            assert(nv.skip(i as int).drop_first() =~= nv.skip(i + 1));
        }
        if lookup[i].0 == *name {
            let nt = lookup[i].1;
            return Option::Some(nt);
        }
        i += 1;
    }
    proof {
        assert(nv.skip(lookup@.len() as int).len() == 0);
    }
    Option::None
}

/// Converts one surface part into grammar rules, returning the rule
/// that stands for it, exactly as [`conv_part_spec`] lays down.
fn convert(part: &BnfPart, lookup: &mut Vec<(String, usize)>, g: &mut Grammar) -> (nt: usize)
    requires
        wf_rules(old(g)@.rules),
        lookup_ok(old(lookup)@, old(g)@.rules.len() as int),
    ensures
        wf_rules(final(g)@.rules),
        final(g)@.rules.len() >= old(g)@.rules.len(),
        final(g)@.start == old(g)@.start,
        (nt as int) < final(g)@.rules.len(),
        lookup_ok(final(lookup)@, final(g)@.rules.len() as int),
        ({
            let o = conv_part_spec(
                *part,
                ConvState { rules: old(g)@.rules, names: names_view(old(lookup)@) },
            );
            &&& final(g)@.rules == o.st.rules
            &&& names_view(final(lookup)@) == o.st.names
            &&& nt as int == o.nt
        }),
    decreases part,
{
    let ghost st0 = ConvState { rules: g@.rules, names: names_view(lookup@) };
    match part {
        BnfPart::Rule(s) => {
            let found = find_name(lookup, s);
            match found {
                Option::Some(nt) => {
                    proof {
                        lemma_name_lookup_bound(names_view(lookup@), s@);
                        let j = choose|j: int|
                            0 <= j < names_view(lookup@).len() && (#[trigger] names_view(
                                lookup@,
                            )[j]).1 == nt as int;
                        assert(names_view(lookup@)[j] == (lookup@[j].0@, lookup@[j].1 as int));
                    }
                    nt
                },
                Option::None => {
                    let empty_rule: Rule = Vec::new();
                    proof {
                        assert(rule_view(empty_rule) =~= Seq::<Seq<TokenModel>>::empty());
                    }
                    let nt = g.add_rule(empty_rule);
                    lookup.push((s.clone(), nt));
                    proof {
                        assert(names_view(lookup@) =~= st0.names.push((s@, st0.rules.len() as int)));
                    }
                    nt
                },
            }
        },
        BnfPart::Choice(parts) => {
            let ghost full = conv_parts_spec(parts@, st0);
            let mut defs: Rule = Vec::new();
            let ghost nts: Seq<int> = Seq::empty();
            proof {
                assert(parts@.skip(0) =~= parts@);
            }
            let mut i: usize = 0;
            while i < parts.len()
                invariant
                    i <= parts.len(),
                    *part == BnfPart::Choice(*parts),
                    full == conv_parts_spec(parts@, st0),
                    wf_rules(g@.rules),
                    g@.rules.len() >= old(g)@.rules.len(),
                    g@.start == old(g)@.start,
                    lookup_ok(lookup@, g@.rules.len() as int),
                    nts.len() == i as int,
                    full.st == conv_parts_spec(
                        parts@.skip(i as int),
                        ConvState { rules: g@.rules, names: names_view(lookup@) },
                    ).st,
                    full.nts == nts + conv_parts_spec(
                        parts@.skip(i as int),
                        ConvState { rules: g@.rules, names: names_view(lookup@) },
                    ).nts,
                    rule_view(defs) == nts.map_values(|n: int| seq![TokenModel::NT(n)]),
                    forall|k: int| 0 <= k < nts.len() ==> 0 <= #[trigger] nts[k] < g@.rules.len(),
                decreases parts.len() - i,
            {
                proof {
                    assert(decreases_to!(*part => (*part)->Choice_0));
                    assert(decreases_to!((*part)->Choice_0 => (*part)->Choice_0@));
                    assert(decreases_to!((*part)->Choice_0@ => (*part)->Choice_0@[i as int]));
                    assert(parts@[i as int] == (*part)->Choice_0@[i as int]);
                    assert(parts@.skip(i as int)[0] == parts@[i as int]);
                    assert(parts@.skip(i as int).drop_first() =~= parts@.skip(i + 1));
                }
                let ghost cur = ConvState { rules: g@.rules, names: names_view(lookup@) };
                let sub = convert(&parts[i], lookup, g);
                let mut def: Definition = Vec::new();
                def.push(Token::NT(sub));
                proof {
                    assert(def_view(def) =~= seq![TokenModel::NT(sub as int)]);
                }
                let ghost d0 = rule_view(defs);
                defs.push(def);
                proof {
                    assert(rule_view(defs) =~= d0.push(seq![TokenModel::NT(sub as int)]));
                    let h = conv_part_spec(parts@[i as int], cur);
                    assert(h.st == ConvState { rules: g@.rules, names: names_view(lookup@) });
                    assert(h.nt == sub as int);
                    assert(nts.push(sub as int).map_values(|n: int| seq![TokenModel::NT(n)])
                        =~= d0.push(seq![TokenModel::NT(sub as int)]));
                    assert(nts + seq![h.nt] + conv_parts_spec(parts@.skip(i + 1), h.st).nts
                        =~= nts.push(sub as int) + conv_parts_spec(parts@.skip(i + 1), h.st).nts);
                    nts = nts.push(sub as int);
                }
                i += 1;
            }
            proof {
                assert(parts@.skip(parts@.len() as int).len() == 0);
                assert(full.nts =~= nts);
            }
            let nt = g.add_rule(defs);
            proof {
                assert(full.nts.map_values(|n: int| seq![TokenModel::NT(n)]) == rule_view(defs));
            }
            nt
        },
        BnfPart::Concat(parts) => {
            let ghost full = conv_parts_spec(parts@, st0);
            let mut def: Definition = Vec::new();
            let ghost nts: Seq<int> = Seq::empty();
            proof {
                assert(parts@.skip(0) =~= parts@);
            }
            let mut i: usize = 0;
            while i < parts.len()
                invariant
                    i <= parts.len(),
                    *part == BnfPart::Concat(*parts),
                    full == conv_parts_spec(parts@, st0),
                    wf_rules(g@.rules),
                    g@.rules.len() >= old(g)@.rules.len(),
                    g@.start == old(g)@.start,
                    lookup_ok(lookup@, g@.rules.len() as int),
                    nts.len() == i as int,
                    full.st == conv_parts_spec(
                        parts@.skip(i as int),
                        ConvState { rules: g@.rules, names: names_view(lookup@) },
                    ).st,
                    full.nts == nts + conv_parts_spec(
                        parts@.skip(i as int),
                        ConvState { rules: g@.rules, names: names_view(lookup@) },
                    ).nts,
                    def_view(def) == nts.map_values(|n: int| TokenModel::NT(n)),
                    forall|k: int| 0 <= k < nts.len() ==> 0 <= #[trigger] nts[k] < g@.rules.len(),
                decreases parts.len() - i,
            {
                proof {
                    assert(decreases_to!(*part => (*part)->Concat_0));
                    assert(decreases_to!((*part)->Concat_0 => (*part)->Concat_0@));
                    assert(decreases_to!((*part)->Concat_0@ => (*part)->Concat_0@[i as int]));
                    assert(parts@[i as int] == (*part)->Concat_0@[i as int]);
                    assert(parts@.skip(i as int)[0] == parts@[i as int]);
                    assert(parts@.skip(i as int).drop_first() =~= parts@.skip(i + 1));
                }
                let ghost cur = ConvState { rules: g@.rules, names: names_view(lookup@) };
                let sub = convert(&parts[i], lookup, g);
                let ghost d0 = def_view(def);
                def.push(Token::NT(sub));
                proof {
                    assert(def_view(def) =~= d0.push(TokenModel::NT(sub as int)));
                    let h = conv_part_spec(parts@[i as int], cur);
                    assert(h.st == ConvState { rules: g@.rules, names: names_view(lookup@) });
                    assert(h.nt == sub as int);
                    assert(nts.push(sub as int).map_values(|n: int| TokenModel::NT(n)) =~= d0.push(
                        TokenModel::NT(sub as int),
                    ));
                    assert(nts + seq![h.nt] + conv_parts_spec(parts@.skip(i + 1), h.st).nts
                        =~= nts.push(sub as int) + conv_parts_spec(parts@.skip(i + 1), h.st).nts);
                    nts = nts.push(sub as int);
                }
                i += 1;
            }
            proof {
                assert(parts@.skip(parts@.len() as int).len() == 0);
                assert(full.nts =~= nts);
            }
            let mut rule: Rule = Vec::new();
            rule.push(def);
            let nt = g.add_rule(rule);
            proof {
                assert(rule_view(rule) =~= seq![
                    full.nts.map_values(|n: int| TokenModel::NT(n)),
                ]);
            }
            nt
        },
        BnfPart::Repeat(inner) => {
            let sub = convert(inner, lookup, g);
            let empty_rule: Rule = Vec::new();
            proof {
                assert(rule_view(empty_rule) =~= Seq::<Seq<TokenModel>>::empty());
            }
            let nt = g.add_rule(empty_rule);
            let empty_def: Definition = Vec::new();
            proof {
                assert(def_view(empty_def) =~= Seq::<TokenModel>::empty());
            }
            let mut selfpair: Definition = Vec::new();
            selfpair.push(Token::NT(nt));
            selfpair.push(Token::NT(nt));
            proof {
                assert(def_view(selfpair) =~= seq![
                    TokenModel::NT(nt as int),
                    TokenModel::NT(nt as int),
                ]);
            }
            let mut just: Definition = Vec::new();
            just.push(Token::NT(sub));
            proof {
                assert(def_view(just) =~= seq![TokenModel::NT(sub as int)]);
            }
            let mut new_rule: Rule = Vec::new();
            new_rule.push(empty_def);
            new_rule.push(selfpair);
            new_rule.push(just);
            proof {
                assert(rule_view(new_rule) =~= seq![
                    Seq::<TokenModel>::empty(),
                    seq![TokenModel::NT(nt as int), TokenModel::NT(nt as int)],
                    seq![TokenModel::NT(sub as int)],
                ]);
            }
            let ghost pre = g.rules@;
            g.rules.set(nt, new_rule);
            proof {
                assert(rules_view(g.rules@) =~= rules_view(pre).update(
                    nt as int,
                    rule_view(new_rule),
                ));
                let o1 = conv_part_spec(**inner, st0);
                assert(rules_view(g.rules@) =~= o1.st.rules.push(rule_view(new_rule)));
            }
            nt
        },
        BnfPart::Literal(lit) => {
            let cs = chars_of(lit.as_str());
            let mut def: Definition = Vec::new();
            def.push(Token::T(cs));
            proof {
                assert(def_view(def) =~= seq![TokenModel::T(lit@)]);
            }
            let mut rule: Rule = Vec::new();
            rule.push(def);
            proof {
                assert(rule_view(rule) =~= seq![seq![TokenModel::T(lit@)]]);
            }
            g.add_rule(rule)
        },
        BnfPart::Empty => {
            let empty_def: Definition = Vec::new();
            proof {
                assert(def_view(empty_def) =~= Seq::<TokenModel>::empty());
            }
            let mut rule: Rule = Vec::new();
            rule.push(empty_def);
            proof {
                assert(rule_view(rule) =~= seq![Seq::<TokenModel>::empty()]);
            }
            g.add_rule(rule)
        },
    }
}

/// Builds a grammar from a list of named surface rules, exactly as
/// [`grammar_of_rules`] lays down: one rule per distinct name in
/// first-reference order, each choice, concatenation, repetition,
/// literal and empty part encoded as its own rule, and the start bound
/// to the root name.
pub fn to_grammar(rules: &[BnfRule], root: &str) -> (g: Grammar)
    ensures
        g@.wf(),
        g@ == grammar_of_rules(rules@, root@),
{
    let ghost st0 = ConvState { rules: Seq::empty(), names: Seq::empty() };
    let ghost full = conv_rules_spec(rules@, st0);
    let mut grammar = Grammar::new();
    let mut lookup: Vec<(String, usize)> = Vec::new();
    proof {
        assert(rules@.skip(0) =~= rules@);
        assert(grammar@.rules =~= Seq::<Seq<Seq<TokenModel>>>::empty());
        assert(names_view(lookup@) =~= Seq::<(Seq<char>, int)>::empty());
    }
    let n = rules.len();
    let mut i: usize = 0;
    while i < n
        invariant
            i <= n,
            n == rules@.len(),
            full == conv_rules_spec(rules@, st0),
            wf_rules(grammar@.rules),
            grammar@.start == 0,
            lookup_ok(lookup@, grammar@.rules.len() as int),
            full == conv_rules_spec(
                rules@.skip(i as int),
                ConvState { rules: grammar@.rules, names: names_view(lookup@) },
            ),
        decreases n - i,
    {
        proof {
            assert(rules@.skip(i as int)[0] == rules@[i as int]);
            assert(rules@.skip(i as int).drop_first() =~= rules@.skip(i + 1));
        }
        let ghost cur = ConvState { rules: grammar@.rules, names: names_view(lookup@) };
        let rule = &rules[i];
        let nt = convert(&rule.def, &mut lookup, &mut grammar);
        let ghost h = conv_part_spec(rules@[i as int].def, cur);
        let found = find_name(&lookup, &rule.name);
        match found {
            Option::Some(def) => {
                proof {
                    lemma_name_lookup_bound(names_view(lookup@), rule.name@);
                    let j = choose|j: int|
                        0 <= j < names_view(lookup@).len() && (#[trigger] names_view(
                            lookup@,
                        )[j]).1 == def as int;
                    assert(names_view(lookup@)[j] == (lookup@[j].0@, lookup@[j].1 as int));
                }
                let mut unit: Definition = Vec::new();
                unit.push(Token::NT(nt));
                proof {
                    assert(def_view(unit) =~= seq![TokenModel::NT(nt as int)]);
                    assert(rule_view(grammar.rules@[def as int])
                        == rules_view(grammar.rules@)[def as int]);
                }
                let ghost pre = grammar.rules@;
                let ghost u0 = rule_view(grammar.rules@[def as int]);
                grammar.rules[def].push(unit);
                proof {
                    assert(rule_view(grammar.rules@[def as int]) =~= u0.push(
                        seq![TokenModel::NT(nt as int)],
                    ));
                    assert(rules_view(grammar.rules@) =~= rules_view(pre).update(
                        def as int,
                        u0.push(seq![TokenModel::NT(nt as int)]),
                    ));
                }
            },
            Option::None => {
                lookup.push((rule.name.clone(), nt));
                proof {
                    assert(names_view(lookup@) =~= h.st.names.push((
                        rules@[i as int].name@,
                        nt as int,
                    )));
                }
            },
        }
        i += 1;
    }
    proof {
        assert(rules@.skip(rules@.len() as int).len() == 0);
        assert(full.rules == grammar@.rules);
        assert(full.names == names_view(lookup@));
    }
    let root_string = String::from_str(root);
    let found = find_name(&lookup, &root_string);
    match found {
        Option::Some(root_nt) => {
            grammar.start = root_nt;
            proof {
                lemma_name_lookup_bound(names_view(lookup@), root@);
                let j = choose|j: int|
                    0 <= j < names_view(lookup@).len() && (#[trigger] names_view(lookup@)[j]).1
                        == root_nt as int;
                assert(names_view(lookup@)[j] == (lookup@[j].0@, lookup@[j].1 as int));
            }
        },
        Option::None => {
            let empty_rule: Rule = Vec::new();
            proof {
                assert(rule_view(empty_rule) =~= Seq::<Seq<TokenModel>>::empty());
            }
            let nt = grammar.add_rule(empty_rule);
            grammar.start = nt;
        },
    }
    grammar
}

} // verus!
