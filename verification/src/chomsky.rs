//! The Chomsky-Normal-Form grammar: a validated conversion from the
//! generic representation, and the CYK membership test.

use vstd::prelude::*;
use crate::grammar;
use crate::grammar::{TokenModel, Token, terminals_nonempty, cnf_shaped};

pub use crate::grammar::NonTerminal;
pub use crate::grammar::Terminal;

verus! {

/// One alternative of a normal-form rule: a terminal, or a pair of rule
/// references.
#[derive(Debug, PartialEq, Eq)]
pub enum Definition {
    Term(Terminal),
    Product(NonTerminal, NonTerminal),
}

/// All alternatives of one normal-form rule.
pub type Rule = Vec<Definition>;

/// The mathematical value of a normal-form alternative.
pub ghost enum DefModel {
    Term(Seq<char>),
    Product(int, int),
}

impl View for Definition {
    type V = DefModel;

    open spec fn view(&self) -> DefModel {
        match self {
            Definition::Term(t) => DefModel::Term(t@),
            Definition::Product(a, b) => DefModel::Product(*a as int, *b as int),
        }
    }
}

/// The mathematical value of a normal-form rule.
pub open spec fn cdef_view(r: Rule) -> Seq<DefModel> {
    r@.map_values(|d: Definition| d@)
}

/// The mathematical value of a normal-form rule table.
pub open spec fn crules_view(rs: Seq<Rule>) -> Seq<Seq<DefModel>> {
    rs.map_values(|r: Rule| cdef_view(r))
}

/// The mathematical value of a normal-form grammar.
pub ghost struct CnfModel {
    pub start: int,
    pub null: bool,
    pub rules: Seq<Seq<DefModel>>,
}

impl CnfModel {
    /// The start and every product reference are valid indices, and no
    /// terminal alternative is empty.
    pub open spec fn wf(self) -> bool {
        &&& 0 <= self.start < self.rules.len()
        &&& forall|r: int, d: int|
            0 <= r < self.rules.len() && 0 <= d < self.rules[r].len() ==> match (
            #[trigger] self.rules[r][d]) {
                DefModel::Term(t) => t.len() > 0,
                DefModel::Product(a, b) => 0 <= a < self.rules.len() && 0 <= b < self.rules.len(),
            }
    }
}

/// A grammar in Chomsky Normal Form: whether the empty word belongs to
/// the language is carried in the `null` flag, never as a stored rule.
#[derive(Debug, PartialEq, Eq)]
pub struct Grammar {
    pub start: NonTerminal,
    pub null: bool,
    pub rules: Vec<Rule>,
}

impl View for Grammar {
    type V = CnfModel;

    open spec fn view(&self) -> CnfModel {
        CnfModel { start: self.start as int, null: self.null, rules: crules_view(self.rules@) }
    }
}

/// The normal-form violations the conversion can report.
#[derive(Debug, Clone, Copy, PartialEq, Eq, Structural)]
pub enum NormalFormError {
    /// An empty alternative stood at a rule other than the start rule.
    OnlyStartMayBeNullable,
    /// An alternative was a single rule reference.
    UnitProductionNotAllowed,
    /// An alternative mixed terminals into a pair, or was too long.
    InvalidArity,
}

/// What, if anything, is wrong with one alternative of rule `r`.
pub open spec fn def_error(start: int, r: int, d: Seq<TokenModel>) -> Option<NormalFormError> {
    if d.len() == 0 {
        if r == start {
            Option::None
        } else {
            Option::Some(NormalFormError::OnlyStartMayBeNullable)
        }
    } else if d.len() == 1 {
        if d[0] is NT {
            Option::Some(NormalFormError::UnitProductionNotAllowed)
        } else {
            Option::None
        }
    } else if d.len() == 2 {
        if d[0] is NT && d[1] is NT {
            Option::None
        } else {
            Option::Some(NormalFormError::InvalidArity)
        }
    } else {
        Option::Some(NormalFormError::InvalidArity)
    }
}

/// The normal-form alternative a generic definition stands for: nothing
/// for the empty alternative, a terminal, or a product.
pub open spec fn conv_def(d: Seq<TokenModel>) -> Option<DefModel> {
    if d.len() == 0 {
        Option::None
    } else if d.len() == 1 {
        Option::Some(DefModel::Term(d[0]->T_0))
    } else {
        Option::Some(DefModel::Product(d[0]->NT_0, d[1]->NT_0))
    }
}

/// The normal-form rule a generic rule stands for.
pub open spec fn conv_rule(r: Seq<Seq<TokenModel>>) -> Seq<DefModel>
    decreases r.len(),
{
    if r.len() == 0 {
        Seq::<DefModel>::empty()
    } else {
        conv_rule(r.drop_last()) + match conv_def(r.last()) {
            Option::Some(x) => seq![x],
            Option::None => Seq::<DefModel>::empty(),
        }
    }
}

/// Every alternative of the converted rule stems from some alternative
/// of the generic rule.
pub proof fn lemma_conv_rule_elem(r: Seq<Seq<TokenModel>>, j: int)
    requires
        0 <= j < conv_rule(r).len(),
    ensures
        exists|d: int| 0 <= d < r.len() && conv_def(#[trigger] r[d]) == Option::Some(conv_rule(r)[j]),
    decreases r.len(),
{
    if r.len() > 0 {
        let prefix = conv_rule(r.drop_last());
        if j < prefix.len() {
            lemma_conv_rule_elem(r.drop_last(), j);
            let d = choose|d: int|
                0 <= d < r.drop_last().len() && conv_def(#[trigger] r.drop_last()[d])
                    == Option::Some(prefix[j]);
            assert(r[d] == r.drop_last()[d]);
            assert(conv_def(r[d]) == Option::Some(conv_rule(r)[j]));
        } else {
            assert(conv_def(r[r.len() - 1]) == Option::Some(conv_rule(r)[j]));
        }
    }
}

impl Grammar {
    /// Checks that a generic grammar is in Chomsky Normal Form and builds
    /// the typed normal-form grammar from it: empty alternatives of the
    /// start rule become the `null` flag, single terminals become `Term`,
    /// and pairs of references become `Product`. Any other alternative is
    /// rejected with the violated invariant.
    pub fn from_normalized(gr: &grammar::Grammar) -> (res: Result<Grammar, NormalFormError>)
        ensures
            res is Ok <==> cnf_shaped(gr@.rules, gr@.start),
            res is Ok ==> ({
                let c = res->Ok_0@;
                &&& c.start == gr@.start
                &&& c.rules.len() == gr@.rules.len()
                &&& (forall|r: int|
                    0 <= r < c.rules.len() ==> c.rules[r] == conv_rule(#[trigger] gr@.rules[r]))
                &&& c.null == (0 <= gr@.start < gr@.rules.len() && exists|d: int|
                    0 <= d < gr@.rules[gr@.start].len() && (#[trigger] gr@.rules[gr@.start][d]).len()
                        == 0)
                &&& (gr@.wf() && terminals_nonempty(gr@.rules) ==> c.wf())
            }),
            res is Err ==> exists|r: int, d: int|
                0 <= r < gr@.rules.len() && 0 <= d < gr@.rules[r].len() && def_error(
                    gr@.start,
                    r,
                    #[trigger] gr@.rules[r][d],
                ) == Option::Some(res->Err_0),
    {
        let ghost gv = gr@;
        let start = gr.start;
        let n = gr.rules.len();
        let mut null = false;
        let mut rules: Vec<Rule> = Vec::new();
        let mut r: usize = 0;
        while r < n
            invariant
                r <= n,
                gv == gr@,
                n as int == gv.rules.len(),
                start as int == gv.start,
                rules@.len() == r as int,
                forall|k: int, d: int|
                    0 <= k < r && 0 <= d < gv.rules[k].len() ==> def_error(
                        gv.start,
                        k,
                        #[trigger] gv.rules[k][d],
                    ) is None,
                forall|k: int|
                    0 <= k < r ==> cdef_view(#[trigger] rules@[k]) == conv_rule(gv.rules[k]),
                null == ((gv.start < r as int) && exists|d: int|
                    0 <= d < gv.rules[gv.start].len() && (#[trigger] gv.rules[gv.start][d]).len()
                        == 0),
            decreases n - r,
        {
            let rule = &gr.rules[r];
            let ghost rv = grammar::rule_view(*rule);
            proof {
                assert(rv == gv.rules[r as int]);
            }
            let mut new_rule: Rule = Vec::new();
            let mut d: usize = 0;
            while d < rule.len()
                invariant
                    d <= rule.len(),
                    gv == gr@,
                    n as int == gv.rules.len(),
                    start as int == gv.start,
                    r < n,
                    rule == &gr.rules@[r as int],
                    rv == grammar::rule_view(*rule),
                    rv == gv.rules[r as int],
                    rv.len() == rule@.len(),
                    forall|d2: int|
                        0 <= d2 < d ==> def_error(gv.start, r as int, #[trigger] rv[d2]) is None,
                    cdef_view(new_rule) == conv_rule(rv.take(d as int)),
                    null == ((gv.start < r as int || (gv.start == r as int && exists|d2: int|
                        0 <= d2 < d && (#[trigger] rv[d2]).len() == 0)) && exists|d2: int|
                        0 <= d2 < gv.rules[gv.start].len() && (#[trigger] gv.rules[gv.start][d2]).len()
                            == 0),
                decreases rule.len() - d,
            {
                proof {
                    assert(rv.take(d + 1).drop_last() =~= rv.take(d as int));
                    assert(rv.take(d + 1).last() == rv[d as int]);
                    assert(rv[d as int] == grammar::def_view(rule@[d as int]));
                }
                let def = &rule[d];
                let dl = def.len();
                if dl == 0 {
                    if r == start {
                        null = true;
                    } else {
                        proof {
                            assert(def_error(gv.start, r as int, rv[d as int]) == Option::Some(
                                NormalFormError::OnlyStartMayBeNullable,
                            ));
                        }
                        return Result::Err(NormalFormError::OnlyStartMayBeNullable);
                    }
                } else if dl == 1 {
                    match &def[0] {
                        Token::NT(_) => {
                            proof {
                                assert(rv[d as int][0] is NT);
                            }
                            return Result::Err(NormalFormError::UnitProductionNotAllowed);
                        },
                        Token::T(t) => {
                            proof {
                                assert(rv[d as int][0] == TokenModel::T(t@));
                            }
                            let ghost nr0 = cdef_view(new_rule);
                            new_rule.push(Definition::Term(t.clone()));
                            proof {
                                assert(cdef_view(new_rule) =~= nr0.push(DefModel::Term(t@)));
                                assert(cdef_view(new_rule) =~= conv_rule(rv.take(d + 1)));
                            }
                        },
                    }
                } else if dl == 2 {
                    let ok = def[0].is_terminal() || def[1].is_terminal();
                    if ok {
                        proof {
                            assert(rv[d as int][0] is T || rv[d as int][1] is T);
                        }
                        return Result::Err(NormalFormError::InvalidArity);
                    }
                    let a = match &def[0] {
                        Token::NT(a) => *a,
                        Token::T(_) => 0,
                    };
                    let b = match &def[1] {
                        Token::NT(b) => *b,
                        Token::T(_) => 0,
                    };
                    proof {
                        assert(rv[d as int][0] == TokenModel::NT(a as int));
                        assert(rv[d as int][1] == TokenModel::NT(b as int));
                    }
                    let ghost nr0 = cdef_view(new_rule);
                    new_rule.push(Definition::Product(a, b));
                    proof {
                        assert(cdef_view(new_rule) =~= nr0.push(DefModel::Product(
                            a as int,
                            b as int,
                        )));
                        assert(cdef_view(new_rule) =~= conv_rule(rv.take(d + 1)));
                    }
                } else {
                    proof {
                        assert(rv[d as int].len() > 2);
                    }
                    return Result::Err(NormalFormError::InvalidArity);
                }
                d += 1;
            }
            proof {
                assert(rv.take(rv.len() as int) =~= rv);
            }
            rules.push(new_rule);
            r += 1;
        }
        let out = Grammar { start, null, rules };
        proof {
            assert(cnf_shaped(gv.rules, gv.start));
            assert forall|k: int| 0 <= k < out@.rules.len() implies #[trigger] out@.rules[k]
                == conv_rule(gv.rules[k]) by {
                assert(out@.rules[k] == cdef_view(out.rules@[k]));
            }
            if gv.wf() && terminals_nonempty(gv.rules) {
                assert forall|k: int, d: int|
                    0 <= k < out@.rules.len() && 0 <= d < out@.rules[k].len() implies match (
                #[trigger] out@.rules[k][d]) {
                    DefModel::Term(t) => t.len() > 0,
                    DefModel::Product(a, b) => 0 <= a < out@.rules.len() && 0 <= b
                        < out@.rules.len(),
                } by {
                    assert(out@.rules[k] == conv_rule(gv.rules[k]));
                    lemma_conv_rule_elem(gv.rules[k], d);
                    let d0 = choose|d0: int|
                        0 <= d0 < gv.rules[k].len() && conv_def(#[trigger] gv.rules[k][d0])
                            == Option::Some(conv_rule(gv.rules[k])[d]);
                    assert(def_error(gv.start, k, gv.rules[k][d0]) is None);
                }
            }
        }
        Result::Ok(out)
    }
}

/// Rule `nt` derives the word `w` with a derivation tree of depth at
/// most `k`.
pub open spec fn derives_k(rules: Seq<Seq<DefModel>>, nt: int, w: Seq<char>, k: nat) -> bool
    decreases k,
{
    k > 0 && 0 <= nt < rules.len() && exists|d: int|
        0 <= d < rules[nt].len() && ({
            let def = #[trigger] rules[nt][d];
            ||| (def is Term && w == def->Term_0)
            ||| (def is Product && exists|i: int|
                1 <= i < w.len() && derives_k(rules, def->Product_0, #[trigger] w.take(i), (k
                    - 1) as nat) && derives_k(rules, def->Product_1, w.skip(i), (k - 1) as nat))
        })
}

/// Rule `nt` derives the word `w`.
pub open spec fn derives(rules: Seq<Seq<DefModel>>, nt: int, w: Seq<char>) -> bool {
    exists|k: nat| derives_k(rules, nt, w, k)
}

pub proof fn lemma_derives_mono(rules: Seq<Seq<DefModel>>, nt: int, w: Seq<char>, k1: nat, k2: nat)
    requires
        derives_k(rules, nt, w, k1),
        k1 <= k2,
    ensures
        derives_k(rules, nt, w, k2),
    decreases k1,
{
    let d = choose|d: int|
        0 <= d < rules[nt].len() && ({
            let def = #[trigger] rules[nt][d];
            ||| (def is Term && w == def->Term_0)
            ||| (def is Product && exists|i: int|
                1 <= i < w.len() && derives_k(rules, def->Product_0, #[trigger] w.take(i), (k1
                    - 1) as nat) && derives_k(rules, def->Product_1, w.skip(i), (k1 - 1) as nat))
        });
    let def = rules[nt][d];
    if def is Product {
        if exists|i: int|
            1 <= i < w.len() && derives_k(rules, def->Product_0, #[trigger] w.take(i), (k1
                - 1) as nat) && derives_k(rules, def->Product_1, w.skip(i), (k1 - 1) as nat) {
            let i = choose|i: int|
                1 <= i < w.len() && derives_k(rules, def->Product_0, #[trigger] w.take(i), (k1
                    - 1) as nat) && derives_k(rules, def->Product_1, w.skip(i), (k1 - 1) as nat);
            lemma_derives_mono(rules, def->Product_0, w.take(i), (k1 - 1) as nat, (k2 - 1) as nat);
            lemma_derives_mono(rules, def->Product_1, w.skip(i), (k1 - 1) as nat, (k2 - 1) as nat);
        }
    }
}

/// One unfolding of `derives`: a word is derived by a terminal
/// alternative that equals it, or split in two by a product alternative.
pub proof fn lemma_derives_unfold(rules: Seq<Seq<DefModel>>, nt: int, w: Seq<char>)
    ensures
        derives(rules, nt, w) <==> (0 <= nt < rules.len() && exists|d: int|
            0 <= d < rules[nt].len() && ({
                let def = #[trigger] rules[nt][d];
                ||| (def is Term && w == def->Term_0)
                ||| (def is Product && exists|i: int|
                    1 <= i < w.len() && derives(rules, def->Product_0, #[trigger] w.take(i))
                        && derives(rules, def->Product_1, w.skip(i)))
            })),
{
    if derives(rules, nt, w) {
        let k = choose|k: nat| derives_k(rules, nt, w, k);
        let d = choose|d: int|
            0 <= d < rules[nt].len() && ({
                let def = #[trigger] rules[nt][d];
                ||| (def is Term && w == def->Term_0)
                ||| (def is Product && exists|i: int|
                    1 <= i < w.len() && derives_k(rules, def->Product_0, #[trigger] w.take(i), (k
                        - 1) as nat) && derives_k(rules, def->Product_1, w.skip(i), (k - 1) as nat))
            });
        let def = rules[nt][d];
        if def is Product && exists|i: int|
            1 <= i < w.len() && derives_k(rules, def->Product_0, #[trigger] w.take(i), (k
                - 1) as nat) && derives_k(rules, def->Product_1, w.skip(i), (k - 1) as nat) {
            let i = choose|i: int|
                1 <= i < w.len() && derives_k(rules, def->Product_0, #[trigger] w.take(i), (k
                    - 1) as nat) && derives_k(rules, def->Product_1, w.skip(i), (k - 1) as nat);
            assert(derives(rules, def->Product_0, w.take(i)));
            assert(derives(rules, def->Product_1, w.skip(i)));
        }
    }
    if 0 <= nt < rules.len() && exists|d: int|
        0 <= d < rules[nt].len() && ({
            let def = #[trigger] rules[nt][d];
            ||| (def is Term && w == def->Term_0)
            ||| (def is Product && exists|i: int|
                1 <= i < w.len() && derives(rules, def->Product_0, #[trigger] w.take(i)) && derives(
                    rules,
                    def->Product_1,
                    w.skip(i),
                ))
        }) {
        let d = choose|d: int|
            0 <= d < rules[nt].len() && ({
                let def = #[trigger] rules[nt][d];
                ||| (def is Term && w == def->Term_0)
                ||| (def is Product && exists|i: int|
                    1 <= i < w.len() && derives(rules, def->Product_0, #[trigger] w.take(i))
                        && derives(rules, def->Product_1, w.skip(i)))
            });
        let def = rules[nt][d];
        if def is Term && w == def->Term_0 {
            assert(derives_k(rules, nt, w, 1));
            assert(derives(rules, nt, w));
        } else {
            let i = choose|i: int|
                1 <= i < w.len() && derives(rules, def->Product_0, #[trigger] w.take(i)) && derives(
                    rules,
                    def->Product_1,
                    w.skip(i),
                );
            let k1 = choose|k1: nat| derives_k(rules, def->Product_0, w.take(i), k1);
            let k2 = choose|k2: nat| derives_k(rules, def->Product_1, w.skip(i), k2);
            let kk: nat = if k1 > k2 {
                k1
            } else {
                k2
            };
            lemma_derives_mono(rules, def->Product_0, w.take(i), k1, kk);
            lemma_derives_mono(rules, def->Product_1, w.skip(i), k2, kk);
            assert(derives_k(rules, nt, w, kk + 1));
            assert(derives(rules, nt, w));
        }
    }
}

/// The table dimensions the membership test works with.
pub open spec fn dims(p: Seq<Vec<Vec<bool>>>, rl: int, nn: int) -> bool {
    &&& p.len() == rl
    &&& forall|r: int| 0 <= r < rl ==> (#[trigger] p[r])@.len() == nn
    &&& forall|r: int, s: int|
        0 <= r < rl && 0 <= s < nn ==> (#[trigger] p[r]@[s])@.len() == nn + 1
}

/// One table entry.
pub open spec fn pv(p: Seq<Vec<Vec<bool>>>, r: int, s: int, e: int) -> bool {
    p[r]@[s]@[e]
}

/// Rule `r` has a terminal alternative `d` matching the word at `s`.
pub open spec fn tmatch(rules: Seq<Seq<DefModel>>, w: Seq<char>, r: int, d: int, s: int) -> bool {
    &&& rules[r][d] is Term
    &&& s + rules[r][d]->Term_0.len() <= w.len()
    &&& w.subrange(s, s + rules[r][d]->Term_0.len() as int) == rules[r][d]->Term_0
}

/// Compares a span of the word with a terminal.
fn span_eq(chars: &Vec<char>, s: usize, t: &Vec<char>) -> (r: bool)
    requires
        s + t@.len() <= chars@.len(),
        chars@.len() <= usize::MAX,
    ensures
        r == (chars@.subrange(s as int, s + t@.len()) == t@),
{
    let mut i: usize = 0;
    while i < t.len()
        invariant
            i <= t@.len(),
            s + t@.len() <= chars@.len(),
            chars@.len() <= usize::MAX,
            forall|j: int| 0 <= j < i ==> chars@[s + j] == t@[j],
        decreases t.len() - i,
    {
        if chars[s + i] != t[i] {
            proof {
                assert(chars@.subrange(s as int, s + t@.len())[i as int] != t@[i as int]);
            }
            return false;
        }
        i += 1;
    }
    proof {
        assert(chars@.subrange(s as int, s + t@.len()) =~= t@);
    }
    true
}

impl Grammar {
    /// Whether the grammar accepts the given word, by the CYK
    /// dynamic-programming membership test: the empty word is accepted
    /// exactly when the `null` flag is set, and any other word exactly
    /// when the start rule derives it.
    pub fn accepts(&self, word: &str) -> (res: bool)
        requires
            self@.wf(),
        ensures
            word@.len() == 0 ==> res == self@.null,
            word@.len() > 0 ==> res == derives(self@.rules, self@.start, word@),
    {
        let ghost rules = self@.rules;
        let ghost wv = word@;
        let chars = crate::grammar::chars_of(word);
        let nn = chars.len();
        if nn == 0 {
            return self.null;
        }
        let rl = self.rules.len();
        // the table: one boolean per rule, span offset and span end
        let mut p: Vec<Vec<Vec<bool>>> = Vec::new();
        let mut a: usize = 0;
        while a < rl
            invariant
                a <= rl,
                p@.len() == a as int,
                forall|r: int| 0 <= r < a ==> (#[trigger] p@[r])@.len() == nn as int,
                forall|r: int, s: int|
                    0 <= r < a && 0 <= s < nn ==> (#[trigger] p@[r]@[s])@.len() == nn + 1,
                forall|r: int, s: int, e: int|
                    0 <= r < a && 0 <= s < nn && 0 <= e <= nn ==> !(#[trigger] p@[r]@[s]@[e]),
            decreases rl - a,
        {
            let mut row: Vec<Vec<bool>> = Vec::new();
            let mut b: usize = 0;
            while b < nn
                invariant
                    b <= nn,
                    row@.len() == b as int,
                    forall|s: int| 0 <= s < b ==> (#[trigger] row@[s])@.len() == nn + 1,
                    forall|s: int, e: int|
                        0 <= s < b && 0 <= e <= nn ==> !(#[trigger] row@[s]@[e]),
                decreases nn - b,
            {
                let mut col: Vec<bool> = Vec::new();
                let mut c: usize = 0;
                while c < nn
                    invariant
                        c <= nn,
                        col@.len() == c as int,
                        forall|e: int| 0 <= e < c ==> !(#[trigger] col@[e]),
                    decreases nn - c,
                {
                    col.push(false);
                    c += 1;
                }
                col.push(false);
                row.push(col);
                b += 1;
            }
            p.push(row);
            a += 1;
        }
        // base case: mark every span that equals a terminal alternative
        let mut rr: usize = 0;
        while rr < rl
            invariant
                rr <= rl,
                rl == self.rules@.len(),
                nn == chars@.len(),
                nn > 0,
                chars@ == wv,
                rules == self@.rules,
                rules.len() == rl as int,
                self@.wf(),
                dims(p@, rl as int, nn as int),
                forall|r: int, s: int, e: int|
                    0 <= r < rl && 0 <= s < nn && 0 <= e <= s ==> !pv(p@, r, s, e),
                forall|r: int, s: int, e: int|
                    0 <= r < rl && 0 <= s < nn && s < e <= nn && #[trigger] pv(p@, r, s, e)
                        ==> exists|d: int|
                        0 <= d < rules[r].len() && tmatch(rules, wv, r, d, s) && e == s
                            + rules[r][d]->Term_0.len(),
                forall|r: int, d: int, s: int|
                    0 <= r < rr && 0 <= d < rules[r].len() && 0 <= s < nn && #[trigger] tmatch(
                        rules,
                        wv,
                        r,
                        d,
                        s,
                    ) ==> pv(p@, r, s, s + rules[r][d]->Term_0.len()),
            decreases rl - rr,
        {
            let rule = &self.rules[rr];
            proof {
                assert(cdef_view(*rule) == rules[rr as int]);
            }
            let mut dd: usize = 0;
            while dd < rule.len()
                invariant
                    dd <= rule.len(),
                    rr < rl,
                    rl == self.rules@.len(),
                    nn == chars@.len(),
                    nn > 0,
                    chars@ == wv,
                    rules == self@.rules,
                    rules.len() == rl as int,
                    self@.wf(),
                    rule == &self.rules@[rr as int],
                    cdef_view(*rule) == rules[rr as int],
                    rules[rr as int].len() == rule@.len(),
                    dims(p@, rl as int, nn as int),
                    forall|r: int, s: int, e: int|
                        0 <= r < rl && 0 <= s < nn && 0 <= e <= s ==> !pv(p@, r, s, e),
                    forall|r: int, s: int, e: int|
                        0 <= r < rl && 0 <= s < nn && s < e <= nn && #[trigger] pv(p@, r, s, e)
                            ==> exists|d: int|
                            0 <= d < rules[r].len() && tmatch(rules, wv, r, d, s) && e == s
                                + rules[r][d]->Term_0.len(),
                    forall|r: int, d: int, s: int|
                        0 <= r < rr && 0 <= d < rules[r].len() && 0 <= s < nn && #[trigger] tmatch(
                            rules,
                            wv,
                            r,
                            d,
                            s,
                        ) ==> pv(p@, r, s, s + rules[r][d]->Term_0.len()),
                    forall|d: int, s: int|
                        0 <= d < dd && 0 <= s < nn && #[trigger] tmatch(rules, wv, rr as int, d, s)
                            ==> pv(p@, rr as int, s, s + rules[rr as int][d]->Term_0.len()),
                decreases rule.len() - dd,
            {
                proof {
                    assert(rules[rr as int][dd as int] == rule@[dd as int]@);
                }
                match &rule[dd] {
                    Definition::Product(_, _) => {
                        proof {
                            assert(!(rules[rr as int][dd as int] is Term));
                        }
                    },
                    Definition::Term(t) => {
                        proof {
                            assert(rules[rr as int][dd as int] == DefModel::Term(t@));
                        }
                        let tl = t.len();
                        let mut s: usize = 0;
                        while s < nn
                            invariant
                                s <= nn,
                                rr < rl,
                                dd < rule@.len(),
                                rl == self.rules@.len(),
                                nn == chars@.len(),
                                nn > 0,
                                chars@ == wv,
                                rules == self@.rules,
                                rules.len() == rl as int,
                                self@.wf(),
                                rule == &self.rules@[rr as int],
                                cdef_view(*rule) == rules[rr as int],
                                rules[rr as int].len() == rule@.len(),
                                rules[rr as int][dd as int] == DefModel::Term(t@),
                                tl == t@.len(),
                                dims(p@, rl as int, nn as int),
                                forall|r: int, s2: int, e: int|
                                    0 <= r < rl && 0 <= s2 < nn && 0 <= e <= s2 ==> !pv(p@, r, s2, e),
                                forall|r: int, s2: int, e: int|
                                    0 <= r < rl && 0 <= s2 < nn && s2 < e <= nn && #[trigger] pv(
                                        p@,
                                        r,
                                        s2,
                                        e,
                                    ) ==> exists|d: int|
                                        0 <= d < rules[r].len() && tmatch(rules, wv, r, d, s2) && e
                                            == s2 + rules[r][d]->Term_0.len(),
                                forall|r: int, d: int, s2: int|
                                    0 <= r < rr && 0 <= d < rules[r].len() && 0 <= s2 < nn
                                        && #[trigger] tmatch(rules, wv, r, d, s2) ==> pv(
                                        p@,
                                        r,
                                        s2,
                                        s2 + rules[r][d]->Term_0.len(),
                                    ),
                                forall|d: int, s2: int|
                                    0 <= d < dd && 0 <= s2 < nn && #[trigger] tmatch(
                                        rules,
                                        wv,
                                        rr as int,
                                        d,
                                        s2,
                                    ) ==> pv(p@, rr as int, s2, s2 + rules[rr as int][d]->Term_0.len()),
                                forall|s2: int|
                                    0 <= s2 < s && #[trigger] tmatch(rules, wv, rr as int, dd as int, s2)
                                        ==> pv(p@, rr as int, s2, s2 + tl as int),
                            decreases nn - s,
                        {
                            if tl <= nn && s <= nn - tl {
                                let eq = span_eq(&chars, s, t);
                                if eq {
                                    proof {
                                        assert(tmatch(rules, wv, rr as int, dd as int, s as int));
                                        assert(derives_k(rules, rr as int, wv.subrange(
                                            s as int,
                                            s + tl,
                                        ), 1));
                                    }
                                    let ghost p0 = p@;
                                    p[rr][s].set(s + tl, true);
                                    proof {
                                        assert(p@[rr as int]@[s as int]@ =~= p0[rr as int]@[
                                            s as int]@.update(s + tl, true));
                                        assert(forall|r2: int|
                                            0 <= r2 < rl && r2 != rr as int ==> p@[r2]
                                                == p0[r2]);
                                        assert(forall|s2: int|
                                            0 <= s2 < nn && s2 != s as int
                                                ==> p@[rr as int]@[s2] == p0[rr as int]@[s2]);
                                        assert(forall|r2: int, s2: int, e2: int|
                                            0 <= r2 < rl && 0 <= s2 < nn && 0 <= e2 <= nn as int
                                                && !(r2 == rr as int && s2 == s as int && e2 == s
                                                + tl) ==> #[trigger] pv(p@, r2, s2, e2) == pv(
                                                p0,
                                                r2,
                                                s2,
                                                e2,
                                            ));
                                    }
                                }
                            }
                            s += 1;
                        }
                    },
                }
                dd += 1;
            }
            rr += 1;
        }
        proof {
            // entries set so far are exactly the terminal matches, which
            // derive their spans; length-one spans have no other source
            assert forall|r: int, s: int, e: int|
                0 <= r < rl && 0 <= s < nn && s < e <= nn && #[trigger] pv(p@, r, s, e)
                    implies derives(rules, r, wv.subrange(s, e)) by {
                let d = choose|d: int|
                    0 <= d < rules[r].len() && tmatch(rules, wv, r, d, s) && e == s
                        + rules[r][d]->Term_0.len();
                assert(derives_k(rules, r, wv.subrange(s, e), 1));
            }
            assert forall|r: int, s: int, e: int|
                0 <= r < rl && 0 <= s < nn && s < e <= nn && e - s < 2 && derives(
                    rules,
                    r,
                    wv.subrange(s, e),
                ) implies pv(p@, r, s, e) by {
                lemma_derives_unfold(rules, r, wv.subrange(s, e));
                let d = choose|d: int|
                    0 <= d < rules[r].len() && ({
                        let def = #[trigger] rules[r][d];
                        ||| (def is Term && wv.subrange(s, e) == def->Term_0)
                        ||| (def is Product && exists|i: int|
                            1 <= i < wv.subrange(s, e).len() && derives(
                                rules,
                                def->Product_0,
                                #[trigger] wv.subrange(s, e).take(i),
                            ) && derives(rules, def->Product_1, wv.subrange(s, e).skip(i)))
                    });
                assert(rules[r][d] is Term);
                assert(tmatch(rules, wv, r, d, s));
            }
        }
        // inductive case: combine adjacent derived spans through products
        let mut lm1: usize = 1;
        while lm1 < nn
            invariant
                1 <= lm1 <= nn,
                rl == self.rules@.len(),
                nn == chars@.len(),
                nn > 0,
                chars@ == wv,
                rules == self@.rules,
                rules.len() == rl as int,
                self@.wf(),
                dims(p@, rl as int, nn as int),
                forall|r: int, s: int, e: int|
                    0 <= r < rl && 0 <= s < nn && 0 <= e <= s ==> !pv(p@, r, s, e),
                forall|r: int, s: int, e: int|
                    0 <= r < rl && 0 <= s < nn && s < e <= nn && #[trigger] pv(p@, r, s, e)
                        ==> derives(rules, r, wv.subrange(s, e)),
                forall|r: int, d: int, s: int|
                    0 <= r < rl && 0 <= d < rules[r].len() && 0 <= s < nn && #[trigger] tmatch(
                        rules,
                        wv,
                        r,
                        d,
                        s,
                    ) ==> pv(p@, r, s, s + rules[r][d]->Term_0.len()),
                forall|r: int, s: int, e: int|
                    0 <= r < rl && 0 <= s < nn && s < e <= nn && e - s <= lm1 as int && derives(
                        rules,
                        r,
                        wv.subrange(s, e),
                    ) ==> #[trigger] pv(p@, r, s, e),
            decreases nn - lm1,
        {
            let ln = lm1 + 1;
            let mut s: usize = 0;
            while s <= nn - ln
                invariant
                    2 <= ln <= nn,
                    s <= nn,
                    rl == self.rules@.len(),
                    nn == chars@.len(),
                    nn > 0,
                    chars@ == wv,
                    rules == self@.rules,
                    rules.len() == rl as int,
                    self@.wf(),
                    dims(p@, rl as int, nn as int),
                    forall|r: int, s2: int, e: int|
                        0 <= r < rl && 0 <= s2 < nn && 0 <= e <= s2 ==> !pv(p@, r, s2, e),
                    forall|r: int, s2: int, e: int|
                        0 <= r < rl && 0 <= s2 < nn && s2 < e <= nn && #[trigger] pv(p@, r, s2, e)
                            ==> derives(rules, r, wv.subrange(s2, e)),
                    forall|r: int, d: int, s2: int|
                        0 <= r < rl && 0 <= d < rules[r].len() && 0 <= s2 < nn && #[trigger] tmatch(
                            rules,
                            wv,
                            r,
                            d,
                            s2,
                        ) ==> pv(p@, r, s2, s2 + rules[r][d]->Term_0.len()),
                    forall|r: int, s2: int, e: int|
                        0 <= r < rl && 0 <= s2 < nn && s2 < e <= nn && e - s2 < ln as int
                            && derives(rules, r, wv.subrange(s2, e)) ==> #[trigger] pv(p@, r, s2, e),
                    forall|r: int, s2: int|
                        0 <= r < rl && 0 <= s2 < s && s2 + ln <= nn && derives(
                            rules,
                            r,
                            wv.subrange(s2, s2 + ln as int),
                        ) ==> #[trigger] pv(p@, r, s2, s2 + ln as int),
                decreases nn - s,
            {
                let mut pivot: usize = 0;
                while pivot < ln
                    invariant
                        pivot <= ln,
                        2 <= ln <= nn,
                        s + ln <= nn,
                        rl == self.rules@.len(),
                        nn == chars@.len(),
                        nn > 0,
                        chars@ == wv,
                        rules == self@.rules,
                        rules.len() == rl as int,
                        self@.wf(),
                        dims(p@, rl as int, nn as int),
                        forall|r: int, s2: int, e: int|
                            0 <= r < rl && 0 <= s2 < nn && 0 <= e <= s2 ==> !pv(p@, r, s2, e),
                        forall|r: int, s2: int, e: int|
                            0 <= r < rl && 0 <= s2 < nn && s2 < e <= nn && #[trigger] pv(
                                p@,
                                r,
                                s2,
                                e,
                            ) ==> derives(rules, r, wv.subrange(s2, e)),
                        forall|r: int, d: int, s2: int|
                            0 <= r < rl && 0 <= d < rules[r].len() && 0 <= s2 < nn
                                && #[trigger] tmatch(rules, wv, r, d, s2) ==> pv(
                                p@,
                                r,
                                s2,
                                s2 + rules[r][d]->Term_0.len(),
                            ),
                        forall|r: int, s2: int, e: int|
                            0 <= r < rl && 0 <= s2 < nn && s2 < e <= nn && e - s2 < ln as int
                                && derives(rules, r, wv.subrange(s2, e)) ==> #[trigger] pv(
                                p@,
                                r,
                                s2,
                                e,
                            ),
                        forall|r: int, s2: int|
                            0 <= r < rl && 0 <= s2 < s && s2 + ln <= nn && derives(
                                rules,
                                r,
                                wv.subrange(s2, s2 + ln as int),
                            ) ==> #[trigger] pv(p@, r, s2, s2 + ln as int),
                        forall|r: int, d: int, pv2: int|
                            #![trigger pv(p@, rules[r][d]->Product_0, s as int, s + pv2)]
                            0 <= r < rl && 0 <= d < rules[r].len() && 0 <= pv2 < pivot
                                && (rules[r][d]) is Product && pv(
                                p@,
                                rules[r][d]->Product_0,
                                s as int,
                                s + pv2,
                            ) && pv(p@, rules[r][d]->Product_1, s + pv2, s + ln as int) ==> pv(
                                p@,
                                r,
                                s as int,
                                s + ln as int,
                            ),
                    decreases ln - pivot,
                {
                    let mut rr2: usize = 0;
                    while rr2 < rl
                        invariant
                            rr2 <= rl,
                            pivot < ln,
                            2 <= ln <= nn,
                            s + ln <= nn,
                            rl == self.rules@.len(),
                            nn == chars@.len(),
                            nn > 0,
                            chars@ == wv,
                            rules == self@.rules,
                            rules.len() == rl as int,
                            self@.wf(),
                            dims(p@, rl as int, nn as int),
                            forall|r: int, s2: int, e: int|
                                0 <= r < rl && 0 <= s2 < nn && 0 <= e <= s2 ==> !pv(p@, r, s2, e),
                            forall|r: int, s2: int, e: int|
                                0 <= r < rl && 0 <= s2 < nn && s2 < e <= nn && #[trigger] pv(
                                    p@,
                                    r,
                                    s2,
                                    e,
                                ) ==> derives(rules, r, wv.subrange(s2, e)),
                            forall|r: int, d: int, s2: int|
                                0 <= r < rl && 0 <= d < rules[r].len() && 0 <= s2 < nn
                                    && #[trigger] tmatch(rules, wv, r, d, s2) ==> pv(
                                    p@,
                                    r,
                                    s2,
                                    s2 + rules[r][d]->Term_0.len(),
                                ),
                            forall|r: int, s2: int, e: int|
                                0 <= r < rl && 0 <= s2 < nn && s2 < e <= nn && e - s2 < ln as int
                                    && derives(rules, r, wv.subrange(s2, e)) ==> #[trigger] pv(
                                    p@,
                                    r,
                                    s2,
                                    e,
                                ),
                            forall|r: int, s2: int|
                                0 <= r < rl && 0 <= s2 < s && s2 + ln <= nn && derives(
                                    rules,
                                    r,
                                    wv.subrange(s2, s2 + ln as int),
                                ) ==> #[trigger] pv(p@, r, s2, s2 + ln as int),
                            forall|r: int, d: int, pv2: int|
                                #![trigger pv(p@, rules[r][d]->Product_0, s as int, s + pv2)]
                                0 <= r < rl && 0 <= d < rules[r].len() && 0 <= pv2 < pivot
                                    && (rules[r][d]) is Product && pv(
                                    p@,
                                    rules[r][d]->Product_0,
                                    s as int,
                                    s + pv2,
                                ) && pv(p@, rules[r][d]->Product_1, s + pv2, s + ln as int) ==> pv(
                                    p@,
                                    r,
                                    s as int,
                                    s + ln as int,
                                ),
                            forall|r: int, d: int|
                                0 <= r < rr2 && 0 <= d < rules[r].len() && (#[trigger] rules[r][d]) is Product
                                    && pv(p@, rules[r][d]->Product_0, s as int, s + pivot) && pv(
                                    p@,
                                    rules[r][d]->Product_1,
                                    s + pivot,
                                    s + ln as int,
                                ) ==> pv(p@, r, s as int, s + ln as int),
                        decreases rl - rr2,
                    {
                        let rule = &self.rules[rr2];
                        proof {
                            assert(cdef_view(*rule) == rules[rr2 as int]);
                        }
                        let mut dd2: usize = 0;
                        while dd2 < rule.len()
                            invariant
                                dd2 <= rule.len(),
                                rr2 < rl,
                                pivot < ln,
                                2 <= ln <= nn,
                                s + ln <= nn,
                                rl == self.rules@.len(),
                                nn == chars@.len(),
                                nn > 0,
                                chars@ == wv,
                                rules == self@.rules,
                                rules.len() == rl as int,
                                self@.wf(),
                                rule == &self.rules@[rr2 as int],
                                cdef_view(*rule) == rules[rr2 as int],
                                rules[rr2 as int].len() == rule@.len(),
                                dims(p@, rl as int, nn as int),
                                forall|r: int, s2: int, e: int|
                                    0 <= r < rl && 0 <= s2 < nn && 0 <= e <= s2 ==> !pv(
                                        p@,
                                        r,
                                        s2,
                                        e,
                                    ),
                                forall|r: int, s2: int, e: int|
                                    0 <= r < rl && 0 <= s2 < nn && s2 < e <= nn && #[trigger] pv(
                                        p@,
                                        r,
                                        s2,
                                        e,
                                    ) ==> derives(rules, r, wv.subrange(s2, e)),
                                forall|r: int, d: int, s2: int|
                                    0 <= r < rl && 0 <= d < rules[r].len() && 0 <= s2 < nn
                                        && #[trigger] tmatch(rules, wv, r, d, s2) ==> pv(
                                        p@,
                                        r,
                                        s2,
                                        s2 + rules[r][d]->Term_0.len(),
                                    ),
                                forall|r: int, s2: int, e: int|
                                    0 <= r < rl && 0 <= s2 < nn && s2 < e <= nn && e - s2 < ln as int
                                        && derives(rules, r, wv.subrange(s2, e)) ==> #[trigger] pv(
                                        p@,
                                        r,
                                        s2,
                                        e,
                                    ),
                                forall|r: int, s2: int|
                                    0 <= r < rl && 0 <= s2 < s && s2 + ln <= nn && derives(
                                        rules,
                                        r,
                                        wv.subrange(s2, s2 + ln as int),
                                    ) ==> #[trigger] pv(p@, r, s2, s2 + ln as int),
                                forall|r: int, d: int, pv2: int|
                                    #![trigger pv(p@, rules[r][d]->Product_0, s as int, s + pv2)]
                                    0 <= r < rl && 0 <= d < rules[r].len() && 0 <= pv2 < pivot
                                        && (rules[r][d]) is Product && pv(
                                        p@,
                                        rules[r][d]->Product_0,
                                        s as int,
                                        s + pv2,
                                    ) && pv(p@, rules[r][d]->Product_1, s + pv2, s + ln as int)
                                        ==> pv(p@, r, s as int, s + ln as int),
                                forall|r: int, d: int|
                                    0 <= r < rr2 && 0 <= d < rules[r].len() && (
                                    #[trigger] rules[r][d]) is Product && pv(
                                        p@,
                                        rules[r][d]->Product_0,
                                        s as int,
                                        s + pivot,
                                    ) && pv(p@, rules[r][d]->Product_1, s + pivot, s + ln as int)
                                        ==> pv(p@, r, s as int, s + ln as int),
                                forall|d: int|
                                    0 <= d < dd2 && (#[trigger] rules[rr2 as int][d]) is Product
                                        && pv(
                                        p@,
                                        rules[rr2 as int][d]->Product_0,
                                        s as int,
                                        s + pivot,
                                    ) && pv(
                                        p@,
                                        rules[rr2 as int][d]->Product_1,
                                        s + pivot,
                                        s + ln as int,
                                    ) ==> pv(p@, rr2 as int, s as int, s + ln as int),
                            decreases rule.len() - dd2,
                        {
                            proof {
                                assert(rules[rr2 as int][dd2 as int] == rule@[dd2 as int]@);
                            }
                            match &rule[dd2] {
                                Definition::Term(_) => {},
                                Definition::Product(c1, c2) => {
                                    proof {
                                        assert(rules[rr2 as int][dd2 as int] == DefModel::Product(
                                            *c1 as int,
                                            *c2 as int,
                                        ));
                                        assert((*c1 as int) < rl as int && (*c2 as int) < rl as int);
                                    }
                                    let left = if pivot == 0 {
                                        false
                                    } else {
                                        p[*c1][s][s + pivot]
                                    };
                                    let both = left && p[*c2][s + pivot][s + ln];
                                    if both {
                                        proof {
                                            assert(pv(p@, *c1 as int, s as int, s + pivot));
                                            assert(pv(p@, *c2 as int, s + pivot, s + ln));
                                            let u = wv.subrange(s as int, s + ln as int);
                                            let lw = wv.subrange(s as int, s + pivot);
                                            let rw = wv.subrange(s + pivot, s + ln as int);
                                            assert(lw =~= u.take(pivot as int));
                                            assert(rw =~= u.skip(pivot as int));
                                            assert(derives(rules, *c1 as int, lw));
                                            assert(derives(rules, *c2 as int, rw));
                                            lemma_derives_unfold(rules, rr2 as int, u);
                                            assert(1 <= (pivot as int) && (pivot as int) < u.len());
                                            assert(derives(rules, rr2 as int, u));
                                        }
                                        let ghost p0 = p@;
                                        p[rr2][s].set(s + ln, true);
                                        proof {
                                            assert(p@[rr2 as int]@[s as int]@ =~= p0[rr2 as int]@[
                                                s as int]@.update(s + ln, true));
                                            assert(forall|r2: int|
                                                0 <= r2 < rl && r2 != rr2 as int ==> p@[r2]
                                                    == p0[r2]);
                                            assert(forall|s2: int|
                                                0 <= s2 < nn && s2 != s as int
                                                    ==> p@[rr2 as int]@[s2] == p0[rr2 as int]@[
                                                    s2]);
                                            assert(forall|r2: int, s2: int, e2: int|
                                                0 <= r2 < rl && 0 <= s2 < nn && 0 <= e2
                                                    <= nn as int && !(r2 == rr2 as int && s2
                                                    == s as int && e2 == s + ln) ==> #[trigger] pv(
                                                    p@,
                                                    r2,
                                                    s2,
                                                    e2,
                                                ) == pv(p0, r2, s2, e2));
                                        }
                                    }
                                },
                            }
                            dd2 += 1;
                        }
                        rr2 += 1;
                    }
                    pivot += 1;
                }
                proof {
                    // after all pivots, the span of this offset and length
                    // holds exactly the deriving rules
                    assert forall|r: int|
                        0 <= r < rl && #[trigger] derives(rules, r, wv.subrange(s as int, s + ln as int))
                            implies pv(p@, r, s as int, s + ln as int) by {
                        let u = wv.subrange(s as int, s + ln as int);
                        lemma_derives_unfold(rules, r, u);
                        let d = choose|d: int|
                            0 <= d < rules[r].len() && ({
                                let def = #[trigger] rules[r][d];
                                ||| (def is Term && u == def->Term_0)
                                ||| (def is Product && exists|i: int|
                                    1 <= i < u.len() && derives(
                                        rules,
                                        def->Product_0,
                                        #[trigger] u.take(i),
                                    ) && derives(rules, def->Product_1, u.skip(i)))
                            });
                        let def = rules[r][d];
                        if def is Term && u == def->Term_0 {
                            assert(u.len() == ln as int);
                            assert(tmatch(rules, wv, r, d, s as int));
                            assert(pv(p@, r, s as int, s + def->Term_0.len()));
                        } else {
                            let i = choose|i: int|
                                1 <= i < u.len() && derives(rules, def->Product_0, #[trigger] u.take(i))
                                    && derives(rules, def->Product_1, u.skip(i));
                            assert(u.take(i) =~= wv.subrange(s as int, s + i));
                            assert(u.skip(i) =~= wv.subrange(s + i, s + ln as int));
                            assert(pv(p@, def->Product_0, s as int, s + i));
                            assert(pv(p@, def->Product_1, s + i, s + ln as int));
                        }
                    }
                }
                s += 1;
            }
            proof {
                assert forall|r: int, s2: int, e: int|
                    0 <= r < rl && 0 <= s2 < nn && s2 < e <= nn && e - s2 <= ln as int && derives(
                        rules,
                        r,
                        wv.subrange(s2, e),
                    ) implies pv(p@, r, s2, e) by {
                    if e - s2 == ln as int {
                        assert(s2 + ln <= nn);
                        assert(e == s2 + ln as int);
                        assert(derives(rules, r, wv.subrange(s2, s2 + ln as int)));
                        assert(pv(p@, r, s2, s2 + ln as int));
                    }
                }
            }
            lm1 += 1;
        }
        let res = p[self.start][0][nn];
        proof {
            assert(wv.subrange(0, nn as int) =~= wv);
            if res {
                assert(pv(p@, self@.start, 0, nn as int));
                assert(derives(rules, self@.start, wv.subrange(0, nn as int)));
                assert(derives(rules, self@.start, wv));
            } else {
                if derives(rules, self@.start, wv) {
                    assert(nn as int - 0 <= lm1 as int);
                    assert(pv(p@, self@.start, 0, nn as int));
                }
            }
        }
        res
    }
}

/// Normalization never leaves a grammar the conversion rejects: whatever
/// grammar `normalize` was given, its result is in Chomsky-compatible
/// shape, and `from_normalized` answers `Ok` exactly on such grammars —
/// so the conversion after normalization cannot return an error.
/// The two hypotheses are precisely what `Grammar::normalize` ensures of
/// its result and what `Grammar::from_normalized` ensures of its answer.
pub proof fn lemma_normalize_then_convert_never_errs(
    normalized: grammar::GrammarModel,
    answer: Result<Grammar, NormalFormError>,
)
    requires
        cnf_shaped(normalized.rules, normalized.start),
        (answer is Ok) == cnf_shaped(normalized.rules, normalized.start),
    ensures
        answer is Ok,
{
}

} // verus!
