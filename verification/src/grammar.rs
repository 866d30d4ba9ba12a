//! The generic grammar intermediate representation and its simplification
//! and Chomsky-Normal-Form normalization passes.

use vstd::prelude::*;
use vstd::string::StrSliceExecFns;

verus! {

/// An index into a grammar's rule table.
pub type NonTerminal = usize;

/// A terminal: an ordered sequence of characters.
pub type Terminal = Vec<char>;

/// One token of a production: a rule reference or a literal.
#[derive(Clone, PartialEq, Eq, Debug)]
pub enum Token {
    NT(NonTerminal),
    T(Terminal),
}

/// One alternative production: an ordered sequence of tokens.
pub type Definition = Vec<Token>;

/// All alternatives of one rule.
pub type Rule = Vec<Definition>;

/// The mathematical value of a [`Token`].
pub ghost enum TokenModel {
    NT(int),
    T(Seq<char>),
}

impl View for Token {
    type V = TokenModel;

    open spec fn view(&self) -> TokenModel {
        match self {
            Token::NT(nt) => TokenModel::NT(*nt as int),
            Token::T(t) => TokenModel::T(t@),
        }
    }
}

/// The mathematical value of a [`Definition`].
pub open spec fn def_view(d: Definition) -> Seq<TokenModel> {
    d@.map_values(|t: Token| t@)
}

/// The mathematical value of a [`Rule`].
pub open spec fn rule_view(r: Rule) -> Seq<Seq<TokenModel>> {
    r@.map_values(|d: Definition| def_view(d))
}

/// The mathematical value of a rule table.
pub open spec fn rules_view(rs: Seq<Rule>) -> Seq<Seq<Seq<TokenModel>>> {
    rs.map_values(|r: Rule| rule_view(r))
}

/// The mathematical value of a [`Grammar`].
pub ghost struct GrammarModel {
    pub start: int,
    pub rules: Seq<Seq<Seq<TokenModel>>>,
}

/// A context-free grammar: a start symbol and an indexed table of rules,
/// where every nonterminal is an index into that table.
#[derive(Debug)]
pub struct Grammar {
    pub start: usize,
    pub rules: Vec<Rule>,
}

impl View for Grammar {
    type V = GrammarModel;

    open spec fn view(&self) -> GrammarModel {
        GrammarModel { start: self.start as int, rules: rules_view(self.rules@) }
    }
}

impl TokenModel {
    /// Whether this token is a terminal literal.
    pub open spec fn is_terminal(self) -> bool {
        self is T
    }

    /// Whether this token is the empty terminal.
    pub open spec fn is_empty(self) -> bool {
        match self {
            TokenModel::T(t) => t.len() == 0,
            TokenModel::NT(_) => false,
        }
    }
}

/// Every nonterminal referenced in the rule table is a valid index into it.
pub open spec fn wf_rules(rules: Seq<Seq<Seq<TokenModel>>>) -> bool {
    forall|r: int, d: int, t: int|
        0 <= r < rules.len() && 0 <= d < rules[r].len() && 0 <= t < rules[r][d].len()
            && rules[r][d][t] is NT ==> 0 <= (#[trigger] rules[r][d][t])->NT_0 < rules.len()
}

/// No terminal token anywhere in the rule table is the empty string.
pub open spec fn terminals_nonempty(rules: Seq<Seq<Seq<TokenModel>>>) -> bool {
    forall|r: int, d: int, t: int|
        0 <= r < rules.len() && 0 <= d < rules[r].len() && 0 <= t < rules[r][d].len()
            && (#[trigger] rules[r][d][t]) is T ==> rules[r][d][t]->T_0.len() > 0
}

/// Every definition has the shape Chomsky Normal Form requires: empty
/// only at the start rule, a single terminal, or two rule references.
pub open spec fn cnf_shaped(rules: Seq<Seq<Seq<TokenModel>>>, start: int) -> bool {
    forall|r: int, d: int|
        0 <= r < rules.len() && 0 <= d < rules[r].len() ==> {
            let def = #[trigger] rules[r][d];
            &&& def.len() <= 2
            &&& (def.len() == 0 ==> r == start)
            &&& (def.len() == 1 ==> def[0] is T)
            &&& (def.len() == 2 ==> def[0] is NT && def[1] is NT)
        }
}

impl GrammarModel {
    /// Every nonterminal referenced anywhere, and the start itself, is a
    /// valid index into the rule table.
    pub open spec fn wf(self) -> bool {
        &&& 0 <= self.start < self.rules.len()
        &&& wf_rules(self.rules)
    }
}

impl Token {
    /// Whether this token is a terminal literal.
    pub fn is_terminal(&self) -> (r: bool)
        ensures
            r == self@.is_terminal(),
    {
        matches!(self, Token::T(_))
    }

    /// Whether this token is the empty terminal.
    pub fn is_empty(&self) -> (r: bool)
        ensures
            r == self@.is_empty(),
    {
        if let Token::T(t) = self {
            if t.len() == 0 {
                return true;
            }
        }
        false
    }
}

/// An exact copy of a token, stated over the token models.
pub fn copy_token(t: &Token) -> (r: Token)
    ensures
        r@ == t@,
{
    match t {
        Token::NT(nt) => Token::NT(*nt),
        Token::T(term) => Token::T(term.clone()),
    }
}

/// An exact copy of a definition.
pub fn copy_def(d: &Definition) -> (r: Definition)
    ensures
        def_view(r) == def_view(*d),
{
    let mut out: Definition = Vec::new();
    let mut i: usize = 0;
    while i < d.len()
        invariant
            i <= d.len(),
            out@.len() == i as int,
            forall|j: int| 0 <= j < i ==> out@[j]@ == d@[j]@,
        decreases d.len() - i,
    {
        out.push(copy_token(&d[i]));
        i += 1;
    }
    proof {
        assert(def_view(out) =~= def_view(*d));
    }
    out
}

/// An exact copy of a rule.
pub fn copy_rule(r: &Rule) -> (out: Rule)
    ensures
        rule_view(out) == rule_view(*r),
{
    let mut out: Rule = Vec::new();
    let mut i: usize = 0;
    while i < r.len()
        invariant
            i <= r.len(),
            out@.len() == i as int,
            forall|j: int| 0 <= j < i ==> def_view(out@[j]) == def_view(r@[j]),
        decreases r.len() - i,
    {
        out.push(copy_def(&r[i]));
        i += 1;
    }
    proof {
        assert(rule_view(out) =~= rule_view(*r));
    }
    out
}

impl Grammar {
    /// An empty grammar: no rules, start index zero.
    pub fn new() -> (g: Grammar)
        ensures
            g@.start == 0,
            g@.rules =~= Seq::<Seq<Seq<TokenModel>>>::empty(),
    {
        Grammar { start: 0, rules: Vec::new() }
    }

    /// Appends a new rule and returns its index.
    pub fn add_rule(&mut self, rule: Rule) -> (nt: NonTerminal)
        ensures
            final(self)@.rules =~= old(self)@.rules.push(rule_view(rule)),
            final(self)@.start == old(self)@.start,
            nt as int == old(self)@.rules.len(),
    {
        self.rules.push(rule);
        proof {
            assert(rules_view(self.rules@) =~= rules_view(old(self).rules@).push(
                rule_view(rule),
            ));
        }
        self.rules.len() - 1
    }
}

/// Relies on std's `String::push`: appends one character to the end of
/// the string.
#[verifier::external_body]
pub(crate) fn string_push_char(s: &mut String, c: char)
    ensures
        final(s)@ == old(s)@.push(c),
{
    s.push(c);
}

/// The characters of a string, in order.
pub fn chars_of(s: &str) -> (out: Vec<char>)
    ensures
        out@ == s@,
{
    let n = s.unicode_len();
    let mut out: Vec<char> = Vec::new();
    let mut i: usize = 0;
    while i < n
        invariant
            i <= n,
            n as nat == s@.len(),
            out@.len() == i as int,
            forall|j: int| 0 <= j < i ==> out@[j] == s@[j],
        decreases n - i,
    {
        out.push(s.get_char(i));
        i += 1;
    }
    proof {
        assert(out@ =~= s@);
    }
    out
}


/// The decimal digit a value below ten stands for.
pub open spec fn digit_char(d: int) -> char {
    if d == 0 {
        '0'
    } else if d == 1 {
        '1'
    } else if d == 2 {
        '2'
    } else if d == 3 {
        '3'
    } else if d == 4 {
        '4'
    } else if d == 5 {
        '5'
    } else if d == 6 {
        '6'
    } else if d == 7 {
        '7'
    } else if d == 8 {
        '8'
    } else {
        '9'
    }
}

/// The decimal rendering of a number, most significant digit first.
pub open spec fn dec_seq(n: int) -> Seq<char>
    decreases n,
{
    if n < 10 {
        seq![digit_char(n)]
    } else {
        dec_seq(n / 10) + seq![digit_char(n % 10)]
    }
}

/// The decimal rendering, right-aligned to at least three characters.
pub open spec fn padded_dec_seq(n: int) -> Seq<char> {
    if dec_seq(n).len() >= 3 {
        dec_seq(n)
    } else if dec_seq(n).len() == 2 {
        seq![' '] + dec_seq(n)
    } else {
        seq![' ', ' '] + dec_seq(n)
    }
}

/// How one token is rendered: a bare index, or a single-quoted terminal.
pub open spec fn token_dump(t: TokenModel) -> Seq<char> {
    match t {
        TokenModel::NT(m) => dec_seq(m),
        TokenModel::T(cs) => seq!['\''] + cs + seq!['\''],
    }
}

/// The space-separated tokens of an alternative, from position `t` on.
pub open spec fn def_dump_from(d: Seq<TokenModel>, t: int) -> Seq<char>
    decreases d.len() - t,
{
    if t < 0 || t >= d.len() {
        Seq::<char>::empty()
    } else {
        seq![' '] + token_dump(d[t]) + def_dump_from(d, t + 1)
    }
}

/// How one alternative is rendered: its tokens space-separated, or a
/// pair of double quotes when it is empty.
pub open spec fn def_dump(d: Seq<TokenModel>) -> Seq<char> {
    if d.len() == 0 {
        "\"\""@
    } else {
        token_dump(d[0]) + def_dump_from(d, 1)
    }
}

/// The bar-separated alternatives of a rule, from position `d` on.
pub open spec fn defs_dump_from(r: Seq<Seq<TokenModel>>, d: int) -> Seq<char>
    decreases r.len() - d,
{
    if d < 0 || d >= r.len() {
        Seq::<char>::empty()
    } else {
        " | "@ + def_dump(r[d]) + defs_dump_from(r, d + 1)
    }
}

/// How one rule line is rendered: the right-aligned index, an arrow,
/// the alternatives, or `undefined` for a rule with none.
pub open spec fn rule_dump(idx: int, r: Seq<Seq<TokenModel>>) -> Seq<char> {
    padded_dec_seq(idx) + " -> "@ + (if r.len() == 0 {
        "undefined"@
    } else {
        def_dump(r[0]) + defs_dump_from(r, 1)
    }) + seq!['\n']
}

/// The rule lines from index `idx` on.
pub open spec fn rules_dump(rules: Seq<Seq<Seq<TokenModel>>>, idx: int) -> Seq<char>
    decreases rules.len() - idx,
{
    if idx < 0 || idx >= rules.len() {
        Seq::<char>::empty()
    } else {
        rule_dump(idx, rules[idx]) + rules_dump(rules, idx + 1)
    }
}

/// The whole textual dump: a start line, then one line per rule.
pub open spec fn grammar_dump(g: GrammarModel) -> Seq<char> {
    "Start: "@ + dec_seq(g.start) + seq!['\n'] + rules_dump(g.rules, 0)
}

/// The decimal digits of a number, most significant first.
fn decimal_digits(n: usize) -> (out: Vec<char>)
    ensures
        out@ == dec_seq(n as int),
        out@.len() >= 1,
{
    let mut rev: Vec<char> = Vec::new();
    let mut m: usize = n;
    proof {
        if n > 0 {
            assert(dec_seq(n as int) + rev@.reverse() =~= dec_seq(n as int));
        }
    }
    loop
        invariant_except_break
            m > 0 ==> dec_seq(n as int) == dec_seq(m as int) + rev@.reverse(),
            m == 0 ==> rev@.len() == 0 && n == 0,
        ensures
            dec_seq(n as int) == rev@.reverse(),
            rev@.len() >= 1,
        decreases m,
    {
        let ghost rev0 = rev@;
        let ghost m0 = m as int;
        let d = m % 10;
        let c = if d == 0 {
            '0'
        } else if d == 1 {
            '1'
        } else if d == 2 {
            '2'
        } else if d == 3 {
            '3'
        } else if d == 4 {
            '4'
        } else if d == 5 {
            '5'
        } else if d == 6 {
            '6'
        } else if d == 7 {
            '7'
        } else if d == 8 {
            '8'
        } else {
            '9'
        };
        proof {
            assert(c == digit_char(m0 % 10));
        }
        rev.push(c);
        m = m / 10;
        proof {
            assert(rev@.reverse() =~= seq![digit_char(m0 % 10)] + rev0.reverse());
            if m0 == 0 {
                assert(dec_seq(n as int) =~= rev@.reverse());
            } else if m0 < 10 {
                assert(dec_seq(m0) == seq![digit_char(m0)]);
                assert(dec_seq(n as int) =~= rev@.reverse());
            } else {
                assert(dec_seq(m0) == dec_seq(m0 / 10) + seq![digit_char(m0 % 10)]);
                assert(dec_seq(m0 / 10) + seq![digit_char(m0 % 10)] + rev0.reverse()
                    =~= dec_seq(m0 / 10) + rev@.reverse());
            }
        }
        if m == 0 {
            break ;
        }
    }
    let mut out: Vec<char> = Vec::new();
    let mut i: usize = rev.len();
    while i > 0
        invariant
            i <= rev@.len(),
            out@.len() == rev@.len() - i,
            forall|k: int| 0 <= k < out@.len() ==> out@[k] == rev@[rev@.len() - 1 - k],
        decreases i,
    {
        i = i - 1;
        out.push(rev[i]);
    }
    proof {
        assert(out@ =~= rev@.reverse());
    }
    out
}

/// Appends a bare number to a string.
fn append_index(out: &mut String, n: usize)
    ensures
        final(out)@ == old(out)@ + dec_seq(n as int),
{
    let ghost o0 = out@;
    let digits = decimal_digits(n);
    let mut j: usize = 0;
    while j < digits.len()
        invariant
            j <= digits@.len(),
            digits@ == dec_seq(n as int),
            out@ == o0 + digits@.take(j as int),
        decreases digits.len() - j,
    {
        string_push_char(out, digits[j]);
        proof {
            assert(o0 + digits@.take(j as int) + seq![digits@[j as int]] =~= o0 + digits@.take(
                j + 1,
            ));
        }
        j += 1;
    }
    proof {
        assert(digits@.take(digits@.len() as int) =~= digits@);
    }
}

/// Appends a number to a string, right-aligned to at least three
/// characters.
fn append_padded_index(out: &mut String, n: usize)
    ensures
        final(out)@ == old(out)@ + padded_dec_seq(n as int),
{
    let ghost o0 = out@;
    let ghost pv = padded_dec_seq(n as int);
    let digits = decimal_digits(n);
    let mut pad: usize = 0;
    if digits.len() < 3 {
        pad = 3 - digits.len();
    }
    proof {
        assert(pv.len() == pad + digits@.len());
        assert(forall|k: int| 0 <= k < pad ==> pv[k] == ' ');
        assert(forall|k: int| 0 <= k < digits@.len() ==> pv[pad + k] == digits@[k]);
    }
    let mut i: usize = 0;
    while i < pad
        invariant
            i <= pad,
            pv == padded_dec_seq(n as int),
            pv.len() == pad + digits@.len(),
            forall|k: int| 0 <= k < pad ==> pv[k] == ' ',
            forall|k: int| 0 <= k < digits@.len() ==> pv[pad + k] == digits@[k],
            out@ == o0 + pv.take(i as int),
        decreases pad - i,
    {
        string_push_char(out, ' ');
        proof {
            assert(o0 + pv.take(i as int) + seq![pv[i as int]] =~= o0 + pv.take(i + 1));
        }
        i += 1;
    }
    let mut j: usize = 0;
    while j < digits.len()
        invariant
            j <= digits@.len(),
            pv == padded_dec_seq(n as int),
            pv.len() == pad + digits@.len(),
            forall|k: int| 0 <= k < digits@.len() ==> pv[pad + k] == digits@[k],
            out@ == o0 + pv.take(pad + j),
        decreases digits.len() - j,
    {
        string_push_char(out, digits[j]);
        proof {
            assert(o0 + pv.take(pad + j) + seq![pv[pad + j]] =~= o0 + pv.take(pad + j + 1));
        }
        j += 1;
    }
    proof {
        assert(pv.take(pv.len() as int) =~= pv);
    }
}

impl Grammar {
    /// A deterministic textual dump of the grammar, exactly as
    /// [`grammar_dump`] lays down: a first line naming the start rule,
    /// then one line per rule with its right-aligned index, an arrow,
    /// and the `|`-separated alternatives — terminals quoted in single
    /// quotes, rule references as bare indices, `""` for an empty
    /// alternative, and `undefined` for a rule with no alternatives.
    pub fn to_text(&self) -> (out: String)
        ensures
            out@ == grammar_dump(self@),
    {
        let ghost g = self@;
        let mut out = String::new();
        out.append("Start: ");
        append_index(&mut out, self.start);
        string_push_char(&mut out, '\n');
        proof {
            assert(out@ =~= "Start: "@ + dec_seq(g.start) + seq!['\n']);
        }
        let mut r: usize = 0;
        while r < self.rules.len()
            invariant
                r <= self.rules@.len(),
                g == self@,
                g.rules.len() == self.rules@.len(),
                out@ + rules_dump(g.rules, r as int) == grammar_dump(g),
            decreases self.rules@.len() - r,
        {
            let ghost o_r = out@;
            let ghost rv = g.rules[r as int];
            append_padded_index(&mut out, r);
            out.append(" -> ");
            let ghost base = o_r + padded_dec_seq(r as int) + " -> "@;
            proof {
                assert(out@ =~= base);
            }
            let rule = &self.rules[r];
            proof {
                assert(rv == rule_view(*rule));
                assert(rv.len() == rule@.len());
            }
            let mut d: usize = 0;
            while d < rule.len()
                invariant
                    d <= rule.len(),
                    g == self@,
                    rule == &self.rules@[r as int],
                    r < self.rules@.len(),
                    rv == rule_view(*rule),
                    rv == g.rules[r as int],
                    rv.len() == rule@.len(),
                    base == o_r + padded_dec_seq(r as int) + " -> "@,
                    d == 0 ==> out@ == base,
                    d >= 1 ==> out@ + defs_dump_from(rv, d as int) == base + def_dump(rv[0])
                        + defs_dump_from(rv, 1),
                decreases rule.len() - d,
            {
                let ghost o_d = out@;
                let ghost dv = rv[d as int];
                if d > 0 {
                    out.append(" | ");
                }
                let ghost dbase = out@;
                let def = &rule[d];
                proof {
                    assert(dv == def_view(rule@[d as int]));
                    assert(dv.len() == def@.len());
                }
                if def.len() == 0 {
                    out.append("\"\"");
                    proof {
                        assert(out@ =~= dbase + def_dump(dv));
                    }
                }
                let mut t: usize = 0;
                while t < def.len()
                    invariant
                        t <= def.len(),
                        def == &rule@[d as int],
                        dv == def_view(*def),
                        dv.len() == def@.len(),
                        dv.len() == 0 ==> out@ == dbase + def_dump(dv),
                        dv.len() > 0 && t == 0 ==> out@ == dbase,
                        t >= 1 ==> out@ + def_dump_from(dv, t as int) == dbase + token_dump(dv[0])
                            + def_dump_from(dv, 1),
                    decreases def.len() - t,
                {
                    let ghost o_t = out@;
                    if t > 0 {
                        string_push_char(&mut out, ' ');
                    }
                    let ghost tbase = out@;
                    match &def[t] {
                        Token::NT(nt) => {
                            proof {
                                assert(dv[t as int] == TokenModel::NT(*nt as int));
                            }
                            append_index(&mut out, *nt);
                            proof {
                                assert(out@ =~= tbase + token_dump(dv[t as int]));
                            }
                        },
                        Token::T(term) => {
                            proof {
                                assert(dv[t as int] == TokenModel::T(term@));
                            }
                            string_push_char(&mut out, '\'');
                            let ghost qbase = out@;
                            let mut c: usize = 0;
                            while c < term.len()
                                invariant
                                    c <= term@.len(),
                                    out@ == qbase + term@.take(c as int),
                                decreases term.len() - c,
                            {
                                string_push_char(&mut out, term[c]);
                                proof {
                                    assert(qbase + term@.take(c as int) + seq![term@[c as int]]
                                        =~= qbase + term@.take(c + 1));
                                }
                                c += 1;
                            }
                            string_push_char(&mut out, '\'');
                            proof {
                                assert(term@.take(term@.len() as int) =~= term@);
                                assert(out@ =~= tbase + token_dump(dv[t as int]));
                            }
                        },
                    }
                    proof {
                        if t == 0 {
                            assert(out@ =~= dbase + token_dump(dv[0]));
                            assert(out@ + def_dump_from(dv, 1) =~= dbase + token_dump(dv[0])
                                + def_dump_from(dv, 1));
                        } else {
                            assert(out@ =~= o_t + seq![' '] + token_dump(dv[t as int]));
                            assert(def_dump_from(dv, t as int) == seq![' '] + token_dump(
                                dv[t as int],
                            ) + def_dump_from(dv, t + 1));
                            assert(out@ + def_dump_from(dv, t + 1) =~= o_t + def_dump_from(
                                dv,
                                t as int,
                            ));
                        }
                    }
                    t += 1;
                }
                proof {
                    if dv.len() > 0 {
                        assert(def_dump_from(dv, dv.len() as int).len() == 0);
                        assert(out@ =~= dbase + def_dump(dv));
                    } else {
                        assert(out@ == dbase + def_dump(dv));
                    }
                    if d == 0 {
                        assert(dbase == base);
                        assert(out@ + defs_dump_from(rv, 1) =~= base + def_dump(rv[0])
                            + defs_dump_from(rv, 1));
                    } else {
                        assert(dbase =~= o_d + " | "@);
                        assert(defs_dump_from(rv, d as int) == " | "@ + def_dump(dv)
                            + defs_dump_from(rv, d + 1));
                        assert(out@ + defs_dump_from(rv, d + 1) =~= o_d + defs_dump_from(
                            rv,
                            d as int,
                        ));
                    }
                }
                d += 1;
            }
            if rule.len() == 0 {
                out.append("undefined");
            }
            string_push_char(&mut out, '\n');
            proof {
                if rv.len() == 0 {
                    assert(out@ =~= base + "undefined"@ + seq!['\n']);
                } else {
                    assert(defs_dump_from(rv, rv.len() as int).len() == 0);
                    assert(out@ =~= base + def_dump(rv[0]) + defs_dump_from(rv, 1) + seq!['\n']);
                }
                assert(out@ =~= o_r + rule_dump(r as int, rv));
                assert(rules_dump(g.rules, r as int) == rule_dump(r as int, rv) + rules_dump(
                    g.rules,
                    r + 1,
                ));
                assert(out@ + rules_dump(g.rules, r + 1) =~= o_r + rules_dump(g.rules, r as int));
            }
            r += 1;
        }
        proof {
            assert(rules_dump(g.rules, g.rules.len() as int).len() == 0);
            assert(out@ =~= grammar_dump(g));
        }
        out
    }
}

/// Whether one token yields the word `w` within `k` expansions of rule
/// references: a terminal yields its own text, a reference yields
/// whatever one of its rule's definitions yields.
pub open spec fn tok_derives(
    rules: Seq<Seq<Seq<TokenModel>>>,
    t: TokenModel,
    w: Seq<char>,
    k: nat,
) -> bool
    decreases k, 0int, 0int,
{
    match t {
        TokenModel::T(s) => w == s,
        TokenModel::NT(r) => k > 0 && 0 <= r < rules.len() && exists|d: int|
            0 <= d < rules[r].len() && def_derives(
                rules,
                #[trigger] rules[r][d],
                w,
                (k - 1) as nat,
            ),
    }
}

/// Whether a definition — a concatenation of tokens — yields `w`
/// within `k` expansions: some split of `w` gives each token its part.
pub open spec fn def_derives(
    rules: Seq<Seq<Seq<TokenModel>>>,
    def: Seq<TokenModel>,
    w: Seq<char>,
    k: nat,
) -> bool
    decreases k, 1int, def.len(),
{
    if def.len() == 0 {
        w.len() == 0
    } else {
        exists|i: int|
            0 <= i <= w.len() && tok_derives(rules, def[0], #[trigger] w.take(i), k)
                && def_derives(rules, def.drop_first(), w.skip(i), k)
    }
}

/// Whether the grammar yields `w` from its start rule in some number
/// of expansions: the grammar's language.
pub open spec fn g_derives(g: GrammarModel, w: Seq<char>) -> bool {
    exists|k: nat| #[trigger] tok_derives(g.rules, TokenModel::NT(g.start), w, k)
}

/// Every token of the definition references only the first
/// `bound` rules.
pub open spec fn def_refs_below(def: Seq<TokenModel>, bound: int) -> bool {
    forall|j: int| 0 <= j < def.len() && (#[trigger] def[j]) is NT ==> def[j]->NT_0 < bound
}

/// Appending a rule changes no derivation of a token over the rules
/// already there.
pub proof fn lemma_tok_derives_push(
    rules: Seq<Seq<Seq<TokenModel>>>,
    x: Seq<Seq<TokenModel>>,
    t: TokenModel,
    w: Seq<char>,
    k: nat,
)
    requires
        wf_rules(rules),
        t is NT ==> t->NT_0 < rules.len(),
    ensures
        tok_derives(rules.push(x), t, w, k) == tok_derives(rules, t, w, k),
    decreases k, 0int, 0int,
{
    match t {
        TokenModel::T(_) => {},
        TokenModel::NT(r) => {
            if k > 0 && 0 <= r {
                assert(rules.push(x)[r] == rules[r]);
                if tok_derives(rules.push(x), t, w, k) {
                    let d = choose|d: int|
                        0 <= d < rules.push(x)[r].len() && def_derives(
                            rules.push(x),
                            #[trigger] rules.push(x)[r][d],
                            w,
                            (k - 1) as nat,
                        );
                    assert(def_refs_below(rules[r][d], rules.len() as int)) by {
                        assert(forall|j: int|
                            0 <= j < rules[r][d].len() && (#[trigger] rules[r][d][j]) is NT
                                ==> rules[r][d][j]->NT_0 < rules.len());
                    }
                    lemma_def_derives_push(rules, x, rules[r][d], w, (k - 1) as nat);
                    assert(def_derives(rules, rules[r][d], w, (k - 1) as nat));
                    assert(tok_derives(rules, t, w, k));
                }
                if tok_derives(rules, t, w, k) {
                    let d = choose|d: int|
                        0 <= d < rules[r].len() && def_derives(
                            rules,
                            #[trigger] rules[r][d],
                            w,
                            (k - 1) as nat,
                        );
                    assert(def_refs_below(rules[r][d], rules.len() as int)) by {
                        assert(forall|j: int|
                            0 <= j < rules[r][d].len() && (#[trigger] rules[r][d][j]) is NT
                                ==> rules[r][d][j]->NT_0 < rules.len());
                    }
                    lemma_def_derives_push(rules, x, rules[r][d], w, (k - 1) as nat);
                    assert(def_derives(rules.push(x), rules.push(x)[r][d], w, (k - 1) as nat));
                    assert(tok_derives(rules.push(x), t, w, k));
                }
            }
        },
    }
}

/// Appending a rule changes no derivation of a definition over the
/// rules already there.
pub proof fn lemma_def_derives_push(
    rules: Seq<Seq<Seq<TokenModel>>>,
    x: Seq<Seq<TokenModel>>,
    def: Seq<TokenModel>,
    w: Seq<char>,
    k: nat,
)
    requires
        wf_rules(rules),
        def_refs_below(def, rules.len() as int),
    ensures
        def_derives(rules.push(x), def, w, k) == def_derives(rules, def, w, k),
    decreases k, 1int, def.len(),
{
    if def.len() > 0 {
        assert(def_refs_below(def.drop_first(), rules.len() as int)) by {
            assert(forall|j: int|
                0 <= j < def.drop_first().len() ==> #[trigger] def.drop_first()[j] == def[j
                    + 1]);
        }
        assert(def[0] is NT ==> def[0]->NT_0 < rules.len());
        if def_derives(rules.push(x), def, w, k) {
            let i = choose|i: int|
                0 <= i <= w.len() && tok_derives(rules.push(x), def[0], #[trigger] w.take(i), k)
                    && def_derives(rules.push(x), def.drop_first(), w.skip(i), k);
            lemma_tok_derives_push(rules, x, def[0], w.take(i), k);
            lemma_def_derives_push(rules, x, def.drop_first(), w.skip(i), k);
            assert(tok_derives(rules, def[0], w.take(i), k));
            assert(def_derives(rules, def.drop_first(), w.skip(i), k));
            assert(def_derives(rules, def, w, k));
        }
        if def_derives(rules, def, w, k) {
            let i = choose|i: int|
                0 <= i <= w.len() && tok_derives(rules, def[0], #[trigger] w.take(i), k)
                    && def_derives(rules, def.drop_first(), w.skip(i), k);
            lemma_tok_derives_push(rules, x, def[0], w.take(i), k);
            lemma_def_derives_push(rules, x, def.drop_first(), w.skip(i), k);
            assert(tok_derives(rules.push(x), def[0], w.take(i), k));
            assert(def_derives(rules.push(x), def.drop_first(), w.skip(i), k));
            assert(def_derives(rules.push(x), def, w, k));
        }
    }
}

/// Wrapping the start in a fresh unit rule keeps the language: the new
/// start yields exactly the words the old start did.
pub proof fn lemma_fresh_start_language(g: GrammarModel, g2: GrammarModel, w: Seq<char>)
    requires
        g.wf(),
        g2.start == g.rules.len(),
        g2.rules == g.rules.push(seq![seq![TokenModel::NT(g.start)]]),
    ensures
        g_derives(g2, w) == g_derives(g, w),
{
    let unit: Seq<TokenModel> = seq![TokenModel::NT(g.start)];
    assert(g2.rules[g2.start as int] == seq![unit]);
    assert(g2.rules[g2.start as int][0] == unit);
    if g_derives(g, w) {
        let k = choose|k: nat| #[trigger] tok_derives(g.rules, TokenModel::NT(g.start), w, k);
        lemma_tok_derives_push(g.rules, seq![unit], TokenModel::NT(g.start), w, k);
        assert(tok_derives(g2.rules, TokenModel::NT(g.start), w, k));
        assert(def_derives(g2.rules, unit, w, k)) by {
            assert(unit[0] == TokenModel::NT(g.start));
            assert(w.take(w.len() as int) =~= w);
            assert(unit.drop_first() =~= Seq::<TokenModel>::empty());
            assert(w.skip(w.len() as int).len() == 0);
            assert(def_derives(g2.rules, unit.drop_first(), w.skip(w.len() as int), k));
            assert(0 <= w.len() as int <= w.len() && tok_derives(
                g2.rules,
                unit[0],
                w.take(w.len() as int),
                k,
            ) && def_derives(g2.rules, unit.drop_first(), w.skip(w.len() as int), k));
        }
        assert(tok_derives(g2.rules, TokenModel::NT(g2.start), w, k + 1));
        assert(g_derives(g2, w));
    }
    if g_derives(g2, w) {
        let k = choose|k: nat| #[trigger] tok_derives(g2.rules, TokenModel::NT(g2.start), w, k);
        assert(k > 0);
        let d = choose|d: int|
            0 <= d < g2.rules[g2.start as int].len() && def_derives(
                g2.rules,
                #[trigger] g2.rules[g2.start as int][d],
                w,
                (k - 1) as nat,
            );
        assert(d == 0);
        assert(def_derives(g2.rules, unit, w, (k - 1) as nat));
        let i = choose|i: int|
            0 <= i <= w.len() && tok_derives(g2.rules, unit[0], #[trigger] w.take(i), (k
                - 1) as nat) && def_derives(g2.rules, unit.drop_first(), w.skip(i), (k - 1) as nat);
        assert(unit.drop_first() =~= Seq::<TokenModel>::empty());
        assert(w.skip(i).len() == 0);
        assert(i == w.len());
        assert(w.take(i) =~= w);
        assert(tok_derives(g2.rules, TokenModel::NT(g.start), w, (k - 1) as nat));
        lemma_tok_derives_push(g.rules, seq![unit], TokenModel::NT(g.start), w, (k - 1) as nat);
        assert(tok_derives(g.rules, TokenModel::NT(g.start), w, (k - 1) as nat));
        assert(g_derives(g, w));
    }
}

/// Two rule tables that hold the same definitions rule for rule — in
/// any order, with or without duplicates — give every token the same
/// derivations.
pub proof fn lemma_tok_derives_same_defs(
    rules: Seq<Seq<Seq<TokenModel>>>,
    rules2: Seq<Seq<Seq<TokenModel>>>,
    t: TokenModel,
    w: Seq<char>,
    k: nat,
)
    requires
        rules.len() == rules2.len(),
        forall|r: int, x: Seq<TokenModel>|
            0 <= r < rules.len() ==> (#[trigger] rules[r].contains(x) <==> #[trigger] rules2[r].contains(x)),
    ensures
        tok_derives(rules2, t, w, k) == tok_derives(rules, t, w, k),
    decreases k, 0int, 0int,
{
    match t {
        TokenModel::T(_) => {},
        TokenModel::NT(r) => {
            if k > 0 && 0 <= r < rules.len() {
                if tok_derives(rules, t, w, k) {
                    let d = choose|d: int|
                        0 <= d < rules[r].len() && def_derives(
                            rules,
                            #[trigger] rules[r][d],
                            w,
                            (k - 1) as nat,
                        );
                    assert(rules[r].contains(rules[r][d]));
                    assert(rules2[r].contains(rules[r][d]));
                    let d2 = choose|d2: int|
                        0 <= d2 < rules2[r].len() && rules2[r][d2] == rules[r][d];
                    lemma_def_derives_same_defs(rules, rules2, rules[r][d], w, (k - 1) as nat);
                    assert(def_derives(rules2, rules2[r][d2], w, (k - 1) as nat));
                    assert(tok_derives(rules2, t, w, k));
                }
                if tok_derives(rules2, t, w, k) {
                    let d = choose|d: int|
                        0 <= d < rules2[r].len() && def_derives(
                            rules2,
                            #[trigger] rules2[r][d],
                            w,
                            (k - 1) as nat,
                        );
                    assert(rules2[r].contains(rules2[r][d]));
                    assert(rules[r].contains(rules2[r][d]));
                    let d2 = choose|d2: int|
                        0 <= d2 < rules[r].len() && rules[r][d2] == rules2[r][d];
                    lemma_def_derives_same_defs(rules, rules2, rules2[r][d], w, (k - 1) as nat);
                    assert(def_derives(rules, rules[r][d2], w, (k - 1) as nat));
                    assert(tok_derives(rules, t, w, k));
                }
            }
        },
    }
}

/// Two rule tables that hold the same definitions rule for rule give
/// every definition the same derivations.
pub proof fn lemma_def_derives_same_defs(
    rules: Seq<Seq<Seq<TokenModel>>>,
    rules2: Seq<Seq<Seq<TokenModel>>>,
    def: Seq<TokenModel>,
    w: Seq<char>,
    k: nat,
)
    requires
        rules.len() == rules2.len(),
        forall|r: int, x: Seq<TokenModel>|
            0 <= r < rules.len() ==> (#[trigger] rules[r].contains(x) <==> #[trigger] rules2[r].contains(x)),
    ensures
        def_derives(rules2, def, w, k) == def_derives(rules, def, w, k),
    decreases k, 1int, def.len(),
{
    if def.len() > 0 {
        if def_derives(rules, def, w, k) {
            let i = choose|i: int|
                0 <= i <= w.len() && tok_derives(rules, def[0], #[trigger] w.take(i), k)
                    && def_derives(rules, def.drop_first(), w.skip(i), k);
            lemma_tok_derives_same_defs(rules, rules2, def[0], w.take(i), k);
            lemma_def_derives_same_defs(rules, rules2, def.drop_first(), w.skip(i), k);
            assert(def_derives(rules2, def, w, k));
        }
        if def_derives(rules2, def, w, k) {
            let i = choose|i: int|
                0 <= i <= w.len() && tok_derives(rules2, def[0], #[trigger] w.take(i), k)
                    && def_derives(rules2, def.drop_first(), w.skip(i), k);
            lemma_tok_derives_same_defs(rules, rules2, def[0], w.take(i), k);
            lemma_def_derives_same_defs(rules, rules2, def.drop_first(), w.skip(i), k);
            assert(def_derives(rules, def, w, k));
        }
    }
}

/// Reordering or deduplicating the definitions inside rules keeps the
/// language.
pub proof fn lemma_same_defs_language(g: GrammarModel, g2: GrammarModel, w: Seq<char>)
    requires
        g2.start == g.start,
        g2.rules.len() == g.rules.len(),
        forall|r: int, x: Seq<TokenModel>|
            0 <= r < g.rules.len() ==> (#[trigger] g.rules[r].contains(x) <==> #[trigger] g2.rules[r].contains(
                x,
            )),
    ensures
        g_derives(g2, w) == g_derives(g, w),
{
    if g_derives(g, w) {
        let k = choose|k: nat| #[trigger] tok_derives(g.rules, TokenModel::NT(g.start), w, k);
        lemma_tok_derives_same_defs(g.rules, g2.rules, TokenModel::NT(g.start), w, k);
        assert(tok_derives(g2.rules, TokenModel::NT(g2.start), w, k));
        assert(g_derives(g2, w));
    }
    if g_derives(g2, w) {
        let k = choose|k: nat| #[trigger] tok_derives(g2.rules, TokenModel::NT(g2.start), w, k);
        lemma_tok_derives_same_defs(g.rules, g2.rules, TokenModel::NT(g.start), w, k);
        assert(tok_derives(g.rules, TokenModel::NT(g.start), w, k));
        assert(g_derives(g, w));
    }
}

/// A derivation within `k` expansions is one within any larger bound.
pub proof fn lemma_tok_derives_mono(
    rules: Seq<Seq<Seq<TokenModel>>>,
    t: TokenModel,
    w: Seq<char>,
    k: nat,
    k2: nat,
)
    requires
        k <= k2,
        tok_derives(rules, t, w, k),
    ensures
        tok_derives(rules, t, w, k2),
    decreases k2, 0int, 0int,
{
    match t {
        TokenModel::T(_) => {},
        TokenModel::NT(r) => {
            let d = choose|d: int|
                0 <= d < rules[r].len() && def_derives(
                    rules,
                    #[trigger] rules[r][d],
                    w,
                    (k - 1) as nat,
                );
            lemma_def_derives_mono(rules, rules[r][d], w, (k - 1) as nat, (k2 - 1) as nat);
            assert(def_derives(rules, rules[r][d], w, (k2 - 1) as nat));
            assert(tok_derives(rules, t, w, k2));
        },
    }
}

/// A definition's derivation within `k` expansions is one within any
/// larger bound.
pub proof fn lemma_def_derives_mono(
    rules: Seq<Seq<Seq<TokenModel>>>,
    def: Seq<TokenModel>,
    w: Seq<char>,
    k: nat,
    k2: nat,
)
    requires
        k <= k2,
        def_derives(rules, def, w, k),
    ensures
        def_derives(rules, def, w, k2),
    decreases k2, 1int, def.len(),
{
    if def.len() > 0 {
        let i = choose|i: int|
            0 <= i <= w.len() && tok_derives(rules, def[0], #[trigger] w.take(i), k)
                && def_derives(rules, def.drop_first(), w.skip(i), k);
        lemma_tok_derives_mono(rules, def[0], w.take(i), k, k2);
        lemma_def_derives_mono(rules, def.drop_first(), w.skip(i), k, k2);
        assert(def_derives(rules, def, w, k2));
    }
}

/// A table that only loses definitions loses derivations at most: what
/// the smaller table derives, the larger one derives too.
pub proof fn lemma_tok_derives_sub_defs(
    rules: Seq<Seq<Seq<TokenModel>>>,
    rules2: Seq<Seq<Seq<TokenModel>>>,
    t: TokenModel,
    w: Seq<char>,
    k: nat,
)
    requires
        rules2.len() == rules.len(),
        forall|r: int, x: Seq<TokenModel>|
            0 <= r < rules.len() && #[trigger] rules2[r].contains(x)
                ==> #[trigger] rules[r].contains(x),
    ensures
        tok_derives(rules2, t, w, k) ==> tok_derives(rules, t, w, k),
    decreases k, 0int, 0int,
{
    match t {
        TokenModel::T(_) => {},
        TokenModel::NT(r) => {
            if tok_derives(rules2, t, w, k) {
                let d = choose|d: int|
                    0 <= d < rules2[r].len() && def_derives(
                        rules2,
                        #[trigger] rules2[r][d],
                        w,
                        (k - 1) as nat,
                    );
                assert(rules2[r].contains(rules2[r][d]));
                assert(rules[r].contains(rules2[r][d]));
                let d2 = choose|d2: int| 0 <= d2 < rules[r].len() && rules[r][d2] == rules2[r][d];
                lemma_def_derives_sub_defs(rules, rules2, rules2[r][d], w, (k - 1) as nat);
                assert(def_derives(rules, rules[r][d2], w, (k - 1) as nat));
                assert(tok_derives(rules, t, w, k));
            }
        },
    }
}

/// The definition-level half of [`lemma_tok_derives_sub_defs`].
pub proof fn lemma_def_derives_sub_defs(
    rules: Seq<Seq<Seq<TokenModel>>>,
    rules2: Seq<Seq<Seq<TokenModel>>>,
    def: Seq<TokenModel>,
    w: Seq<char>,
    k: nat,
)
    requires
        rules2.len() == rules.len(),
        forall|r: int, x: Seq<TokenModel>|
            0 <= r < rules.len() && #[trigger] rules2[r].contains(x)
                ==> #[trigger] rules[r].contains(x),
    ensures
        def_derives(rules2, def, w, k) ==> def_derives(rules, def, w, k),
    decreases k, 1int, def.len(),
{
    if def.len() > 0 && def_derives(rules2, def, w, k) {
        let i = choose|i: int|
            0 <= i <= w.len() && tok_derives(rules2, def[0], #[trigger] w.take(i), k)
                && def_derives(rules2, def.drop_first(), w.skip(i), k);
        lemma_tok_derives_sub_defs(rules, rules2, def[0], w.take(i), k);
        lemma_def_derives_sub_defs(rules, rules2, def.drop_first(), w.skip(i), k);
        assert(def_derives(rules, def, w, k));
    }
}

} // verus!
